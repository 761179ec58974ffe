//! Byte buffers with little-endian numbers.

use crate::anon_object;
use crate::haxe_string;
use crate::haxe_string::HaxeString;
use crate::text;
use crate::words;
use vstd::prelude::*;

verus! {

/// Smallest capacity of a new buffer.
pub const MINIMUM_CAPACITY: usize = 16;

/// A byte buffer: its bytes, and the number of bytes that its storage has room for.
pub struct HaxeBytes {
    pub data: Vec<u8>,
    pub cap: usize,
}

impl View for HaxeBytes {
    type V = Seq<u8>;

    open spec fn view(&self) -> Seq<u8> {
        self.data@
    }
}

impl HaxeBytes {
    /// The bytes fit into the storage.
    pub open spec fn wf(&self) -> bool {
        self.data@.len() <= self.cap
    }
}

/// Bytes of a buffer handle; none for null.
pub open spec fn opt_bytes(b: Option<&HaxeBytes>) -> Seq<u8> {
    match b {
        Some(b) => b@,
        None => Seq::empty(),
    }
}

/// Capacity of a new buffer.
pub open spec fn new_cap(len: nat) -> nat {
    if len < MINIMUM_CAPACITY {
        MINIMUM_CAPACITY as nat
    } else {
        len
    }
}

/// A buffer of `size` zeros; of none for a negative size.
pub fn haxe_bytes_alloc(size: i32) -> (b: HaxeBytes)
    ensures
        b.wf(),
        b@ == words::zeros(
            if size > 0 {
                size as nat
            } else {
                0
            },
        ),
        b.cap == new_cap(b@.len()),
{
    let n: usize = if size > 0 {
        size as usize
    } else {
        0
    };
    let cap: usize = if n < MINIMUM_CAPACITY {
        MINIMUM_CAPACITY
    } else {
        n
    };
    HaxeBytes { data: words::zero_bytes(n), cap }
}

/// The bytes of a string; none for a null string and for one that is not UTF-8.
pub fn haxe_bytes_of_string(s: Option<&HaxeString>) -> (b: HaxeBytes)
    ensures
        b.wf(),
        b@ == (if s is Some && vstd::utf8::valid_utf8(s->Some_0@) {
            s->Some_0@
        } else {
            Seq::empty()
        }),
{
    match s {
        None => empty_bytes(),
        Some(h) => match haxe_string::from_utf8(h.bytes()) {
            None => empty_bytes(),
            Some(_) => {
                let data: Vec<u8> = text::copy_all(h.bytes());
                let cap: usize = data.len();
                HaxeBytes { data, cap }
            },
        },
    }
}

fn empty_bytes() -> (b: HaxeBytes)
    ensures
        b.wf(),
        b@ == Seq::<u8>::empty(),
        b.cap == new_cap(0),
{
    let b = haxe_bytes_alloc(0);
    assert(b@ =~= Seq::empty());
    b
}

/// Number of bytes as a 32-bit integer; 0 for null.
pub fn haxe_bytes_length(bytes: Option<&HaxeBytes>) -> (n: i32)
    ensures
        n == opt_bytes(bytes).len() as i32,
{
    match bytes {
        None => 0,
        Some(b) => {
            let n: usize = b.data.len();
            #[verifier::truncate]
            (n as i32)
        },
    }
}

/// The byte at `pos`; 0 outside the buffer.
pub fn haxe_bytes_get(bytes: Option<&HaxeBytes>, pos: i32) -> (v: i32)
    ensures
        v == (if 0 <= pos < opt_bytes(bytes).len() {
            opt_bytes(bytes)[pos as int] as int
        } else {
            0
        }),
{
    match bytes {
        None => 0,
        Some(b) => {
            if pos < 0 || pos as usize >= b.data.len() {
                return 0;
            }
            b.data[pos as usize] as i32
        },
    }
}

/// Sets the byte at `pos` to the low byte of a value; nothing happens outside the buffer.
pub fn haxe_bytes_set(bytes: &mut HaxeBytes, pos: i32, value: i32)
    requires
        old(bytes).wf(),
    ensures
        final(bytes).wf(),
        final(bytes).cap == old(bytes).cap,
        final(bytes)@ == (if 0 <= pos < old(bytes)@.len() {
            old(bytes)@.update(pos as int, value as u8)
        } else {
            old(bytes)@
        }),
{
    if pos < 0 || pos as usize >= bytes.data.len() {
        return;
    }
    let byte: u8 = #[verifier::truncate]
    (value as u8);
    bytes.data.set(pos as usize, byte);
}

/// A part of a buffer lies inside it.
pub open spec fn inside(pos: int, len: int, n: nat) -> bool {
    0 <= pos && 0 <= len && pos + len <= n
}

/// A copy of `len` bytes from `pos` on; an empty buffer where they do not lie inside the buffer
/// or start at its end.
pub fn haxe_bytes_sub(bytes: Option<&HaxeBytes>, pos: i32, len: i32) -> (b: HaxeBytes)
    ensures
        b.wf(),
        b@ == (if inside(pos as int, len as int, opt_bytes(bytes).len()) && pos < opt_bytes(
            bytes,
        ).len() {
            opt_bytes(bytes).subrange(pos as int, pos + len)
        } else {
            Seq::empty()
        }),
        b.cap == new_cap(b@.len()),
{
    match bytes {
        None => empty_bytes(),
        Some(b) => {
            if pos < 0 || len < 0 {
                return empty_bytes();
            }
            let p: usize = pos as usize;
            let n: usize = len as usize;
            if p >= b.data.len() || n > b.data.len() - p {
                return empty_bytes();
            }
            let data: Vec<u8> = text::copy_range(b.data.as_slice(), p, p + n);
            let cap: usize = if n < MINIMUM_CAPACITY {
                MINIMUM_CAPACITY
            } else {
                n
            };
            HaxeBytes { data, cap }
        },
    }
}

/// `s` with `part` in place of what stood at `pos`.
pub open spec fn patched(s: Seq<u8>, pos: int, part: Seq<u8>) -> Seq<u8> {
    s.subrange(0, pos) + part + s.subrange(pos + part.len(), s.len() as int)
}

fn patch(data: &mut Vec<u8>, pos: usize, part: &[u8])
    requires
        pos + part@.len() <= old(data)@.len(),
    ensures
        final(data)@ == patched(old(data)@, pos as int, part@),
        final(data)@.len() == old(data)@.len(),
{
    let ghost before = data@;
    let total: usize = data.len();
    let mut i: usize = 0;
    assert(data@ =~= patched(before, pos as int, part@.take(0)));
    while i < part.len()
        invariant
            i <= part@.len(),
            pos + part@.len() <= before.len() == total,
            data@.len() == before.len(),
            data@ == patched(before, pos as int, part@.take(i as int)),
        decreases part@.len() - i,
    {
        data.set(pos + i, part[i]);
        i = i + 1;
        assert(data@ =~= patched(before, pos as int, part@.take(i as int)));
    }
    assert(part@.take(i as int) =~= part@);
}

/// Copies `len` bytes from one buffer to another; nothing happens where they do not lie inside
/// both.
pub fn haxe_bytes_blit(
    src: Option<&HaxeBytes>,
    src_pos: i32,
    dest: &mut HaxeBytes,
    dest_pos: i32,
    len: i32,
)
    requires
        old(dest).wf(),
    ensures
        final(dest).wf(),
        final(dest).cap == old(dest).cap,
        final(dest)@ == (if src is Some && len > 0 && inside(
            src_pos as int,
            len as int,
            opt_bytes(src).len(),
        ) && inside(dest_pos as int, len as int, old(dest)@.len()) {
            patched(
                old(dest)@,
                dest_pos as int,
                opt_bytes(src).subrange(src_pos as int, src_pos + len),
            )
        } else {
            old(dest)@
        }),
{
    match src {
        None => {},
        Some(s) => {
            if src_pos < 0 || dest_pos < 0 || len <= 0 {
                return;
            }
            let from: usize = src_pos as usize;
            let to: usize = dest_pos as usize;
            let n: usize = len as usize;
            if from > s.data.len() || n > s.data.len() - from || to > dest.data.len() || n
                > dest.data.len() - to {
                return;
            }
            let part: Vec<u8> = text::copy_range(s.data.as_slice(), from, from + n);
            patch(&mut dest.data, to, part.as_slice());
        },
    }
}

/// Copies `len` bytes inside one buffer, as if by way of another; nothing happens where they do
/// not lie inside it.
pub fn haxe_bytes_blit_within(bytes: &mut HaxeBytes, src_pos: i32, dest_pos: i32, len: i32)
    requires
        old(bytes).wf(),
    ensures
        final(bytes).wf(),
        final(bytes).cap == old(bytes).cap,
        final(bytes)@ == (if len > 0 && inside(src_pos as int, len as int, old(bytes)@.len())
            && inside(dest_pos as int, len as int, old(bytes)@.len()) {
            patched(
                old(bytes)@,
                dest_pos as int,
                old(bytes)@.subrange(src_pos as int, src_pos + len),
            )
        } else {
            old(bytes)@
        }),
{
    if src_pos < 0 || dest_pos < 0 || len <= 0 {
        return;
    }
    let from: usize = src_pos as usize;
    let to: usize = dest_pos as usize;
    let n: usize = len as usize;
    if from > bytes.data.len() || n > bytes.data.len() - from || to > bytes.data.len() || n
        > bytes.data.len() - to {
        return;
    }
    let part: Vec<u8> = text::copy_range(bytes.data.as_slice(), from, from + n);
    patch(&mut bytes.data, to, part.as_slice());
}

/// Sets `len` bytes from `pos` on to the low byte of a value; nothing happens where they do not
/// lie inside the buffer.
pub fn haxe_bytes_fill(bytes: &mut HaxeBytes, pos: i32, len: i32, value: i32)
    requires
        old(bytes).wf(),
    ensures
        final(bytes).wf(),
        final(bytes).cap == old(bytes).cap,
        final(bytes)@ == (if len > 0 && inside(pos as int, len as int, old(bytes)@.len()) {
            patched(old(bytes)@, pos as int, Seq::new(len as nat, |i: int| value as u8))
        } else {
            old(bytes)@
        }),
{
    if pos < 0 || len <= 0 {
        return;
    }
    let p: usize = pos as usize;
    let n: usize = len as usize;
    if p > bytes.data.len() || n > bytes.data.len() - p {
        return;
    }
    let byte: u8 = #[verifier::truncate]
    (value as u8);
    let mut part: Vec<u8> = Vec::new();
    while part.len() < n
        invariant
            part@.len() <= n,
            forall|i: int| 0 <= i < part@.len() ==> part@[i] == byte,
        decreases n - part@.len(),
    {
        part.push(byte);
    }
    assert(part@ =~= Seq::new(len as nat, |i: int| value as u8));
    patch(&mut bytes.data, p, part.as_slice());
}

/// Order of two buffers: by the first byte in which they differ, else the difference of their
/// lengths; null comes first.
pub open spec fn bytes_order(a: Option<&HaxeBytes>, b: Option<&HaxeBytes>) -> int {
    match (a, b) {
        (None, None) => 0,
        (None, Some(_)) => -1,
        (Some(_), None) => 1,
        (Some(x), Some(y)) => {
            let n = if x@.len() < y@.len() {
                x@.len() as int
            } else {
                y@.len() as int
            };
            let head = text::lex_order(x@.take(n), y@.take(n));
            if head != 0 {
                head
            } else {
                x@.len() - y@.len()
            }
        },
    }
}

/// Compares two buffers.
pub fn haxe_bytes_compare(a: Option<&HaxeBytes>, b: Option<&HaxeBytes>) -> (r: i32)
    requires
        opt_bytes(a).len() <= i32::MAX,
        opt_bytes(b).len() <= i32::MAX,
    ensures
        r == bytes_order(a, b),
{
    match (a, b) {
        (None, None) => 0,
        (None, Some(_)) => -1,
        (Some(_), None) => 1,
        (Some(x), Some(y)) => {
            let n: usize = if x.data.len() < y.data.len() {
                x.data.len()
            } else {
                y.data.len()
            };
            let p: Vec<u8> = text::copy_range(x.data.as_slice(), 0, n);
            let q: Vec<u8> = text::copy_range(y.data.as_slice(), 0, n);
            assert(p@ =~= x@.take(n as int));
            assert(q@ =~= y@.take(n as int));
            let head: i32 = text::order(p.as_slice(), q.as_slice());
            if head != 0 {
                return head;
            }
            x.data.len() as i32 - y.data.len() as i32
        },
    }
}

/// Comparing two buffers the other way round turns the answer round.
pub proof fn law_bytes_order_antisymmetric(a: Option<&HaxeBytes>, b: Option<&HaxeBytes>)
    ensures
        bytes_order(a, b) == -bytes_order(b, a),
{
    if let (Some(x), Some(y)) = (a, b) {
        let n = if x@.len() < y@.len() {
            x@.len() as int
        } else {
            y@.len() as int
        };
        text::lemma_lex_order_antisymmetric(x@.take(n), y@.take(n));
    }
}

/// Buffers compare as equal only where they hold the same bytes.
pub proof fn law_bytes_order_zero(a: &HaxeBytes, b: &HaxeBytes)
    ensures
        bytes_order(Some(a), Some(b)) == 0 <==> a@ == b@,
{
    let n = if a@.len() < b@.len() {
        a@.len() as int
    } else {
        b@.len() as int
    };
    text::lemma_lex_order_zero(a@.take(n), b@.take(n));
    if a@.len() == b@.len() {
        assert(a@.take(n) =~= a@);
        assert(b@.take(n) =~= b@);
    }
}

/// The bytes as a string; what is not UTF-8 is replaced.
pub fn haxe_bytes_to_string(bytes: Option<&HaxeBytes>) -> (s: HaxeString)
    ensures
        s.exact(
            match bytes {
                Some(b) => anon_object::lossy_bytes(b@),
                None => Seq::empty(),
            },
        ),
{
    match bytes {
        None => {
            let none: Vec<u8> = Vec::new();
            assert(none@ =~= Seq::empty());
            HaxeString::from_vec(none)
        },
        Some(b) => HaxeString::from_vec(anon_object::utf8_lossy(b.data.as_slice())),
    }
}

/// The `width` bytes at `pos` as an unsigned number; 0 where they do not lie inside the buffer.
pub open spec fn word_at(s: Seq<u8>, pos: int, width: int) -> nat {
    if inside(pos, width, s.len()) {
        words::le_value(s.subrange(pos, pos + width))
    } else {
        0
    }
}

fn get_word(bytes: Option<&HaxeBytes>, pos: i32, width: usize) -> (v: u64)
    requires
        0 < width <= 8,
    ensures
        v == word_at(opt_bytes(bytes), pos as int, width as int),
        v < words::pow256(width as nat),
{
    proof {
        words::lemma_pow256();
        words::lemma_pow256_monotone(1, width as nat);
    }
    match bytes {
        None => 0,
        Some(b) => {
            if pos < 0 {
                return 0;
            }
            let p: usize = pos as usize;
            if p > b.data.len() || width > b.data.len() - p {
                return 0;
            }
            let part: Vec<u8> = text::copy_range(b.data.as_slice(), p, p + width);
            proof {
                words::lemma_le_value_bound(part@);
            }
            words::read_le(part.as_slice())
        },
    }
}

/// The bytes after a number of `width` bytes was written at `pos`.
pub open spec fn with_word(s: Seq<u8>, pos: int, value: nat, width: nat) -> Seq<u8> {
    if inside(pos, width as int, s.len()) {
        patched(s, pos, words::le_bytes(value, width))
    } else {
        s
    }
}

fn set_word(bytes: &mut HaxeBytes, pos: i32, value: u64, width: usize)
    requires
        old(bytes).wf(),
        0 < width <= 8,
    ensures
        final(bytes).wf(),
        final(bytes).cap == old(bytes).cap,
        final(bytes)@ == with_word(old(bytes)@, pos as int, value as nat, width as nat),
{
    if pos < 0 {
        return;
    }
    let p: usize = pos as usize;
    if p > bytes.data.len() || width > bytes.data.len() - p {
        return;
    }
    let part: Vec<u8> = words::write_le(value, width);
    proof {
        words::lemma_le_bytes_len(value as nat, width as nat);
    }
    patch(&mut bytes.data, p, part.as_slice());
}

/// What was written is read back, at every place inside the buffer.
pub proof fn law_word_round_trip(s: Seq<u8>, pos: int, value: nat, width: nat)
    requires
        inside(pos, width as int, s.len()),
        value < words::pow256(width),
    ensures
        with_word(s, pos, value, width).len() == s.len(),
        word_at(with_word(s, pos, value, width), pos, width as int) == value,
{
    words::lemma_le_bytes_len(value, width);
    words::lemma_write_read(value, width);
    let t = with_word(s, pos, value, width);
    assert(t.subrange(pos, pos + width) =~= words::le_bytes(value, width));
}

/// Writing a number changes no byte outside its place.
pub proof fn law_word_leaves_the_rest(s: Seq<u8>, pos: int, value: nat, width: nat, i: int)
    requires
        0 <= i < s.len(),
        i < pos || i >= pos + width,
    ensures
        with_word(s, pos, value, width)[i] == s[i],
{
    words::lemma_le_bytes_len(value, width);
}

/// The signed 16-bit integer at `pos`; 0 outside the buffer.
pub fn haxe_bytes_get_int16(bytes: Option<&HaxeBytes>, pos: i32) -> (v: i32)
    ensures
        v == (word_at(opt_bytes(bytes), pos as int, 2) as u16) as i16,
{
    let w: u64 = get_word(bytes, pos, 2);
    proof {
        words::lemma_pow256();
    }
    let h: u16 = w as u16;
    let i: i16 = #[verifier::truncate]
    (h as i16);
    i as i32
}

/// The signed 32-bit integer at `pos`; 0 outside the buffer.
pub fn haxe_bytes_get_int32(bytes: Option<&HaxeBytes>, pos: i32) -> (v: i32)
    ensures
        v == (word_at(opt_bytes(bytes), pos as int, 4) as u32) as i32,
{
    let w: u64 = get_word(bytes, pos, 4);
    proof {
        words::lemma_pow256();
    }
    let h: u32 = w as u32;
    #[verifier::truncate]
    (h as i32)
}

/// The signed 64-bit integer at `pos`; 0 outside the buffer.
pub fn haxe_bytes_get_int64(bytes: Option<&HaxeBytes>, pos: i32) -> (v: i64)
    ensures
        v == (word_at(opt_bytes(bytes), pos as int, 8) as u64) as i64,
{
    let w: u64 = get_word(bytes, pos, 8);
    #[verifier::truncate]
    (w as i64)
}

/// Bits of the single-precision number at `pos`; 0 outside the buffer.
pub fn haxe_bytes_get_float(bytes: Option<&HaxeBytes>, pos: i32) -> (bits: u32)
    ensures
        bits == word_at(opt_bytes(bytes), pos as int, 4),
{
    let w: u64 = get_word(bytes, pos, 4);
    proof {
        words::lemma_pow256();
    }
    w as u32
}

/// Bits of the double-precision number at `pos`; 0 outside the buffer.
pub fn haxe_bytes_get_double(bytes: Option<&HaxeBytes>, pos: i32) -> (bits: u64)
    ensures
        bits == word_at(opt_bytes(bytes), pos as int, 8),
{
    get_word(bytes, pos, 8)
}

/// Writes the low 16 bits of an integer at `pos`; nothing happens outside the buffer.
pub fn haxe_bytes_set_int16(bytes: &mut HaxeBytes, pos: i32, value: i32)
    requires
        old(bytes).wf(),
    ensures
        final(bytes).wf(),
        final(bytes).cap == old(bytes).cap,
        final(bytes)@ == with_word(old(bytes)@, pos as int, (value as u16) as nat, 2),
{
    let h: u16 = #[verifier::truncate]
    (value as u16);
    set_word(bytes, pos, h as u64, 2);
}

/// Writes a 32-bit integer at `pos`; nothing happens outside the buffer.
pub fn haxe_bytes_set_int32(bytes: &mut HaxeBytes, pos: i32, value: i32)
    requires
        old(bytes).wf(),
    ensures
        final(bytes).wf(),
        final(bytes).cap == old(bytes).cap,
        final(bytes)@ == with_word(old(bytes)@, pos as int, (value as u32) as nat, 4),
{
    let h: u32 = #[verifier::truncate]
    (value as u32);
    set_word(bytes, pos, h as u64, 4);
}

/// Writes a 64-bit integer at `pos`; nothing happens outside the buffer.
pub fn haxe_bytes_set_int64(bytes: &mut HaxeBytes, pos: i32, value: i64)
    requires
        old(bytes).wf(),
    ensures
        final(bytes).wf(),
        final(bytes).cap == old(bytes).cap,
        final(bytes)@ == with_word(old(bytes)@, pos as int, (value as u64) as nat, 8),
{
    let w: u64 = #[verifier::truncate]
    (value as u64);
    set_word(bytes, pos, w, 8);
}

/// Writes the bits of a single-precision number at `pos`; nothing happens outside the buffer.
pub fn haxe_bytes_set_float(bytes: &mut HaxeBytes, pos: i32, bits: u32)
    requires
        old(bytes).wf(),
    ensures
        final(bytes).wf(),
        final(bytes).cap == old(bytes).cap,
        final(bytes)@ == with_word(old(bytes)@, pos as int, bits as nat, 4),
{
    set_word(bytes, pos, bits as u64, 4);
}

/// Writes the bits of a double-precision number at `pos`; nothing happens outside the buffer.
pub fn haxe_bytes_set_double(bytes: &mut HaxeBytes, pos: i32, bits: u64)
    requires
        old(bytes).wf(),
    ensures
        final(bytes).wf(),
        final(bytes).cap == old(bytes).cap,
        final(bytes)@ == with_word(old(bytes)@, pos as int, bits as nat, 8),
{
    set_word(bytes, pos, bits, 8);
}

/// An integer is the same after it was written and read back.
pub proof fn law_int_round_trip(s: Seq<u8>, pos: int, small: i32, value: i32, long: i64)
    ensures
        inside(pos, 2, s.len()) ==> (word_at(
            with_word(s, pos, (small as u16) as nat, 2),
            pos,
            2,
        ) as u16) as i16 == small as i16,
        inside(pos, 4, s.len()) ==> (word_at(
            with_word(s, pos, (value as u32) as nat, 4),
            pos,
            4,
        ) as u32) as i32 == value,
        inside(pos, 8, s.len()) ==> (word_at(
            with_word(s, pos, (long as u64) as nat, 8),
            pos,
            8,
        ) as u64) as i64 == long,
{
    words::lemma_pow256();
    assert((small as u16) as i16 == small as i16) by (bit_vector);
    assert((value as u32) as i32 == value) by (bit_vector);
    assert((long as u64) as i64 == long) by (bit_vector);
    if inside(pos, 2, s.len()) {
        law_word_round_trip(s, pos, (small as u16) as nat, 2);
    }
    if inside(pos, 4, s.len()) {
        law_word_round_trip(s, pos, (value as u32) as nat, 4);
    }
    if inside(pos, 8, s.len()) {
        law_word_round_trip(s, pos, (long as u64) as nat, 8);
    }
}

/// Gives a buffer back; the number of bytes that its storage had room for, 0 for null.
pub fn haxe_bytes_free(bytes: Option<HaxeBytes>) -> (released: usize)
    ensures
        released == (match bytes {
            Some(b) => b.cap,
            None => 0,
        }),
{
    match bytes {
        Some(b) => b.cap,
        None => 0,
    }
}

/// Writing a part into a buffer puts its bytes from the position on, and nothing else changes.
pub proof fn law_patch_replaces_bytes(s: Seq<u8>, pos: int, part: Seq<u8>, i: int)
    requires
        0 <= pos,
        pos + part.len() <= s.len(),
        0 <= i < s.len(),
    ensures
        patched(s, pos, part).len() == s.len(),
        patched(s, pos, part)[i] == if pos <= i < pos + part.len() {
            part[i - pos]
        } else {
            s[i]
        },
{
}

/// Buffers are ordered by the first byte in which they differ; where one is the start of the
/// other, by how much longer it is; and null comes before every buffer.
pub proof fn law_buffers_compare_by_their_bytes(a: &HaxeBytes, b: &HaxeBytes, k: int)
    requires
        0 <= k <= a@.len(),
        k <= b@.len(),
        forall|j: int| 0 <= j < k ==> a@[j] == b@[j],
    ensures
        k < a@.len() && k < b@.len() && a@[k] < b@[k] ==> bytes_order(Some(a), Some(b)) == -1,
        k < a@.len() && k < b@.len() && a@[k] > b@[k] ==> bytes_order(Some(a), Some(b)) == 1,
        k == a@.len() || k == b@.len() ==> bytes_order(Some(a), Some(b)) == a@.len() - b@.len(),
        bytes_order(None, Some(b)) == -1,
        bytes_order(Some(a), None) == 1,
        bytes_order(None, None) == 0,
{
    let n = if a@.len() < b@.len() {
        a@.len() as int
    } else {
        b@.len() as int
    };
    text::law_first_difference_decides(a@.take(n), b@.take(n), k);
}

/// A number in a buffer is made of its bytes, the least significant first; outside the buffer
/// there is only 0, and nothing is written.
pub proof fn law_words_are_little_endian(s: Seq<u8>, pos: int, width: nat, value: nat, i: nat)
    ensures
        0 <= pos && pos + width <= s.len() ==> {
            &&& word_at(s, pos, width as int) == s.subrange(pos, pos + width).fold_right_alt(
                |c: u8, v: int| c + 256 * v,
                0int,
            )
            &&& i < width ==> with_word(s, pos, value, width)[pos + i] == (value as int
                / vstd::arithmetic::power::pow(256, i)) % 256
        },
        pos < 0 || pos + width > s.len() ==> {
            &&& word_at(s, pos, width as int) == 0
            &&& with_word(s, pos, value, width) == s
        },
{
    if 0 <= pos && pos + width <= s.len() {
        words::law_little_endian_value(s.subrange(pos, pos + width));
        words::lemma_le_bytes_len(value, width);
        if i < width {
            words::law_little_endian_bytes(value, width, i);
        }
    }
}

/// A new buffer has room for its bytes, and for sixteen at least.
pub proof fn law_new_buffers_have_room(len: nat)
    ensures
        new_cap(len) >= len,
        new_cap(len) >= 16,
        new_cap(len) == len || new_cap(len) == 16,
{
}

} // verus!
