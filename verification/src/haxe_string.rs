//! Haxe `String` values: construction, access, searching, splitting, hashing, and the
//! buffer in front of standard output.

use crate::text;
use vstd::prelude::*;
use vstd::slice::slice_subrange;
use vstd::utf8::{decode_utf8, encode_utf8, valid_utf8};

verus! {

/// Smallest capacity given to a string with a buffer of its own.
pub const INITIAL_CAPACITY: usize = 32;

/// A Haxe string: what stands in its buffer (`None` for a null data pointer), the number of bytes
/// of it that are the string, and the capacity of the buffer. Behind the string's own bytes the
/// buffer may hold a terminating NUL. A capacity of zero marks bytes that the string does not own.
pub struct HaxeString {
    pub data: Option<Vec<u8>>,
    pub len: usize,
    pub cap: usize,
}

impl View for HaxeString {
    type V = Seq<u8>;

    open spec fn view(&self) -> Seq<u8> {
        match self.data {
            Some(buffer) => if self.len <= buffer@.len() {
                buffer@.take(self.len as int)
            } else {
                buffer@
            },
            None => Seq::empty(),
        }
    }
}

/// Bytes of a string handle; none for a null handle.
pub open spec fn opt_view(s: Option<&HaxeString>) -> Seq<u8> {
    match s {
        Some(s) => s@,
        None => Seq::empty(),
    }
}

/// Capacity of a terminated buffer for `len` bytes.
pub open spec fn buffer_cap(len: nat) -> nat {
    let cap = if len < INITIAL_CAPACITY as nat {
        INITIAL_CAPACITY as nat
    } else {
        len
    };
    if cap + 1 > usize::MAX {
        usize::MAX as nat
    } else {
        cap + 1
    }
}

impl HaxeString {
    /// The string has no bytes: its data pointer is null and it owns nothing.
    pub open spec fn is_null(self) -> bool {
        self.data is None && self.len == 0 && self.cap == 0
    }

    /// The string is `bytes`, and its buffer holds a NUL behind them.
    pub open spec fn terminated(self, bytes: Seq<u8>) -> bool {
        &&& self.data is Some
        &&& self.data->Some_0@ == bytes.push(0)
        &&& self.len == bytes.len()
        &&& self@ == bytes
    }

    /// The string is `bytes`, and its buffer holds nothing else.
    pub open spec fn bare(self, bytes: Seq<u8>) -> bool {
        &&& self.data is Some
        &&& self.data->Some_0@ == bytes
        &&& self.len == bytes.len()
        &&& self@ == bytes
    }

    /// The string holds `bytes` and a terminating NUL in a buffer of its own.
    pub open spec fn buffered(self, bytes: Seq<u8>) -> bool {
        &&& self.terminated(bytes)
        &&& if bytes.len() == 0 {
            self.cap == INITIAL_CAPACITY
        } else {
            self.cap == buffer_cap(bytes.len())
        }
    }

    /// The string holds `bytes` in a buffer of exactly their length.
    pub open spec fn exact(self, bytes: Seq<u8>) -> bool {
        &&& self.bare(bytes)
        &&& self.cap == bytes.len()
    }

    /// `exact`, but with a null data pointer where there are no bytes.
    pub open spec fn compact(self, bytes: Seq<u8>) -> bool {
        if bytes.len() == 0 {
            self.is_null()
        } else {
            self.exact(bytes)
        }
    }

    /// A string without bytes.
    pub fn null() -> (s: HaxeString)
        ensures
            s.is_null(),
            s@ == Seq::<u8>::empty(),
    {
        HaxeString { data: None, len: 0, cap: 0 }
    }

    /// A string whose buffer is exactly as long as `bytes`.
    pub fn from_vec(bytes: Vec<u8>) -> (s: HaxeString)
        ensures
            s.exact(bytes@),
    {
        let len: usize = bytes.len();
        assert(bytes@.take(len as int) =~= bytes@);
        HaxeString { data: Some(bytes), len, cap: len }
    }

    /// A string over `bytes` that it does not own.
    pub fn borrowed(bytes: Vec<u8>) -> (s: HaxeString)
        ensures
            s.bare(bytes@),
            s.cap == 0,
    {
        let len: usize = bytes.len();
        assert(bytes@.take(len as int) =~= bytes@);
        HaxeString { data: Some(bytes), len, cap: 0 }
    }

    /// A string over a buffer of `cap` bytes that holds `bytes` and a terminating NUL.
    pub fn ended(bytes: Vec<u8>, cap: usize) -> (s: HaxeString)
        ensures
            s.terminated(bytes@),
            s.cap == cap,
    {
        let len: usize = bytes.len();
        let ghost all = bytes@;
        let mut buffer: Vec<u8> = bytes;
        buffer.push(0);
        assert(buffer@.take(len as int) =~= all);
        HaxeString { data: Some(buffer), len, cap }
    }

    /// The bytes of the string.
    pub fn bytes(&self) -> (b: &[u8])
        ensures
            b@ == self@,
    {
        match &self.data {
            Some(buffer) => if self.len <= buffer.len() {
                slice_subrange(buffer.as_slice(), 0, self.len)
            } else {
                buffer.as_slice()
            },
            None => {
                let empty: &[u8] = &[];
                assert(empty@ =~= Seq::<u8>::empty());
                empty
            },
        }
    }

    /// Length in bytes.
    pub fn len(&self) -> (n: usize)
        ensures
            n == self@.len(),
    {
        self.bytes().len()
    }
}

/// Calls `core::str::from_utf8`, which accepts exactly the well-formed UTF-8 byte strings and
/// then gives the text that they encode.
#[verifier::external_body]
pub(crate) fn from_utf8(bytes: &[u8]) -> (text: Option<String>)
    ensures
        text is Some <==> valid_utf8(bytes@),
        text is Some ==> text->Some_0@ == decode_utf8(bytes@),
{
    core::str::from_utf8(bytes).ok().map(String::from)
}

/// The upper-case form that `str::to_uppercase` gives to a text.
pub uninterp spec fn uppercase_chars(s: Seq<char>) -> Seq<char>;

/// The lower-case form that `str::to_lowercase` gives to a text.
pub uninterp spec fn lowercase_chars(s: Seq<char>) -> Seq<char>;

/// Calls `str::to_uppercase`, which maps every character by the Unicode tables, whatever the
/// locale; the result is a function of the text alone.
#[verifier::external_body]
fn to_uppercase(s: &str) -> (r: String)
    ensures
        r@ == uppercase_chars(s@),
{
    s.to_uppercase()
}

/// Calls `str::to_lowercase`, which maps every character by the Unicode tables, whatever the
/// locale; the result is a function of the text alone.
#[verifier::external_body]
fn to_lowercase(s: &str) -> (r: String)
    ensures
        r@ == lowercase_chars(s@),
{
    s.to_lowercase()
}

/// Upper case of well-formed UTF-8; other bytes are kept.
pub open spec fn uppercase_bytes(b: Seq<u8>) -> Seq<u8> {
    if valid_utf8(b) {
        encode_utf8(uppercase_chars(decode_utf8(b)))
    } else {
        b
    }
}

/// Lower case of well-formed UTF-8; other bytes are kept.
pub open spec fn lowercase_bytes(b: Seq<u8>) -> Seq<u8> {
    if valid_utf8(b) {
        encode_utf8(lowercase_chars(decode_utf8(b)))
    } else {
        b
    }
}

/// Bytes of `s` in upper case.
pub fn upper(s: &[u8]) -> (out: Vec<u8>)
    ensures
        out@ == uppercase_bytes(s@),
{
    match from_utf8(s) {
        Some(t) => text::copy_all(to_uppercase(t.as_str()).as_str().as_bytes()),
        None => text::copy_all(s),
    }
}

/// Bytes of `s` in lower case.
pub fn lower(s: &[u8]) -> (out: Vec<u8>)
    ensures
        out@ == lowercase_bytes(s@),
{
    match from_utf8(s) {
        Some(t) => text::copy_all(to_lowercase(t.as_str()).as_str().as_bytes()),
        None => text::copy_all(s),
    }
}

/// A new empty string.
pub fn haxe_string_new() -> (s: HaxeString)
    ensures
        s.buffered(Seq::empty()),
{
    let data: Vec<u8> = Vec::new();
    let s: HaxeString = HaxeString::ended(data, INITIAL_CAPACITY);
    assert(s@ =~= Seq::<u8>::empty());
    s
}

/// The bytes before the first NUL of `s`, all of them where there is none.
pub open spec fn until_nul(s: Seq<u8>) -> Seq<u8>
    decreases s.len(),
{
    if s.len() == 0 || s[0] == 0 {
        Seq::empty()
    } else {
        seq![s[0]] + until_nul(s.drop_first())
    }
}

/// The part before the terminator, by its position.
pub proof fn lemma_until_nul(s: Seq<u8>, n: int)
    requires
        0 <= n <= s.len(),
        forall|j: int| 0 <= j < n ==> s[j] != 0,
        n < s.len() ==> s[n] == 0,
    ensures
        until_nul(s) == s.subrange(0, n),
    decreases n,
{
    if n > 0 {
        lemma_until_nul(s.drop_first(), n - 1);
        assert(seq![s[0]] + s.drop_first().subrange(0, n - 1) =~= s.subrange(0, n));
    } else {
        assert(s.subrange(0, n) =~= Seq::<u8>::empty());
    }
}

/// Number of bytes before the first NUL.
pub fn cstr_len(cstr: &[u8]) -> (n: usize)
    ensures
        n <= cstr@.len(),
        until_nul(cstr@) == cstr@.subrange(0, n as int),
        forall|j: int| 0 <= j < n ==> cstr@[j] != 0,
        n < cstr@.len() ==> cstr@[n as int] == 0,
{
    let mut n: usize = 0;
    while n < cstr.len() && cstr[n] != 0
        invariant
            n <= cstr@.len(),
            forall|j: int| 0 <= j < n ==> cstr@[j] != 0,
        decreases cstr@.len() - n,
    {
        n = n + 1;
    }
    proof {
        lemma_until_nul(cstr@, n as int);
    }
    n
}

fn buffered_vec(bytes: Vec<u8>) -> (s: HaxeString)
    requires
        bytes@.len() > 0,
    ensures
        s.buffered(bytes@),
{
    let len: usize = bytes.len();
    let room: usize = if len < INITIAL_CAPACITY {
        INITIAL_CAPACITY
    } else {
        len
    };
    HaxeString::ended(bytes, room.saturating_add(1))
}

/// The string `s` is a copy of what stands in the buffer `c` before its first NUL, ended by a NUL
/// of its own.
pub open spec fn reads_cstr(s: HaxeString, c: Seq<u8>) -> bool {
    &&& s.terminated(until_nul(c))
    &&& s.cap == buffer_cap(until_nul(c).len())
}

/// The string at a NUL-terminated address; the empty string for a null address.
pub fn haxe_string_from_cstr(cstr: Option<&[u8]>) -> (s: HaxeString)
    ensures
        match cstr {
            Some(c) => reads_cstr(s, c@),
            None => s.buffered(Seq::empty()),
        },
{
    match cstr {
        None => haxe_string_new(),
        Some(c) => {
            let n: usize = cstr_len(c);
            let bytes: Vec<u8> = text::copy_range(c, 0, n);
            if n == 0 {
                HaxeString::ended(bytes, INITIAL_CAPACITY + 1)
            } else {
                buffered_vec(bytes)
            }
        },
    }
}

/// A string with a copy of `bytes`; the empty string for a null or empty input.
pub fn haxe_string_from_bytes(bytes: Option<&[u8]>) -> (s: HaxeString)
    ensures
        s.buffered(
            match bytes {
                Some(b) => b@,
                None => Seq::empty(),
            },
        ),
{
    match bytes {
        Some(b) => {
            if b.len() == 0 {
                let s = haxe_string_new();
                assert(b@ =~= Seq::<u8>::empty());
                s
            } else {
                buffered_vec(text::copy_all(b))
            }
        },
        None => haxe_string_new(),
    }
}

/// Length in bytes; 0 for null.
pub fn haxe_string_length(s: Option<&HaxeString>) -> (n: usize)
    ensures
        n == opt_view(s).len(),
{
    match s {
        Some(s) => s.len(),
        None => 0,
    }
}

/// The byte at `index`, or -1 outside the string.
pub fn haxe_string_char_at(s: Option<&HaxeString>, index: usize) -> (c: i32)
    ensures
        c == (if index < opt_view(s).len() {
            opt_view(s)[index as int] as int
        } else {
            -1
        }),
{
    match s {
        Some(s) => {
            if index >= s.len() {
                -1
            } else {
                s.bytes()[index] as i32
            }
        },
        None => -1,
    }
}

/// The byte at `index`, or -1 outside the string.
pub fn haxe_string_char_code_at(s: Option<&HaxeString>, index: usize) -> (c: i32)
    ensures
        c == (if index < opt_view(s).len() {
            opt_view(s)[index as int] as int
        } else {
            -1
        }),
{
    haxe_string_char_at(s, index)
}

/// `a` followed by `b`; a null handle counts as empty.
pub fn haxe_string_concat_sret(a: Option<&HaxeString>, b: Option<&HaxeString>) -> (s: HaxeString)
    ensures
        s.terminated(opt_view(a) + opt_view(b)),
        s.cap == if a is None && b is None {
            INITIAL_CAPACITY as nat
        } else {
            buffer_cap((opt_view(a) + opt_view(b)).len())
        },
{
    if a.is_none() && b.is_none() {
        let s = haxe_string_new();
        assert(opt_view(a) + opt_view(b) =~= Seq::<u8>::empty());
        return s;
    }
    let mut out: Vec<u8> = Vec::new();
    match a {
        Some(a) => text::append(&mut out, a.bytes()),
        None => {},
    }
    assert(out@ =~= opt_view(a));
    match b {
        Some(b) => text::append(&mut out, b.bytes()),
        None => {},
    }
    assert(out@ =~= opt_view(a) + opt_view(b));
    if out.len() == 0 {
        HaxeString::ended(out, INITIAL_CAPACITY + 1)
    } else {
        buffered_vec(out)
    }
}

/// The part of `b` from `start` to `end`, both cut to its length; nothing where they cross.
pub open spec fn clamped_range(b: Seq<u8>, start: int, end: int) -> Seq<u8> {
    let lo = if start < b.len() { start } else { b.len() as int };
    let hi = if end < b.len() { end } else { b.len() as int };
    if lo < hi {
        b.subrange(lo, hi)
    } else {
        Seq::empty()
    }
}

/// The part of the string from byte `start` up to byte `end`.
pub fn haxe_string_substring(s: Option<&HaxeString>, start: usize, end: usize) -> (r: HaxeString)
    ensures
        r.buffered(clamped_range(opt_view(s), start as int, end as int)),
{
    match s {
        Some(s) => {
            let n: usize = s.len();
            let lo: usize = if start < n {
                start
            } else {
                n
            };
            let hi: usize = if end < n {
                end
            } else {
                n
            };
            if lo >= hi {
                haxe_string_new()
            } else {
                buffered_vec(text::copy_range(s.bytes(), lo, hi))
            }
        },
        None => haxe_string_new(),
    }
}

/// At most `length` bytes of the string from byte `start`.
pub fn haxe_string_substr(s: Option<&HaxeString>, start: usize, length: usize) -> (r: HaxeString)
    requires
        start + length <= usize::MAX,
    ensures
        r.buffered(clamped_range(opt_view(s), start as int, start + length)),
{
    haxe_string_substring(s, start, start + length)
}

/// The string in upper case.
pub fn haxe_string_to_upper_case(s: Option<&HaxeString>) -> (r: HaxeString)
    ensures
        r.buffered(
            if opt_view(s).len() == 0 {
                Seq::empty()
            } else {
                uppercase_bytes(opt_view(s))
            },
        ),
{
    match s {
        Some(s) => {
            if s.len() == 0 {
                haxe_string_new()
            } else {
                let bytes: Vec<u8> = upper(s.bytes());
                haxe_string_from_bytes(Some(bytes.as_slice()))
            }
        },
        None => haxe_string_new(),
    }
}

/// The string in lower case.
pub fn haxe_string_to_lower_case(s: Option<&HaxeString>) -> (r: HaxeString)
    ensures
        r.buffered(
            if opt_view(s).len() == 0 {
                Seq::empty()
            } else {
                lowercase_bytes(opt_view(s))
            },
        ),
{
    match s {
        Some(s) => {
            if s.len() == 0 {
                haxe_string_new()
            } else {
                let bytes: Vec<u8> = lower(s.bytes());
                haxe_string_from_bytes(Some(bytes.as_slice()))
            }
        },
        None => haxe_string_new(),
    }
}

/// First position of `needle` at or after `start`, or -1: also for a null handle, an empty
/// needle and a start at or past the end.
pub open spec fn index_of_spec(
    s: Option<&HaxeString>,
    needle: Option<&HaxeString>,
    start: int,
) -> int {
    if s is None || needle is None || opt_view(needle).len() == 0 || start >= opt_view(s).len() {
        -1
    } else {
        text::find_from(opt_view(s), opt_view(needle), start)
    }
}

/// First position of `needle` at or after `start`, as a Haxe `Int`; -1 where there is none.
pub fn haxe_string_index_of(
    s: Option<&HaxeString>,
    needle: Option<&HaxeString>,
    start: usize,
) -> (r: i32)
    ensures
        r == index_of_spec(s, needle, start as int) as i32,
{
    match (s, needle) {
        (Some(s), Some(needle)) => {
            if needle.len() == 0 || start >= s.len() {
                return -1;
            }
            match text::find(s.bytes(), needle.bytes(), start) {
                Some(i) => #[verifier::truncate]
                (i as i32),
                None => -1,
            }
        },
        _ => -1,
    }
}

/// Lexicographic comparison, as -1, 0 or 1; a null handle comes before every string.
pub open spec fn compare_spec(a: Option<&HaxeString>, b: Option<&HaxeString>) -> int {
    match (a, b) {
        (None, None) => 0,
        (None, Some(_)) => -1,
        (Some(_), None) => 1,
        (Some(a), Some(b)) => text::lex_order(a@, b@),
    }
}

/// Lexicographic comparison, as -1, 0 or 1.
pub fn haxe_string_compare(a: Option<&HaxeString>, b: Option<&HaxeString>) -> (r: i32)
    ensures
        r as int == compare_spec(a, b),
{
    match (a, b) {
        (None, None) => 0,
        (None, Some(_)) => -1,
        (Some(_), None) => 1,
        (Some(a), Some(b)) => text::order(a.bytes(), b.bytes()),
    }
}

/// Comparing the other way round gives the opposite sign.
pub proof fn law_compare_antisymmetric(a: Option<&HaxeString>, b: Option<&HaxeString>)
    ensures
        compare_spec(a, b) == -compare_spec(b, a),
{
    text::lemma_lex_order_antisymmetric(opt_view(a), opt_view(b));
}

/// Two strings compare as equal exactly when they hold the same bytes.
pub proof fn law_compare_equal(a: &HaxeString, b: &HaxeString)
    ensures
        compare_spec(Some(a), Some(b)) == 0 <==> a@ == b@,
{
    text::lemma_lex_order_zero(a@, b@);
}

/// The comparison is transitive.
pub proof fn law_compare_transitive(
    a: Option<&HaxeString>,
    b: Option<&HaxeString>,
    c: Option<&HaxeString>,
)
    requires
        compare_spec(a, b) <= 0,
        compare_spec(b, c) <= 0,
    ensures
        compare_spec(a, c) <= 0,
{
    if a is Some && b is Some && c is Some {
        text::lemma_lex_order_transitive(opt_view(a), opt_view(b), opt_view(c));
    }
}

/// Bytes of each string of a list.
pub open spec fn all_views(parts: Seq<HaxeString>) -> Seq<Seq<u8>> {
    parts.map_values(|s: HaxeString| s@)
}

/// Each string of a list stands in a terminated buffer of its own.
pub open spec fn all_buffered(parts: Seq<HaxeString>) -> bool {
    forall|i: int| 0 <= i < parts.len() ==> (#[trigger] parts[i]).buffered(parts[i]@)
}

/// What splitting `s` at `delimiter` gives: nothing where either handle is null.
pub open spec fn split_spec(s: Option<&HaxeString>, delimiter: Option<&HaxeString>) -> Seq<
    Seq<u8>,
> {
    if s is None || delimiter is None {
        Seq::empty()
    } else {
        text::pieces(opt_view(s), opt_view(delimiter), 0)
    }
}

/// The parts of `s` between the occurrences of `delimiter`, each in a buffer of its own; none
/// where either handle is null.
pub fn haxe_string_split(
    s: Option<&HaxeString>,
    delimiter: Option<&HaxeString>,
) -> (parts: Vec<HaxeString>)
    ensures
        all_views(parts@) == split_spec(s, delimiter),
        all_buffered(parts@),
{
    match (s, delimiter) {
        (Some(s), Some(d)) => {
            let raw: Vec<Vec<u8>> = text::split(s.bytes(), d.bytes());
            let mut parts: Vec<HaxeString> = Vec::new();
            let mut i: usize = 0;
            while i < raw.len()
                invariant
                    i <= raw@.len(),
                    parts@.len() == i,
                    forall|j: int| 0 <= j < i ==> (#[trigger] parts@[j])@ == raw@[j]@,
                    all_buffered(parts@),
                decreases raw@.len() - i,
            {
                parts.push(haxe_string_from_bytes(Some(raw[i].as_slice())));
                i = i + 1;
            }
            assert(all_views(parts@) =~= text::views(raw@));
            parts
        },
        _ => {
            let parts: Vec<HaxeString> = Vec::new();
            assert(all_views(parts@) =~= Seq::empty());
            parts
        },
    }
}

/// The parts of `s` between the occurrences of `delimiter`, as the elements of an array.
pub fn haxe_string_split_array(
    s: Option<&HaxeString>,
    delimiter: Option<&HaxeString>,
) -> (parts: Vec<HaxeString>)
    ensures
        all_views(parts@) == split_spec(s, delimiter),
        all_buffered(parts@),
{
    haxe_string_split(s, delimiter)
}

/// Joining the parts of a split with the delimiter gives the string back.
pub proof fn law_split_join(s: &HaxeString, delimiter: &HaxeString)
    ensures
        text::join(split_spec(Some(s), Some(delimiter)), delimiter@) == s@,
        split_spec(Some(s), Some(delimiter)).len() >= 1,
{
    text::lemma_join_pieces(s@, delimiter@, 0);
    assert(s@.subrange(0, s@.len() as int) =~= s@);
}

/// No part of a split holds the delimiter.
pub proof fn law_split_parts_free(s: &HaxeString, delimiter: &HaxeString, n: int, j: int)
    requires
        delimiter@.len() > 0,
        0 <= n < split_spec(Some(s), Some(delimiter)).len(),
    ensures
        !text::occurs_at(split_spec(Some(s), Some(delimiter))[n], delimiter@, j),
{
    text::lemma_pieces_free(s@, delimiter@, 0, n, j);
}

/// Every occurrence of `needle`, found from left to right, replaced by `with`.
pub open spec fn replace_spec(hay: Seq<u8>, needle: Seq<u8>, with: Seq<u8>) -> Seq<u8> {
    text::join(text::pieces(hay, needle, 0), with)
}

fn join_pieces(parts: &Vec<Vec<u8>>, sep: &[u8]) -> (out: Vec<u8>)
    ensures
        out@ == text::join(text::views(parts@), sep@),
{
    let mut out: Vec<u8> = Vec::new();
    let mut i: usize = 0;
    assert(text::views(parts@).take(0) =~= Seq::empty());
    while i < parts.len()
        invariant
            i <= parts@.len(),
            out@ == text::join(text::views(parts@).take(i as int), sep@),
        decreases parts@.len() - i,
    {
        let ghost all = text::views(parts@);
        assert(all.take(i + 1).drop_last() =~= all.take(i as int));
        if i > 0 {
            text::append(&mut out, sep);
        }
        text::append(&mut out, parts[i].as_slice());
        i = i + 1;
        assert(all.take(i as int).last() == parts@[i - 1]@);
        assert(out@ =~= text::join(all.take(i as int), sep@));
    }
    assert(text::views(parts@).take(i as int) =~= text::views(parts@));
    out
}

/// A new string in which every occurrence of `needle` in `haystack` is replaced. An empty
/// needle replaces nothing; a null handle gives the empty string.
pub fn haxe_string_replace(
    haystack: Option<&HaxeString>,
    needle: Option<&HaxeString>,
    replacement: Option<&HaxeString>,
) -> (r: HaxeString)
    ensures
        r.buffered(
            if haystack is None || needle is None || replacement is None {
                Seq::empty()
            } else if opt_view(needle).len() == 0 {
                opt_view(haystack)
            } else {
                replace_spec(opt_view(haystack), opt_view(needle), opt_view(replacement))
            },
        ),
{
    match (haystack, needle, replacement) {
        (Some(h), Some(n), Some(r)) => {
            if n.len() == 0 {
                return haxe_string_from_bytes(Some(h.bytes()));
            }
            let parts: Vec<Vec<u8>> = text::split(h.bytes(), n.bytes());
            let out: Vec<u8> = join_pieces(&parts, r.bytes());
            haxe_string_from_bytes(Some(out.as_slice()))
        },
        _ => haxe_string_new(),
    }
}

/// Replacing a needle by itself changes nothing.
pub proof fn law_replace_by_itself(hay: Seq<u8>, needle: Seq<u8>)
    ensures
        replace_spec(hay, needle, needle) == hay,
{
    text::lemma_join_pieces(hay, needle, 0);
    assert(hay.subrange(0, hay.len() as int) =~= hay);
}

/// Replacing where the needle does not occur changes nothing.
pub proof fn law_replace_absent(hay: Seq<u8>, needle: Seq<u8>, with: Seq<u8>)
    requires
        forall|j: int| !text::occurs_at(hay, needle, j),
    ensures
        replace_spec(hay, needle, with) == hay,
{
    text::lemma_find_from(hay, needle, 0);
    assert(hay.subrange(0, hay.len() as int) =~= hay);
    assert(text::pieces(hay, needle, 0) =~= seq![hay]);
}

/// The bytes that a C caller sees: what stands in the string's buffer.
pub fn haxe_string_to_cstr(s: Option<&HaxeString>) -> (c: Option<Vec<u8>>)
    ensures
        match s {
            None => c is None,
            Some(h) => match h.data {
                None => c is None,
                Some(b) => c is Some && c->Some_0@ == b@,
            },
        },
{
    match s {
        None => None,
        Some(h) => match &h.data {
            None => None,
            Some(b) => Some(text::copy_all(b.as_slice())),
        },
    }
}

/// The bytes before the NUL that ends them.
pub proof fn lemma_until_end(bytes: Seq<u8>)
    requires
        forall|j: int| 0 <= j < bytes.len() ==> bytes[j] != 0,
    ensures
        until_nul(bytes.push(0)) == bytes,
{
    lemma_until_nul(bytes.push(0), bytes.len() as int);
    assert(bytes.push(0).subrange(0, bytes.len() as int) =~= bytes);
}

/// A terminated string without a NUL among its bytes is read back from its C form: the copy has
/// the same bytes and is terminated too.
pub proof fn law_cstr_round_trip(s: HaxeString, copy: HaxeString, bytes: Seq<u8>)
    requires
        forall|j: int| 0 <= j < bytes.len() ==> bytes[j] != 0,
        s.terminated(bytes),
        reads_cstr(copy, s.data->Some_0@),
    ensures
        copy.terminated(bytes),
        copy@ == s@,
{
    lemma_until_end(bytes);
}

/// FNV-1a over the bytes, from the offset basis.
pub open spec fn fnv1a(bytes: Seq<u8>) -> u32
    decreases bytes.len(),
{
    if bytes.len() == 0 {
        2166136261u32
    } else {
        (fnv1a(bytes.drop_last()) ^ (bytes.last() as u32)).wrapping_mul(16777619u32)
    }
}

/// FNV-1a hash of the string as a Haxe `Int`; 0 for null and for the empty string.
pub fn haxe_string_hash(s: Option<&HaxeString>) -> (h: i32)
    ensures
        h == (if opt_view(s).len() == 0 {
            0i32
        } else {
            fnv1a(opt_view(s)) as i32
        }),
{
    match s {
        None => 0,
        Some(s) => {
            let bytes: &[u8] = s.bytes();
            if bytes.len() == 0 {
                return 0;
            }
            let mut hash: u32 = 2166136261;
            let mut i: usize = 0;
            assert(bytes@.take(0) =~= Seq::empty());
            while i < bytes.len()
                invariant
                    i <= bytes@.len(),
                    hash == fnv1a(bytes@.take(i as int)),
                decreases bytes@.len() - i,
            {
                assert(bytes@.take(i + 1).drop_last() =~= bytes@.take(i as int));
                hash = (hash ^ (bytes[i] as u32)).wrapping_mul(16777619);
                i = i + 1;
            }
            assert(bytes@.take(i as int) =~= bytes@);
            #[verifier::truncate]
            (hash as i32)
        },
    }
}

/// A released header, and the buffer that goes back to the allocator: none where the string
/// does not own its bytes.
pub open spec fn free_effect(s: HaxeString) -> (HaxeString, Option<Vec<u8>>) {
    (
        HaxeString { data: None, len: 0, cap: 0 },
        if s.cap > 0 {
            s.data
        } else {
            None
        },
    )
}

/// Releases a string: its header becomes null, and the buffer that it owns, if any, comes back.
pub fn haxe_string_free(s: &mut HaxeString) -> (released: Option<Vec<u8>>)
    ensures
        (*final(s), released) == free_effect(*old(s)),
{
    let cap: usize = s.cap;
    let data: Option<Vec<u8>> = s.data.take();
    s.len = 0;
    s.cap = 0;
    if cap > 0 {
        data
    } else {
        None
    }
}

/// Releasing a string a second time releases no buffer.
pub proof fn law_second_free_releases_nothing(s: HaxeString)
    ensures
        free_effect(free_effect(s).0).1 is None,
{
}

/// Output waiting to be written, and the time of the last flush where there has been one.
pub struct StdoutBuffer {
    pub pending: Vec<u8>,
    pub last_flush: Option<u64>,
}

/// Number of pending bytes at which the buffer is flushed.
pub const STDOUT_BUFFER_LIMIT: usize = 4096;

impl StdoutBuffer {
    /// An empty buffer.
    pub fn new() -> (b: StdoutBuffer)
        ensures
            b.pending@ == Seq::<u8>::empty(),
            b.last_flush is None,
    {
        StdoutBuffer { pending: Vec::new(), last_flush: None }
    }

    /// Whether a write that leaves `len` bytes pending flushes at time `now`.
    pub open spec fn flushes(self, len: nat, force: bool, interval: u64, now: u64) -> bool {
        ||| force
        ||| interval == 0
        ||| len >= STDOUT_BUFFER_LIMIT
        ||| (self.last_flush is Some && now - self.last_flush->Some_0 >= interval)
    }
}

/// Appends `head` and `tail` together and says what is to be written out now. `interval` is the
/// least time between two flushes that nothing forces, in the unit of the clock `now`.
pub fn write_stdout_parts(
    out: &mut StdoutBuffer,
    head: &[u8],
    tail: &[u8],
    force: bool,
    interval: u64,
    now: u64,
) -> (emitted: Option<Vec<u8>>)
    ensures
        ({
            let all = old(out).pending@ + head@ + tail@;
            if old(out).flushes(all.len(), force, interval, now) {
                &&& emitted is Some
                &&& emitted->Some_0@ == all
                &&& final(out).pending@ == Seq::<u8>::empty()
                &&& final(out).last_flush == Some(now)
            } else {
                &&& emitted is None
                &&& final(out).pending@ == all
                &&& final(out).last_flush == Some(
                    match old(out).last_flush {
                        Some(t) => t,
                        None => now,
                    },
                )
            }
        }),
{
    let ghost all = out.pending@ + head@ + tail@;
    text::append(&mut out.pending, head);
    text::append(&mut out.pending, tail);
    assert(out.pending@ =~= all);
    let mut should_flush: bool = force || interval == 0 || out.pending.len()
        >= STDOUT_BUFFER_LIMIT;
    if !should_flush {
        match out.last_flush {
            Some(last) => {
                should_flush = now >= last && now - last >= interval;
            },
            None => {
                out.last_flush = Some(now);
            },
        }
    }
    if !should_flush {
        return None;
    }
    let mut emitted: Vec<u8> = Vec::new();
    core::mem::swap(&mut emitted, &mut out.pending);
    out.last_flush = Some(now);
    Some(emitted)
}

/// Buffered write of one part.
pub fn write_stdout_buffered(
    out: &mut StdoutBuffer,
    bytes: &[u8],
    force: bool,
    interval: u64,
    now: u64,
) -> (emitted: Option<Vec<u8>>)
    ensures
        old(out).flushes((old(out).pending@ + bytes@).len(), force, interval, now)
            <==> emitted is Some,
        old(out).pending@ + bytes@ == (match emitted {
            Some(e) => e@,
            None => Seq::empty(),
        }) + final(out).pending@,
        emitted is Some ==> final(out).pending@.len() == 0 && final(out).last_flush == Some(now),
        emitted is None ==> final(out).last_flush == Some(
            match old(out).last_flush {
                Some(t) => t,
                None => now,
            },
        ),
{
    let empty: &[u8] = &[];
    assert(old(out).pending@ + bytes@ + empty@ =~= old(out).pending@ + bytes@);
    let emitted = write_stdout_parts(out, bytes, empty, force, interval, now);
    assert((match emitted {
        Some(e) => e@,
        None => Seq::empty(),
    }) + out.pending@ =~= old(out).pending@ + bytes@);
    emitted
}

/// The one way to standard output: `head` and `tail` arrive together, after everything that was
/// written before them.
pub fn rayzor_stdout_write(
    out: &mut StdoutBuffer,
    head: &[u8],
    tail: &[u8],
    force: bool,
    interval: u64,
    now: u64,
) -> (emitted: Option<Vec<u8>>)
    ensures
        old(out).flushes((old(out).pending@ + head@ + tail@).len(), force, interval, now)
            <==> emitted is Some,
        old(out).pending@ + head@ + tail@ == (match emitted {
            Some(e) => e@,
            None => Seq::empty(),
        }) + final(out).pending@,
        emitted is Some ==> final(out).pending@.len() == 0 && final(out).last_flush == Some(now),
        emitted is None ==> final(out).last_flush == Some(
            match old(out).last_flush {
                Some(t) => t,
                None => now,
            },
        ),
{
    let emitted = write_stdout_parts(out, head, tail, force, interval, now);
    assert((match emitted {
        Some(e) => e@,
        None => Seq::empty(),
    }) + out.pending@ =~= old(out).pending@ + head@ + tail@);
    emitted
}

/// The bytes of `s` where they can be printed: well-formed UTF-8 and not empty.
pub fn printable_bytes(s: Option<&HaxeString>) -> (r: Option<&[u8]>)
    ensures
        r is Some <==> opt_view(s).len() > 0 && valid_utf8(opt_view(s)),
        r is Some ==> r->Some_0@ == opt_view(s),
{
    match s {
        None => None,
        Some(s) => {
            let bytes: &[u8] = s.bytes();
            if bytes.len() == 0 {
                None
            } else if from_utf8(bytes).is_some() {
                Some(bytes)
            } else {
                None
            }
        },
    }
}

/// `s` holds a line feed.
pub open spec fn has_newline(s: Seq<u8>) -> bool {
    exists|i: int| 0 <= i < s.len() && s[i] == 10
}

fn contains_newline(s: &[u8]) -> (r: bool)
    ensures
        r == has_newline(s@),
{
    let mut i: usize = 0;
    while i < s.len()
        invariant
            i <= s@.len(),
            forall|j: int| 0 <= j < i ==> s@[j] != 10,
        decreases s@.len() - i,
    {
        if s[i] == 10 {
            return true;
        }
        i = i + 1;
    }
    false
}

/// What of `s` is printed: nothing unless it is well-formed UTF-8.
pub open spec fn printed(s: Option<&HaxeString>) -> Seq<u8> {
    if valid_utf8(opt_view(s)) {
        opt_view(s)
    } else {
        Seq::empty()
    }
}

/// Prints a string; a line feed in it forces a flush. An empty or unprintable string leaves the
/// buffer as it is.
pub fn haxe_string_print(
    out: &mut StdoutBuffer,
    s: Option<&HaxeString>,
    interval: u64,
    now: u64,
) -> (emitted: Option<Vec<u8>>)
    ensures
        printed(s).len() == 0 ==> emitted is None && *final(out) == *old(out),
        printed(s).len() > 0 ==> {
            &&& old(out).flushes(
                (old(out).pending@ + printed(s)).len(),
                has_newline(printed(s)),
                interval,
                now,
            ) <==> emitted is Some
            &&& old(out).pending@ + printed(s) == (match emitted {
                Some(e) => e@,
                None => Seq::empty(),
            }) + final(out).pending@
            &&& emitted is Some ==> final(out).pending@.len() == 0 && final(out).last_flush == Some(
                now,
            )
            &&& emitted is None ==> final(out).last_flush == Some(
                match old(out).last_flush {
                    Some(t) => t,
                    None => now,
                },
            )
        },
{
    match printable_bytes(s) {
        Some(bytes) => write_stdout_buffered(out, bytes, contains_newline(bytes), interval, now),
        None => None,
    }
}

/// Prints a string and a line feed, and flushes.
pub fn haxe_string_println(
    out: &mut StdoutBuffer,
    s: Option<&HaxeString>,
    interval: u64,
    now: u64,
) -> (emitted: Option<Vec<u8>>)
    ensures
        emitted is Some,
        emitted->Some_0@ == old(out).pending@ + printed(s).push(10),
        final(out).pending@ == Seq::<u8>::empty(),
        final(out).last_flush == Some(now),
{
    let newline: &[u8] = &[10];
    assert(newline@ =~= seq![10u8]);
    let head: &[u8] = match printable_bytes(s) {
        Some(bytes) => bytes,
        None => {
            let empty: &[u8] = &[];
            assert(empty@ =~= Seq::<u8>::empty());
            empty
        },
    };
    assert(head@ =~= printed(s));
    assert(old(out).pending@ + head@ + newline@ =~= old(out).pending@ + printed(s).push(10));
    write_stdout_parts(out, head, newline, true, interval, now)
}

// ---------------------------------------------------------------------------
// Laws
// ---------------------------------------------------------------------------

/// A part of a string has the bytes from its start to its end, as far as there are any.
pub proof fn law_part_takes_bytes(b: Seq<u8>, start: int, end: int, i: int)
    requires
        0 <= start,
        0 <= end,
    ensures
        clamped_range(b, start, end).len() == vstd::math::max(
            0,
            vstd::math::min(end, b.len() as int) - start,
        ),
        0 <= i < clamped_range(b, start, end).len() ==> clamped_range(b, start, end)[i] == b[start
            + i],
{
}

/// A search gives the first place at or after its start where all bytes of the needle stand, and
/// fails only where there is none, or for an empty needle.
pub proof fn law_index_of_is_first(s: &HaxeString, needle: &HaxeString, start: int, k: int)
    requires
        0 <= start,
        needle@.len() > 0,
    ensures
        ({
            let r = index_of_spec(Some(s), Some(needle), start);
            &&& r == -1 || (start <= r && r + needle@.len() <= s@.len() && forall|j: int|
                0 <= j < needle@.len() ==> s@[r + j] == #[trigger] needle@[j])
            &&& start <= k && k + needle@.len() <= s@.len() && (forall|j: int|
                0 <= j < needle@.len() ==> s@[k + j] == #[trigger] needle@[j]) ==> r != -1 && r
                <= k
        }),
        index_of_spec(None, Some(needle), start) == -1,
        index_of_spec(Some(s), None, start) == -1,
{
    text::law_first_occurrence(s@, needle@, start, k);
}

/// Strings compare by the first place where they do not agree, and null comes before them all.
pub proof fn law_strings_compare_by_their_bytes(a: &HaxeString, b: &HaxeString, k: int)
    requires
        0 <= k <= a@.len(),
        k <= b@.len(),
        forall|j: int| 0 <= j < k ==> a@[j] == b@[j],
    ensures
        k == a@.len() && k == b@.len() ==> compare_spec(Some(a), Some(b)) == 0,
        k == a@.len() && k < b@.len() ==> compare_spec(Some(a), Some(b)) == -1,
        k < a@.len() && k == b@.len() ==> compare_spec(Some(a), Some(b)) == 1,
        k < a@.len() && k < b@.len() && a@[k] < b@[k] ==> compare_spec(Some(a), Some(b)) == -1,
        k < a@.len() && k < b@.len() && a@[k] > b@[k] ==> compare_spec(Some(a), Some(b)) == 1,
        compare_spec(None, Some(b)) == -1,
        compare_spec(Some(a), None) == 1,
        compare_spec(None, None) == 0,
{
    text::law_first_difference_decides(a@, b@, k);
}

/// Splitting cuts at the first occurrence of the delimiter and goes on behind it.
pub proof fn law_split_at_first(s: &HaxeString, delimiter: &HaxeString, rest: &HaxeString, n: int)
    requires
        delimiter@.len() > 0,
        0 <= n,
        s@ == s@.take(n) + delimiter@ + rest@,
        n <= s@.len(),
        forall|j: int| 0 <= j < n ==> !text::occurs_at(s@, delimiter@, j),
    ensures
        split_spec(Some(s), Some(delimiter)) == seq![s@.take(n)] + split_spec(
            Some(rest),
            Some(delimiter),
        ),
        split_spec(None, Some(delimiter)) == Seq::<Seq<u8>>::empty(),
        split_spec(Some(s), None) == Seq::<Seq<u8>>::empty(),
{
    text::law_split_at_first(s@.take(n), delimiter@, rest@);
}

/// Replacing puts the new text in place of the first occurrence and goes on behind it.
pub proof fn law_replace_first(before: Seq<u8>, needle: Seq<u8>, after: Seq<u8>, with: Seq<u8>)
    requires
        needle.len() > 0,
        forall|j: int| 0 <= j < before.len() ==> !text::occurs_at(before + needle + after, needle, j),
    ensures
        replace_spec(before + needle + after, needle, with) == before + with + replace_spec(
            after,
            needle,
            with,
        ),
{
    text::law_split_at_first(before, needle, after);
    text::lemma_join_pieces(after, needle, 0);
    let parts = seq![before] + text::pieces(after, needle, 0);
    text::lemma_join_first(parts, with);
    assert(parts.drop_first() =~= text::pieces(after, needle, 0));
}

/// The hash starts at 2166136261, and each byte is mixed in and multiplied by 16777619, all of it
/// modulo 2 to the power of 32.
pub proof fn law_hash_goes_byte_by_byte(bytes: Seq<u8>, c: u8)
    ensures
        fnv1a(Seq::empty()) == 0x811c_9dc5,
        fnv1a(bytes.push(c)) == ((fnv1a(bytes) ^ (c as u32)) * 0x100_0193) % 0x1_0000_0000,
{
    assert(bytes.push(c).drop_last() =~= bytes);
}

/// What is read from a buffer ends before its first NUL.
pub proof fn law_text_ends_at_nul(bytes: Seq<u8>, rest: Seq<u8>)
    requires
        forall|i: int| 0 <= i < bytes.len() ==> bytes[i] != 0,
    ensures
        until_nul(bytes + seq![0u8] + rest) == bytes,
        until_nul(bytes) == bytes,
    decreases bytes.len(),
{
    let s = bytes + seq![0u8] + rest;
    if bytes.len() > 0 {
        let more = bytes.drop_first();
        assert forall|i: int| 0 <= i < more.len() implies more[i] != 0 by {
            assert(more[i] == bytes[i + 1]);
        }
        law_text_ends_at_nul(more, rest);
        assert(s.drop_first() =~= more + seq![0u8] + rest);
        assert(seq![bytes[0]] + more =~= bytes);
    } else {
        assert(s[0] == 0);
        assert(bytes =~= Seq::empty());
    }
}

/// A buffer for a text has one byte more than the text, for its NUL, and at least 33.
pub proof fn law_buffers_have_room(len: nat)
    requires
        len < usize::MAX,
    ensures
        len >= 32 ==> buffer_cap(len) == len + 1,
        len <= 32 ==> buffer_cap(len) == 33,
{
}

/// Output is held back only while it is unforced, shorter than 4096 bytes and younger than the
/// interval.
pub proof fn law_when_output_is_held_back(
    out: StdoutBuffer,
    len: nat,
    force: bool,
    interval: u64,
    now: u64,
    flushed: u64,
)
    requires
        out.last_flush == Some(flushed),
    ensures
        out.flushes(len, force, interval, now) <==> force || interval == 0 || len >= 4096 || now
            - flushed >= interval,
{
}

/// Releasing a string gives back the buffer that it owns, and none that it does not; either way
/// nothing is left in it.
pub proof fn law_free_releases_the_buffer(s: HaxeString)
    ensures
        s.cap > 0 ==> free_effect(s).1 == s.data,
        s.cap == 0 ==> free_effect(s).1 is None,
        free_effect(s).0.data is None,
        free_effect(s).0.len == 0,
        free_effect(s).0.cap == 0,
        free_effect(s).0@ == Seq::<u8>::empty(),
{
}

/// Well-formed text is printed as it is, and nothing of other bytes; text with a line feed in it is
/// not held back.
pub proof fn law_what_is_printed(s: &HaxeString, before: Seq<u8>, after: Seq<u8>)
    ensures
        valid_utf8(s@) ==> printed(Some(s)) == s@,
        !valid_utf8(s@) ==> printed(Some(s)) == Seq::<u8>::empty(),
        printed(None) == Seq::<u8>::empty(),
        has_newline(before + seq![10u8] + after),
        (forall|i: int| 0 <= i < before.len() ==> before[i] != 10) ==> !has_newline(before),
{
    assert((before + seq![10u8] + after)[before.len() as int] == 10);
}

} // verus!
