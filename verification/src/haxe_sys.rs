//! The `Sys` runtime on plain values: tracing, string conversions, the string methods of
//! generated code, environment and file requests.

use crate::haxe_string::{self, HaxeString};
use crate::text;
use vstd::prelude::*;

verus! {

// ---------------------------------------------------------------------------
// Tracing
// ---------------------------------------------------------------------------

/// Text put in front of every traced line.
pub struct TracePrefix {
    pub prefix: Vec<u8>,
}

impl TracePrefix {
    /// No prefix.
    pub fn new() -> (p: TracePrefix)
        ensures
            p.prefix@ == Seq::<u8>::empty(),
    {
        TracePrefix { prefix: Vec::new() }
    }
}

/// Sets the prefix from raw bytes: null or empty clears it, bytes that are not UTF-8 leave it.
pub fn rayzor_set_trace_prefix(state: &mut TracePrefix, bytes: Option<&[u8]>)
    ensures
        final(state).prefix@ == (match bytes {
            None => Seq::empty(),
            Some(b) => if b@.len() == 0 {
                Seq::empty()
            } else if vstd::utf8::valid_utf8(b@) {
                b@
            } else {
                old(state).prefix@
            },
        }),
{
    match bytes {
        None => {
            state.prefix = Vec::new();
        },
        Some(b) => {
            if b.len() == 0 {
                state.prefix = Vec::new();
            } else if haxe_string::from_utf8(b).is_some() {
                state.prefix = text::copy_all(b);
            }
        },
    }
}

/// Sets the prefix from a text.
pub fn set_trace_prefix(state: &mut TracePrefix, prefix: &str)
    ensures
        final(state).prefix@ == text::lit(prefix),
{
    state.prefix = text::copy_all(prefix.as_bytes());
}

/// The line that tracing `msg` prints.
pub fn print_with_prefix(state: &TracePrefix, msg: &[u8]) -> (line: Vec<u8>)
    ensures
        line@ == state.prefix@ + msg@ + seq![10u8],
{
    let mut line: Vec<u8> = text::copy_all(state.prefix.as_slice());
    text::append(&mut line, msg);
    line.push(10);
    assert(line@ =~= state.prefix@ + msg@ + seq![10u8]);
    line
}

/// Text printed for an integer.
pub fn haxe_sys_print_int(value: i64) -> (out: Vec<u8>)
    ensures
        out@ == text::dec_int(value as int),
{
    text::decimal(value)
}

/// `true` or `false`.
pub open spec fn bool_bytes(b: bool) -> Seq<u8> {
    if b {
        text::lit("true")
    } else {
        text::lit("false")
    }
}

/// Text printed for a boolean.
pub fn haxe_sys_print_bool(value: bool) -> (out: Vec<u8>)
    ensures
        out@ == bool_bytes(value),
{
    if value {
        text::copy_all("true".as_bytes())
    } else {
        text::copy_all("false".as_bytes())
    }
}

/// Text printed for an empty line.
pub fn haxe_sys_println() -> (out: Vec<u8>)
    ensures
        out@ == seq![10u8],
{
    let out: Vec<u8> = vec![10];
    assert(out@ =~= seq![10u8]);
    out
}

/// Line traced for an integer.
pub fn haxe_trace_int(state: &TracePrefix, value: i64) -> (line: Vec<u8>)
    ensures
        line@ == state.prefix@ + text::dec_int(value as int) + seq![10u8],
{
    print_with_prefix(state, text::decimal(value).as_slice())
}

/// Line traced for a boolean.
pub fn haxe_trace_bool(state: &TracePrefix, value: bool) -> (line: Vec<u8>)
    ensures
        line@ == state.prefix@ + bool_bytes(value) + seq![10u8],
{
    print_with_prefix(state, haxe_sys_print_bool(value).as_slice())
}

/// What is traced for raw string bytes.
pub open spec fn trace_text(bytes: Option<Seq<u8>>) -> Seq<u8> {
    match bytes {
        None => text::lit("null"),
        Some(b) => if vstd::utf8::valid_utf8(b) {
            b
        } else {
            text::lit("<invalid utf8>")
        },
    }
}

/// Line traced for raw string bytes.
pub fn haxe_trace_string(state: &TracePrefix, bytes: Option<&[u8]>) -> (line: Vec<u8>)
    ensures
        line@ == state.prefix@ + trace_text(
            match bytes {
                Some(b) => Some(b@),
                None => None,
            },
        ) + seq![10u8],
{
    match bytes {
        None => print_with_prefix(state, "null".as_bytes()),
        Some(b) => {
            if haxe_string::from_utf8(b).is_some() {
                print_with_prefix(state, b)
            } else {
                print_with_prefix(state, "<invalid utf8>".as_bytes())
            }
        },
    }
}

/// Line traced for a string handle. A null handle is traced without the prefix.
pub fn haxe_trace_string_struct(state: &TracePrefix, s: Option<&HaxeString>) -> (line: Vec<u8>)
    ensures
        line@ == (match s {
            None => text::lit("null") + seq![10u8],
            Some(h) => state.prefix@ + trace_text(
                if h.data is Some {
                    Some(h@)
                } else {
                    None
                },
            ) + seq![10u8],
        }),
{
    match s {
        None => {
            let mut line: Vec<u8> = text::copy_all("null".as_bytes());
            line.push(10);
            assert(line@ =~= text::lit("null") + seq![10u8]);
            line
        },
        Some(h) => match &h.data {
            Some(_) => haxe_trace_string(state, Some(h.bytes())),
            None => haxe_trace_string(state, None),
        },
    }
}

/// Line traced for a dynamic value at `address` (0 for null), given the text that its conversion
/// to a string produced.
pub fn haxe_trace_any(
    state: &TracePrefix,
    address: u64,
    converted: Option<&HaxeString>,
) -> (line: Vec<u8>)
    ensures
        line@ == state.prefix@ + (if address == 0 {
            text::lit("null")
        } else if haxe_string::opt_view(converted).len() > 0 && vstd::utf8::valid_utf8(
            haxe_string::opt_view(converted),
        ) {
            haxe_string::opt_view(converted)
        } else {
            text::lit("<Dynamic@0x") + text::hex_nat(address as nat) + text::lit(">")
        }) + seq![10u8],
{
    if address == 0 {
        return print_with_prefix(state, "null".as_bytes());
    }
    match haxe_string::printable_bytes(converted) {
        Some(b) => print_with_prefix(state, b),
        None => {
            let mut msg: Vec<u8> = text::copy_all("<Dynamic@0x".as_bytes());
            text::append_hex(&mut msg, address);
            text::append_str(&mut msg, ">");
            print_with_prefix(state, msg.as_slice())
        },
    }
}

// ---------------------------------------------------------------------------
// Conversions to String
// ---------------------------------------------------------------------------

/// An integer as a string.
pub fn haxe_string_from_int(value: i64) -> (s: HaxeString)
    ensures
        s.exact(text::dec_int(value as int)),
{
    HaxeString::from_vec(text::decimal(value))
}

/// A boolean as a string that owns no buffer.
pub fn haxe_string_from_bool(value: bool) -> (s: HaxeString)
    ensures
        s.bare(bool_bytes(value)),
        s.cap == 0,
{
    HaxeString::borrowed(haxe_sys_print_bool(value))
}

/// A copy of string bytes.
pub fn haxe_string_from_string(bytes: &[u8]) -> (s: HaxeString)
    ensures
        s.exact(bytes@),
{
    HaxeString::from_vec(text::copy_all(bytes))
}

/// The string `null`, which owns no buffer.
pub fn haxe_string_from_null() -> (s: HaxeString)
    ensures
        s.bare(text::lit("null")),
        s.cap == 0,
{
    HaxeString::borrowed(text::copy_all("null".as_bytes()))
}

/// A string literal: the bytes stay with the program.
pub fn haxe_string_literal(bytes: Vec<u8>) -> (s: HaxeString)
    ensures
        s.bare(bytes@),
        s.cap == 0,
{
    HaxeString::borrowed(bytes)
}

fn compact_vec(bytes: Vec<u8>) -> (s: HaxeString)
    ensures
        s.compact(bytes@),
        s@ == bytes@,
{
    if bytes.len() == 0 {
        assert(bytes@ =~= Seq::<u8>::empty());
        HaxeString::null()
    } else {
        HaxeString::from_vec(bytes)
    }
}

/// The string in upper case; null for a null or empty string.
pub fn haxe_string_upper(s: Option<&HaxeString>) -> (r: HaxeString)
    ensures
        if haxe_string::opt_view(s).len() == 0 {
            r.is_null()
        } else {
            r.exact(haxe_string::uppercase_bytes(haxe_string::opt_view(s)))
        },
{
    match s {
        None => HaxeString::null(),
        Some(h) => {
            if h.len() == 0 {
                HaxeString::null()
            } else {
                HaxeString::from_vec(haxe_string::upper(h.bytes()))
            }
        },
    }
}

/// The string in lower case; null for a null or empty string.
pub fn haxe_string_lower(s: Option<&HaxeString>) -> (r: HaxeString)
    ensures
        if haxe_string::opt_view(s).len() == 0 {
            r.is_null()
        } else {
            r.exact(haxe_string::lowercase_bytes(haxe_string::opt_view(s)))
        },
{
    match s {
        None => HaxeString::null(),
        Some(h) => {
            if h.len() == 0 {
                HaxeString::null()
            } else {
                HaxeString::from_vec(haxe_string::lower(h.bytes()))
            }
        },
    }
}

// ---------------------------------------------------------------------------
// String methods
// ---------------------------------------------------------------------------

/// Length as a Haxe `Int`.
pub fn haxe_string_len(s: Option<&HaxeString>) -> (n: i32)
    ensures
        n == haxe_string::opt_view(s).len() as i32,
{
    match s {
        None => 0,
        Some(h) => #[verifier::truncate]
        (h.len() as i32),
    }
}

/// The one-byte string at `index`; null outside the string.
pub fn haxe_string_char_at_ptr(s: Option<&HaxeString>, index: i64) -> (r: HaxeString)
    ensures
        r.compact(
            if 0 <= index < haxe_string::opt_view(s).len() {
                seq![haxe_string::opt_view(s)[index as int]]
            } else {
                Seq::empty()
            },
        ),
{
    match s {
        None => HaxeString::null(),
        Some(h) => {
            let b: &[u8] = h.bytes();
            if index < 0 || index as u64 >= b.len() as u64 {
                HaxeString::null()
            } else {
                let one: Vec<u8> = vec![b[index as usize]];
                assert(one@ =~= seq![h@[index as int]]);
                HaxeString::from_vec(one)
            }
        },
    }
}

/// The byte at `index`, or -1 outside the string.
pub fn haxe_string_char_code_at_ptr(s: Option<&HaxeString>, index: i64) -> (c: i64)
    ensures
        c == (if 0 <= index < haxe_string::opt_view(s).len() {
            haxe_string::opt_view(s)[index as int] as int
        } else {
            -1
        }),
{
    match s {
        None => -1,
        Some(h) => {
            let b: &[u8] = h.bytes();
            if index < 0 || index as u64 >= b.len() as u64 {
                -1
            } else {
                b[index as usize] as i64
            }
        },
    }
}

/// `s` is a handle with a data pointer.
pub open spec fn has_data(s: Option<&HaxeString>) -> bool {
    s is Some && s->Some_0.data is Some
}

/// First position of `needle` at or after `start_index`, or -1. A negative start counts as 0,
/// and an empty needle is found at the start.
pub open spec fn index_of_ptr_spec(
    s: Option<&HaxeString>,
    needle: Option<&HaxeString>,
    start_index: int,
) -> int {
    let from = if start_index < 0 { 0 } else { start_index };
    if !has_data(s) || !has_data(needle) {
        -1
    } else if haxe_string::opt_view(needle).len() == 0 {
        from
    } else {
        text::find_from(haxe_string::opt_view(s), haxe_string::opt_view(needle), from)
    }
}

/// First position of `needle` at or after `start_index`, as a Haxe `Int`.
pub fn haxe_string_index_of_ptr(
    s: Option<&HaxeString>,
    needle: Option<&HaxeString>,
    start_index: i32,
) -> (r: i32)
    ensures
        r == index_of_ptr_spec(s, needle, start_index as int) as i32,
{
    match (s, needle) {
        (Some(h), Some(n)) => {
            if h.data.is_none() || n.data.is_none() {
                return -1;
            }
            let start: usize = if start_index < 0 {
                0
            } else {
                start_index as usize
            };
            if n.len() == 0 {
                return start as i32;
            }
            match text::find(h.bytes(), n.bytes(), start) {
                Some(i) => #[verifier::truncate]
                (i as i32),
                None => -1,
            }
        },
        _ => -1,
    }
}

/// Last position of `needle` at or before `start_index`, or -1. A negative start searches from
/// the end; an empty needle is found at the start index, or at the end where that is outside.
pub open spec fn last_index_of_ptr_spec(
    s: Option<&HaxeString>,
    needle: Option<&HaxeString>,
    start_index: i32,
) -> i32 {
    let hay = haxe_string::opt_view(s);
    let pat = haxe_string::opt_view(needle);
    if !has_data(s) || !has_data(needle) {
        -1i32
    } else if pat.len() == 0 {
        if start_index < 0 || start_index >= hay.len() as i32 {
            hay.len() as i32
        } else {
            start_index
        }
    } else if pat.len() > hay.len() {
        -1i32
    } else {
        let last = hay.len() - pat.len();
        text::find_back(
            hay,
            pat,
            if start_index < 0 || start_index > last {
                last
            } else {
                start_index as int
            },
        ) as i32
    }
}

/// Last position of `needle` at or before `start_index`, as a Haxe `Int`.
pub fn haxe_string_last_index_of_ptr(
    s: Option<&HaxeString>,
    needle: Option<&HaxeString>,
    start_index: i32,
) -> (r: i32)
    ensures
        r == last_index_of_ptr_spec(s, needle, start_index),
{
    match (s, needle) {
        (Some(h), Some(n)) => {
            if h.data.is_none() || n.data.is_none() {
                return -1;
            }
            let hay: &[u8] = h.bytes();
            let pat: &[u8] = n.bytes();
            if pat.len() == 0 {
                let len: i32 = #[verifier::truncate]
                (hay.len() as i32);
                return if start_index < 0 || start_index >= len {
                    len
                } else {
                    start_index
                };
            }
            if pat.len() > hay.len() {
                return -1;
            }
            let max_start: usize = hay.len() - pat.len();
            let from: usize = if start_index < 0 || start_index as u64 > max_start as u64 {
                max_start
            } else {
                start_index as usize
            };
            match text::rfind(hay, pat, from) {
                Some(i) => #[verifier::truncate]
                (i as i32),
                None => -1,
            }
        },
        _ => -1,
    }
}

/// The bytes that `substr(pos, len)` takes: `len` of them from `pos`, which counts from the end
/// where it is negative; none where `len` is negative.
pub open spec fn substr_ptr_spec(b: Seq<u8>, pos: int, len: int) -> Seq<u8> {
    let start = if pos >= 0 {
        pos
    } else if b.len() + pos < 0 {
        0
    } else {
        b.len() + pos
    };
    if len < 0 {
        Seq::empty()
    } else {
        haxe_string::clamped_range(b, start, start + len)
    }
}

/// At most `len` bytes of the string from `pos`.
pub fn haxe_string_substr_ptr(s: Option<&HaxeString>, pos: i32, len: i32) -> (r: HaxeString)
    ensures
        r.compact(substr_ptr_spec(haxe_string::opt_view(s), pos as int, len as int)),
{
    match s {
        None => HaxeString::null(),
        Some(h) => {
            let b: &[u8] = h.bytes();
            if b.len() == 0 || len < 0 {
                return HaxeString::null();
            }
            let start: usize = if pos < 0 {
                let from_end: usize = (-(pos as i64)) as usize;
                b.len().saturating_sub(from_end)
            } else {
                pos as usize
            };
            if start >= b.len() {
                return HaxeString::null();
            }
            let available: usize = b.len() - start;
            let take: usize = if (len as usize) < available {
                len as usize
            } else {
                available
            };
            if take == 0 {
                return HaxeString::null();
            }
            HaxeString::from_vec(text::copy_range(b, start, start + take))
        },
    }
}

/// The bytes between two positions, whichever comes first; a negative one counts as 0.
pub open spec fn substring_ptr_spec(b: Seq<u8>, start: int, end: int) -> Seq<u8> {
    let a = if start < 0 { 0 } else { start };
    let z = if end < 0 { 0 } else { end };
    if a <= z {
        haxe_string::clamped_range(b, a, z)
    } else {
        haxe_string::clamped_range(b, z, a)
    }
}

/// The part of the string between two positions.
pub fn haxe_string_substring_ptr(
    s: Option<&HaxeString>,
    start_index: i32,
    end_index: i32,
) -> (r: HaxeString)
    ensures
        r.compact(
            substring_ptr_spec(haxe_string::opt_view(s), start_index as int, end_index as int),
        ),
{
    match s {
        None => HaxeString::null(),
        Some(h) => {
            let b: &[u8] = h.bytes();
            let n: usize = b.len();
            if n == 0 {
                return HaxeString::null();
            }
            let mut start: usize = if start_index < 0 {
                0
            } else {
                start_index as usize
            };
            let mut end: usize = if end_index < 0 {
                0
            } else {
                end_index as usize
            };
            if start > n {
                start = n;
            }
            if end > n {
                end = n;
            }
            if start > end {
                core::mem::swap(&mut start, &mut end);
            }
            if start == end {
                return HaxeString::null();
            }
            HaxeString::from_vec(text::copy_range(b, start, end))
        },
    }
}

/// `substr` from a position inside the string takes as many bytes as are asked for, or as there
/// are, one after another from that position.
pub proof fn law_substr_takes_bytes(b: Seq<u8>, pos: int, len: int)
    requires
        0 <= pos <= b.len(),
        0 <= len,
    ensures
        len <= b.len() - pos ==> substr_ptr_spec(b, pos, len).len() == len,
        len > b.len() - pos ==> substr_ptr_spec(b, pos, len).len() == b.len() - pos,
        forall|i: int|
            0 <= i < len && pos + i < b.len() ==> #[trigger] substr_ptr_spec(b, pos, len)[i] == b[pos
                + i],
{
}

/// `substr` from a negative position counts from the end of the string, and from its start where
/// it has fewer bytes. Behind the end, and for a negative length, there is nothing.
pub proof fn law_substr_counts_from_the_end(b: Seq<u8>, k: int, pos: int, len: int)
    requires
        0 < k,
    ensures
        k <= b.len() ==> substr_ptr_spec(b, -k, len) == substr_ptr_spec(b, b.len() - k, len),
        k > b.len() ==> substr_ptr_spec(b, -k, len) == substr_ptr_spec(b, 0, len),
        pos >= b.len() || len < 0 ==> substr_ptr_spec(b, pos, len) == Seq::<u8>::empty(),
{
}

/// `substring` between two positions inside the string gives the bytes from the first up to the
/// second; positions outside count as the nearest one inside.
pub proof fn law_substring_takes_bytes(b: Seq<u8>, i: int, j: int)
    ensures
        0 <= i <= j <= b.len() ==> substring_ptr_spec(b, i, j).len() == j - i && forall|k: int|
            0 <= k < j - i ==> #[trigger] substring_ptr_spec(b, i, j)[k] == b[i + k],
        i < 0 ==> substring_ptr_spec(b, i, j) == substring_ptr_spec(b, 0, j),
        j > b.len() ==> substring_ptr_spec(b, i, j) == substring_ptr_spec(b, i, b.len() as int),
{
    if i < 0 && j >= 0 {
        assert(substring_ptr_spec(b, i, j) =~= substring_ptr_spec(b, 0, j));
    }
    if j > b.len() {
        assert(substring_ptr_spec(b, i, j) =~= substring_ptr_spec(b, i, b.len() as int));
    }
}

/// `substring` does not depend on the order of its two positions.
pub proof fn law_substring_symmetric(b: Seq<u8>, i: int, j: int)
    ensures
        substring_ptr_spec(b, i, j) == substring_ptr_spec(b, j, i),
{
}

/// A string is the part before a position followed by the part from it on.
pub proof fn law_substring_splits(b: Seq<u8>, i: int)
    requires
        0 <= i <= b.len(),
    ensures
        substring_ptr_spec(b, 0, i) + substring_ptr_spec(b, i, b.len() as int) == b,
{
    assert(substring_ptr_spec(b, 0, i) + substring_ptr_spec(b, i, b.len() as int) =~= b);
}

/// The UTF-8 encoding of a character code; null where the code is no Unicode scalar value.
pub fn haxe_string_from_char_code(code: i32) -> (r: HaxeString)
    ensures
        if 0 <= code && vstd::utf8::is_scalar(code as u32) {
            r.exact(vstd::utf8::encode_scalar(code as u32))
        } else {
            r.is_null()
        },
{
    if code < 0 || code > 0x10FFFF || (0xD800 <= code && code <= 0xDFFF) {
        return HaxeString::null();
    }
    let mut bytes: Vec<u8> = Vec::new();
    text::append_scalar(&mut bytes, code as u32);
    assert(bytes@ =~= vstd::utf8::encode_scalar(code as u32));
    HaxeString::from_vec(bytes)
}

/// A copy of the string; null for a null or empty one.
pub fn haxe_string_copy(s: Option<&HaxeString>) -> (r: HaxeString)
    ensures
        r.compact(haxe_string::opt_view(s)),
        r@ == haxe_string::opt_view(s),
{
    match s {
        None => HaxeString::null(),
        Some(h) => compact_vec(text::copy_all(h.bytes())),
    }
}

/// The bytes of `b`, each a part of its own.
pub open spec fn single_bytes(b: Seq<u8>) -> Seq<Seq<u8>> {
    Seq::new(b.len(), |i: int| seq![b[i]])
}

/// The parts that `split` gives: none for a null string, one empty part for an empty one, the
/// whole for a null delimiter, single bytes for an empty one.
pub open spec fn split_ptr_spec(s: Option<&HaxeString>, delimiter: Option<&HaxeString>) -> Seq<
    Seq<u8>,
> {
    let b = haxe_string::opt_view(s);
    let d = haxe_string::opt_view(delimiter);
    if s is None {
        Seq::empty()
    } else if b.len() == 0 || delimiter is None {
        seq![b]
    } else if d.len() == 0 {
        single_bytes(b)
    } else {
        text::pieces(b, d, 0)
    }
}

/// Splits a string; no list at all for a null string.
pub fn haxe_string_split_ptr(
    s: Option<&HaxeString>,
    delimiter: Option<&HaxeString>,
) -> (parts: Option<Vec<HaxeString>>)
    ensures
        parts is Some <==> s is Some,
        parts is Some ==> haxe_string::all_views(parts->Some_0@) == split_ptr_spec(s, delimiter),
        parts is Some ==> forall|i: int|
            0 <= i < parts->Some_0@.len() ==> (#[trigger] parts->Some_0@[i]).compact(
                parts->Some_0@[i]@,
            ),
{
    let h: &HaxeString = match s {
        None => {
            return None;
        },
        Some(h) => h,
    };
    let b: &[u8] = h.bytes();
    let mut parts: Vec<HaxeString> = Vec::new();
    if b.len() == 0 || delimiter.is_none() {
        parts.push(haxe_string_copy(s));
        assert(haxe_string::all_views(parts@) =~= seq![b@]);
        return Some(parts);
    }
    let d: &[u8] = match delimiter {
        Some(d) => d.bytes(),
        None => b,
    };
    if d.len() == 0 {
        let mut i: usize = 0;
        while i < b.len()
            invariant
                i <= b@.len(),
                parts@.len() == i,
                forall|j: int| 0 <= j < i ==> (#[trigger] parts@[j]).exact(seq![b@[j]]),
            decreases b@.len() - i,
        {
            let one: Vec<u8> = vec![b[i]];
            assert(one@ =~= seq![b@[i as int]]);
            parts.push(HaxeString::from_vec(one));
            i = i + 1;
        }
        assert(haxe_string::all_views(parts@) =~= single_bytes(b@));
        return Some(parts);
    }
    let raw: Vec<Vec<u8>> = text::split(b, d);
    let mut i: usize = 0;
    while i < raw.len()
        invariant
            i <= raw@.len(),
            parts@.len() == i,
            forall|j: int| 0 <= j < i ==> (#[trigger] parts@[j])@ == raw@[j]@,
            forall|j: int| 0 <= j < i ==> (#[trigger] parts@[j]).compact(parts@[j]@),
        decreases raw@.len() - i,
    {
        parts.push(compact_vec(text::copy_all(raw[i].as_slice())));
        i = i + 1;
    }
    assert(haxe_string::all_views(parts@) =~= text::views(raw@));
    Some(parts)
}

proof fn lemma_join_single_bytes(b: Seq<u8>)
    ensures
        text::join(single_bytes(b), Seq::empty()) == b,
    decreases b.len(),
{
    let parts = single_bytes(b);
    if b.len() == 0 {
        assert(b =~= Seq::<u8>::empty());
    } else if b.len() == 1 {
        assert(parts[0] =~= b);
    } else {
        lemma_join_single_bytes(b.drop_last());
        assert(parts.drop_last() =~= single_bytes(b.drop_last()));
        assert(text::join(parts, Seq::empty()) =~= b);
    }
}

/// Joining the parts of a split with the delimiter gives the string back, whatever the
/// delimiter.
pub proof fn law_split_ptr_join(s: &HaxeString, delimiter: Option<&HaxeString>)
    ensures
        text::join(split_ptr_spec(Some(s), delimiter), haxe_string::opt_view(delimiter)) == s@,
{
    let b = s@;
    let d = haxe_string::opt_view(delimiter);
    if b.len() == 0 || delimiter is None {
        assert(split_ptr_spec(Some(s), delimiter) =~= seq![b]);
    } else if d.len() == 0 {
        assert(d =~= Seq::<u8>::empty());
        lemma_join_single_bytes(b);
    } else {
        text::lemma_join_pieces(b, d, 0);
        assert(b.subrange(0, b.len() as int) =~= b);
    }
}

// ---------------------------------------------------------------------------
// Texts handed to and taken from the operating system
// ---------------------------------------------------------------------------

/// The text of a string handle: none for a null handle or for bytes that are not UTF-8.
pub fn haxe_string_to_rust(s: Option<&HaxeString>) -> (r: Option<String>)
    ensures
        r is Some <==> s is Some && vstd::utf8::valid_utf8(haxe_string::opt_view(s)),
        r is Some ==> r->Some_0@ == vstd::utf8::decode_utf8(haxe_string::opt_view(s)),
{
    match s {
        None => None,
        Some(h) => haxe_string::from_utf8(h.bytes()),
    }
}

/// The string that holds a text.
pub fn rust_string_to_haxe(s: String) -> (r: HaxeString)
    ensures
        r.exact(vstd::utf8::encode_utf8(s@)),
{
    HaxeString::from_vec(text::copy_all(s.as_str().as_bytes()))
}

/// A text goes through a Haxe string unchanged, and so do the bytes of a well-formed string
/// through a text.
pub proof fn law_text_round_trip(s: Seq<char>, b: Seq<u8>)
    requires
        vstd::utf8::valid_utf8(b),
    ensures
        vstd::utf8::valid_utf8(vstd::utf8::encode_utf8(s)),
        vstd::utf8::decode_utf8(vstd::utf8::encode_utf8(s)) == s,
        vstd::utf8::encode_utf8(vstd::utf8::decode_utf8(b)) == b,
{
    vstd::utf8::encode_utf8_valid_utf8(s);
    vstd::utf8::encode_utf8_decode_utf8(s);
    vstd::utf8::decode_utf8_encode_utf8(b);
}

/// The variable that `getEnv` looks up; none for a null or empty name and for bytes that are
/// not UTF-8.
pub fn haxe_sys_get_env(name: Option<&HaxeString>) -> (r: Option<String>)
    ensures
        r is Some <==> haxe_string::opt_view(name).len() > 0 && vstd::utf8::valid_utf8(
            haxe_string::opt_view(name),
        ),
        r is Some ==> r->Some_0@ == vstd::utf8::decode_utf8(haxe_string::opt_view(name)),
{
    match name {
        None => None,
        Some(h) => {
            if h.len() == 0 {
                None
            } else {
                haxe_string::from_utf8(h.bytes())
            }
        },
    }
}

/// What `putEnv` does to the environment.
pub enum EnvChange {
    Keep,
    Remove(String),
    Assign(String, String),
}

/// The change that `putEnv` asks for: a null value removes the variable, a value that is not
/// UTF-8 changes nothing, and so does an unusable name.
pub fn haxe_sys_put_env(name: Option<&HaxeString>, value: Option<&HaxeString>) -> (r: EnvChange)
    ensures
        ({
            let n = haxe_string::opt_view(name);
            let v = haxe_string::opt_view(value);
            if n.len() == 0 || !vstd::utf8::valid_utf8(n) {
                r is Keep
            } else if !has_data(value) {
                r matches EnvChange::Remove(k) && k@ == vstd::utf8::decode_utf8(n)
            } else if vstd::utf8::valid_utf8(v) {
                r matches EnvChange::Assign(k, x) && k@ == vstd::utf8::decode_utf8(n) && x@
                    == vstd::utf8::decode_utf8(v)
            } else {
                r is Keep
            }
        }),
{
    let key: String = match haxe_sys_get_env(name) {
        None => {
            return EnvChange::Keep;
        },
        Some(k) => k,
    };
    match value {
        None => EnvChange::Remove(key),
        Some(h) => match &h.data {
            None => EnvChange::Remove(key),
            Some(_) => match haxe_string::from_utf8(h.bytes()) {
                Some(v) => EnvChange::Assign(key, v),
                None => EnvChange::Keep,
            },
        },
    }
}

/// The directory that `setCwd` changes to, by the rules of `getEnv` for names.
pub fn haxe_sys_set_cwd(path: Option<&HaxeString>) -> (r: Option<String>)
    ensures
        r is Some <==> haxe_string::opt_view(path).len() > 0 && vstd::utf8::valid_utf8(
            haxe_string::opt_view(path),
        ),
        r is Some ==> r->Some_0@ == vstd::utf8::decode_utf8(haxe_string::opt_view(path)),
{
    haxe_sys_get_env(path)
}

/// The name that Haxe gives to a target operating system.
pub open spec fn system_name_spec(os: Seq<u8>) -> Seq<u8> {
    if os == text::lit("windows") {
        text::lit("Windows")
    } else if os == text::lit("macos") {
        text::lit("Mac")
    } else if os == text::lit("linux") {
        text::lit("Linux")
    } else if os == text::lit("freebsd") || os == text::lit("openbsd") || os == text::lit(
        "netbsd",
    ) {
        text::lit("BSD")
    } else {
        text::lit("Unknown")
    }
}

/// The system name as a string that owns no buffer.
pub fn haxe_sys_system_name(os: &str) -> (s: HaxeString)
    ensures
        s.bare(system_name_spec(text::lit(os))),
        s.cap == 0,
{
    let b: &[u8] = os.as_bytes();
    let name: &str = if text::equal(b, "windows".as_bytes()) {
        "Windows"
    } else if text::equal(b, "macos".as_bytes()) {
        "Mac"
    } else if text::equal(b, "linux".as_bytes()) {
        "Linux"
    } else if text::equal(b, "freebsd".as_bytes()) || text::equal(b, "openbsd".as_bytes())
        || text::equal(b, "netbsd".as_bytes()) {
        "BSD"
    } else {
        "Unknown"
    };
    HaxeString::borrowed(text::copy_all(name.as_bytes()))
}

/// Exit code of a shell command: -1 for a null command, a command that could not be started
/// and one that ended without a code.
pub fn haxe_sys_command(cmd: Option<&String>, code: Option<i32>) -> (r: i32)
    ensures
        r == (if cmd is Some && code is Some {
            code->Some_0
        } else {
            -1i32
        }),
{
    match (cmd, code) {
        (Some(_), Some(c)) => c,
        _ => -1,
    }
}

/// The character that `getChar` returns for a byte read from standard input; -1 at its end.
pub fn haxe_sys_get_char(read: Option<u8>) -> (c: i32)
    ensures
        c == (match read {
            Some(b) => b as int,
            None => -1,
        }),
{
    match read {
        Some(b) => b as i32,
        None => -1,
    }
}

// ---------------------------------------------------------------------------
// Files
// ---------------------------------------------------------------------------

/// A time of a file: whole seconds since the epoch and nanoseconds.
#[derive(Clone, Copy, PartialEq, Eq, Structural)]
pub struct FileTime {
    pub secs: u64,
    pub nanos: u32,
}

/// What the operating system reports of a file. A time is absent where the system does not
/// keep it or it lies before the epoch.
#[derive(Clone, Copy)]
pub struct RawFileStat {
    pub gid: u32,
    pub uid: u32,
    pub atime: Option<FileTime>,
    pub mtime: Option<FileTime>,
    pub ctime: Option<FileTime>,
    pub size: u64,
    pub dev: u64,
    pub ino: u64,
    pub nlink: u64,
    pub rdev: u64,
    pub mode: u32,
}

/// File statistics in Haxe's layout.
#[derive(Clone, Copy)]
pub struct HaxeFileStat {
    pub gid: i64,
    pub uid: i64,
    pub atime: FileTime,
    pub mtime: FileTime,
    pub ctime: FileTime,
    pub size: i64,
    pub dev: i64,
    pub ino: i64,
    pub nlink: i64,
    pub rdev: i64,
    pub mode: i64,
}

/// Permissions of a directory where the system reports none.
pub const DIRECTORY_MODE: u32 = 0o755;

/// Permissions of any other file where the system reports none.
pub const FILE_MODE: u32 = 0o644;

/// What counts as reported by a system that knows no owners, devices and permissions: one link, no
/// owner, and the usual permissions.
pub fn plain_stat(
    is_dir: bool,
    size: u64,
    atime: Option<FileTime>,
    mtime: Option<FileTime>,
    ctime: Option<FileTime>,
) -> (r: RawFileStat)
    ensures
        r == (RawFileStat {
            gid: 0,
            uid: 0,
            atime,
            mtime,
            ctime,
            size,
            dev: 0,
            ino: 0,
            nlink: 1,
            rdev: 0,
            mode: if is_dir {
                DIRECTORY_MODE
            } else {
                FILE_MODE
            },
        }),
{
    let mode: u32 = if is_dir {
        DIRECTORY_MODE
    } else {
        FILE_MODE
    };
    RawFileStat { gid: 0, uid: 0, atime, mtime, ctime, size, dev: 0, ino: 0, nlink: 1, rdev: 0, mode }
}

/// A missing time is the epoch itself.
pub open spec fn time_or_epoch(t: Option<FileTime>) -> FileTime {
    match t {
        Some(t) => t,
        None => FileTime { secs: 0, nanos: 0 },
    }
}

fn stat_time(t: Option<FileTime>) -> (r: FileTime)
    ensures
        r == time_or_epoch(t),
{
    match t {
        Some(t) => t,
        None => FileTime { secs: 0, nanos: 0 },
    }
}

/// The statistics of a path, given what the system reported of it; none for a path that is not
/// a text or has no report.
pub fn haxe_filesystem_stat(path: Option<&String>, raw: Option<RawFileStat>) -> (r: Option<
    HaxeFileStat,
>)
    ensures
        r is Some <==> path is Some && raw is Some,
        r is Some ==> r->Some_0 == (HaxeFileStat {
            gid: raw->Some_0.gid as i64,
            uid: raw->Some_0.uid as i64,
            atime: time_or_epoch(raw->Some_0.atime),
            mtime: time_or_epoch(raw->Some_0.mtime),
            ctime: time_or_epoch(raw->Some_0.ctime),
            size: raw->Some_0.size as i64,
            dev: raw->Some_0.dev as i64,
            ino: raw->Some_0.ino as i64,
            nlink: raw->Some_0.nlink as i64,
            rdev: raw->Some_0.rdev as i64,
            mode: raw->Some_0.mode as i64,
        }),
{
    match (path, raw) {
        (Some(_), Some(m)) => Some(
            HaxeFileStat {
                gid: m.gid as i64,
                uid: m.uid as i64,
                atime: stat_time(m.atime),
                mtime: stat_time(m.mtime),
                ctime: stat_time(m.ctime),
                size: #[verifier::truncate]
                (m.size as i64),
                dev: #[verifier::truncate]
                (m.dev as i64),
                ino: #[verifier::truncate]
                (m.ino as i64),
                nlink: #[verifier::truncate]
                (m.nlink as i64),
                rdev: #[verifier::truncate]
                (m.rdev as i64),
                mode: m.mode as i64,
            },
        ),
        _ => None,
    }
}

/// An entry name that a directory listing keeps: a text other than `.` and `..`.
pub open spec fn listed(name: Option<Seq<u8>>) -> bool {
    name is Some && name->Some_0 != text::lit(".") && name->Some_0 != text::lit("..")
}

/// The listed ones of the entry names, in their order.
pub open spec fn listed_names(names: Seq<Option<Vec<u8>>>) -> Seq<Seq<u8>>
    decreases names.len(),
{
    if names.len() == 0 {
        Seq::empty()
    } else {
        let rest = listed_names(names.drop_last());
        match names.last() {
            Some(v) => if listed(Some(v@)) {
                rest.push(v@)
            } else {
                rest
            },
            None => rest,
        }
    }
}

/// The array of names that a directory listing returns, given the entry names (none for a name
/// that is not a text); no array where the directory could not be read.
pub fn haxe_filesystem_read_directory(names: Option<Vec<Option<Vec<u8>>>>) -> (r: Option<
    Vec<HaxeString>,
>)
    ensures
        r is Some <==> names is Some,
        r is Some ==> haxe_string::all_views(r->Some_0@) == listed_names(names->Some_0@),
        r is Some ==> forall|i: int|
            0 <= i < r->Some_0@.len() ==> (#[trigger] r->Some_0@[i]).exact(r->Some_0@[i]@),
{
    match names {
        None => None,
        Some(names) => {
            let mut out: Vec<HaxeString> = Vec::new();
            let mut i: usize = 0;
            assert(haxe_string::all_views(out@) =~= listed_names(names@.take(0)));
            while i < names.len()
                invariant
                    i <= names@.len(),
                    haxe_string::all_views(out@) == listed_names(names@.take(i as int)),
                    forall|j: int| 0 <= j < out@.len() ==> (#[trigger] out@[j]).exact(out@[j]@),
                decreases names@.len() - i,
            {
                let ghost before = out@;
                assert(names@.take(i + 1).drop_last() =~= names@.take(i as int));
                match &names[i] {
                    Some(v) => {
                        if !text::equal(v.as_slice(), ".".as_bytes()) && !text::equal(
                            v.as_slice(),
                            "..".as_bytes(),
                        ) {
                            out.push(HaxeString::from_vec(text::copy_all(v.as_slice())));
                            assert(haxe_string::all_views(out@) =~= haxe_string::all_views(
                                before,
                            ).push(v@));
                        }
                    },
                    None => {},
                }
                i = i + 1;
            }
            assert(names@.take(i as int) =~= names@);
            Some(out)
        },
    }
}

/// Where a seek goes.
#[derive(Clone, Copy, PartialEq, Eq, Structural)]
pub enum SeekTarget {
    Start(u64),
    Current(i64),
    End(i64),
}

/// Seek from the beginning of the file.
pub const SEEK_BEGIN: i32 = 0;

/// Seek from the current position.
pub const SEEK_CUR: i32 = 1;

/// Seek from the end of the file.
pub const SEEK_END: i32 = 2;

/// The seek that position `p` and origin `pos` ask for; none for an unknown origin.
pub open spec fn seek_spec(p: i32, pos: i32) -> Option<SeekTarget> {
    if pos == SEEK_BEGIN {
        Some(SeekTarget::Start(p as u64))
    } else if pos == SEEK_CUR {
        Some(SeekTarget::Current(p as i64))
    } else if pos == SEEK_END {
        Some(SeekTarget::End(p as i64))
    } else {
        None
    }
}

fn seek_target(p: i32, pos: i32) -> (r: Option<SeekTarget>)
    ensures
        r == seek_spec(p, pos),
{
    if pos == SEEK_BEGIN {
        Some(SeekTarget::Start(#[verifier::truncate] (p as u64)))
    } else if pos == SEEK_CUR {
        Some(SeekTarget::Current(p as i64))
    } else if pos == SEEK_END {
        Some(SeekTarget::End(p as i64))
    } else {
        None
    }
}

/// State of an open input file: whether a read has met the end.
pub struct HaxeFileInput {
    pub eof_reached: bool,
}

/// Takes the outcome of reading one byte: the byte, nothing at the end of the file, or an
/// error. Anything but a byte gives -1 and marks the end.
pub fn haxe_fileinput_read_byte(
    handle: &mut HaxeFileInput,
    outcome: Result<Option<u8>, ()>,
) -> (c: i32)
    ensures
        match outcome {
            Ok(Some(b)) => c == b && final(handle).eof_reached == old(handle).eof_reached,
            _ => c == -1 && final(handle).eof_reached,
        },
{
    match outcome {
        Ok(Some(b)) => b as i32,
        _ => {
            handle.eof_reached = true;
            -1
        },
    }
}

/// Takes the outcome of a read into a buffer: the number of bytes read, or an error. No byte
/// or an error gives 0 and marks the end.
pub fn haxe_fileinput_read_bytes(
    handle: &mut HaxeFileInput,
    outcome: Result<usize, ()>,
) -> (n: i32)
    ensures
        match outcome {
            Ok(k) => n == k as i32 && final(handle).eof_reached == (old(handle).eof_reached
                || k == 0),
            Err(_) => n == 0 && final(handle).eof_reached,
        },
{
    match outcome {
        Ok(k) => {
            if k == 0 {
                handle.eof_reached = true;
            }
            #[verifier::truncate]
            (k as i32)
        },
        Err(_) => {
            handle.eof_reached = true;
            0
        },
    }
}

/// Whether the end counts as met after a seek.
pub open spec fn eof_after_seek(eof: bool, p: i32, pos: i32) -> bool {
    eof && seek_spec(p, pos) is None
}

/// The seek to perform on an input file; a known origin also forgets the end mark.
pub fn haxe_fileinput_seek(handle: &mut HaxeFileInput, p: i32, pos: i32) -> (r: Option<SeekTarget>)
    ensures
        r == seek_spec(p, pos),
        final(handle).eof_reached == eof_after_seek(old(handle).eof_reached, p, pos),
{
    let r: Option<SeekTarget> = seek_target(p, pos);
    if r.is_some() {
        handle.eof_reached = false;
    }
    r
}

/// The position that `tell` reports for the outcome of asking the system.
pub fn haxe_fileinput_tell(outcome: Result<u64, ()>) -> (p: i32)
    ensures
        p == (match outcome {
            Ok(x) => x as i32,
            Err(_) => 0i32,
        }),
{
    match outcome {
        Ok(x) => #[verifier::truncate]
        (x as i32),
        Err(_) => 0,
    }
}

/// Whether the end was met; true for a null handle.
pub fn haxe_fileinput_eof(handle: Option<&HaxeFileInput>) -> (r: bool)
    ensures
        r == (handle is None || handle->Some_0.eof_reached),
{
    match handle {
        None => true,
        Some(h) => h.eof_reached,
    }
}

/// The byte that `writeByte` writes.
pub fn haxe_fileoutput_write_byte(c: i32) -> (b: u8)
    ensures
        b == c as u8,
{
    #[verifier::truncate]
    (c as u8)
}

/// The seek to perform on an output file, after a flush.
pub fn haxe_fileoutput_seek(p: i32, pos: i32) -> (r: Option<SeekTarget>)
    ensures
        r == seek_spec(p, pos),
{
    seek_target(p, pos)
}

/// A seek from a known origin forgets the end mark: what reading met before it no longer counts.
/// Any other seek changes nothing.
pub proof fn law_seek_resets_eof(eof: bool, p: i32, pos: i32)
    ensures
        SEEK_BEGIN <= pos <= SEEK_END ==> seek_spec(p, pos) is Some && !eof_after_seek(eof, p, pos),
        !(SEEK_BEGIN <= pos <= SEEK_END) ==> seek_spec(p, pos) is None && eof_after_seek(
            eof,
            p,
            pos,
        ) == eof,
{
}

// ---------------------------------------------------------------------------
// Laws
// ---------------------------------------------------------------------------

/// The texts of truth values and of what cannot be traced.
pub proof fn law_fixed_texts(b: Seq<u8>)
    ensures
        bool_bytes(true) == seq![116u8, 114, 117, 101],
        bool_bytes(false) == seq![102u8, 97, 108, 115, 101],
        trace_text(None) == seq![110u8, 117, 108, 108],
        vstd::utf8::valid_utf8(b) ==> trace_text(Some(b)) == b,
        !vstd::utf8::valid_utf8(b) ==> trace_text(Some(b)) == text::lit("<invalid utf8>"),
{
    crate::json::lemma_literals();
}

/// A search gives the first place at or after its start where all bytes of the needle stand, a
/// negative start counting as the first byte; it fails only where there is none.
pub proof fn law_index_of_is_first(s: &HaxeString, needle: &HaxeString, start: int, k: int)
    requires
        s.data is Some,
        needle.data is Some,
        needle@.len() > 0,
    ensures
        ({
            let r = index_of_ptr_spec(Some(s), Some(needle), start);
            &&& r == -1 || (0 <= r && start <= r && r + needle@.len() <= s@.len() && forall|j: int|
                0 <= j < needle@.len() ==> s@[r + j] == #[trigger] needle@[j])
            &&& 0 <= k && start <= k && k + needle@.len() <= s@.len() && (forall|j: int|
                0 <= j < needle@.len() ==> s@[k + j] == #[trigger] needle@[j]) ==> r != -1 && r
                <= k
        }),
{
    text::law_first_occurrence(
        s@,
        needle@,
        if start < 0 {
            0
        } else {
            start
        },
        k,
    );
}

/// A search from behind gives the last place at or before its start where all bytes of the needle
/// stand, a negative start counting as the end; it fails only where there is none.
pub proof fn law_last_index_of_is_last(s: &HaxeString, needle: &HaxeString, start: i32, k: int)
    requires
        s.data is Some,
        needle.data is Some,
        needle@.len() > 0,
        s@.len() <= i32::MAX,
    ensures
        ({
            let r = last_index_of_ptr_spec(Some(s), Some(needle), start) as int;
            &&& r == -1 || (0 <= r && (start < 0 || r <= start) && r + needle@.len() <= s@.len()
                && forall|j: int|
                0 <= j < needle@.len() ==> s@[r + j] == #[trigger] needle@[j])
            &&& 0 <= k && (start < 0 || k <= start) && k + needle@.len() <= s@.len() && (forall|
                j: int,
            |
                0 <= j < needle@.len() ==> s@[k + j] == #[trigger] needle@[j]) ==> r >= k
        }),
{
    if needle@.len() <= s@.len() {
        let last = s@.len() - needle@.len();
        text::law_last_occurrence(
            s@,
            needle@,
            if start < 0 || start > last {
                last
            } else {
                start as int
            },
            k,
        );
    }
}

/// An empty needle is found where the search starts; nothing is found in or for a null string.
pub proof fn law_searching_for_nothing(s: &HaxeString, needle: &HaxeString, start: i32)
    requires
        s.data is Some,
        needle.data is Some,
        needle@.len() == 0,
        s@.len() <= i32::MAX,
    ensures
        start >= 0 ==> index_of_ptr_spec(Some(s), Some(needle), start as int) == start,
        start < 0 ==> index_of_ptr_spec(Some(s), Some(needle), start as int) == 0,
        0 <= start < s@.len() ==> last_index_of_ptr_spec(Some(s), Some(needle), start) == start,
        start < 0 || start >= s@.len() ==> last_index_of_ptr_spec(Some(s), Some(needle), start)
            == s@.len(),
        index_of_ptr_spec(None, Some(needle), start as int) == -1,
        index_of_ptr_spec(Some(s), None, start as int) == -1,
        last_index_of_ptr_spec(None, Some(needle), start) == -1,
        last_index_of_ptr_spec(Some(s), None, start) == -1,
{
}

/// Splitting cuts at the first occurrence of the delimiter and goes on behind it; an empty
/// delimiter cuts between all bytes, and none leaves the string whole.
pub proof fn law_split_cuts(
    s: &HaxeString,
    delimiter: &HaxeString,
    rest: &HaxeString,
    n: int,
    i: int,
)
    requires
        s@.len() > 0,
    ensures
        split_ptr_spec(Some(s), None) == seq![s@],
        split_ptr_spec(None, Some(delimiter)) == Seq::<Seq<u8>>::empty(),
        delimiter@.len() == 0 ==> {
            let parts = split_ptr_spec(Some(s), Some(delimiter));
            parts.len() == s@.len() && (0 <= i < s@.len() ==> parts[i] == seq![s@[i]])
        },
        delimiter@.len() > 0 && (forall|j: int| !text::occurs_at(s@, delimiter@, j))
            ==> split_ptr_spec(Some(s), Some(delimiter)) == seq![s@],
        delimiter@.len() > 0 && rest@.len() > 0 && 0 <= n <= s@.len() && s@ == s@.take(n)
            + delimiter@ + rest@ && (forall|j: int|
            0 <= j < n ==> !text::occurs_at(s@, delimiter@, j)) ==> split_ptr_spec(
            Some(s),
            Some(delimiter),
        ) == seq![s@.take(n)] + split_ptr_spec(Some(rest), Some(delimiter)),
{
    if delimiter@.len() > 0 && (forall|j: int| !text::occurs_at(s@, delimiter@, j)) {
        text::law_split_without_separator(s@, delimiter@);
    }
    if delimiter@.len() > 0 && rest@.len() > 0 && 0 <= n <= s@.len() && s@ == s@.take(n)
        + delimiter@ + rest@ && (forall|j: int|
        0 <= j < n ==> !text::occurs_at(s@, delimiter@, j)) {
        text::law_split_at_first(s@.take(n), delimiter@, rest@);
    }
}

/// A directory listing has the names of its entries in their order, without the directory itself
/// and its parent, and without those that are no text.
pub proof fn law_listing_keeps_names(names: Seq<Option<Vec<u8>>>)
    ensures
        listed_names(names) == names.filter(
            |n: Option<Vec<u8>>|
                n is Some && n->Some_0@ != seq![46u8] && n->Some_0@ != seq![46u8, 46],
        ).map_values(|n: Option<Vec<u8>>| n->Some_0@),
    decreases names.len(),
{
    reveal(Seq::filter);
    reveal_strlit(".");
    reveal_strlit("..");
    vstd::utf8::is_ascii_chars_encode_utf8("."@);
    vstd::utf8::is_ascii_chars_encode_utf8(".."@);
    assert(text::lit(".") =~= seq![46u8]);
    assert(text::lit("..") =~= seq![46u8, 46]);
    let p = |n: Option<Vec<u8>>|
        n is Some && n->Some_0@ != seq![46u8] && n->Some_0@ != seq![46u8, 46];
    let f = |n: Option<Vec<u8>>| n->Some_0@;
    if names.len() > 0 {
        let rest = names.drop_last();
        law_listing_keeps_names(rest);
        if p(names.last()) {
            assert(names.filter(p).map_values(f) =~= rest.filter(p).map_values(f).push(
                f(names.last()),
            ));
        }
    } else {
        assert(listed_names(names) =~= names.filter(p).map_values(f));
    }
}

/// Origin 0 seeks from the start, 1 from where the file stands and 2 from its end; there is no
/// other.
pub proof fn law_seek_origins(p: i32, pos: i32)
    ensures
        p >= 0 ==> seek_spec(p, 0) == Some(SeekTarget::Start(p as u64)),
        seek_spec(p, 1) == Some(SeekTarget::Current(p as i64)),
        seek_spec(p, 2) == Some(SeekTarget::End(p as i64)),
        pos < 0 || pos > 2 ==> seek_spec(p, pos) is None,
{
}

/// The names of the systems, by which a program tells them apart.
pub proof fn law_system_names()
    ensures
        system_name_spec(seq![119u8, 105, 110, 100, 111, 119, 115]) == text::lit("Windows"),
        system_name_spec(seq![109u8, 97, 99, 111, 115]) == text::lit("Mac"),
        system_name_spec(seq![108u8, 105, 110, 117, 120]) == text::lit("Linux"),
{
    reveal_strlit("windows");
    reveal_strlit("macos");
    reveal_strlit("linux");
    vstd::utf8::is_ascii_chars_encode_utf8("windows"@);
    vstd::utf8::is_ascii_chars_encode_utf8("macos"@);
    vstd::utf8::is_ascii_chars_encode_utf8("linux"@);
    assert(text::lit("windows") =~= seq![119u8, 105, 110, 100, 111, 119, 115]);
    assert(text::lit("macos") =~= seq![109u8, 97, 99, 111, 115]);
    assert(text::lit("linux") =~= seq![108u8, 105, 110, 117, 120]);
}

} // verus!
