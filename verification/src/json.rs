//! JSON: a lenient parser and a printer.
//!
//! The parser never fails: what it cannot read becomes `null`, and an object or array that is
//! not closed keeps what was read of it.

use crate::anon_object;
use crate::field_map;
use crate::floats;
use crate::haxe_string::{self, HaxeString};
use crate::text;
use vstd::prelude::*;
use vstd::slice::slice_subrange;

verus! {

/// Type tag of arrays.
pub const TYPE_ARRAY: u32 = 7;

/// A JSON value. A number that is not an integer is held by the bits of a 64-bit float; the
/// fields of an object are in increasing order of their names, each name once.
pub enum JsonValue {
    Null,
    Bool(bool),
    Int(i64),
    Float(u64),
    Str(Vec<u8>),
    Array(Vec<JsonValue>),
    Object(Vec<(Vec<u8>, JsonValue)>),
}

/// A JSON value in the abstract, with `N` in the place of a number that is not an integer: its
/// text in a document, its bits in a value.
pub ghost enum Tree<N> {
    Null,
    Bool(bool),
    Int(i64),
    Float(N),
    Str(Seq<u8>),
    Array(Seq<Tree<N>>),
    Object(Seq<(Seq<u8>, Tree<N>)>),
}

/// A value is what a document says, where `number` relates the bits of a number to its text.
pub open spec fn stands_for(
    v: Tree<u64>,
    t: Tree<Seq<u8>>,
    number: spec_fn(u64, Seq<u8>) -> bool,
) -> bool
    decreases v,
{
    match (v, t) {
        (Tree::Null, Tree::Null) => true,
        (Tree::Bool(a), Tree::Bool(b)) => a == b,
        (Tree::Int(a), Tree::Int(b)) => a == b,
        (Tree::Float(bits), Tree::Float(text)) => number(bits, text),
        (Tree::Str(a), Tree::Str(b)) => a == b,
        (Tree::Array(a), Tree::Array(b)) => a.len() == b.len() && forall|i: int|
            0 <= i < a.len() ==> stands_for(#[trigger] a[i], b[i], number),
        (Tree::Object(a), Tree::Object(b)) => a.len() == b.len() && forall|i: int|
            0 <= i < a.len() ==> (#[trigger] a[i]).0 == b[i].0 && stands_for(
                a[i].1,
                b[i].1,
                number,
            ),
        _ => false,
    }
}

/// `bits` is what `read` made of the text of a number; zero where it made nothing of it.
pub open spec fn reading<F: Fn(&[u8]) -> Option<u64>>(read: F) -> spec_fn(u64, Seq<u8>) -> bool {
    |bits: u64, text: Seq<u8>|
        exists|s: &[u8], r: Option<u64>| #[trigger]
            call_ensures(read, (s,), r) && s@ == text && bits == (match r {
                Some(n) => n,
                None => 0,
            })
}

/// A whole number below 10^15, which is printed as an integer with `.0` behind it.
pub open spec fn is_short_whole(bits: u64) -> bool {
    &&& !floats::has_fraction(floats::magnitude(bits))
    &&& floats::magnitude(bits) < floats::int_bits(1_000_000_000_000_000)
}

/// `text` is what is printed for the number: a short whole number as an integer and `.0`, any
/// other one as what `write` makes of it.
pub open spec fn writing<G: Fn(u64) -> Vec<u8>>(write: G) -> spec_fn(u64, Seq<u8>) -> bool {
    |bits: u64, text: Seq<u8>|
        if is_short_whole(bits) {
            text == text::dec_int(floats::truncated(bits)) + text::lit(".0")
        } else {
            exists|r: Vec<u8>| #[trigger] call_ensures(write, (bits,), r) && r@ == text
        }
}

impl JsonValue {
    /// The value in the abstract.
    pub open spec fn tree(self) -> Tree<u64>
        decreases self,
    {
        match self {
            JsonValue::Null => Tree::Null,
            JsonValue::Bool(b) => Tree::Bool(b),
            JsonValue::Int(i) => Tree::Int(i),
            JsonValue::Float(bits) => Tree::Float(bits),
            JsonValue::Str(s) => Tree::Str(s@),
            JsonValue::Array(v) => Tree::Array(
                Seq::new(
                    v@.len(),
                    |i: int|
                        if 0 <= i < v@.len() {
                            v@[i].tree()
                        } else {
                            Tree::Null
                        },
                ),
            ),
            JsonValue::Object(v) => Tree::Object(
                Seq::new(
                    v@.len(),
                    |i: int|
                        if 0 <= i < v@.len() {
                            (v@[i].0@, v@[i].1.tree())
                        } else {
                            (Seq::empty(), Tree::Null)
                        },
                ),
            ),
        }
    }
}

/// Trees of a list of values.
pub open spec fn trees(v: Seq<JsonValue>) -> Seq<Tree<u64>> {
    Seq::new(v.len(), |i: int| v[i].tree())
}

/// Names and trees of a list of fields.
pub open spec fn field_trees(v: Seq<(Vec<u8>, JsonValue)>) -> Seq<(Seq<u8>, Tree<u64>)> {
    Seq::new(v.len(), |i: int| (v[i].0@, v[i].1.tree()))
}

// ---------------------------------------------------------------------------
// Grammar
// ---------------------------------------------------------------------------

/// Space, tab, line feed or carriage return.
pub open spec fn is_ws(c: u8) -> bool {
    c == 32 || c == 9 || c == 10 || c == 13
}

/// The first position at or after `pos` without white space.
pub open spec fn skip_ws(b: Seq<u8>, pos: int) -> int
    decreases b.len() - pos,
{
    if 0 <= pos < b.len() && is_ws(b[pos]) {
        skip_ws(b, pos + 1)
    } else {
        pos
    }
}

/// The first position at or after `pos` without a digit.
pub open spec fn digits_end(b: Seq<u8>, pos: int) -> int
    decreases b.len() - pos,
{
    if 0 <= pos < b.len() && text::is_digit(b[pos]) {
        digits_end(b, pos + 1)
    } else {
        pos
    }
}

/// The first position at or after `pos` that holds a quote or a backslash, or the end.
pub open spec fn plain_end(b: Seq<u8>, pos: int) -> int
    decreases b.len() - pos,
{
    if 0 <= pos < b.len() && b[pos] != 34 && b[pos] != 92 {
        plain_end(b, pos + 1)
    } else {
        pos
    }
}

/// Value of a hexadecimal digit; 0 for anything else.
pub open spec fn hex_digit_value(c: u8) -> nat {
    if 48 <= c <= 57 {
        (c - 48) as nat
    } else if 97 <= c <= 102 {
        (c - 87) as nat
    } else if 65 <= c <= 70 {
        (c - 55) as nat
    } else {
        0
    }
}

/// Value of a string of hexadecimal digits.
pub open spec fn hex_value(s: Seq<u8>) -> nat
    decreases s.len(),
{
    if s.len() == 0 {
        0
    } else {
        hex_value(s.drop_last()) * 16 + hex_digit_value(s.last())
    }
}

/// A number below which every hexadecimal string of four digits lies.
pub proof fn lemma_hex_value(s: Seq<u8>)
    ensures
        s.len() <= 4 ==> hex_value(s) <= 0xFFFF,
        s.len() <= 3 ==> hex_value(s) <= 0xFFF,
        s.len() <= 2 ==> hex_value(s) <= 0xFF,
        s.len() <= 1 ==> hex_value(s) <= 0xF,
    decreases s.len(),
{
    if s.len() > 0 {
        lemma_hex_value(s.drop_last());
    }
}

/// The end of the up to four digits of a `\u` escape.
pub open spec fn hex_end(b: Seq<u8>, pos: int) -> int {
    if pos + 4 <= b.len() {
        pos + 4
    } else {
        b.len() as int
    }
}

/// Code point and end of a `\u` escape whose digits start at `pos`: a high surrogate takes the
/// escape of a low one with it, and without one stands for the replacement character.
pub open spec fn unicode_at(b: Seq<u8>, pos: int) -> (u32, int)
    decreases b.len() - pos,
    when 0 <= pos <= b.len()
{
    let q = hex_end(b, pos);
    let cp = hex_value(b.subrange(pos, q)) as u32;
    if 0xD800 <= cp <= 0xDBFF {
        if q + 1 < b.len() && b[q] == 92 && b[q + 1] == 117 {
            let low = unicode_at(b, q + 2);
            if 0xDC00 <= low.0 <= 0xDFFF {
                (((cp - 0xD800) * 0x400 + (low.0 - 0xDC00) + 0x10000) as u32, low.1)
            } else {
                (0xFFFD, q)
            }
        } else {
            (0xFFFD, q)
        }
    } else {
        (cp, q)
    }
}

/// What the escape letter `c` stands for, except for `u`.
pub open spec fn escape_letter(c: u8) -> Seq<u8> {
    if c == 34 || c == 92 || c == 47 {
        seq![c]
    } else if c == 110 {
        seq![10u8]
    } else if c == 114 {
        seq![13u8]
    } else if c == 116 {
        seq![9u8]
    } else if c == 98 {
        seq![8u8]
    } else if c == 102 {
        seq![12u8]
    } else {
        Seq::empty()
    }
}

/// Bytes and end of the escape whose letter stands at `pos`; an unknown letter stands for
/// nothing, and so does a code point that is no Unicode scalar value.
pub open spec fn escape_at(b: Seq<u8>, pos: int) -> (Seq<u8>, int) {
    if pos >= b.len() {
        (Seq::empty(), pos)
    } else if b[pos] == 117 {
        let u = unicode_at(b, pos + 1);
        if vstd::utf8::is_scalar(u.0) {
            (vstd::utf8::encode_scalar(u.0), u.1)
        } else {
            (Seq::empty(), u.1)
        }
    } else {
        (escape_letter(b[pos]), pos + 1)
    }
}

/// A `\u` escape ends behind its start.
pub proof fn lemma_unicode_end(b: Seq<u8>, pos: int)
    requires
        0 <= pos <= b.len(),
    ensures
        pos <= unicode_at(b, pos).1 <= b.len(),
    decreases b.len() - pos,
{
    let q = hex_end(b, pos);
    if q + 1 < b.len() && b[q] == 92 && b[q + 1] == 117 {
        lemma_unicode_end(b, q + 2);
    }
}

/// An escape ends behind its start.
pub proof fn lemma_escape_end(b: Seq<u8>, pos: int)
    requires
        0 <= pos <= b.len(),
    ensures
        pos <= escape_at(b, pos).1 <= b.len(),
{
    if pos < b.len() {
        lemma_unicode_end(b, pos + 1);
    }
}

/// Bytes and end of the rest of a string from `pos` on, with its escapes resolved. A byte that
/// does not start a character of well-formed text is dropped.
pub open spec fn escaped_at(b: Seq<u8>, pos: int) -> (Seq<u8>, int)
    decreases b.len() - pos,
    when 0 <= pos <= b.len()
{
    if pos >= b.len() {
        (Seq::empty(), pos)
    } else if b[pos] == 34 {
        (Seq::empty(), pos + 1)
    } else if b[pos] == 92 {
        proof {
            lemma_escape_end(b, pos + 1);
        }
        let e = escape_at(b, pos + 1);
        let rest = escaped_at(b, e.1);
        (e.0 + rest.0, rest.1)
    } else {
        let tail = b.subrange(pos, b.len() as int);
        let n = if b[pos] < 0x80 {
            1
        } else if vstd::utf8::valid_utf8(tail) {
            vstd::utf8::length_of_first_scalar(tail)
        } else {
            1
        };
        let rest = escaped_at(b, pos + n);
        if b[pos] < 0x80 || vstd::utf8::valid_utf8(tail) {
            (tail.subrange(0, n) + rest.0, rest.1)
        } else {
            rest
        }
    }
}

/// The string part ends behind its start.
pub proof fn lemma_escaped_end(b: Seq<u8>, pos: int)
    requires
        0 <= pos <= b.len(),
    ensures
        pos <= escaped_at(b, pos).1 <= b.len(),
    decreases b.len() - pos,
{
    if pos < b.len() && b[pos] != 34 {
        if b[pos] == 92 {
            lemma_escape_end(b, pos + 1);
            lemma_escaped_end(b, escape_at(b, pos + 1).1);
        } else {
            let tail = b.subrange(pos, b.len() as int);
            if b[pos] >= 0x80 && vstd::utf8::valid_utf8(tail) {
                lemma_escaped_end(b, pos + vstd::utf8::length_of_first_scalar(tail));
            } else {
                lemma_escaped_end(b, pos + 1);
            }
        }
    }
}

/// Bytes and end of a string whose opening quote stands before `pos`. Without a backslash the
/// bytes are taken as they are.
pub open spec fn string_at(b: Seq<u8>, pos: int) -> (Seq<u8>, int) {
    let q = plain_end(b, pos);
    let plain = b.subrange(pos, q);
    if q >= b.len() {
        (plain, q)
    } else if b[q] == 34 {
        (plain, q + 1)
    } else {
        let rest = escaped_at(b, q);
        (
            if vstd::utf8::valid_utf8(plain) {
                plain + rest.0
            } else {
                rest.0
            },
            rest.1,
        )
    }
}

/// `skip_ws` stops at the first other byte.
pub proof fn lemma_skip_ws(b: Seq<u8>, pos: int)
    requires
        0 <= pos <= b.len(),
    ensures
        pos <= skip_ws(b, pos) <= b.len(),
        skip_ws(b, pos) < b.len() ==> !is_ws(b[skip_ws(b, pos)]),
        skip_ws(b, skip_ws(b, pos)) == skip_ws(b, pos),
    decreases b.len() - pos,
{
    if pos < b.len() && is_ws(b[pos]) {
        lemma_skip_ws(b, pos + 1);
    }
}

/// `plain_end` stops at the first quote or backslash.
pub proof fn lemma_plain_end(b: Seq<u8>, pos: int)
    requires
        0 <= pos <= b.len(),
    ensures
        pos <= plain_end(b, pos) <= b.len(),
        plain_end(b, pos) < b.len() ==> b[plain_end(b, pos)] == 34 || b[plain_end(b, pos)] == 92,
        forall|i: int| pos <= i < plain_end(b, pos) ==> b[i] != 34 && b[i] != 92,
    decreases b.len() - pos,
{
    if pos < b.len() && b[pos] != 34 && b[pos] != 92 {
        lemma_plain_end(b, pos + 1);
    }
}

/// `digits_end` stops at the first byte that is no digit.
pub proof fn lemma_digits_end(b: Seq<u8>, pos: int)
    requires
        0 <= pos <= b.len(),
    ensures
        pos <= digits_end(b, pos) <= b.len(),
        forall|i: int| pos <= i < digits_end(b, pos) ==> text::is_digit(#[trigger] b[i]),
        digits_end(b, pos) < b.len() ==> !text::is_digit(b[digits_end(b, pos)]),
    decreases b.len() - pos,
{
    if pos < b.len() && text::is_digit(b[pos]) {
        lemma_digits_end(b, pos + 1);
    }
}

/// A string ends behind its start.
pub proof fn lemma_string_end(b: Seq<u8>, pos: int)
    requires
        0 <= pos <= b.len(),
    ensures
        pos <= string_at(b, pos).1 <= b.len(),
{
    lemma_plain_end(b, pos);
    lemma_escaped_end(b, plain_end(b, pos));
}

/// The integer that sign and magnitude stand for.
pub open spec fn signed(negative: bool, magnitude: nat) -> int {
    if negative {
        -magnitude
    } else {
        magnitude as int
    }
}

/// Value and end of the number at `pos`. It is an integer where it has no fraction and no
/// exponent and fits in 64 bits with its sign.
pub open spec fn number_at(b: Seq<u8>, pos: int) -> (Tree<Seq<u8>>, int) {
    let negative = b[pos] == 45;
    let d0 = if negative {
        pos + 1
    } else {
        pos
    };
    let d1 = digits_end(b, d0);
    let fraction = d1 < b.len() && b[d1] == 46;
    let f1 = if fraction {
        digits_end(b, d1 + 1)
    } else {
        d1
    };
    let exponent = f1 < b.len() && (b[f1] == 101 || b[f1] == 69);
    let e0 = if f1 + 1 < b.len() && (b[f1 + 1] == 43 || b[f1 + 1] == 45) {
        f1 + 2
    } else {
        f1 + 1
    };
    let e1 = if exponent {
        digits_end(b, e0)
    } else {
        f1
    };
    let i = signed(negative, text::dec_value(b.subrange(d0, d1)));
    if fraction || exponent || i < i64::MIN || i > i64::MAX {
        (Tree::Float(b.subrange(pos, e1)), e1)
    } else {
        (Tree::Int(i as i64), e1)
    }
}

/// The literal `word` stands at `pos`.
pub open spec fn word_at(b: Seq<u8>, pos: int, word: Seq<u8>) -> bool {
    text::occurs_at(b, word, pos)
}

/// Value and end of the value at `pos`, after white space.
pub open spec fn value_at(b: Seq<u8>, pos: int) -> (Tree<Seq<u8>>, int)
    decreases b.len() - pos, 0int,
    when 0 <= pos <= b.len()
{
    proof {
        lemma_skip_ws(b, pos);
        if skip_ws(b, pos) < b.len() {
            lemma_skip_ws(b, skip_ws(b, pos) + 1);
        }
    }
    let p = skip_ws(b, pos);
    if p >= b.len() {
        (Tree::Null, p)
    } else if b[p] == 123 {
        let q = skip_ws(b, p + 1);
        if q < b.len() && b[q] == 125 {
            (Tree::Object(Seq::empty()), q + 1)
        } else {
            members_at(b, q, Seq::empty())
        }
    } else if b[p] == 91 {
        let q = skip_ws(b, p + 1);
        if q < b.len() && b[q] == 93 {
            (Tree::Array(Seq::empty()), q + 1)
        } else {
            elements_at(b, q, Seq::empty())
        }
    } else if b[p] == 34 {
        let s = string_at(b, p + 1);
        (Tree::Str(s.0), s.1)
    } else if word_at(b, p, text::lit("true")) {
        (Tree::Bool(true), p + 4)
    } else if word_at(b, p, text::lit("false")) {
        (Tree::Bool(false), p + 5)
    } else if word_at(b, p, text::lit("null")) {
        (Tree::Null, p + 4)
    } else if b[p] == 45 || text::is_digit(b[p]) {
        number_at(b, p)
    } else {
        (Tree::Null, p)
    }
}

/// Array and end, from the element at `pos` on; `acc` are the elements before it.
pub open spec fn elements_at(b: Seq<u8>, pos: int, acc: Seq<Tree<Seq<u8>>>) -> (Tree<Seq<u8>>, int)
    decreases b.len() - pos, 1int,
    when 0 <= pos <= b.len()
{
    let v = value_at(b, pos);
    let all = acc.push(v.0);
    let e = skip_ws(b, v.1);
    if e < pos || e >= b.len() {
        (Tree::Array(all), e)
    } else if b[e] == 44 {
        elements_at(b, e + 1, all)
    } else if b[e] == 93 {
        (Tree::Array(all), e + 1)
    } else {
        (Tree::Array(all), e)
    }
}

/// Object and end, from the field at `pos` on; `acc` are the fields before it.
pub open spec fn members_at(b: Seq<u8>, pos: int, acc: Seq<(Seq<u8>, Tree<Seq<u8>>)>) -> (Tree<Seq<u8>>, int)
    decreases b.len() - pos, 1int,
    when 0 <= pos <= b.len()
{
    proof {
        lemma_skip_ws(b, pos);
        if skip_ws(b, pos) < b.len() {
            lemma_string_end(b, skip_ws(b, pos) + 1);
            lemma_skip_ws(b, string_at(b, skip_ws(b, pos) + 1).1);
        }
    }
    let q = skip_ws(b, pos);
    if q >= b.len() || b[q] != 34 {
        (Tree::Object(acc), q)
    } else {
        let k = string_at(b, q + 1);
        let c = skip_ws(b, k.1);
        if c >= b.len() {
            (Tree::Object(acc), c)
        } else if b[c] != 58 {
            (Tree::Object(acc), c + 1)
        } else {
            let v = value_at(b, c + 1);
            let all = field_map::put(acc, anon_object::lossy_bytes(k.0), v.0);
            let e = skip_ws(b, v.1);
            if e < pos || e >= b.len() {
                (Tree::Object(all), e)
            } else if b[e] == 44 {
                members_at(b, e + 1, all)
            } else if b[e] == 125 {
                (Tree::Object(all), e + 1)
            } else {
                (Tree::Object(all), e)
            }
        }
    }
}

/// A number ends behind its start.
pub proof fn lemma_number_end(b: Seq<u8>, pos: int)
    requires
        0 <= pos < b.len(),
        b[pos] == 45 || text::is_digit(b[pos]),
    ensures
        pos < number_at(b, pos).1 <= b.len(),
{
    let d0 = if b[pos] == 45 {
        pos + 1
    } else {
        pos
    };
    lemma_digits_end(b, d0);
    let d1 = digits_end(b, d0);
    if d1 < b.len() {
        lemma_digits_end(b, d1 + 1);
    }
    let f1 = if d1 < b.len() && b[d1] == 46 {
        digits_end(b, d1 + 1)
    } else {
        d1
    };
    if f1 + 1 < b.len() && (b[f1 + 1] == 43 || b[f1 + 1] == 45) {
        lemma_digits_end(b, f1 + 2);
    } else if f1 < b.len() {
        lemma_digits_end(b, f1 + 1);
    }
}

/// The end of a value is not before its start.
pub proof fn lemma_value_end(b: Seq<u8>, pos: int)
    requires
        0 <= pos <= b.len(),
    ensures
        pos <= value_at(b, pos).1 <= b.len(),
    decreases b.len() - pos, 0int,
{
    lemma_skip_ws(b, pos);
    let p = skip_ws(b, pos);
    if p < b.len() {
        lemma_skip_ws(b, p + 1);
        let q = skip_ws(b, p + 1);
        if b[p] == 123 {
            lemma_members_end(b, q, Seq::empty());
        } else if b[p] == 91 {
            lemma_elements_end(b, q, Seq::empty());
        } else if b[p] == 34 {
            lemma_string_end(b, p + 1);
        } else if b[p] == 45 || text::is_digit(b[p]) {
            lemma_number_end(b, p);
        }
        lemma_literals();
    }
}

/// The end of an array is not before its start.
pub proof fn lemma_elements_end(b: Seq<u8>, pos: int, acc: Seq<Tree<Seq<u8>>>)
    requires
        0 <= pos <= b.len(),
    ensures
        pos <= elements_at(b, pos, acc).1 <= b.len(),
    decreases b.len() - pos, 1int,
{
    lemma_value_end(b, pos);
    let v = value_at(b, pos);
    lemma_skip_ws(b, v.1);
    let e = skip_ws(b, v.1);
    if e < b.len() && b[e] == 44 {
        lemma_elements_end(b, e + 1, acc.push(v.0));
    }
}

/// The end of an object is not before its start.
pub proof fn lemma_members_end(b: Seq<u8>, pos: int, acc: Seq<(Seq<u8>, Tree<Seq<u8>>)>)
    requires
        0 <= pos <= b.len(),
    ensures
        pos <= members_at(b, pos, acc).1 <= b.len(),
    decreases b.len() - pos, 1int,
{
    lemma_skip_ws(b, pos);
    let q = skip_ws(b, pos);
    if q < b.len() && b[q] == 34 {
        lemma_string_end(b, q + 1);
        let k = string_at(b, q + 1);
        lemma_skip_ws(b, k.1);
        let c = skip_ws(b, k.1);
        if c < b.len() && b[c] == 58 {
            lemma_value_end(b, c + 1);
            let v = value_at(b, c + 1);
            lemma_skip_ws(b, v.1);
            let e = skip_ws(b, v.1);
            if e < b.len() && b[e] == 44 {
                lemma_members_end(
                    b,
                    e + 1,
                    field_map::put(acc, anon_object::lossy_bytes(k.0), v.0),
                );
            }
        }
    }
}

proof fn lemma_ascii_lit(s: &str)
    requires
        vstd::utf8::is_ascii_chars(s@),
    ensures
        text::lit(s) == Seq::new(s@.len(), |i: int| s@[i] as u8),
{
    vstd::utf8::is_ascii_chars_encode_utf8(s@);
}

/// The bytes of the literal words.
pub proof fn lemma_literals()
    ensures
        text::lit("true") == seq![116u8, 114, 117, 101],
        text::lit("false") == seq![102u8, 97, 108, 115, 101],
        text::lit("null") == seq![110u8, 117, 108, 108],
{
    reveal_strlit("true");
    reveal_strlit("false");
    reveal_strlit("null");
    lemma_ascii_lit("true");
    lemma_ascii_lit("false");
    lemma_ascii_lit("null");
    assert(text::lit("true") =~= seq![116u8, 114, 117, 101]);
    assert(text::lit("false") =~= seq![102u8, 97, 108, 115, 101]);
    assert(text::lit("null") =~= seq![110u8, 117, 108, 108]);
}

// ---------------------------------------------------------------------------
// Parser
// ---------------------------------------------------------------------------

/// A position in a JSON text.
pub struct Parser<'a> {
    pub bytes: &'a [u8],
    pub pos: usize,
}

impl<'a> Parser<'a> {
    /// The position lies in the text.
    pub open spec fn wf(self) -> bool {
        self.pos <= self.bytes@.len()
    }

    fn advance(&mut self) -> (c: Option<u8>)
        requires
            old(self).wf(),
        ensures
            final(self).wf(),
            final(self).bytes == old(self).bytes,
            c == (if old(self).pos < old(self).bytes@.len() {
                Some(old(self).bytes@[old(self).pos as int])
            } else {
                None
            }),
            final(self).pos == old(self).pos + (if c is Some {
                1int
            } else {
                0
            }),
    {
        if self.pos < self.bytes.len() {
            let c: u8 = self.bytes[self.pos];
            self.pos = self.pos + 1;
            Some(c)
        } else {
            None
        }
    }

    fn skip_whitespace(&mut self)
        requires
            old(self).wf(),
        ensures
            final(self).wf(),
            final(self).bytes == old(self).bytes,
            final(self).pos as int == skip_ws(old(self).bytes@, old(self).pos as int),
            final(self).pos >= old(self).pos,
    {
        let bytes: &[u8] = self.bytes;
        let mut pos: usize = self.pos;
        while pos < bytes.len() && (bytes[pos] == 32 || bytes[pos] == 9 || bytes[pos] == 10
            || bytes[pos] == 13)
            invariant
                pos <= bytes@.len(),
                pos >= self.pos,
                bytes == self.bytes,
                skip_ws(bytes@, self.pos as int) == skip_ws(bytes@, pos as int),
            decreases bytes@.len() - pos,
        {
            pos = pos + 1;
        }
        self.pos = pos;
    }

    fn skip_digits(&mut self)
        requires
            old(self).wf(),
        ensures
            final(self).wf(),
            final(self).bytes == old(self).bytes,
            final(self).pos as int == digits_end(old(self).bytes@, old(self).pos as int),
            final(self).pos >= old(self).pos,
    {
        let bytes: &[u8] = self.bytes;
        let mut pos: usize = self.pos;
        while pos < bytes.len() && bytes[pos] >= 48 && bytes[pos] <= 57
            invariant
                pos <= bytes@.len(),
                pos >= self.pos,
                bytes == self.bytes,
                digits_end(bytes@, self.pos as int) == digits_end(bytes@, pos as int),
            decreases bytes@.len() - pos,
        {
            pos = pos + 1;
        }
        self.pos = pos;
    }

    /// Reads the value at the position, after white space; `read` gives the bits of a number that
    /// is not an integer.
    pub fn parse_value<F: Fn(&[u8]) -> Option<u64>>(&mut self, read: &F) -> (v: JsonValue)
        requires
            old(self).wf(),
            forall|s: &[u8]| #[trigger] call_requires(*read, (s,)),
        ensures
            final(self).wf(),
            final(self).bytes == old(self).bytes,
            stands_for(
                v.tree(),
                value_at(old(self).bytes@, old(self).pos as int).0,
                reading(*read),
            ),
            final(self).pos == value_at(old(self).bytes@, old(self).pos as int).1,
            final(self).pos >= old(self).pos,
        decreases old(self).bytes@.len() - old(self).pos, 2int,
    {
        proof {
            lemma_skip_ws(self.bytes@, self.pos as int);
            lemma_value_end(self.bytes@, self.pos as int);
            lemma_literals();
        }
        self.skip_whitespace();
        if self.pos >= self.bytes.len() {
            return JsonValue::Null;
        }
        let c: u8 = self.bytes[self.pos];
        if c == 123 {
            self.parse_object(read)
        } else if c == 91 {
            self.parse_array(read)
        } else if c == 34 {
            self.pos = self.pos + 1;
            JsonValue::Str(self.parse_string())
        } else if c == 116 {
            if self.parse_word("true") {
                JsonValue::Bool(true)
            } else {
                JsonValue::Null
            }
        } else if c == 102 {
            if self.parse_word("false") {
                JsonValue::Bool(false)
            } else {
                JsonValue::Null
            }
        } else if c == 110 {
            let _found: bool = self.parse_word("null");
            JsonValue::Null
        } else if c == 45 || (c >= 48 && c <= 57) {
            self.parse_number(read)
        } else {
            JsonValue::Null
        }
    }

    fn parse_word(&mut self, word: &str) -> (found: bool)
        requires
            old(self).wf(),
        ensures
            final(self).wf(),
            final(self).bytes == old(self).bytes,
            found == word_at(old(self).bytes@, old(self).pos as int, text::lit(word)),
            final(self).pos == old(self).pos + (if found {
                text::lit(word).len() as int
            } else {
                0
            }),
    {
        let w: &[u8] = word.as_bytes();
        if self.bytes.len() - self.pos >= w.len() && text::matches_at(self.bytes, w, self.pos) {
            self.pos = self.pos + w.len();
            true
        } else {
            false
        }
    }

    /// Reads the object whose opening brace stands at the position.
    pub fn parse_object<F: Fn(&[u8]) -> Option<u64>>(&mut self, read: &F) -> (v: JsonValue)
        requires
            old(self).wf(),
            forall|s: &[u8]| #[trigger] call_requires(*read, (s,)),
            old(self).pos < old(self).bytes@.len(),
            old(self).bytes@[old(self).pos as int] == 123,
        ensures
            final(self).wf(),
            final(self).bytes == old(self).bytes,
            stands_for(
                v.tree(),
                value_at(old(self).bytes@, old(self).pos as int).0,
                reading(*read),
            ),
            final(self).pos == value_at(old(self).bytes@, old(self).pos as int).1,
            final(self).pos > old(self).pos,
        decreases old(self).bytes@.len() - old(self).pos, 1int,
    {
        let ghost b = self.bytes@;
        let ghost start = self.pos as int;
        proof {
            assert(skip_ws(b, start) == start);
            lemma_skip_ws(b, start + 1);
        }
        if self.pos < self.bytes.len() {
            self.pos = self.pos + 1;
        }
        self.skip_whitespace();
        let mut fields: Vec<(Vec<u8>, JsonValue)> = Vec::new();
        let ghost mut said: Seq<(Seq<u8>, Tree<Seq<u8>>)> = Seq::empty();
        assert(field_trees(fields@) =~= Seq::empty());
        if self.pos < self.bytes.len() && self.bytes[self.pos] == 125 {
            self.pos = self.pos + 1;
            let v = JsonValue::Object(fields);
            assert(v.tree()->Object_0 =~= Seq::empty());
            return v;
        }
        loop
            invariant_except_break
                self.wf(),
                self.bytes@ == b,
                self.bytes == old(self).bytes,
                start < self.pos,
                start == old(self).pos,
                forall|s: &[u8]| #[trigger] call_requires(*read, (s,)),
                field_map::sorted(field_trees(fields@)),
                stands_for(Tree::Object(field_trees(fields@)), Tree::Object(said), reading(*read)),
                members_at(b, self.pos as int, said) == value_at(b, start),
            ensures
                self.wf(),
                self.bytes == old(self).bytes,
                start < self.pos,
                stands_for(Tree::Object(field_trees(fields@)), Tree::Object(said), reading(*read)),
                (Tree::Object(said), self.pos as int) == value_at(b, start),
            decreases b.len() - self.pos,
        {
            let ghost at = self.pos as int;
            proof {
                lemma_skip_ws(b, at);
                let q = skip_ws(b, at);
                if q < b.len() {
                    lemma_string_end(b, q + 1);
                    lemma_skip_ws(b, string_at(b, q + 1).1);
                    let c = skip_ws(b, string_at(b, q + 1).1);
                    if c < b.len() {
                        lemma_value_end(b, c + 1);
                        lemma_skip_ws(b, value_at(b, c + 1).1);
                    }
                }
            }
            self.skip_whitespace();
            if self.pos >= self.bytes.len() || self.bytes[self.pos] != 34 {
                break;
            }
            self.pos = self.pos + 1;
            let key: Vec<u8> = self.parse_string();
            self.skip_whitespace();
            let colon: Option<u8> = self.advance();
            if colon.is_none() || colon.unwrap() != 58 {
                break;
            }
            let value: JsonValue = self.parse_value(read);
            let name: Vec<u8> = anon_object::utf8_lossy(key.as_slice());
            let ghost kept = field_trees(fields@);
            put_field(&mut fields, name, value);
            proof {
                let c = skip_ws(b, string_at(b, skip_ws(b, at) + 1).1);
                let meant = value_at(b, c + 1).0;
                lemma_put_stands_for(kept, said, name@, value.tree(), meant, reading(*read));
                said = field_map::put(said, name@, meant);
            }
            self.skip_whitespace();
            if self.pos >= self.bytes.len() {
                break;
            }
            let c: u8 = self.bytes[self.pos];
            if c == 44 {
                self.pos = self.pos + 1;
            } else if c == 125 {
                self.pos = self.pos + 1;
                break;
            } else {
                break;
            }
        }
        let v = JsonValue::Object(fields);
        assert(v.tree()->Object_0 =~= field_trees(fields@));
        v
    }

    /// Reads the array whose opening bracket stands at the position.
    pub fn parse_array<F: Fn(&[u8]) -> Option<u64>>(&mut self, read: &F) -> (v: JsonValue)
        requires
            old(self).wf(),
            forall|s: &[u8]| #[trigger] call_requires(*read, (s,)),
            old(self).pos < old(self).bytes@.len(),
            old(self).bytes@[old(self).pos as int] == 91,
        ensures
            final(self).wf(),
            final(self).bytes == old(self).bytes,
            stands_for(
                v.tree(),
                value_at(old(self).bytes@, old(self).pos as int).0,
                reading(*read),
            ),
            final(self).pos == value_at(old(self).bytes@, old(self).pos as int).1,
            final(self).pos > old(self).pos,
        decreases old(self).bytes@.len() - old(self).pos, 1int,
    {
        let ghost b = self.bytes@;
        let ghost start = self.pos as int;
        proof {
            assert(skip_ws(b, start) == start);
            lemma_skip_ws(b, start + 1);
        }
        if self.pos < self.bytes.len() {
            self.pos = self.pos + 1;
        }
        self.skip_whitespace();
        let mut items: Vec<JsonValue> = Vec::new();
        let ghost mut said: Seq<Tree<Seq<u8>>> = Seq::empty();
        assert(trees(items@) =~= Seq::empty());
        if self.pos < self.bytes.len() && self.bytes[self.pos] == 93 {
            self.pos = self.pos + 1;
            let v = JsonValue::Array(items);
            assert(v.tree()->Array_0 =~= Seq::empty());
            return v;
        }
        loop
            invariant_except_break
                self.wf(),
                self.bytes@ == b,
                self.bytes == old(self).bytes,
                start < self.pos,
                start == old(self).pos,
                forall|s: &[u8]| #[trigger] call_requires(*read, (s,)),
                stands_for(Tree::Array(trees(items@)), Tree::Array(said), reading(*read)),
                elements_at(b, self.pos as int, said) == value_at(b, start),
            ensures
                self.wf(),
                self.bytes == old(self).bytes,
                start < self.pos,
                stands_for(Tree::Array(trees(items@)), Tree::Array(said), reading(*read)),
                (Tree::Array(said), self.pos as int) == value_at(b, start),
            decreases b.len() - self.pos,
        {
            let ghost at = self.pos as int;
            let ghost before = items@;
            proof {
                lemma_value_end(b, at);
                lemma_skip_ws(b, value_at(b, at).1);
            }
            let item: JsonValue = self.parse_value(read);
            items.push(item);
            proof {
                assert(trees(items@) =~= trees(before).push(item.tree()));
                lemma_push_stands_for(
                    trees(before),
                    said,
                    item.tree(),
                    value_at(b, at).0,
                    reading(*read),
                );
                said = said.push(value_at(b, at).0);
            }
            self.skip_whitespace();
            if self.pos >= self.bytes.len() {
                break;
            }
            let c: u8 = self.bytes[self.pos];
            if c == 44 {
                self.pos = self.pos + 1;
            } else if c == 93 {
                self.pos = self.pos + 1;
                break;
            } else {
                break;
            }
        }
        let v = JsonValue::Array(items);
        assert(v.tree()->Array_0 =~= trees(items@));
        v
    }

    /// Reads the string whose opening quote stands before the position.
    pub fn parse_string(&mut self) -> (s: Vec<u8>)
        requires
            old(self).wf(),
        ensures
            final(self).wf(),
            final(self).bytes == old(self).bytes,
            (s@, final(self).pos as int) == string_at(old(self).bytes@, old(self).pos as int),
            final(self).pos >= old(self).pos,
    {
        let bytes: &[u8] = self.bytes;
        let start: usize = self.pos;
        let mut pos: usize = self.pos;
        while pos < bytes.len() && bytes[pos] != 34 && bytes[pos] != 92
            invariant
                start <= pos <= bytes@.len(),
                plain_end(bytes@, start as int) == plain_end(bytes@, pos as int),
            decreases bytes@.len() - pos,
        {
            pos = pos + 1;
        }
        self.pos = pos;
        let plain: Vec<u8> = text::copy_range(bytes, start, pos);
        if pos >= bytes.len() {
            return plain;
        }
        if bytes[pos] == 34 {
            self.pos = pos + 1;
            return plain;
        }
        let mut out: Vec<u8> = Vec::new();
        if haxe_string::from_utf8(plain.as_slice()).is_some() {
            text::append(&mut out, plain.as_slice());
        }
        let ghost prefix = out@;
        proof {
            lemma_escaped_end(bytes@, pos as int);
        }
        self.parse_string_slow(&mut out);
        assert(prefix == if vstd::utf8::valid_utf8(plain@) {
            plain@
        } else {
            Seq::empty()
        });
        assert(out@ =~= string_at(bytes@, start as int).0);
        out
    }

    /// Reads the rest of a string and appends it to `out`, resolving escapes.
    pub fn parse_string_slow(&mut self, out: &mut Vec<u8>)
        requires
            old(self).wf(),
        ensures
            final(self).wf(),
            final(self).bytes == old(self).bytes,
            final(out)@ == old(out)@ + escaped_at(old(self).bytes@, old(self).pos as int).0,
            final(self).pos as int == escaped_at(old(self).bytes@, old(self).pos as int).1,
            final(self).pos >= old(self).pos,
    {
        let ghost b = self.bytes@;
        let ghost start = self.pos as int;
        let ghost all = escaped_at(b, start);
        let ghost before = out@;
        proof {
            lemma_escaped_end(b, start);
        }
        assert(before + all.0 =~= before + all.0);
        while self.pos < self.bytes.len()
            invariant_except_break
                self.wf(),
                self.bytes@ == b,
                self.bytes == old(self).bytes,
                start <= self.pos,
                before + all.0 == out@ + escaped_at(b, self.pos as int).0,
                all.1 == escaped_at(b, self.pos as int).1,
            ensures
                self.wf(),
                self.bytes == old(self).bytes,
                start <= self.pos,
                before + all.0 == out@,
                all.1 == self.pos,
            decreases b.len() - self.pos,
        {
            let ghost at = self.pos as int;
            let ghost sofar = out@;
            let c: u8 = self.bytes[self.pos];
            if c == 34 {
                self.pos = self.pos + 1;
                assert(out@ + Seq::<u8>::empty() =~= out@);
                break;
            }
            if c == 92 {
                proof {
                    lemma_escape_end(b, at + 1);
                }
                self.pos = self.pos + 1;
                self.parse_escape(out);
                assert(sofar + (escape_at(b, at + 1).0 + escaped_at(b, self.pos as int).0) =~= out@
                    + escaped_at(b, self.pos as int).0);
            } else if c < 0x80 {
                out.push(c);
                self.pos = self.pos + 1;
                let ghost tail = b.subrange(at, b.len() as int);
                assert(tail.subrange(0, 1) =~= seq![c]);
                assert(sofar + (tail.subrange(0, 1) + escaped_at(b, at + 1).0) =~= out@
                    + escaped_at(b, at + 1).0);
            } else {
                let tail: Vec<u8> = text::copy_range(self.bytes, self.pos, self.bytes.len());
                if haxe_string::from_utf8(tail.as_slice()).is_some() {
                    let n: usize = if c < 0xE0 {
                        2
                    } else if c < 0xF0 {
                        3
                    } else {
                        4
                    };
                    assert(tail@[0] == c);
                    assert(n == vstd::utf8::length_of_first_scalar(tail@));
                    let head: Vec<u8> = text::copy_range(tail.as_slice(), 0, n);
                    text::append(out, head.as_slice());
                    self.pos = self.pos + n;
                    assert(sofar + (tail@.subrange(0, n as int) + escaped_at(b, at + n).0) =~= out@
                        + escaped_at(b, at + n).0);
                } else {
                    self.pos = self.pos + 1;
                }
            }
            if self.pos >= self.bytes.len() {
                assert(out@ + Seq::<u8>::empty() =~= out@);
            }
        }
    }

    fn parse_escape(&mut self, out: &mut Vec<u8>)
        requires
            old(self).wf(),
        ensures
            final(self).wf(),
            final(self).bytes == old(self).bytes,
            final(out)@ == old(out)@ + escape_at(old(self).bytes@, old(self).pos as int).0,
            final(self).pos as int == escape_at(old(self).bytes@, old(self).pos as int).1,
            final(self).pos >= old(self).pos,
    {
        let ghost before = out@;
        proof {
            lemma_escape_end(self.bytes@, self.pos as int);
        }
        let letter: Option<u8> = self.advance();
        match letter {
            None => {},
            Some(c) => {
                if c == 34 || c == 92 || c == 47 {
                    out.push(c);
                } else if c == 110 {
                    out.push(10);
                } else if c == 114 {
                    out.push(13);
                } else if c == 116 {
                    out.push(9);
                } else if c == 98 {
                    out.push(8);
                } else if c == 102 {
                    out.push(12);
                } else if c == 117 {
                    let cp: u32 = self.parse_unicode_escape();
                    if cp <= 0x10FFFF && !(0xD800 <= cp && cp <= 0xDFFF) {
                        text::append_scalar(out, cp);
                    }
                }
            },
        }
        assert(out@ =~= before + escape_at(old(self).bytes@, old(self).pos as int).0);
    }

    /// Reads the digits of a `\u` escape, and a second escape where the first is a high
    /// surrogate and a low one follows.
    pub fn parse_unicode_escape(&mut self) -> (cp: u32)
        requires
            old(self).wf(),
        ensures
            final(self).wf(),
            final(self).bytes == old(self).bytes,
            (cp, final(self).pos as int) == unicode_at(old(self).bytes@, old(self).pos as int),
            final(self).pos >= old(self).pos,
        decreases old(self).bytes@.len() - old(self).pos,
    {
        let ghost b = self.bytes@;
        let ghost start = self.pos as int;
        let ghost end = hex_end(b, start);
        proof {
            lemma_unicode_end(b, start);
            lemma_hex_value(b.subrange(start, end));
        }
        let mut cp: u32 = 0;
        let mut k: u32 = 0;
        assert(b.subrange(start, start) =~= Seq::<u8>::empty());
        while k < 4
            invariant
                k <= 4,
                self.wf(),
                self.bytes@ == b,
                self.bytes == old(self).bytes,
                start == old(self).pos,
                0 <= start <= b.len(),
                self.pos as int == (if start + k <= b.len() {
                    start + k
                } else {
                    b.len() as int
                }),
                cp == hex_value(b.subrange(start, self.pos as int)),
            decreases 4 - k,
        {
            let ghost at = self.pos as int;
            proof {
                lemma_hex_value(b.subrange(start, at));
                if at < b.len() {
                    assert(b.subrange(start, at + 1).drop_last() =~= b.subrange(start, at));
                }
            }
            match self.advance() {
                Some(c) => {
                    let digit: u32 = if c >= 48 && c <= 57 {
                        (c - 48) as u32
                    } else if c >= 97 && c <= 102 {
                        (c - 87) as u32
                    } else if c >= 65 && c <= 70 {
                        (c - 55) as u32
                    } else {
                        0
                    };
                    cp = cp * 16 + digit;
                },
                None => {},
            }
            k = k + 1;
        }
        if cp < 0xD800 || cp > 0xDBFF {
            return cp;
        }
        let saved: usize = self.pos;
        if self.bytes.len() - saved >= 2 && self.bytes[saved] == 92 && self.bytes[saved + 1]
            == 117 {
            self.pos = saved + 2;
            proof {
                lemma_unicode_end(b, saved + 2);
            }
            let low: u32 = self.parse_unicode_escape();
            if low >= 0xDC00 && low <= 0xDFFF {
                return (cp - 0xD800) * 0x400 + (low - 0xDC00) + 0x10000;
            }
        }
        self.pos = saved;
        0xFFFD
    }

    /// Reads the number at the position.
    pub fn parse_number<F: Fn(&[u8]) -> Option<u64>>(&mut self, read: &F) -> (v: JsonValue)
        requires
            old(self).wf(),
            forall|s: &[u8]| #[trigger] call_requires(*read, (s,)),
            old(self).pos < old(self).bytes@.len(),
            old(self).bytes@[old(self).pos as int] == 45 || text::is_digit(
                old(self).bytes@[old(self).pos as int],
            ),
        ensures
            final(self).wf(),
            final(self).bytes == old(self).bytes,
            stands_for(
                v.tree(),
                number_at(old(self).bytes@, old(self).pos as int).0,
                reading(*read),
            ),
            final(self).pos == number_at(old(self).bytes@, old(self).pos as int).1,
            final(self).pos > old(self).pos,
    {
        let ghost b = self.bytes@;
        let start: usize = self.pos;
        proof {
            lemma_number_end(b, start as int);
        }
        let negative: bool = self.bytes[start] == 45;
        if negative {
            self.pos = self.pos + 1;
        }
        let d0: usize = self.pos;
        let mut magnitude: u64 = 0;
        let mut overflow: bool = false;
        assert(b.subrange(d0 as int, d0 as int) =~= Seq::<u8>::empty());
        while self.pos < self.bytes.len() && self.bytes[self.pos] >= 48 && self.bytes[self.pos]
            <= 57
            invariant
                self.wf(),
                self.bytes@ == b,
                self.bytes == old(self).bytes,
                d0 <= self.pos,
                digits_end(b, d0 as int) == digits_end(b, self.pos as int),
                overflow <==> text::dec_value(b.subrange(d0 as int, self.pos as int)) > u64::MAX,
                !overflow ==> magnitude == text::dec_value(
                    b.subrange(d0 as int, self.pos as int),
                ),
            decreases b.len() - self.pos,
        {
            let d: u64 = (self.bytes[self.pos] - 48) as u64;
            assert(b.subrange(d0 as int, self.pos + 1).drop_last() =~= b.subrange(
                d0 as int,
                self.pos as int,
            ));
            if !overflow {
                match magnitude.checked_mul(10) {
                    Some(m) => match m.checked_add(d) {
                        Some(n) => {
                            magnitude = n;
                        },
                        None => {
                            overflow = true;
                        },
                    },
                    None => {
                        overflow = true;
                    },
                }
            }
            self.pos = self.pos + 1;
        }
        let mut is_float: bool = false;
        if self.pos < self.bytes.len() && self.bytes[self.pos] == 46 {
            is_float = true;
            self.pos = self.pos + 1;
            self.skip_digits();
        }
        if self.pos < self.bytes.len() && (self.bytes[self.pos] == 101 || self.bytes[self.pos]
            == 69) {
            is_float = true;
            self.pos = self.pos + 1;
            if self.pos < self.bytes.len() && (self.bytes[self.pos] == 43 || self.bytes[self.pos]
                == 45) {
                self.pos = self.pos + 1;
            }
            self.skip_digits();
        }
        let limit: u64 = if negative {
            0x8000_0000_0000_0000
        } else {
            0x7fff_ffff_ffff_ffff
        };
        if is_float || overflow || magnitude > limit {
            let digits: &[u8] = slice_subrange(self.bytes, start, self.pos);
            let number: Option<u64> = read(digits);
            let bits: u64 = match number {
                Some(n) => n,
                None => 0,
            };
            assert(call_ensures(*read, (digits,), number));
            JsonValue::Float(bits)
        } else if !negative {
            JsonValue::Int(magnitude as i64)
        } else if magnitude == 0x8000_0000_0000_0000 {
            JsonValue::Int(i64::MIN)
        } else {
            JsonValue::Int(-(magnitude as i64))
        }
    }
}

proof fn lemma_push_stands_for(
    v: Seq<Tree<u64>>,
    t: Seq<Tree<Seq<u8>>>,
    a: Tree<u64>,
    b: Tree<Seq<u8>>,
    number: spec_fn(u64, Seq<u8>) -> bool,
)
    requires
        stands_for(Tree::Array(v), Tree::Array(t), number),
        stands_for(a, b, number),
    ensures
        stands_for(Tree::Array(v.push(a)), Tree::Array(t.push(b)), number),
{
    assert forall|i: int| 0 <= i < v.push(a).len() implies stands_for(
        #[trigger] v.push(a)[i],
        t.push(b)[i],
        number,
    ) by {
        if i < v.len() {
            assert(stands_for(v[i], t[i], number));
        }
    }
}

proof fn lemma_put_stands_for(
    v: Seq<(Seq<u8>, Tree<u64>)>,
    t: Seq<(Seq<u8>, Tree<Seq<u8>>)>,
    k: Seq<u8>,
    a: Tree<u64>,
    b: Tree<Seq<u8>>,
    number: spec_fn(u64, Seq<u8>) -> bool,
)
    requires
        field_map::sorted(v),
        stands_for(Tree::Object(v), Tree::Object(t), number),
        stands_for(a, b, number),
    ensures
        stands_for(
            Tree::Object(field_map::put(v, k, a)),
            Tree::Object(field_map::put(t, k, b)),
            number,
        ),
{
    field_map::lemma_slot(v, k);
    let n = field_map::slot(v, k);
    assert forall|i: int, j: int| 0 <= i < j < t.len() implies text::lex_order(
        #[trigger] t[i].0,
        #[trigger] t[j].0,
    ) < 0 by {
        assert(v[i].0 == t[i].0 && v[j].0 == t[j].0);
    }
    assert forall|i: int| 0 <= i < n implies text::lex_order(#[trigger] t[i].0, k) < 0 by {
        assert(v[i].0 == t[i].0);
    }
    if n < t.len() {
        assert(v[n].0 == t[n].0);
    }
    field_map::lemma_slot_unique(t, k, n);
    let w = field_map::put(v, k, a);
    let u = field_map::put(t, k, b);
    assert(w.len() == u.len());
    assert forall|i: int| 0 <= i < w.len() implies (#[trigger] w[i]).0 == u[i].0 && stands_for(
        w[i].1,
        u[i].1,
        number,
    ) by {
        if field_map::has(v, k) {
            if i != n {
                assert(w[i] == v[i] && u[i] == t[i]);
            }
        } else if i < n {
            assert(w[i] == v[i] && u[i] == t[i]);
        } else if i > n {
            assert(w[i] == v[i - 1] && u[i] == t[i - 1]);
        }
    }
}

fn put_field(fields: &mut Vec<(Vec<u8>, JsonValue)>, name: Vec<u8>, value: JsonValue)
    requires
        field_map::sorted(field_trees(old(fields)@)),
    ensures
        field_trees(final(fields)@) == field_map::put(
            field_trees(old(fields)@),
            name@,
            value.tree(),
        ),
        field_map::sorted(field_trees(final(fields)@)),
{
    let ghost before = field_trees(fields@);
    let mut n: usize = 0;
    while n < fields.len() && text::order(fields[n].0.as_slice(), name.as_slice()) < 0
        invariant
            n <= fields@.len(),
            before == field_trees(fields@),
            forall|i: int| 0 <= i < n ==> text::lex_order(#[trigger] before[i].0, name@) < 0,
        decreases fields@.len() - n,
    {
        n = n + 1;
    }
    proof {
        field_map::lemma_slot_unique(before, name@, n as int);
        field_map::lemma_put_sorted(before, name@, value.tree());
    }
    let found: bool = n < fields.len() && text::equal(fields[n].0.as_slice(), name.as_slice());
    if found {
        fields.set(n, (name, value));
    } else {
        fields.insert(n, (name, value));
    }
    assert(field_trees(fields@) =~= field_map::put(before, name@, value.tree()));
}

/// What a JSON text means: the value at its start; `null` for a null or empty string. `read`
/// gives the bits of a number that is not an integer.
pub fn haxe_json_parse<F: Fn(&[u8]) -> Option<u64>>(s: Option<&HaxeString>, read: &F) -> (v:
    JsonValue)
    requires
        forall|t: &[u8]| #[trigger] call_requires(*read, (t,)),
    ensures
        stands_for(
            v.tree(),
            if haxe_string::opt_view(s).len() == 0 {
                Tree::Null
            } else {
                value_at(haxe_string::opt_view(s), 0).0
            },
            reading(*read),
        ),
{
    match s {
        None => JsonValue::Null,
        Some(h) => {
            if h.len() == 0 {
                return JsonValue::Null;
            }
            let mut parser = Parser { bytes: h.bytes(), pos: 0 };
            parser.parse_value(read)
        },
    }
}

// ---------------------------------------------------------------------------
// Printer
// ---------------------------------------------------------------------------

/// What is printed for one byte of a string.
pub open spec fn escaped_byte(c: u8) -> Seq<u8> {
    if c == 34 || c == 92 {
        seq![92u8, c]
    } else if c == 10 {
        seq![92u8, 110]
    } else if c == 13 {
        seq![92u8, 114]
    } else if c == 9 {
        seq![92u8, 116]
    } else if c == 8 {
        seq![92u8, 98]
    } else if c == 12 {
        seq![92u8, 102]
    } else if c < 32 {
        seq![92u8, 117, 48, 48] + text::hex_fixed(c as nat, 2)
    } else {
        seq![c]
    }
}

/// What is printed for the bytes of a string.
pub open spec fn escaped(s: Seq<u8>) -> Seq<u8>
    decreases s.len(),
{
    if s.len() == 0 {
        Seq::empty()
    } else {
        escaped_byte(s[0]) + escaped(s.drop_first())
    }
}

/// A string literal.
pub open spec fn quoted(s: Seq<u8>) -> Seq<u8> {
    seq![34u8] + escaped(s) + seq![34u8]
}

/// Printing goes byte by byte.
pub proof fn lemma_escaped_push(s: Seq<u8>, c: u8)
    ensures
        escaped(s.push(c)) == escaped(s) + escaped_byte(c),
    decreases s.len(),
{
    if s.len() == 0 {
        assert(s.push(c).drop_first() =~= Seq::empty());
        assert(escaped(Seq::<u8>::empty()) =~= Seq::empty());
        assert(escaped(s.push(c)) =~= escaped_byte(c));
        assert(escaped(s) + escaped_byte(c) =~= escaped_byte(c));
    } else {
        lemma_escaped_push(s.drop_first(), c);
        assert(s.push(c).drop_first() =~= s.drop_first().push(c));
        assert(escaped(s.push(c)) =~= escaped(s) + escaped_byte(c));
    }
}

/// The text printed for a value.
pub open spec fn printed(t: Tree<Seq<u8>>) -> Seq<u8>
    decreases t, 0int,
{
    match t {
        Tree::Null => text::lit("null"),
        Tree::Bool(b) => if b {
            text::lit("true")
        } else {
            text::lit("false")
        },
        Tree::Int(i) => text::dec_int(i as int),
        Tree::Float(f) => f,
        Tree::Str(s) => quoted(s),
        Tree::Array(items) => seq![91u8] + printed_items(items, items.len() as int) + seq![93u8],
        Tree::Object(fields) => seq![123u8] + printed_fields(fields, fields.len() as int)
            + seq![125u8],
    }
}

/// The text of the first `n` elements of an array, with commas between them.
pub open spec fn printed_items(items: Seq<Tree<Seq<u8>>>, n: int) -> Seq<u8>
    decreases items, n,
{
    if n <= 0 || n > items.len() {
        Seq::empty()
    } else if n == 1 {
        printed(items[0])
    } else {
        printed_items(items, n - 1) + seq![44u8] + printed(items[n - 1])
    }
}

/// The text of the first `n` fields of an object, with commas between them.
pub open spec fn printed_fields(fields: Seq<(Seq<u8>, Tree<Seq<u8>>)>, n: int) -> Seq<u8>
    decreases fields, n,
{
    if n <= 0 || n > fields.len() {
        Seq::empty()
    } else if n == 1 {
        printed_field(fields[0])
    } else {
        printed_fields(fields, n - 1) + seq![44u8] + printed_field(fields[n - 1])
    }
}

/// The text of a field.
pub open spec fn printed_field(field: (Seq<u8>, Tree<Seq<u8>>)) -> Seq<u8>
    decreases field, 0int,
{
    quoted(field.0) + seq![58u8] + printed(field.1)
}

/// `out` is the text of a value, with the numbers written as `writing` says.
pub open spec fn is_text_of<G: Fn(u64) -> Vec<u8>>(write: G, v: Tree<u64>, out: Seq<u8>) -> bool {
    exists|t: Tree<Seq<u8>>| #[trigger] stands_for(v, t, writing(write)) && out == printed(t)
}

/// Appends the text of a number that is not an integer.
fn stringify_number<G: Fn(u64) -> Vec<u8>>(bits: u64, buf: &mut Vec<u8>, write: &G) -> (text:
    Ghost<Seq<u8>>)
    requires
        call_requires(*write, (bits,)),
    ensures
        final(buf)@ == old(buf)@ + text@,
        writing(*write)(bits, text@),
{
    let ghost before = buf@;
    if floats::is_whole(bits) && floats::without_sign(bits) < floats::from_int(
        1_000_000_000_000_000,
    ) {
        proof {
            floats::lemma_short_whole(bits);
        }
        itoa_i64(floats::to_int(bits), buf);
        text::append_str(buf, ".0");
        let ghost t = text::dec_int(floats::truncated(bits)) + text::lit(".0");
        assert(buf@ =~= before + t);
        Ghost(t)
    } else {
        let r: Vec<u8> = write(bits);
        text::append(buf, r.as_slice());
        assert(call_ensures(*write, (bits,), r));
        Ghost(r@)
    }
}

/// Appends the text of a value; `write` gives the text of a number that is neither an integer
/// nor a short whole number.
pub fn stringify_value<G: Fn(u64) -> Vec<u8>>(value: &JsonValue, buf: &mut Vec<u8>, write: &G)
    requires
        forall|bits: u64| #[trigger] call_requires(*write, (bits,)),
    ensures
        final(buf)@.len() >= old(buf)@.len(),
        final(buf)@.take(old(buf)@.len() as int) == old(buf)@,
        is_text_of(*write, value.tree(), final(buf)@.skip(old(buf)@.len() as int)),
    decreases value,
{
    let ghost begin = buf@;
    let ghost number = writing(*write);
    let ghost mut said: Tree<Seq<u8>> = Tree::Null;
    match value {
        JsonValue::Null => {
            text::append_str(buf, "null");
        },
        JsonValue::Bool(b) => {
            if *b {
                text::append_str(buf, "true")
            } else {
                text::append_str(buf, "false")
            }
            proof {
                said = Tree::Bool(*b);
            }
        },
        JsonValue::Int(i) => {
            itoa_i64(*i, buf);
            proof {
                said = Tree::Int(*i);
            }
        },
        JsonValue::Float(bits) => {
            let Ghost(t) = stringify_number(*bits, buf, write);
            proof {
                said = Tree::Float(t);
            }
        },
        JsonValue::Str(s) => {
            stringify_string_bytes(s.as_slice(), buf);
            proof {
                said = Tree::Str(s@);
            }
        },
        JsonValue::Array(items) => {
            let ghost mut ts: Seq<Tree<Seq<u8>>> = Seq::empty();
            buf.push(91);
            let mut i: usize = 0;
            assert(buf@ =~= begin + seq![91u8] + printed_items(ts, 0));
            while i < items.len()
                invariant
                    i <= items@.len(),
                    value matches JsonValue::Array(w) && w == items,
                    forall|bits: u64| #[trigger] call_requires(*write, (bits,)),
                    number == writing(*write),
                    ts.len() == i,
                    forall|j: int|
                        0 <= j < i ==> stands_for(items@[j].tree(), #[trigger] ts[j], number),
                    buf@ == begin + seq![91u8] + printed_items(ts, i as int),
                decreases items@.len() - i,
            {
                proof {
                    assert(decreases_to!(value => items@[i as int]));
                }
                if i > 0 {
                    buf.push(44);
                }
                let ghost mid = buf@;
                stringify_value(&items[i], buf, write);
                proof {
                    let tail = buf@.skip(mid.len() as int);
                    let t = choose|t: Tree<Seq<u8>>| #[trigger]
                        stands_for(items@[i as int].tree(), t, number) && tail == printed(t);
                    let more = ts.push(t);
                    lemma_items_prefix(ts, more, i as int);
                    assert(buf@ =~= mid + printed(t));
                    assert(buf@ =~= begin + seq![91u8] + printed_items(more, i + 1));
                    ts = more;
                }
                i = i + 1;
            }
            buf.push(93);
            proof {
                said = Tree::Array(ts);
                assert forall|j: int| 0 <= j < items@.len() implies stands_for(
                    #[trigger] value.tree()->Array_0[j],
                    ts[j],
                    number,
                ) by {}
                assert(buf@ =~= begin + printed(said));
            }
        },
        JsonValue::Object(fields) => {
            let ghost mut ts: Seq<(Seq<u8>, Tree<Seq<u8>>)> = Seq::empty();
            buf.push(123);
            let mut i: usize = 0;
            assert(buf@ =~= begin + seq![123u8] + printed_fields(ts, 0));
            while i < fields.len()
                invariant
                    i <= fields@.len(),
                    value matches JsonValue::Object(w) && w == fields,
                    forall|bits: u64| #[trigger] call_requires(*write, (bits,)),
                    number == writing(*write),
                    ts.len() == i,
                    forall|j: int|
                        0 <= j < i ==> (#[trigger] ts[j]).0 == fields@[j].0@ && stands_for(
                            fields@[j].1.tree(),
                            ts[j].1,
                            number,
                        ),
                    buf@ == begin + seq![123u8] + printed_fields(ts, i as int),
                decreases fields@.len() - i,
            {
                proof {
                    assert(decreases_to!(value => fields@[i as int]));
                    assert(decreases_to!(value => fields@[i as int].1));
                }
                if i > 0 {
                    buf.push(44);
                }
                let ghost top = buf@;
                stringify_string_bytes(fields[i].0.as_slice(), buf);
                buf.push(58);
                let ghost mid = buf@;
                stringify_value(&fields[i].1, buf, write);
                proof {
                    let tail = buf@.skip(mid.len() as int);
                    let t = choose|t: Tree<Seq<u8>>| #[trigger]
                        stands_for(fields@[i as int].1.tree(), t, number) && tail == printed(t);
                    let field = (fields@[i as int].0@, t);
                    let more = ts.push(field);
                    lemma_fields_prefix(ts, more, i as int);
                    assert(printed_field(field) == quoted(field.0) + seq![58u8] + printed(t));
                    assert(buf@ =~= mid + printed(t));
                    assert(buf@ =~= top + printed_field(field));
                    assert(buf@ =~= begin + seq![123u8] + printed_fields(more, i + 1));
                    ts = more;
                }
                i = i + 1;
            }
            buf.push(125);
            proof {
                said = Tree::Object(ts);
                assert forall|j: int| 0 <= j < fields@.len() implies (
                #[trigger] value.tree()->Object_0[j]).0 == ts[j].0 && stands_for(
                    value.tree()->Object_0[j].1,
                    ts[j].1,
                    number,
                ) by {}
                assert(buf@ =~= begin + printed(said));
            }
        },
    }
    proof {
        assert(stands_for(value.tree(), said, number));
        assert(buf@ =~= begin + printed(said));
        assert(buf@.take(begin.len() as int) =~= begin);
        assert(buf@.skip(begin.len() as int) =~= printed(said));
    }
}

proof fn lemma_items_prefix(a: Seq<Tree<Seq<u8>>>, b: Seq<Tree<Seq<u8>>>, n: int)
    requires
        0 <= n <= a.len() <= b.len(),
        forall|i: int| 0 <= i < n ==> a[i] == b[i],
    ensures
        printed_items(a, n) == printed_items(b, n),
    decreases n,
{
    if n > 0 {
        lemma_items_prefix(a, b, n - 1);
    }
}

proof fn lemma_fields_prefix(
    a: Seq<(Seq<u8>, Tree<Seq<u8>>)>,
    b: Seq<(Seq<u8>, Tree<Seq<u8>>)>,
    n: int,
)
    requires
        0 <= n <= a.len() <= b.len(),
        forall|i: int| 0 <= i < n ==> a[i] == b[i],
    ensures
        printed_fields(a, n) == printed_fields(b, n),
    decreases n,
{
    if n > 0 {
        lemma_fields_prefix(a, b, n - 1);
    }
}

/// Appends the decimal digits of an integer.
pub fn itoa_i64(v: i64, buf: &mut Vec<u8>)
    ensures
        final(buf)@ == old(buf)@ + text::dec_int(v as int),
{
    text::append_i64(buf, v);
}

/// Appends a string literal.
pub fn stringify_string_bytes(bytes: &[u8], buf: &mut Vec<u8>)
    ensures
        final(buf)@ == old(buf)@ + quoted(bytes@),
{
    let ghost before = buf@;
    buf.push(34);
    let mut i: usize = 0;
    assert(bytes@.take(0) =~= Seq::empty());
    assert(buf@ =~= before + seq![34u8] + escaped(bytes@.take(0)));
    while i < bytes.len()
        invariant
            i <= bytes@.len(),
            buf@ == before + seq![34u8] + escaped(bytes@.take(i as int)),
        decreases bytes@.len() - i,
    {
        let ghost sofar = buf@;
        let c: u8 = bytes[i];
        if c == 34 || c == 92 {
            buf.push(92);
            buf.push(c);
        } else if c == 10 {
            buf.push(92);
            buf.push(110);
        } else if c == 13 {
            buf.push(92);
            buf.push(114);
        } else if c == 9 {
            buf.push(92);
            buf.push(116);
        } else if c == 8 {
            buf.push(92);
            buf.push(98);
        } else if c == 12 {
            buf.push(92);
            buf.push(102);
        } else if c < 32 {
            buf.push(92);
            buf.push(117);
            buf.push(48);
            buf.push(48);
            text::append_hex_fixed(buf, c as u64, 2);
        } else {
            buf.push(c);
        }
        assert(buf@ =~= sofar + escaped_byte(c));
        proof {
            lemma_escaped_push(bytes@.take(i as int), c);
            assert(bytes@.take(i + 1) =~= bytes@.take(i as int).push(c));
        }
        i = i + 1;
        assert(buf@ =~= before + seq![34u8] + escaped(bytes@.take(i as int)));
    }
    assert(bytes@.take(i as int) =~= bytes@);
    buf.push(34);
    assert(buf@ =~= before + quoted(bytes@));
}

/// The text of a value as a string; `write` gives the text of a number that is neither an
/// integer nor a short whole number.
pub fn haxe_json_stringify<G: Fn(u64) -> Vec<u8>>(value: &JsonValue, write: &G) -> (s: HaxeString)
    requires
        forall|bits: u64| #[trigger] call_requires(*write, (bits,)),
    ensures
        s.exact(s@),
        is_text_of(*write, value.tree(), s@),
{
    let mut buf: Vec<u8> = Vec::new();
    stringify_value(value, &mut buf, write);
    assert(buf@.skip(0) =~= buf@);
    HaxeString::from_vec(buf)
}

// ---------------------------------------------------------------------------
// Reading back what was printed
// ---------------------------------------------------------------------------

proof fn lemma_ascii_valid(s: Seq<u8>)
    requires
        forall|i: int| 0 <= i < s.len() ==> s[i] < 0x80,
    ensures
        vstd::utf8::valid_utf8(s),
    decreases s.len(),
{
    if s.len() > 0 {
        let c = s[0];
        assert((c & 0x7F) as u32 <= 0x7F) by (bit_vector);
        assert(vstd::utf8::valid_first_scalar(s));
        assert(vstd::utf8::pop_first_scalar(s) =~= s.drop_first());
        assert forall|i: int| 0 <= i < s.drop_first().len() implies s.drop_first()[i] < 0x80 by {
            assert(s.drop_first()[i] == s[i + 1]);
        }
        lemma_ascii_valid(s.drop_first());
    }
}

proof fn lemma_valid_concat(a: Seq<u8>, b: Seq<u8>)
    requires
        vstd::utf8::valid_utf8(a),
        vstd::utf8::valid_utf8(b),
    ensures
        vstd::utf8::valid_utf8(a + b),
{
    vstd::utf8::valid_utf8_concat(a, b);
}

proof fn lemma_hex_byte(c: u8)
    requires
        c < 32,
    ensures
        text::hex_fixed(c as nat, 2).len() == 2,
        hex_digit_value(text::hex_fixed(c as nat, 2)[0]) * 16 + hex_digit_value(
            text::hex_fixed(c as nat, 2)[1],
        ) == c,
        text::hex_fixed(c as nat, 2)[0] < 0x80,
        text::hex_fixed(c as nat, 2)[1] < 0x80,
{
    reveal_with_fuel(text::hex_fixed, 3);
    assert(text::hex_fixed(c as nat, 2) =~= seq![
        text::hex_digit((c as nat / 16 % 16) as int),
        text::hex_digit((c as nat % 16) as int),
    ]);
}

proof fn lemma_escaped_byte_ascii(c: u8)
    requires
        c < 0x80,
    ensures
        forall|i: int| 0 <= i < escaped_byte(c).len() ==> escaped_byte(c)[i] < 0x80,
        escaped_byte(c).len() >= 1,
{
    if c < 32 {
        lemma_hex_byte(c);
    }
}

proof fn lemma_escaped_concat(a: Seq<u8>, b: Seq<u8>)
    ensures
        escaped(a + b) == escaped(a) + escaped(b),
    decreases a.len(),
{
    if a.len() == 0 {
        assert(a + b =~= b);
        assert(escaped(a) + escaped(b) =~= escaped(b));
    } else {
        assert((a + b).drop_first() =~= a.drop_first() + b);
        lemma_escaped_concat(a.drop_first(), b);
        assert(escaped(a + b) =~= escaped(a) + escaped(b));
    }
}

proof fn lemma_escaped_plain(s: Seq<u8>)
    requires
        forall|i: int| 0 <= i < s.len() ==> s[i] >= 32 && s[i] != 34 && s[i] != 92,
    ensures
        escaped(s) == s,
    decreases s.len(),
{
    if s.len() > 0 {
        assert forall|i: int| 0 <= i < s.drop_first().len() implies s.drop_first()[i] >= 32
            && s.drop_first()[i] != 34 && s.drop_first()[i] != 92 by {
            assert(s.drop_first()[i] == s[i + 1]);
        }
        lemma_escaped_plain(s.drop_first());
        assert(escaped(s) =~= s);
    } else {
        assert(escaped(s) =~= s);
    }
}

/// The first character of well-formed text and the rest of it.
proof fn lemma_first_scalar(u: Seq<u8>)
    requires
        vstd::utf8::valid_utf8(u),
        u.len() > 0,
    ensures
        ({
            let n = vstd::utf8::length_of_first_scalar(u);
            &&& 1 <= n <= u.len()
            &&& u[0] < 0x80 <==> n == 1
            &&& forall|i: int| 0 <= i < n && n > 1 ==> u[i] >= 0x80
            &&& vstd::utf8::valid_utf8(u.subrange(n, u.len() as int))
            &&& u == u.subrange(0, n) + u.subrange(n, u.len() as int)
            &&& n > 1 ==> escaped(u) == u.subrange(0, n) + escaped(u.subrange(n, u.len() as int))
        }),
{
    let n = vstd::utf8::length_of_first_scalar(u);
    assert(u =~= u.subrange(0, n) + u.subrange(n, u.len() as int));
    if n > 1 {
        let head = u.subrange(0, n);
        assert(forall|i: int| 0 <= i < n ==> u[i] >= 0x80);
        assert forall|i: int| 0 <= i < head.len() implies head[i] >= 32 && head[i] != 34 && head[i]
            != 92 by {
            assert(head[i] == u[i]);
        }
        lemma_escaped_plain(head);
        lemma_escaped_concat(head, u.subrange(n, u.len() as int));
    }
}

proof fn lemma_escaped_valid(u: Seq<u8>)
    requires
        vstd::utf8::valid_utf8(u),
    ensures
        vstd::utf8::valid_utf8(escaped(u)),
    decreases u.len(),
{
    if u.len() > 0 {
        lemma_first_scalar(u);
        let n = vstd::utf8::length_of_first_scalar(u);
        let rest = u.subrange(n, u.len() as int);
        lemma_escaped_valid(rest);
        if n == 1 {
            assert(rest =~= u.drop_first());
            lemma_escaped_byte_ascii(u[0]);
            lemma_ascii_valid(escaped_byte(u[0]));
            lemma_valid_concat(escaped_byte(u[0]), escaped(rest));
        } else {
            let head = u.subrange(0, n);
            assert(vstd::utf8::valid_utf8(head)) by {
                assert(forall|i: int| 0 <= i < n ==> head[i] == u[i]);
                assert(head[0] == u[0] && head[1] == u[1]);
                assert(n > 2 ==> head[2] == u[2]);
                assert(n > 3 ==> head[3] == u[3]);
                assert(vstd::utf8::valid_first_scalar(head));
                assert(vstd::utf8::pop_first_scalar(head) =~= Seq::empty());
                lemma_ascii_valid(Seq::empty());
            }
            lemma_valid_concat(head, escaped(rest));
        }
    }
}

/// `part` stands in `b` at `pos`, with `rest` behind it up to the end.
pub open spec fn stands(b: Seq<u8>, pos: int, part: Seq<u8>, rest: Seq<u8>) -> bool {
    &&& 0 <= pos <= b.len()
    &&& b.subrange(pos, b.len() as int) == part + rest
}

proof fn lemma_stands_index(b: Seq<u8>, pos: int, part: Seq<u8>, rest: Seq<u8>)
    requires
        stands(b, pos, part, rest),
    ensures
        pos + part.len() + rest.len() == b.len(),
        forall|i: int| 0 <= i < part.len() ==> b[pos + i] == part[i],
        forall|i: int| 0 <= i < rest.len() ==> b[pos + part.len() + i] == rest[i],
        stands(b, pos + part.len(), rest, Seq::empty()),
        b.subrange(pos, pos + part.len()) == part,
{
    let t = b.subrange(pos, b.len() as int);
    assert(t.len() == b.len() - pos);
    assert((part + rest).len() == part.len() + rest.len());
    assert forall|i: int| 0 <= i < part.len() implies b[pos + i] == part[i] by {
        assert(t[i] == b[pos + i]);
    }
    assert forall|i: int| 0 <= i < rest.len() implies b[pos + part.len() + i] == rest[i] by {
        assert(t[part.len() + i] == b[pos + part.len() + i]);
    }
    assert(b.subrange(pos + part.len(), b.len() as int) =~= rest + Seq::<u8>::empty());
    assert(b.subrange(pos, pos + part.len()) =~= part);
}

proof fn lemma_stands_split(b: Seq<u8>, pos: int, head: Seq<u8>, part: Seq<u8>, rest: Seq<u8>)
    requires
        stands(b, pos, head + part, rest),
    ensures
        stands(b, pos, head, part + rest),
        stands(b, pos + head.len(), part, rest),
{
    assert((head + part) + rest =~= head + (part + rest));
    lemma_stands_index(b, pos, head, part + rest);
    assert(b.subrange(pos + head.len(), b.len() as int) =~= part + rest);
}

proof fn lemma_scalar_ascii(c: u8)
    requires
        c < 0x80,
    ensures
        vstd::utf8::is_scalar(c as u32),
        vstd::utf8::encode_scalar(c as u32) == seq![c],
{
    assert(((c as u32) & 0x7F) as u8 == c) by (bit_vector)
        requires
            c < 0x80,
    ;
    assert(vstd::utf8::encode_scalar(c as u32) =~= seq![c]);
}

proof fn lemma_read_escaped_byte(b: Seq<u8>, q: int, c: u8, rest: Seq<u8>)
    requires
        c < 0x80,
        stands(b, q, escaped_byte(c), rest),
    ensures
        ({
            let n = q + escaped_byte(c).len();
            escaped_at(b, q) == (seq![c] + escaped_at(b, n).0, escaped_at(b, n).1)
        }),
{
    lemma_stands_index(b, q, escaped_byte(c), rest);
    let part = escaped_byte(c);
    let n = q + part.len();
    let tail = b.subrange(q, b.len() as int);
    assert(b[q + 0] == part[0]);
    assert(part.len() > 1 ==> b[q + 1] == part[1]);
    if c == 34 || c == 92 || c == 10 || c == 13 || c == 9 || c == 8 || c == 12 {
        assert(escape_at(b, q + 1).0 =~= seq![c]);
    } else if c < 32 {
        lemma_hex_byte(c);
        let h = text::hex_fixed(c as nat, 2);
        let digits = b.subrange(q + 2, q + 6);
        assert(b[q + 2] == part[2] && b[q + 3] == part[3]);
        assert(b[q + 4] == part[4] && b[q + 5] == part[5]);
        assert(part[4] == h[0] && part[5] == h[1]);
        assert(digits =~= seq![48u8, 48u8, h[0], h[1]]);
        reveal_with_fuel(hex_value, 5);
        assert(digits.drop_last() =~= seq![48u8, 48u8, h[0]]);
        assert(digits.drop_last().drop_last() =~= seq![48u8, 48u8]);
        assert(digits.drop_last().drop_last().drop_last() =~= seq![48u8]);
        assert(digits.drop_last().drop_last().drop_last().drop_last() =~= Seq::<u8>::empty());
        assert(hex_value(digits) == c);
        assert(unicode_at(b, q + 2) == (c as u32, q + 6));
        lemma_scalar_ascii(c);
        assert(escape_at(b, q + 1) == (seq![c], q + 6));
    } else {
        assert(b[q] == c);
        assert(tail.subrange(0, 1) =~= seq![c]);
    }
}

proof fn lemma_read_escaped(b: Seq<u8>, q: int, u: Seq<u8>, rest: Seq<u8>)
    requires
        stands(b, q, escaped(u) + seq![34u8], rest),
        vstd::utf8::valid_utf8(u),
        vstd::utf8::valid_utf8(rest),
    ensures
        escaped_at(b, q) == (u, q + escaped(u).len() + 1),
    decreases u.len(),
{
    lemma_stands_index(b, q, escaped(u) + seq![34u8], rest);
    if u.len() == 0 {
        assert((escaped(u) + seq![34u8]) =~= seq![34u8]);
        assert(b[q + 0] == seq![34u8][0]);
        assert(escaped_at(b, q).0 =~= u);
    } else {
        lemma_first_scalar(u);
        let n = vstd::utf8::length_of_first_scalar(u);
        let next = u.subrange(n, u.len() as int);
        if n == 1 {
            assert(next =~= u.drop_first());
            assert(escaped(u) + seq![34u8] =~= escaped_byte(u[0]) + (escaped(next) + seq![34u8]));
            lemma_stands_split(b, q, escaped_byte(u[0]), escaped(next) + seq![34u8], rest);
            lemma_read_escaped_byte(b, q, u[0], (escaped(next) + seq![34u8]) + rest);
            lemma_read_escaped(b, q + escaped_byte(u[0]).len(), next, rest);
            assert(seq![u[0]] + next =~= u);
        } else {
            let head = u.subrange(0, n);
            assert(escaped(u) + seq![34u8] =~= head + (escaped(next) + seq![34u8]));
            lemma_stands_split(b, q, head, escaped(next) + seq![34u8], rest);
            let tail = b.subrange(q, b.len() as int);
            assert(vstd::utf8::valid_utf8(tail)) by {
                lemma_escaped_valid(u);
                lemma_ascii_valid(seq![34u8]);
                lemma_valid_concat(escaped(u), seq![34u8]);
                lemma_valid_concat(escaped(u) + seq![34u8], rest);
            }
            assert(tail[0] == u[0]) by {
                assert(head[0] == u[0]);
                assert(tail[0] == (head + ((escaped(next) + seq![34u8]) + rest))[0]);
            }
            assert(b[q] == u[0]);
            assert(vstd::utf8::length_of_first_scalar(tail) == n);
            assert(tail.subrange(0, n) =~= head) by {
                assert(tail == head + ((escaped(next) + seq![34u8]) + rest));
            }
            lemma_read_escaped(b, q + n, next, rest);
            assert(head + next =~= u);
        }
    }
}

/// Length of the longest beginning of `s` that is printed as it is.
spec fn plain_prefix(s: Seq<u8>) -> int
    decreases s.len(),
{
    if s.len() == 0 || s[0] < 32 || s[0] == 34 || s[0] == 92 {
        0
    } else {
        1 + plain_prefix(s.drop_first())
    }
}

proof fn lemma_plain_prefix(s: Seq<u8>)
    ensures
        0 <= plain_prefix(s) <= s.len(),
        forall|i: int| 0 <= i < plain_prefix(s) ==> s[i] >= 32 && s[i] != 34 && s[i] != 92,
        plain_prefix(s) < s.len() ==> s[plain_prefix(s)] < 32 || s[plain_prefix(s)] == 34
            || s[plain_prefix(s)] == 92,
    decreases s.len(),
{
    if s.len() > 0 && !(s[0] < 32 || s[0] == 34 || s[0] == 92) {
        lemma_plain_prefix(s.drop_first());
        assert forall|i: int| 0 <= i < plain_prefix(s) implies s[i] >= 32 && s[i] != 34 && s[i]
            != 92 by {
            if i > 0 {
                assert(s[i] == s.drop_first()[i - 1]);
            }
        }
    }
}

proof fn lemma_plain_end_at(b: Seq<u8>, pos: int, q: int)
    requires
        0 <= pos <= q < b.len(),
        forall|i: int| pos <= i < q ==> b[i] != 34 && b[i] != 92,
        b[q] == 34 || b[q] == 92,
    ensures
        plain_end(b, pos) == q,
{
    lemma_plain_end(b, pos);
    let e = plain_end(b, pos);
    if e < q {
        assert(b[e] == 34 || b[e] == 92);
    } else if q < e {
        assert(b[q] != 34 && b[q] != 92);
    }
}

/// A printed string is read back.
proof fn lemma_read_string(b: Seq<u8>, pos: int, s: Seq<u8>, rest: Seq<u8>)
    requires
        stands(b, pos, quoted(s), rest),
        vstd::utf8::valid_utf8(s),
        vstd::utf8::valid_utf8(rest),
    ensures
        b[pos] == 34,
        string_at(b, pos + 1) == (s, pos + quoted(s).len()),
{
    lemma_stands_index(b, pos, quoted(s), rest);
    assert(b[pos] == quoted(s)[0]);
    lemma_plain_prefix(s);
    let k = plain_prefix(s);
    let head = s.subrange(0, k);
    let u = s.subrange(k, s.len() as int);
    assert(s =~= head + u);
    lemma_escaped_plain(head);
    lemma_escaped_concat(head, u);
    assert(quoted(s) =~= seq![34u8] + (head + (escaped(u) + seq![34u8])));
    lemma_stands_split(b, pos, seq![34u8], head + (escaped(u) + seq![34u8]), rest);
    lemma_stands_split(b, pos + 1, head, escaped(u) + seq![34u8], rest);
    lemma_stands_index(b, pos + 1, head, (escaped(u) + seq![34u8]) + rest);
    lemma_stands_index(b, pos + 1 + k, escaped(u) + seq![34u8], rest);
    let q = pos + 1 + k;
    assert forall|i: int| pos + 1 <= i < q implies b[i] != 34 && b[i] != 92 by {
        assert(b[pos + 1 + (i - pos - 1)] == head[i - pos - 1]);
    }
    if k == s.len() {
        assert(u =~= Seq::empty());
        assert(escaped(u) =~= Seq::empty());
        assert(b[q] == (escaped(u) + seq![34u8])[0]);
        lemma_plain_end_at(b, pos + 1, q);
        assert(b.subrange(pos + 1, q) =~= s);
    } else {
        assert(u[0] == s[k]);
        let e = escaped_byte(u[0]);
        assert(e[0] == 92);
        assert(escaped(u)[0] == e[0]);
        assert(b[q] == (escaped(u) + seq![34u8])[0]);
        lemma_plain_end_at(b, pos + 1, q);
        assert(vstd::utf8::valid_utf8(head) && vstd::utf8::valid_utf8(u)) by {
            vstd::utf8::is_char_boundary_iff_not_is_continuation_byte(s, k);
            vstd::utf8::valid_utf8_split(s, k);
        }
        lemma_read_escaped(b, q, u, rest);
        assert(b.subrange(pos + 1, q) =~= head);
    }
}

/// What may follow a value inside a document: nothing, white space, or a comma or closing bracket.
pub open spec fn closes(rest: Seq<u8>) -> bool {
    rest.len() == 0 || is_ws(rest[0]) || rest[0] == 44 || rest[0] == 93 || rest[0] == 125
}

proof fn lemma_digits_end_at(b: Seq<u8>, pos: int, q: int)
    requires
        0 <= pos <= q <= b.len(),
        forall|i: int| pos <= i < q ==> text::is_digit(#[trigger] b[i]),
        q < b.len() ==> !text::is_digit(b[q]),
    ensures
        digits_end(b, pos) == q,
{
    lemma_digits_end(b, pos);
    let e = digits_end(b, pos);
    if e < q {
        assert(text::is_digit(b[e]));
    } else if q < e {
        assert(text::is_digit(b[q]));
    }
}

/// A printed integer is read back.
proof fn lemma_read_int(b: Seq<u8>, pos: int, i: i64, rest: Seq<u8>)
    requires
        stands(b, pos, text::dec_int(i as int), rest),
        closes(rest),
    ensures
        b[pos] == 45 || text::is_digit(b[pos]),
        number_at(b, pos) == (Tree::<Seq<u8>>::Int(i), pos + text::dec_int(i as int).len()),
{
    let d = text::dec_int(i as int);
    lemma_stands_index(b, pos, d, rest);
    let m: nat = if i < 0 {
        (-i) as nat
    } else {
        i as nat
    };
    text::lemma_dec_nat(m);
    let digits = text::dec_nat(m);
    let d0 = if i < 0 {
        pos + 1
    } else {
        pos
    };
    let d1 = pos + d.len();
    assert(b[pos] == d[0]);
    if i < 0 {
        assert(d[0] == 45);
    } else {
        assert(d == digits);
        assert(text::is_digit(digits[0]));
    }
    assert forall|j: int| d0 <= j < d1 implies text::is_digit(#[trigger] b[j]) by {
        assert(b[pos + (j - pos)] == d[j - pos]);
        assert(d[j - pos] == digits[j - d0]);
    }
    if d1 < b.len() {
        assert(b[d1 + 0] == rest[0]);
    }
    lemma_digits_end_at(b, d0, d1);
    assert(b.subrange(d0, d1) =~= digits) by {
        assert forall|j: int| 0 <= j < digits.len() implies b.subrange(d0, d1)[j] == digits[j] by {
            assert(b[pos + (d0 - pos + j)] == d[d0 - pos + j]);
        }
    }
    assert(signed(i < 0, m) == i);
}

/// A text that the parser takes as a number that is not an integer.
pub open spec fn is_float_text(f: Seq<u8>) -> bool {
    &&& f.len() > 0
    &&& f[0] == 45 || text::is_digit(f[0])
    &&& number_at(f, 0) == (Tree::Float(f), f.len() as int)
}

proof fn lemma_digits_end_shift(f: Seq<u8>, k: int, b: Seq<u8>, pos: int, rest: Seq<u8>)
    requires
        stands(b, pos, f, rest),
        closes(rest),
        0 <= k <= f.len(),
    ensures
        digits_end(b, pos + k) == pos + digits_end(f, k),
{
    lemma_digits_end(f, k);
    lemma_stands_index(b, pos, f, rest);
    let e = digits_end(f, k);
    assert forall|i: int| pos + k <= i < pos + e implies text::is_digit(#[trigger] b[i]) by {
        assert(b[pos + (i - pos)] == f[i - pos]);
    }
    if pos + e < b.len() {
        if e < f.len() {
            assert(b[pos + e] == f[e]);
        } else {
            assert(b[pos + f.len() + 0] == rest[0]);
        }
    }
    lemma_digits_end_at(b, pos + k, pos + e);
}

/// A printed number text is read back.
proof fn lemma_read_float(b: Seq<u8>, pos: int, f: Seq<u8>, rest: Seq<u8>)
    requires
        stands(b, pos, f, rest),
        closes(rest),
        is_float_text(f),
    ensures
        b[pos] == 45 || text::is_digit(b[pos]),
        number_at(b, pos) == (Tree::Float(f), pos + f.len()),
{
    lemma_stands_index(b, pos, f, rest);
    assert(b[pos + 0] == f[0]);
    let n = f.len() as int;
    let d0 = if f[0] == 45 {
        1int
    } else {
        0
    };
    lemma_digits_end(f, d0);
    lemma_digits_end_shift(f, d0, b, pos, rest);
    let d1 = digits_end(f, d0);
    if pos + n < b.len() {
        assert(b[pos + n + 0] == rest[0]);
    }
    assert(d1 < n ==> b[pos + d1] == f[d1]);
    let fraction = d1 < n && f[d1] == 46;
    if fraction {
        lemma_digits_end(f, d1 + 1);
        lemma_digits_end_shift(f, d1 + 1, b, pos, rest);
    }
    let f1 = if fraction {
        digits_end(f, d1 + 1)
    } else {
        d1
    };
    assert(f1 < n ==> b[pos + f1] == f[f1]);
    assert(f1 + 1 < n ==> b[pos + (f1 + 1)] == f[f1 + 1]);
    let exponent = f1 < n && (f[f1] == 101 || f[f1] == 69);
    if exponent {
        let e0 = if f1 + 1 < n && (f[f1 + 1] == 43 || f[f1 + 1] == 45) {
            f1 + 2
        } else {
            f1 + 1
        };
        lemma_digits_end(f, e0);
        lemma_digits_end_shift(f, e0, b, pos, rest);
        if f1 + 1 == n && pos + n < b.len() {
            assert(b[pos + f1 + 1] == rest[0]);
        }
    }
    assert(b.subrange(pos + d0, pos + d1) =~= f.subrange(d0, d1)) by {
        assert forall|j: int| 0 <= j < d1 - d0 implies b.subrange(pos + d0, pos + d1)[j]
            == f.subrange(d0, d1)[j] by {
            assert(b[pos + (d0 + j)] == f[d0 + j]);
        }
    }
}

/// A value that printing and parsing preserve: texts are well-formed UTF-8, number texts are
/// such as the parser keeps, and the names of an object are in increasing order.
pub open spec fn printable(t: Tree<Seq<u8>>) -> bool
    decreases t,
{
    match t {
        Tree::Float(f) => is_float_text(f),
        Tree::Str(s) => vstd::utf8::valid_utf8(s),
        Tree::Array(items) => forall|i: int| 0 <= i < items.len() ==> printable(#[trigger] items[i]),
        Tree::Object(fields) => field_map::sorted(fields) && forall|i: int|
            0 <= i < fields.len() ==> vstd::utf8::valid_utf8((#[trigger] fields[i]).0)
                && printable(fields[i].1),
        _ => true,
    }
}

#[verifier::spinoff_prover]
#[verifier::rlimit(30)]
proof fn lemma_number_ascii(f: Seq<u8>)
    requires
        is_float_text(f),
    ensures
        forall|i: int| 0 <= i < f.len() ==> f[i] < 0x80,
{
    let d0 = if f[0] == 45 {
        1int
    } else {
        0
    };
    lemma_digits_end(f, d0);
    let d1 = digits_end(f, d0);
    let fraction = d1 < f.len() && f[d1] == 46;
    if fraction {
        lemma_digits_end(f, d1 + 1);
    }
    let f1 = if fraction {
        digits_end(f, d1 + 1)
    } else {
        d1
    };
    let exponent = f1 < f.len() && (f[f1] == 101 || f[f1] == 69);
    if exponent {
        let e0 = if f1 + 1 < f.len() && (f[f1 + 1] == 43 || f[f1 + 1] == 45) {
            f1 + 2
        } else {
            f1 + 1
        };
        lemma_digits_end(f, e0);
    }
    assert forall|i: int| 0 <= i < f.len() implies f[i] < 0x80 by {
        if d0 <= i < d1 || (fraction && d1 < i < f1) {
            assert(text::is_digit(f[i]));
        } else if i > f1 + 1 {
            assert(text::is_digit(f[i]));
        } else if i == f1 + 1 && !(f[i] == 43 || f[i] == 45) {
            assert(text::is_digit(f[i]));
        }
    }
}

/// The text of a value starts with a character that no white space, comma or closing bracket
/// is, and is well-formed UTF-8.
proof fn lemma_printed_shape(t: Tree<Seq<u8>>)
    requires
        printable(t),
    ensures
        printed(t).len() > 0,
        !is_ws(printed(t)[0]),
        !closes(printed(t)),
        vstd::utf8::valid_utf8(printed(t)),
    decreases t, 0int,
{
    lemma_literals();
    match t {
        Tree::Null => {
            lemma_ascii_valid(printed(t));
        },
        Tree::Bool(_) => {
            lemma_ascii_valid(printed(t));
        },
        Tree::Int(i) => {
            let m: nat = if i < 0 {
                (-i) as nat
            } else {
                i as nat
            };
            text::lemma_dec_nat(m);
            assert forall|k: int| 0 <= k < printed(t).len() implies printed(t)[k] < 0x80 by {
                if i < 0 {
                    if k > 0 {
                        assert(text::is_digit(text::dec_nat(m)[k - 1]));
                    }
                } else {
                    assert(text::is_digit(text::dec_nat(m)[k]));
                }
            }
            assert(i >= 0 ==> text::is_digit(text::dec_nat(m)[0]));
            lemma_ascii_valid(printed(t));
        },
        Tree::Float(f) => {
            lemma_number_ascii(f);
            lemma_ascii_valid(f);
        },
        Tree::Str(s) => {
            lemma_quoted_valid(s);
        },
        Tree::Array(items) => {
            lemma_items_valid(items, items.len() as int);
            lemma_ascii_valid(seq![91u8]);
            lemma_ascii_valid(seq![93u8]);
            lemma_valid_concat(seq![91u8], printed_items(items, items.len() as int));
            lemma_valid_concat(
                seq![91u8] + printed_items(items, items.len() as int),
                seq![93u8],
            );
        },
        Tree::Object(fields) => {
            lemma_fields_valid(fields, fields.len() as int);
            lemma_ascii_valid(seq![123u8]);
            lemma_ascii_valid(seq![125u8]);
            lemma_valid_concat(seq![123u8], printed_fields(fields, fields.len() as int));
            lemma_valid_concat(
                seq![123u8] + printed_fields(fields, fields.len() as int),
                seq![125u8],
            );
        },
    }
}

proof fn lemma_quoted_valid(s: Seq<u8>)
    requires
        vstd::utf8::valid_utf8(s),
    ensures
        vstd::utf8::valid_utf8(quoted(s)),
{
    lemma_escaped_valid(s);
    lemma_ascii_valid(seq![34u8]);
    lemma_valid_concat(seq![34u8], escaped(s));
    lemma_valid_concat(seq![34u8] + escaped(s), seq![34u8]);
}

proof fn lemma_items_valid(items: Seq<Tree<Seq<u8>>>, n: int)
    requires
        0 <= n <= items.len(),
        forall|i: int| 0 <= i < items.len() ==> printable(#[trigger] items[i]),
    ensures
        vstd::utf8::valid_utf8(printed_items(items, n)),
    decreases items, n,
{
    if n > 0 {
        lemma_printed_shape(items[n - 1]);
        lemma_items_valid(items, n - 1);
        lemma_ascii_valid(seq![44u8]);
        lemma_valid_concat(printed_items(items, n - 1), seq![44u8]);
        lemma_valid_concat(printed_items(items, n - 1) + seq![44u8], printed(items[n - 1]));
    }
}

proof fn lemma_field_valid(field: (Seq<u8>, Tree<Seq<u8>>))
    requires
        vstd::utf8::valid_utf8(field.0),
        vstd::utf8::valid_utf8(printed(field.1)),
    ensures
        vstd::utf8::valid_utf8(printed_field(field)),
{
    lemma_quoted_valid(field.0);
    lemma_ascii_valid(seq![58u8]);
    lemma_valid_concat(quoted(field.0), seq![58u8]);
    lemma_valid_concat(quoted(field.0) + seq![58u8], printed(field.1));
}

proof fn lemma_fields_valid(fields: Seq<(Seq<u8>, Tree<Seq<u8>>)>, n: int)
    requires
        0 <= n <= fields.len(),
        forall|i: int|
            0 <= i < fields.len() ==> vstd::utf8::valid_utf8((#[trigger] fields[i]).0) && printable(
                fields[i].1,
            ),
    ensures
        vstd::utf8::valid_utf8(printed_fields(fields, n)),
    decreases fields, n,
{
    if n > 0 {
        let last = fields[n - 1];
        assert(decreases_to!(fields => last));
        assert(decreases_to!(fields => last.1));
        lemma_printed_shape(last.1);
        lemma_field_valid(last);
        lemma_fields_valid(fields, n - 1);
        lemma_ascii_valid(seq![44u8]);
        lemma_valid_concat(printed_fields(fields, n - 1), seq![44u8]);
        lemma_valid_concat(printed_fields(fields, n - 1) + seq![44u8], printed_field(last));
    }
}

/// The text of the elements from position `k` on, with commas between them.
spec fn items_from(items: Seq<Tree<Seq<u8>>>, k: int) -> Seq<u8>
    decreases items.len() - k,
{
    if k < 0 || k >= items.len() {
        Seq::empty()
    } else if k + 1 == items.len() {
        printed(items[k])
    } else {
        printed(items[k]) + seq![44u8] + items_from(items, k + 1)
    }
}

proof fn lemma_items_from(items: Seq<Tree<Seq<u8>>>, k: int)
    requires
        1 <= k <= items.len(),
    ensures
        items_from(items, 0) == printed_items(items, k) + if k == items.len() {
            Seq::empty()
        } else {
            seq![44u8] + items_from(items, k)
        },
    decreases k,
{
    if k == 1 {
        assert(items_from(items, 0) =~= printed_items(items, 1) + if k == items.len() {
            Seq::empty()
        } else {
            seq![44u8] + items_from(items, k)
        });
    } else {
        lemma_items_from(items, k - 1);
        assert(items_from(items, 0) =~= printed_items(items, k) + if k == items.len() {
            Seq::empty()
        } else {
            seq![44u8] + items_from(items, k)
        });
    }
}

/// The text of the fields from position `k` on, with commas between them.
spec fn fields_from(fields: Seq<(Seq<u8>, Tree<Seq<u8>>)>, k: int) -> Seq<u8>
    decreases fields.len() - k,
{
    if k < 0 || k >= fields.len() {
        Seq::empty()
    } else if k + 1 == fields.len() {
        printed_field(fields[k])
    } else {
        printed_field(fields[k]) + seq![44u8] + fields_from(fields, k + 1)
    }
}

proof fn lemma_fields_from(fields: Seq<(Seq<u8>, Tree<Seq<u8>>)>, k: int)
    requires
        1 <= k <= fields.len(),
    ensures
        fields_from(fields, 0) == printed_fields(fields, k) + if k == fields.len() {
            Seq::empty()
        } else {
            seq![44u8] + fields_from(fields, k)
        },
    decreases k,
{
    if k > 1 {
        lemma_fields_from(fields, k - 1);
    }
    assert(fields_from(fields, 0) =~= printed_fields(fields, k) + if k == fields.len() {
        Seq::empty()
    } else {
        seq![44u8] + fields_from(fields, k)
    });
}

proof fn lemma_items_from_valid(items: Seq<Tree<Seq<u8>>>, k: int)
    requires
        0 <= k <= items.len(),
        forall|i: int| 0 <= i < items.len() ==> printable(#[trigger] items[i]),
    ensures
        vstd::utf8::valid_utf8(items_from(items, k)),
    decreases items.len() - k,
{
    if k < items.len() {
        lemma_printed_shape(items[k]);
        lemma_items_from_valid(items, k + 1);
        lemma_ascii_valid(seq![44u8]);
        lemma_valid_concat(printed(items[k]), seq![44u8]);
        lemma_valid_concat(printed(items[k]) + seq![44u8], items_from(items, k + 1));
    }
}

proof fn lemma_fields_from_valid(fields: Seq<(Seq<u8>, Tree<Seq<u8>>)>, k: int)
    requires
        0 <= k <= fields.len(),
        forall|i: int|
            0 <= i < fields.len() ==> vstd::utf8::valid_utf8((#[trigger] fields[i]).0) && printable(
                fields[i].1,
            ),
    ensures
        vstd::utf8::valid_utf8(fields_from(fields, k)),
    decreases fields.len() - k,
{
    if k < fields.len() {
        lemma_printed_shape(fields[k].1);
        lemma_field_valid(fields[k]);
        lemma_fields_from_valid(fields, k + 1);
        lemma_ascii_valid(seq![44u8]);
        lemma_valid_concat(printed_field(fields[k]), seq![44u8]);
        lemma_valid_concat(printed_field(fields[k]) + seq![44u8], fields_from(fields, k + 1));
    }
}

/// A printed value is read back, wherever it stands.
proof fn lemma_read_value(t: Tree<Seq<u8>>, b: Seq<u8>, pos: int, rest: Seq<u8>)
    requires
        printable(t),
        stands(b, pos, printed(t), rest),
        closes(rest),
        vstd::utf8::valid_utf8(rest),
    ensures
        value_at(b, pos) == (t, pos + printed(t).len()),
    decreases t, 0int, 0int,
{
    lemma_literals();
    lemma_printed_shape(t);
    lemma_stands_index(b, pos, printed(t), rest);
    assert(b[pos + 0] == printed(t)[0]);
    assert(skip_ws(b, pos) == pos);
    match t {
        Tree::Null => {
            assert(b.subrange(pos, pos + 4) =~= text::lit("null"));
        },
        Tree::Bool(v) => {
            if v {
                assert(b.subrange(pos, pos + 4) =~= text::lit("true"));
            } else {
                assert(b.subrange(pos, pos + 5) =~= text::lit("false"));
            }
        },
        Tree::Int(i) => {
            lemma_read_int(b, pos, i, rest);
            lemma_no_words(b, pos);
        },
        Tree::Float(f) => {
            lemma_read_float(b, pos, f, rest);
            lemma_no_words(b, pos);
        },
        Tree::Str(s) => {
            lemma_read_string(b, pos, s, rest);
        },
        Tree::Array(items) => {
            let n = items.len() as int;
            if n == 0 {
                assert(printed(t) =~= seq![91u8, 93u8]);
                assert(b[pos + 1] == printed(t)[1]);
                assert(skip_ws(b, pos + 1) == pos + 1);
                assert(items =~= Seq::empty());
            } else {
                lemma_items_from(items, n);
                assert(items_from(items, 0) + Seq::<u8>::empty() =~= items_from(items, 0));
                assert(printed(t) =~= seq![91u8] + (items_from(items, 0) + seq![93u8]));
                lemma_stands_split(b, pos, seq![91u8], items_from(items, 0) + seq![93u8], rest);
                lemma_stands_index(b, pos + 1, items_from(items, 0) + seq![93u8], rest);
                lemma_printed_shape(items[0]);
                assert(b[pos + 1 + 0] == (items_from(items, 0) + seq![93u8])[0]);
                assert(items_from(items, 0)[0] == printed(items[0])[0]);
                assert(skip_ws(b, pos + 1) == pos + 1);
                assert(items.take(0) =~= Seq::empty());
                lemma_read_elements(items, 0, b, pos + 1, rest);
            }
        },
        Tree::Object(fields) => {
            let n = fields.len() as int;
            if n == 0 {
                assert(printed(t) =~= seq![123u8, 125u8]);
                assert(b[pos + 1] == printed(t)[1]);
                assert(skip_ws(b, pos + 1) == pos + 1);
                assert(fields =~= Seq::empty());
            } else {
                lemma_fields_from(fields, n);
                assert(fields_from(fields, 0) + Seq::<u8>::empty() =~= fields_from(fields, 0));
                assert(printed(t) =~= seq![123u8] + (fields_from(fields, 0) + seq![125u8]));
                lemma_stands_split(b, pos, seq![123u8], fields_from(fields, 0) + seq![125u8], rest);
                lemma_stands_index(b, pos + 1, fields_from(fields, 0) + seq![125u8], rest);
                assert(b[pos + 1 + 0] == (fields_from(fields, 0) + seq![125u8])[0]);
                assert(printed_field(fields[0])[0] == 34);
                assert(fields_from(fields, 0)[0] == 34);
                assert(skip_ws(b, pos + 1) == pos + 1);
                assert(fields.take(0) =~= Seq::empty());
                lemma_read_members(fields, 0, b, pos + 1, rest);
            }
        },
    }
}

proof fn lemma_no_words(b: Seq<u8>, pos: int)
    requires
        0 <= pos < b.len(),
        b[pos] == 45 || text::is_digit(b[pos]),
    ensures
        !word_at(b, pos, text::lit("true")),
        !word_at(b, pos, text::lit("false")),
        !word_at(b, pos, text::lit("null")),
{
    lemma_literals();
    if word_at(b, pos, text::lit("true")) {
        assert(b.subrange(pos, pos + 4)[0] == b[pos]);
    }
    if word_at(b, pos, text::lit("false")) {
        assert(b.subrange(pos, pos + 5)[0] == b[pos]);
    }
    if word_at(b, pos, text::lit("null")) {
        assert(b.subrange(pos, pos + 4)[0] == b[pos]);
    }
}

proof fn lemma_read_elements(items: Seq<Tree<Seq<u8>>>, k: int, b: Seq<u8>, pos: int, rest: Seq<u8>)
    requires
        0 <= k < items.len(),
        forall|i: int| 0 <= i < items.len() ==> printable(#[trigger] items[i]),
        stands(b, pos, items_from(items, k) + seq![93u8], rest),
        vstd::utf8::valid_utf8(rest),
    ensures
        elements_at(b, pos, items.take(k)) == (
            Tree::Array(items),
            pos + items_from(items, k).len() + 1,
        ),
    decreases items, 1int, items.len() - k,
{
    let here = printed(items[k]);
    assert(items.take(k).push(items[k]) =~= items.take(k + 1));
    lemma_ascii_valid(seq![93u8]);
    lemma_ascii_valid(seq![44u8]);
    if k + 1 == items.len() {
        lemma_stands_split(b, pos, here, seq![93u8], rest);
        lemma_valid_concat(seq![93u8], rest);
        lemma_read_value(items[k], b, pos, seq![93u8] + rest);
        lemma_stands_index(b, pos, here, seq![93u8] + rest);
        let e = pos + here.len();
        assert(b[e + 0] == (seq![93u8] + rest)[0]);
        assert(skip_ws(b, e) == e);
        assert(items.take(k + 1) =~= items);
    } else {
        let more = items_from(items, k + 1) + seq![93u8];
        assert(items_from(items, k) + seq![93u8] =~= here + (seq![44u8] + more));
        lemma_stands_split(b, pos, here, seq![44u8] + more, rest);
        lemma_items_from_valid(items, k + 1);
        lemma_valid_concat(items_from(items, k + 1), seq![93u8]);
        lemma_valid_concat(seq![44u8], more);
        lemma_valid_concat(seq![44u8] + more, rest);
        lemma_read_value(items[k], b, pos, (seq![44u8] + more) + rest);
        lemma_stands_index(b, pos, here, (seq![44u8] + more) + rest);
        let e = pos + here.len();
        assert(b[e + 0] == ((seq![44u8] + more) + rest)[0]);
        assert(skip_ws(b, e) == e);
        lemma_stands_split(b, e, seq![44u8], more, rest);
        lemma_read_elements(items, k + 1, b, e + 1, rest);
    }
}

proof fn lemma_put_last(fields: Seq<(Seq<u8>, Tree<Seq<u8>>)>, k: int)
    requires
        field_map::sorted(fields),
        0 <= k < fields.len(),
    ensures
        field_map::put(fields.take(k), fields[k].0, fields[k].1) == fields.take(k + 1),
{
    let acc = fields.take(k);
    assert forall|i: int, j: int| 0 <= i < j < acc.len() implies text::lex_order(
        #[trigger] acc[i].0,
        #[trigger] acc[j].0,
    ) < 0 by {
        assert(acc[i] == fields[i] && acc[j] == fields[j]);
    }
    assert forall|i: int| 0 <= i < k implies text::lex_order(#[trigger] acc[i].0, fields[k].0)
        < 0 by {
        assert(acc[i] == fields[i]);
    }
    field_map::lemma_slot_unique(acc, fields[k].0, k);
    assert(field_map::put(acc, fields[k].0, fields[k].1) =~= fields.take(k + 1));
}

proof fn lemma_read_members(
    fields: Seq<(Seq<u8>, Tree<Seq<u8>>)>,
    k: int,
    b: Seq<u8>,
    pos: int,
    rest: Seq<u8>,
)
    requires
        0 <= k < fields.len(),
        field_map::sorted(fields),
        forall|i: int|
            0 <= i < fields.len() ==> vstd::utf8::valid_utf8((#[trigger] fields[i]).0) && printable(
                fields[i].1,
            ),
        stands(b, pos, fields_from(fields, k) + seq![125u8], rest),
        vstd::utf8::valid_utf8(rest),
    ensures
        members_at(b, pos, fields.take(k)) == (
            Tree::Object(fields),
            pos + fields_from(fields, k).len() + 1,
        ),
    decreases fields, 1int, fields.len() - k,
{
    let name = fields[k].0;
    let value = fields[k].1;
    let here = printed_field(fields[k]);
    assert(decreases_to!(fields => fields[k]));
    assert(decreases_to!(fields => fields[k].1));
    lemma_put_last(fields, k);
    lemma_ascii_valid(seq![125u8]);
    lemma_ascii_valid(seq![44u8]);
    lemma_ascii_valid(seq![58u8]);
    lemma_printed_shape(value);
    let last = k + 1 == fields.len();
    let more = if last {
        seq![125u8]
    } else {
        seq![44u8] + (fields_from(fields, k + 1) + seq![125u8])
    };
    lemma_fields_from_valid(fields, k + 1);
    lemma_valid_concat(fields_from(fields, k + 1), seq![125u8]);
    lemma_valid_concat(seq![44u8], fields_from(fields, k + 1) + seq![125u8]);
    lemma_valid_concat(more, rest);
    let after = more + rest;
    assert(fields_from(fields, k) + seq![125u8] =~= here + more);
    lemma_stands_split(b, pos, here, more, rest);
    // The name.
    assert(here =~= quoted(name) + (seq![58u8] + printed(value)));
    lemma_stands_split(b, pos, quoted(name), seq![58u8] + printed(value), after);
    lemma_valid_concat(seq![58u8], printed(value));
    lemma_valid_concat(seq![58u8] + printed(value), after);
    lemma_read_string(b, pos, name, (seq![58u8] + printed(value)) + after);
    assert(skip_ws(b, pos) == pos);
    let c = pos + quoted(name).len();
    lemma_stands_split(b, c, seq![58u8], printed(value), after);
    lemma_stands_index(b, c, seq![58u8], printed(value) + after);
    assert(b[c + 0] == seq![58u8][0]);
    assert(skip_ws(b, c) == c);
    // The value.
    lemma_read_value(value, b, c + 1, after);
    lemma_stands_index(b, c + 1, printed(value), after);
    let e = c + 1 + printed(value).len();
    assert(b[e + 0] == after[0]);
    assert(skip_ws(b, e) == e);
    if last {
        assert(fields.take(k + 1) =~= fields);
    } else {
        lemma_stands_split(
            b,
            e,
            seq![44u8],
            fields_from(fields, k + 1) + seq![125u8],
            rest,
        );
        lemma_read_members(fields, k + 1, b, e + 1, rest);
    }
}

/// What was printed is read back: parsing the text of a value gives the value, and the whole
/// text is consumed. It holds of every value whose texts are well-formed UTF-8 and whose number
/// texts are such as the parser keeps.
pub proof fn law_print_parse(t: Tree<Seq<u8>>)
    requires
        printable(t),
    ensures
        value_at(printed(t), 0) == (t, printed(t).len() as int),
{
    let b = printed(t);
    assert(b.subrange(0, b.len() as int) =~= b + Seq::<u8>::empty());
    lemma_ascii_valid(Seq::empty());
    lemma_read_value(t, b, 0, Seq::empty());
}

// ---------------------------------------------------------------------------
// White space
// ---------------------------------------------------------------------------

/// Only spaces, tabs, line feeds and carriage returns.
pub open spec fn blank(gap: Seq<u8>) -> bool {
    forall|i: int|
        0 <= i < gap.len() ==> (#[trigger] gap[i] == 32 || gap[i] == 9 || gap[i] == 10 || gap[i]
            == 13)
}

/// A document with gaps between its tokens. The gap of an array or object is what stands between
/// the brackets where there is nothing else.
pub ghost enum Spaced {
    Token(Tree<Seq<u8>>),
    Array(Seq<u8>, Seq<SpacedItem>),
    Object(Seq<u8>, Seq<SpacedField>),
}

/// An element of an array with the gaps around it.
pub ghost struct SpacedItem {
    pub before: Seq<u8>,
    pub value: Spaced,
    pub after: Seq<u8>,
}

/// A field of an object with the gaps around its name, its colon and its value.
pub ghost struct SpacedField {
    pub before: Seq<u8>,
    pub name: Seq<u8>,
    pub after_name: Seq<u8>,
    pub before_value: Seq<u8>,
    pub value: Spaced,
    pub after: Seq<u8>,
}

/// The document without its gaps.
pub open spec fn document(s: Spaced) -> Tree<Seq<u8>>
    decreases s,
{
    match s {
        Spaced::Token(t) => t,
        Spaced::Array(_, items) => Tree::Array(
            Seq::new(
                items.len(),
                |i: int|
                    if 0 <= i < items.len() {
                        document(items[i].value)
                    } else {
                        Tree::Null
                    },
            ),
        ),
        Spaced::Object(_, fields) => Tree::Object(
            Seq::new(
                fields.len(),
                |i: int|
                    if 0 <= i < fields.len() {
                        (fields[i].name, document(fields[i].value))
                    } else {
                        (Seq::empty(), Tree::Null)
                    },
            ),
        ),
    }
}

/// Every gap is white space, and the tokens are single ones.
pub open spec fn gaps_are_blank(s: Spaced) -> bool
    decreases s,
{
    match s {
        Spaced::Token(t) => !(t is Array) && !(t is Object),
        Spaced::Array(gap, items) => blank(gap) && forall|i: int|
            0 <= i < items.len() ==> {
                &&& blank((#[trigger] items[i]).before)
                &&& blank(items[i].after)
                &&& gaps_are_blank(items[i].value)
            },
        Spaced::Object(gap, fields) => blank(gap) && forall|i: int|
            0 <= i < fields.len() ==> {
                &&& blank((#[trigger] fields[i]).before)
                &&& blank(fields[i].after_name)
                &&& blank(fields[i].before_value)
                &&& blank(fields[i].after)
                &&& gaps_are_blank(fields[i].value)
            },
    }
}

/// The text of a document with its gaps.
pub open spec fn spaced_text(s: Spaced) -> Seq<u8>
    decreases s, 0int,
{
    match s {
        Spaced::Token(t) => printed(t),
        Spaced::Array(gap, items) => seq![91u8] + if items.len() == 0 {
            gap + seq![93u8]
        } else {
            items[0].before + items_tail(items, 0)
        },
        Spaced::Object(gap, fields) => seq![123u8] + if fields.len() == 0 {
            gap + seq![125u8]
        } else {
            fields[0].before + fields_tail(fields, 0)
        },
    }
}

/// The text of an array from the value of element `k` on.
pub open spec fn items_tail(items: Seq<SpacedItem>, k: int) -> Seq<u8>
    decreases items, items.len() - k,
{
    if k < 0 || k >= items.len() {
        Seq::empty()
    } else {
        proof {
            assert(decreases_to!(items => items[k]));
            assert(decreases_to!(items => items[k].value));
        }
        spaced_text(items[k].value) + (items[k].after + if k + 1 == items.len() {
            seq![93u8]
        } else {
            seq![44u8] + (items[k + 1].before + items_tail(items, k + 1))
        })
    }
}

/// The text of an object from the name of field `k` on.
pub open spec fn fields_tail(fields: Seq<SpacedField>, k: int) -> Seq<u8>
    decreases fields, fields.len() - k,
{
    if k < 0 || k >= fields.len() {
        Seq::empty()
    } else {
        proof {
            assert(decreases_to!(fields => fields[k]));
            assert(decreases_to!(fields => fields[k].value));
        }
        quoted(fields[k].name) + (fields[k].after_name + (seq![58u8] + (fields[k].before_value + (
        spaced_text(fields[k].value) + (fields[k].after + if k + 1 == fields.len() {
            seq![125u8]
        } else {
            seq![44u8] + (fields[k + 1].before + fields_tail(fields, k + 1))
        })))))
    }
}

proof fn lemma_blank_valid(gap: Seq<u8>, more: Seq<u8>)
    requires
        blank(gap),
        vstd::utf8::valid_utf8(more),
    ensures
        vstd::utf8::valid_utf8(gap + more),
{
    assert forall|i: int| 0 <= i < gap.len() implies gap[i] < 0x80 by {
        assert(gap[i] == 32 || gap[i] == 9 || gap[i] == 10 || gap[i] == 13);
    }
    lemma_ascii_valid(gap);
    lemma_valid_concat(gap, more);
}

proof fn lemma_byte_valid(c: u8, more: Seq<u8>)
    requires
        c < 0x80,
        vstd::utf8::valid_utf8(more),
    ensures
        vstd::utf8::valid_utf8(seq![c] + more),
{
    lemma_ascii_valid(seq![c]);
    lemma_valid_concat(seq![c], more);
}

/// The text of a document with gaps is well-formed, and starts with its first token.
proof fn lemma_spaced_shape(s: Spaced)
    requires
        gaps_are_blank(s),
        printable(document(s)),
    ensures
        spaced_text(s).len() > 0,
        !is_ws(spaced_text(s)[0]),
        !closes(spaced_text(s)),
        vstd::utf8::valid_utf8(spaced_text(s)),
    decreases s, 0int,
{
    lemma_ascii_valid(Seq::empty());
    match s {
        Spaced::Token(t) => {
            lemma_printed_shape(t);
        },
        Spaced::Array(gap, items) => {
            if items.len() == 0 {
                lemma_ascii_valid(seq![93u8]);
                lemma_blank_valid(gap, seq![93u8]);
                lemma_byte_valid(91, gap + seq![93u8]);
            } else {
                assert forall|i: int| 0 <= i < items.len() implies printable(
                    document((#[trigger] items[i]).value),
                ) by {
                    assert(document(s)->Array_0[i] == document(items[i].value));
                }
                lemma_items_tail(items, 0);
                lemma_blank_valid(items[0].before, items_tail(items, 0));
                lemma_byte_valid(91, items[0].before + items_tail(items, 0));
            }
        },
        Spaced::Object(gap, fields) => {
            if fields.len() == 0 {
                lemma_ascii_valid(seq![125u8]);
                lemma_blank_valid(gap, seq![125u8]);
                lemma_byte_valid(123, gap + seq![125u8]);
            } else {
                assert forall|i: int| 0 <= i < fields.len() implies vstd::utf8::valid_utf8(
                    (#[trigger] fields[i]).name,
                ) && printable(document(fields[i].value)) by {
                    assert(document(s)->Object_0[i] == (
                        fields[i].name,
                        document(fields[i].value),
                    ));
                }
                lemma_fields_tail(fields, 0);
                lemma_blank_valid(fields[0].before, fields_tail(fields, 0));
                lemma_byte_valid(123, fields[0].before + fields_tail(fields, 0));
            }
        },
    }
}

proof fn lemma_items_tail(items: Seq<SpacedItem>, k: int)
    requires
        0 <= k < items.len(),
        forall|i: int|
            0 <= i < items.len() ==> {
                &&& blank((#[trigger] items[i]).before)
                &&& blank(items[i].after)
                &&& gaps_are_blank(items[i].value)
                &&& printable(document(items[i].value))
            },
    ensures
        items_tail(items, k).len() > 0,
        !is_ws(items_tail(items, k)[0]),
        !closes(items_tail(items, k)),
        vstd::utf8::valid_utf8(items_tail(items, k)),
    decreases items, items.len() - k,
{
    assert(decreases_to!(items => items[k]));
    assert(decreases_to!(items => items[k].value));
    lemma_spaced_shape(items[k].value);
    let next = if k + 1 == items.len() {
        seq![93u8]
    } else {
        seq![44u8] + (items[k + 1].before + items_tail(items, k + 1))
    };
    if k + 1 == items.len() {
        lemma_ascii_valid(next);
    } else {
        lemma_items_tail(items, k + 1);
        lemma_blank_valid(items[k + 1].before, items_tail(items, k + 1));
        lemma_byte_valid(44, items[k + 1].before + items_tail(items, k + 1));
    }
    lemma_blank_valid(items[k].after, next);
    lemma_valid_concat(spaced_text(items[k].value), items[k].after + next);
}

proof fn lemma_fields_tail(fields: Seq<SpacedField>, k: int)
    requires
        0 <= k < fields.len(),
        forall|i: int|
            0 <= i < fields.len() ==> {
                &&& blank((#[trigger] fields[i]).before)
                &&& blank(fields[i].after_name)
                &&& blank(fields[i].before_value)
                &&& blank(fields[i].after)
                &&& gaps_are_blank(fields[i].value)
                &&& vstd::utf8::valid_utf8(fields[i].name)
                &&& printable(document(fields[i].value))
            },
    ensures
        fields_tail(fields, k).len() > 0,
        fields_tail(fields, k)[0] == 34,
        vstd::utf8::valid_utf8(fields_tail(fields, k)),
    decreases fields, fields.len() - k,
{
    assert(decreases_to!(fields => fields[k]));
    assert(decreases_to!(fields => fields[k].value));
    let f = fields[k];
    lemma_spaced_shape(f.value);
    let next = if k + 1 == fields.len() {
        seq![125u8]
    } else {
        seq![44u8] + (fields[k + 1].before + fields_tail(fields, k + 1))
    };
    if k + 1 == fields.len() {
        lemma_ascii_valid(next);
    } else {
        lemma_fields_tail(fields, k + 1);
        lemma_blank_valid(fields[k + 1].before, fields_tail(fields, k + 1));
        lemma_byte_valid(44, fields[k + 1].before + fields_tail(fields, k + 1));
    }
    let value = spaced_text(f.value) + (f.after + next);
    lemma_blank_valid(f.after, next);
    lemma_valid_concat(spaced_text(f.value), f.after + next);
    lemma_blank_valid(f.before_value, value);
    lemma_byte_valid(58, f.before_value + value);
    lemma_blank_valid(f.after_name, seq![58u8] + (f.before_value + value));
    lemma_quoted_valid(f.name);
    lemma_valid_concat(quoted(f.name), f.after_name + (seq![58u8] + (f.before_value + value)));
    assert(fields_tail(fields, k)[0] == quoted(f.name)[0]);
}

/// White space is skipped up to the next other byte.
proof fn lemma_skip_gap(b: Seq<u8>, pos: int, gap: Seq<u8>, rest: Seq<u8>)
    requires
        stands(b, pos, gap, rest),
        blank(gap),
        rest.len() > 0 ==> rest[0] != 32 && rest[0] != 9 && rest[0] != 10 && rest[0] != 13,
    ensures
        skip_ws(b, pos) == pos + gap.len(),
        skip_ws(b, pos + gap.len()) == pos + gap.len(),
        stands(b, pos + gap.len(), rest, Seq::empty()),
        rest.len() > 0 ==> pos + gap.len() < b.len() && b[pos + gap.len()] == rest[0],
        pos + gap.len() + rest.len() == b.len(),
    decreases gap.len(),
{
    lemma_stands_index(b, pos, gap, rest);
    if rest.len() > 0 {
        assert(b[pos + gap.len() + 0] == rest[0]);
    }
    if gap.len() > 0 {
        let more = gap.drop_first();
        assert(gap =~= seq![gap[0]] + more);
        lemma_stands_split(b, pos, seq![gap[0]], more, rest);
        assert forall|i: int| 0 <= i < more.len() implies #[trigger] more[i] == 32 || more[i] == 9
            || more[i] == 10 || more[i] == 13 by {
            assert(more[i] == gap[i + 1]);
        }
        lemma_skip_gap(b, pos + 1, more, rest);
        assert(b[pos + 0] == gap[0]);
    }
}

/// A document with gaps is read, wherever it stands.
proof fn lemma_read_spaced(s: Spaced, b: Seq<u8>, pos: int, rest: Seq<u8>)
    requires
        gaps_are_blank(s),
        printable(document(s)),
        stands(b, pos, spaced_text(s), rest),
        closes(rest),
        vstd::utf8::valid_utf8(rest),
    ensures
        value_at(b, pos) == (document(s), pos + spaced_text(s).len()),
    decreases s, 0int, 0int,
{
    match s {
        Spaced::Token(t) => {
            lemma_read_value(t, b, pos, rest);
        },
        Spaced::Array(gap, items) => {
            let inner = if items.len() == 0 {
                gap + seq![93u8]
            } else {
                items[0].before + items_tail(items, 0)
            };
            let docs = document(s)->Array_0;
            lemma_stands_split(b, pos, seq![91u8], inner, rest);
            lemma_stands_index(b, pos, seq![91u8], inner + rest);
            assert(b[pos + 0] == seq![91u8][0]);
            assert(skip_ws(b, pos) == pos);
            assert(docs.take(0) =~= Seq::empty());
            if items.len() == 0 {
                lemma_stands_split(b, pos + 1, gap, seq![93u8], rest);
                lemma_skip_gap(b, pos + 1, gap, seq![93u8] + rest);
                assert(docs =~= Seq::empty());
            } else {
                assert forall|i: int| 0 <= i < items.len() implies printable(
                    document((#[trigger] items[i]).value),
                ) by {
                    assert(docs[i] == document(items[i].value));
                }
                lemma_items_tail(items, 0);
                lemma_stands_split(b, pos + 1, items[0].before, items_tail(items, 0), rest);
                lemma_skip_gap(b, pos + 1, items[0].before, items_tail(items, 0) + rest);
                let q = pos + 1 + items[0].before.len();
                assert(Seq::<u8>::empty() + items_tail(items, 0) =~= items_tail(items, 0));
                lemma_read_spaced_items(items, docs, 0, b, q, Seq::empty(), rest);
                assert(b[q] != 93);
            }
        },
        Spaced::Object(gap, fields) => {
            let inner = if fields.len() == 0 {
                gap + seq![125u8]
            } else {
                fields[0].before + fields_tail(fields, 0)
            };
            let docs = document(s)->Object_0;
            lemma_stands_split(b, pos, seq![123u8], inner, rest);
            lemma_stands_index(b, pos, seq![123u8], inner + rest);
            assert(b[pos + 0] == seq![123u8][0]);
            assert(skip_ws(b, pos) == pos);
            assert(docs.take(0) =~= Seq::empty());
            if fields.len() == 0 {
                lemma_stands_split(b, pos + 1, gap, seq![125u8], rest);
                lemma_skip_gap(b, pos + 1, gap, seq![125u8] + rest);
                assert(docs =~= Seq::empty());
            } else {
                assert forall|i: int| 0 <= i < fields.len() implies vstd::utf8::valid_utf8(
                    (#[trigger] fields[i]).name,
                ) && printable(document(fields[i].value)) by {
                    assert(docs[i] == (fields[i].name, document(fields[i].value)));
                }
                lemma_fields_tail(fields, 0);
                lemma_stands_split(b, pos + 1, fields[0].before, fields_tail(fields, 0), rest);
                lemma_skip_gap(b, pos + 1, fields[0].before, fields_tail(fields, 0) + rest);
                let q = pos + 1 + fields[0].before.len();
                assert(Seq::<u8>::empty() + fields_tail(fields, 0) =~= fields_tail(fields, 0));
                lemma_read_spaced_fields(fields, docs, 0, b, q, Seq::empty(), rest);
                assert(b[q] == 34);
            }
        },
    }
}

proof fn lemma_read_spaced_items(
    items: Seq<SpacedItem>,
    docs: Seq<Tree<Seq<u8>>>,
    k: int,
    b: Seq<u8>,
    pos: int,
    gap: Seq<u8>,
    rest: Seq<u8>,
)
    requires
        0 <= k < items.len(),
        docs.len() == items.len(),
        blank(gap),
        forall|i: int|
            0 <= i < items.len() ==> {
                &&& blank((#[trigger] items[i]).before)
                &&& blank(items[i].after)
                &&& gaps_are_blank(items[i].value)
                &&& printable(document(items[i].value))
                &&& docs[i] == document(items[i].value)
            },
        stands(b, pos, gap + items_tail(items, k), rest),
        vstd::utf8::valid_utf8(rest),
    ensures
        elements_at(b, pos, docs.take(k)) == (
            Tree::Array(docs),
            pos + gap.len() + items_tail(items, k).len(),
        ),
    decreases items, 1int, items.len() - k,
{
    assert(decreases_to!(items => items[k]));
    assert(decreases_to!(items => items[k].value));
    let v = items[k].value;
    let head = spaced_text(v);
    let last = k + 1 == items.len();
    let next = if last {
        seq![93u8]
    } else {
        seq![44u8] + (items[k + 1].before + items_tail(items, k + 1))
    };
    let after = items[k].after + next;
    assert(items_tail(items, k) == head + after);
    lemma_items_tail(items, k);
    lemma_spaced_shape(v);
    if last {
        lemma_ascii_valid(next);
    } else {
        lemma_items_tail(items, k + 1);
        lemma_blank_valid(items[k + 1].before, items_tail(items, k + 1));
        lemma_byte_valid(44, items[k + 1].before + items_tail(items, k + 1));
    }
    lemma_blank_valid(items[k].after, next);
    lemma_valid_concat(after, rest);
    // The gap.
    lemma_stands_split(b, pos, gap, head + after, rest);
    lemma_skip_gap(b, pos, gap, (head + after) + rest);
    let p1 = pos + gap.len();
    // The value.
    lemma_stands_split(b, p1, head, after, rest);
    if items[k].after.len() > 0 {
        assert((after + rest)[0] == items[k].after[0]);
    } else {
        assert((after + rest)[0] == next[0]);
    }
    lemma_read_spaced(v, b, p1, after + rest);
    assert(value_at(b, pos) == value_at(b, p1));
    let p2 = p1 + head.len();
    // What follows it.
    lemma_stands_split(b, p2, items[k].after, next, rest);
    lemma_skip_gap(b, p2, items[k].after, next + rest);
    let p3 = p2 + items[k].after.len();
    assert(b[p3] == next[0]);
    assert(docs.take(k).push(docs[k]) =~= docs.take(k + 1));
    if last {
        assert(docs.take(k + 1) =~= docs);
    } else {
        lemma_stands_split(
            b,
            p3,
            seq![44u8],
            items[k + 1].before + items_tail(items, k + 1),
            rest,
        );
        lemma_read_spaced_items(items, docs, k + 1, b, p3 + 1, items[k + 1].before, rest);
    }
}

proof fn lemma_read_spaced_fields(
    fields: Seq<SpacedField>,
    docs: Seq<(Seq<u8>, Tree<Seq<u8>>)>,
    k: int,
    b: Seq<u8>,
    pos: int,
    gap: Seq<u8>,
    rest: Seq<u8>,
)
    requires
        0 <= k < fields.len(),
        docs.len() == fields.len(),
        field_map::sorted(docs),
        blank(gap),
        forall|i: int|
            0 <= i < fields.len() ==> {
                &&& blank((#[trigger] fields[i]).before)
                &&& blank(fields[i].after_name)
                &&& blank(fields[i].before_value)
                &&& blank(fields[i].after)
                &&& gaps_are_blank(fields[i].value)
                &&& vstd::utf8::valid_utf8(fields[i].name)
                &&& printable(document(fields[i].value))
                &&& docs[i] == (fields[i].name, document(fields[i].value))
            },
        stands(b, pos, gap + fields_tail(fields, k), rest),
        vstd::utf8::valid_utf8(rest),
    ensures
        members_at(b, pos, docs.take(k)) == (
            Tree::Object(docs),
            pos + gap.len() + fields_tail(fields, k).len(),
        ),
    decreases fields, 1int, fields.len() - k,
{
    assert(decreases_to!(fields => fields[k]));
    assert(decreases_to!(fields => fields[k].value));
    let f = fields[k];
    let head = spaced_text(f.value);
    let last = k + 1 == fields.len();
    let next = if last {
        seq![125u8]
    } else {
        seq![44u8] + (fields[k + 1].before + fields_tail(fields, k + 1))
    };
    let after = f.after + next;
    let value = f.before_value + (head + after);
    let colon = seq![58u8] + value;
    assert(fields_tail(fields, k) == quoted(f.name) + (f.after_name + colon));
    lemma_fields_tail(fields, k);
    lemma_spaced_shape(f.value);
    if last {
        lemma_ascii_valid(next);
    } else {
        lemma_fields_tail(fields, k + 1);
        lemma_blank_valid(fields[k + 1].before, fields_tail(fields, k + 1));
        lemma_byte_valid(44, fields[k + 1].before + fields_tail(fields, k + 1));
    }
    lemma_blank_valid(f.after, next);
    lemma_valid_concat(after, rest);
    lemma_valid_concat(head, after);
    lemma_blank_valid(f.before_value, head + after);
    lemma_byte_valid(58, value);
    lemma_blank_valid(f.after_name, colon);
    lemma_valid_concat(f.after_name + colon, rest);
    // The gap and the name.
    lemma_stands_split(b, pos, gap, fields_tail(fields, k), rest);
    lemma_skip_gap(b, pos, gap, fields_tail(fields, k) + rest);
    let p1 = pos + gap.len();
    lemma_stands_split(b, p1, quoted(f.name), f.after_name + colon, rest);
    lemma_read_string(b, p1, f.name, (f.after_name + colon) + rest);
    let p2 = p1 + quoted(f.name).len();
    // The colon.
    lemma_stands_split(b, p2, f.after_name, colon, rest);
    lemma_skip_gap(b, p2, f.after_name, colon + rest);
    let p3 = p2 + f.after_name.len();
    assert(b[p3] == 58);
    lemma_stands_split(b, p3, seq![58u8], value, rest);
    // The value.
    lemma_stands_split(b, p3 + 1, f.before_value, head + after, rest);
    lemma_skip_gap(b, p3 + 1, f.before_value, (head + after) + rest);
    let p4 = p3 + 1 + f.before_value.len();
    lemma_stands_split(b, p4, head, after, rest);
    if f.after.len() > 0 {
        assert((after + rest)[0] == f.after[0]);
    } else {
        assert((after + rest)[0] == next[0]);
    }
    lemma_read_spaced(f.value, b, p4, after + rest);
    assert(value_at(b, p3 + 1) == value_at(b, p4));
    let p5 = p4 + head.len();
    // What follows it.
    lemma_stands_split(b, p5, f.after, next, rest);
    lemma_skip_gap(b, p5, f.after, next + rest);
    let p6 = p5 + f.after.len();
    assert(b[p6] == next[0]);
    lemma_put_last(docs, k);
    if last {
        assert(docs.take(k + 1) =~= docs);
    } else {
        lemma_stands_split(
            b,
            p6,
            seq![44u8],
            fields[k + 1].before + fields_tail(fields, k + 1),
            rest,
        );
        lemma_read_spaced_fields(fields, docs, k + 1, b, p6 + 1, fields[k + 1].before, rest);
    }
}

/// White space does not matter: spaces, tabs, line feeds and carriage returns before and behind
/// every token leave what is read as it is, and the value ends where its last token does.
pub proof fn law_white_space_does_not_matter(s: Spaced, before: Seq<u8>, after: Seq<u8>)
    requires
        gaps_are_blank(s),
        printable(document(s)),
        blank(before),
        blank(after),
    ensures
        value_at(before + spaced_text(s) + after, 0) == (
            document(s),
            (before + spaced_text(s)).len() as int,
        ),
{
    let b = before + spaced_text(s) + after;
    assert(b.subrange(0, b.len() as int) =~= before + (spaced_text(s) + after));
    lemma_spaced_shape(s);
    lemma_skip_gap(b, 0, before, spaced_text(s) + after);
    let p = before.len() as int;
    assert(b.subrange(p, b.len() as int) =~= spaced_text(s) + after);
    lemma_ascii_valid(Seq::empty());
    lemma_blank_valid(after, Seq::empty());
    assert(after + Seq::<u8>::empty() =~= after);
    assert(closes(after)) by {
        if after.len() > 0 {
            assert(after[0] == 32 || after[0] == 9 || after[0] == 10 || after[0] == 13);
        }
    }
    lemma_read_spaced(s, b, p, after);
    assert(value_at(b, 0) == value_at(b, p));
}

/// The tokens of a document: the three words, brackets, commas, colons and quotes.
pub proof fn law_tokens(t: Tree<Seq<u8>>, u: Tree<Seq<u8>>, name: Seq<u8>)
    ensures
        printed(Tree::Null) == seq![110u8, 117, 108, 108],
        printed(Tree::Bool(true)) == seq![116u8, 114, 117, 101],
        printed(Tree::Bool(false)) == seq![102u8, 97, 108, 115, 101],
        printed(Tree::Array(Seq::empty())) == seq![91u8, 93],
        printed(Tree::Array(seq![t])) == seq![91u8] + printed(t) + seq![93u8],
        printed(Tree::Array(seq![t, u])) == seq![91u8] + printed(t) + seq![44u8] + printed(u)
            + seq![93u8],
        printed(Tree::Object(Seq::empty())) == seq![123u8, 125],
        printed(Tree::Object(seq![(name, t)])) == seq![123u8] + printed(Tree::Str(name))
            + seq![58u8] + printed(t) + seq![125u8],
{
    lemma_literals();
    reveal_with_fuel(printed_items, 3);
    reveal_with_fuel(printed_fields, 3);
    let one = seq![t];
    let two = seq![t, u];
    let field = seq![(name, t)];
    assert(one[0] == t && two[0] == t && two[1] == u && field[0] == (name, t));
    assert(printed_items(two, 2) =~= printed(t) + seq![44u8] + printed(u));
    assert(printed_fields(field, 1) == printed_field(field[0]));
    assert(printed_field((name, t)) == printed(Tree::Str(name)) + seq![58u8] + printed(t));
    assert(printed(Tree::Array(Seq::empty())) =~= seq![91u8, 93]);
    assert(printed(Tree::Object(Seq::empty())) =~= seq![123u8, 125]);
    assert(printed(Tree::Array(two)) =~= seq![91u8] + printed(t) + seq![44u8] + printed(u)
        + seq![93u8]);
    assert(printed(Tree::Object(field)) =~= seq![123u8] + printed(Tree::Str(name)) + seq![58u8]
        + printed(t) + seq![125u8]);
}

proof fn lemma_skip_run(b: Seq<u8>, pos: int, e: int)
    requires
        0 <= pos <= e <= b.len(),
        blank(b.subrange(pos, e)),
        e < b.len() ==> b[e] != 32 && b[e] != 9 && b[e] != 10 && b[e] != 13,
    ensures
        skip_ws(b, pos) == e,
{
    let gap = b.subrange(pos, e);
    let rest = b.subrange(e, b.len() as int);
    assert(b.subrange(pos, b.len() as int) =~= gap + rest);
    lemma_skip_gap(b, pos, gap, rest);
}

/// Behind an element of an array and white space, a comma goes on to the next one and a bracket
/// ends the array; anything else ends it too, and is left where it is.
pub proof fn law_what_follows_an_element(
    b: Seq<u8>,
    pos: int,
    acc: Seq<Tree<Seq<u8>>>,
    e: int,
)
    requires
        0 <= pos <= b.len(),
        value_at(b, pos).1 <= e <= b.len(),
        blank(b.subrange(value_at(b, pos).1, e)),
        e < b.len() ==> b[e] != 32 && b[e] != 9 && b[e] != 10 && b[e] != 13,
    ensures
        ({
            let all = acc.push(value_at(b, pos).0);
            &&& e < b.len() && b[e] == 44 ==> elements_at(b, pos, acc) == elements_at(b, e + 1, all)
            &&& e < b.len() && b[e] == 93 ==> elements_at(b, pos, acc) == (Tree::Array(all), e + 1)
            &&& e == b.len() || (b[e] != 44 && b[e] != 93) ==> elements_at(b, pos, acc) == (
                Tree::Array(all),
                e,
            )
        }),
{
    lemma_value_end(b, pos);
    lemma_skip_run(b, value_at(b, pos).1, e);
}

/// A field starts with a name in quotes and a colon, with white space around them. Where there is
/// no name the object ends before what stands there, and where there is no colon behind it.
pub proof fn law_what_makes_a_field(
    b: Seq<u8>,
    pos: int,
    acc: Seq<(Seq<u8>, Tree<Seq<u8>>)>,
    q: int,
    c: int,
)
    requires
        0 <= pos <= q <= b.len(),
        blank(b.subrange(pos, q)),
        q < b.len() ==> b[q] != 32 && b[q] != 9 && b[q] != 10 && b[q] != 13,
    ensures
        q == b.len() || b[q] != 34 ==> members_at(b, pos, acc) == (Tree::Object(acc), q),
        q < b.len() && b[q] == 34 && string_at(b, q + 1).1 <= c < b.len() && blank(
            b.subrange(string_at(b, q + 1).1, c),
        ) && b[c] != 32 && b[c] != 9 && b[c] != 10 && b[c] != 13 && b[c] != 58 ==> members_at(
            b,
            pos,
            acc,
        ) == (Tree::Object(acc), c + 1),
{
    lemma_skip_run(b, pos, q);
    if q < b.len() && b[q] == 34 {
        lemma_string_end(b, q + 1);
        if string_at(b, q + 1).1 <= c < b.len() && blank(b.subrange(string_at(b, q + 1).1, c))
            && b[c] != 32 && b[c] != 9 && b[c] != 10 && b[c] != 13 && b[c] != 58 {
            lemma_skip_run(b, string_at(b, q + 1).1, c);
        }
    }
}

/// Behind a field and white space, a comma goes on to the next one and a bracket ends the object;
/// anything else ends it too, and is left where it is. The field is put among those before it.
pub proof fn law_what_follows_a_field(
    b: Seq<u8>,
    pos: int,
    acc: Seq<(Seq<u8>, Tree<Seq<u8>>)>,
    c: int,
    e: int,
)
    requires
        0 <= pos < b.len(),
        b[pos] == 34,
        string_at(b, pos + 1).1 <= c < b.len(),
        blank(b.subrange(string_at(b, pos + 1).1, c)),
        b[c] == 58,
        vstd::utf8::valid_utf8(string_at(b, pos + 1).0),
        value_at(b, c + 1).1 <= e <= b.len(),
        blank(b.subrange(value_at(b, c + 1).1, e)),
        e < b.len() ==> b[e] != 32 && b[e] != 9 && b[e] != 10 && b[e] != 13,
    ensures
        ({
            let all = field_map::put(acc, string_at(b, pos + 1).0, value_at(b, c + 1).0);
            &&& e < b.len() && b[e] == 44 ==> members_at(b, pos, acc) == members_at(b, e + 1, all)
            &&& e < b.len() && b[e] == 125 ==> members_at(b, pos, acc) == (Tree::Object(all), e + 1)
            &&& e == b.len() || (b[e] != 44 && b[e] != 125) ==> members_at(b, pos, acc) == (
                Tree::Object(all),
                e,
            )
        }),
{
    assert(b.subrange(pos, pos) =~= Seq::empty());
    lemma_skip_run(b, pos, pos);
    lemma_string_end(b, pos + 1);
    lemma_skip_run(b, string_at(b, pos + 1).1, c);
    lemma_value_end(b, c + 1);
    lemma_skip_run(b, value_at(b, c + 1).1, e);
}

/// Nothing but the four white space bytes is skipped, and a byte that starts no value is read as
/// null and left where it is.
pub proof fn law_other_bytes_start_no_value(b: Seq<u8>, pos: int)
    requires
        0 <= pos < b.len(),
        b[pos] != 32 && b[pos] != 9 && b[pos] != 10 && b[pos] != 13,
        b[pos] != 123 && b[pos] != 91 && b[pos] != 34 && b[pos] != 45,
        b[pos] != 116 && b[pos] != 102 && b[pos] != 110,
        b[pos] < 48 || b[pos] > 57,
    ensures
        value_at(b, pos) == (Tree::<Seq<u8>>::Null, pos),
{
    lemma_literals();
    if word_at(b, pos, text::lit("true")) {
        assert(b.subrange(pos, pos + 4)[0] == b[pos]);
    }
    if word_at(b, pos, text::lit("false")) {
        assert(b.subrange(pos, pos + 5)[0] == b[pos]);
    }
    if word_at(b, pos, text::lit("null")) {
        assert(b.subrange(pos, pos + 4)[0] == b[pos]);
    }
}

// ---------------------------------------------------------------------------
// Strings and numbers
// ---------------------------------------------------------------------------

/// A string without quotes and backslashes is taken as it stands up to its closing quote, and one
/// with a backslash is taken as it stands up to there.
pub proof fn law_plain_text_is_kept(b: Seq<u8>, pos: int, q: int)
    requires
        0 <= pos <= q < b.len(),
        forall|i: int| pos <= i < q ==> #[trigger] b[i] != 34 && b[i] != 92,
    ensures
        b[q] == 34 ==> string_at(b, pos) == (b.subrange(pos, q), q + 1),
        b[q] == 92 && vstd::utf8::valid_utf8(b.subrange(pos, q)) ==> string_at(b, pos) == (
            b.subrange(pos, q) + escaped_at(b, q).0,
            escaped_at(b, q).1,
        ),
{
    if b[q] == 34 || b[q] == 92 {
        lemma_plain_end_at(b, pos, q);
    }
}

/// A backslash and a letter stand for one character: a quote, a backslash and a slash for
/// themselves, and b, f, n, r and t for the control characters.
pub proof fn law_escape_letters(b: Seq<u8>, pos: int)
    requires
        0 <= pos,
        pos + 1 < b.len(),
        b[pos] == 92,
    ensures
        ({
            let here = escaped_at(b, pos);
            let rest = escaped_at(b, pos + 2);
            &&& b[pos + 1] == 34 ==> here == (seq![34u8] + rest.0, rest.1)
            &&& b[pos + 1] == 92 ==> here == (seq![92u8] + rest.0, rest.1)
            &&& b[pos + 1] == 47 ==> here == (seq![47u8] + rest.0, rest.1)
            &&& b[pos + 1] == 98 ==> here == (seq![8u8] + rest.0, rest.1)
            &&& b[pos + 1] == 102 ==> here == (seq![12u8] + rest.0, rest.1)
            &&& b[pos + 1] == 110 ==> here == (seq![10u8] + rest.0, rest.1)
            &&& b[pos + 1] == 114 ==> here == (seq![13u8] + rest.0, rest.1)
            &&& b[pos + 1] == 116 ==> here == (seq![9u8] + rest.0, rest.1)
        }),
{
}

/// Four hexadecimal digits, in either case, of which the number `n` is made.
pub open spec fn four_digits(b: Seq<u8>, pos: int, h: Seq<int>, n: int) -> bool {
    &&& 0 <= pos
    &&& pos + 4 <= b.len()
    &&& h.len() == 4
    &&& forall|i: int|
        0 <= i < 4 ==> (0 <= #[trigger] h[i] <= 9 && b[pos + i] == 48 + h[i]) || (10 <= h[i] <= 15
            && (b[pos + i] == 65 + (h[i] - 10) || b[pos + i] == 97 + (h[i] - 10)))
    &&& n == h[0] * 4096 + h[1] * 256 + h[2] * 16 + h[3]
}

proof fn lemma_four_digits(b: Seq<u8>, pos: int, h: Seq<int>, n: int)
    requires
        four_digits(b, pos, h, n),
    ensures
        hex_value(b.subrange(pos, hex_end(b, pos))) == n,
        0 <= n <= 0xFFFF,
{
    let s = b.subrange(pos, pos + 4);
    reveal_with_fuel(hex_value, 5);
    let s3 = s.drop_last();
    let s2 = s3.drop_last();
    let s1 = s2.drop_last();
    assert(0 <= h[0] && 0 <= h[1] && 0 <= h[2] && 0 <= h[3]);
    assert(s1.drop_last().len() == 0);
    assert(s1.last() == b[pos + 0] && s2.last() == b[pos + 1] && s3.last() == b[pos + 2] && s.last()
        == b[pos + 3]);
    assert(hex_value(s1) == h[0]);
    assert(hex_value(s2) == h[0] * 16 + h[1]);
    assert(hex_value(s3) == h[0] * 256 + h[1] * 16 + h[2]);
}

/// A `\u` escape stands for the character whose number its four digits are, and two of them that
/// are surrogates for the one character that the pair is.
pub proof fn law_unicode_escapes(b: Seq<u8>, pos: int, h: Seq<int>, n: int, l: Seq<int>, m: int)
    requires
        0 <= pos,
        pos + 6 <= b.len(),
        b[pos] == 92,
        b[pos + 1] == 117,
        four_digits(b, pos + 2, h, n),
    ensures
        n < 0xD800 || 0xDFFF < n ==> escaped_at(b, pos) == (
            vstd::utf8::encode_scalar(n as u32) + escaped_at(b, pos + 6).0,
            escaped_at(b, pos + 6).1,
        ),
        0xD800 <= n <= 0xDBFF && pos + 12 <= b.len() && b[pos + 6] == 92 && b[pos + 7] == 117
            && four_digits(b, pos + 8, l, m) && 0xDC00 <= m <= 0xDFFF ==> escaped_at(b, pos) == (
            vstd::utf8::encode_scalar((0x10000 + (n - 0xD800) * 1024 + (m - 0xDC00)) as u32)
                + escaped_at(b, pos + 12).0,
            escaped_at(b, pos + 12).1,
        ),
{
    reveal_with_fuel(unicode_at, 3);
    lemma_four_digits(b, pos + 2, h, n);
    if 0xD800 <= n <= 0xDBFF && pos + 12 <= b.len() && b[pos + 6] == 92 && b[pos + 7] == 117
        && four_digits(b, pos + 8, l, m) && 0xDC00 <= m <= 0xDFFF {
        lemma_four_digits(b, pos + 8, l, m);
        assert(unicode_at(b, pos + 8) == (m as u32, pos + 12));
        assert(unicode_at(b, pos + 2) == (
            (0x10000 + (n - 0xD800) * 1024 + (m - 0xDC00)) as u32,
            pos + 12,
        ));
    }
}

/// A string is printed in quotes, part by part, and every byte but the quote, the backslash and
/// the control characters stands for itself.
pub proof fn law_string_text(a: Seq<u8>, c: u8)
    ensures
        printed(Tree::Str(a)) == seq![34u8] + escaped(a) + seq![34u8],
        escaped(a.push(c)) == escaped(a) + (if c == 34 {
            seq![92u8, 34]
        } else if c == 92 {
            seq![92u8, 92]
        } else if c == 8 {
            seq![92u8, 98]
        } else if c == 9 {
            seq![92u8, 116]
        } else if c == 10 {
            seq![92u8, 110]
        } else if c == 12 {
            seq![92u8, 102]
        } else if c == 13 {
            seq![92u8, 114]
        } else if c < 32 {
            seq![
                92u8,
                117,
                48,
                48,
                (48 + c / 16) as u8,
                if c % 16 < 10 {
                    (48 + c % 16) as u8
                } else {
                    (87 + c % 16) as u8
                },
            ]
        } else {
            seq![c]
        }),
        escaped(Seq::empty()) == Seq::<u8>::empty(),
{
    lemma_escaped_push(a, c);
    if c < 32 {
        reveal_with_fuel(text::hex_fixed, 3);
        let two = text::hex_fixed(c as nat, 2);
        assert(two =~= seq![text::hex_digit(c as int / 16), text::hex_digit(c as int % 16)]);
        assert((c as nat / 16) % 16 == c as nat / 16);
        assert(seq![92u8, 117, 48, 48] + two =~= seq![
            92u8,
            117,
            48,
            48,
            (48 + c / 16) as u8,
            if c % 16 < 10 {
                (48 + c % 16) as u8
            } else {
                (87 + c % 16) as u8
            },
        ]);
    }
}

/// A run of digits, with or without a minus sign, is the integer that they make up by position,
/// where it fits in 64 bits; where it does not, it is kept as a number text.
pub proof fn law_integer_text(sign: Seq<u8>, digits: Seq<u8>)
    requires
        sign == Seq::<u8>::empty() || sign == seq![45u8],
        digits.len() > 0,
        forall|i: int| 0 <= i < digits.len() ==> 48 <= #[trigger] digits[i] <= 57,
    ensures
        ({
            let size = digits.fold_left(0int, |v: int, c: u8| 10 * v + (c - 48));
            let i = if sign.len() == 0 {
                size
            } else {
                -size
            };
            value_at(sign + digits, 0) == (
                if -0x8000_0000_0000_0000 <= i <= 0x7fff_ffff_ffff_ffff {
                    Tree::Int(i as i64)
                } else {
                    Tree::Float(sign + digits)
                },
                (sign + digits).len() as int,
            )
        }),
{
    let b = sign + digits;
    let d0 = sign.len() as int;
    let n = b.len() as int;
    assert forall|i: int| d0 <= i < n implies text::is_digit(#[trigger] b[i]) by {
        assert(b[i] == digits[i - d0]);
    }
    assert(d0 == 1 ==> b[0] == 45);
    assert(d0 == 0 ==> text::is_digit(b[0]));
    lemma_digits_end_at(b, d0, n);
    lemma_no_words(b, 0);
    text::law_decimal_value(digits);
    assert(b.subrange(d0, n) =~= digits);
    assert(b.subrange(0, n) =~= b);
    assert(skip_ws(b, 0) == 0);
}

/// A number with a point or an exponent is kept as a number text, from its sign to its last digit.
pub proof fn law_number_text(sign: Seq<u8>, whole: Seq<u8>, part: Seq<u8>, mark: u8, power: Seq<u8>)
    requires
        sign == Seq::<u8>::empty() || sign == seq![45u8],
        whole.len() > 0,
        forall|i: int| 0 <= i < whole.len() ==> 48 <= #[trigger] whole[i] <= 57,
        forall|i: int| 0 <= i < part.len() ==> 48 <= #[trigger] part[i] <= 57,
        mark == 101 || mark == 69,
        forall|i: int| 1 <= i < power.len() ==> 48 <= #[trigger] power[i] <= 57,
        power.len() > 0 ==> power[0] == 43 || power[0] == 45 || 48 <= power[0] <= 57,
    ensures
        is_float_text(sign + whole + seq![46u8] + part),
        is_float_text(sign + whole + seq![mark] + power),
        is_float_text(sign + whole + seq![46u8] + part + seq![mark] + power),
{
    lemma_text_with_point(sign, whole, part);
    lemma_text_with_power(sign, whole, mark, power);
    lemma_text_with_both(sign, whole, part, mark, power);
}

proof fn lemma_text_with_point(sign: Seq<u8>, whole: Seq<u8>, part: Seq<u8>)
    requires
        sign == Seq::<u8>::empty() || sign == seq![45u8],
        whole.len() > 0,
        forall|i: int| 0 <= i < whole.len() ==> 48 <= #[trigger] whole[i] <= 57,
        forall|i: int| 0 <= i < part.len() ==> 48 <= #[trigger] part[i] <= 57,
    ensures
        is_float_text(sign + whole + seq![46u8] + part),
{
    let d1 = (sign.len() + whole.len()) as int;
    let f1 = d1 + 1 + part.len();
    let b = sign + whole + seq![46u8] + part;
    assert(b.take(d1) =~= sign + whole);
    assert(b[d1] == 46);
    lemma_number_runs(sign, whole, b);
    assert forall|i: int| d1 + 1 <= i < f1 implies text::is_digit(#[trigger] b[i]) by {
        assert(b[i] == part[i - d1 - 1]);
    }
    lemma_digits_end_at(b, d1 + 1, f1);
    assert(b.subrange(0, b.len() as int) =~= b);
}

proof fn lemma_text_with_power(sign: Seq<u8>, whole: Seq<u8>, mark: u8, power: Seq<u8>)
    requires
        sign == Seq::<u8>::empty() || sign == seq![45u8],
        whole.len() > 0,
        forall|i: int| 0 <= i < whole.len() ==> 48 <= #[trigger] whole[i] <= 57,
        mark == 101 || mark == 69,
        forall|i: int| 1 <= i < power.len() ==> 48 <= #[trigger] power[i] <= 57,
        power.len() > 0 ==> power[0] == 43 || power[0] == 45 || 48 <= power[0] <= 57,
    ensures
        is_float_text(sign + whole + seq![mark] + power),
{
    let d1 = (sign.len() + whole.len()) as int;
    let b = sign + whole + seq![mark] + power;
    assert(b.take(d1) =~= sign + whole);
    assert(b[d1] == mark);
    lemma_number_runs(sign, whole, b);
    assert(b.skip(d1 + 1) =~= power);
    lemma_exponent(b, d1, power);
    assert(b.subrange(0, b.len() as int) =~= b);
}

proof fn lemma_text_with_both(
    sign: Seq<u8>,
    whole: Seq<u8>,
    part: Seq<u8>,
    mark: u8,
    power: Seq<u8>,
)
    requires
        sign == Seq::<u8>::empty() || sign == seq![45u8],
        whole.len() > 0,
        forall|i: int| 0 <= i < whole.len() ==> 48 <= #[trigger] whole[i] <= 57,
        forall|i: int| 0 <= i < part.len() ==> 48 <= #[trigger] part[i] <= 57,
        mark == 101 || mark == 69,
        forall|i: int| 1 <= i < power.len() ==> 48 <= #[trigger] power[i] <= 57,
        power.len() > 0 ==> power[0] == 43 || power[0] == 45 || 48 <= power[0] <= 57,
    ensures
        is_float_text(sign + whole + seq![46u8] + part + seq![mark] + power),
{
    let d1 = (sign.len() + whole.len()) as int;
    let f1 = d1 + 1 + part.len();
    let b = sign + whole + seq![46u8] + part + seq![mark] + power;
    assert(b.take(d1) =~= sign + whole);
    assert(b[d1] == 46);
    lemma_number_runs(sign, whole, b);
    assert forall|i: int| d1 + 1 <= i < f1 implies text::is_digit(#[trigger] b[i]) by {
        assert(b[i] == part[i - d1 - 1]);
    }
    assert(b[f1] == mark);
    lemma_digits_end_at(b, d1 + 1, f1);
    assert(b.skip(f1 + 1) =~= power);
    lemma_exponent(b, f1, power);
    assert(b.subrange(0, b.len() as int) =~= b);
}

proof fn lemma_number_runs(sign: Seq<u8>, whole: Seq<u8>, b: Seq<u8>)
    requires
        sign == Seq::<u8>::empty() || sign == seq![45u8],
        whole.len() > 0,
        forall|i: int| 0 <= i < whole.len() ==> 48 <= #[trigger] whole[i] <= 57,
        b.len() > sign.len() + whole.len(),
        b.take((sign.len() + whole.len()) as int) == sign + whole,
        !text::is_digit(b[(sign.len() + whole.len()) as int]),
    ensures
        sign.len() == 1 ==> b[0] == 45,
        sign.len() == 0 ==> text::is_digit(b[0]),
        digits_end(b, sign.len() as int) == sign.len() + whole.len(),
{
    let n = (sign.len() + whole.len()) as int;
    assert forall|i: int| 0 <= i < n implies b[i] == (sign + whole)[i] by {
        assert(b.take(n)[i] == b[i]);
    }
    assert forall|i: int| sign.len() <= i < n implies text::is_digit(#[trigger] b[i]) by {
        assert(b[i] == whole[i - sign.len()]);
    }
    lemma_digits_end_at(b, sign.len() as int, n);
    assert(b[0] == (sign + whole)[0]);
}

proof fn lemma_exponent(b: Seq<u8>, f1: int, power: Seq<u8>)
    requires
        0 <= f1,
        b.len() == f1 + 1 + power.len(),
        b.skip(f1 + 1) == power,
        forall|i: int| 1 <= i < power.len() ==> 48 <= #[trigger] power[i] <= 57,
        power.len() > 0 ==> power[0] == 43 || power[0] == 45 || 48 <= power[0] <= 57,
    ensures
        power.len() > 0 && (power[0] == 43 || power[0] == 45) ==> b[f1 + 1] == power[0]
            && digits_end(b, f1 + 2) == b.len(),
        power.len() > 0 && power[0] != 43 && power[0] != 45 ==> b[f1 + 1] == power[0],
        power.len() == 0 || (power[0] != 43 && power[0] != 45) ==> digits_end(b, f1 + 1) == b.len(),
{
    assert forall|i: int| f1 + 1 <= i < b.len() implies b[i] == power[i - f1 - 1] by {
        assert(b.skip(f1 + 1)[i - f1 - 1] == b[i]);
    }
    assert forall|i: int| f1 + 2 <= i < b.len() implies text::is_digit(#[trigger] b[i]) by {
        assert(b[i] == power[i - f1 - 1]);
    }
    if power.len() > 0 && (power[0] == 43 || power[0] == 45) {
        lemma_digits_end_at(b, f1 + 2, b.len() as int);
    } else {
        if power.len() > 0 {
            assert(text::is_digit(b[f1 + 1]));
        }
        lemma_digits_end_at(b, f1 + 1, b.len() as int);
    }
}

/// What is printed for a short whole number is read as a number that is not an integer.
pub proof fn law_whole_number_text(i: int)
    ensures
        is_float_text(text::dec_int(i) + text::lit(".0")),
{
    let point = text::lit(".0");
    reveal_strlit(".0");
    lemma_ascii_lit(".0");
    assert(point =~= seq![46u8, 48]);
    let d = text::dec_int(i);
    let f = d + point;
    let m: nat = if i < 0 {
        (-i) as nat
    } else {
        i as nat
    };
    text::lemma_dec_nat(m);
    let digits = text::dec_nat(m);
    let d0 = if i < 0 {
        1int
    } else {
        0
    };
    let d1 = d.len() as int;
    assert(text::is_digit(digits[0]));
    assert(f[0] == d[0]);
    assert forall|j: int| d0 <= j < d1 implies text::is_digit(#[trigger] f[j]) by {
        assert(f[j] == digits[j - d0]);
    }
    assert(f[d1] == 46 && f[d1 + 1] == 48);
    lemma_digits_end_at(f, d0, d1);
    lemma_digits_end_at(f, d1 + 1, d1 + 2);
    assert(f.subrange(0, f.len() as int) =~= f);
}

/// Values that the same document stands for are the same, where number texts tell numbers apart.
proof fn lemma_same_document(
    v: Tree<u64>,
    w: Tree<u64>,
    t: Tree<Seq<u8>>,
    written: spec_fn(u64, Seq<u8>) -> bool,
    read: spec_fn(u64, Seq<u8>) -> bool,
)
    requires
        stands_for(v, t, written),
        stands_for(w, t, read),
        forall|a: u64, b: u64, f: Seq<u8>| #[trigger] written(a, f) && #[trigger] read(b, f) ==> a == b,
    ensures
        v == w,
    decreases v,
{
    match (v, w, t) {
        (Tree::Array(a), Tree::Array(b), Tree::Array(c)) => {
            assert forall|i: int| 0 <= i < a.len() implies a[i] == b[i] by {
                assert(stands_for(a[i], c[i], written));
                assert(stands_for(b[i], c[i], read));
                lemma_same_document(a[i], b[i], c[i], written, read);
            }
            assert(a =~= b);
        },
        (Tree::Object(a), Tree::Object(b), Tree::Object(c)) => {
            assert forall|i: int| 0 <= i < a.len() implies a[i] == b[i] by {
                assert(a[i].0 == c[i].0 && b[i].0 == c[i].0);
                assert(decreases_to!(v => a[i]));
                assert(decreases_to!(v => a[i].1));
                lemma_same_document(a[i].1, b[i].1, c[i].1, written, read);
            }
            assert(a =~= b);
        },
        _ => {},
    }
}

/// A value is read back from its text, where `read` gives back the numbers that were written:
/// `v` is printed as the document `t`, and `w` is what is parsed of that text.
pub proof fn law_value_round_trip(
    v: Tree<u64>,
    t: Tree<Seq<u8>>,
    w: Tree<u64>,
    written: spec_fn(u64, Seq<u8>) -> bool,
    read: spec_fn(u64, Seq<u8>) -> bool,
)
    requires
        stands_for(v, t, written),
        printable(t),
        stands_for(w, value_at(printed(t), 0).0, read),
        forall|a: u64, b: u64, f: Seq<u8>| #[trigger] written(a, f) && #[trigger] read(b, f) ==> a == b,
    ensures
        v == w,
{
    law_print_parse(t);
    lemma_same_document(v, w, t, written, read);
}

/// A whole number of less than 16 digits is printed as its integer with `.0` behind it; one of 10 to
/// the power of 15 or more is left to the printing of other numbers.
pub proof fn law_whole_numbers_are_printed(i: int)
    requires
        -0x20_0000_0000_0000 < i < 0x20_0000_0000_0000,
    ensures
        -1_000_000_000_000_000 < i < 1_000_000_000_000_000 ==> is_short_whole(
            floats::int_bits(i) as u64,
        ) && floats::truncated(floats::int_bits(i) as u64) == i,
        i <= -1_000_000_000_000_000 || i >= 1_000_000_000_000_000 ==> !is_short_whole(
            floats::int_bits(i) as u64,
        ),
        text::lit(".0") == seq![46u8, 48],
{
    reveal_strlit(".0");
    lemma_ascii_lit(".0");
    assert(text::lit(".0") =~= seq![46u8, 48]);
    let m: int = if i < 0 {
        -i
    } else {
        i
    };
    floats::law_int_round_trip(i);
    floats::law_whole_numbers_have_no_fraction(i);
    floats::law_integers_keep_their_order(m, 1_000_000_000_000_000);
    floats::law_int_bits_value(1_000_000_000_000_000);
    if m != 0 {
        floats::law_int_bits_value(m);
    }
    floats::law_order_of_bits(
        floats::int_bits(m) as u64,
        floats::int_bits(1_000_000_000_000_000) as u64,
    );
}

} // verus!
