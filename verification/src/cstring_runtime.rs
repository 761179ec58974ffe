//! Strings that are ended by a zero byte.

use crate::haxe_string;
use crate::haxe_string::HaxeString;
use crate::text;
use vstd::prelude::*;

verus! {

/// The buffer holds the bytes of the string and a 0 byte behind them.
pub open spec fn is_cstring_of(s: HaxeString, buffer: Seq<u8>) -> bool {
    buffer == s@.push(0)
}

/// Buffer of a string and its terminator; none for a null string, and where the buffer would
/// exceed what an allocation can have.
pub fn rayzor_cstring_from(source: Option<&HaxeString>) -> (buffer: Option<Vec<u8>>)
    ensures
        match source {
            None => buffer is None,
            Some(h) => if h@.len() >= usize::MAX / 2 {
                buffer is None
            } else {
                buffer is Some && is_cstring_of(*h, buffer->Some_0@)
            },
        },
{
    match source {
        None => None,
        Some(h) => {
            let b: &[u8] = h.bytes();
            if b.len() >= usize::MAX / 2 {
                return None;
            }
            let mut out: Vec<u8> = text::copy_all(b);
            out.push(0);
            Some(out)
        },
    }
}

/// The string in a buffer, up to its terminator; the empty string for null.
pub fn rayzor_cstring_to_string(buffer: Option<&[u8]>) -> (s: HaxeString)
    ensures
        match buffer {
            Some(c) => haxe_string::reads_cstr(s, c@),
            None => s.buffered(Seq::empty()),
        },
{
    haxe_string::haxe_string_from_cstr(buffer)
}

/// Gives a buffer back; the number of bytes released, which is found by its terminator, 0 for
/// null.
pub fn rayzor_cstring_free(buffer: Option<Vec<u8>>) -> (released: usize)
    requires
        buffer matches Some(c) ==> exists|i: int| 0 <= i < c@.len() && #[trigger] c@[i] == 0,
    ensures
        released == (match buffer {
            Some(c) => haxe_string::until_nul(c@).len() + 1,
            None => 0,
        }),
{
    match buffer {
        None => 0,
        Some(c) => {
            let len: usize = c.len();
            let mut n: usize = 0;
            while c[n] != 0
                invariant
                    n < c@.len() == len,
                    exists|i: int| n <= i < c@.len() && #[trigger] c@[i] == 0,
                    forall|i: int| 0 <= i < n ==> #[trigger] c@[i] != 0,
                decreases c@.len() - n,
            {
                n = n + 1;
            }
            proof {
                haxe_string::lemma_until_nul(c@, n as int);
            }
            n + 1
        },
    }
}

/// A string without zero bytes is read back from its buffer: the new string has the same length
/// and the same bytes, and a 0 byte stands behind them.
pub proof fn law_cstring_round_trip(source: &HaxeString, buffer: Seq<u8>, s: HaxeString)
    requires
        forall|j: int| 0 <= j < source@.len() ==> source@[j] != 0,
        is_cstring_of(*source, buffer),
        haxe_string::reads_cstr(s, buffer),
    ensures
        s.len == source@.len(),
        s@ == source@,
        s.data is Some,
        s.data->Some_0@ == source@.push(0),
        s.data->Some_0@[s.len as int] == 0,
        s.cap == haxe_string::buffer_cap(source@.len()),
{
    haxe_string::lemma_until_end(source@);
}

/// The number of bytes that is released for a buffer is the number that it was made of.
pub proof fn law_cstring_released(source: &HaxeString, buffer: Seq<u8>)
    requires
        forall|j: int| 0 <= j < source@.len() ==> source@[j] != 0,
        is_cstring_of(*source, buffer),
    ensures
        haxe_string::until_nul(buffer).len() + 1 == buffer.len(),
{
    haxe_string::lemma_until_end(source@);
}

} // verus!
