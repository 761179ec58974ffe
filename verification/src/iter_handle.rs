//! Iteration over values whose protocol is found at run time.
//!
//! An iterator value is an iteration handle, a structure with closures for fields, or an instance
//! of a class. What stands at its address is given by its words; calling the closures is left to
//! the user of these rules.

use vstd::prelude::*;

verus! {

/// First word of an iteration handle.
pub const ITER_HANDLE_TAG: i64 = 0x525A_4954_4552_0001;

/// Smaller values are no addresses.
pub const LOWEST_ADDRESS: i64 = 0x1000;

/// First words of class instances, which are type tags, are smaller than this.
pub const CLASS_HEADER_LIMIT: i64 = 0x1000_0000;

/// What an iterator value is.
#[derive(Clone, Copy, PartialEq, Eq, Structural, Debug)]
pub enum IterKind {
    /// No address, or an instance of a class: there is nothing to iterate.
    Nothing,
    /// An iteration handle.
    Handle,
    /// A structure with `hasNext` and `next`.
    Structure,
}

/// An iteration handle: the object that it iterates, the closure that makes it an iterator (0
/// where it is one), and the closures of the protocol.
pub struct IterHandle {
    pub object: i64,
    pub make: u64,
    pub has_next: u64,
    pub next: u64,
}

/// A call of a closure on an object.
#[derive(Clone, Copy, PartialEq, Eq, Structural, Debug)]
pub struct ClosureCall {
    pub record: u64,
    pub object: i64,
}

/// What a value is, by its first word.
pub open spec fn kind_of(value: i64, header: i64) -> IterKind {
    if value < LOWEST_ADDRESS {
        IterKind::Nothing
    } else if value % 8 == 0 && header == ITER_HANDLE_TAG {
        IterKind::Handle
    } else if 0 <= header < CLASS_HEADER_LIMIT {
        IterKind::Nothing
    } else {
        IterKind::Structure
    }
}

/// What a value is; `header` is the word at its address.
pub fn iter_kind(value: i64, header: i64) -> (k: IterKind)
    ensures
        k == kind_of(value, header),
{
    if value < LOWEST_ADDRESS {
        return IterKind::Nothing;
    }
    if value % 8 == 0 && header == ITER_HANDLE_TAG {
        return IterKind::Handle;
    }
    if 0 <= header && header < CLASS_HEADER_LIMIT {
        return IterKind::Nothing;
    }
    IterKind::Structure
}

/// Whether a closure record can be called: it is an aligned address and has code.
pub fn callable(record: u64, code: u64) -> (r: bool)
    ensures
        r == (record >= 0x1000 && record % 8 == 0 && code != 0),
{
    record >= 0x1000 && record % 8 == 0 && code != 0
}

/// The call that makes the object of a handle an iterator; none where it is one.
pub fn handle_iterator(handle: &IterHandle) -> (call: Option<ClosureCall>)
    ensures
        call == (if handle.make == 0 {
            None
        } else {
            Some(ClosureCall { record: handle.make, object: handle.object })
        }),
{
    if handle.make == 0 {
        None
    } else {
        Some(ClosureCall { record: handle.make, object: handle.object })
    }
}

/// Takes note of the iterator that was made: it is made once.
pub fn iterator_made(handle: &mut IterHandle, iterator: i64)
    ensures
        final(handle).object == iterator,
        final(handle).make == 0,
        final(handle).has_next == old(handle).has_next,
        final(handle).next == old(handle).next,
{
    handle.object = iterator;
    handle.make = 0;
}

/// The call that tells whether there is more.
pub fn handle_has_next(handle: &IterHandle) -> (call: ClosureCall)
    requires
        handle.make == 0,
    ensures
        call == (ClosureCall { record: handle.has_next, object: handle.object }),
{
    ClosureCall { record: handle.has_next, object: handle.object }
}

/// The call that gives the next value.
pub fn handle_next(handle: &IterHandle) -> (call: ClosureCall)
    requires
        handle.make == 0,
    ensures
        call == (ClosureCall { record: handle.next, object: handle.object }),
{
    ClosureCall { record: handle.next, object: handle.object }
}

/// What a closure's answer says as a truth value: its low byte counts. No answer, where the
/// closure is missing or cannot be called, is false.
pub fn answer_truth(answer: Option<i64>) -> (r: i32)
    ensures
        r == (match answer {
            Some(a) => if a as u64 % 256 != 0 {
                1i32
            } else {
                0i32
            },
            None => 0i32,
        }),
{
    match answer {
        Some(a) => {
            let word: u64 = #[verifier::truncate]
            (a as u64);
            if word % 256 != 0 {
                1
            } else {
                0
            }
        },
        None => 0,
    }
}

/// What a closure's answer is as a value; 0 where the closure is missing or cannot be called.
pub fn answer_value(answer: Option<i64>) -> (r: i64)
    ensures
        r == (match answer {
            Some(a) => a,
            None => 0,
        }),
{
    match answer {
        Some(a) => a,
        None => 0,
    }
}

/// What a value is: nothing below the first address, a handle where an aligned address has the tag
/// of handles, an instance of a class where its first word is the small number of a class, and a
/// structure otherwise.
pub proof fn law_kinds(value: i64, header: i64)
    ensures
        value < 4096 ==> kind_of(value, header) is Nothing,
        value >= 4096 && value % 8 == 0 ==> kind_of(value, 0x525A_4954_4552_0001) is Handle,
        value >= 4096 && 0 <= header < 0x1000_0000 ==> kind_of(value, header) is Nothing,
        value >= 4096 && header >= 0x1000_0000 && header != 0x525A_4954_4552_0001 ==> kind_of(
            value,
            header,
        ) is Structure,
        value >= 4096 && header < 0 ==> kind_of(value, header) is Structure,
        value >= 4096 && value % 8 != 0 && header >= 0x1000_0000 ==> kind_of(value, header) is Structure,
{
}

} // verus!
