//! Boxes with a single owner: heap cells that hold one word.
//!
//! A box is its handle; 0 is the null box.

use vstd::prelude::*;

verus! {

/// Cells of boxes; a cell that was given back holds nothing.
pub struct BoxStore {
    pub cells: Vec<Option<i64>>,
}

impl BoxStore {
    /// A handle names a box.
    pub open spec fn holds(&self, box_ptr: i64) -> bool {
        0 < box_ptr <= self.cells@.len() && self.cells@[box_ptr - 1] is Some
    }

    /// No boxes.
    pub fn new() -> (s: BoxStore)
        ensures
            s.cells@.len() == 0,
    {
        BoxStore { cells: Vec::new() }
    }

    /// A new box with a value.
    pub fn rayzor_box_init(&mut self, value: i64) -> (box_ptr: i64)
        requires
            old(self).cells@.len() < i64::MAX,
        ensures
            box_ptr == old(self).cells@.len() + 1,
            final(self).cells@ == old(self).cells@.push(Some(value)),
    {
        self.cells.push(Some(value));
        self.cells.len() as i64
    }

    /// Gives a box back; nothing happens for the null box.
    pub fn rayzor_box_free(&mut self, box_ptr: i64)
        requires
            box_ptr == 0 || old(self).holds(box_ptr),
        ensures
            final(self).cells@ == (if box_ptr == 0 {
                old(self).cells@
            } else {
                old(self).cells@.update(box_ptr - 1, None)
            }),
    {
        if box_ptr == 0 {
            return;
        }
        let n: usize = self.cells.len();
        self.cells.set((box_ptr - 1) as usize, None);
    }

    /// The value in a box; 0 for the null box.
    pub fn rayzor_box_unbox(&self, box_ptr: i64) -> (value: i64)
        requires
            box_ptr == 0 || self.holds(box_ptr),
        ensures
            value == (if box_ptr == 0 {
                0
            } else {
                self.cells@[box_ptr - 1]->Some_0
            }),
    {
        if box_ptr == 0 {
            return 0;
        }
        let n: usize = self.cells.len();
        match self.cells[(box_ptr - 1) as usize] {
            Some(v) => v,
            None => 0,
        }
    }
}

/// Address of a box: the box itself.
pub fn rayzor_box_raw(box_ptr: i64) -> (addr: i64)
    ensures
        addr == box_ptr,
{
    box_ptr
}

/// A value is read back from the box that it was put into, and other boxes keep theirs.
pub proof fn law_init_unbox(cells: Seq<Option<i64>>, value: i64, other: int)
    ensures
        cells.push(Some(value))[cells.len() as int] == Some(value),
        0 <= other < cells.len() ==> cells.push(Some(value))[other] == cells[other],
{
}

} // verus!
