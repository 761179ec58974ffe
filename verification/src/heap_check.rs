//! Reports of heap integrity probes.

use crate::text;
use vstd::prelude::*;

verus! {

/// Probes a span of code: its label is reported where the heap is found corrupt.
pub struct HeapCheckGuard {
    pub label: Vec<u8>,
}

/// Whether probes run: where the variable `RAYZOR_HEAP_CHECK` is set.
pub fn enabled(variable_set: bool) -> (r: bool)
    ensures
        r == variable_set,
{
    variable_set
}

/// Report of a corrupt heap.
pub open spec fn corrupt_text(place: Seq<u8>, label: Seq<u8>) -> Seq<u8> {
    text::lit("[heap-check] CORRUPT ") + place + label
}

fn corrupt_report(place: &str, label: &[u8]) -> (out: Vec<u8>)
    ensures
        out@ == corrupt_text(text::lit(place), label@),
{
    let mut out: Vec<u8> = Vec::new();
    text::append_str(&mut out, "[heap-check] CORRUPT ");
    text::append_str(&mut out, place);
    text::append(&mut out, label);
    assert(out@ =~= corrupt_text(text::lit(place), label@));
    out
}

/// Report of a probe, after which the program is aborted; none where probes are off, where the
/// system cannot probe its heap, and where the heap is sound.
pub fn check_heap(on: bool, sound: Option<bool>, label: &[u8]) -> (report: Option<Vec<u8>>)
    ensures
        match report {
            Some(r) => on && sound == Some(false) && r@ == corrupt_text(text::lit("at "), label@),
            None => !on || sound != Some(false),
        },
{
    if !on {
        return None;
    }
    match sound {
        Some(false) => Some(corrupt_report("at ", label)),
        _ => None,
    }
}

impl HeapCheckGuard {
    /// Starts to probe a span of code; the report where the heap is corrupt already.
    pub fn new(on: bool, sound: Option<bool>, label: Vec<u8>) -> (g: (
        HeapCheckGuard,
        Option<Vec<u8>>,
    ))
        ensures
            g.0.label@ == label@,
            match g.1 {
                Some(r) => on && sound == Some(false) && r@ == corrupt_text(
                    text::lit("on ENTER "),
                    label@,
                ),
                None => !on || sound != Some(false),
            },
    {
        let report: Option<Vec<u8>> = if on && matches!(sound, Some(false)) {
            Some(corrupt_report("on ENTER ", label.as_slice()))
        } else {
            None
        };
        (HeapCheckGuard { label }, report)
    }

    /// Ends the span of code; the report where the heap is corrupt by now.
    pub fn leave(&self, on: bool, sound: Option<bool>) -> (report: Option<Vec<u8>>)
        ensures
            match report {
                Some(r) => on && sound == Some(false) && r@ == corrupt_text(
                    text::lit("on EXIT "),
                    self.label@,
                ),
                None => !on || sound != Some(false),
            },
    {
        if on && matches!(sound, Some(false)) {
            Some(corrupt_report("on EXIT ", self.label.as_slice()))
        } else {
            None
        }
    }
}

} // verus!
