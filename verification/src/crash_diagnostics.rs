//! Reports of fatal native crashes.
//!
//! Ranges of compiled code are registered with a label before they run. A report names the signal
//! and tells in which range the program counter and its caller were.

use crate::text;
use vstd::prelude::*;

verus! {

/// A range of compiled code.
pub struct CodeRange {
    pub start: u64,
    pub end: u64,
    pub label: Vec<u8>,
}

/// Registered ranges, in the order of their registration.
pub struct CodeRanges {
    pub ranges: Vec<CodeRange>,
}

/// Signals that are reported.
#[derive(Clone, Copy, PartialEq, Eq, Structural, Debug)]
pub enum FatalSignal {
    Segv,
    Bus,
    Ill,
    Abrt,
    Trap,
    Other,
}

/// Label of a range of code by the function's name.
pub open spec fn code_label(name: Seq<u8>) -> Seq<u8> {
    text::lit(" in ") + name + text::lit(" [Cranelift]")
}

/// End of a range of code.
pub open spec fn range_end(start: u64, size: u64) -> u64 {
    if start + size > u64::MAX {
        u64::MAX
    } else {
        (start + size) as u64
    }
}

impl CodeRanges {
    /// No code is registered.
    pub fn new() -> (r: CodeRanges)
        ensures
            r.ranges@.len() == 0,
    {
        CodeRanges { ranges: Vec::new() }
    }

    /// Registers the code of a function. Code at address 0 and code without bytes is not
    /// registered.
    pub fn register_code(&mut self, start: u64, size: u64, name: &[u8])
        ensures
            if start == 0 || size == 0 {
                final(self).ranges@ == old(self).ranges@
            } else {
                &&& final(self).ranges@.len() == old(self).ranges@.len() + 1
                &&& final(self).ranges@.drop_last() == old(self).ranges@
                &&& final(self).ranges@.last().start == start
                &&& final(self).ranges@.last().end == range_end(start, size)
                &&& final(self).ranges@.last().label@ == code_label(name@)
            },
    {
        if start == 0 || size == 0 {
            return;
        }
        let mut label: Vec<u8> = Vec::new();
        text::append_str(&mut label, " in ");
        text::append(&mut label, name);
        text::append_str(&mut label, " [Cranelift]");
        assert(label@ =~= code_label(name@));
        let end: u64 = start.saturating_add(size);
        let ghost before = self.ranges@;
        self.ranges.push(CodeRange { start, end, label });
        assert(self.ranges@.drop_last() =~= before);
    }
}

/// Address as a hexadecimal number of 16 digits.
pub open spec fn hex_text(value: u64) -> Seq<u8> {
    seq![48u8, 120u8] + text::hex_fixed(value as nat, 16)
}

/// Where an address is: in the range that was registered last among those that hold it.
pub open spec fn place_of(ranges: Seq<CodeRange>, pc: u64) -> Seq<u8>
    decreases ranges.len(),
{
    if ranges.len() == 0 {
        text::lit(" [outside registered JIT code]")
    } else if ranges.last().start <= pc < ranges.last().end {
        ranges.last().label@ + text::lit(" +") + hex_text((pc - ranges.last().start) as u64)
    } else {
        place_of(ranges.drop_last(), pc)
    }
}

fn append_hex_text(out: &mut Vec<u8>, value: u64)
    ensures
        final(out)@ == old(out)@ + hex_text(value),
{
    let ghost before = out@;
    out.push(48);
    out.push(120);
    text::append_hex_fixed(out, value, 16);
    assert(out@ =~= before + hex_text(value));
}

/// An address and where it is.
pub fn location(ranges: &CodeRanges, pc: u64) -> (out: Vec<u8>)
    ensures
        out@ == hex_text(pc) + place_of(ranges.ranges@, pc),
{
    let mut out: Vec<u8> = Vec::new();
    append_hex_text(&mut out, pc);
    assert(out@ =~= hex_text(pc));
    let mut i: usize = ranges.ranges.len();
    assert(ranges.ranges@.take(i as int) =~= ranges.ranges@);
    while i > 0
        invariant
            i <= ranges.ranges@.len(),
            out@ == hex_text(pc),
            place_of(ranges.ranges@, pc) == place_of(ranges.ranges@.take(i as int), pc),
        decreases i,
    {
        let ghost head = ranges.ranges@.take(i as int);
        proof {
            assert(head.last() == ranges.ranges@[i - 1]);
            assert(head.drop_last() =~= ranges.ranges@.take(i - 1));
        }
        let r: &CodeRange = &ranges.ranges[i - 1];
        if pc >= r.start && pc < r.end {
            text::append(&mut out, r.label.as_slice());
            text::append_str(&mut out, " +");
            append_hex_text(&mut out, pc - r.start);
            assert(out@ =~= hex_text(pc) + place_of(ranges.ranges@, pc));
            return out;
        }
        i = i - 1;
    }
    assert(ranges.ranges@.take(0) =~= Seq::empty());
    text::append_str(&mut out, " [outside registered JIT code]");
    out
}

/// Name of a signal.
pub open spec fn signal_text(sig: FatalSignal) -> Seq<u8> {
    match sig {
        FatalSignal::Segv => text::lit("SIGSEGV"),
        FatalSignal::Bus => text::lit("SIGBUS"),
        FatalSignal::Ill => text::lit("SIGILL"),
        FatalSignal::Abrt => text::lit("SIGABRT"),
        FatalSignal::Trap => text::lit("SIGTRAP"),
        FatalSignal::Other => text::lit("unknown"),
    }
}

/// Name of a signal.
pub fn signal_name(sig: FatalSignal) -> (out: Vec<u8>)
    ensures
        out@ == signal_text(sig),
{
    match sig {
        FatalSignal::Segv => text::copy_all("SIGSEGV".as_bytes()),
        FatalSignal::Bus => text::copy_all("SIGBUS".as_bytes()),
        FatalSignal::Ill => text::copy_all("SIGILL".as_bytes()),
        FatalSignal::Abrt => text::copy_all("SIGABRT".as_bytes()),
        FatalSignal::Trap => text::copy_all("SIGTRAP".as_bytes()),
        FatalSignal::Other => text::copy_all("unknown".as_bytes()),
    }
}

/// Report of a crash: the signal, the address that was touched where it is known, and where the
/// program counter and its caller were. The caller is looked up just before its return address.
pub open spec fn crash_text(
    ranges: Seq<CodeRange>,
    sig: FatalSignal,
    fault: Option<u64>,
    pc: u64,
    caller: u64,
) -> Seq<u8> {
    let head = text::lit("rayzor: native crash signal=") + signal_text(sig);
    let touched = match fault {
        Some(addr) => head + text::lit(" fault=") + hex_text(addr),
        None => head,
    };
    let at = touched + text::lit(" pc=") + (hex_text(pc) + place_of(ranges, pc));
    let full = if caller != 0 {
        let from = (caller - 1) as u64;
        at + text::lit(" caller=") + (hex_text(from) + place_of(ranges, from))
    } else {
        at
    };
    full.push(10)
}

/// Report of a crash.
pub fn crash_report(
    ranges: &CodeRanges,
    sig: FatalSignal,
    fault: Option<u64>,
    pc: u64,
    caller: u64,
) -> (out: Vec<u8>)
    ensures
        out@ == crash_text(ranges.ranges@, sig, fault, pc, caller),
{
    let mut out: Vec<u8> = Vec::new();
    text::append_str(&mut out, "rayzor: native crash signal=");
    let name: Vec<u8> = signal_name(sig);
    text::append(&mut out, name.as_slice());
    let ghost head = out@;
    assert(head =~= text::lit("rayzor: native crash signal=") + signal_text(sig));
    match fault {
        Some(addr) => {
            text::append_str(&mut out, " fault=");
            append_hex_text(&mut out, addr);
        },
        None => {},
    }
    text::append_str(&mut out, " pc=");
    let at: Vec<u8> = location(ranges, pc);
    text::append(&mut out, at.as_slice());
    if caller != 0 {
        text::append_str(&mut out, " caller=");
        let from: Vec<u8> = location(ranges, caller - 1);
        text::append(&mut out, from.as_slice());
    }
    out.push(10);
    out
}

/// Exit status after a signal.
pub fn crash_status(sig: i32) -> (status: i32)
    requires
        0 <= sig <= 127,
    ensures
        status == 128 + sig,
{
    128 + sig
}

/// Code that is registered at an address that was used before is what is found there.
pub proof fn law_newest_range_wins(ranges: Seq<CodeRange>, r: CodeRange, pc: u64)
    requires
        r.start <= pc < r.end,
    ensures
        place_of(ranges.push(r), pc) == r.label@ + text::lit(" +") + hex_text((pc - r.start) as u64),
{
    assert(ranges.push(r).last() == r);
}

/// A range that does not hold an address leaves its place to those registered before, and where
/// none holds it, it is outside.
pub proof fn law_other_ranges_do_not_count(ranges: Seq<CodeRange>, r: CodeRange, pc: u64)
    ensures
        pc < r.start || pc >= r.end ==> place_of(ranges.push(r), pc) == place_of(ranges, pc),
        place_of(Seq::empty(), pc) == text::lit(" [outside registered JIT code]"),
{
    assert(ranges.push(r).last() == r);
    assert(ranges.push(r).drop_last() =~= ranges);
}

/// A range ends behind its bytes, and not behind the last address.
pub proof fn law_range_ends(start: u64, size: u64)
    ensures
        range_end(start, size) == vstd::math::min(start + size, 0xffff_ffff_ffff_ffff),
{
}

/// An address is shown as `0x` and sixteen hexadecimal digits.
pub proof fn law_addresses(value: u64)
    ensures
        hex_text(value).len() == 18,
        hex_text(value)[0] == 48,
        hex_text(value)[1] == 120,
        hex_text(value).skip(2) == text::hex_fixed(value as nat, 16),
{
    text::law_hexadecimal(value as nat, 16);
    assert(hex_text(value).skip(2) =~= text::hex_fixed(value as nat, 16));
}

/// A report of a crash ends with a newline, and says of the caller where it was only if there is
/// one; the caller is looked up one byte before its return address.
pub proof fn law_crash_reports(
    ranges: Seq<CodeRange>,
    sig: FatalSignal,
    fault: Option<u64>,
    pc: u64,
    caller: u64,
)
    requires
        caller != 0,
    ensures
        crash_text(ranges, sig, fault, pc, caller).last() == 10,
        crash_text(ranges, sig, fault, pc, 0).last() == 10,
        crash_text(ranges, sig, fault, pc, caller) == crash_text(
            ranges,
            sig,
            fault,
            pc,
            0,
        ).drop_last() + text::lit(" caller=") + hex_text((caller - 1) as u64) + place_of(
            ranges,
            (caller - 1) as u64,
        ) + seq![10u8],
{
    let short = crash_text(ranges, sig, fault, pc, 0).drop_last();
    let from = (caller - 1) as u64;
    assert(crash_text(ranges, sig, fault, pc, caller) =~= short + text::lit(" caller=") + hex_text(
        from,
    ) + place_of(ranges, from) + seq![10u8]);
}

} // verus!
