//! Wall-time accumulators of kernels.

use crate::sorting;
use crate::text;
use vstd::prelude::*;

verus! {

/// Time that a kernel took and how often it ran.
pub struct KernelTimer {
    pub name: Vec<u8>,
    pub nanos: u64,
    pub calls: u64,
}

/// The switch, and whether it has been set.
#[derive(Clone, Copy, PartialEq, Eq, Structural, Debug)]
pub struct KernelTiming {
    pub initialised: bool,
    pub enabled: bool,
}

impl KernelTiming {
    /// The switch before it is set: off.
    pub fn new() -> (t: KernelTiming)
        ensures
            t == not_initialised(),
    {
        KernelTiming { initialised: false, enabled: false }
    }
}

/// The switch before it is set.
pub open spec fn not_initialised() -> KernelTiming {
    KernelTiming { initialised: false, enabled: false }
}

/// `a + b`, starting again at 0 behind the largest 64-bit number.
pub open spec fn wrapped_sum(a: u64, b: u64) -> u64 {
    if a + b > u64::MAX {
        (a + b - 0x1_0000_0000_0000_0000) as u64
    } else {
        (a + b) as u64
    }
}

impl KernelTimer {
    /// A timer that has not run.
    pub fn new(name: Vec<u8>) -> (t: KernelTimer)
        ensures
            t.name@ == name@,
            t.nanos == 0,
            t.calls == 0,
    {
        KernelTimer { name, nanos: 0, calls: 0 }
    }

    /// Adds a run that took `ns` nanoseconds.
    pub fn record(&mut self, ns: u64)
        ensures
            final(self).nanos == wrapped_sum(old(self).nanos, ns),
            final(self).calls == wrapped_sum(old(self).calls, 1),
            final(self).name@ == old(self).name@,
    {
        self.nanos = self.nanos.wrapping_add(ns);
        self.calls = self.calls.wrapping_add(1);
    }
}

/// A byte without the difference between upper and lower case.
pub open spec fn lower(b: u8) -> u8 {
    if 65 <= b <= 90 {
        (b + 32) as u8
    } else {
        b
    }
}

/// Two texts are equal but for upper and lower case.
pub open spec fn same_ignoring_case(a: Seq<u8>, b: Seq<u8>) -> bool {
    a.len() == b.len() && forall|i: int| 0 <= i < a.len() ==> lower(#[trigger] a[i]) == lower(b[i])
}

fn lower_byte(b: u8) -> (l: u8)
    ensures
        l == lower(b),
{
    if 65 <= b && b <= 90 {
        b + 32
    } else {
        b
    }
}

fn equal_ignoring_case(a: &[u8], b: &[u8]) -> (r: bool)
    ensures
        r == same_ignoring_case(a@, b@),
{
    if a.len() != b.len() {
        return false;
    }
    let mut i: usize = 0;
    while i < a.len()
        invariant
            i <= a@.len() == b@.len(),
            forall|j: int| 0 <= j < i ==> lower(#[trigger] a@[j]) == lower(b@[j]),
        decreases a@.len() - i,
    {
        if lower_byte(a[i]) != lower_byte(b[i]) {
            return false;
        }
        i = i + 1;
    }
    true
}

/// A value of the variable `RAYZOR_KERNEL_TIMING` that turns timing on: `1`, or `true` in upper or
/// lower case.
pub open spec fn turns_on(value: Option<&[u8]>) -> bool {
    value matches Some(v) && (v@ == text::lit("1") || same_ignoring_case(v@, text::lit("true")))
}

/// The switch once it has been set from the value of the variable: the first time it is set counts.
pub open spec fn initialised(timing: KernelTiming, value: Option<&[u8]>) -> KernelTiming {
    if timing.initialised {
        timing
    } else {
        KernelTiming { initialised: true, enabled: turns_on(value) }
    }
}

/// Sets the switch from the value of the variable `RAYZOR_KERNEL_TIMING`, the first time only;
/// whether the report is now to be printed at exit.
pub fn init(timing: &mut KernelTiming, value: Option<&[u8]>) -> (report_at_exit: bool)
    ensures
        *final(timing) == initialised(*old(timing), value),
        report_at_exit == (!old(timing).initialised && turns_on(value)),
{
    if timing.initialised {
        return false;
    }
    let on: bool = match value {
        None => false,
        Some(v) => {
            let one: bool = text::equal(v, "1".as_bytes());
            let yes: bool = equal_ignoring_case(v, "true".as_bytes());
            one || yes
        },
    };
    *timing = KernelTiming { initialised: true, enabled: on };
    on
}

/// Whether kernels are timed.
pub fn is_enabled(timing: &KernelTiming) -> (r: bool)
    ensures
        r == timing.enabled,
{
    timing.enabled
}

/// Times one run of a kernel: when it started, where kernels are timed.
pub struct TimerGuard {
    pub start: Option<u64>,
}

impl TimerGuard {
    /// Starts to time at `now` nanoseconds.
    pub fn new(timing: &KernelTiming, now: u64) -> (g: TimerGuard)
        ensures
            g.start == (if timing.enabled {
                Some(now)
            } else {
                None
            }),
    {
        if timing.enabled {
            TimerGuard { start: Some(now) }
        } else {
            TimerGuard { start: None }
        }
    }

    /// Ends at `now` nanoseconds and records the run, where it is timed.
    pub fn finish(self, timer: &mut KernelTimer, now: u64)
        requires
            self.start matches Some(s) ==> s <= now,
        ensures
            final(timer).name@ == old(timer).name@,
            match self.start {
                Some(s) => {
                    &&& final(timer).nanos == wrapped_sum(old(timer).nanos, (now - s) as u64)
                    &&& final(timer).calls == wrapped_sum(old(timer).calls, 1)
                },
                None => final(timer).nanos == old(timer).nanos && final(timer).calls == old(
                    timer,
                ).calls,
            },
    {
        match self.start {
            Some(s) => timer.record(now - s),
            None => {},
        }
    }
}

/// A line of the report: which timer, its time and its calls.
#[derive(Clone, Copy, PartialEq, Eq, Structural, Debug)]
pub struct TimerRow {
    pub timer: usize,
    pub nanos: u64,
    pub calls: u64,
}

/// Timers that have run, in their order.
pub open spec fn used_rows(timers: Seq<KernelTimer>) -> Seq<TimerRow>
    decreases timers.len(),
{
    if timers.len() == 0 {
        Seq::empty()
    } else {
        let rest = used_rows(timers.drop_last());
        let t = timers.last();
        if t.nanos > 0 || t.calls > 0 {
            rest.push(
                TimerRow {
                    timer: (timers.len() - 1) as usize,
                    nanos: t.nanos,
                    calls: t.calls,
                },
            )
        } else {
            rest
        }
    }
}

/// Time of all rows.
pub open spec fn total_nanos(rows: Seq<TimerRow>) -> int
    decreases rows.len(),
{
    if rows.len() == 0 {
        0
    } else {
        total_nanos(rows.drop_last()) + rows.last().nanos
    }
}

/// Order of the report: the longest time first.
pub open spec fn longest_first(a: TimerRow, b: TimerRow) -> int {
    if a.nanos > b.nanos {
        -1
    } else if a.nanos < b.nanos {
        1
    } else {
        0
    }
}

/// Rows of the report, and the time of all of them.
pub fn dump_rows(timers: &Vec<KernelTimer>) -> (r: (Vec<TimerRow>, u64))
    requires
        total_nanos(used_rows(timers@)) <= u64::MAX,
    ensures
        r.0@ == sorting::stable_sorted(
            used_rows(timers@),
            |a: TimerRow, b: TimerRow| longest_first(a, b),
        ),
        r.1 == total_nanos(used_rows(timers@)),
{
    let mut rows: Vec<TimerRow> = Vec::new();
    let mut total: u64 = 0;
    let mut i: usize = 0;
    assert(timers@.take(0) =~= Seq::empty());
    assert(rows@ =~= used_rows(timers@.take(0)));
    while i < timers.len()
        invariant
            i <= timers@.len(),
            rows@ == used_rows(timers@.take(i as int)),
            total == total_nanos(rows@),
            total_nanos(used_rows(timers@)) <= u64::MAX,
        decreases timers@.len() - i,
    {
        proof {
            assert(timers@.take(i + 1).drop_last() =~= timers@.take(i as int));
            assert(timers@.take(i + 1).last() == timers@[i as int]);
            lemma_total_grows(timers@, i + 1);
        }
        let ghost before = rows@;
        let t: &KernelTimer = &timers[i];
        if t.nanos > 0 || t.calls > 0 {
            let row = TimerRow { timer: i, nanos: t.nanos, calls: t.calls };
            assert(used_rows(timers@.take(i + 1)) == before.push(row));
            assert(before.push(row).drop_last() =~= before);
            rows.push(row);
            total = total + t.nanos;
        }
        i = i + 1;
    }
    assert(timers@.take(i as int) =~= timers@);
    let f = |a: TimerRow, b: TimerRow| -> (r: i32)
        ensures
            r == longest_first(a, b),
        {
            if a.nanos > b.nanos {
                -1
            } else if a.nanos < b.nanos {
                1
            } else {
                0
            }
        };
    let ghost c = |a: TimerRow, b: TimerRow| longest_first(a, b);
    assert(sorting::answers(f, c));
    sorting::sort_by(&mut rows, &f);
    (rows, total)
}

proof fn lemma_total_grows(timers: Seq<KernelTimer>, n: int)
    requires
        0 <= n <= timers.len(),
    ensures
        total_nanos(used_rows(timers.take(n))) <= total_nanos(used_rows(timers)),
    decreases timers.len() - n,
{
    if n < timers.len() {
        let more = timers.take(n + 1);
        assert(more.drop_last() =~= timers.take(n));
        let rest = used_rows(timers.take(n));
        if used_rows(more) != rest {
            assert(used_rows(more).drop_last() =~= rest);
        }
        lemma_total_grows(timers, n + 1);
    } else {
        assert(timers.take(n) =~= timers);
    }
}

/// First line of the report.
pub fn dump_header(total_ns: u64, kernels: usize) -> (out: Vec<u8>)
    ensures
        out@ == text::lit("[kernel-timing] total_wall_ns=") + text::dec_nat(total_ns as nat)
            + text::lit(" (") + text::dec_nat(kernels as nat) + text::lit(" kernels reported)"),
{
    let mut out: Vec<u8> = Vec::new();
    text::append_str(&mut out, "[kernel-timing] total_wall_ns=");
    text::append_u64(&mut out, total_ns);
    text::append_str(&mut out, " (");
    text::append_u64(&mut out, kernels as u64);
    text::append_str(&mut out, " kernels reported)");
    assert(out@ =~= text::lit("[kernel-timing] total_wall_ns=") + text::dec_nat(total_ns as nat)
        + text::lit(" (") + text::dec_nat(kernels as nat) + text::lit(" kernels reported)"));
    out
}

/// The report lists timers in decreasing order of their time.
pub proof fn law_report_is_ordered(timers: Seq<KernelTimer>, i: int, j: int)
    requires
        0 <= i < j < used_rows(timers).len(),
    ensures
        ({
            let t = sorting::stable_sorted(
                used_rows(timers),
                |a: TimerRow, b: TimerRow| longest_first(a, b),
            );
            t[i].nanos >= t[j].nanos
        }),
{
    let c = |a: TimerRow, b: TimerRow| longest_first(a, b);
    sorting::law_sort_orders(used_rows(timers), c);
    sorting::lemma_sorted_len(used_rows(timers), c);
    let t = sorting::stable_sorted(used_rows(timers), c);
    assert(c(t[i], t[j]) <= 0);
}

/// Kernels are timed where the variable turned timing on when the switch was first set: they are
/// not before that, and whatever the variable says later changes nothing.
pub proof fn law_first_initialisation_counts(
    timing: KernelTiming,
    first: Option<&[u8]>,
    later: Option<&[u8]>,
)
    ensures
        !not_initialised().enabled,
        initialised(not_initialised(), first).enabled == turns_on(first),
        initialised(initialised(timing, first), later) == initialised(timing, first),
{
}

/// Times add up modulo 2 to the power of 64.
pub proof fn law_times_add_up(a: u64, b: u64)
    ensures
        wrapped_sum(a, b) == (a + b) % 0x1_0000_0000_0000_0000,
{
}

/// Timing is turned on by `1`, and by `true` in any mixture of upper and lower case, and by nothing
/// else.
pub proof fn law_what_turns_timing_on(v: &[u8])
    ensures
        turns_on(Some(v)) <==> v@ == seq![49u8] || (v@.len() == 4 && (v@[0] == 116 || v@[0] == 84) && (
        v@[1] == 114 || v@[1] == 82) && (v@[2] == 117 || v@[2] == 85) && (v@[3] == 101 || v@[3]
            == 69)),
        !turns_on(None),
{
    crate::json::lemma_literals();
    reveal_strlit("1");
    vstd::utf8::is_ascii_chars_encode_utf8("1"@);
    assert(text::lit("1") =~= seq![49u8]);
    let t = text::lit("true");
    assert(t[0] == 116 && t[1] == 114 && t[2] == 117 && t[3] == 101);
    if same_ignoring_case(v@, t) {
        assert(lower(v@[0]) == lower(t[0]));
        assert(lower(v@[1]) == lower(t[1]));
        assert(lower(v@[2]) == lower(t[2]));
        assert(lower(v@[3]) == lower(t[3]));
    }
    if v@.len() == 4 && (v@[0] == 116 || v@[0] == 84) && (v@[1] == 114 || v@[1] == 82) && (v@[2]
        == 117 || v@[2] == 85) && (v@[3] == 101 || v@[3] == 69) {
        assert forall|i: int| 0 <= i < v@.len() implies lower(#[trigger] v@[i]) == lower(t[i]) by {
            assert(i == 0 || i == 1 || i == 2 || i == 3);
        }
    }
}

/// The report has a row for every timer that has run, in their order, with its time and calls, and
/// its total is the sum of their times.
pub proof fn law_rows_of_used_timers(timers: Seq<KernelTimer>, t: KernelTimer)
    requires
        timers.len() < usize::MAX,
    ensures
        t.nanos == 0 && t.calls == 0 ==> used_rows(timers.push(t)) == used_rows(timers),
        t.nanos > 0 || t.calls > 0 ==> {
            let rows = used_rows(timers.push(t));
            &&& rows.len() == used_rows(timers).len() + 1
            &&& rows.drop_last() == used_rows(timers)
            &&& rows.last().timer == timers.len()
            &&& rows.last().nanos == t.nanos
            &&& rows.last().calls == t.calls
        },
        used_rows(Seq::empty()).len() == 0,
{
    assert(timers.push(t).drop_last() =~= timers);
    if t.nanos > 0 || t.calls > 0 {
        assert(used_rows(timers.push(t)).drop_last() =~= used_rows(timers));
    }
}

/// The total is the sum of the times of the rows.
pub proof fn law_total_is_the_sum(rows: Seq<TimerRow>)
    ensures
        total_nanos(rows) == rows.fold_left(0int, |v: int, r: TimerRow| v + r.nanos),
    decreases rows.len(),
{
    if rows.len() > 0 {
        law_total_is_the_sum(rows.drop_last());
    }
}

} // verus!
