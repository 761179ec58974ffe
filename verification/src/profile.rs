//! Accounting of the heap and CPU profiler.

use crate::kernel_timing;
use crate::sorting;
use crate::text;
use vstd::prelude::*;

verus! {

/// Program counters that are kept of a sample.
pub const SITE_DEPTH: usize = 6;

/// Innermost frames of a sample that are the profiler's own.
pub const SKIPPED_FRAMES: usize = 2;

/// Sites that are reported.
pub const REPORTED_SITES: usize = 120;

/// Sampling rate where none is given.
pub const DEFAULT_GRAPH_RATE: u64 = 1024;

/// Microseconds between samples where none are given.
pub const DEFAULT_PERIOD_US: u64 = 1000;

/// Bytes above its start that a stack is taken to reach.
pub const STACK_REACH: u64 = 0x100_0000;

// ---------------------------------------------------------------------------
// Allocation totals
// ---------------------------------------------------------------------------

/// Totals of an allocator.
pub struct TrackingAllocator {
    pub alloc_bytes: u64,
    pub free_bytes: u64,
    pub alloc_count: u64,
    pub free_count: u64,
    pub live_peak: u64,
}

/// `a - b`, or 0 where that is negative.
pub open spec fn over(a: int, b: int) -> int {
    if a > b {
        a - b
    } else {
        0
    }
}

impl TrackingAllocator {
    /// Nothing was allocated.
    pub fn new() -> (t: TrackingAllocator)
        ensures
            t.alloc_bytes == 0,
            t.free_bytes == 0,
            t.alloc_count == 0,
            t.free_count == 0,
            t.live_peak == 0,
    {
        TrackingAllocator {
            alloc_bytes: 0,
            free_bytes: 0,
            alloc_count: 0,
            free_count: 0,
            live_peak: 0,
        }
    }

    /// The peak is not below what is live.
    pub open spec fn wf(&self) -> bool {
        self.live_peak >= over(self.alloc_bytes as int, self.free_bytes as int)
    }

    /// Counts an allocation; one that failed is not counted. Whether it was counted.
    pub fn note_alloc(&mut self, size: u64, served: bool) -> (counted: bool)
        requires
            old(self).wf(),
            old(self).alloc_bytes + size <= u64::MAX,
        ensures
            final(self).wf(),
            counted == served,
            final(self).free_bytes == old(self).free_bytes,
            final(self).free_count == old(self).free_count,
            !served ==> *final(self) == *old(self),
            served ==> {
                let live = over(old(self).alloc_bytes + size, old(self).free_bytes as int);
                &&& final(self).alloc_bytes == old(self).alloc_bytes + size
                &&& final(self).alloc_count == kernel_timing::wrapped_sum(old(self).alloc_count, 1)
                &&& final(self).live_peak == (if live > old(self).live_peak {
                    live
                } else {
                    old(self).live_peak as int
                })
            },
    {
        if !served {
            return false;
        }
        self.alloc_bytes = self.alloc_bytes + size;
        self.alloc_count = self.alloc_count.wrapping_add(1);
        let live: u64 = if self.alloc_bytes > self.free_bytes {
            self.alloc_bytes - self.free_bytes
        } else {
            0
        };
        if live > self.live_peak {
            self.live_peak = live;
        }
        true
    }

    /// Counts a release.
    pub fn note_dealloc(&mut self, size: u64)
        requires
            old(self).wf(),
            old(self).free_bytes + size <= u64::MAX,
        ensures
            final(self).wf(),
            final(self).free_bytes == old(self).free_bytes + size,
            final(self).free_count == kernel_timing::wrapped_sum(old(self).free_count, 1),
            final(self).alloc_bytes == old(self).alloc_bytes,
            final(self).alloc_count == old(self).alloc_count,
            final(self).live_peak == old(self).live_peak,
    {
        self.free_bytes = self.free_bytes + size;
        self.free_count = self.free_count.wrapping_add(1);
    }

    /// The totals as a line.
    pub fn rayzor_dump_alloc_stats(&self) -> (out: Vec<u8>)
        ensures
            out@ == text::lit("[alloc-stats] allocs=") + text::dec_nat(self.alloc_count as nat)
                + text::lit(" frees=") + text::dec_nat(self.free_count as nat) + text::lit(
                " alloc_bytes=",
            ) + text::dec_nat(self.alloc_bytes as nat) + text::lit(" free_bytes=") + text::dec_nat(
                self.free_bytes as nat,
            ) + text::lit(" live=") + text::dec_nat(
                over(self.alloc_bytes as int, self.free_bytes as int) as nat,
            ) + text::lit(" peak=") + text::dec_nat(self.live_peak as nat),
    {
        let live: u64 = if self.alloc_bytes > self.free_bytes {
            self.alloc_bytes - self.free_bytes
        } else {
            0
        };
        let mut out: Vec<u8> = Vec::new();
        text::append_str(&mut out, "[alloc-stats] allocs=");
        text::append_u64(&mut out, self.alloc_count);
        text::append_str(&mut out, " frees=");
        text::append_u64(&mut out, self.free_count);
        text::append_str(&mut out, " alloc_bytes=");
        text::append_u64(&mut out, self.alloc_bytes);
        text::append_str(&mut out, " free_bytes=");
        text::append_u64(&mut out, self.free_bytes);
        text::append_str(&mut out, " live=");
        text::append_u64(&mut out, live);
        text::append_str(&mut out, " peak=");
        text::append_u64(&mut out, self.live_peak);
        assert(out@ =~= text::lit("[alloc-stats] allocs=") + text::dec_nat(
            self.alloc_count as nat,
        ) + text::lit(" frees=") + text::dec_nat(self.free_count as nat) + text::lit(
            " alloc_bytes=",
        ) + text::dec_nat(self.alloc_bytes as nat) + text::lit(" free_bytes=") + text::dec_nat(
            self.free_bytes as nat,
        ) + text::lit(" live=") + text::dec_nat(
            over(self.alloc_bytes as int, self.free_bytes as int) as nat,
        ) + text::lit(" peak=") + text::dec_nat(self.live_peak as nat));
        out
    }
}

// ---------------------------------------------------------------------------
// Samples
// ---------------------------------------------------------------------------

/// One thread's sampling: one allocation in `rate` is sampled, none where that is 0, and none
/// while a sample is taken.
pub struct Sampler {
    pub rate: u64,
    pub tick: u64,
    pub busy: bool,
}

impl Sampler {
    /// Counts an allocation; whether it is sampled.
    pub fn sample_due(&mut self) -> (due: bool)
        ensures
            final(self).rate == old(self).rate,
            final(self).busy == old(self).busy,
            if old(self).rate == 0 || old(self).busy {
                !due && final(self).tick == old(self).tick
            } else {
                &&& final(self).tick == kernel_timing::wrapped_sum(old(self).tick, 1)
                &&& due == (final(self).tick % final(self).rate == 0)
            },
    {
        if self.rate == 0 || self.busy {
            return false;
        }
        self.tick = self.tick.wrapping_add(1);
        self.tick % self.rate == 0
    }
}

/// Program counters that are kept of a captured stack: without the profiler's own frames, and
/// with zeros where there are too few.
pub open spec fn kept_pcs(pcs: Seq<u64>) -> Seq<u64> {
    Seq::new(
        SITE_DEPTH as nat,
        |i: int|
            if i + SKIPPED_FRAMES < pcs.len() {
                pcs[i + SKIPPED_FRAMES]
            } else {
                0
            },
    )
}

/// Program counters that are kept of a captured stack.
pub fn keep_pcs(pcs: &Vec<u64>) -> (top: Vec<u64>)
    ensures
        top@ == kept_pcs(pcs@),
{
    let mut top: Vec<u64> = Vec::new();
    while top.len() < SITE_DEPTH
        invariant
            top@.len() <= SITE_DEPTH,
            forall|i: int| 0 <= i < top@.len() ==> #[trigger] top@[i] == kept_pcs(pcs@)[i],
        decreases SITE_DEPTH - top@.len(),
    {
        let at: usize = top.len() + SKIPPED_FRAMES;
        if at < pcs.len() {
            top.push(pcs[at]);
        } else {
            top.push(0);
        }
    }
    assert(top@ =~= kept_pcs(pcs@));
    top
}

/// What a frame record says: the program counter of the call and where the next frame is, as far
/// as they can be believed.
pub struct FrameStep {
    pub pc: Option<u64>,
    pub next: Option<u64>,
}

/// Whether a frame record can be read: its address is aligned and within reach of the stack.
pub fn frame_readable(fp: u64, start_fp: u64) -> (r: bool)
    ensures
        r == (fp % 16 == 0 && 0x1000 <= fp <= (if start_fp + STACK_REACH > u64::MAX {
            u64::MAX as int
        } else {
            start_fp + STACK_REACH
        })),
{
    let top: u64 = start_fp.saturating_add(STACK_REACH);
    fp != 0 && fp % 16 == 0 && fp <= top && fp >= 0x1000
}

/// The step from one frame record to the next: a missing return address ends the walk, and so
/// does a frame that does not lie above this one. The call is one instruction before the return
/// address.
pub fn frame_step(fp: u64, saved_fp: u64, saved_lr: u64) -> (s: FrameStep)
    ensures
        s.pc == (if saved_lr == 0 {
            None
        } else {
            Some(over(saved_lr as int, 4) as u64)
        }),
        s.next == (if saved_lr == 0 || saved_fp <= fp {
            None
        } else {
            Some(saved_fp)
        }),
{
    if saved_lr == 0 {
        return FrameStep { pc: None, next: None };
    }
    let pc: u64 = if saved_lr > 4 {
        saved_lr - 4
    } else {
        0
    };
    if saved_fp <= fp {
        FrameStep { pc: Some(pc), next: None }
    } else {
        FrameStep { pc: Some(pc), next: Some(saved_fp) }
    }
}

/// A place in the program that was sampled: its key, its program counters, and how often.
pub struct SiteStat {
    pub key: u64,
    pub pcs: Vec<u64>,
    pub sampled_count: u64,
}

/// Sampled places.
pub struct GraphSites {
    pub sites: Vec<SiteStat>,
}

/// A sampled place in the abstract.
pub ghost struct Site {
    pub key: u64,
    pub pcs: Seq<u64>,
    pub count: nat,
}

impl View for SiteStat {
    type V = Site;

    open spec fn view(&self) -> Site {
        Site { key: self.key, pcs: self.pcs@, count: self.sampled_count as nat }
    }
}

impl View for GraphSites {
    type V = Seq<Site>;

    open spec fn view(&self) -> Seq<Site> {
        self.sites@.map_values(|s: SiteStat| s@)
    }
}

/// First position of a key from position `i` on; the length where it is not there.
pub open spec fn site_index(sites: Seq<Site>, key: u64, i: int) -> int
    decreases sites.len() - i,
{
    if i < 0 || i >= sites.len() || sites[i].key == key {
        i
    } else {
        site_index(sites, key, i + 1)
    }
}

/// The places after one more sample.
pub open spec fn sampled(sites: Seq<Site>, key: u64, pcs: Seq<u64>) -> Seq<Site> {
    let i = site_index(sites, key, 0);
    if i < sites.len() {
        let s = sites[i];
        sites.update(i, Site { key, pcs: s.pcs, count: s.count + 1 })
    } else {
        sites.push(Site { key, pcs, count: 1 })
    }
}

impl GraphSites {
    /// No samples.
    pub fn new() -> (g: GraphSites)
        ensures
            g@ == Seq::<Site>::empty(),
    {
        let g = GraphSites { sites: Vec::new() };
        assert(g@ =~= Seq::empty());
        g
    }

    /// Adds a sample: the place of that key counts one more, and a new key is a new place.
    pub fn record(&mut self, key: u64, pcs: Vec<u64>)
        requires
            forall|i: int| 0 <= i < old(self)@.len() ==> (#[trigger] old(self)@[i]).count < u64::MAX,
        ensures
            final(self)@ == sampled(old(self)@, key, pcs@),
    {
        let ghost before = self@;
        let mut i: usize = 0;
        while i < self.sites.len() && self.sites[i].key != key
            invariant
                i <= self.sites@.len(),
                before == self@,
                site_index(before, key, 0) == site_index(before, key, i as int),
            decreases self.sites@.len() - i,
        {
            assert(before[i as int].key == self.sites@[i as int].key);
            i = i + 1;
        }
        if i < self.sites.len() {
            assert(before[i as int] == self.sites@[i as int]@);
            let n: u64 = self.sites[i].sampled_count;
            self.sites[i].sampled_count = n + 1;
            assert(self@ =~= sampled(before, key, pcs@));
        } else {
            let site = SiteStat { key, pcs, sampled_count: 1 };
            self.sites.push(site);
            assert(self@ =~= sampled(before, key, pcs@));
        }
    }
}

// ---------------------------------------------------------------------------
// The report
// ---------------------------------------------------------------------------

/// A place in the order of the report: how often it was sampled, and which it is.
#[derive(Clone, Copy, PartialEq, Eq, Structural, Debug)]
pub struct SiteRank {
    pub count: u64,
    pub site: usize,
}

/// Order of the report: what was sampled most often first.
pub open spec fn most_first(a: SiteRank, b: SiteRank) -> int {
    if a.count > b.count {
        -1
    } else if a.count < b.count {
        1
    } else {
        0
    }
}

/// The places in the order of the report.
pub open spec fn ranked(sites: Seq<Site>) -> Seq<SiteRank> {
    sorting::stable_sorted(
        Seq::new(
            sites.len(),
            |i: int| SiteRank { count: sites[i].count as u64, site: i as usize },
        ),
        |a: SiteRank, b: SiteRank| most_first(a, b),
    )
}

/// Number of allocations that one sample stands for.
pub open spec fn scale_of(rate: u64) -> int {
    if rate == 0 {
        1
    } else {
        rate as int
    }
}

/// Program counters of a place, each behind a comma.
pub open spec fn pcs_text(pcs: Seq<u64>) -> Seq<u8>
    decreases pcs.len(),
{
    if pcs.len() == 0 {
        Seq::empty()
    } else {
        pcs_text(pcs.drop_last()) + text::lit(",0x") + text::hex_nat(pcs.last() as nat)
    }
}

/// A line of the report.
pub open spec fn row_text(rank: int, site: Site, scale: int) -> Seq<u8> {
    text::dec_nat(rank as nat) + seq![44u8] + text::dec_nat(site.count) + seq![44u8]
        + text::dec_nat((site.count * scale) as nat) + pcs_text(site.pcs) + seq![10u8]
}

/// The first `n` lines of the report.
pub open spec fn rows_text(sites: Seq<Site>, order: Seq<SiteRank>, scale: int, n: int) -> Seq<u8>
    decreases n,
{
    if n <= 0 {
        Seq::empty()
    } else {
        rows_text(sites, order, scale, n - 1) + row_text(n, sites[order[n - 1].site as int], scale)
    }
}

/// First line of the report.
pub open spec fn csv_header() -> Seq<u8> {
    text::lit("rank,sampled_allocs,est_total_allocs,pc1,pc2,pc3,pc4,pc5,pc6\n")
}

fn append_pcs(out: &mut Vec<u8>, pcs: &Vec<u64>)
    ensures
        final(out)@ == old(out)@ + pcs_text(pcs@),
{
    let ghost before = out@;
    let mut i: usize = 0;
    assert(pcs@.take(0) =~= Seq::empty());
    assert(out@ =~= before + pcs_text(pcs@.take(0)));
    while i < pcs.len()
        invariant
            i <= pcs@.len(),
            out@ == before + pcs_text(pcs@.take(i as int)),
        decreases pcs@.len() - i,
    {
        text::append_str(out, ",0x");
        text::append_hex(out, pcs[i]);
        assert(pcs@.take(i + 1).drop_last() =~= pcs@.take(i as int));
        i = i + 1;
        assert(out@ =~= before + pcs_text(pcs@.take(i as int)));
    }
    assert(pcs@.take(i as int) =~= pcs@);
}

/// The sampled places as a table, the most frequent ones first.
pub fn rayzor_dump_alloc_graph(graph: &GraphSites, rate: u64) -> (out: Vec<u8>)
    requires
        forall|i: int|
            0 <= i < graph@.len() ==> (#[trigger] graph@[i]).count * scale_of(rate) <= u64::MAX,
    ensures
        out@ == csv_header() + rows_text(
            graph@,
            ranked(graph@),
            scale_of(rate),
            if graph@.len() < REPORTED_SITES {
                graph@.len() as int
            } else {
                REPORTED_SITES as int
            },
        ),
{
    let scale: u64 = if rate == 0 {
        1
    } else {
        rate
    };
    let ghost start = Seq::new(
        graph@.len(),
        |i: int| SiteRank { count: graph@[i].count as u64, site: i as usize },
    );
    let mut order: Vec<SiteRank> = Vec::new();
    let mut i: usize = 0;
    while i < graph.sites.len()
        invariant
            i <= graph.sites@.len(),
            start == Seq::new(
                graph@.len(),
                |i: int| SiteRank { count: graph@[i].count as u64, site: i as usize },
            ),
            order@ == start.take(i as int),
        decreases graph.sites@.len() - i,
    {
        order.push(SiteRank { count: graph.sites[i].sampled_count, site: i });
        i = i + 1;
        assert(order@ =~= start.take(i as int));
    }
    assert(order@ =~= start);
    let f = |a: SiteRank, b: SiteRank| -> (r: i32)
        ensures
            r == most_first(a, b),
        {
            if a.count > b.count {
                -1
            } else if a.count < b.count {
                1
            } else {
                0
            }
        };
    let ghost c = |a: SiteRank, b: SiteRank| most_first(a, b);
    assert(sorting::answers(f, c));
    sorting::sort_by(&mut order, &f);
    proof {
        lemma_ranked_sites(start, c, graph@.len() as int);
    }
    let mut out: Vec<u8> = Vec::new();
    text::append_str(
        &mut out,
        "rank,sampled_allocs,est_total_allocs,pc1,pc2,pc3,pc4,pc5,pc6\n",
    );
    let n: usize = if order.len() < REPORTED_SITES {
        order.len()
    } else {
        REPORTED_SITES
    };
    let mut k: usize = 0;
    assert(out@ =~= csv_header() + rows_text(graph@, order@, scale as int, 0));
    while k < n
        invariant
            k <= n <= order@.len(),
            n <= REPORTED_SITES,
            scale == scale_of(rate),
            forall|i: int|
                0 <= i < graph@.len() ==> (#[trigger] graph@[i]).count * scale_of(rate) <= u64::MAX,
            forall|j: int| 0 <= j < order@.len() ==> (#[trigger] order@[j]).site < graph@.len(),
            out@ == csv_header() + rows_text(graph@, order@, scale as int, k as int),
        decreases n - k,
    {
        let at: usize = order[k].site;
        let site: &SiteStat = &graph.sites[at];
        let ghost before = out@;
        assert(graph@[at as int] == site@);
        text::append_u64(&mut out, (k + 1) as u64);
        out.push(44);
        text::append_u64(&mut out, site.sampled_count);
        out.push(44);
        text::append_u64(&mut out, site.sampled_count * scale);
        append_pcs(&mut out, &site.pcs);
        out.push(10);
        assert(out@ =~= before + row_text(k + 1, site@, scale as int));
        k = k + 1;
        assert(out@ =~= csv_header() + rows_text(graph@, order@, scale as int, k as int));
    }
    out
}

proof fn lemma_ranked_sites(s: Seq<SiteRank>, c: spec_fn(SiteRank, SiteRank) -> int, n: int)
    requires
        forall|i: int| 0 <= i < s.len() ==> (#[trigger] s[i]).site < n,
    ensures
        forall|i: int|
            0 <= i < sorting::stable_sorted(s, c).len() ==> (#[trigger] sorting::stable_sorted(
                s,
                c,
            )[i]).site < n,
        sorting::stable_sorted(s, c).len() == s.len(),
    decreases s.len(),
{
    sorting::lemma_sorted_len(s, c);
    if s.len() > 0 {
        let front = s.drop_last();
        assert forall|i: int| 0 <= i < front.len() implies (#[trigger] front[i]).site < n by {
            assert(front[i] == s[i]);
        }
        lemma_ranked_sites(front, c, n);
        let rest = sorting::stable_sorted(front, c);
        sorting::lemma_insert_pos(rest, s.last(), c);
        let q = sorting::insert_pos(rest, s.last(), c);
        assert(s[s.len() - 1].site < n);
        assert forall|i: int| 0 <= i < sorting::stable_sorted(s, c).len() implies (
        #[trigger] sorting::stable_sorted(s, c)[i]).site < n by {
            if i < q {
                assert(rest[i].site < n);
            } else if i > q {
                assert(rest[i - 1].site < n);
            }
        }
    }
}

/// What is printed when the table was written.
pub fn graph_message(sites: usize, rate: u64) -> (out: Vec<u8>)
    ensures
        out@ == text::lit("[alloc-graph] wrote ") + text::dec_nat(
            (if sites < REPORTED_SITES {
                sites
            } else {
                REPORTED_SITES
            }) as nat,
        ) + text::lit(" top sites to /tmp/rayzor_alloc_graph.csv (rate 1/") + text::dec_nat(
            scale_of(rate) as nat,
        ) + seq![41u8],
{
    let n: usize = if sites < REPORTED_SITES {
        sites
    } else {
        REPORTED_SITES
    };
    let scale: u64 = if rate == 0 {
        1
    } else {
        rate
    };
    let mut out: Vec<u8> = Vec::new();
    text::append_str(&mut out, "[alloc-graph] wrote ");
    text::append_u64(&mut out, n as u64);
    text::append_str(&mut out, " top sites to /tmp/rayzor_alloc_graph.csv (rate 1/");
    text::append_u64(&mut out, scale);
    out.push(41);
    assert(out@ =~= text::lit("[alloc-graph] wrote ") + text::dec_nat(n as nat) + text::lit(
        " top sites to /tmp/rayzor_alloc_graph.csv (rate 1/",
    ) + text::dec_nat(scale as nat) + seq![41u8]);
    out
}

// ---------------------------------------------------------------------------
// Settings
// ---------------------------------------------------------------------------

/// Digits of a number without its plus sign.
pub open spec fn digits_of(s: Seq<u8>) -> Seq<u8> {
    if s.len() > 0 && s[0] == 43 {
        s.drop_first()
    } else {
        s
    }
}

/// All bytes are digits.
pub open spec fn all_digits(s: Seq<u8>) -> bool {
    forall|i: int| 0 <= i < s.len() ==> text::is_digit(#[trigger] s[i])
}

/// The 64-bit number that a text is.
pub open spec fn number_in(s: Seq<u8>) -> Option<u64> {
    let d = digits_of(s);
    if d.len() > 0 && all_digits(d) && text::dec_value(d) <= u64::MAX {
        Some(text::dec_value(d) as u64)
    } else {
        None
    }
}

proof fn lemma_dec_value_grows(s: Seq<u8>, n: int)
    requires
        0 <= n <= s.len(),
        all_digits(s),
    ensures
        text::dec_value(s.take(n)) <= text::dec_value(s),
    decreases s.len() - n,
{
    if n < s.len() {
        assert(s.take(n + 1).drop_last() =~= s.take(n));
        assert(text::is_digit(s[n]));
        assert(s.take(n + 1).last() == s[n]);
        lemma_dec_value_grows(s, n + 1);
    } else {
        assert(s.take(n) =~= s);
    }
}

/// The 64-bit number that a text is: decimal digits, behind a plus sign or not.
pub fn parse_number(s: &[u8]) -> (n: Option<u64>)
    ensures
        n == number_in(s@),
{
    let start: usize = if s.len() > 0 && s[0] == 43 {
        1
    } else {
        0
    };
    let ghost d = digits_of(s@);
    assert(d =~= s@.skip(start as int));
    if start == s.len() {
        return None;
    }
    let mut v: u64 = 0;
    let mut i: usize = start;
    assert(d.take(0) =~= Seq::empty());
    while i < s.len()
        invariant
            start <= i <= s@.len(),
            d == s@.skip(start as int),
            d == digits_of(s@),
            d.len() > 0,
            forall|j: int| 0 <= j < i - start ==> text::is_digit(#[trigger] d[j]),
            v == text::dec_value(d.take(i - start)),
        decreases s@.len() - i,
    {
        let b: u8 = s[i];
        proof {
            assert(d[i - start] == b);
            assert(d.take(i - start + 1).drop_last() =~= d.take(i - start));
            assert(d.take(i - start + 1).last() == b);
        }
        if b < 48 || b > 57 {
            assert(!text::is_digit(d[i - start]));
            return None;
        }
        let digit: u64 = (b - 48) as u64;
        if v > u64::MAX / 10 || (v == u64::MAX / 10 && digit > u64::MAX % 10) {
            proof {
                if all_digits(d) {
                    lemma_dec_value_grows(d, i - start + 1);
                }
            }
            return None;
        }
        v = v * 10 + digit;
        i = i + 1;
    }
    assert(d.take(i - start) =~= d);
    Some(v)
}

/// A positive number from a variable, or the default.
pub fn positive_setting(value: Option<&[u8]>, default: u64) -> (n: u64)
    ensures
        n == (match value {
            Some(v) => match number_in(v@) {
                Some(k) => if k > 0 {
                    k
                } else {
                    default
                },
                None => default,
            },
            None => default,
        }),
{
    match value {
        Some(v) => match parse_number(v) {
            Some(k) => if k > 0 {
                k
            } else {
                default
            },
            None => default,
        },
        None => default,
    }
}

/// Whether a variable switches something on: only `1` does.
pub fn switched_on(value: Option<&[u8]>) -> (r: bool)
    ensures
        match value {
            Some(v) => r == (v@ == text::lit("1")),
            None => !r,
        },
{
    match value {
        Some(v) => text::equal(v, "1".as_bytes()),
        None => false,
    }
}

/// A period as whole seconds and microseconds.
pub fn timer_interval(period_us: u64) -> (t: (u64, u64))
    ensures
        t.0 == period_us / 1_000_000,
        t.1 == period_us % 1_000_000,
        t.0 * 1_000_000 + t.1 == period_us,
{
    (period_us / 1_000_000, period_us % 1_000_000)
}

/// Whether the profiler is armed.
pub struct CpuProfiler {
    pub active: bool,
}

impl CpuProfiler {
    /// Arms the profiler; whether there is anything to do.
    pub fn rayzor_profile_start(&mut self) -> (arm: bool)
        ensures
            arm == !old(self).active,
            final(self).active,
    {
        let arm: bool = !self.active;
        self.active = true;
        arm
    }

    /// Disarms the profiler; whether there is anything to do.
    pub fn rayzor_profile_stop(&mut self) -> (disarm: bool)
        ensures
            disarm == old(self).active,
            !final(self).active,
    {
        let disarm: bool = self.active;
        self.active = false;
        disarm
    }
}

/// When the profiler samples: at once and for ever, or after a delay and for a time.
#[derive(Clone, Copy, PartialEq, Eq, Structural, Debug)]
pub enum ProfilePlan {
    Now,
    Scheduled { delay_ms: u64, duration_ms: Option<u64> },
}

/// When the profiler samples, by the delay and the duration; 0 stands for none.
pub fn profile_plan(delay_ms: u64, duration_ms: u64) -> (p: ProfilePlan)
    ensures
        p == (if delay_ms == 0 && duration_ms == 0 {
            ProfilePlan::Now
        } else {
            ProfilePlan::Scheduled {
                delay_ms,
                duration_ms: if duration_ms > 0 {
                    Some(duration_ms)
                } else {
                    None
                },
            }
        }),
{
    if delay_ms == 0 && duration_ms == 0 {
        ProfilePlan::Now
    } else {
        ProfilePlan::Scheduled {
            delay_ms,
            duration_ms: if duration_ms > 0 {
                Some(duration_ms)
            } else {
                None
            },
        }
    }
}

/// What is printed before a delay.
pub fn arming_message(delay_ms: u64, period_us: u64, duration_ms: u64) -> (out: Vec<u8>)
    ensures
        out@ == text::lit("[cpu-profile] arming SIGPROF in ") + text::dec_nat(delay_ms as nat)
            + text::lit("ms (period=") + text::dec_nat(period_us as nat) + text::lit("us") + (
        if duration_ms > 0 {
            text::lit(", duration=") + text::dec_nat(duration_ms as nat) + text::lit("ms")
        } else {
            Seq::empty()
        }) + seq![41u8],
{
    let mut out: Vec<u8> = Vec::new();
    text::append_str(&mut out, "[cpu-profile] arming SIGPROF in ");
    text::append_u64(&mut out, delay_ms);
    text::append_str(&mut out, "ms (period=");
    text::append_u64(&mut out, period_us);
    text::append_str(&mut out, "us");
    let ghost head = out@;
    assert(head =~= text::lit("[cpu-profile] arming SIGPROF in ") + text::dec_nat(delay_ms as nat)
        + text::lit("ms (period=") + text::dec_nat(period_us as nat) + text::lit("us"));
    if duration_ms > 0 {
        text::append_str(&mut out, ", duration=");
        text::append_u64(&mut out, duration_ms);
        text::append_str(&mut out, "ms");
    }
    let ghost tail = if duration_ms > 0 {
        text::lit(", duration=") + text::dec_nat(duration_ms as nat) + text::lit("ms")
    } else {
        Seq::empty()
    };
    assert(out@ =~= head + tail);
    out.push(41);
    assert(out@ =~= head + tail + seq![41u8]);
    out
}

/// A number from a variable, or 0.
pub open spec fn setting_or_zero(value: Option<&[u8]>) -> u64 {
    match value {
        Some(v) => match number_in(v@) {
            Some(k) => k,
            None => 0,
        },
        None => 0,
    }
}

fn number_setting(value: Option<&[u8]>) -> (n: u64)
    ensures
        n == setting_or_zero(value),
{
    match value {
        Some(v) => match parse_number(v) {
            Some(k) => k,
            None => 0,
        },
        None => 0,
    }
}

/// A positive number from a variable, or the default.
pub open spec fn setting_or(value: Option<&[u8]>, default: u64) -> u64 {
    if setting_or_zero(value) > 0 {
        setting_or_zero(value)
    } else {
        default
    }
}

/// Whether a variable is `1`.
pub open spec fn is_one(value: Option<&[u8]>) -> bool {
    value matches Some(v) && v@ == text::lit("1")
}

/// Variables that arm profiling.
pub struct HookSettings<'a> {
    /// `RAYZOR_ALLOC_GRAPH`.
    pub graph: Option<&'a [u8]>,
    /// `RAYZOR_ALLOC_GRAPH_RATE`.
    pub graph_rate: Option<&'a [u8]>,
    /// `RAYZOR_CPU_PROFILE`.
    pub cpu: Option<&'a [u8]>,
    /// `RAYZOR_CPU_PROFILE_US`.
    pub cpu_period: Option<&'a [u8]>,
    /// `RAYZOR_CPU_PROFILE_DELAY_MS`.
    pub cpu_delay: Option<&'a [u8]>,
    /// `RAYZOR_CPU_PROFILE_DURATION_MS`.
    pub cpu_duration: Option<&'a [u8]>,
    /// `RAYZOR_DUMP_ALLOC_AT_EXIT`.
    pub at_exit: Option<&'a [u8]>,
}

/// The processor's profiler: its period and when it samples.
#[derive(Clone, Copy, PartialEq, Eq, Structural, Debug)]
pub struct CpuPlan {
    pub period_us: u64,
    pub delay_ms: u64,
    pub duration_ms: u64,
    pub schedule: ProfilePlan,
}

/// What is armed: sampling of allocations at a rate, the processor's profiler, and reports at the
/// end of the process and on signals. Allocation sites are kept where one of the first two is.
#[derive(Clone, Copy, PartialEq, Eq, Structural, Debug)]
pub struct HookPlan {
    pub graph_rate: Option<u64>,
    pub cpu: Option<CpuPlan>,
    pub keep_sites: bool,
    pub report_at_exit: bool,
}

/// When the profiler samples, by the delay and the duration; 0 stands for none.
pub open spec fn schedule_of(delay_ms: u64, duration_ms: u64) -> ProfilePlan {
    if delay_ms == 0 && duration_ms == 0 {
        ProfilePlan::Now
    } else {
        ProfilePlan::Scheduled {
            delay_ms,
            duration_ms: if duration_ms > 0 {
                Some(duration_ms)
            } else {
                None
            },
        }
    }
}

/// What is armed by settings.
pub open spec fn hook_plan(s: HookSettings) -> HookPlan {
    HookPlan {
        graph_rate: if is_one(s.graph) {
            Some(setting_or(s.graph_rate, DEFAULT_GRAPH_RATE))
        } else {
            None
        },
        cpu: if is_one(s.cpu) {
            Some(
                CpuPlan {
                    period_us: setting_or(s.cpu_period, DEFAULT_PERIOD_US),
                    delay_ms: setting_or_zero(s.cpu_delay),
                    duration_ms: setting_or_zero(s.cpu_duration),
                    schedule: schedule_of(
                        setting_or_zero(s.cpu_delay),
                        setting_or_zero(s.cpu_duration),
                    ),
                },
            )
        } else {
            None
        },
        keep_sites: is_one(s.graph) || is_one(s.cpu),
        report_at_exit: is_one(s.at_exit),
    }
}

/// What is armed, once in a process: the settings are read the first time only.
pub fn ensure_alloc_dump_hooks(armed: &mut bool, s: &HookSettings) -> (plan: Option<HookPlan>)
    ensures
        *final(armed),
        plan == if *old(armed) {
            None
        } else {
            Some(hook_plan(*s))
        },
{
    if *armed {
        return None;
    }
    *armed = true;
    let graph: bool = switched_on(s.graph);
    let cpu: bool = switched_on(s.cpu);
    let graph_rate: Option<u64> = if graph {
        Some(positive_setting(s.graph_rate, DEFAULT_GRAPH_RATE))
    } else {
        None
    };
    let cpu_plan: Option<CpuPlan> = if cpu {
        let delay_ms: u64 = number_setting(s.cpu_delay);
        let duration_ms: u64 = number_setting(s.cpu_duration);
        Some(
            CpuPlan {
                period_us: positive_setting(s.cpu_period, DEFAULT_PERIOD_US),
                delay_ms,
                duration_ms,
                schedule: profile_plan(delay_ms, duration_ms),
            },
        )
    } else {
        None
    };
    Some(
        HookPlan {
            graph_rate,
            cpu: cpu_plan,
            keep_sites: graph || cpu,
            report_at_exit: switched_on(s.at_exit),
        },
    )
}

/// What is printed when the profiler is armed.
pub fn armed_message(period_us: u64) -> (out: Vec<u8>)
    ensures
        out@ == text::lit("[cpu-profile] SIGPROF profiler armed (period=") + text::dec_nat(
            period_us as nat,
        ) + text::lit("us)"),
{
    let mut out: Vec<u8> = Vec::new();
    text::append_str(&mut out, "[cpu-profile] SIGPROF profiler armed (period=");
    text::append_u64(&mut out, period_us);
    text::append_str(&mut out, "us)");
    assert(out@ =~= text::lit("[cpu-profile] SIGPROF profiler armed (period=") + text::dec_nat(
        period_us as nat,
    ) + text::lit("us)"));
    out
}

/// What is printed when the profiler was disarmed after a time.
pub fn disarmed_message(duration_ms: u64) -> (out: Vec<u8>)
    ensures
        out@ == text::lit("[cpu-profile] SIGPROF disarmed after ") + text::dec_nat(
            duration_ms as nat,
        ) + text::lit("ms duration"),
{
    let mut out: Vec<u8> = Vec::new();
    text::append_str(&mut out, "[cpu-profile] SIGPROF disarmed after ");
    text::append_u64(&mut out, duration_ms);
    text::append_str(&mut out, "ms duration");
    assert(out@ =~= text::lit("[cpu-profile] SIGPROF disarmed after ") + text::dec_nat(
        duration_ms as nat,
    ) + text::lit("ms duration"));
    out
}

/// The function in which an address lies: its name, its start, and the file that holds it.
pub struct Symbol {
    pub name: Vec<u8>,
    pub start: u64,
    pub file: Option<Vec<u8>>,
}

/// Place behind the last slash.
pub open spec fn after_slash(path: Seq<u8>) -> int
    decreases path.len(),
{
    if path.len() == 0 {
        0
    } else if path.last() == 47 {
        path.len() as int
    } else {
        after_slash(path.drop_last())
    }
}

/// The part of a path behind its last slash.
pub open spec fn file_name(path: Seq<u8>) -> Seq<u8> {
    path.skip(after_slash(path))
}

proof fn lemma_after_slash(path: Seq<u8>, k: int)
    requires
        0 <= k <= path.len(),
        k > 0 ==> path[k - 1] == 47,
        forall|i: int| k <= i < path.len() ==> path[i] != 47,
    ensures
        after_slash(path) == k,
    decreases path.len() - k,
{
    if path.len() > k {
        assert(path.last() != 47);
        let front = path.drop_last();
        assert(k > 0 ==> front[k - 1] == 47);
        lemma_after_slash(front, k);
    } else if k > 0 {
        assert(path.last() == 47);
    }
}

/// The part of a path behind its last slash.
fn base_name(path: &Vec<u8>) -> (name: Vec<u8>)
    ensures
        name@ == file_name(path@),
{
    let mut k: usize = path.len();
    while k > 0 && path[k - 1] != 47
        invariant
            k <= path@.len(),
            forall|i: int| k <= i < path@.len() ==> path@[i] != 47,
        decreases k,
    {
        k = k - 1;
    }
    proof {
        lemma_after_slash(path@, k as int);
    }
    let name: Vec<u8> = text::copy_range(path.as_slice(), k, path.len());
    assert(name@ =~= path@.skip(k as int));
    name
}

/// A line of the report of a signal: an address, and the function, the offset in it and the file
/// if it is known.
pub open spec fn frame_text(pc: u64, symbol: Option<Symbol>) -> Seq<u8> {
    text::lit("  0x") + text::hex_nat(pc as nat) + match symbol {
        None => text::lit("  (in JIT / unresolved)"),
        Some(s) => text::lit("  ") + s.name@ + text::lit(" +0x") + text::hex_nat(
            (if pc > s.start {
                pc - s.start
            } else {
                0
            }) as nat,
        ) + text::lit("  (") + match s.file {
            Some(f) => file_name(f@),
            None => text::lit("?"),
        } + seq![41u8],
    }
}

/// A line of the report of a signal.
pub fn frame_line(pc: u64, symbol: &Option<Symbol>) -> (out: Vec<u8>)
    ensures
        out@ == frame_text(pc, *symbol),
{
    let mut out: Vec<u8> = Vec::new();
    text::append_str(&mut out, "  0x");
    text::append_hex(&mut out, pc);
    match symbol {
        None => {
            text::append_str(&mut out, "  (in JIT / unresolved)");
            assert(out@ =~= text::lit("  0x") + text::hex_nat(pc as nat) + text::lit(
                "  (in JIT / unresolved)",
            ));
        },
        Some(s) => {
            let offset: u64 = if pc > s.start {
                pc - s.start
            } else {
                0
            };
            let file: Vec<u8> = match &s.file {
                Some(f) => base_name(f),
                None => text::copy_all("?".as_bytes()),
            };
            let ghost head = out@;
            text::append_str(&mut out, "  ");
            text::append(&mut out, s.name.as_slice());
            text::append_str(&mut out, " +0x");
            text::append_hex(&mut out, offset);
            text::append_str(&mut out, "  (");
            text::append(&mut out, file.as_slice());
            out.push(41);
            assert(out@ =~= head + (text::lit("  ") + s.name@ + text::lit(" +0x") + text::hex_nat(
                offset as nat,
            ) + text::lit("  (") + file@ + seq![41u8]));
        },
    }
    out
}

/// First line of the report of a signal.
pub fn signal_header(signal: u32, process: u32) -> (out: Vec<u8>)
    ensures
        out@ == text::lit("[sig") + text::dec_nat(signal as nat) + text::lit("-backtrace pid=")
            + text::dec_nat(process as nat) + seq![93u8],
{
    let mut out: Vec<u8> = Vec::new();
    text::append_str(&mut out, "[sig");
    text::append_u64(&mut out, signal as u64);
    text::append_str(&mut out, "-backtrace pid=");
    text::append_u64(&mut out, process as u64);
    out.push(93);
    assert(out@ =~= text::lit("[sig") + text::dec_nat(signal as nat) + text::lit(
        "-backtrace pid=",
    ) + text::dec_nat(process as nat) + seq![93u8]);
    out
}

/// Samples of different places are counted apart, and every sample is counted.
pub proof fn law_sample_counts(sites: Seq<Site>, key: u64, pcs: Seq<u64>, other: u64)
    requires
        other != key,
    ensures
        count_of(sampled(sites, key, pcs), key) == count_of(sites, key) + 1,
        count_of(sampled(sites, key, pcs), other) == count_of(sites, other),
{
    lemma_site_index(sites, key, 0);
    lemma_site_index(sites, other, 0);
    let after = sampled(sites, key, pcs);
    lemma_site_index(after, key, 0);
    lemma_site_index(after, other, 0);
    let i = site_index(sites, key, 0);
    let o = site_index(sites, other, 0);
    if i < sites.len() {
        lemma_site_index_is(after, key, i);
        if o < sites.len() {
            lemma_site_index_is(after, other, o);
        }
    } else {
        lemma_site_index_is(after, key, sites.len() as int);
        if o < sites.len() {
            lemma_site_index_is(after, other, o);
        }
    }
}

/// How often a place was sampled.
pub open spec fn count_of(sites: Seq<Site>, key: u64) -> nat {
    let i = site_index(sites, key, 0);
    if i < sites.len() {
        sites[i].count
    } else {
        0
    }
}

proof fn lemma_site_index(sites: Seq<Site>, key: u64, i: int)
    requires
        0 <= i <= sites.len(),
    ensures
        i <= site_index(sites, key, i) <= sites.len(),
        site_index(sites, key, i) < sites.len() ==> sites[site_index(sites, key, i)].key == key,
        forall|j: int| i <= j < site_index(sites, key, i) ==> (#[trigger] sites[j]).key != key,
    decreases sites.len() - i,
{
    if i < sites.len() && sites[i].key != key {
        lemma_site_index(sites, key, i + 1);
    }
}

proof fn lemma_site_index_is(sites: Seq<Site>, key: u64, at: int)
    requires
        0 <= at < sites.len(),
        sites[at].key == key,
        forall|j: int| 0 <= j < at ==> (#[trigger] sites[j]).key != key,
    ensures
        site_index(sites, key, 0) == at,
{
    lemma_site_index(sites, key, 0);
    let i = site_index(sites, key, 0);
    if i < at {
        assert(sites[i].key != key);
    }
    if at < i {
        assert(sites[at].key != key);
    }
}

/// Of a captured stack, six program counters are kept: those behind the first two, with zeros
/// where there are too few.
pub proof fn law_kept_counters(pcs: Seq<u64>, i: int)
    requires
        0 <= i < 6,
    ensures
        kept_pcs(pcs).len() == 6,
        i + 2 < pcs.len() ==> kept_pcs(pcs)[i] == pcs[i + 2],
        i + 2 >= pcs.len() ==> kept_pcs(pcs)[i] == 0,
{
}

/// A first sample of a place notes its program counters, and further ones keep them.
pub proof fn law_samples_keep_counters(sites: Seq<Site>, key: u64, pcs: Seq<u64>, i: int)
    ensures
        (forall|j: int| 0 <= j < sites.len() ==> (#[trigger] sites[j]).key != key) ==> sampled(
            sites,
            key,
            pcs,
        ) == sites.push(Site { key, pcs, count: 1 }),
        0 <= i < sites.len() && sites[i].key == key && (forall|j: int|
            0 <= j < i ==> (#[trigger] sites[j]).key != key) ==> sampled(sites, key, pcs)
            == sites.update(i, Site { key, pcs: sites[i].pcs, count: sites[i].count + 1 }),
{
    if forall|j: int| 0 <= j < sites.len() ==> (#[trigger] sites[j]).key != key {
        lemma_first_site(sites, key, 0, sites.len() as int);
    }
    if 0 <= i < sites.len() && sites[i].key == key && (forall|j: int|
        0 <= j < i ==> (#[trigger] sites[j]).key != key) {
        lemma_first_site(sites, key, 0, i);
    }
}

proof fn lemma_first_site(sites: Seq<Site>, key: u64, i: int, k: int)
    requires
        0 <= i <= k <= sites.len(),
        k < sites.len() ==> sites[k].key == key,
        forall|j: int| i <= j < k ==> (#[trigger] sites[j]).key != key,
    ensures
        site_index(sites, key, i) == k,
    decreases k - i,
{
    if i < k {
        assert(sites[i].key != key);
        lemma_first_site(sites, key, i + 1, k);
    }
}

/// A setting is a decimal number of at most 64 bits, with or without a plus sign; anything else,
/// and a missing setting, counts as 0, for which a default is taken.
pub proof fn law_settings(sign: Seq<u8>, digits: Seq<u8>, v: &[u8], default: u64)
    requires
        sign == Seq::<u8>::empty() || sign == seq![43u8],
        digits.len() > 0,
        forall|i: int| 0 <= i < digits.len() ==> 48 <= #[trigger] digits[i] <= 57,
        v@ == sign + digits,
    ensures
        ({
            let n = digits.fold_left(0int, |v: int, c: u8| 10 * v + (c - 48));
            &&& n <= u64::MAX ==> setting_or_zero(Some(v)) == n
            &&& n > u64::MAX ==> setting_or_zero(Some(v)) == 0
            &&& 0 < n <= u64::MAX ==> setting_or(Some(v), default) == n
            &&& n == 0 || n > u64::MAX ==> setting_or(Some(v), default) == default
        }),
        setting_or_zero(None) == 0,
        setting_or(None, default) == default,
{
    text::law_decimal_value(digits);
    assert(digits_of(v@) =~= digits);
    assert(all_digits(digits));
}

/// Without a delay and a duration the profiler samples at once and to the end.
pub proof fn law_schedules(delay: u64, duration: u64)
    ensures
        schedule_of(0, 0) == ProfilePlan::Now,
        duration > 0 ==> schedule_of(delay, duration) == (ProfilePlan::Scheduled {
            delay_ms: delay,
            duration_ms: Some(duration),
        }),
        delay > 0 ==> schedule_of(delay, 0) == (ProfilePlan::Scheduled {
            delay_ms: delay,
            duration_ms: None,
        }),
{
}

/// The name of a file is what stands behind the last slash of its path.
pub proof fn law_file_name(dir: Seq<u8>, name: Seq<u8>)
    requires
        forall|i: int| 0 <= i < name.len() ==> name[i] != 47,
    ensures
        file_name(name) == name,
        file_name(dir + seq![47u8] + name) == name,
{
    lemma_slash_before(dir, name);
    assert(name.skip(0) =~= name);
    assert((dir + seq![47u8] + name).skip(dir.len() as int + 1) =~= name);
}

proof fn lemma_slash_before(dir: Seq<u8>, name: Seq<u8>)
    requires
        forall|i: int| 0 <= i < name.len() ==> name[i] != 47,
    ensures
        after_slash(name) == 0,
        after_slash(dir + seq![47u8] + name) == dir.len() + 1,
    decreases name.len(),
{
    let path = dir + seq![47u8] + name;
    if name.len() > 0 {
        let less = name.drop_last();
        assert forall|i: int| 0 <= i < less.len() implies less[i] != 47 by {
            assert(less[i] == name[i]);
        }
        lemma_slash_before(dir, less);
        assert(path.drop_last() =~= dir + seq![47u8] + less);
        assert(path.last() == name.last());
    } else {
        assert(path.last() == 47);
    }
}

/// A line of the report: the rank, the samples, as many times the rate, and each program counter in
/// hexadecimal, with commas between them.
pub proof fn law_report_lines(rank: int, site: Site, scale: int, pcs: Seq<u64>, pc: u64)
    requires
        0 <= rank,
        0 <= scale,
    ensures
        row_text(rank, site, scale) == text::dec_int(rank) + seq![44u8] + text::dec_int(
            site.count as int,
        ) + seq![44u8] + text::dec_int(site.count * scale) + pcs_text(site.pcs) + seq![10u8],
        pcs_text(pcs.push(pc)) == pcs_text(pcs) + seq![44u8, 48, 120] + text::hex_nat(pc as nat),
        pcs_text(Seq::empty()) == Seq::<u8>::empty(),
{
    reveal_strlit(",0x");
    vstd::utf8::is_ascii_chars_encode_utf8(",0x"@);
    assert(text::lit(",0x") =~= seq![44u8, 48, 120]);
    assert(pcs.push(pc).drop_last() =~= pcs);
    assert(site.count * scale >= 0) by (nonlinear_arith)
        requires
            scale >= 0,
            site.count >= 0,
    ;
}

/// The report puts what was sampled more often first, and names every place once.
pub proof fn law_most_sampled_first(sites: Seq<Site>, i: int, j: int)
    requires
        0 <= i < j < sites.len(),
        forall|k: int| 0 <= k < sites.len() ==> (#[trigger] sites[k]).count <= u64::MAX,
    ensures
        ranked(sites).len() == sites.len(),
        ranked(sites)[i].count >= ranked(sites)[j].count,
{
    let c = |a: SiteRank, b: SiteRank| most_first(a, b);
    let s = Seq::new(
        sites.len(),
        |k: int| SiteRank { count: sites[k].count as u64, site: k as usize },
    );
    sorting::law_sort_permutes(s, c);
    sorting::law_sort_orders(s, c);
    let t = sorting::stable_sorted(s, c);
    s.to_multiset_ensures();
    t.to_multiset_ensures();
    assert(c(t[i], t[j]) <= 0);
}

/// What is armed: sampling of allocations by `1`, at 1024 unless a rate is set; the processor's
/// profiler by `1`, every 1000 microseconds unless a period is set; and a report at the end by `1`.
pub proof fn law_hook_plans(s: HookSettings)
    ensures
        ({
            let on = |v: Option<&[u8]>| v matches Some(b) && b@ == seq![49u8];
            let plan = hook_plan(s);
            &&& plan.graph_rate is Some <==> on(s.graph)
            &&& on(s.graph) && s.graph_rate is None ==> plan.graph_rate == Some(1024u64)
            &&& on(s.graph) && setting_or_zero(s.graph_rate) > 0 ==> plan.graph_rate == Some(
                setting_or_zero(s.graph_rate),
            )
            &&& plan.cpu is Some <==> on(s.cpu)
            &&& on(s.cpu) && s.cpu_period is None ==> plan.cpu->Some_0.period_us == 1000
            &&& on(s.cpu) && setting_or_zero(s.cpu_period) > 0 ==> plan.cpu->Some_0.period_us
                == setting_or_zero(s.cpu_period)
            &&& on(s.cpu) ==> plan.cpu->Some_0.delay_ms == setting_or_zero(s.cpu_delay)
            &&& on(s.cpu) ==> plan.cpu->Some_0.duration_ms == setting_or_zero(s.cpu_duration)
            &&& plan.keep_sites <==> on(s.graph) || on(s.cpu)
            &&& plan.report_at_exit <==> on(s.at_exit)
        }),
{
    reveal_strlit("1");
    vstd::utf8::is_ascii_chars_encode_utf8("1"@);
    assert(text::lit("1") =~= seq![49u8]);
}

/// A frame of a signal's report: its address in hexadecimal, and the function with the distance
/// from its start where it is known.
pub proof fn law_signal_frames(pc: u64, s: Symbol)
    requires
        s.start <= pc,
    ensures
        frame_text(pc, None) == text::lit("  0x") + text::hex_nat(pc as nat) + text::lit(
            "  (in JIT / unresolved)",
        ),
        s.file is None ==> frame_text(pc, Some(s)) == text::lit("  0x") + text::hex_nat(pc as nat) + (
        text::lit("  ") + s.name@ + text::lit(" +0x") + text::hex_nat((pc - s.start) as nat)
            + text::lit("  (") + text::lit("?") + seq![41u8]),
        s.file matches Some(f) ==> frame_text(pc, Some(s)) == text::lit("  0x") + text::hex_nat(
            pc as nat,
        ) + (text::lit("  ") + s.name@ + text::lit(" +0x") + text::hex_nat((pc - s.start) as nat)
            + text::lit("  (") + file_name(f@) + seq![41u8]),
{
}

/// One sample stands for as many allocations as the rate says, and for itself where there is none.
pub proof fn law_sample_weights(rate: u64, a: int, b: int)
    ensures
        rate > 0 ==> scale_of(rate) == rate,
        scale_of(0) == 1,
        over(a, b) == vstd::math::max(a - b, 0),
{
}

} // verus!
