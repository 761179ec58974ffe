//! Heap memory and global variables of compiled code.
//!
//! An allocation is named by a handle; 0 is the null handle. Handles are not used twice.

use crate::text;
use crate::words;
use vstd::prelude::*;

verus! {

/// Size of the header in front of a tracked allocation.
pub const TRACKED_HEADER_SIZE: usize = 16;

/// Alignment of tracked allocations.
pub const TRACKED_ALIGNMENT: usize = 16;

/// Size above which a header is taken for corrupt.
pub const TRACKED_MAX_SIZE: u64 = 0x100_0000_0000;

/// Number of global variables that a new store has room for.
pub const GLOBAL_STORE_INITIAL_CAP: usize = 64;

/// Largest size of an allocation.
pub open spec fn max_layout() -> int {
    usize::MAX as int / 2
}

/// Heap of allocations whose sizes the callers keep.
pub struct Heap {
    pub blocks: Vec<Option<Vec<u8>>>,
}

/// Views of blocks.
pub open spec fn block_views(blocks: Seq<Option<Vec<u8>>>) -> Seq<Option<Seq<u8>>> {
    blocks.map_values(
        |b: Option<Vec<u8>>|
            match b {
                Some(v) => Some(v@),
                None => None,
            },
    )
}

impl View for Heap {
    type V = Seq<Option<Seq<u8>>>;

    open spec fn view(&self) -> Seq<Option<Seq<u8>>> {
        block_views(self.blocks@)
    }
}

/// A handle names an allocation.
pub open spec fn allocated(heap: Seq<Option<Seq<u8>>>, ptr: usize) -> bool {
    0 < ptr <= heap.len() && heap[ptr - 1] is Some
}

/// Bytes of an allocation.
pub open spec fn contents(heap: Seq<Option<Seq<u8>>>, ptr: usize) -> Seq<u8> {
    heap[ptr - 1]->Some_0
}

/// `s` cut or extended with zeros to `n` bytes.
pub open spec fn resized(s: Seq<u8>, n: nat) -> Seq<u8> {
    if n <= s.len() {
        s.take(n as int)
    } else {
        s + words::zeros((n - s.len()) as nat)
    }
}

impl Heap {
    /// An empty heap.
    pub fn new() -> (h: Heap)
        ensures
            h@ == Seq::<Option<Seq<u8>>>::empty(),
    {
        let h = Heap { blocks: Vec::new() };
        assert(h@ =~= Seq::empty());
        h
    }

    fn add_block(&mut self, bytes: Vec<u8>) -> (ptr: usize)
        requires
            old(self)@.len() < usize::MAX,
        ensures
            ptr == old(self)@.len() + 1,
            final(self)@ == old(self)@.push(Some(bytes@)),
    {
        let ghost before = self@;
        self.blocks.push(Some(bytes));
        assert(self@ =~= before.push(Some(bytes@)));
        self.blocks.len()
    }

    fn drop_block(&mut self, ptr: usize)
        requires
            0 < ptr <= old(self)@.len(),
        ensures
            final(self)@ == old(self)@.update(ptr - 1, None),
    {
        let ghost before = self@;
        self.blocks.set(ptr - 1, None);
        assert(self@ =~= before.update(ptr - 1, None));
    }

    /// A byte of an allocation.
    pub fn byte(&self, ptr: usize, at: usize) -> (b: u8)
        requires
            allocated(self@, ptr),
            at < contents(self@, ptr).len(),
        ensures
            b == contents(self@, ptr)[at as int],
    {
        match &self.blocks[ptr - 1] {
            Some(v) => v[at],
            None => 0,
        }
    }

    /// Writes a byte of an allocation.
    pub fn set_byte(&mut self, ptr: usize, at: usize, b: u8)
        requires
            allocated(old(self)@, ptr),
            at < contents(old(self)@, ptr).len(),
        ensures
            final(self)@ == old(self)@.update(
                ptr - 1,
                Some(contents(old(self)@, ptr).update(at as int, b)),
            ),
    {
        let ghost before = self@;
        let taken: Option<Vec<u8>> = self.blocks[ptr - 1].take();
        match taken {
            Some(mut v) => {
                v.set(at, b);
                self.blocks.set(ptr - 1, Some(v));
            },
            None => {},
        }
        assert(self@ =~= before.update(ptr - 1, Some(contents(before, ptr).update(at as int, b))));
    }

    /// Allocates `size` bytes; null for none, and where the size exceeds what an allocation can
    /// have.
    pub fn rayzor_malloc(&mut self, size: u64) -> (ptr: usize)
        requires
            old(self)@.len() < usize::MAX,
        ensures
            if size == 0 || size > max_layout() {
                ptr == 0 && final(self)@ == old(self)@
            } else {
                &&& ptr == old(self)@.len() + 1
                &&& final(self)@.len() == old(self)@.len() + 1
                &&& final(self)@ == old(self)@.push(Some(words::zeros(size as nat)))
            },
    {
        if size == 0 || size > (usize::MAX / 2) as u64 {
            return 0;
        }
        self.add_block(words::zero_bytes(size as usize))
    }

    /// Gives an allocation back; nothing happens for null or no bytes.
    pub fn rayzor_free(&mut self, ptr: usize, size: u64)
        requires
            ptr != 0 && size != 0 ==> allocated(old(self)@, ptr) && contents(
                old(self)@,
                ptr,
            ).len() == size,
        ensures
            final(self)@ == (if ptr == 0 || size == 0 {
                old(self)@
            } else {
                old(self)@.update(ptr - 1, None)
            }),
    {
        if ptr == 0 || size == 0 {
            return;
        }
        self.drop_block(ptr);
    }

    /// Changes the size of an allocation; its bytes are kept as far as they fit. A null handle
    /// stands for a new allocation, no bytes for giving the allocation back.
    pub fn rayzor_realloc(&mut self, ptr: usize, old_size: u64, new_size: u64) -> (new_ptr: usize)
        requires
            old(self)@.len() < usize::MAX,
            ptr != 0 ==> allocated(old(self)@, ptr) && contents(old(self)@, ptr).len() == old_size
                && 0 < old_size && new_size <= max_layout(),
        ensures
            ptr == 0 ==> if new_size == 0 || new_size > max_layout() {
                new_ptr == 0 && final(self)@ == old(self)@
            } else {
                &&& new_ptr == old(self)@.len() + 1
                &&& final(self)@ == old(self)@.push(Some(words::zeros(new_size as nat)))
            },
            ptr != 0 && new_size == 0 ==> new_ptr == 0 && final(self)@ == old(self)@.update(
                ptr - 1,
                None,
            ),
            ptr != 0 && new_size != 0 ==> new_ptr == old(self)@.len() + 1 && final(self)@ == old(
                self,
            )@.update(ptr - 1, None).push(
                Some(resized(contents(old(self)@, ptr), new_size as nat)),
            ),
    {
        if ptr == 0 {
            return self.rayzor_malloc(new_size);
        }
        if new_size == 0 {
            self.rayzor_free(ptr, old_size);
            return 0;
        }
        let ghost before = self@;
        let n: usize = new_size as usize;
        let bytes: Vec<u8> = match &self.blocks[ptr - 1] {
            Some(v) => resize_bytes(v, n),
            None => Vec::new(),
        };
        self.drop_block(ptr);
        self.add_block(bytes)
    }
}

fn resize_bytes(v: &Vec<u8>, n: usize) -> (out: Vec<u8>)
    ensures
        out@ == resized(v@, n as nat),
{
    if n <= v.len() {
        let out: Vec<u8> = text::copy_range(v.as_slice(), 0, n);
        assert(out@ =~= v@.take(n as int));
        out
    } else {
        let mut out: Vec<u8> = text::copy_all(v.as_slice());
        let mut tail: Vec<u8> = words::zero_bytes(n - v.len());
        out.append(&mut tail);
        assert(out@ =~= v@ + words::zeros((n - v@.len()) as nat));
        out
    }
}

/// Growing an allocation keeps its bytes.
pub proof fn law_realloc_keeps(s: Seq<u8>, n: nat, i: int)
    requires
        0 <= i < s.len(),
        i < n,
    ensures
        resized(s, n).len() == n,
        resized(s, n)[i] == s[i],
{
}

// ---------------------------------------------------------------------------
// Tracked allocations
// ---------------------------------------------------------------------------

/// An allocation with its header: the size that was allocated, 0 once it was given back.
pub struct TrackedBlock {
    pub header: u64,
    pub data: Vec<u8>,
}

/// Heap of allocations that know their size.
pub struct TrackedHeap {
    pub blocks: Vec<TrackedBlock>,
}

/// Header and bytes of the tracked allocations.
pub open spec fn tracked_views(blocks: Seq<TrackedBlock>) -> Seq<(u64, Seq<u8>)> {
    blocks.map_values(|b: TrackedBlock| (b.header, b.data@))
}

impl View for TrackedHeap {
    type V = Seq<(u64, Seq<u8>)>;

    open spec fn view(&self) -> Seq<(u64, Seq<u8>)> {
        tracked_views(self.blocks@)
    }
}

/// A size rounded up to the alignment.
pub open spec fn aligned_size(size: int) -> int {
    (size + 15) / 16 * 16
}

/// A header that can be believed.
pub open spec fn sane(header: u64) -> bool {
    0 < header <= TRACKED_MAX_SIZE
}

/// The allocations after the one with handle `ptr` was given back: its header is 0 and its bytes
/// are gone. Null and a header that cannot be believed change nothing.
pub open spec fn given_back(blocks: Seq<(u64, Seq<u8>)>, ptr: int) -> Seq<(u64, Seq<u8>)> {
    if ptr == 0 || !sane(blocks[ptr - 1].0) {
        blocks
    } else {
        blocks.update(ptr - 1, (0u64, Seq::empty()))
    }
}

/// Whether memory for `size` bytes and their header can be allocated.
pub open spec fn fits_layout(size: int) -> bool {
    aligned_size(size) + TRACKED_HEADER_SIZE <= max_layout() - (TRACKED_ALIGNMENT - 1)
}

impl TrackedHeap {
    /// Each allocation holds as many bytes as its header says.
    pub open spec fn wf(&self) -> bool {
        forall|i: int| 0 <= i < self@.len() ==> (#[trigger] self@[i]).0 == self@[i].1.len()
    }

    /// An empty heap.
    pub fn new() -> (h: TrackedHeap)
        ensures
            h.wf(),
            h@ == Seq::<(u64, Seq<u8>)>::empty(),
    {
        let h = TrackedHeap { blocks: Vec::new() };
        assert(h@ =~= Seq::empty());
        h
    }

    /// Allocates `size` bytes, rounded up to the alignment; null for none, and where the size
    /// exceeds what an allocation can have.
    pub fn rayzor_tracked_alloc(&mut self, size: u64) -> (ptr: usize)
        requires
            old(self).wf(),
            old(self)@.len() < usize::MAX,
            size + 31 <= usize::MAX,
        ensures
            final(self).wf(),
            if size == 0 || !fits_layout(size as int) {
                ptr == 0 && final(self)@ == old(self)@
            } else {
                let n = aligned_size(size as int);
                &&& ptr == old(self)@.len() + 1
                &&& final(self)@ == old(self)@.push((n as u64, words::zeros(n as nat)))
            },
    {
        if size == 0 {
            return 0;
        }
        let n: usize = (size as usize + (TRACKED_ALIGNMENT - 1)) / TRACKED_ALIGNMENT
            * TRACKED_ALIGNMENT;
        if n + TRACKED_HEADER_SIZE > usize::MAX / 2 - (TRACKED_ALIGNMENT - 1) {
            return 0;
        }
        let ghost before = self@;
        self.blocks.push(TrackedBlock { header: n as u64, data: words::zero_bytes(n) });
        assert(self@ =~= before.push((n as u64, words::zeros(n as nat))));
        self.blocks.len()
    }

    /// Gives an allocation back: its header becomes 0, so that giving it back once more changes
    /// nothing. Null and a header that cannot be believed change nothing.
    pub fn rayzor_tracked_free(&mut self, ptr: usize)
        requires
            old(self).wf(),
            ptr <= old(self)@.len(),
        ensures
            final(self).wf(),
            final(self)@ == given_back(old(self)@, ptr as int),
    {
        if ptr == 0 {
            return;
        }
        let ghost before = self@;
        let header: u64 = self.blocks[ptr - 1].header;
        assert(before[ptr - 1].0 == header);
        if header == 0 || header > TRACKED_MAX_SIZE {
            return;
        }
        self.blocks.set(ptr - 1, TrackedBlock { header: 0, data: Vec::new() });
        assert(self@ =~= before.update(ptr - 1, (0u64, Seq::<u8>::empty())));
    }

    /// Changes the size of an allocation; its bytes are kept as far as they fit. A null handle and
    /// one whose header cannot be believed stand for a new allocation, no bytes for giving the
    /// allocation back. An allocation that already has the size stays where it is.
    pub fn rayzor_tracked_realloc(&mut self, ptr: usize, new_size: u64) -> (new_ptr: usize)
        requires
            old(self).wf(),
            ptr <= old(self)@.len() < usize::MAX,
            new_size + 31 <= usize::MAX,
        ensures
            final(self).wf(),
            ({
                let was = old(self)@;
                let now = final(self)@;
                let n = aligned_size(new_size as int);
                if ptr != 0 && new_size == 0 {
                    &&& new_ptr == 0
                    &&& now == given_back(was, ptr as int)
                } else if ptr == 0 || !sane(was[ptr - 1].0) {
                    if new_size == 0 || !fits_layout(new_size as int) {
                        new_ptr == 0 && now == was
                    } else {
                        &&& new_ptr == was.len() + 1
                        &&& now == was.push((n as u64, words::zeros(n as nat)))
                    }
                } else if n == was[ptr - 1].0 {
                    new_ptr == ptr && now == was
                } else if !fits_layout(new_size as int) {
                    new_ptr == 0 && now == was
                } else {
                    &&& new_ptr == was.len() + 1
                    &&& now == given_back(was, ptr as int).push(
                        (n as u64, resized(was[ptr - 1].1, n as nat)),
                    )
                }
            }),
    {
        if ptr == 0 {
            return self.rayzor_tracked_alloc(new_size);
        }
        if new_size == 0 {
            self.rayzor_tracked_free(ptr);
            return 0;
        }
        let ghost was = self@;
        let header: u64 = self.blocks[ptr - 1].header;
        assert(was[ptr - 1].0 == header);
        if header == 0 || header > TRACKED_MAX_SIZE {
            return self.rayzor_tracked_alloc(new_size);
        }
        let n: usize = (new_size as usize + (TRACKED_ALIGNMENT - 1)) / TRACKED_ALIGNMENT
            * TRACKED_ALIGNMENT;
        if n as u64 == header {
            return ptr;
        }
        if n + TRACKED_HEADER_SIZE > usize::MAX / 2 - (TRACKED_ALIGNMENT - 1) {
            return 0;
        }
        let data: Vec<u8> = resize_bytes(&self.blocks[ptr - 1].data, n);
        self.rayzor_tracked_free(ptr);
        let ghost mid = self@;
        self.blocks.push(TrackedBlock { header: n as u64, data });
        assert(self@ =~= mid.push((n as u64, data@)));
        assert(data@.len() == n);
        self.blocks.len()
    }
}

/// Giving an allocation back a second time changes nothing, and giving it back once leaves the
/// other allocations.
pub proof fn law_second_free_changes_nothing(was: Seq<(u64, Seq<u8>)>, ptr: int, other: int)
    requires
        0 <= ptr <= was.len(),
    ensures
        given_back(given_back(was, ptr), ptr) == given_back(was, ptr),
        given_back(was, ptr).len() == was.len(),
        0 < other <= was.len() && other != ptr ==> given_back(was, ptr)[other - 1] == was[other - 1],
{
}

/// A tracked allocation has room for what was asked for, and for less than one alignment more.
pub proof fn law_aligned_size(size: int)
    requires
        0 < size,
    ensures
        size <= aligned_size(size) < size + TRACKED_ALIGNMENT,
        aligned_size(size) % TRACKED_ALIGNMENT as int == 0,
{
}

// ---------------------------------------------------------------------------
// Global variables
// ---------------------------------------------------------------------------

/// Values of the global variables.
pub struct GlobalStore {
    pub values: Vec<u64>,
}

/// Value of a global variable; 0 where none was stored.
pub open spec fn global_value(s: Seq<u64>, global_id: int) -> i64 {
    if 0 <= global_id < s.len() {
        s[global_id] as i64
    } else {
        0
    }
}

/// The store after a value was stored.
pub open spec fn global_stored(s: Seq<u64>, global_id: int, value: i64) -> Seq<u64> {
    let wide = if global_id < s.len() {
        s
    } else {
        s + Seq::new((global_id + 1 - s.len()) as nat, |i: int| 0u64)
    };
    wide.update(global_id, value as u64)
}

impl GlobalStore {
    /// A store in which every variable is 0.
    pub fn new() -> (g: GlobalStore)
        ensures
            g.values@ == Seq::new(GLOBAL_STORE_INITIAL_CAP as nat, |i: int| 0u64),
    {
        let mut values: Vec<u64> = Vec::new();
        while values.len() < GLOBAL_STORE_INITIAL_CAP
            invariant
                values@.len() <= GLOBAL_STORE_INITIAL_CAP,
                forall|i: int| 0 <= i < values@.len() ==> values@[i] == 0,
            decreases GLOBAL_STORE_INITIAL_CAP - values@.len(),
        {
            values.push(0);
        }
        assert(values@ =~= Seq::new(GLOBAL_STORE_INITIAL_CAP as nat, |i: int| 0u64));
        GlobalStore { values }
    }

    /// Stores a value to a global variable; the store grows as far as needed.
    pub fn rayzor_global_store(&mut self, global_id: i64, value: i64)
        requires
            0 <= global_id < usize::MAX,
        ensures
            final(self).values@ == global_stored(old(self).values@, global_id as int, value),
    {
        let index: usize = global_id as usize;
        let ghost before = self.values@;
        while self.values.len() <= index
            invariant
                index < usize::MAX,
                before.len() <= self.values@.len(),
                self.values@.len() <= index + 1 || self.values@.len() == before.len(),
                self.values@ == before + Seq::new(
                    (self.values@.len() - before.len()) as nat,
                    |i: int| 0u64,
                ),
            decreases index + 1 - self.values@.len(),
        {
            self.values.push(0);
            assert(self.values@ =~= before + Seq::new(
                (self.values@.len() - before.len()) as nat,
                |i: int| 0u64,
            ));
        }
        let word: u64 = #[verifier::truncate]
        (value as u64);
        self.values.set(index, word);
        assert(self.values@ =~= global_stored(before, global_id as int, value));
    }

    /// Value of a global variable; 0 where none was stored.
    pub fn rayzor_global_load(&self, global_id: i64) -> (value: i64)
        ensures
            value == global_value(self.values@, global_id as int),
    {
        if global_id >= 0 && (global_id as u64) < self.values.len() as u64 {
            let word: u64 = self.values[global_id as usize];
            #[verifier::truncate]
            (word as i64)
        } else {
            0
        }
    }
}

/// What is stored to a variable is loaded from it, and no other variable changes.
pub proof fn law_store_load(s: Seq<u64>, id: int, value: i64, other: int)
    requires
        0 <= id,
    ensures
        global_value(global_stored(s, id, value), id) == value,
        other != id ==> global_value(global_stored(s, id, value), other) == global_value(s, other),
{
    assert((value as u64) as i64 == value) by (bit_vector);
    assert(0u64 as i64 == 0i64) by (bit_vector);
}

/// A grown allocation has zeros behind what it held, and a shrunk one is cut.
pub proof fn law_resizing_appends_zeros(s: Seq<u8>, n: nat, i: int)
    requires
        0 <= i < n,
    ensures
        resized(s, n).len() == n,
        i < s.len() ==> resized(s, n)[i] == s[i],
        i >= s.len() ==> resized(s, n)[i] == 0,
{
}

/// A tracked size is rounded up to the next multiple of 16; one of 0 and one above 2 to the power
/// of 40 are not believed, and what is not believed is not given back.
pub proof fn law_tracked_sizes(size: int, header: u64, blocks: Seq<(u64, Seq<u8>)>, ptr: int)
    requires
        0 < size,
        0 < ptr <= blocks.len(),
    ensures
        size <= aligned_size(size) < size + 16,
        aligned_size(size) % 16 == 0,
        sane(header) <==> 1 <= header <= 1_099_511_627_776,
        1 <= blocks[ptr - 1].0 <= 1_099_511_627_776 ==> given_back(blocks, ptr)[ptr - 1].0 == 0
            && given_back(blocks, ptr)[ptr - 1].1.len() == 0,
        !(1 <= blocks[ptr - 1].0 <= 1_099_511_627_776) ==> given_back(blocks, ptr) == blocks,
        given_back(blocks, 0) == blocks,
{
}

} // verus!
