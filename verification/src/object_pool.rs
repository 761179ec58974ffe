//! Size-class pool for small heap objects.
//!
//! Blocks are carved from chunks of one reserved region of address space, one size class to a
//! chunk, so that a block's class is found from its address alone. Freed blocks wait on a list of
//! their class and are handed out again, the last one first. What the pool does not serve goes to
//! the system allocator.
//!
//! The pool decides over addresses; reserving the region, calling the system allocator and
//! writing into blocks is left to its user.

use vstd::prelude::*;

verus! {

/// Chunk size and alignment.
pub const CHUNK_SIZE: u64 = 0x10_0000;

/// Largest request that the pool serves.
pub const MAX_POOLED: u64 = 512;

/// Block sizes are multiples of this.
pub const GRANULE: u64 = 16;

/// Number of size classes.
pub const NUM_CLASSES: usize = 32;

/// Address space that the chunks are carved from.
pub const REGION_SIZE: u64 = 0x2_0000_0000;

/// Blocks start behind the chunk's header.
pub const CHUNK_DATA_OFFSET: u64 = 64;

/// What a fresh block is filled with where blocks are scribbled on.
pub const FRESH_FILL: u8 = 0xAA;

/// What a released block is filled with where blocks are scribbled on.
pub const RELEASED_FILL: u8 = 0x55;

/// The reserved address space.
#[derive(Clone, Copy)]
pub enum Region {
    /// Not asked for yet.
    Unreserved,
    /// Refused by the system.
    Refused,
    /// Reserved from `base` to `end`; chunks are carved from `first` on.
    Reserved { base: u64, first: u64, end: u64 },
}

/// One size class: blocks that wait to be handed out again, and what is left of the chunk that
/// new blocks are carved from.
pub struct ClassState {
    pub free: Vec<u64>,
    pub next: u64,
    pub end: u64,
}

/// The pool.
pub struct ObjectPool {
    pub region: Region,
    /// Class of each chunk, in the order in which they were carved.
    pub headers: Vec<usize>,
    pub classes: Vec<ClassState>,
    pub served: u64,
    pub enabled: bool,
    pub scribble: bool,
    /// Blocks that are handed out.
    pub live: Ghost<Set<u64>>,
}

/// Where an allocation is placed.
#[derive(Clone, Copy, PartialEq, Eq, Structural, Debug)]
pub enum Placement {
    /// The system allocator is asked for this many bytes.
    System(u64),
    /// A block of the pool; where `fill` is given, every byte of it is to be set.
    Block { addr: u64, size: u64, fill: Option<u8> },
    /// The region has to be reserved first.
    Reserve,
}

/// What becomes of a released address.
#[derive(Clone, Copy, PartialEq, Eq, Structural, Debug)]
pub enum Release {
    /// Nothing: a null address, or one in the region that no chunk holds.
    Ignored,
    /// The system allocator takes it back.
    System,
    /// The pool took it back; where `fill` is given, every byte of it is to be set.
    Pooled { size: u64, fill: Option<u8> },
}

/// Size class of a request.
pub open spec fn class_of_spec(size: int) -> Option<int> {
    if size <= 0 || size > MAX_POOLED {
        None
    } else {
        Some((size + GRANULE - 1) / GRANULE as int - 1)
    }
}

/// Size of the blocks of a class.
pub open spec fn block_size(class: int) -> int {
    (class + 1) * GRANULE
}

proof fn lemma_grid(x: int, y: int, m: int)
    requires
        m > 0,
        x % m == 0,
        y % m == 0,
    ensures
        (x + m) % m == 0,
        x < y ==> x + m <= y,
{
    assert((x + m) % m == 0) by (nonlinear_arith)
        requires
            m > 0,
            x % m == 0,
    ;
    if x < y {
        vstd::arithmetic::div_mod::lemma_fundamental_div_mod(x, m);
        vstd::arithmetic::div_mod::lemma_fundamental_div_mod(y, m);
        let p = x / m;
        let q = y / m;
        assert(x + m <= y) by (nonlinear_arith)
            requires
                m > 0,
                x == m * p,
                y == m * q,
                x < y,
        ;
    }
}

/// A request of `size` bytes is served by blocks of the smallest class that holds it.
pub proof fn law_class_fits(size: int)
    requires
        0 < size <= MAX_POOLED,
    ensures
        class_of_spec(size) is Some,
        0 <= class_of_spec(size)->Some_0 < NUM_CLASSES,
        size <= block_size(class_of_spec(size)->Some_0) < size + GRANULE,
{
}

/// Size class of a request of `size` bytes; none for requests that the pool does not serve.
pub fn class_of(size: u64) -> (class: Option<usize>)
    ensures
        match class {
            Some(c) => class_of_spec(size as int) == Some(c as int) && c < NUM_CLASSES,
            None => class_of_spec(size as int) is None,
        },
{
    if size == 0 || size > MAX_POOLED {
        return None;
    }
    Some(((size + (GRANULE - 1)) / GRANULE - 1) as usize)
}

/// Whether the pool is on, by the value of the variable `RZT_POOL`: only if that is `1`.
pub fn pool_enabled(value: Option<&[u8]>) -> (r: bool)
    ensures
        r == (value matches Some(v) && v@ == seq![49u8]),
{
    match value {
        None => false,
        Some(v) => {
            let on: bool = v.len() == 1 && v[0] == 49;
            assert(on == (v@ =~= seq![49u8]));
            on
        },
    }
}

/// Whether blocks are scribbled on: where either of the two variables is set.
pub fn scribble_enabled(malloc_scribble: bool, pool_scribble: bool) -> (r: bool)
    ensures
        r == (malloc_scribble || pool_scribble),
{
    malloc_scribble || pool_scribble
}

impl ObjectPool {
    /// Address of the first chunk.
    pub open spec fn first(&self) -> int {
        match self.region {
            Region::Reserved { first, .. } => first as int,
            _ => 0,
        }
    }

    /// Address of a chunk.
    pub open spec fn chunk_addr(&self, k: int) -> int {
        self.first() + k * CHUNK_SIZE
    }

    /// The chunk that holds an address.
    pub open spec fn chunk_of(&self, addr: int) -> int {
        (addr - self.first()) / CHUNK_SIZE as int
    }

    /// The address lies in a chunk.
    pub open spec fn carved(&self, addr: int) -> bool {
        self.region is Reserved && self.first() <= addr < self.chunk_addr(self.headers@.len() as int)
    }

    /// Size class of the chunk that holds an address.
    pub open spec fn class_at(&self, addr: int) -> int {
        self.headers@[self.chunk_of(addr)] as int
    }

    /// Distance of an address from the first block of its chunk.
    pub open spec fn offset(&self, addr: int) -> int {
        addr - self.chunk_addr(self.chunk_of(addr)) - CHUNK_DATA_OFFSET
    }

    /// The address is that of a block that was carved from a chunk.
    pub open spec fn is_block(&self, addr: int) -> bool {
        let class = self.class_at(addr);
        let size = block_size(class);
        &&& self.carved(addr)
        &&& 0 <= self.offset(addr)
        &&& self.offset(addr) % size == 0
        &&& self.offset(addr) + size <= CHUNK_SIZE - CHUNK_DATA_OFFSET
        &&& self.classes@[class].end == self.chunk_addr(self.chunk_of(addr)) + CHUNK_SIZE ==> addr
            < self.classes@[class].next
    }

    /// What is left of the chunk that blocks of a class are carved from.
    pub open spec fn class_wf(&self, class: int) -> bool {
        let s = self.classes@[class];
        if s.end == 0 {
            s.next == 0
        } else {
            let k = self.chunk_of(s.end as int) - 1;
            &&& 0 <= k < self.headers@.len()
            &&& s.end == self.chunk_addr(k) + CHUNK_SIZE
            &&& self.headers@[k] == class
            &&& self.chunk_addr(k) + CHUNK_DATA_OFFSET <= s.next <= s.end
            &&& (s.next - self.chunk_addr(k) - CHUNK_DATA_OFFSET) % block_size(class) == 0
        }
    }

    /// The region and its chunks.
    pub open spec fn region_wf(&self) -> bool {
        match self.region {
            Region::Reserved { base, first, end } => {
                &&& 0 < base <= first < base + CHUNK_SIZE
                &&& first as int % CHUNK_SIZE as int == 0
                &&& end == base + REGION_SIZE
                &&& first + self.headers@.len() * CHUNK_SIZE <= end
            },
            _ => self.headers@.len() == 0,
        }
    }

    /// Blocks that wait on the list of a class.
    pub open spec fn free_wf(&self, class: int) -> bool {
        let free = self.classes@[class].free@;
        &&& forall|i: int|
            #![trigger free[i]]
            0 <= i < free.len() ==> {
                &&& self.is_block(free[i] as int)
                &&& self.class_at(free[i] as int) == class
                &&& !self.live@.contains(free[i])
            }
        &&& free.no_duplicates()
    }

    /// The pool's invariant: every block is carved from a chunk of its class, waits at most once,
    /// and does not wait while it is handed out.
    pub open spec fn wf(&self) -> bool {
        &&& self.classes@.len() == NUM_CLASSES
        &&& self.region_wf()
        &&& forall|k: int| 0 <= k < self.headers@.len() ==> #[trigger] self.headers@[k] < NUM_CLASSES
        &&& forall|c: int| 0 <= c < NUM_CLASSES ==> #[trigger] self.class_wf(c)
        &&& forall|c: int| 0 <= c < NUM_CLASSES ==> #[trigger] self.free_wf(c)
        &&& forall|a: u64| #[trigger] self.live@.contains(a) ==> self.is_block(a as int)
    }

    /// The address lies in the region.
    pub open spec fn in_region_spec(&self, addr: int) -> bool {
        match self.region {
            Region::Reserved { base, end, .. } => base <= addr < end,
            _ => false,
        }
    }

    /// Where a request is placed.
    pub open spec fn placement(&self, size: int) -> Placement {
        let fill = if self.scribble {
            Some(FRESH_FILL)
        } else {
            None
        };
        match class_of_spec(size) {
            Some(class) if self.enabled => {
                let s = self.classes@[class];
                let bytes = block_size(class) as u64;
                if s.free@.len() > 0 {
                    Placement::Block { addr: s.free@.last(), size: bytes, fill }
                } else if s.next + bytes <= s.end {
                    Placement::Block { addr: s.next, size: bytes, fill }
                } else {
                    match self.region {
                        Region::Unreserved => Placement::Reserve,
                        Region::Refused => Placement::System(bytes),
                        Region::Reserved { end, .. } => {
                            let chunk = self.chunk_addr(self.headers@.len() as int);
                            if chunk + CHUNK_SIZE > end {
                                Placement::System(bytes)
                            } else {
                                Placement::Block {
                                    addr: (chunk + CHUNK_DATA_OFFSET) as u64,
                                    size: bytes,
                                    fill,
                                }
                            }
                        },
                    }
                }
            },
            _ => Placement::System(
                if size > 1 {
                    size as u64
                } else {
                    1
                },
            ),
        }
    }

    /// An empty pool.
    pub fn new(enabled: bool, scribble: bool) -> (pool: ObjectPool)
        ensures
            pool.wf(),
            pool.region is Unreserved,
            pool.served == 0,
            pool.enabled == enabled,
            pool.scribble == scribble,
            pool.live@ == Set::<u64>::empty(),
            pool.headers@.len() == 0,
            forall|c: int| 0 <= c < NUM_CLASSES ==> (#[trigger] pool.classes@[c]).free@.len() == 0,
    {
        let mut classes: Vec<ClassState> = Vec::new();
        let mut i: usize = 0;
        while i < NUM_CLASSES
            invariant
                i <= NUM_CLASSES,
                classes@.len() == i,
                forall|c: int|
                    0 <= c < i ==> (#[trigger] classes@[c]).free@.len() == 0 && classes@[c].next == 0
                        && classes@[c].end == 0,
            decreases NUM_CLASSES - i,
        {
            classes.push(ClassState { free: Vec::new(), next: 0, end: 0 });
            i = i + 1;
        }
        ObjectPool {
            region: Region::Unreserved,
            headers: Vec::new(),
            classes,
            served: 0,
            enabled,
            scribble,
            live: Ghost(Set::empty()),
        }
    }

    /// How many blocks were served while blocks were scribbled on.
    pub fn rayzor_pool_served(&self) -> (n: u64)
        ensures
            n == self.served,
    {
        self.served
    }

    /// Whether an address lies in the region.
    pub fn in_region(&self, addr: u64) -> (r: bool)
        ensures
            r == self.in_region_spec(addr as int),
    {
        match self.region {
            Region::Reserved { base, end, .. } => base <= addr && addr < end,
            _ => false,
        }
    }

    /// Takes note of what the system answered when the region was asked for: the address of the
    /// reserved space, or nothing. A region that was asked for before stays as it is. Returns
    /// whether there is a region.
    pub fn ensure_region(&mut self, mapped: Option<u64>) -> (ok: bool)
        requires
            old(self).wf(),
            mapped matches Some(addr) ==> 0 < addr && addr + REGION_SIZE <= u64::MAX,
        ensures
            final(self).wf(),
            ok == (final(self).region is Reserved),
            !(old(self).region is Unreserved) ==> *final(self) == *old(self),
            old(self).region is Unreserved ==> {
                &&& final(self).headers@ == old(self).headers@
                &&& final(self).classes == old(self).classes
                &&& final(self).served == old(self).served
                &&& final(self).enabled == old(self).enabled
                &&& final(self).scribble == old(self).scribble
                &&& final(self).live == old(self).live
                &&& match (mapped, final(self).region) {
                    (None, Region::Refused) => true,
                    (Some(addr), Region::Reserved { base, first, end }) => {
                        &&& base == addr
                        &&& end == addr + REGION_SIZE
                        &&& addr <= first < addr + CHUNK_SIZE
                        &&& first as int % CHUNK_SIZE as int == 0
                    },
                    _ => false,
                }
            },
    {
        match self.region {
            Region::Reserved { .. } => {
                return true;
            },
            Region::Refused => {
                return false;
            },
            Region::Unreserved => {},
        }
        let ghost before = *self;
        proof {
            before.lemma_no_chunks();
        }
        match mapped {
            None => {
                self.region = Region::Refused;
                proof {
                    assert forall|c: int| 0 <= c < NUM_CLASSES implies #[trigger] self.class_wf(
                        c,
                    ) by {
                        assert(before.class_wf(c));
                    }
                    assert forall|c: int| 0 <= c < NUM_CLASSES implies #[trigger] self.free_wf(
                        c,
                    ) by {
                        assert(before.free_wf(c));
                    }
                }
                false
            },
            Some(addr) => {
                let rest: u64 = addr % CHUNK_SIZE;
                let first: u64 = if rest == 0 {
                    addr
                } else {
                    addr + (CHUNK_SIZE - rest)
                };
                self.region = Region::Reserved { base: addr, first, end: addr + REGION_SIZE };
                proof {
                    assert forall|c: int| 0 <= c < NUM_CLASSES implies #[trigger] self.class_wf(
                        c,
                    ) by {
                        assert(before.class_wf(c));
                    }
                    assert forall|c: int| 0 <= c < NUM_CLASSES implies #[trigger] self.free_wf(
                        c,
                    ) by {
                        assert(before.free_wf(c));
                    }
                }
                true
            },
        }
    }

    /// Without a region no block was ever carved.
    proof fn lemma_no_chunks(&self)
        requires
            self.wf(),
            !(self.region is Reserved),
        ensures
            self.live@ =~= Set::<u64>::empty(),
            forall|c: int|
                0 <= c < NUM_CLASSES ==> (#[trigger] self.classes@[c]).free@.len() == 0
                    && self.classes@[c].end == 0 && self.classes@[c].next == 0,
    {
        assert forall|a: u64| !self.live@.contains(a) by {
            if self.live@.contains(a) {
                assert(self.is_block(a as int));
            }
        }
        assert forall|c: int| 0 <= c < NUM_CLASSES implies (#[trigger] self.classes@[c]).free@.len()
            == 0 && self.classes@[c].end == 0 && self.classes@[c].next == 0 by {
            assert(self.class_wf(c));
            assert(self.free_wf(c));
            if self.classes@[c].free@.len() > 0 {
                assert(self.is_block(self.classes@[c].free@[0] as int));
            }
        }
    }

    /// The same place in the same chunks with the same class bounds holds the same blocks.
    proof fn lemma_same_blocks(&self, other: &ObjectPool, addr: int)
        requires
            self.region == other.region,
            self.headers@ == other.headers@,
            self.wf(),
            forall|c: int|
                0 <= c < NUM_CLASSES ==> (#[trigger] self.classes@[c]).next == other.classes@[c].next
                    && self.classes@[c].end == other.classes@[c].end,
        ensures
            self.is_block(addr) == other.is_block(addr),
            self.class_at(addr) == other.class_at(addr),
    {
        if self.carved(addr) {
            let k = self.chunk_of(addr);
            assert(0 <= k < self.headers@.len());
            assert(self.headers@[k] < NUM_CLASSES);
            let c = self.class_at(addr);
            assert(self.classes@[c].next == other.classes@[c].next);
        }
    }

    fn take_free(&mut self, class: usize) -> (addr: u64)
        requires
            old(self).wf(),
            class < NUM_CLASSES,
            old(self).classes@[class as int].free@.len() > 0,
        ensures
            final(self).wf(),
            addr == old(self).classes@[class as int].free@.last(),
            !old(self).live@.contains(addr),
            final(self).live@ == old(self).live@.insert(addr),
            final(self).is_block(addr as int),
            final(self).class_at(addr as int) == class,
            final(self).region == old(self).region,
            final(self).headers@ == old(self).headers@,
            final(self).served == old(self).served,
            final(self).enabled == old(self).enabled,
            final(self).scribble == old(self).scribble,
            final(self).classes@.len() == old(self).classes@.len(),
            forall|c: int|
                0 <= c < NUM_CLASSES && c != class ==> #[trigger] final(self).classes@[c]
                    == old(self).classes@[c],
            final(self).classes@[class as int].free@ == old(
                self,
            ).classes@[class as int].free@.drop_last(),
            final(self).classes@[class as int].next == old(self).classes@[class as int].next,
            final(self).classes@[class as int].end == old(self).classes@[class as int].end,
    {
        let ghost before = *self;
        proof {
            assert(self.free_wf(class as int));
        }
        let n: usize = self.classes[class].free.len();
        let addr: u64 = self.classes[class].free[n - 1];
        let _last: Option<u64> = self.classes[class].free.pop();
        self.live = Ghost(self.live@.insert(addr));
        proof {
            let free = before.classes@[class as int].free@;
            assert(before.is_block(free[n - 1] as int));
            assert forall|c: int| 0 <= c < NUM_CLASSES implies #[trigger] self.class_wf(c) by {
                assert(before.class_wf(c));
            }
            assert forall|c: int| 0 <= c < NUM_CLASSES implies #[trigger] self.free_wf(c) by {
                assert(before.free_wf(c));
                let now = self.classes@[c].free@;
                let was = before.classes@[c].free@;
                assert forall|i: int| 0 <= i < now.len() implies {
                    &&& self.is_block((#[trigger] now[i]) as int)
                    &&& self.class_at(now[i] as int) == c
                    &&& !self.live@.contains(now[i])
                } by {
                    assert(now[i] == was[i]);
                    before.lemma_same_blocks(self, now[i] as int);
                }
                assert(now.no_duplicates()) by {
                    assert forall|i: int, j: int|
                        0 <= i < now.len() && 0 <= j < now.len() && i != j implies now[i]
                        != now[j] by {
                        assert(now[i] == was[i] && now[j] == was[j]);
                    }
                }
            }
            assert forall|a: u64| #[trigger] self.live@.contains(a) implies self.is_block(
                a as int,
            ) by {
                before.lemma_same_blocks(self, a as int);
                if a != addr {
                    assert(before.live@.contains(a));
                }
            }
        }
        addr
    }

    fn carve(&mut self, class: usize) -> (addr: u64)
        requires
            old(self).wf(),
            class < NUM_CLASSES,
            old(self).classes@[class as int].next + block_size(class as int) <= old(
                self,
            ).classes@[class as int].end,
        ensures
            final(self).wf(),
            addr == old(self).classes@[class as int].next,
            !old(self).live@.contains(addr),
            final(self).live@ == old(self).live@.insert(addr),
            final(self).is_block(addr as int),
            final(self).class_at(addr as int) == class,
            final(self).region == old(self).region,
            final(self).headers@ == old(self).headers@,
            final(self).served == old(self).served,
            final(self).enabled == old(self).enabled,
            final(self).scribble == old(self).scribble,
            final(self).classes@.len() == old(self).classes@.len(),
            forall|c: int|
                0 <= c < NUM_CLASSES && c != class ==> #[trigger] final(self).classes@[c]
                    == old(self).classes@[c],
            final(self).classes@[class as int].free@ == old(self).classes@[class as int].free@,
            final(self).classes@[class as int].next == old(self).classes@[class as int].next
                + block_size(class as int),
            final(self).classes@[class as int].end == old(self).classes@[class as int].end,
    {
        let ghost before = *self;
        let bytes: u64 = (class as u64 + 1) * GRANULE;
        let addr: u64 = self.classes[class].next;
        self.classes[class].next = addr + bytes;
        self.live = Ghost(self.live@.insert(addr));
        proof {
            let cl = class as int;
            let size = block_size(cl);
            assert(before.class_wf(cl));
            let k = before.chunk_of(before.classes@[cl].end as int) - 1;
            assert(before.chunk_of(addr as int) == k);
            assert(!before.is_block(addr as int));
            lemma_grid(before.offset(addr as int), before.offset(addr as int), size);
            assert forall|x: int| before.is_block(x) implies self.is_block(x) && self.class_at(x)
                == before.class_at(x) by {
                let kx = before.chunk_of(x);
                assert(before.headers@[kx] < NUM_CLASSES);
            }
            assert(self.is_block(addr as int));
            assert forall|c: int| 0 <= c < NUM_CLASSES implies #[trigger] self.class_wf(c) by {
                assert(before.class_wf(c));
            }
            assert forall|c: int| 0 <= c < NUM_CLASSES implies #[trigger] self.free_wf(c) by {
                assert(before.free_wf(c));
                assert(self.classes@[c].free@ == before.classes@[c].free@);
            }
            assert forall|a: u64| #[trigger] self.live@.contains(a) implies self.is_block(
                a as int,
            ) by {
                if a != addr {
                    assert(before.live@.contains(a));
                }
            }
        }
        addr
    }

    /// Carves a chunk for a class; its bounds, or nothing where the region is used up.
    fn new_chunk(&mut self, class: usize) -> (span: Option<(u64, u64)>)
        requires
            old(self).wf(),
            class < NUM_CLASSES,
            old(self).region is Reserved,
        ensures
            final(self).wf(),
            final(self).region == old(self).region,
            final(self).served == old(self).served,
            final(self).enabled == old(self).enabled,
            final(self).scribble == old(self).scribble,
            final(self).live == old(self).live,
            final(self).classes@.len() == old(self).classes@.len(),
            forall|c: int|
                0 <= c < NUM_CLASSES && c != class ==> #[trigger] final(self).classes@[c]
                    == old(self).classes@[c],
            final(self).classes@[class as int].free@ == old(self).classes@[class as int].free@,
            ({
                let chunk = old(self).chunk_addr(old(self).headers@.len() as int);
                match span {
                    None => {
                        &&& chunk + CHUNK_SIZE > old(self).region->end
                        &&& *final(self) == *old(self)
                    },
                    Some((start, end)) => {
                        &&& chunk + CHUNK_SIZE <= old(self).region->end
                        &&& start == chunk + CHUNK_DATA_OFFSET
                        &&& end == chunk + CHUNK_SIZE
                        &&& final(self).headers@ == old(self).headers@.push(class)
                        &&& final(self).classes@[class as int].next == start
                        &&& final(self).classes@[class as int].end == end
                    },
                }
            }),
    {
        let (first, end): (u64, u64) = match self.region {
            Region::Reserved { first, end, .. } => (first, end),
            _ => (0, 0),
        };
        let ghost before = *self;
        let chunk: u64 = first + self.headers.len() as u64 * CHUNK_SIZE;
        if end - chunk < CHUNK_SIZE {
            return None;
        }
        self.headers.push(class);
        self.classes[class].next = chunk + CHUNK_DATA_OFFSET;
        self.classes[class].end = chunk + CHUNK_SIZE;
        proof {
            let cl = class as int;
            assert forall|x: int| before.is_block(x) implies self.is_block(x) && self.class_at(x)
                == before.class_at(x) by {
                let kx = before.chunk_of(x);
                assert(0 <= kx < before.headers@.len());
                assert(before.headers@[kx] < NUM_CLASSES);
                assert(self.headers@[kx] == before.headers@[kx]);
            }
            assert forall|c: int| 0 <= c < NUM_CLASSES implies #[trigger] self.class_wf(c) by {
                assert(before.class_wf(c));
                if c != class {
                    let s = before.classes@[c];
                    if s.end != 0 {
                        let k = before.chunk_of(s.end as int) - 1;
                        assert(self.headers@[k] == before.headers@[k]);
                        assert(self.classes@[c] == s);
                        assert(self.chunk_of(s.end as int) - 1 == k);
                        assert(self.chunk_addr(k) == before.chunk_addr(k));
                    }
                } else {
                    let n = before.headers@.len() as int;
                    assert(self.headers@[n] == class);
                    assert(self.chunk_addr(n) == chunk);
                    assert(self.chunk_of(self.classes@[cl].end as int) - 1 == n);
                    vstd::arithmetic::div_mod::lemma_small_mod(0, block_size(cl) as nat);
                    assert((self.classes@[cl].next - self.chunk_addr(n) - CHUNK_DATA_OFFSET)
                        % block_size(cl) == 0);
                }
            }
            assert forall|c: int| 0 <= c < NUM_CLASSES implies #[trigger] self.free_wf(c) by {
                assert(before.free_wf(c));
                assert(self.classes@[c].free@ == before.classes@[c].free@);
            }
            assert forall|a: u64| #[trigger] self.live@.contains(a) implies self.is_block(
                a as int,
            ) by {
                assert(before.live@.contains(a));
            }
        }
        Some((chunk + CHUNK_DATA_OFFSET, chunk + CHUNK_SIZE))
    }

    /// Allocates `size` bytes for a heap object. The contents are not set unless blocks are
    /// scribbled on.
    pub fn rayzor_object_alloc(&mut self, size: u64) -> (p: Placement)
        requires
            old(self).wf(),
        ensures
            final(self).wf(),
            p == old(self).placement(size as int),
            match p {
                Placement::Block { addr, size: bytes, .. } => {
                    let class = class_of_spec(size as int)->Some_0;
                    let was = old(self).classes@[class];
                    let now = final(self).classes@[class];
                    &&& size <= bytes == block_size(class)
                    &&& !old(self).live@.contains(addr)
                    &&& final(self).live@ == old(self).live@.insert(addr)
                    &&& final(self).is_block(addr as int)
                    &&& final(self).class_at(addr as int) == class
                    &&& final(self).region == old(self).region
                    &&& final(self).enabled == old(self).enabled
                    &&& final(self).scribble == old(self).scribble
                    &&& final(self).served == (if old(self).scribble {
                        if old(self).served < u64::MAX {
                            (old(self).served + 1) as u64
                        } else {
                            0
                        }
                    } else {
                        old(self).served
                    })
                    &&& forall|c: int|
                        0 <= c < NUM_CLASSES && c != class ==> #[trigger] final(self).classes@[c]
                            == old(self).classes@[c]
                    &&& if was.free@.len() > 0 {
                        &&& now.free@ == was.free@.drop_last()
                        &&& now.next == was.next
                        &&& now.end == was.end
                        &&& final(self).headers@ == old(self).headers@
                    } else if was.next + bytes <= was.end {
                        &&& now.free@ == was.free@
                        &&& now.next == was.next + bytes
                        &&& now.end == was.end
                        &&& final(self).headers@ == old(self).headers@
                    } else {
                        let chunk = old(self).chunk_addr(old(self).headers@.len() as int);
                        &&& now.free@ == was.free@
                        &&& now.next == addr + bytes
                        &&& now.end == chunk + CHUNK_SIZE
                        &&& final(self).headers@ == old(self).headers@.push(class as usize)
                    }
                },
                _ => *final(self) == *old(self),
            },
    {
        let system: u64 = if size > 1 {
            size
        } else {
            1
        };
        if !self.enabled {
            return Placement::System(system);
        }
        let class: usize = match class_of(size) {
            None => {
                return Placement::System(system);
            },
            Some(c) => c,
        };
        let bytes: u64 = (class as u64 + 1) * GRANULE;
        let ghost before = *self;
        proof {
            assert(self.class_wf(class as int));
            law_class_fits(size as int);
        }
        let addr: u64 = if self.classes[class].free.len() > 0 {
            self.take_free(class)
        } else if self.classes[class].end - self.classes[class].next >= bytes {
            self.carve(class)
        } else {
            match self.region {
                Region::Unreserved => {
                    return Placement::Reserve;
                },
                Region::Refused => {
                    return Placement::System(bytes);
                },
                Region::Reserved { .. } => {},
            }
            match self.new_chunk(class) {
                None => {
                    return Placement::System(bytes);
                },
                Some(_) => self.carve(class),
            }
        };
        if self.scribble {
            let ghost counted = *self;
            self.served = self.served.wrapping_add(1);
            proof {
                self.lemma_served_only(&counted);
            }
            Placement::Block { addr, size: bytes, fill: Some(FRESH_FILL) }
        } else {
            Placement::Block { addr, size: bytes, fill: None }
        }
    }

    proof fn lemma_served_only(&self, other: &ObjectPool)
        requires
            other.wf(),
            self.region == other.region,
            self.headers == other.headers,
            self.classes == other.classes,
            self.live == other.live,
        ensures
            self.wf(),
            forall|x: int| #[trigger] self.is_block(x) == other.is_block(x),
            forall|x: int| #[trigger] self.class_at(x) == other.class_at(x),
    {
        assert forall|c: int| 0 <= c < NUM_CLASSES implies #[trigger] self.class_wf(c) by {
            assert(other.class_wf(c));
        }
        assert forall|c: int| 0 <= c < NUM_CLASSES implies #[trigger] self.free_wf(c) by {
            assert(other.free_wf(c));
        }
        assert forall|a: u64| #[trigger] self.live@.contains(a) implies self.is_block(a as int) by {
            assert(other.live@.contains(a));
        }
    }

    /// What becomes of a released address.
    pub open spec fn release(&self, addr: u64) -> Release {
        if addr == 0 {
            Release::Ignored
        } else if !self.in_region_spec(addr as int) {
            Release::System
        } else if !self.carved(addr as int) {
            Release::Ignored
        } else {
            Release::Pooled {
                size: block_size(self.class_at(addr as int)) as u64,
                fill: if self.scribble {
                    Some(RELEASED_FILL)
                } else {
                    None
                },
            }
        }
    }

    /// Takes a block back, or says that the system allocator has to. The switch that turns the
    /// pool off plays no part: a block that the pool handed out comes back to it.
    pub fn rayzor_object_free(&mut self, addr: u64) -> (r: Release)
        requires
            old(self).wf(),
            old(self).carved(addr as int) ==> old(self).live@.contains(addr),
        ensures
            final(self).wf(),
            r == old(self).release(addr),
            !(r is Pooled) ==> *final(self) == *old(self),
            r is Pooled ==> {
                let class = old(self).class_at(addr as int);
                &&& final(self).live@ == old(self).live@.remove(addr)
                &&& final(self).classes@[class].free@ == old(self).classes@[class].free@.push(addr)
                &&& final(self).classes@[class].next == old(self).classes@[class].next
                &&& final(self).classes@[class].end == old(self).classes@[class].end
                &&& forall|c: int|
                    0 <= c < NUM_CLASSES && c != class ==> #[trigger] final(self).classes@[c] == old(
                        self,
                    ).classes@[c]
                &&& final(self).region == old(self).region
                &&& final(self).headers@ == old(self).headers@
                &&& final(self).served == old(self).served
                &&& final(self).enabled == old(self).enabled
                &&& final(self).scribble == old(self).scribble
            },
    {
        if addr == 0 {
            return Release::Ignored;
        }
        if !self.in_region(addr) {
            return Release::System;
        }
        let first: u64 = match self.region {
            Region::Reserved { first, .. } => first,
            _ => 0,
        };
        if addr < first || (addr - first) / CHUNK_SIZE >= self.headers.len() as u64 {
            return Release::Ignored;
        }
        let ghost before = *self;
        let class: usize = self.headers[((addr - first) / CHUNK_SIZE) as usize];
        let bytes: u64 = (class as u64 + 1) * GRANULE;
        self.classes[class].free.push(addr);
        self.live = Ghost(self.live@.remove(addr));
        proof {
            let cl = class as int;
            assert(before.live@.contains(addr));
            assert(before.is_block(addr as int));
            assert forall|c: int| 0 <= c < NUM_CLASSES implies #[trigger] self.class_wf(c) by {
                assert(before.class_wf(c));
            }
            assert forall|c: int| 0 <= c < NUM_CLASSES implies #[trigger] self.free_wf(c) by {
                assert(before.free_wf(c));
                let now = self.classes@[c].free@;
                let was = before.classes@[c].free@;
                assert forall|i: int| 0 <= i < now.len() implies {
                    &&& self.is_block((#[trigger] now[i]) as int)
                    &&& self.class_at(now[i] as int) == c
                    &&& !self.live@.contains(now[i])
                } by {
                    before.lemma_same_blocks(self, now[i] as int);
                    if i < was.len() {
                        assert(now[i] == was[i]);
                    }
                }
                assert(now.no_duplicates()) by {
                    assert forall|i: int, j: int|
                        0 <= i < now.len() && 0 <= j < now.len() && i != j implies now[i]
                        != now[j] by {
                        if i < was.len() {
                            assert(now[i] == was[i]);
                            assert(!before.live@.contains(was[i]));
                        }
                        if j < was.len() {
                            assert(now[j] == was[j]);
                            assert(!before.live@.contains(was[j]));
                        }
                    }
                }
            }
            assert forall|a: u64| #[trigger] self.live@.contains(a) implies self.is_block(
                a as int,
            ) by {
                before.lemma_same_blocks(self, a as int);
                assert(before.live@.contains(a));
            }
        }
        if self.scribble {
            Release::Pooled { size: bytes, fill: Some(RELEASED_FILL) }
        } else {
            Release::Pooled { size: bytes, fill: None }
        }
    }
}

/// Two blocks that are handed out at the same time do not overlap.
pub proof fn law_live_blocks_disjoint(pool: ObjectPool, a: u64, b: u64)
    requires
        pool.wf(),
        pool.live@.contains(a),
        pool.live@.contains(b),
        a < b,
    ensures
        a + block_size(pool.class_at(a as int)) <= b,
{
    let ka = pool.chunk_of(a as int);
    let kb = pool.chunk_of(b as int);
    assert(pool.is_block(a as int));
    assert(pool.is_block(b as int));
    if ka == kb {
        assert(pool.headers@[ka] < NUM_CLASSES);
        lemma_grid(
            pool.offset(a as int),
            pool.offset(b as int),
            block_size(pool.class_at(a as int)),
        );
    } else {
        assert(ka < kb);
    }
}

/// A freed block is what the next request of its size class gets.
pub proof fn law_freed_block_comes_back(before: ObjectPool, after: ObjectPool, addr: u64, size: int)
    requires
        after.enabled,
        class_of_spec(size) == Some(before.class_at(addr as int)),
        after.classes@[before.class_at(addr as int)].free@
            == before.classes@[before.class_at(addr as int)].free@.push(addr),
    ensures
        after.placement(size) matches Placement::Block { addr: a, .. } && a == addr,
{
}

/// What the pool hands out lies in its region, so that it comes back to the pool when it is
/// released, whether or not the pool is on by then.
pub proof fn law_blocks_return_to_the_pool(pool: ObjectPool, addr: u64)
    requires
        pool.wf(),
        pool.live@.contains(addr),
    ensures
        pool.release(addr) is Pooled,
        pool.in_region_spec(addr as int),
{
    assert(pool.is_block(addr as int));
}

/// The classes are 16 bytes apart: a request of 1 to 512 bytes gets the least block that has room
/// for it, and no other request is pooled.
pub proof fn law_class_is_least(size: int)
    ensures
        1 <= size <= 512 <==> class_of_spec(size) is Some,
        1 <= size <= 512 ==> {
            let class = class_of_spec(size)->Some_0;
            &&& 0 <= class <= 31
            &&& block_size(class) == 16 * (class + 1)
            &&& size <= block_size(class)
            &&& size > block_size(class - 1)
        },
{
}

/// Where a request goes: to the system where the pool is off or does not serve its size; otherwise
/// to the block of its class that was released last, or to the next one of its chunk, filled with
/// 0xAA bytes where that is asked for.
pub proof fn law_where_requests_go(pool: ObjectPool, size: int)
    requires
        pool.wf(),
        0 <= size <= u64::MAX,
    ensures
        !pool.enabled || size == 0 || size > 512 ==> pool.placement(size) == Placement::System(
            vstd::math::max(size, 1) as u64,
        ),
        pool.enabled && 1 <= size <= 512 ==> {
            let class = (size - 1) / 16;
            let room = 16 * (class + 1);
            let fill = if pool.scribble {
                Some(0xAAu8)
            } else {
                None
            };
            let s = pool.classes@[class];
            &&& s.free@.len() > 0 ==> pool.placement(size) == (Placement::Block {
                addr: s.free@.last(),
                size: room as u64,
                fill,
            })
            &&& s.free@.len() == 0 && s.next + room <= s.end ==> pool.placement(size) == (
            Placement::Block { addr: s.next, size: room as u64, fill })
            &&& s.free@.len() == 0 && s.next + room > s.end && pool.region is Unreserved
                ==> pool.placement(size) == Placement::Reserve
            &&& s.free@.len() == 0 && s.next + room > s.end && pool.region is Refused
                ==> pool.placement(size) == Placement::System(room as u64)
        },
{
    if 1 <= size <= 512 {
        law_class_is_least(size);
        assert(class_of_spec(size)->Some_0 == (size - 1) / 16);
    }
}

/// What becomes of a released address: null is ignored, one outside the region goes to the system,
/// and a block goes back to its class, filled with 0x55 bytes where that is asked for.
pub proof fn law_where_releases_go(pool: ObjectPool, addr: u64)
    requires
        pool.wf(),
    ensures
        pool.release(0) == Release::Ignored,
        addr != 0 && !(pool.region is Reserved) ==> pool.release(addr) == Release::System,
        pool.region matches Region::Reserved { base, first, end } ==> {
            &&& addr != 0 && (addr < base || addr >= base + 0x2_0000_0000) ==> pool.release(addr)
                == Release::System
            &&& addr != 0 && base <= addr < first ==> pool.release(addr) == Release::Ignored
        },
        pool.live@.contains(addr) ==> pool.release(addr) == (Release::Pooled {
            size: (16 * (pool.class_at(addr as int) + 1)) as u64,
            fill: if pool.scribble {
                Some(0x55u8)
            } else {
                None
            },
        }),
{
    if pool.live@.contains(addr) {
        assert(pool.is_block(addr as int));
    }
}

} // verus!
