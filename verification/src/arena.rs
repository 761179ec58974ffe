//! Bump arena for strings.
//!
//! Strings are immutable and live until execution ends: memory for them is taken from chunks, one
//! piece behind the other, and given back all at once. A piece is named by its chunk and its
//! offset in it; chunks are aligned to eight bytes.

use crate::haxe_string::HaxeString;
use vstd::prelude::*;

verus! {

/// Smallest chunk.
pub const DEFAULT_CHUNK_SIZE: usize = 65536;

/// Alignment of chunks.
pub const CHUNK_ALIGNMENT: usize = 8;

/// Size of a string's structure: address, length and capacity.
pub const STRING_SIZE: usize = 24;

/// Alignment of a string's structure.
pub const STRING_ALIGNMENT: usize = 8;

/// A piece of arena memory.
#[derive(Clone, Copy, PartialEq, Eq, Structural, Debug)]
pub struct Slot {
    pub chunk: usize,
    pub offset: usize,
    pub size: usize,
}

/// A string in the arena: its piece of memory, and which string it is.
#[derive(Clone, Copy)]
pub struct StringSlot {
    pub slot: Slot,
    pub index: usize,
}

/// The arena: sizes of its chunks, and where the next piece starts in the last of them.
pub struct Arena {
    pub chunks: Vec<usize>,
    pub cursor: usize,
    pub remaining: usize,
    pub strings: Vec<HaxeString>,
    /// Pieces that were handed out.
    pub taken: Ghost<Seq<Slot>>,
}

/// The smallest multiple of `align` that is not below `x`.
pub open spec fn align_up(x: int, align: int) -> int {
    if x % align == 0 {
        x
    } else {
        x - x % align + align
    }
}

/// Sum of chunk sizes.
pub open spec fn total_size(chunks: Seq<usize>) -> nat
    decreases chunks.len(),
{
    if chunks.len() == 0 {
        0
    } else {
        total_size(chunks.drop_last()) + chunks.last() as nat
    }
}

/// Size of the chunk that is taken for a piece that does not fit.
pub open spec fn chunk_size_for(size: int, align: int) -> int {
    if size + align > DEFAULT_CHUNK_SIZE {
        size + align
    } else {
        DEFAULT_CHUNK_SIZE as int
    }
}

/// Two pieces have no byte in common.
pub open spec fn disjoint(a: Slot, b: Slot) -> bool {
    ||| a.chunk != b.chunk
    ||| a.offset + a.size <= b.offset
    ||| b.offset + b.size <= a.offset
}

/// An address that stands for a piece without bytes: never null.
pub open spec fn dangling() -> Slot {
    Slot { chunk: usize::MAX, offset: 1, size: 0 }
}

proof fn lemma_align(x: int, align: int)
    requires
        align > 0,
        x >= 0,
    ensures
        x <= align_up(x, align) < x + align,
        align_up(x, align) % align == 0,
{
    let r = x % align;
    vstd::arithmetic::div_mod::lemma_fundamental_div_mod(x, align);
    let q = x / align;
    if r != 0 {
        assert((x - r + align) % align == 0) by (nonlinear_arith)
            requires
                align > 0,
                x == align * q + r,
        ;
    }
}

impl Arena {
    /// The last chunk is used up to the cursor, and pieces lie in their chunks, apart from each
    /// other and before the cursor.
    pub open spec fn wf(&self) -> bool {
        let n = self.chunks@.len();
        &&& n == 0 ==> self.cursor == 0 && self.remaining == 0
        &&& n > 0 ==> self.cursor + self.remaining == self.chunks@.last()
        &&& total_size(self.chunks@) <= usize::MAX
        &&& n < usize::MAX
        &&& forall|i: int|
            0 <= i < self.taken@.len() ==> {
                let s = #[trigger] self.taken@[i];
                &&& s.chunk < n
                &&& s.offset + s.size <= self.chunks@[s.chunk as int]
                &&& s.chunk == n - 1 ==> s.offset + s.size <= self.cursor
            }
        &&& forall|i: int, j: int|
            0 <= i < j < self.taken@.len() ==> disjoint(
                #[trigger] self.taken@[i],
                #[trigger] self.taken@[j],
            )
    }

    /// A piece fits into what is left of the last chunk.
    pub open spec fn fits(&self, size: int, align: int) -> bool {
        &&& self.chunks@.len() > 0
        &&& size + (align_up(self.cursor as int, align) - self.cursor) <= self.remaining
    }

    /// Where the next piece starts.
    pub open spec fn next_slot(&self, size: int, align: int) -> Slot {
        if self.fits(size, align) {
            Slot {
                chunk: (self.chunks@.len() - 1) as usize,
                offset: align_up(self.cursor as int, align) as usize,
                size: size as usize,
            }
        } else {
            Slot { chunk: self.chunks@.len() as usize, offset: 0, size: size as usize }
        }
    }

    /// An empty arena.
    pub fn new() -> (a: Arena)
        ensures
            a.wf(),
            a.chunks@.len() == 0,
            a.strings@.len() == 0,
            a.taken@.len() == 0,
    {
        Arena {
            chunks: Vec::new(),
            cursor: 0,
            remaining: 0,
            strings: Vec::new(),
            taken: Ghost(Seq::empty()),
        }
    }

    fn align_cursor(&self, align: usize) -> (aligned: usize)
        requires
            align > 0,
            self.cursor + align <= usize::MAX,
        ensures
            aligned == align_up(self.cursor as int, align as int),
    {
        let rest: usize = self.cursor % align;
        proof {
            vstd::arithmetic::div_mod::lemma_mod_decreases(self.cursor as nat, align as nat);
        }
        if rest == 0 {
            self.cursor
        } else {
            self.cursor - rest + align
        }
    }

    fn grow(&mut self, size: usize)
        requires
            old(self).wf(),
            total_size(old(self).chunks@) + size <= usize::MAX,
            old(self).chunks@.len() + 1 < usize::MAX,
        ensures
            final(self).wf(),
            final(self).chunks@ == old(self).chunks@.push(size),
            final(self).cursor == 0,
            final(self).remaining == size,
            final(self).strings == old(self).strings,
            final(self).taken == old(self).taken,
    {
        let ghost before = self.chunks@;
        self.chunks.push(size);
        self.cursor = 0;
        self.remaining = size;
        assert(self.chunks@.drop_last() =~= before);
    }

    /// Takes a piece of `size` bytes at a multiple of `align`, from a new chunk where the last one
    /// has too little left.
    fn bump(&mut self, size: usize, align: usize) -> (slot: Slot)
        requires
            old(self).wf(),
            size > 0,
            0 < align <= CHUNK_ALIGNMENT,
            total_size(old(self).chunks@) + chunk_size_for(size as int, align as int) <= usize::MAX,
            old(self).chunks@.len() + 1 < usize::MAX,
        ensures
            final(self).wf(),
            slot == old(self).next_slot(size as int, align as int),
            slot.offset as int % align as int == 0,
            slot.size == size,
            slot.offset + size <= final(self).chunks@[slot.chunk as int],
            final(self).taken@ == old(self).taken@.push(slot),
            final(self).strings == old(self).strings,
            final(self).chunks@ == (if old(self).fits(size as int, align as int) {
                old(self).chunks@
            } else {
                old(self).chunks@.push(chunk_size_for(size as int, align as int) as usize)
            }),
            final(self).cursor == slot.offset + size,
            final(self).remaining == final(self).chunks@.last() - (slot.offset + size),
    {
        let ghost before = *self;
        proof {
            lemma_align(self.cursor as int, align as int);
            lemma_align(0, align as int);
            if self.chunks@.len() > 0 {
                assert(total_size(self.chunks@) >= self.chunks@.last());
            }
        }
        if self.chunks.len() > 0 {
            let aligned: usize = self.align_cursor(align);
            let waste: usize = aligned - self.cursor;
            if waste <= self.remaining && size <= self.remaining - waste {
                let slot = Slot { chunk: self.chunks.len() - 1, offset: aligned, size };
                self.cursor = aligned + size;
                self.remaining = self.remaining - waste - size;
                self.taken = Ghost(self.taken@.push(slot));
                return slot;
            }
        }
        let chunk_size: usize = if size + align > DEFAULT_CHUNK_SIZE {
            size + align
        } else {
            DEFAULT_CHUNK_SIZE
        };
        self.grow(chunk_size);
        let slot = Slot { chunk: self.chunks.len() - 1, offset: 0, size };
        self.cursor = size;
        self.remaining = self.remaining - size;
        self.taken = Ghost(self.taken@.push(slot));
        slot
    }
}

/// Takes `size` bytes for the text of a string. A piece without bytes takes no memory and is not
/// null.
pub fn arena_alloc_bytes(arena: &mut Arena, size: usize) -> (slot: Slot)
    requires
        old(arena).wf(),
        total_size(old(arena).chunks@) + chunk_size_for(size as int, 1) <= usize::MAX,
        old(arena).chunks@.len() + 1 < usize::MAX,
    ensures
        final(arena).wf(),
        size == 0 ==> slot == dangling() && *final(arena) == *old(arena),
        size > 0 ==> {
            &&& slot == old(arena).next_slot(size as int, 1)
            &&& slot.offset + size <= final(arena).chunks@[slot.chunk as int]
            &&& final(arena).taken@ == old(arena).taken@.push(slot)
            &&& final(arena).strings == old(arena).strings
            &&& final(arena).chunks@ == (if old(arena).fits(size as int, 1) {
                old(arena).chunks@
            } else {
                old(arena).chunks@.push(chunk_size_for(size as int, 1) as usize)
            })
            &&& final(arena).cursor == slot.offset + size
            &&& final(arena).remaining == final(arena).chunks@.last() - (slot.offset + size)
        },
{
    if size == 0 {
        return Slot { chunk: usize::MAX, offset: 1, size: 0 };
    }
    arena.bump(size, 1)
}

/// Puts a string's structure into the arena.
pub fn arena_alloc_haxe_string(arena: &mut Arena, hs: HaxeString) -> (p: StringSlot)
    requires
        old(arena).wf(),
        total_size(old(arena).chunks@) + DEFAULT_CHUNK_SIZE <= usize::MAX,
        old(arena).chunks@.len() + 1 < usize::MAX,
    ensures
        final(arena).wf(),
        p.slot == old(arena).next_slot(STRING_SIZE as int, STRING_ALIGNMENT as int),
        p.slot.offset % STRING_ALIGNMENT == 0,
        p.slot.size == STRING_SIZE,
        p.index == old(arena).strings@.len(),
        final(arena).strings@ == old(arena).strings@.push(hs),
        final(arena).taken@ == old(arena).taken@.push(p.slot),
        final(arena).chunks@ == (if old(arena).fits(STRING_SIZE as int, STRING_ALIGNMENT as int) {
            old(arena).chunks@
        } else {
            old(arena).chunks@.push(DEFAULT_CHUNK_SIZE)
        }),
        final(arena).cursor == p.slot.offset + STRING_SIZE,
        final(arena).remaining == final(arena).chunks@.last() - (p.slot.offset + STRING_SIZE),
{
    let slot: Slot = arena.bump(STRING_SIZE, STRING_ALIGNMENT);
    let index: usize = arena.strings.len();
    arena.strings.push(hs);
    StringSlot { slot, index }
}

/// The string that was put at a place.
pub fn arena_string(arena: &Arena, p: StringSlot) -> (hs: &HaxeString)
    requires
        p.index < arena.strings@.len(),
    ensures
        *hs == arena.strings@[p.index as int],
{
    &arena.strings[p.index]
}

/// Bytes in all chunks, and how many of them are used up.
pub fn arena_stats(arena: &Arena) -> (stats: (usize, usize))
    requires
        arena.wf(),
    ensures
        stats.0 == total_size(arena.chunks@),
        stats.1 == total_size(arena.chunks@) - arena.remaining,
{
    let mut total: usize = 0;
    let mut i: usize = 0;
    assert(arena.chunks@.take(0) =~= Seq::empty());
    while i < arena.chunks.len()
        invariant
            i <= arena.chunks@.len(),
            total == total_size(arena.chunks@.take(i as int)),
            total_size(arena.chunks@) <= usize::MAX,
        decreases arena.chunks@.len() - i,
    {
        proof {
            lemma_total_prefix(arena.chunks@, i + 1);
            assert(arena.chunks@.take(i + 1).drop_last() =~= arena.chunks@.take(i as int));
        }
        total = total + arena.chunks[i];
        i = i + 1;
    }
    proof {
        assert(arena.chunks@.take(i as int) =~= arena.chunks@);
        if arena.chunks@.len() > 0 {
            assert(total_size(arena.chunks@) >= arena.chunks@.last());
        }
    }
    (total, total - arena.remaining)
}

proof fn lemma_total_prefix(s: Seq<usize>, n: int)
    requires
        0 <= n <= s.len(),
    ensures
        total_size(s.take(n)) <= total_size(s),
    decreases s.len() - n,
{
    if n < s.len() {
        assert(s.take(n + 1).drop_last() =~= s.take(n));
        lemma_total_prefix(s, n + 1);
    } else {
        assert(s.take(n) =~= s);
    }
}

/// Pieces that were handed out never overlap.
pub proof fn law_slots_disjoint(arena: Arena, i: int, j: int)
    requires
        arena.wf(),
        0 <= i < j < arena.taken@.len(),
    ensures
        disjoint(arena.taken@[i], arena.taken@[j]),
{
}

/// A piece of at least one byte is not the one that was handed out before.
pub proof fn law_slots_differ(arena: Arena, i: int, j: int)
    requires
        arena.wf(),
        0 <= i < j < arena.taken@.len(),
        arena.taken@[i].size > 0,
        arena.taken@[j].size > 0,
    ensures
        arena.taken@[i] != arena.taken@[j],
{
    assert(disjoint(arena.taken@[i], arena.taken@[j]));
}

/// Rounding up gives the least multiple of the alignment that is not below the number.
pub proof fn law_alignment(x: int, align: int)
    requires
        0 <= x,
        0 < align,
    ensures
        align_up(x, align) % align == 0,
        x <= align_up(x, align) < x + align,
{
    vstd::arithmetic::div_mod::lemma_mod_bound(x, align);
    vstd::arithmetic::div_mod::lemma_fundamental_div_mod(x, align);
    let q = x / align;
    if x % align != 0 {
        assert(align_up(x, align) == align * (q + 1)) by (nonlinear_arith)
            requires
                x == align * q + x % align,
                align_up(x, align) == x - x % align + align,
        ;
        vstd::arithmetic::div_mod::lemma_mod_multiples_basic(q + 1, align);
        assert(align * (q + 1) == (q + 1) * align) by (nonlinear_arith);
    }
}

/// A chunk has 65536 bytes, or as many as a larger piece and its alignment need.
pub proof fn law_chunk_sizes(size: int, align: int)
    requires
        0 <= size,
        0 < align,
    ensures
        chunk_size_for(size, align) == vstd::math::max(65536, size + align),
{
}

/// The sizes of the chunks add up.
pub proof fn law_total_size(chunks: Seq<usize>)
    ensures
        total_size(chunks) == chunks.fold_left(0int, |v: int, c: usize| v + c),
    decreases chunks.len(),
{
    if chunks.len() > 0 {
        law_total_size(chunks.drop_last());
    }
}

/// A piece stands at the first aligned place of the last chunk that has room for it, or at the start
/// of a new chunk.
pub proof fn law_pieces_are_aligned(arena: Arena, size: int, align: int)
    requires
        arena.wf(),
        0 < size <= usize::MAX,
        0 < align,
    ensures
        ({
            let s = arena.next_slot(size, align);
            let n = arena.chunks@.len() as int;
            &&& s.size == size
            &&& s.offset as int % align == 0
            &&& s.chunk == n - 1 || (s.chunk == n && s.offset == 0)
            &&& s.chunk == n - 1 ==> {
                &&& arena.cursor <= s.offset < arena.cursor + align
                &&& s.offset + size <= arena.chunks@[n - 1]
            }
            &&& s.chunk == n && n > 0 ==> align_up(arena.cursor as int, align) + size
                > arena.chunks@[n - 1]
        }),
{
    law_alignment(arena.cursor as int, align);
    vstd::arithmetic::div_mod::lemma_small_mod(0, align as nat);
}

} // verus!
