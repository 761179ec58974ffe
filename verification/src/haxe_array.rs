//! Haxe `Array` values: elements of one byte size, with a capacity that grows by doubling.

use crate::haxe_string::{self, HaxeString};
use crate::sorting;
use crate::text;
use crate::words;
use vstd::prelude::*;

verus! {

/// Capacity of a new array.
pub const INITIAL_CAPACITY: usize = 8;

/// An array: its elements, each `elem_size` bytes, and the number of elements that fit in its
/// allocation.
pub struct HaxeArray {
    pub elems: Vec<Vec<u8>>,
    pub cap: usize,
    pub elem_size: usize,
}

impl View for HaxeArray {
    type V = Seq<Seq<u8>>;

    open spec fn view(&self) -> Seq<Seq<u8>> {
        text::views(self.elems@)
    }
}

/// Every element of `s` has `n` bytes.
pub open spec fn uniform(s: Seq<Seq<u8>>, n: nat) -> bool {
    forall|i: int| 0 <= i < s.len() ==> (#[trigger] s[i]).len() == n
}

impl HaxeArray {
    /// The elements have the element size and fit in the allocation.
    pub open spec fn wf(self) -> bool {
        &&& uniform(self@, self.elem_size as nat)
        &&& self@.len() <= self.cap
    }
}

/// The larger of a length and the initial capacity.
pub open spec fn roomy(len: nat) -> nat {
    if len < INITIAL_CAPACITY as nat {
        INITIAL_CAPACITY as nat
    } else {
        len
    }
}

/// Capacity after making room for `need` elements by doubling.
pub open spec fn grown(cap: nat, need: nat) -> nat
    decreases (if cap < need { need - cap } else { 0 }),
{
    if cap == 0 {
        if need <= INITIAL_CAPACITY as nat {
            INITIAL_CAPACITY as nat
        } else {
            grown(INITIAL_CAPACITY as nat, need)
        }
    } else if cap >= need {
        cap
    } else {
        grown(cap * 2, need)
    }
}

/// Capacity of an array that makes room for `need` elements: its own where that is enough.
pub open spec fn cap_for(cap: nat, need: nat) -> nat {
    if need <= cap {
        cap
    } else {
        grown(cap, need)
    }
}

/// The grown capacity is enough, and at most twice the need or eight.
pub proof fn lemma_grown(cap: nat, need: nat)
    ensures
        grown(cap, need) >= need,
        grown(cap, need) >= cap,
        cap < need ==> grown(cap, need) <= 2 * need || grown(cap, need) == INITIAL_CAPACITY,
    decreases (if cap < need { need - cap } else { 0 }),
{
    if cap == 0 {
        if need > INITIAL_CAPACITY as nat {
            lemma_grown(INITIAL_CAPACITY as nat, need);
        }
    } else if cap < need {
        if cap * 2 < need {
            lemma_grown(cap * 2, need);
        } else {
            assert(grown(cap * 2, need) == cap * 2);
        }
    }
}

fn grow(cap: usize, need: usize) -> (new_cap: usize)
    requires
        need <= usize::MAX / 2,
    ensures
        new_cap == cap_for(cap as nat, need as nat),
        new_cap >= need,
{
    if need <= cap {
        return cap;
    }
    let mut new_cap: usize = if cap == 0 {
        INITIAL_CAPACITY
    } else {
        cap
    };
    assert(grown(cap as nat, need as nat) == grown(new_cap as nat, need as nat));
    while new_cap < need
        invariant
            0 < new_cap,
            need <= usize::MAX / 2,
            grown(cap as nat, need as nat) == grown(new_cap as nat, need as nat),
        decreases (if new_cap < need { need - new_cap } else { 0 }),
    {
        new_cap = new_cap * 2;
    }
    new_cap
}

fn copy_elems(src: &Vec<Vec<u8>>, lo: usize, hi: usize) -> (out: Vec<Vec<u8>>)
    requires
        lo <= hi <= src@.len(),
    ensures
        text::views(out@) == text::views(src@).subrange(lo as int, hi as int),
{
    let mut out: Vec<Vec<u8>> = Vec::new();
    let mut i: usize = lo;
    while i < hi
        invariant
            lo <= i <= hi <= src@.len(),
            out@.len() == i - lo,
            forall|j: int| 0 <= j < i - lo ==> (#[trigger] out@[j])@ == src@[lo + j]@,
        decreases hi - i,
    {
        out.push(text::copy_all(src[i].as_slice()));
        i = i + 1;
    }
    assert(text::views(out@) =~= text::views(src@).subrange(lo as int, hi as int));
    out
}

// ---------------------------------------------------------------------------
// Creation and access
// ---------------------------------------------------------------------------

/// An empty array.
pub fn haxe_array_new(elem_size: usize) -> (a: HaxeArray)
    ensures
        a.wf(),
        a@ == Seq::<Seq<u8>>::empty(),
        a.cap == INITIAL_CAPACITY,
        a.elem_size == elem_size,
{
    let a = HaxeArray { elems: Vec::new(), cap: INITIAL_CAPACITY, elem_size };
    assert(a@ =~= Seq::<Seq<u8>>::empty());
    a
}

fn from_vec(elems: Vec<Vec<u8>>, elem_size: usize) -> (a: HaxeArray)
    requires
        uniform(text::views(elems@), elem_size as nat),
    ensures
        a.wf(),
        a@ == text::views(elems@),
        a.cap == roomy(text::views(elems@).len()),
        a.elem_size == elem_size,
{
    let n: usize = elems.len();
    let cap: usize = if n < INITIAL_CAPACITY {
        INITIAL_CAPACITY
    } else {
        n
    };
    HaxeArray { elems, cap, elem_size }
}

/// An array with copies of the given elements.
pub fn haxe_array_from_elements(elements: &Vec<Vec<u8>>, elem_size: usize) -> (a: HaxeArray)
    requires
        uniform(text::views(elements@), elem_size as nat),
    ensures
        a.wf(),
        a@ == text::views(elements@),
        a.cap == roomy(a@.len()),
        a.elem_size == elem_size,
{
    let elems: Vec<Vec<u8>> = copy_elems(elements, 0, elements.len());
    assert(text::views(elems@) =~= text::views(elements@));
    from_vec(elems, elem_size)
}

/// Number of elements; 0 for null.
pub fn haxe_array_length(arr: Option<&HaxeArray>) -> (n: usize)
    ensures
        n == (match arr {
            Some(a) => a@.len(),
            None => 0,
        }),
{
    match arr {
        Some(a) => a.elems.len(),
        None => 0,
    }
}

/// A copy of the element at `index`; none outside the array.
pub fn haxe_array_get(arr: Option<&HaxeArray>, index: usize) -> (e: Option<Vec<u8>>)
    ensures
        match arr {
            Some(a) => if index < a@.len() {
                e is Some && e->Some_0@ == a@[index as int]
            } else {
                e is None
            },
            None => e is None,
        },
{
    match arr {
        Some(a) => {
            if index < a.elems.len() {
                Some(text::copy_all(a.elems[index].as_slice()))
            } else {
                None
            }
        },
        None => None,
    }
}

/// The element at `index` itself; none outside the array.
pub fn haxe_array_get_ptr(arr: Option<&HaxeArray>, index: usize) -> (e: Option<&Vec<u8>>)
    ensures
        match arr {
            Some(a) => if index < a@.len() {
                e is Some && e->Some_0@ == a@[index as int]
            } else {
                e is None
            },
            None => e is None,
        },
{
    match arr {
        Some(a) => {
            if index < a.elems.len() {
                Some(&a.elems[index])
            } else {
                None
            }
        },
        None => None,
    }
}

/// `s` extended with zero elements to `n` elements.
pub open spec fn extended(s: Seq<Seq<u8>>, n: nat, elem_size: nat) -> Seq<Seq<u8>> {
    if n <= s.len() {
        s
    } else {
        s + Seq::new((n - s.len()) as nat, |i: int| words::zeros(elem_size))
    }
}

/// The elements once position `index` holds `e`: the array grows with zero elements as far as
/// needed.
pub open spec fn set_spec(s: Seq<Seq<u8>>, index: int, e: Seq<u8>, elem_size: nat) -> Seq<Seq<u8>> {
    extended(s, (index + 1) as nat, elem_size).update(index, e)
}

/// The array holds `s`, with the capacity of `before` grown for `need` elements.
pub open spec fn changed_to(before: HaxeArray, after: HaxeArray, s: Seq<Seq<u8>>, need: nat) -> bool {
    &&& after.wf()
    &&& after@ == s
    &&& after.elem_size == before.elem_size
    &&& after.cap == cap_for(before.cap as nat, need)
}

fn extend(arr: &mut HaxeArray, n: usize)
    requires
        old(arr).wf(),
        n <= usize::MAX / 2,
    ensures
        changed_to(*old(arr), *final(arr), extended(old(arr)@, n as nat, old(arr).elem_size as nat), n as nat),
{
    let ghost before = arr@;
    let ghost size = arr.elem_size as nat;
    arr.cap = grow(arr.cap, n);
    while arr.elems.len() < n
        invariant
            before.len() <= arr@.len(),
            arr@.len() <= n || arr@.len() == before.len(),
            arr@ == extended(before, arr@.len(), size),
            arr.elem_size == size,
            arr.elem_size == old(arr).elem_size,
            arr.cap == cap_for(old(arr).cap as nat, n as nat),
            arr.cap >= n,
            old(arr)@ == before,
            old(arr)@.len() <= old(arr).cap,
            uniform(before, size),
        decreases n - arr@.len(),
    {
        let ghost now = arr@;
        arr.elems.push(words::zero_bytes(arr.elem_size));
        assert(arr@ =~= now.push(words::zeros(size)));
        assert(arr@ =~= extended(before, now.len() + 1, size));
    }
    assert(arr@ =~= extended(before, n as nat, size));
    assert(uniform(arr@, size));
}

/// Stores `data` at `index`, or a zero element where it is null; the array grows with zero
/// elements as far as needed. False for a null array.
pub fn haxe_array_set(arr: Option<&mut HaxeArray>, index: usize, data: Option<&[u8]>) -> (ok: bool)
    requires
        arr matches Some(a) ==> (*a).wf() && (data matches Some(d) ==> d@.len() == (*a).elem_size),
        index < usize::MAX / 2,
    ensures
        ok == (arr is Some),
        arr matches Some(a) ==> changed_to(
            *a,
            *final(a),
            set_spec(
                (*a)@,
                index as int,
                match data {
                    Some(d) => d@,
                    None => words::zeros((*a).elem_size as nat),
                },
                (*a).elem_size as nat,
            ),
            (index + 1) as nat,
        ),
{
    match arr {
        None => false,
        Some(a) => {
            set_element(a, index, data);
            true
        },
    }
}

fn set_element(a: &mut HaxeArray, index: usize, data: Option<&[u8]>)
    requires
        old(a).wf(),
        data matches Some(d) ==> d@.len() == old(a).elem_size,
        index < usize::MAX / 2,
    ensures
        changed_to(
            *old(a),
            *final(a),
            set_spec(
                old(a)@,
                index as int,
                match data {
                    Some(d) => d@,
                    None => words::zeros(old(a).elem_size as nat),
                },
                old(a).elem_size as nat,
            ),
            (index + 1) as nat,
        ),
{
    extend(a, index + 1);
    let e: Vec<u8> = match data {
        Some(d) => text::copy_all(d),
        None => words::zero_bytes(a.elem_size),
    };
    let ghost now = a@;
    a.elems.set(index, e);
    assert(a@ =~= now.update(index as int, e@));
}

/// The word that `value` is as an element of 8 bytes.
pub open spec fn word_of(value: i64) -> Seq<u8> {
    words::le_bytes((value as u64) as nat, 8)
}

/// The integer that an element holds: as a 64-bit or 32-bit word, by its size; 0 for any other
/// size.
pub open spec fn int_of(e: Seq<u8>) -> i64 {
    if e.len() == 8 {
        (words::le_value(e) as u64) as i64
    } else if e.len() == 4 {
        ((words::le_value(e) as u32) as i32) as i64
    } else {
        0
    }
}

/// A word is read back from its element.
pub proof fn law_word_round_trip(value: i64)
    ensures
        word_of(value).len() == 8,
        int_of(word_of(value)) == value,
{
    words::lemma_pow256();
    words::lemma_le_bytes_len((value as u64) as nat, 8);
    words::lemma_write_read((value as u64) as nat, 8);
    assert((value as u64) as i64 == value) by (bit_vector);
}

fn word_bytes(value: i64) -> (e: Vec<u8>)
    ensures
        e@ == word_of(value),
        e@.len() == 8,
{
    let word: u64 = #[verifier::truncate]
    (value as u64);
    words::write_le(word, 8)
}

fn read_int(e: &Vec<u8>) -> (v: i64)
    ensures
        v == int_of(e@),
{
    if e.len() == 8 {
        let w: u64 = words::read_le(e.as_slice());
        #[verifier::truncate]
        (w as i64)
    } else if e.len() == 4 {
        let w: u64 = words::read_le(e.as_slice());
        proof {
            words::lemma_pow256();
            words::lemma_le_value_bound(e@);
        }
        let h: u32 = w as u32;
        let i: i32 = #[verifier::truncate]
        (h as i32);
        i as i64
    } else {
        0
    }
}

/// Stores an integer at `index` of an array of 64-bit elements; the array grows with zero
/// elements as far as needed. False for a null array.
pub fn haxe_array_set_i64(arr: Option<&mut HaxeArray>, index: usize, value: i64) -> (ok: bool)
    requires
        arr matches Some(a) ==> (*a).wf() && (*a).elem_size == 8,
        index < usize::MAX / 2,
    ensures
        ok == (arr is Some),
        arr matches Some(a) ==> changed_to(
            *a,
            *final(a),
            set_spec((*a)@, index as int, word_of(value), 8),
            (index + 1) as nat,
        ),
{
    haxe_array_set(arr, index, Some(word_bytes(value).as_slice()))
}

/// Stores the bits of a floating-point number at `index` of an array of 64-bit elements; the
/// array grows with zero elements as far as needed. False for a null array.
pub fn haxe_array_set_f64(arr: Option<&mut HaxeArray>, index: usize, bits: u64) -> (ok: bool)
    requires
        arr matches Some(a) ==> (*a).wf() && (*a).elem_size == 8,
        index < usize::MAX / 2,
    ensures
        ok == (arr is Some),
        arr matches Some(a) ==> changed_to(
            *a,
            *final(a),
            set_spec((*a)@, index as int, words::le_bytes(bits as nat, 8), 8),
            (index + 1) as nat,
        ),
{
    haxe_array_set(arr, index, Some(words::write_le(bits, 8).as_slice()))
}

/// Stores a zero element at `index`; the array grows with zero elements as far as needed. False
/// for a null array.
pub fn haxe_array_set_null(arr: Option<&mut HaxeArray>, index: usize) -> (ok: bool)
    requires
        arr matches Some(a) ==> (*a).wf(),
        index < usize::MAX / 2,
    ensures
        ok == (arr is Some),
        arr matches Some(a) ==> changed_to(
            *a,
            *final(a),
            set_spec(
                (*a)@,
                index as int,
                words::zeros((*a).elem_size as nat),
                (*a).elem_size as nat,
            ),
            (index + 1) as nat,
        ),
{
    haxe_array_set(arr, index, None)
}

/// What is set is read back, positions that were there keep their elements, and new positions
/// before the one that was set hold zero elements.
pub proof fn law_set_get(s: Seq<Seq<u8>>, index: int, e: Seq<u8>, elem_size: nat, j: int)
    requires
        0 <= index,
        0 <= j,
    ensures
        ({
            let t = set_spec(s, index, e, elem_size);
            &&& t.len() == if index < s.len() {
                s.len() as int
            } else {
                index + 1
            }
            &&& t[index] == e
            &&& j != index && j < s.len() ==> t[j] == s[j]
            &&& j != index && s.len() <= j < t.len() ==> t[j] == words::zeros(elem_size)
        }),
{
}

// ---------------------------------------------------------------------------
// Modification
// ---------------------------------------------------------------------------

/// Appends an element; a null element changes nothing.
pub fn haxe_array_push(arr: &mut HaxeArray, data: Option<&[u8]>)
    requires
        old(arr).wf(),
        data matches Some(d) ==> d@.len() == old(arr).elem_size,
        old(arr)@.len() < usize::MAX / 2,
    ensures
        match data {
            Some(d) => changed_to(*old(arr), *final(arr), old(arr)@.push(d@), old(arr)@.len() + 1),
            None => *final(arr) == *old(arr),
        },
{
    match data {
        None => {},
        Some(d) => {
            let ghost before = arr@;
            arr.cap = grow(arr.cap, arr.elems.len() + 1);
            arr.elems.push(text::copy_all(d));
            assert(arr@ =~= before.push(d@));
        },
    }
}

/// Takes the last element off; none for a null or empty array.
pub fn haxe_array_pop(arr: Option<&mut HaxeArray>) -> (e: Option<Vec<u8>>)
    requires
        arr matches Some(a) ==> (*a).wf(),
    ensures
        match arr {
            None => e is None,
            Some(a) => {
                &&& (*final(a)).wf()
                &&& (*final(a)).cap == (*a).cap
                &&& (*final(a)).elem_size == (*a).elem_size
                &&& if (*a)@.len() == 0 {
                    e is None && (*final(a))@ == (*a)@
                } else {
                    e is Some && e->Some_0@ == (*a)@.last() && (*final(a))@ == (*a)@.drop_last()
                }
            },
        },
{
    match arr {
        None => None,
        Some(a) => {
            let ghost before = a@;
            let e: Option<Vec<u8>> = a.elems.pop();
            assert(a@ =~= if before.len() == 0 {
                before
            } else {
                before.drop_last()
            });
            e
        },
    }
}

/// Takes the last element off as an integer; 0 for a null or empty array.
pub fn haxe_array_pop_i64(arr: Option<&mut HaxeArray>) -> (v: i64)
    requires
        arr matches Some(a) ==> (*a).wf(),
    ensures
        match arr {
            None => v == 0,
            Some(a) => {
                &&& (*final(a)).wf()
                &&& (*final(a)).cap == (*a).cap
                &&& (*final(a)).elem_size == (*a).elem_size
                &&& if (*a)@.len() == 0 {
                    v == 0 && (*final(a))@ == (*a)@
                } else {
                    v == int_of((*a)@.last()) && (*final(a))@ == (*a)@.drop_last()
                }
            },
        },
{
    match haxe_array_pop(arr) {
        None => 0,
        Some(e) => read_int(&e),
    }
}

/// An element as a dynamic value: an integer for 32-bit and 64-bit elements, else the word that
/// it starts with.
#[derive(Clone, Copy)]
pub enum ElementValue {
    Int(i64),
    Word(u64),
}

/// The dynamic value of an element.
pub open spec fn element_value(e: Seq<u8>) -> ElementValue {
    if e.len() == 8 || e.len() == 4 {
        ElementValue::Int(int_of(e))
    } else {
        ElementValue::Word(words::le_value(e.subrange(0, 8)) as u64)
    }
}

fn read_element(e: &Vec<u8>) -> (v: ElementValue)
    requires
        e@.len() == 4 || e@.len() >= 8,
    ensures
        v == element_value(e@),
{
    if e.len() == 8 || e.len() == 4 {
        ElementValue::Int(read_int(e))
    } else {
        let head: Vec<u8> = text::copy_range(e.as_slice(), 0, 8);
        ElementValue::Word(words::read_le(head.as_slice()))
    }
}

/// Takes the last element off as a dynamic value; none for a null or empty array.
pub fn haxe_array_pop_ptr(arr: Option<&mut HaxeArray>) -> (v: Option<ElementValue>)
    requires
        arr matches Some(a) ==> (*a).wf() && ((*a).elem_size == 4 || (*a).elem_size >= 8),
    ensures
        match arr {
            None => v is None,
            Some(a) => {
                &&& (*final(a)).wf()
                &&& (*final(a)).cap == (*a).cap
                &&& (*final(a)).elem_size == (*a).elem_size
                &&& if (*a)@.len() == 0 {
                    v is None && (*final(a))@ == (*a)@
                } else {
                    v == Some(element_value((*a)@.last())) && (*final(a))@ == (*a)@.drop_last()
                }
            },
        },
{
    match haxe_array_pop(arr) {
        None => None,
        Some(e) => Some(read_element(&e)),
    }
}

/// The position at which an element is inserted for `index`: within the array, 0 for a negative
/// one.
pub open spec fn insert_index(index: int, len: nat) -> int {
    if index < 0 {
        0
    } else if index > len {
        len as int
    } else {
        index
    }
}

/// Inserts an element; a null element changes nothing.
pub fn haxe_array_insert(arr: &mut HaxeArray, index: i32, data: Option<&[u8]>)
    requires
        old(arr).wf(),
        data matches Some(d) ==> d@.len() == old(arr).elem_size,
        old(arr)@.len() < usize::MAX / 2,
    ensures
        match data {
            Some(d) => changed_to(
                *old(arr),
                *final(arr),
                old(arr)@.insert(insert_index(index as int, old(arr)@.len()), d@),
                old(arr)@.len() + 1,
            ),
            None => *final(arr) == *old(arr),
        },
{
    match data {
        None => {},
        Some(d) => {
            let ghost before = arr@;
            let n: usize = arr.elems.len();
            let pos: usize = if index < 0 {
                0
            } else if index as usize > n {
                n
            } else {
                index as usize
            };
            arr.cap = grow(arr.cap, n + 1);
            arr.elems.insert(pos, text::copy_all(d));
            assert(arr@ =~= before.insert(pos as int, d@));
        },
    }
}

/// Removes the element at `index`; false for a null array and outside the array.
pub fn haxe_array_remove(arr: Option<&mut HaxeArray>, index: usize) -> (ok: bool)
    requires
        arr matches Some(a) ==> (*a).wf(),
    ensures
        match arr {
            None => !ok,
            Some(a) => {
                &&& ok == (index < (*a)@.len())
                &&& (*final(a)).wf()
                &&& (*final(a)).cap == (*a).cap
                &&& (*final(a)).elem_size == (*a).elem_size
                &&& (*final(a))@ == if ok {
                    (*a)@.remove(index as int)
                } else {
                    (*a)@
                }
            },
        },
{
    match arr {
        None => false,
        Some(a) => {
            if index >= a.elems.len() {
                return false;
            }
            let ghost before = a@;
            let _gone: Vec<u8> = a.elems.remove(index);
            assert(a@ =~= before.remove(index as int));
            true
        },
    }
}

/// Inserting an element and removing it again gives the array back.
pub proof fn law_insert_remove(s: Seq<Seq<u8>>, index: int, e: Seq<u8>)
    ensures
        s.insert(insert_index(index, s.len()), e).remove(insert_index(index, s.len())) == s,
        s.insert(insert_index(index, s.len()), e)[insert_index(index, s.len())] == e,
{
    assert(s.insert(insert_index(index, s.len()), e).remove(insert_index(index, s.len())) =~= s);
}

/// Reverses the elements in place.
pub fn haxe_array_reverse(arr: &mut HaxeArray)
    requires
        old(arr).wf(),
    ensures
        final(arr).wf(),
        final(arr)@ == old(arr)@.reverse(),
        final(arr).cap == old(arr).cap,
        final(arr).elem_size == old(arr).elem_size,
{
    let ghost before = arr.elems@;
    let n: usize = arr.elems.len();
    let mut out: Vec<Vec<u8>> = Vec::new();
    while arr.elems.len() > 0
        invariant
            arr.elems@ == before.take(arr.elems@.len() as int),
            arr.elems@.len() + out@.len() == n,
            n == before.len(),
            arr.cap == old(arr).cap,
            arr.elem_size == old(arr).elem_size,
            forall|j: int| 0 <= j < out@.len() ==> out@[j] == before[n - 1 - j],
        decreases arr.elems@.len(),
    {
        match arr.elems.pop() {
            Some(e) => {
                out.push(e);
            },
            None => {},
        }
        assert(arr.elems@ =~= before.take(arr.elems@.len() as int));
    }
    arr.elems = out;
    assert(arr@ =~= old(arr)@.reverse());
}

/// Reversing twice changes nothing.
pub proof fn law_reverse_twice(s: Seq<Seq<u8>>)
    ensures
        s.reverse().reverse() == s,
{
    assert(s.reverse().reverse() =~= s);
}

/// A copy of an array; none for null.
pub fn haxe_array_copy(arr: Option<&HaxeArray>) -> (c: Option<HaxeArray>)
    requires
        arr matches Some(a) ==> a.wf(),
    ensures
        c is Some <==> arr is Some,
        arr matches Some(a) ==> {
            &&& c->Some_0.wf()
            &&& c->Some_0@ == a@
            &&& c->Some_0.cap == roomy(a@.len())
            &&& c->Some_0.elem_size == a.elem_size
        },
{
    match arr {
        None => None,
        Some(a) => Some(haxe_array_from_elements(&a.elems, a.elem_size)),
    }
}

/// The elements from `start` to `end`, both cut to the length.
pub open spec fn clamped(s: Seq<Seq<u8>>, start: int, end: int) -> Seq<Seq<u8>> {
    let lo = if start < s.len() { start } else { s.len() as int };
    let hi = if end < s.len() { end } else { s.len() as int };
    if lo < hi {
        s.subrange(lo, hi)
    } else {
        Seq::empty()
    }
}

/// A new array with the elements from `start` up to `end`; none for null.
pub fn haxe_array_slice(arr: Option<&HaxeArray>, start: usize, end: usize) -> (c: Option<HaxeArray>)
    requires
        arr matches Some(a) ==> a.wf(),
    ensures
        c is Some <==> arr is Some,
        arr matches Some(a) ==> {
            &&& c->Some_0.wf()
            &&& c->Some_0@ == clamped(a@, start as int, end as int)
            &&& c->Some_0.cap == roomy(c->Some_0@.len())
            &&& c->Some_0.elem_size == a.elem_size
        },
{
    match arr {
        None => None,
        Some(a) => {
            let n: usize = a.elems.len();
            let lo: usize = if start < n {
                start
            } else {
                n
            };
            let hi: usize = if end < n {
                end
            } else {
                n
            };
            if lo >= hi {
                return Some(haxe_array_new(a.elem_size));
            }
            let elems: Vec<Vec<u8>> = copy_elems(&a.elems, lo, hi);
            Some(from_vec(elems, a.elem_size))
        },
    }
}

/// Gives the storage back; the result is the number of elements that it had room for, 0 for a
/// null array.
pub fn haxe_array_free(arr: Option<HaxeArray>) -> (released: usize)
    ensures
        released == (match arr {
            Some(a) => a.cap,
            None => 0,
        }),
{
    match arr {
        Some(a) => a.cap,
        None => 0,
    }
}

/// Appends the low bytes of a 32-bit integer.
pub fn haxe_array_push_i32(arr: &mut HaxeArray, value: i32)
    requires
        old(arr).wf(),
        old(arr).elem_size <= 4,
        old(arr)@.len() < usize::MAX / 2,
    ensures
        changed_to(
            *old(arr),
            *final(arr),
            old(arr)@.push(words::le_bytes((value as u32) as nat, old(arr).elem_size as nat)),
            old(arr)@.len() + 1,
        ),
{
    let word: u32 = #[verifier::truncate]
    (value as u32);
    let e: Vec<u8> = words::write_le(word as u64, arr.elem_size);
    haxe_array_push(arr, Some(e.as_slice()));
}

/// The element at `index` as a 32-bit integer, zero-extended from its bytes; 0 outside the
/// array.
pub fn haxe_array_get_i32(arr: Option<&HaxeArray>, index: usize) -> (v: i32)
    requires
        arr matches Some(a) ==> a.wf() && a.elem_size <= 4,
    ensures
        v == (match arr {
            Some(a) => if index < a@.len() {
                (words::le_value(a@[index as int]) as u32) as i32
            } else {
                0i32
            },
            None => 0i32,
        }),
{
    match haxe_array_get_ptr(arr, index) {
        Some(e) => {
            proof {
                words::lemma_pow256();
                words::lemma_le_value_bound(e@);
                words::lemma_pow256_monotone(e@.len(), 4);
            }
            let w: u32 = words::read_le(e.as_slice()) as u32;
            #[verifier::truncate]
            (w as i32)
        },
        None => 0,
    }
}

/// Appends the low bytes of a 64-bit integer.
pub fn haxe_array_push_i64(arr: &mut HaxeArray, value: i64)
    requires
        old(arr).wf(),
        old(arr).elem_size <= 8,
        old(arr)@.len() < usize::MAX / 2,
    ensures
        changed_to(
            *old(arr),
            *final(arr),
            old(arr)@.push(words::le_bytes((value as u64) as nat, old(arr).elem_size as nat)),
            old(arr)@.len() + 1,
        ),
{
    let word: u64 = #[verifier::truncate]
    (value as u64);
    let e: Vec<u8> = words::write_le(word, arr.elem_size);
    haxe_array_push(arr, Some(e.as_slice()));
}

/// The element at `index` as a 64-bit integer, zero-extended from its bytes; 0 outside the
/// array.
pub fn haxe_array_get_i64(arr: Option<&HaxeArray>, index: usize) -> (v: i64)
    requires
        arr matches Some(a) ==> a.wf() && a.elem_size <= 8,
    ensures
        v == (match arr {
            Some(a) => if index < a@.len() {
                (words::le_value(a@[index as int]) as u64) as i64
            } else {
                0i64
            },
            None => 0i64,
        }),
{
    match haxe_array_get_ptr(arr, index) {
        Some(e) => {
            let w: u64 = words::read_le(e.as_slice());
            #[verifier::truncate]
            (w as i64)
        },
        None => 0,
    }
}

/// Appends the bits of a floating-point number.
pub fn haxe_array_push_f64(arr: &mut HaxeArray, bits: u64)
    requires
        old(arr).wf(),
        old(arr).elem_size <= 8,
        old(arr)@.len() < usize::MAX / 2,
    ensures
        changed_to(
            *old(arr),
            *final(arr),
            old(arr)@.push(words::le_bytes(bits as nat, old(arr).elem_size as nat)),
            old(arr)@.len() + 1,
        ),
{
    let e: Vec<u8> = words::write_le(bits, arr.elem_size);
    haxe_array_push(arr, Some(e.as_slice()));
}

/// The element at `index` as the bits of a floating-point number; 0 outside the array.
pub fn haxe_array_get_f64(arr: Option<&HaxeArray>, index: usize) -> (bits: u64)
    requires
        arr matches Some(a) ==> a.wf() && a.elem_size <= 8,
    ensures
        bits == (match arr {
            Some(a) => if index < a@.len() {
                words::le_value(a@[index as int])
            } else {
                0
            },
            None => 0,
        }),
{
    match haxe_array_get_ptr(arr, index) {
        Some(e) => words::read_le(e.as_slice()),
        None => 0,
    }
}

// ---------------------------------------------------------------------------
// Strings
// ---------------------------------------------------------------------------

/// Bytes of a list of string handles; a null handle has none.
pub open spec fn string_views(parts: Seq<Option<HaxeString>>) -> Seq<Seq<u8>> {
    parts.map_values(
        |s: Option<HaxeString>|
            match s {
                Some(h) => h@,
                None => Seq::empty(),
            },
    )
}

/// The strings of an array one after another with `sep` between them; the empty string for a
/// null or empty array.
pub fn haxe_array_join(
    arr: Option<&Vec<Option<HaxeString>>>,
    sep: Option<&HaxeString>,
) -> (s: HaxeString)
    ensures
        match arr {
            Some(a) => if a@.len() == 0 {
                s.buffered(Seq::empty())
            } else {
                let joined = text::join(string_views(a@), haxe_string::opt_view(sep));
                &&& s.terminated(joined)
                &&& s.cap == if joined.len() < usize::MAX {
                    joined.len() + 1
                } else {
                    usize::MAX as nat
                }
            },
            None => s.buffered(Seq::empty()),
        },
{
    let a: &Vec<Option<HaxeString>> = match arr {
        None => {
            return haxe_string::haxe_string_new();
        },
        Some(a) => a,
    };
    if a.len() == 0 {
        return haxe_string::haxe_string_new();
    }
    let ghost all = string_views(a@);
    let ghost between = haxe_string::opt_view(sep);
    let mut out: Vec<u8> = Vec::new();
    let mut i: usize = 0;
    assert(all.take(0) =~= Seq::empty());
    while i < a.len()
        invariant
            i <= a@.len(),
            all == string_views(a@),
            between == haxe_string::opt_view(sep),
            out@ == text::join(all.take(i as int), between),
        decreases a@.len() - i,
    {
        assert(all.take(i + 1).drop_last() =~= all.take(i as int));
        if i > 0 {
            match sep {
                Some(p) => text::append(&mut out, p.bytes()),
                None => {},
            }
        }
        let ghost sofar = out@;
        match &a[i] {
            Some(h) => text::append(&mut out, h.bytes()),
            None => {},
        }
        assert(out@ =~= sofar + all[i as int]);
        i = i + 1;
        assert(out@ =~= text::join(all.take(i as int), between));
    }
    assert(all.take(i as int) =~= all);
    let cap: usize = out.len().saturating_add(1);
    HaxeString::ended(out, cap)
}

/// Decimal texts of the elements of an array.
pub open spec fn decimals(s: Seq<Seq<u8>>) -> Seq<Seq<u8>> {
    s.map_values(|e: Seq<u8>| text::dec_int(int_of(e) as int))
}

/// The elements as integers between brackets.
pub open spec fn bracketed(parts: Seq<Seq<u8>>) -> Seq<u8> {
    seq![91u8] + text::join(parts, seq![44u8, 32u8]) + seq![93u8]
}

fn list_decimals(a: &HaxeArray) -> (out: Vec<u8>)
    requires
        a.wf(),
    ensures
        out@ == bracketed(decimals(a@)),
{
    let ghost all = decimals(a@);
    let mut out: Vec<u8> = vec![91];
    let mut i: usize = 0;
    assert(all.take(0) =~= Seq::empty());
    assert(out@ =~= seq![91u8] + text::join(all.take(0), seq![44u8, 32u8]));
    while i < a.elems.len()
        invariant
            i <= a.elems@.len(),
            all == decimals(a@),
            out@ == seq![91u8] + text::join(all.take(i as int), seq![44u8, 32u8]),
        decreases a.elems@.len() - i,
    {
        assert(all.take(i + 1).drop_last() =~= all.take(i as int));
        if i > 0 {
            out.push(44);
            out.push(32);
        }
        text::append_i64(&mut out, read_int(&a.elems[i]));
        i = i + 1;
        assert(all.take(i as int).last() == text::dec_int(int_of(a@[i - 1]) as int));
        assert(out@ =~= seq![91u8] + text::join(all.take(i as int), seq![44u8, 32u8]));
    }
    assert(all.take(i as int) =~= all);
    out.push(93);
    assert(out@ =~= bracketed(decimals(a@)));
    out
}

/// `[e0, e1, ..]` with the elements of an array of 64-bit integers; `[]` for a null array.
pub fn haxe_array_to_string(arr: Option<&HaxeArray>) -> (s: HaxeString)
    requires
        arr matches Some(a) ==> a.wf() && a.elem_size == 8,
    ensures
        s.buffered(
            bracketed(
                match arr {
                    Some(a) => decimals(a@),
                    None => Seq::empty(),
                },
            ),
        ),
{
    match arr {
        Some(a) => {
            let out: Vec<u8> = list_decimals(a);
            haxe_string::haxe_string_from_bytes(Some(out.as_slice()))
        },
        None => {
            let out: Vec<u8> = vec![91, 93];
            assert(out@ =~= bracketed(Seq::empty()));
            haxe_string::haxe_string_from_bytes(Some(out.as_slice()))
        },
    }
}

/// What tracing an array prints: its integers between brackets, a question mark for an element
/// of another size.
pub open spec fn traced(s: Seq<Seq<u8>>) -> Seq<Seq<u8>> {
    s.map_values(
        |e: Seq<u8>|
            if e.len() == 8 || e.len() == 4 {
                text::dec_int(int_of(e) as int)
            } else {
                seq![63u8]
            },
    )
}

/// Text of a traced array; `null` for a null one.
pub fn haxe_trace_array(arr: Option<&HaxeArray>) -> (out: Vec<u8>)
    requires
        arr matches Some(a) ==> a.wf(),
    ensures
        out@ == (match arr {
            Some(a) => bracketed(traced(a@)),
            None => text::lit("null"),
        }),
{
    let a: &HaxeArray = match arr {
        None => {
            return text::copy_all("null".as_bytes());
        },
        Some(a) => a,
    };
    if a.elem_size == 8 || a.elem_size == 4 {
        assert(traced(a@) =~= decimals(a@));
        return list_decimals(a);
    }
    let ghost all = traced(a@);
    let mut out: Vec<u8> = vec![91];
    let mut i: usize = 0;
    assert(all.take(0) =~= Seq::empty());
    assert(out@ =~= seq![91u8] + text::join(all.take(0), seq![44u8, 32u8]));
    while i < a.elems.len()
        invariant
            i <= a.elems@.len(),
            all == traced(a@),
            a.wf(),
            a.elem_size != 8 && a.elem_size != 4,
            out@ == seq![91u8] + text::join(all.take(i as int), seq![44u8, 32u8]),
        decreases a.elems@.len() - i,
    {
        assert(all.take(i + 1).drop_last() =~= all.take(i as int));
        if i > 0 {
            out.push(44);
            out.push(32);
        }
        out.push(63);
        i = i + 1;
        assert(all.take(i as int).last() == seq![63u8]) by {
            assert(a@[i - 1].len() == a.elem_size);
        }
        assert(out@ =~= seq![91u8] + text::join(all.take(i as int), seq![44u8, 32u8]));
    }
    assert(all.take(i as int) =~= all);
    out.push(93);
    assert(out@ =~= bracketed(traced(a@)));
    out
}

// ---------------------------------------------------------------------------
// Higher-order methods
// ---------------------------------------------------------------------------

/// Integers of the elements.
pub open spec fn ints(s: Seq<Seq<u8>>) -> Seq<i64> {
    s.map_values(|e: Seq<u8>| int_of(e))
}

/// Elements of 64-bit integers.
pub open spec fn words_of(s: Seq<i64>) -> Seq<Seq<u8>> {
    s.map_values(|v: i64| word_of(v))
}

proof fn lemma_words_uniform(s: Seq<i64>)
    ensures
        uniform(words_of(s), 8),
{
    assert forall|i: int| 0 <= i < words_of(s).len() implies (#[trigger] words_of(s)[i]).len()
        == 8 by {
        law_word_round_trip(s[i]);
    }
}

proof fn lemma_push_word(elems: Seq<Vec<u8>>, r: Seq<i64>, e: Vec<u8>, y: i64)
    requires
        text::views(elems) == words_of(r),
        e@ == word_of(y),
    ensures
        text::views(elems.push(e)) == words_of(r.push(y)),
{
    assert(text::views(elems.push(e)) =~= text::views(elems).push(e@));
    assert(words_of(r.push(y)) =~= words_of(r).push(word_of(y)));
}

/// A new array of the results of a function on the elements; an empty one for a null array or
/// function.
pub fn haxe_array_map<F: Fn(i64) -> i64>(arr: Option<&HaxeArray>, f: Option<F>) -> (out: HaxeArray)
    requires
        f matches Some(g) ==> forall|x: i64| call_requires(g, (x,)),
    ensures
        out.wf(),
        out.elem_size == 8,
        match (arr, f) {
            (Some(a), Some(g)) => {
                &&& out.cap == roomy(a@.len())
                &&& exists|r: Seq<i64>|
                    {
                        &&& out@ == #[trigger] words_of(r)
                        &&& r.len() == a@.len()
                        &&& forall|i: int|
                            0 <= i < r.len() ==> call_ensures(g, (ints(a@)[i],), #[trigger] r[i])
                    }
            },
            _ => out@ == Seq::<Seq<u8>>::empty() && out.cap == INITIAL_CAPACITY,
        },
{
    match (arr, f) {
        (Some(a), Some(g)) => {
            let mut elems: Vec<Vec<u8>> = Vec::new();
            let ghost mut r: Seq<i64> = Seq::empty();
            let mut i: usize = 0;
            assert(text::views(elems@) =~= words_of(r));
            while i < a.elems.len()
                invariant
                    i <= a.elems@.len(),
                    r.len() == i,
                    forall|x: i64| call_requires(g, (x,)),
                    text::views(elems@) == words_of(r),
                    forall|j: int|
                        0 <= j < i ==> call_ensures(g, (ints(a@)[j],), #[trigger] r[j]),
                decreases a.elems@.len() - i,
            {
                let x: i64 = read_int(&a.elems[i]);
                let y: i64 = g(x);
                let e: Vec<u8> = word_bytes(y);
                proof {
                    lemma_push_word(elems@, r, e, y);
                    r = r.push(y);
                    assert(ints(a@)[i as int] == x);
                }
                elems.push(e);
                i = i + 1;
            }
            proof {
                lemma_words_uniform(r);
            }
            from_vec(elems, 8)
        },
        _ => haxe_array_new(8),
    }
}

/// The elements of `s` for which the answer is not zero.
pub open spec fn kept(s: Seq<i64>, answers: Seq<i64>) -> Seq<i64>
    decreases s.len(),
{
    if s.len() == 0 || answers.len() == 0 {
        Seq::empty()
    } else {
        let rest = kept(s.drop_last(), answers.drop_last());
        if answers.last() != 0 {
            rest.push(s.last())
        } else {
            rest
        }
    }
}

/// A new array of the elements for which a function does not answer 0, in their order; an empty
/// one for a null array or function.
pub fn haxe_array_filter<F: Fn(i64) -> i64>(arr: Option<&HaxeArray>, f: Option<F>) -> (out:
    HaxeArray)
    requires
        f matches Some(g) ==> forall|x: i64| call_requires(g, (x,)),
    ensures
        out.wf(),
        out.elem_size == 8,
        match (arr, f) {
            (Some(a), Some(g)) => {
                &&& out.cap == roomy(a@.len())
                &&& exists|r: Seq<i64>|
                    {
                        &&& out@ == words_of(#[trigger] kept(ints(a@), r))
                        &&& r.len() == a@.len()
                        &&& forall|i: int|
                            0 <= i < r.len() ==> call_ensures(g, (ints(a@)[i],), #[trigger] r[i])
                    }
            },
            _ => out@ == Seq::<Seq<u8>>::empty() && out.cap == INITIAL_CAPACITY,
        },
{
    match (arr, f) {
        (Some(a), Some(g)) => {
            let ghost all = ints(a@);
            let mut elems: Vec<Vec<u8>> = Vec::new();
            let ghost mut r: Seq<i64> = Seq::empty();
            let mut i: usize = 0;
            assert(text::views(elems@) =~= words_of(kept(all.take(0), r)));
            while i < a.elems.len()
                invariant
                    i <= a.elems@.len(),
                    r.len() == i,
                    all == ints(a@),
                    elems@.len() <= i,
                    forall|x: i64| call_requires(g, (x,)),
                    text::views(elems@) == words_of(kept(all.take(i as int), r)),
                    forall|j: int| 0 <= j < i ==> call_ensures(g, (all[j],), #[trigger] r[j]),
                decreases a.elems@.len() - i,
            {
                let x: i64 = read_int(&a.elems[i]);
                let y: i64 = g(x);
                assert(all[i as int] == x);
                let ghost before = r;
                proof {
                    r = r.push(y);
                    assert(r.drop_last() =~= before);
                    assert(all.take(i + 1).drop_last() =~= all.take(i as int));
                }
                if y != 0 {
                    let e: Vec<u8> = word_bytes(x);
                    proof {
                        lemma_push_word(elems@, kept(all.take(i as int), before), e, x);
                    }
                    elems.push(e);
                }
                i = i + 1;
            }
            let n: usize = a.elems.len();
            let cap: usize = if n < INITIAL_CAPACITY {
                INITIAL_CAPACITY
            } else {
                n
            };
            proof {
                assert(all.take(i as int) =~= all);
                lemma_words_uniform(kept(all, r));
            }
            HaxeArray { elems, cap, elem_size: 8 }
        },
        _ => haxe_array_new(8),
    }
}

/// Sorts an array of 64-bit integers with a comparison; a null comparison changes nothing. The
/// sort is stable.
pub fn haxe_array_sort<F: Fn(i64, i64) -> i32>(arr: &mut HaxeArray, f: Option<F>)
    requires
        old(arr).wf(),
        old(arr).elem_size == 8,
        f matches Some(g) ==> forall|x: i64, y: i64| call_requires(g, (x, y)),
    ensures
        final(arr).wf(),
        final(arr).cap == old(arr).cap,
        final(arr).elem_size == 8,
        f is None ==> final(arr)@ == old(arr)@,
        f matches Some(g) ==> {
            &&& ints(final(arr)@).to_multiset() == ints(old(arr)@).to_multiset()
            &&& final(arr)@ == words_of(ints(final(arr)@))
            &&& forall|c: spec_fn(i64, i64) -> int|
                sorting::answers(g, c) ==> ints(final(arr)@) == #[trigger] sorting::stable_sorted(
                    ints(old(arr)@),
                    c,
                )
        },
{
    match f {
        None => {},
        Some(g) => {
            let mut values: Vec<i64> = Vec::new();
            let mut i: usize = 0;
            while i < arr.elems.len()
                invariant
                    i <= arr.elems@.len(),
                    values@ == ints(arr@).take(i as int),
                decreases arr.elems@.len() - i,
            {
                values.push(read_int(&arr.elems[i]));
                i = i + 1;
                assert(values@ =~= ints(arr@).take(i as int));
            }
            assert(values@ =~= ints(arr@));
            sorting::sort_by(&mut values, &g);
            let mut elems: Vec<Vec<u8>> = Vec::new();
            let mut k: usize = 0;
            while k < values.len()
                invariant
                    k <= values@.len(),
                    text::views(elems@) == words_of(values@.take(k as int)),
                decreases values@.len() - k,
            {
                let e: Vec<u8> = word_bytes(values[k]);
                proof {
                    lemma_push_word(elems@, values@.take(k as int), e, values@[k as int]);
                    assert(values@.take(k as int).push(values@[k as int]) =~= values@.take(k + 1));
                }
                elems.push(e);
                k = k + 1;
            }
            assert(values@.take(k as int) =~= values@);
            arr.elems = elems;
            proof {
                lemma_words_uniform(values@);
                assert(ints(arr@) =~= values@) by {
                    assert forall|j: int| 0 <= j < values@.len() implies ints(arr@)[j]
                        == values@[j] by {
                        law_word_round_trip(values@[j]);
                    }
                }
            }
        },
    }
}

// ---------------------------------------------------------------------------
// Searching
// ---------------------------------------------------------------------------

/// First position at or after `start` at which `s` holds `value`, or -1.
pub open spec fn first_index(s: Seq<i64>, value: i64, start: int) -> int
    decreases s.len() - start,
{
    if start < 0 || start >= s.len() {
        -1
    } else if s[start] == value {
        start
    } else {
        first_index(s, value, start + 1)
    }
}

/// Last position at or before `start` at which `s` holds `value`, or -1.
pub open spec fn last_index(s: Seq<i64>, value: i64, start: int) -> int
    decreases start + 1,
{
    if start < 0 || start >= s.len() {
        -1
    } else if s[start] == value {
        start
    } else {
        last_index(s, value, start - 1)
    }
}

/// Where a forward search from `from_index` starts: a negative index counts from the end.
pub open spec fn search_start(from_index: int, len: nat) -> int {
    if from_index >= 0 {
        from_index
    } else if len + from_index < 0 {
        0
    } else {
        len + from_index
    }
}

/// First position of `value` at or after `from_index`; -1 where there is none.
pub fn haxe_array_index_of(arr: Option<&HaxeArray>, value: i64, from_index: i64) -> (r: i64)
    requires
        arr matches Some(a) ==> a.wf() && a.elem_size == 8 && a@.len() <= i64::MAX,
    ensures
        r == (match arr {
            Some(a) => first_index(
                ints(a@),
                value,
                search_start(from_index as int, a@.len()),
            ),
            None => -1,
        }),
{
    let a: &HaxeArray = match arr {
        None => {
            return -1;
        },
        Some(a) => a,
    };
    let len: i64 = a.elems.len() as i64;
    let start: i64 = if from_index < 0 {
        if len + from_index < 0 {
            0
        } else {
            len + from_index
        }
    } else {
        from_index
    };
    if start >= len {
        return -1;
    }
    let mut i: usize = start as usize;
    while i < a.elems.len()
        invariant
            start <= i <= a.elems@.len(),
            0 <= start,
            a.elems@.len() <= i64::MAX,
            arr == Some(a),
            start == search_start(from_index as int, a@.len()),
            first_index(ints(a@), value, start as int) == first_index(ints(a@), value, i as int),
        decreases a.elems@.len() - i,
    {
        assert(ints(a@)[i as int] == int_of(a.elems@[i as int]@));
        if read_int(&a.elems[i]) == value {
            return i as i64;
        }
        i = i + 1;
    }
    -1
}

/// Where a backward search from `from_index` starts: a negative index counts from the end, one
/// past the end means the last element; -1 for nowhere.
pub open spec fn search_end(from_index: int, len: nat) -> int {
    if from_index >= len {
        len - 1
    } else if from_index >= 0 {
        from_index
    } else if len + from_index < 0 {
        -1
    } else {
        len + from_index
    }
}

/// Last position of `value` at or before `from_index`; -1 where there is none.
pub fn haxe_array_last_index_of(arr: Option<&HaxeArray>, value: i64, from_index: i64) -> (r: i64)
    requires
        arr matches Some(a) ==> a.wf() && a.elem_size == 8 && a@.len() <= i64::MAX,
    ensures
        r == (match arr {
            Some(a) => last_index(ints(a@), value, search_end(from_index as int, a@.len())),
            None => -1,
        }),
{
    let a: &HaxeArray = match arr {
        None => {
            return -1;
        },
        Some(a) => a,
    };
    let n: usize = a.elems.len();
    let len: i64 = n as i64;
    let start: i64 = if from_index >= len {
        len - 1
    } else if from_index >= 0 {
        from_index
    } else if len + from_index < 0 {
        -1
    } else {
        len + from_index
    };
    let mut i: i64 = start;
    while i >= 0
        invariant
            -1 <= i <= start < a.elems@.len(),
            a.elems@.len() == n <= i64::MAX,
            arr == Some(a),
            start == search_end(from_index as int, a@.len()),
            last_index(ints(a@), value, start as int) == last_index(ints(a@), value, i as int),
        decreases i + 1,
    {
        assert(ints(a@)[i as int] == int_of(a.elems@[i as int]@));
        if read_int(&a.elems[i as usize]) == value {
            return i;
        }
        i = i - 1;
    }
    -1
}

proof fn lemma_first_index(s: Seq<i64>, value: i64, start: int)
    requires
        0 <= start,
    ensures
        first_index(s, value, start) >= 0 <==> exists|i: int| start <= i < s.len() && s[i] == value,
        first_index(s, value, start) >= 0 ==> s[first_index(s, value, start)] == value,
    decreases s.len() - start,
{
    if start < s.len() && s[start] != value {
        lemma_first_index(s, value, start + 1);
    }
}

/// 1 where the array holds `value`, else 0.
pub fn haxe_array_contains(arr: Option<&HaxeArray>, value: i64) -> (r: i64)
    requires
        arr matches Some(a) ==> a.wf() && a.elem_size == 8 && a@.len() <= i64::MAX,
    ensures
        r == (if arr matches Some(a) && ints(a@).contains(value) {
            1i64
        } else {
            0i64
        }),
{
    proof {
        if let Some(a) = arr {
            lemma_first_index(ints(a@), value, 0);
        }
    }
    if haxe_array_index_of(arr, value, 0) >= 0 {
        1
    } else {
        0
    }
}

// ---------------------------------------------------------------------------
// Both ends, concatenation, splicing
// ---------------------------------------------------------------------------

fn take_first(a: &mut HaxeArray) -> (e: Option<Vec<u8>>)
    requires
        old(a).wf(),
    ensures
        final(a).wf(),
        final(a).cap == old(a).cap,
        final(a).elem_size == old(a).elem_size,
        if old(a)@.len() == 0 {
            e is None && final(a)@ == old(a)@
        } else {
            e is Some && e->Some_0@ == old(a)@[0] && final(a)@ == old(a)@.drop_first()
        },
{
    if a.elems.len() == 0 {
        return None;
    }
    let ghost before = a@;
    let e: Vec<u8> = a.elems.remove(0);
    assert(a@ =~= before.drop_first());
    Some(e)
}

/// Takes the first element of an array of 64-bit integers off; 0 for a null or empty array.
pub fn haxe_array_shift(arr: Option<&mut HaxeArray>) -> (v: i64)
    requires
        arr matches Some(a) ==> (*a).wf() && (*a).elem_size == 8,
    ensures
        match arr {
            None => v == 0,
            Some(a) => {
                &&& (*final(a)).wf()
                &&& (*final(a)).cap == (*a).cap
                &&& (*final(a)).elem_size == 8
                &&& if (*a)@.len() == 0 {
                    v == 0 && (*final(a))@ == (*a)@
                } else {
                    v == int_of((*a)@[0]) && (*final(a))@ == (*a)@.drop_first()
                }
            },
        },
{
    match arr {
        None => 0,
        Some(a) => match take_first(a) {
            None => 0,
            Some(e) => read_int(&e),
        },
    }
}

/// Takes the first element off as a dynamic value; none for a null or empty array.
pub fn haxe_array_shift_ptr(arr: Option<&mut HaxeArray>) -> (v: Option<ElementValue>)
    requires
        arr matches Some(a) ==> (*a).wf() && ((*a).elem_size == 4 || (*a).elem_size >= 8),
    ensures
        match arr {
            None => v is None,
            Some(a) => {
                &&& (*final(a)).wf()
                &&& (*final(a)).cap == (*a).cap
                &&& (*final(a)).elem_size == (*a).elem_size
                &&& if (*a)@.len() == 0 {
                    v is None && (*final(a))@ == (*a)@
                } else {
                    v == Some(element_value((*a)@[0])) && (*final(a))@ == (*a)@.drop_first()
                }
            },
        },
{
    match arr {
        None => None,
        Some(a) => match take_first(a) {
            None => None,
            Some(e) => Some(read_element(&e)),
        },
    }
}

/// Puts an integer in front of an array of 64-bit integers.
pub fn haxe_array_unshift(arr: &mut HaxeArray, value: i64)
    requires
        old(arr).wf(),
        old(arr).elem_size == 8,
        old(arr)@.len() < usize::MAX / 2,
    ensures
        changed_to(
            *old(arr),
            *final(arr),
            seq![word_of(value)] + old(arr)@,
            old(arr)@.len() + 1,
        ),
{
    let ghost before = arr@;
    arr.cap = grow(arr.cap, arr.elems.len() + 1);
    arr.elems.insert(0, word_bytes(value));
    assert(arr@ =~= seq![word_of(value)] + before);
}

/// What was put in front comes off first.
pub proof fn law_unshift_shift(s: Seq<Seq<u8>>, value: i64)
    ensures
        int_of((seq![word_of(value)] + s)[0]) == value,
        (seq![word_of(value)] + s).drop_first() == s,
{
    law_word_round_trip(value);
    assert((seq![word_of(value)] + s).drop_first() =~= s);
}

/// What was appended comes off last.
pub proof fn law_push_pop(s: Seq<Seq<u8>>, e: Seq<u8>)
    ensures
        s.push(e).last() == e,
        s.push(e).drop_last() == s,
{
    assert(s.push(e).drop_last() =~= s);
}

/// Elements of an array handle; none for null.
pub open spec fn opt_elems(a: Option<&HaxeArray>) -> Seq<Seq<u8>> {
    match a {
        Some(a) => a@,
        None => Seq::empty(),
    }
}

/// Element size of a concatenation: that of the first array, 8 for null; where that is zero,
/// that of the second.
pub open spec fn concat_size(arr: Option<&HaxeArray>, other: Option<&HaxeArray>) -> nat {
    let first = match arr {
        Some(a) => a.elem_size as nat,
        None => 8,
    };
    let second = match other {
        Some(o) => o.elem_size as nat,
        None => 8,
    };
    if first > 0 {
        first
    } else {
        second
    }
}

/// A new array with the elements of `arr` followed by those of `other`.
pub fn haxe_array_concat(arr: Option<&HaxeArray>, other: Option<&HaxeArray>) -> (c: HaxeArray)
    requires
        arr matches Some(a) ==> a.wf() && (a@.len() > 0 ==> a.elem_size == concat_size(arr, other)),
        other matches Some(o) ==> o.wf() && (o@.len() > 0 ==> o.elem_size == concat_size(
            arr,
            other,
        )),
    ensures
        c.wf(),
        c@ == opt_elems(arr) + opt_elems(other),
        c.cap == roomy(c@.len()),
        c.elem_size == concat_size(arr, other),
{
    let first: usize = match arr {
        Some(a) => a.elem_size,
        None => 8,
    };
    let second: usize = match other {
        Some(o) => o.elem_size,
        None => 8,
    };
    let size: usize = if first > 0 {
        first
    } else {
        second
    };
    let mut elems: Vec<Vec<u8>> = match arr {
        Some(a) => copy_elems(&a.elems, 0, a.elems.len()),
        None => Vec::new(),
    };
    assert(text::views(elems@) =~= opt_elems(arr));
    let mut tail: Vec<Vec<u8>> = match other {
        Some(o) => copy_elems(&o.elems, 0, o.elems.len()),
        None => Vec::new(),
    };
    assert(text::views(tail@) =~= opt_elems(other));
    let ghost all = opt_elems(arr) + opt_elems(other);
    elems.append(&mut tail);
    assert(text::views(elems@) =~= all);
    assert(uniform(all, size as nat)) by {
        assert forall|i: int| 0 <= i < all.len() implies (#[trigger] all[i]).len() == size by {
            if i < opt_elems(arr).len() {
                assert(all[i] == opt_elems(arr)[i]);
            } else {
                assert(all[i] == opt_elems(other)[i - opt_elems(arr).len()]);
            }
        }
    }
    from_vec(elems, size)
}

/// Where a splice starts: a negative position counts from the end.
pub open spec fn splice_start(pos: int, len: nat) -> int {
    if pos >= 0 {
        if pos > len {
            len as int
        } else {
            pos
        }
    } else if len + pos < 0 {
        0
    } else {
        len + pos
    }
}

/// Number of elements that a splice removes.
pub open spec fn splice_count(pos: int, count: int, len: nat) -> int {
    let start = splice_start(pos, len);
    if count <= 0 || start >= len {
        0
    } else if count > len - start {
        len - start
    } else {
        count
    }
}

/// Removes `len` elements from `pos` on and returns them; an empty array for a null one.
pub fn haxe_array_splice(arr: Option<&mut HaxeArray>, pos: i64, len: i64) -> (out: HaxeArray)
    requires
        arr matches Some(a) ==> (*a).wf() && (*a)@.len() <= i64::MAX,
    ensures
        out.wf(),
        match arr {
            None => out@ == Seq::<Seq<u8>>::empty() && out.elem_size == 8 && out.cap
                == INITIAL_CAPACITY,
            Some(a) => {
                let n = (*a)@.len();
                let start = splice_start(pos as int, n);
                let count = splice_count(pos as int, len as int, n);
                &&& out@ == (*a)@.subrange(start, start + count)
                &&& out.elem_size == (*a).elem_size
                &&& out.cap == roomy(count as nat)
                &&& (*final(a)).wf()
                &&& (*final(a))@ == (*a)@.subrange(0, start) + (*a)@.subrange(
                    start + count,
                    n as int,
                )
                &&& (*final(a)).cap == (*a).cap
                &&& (*final(a)).elem_size == (*a).elem_size
            },
        },
{
    match arr {
        None => haxe_array_new(8),
        Some(a) => splice_elements(a, pos, len),
    }
}

fn splice_elements(a: &mut HaxeArray, pos: i64, len: i64) -> (out: HaxeArray)
    requires
        old(a).wf(),
        old(a)@.len() <= i64::MAX,
    ensures
        out.wf(),
        ({
            let n = old(a)@.len();
            let start = splice_start(pos as int, n);
            let count = splice_count(pos as int, len as int, n);
            &&& out@ == old(a)@.subrange(start, start + count)
            &&& out.elem_size == old(a).elem_size
            &&& out.cap == roomy(count as nat)
            &&& final(a).wf()
            &&& final(a)@ == old(a)@.subrange(0, start) + old(a)@.subrange(start + count, n as int)
            &&& final(a).cap == old(a).cap
            &&& final(a).elem_size == old(a).elem_size
        }),
{
    let ghost before = a@;
    let n: i64 = a.elems.len() as i64;
    let start: i64 = if pos < 0 {
        if n + pos < 0 {
            0
        } else {
            n + pos
        }
    } else if pos > n {
        n
    } else {
        pos
    };
    if len <= 0 || start >= n {
        let out = haxe_array_new(a.elem_size);
        assert(before.subrange(start as int, start as int) =~= Seq::empty());
        assert(before =~= before.subrange(0, start as int) + before.subrange(start as int, n as int));
        return out;
    }
    let count: i64 = if len > n - start {
        n - start
    } else {
        len
    };
    let lo: usize = start as usize;
    let hi: usize = (start + count) as usize;
    let removed: Vec<Vec<u8>> = copy_elems(&a.elems, lo, hi);
    let out: HaxeArray = from_vec(removed, a.elem_size);
    let mut tail: Vec<Vec<u8>> = copy_elems(&a.elems, hi, a.elems.len());
    let mut head: Vec<Vec<u8>> = copy_elems(&a.elems, 0, lo);
    head.append(&mut tail);
    a.elems = head;
    assert(a@ =~= before.subrange(0, start as int) + before.subrange(
        start + count,
        n as int,
    ));
    assert(uniform(a@, a.elem_size as nat)) by {
        assert forall|i: int| 0 <= i < a@.len() implies (#[trigger] a@[i]).len()
            == a.elem_size by {
            if i < start {
                assert(a@[i] == before[i]);
            } else {
                assert(a@[i] == before[i + count]);
            }
        }
    }
    out
}

/// What a splice removes, put back at its place, gives the array back.
pub proof fn law_splice_recombines(s: Seq<Seq<u8>>, pos: int, count: int)
    ensures
        ({
            let start = splice_start(pos, s.len());
            let n = splice_count(pos, count, s.len());
            s.subrange(0, start) + s.subrange(start, start + n) + s.subrange(
                start + n,
                s.len() as int,
            ) == s
        }),
{
    let start = splice_start(pos, s.len());
    let n = splice_count(pos, count, s.len());
    assert(s.subrange(0, start) + s.subrange(start, start + n) + s.subrange(
        start + n,
        s.len() as int,
    ) =~= s);
}

/// Sets the length: cuts the array, or extends it with zero elements. A negative length changes
/// nothing.
pub fn haxe_array_resize(arr: &mut HaxeArray, new_len: i64)
    requires
        old(arr).wf(),
        new_len <= usize::MAX / 2,
    ensures
        final(arr).wf(),
        final(arr).elem_size == old(arr).elem_size,
        final(arr)@ == (if new_len < 0 {
            old(arr)@
        } else if new_len <= old(arr)@.len() {
            old(arr)@.take(new_len as int)
        } else {
            extended(old(arr)@, new_len as nat, old(arr).elem_size as nat)
        }),
        final(arr).cap == (if new_len < 0 {
            old(arr).cap as nat
        } else {
            cap_for(old(arr).cap as nat, new_len as nat)
        }),
{
    if new_len < 0 {
        return;
    }
    let n: usize = new_len as usize;
    if n <= arr.elems.len() {
        let ghost before = arr@;
        arr.elems.truncate(n);
        assert(arr@ =~= before.take(n as int));
        return;
    }
    extend(arr, n);
}

// ---------------------------------------------------------------------------
// Laws
// ---------------------------------------------------------------------------

/// A slice has the elements from its start to its end, as far as there are any.
pub proof fn law_slice_takes_elements(s: Seq<Seq<u8>>, start: int, end: int, i: int)
    requires
        0 <= start,
        0 <= end,
    ensures
        clamped(s, start, end).len() == vstd::math::max(
            0,
            vstd::math::min(end, s.len() as int) - start,
        ),
        0 <= i < clamped(s, start, end).len() ==> clamped(s, start, end)[i] == s[start + i],
{
}

/// An element is inserted at its position, before the first element for a negative one and behind
/// the last for one past the end.
pub proof fn law_insert_position(s: Seq<Seq<u8>>, index: int, e: Seq<u8>, i: int)
    requires
        0 <= i < s.len(),
    ensures
        ({
            let t = s.insert(insert_index(index, s.len()), e);
            &&& t.len() == s.len() + 1
            &&& 0 <= index <= s.len() ==> t[index] == e
            &&& index < 0 ==> t[0] == e
            &&& index > s.len() ==> t[s.len() as int] == e
            &&& t[if i < index { i } else { i + 1 }] == s[i]
        }),
{
}

/// The capacity is kept where it is enough, and doubled from 8 on until it is where it is not.
pub proof fn law_capacity_doubles(cap: nat, need: nat)
    ensures
        cap_for(cap, need) >= need,
        need <= cap ==> cap_for(cap, need) == cap,
        cap == 0 && 0 < need <= 8 ==> cap_for(cap, need) == 8,
        cap == 0 && need > 8 ==> cap_for(cap, need) == cap_for(8, need),
        0 < cap < need <= 2 * cap ==> cap_for(cap, need) == 2 * cap,
        0 < cap && 2 * cap < need ==> cap_for(cap, need) == cap_for(2 * cap, need),
{
    lemma_grown(cap, need);
    if 0 < cap && 2 * cap < need {
        assert(grown(cap, need) == grown(cap * 2, need));
    }
    if 0 < cap < need && need <= 2 * cap {
        assert(grown(cap, need) == grown(cap * 2, need));
    }
}

/// The integer of an element is what its bytes make up, the least significant first: signed, of 64
/// or of 32 bits.
pub proof fn law_elements_are_little_endian(e: Seq<u8>)
    ensures
        ({
            let v = e.fold_right_alt(|c: u8, v: int| c + 256 * v, 0int);
            &&& e.len() == 8 ==> int_of(e) == if v < 0x8000_0000_0000_0000 {
                v
            } else {
                v - 0x1_0000_0000_0000_0000
            }
            &&& e.len() == 4 ==> int_of(e) == if v < 0x8000_0000 {
                v
            } else {
                v - 0x1_0000_0000
            }
            &&& e.len() == 8 || e.len() == 4 ==> element_value(e) == ElementValue::Int(int_of(e))
        }),
{
    words::law_little_endian_value(e);
    words::lemma_le_value_bound(e);
    words::lemma_pow256();
    let w = words::le_value(e);
    if e.len() == 8 {
        let u: u64 = w as u64;
        assert(u < 0x8000_0000_0000_0000 ==> u as i64 == u) by (bit_vector);
        assert(u >= 0x8000_0000_0000_0000 ==> u as i64 == u - 0x1_0000_0000_0000_0000)
            by (bit_vector);
    } else if e.len() == 4 {
        let u: u32 = w as u32;
        assert(u < 0x8000_0000 ==> u as i32 == u) by (bit_vector);
        assert(u >= 0x8000_0000 ==> u as i32 == u - 0x1_0000_0000) by (bit_vector);
    }
}

/// Filtering keeps the elements that the function answers with other than 0, in their order.
pub proof fn law_filter_keeps(s: Seq<i64>, f: spec_fn(i64) -> i64)
    ensures
        kept(s, s.map_values(f)) == s.filter(|x: i64| f(x) != 0),
    decreases s.len(),
{
    reveal(Seq::filter);
    let answers = s.map_values(f);
    if s.len() > 0 {
        law_filter_keeps(s.drop_last(), f);
        assert(answers.drop_last() =~= s.drop_last().map_values(f));
        assert(answers.last() == f(s.last()));
    } else {
        assert(kept(s, answers) =~= s.filter(|x: i64| f(x) != 0));
    }
}

/// A search finds the first element that is the value, at or after its start, which counts from
/// the end where it is negative; it fails only where there is none.
pub proof fn law_index_of_is_first(s: Seq<i64>, value: i64, from: int, k: int)
    ensures
        ({
            let r = first_index(s, value, search_start(from, s.len()));
            let low = if from >= 0 {
                from
            } else {
                s.len() + from
            };
            &&& r == -1 || (0 <= r < s.len() && low <= r && s[r] == value)
            &&& 0 <= k < s.len() && low <= k && s[k] == value ==> r != -1 && r <= k
        }),
{
    lemma_first_index_bounds(s, value, search_start(from, s.len()), k);
}

proof fn lemma_first_index_bounds(s: Seq<i64>, value: i64, start: int, k: int)
    requires
        0 <= start,
    ensures
        ({
            let r = first_index(s, value, start);
            &&& r == -1 || (start <= r < s.len() && s[r] == value)
            &&& start <= k < s.len() && s[k] == value ==> r != -1 && r <= k
        }),
    decreases s.len() - start,
{
    if start < s.len() && s[start] != value {
        lemma_first_index_bounds(s, value, start + 1, k);
    }
}

/// A search from behind finds the last element that is the value, at or before its start, which
/// counts from the end where it is negative; it fails only where there is none.
pub proof fn law_last_index_of_is_last(s: Seq<i64>, value: i64, from: int, k: int)
    ensures
        ({
            let r = last_index(s, value, search_end(from, s.len()));
            let high = if from >= 0 {
                from
            } else {
                s.len() + from
            };
            &&& r == -1 || (0 <= r < s.len() && r <= high && s[r] == value)
            &&& 0 <= k < s.len() && k <= high && s[k] == value ==> r >= k
        }),
{
    lemma_last_index_bounds(s, value, search_end(from, s.len()), k);
}

proof fn lemma_last_index_bounds(s: Seq<i64>, value: i64, start: int, k: int)
    requires
        start < s.len(),
    ensures
        ({
            let r = last_index(s, value, start);
            &&& r == -1 || (0 <= r <= start && s[r] == value)
            &&& 0 <= k <= start && s[k] == value ==> r >= k
        }),
    decreases start + 1,
{
    if start >= 0 && s[start] != value {
        lemma_last_index_bounds(s, value, start - 1, k);
    }
}

/// A splice starts at its position, or as far from the end as a negative one says, and takes as
/// many elements as asked for and as there are.
pub proof fn law_splice_window(pos: int, count: int, len: nat)
    ensures
        pos >= 0 ==> splice_start(pos, len) == vstd::math::min(pos, len as int),
        pos < 0 ==> splice_start(pos, len) == vstd::math::max(0, len + pos),
        splice_count(pos, count, len) == vstd::math::min(
            vstd::math::max(count, 0),
            len - splice_start(pos, len),
        ),
{
}

/// An array as text: brackets around the elements with a comma and a space between neighbours.
pub proof fn law_array_text(parts: Seq<Seq<u8>>, more: Seq<u8>)
    ensures
        bracketed(Seq::empty()) == seq![91u8, 93],
        bracketed(seq![more]) == seq![91u8] + more + seq![93u8],
        parts.len() > 0 ==> bracketed(parts.push(more)) == bracketed(parts).drop_last() + seq![
            44u8,
            32,
        ] + more + seq![93u8],
{
    text::law_join(parts, seq![44u8, 32], more);
    assert(bracketed(Seq::empty()) =~= seq![91u8, 93]);
    assert(bracketed(parts).drop_last() =~= seq![91u8] + text::join(parts, seq![44u8, 32]));
    if parts.len() > 0 {
        assert(bracketed(parts.push(more)) =~= bracketed(parts).drop_last() + seq![44u8, 32] + more
            + seq![93u8]);
    }
}

/// The texts of the elements of an array are their integers in decimal, one for one; tracing has a
/// question mark for an element that is no integer.
pub proof fn law_element_texts(s: Seq<Seq<u8>>, i: int)
    requires
        0 <= i < s.len(),
    ensures
        decimals(s).len() == s.len(),
        decimals(s)[i] == text::dec_int(int_of(s[i]) as int),
        traced(s).len() == s.len(),
        s[i].len() == 8 || s[i].len() == 4 ==> traced(s)[i] == text::dec_int(int_of(s[i]) as int),
        s[i].len() != 8 && s[i].len() != 4 ==> traced(s)[i] == seq![63u8],
        ints(s).len() == s.len(),
        ints(s)[i] == int_of(s[i]),
        words_of(ints(s)).len() == s.len(),
        s[i].len() == 8 ==> words_of(ints(s))[i] == s[i],
{
    if s[i].len() == 8 {
        let e = s[i];
        words::lemma_le_value_bound(e);
        words::lemma_pow256();
        words::lemma_read_write(e);
        let u: u64 = words::le_value(e) as u64;
        assert((u as i64) as u64 == u) by (bit_vector);
    }
}

/// A new array has room for its elements, and for eight at least; a concatenation has elements of the
/// size of its first array, or of the second where that has none.
pub proof fn law_new_arrays(len: nat, a: &HaxeArray, b: &HaxeArray)
    ensures
        roomy(len) == vstd::math::max(8, len as int),
        a.elem_size > 0 ==> concat_size(Some(a), Some(b)) == a.elem_size,
        a.elem_size == 0 ==> concat_size(Some(a), Some(b)) == b.elem_size,
        concat_size(None, Some(b)) == 8,
        a.elem_size == 0 ==> concat_size(Some(a), None) == 8,
        concat_size(None, None) == 8,
{
}

/// Extending adds elements of zero bytes behind those that there are.
pub proof fn law_extending_adds_zeros(s: Seq<Seq<u8>>, n: nat, elem_size: nat, i: int)
    ensures
        extended(s, n, elem_size).len() == vstd::math::max(n as int, s.len() as int),
        0 <= i < s.len() ==> extended(s, n, elem_size)[i] == s[i],
        s.len() <= i < n ==> extended(s, n, elem_size)[i] == Seq::new(elem_size, |j: int| 0u8),
{
    assert(words::zeros(elem_size) =~= Seq::new(elem_size, |j: int| 0u8));
}

} // verus!
