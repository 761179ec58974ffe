//! Growable vectors of one element type each.
//!
//! A vector owns storage for `cap` elements, of which the first `len` are in use. It starts with
//! room for eight elements and doubles when it is full.

use crate::floats;
use crate::sorting;
use vstd::prelude::*;

verus! {

/// Capacity of a new vector.
pub const INITIAL_CAPACITY: usize = 8;

/// Factor by which a full vector grows.
pub const GROWTH_FACTOR: usize = 2;

/// Capacity after an element was added to `len` elements in storage for `cap`.
pub open spec fn cap_after_push(len: nat, cap: nat) -> nat {
    if len >= cap {
        cap * GROWTH_FACTOR as nat
    } else {
        cap
    }
}

/// -1, 0 or 1 as the first integer is smaller than, equal to or greater than the second.
pub open spec fn int_order(a: int, b: int) -> int {
    if a < b {
        -1
    } else if a > b {
        1
    } else {
        0
    }
}

proof fn lemma_sorted_all<T>(s: Seq<T>, c: spec_fn(T, T) -> int, p: spec_fn(T) -> bool)
    requires
        forall|i: int| 0 <= i < s.len() ==> p(#[trigger] s[i]),
    ensures
        forall|i: int|
            0 <= i < sorting::stable_sorted(s, c).len() ==> p(
                #[trigger] sorting::stable_sorted(s, c)[i],
            ),
    decreases s.len(),
{
    if s.len() > 0 {
        let front = s.drop_last();
        let rest = sorting::stable_sorted(front, c);
        assert forall|i: int| 0 <= i < front.len() implies p(#[trigger] front[i]) by {
            assert(front[i] == s[i]);
        }
        lemma_sorted_all(front, c, p);
        sorting::lemma_insert_pos(rest, s.last(), c);
        let q = sorting::insert_pos(rest, s.last(), c);
        assert(p(s[s.len() - 1]));
        assert forall|i: int| 0 <= i < sorting::stable_sorted(s, c).len() implies p(
            #[trigger] sorting::stable_sorted(s, c)[i],
        ) by {
            if i < q {
                assert(p(rest[i]));
            } else if i > q {
                assert(p(rest[i - 1]));
            }
        }
    }
}

proof fn lemma_insert_agrees<T>(
    s: Seq<T>,
    key: T,
    c: spec_fn(T, T) -> int,
    d: spec_fn(T, T) -> int,
)
    requires
        forall|i: int| 0 <= i < s.len() ==> c(#[trigger] s[i], key) == d(s[i], key),
    ensures
        sorting::insert_pos(s, key, c) == sorting::insert_pos(s, key, d),
    decreases s.len(),
{
    if s.len() > 0 {
        assert(s[s.len() - 1] == s.last());
        assert forall|i: int| 0 <= i < s.drop_last().len() implies c(
            #[trigger] s.drop_last()[i],
            key,
        ) == d(s.drop_last()[i], key) by {
            assert(s.drop_last()[i] == s[i]);
        }
        lemma_insert_agrees(s.drop_last(), key, c, d);
    }
}

/// Two comparisons that agree on the elements sort alike.
pub proof fn lemma_sort_agrees<T>(
    s: Seq<T>,
    c: spec_fn(T, T) -> int,
    d: spec_fn(T, T) -> int,
    p: spec_fn(T) -> bool,
)
    requires
        forall|i: int| 0 <= i < s.len() ==> p(#[trigger] s[i]),
        forall|a: T, b: T| p(a) && p(b) ==> #[trigger] c(a, b) == d(a, b),
    ensures
        sorting::stable_sorted(s, c) == sorting::stable_sorted(s, d),
    decreases s.len(),
{
    if s.len() > 0 {
        let front = s.drop_last();
        assert forall|i: int| 0 <= i < front.len() implies p(#[trigger] front[i]) by {
            assert(front[i] == s[i]);
        }
        lemma_sort_agrees(front, c, d, p);
        lemma_sorted_all(front, c, p);
        assert(p(s[s.len() - 1]));
        lemma_insert_agrees(sorting::stable_sorted(front, c), s.last(), c, d);
    }
}

/// What was appended to a vector is taken off first, and reading it gives it back.
pub proof fn law_push_pop<T>(s: Seq<T>, value: T)
    ensures
        s.push(value).last() == value,
        s.push(value).drop_last() == s,
        s.push(value)[s.len() as int] == value,
{
    assert(s.push(value).drop_last() =~= s);
}

/// Storage of a vector.
pub struct Store<T> {
    pub items: Vec<T>,
    pub cap: usize,
}

impl<T: Copy> Store<T> {
    /// The elements fit into the storage, which is never empty.
    pub open spec fn wf(&self) -> bool {
        &&& self.items@.len() <= self.cap
        &&& self.cap > 0
    }

    fn with_capacity(cap: usize) -> (s: Store<T>)
        requires
            cap > 0,
        ensures
            s.wf(),
            s.items@ == Seq::<T>::empty(),
            s.cap == cap,
    {
        Store { items: Vec::new(), cap }
    }

    fn push(&mut self, value: T)
        requires
            old(self).wf(),
            old(self).items@.len() == old(self).cap ==> old(self).cap <= usize::MAX / 2,
        ensures
            final(self).wf(),
            final(self).items@ == old(self).items@.push(value),
            final(self).cap == cap_after_push(old(self).items@.len(), old(self).cap as nat),
    {
        if self.items.len() >= self.cap {
            self.cap = self.cap * GROWTH_FACTOR;
        }
        self.items.push(value);
    }

    fn pop(&mut self, none: T) -> (v: T)
        requires
            old(self).wf(),
        ensures
            final(self).wf(),
            final(self).cap == old(self).cap,
            if old(self).items@.len() == 0 {
                v == none && final(self).items@ == old(self).items@
            } else {
                v == old(self).items@.last() && final(self).items@ == old(self).items@.drop_last()
            },
    {
        match self.items.pop() {
            Some(v) => v,
            None => none,
        }
    }

    fn get(&self, index: usize, none: T) -> (v: T)
        ensures
            v == (if index < self.items@.len() {
                self.items@[index as int]
            } else {
                none
            }),
    {
        if index < self.items.len() {
            self.items[index]
        } else {
            none
        }
    }

    fn set(&mut self, index: usize, value: T)
        requires
            old(self).wf(),
        ensures
            final(self).wf(),
            final(self).cap == old(self).cap,
            final(self).items@ == (if index < old(self).items@.len() {
                old(self).items@.update(index as int, value)
            } else {
                old(self).items@
            }),
    {
        if index < self.items.len() {
            self.items.set(index, value);
        }
    }

    fn sort_by<F: Fn(T, T) -> i32>(&mut self, f: &F)
        requires
            old(self).wf(),
            forall|a: T, b: T| call_requires(*f, (a, b)),
        ensures
            final(self).wf(),
            final(self).cap == old(self).cap,
            final(self).items@.to_multiset() == old(self).items@.to_multiset(),
            forall|c: spec_fn(T, T) -> int|
                sorting::answers(*f, c) ==> final(self).items@ == #[trigger] sorting::stable_sorted(
                    old(self).items@,
                    c,
                ),
    {
        sorting::sort_by(&mut self.items, f);
    }
}

// ---------------------------------------------------------------------------
// Integers
// ---------------------------------------------------------------------------

/// A vector of 32-bit integers.
pub struct VecI32 {
    pub store: Store<i32>,
}

impl View for VecI32 {
    type V = Seq<i32>;

    open spec fn view(&self) -> Seq<i32> {
        self.store.items@
    }
}

impl VecI32 {
    /// The elements fit into the storage.
    pub open spec fn wf(&self) -> bool {
        self.store.wf()
    }

    /// Number of elements that the storage has room for.
    pub open spec fn cap(&self) -> nat {
        self.store.cap as nat
    }
}

/// An empty vector.
pub fn rayzor_vec_i32_new() -> (v: VecI32)
    ensures
        v.wf(),
        v@ == Seq::<i32>::empty(),
        v.cap() == INITIAL_CAPACITY,
{
    VecI32 { store: Store::with_capacity(INITIAL_CAPACITY) }
}

/// An empty vector with room for `capacity` elements; 0 stands for the capacity of a new vector.
pub fn rayzor_vec_i32_with_capacity(capacity: usize) -> (v: VecI32)
    ensures
        v.wf(),
        v@ == Seq::<i32>::empty(),
        v.cap() == (if capacity == 0 {
            INITIAL_CAPACITY
        } else {
            capacity
        }),
{
    if capacity == 0 {
        VecI32 { store: Store::with_capacity(INITIAL_CAPACITY) }
    } else {
        VecI32 { store: Store::with_capacity(capacity) }
    }
}

/// Appends an element.
pub fn rayzor_vec_i32_push(vec: &mut VecI32, value: i32)
    requires
        old(vec).wf(),
        old(vec)@.len() == old(vec).cap() ==> old(vec).cap() <= usize::MAX / 2,
    ensures
        final(vec).wf(),
        final(vec)@ == old(vec)@.push(value),
        final(vec).cap() == cap_after_push(old(vec)@.len(), old(vec).cap()),
{
    vec.store.push(value);
}

/// Takes the last element off; 0i32 for a null or empty vector.
pub fn rayzor_vec_i32_pop(vec: Option<&mut VecI32>) -> (value: i32)
    requires
        vec matches Some(v) ==> (*v).wf(),
    ensures
        match vec {
            None => value == 0i32,
            Some(v) => {
                &&& (*final(v)).wf()
                &&& (*final(v)).cap() == (*v).cap()
                &&& if (*v)@.len() == 0 {
                    value == 0i32 && (*final(v))@ == (*v)@
                } else {
                    value == (*v)@.last() && (*final(v))@ == (*v)@.drop_last()
                }
            },
        },
{
    match vec {
        None => 0i32,
        Some(v) => v.store.pop(0i32),
    }
}

/// Element at `index`; 0i32 for a null vector and outside the vector.
pub fn rayzor_vec_i32_get(vec: Option<&VecI32>, index: usize) -> (value: i32)
    ensures
        value == (match vec {
            Some(v) => if index < v@.len() {
                v@[index as int]
            } else {
                0i32
            },
            None => 0i32,
        }),
{
    match vec {
        None => 0i32,
        Some(v) => v.store.get(index, 0i32),
    }
}

/// Replaces the element at `index`; nothing happens outside the vector.
pub fn rayzor_vec_i32_set(vec: &mut VecI32, index: usize, value: i32)
    requires
        old(vec).wf(),
    ensures
        final(vec).wf(),
        final(vec).cap() == old(vec).cap(),
        final(vec)@ == (if index < old(vec)@.len() {
            old(vec)@.update(index as int, value)
        } else {
            old(vec)@
        }),
{
    vec.store.set(index, value);
}

/// Number of elements; 0 for a null vector.
pub fn rayzor_vec_i32_len(vec: Option<&VecI32>) -> (n: usize)
    ensures
        n == (match vec {
            Some(v) => v@.len(),
            None => 0,
        }),
{
    match vec {
        None => 0,
        Some(v) => v.store.items.len(),
    }
}

/// Number of elements that the storage has room for; 0 for a null vector.
pub fn rayzor_vec_i32_capacity(vec: Option<&VecI32>) -> (n: usize)
    ensures
        n == (match vec {
            Some(v) => v.cap(),
            None => 0,
        }),
{
    match vec {
        None => 0,
        Some(v) => v.store.cap,
    }
}

/// Whether there is no element; true for a null vector.
pub fn rayzor_vec_i32_is_empty(vec: Option<&VecI32>) -> (r: bool)
    ensures
        r == (vec matches Some(v) ==> v@.len() == 0),
{
    match vec {
        None => true,
        Some(v) => v.store.items.len() == 0,
    }
}

/// Removes all elements and keeps the storage.
pub fn rayzor_vec_i32_clear(vec: &mut VecI32)
    requires
        old(vec).wf(),
    ensures
        final(vec).wf(),
        final(vec)@ == Seq::<i32>::empty(),
        final(vec).cap() == old(vec).cap(),
{
    vec.store.items.clear();
}

/// The first element; 0i32 for a null or empty vector.
pub fn rayzor_vec_i32_first(vec: Option<&VecI32>) -> (value: i32)
    ensures
        value == (match vec {
            Some(v) => if v@.len() > 0 {
                v@[0]
            } else {
                0i32
            },
            None => 0i32,
        }),
{
    rayzor_vec_i32_get(vec, 0)
}

/// The last element; 0i32 for a null or empty vector.
pub fn rayzor_vec_i32_last(vec: Option<&VecI32>) -> (value: i32)
    ensures
        value == (match vec {
            Some(v) => if v@.len() > 0 {
                v@.last()
            } else {
                0i32
            },
            None => 0i32,
        }),
{
    match vec {
        None => 0i32,
        Some(v) => {
            let n: usize = v.store.items.len();
            if n == 0 {
                0i32
            } else {
                v.store.items[n - 1]
            }
        },
    }
}

/// Sorts in ascending order.
pub fn rayzor_vec_i32_sort(vec: &mut VecI32)
    requires
        old(vec).wf(),
    ensures
        final(vec).wf(),
        final(vec).cap() == old(vec).cap(),
        final(vec)@.to_multiset() == old(vec)@.to_multiset(),
        forall|i: int, j: int|
            0 <= i < j < final(vec)@.len() ==> #[trigger] final(vec)@[i]
                <= #[trigger] final(vec)@[j],
{
    let ghost before = vec@;
    let f = |a: i32, b: i32| -> (r: i32)
        ensures
            r == int_order(a as int, b as int),
        {
            if a < b {
                -1
            } else if a > b {
                1
            } else {
                0
            }
        };
    vec.store.sort_by(&f);
    proof {
        let c = |a: i32, b: i32| int_order(a as int, b as int);
        assert(sorting::answers(f, c));
        assert(vec@ == sorting::stable_sorted(before, c));
        sorting::law_sort_orders(before, c);
        assert forall|i: int, j: int| 0 <= i < j < vec@.len() implies #[trigger] vec@[i]
            <= #[trigger] vec@[j] by {
            assert(c(vec@[i], vec@[j]) <= 0);
        }
    }
}

/// Sorts with a comparison; a null comparison changes nothing. The sort is stable.
pub fn rayzor_vec_i32_sort_by<F: Fn(i32, i32) -> i32>(vec: &mut VecI32, compare: Option<F>)
    requires
        old(vec).wf(),
        compare matches Some(f) ==> forall|a: i32, b: i32| call_requires(f, (a, b)),
    ensures
        final(vec).wf(),
        final(vec).cap() == old(vec).cap(),
        compare is None ==> final(vec)@ == old(vec)@,
        final(vec)@.to_multiset() == old(vec)@.to_multiset(),
        compare matches Some(f) ==> forall|c: spec_fn(i32, i32) -> int|
            sorting::answers(f, c) ==> final(vec)@ == #[trigger] sorting::stable_sorted(
                old(vec)@,
                c,
            ),
{
    match compare {
        None => {},
        Some(f) => vec.store.sort_by(&f),
    }
}

/// Gives the storage back; the result is the number of elements that it had room for, 0 for a
/// null vector.
pub fn rayzor_vec_i32_free(vec: Option<VecI32>) -> (released: usize)
    ensures
        released == (match vec {
            Some(v) => v.cap(),
            None => 0,
        }),
{
    match vec {
        None => 0,
        Some(v) => v.store.cap,
    }
}

// ---------------------------------------------------------------------------
// Long integers
// ---------------------------------------------------------------------------

/// A vector of 64-bit integers.
pub struct VecI64 {
    pub store: Store<i64>,
}

impl View for VecI64 {
    type V = Seq<i64>;

    open spec fn view(&self) -> Seq<i64> {
        self.store.items@
    }
}

impl VecI64 {
    /// The elements fit into the storage.
    pub open spec fn wf(&self) -> bool {
        self.store.wf()
    }

    /// Number of elements that the storage has room for.
    pub open spec fn cap(&self) -> nat {
        self.store.cap as nat
    }
}

/// An empty vector.
pub fn rayzor_vec_i64_new() -> (v: VecI64)
    ensures
        v.wf(),
        v@ == Seq::<i64>::empty(),
        v.cap() == INITIAL_CAPACITY,
{
    VecI64 { store: Store::with_capacity(INITIAL_CAPACITY) }
}

/// Appends an element.
pub fn rayzor_vec_i64_push(vec: &mut VecI64, value: i64)
    requires
        old(vec).wf(),
        old(vec)@.len() == old(vec).cap() ==> old(vec).cap() <= usize::MAX / 2,
    ensures
        final(vec).wf(),
        final(vec)@ == old(vec)@.push(value),
        final(vec).cap() == cap_after_push(old(vec)@.len(), old(vec).cap()),
{
    vec.store.push(value);
}

/// Takes the last element off; 0i64 for a null or empty vector.
pub fn rayzor_vec_i64_pop(vec: Option<&mut VecI64>) -> (value: i64)
    requires
        vec matches Some(v) ==> (*v).wf(),
    ensures
        match vec {
            None => value == 0i64,
            Some(v) => {
                &&& (*final(v)).wf()
                &&& (*final(v)).cap() == (*v).cap()
                &&& if (*v)@.len() == 0 {
                    value == 0i64 && (*final(v))@ == (*v)@
                } else {
                    value == (*v)@.last() && (*final(v))@ == (*v)@.drop_last()
                }
            },
        },
{
    match vec {
        None => 0i64,
        Some(v) => v.store.pop(0i64),
    }
}

/// Element at `index`; 0i64 for a null vector and outside the vector.
pub fn rayzor_vec_i64_get(vec: Option<&VecI64>, index: usize) -> (value: i64)
    ensures
        value == (match vec {
            Some(v) => if index < v@.len() {
                v@[index as int]
            } else {
                0i64
            },
            None => 0i64,
        }),
{
    match vec {
        None => 0i64,
        Some(v) => v.store.get(index, 0i64),
    }
}

/// Replaces the element at `index`; nothing happens outside the vector.
pub fn rayzor_vec_i64_set(vec: &mut VecI64, index: usize, value: i64)
    requires
        old(vec).wf(),
    ensures
        final(vec).wf(),
        final(vec).cap() == old(vec).cap(),
        final(vec)@ == (if index < old(vec)@.len() {
            old(vec)@.update(index as int, value)
        } else {
            old(vec)@
        }),
{
    vec.store.set(index, value);
}

/// Number of elements; 0 for a null vector.
pub fn rayzor_vec_i64_len(vec: Option<&VecI64>) -> (n: usize)
    ensures
        n == (match vec {
            Some(v) => v@.len(),
            None => 0,
        }),
{
    match vec {
        None => 0,
        Some(v) => v.store.items.len(),
    }
}

/// Whether there is no element; true for a null vector.
pub fn rayzor_vec_i64_is_empty(vec: Option<&VecI64>) -> (r: bool)
    ensures
        r == (vec matches Some(v) ==> v@.len() == 0),
{
    match vec {
        None => true,
        Some(v) => v.store.items.len() == 0,
    }
}

/// Removes all elements and keeps the storage.
pub fn rayzor_vec_i64_clear(vec: &mut VecI64)
    requires
        old(vec).wf(),
    ensures
        final(vec).wf(),
        final(vec)@ == Seq::<i64>::empty(),
        final(vec).cap() == old(vec).cap(),
{
    vec.store.items.clear();
}

/// The first element; 0i64 for a null or empty vector.
pub fn rayzor_vec_i64_first(vec: Option<&VecI64>) -> (value: i64)
    ensures
        value == (match vec {
            Some(v) => if v@.len() > 0 {
                v@[0]
            } else {
                0i64
            },
            None => 0i64,
        }),
{
    rayzor_vec_i64_get(vec, 0)
}

/// The last element; 0i64 for a null or empty vector.
pub fn rayzor_vec_i64_last(vec: Option<&VecI64>) -> (value: i64)
    ensures
        value == (match vec {
            Some(v) => if v@.len() > 0 {
                v@.last()
            } else {
                0i64
            },
            None => 0i64,
        }),
{
    match vec {
        None => 0i64,
        Some(v) => {
            let n: usize = v.store.items.len();
            if n == 0 {
                0i64
            } else {
                v.store.items[n - 1]
            }
        },
    }
}

/// Gives the storage back; the result is the number of elements that it had room for, 0 for a
/// null vector.
pub fn rayzor_vec_i64_free(vec: Option<VecI64>) -> (released: usize)
    ensures
        released == (match vec {
            Some(v) => v.cap(),
            None => 0,
        }),
{
    match vec {
        None => 0,
        Some(v) => v.store.cap,
    }
}

// ---------------------------------------------------------------------------
// Numbers
// ---------------------------------------------------------------------------

/// A vector of double-precision numbers, each given by its bits.
pub struct VecF64 {
    pub store: Store<u64>,
}

impl View for VecF64 {
    type V = Seq<u64>;

    open spec fn view(&self) -> Seq<u64> {
        self.store.items@
    }
}

impl VecF64 {
    /// The elements fit into the storage.
    pub open spec fn wf(&self) -> bool {
        self.store.wf()
    }

    /// Number of elements that the storage has room for.
    pub open spec fn cap(&self) -> nat {
        self.store.cap as nat
    }
}

/// An empty vector.
pub fn rayzor_vec_f64_new() -> (v: VecF64)
    ensures
        v.wf(),
        v@ == Seq::<u64>::empty(),
        v.cap() == INITIAL_CAPACITY,
{
    VecF64 { store: Store::with_capacity(INITIAL_CAPACITY) }
}

/// Appends an element.
pub fn rayzor_vec_f64_push(vec: &mut VecF64, value: u64)
    requires
        old(vec).wf(),
        old(vec)@.len() == old(vec).cap() ==> old(vec).cap() <= usize::MAX / 2,
    ensures
        final(vec).wf(),
        final(vec)@ == old(vec)@.push(value),
        final(vec).cap() == cap_after_push(old(vec)@.len(), old(vec).cap()),
{
    vec.store.push(value);
}

/// Takes the last element off; 0u64 for a null or empty vector.
pub fn rayzor_vec_f64_pop(vec: Option<&mut VecF64>) -> (value: u64)
    requires
        vec matches Some(v) ==> (*v).wf(),
    ensures
        match vec {
            None => value == 0u64,
            Some(v) => {
                &&& (*final(v)).wf()
                &&& (*final(v)).cap() == (*v).cap()
                &&& if (*v)@.len() == 0 {
                    value == 0u64 && (*final(v))@ == (*v)@
                } else {
                    value == (*v)@.last() && (*final(v))@ == (*v)@.drop_last()
                }
            },
        },
{
    match vec {
        None => 0u64,
        Some(v) => v.store.pop(0u64),
    }
}

/// Element at `index`; 0u64 for a null vector and outside the vector.
pub fn rayzor_vec_f64_get(vec: Option<&VecF64>, index: usize) -> (value: u64)
    ensures
        value == (match vec {
            Some(v) => if index < v@.len() {
                v@[index as int]
            } else {
                0u64
            },
            None => 0u64,
        }),
{
    match vec {
        None => 0u64,
        Some(v) => v.store.get(index, 0u64),
    }
}

/// Replaces the element at `index`; nothing happens outside the vector.
pub fn rayzor_vec_f64_set(vec: &mut VecF64, index: usize, value: u64)
    requires
        old(vec).wf(),
    ensures
        final(vec).wf(),
        final(vec).cap() == old(vec).cap(),
        final(vec)@ == (if index < old(vec)@.len() {
            old(vec)@.update(index as int, value)
        } else {
            old(vec)@
        }),
{
    vec.store.set(index, value);
}

/// Number of elements; 0 for a null vector.
pub fn rayzor_vec_f64_len(vec: Option<&VecF64>) -> (n: usize)
    ensures
        n == (match vec {
            Some(v) => v@.len(),
            None => 0,
        }),
{
    match vec {
        None => 0,
        Some(v) => v.store.items.len(),
    }
}

/// Whether there is no element; true for a null vector.
pub fn rayzor_vec_f64_is_empty(vec: Option<&VecF64>) -> (r: bool)
    ensures
        r == (vec matches Some(v) ==> v@.len() == 0),
{
    match vec {
        None => true,
        Some(v) => v.store.items.len() == 0,
    }
}

/// Removes all elements and keeps the storage.
pub fn rayzor_vec_f64_clear(vec: &mut VecF64)
    requires
        old(vec).wf(),
    ensures
        final(vec).wf(),
        final(vec)@ == Seq::<u64>::empty(),
        final(vec).cap() == old(vec).cap(),
{
    vec.store.items.clear();
}

/// The first element; 0u64 for a null or empty vector.
pub fn rayzor_vec_f64_first(vec: Option<&VecF64>) -> (value: u64)
    ensures
        value == (match vec {
            Some(v) => if v@.len() > 0 {
                v@[0]
            } else {
                0u64
            },
            None => 0u64,
        }),
{
    rayzor_vec_f64_get(vec, 0)
}

/// The last element; 0u64 for a null or empty vector.
pub fn rayzor_vec_f64_last(vec: Option<&VecF64>) -> (value: u64)
    ensures
        value == (match vec {
            Some(v) => if v@.len() > 0 {
                v@.last()
            } else {
                0u64
            },
            None => 0u64,
        }),
{
    match vec {
        None => 0u64,
        Some(v) => {
            let n: usize = v.store.items.len();
            if n == 0 {
                0u64
            } else {
                v.store.items[n - 1]
            }
        },
    }
}

/// Sorts in ascending order of the numbers: equal ones keep their order, and what is not a
/// number compares as equal to everything.
pub fn rayzor_vec_f64_sort(vec: &mut VecF64)
    requires
        old(vec).wf(),
    ensures
        final(vec).wf(),
        final(vec).cap() == old(vec).cap(),
        final(vec)@.to_multiset() == old(vec)@.to_multiset(),
        final(vec)@ == sorting::stable_sorted(old(vec)@, |a: u64, b: u64| floats::order(a, b)),
{
    let f = |a: u64, b: u64| -> (r: i32)
        ensures
            r == floats::order(a, b),
        { floats::float_order(a, b) };
    let ghost c = |a: u64, b: u64| floats::order(a, b);
    assert(sorting::answers(f, c));
    vec.store.sort_by(&f);
}

/// Where every element is a number, sorting puts them in ascending order.
pub proof fn law_float_sort_orders(s: Seq<u64>, i: int, j: int)
    requires
        forall|k: int| 0 <= k < s.len() ==> !floats::is_nan(#[trigger] s[k]),
        0 <= i < j < s.len(),
    ensures
        ({
            let t = sorting::stable_sorted(s, |a: u64, b: u64| floats::order(a, b));
            floats::rank(t[i]) <= floats::rank(t[j])
        }),
{
    let c = |a: u64, b: u64| floats::order(a, b);
    let d = |a: u64, b: u64| int_order(floats::rank(a), floats::rank(b));
    let p = |a: u64| !floats::is_nan(a);
    assert forall|k: int| 0 <= k < s.len() implies p(#[trigger] s[k]) by {
        assert(!floats::is_nan(s[k]));
    }
    lemma_sort_agrees(s, c, d, p);
    sorting::law_sort_orders(s, d);
    sorting::lemma_sorted_len(s, d);
    let t = sorting::stable_sorted(s, d);
    assert(d(t[i], t[j]) <= 0);
}

/// Sorts with a comparison; a null comparison changes nothing. The sort is stable.
pub fn rayzor_vec_f64_sort_by<F: Fn(u64, u64) -> i32>(vec: &mut VecF64, compare: Option<F>)
    requires
        old(vec).wf(),
        compare matches Some(f) ==> forall|a: u64, b: u64| call_requires(f, (a, b)),
    ensures
        final(vec).wf(),
        final(vec).cap() == old(vec).cap(),
        compare is None ==> final(vec)@ == old(vec)@,
        final(vec)@.to_multiset() == old(vec)@.to_multiset(),
        compare matches Some(f) ==> forall|c: spec_fn(u64, u64) -> int|
            sorting::answers(f, c) ==> final(vec)@ == #[trigger] sorting::stable_sorted(
                old(vec)@,
                c,
            ),
{
    match compare {
        None => {},
        Some(f) => vec.store.sort_by(&f),
    }
}

/// Gives the storage back; the result is the number of elements that it had room for, 0 for a
/// null vector.
pub fn rayzor_vec_f64_free(vec: Option<VecF64>) -> (released: usize)
    ensures
        released == (match vec {
            Some(v) => v.cap(),
            None => 0,
        }),
{
    match vec {
        None => 0,
        Some(v) => v.store.cap,
    }
}

// ---------------------------------------------------------------------------
// References
// ---------------------------------------------------------------------------

/// A vector of references, each given by its address; 0 is the null reference.
pub struct VecPtr {
    pub store: Store<usize>,
}

impl View for VecPtr {
    type V = Seq<usize>;

    open spec fn view(&self) -> Seq<usize> {
        self.store.items@
    }
}

impl VecPtr {
    /// The elements fit into the storage.
    pub open spec fn wf(&self) -> bool {
        self.store.wf()
    }

    /// Number of elements that the storage has room for.
    pub open spec fn cap(&self) -> nat {
        self.store.cap as nat
    }
}

/// An empty vector.
pub fn rayzor_vec_ptr_new() -> (v: VecPtr)
    ensures
        v.wf(),
        v@ == Seq::<usize>::empty(),
        v.cap() == INITIAL_CAPACITY,
{
    VecPtr { store: Store::with_capacity(INITIAL_CAPACITY) }
}

/// Appends an element.
pub fn rayzor_vec_ptr_push(vec: &mut VecPtr, value: usize)
    requires
        old(vec).wf(),
        old(vec)@.len() == old(vec).cap() ==> old(vec).cap() <= usize::MAX / 2,
    ensures
        final(vec).wf(),
        final(vec)@ == old(vec)@.push(value),
        final(vec).cap() == cap_after_push(old(vec)@.len(), old(vec).cap()),
{
    vec.store.push(value);
}

/// Takes the last element off; 0usize for a null or empty vector.
pub fn rayzor_vec_ptr_pop(vec: Option<&mut VecPtr>) -> (value: usize)
    requires
        vec matches Some(v) ==> (*v).wf(),
    ensures
        match vec {
            None => value == 0usize,
            Some(v) => {
                &&& (*final(v)).wf()
                &&& (*final(v)).cap() == (*v).cap()
                &&& if (*v)@.len() == 0 {
                    value == 0usize && (*final(v))@ == (*v)@
                } else {
                    value == (*v)@.last() && (*final(v))@ == (*v)@.drop_last()
                }
            },
        },
{
    match vec {
        None => 0usize,
        Some(v) => v.store.pop(0usize),
    }
}

/// Element at `index`; 0usize for a null vector and outside the vector.
pub fn rayzor_vec_ptr_get(vec: Option<&VecPtr>, index: usize) -> (value: usize)
    ensures
        value == (match vec {
            Some(v) => if index < v@.len() {
                v@[index as int]
            } else {
                0usize
            },
            None => 0usize,
        }),
{
    match vec {
        None => 0usize,
        Some(v) => v.store.get(index, 0usize),
    }
}

/// Replaces the element at `index`; nothing happens outside the vector.
pub fn rayzor_vec_ptr_set(vec: &mut VecPtr, index: usize, value: usize)
    requires
        old(vec).wf(),
    ensures
        final(vec).wf(),
        final(vec).cap() == old(vec).cap(),
        final(vec)@ == (if index < old(vec)@.len() {
            old(vec)@.update(index as int, value)
        } else {
            old(vec)@
        }),
{
    vec.store.set(index, value);
}

/// Number of elements; 0 for a null vector.
pub fn rayzor_vec_ptr_len(vec: Option<&VecPtr>) -> (n: usize)
    ensures
        n == (match vec {
            Some(v) => v@.len(),
            None => 0,
        }),
{
    match vec {
        None => 0,
        Some(v) => v.store.items.len(),
    }
}

/// Whether there is no element; true for a null vector.
pub fn rayzor_vec_ptr_is_empty(vec: Option<&VecPtr>) -> (r: bool)
    ensures
        r == (vec matches Some(v) ==> v@.len() == 0),
{
    match vec {
        None => true,
        Some(v) => v.store.items.len() == 0,
    }
}

/// Removes all elements and keeps the storage.
pub fn rayzor_vec_ptr_clear(vec: &mut VecPtr)
    requires
        old(vec).wf(),
    ensures
        final(vec).wf(),
        final(vec)@ == Seq::<usize>::empty(),
        final(vec).cap() == old(vec).cap(),
{
    vec.store.items.clear();
}

/// The first element; 0usize for a null or empty vector.
pub fn rayzor_vec_ptr_first(vec: Option<&VecPtr>) -> (value: usize)
    ensures
        value == (match vec {
            Some(v) => if v@.len() > 0 {
                v@[0]
            } else {
                0usize
            },
            None => 0usize,
        }),
{
    rayzor_vec_ptr_get(vec, 0)
}

/// The last element; 0usize for a null or empty vector.
pub fn rayzor_vec_ptr_last(vec: Option<&VecPtr>) -> (value: usize)
    ensures
        value == (match vec {
            Some(v) => if v@.len() > 0 {
                v@.last()
            } else {
                0usize
            },
            None => 0usize,
        }),
{
    match vec {
        None => 0usize,
        Some(v) => {
            let n: usize = v.store.items.len();
            if n == 0 {
                0usize
            } else {
                v.store.items[n - 1]
            }
        },
    }
}

/// Sorts with a comparison; a null comparison changes nothing. The sort is stable.
pub fn rayzor_vec_ptr_sort_by<F: Fn(usize, usize) -> i32>(vec: &mut VecPtr, compare: Option<F>)
    requires
        old(vec).wf(),
        compare matches Some(f) ==> forall|a: usize, b: usize| call_requires(f, (a, b)),
    ensures
        final(vec).wf(),
        final(vec).cap() == old(vec).cap(),
        compare is None ==> final(vec)@ == old(vec)@,
        final(vec)@.to_multiset() == old(vec)@.to_multiset(),
        compare matches Some(f) ==> forall|c: spec_fn(usize, usize) -> int|
            sorting::answers(f, c) ==> final(vec)@ == #[trigger] sorting::stable_sorted(
                old(vec)@,
                c,
            ),
{
    match compare {
        None => {},
        Some(f) => vec.store.sort_by(&f),
    }
}

/// Gives the storage back; the result is the number of elements that it had room for, 0 for a
/// null vector.
pub fn rayzor_vec_ptr_free(vec: Option<VecPtr>) -> (released: usize)
    ensures
        released == (match vec {
            Some(v) => v.cap(),
            None => 0,
        }),
{
    match vec {
        None => 0,
        Some(v) => v.store.cap,
    }
}

// ---------------------------------------------------------------------------
// Truth values
// ---------------------------------------------------------------------------

/// A vector of truth values.
pub struct VecBool {
    pub store: Store<bool>,
}

impl View for VecBool {
    type V = Seq<bool>;

    open spec fn view(&self) -> Seq<bool> {
        self.store.items@
    }
}

impl VecBool {
    /// The elements fit into the storage.
    pub open spec fn wf(&self) -> bool {
        self.store.wf()
    }

    /// Number of elements that the storage has room for.
    pub open spec fn cap(&self) -> nat {
        self.store.cap as nat
    }
}

/// An empty vector.
pub fn rayzor_vec_bool_new() -> (v: VecBool)
    ensures
        v.wf(),
        v@ == Seq::<bool>::empty(),
        v.cap() == INITIAL_CAPACITY,
{
    VecBool { store: Store::with_capacity(INITIAL_CAPACITY) }
}

/// Appends an element.
pub fn rayzor_vec_bool_push(vec: &mut VecBool, value: bool)
    requires
        old(vec).wf(),
        old(vec)@.len() == old(vec).cap() ==> old(vec).cap() <= usize::MAX / 2,
    ensures
        final(vec).wf(),
        final(vec)@ == old(vec)@.push(value),
        final(vec).cap() == cap_after_push(old(vec)@.len(), old(vec).cap()),
{
    vec.store.push(value);
}

/// Takes the last element off; false for a null or empty vector.
pub fn rayzor_vec_bool_pop(vec: Option<&mut VecBool>) -> (value: bool)
    requires
        vec matches Some(v) ==> (*v).wf(),
    ensures
        match vec {
            None => value == false,
            Some(v) => {
                &&& (*final(v)).wf()
                &&& (*final(v)).cap() == (*v).cap()
                &&& if (*v)@.len() == 0 {
                    value == false && (*final(v))@ == (*v)@
                } else {
                    value == (*v)@.last() && (*final(v))@ == (*v)@.drop_last()
                }
            },
        },
{
    match vec {
        None => false,
        Some(v) => v.store.pop(false),
    }
}

/// Element at `index`; false for a null vector and outside the vector.
pub fn rayzor_vec_bool_get(vec: Option<&VecBool>, index: usize) -> (value: bool)
    ensures
        value == (match vec {
            Some(v) => if index < v@.len() {
                v@[index as int]
            } else {
                false
            },
            None => false,
        }),
{
    match vec {
        None => false,
        Some(v) => v.store.get(index, false),
    }
}

/// Replaces the element at `index`; nothing happens outside the vector.
pub fn rayzor_vec_bool_set(vec: &mut VecBool, index: usize, value: bool)
    requires
        old(vec).wf(),
    ensures
        final(vec).wf(),
        final(vec).cap() == old(vec).cap(),
        final(vec)@ == (if index < old(vec)@.len() {
            old(vec)@.update(index as int, value)
        } else {
            old(vec)@
        }),
{
    vec.store.set(index, value);
}

/// Number of elements; 0 for a null vector.
pub fn rayzor_vec_bool_len(vec: Option<&VecBool>) -> (n: usize)
    ensures
        n == (match vec {
            Some(v) => v@.len(),
            None => 0,
        }),
{
    match vec {
        None => 0,
        Some(v) => v.store.items.len(),
    }
}

/// Whether there is no element; true for a null vector.
pub fn rayzor_vec_bool_is_empty(vec: Option<&VecBool>) -> (r: bool)
    ensures
        r == (vec matches Some(v) ==> v@.len() == 0),
{
    match vec {
        None => true,
        Some(v) => v.store.items.len() == 0,
    }
}

/// Removes all elements and keeps the storage.
pub fn rayzor_vec_bool_clear(vec: &mut VecBool)
    requires
        old(vec).wf(),
    ensures
        final(vec).wf(),
        final(vec)@ == Seq::<bool>::empty(),
        final(vec).cap() == old(vec).cap(),
{
    vec.store.items.clear();
}

/// Gives the storage back; the result is the number of elements that it had room for, 0 for a
/// null vector.
pub fn rayzor_vec_bool_free(vec: Option<VecBool>) -> (released: usize)
    ensures
        released == (match vec {
            Some(v) => v.cap(),
            None => 0,
        }),
{
    match vec {
        None => 0,
        Some(v) => v.store.cap,
    }
}

/// Storage that is full is doubled for another element, and storage with room is kept.
pub proof fn law_storage_doubles(len: nat, cap: nat)
    ensures
        len < cap ==> cap_after_push(len, cap) == cap,
        len == cap ==> cap_after_push(len, cap) == 2 * cap,
{
}

/// Sorting integers puts no element before a smaller one and keeps them all.
pub proof fn law_int_sort_orders(s: Seq<i64>, i: int, j: int)
    requires
        0 <= i < j < s.len(),
    ensures
        ({
            let t = sorting::stable_sorted(s, |a: i64, b: i64| int_order(a as int, b as int));
            &&& t.len() == s.len()
            &&& t[i] <= t[j]
            &&& t.to_multiset() == s.to_multiset()
        }),
{
    let c = |a: i64, b: i64| int_order(a as int, b as int);
    sorting::law_sort_permutes(s, c);
    sorting::law_sort_orders(s, c);
    let t = sorting::stable_sorted(s, c);
    s.to_multiset_ensures();
    t.to_multiset_ensures();
    assert(c(t[i], t[j]) <= 0);
}

} // verus!
