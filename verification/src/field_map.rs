//! Maps from byte-string names to values, kept as a list in increasing order of the names.

use crate::text;
use vstd::prelude::*;

verus! {

/// The names of `s` are strictly increasing.
pub open spec fn sorted<T>(s: Seq<(Seq<u8>, T)>) -> bool {
    forall|i: int, j: int| 0 <= i < j < s.len() ==> text::lex_order(#[trigger] s[i].0, #[trigger] s[j].0) < 0
}

/// Number of entries at the front of `s` whose names come before `k`.
pub open spec fn slot<T>(s: Seq<(Seq<u8>, T)>, k: Seq<u8>) -> int
    decreases s.len(),
{
    if s.len() == 0 || text::lex_order(s[0].0, k) >= 0 {
        0
    } else {
        1 + slot(s.drop_first(), k)
    }
}

/// `s` holds an entry named `k`.
pub open spec fn has<T>(s: Seq<(Seq<u8>, T)>, k: Seq<u8>) -> bool {
    0 <= slot(s, k) < s.len() && s[slot(s, k)].0 == k
}

/// The value of the entry named `k`.
pub open spec fn lookup<T>(s: Seq<(Seq<u8>, T)>, k: Seq<u8>) -> Option<T> {
    if has(s, k) {
        Some(s[slot(s, k)].1)
    } else {
        None
    }
}

/// `s` with the entry named `k` set to `v`.
pub open spec fn put<T>(s: Seq<(Seq<u8>, T)>, k: Seq<u8>, v: T) -> Seq<(Seq<u8>, T)> {
    if has(s, k) {
        s.update(slot(s, k), (k, v))
    } else {
        s.insert(slot(s, k), (k, v))
    }
}

/// `s` without the entry named `k`.
pub open spec fn del<T>(s: Seq<(Seq<u8>, T)>, k: Seq<u8>) -> Seq<(Seq<u8>, T)> {
    if has(s, k) {
        s.remove(slot(s, k))
    } else {
        s
    }
}

/// The slot parts the names before `k` from those at or after it.
pub proof fn lemma_slot<T>(s: Seq<(Seq<u8>, T)>, k: Seq<u8>)
    requires
        sorted(s),
    ensures
        0 <= slot(s, k) <= s.len(),
        forall|i: int| 0 <= i < slot(s, k) ==> text::lex_order(#[trigger] s[i].0, k) < 0,
        forall|i: int| slot(s, k) <= i < s.len() ==> text::lex_order(#[trigger] s[i].0, k) >= 0,
    decreases s.len(),
{
    if s.len() > 0 {
        if text::lex_order(s[0].0, k) >= 0 {
            assert forall|i: int| 0 <= i < s.len() implies text::lex_order(#[trigger] s[i].0, k) >= 0 by {
                if i > 0 && text::lex_order(s[i].0, k) < 0 {
                    text::lemma_lex_order_transitive(s[0].0, s[i].0, k);
                }
            }
        } else {
            let t = s.drop_first();
            assert(sorted(t)) by {
                assert forall|i: int, j: int| 0 <= i < j < t.len() implies text::lex_order(
                    #[trigger] t[i].0,
                    #[trigger] t[j].0,
                ) < 0 by {
                    assert(t[i] == s[i + 1] && t[j] == s[j + 1]);
                }
            }
            lemma_slot(t, k);
            assert forall|i: int| 0 <= i < slot(s, k) implies text::lex_order(#[trigger] s[i].0, k) < 0 by {
                if i > 0 {
                    assert(s[i] == t[i - 1]);
                }
            }
            assert forall|i: int| slot(s, k) <= i < s.len() implies text::lex_order(#[trigger] s[i].0, k) >= 0 by {
                assert(s[i] == t[i - 1]);
            }
        }
    }
}

/// A position that parts the names in this way is the slot.
pub proof fn lemma_slot_unique<T>(s: Seq<(Seq<u8>, T)>, k: Seq<u8>, n: int)
    requires
        sorted(s),
        0 <= n <= s.len(),
        forall|i: int| 0 <= i < n ==> text::lex_order(#[trigger] s[i].0, k) < 0,
        n < s.len() ==> text::lex_order(s[n].0, k) >= 0,
    ensures
        slot(s, k) == n,
{
    lemma_slot(s, k);
    let m = slot(s, k);
    if m < n {
        assert(text::lex_order(s[m].0, k) < 0);
    } else if n < m {
        assert(text::lex_order(s[n].0, k) < 0);
    }
}

/// An entry is found under its own name.
pub proof fn lemma_found<T>(s: Seq<(Seq<u8>, T)>, i: int)
    requires
        sorted(s),
        0 <= i < s.len(),
    ensures
        slot(s, s[i].0) == i,
        has(s, s[i].0),
        lookup(s, s[i].0) == Some(s[i].1),
{
    text::lemma_lex_order_zero(s[i].0, s[i].0);
    lemma_slot_unique(s, s[i].0, i);
}

/// `has` says that some entry bears the name.
pub proof fn lemma_has<T>(s: Seq<(Seq<u8>, T)>, k: Seq<u8>)
    requires
        sorted(s),
    ensures
        has(s, k) <==> exists|i: int| 0 <= i < s.len() && s[i].0 == k,
{
    if exists|i: int| 0 <= i < s.len() && s[i].0 == k {
        let i = choose|i: int| 0 <= i < s.len() && s[i].0 == k;
        lemma_found(s, i);
    }
}

/// Setting an entry keeps the order.
pub proof fn lemma_put_sorted<T>(s: Seq<(Seq<u8>, T)>, k: Seq<u8>, v: T)
    requires
        sorted(s),
    ensures
        sorted(put(s, k, v)),
        slot(put(s, k, v), k) == slot(s, k),
        has(put(s, k, v), k),
{
    lemma_slot(s, k);
    text::lemma_lex_order_zero(k, k);
    let n = slot(s, k);
    let t = put(s, k, v);
    assert forall|i: int, j: int| 0 <= i < j < t.len() implies text::lex_order(
        #[trigger] t[i].0,
        #[trigger] t[j].0,
    ) < 0 by {
        if has(s, k) {
            assert(t[i].0 == s[i].0 && t[j].0 == s[j].0);
        } else {
            if i < n && j == n {
                assert(t[i] == s[i]);
            } else if j < n {
                assert(t[i] == s[i] && t[j] == s[j]);
            } else if i == n {
                assert(t[j] == s[j - 1]);
                text::lemma_lex_order_antisymmetric(s[j - 1].0, k);
                if text::lex_order(s[j - 1].0, k) == 0 {
                    text::lemma_lex_order_zero(s[j - 1].0, k);
                    lemma_found(s, j - 1);
                }
            } else if i < n {
                assert(t[i] == s[i] && t[j] == s[j - 1]);
            } else {
                assert(t[i] == s[i - 1] && t[j] == s[j - 1]);
            }
        }
    }
    assert forall|i: int| 0 <= i < n implies text::lex_order(#[trigger] t[i].0, k) < 0 by {
        assert(t[i] == s[i]);
    }
    lemma_slot_unique(t, k, n);
}

/// A value that was set is read back.
pub proof fn law_put_lookup<T>(s: Seq<(Seq<u8>, T)>, k: Seq<u8>, v: T)
    requires
        sorted(s),
    ensures
        lookup(put(s, k, v), k) == Some(v),
{
    lemma_slot(s, k);
    lemma_put_sorted(s, k, v);
}

/// Setting one entry leaves the others.
pub proof fn law_put_lookup_other<T>(s: Seq<(Seq<u8>, T)>, k: Seq<u8>, v: T, other: Seq<u8>)
    requires
        sorted(s),
        other != k,
    ensures
        lookup(put(s, k, v), other) == lookup(s, other),
{
    lemma_slot(s, k);
    lemma_put_sorted(s, k, v);
    let t = put(s, k, v);
    let n = slot(s, k);
    lemma_has(s, other);
    lemma_has(t, other);
    if has(s, other) {
        let m = slot(s, other);
        if has(s, k) || m < n {
            assert(t[m] == s[m]);
            lemma_found(t, m);
        } else {
            assert(t[m + 1] == s[m]);
            lemma_found(t, m + 1);
        }
    } else if has(t, other) {
        let m = slot(t, other);
        if has(s, k) || m < n {
            assert(t[m].0 == s[m].0);
        } else {
            assert(m > n);
            assert(t[m] == s[m - 1]);
        }
    }
}

/// Removing an entry keeps the order.
pub proof fn lemma_del_sorted<T>(s: Seq<(Seq<u8>, T)>, k: Seq<u8>)
    requires
        sorted(s),
    ensures
        sorted(del(s, k)),
{
    lemma_slot(s, k);
    let t = del(s, k);
    let n = slot(s, k);
    assert forall|i: int, j: int| 0 <= i < j < t.len() implies text::lex_order(
        #[trigger] t[i].0,
        #[trigger] t[j].0,
    ) < 0 by {
        if has(s, k) {
            let a = if i < n { i } else { i + 1 };
            let b = if j < n { j } else { j + 1 };
            assert(t[i] == s[a] && t[j] == s[b]);
        }
    }
}

/// A removed entry is gone.
pub proof fn law_del_lookup<T>(s: Seq<(Seq<u8>, T)>, k: Seq<u8>)
    requires
        sorted(s),
    ensures
        lookup(del(s, k), k) is None,
{
    lemma_slot(s, k);
    lemma_del_sorted(s, k);
    let t = del(s, k);
    let n = slot(s, k);
    lemma_has(t, k);
    if has(s, k) && has(t, k) {
        let m = slot(t, k);
        let a = if m < n { m } else { m + 1 };
        assert(t[m] == s[a]);
        lemma_found(s, a);
    }
}

/// Removing one entry leaves the others.
pub proof fn law_del_lookup_other<T>(s: Seq<(Seq<u8>, T)>, k: Seq<u8>, other: Seq<u8>)
    requires
        sorted(s),
        other != k,
    ensures
        lookup(del(s, k), other) == lookup(s, other),
{
    lemma_slot(s, k);
    lemma_del_sorted(s, k);
    let t = del(s, k);
    let n = slot(s, k);
    lemma_has(s, other);
    lemma_has(t, other);
    if has(s, k) {
        if has(s, other) {
            let m = slot(s, other);
            let a = if m < n { m } else { m - 1 };
            assert(t[a] == s[m]);
            lemma_found(t, a);
        } else if has(t, other) {
            let m = slot(t, other);
            let a = if m < n { m } else { m + 1 };
            assert(t[m] == s[a]);
        }
    }
}

/// A map from names to values.
pub struct FieldMap<T> {
    entries: Vec<(Vec<u8>, T)>,
}

impl<T> FieldMap<T> {
    /// The entries in order.
    pub closed spec fn seq(self) -> Seq<(Seq<u8>, T)> {
        self.entries@.map_values(|e: (Vec<u8>, T)| (e.0@, e.1))
    }

    /// The names are in order, so no name occurs twice.
    pub open spec fn wf(self) -> bool {
        sorted(self.seq())
    }

    /// An empty map.
    pub fn new() -> (m: FieldMap<T>)
        ensures
            m.wf(),
            m.seq() == Seq::<(Seq<u8>, T)>::empty(),
    {
        let m = FieldMap { entries: Vec::new() };
        assert(m.seq() =~= Seq::<(Seq<u8>, T)>::empty());
        m
    }

    /// Number of entries.
    pub fn len(&self) -> (n: usize)
        ensures
            n == self.seq().len(),
    {
        self.entries.len()
    }

    /// Name of the `i`-th entry.
    pub fn name(&self, i: usize) -> (k: &Vec<u8>)
        requires
            i < self.seq().len(),
        ensures
            k@ == self.seq()[i as int].0,
    {
        &self.entries[i].0
    }

    /// Value of the `i`-th entry.
    pub fn value(&self, i: usize) -> (v: &T)
        requires
            i < self.seq().len(),
        ensures
            *v == self.seq()[i as int].1,
    {
        &self.entries[i].1
    }

    fn find_slot(&self, k: &[u8]) -> (n: usize)
        requires
            self.wf(),
        ensures
            n as int == slot(self.seq(), k@),
            n <= self.seq().len(),
    {
        let mut n: usize = 0;
        while n < self.entries.len() && text::order(self.entries[n].0.as_slice(), k) < 0
            invariant
                n <= self.entries@.len(),
                self.wf(),
                forall|i: int| 0 <= i < n ==> text::lex_order(#[trigger] self.seq()[i].0, k@) < 0,
            decreases self.entries@.len() - n,
        {
            assert(self.seq()[n as int].0 == self.entries@[n as int].0@);
            n = n + 1;
        }
        proof {
            if n < self.entries@.len() {
                assert(self.seq()[n as int].0 == self.entries@[n as int].0@);
            }
            lemma_slot_unique(self.seq(), k@, n as int);
        }
        n
    }

    /// Whether an entry named `k` exists.
    pub fn contains(&self, k: &[u8]) -> (found: bool)
        requires
            self.wf(),
        ensures
            found == has(self.seq(), k@),
    {
        let n: usize = self.find_slot(k);
        n < self.entries.len() && text::equal(self.entries[n].0.as_slice(), k)
    }

    /// The value of the entry named `k`.
    pub fn get(&self, k: &[u8]) -> (v: Option<&T>)
        requires
            self.wf(),
        ensures
            match v {
                Some(x) => lookup(self.seq(), k@) == Some(*x),
                None => lookup(self.seq(), k@) is None,
            },
    {
        let n: usize = self.find_slot(k);
        if n < self.entries.len() && text::equal(self.entries[n].0.as_slice(), k) {
            Some(&self.entries[n].1)
        } else {
            None
        }
    }

    /// Sets the entry named `k`.
    pub fn insert(&mut self, k: Vec<u8>, v: T)
        requires
            old(self).wf(),
        ensures
            final(self).wf(),
            final(self).seq() == put(old(self).seq(), k@, v),
    {
        let ghost before = self.seq();
        let n: usize = self.find_slot(k.as_slice());
        proof {
            lemma_put_sorted(before, k@, v);
        }
        let found: bool = n < self.entries.len() && text::equal(
            self.entries[n].0.as_slice(),
            k.as_slice(),
        );
        if found {
            self.entries.set(n, (k, v));
        } else {
            self.entries.insert(n, (k, v));
        }
        assert(self.seq() =~= put(before, k@, v));
    }

    /// Removes the entry named `k`; whether there was one.
    pub fn remove(&mut self, k: &[u8]) -> (found: bool)
        requires
            old(self).wf(),
        ensures
            final(self).wf(),
            found == has(old(self).seq(), k@),
            final(self).seq() == del(old(self).seq(), k@),
    {
        let ghost before = self.seq();
        let n: usize = self.find_slot(k);
        proof {
            lemma_del_sorted(before, k@);
        }
        let found: bool = n < self.entries.len() && text::equal(
            self.entries[n].0.as_slice(),
            k,
        );
        if found {
            self.entries.remove(n);
        }
        assert(self.seq() =~= del(before, k@));
        found
    }

    /// Removes every entry.
    pub fn clear(&mut self)
        ensures
            final(self).wf(),
            final(self).seq() == Seq::<(Seq<u8>, T)>::empty(),
    {
        self.entries.clear();
        assert(self.seq() =~= Seq::<(Seq<u8>, T)>::empty());
    }
}

impl<T: Copy> FieldMap<T> {
    /// An independent copy.
    pub fn duplicate(&self) -> (m: FieldMap<T>)
        ensures
            m.seq() == self.seq(),
    {
        let mut entries: Vec<(Vec<u8>, T)> = Vec::new();
        let mut i: usize = 0;
        while i < self.entries.len()
            invariant
                i <= self.entries@.len(),
                entries@.len() == i,
                forall|j: int|
                    0 <= j < i ==> (#[trigger] entries@[j]).0@ == self.entries@[j].0@ && entries@[j].1
                        == self.entries@[j].1,
            decreases self.entries@.len() - i,
        {
            let name: Vec<u8> = text::copy_all(self.entries[i].0.as_slice());
            entries.push((name, self.entries[i].1));
            i = i + 1;
        }
        let m = FieldMap { entries };
        assert(m.seq() =~= self.seq());
        m
    }
}

/// Names stand in increasing order of their bytes: of two entries the first has the smaller byte at
/// the first place where their names do not agree, or ends there.
pub proof fn law_names_are_ordered<T>(s: Seq<(Seq<u8>, T)>, i: int, j: int, k: int)
    requires
        sorted(s),
        0 <= i < j < s.len(),
        0 <= k <= s[i].0.len(),
        k <= s[j].0.len(),
        forall|n: int| 0 <= n < k ==> s[i].0[n] == s[j].0[n],
        k < s[i].0.len() && k < s[j].0.len() ==> s[i].0[k] != s[j].0[k],
    ensures
        k < s[j].0.len(),
        k < s[i].0.len() ==> s[i].0[k] < s[j].0[k],
{
    assert(text::lex_order(s[i].0, s[j].0) < 0);
    text::law_first_difference_decides(s[i].0, s[j].0, k);
}

/// An entry is found under its name, and nothing is found under a name that no entry has.
pub proof fn law_lookup_finds_entries<T>(s: Seq<(Seq<u8>, T)>, i: int, k: Seq<u8>)
    requires
        sorted(s),
    ensures
        0 <= i < s.len() ==> lookup(s, s[i].0) == Some(s[i].1),
        (forall|j: int| 0 <= j < s.len() ==> (#[trigger] s[j]).0 != k) ==> lookup(s, k) is None,
{
    if 0 <= i < s.len() {
        lemma_found(s, i);
    }
}

} // verus!
