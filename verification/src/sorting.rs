//! Stable sorting with a three-way comparison: negative, zero or positive as the first argument
//! comes before, beside or after the second.

use vstd::prelude::*;

verus! {

/// The comparison `f` always answers as `c` does.
pub open spec fn answers<T, F: Fn(T, T) -> i32>(f: F, c: spec_fn(T, T) -> int) -> bool {
    forall|a: T, b: T, r: i32| #[trigger] call_ensures(f, (a, b), r) ==> r == c(a, b)
}

/// Where `key` goes into `s`: behind the last element that does not come after it.
pub open spec fn insert_pos<T>(s: Seq<T>, key: T, c: spec_fn(T, T) -> int) -> int
    decreases s.len(),
{
    if s.len() == 0 || c(s.last(), key) <= 0 {
        s.len() as int
    } else {
        insert_pos(s.drop_last(), key, c)
    }
}

/// `s` with `key` inserted.
pub open spec fn insert_one<T>(s: Seq<T>, key: T, c: spec_fn(T, T) -> int) -> Seq<T> {
    s.insert(insert_pos(s, key, c), key)
}

/// `s` in order: its elements inserted one after another.
pub open spec fn stable_sorted<T>(s: Seq<T>, c: spec_fn(T, T) -> int) -> Seq<T>
    decreases s.len(),
{
    if s.len() == 0 {
        s
    } else {
        insert_one(stable_sorted(s.drop_last(), c), s.last(), c)
    }
}

/// `c` compares by a total order in which different elements may stand beside each other.
pub open spec fn is_order<T>(c: spec_fn(T, T) -> int) -> bool {
    &&& forall|a: T, b: T| #[trigger] c(a, b) > 0 ==> c(b, a) < 0
    &&& forall|a: T, b: T| #[trigger] c(a, b) < 0 ==> c(b, a) > 0
    &&& forall|a: T, b: T, d: T|
        #[trigger] c(a, b) <= 0 && #[trigger] c(b, d) <= 0 ==> c(a, d) <= 0
}

/// No element comes after one that stands behind it.
pub open spec fn in_order<T>(s: Seq<T>, c: spec_fn(T, T) -> int) -> bool {
    forall|i: int, j: int| 0 <= i < j < s.len() ==> c(#[trigger] s[i], #[trigger] s[j]) <= 0
}

/// Everything behind the insert position comes after the key, and what stands before it does
/// not.
pub proof fn lemma_insert_pos<T>(s: Seq<T>, key: T, c: spec_fn(T, T) -> int)
    ensures
        0 <= insert_pos(s, key, c) <= s.len(),
        forall|i: int| insert_pos(s, key, c) <= i < s.len() ==> c(#[trigger] s[i], key) > 0,
        insert_pos(s, key, c) > 0 ==> c(s[insert_pos(s, key, c) - 1], key) <= 0,
    decreases s.len(),
{
    if s.len() > 0 && c(s.last(), key) > 0 {
        lemma_insert_pos(s.drop_last(), key, c);
        assert forall|i: int| insert_pos(s, key, c) <= i < s.len() implies c(#[trigger] s[i], key)
            > 0 by {
            if i < s.len() - 1 {
                assert(s.drop_last()[i] == s[i]);
            }
        }
    }
}

/// Sorting keeps the number of elements.
pub proof fn lemma_sorted_len<T>(s: Seq<T>, c: spec_fn(T, T) -> int)
    ensures
        stable_sorted(s, c).len() == s.len(),
    decreases s.len(),
{
    if s.len() > 0 {
        lemma_sorted_len(s.drop_last(), c);
        lemma_insert_pos(stable_sorted(s.drop_last(), c), s.last(), c);
    }
}

/// Sorting rearranges: every element occurs as often as before.
pub proof fn law_sort_permutes<T>(s: Seq<T>, c: spec_fn(T, T) -> int)
    ensures
        stable_sorted(s, c).to_multiset() == s.to_multiset(),
    decreases s.len(),
{
    if s.len() > 0 {
        let front = s.drop_last();
        let rest = stable_sorted(front, c);
        law_sort_permutes(front, c);
        lemma_insert_pos(rest, s.last(), c);
        vstd::seq_lib::to_multiset_insert(rest, insert_pos(rest, s.last(), c), s.last());
        assert(s =~= front.push(s.last()));
        vstd::seq_lib::to_multiset_build(front, s.last());
    }
}

/// By a total order, sorting puts the elements in order.
pub proof fn law_sort_orders<T>(s: Seq<T>, c: spec_fn(T, T) -> int)
    requires
        is_order(c),
    ensures
        in_order(stable_sorted(s, c), c),
    decreases s.len(),
{
    if s.len() > 0 {
        let rest = stable_sorted(s.drop_last(), c);
        let key = s.last();
        law_sort_orders(s.drop_last(), c);
        lemma_insert_pos(rest, key, c);
        let p = insert_pos(rest, key, c);
        let t = stable_sorted(s, c);
        assert forall|i: int, j: int| 0 <= i < j < t.len() implies c(
            #[trigger] t[i],
            #[trigger] t[j],
        ) <= 0 by {
            if j < p {
                assert(t[i] == rest[i] && t[j] == rest[j]);
            } else if j == p {
                assert(t[i] == rest[i]);
                if i < p - 1 {
                    assert(c(rest[i], rest[p - 1]) <= 0);
                }
            } else if i < p {
                assert(t[i] == rest[i] && t[j] == rest[j - 1]);
            } else if i == p {
                assert(t[j] == rest[j - 1]);
                assert(c(rest[j - 1], key) > 0);
            } else {
                assert(t[i] == rest[i - 1] && t[j] == rest[j - 1]);
            }
        }
    }
}

/// By a total order, elements that stand beside each other keep the order in which they came:
/// those beside `k` are the same list before and after.
pub proof fn law_sort_is_stable<T>(s: Seq<T>, c: spec_fn(T, T) -> int, k: T)
    requires
        is_order(c),
    ensures
        stable_sorted(s, c).filter(|x: T| c(x, k) == 0) == s.filter(|x: T| c(x, k) == 0),
    decreases s.len(),
{
    let beside = |x: T| c(x, k) == 0;
    reveal(Seq::filter);
    if s.len() > 0 {
        let front = s.drop_last();
        let rest = stable_sorted(front, c);
        let key = s.last();
        law_sort_is_stable(front, c, k);
        lemma_insert_pos(rest, key, c);
        let p = insert_pos(rest, key, c);
        let before = rest.take(p);
        let after = rest.skip(p);
        assert(rest =~= before + after);
        assert(insert_one(rest, key, c) =~= before.push(key) + after);
        Seq::filter_distributes_over_add(before, after, beside);
        Seq::filter_distributes_over_add(before.push(key), after, beside);
        before.lemma_filter_push(key, beside);
        front.lemma_filter_push(key, beside);
        assert(s =~= front.push(key));
        if beside(key) {
            assert forall|i: int| 0 <= i < after.len() implies !beside(#[trigger] after[i]) by {
                let x = after[i];
                assert(x == rest[p + i]);
                assert(c(x, key) > 0);
                if c(x, k) == 0 {
                    assert(c(key, k) == 0);
                    assert(c(k, key) <= 0) by {
                        if c(k, key) > 0 {
                            assert(c(key, k) < 0);
                        }
                    }
                    assert(c(x, key) <= 0);
                }
            }
            lemma_filter_none(after, beside);
            assert(before.filter(beside) + after.filter(beside) =~= before.filter(beside));
            assert(before.push(key).filter(beside) + after.filter(beside) =~= before.filter(
                beside,
            ).push(key));
        }
        assert(stable_sorted(s, c).filter(beside) =~= s.filter(beside));
    }
}

proof fn lemma_filter_none<T>(s: Seq<T>, p: spec_fn(T) -> bool)
    requires
        forall|i: int| 0 <= i < s.len() ==> !p(#[trigger] s[i]),
    ensures
        s.filter(p) == Seq::<T>::empty(),
    decreases s.len(),
{
    reveal(Seq::filter);
    if s.len() > 0 {
        assert forall|i: int| 0 <= i < s.drop_last().len() implies !p(
            #[trigger] s.drop_last()[i],
        ) by {
            assert(s.drop_last()[i] == s[i]);
        }
        lemma_filter_none(s.drop_last(), p);
        assert(!p(s[s.len() - 1]));
    }
}

/// Sorts in place.
pub fn sort_by<T: Copy, F: Fn(T, T) -> i32>(v: &mut Vec<T>, f: &F)
    requires
        forall|a: T, b: T| call_requires(*f, (a, b)),
    ensures
        final(v)@.len() == old(v)@.len(),
        final(v)@.to_multiset() == old(v)@.to_multiset(),
        forall|c: spec_fn(T, T) -> int|
            answers(*f, c) ==> final(v)@ == #[trigger] stable_sorted(old(v)@, c),
{
    let ghost start = v@;
    let mut out: Vec<T> = Vec::new();
    let mut i: usize = 0;
    proof {
        assert(start.take(0) =~= Seq::empty());
        assert(out@ =~= start.take(0));
    }
    while i < v.len()
        invariant
            i <= v@.len(),
            v@ == start,
            forall|a: T, b: T| call_requires(*f, (a, b)),
            out@.len() == i,
            out@.to_multiset() == start.take(i as int).to_multiset(),
            forall|c: spec_fn(T, T) -> int|
                answers(*f, c) ==> out@ == #[trigger] stable_sorted(start.take(i as int), c),
        decreases v@.len() - i,
    {
        let key: T = v[i];
        let ghost sofar = out@;
        let mut j: usize = out.len();
        assert(sofar.take(j as int) =~= sofar);
        while j > 0
            invariant_except_break
                0 <= j <= out@.len(),
                out@ == sofar,
                forall|a: T, b: T| call_requires(*f, (a, b)),
                forall|c: spec_fn(T, T) -> int|
                    answers(*f, c) ==> #[trigger] insert_pos(sofar, key, c) == insert_pos(
                        sofar.take(j as int),
                        key,
                        c,
                    ),
            ensures
                0 <= j <= out@.len(),
                out@ == sofar,
                forall|c: spec_fn(T, T) -> int|
                    answers(*f, c) ==> #[trigger] insert_pos(sofar, key, c) == j,
            decreases j,
        {
            assert(sofar.take(j as int).last() == sofar[j - 1]);
            assert(sofar.take(j as int).drop_last() =~= sofar.take(j - 1));
            let order: i32 = f(out[j - 1], key);
            if order <= 0 {
                assert forall|c: spec_fn(T, T) -> int| answers(*f, c) implies #[trigger] insert_pos(
                    sofar,
                    key,
                    c,
                ) == j by {
                    assert(c(sofar[j - 1], key) == order);
                }
                break;
            }
            assert forall|c: spec_fn(T, T) -> int| answers(*f, c) implies #[trigger] insert_pos(
                sofar,
                key,
                c,
            ) == insert_pos(sofar.take(j - 1), key, c) by {
                assert(c(sofar[j - 1], key) == order);
            }
            j = j - 1;
        }
        out.insert(j, key);
        proof {
            vstd::seq_lib::to_multiset_insert(sofar, j as int, key);
            let taken = start.take(i as int);
            assert(start.take(i + 1) =~= taken.push(key));
            assert(taken.push(key).drop_last() =~= taken);
            vstd::seq_lib::to_multiset_build(taken, key);
            assert forall|c: spec_fn(T, T) -> int| answers(*f, c) implies out@
                == #[trigger] stable_sorted(start.take(i + 1), c) by {
                assert(sofar == stable_sorted(taken, c));
                assert(insert_pos(sofar, key, c) == j);
                assert(start.take(i + 1).drop_last() =~= taken);
                assert(start.take(i + 1).last() == key);
            }
        }
        i = i + 1;
    }
    proof {
        assert(start.take(i as int) =~= start);
    }
    *v = out;
}

} // verus!
