//! Sums of a weight over the elements of a sequence.

use vstd::prelude::*;

verus! {

/// `w` summed over the elements of `s`.
pub open spec fn sum_by<T>(s: Seq<T>, w: spec_fn(T) -> int) -> int
    decreases s.len(),
{
    if s.len() == 0 {
        0
    } else {
        sum_by(s.drop_last(), w) + w(s.last())
    }
}

pub proof fn lemma_sum_add<T>(a: Seq<T>, b: Seq<T>, w: spec_fn(T) -> int)
    ensures
        sum_by(a + b, w) == sum_by(a, w) + sum_by(b, w),
    decreases b.len(),
{
    if b.len() > 0 {
        assert((a + b).drop_last() == a + b.drop_last());
        lemma_sum_add(a, b.drop_last(), w);
    } else {
        assert(a + b == a);
    }
}

pub proof fn lemma_sum_perm<T>(a: Seq<T>, b: Seq<T>, w: spec_fn(T) -> int)
    requires
        a.to_multiset() == b.to_multiset(),
    ensures
        sum_by(a, w) == sum_by(b, w),
    decreases a.len(),
{
    broadcast use vstd::seq_lib::group_to_multiset_ensures, vstd::multiset::group_multiset_axioms;
    if a.len() == 0 {
        assert(a.to_multiset().len() == 0);
        assert(b.to_multiset().len() == 0);
        assert(b.len() == 0);
    } else {
        let x = a.last();
        let a1 = a.drop_last();
        assert(a == a1.push(x));
        assert(a.to_multiset().count(x) > 0);
        assert(b.contains(x));
        let j = choose|j: int| 0 <= j < b.len() && b[j] == x;
        let b1 = b.remove(j);
        assert(a1.to_multiset() =~= b1.to_multiset());
        lemma_sum_perm(a1, b1, w);
        let p = b.subrange(0, j);
        let q = b.subrange(j + 1, b.len() as int);
        assert(b1 == p + q);
        assert(b == p.push(x) + q);
        lemma_sum_add(p, q, w);
        lemma_sum_add(p.push(x), q, w);
        assert(p.push(x).drop_last() == p);
    }
}

/// Removing element `i` by moving the last element into its place.
pub proof fn lemma_sum_swap_remove<T>(s: Seq<T>, i: int, w: spec_fn(T) -> int)
    requires
        0 <= i < s.len(),
    ensures
        sum_by(s.update(i, s.last()).drop_last(), w) == sum_by(s, w) - w(s[i]),
{
    let n = s.len() as int;
    if i == n - 1 {
        assert(s.update(i, s.last()).drop_last() == s.drop_last());
    } else {
        let p = s.subrange(0, i);
        let q = s.subrange(i + 1, n - 1);
        assert(s.update(i, s.last()).drop_last() == p.push(s.last()) + q);
        assert(s == p.push(s[i]) + q.push(s.last()));
        lemma_sum_add(p.push(s.last()), q, w);
        lemma_sum_add(p.push(s[i]), q.push(s.last()), w);
        assert(p.push(s.last()).drop_last() == p);
        assert(p.push(s[i]).drop_last() == p);
        assert(q.push(s.last()).drop_last() == q);
    }
}

pub proof fn lemma_sum_map<T, U>(s: Seq<T>, f: spec_fn(T) -> U, w: spec_fn(U) -> int)
    ensures
        sum_by(s.map_values(f), w) == sum_by(s, |x: T| w(f(x))),
    decreases s.len(),
{
    if s.len() > 0 {
        assert(s.map_values(f).drop_last() == s.drop_last().map_values(f));
        lemma_sum_map(s.drop_last(), f, w);
    }
}

pub proof fn lemma_sum_nonneg<T>(s: Seq<T>, w: spec_fn(T) -> int)
    requires
        forall|x: T| #[trigger] w(x) >= 0,
    ensures
        sum_by(s, w) >= 0,
    decreases s.len(),
{
    if s.len() > 0 {
        lemma_sum_nonneg(s.drop_last(), w);
    }
}


pub proof fn lemma_sum_at_least_len<T>(s: Seq<T>, w: spec_fn(T) -> int)
    requires
        forall|i: int| 0 <= i < s.len() ==> #[trigger] w(s[i]) >= 1,
    ensures
        sum_by(s, w) >= s.len(),
    decreases s.len(),
{
    if s.len() > 0 {
        assert forall|i: int| 0 <= i < s.drop_last().len() implies #[trigger] w(s.drop_last()[i]) >= 1 by {
            assert(s.drop_last()[i] == s[i]);
        }
        lemma_sum_at_least_len(s.drop_last(), w);
        assert(w(s[s.len() - 1]) >= 1);
    }
}

/// Weights of at least one that add up to at most the length are all one.
pub proof fn lemma_sum_all_one<T>(s: Seq<T>, w: spec_fn(T) -> int)
    requires
        forall|i: int| 0 <= i < s.len() ==> #[trigger] w(s[i]) >= 1,
        sum_by(s, w) <= s.len(),
    ensures
        forall|i: int| 0 <= i < s.len() ==> #[trigger] w(s[i]) == 1,
    decreases s.len(),
{
    if s.len() > 0 {
        let s0 = s.drop_last();
        assert forall|i: int| 0 <= i < s0.len() implies #[trigger] w(s0[i]) >= 1 by {
            assert(s0[i] == s[i]);
        }
        lemma_sum_at_least_len(s0, w);
        assert(w(s[s.len() - 1]) >= 1);
        lemma_sum_all_one(s0, w);
        assert forall|i: int| 0 <= i < s.len() implies #[trigger] w(s[i]) == 1 by {
            if i < s.len() - 1 {
                assert(s0[i] == s[i]);
            }
        }
    }
}

/// Weights of exactly one add up to the length.
pub proof fn lemma_sum_ones<T>(s: Seq<T>, w: spec_fn(T) -> int)
    requires
        forall|i: int| 0 <= i < s.len() ==> #[trigger] w(s[i]) == 1,
    ensures
        sum_by(s, w) == s.len(),
    decreases s.len(),
{
    if s.len() > 0 {
        let s0 = s.drop_last();
        assert forall|i: int| 0 <= i < s0.len() implies #[trigger] w(s0[i]) == 1 by {
            assert(s0[i] == s[i]);
        }
        lemma_sum_ones(s0, w);
        assert(w(s[s.len() - 1]) == 1);
    }
}

} // verus!
