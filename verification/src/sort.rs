//! A verified merge sort by a key of three unsigned integers, compared
//! lexicographically. Every ordering the library needs (colors in a
//! histogram, entries of a median-cut box, clusters by weight) is one of these.

use vstd::prelude::*;
use vstd::relations::*;

verus! {

/// A sort key: compared first component first.
pub type Key = (u64, u64, u64);

/// Lexicographic order on keys.
pub open spec fn le3(a: Key, b: Key) -> bool {
    a.0 < b.0 || (a.0 == b.0 && (a.1 < b.1 || (a.1 == b.1 && a.2 <= b.2)))
}

/// The order on `T` induced by the key `k`.
pub open spec fn key_leq<T>(k: spec_fn(T) -> Key) -> spec_fn(T, T) -> bool {
    |a: T, b: T| le3(k(a), k(b))
}

/// Distinct values have distinct keys.
pub open spec fn injective_key<T>(k: spec_fn(T) -> Key) -> bool {
    forall|a: T, b: T| #[trigger] k(a) == #[trigger] k(b) ==> a == b
}

/// An injective key orders its type totally.
pub proof fn lemma_key_total<T>(k: spec_fn(T) -> Key)
    requires
        injective_key(k),
    ensures
        total_ordering(key_leq(k)),
{
    let leq = key_leq(k);
    assert(reflexive(leq));
    assert forall|x: T, y: T| #[trigger] leq(x, y) && #[trigger] leq(y, x) implies x == y by {
        assert(k(x) == k(y));
    }
    assert(antisymmetric(leq));
    assert(transitive(leq));
    assert(strongly_connected(leq));
}

pub fn le3_exec(a: Key, b: Key) -> (r: bool)
    ensures
        r == le3(a, b),
{
    a.0 < b.0 || (a.0 == b.0 && (a.1 < b.1 || (a.1 == b.1 && a.2 <= b.2)))
}

/// The closure `key` computes the spec key `k`.
pub open spec fn computes<T, F: Fn(&T) -> Key>(key: F, k: spec_fn(T) -> Key) -> bool {
    &&& forall|x: &T| #[trigger] key.requires((x,))
    &&& forall|x: &T, out: Key| #[trigger] key.ensures((x,), out) ==> out == k(*x)
}

fn merge<T: Copy, F: Fn(&T) -> Key>(a: &Vec<T>, b: &Vec<T>, key: &F, Ghost(k): Ghost<spec_fn(T) -> Key>) -> (r: Vec<T>)
    requires
        computes(*key, k),
        sorted_by(a@, key_leq(k)),
        sorted_by(b@, key_leq(k)),
    ensures
        r@.to_multiset() =~= a@.to_multiset().add(b@.to_multiset()),
        sorted_by(r@, key_leq(k)),
{
    broadcast use vstd::seq_lib::group_to_multiset_ensures, vstd::multiset::group_multiset_axioms;
    let ghost leq = key_leq(k);
    let mut r: Vec<T> = Vec::new();
    let mut i: usize = 0;
    let mut j: usize = 0;
    while i < a.len() || j < b.len()
        invariant
            computes(*key, k),
            leq == key_leq(k),
            sorted_by(a@, leq),
            sorted_by(b@, leq),
            i <= a.len(),
            j <= b.len(),
            r@.to_multiset() =~= a@.take(i as int).to_multiset().add(b@.take(j as int).to_multiset()),
            sorted_by(r@, leq),
            r.len() > 0 && i < a.len() ==> leq(r@.last(), a@[i as int]),
            r.len() > 0 && j < b.len() ==> leq(r@.last(), b@[j as int]),
        decreases a.len() + b.len() - i - j,
    {
        let take_a = if i < a.len() && j < b.len() {
            let ka = key(&a[i]);
            let kb = key(&b[j]);
            le3_exec(ka, kb)
        } else {
            i < a.len()
        };
        let ghost old_r = r@;
        if take_a {
            let x = a[i];
            r.push(x);
            assert(a@.take(i + 1) == a@.take(i as int).push(x));
            assert(r@ == old_r.push(x));
            proof {
                a@.take(i as int).to_multiset_ensures();
                old_r.to_multiset_ensures();
            }
            assert(a@.take(i as int).push(x).to_multiset() =~= a@.take(i as int).to_multiset().insert(x));
            assert(old_r.push(x).to_multiset() =~= old_r.to_multiset().insert(x));
            assert(a@.take(i + 1).to_multiset() =~= a@.take(i as int).to_multiset().insert(x));
            assert(r@.to_multiset() =~= old_r.to_multiset().insert(x));
            assert(a@.take(i as int).to_multiset().insert(x).add(b@.take(j as int).to_multiset())
                =~= a@.take(i as int).to_multiset().add(b@.take(j as int).to_multiset()).insert(x));
            i += 1;
            if i < a.len() {
                assert(leq(a@[i - 1], a@[i as int]));
            }
        } else {
            let x = b[j];
            r.push(x);
            assert(b@.take(j + 1) == b@.take(j as int).push(x));
            assert(r@ == old_r.push(x));
            proof {
                b@.take(j as int).to_multiset_ensures();
                old_r.to_multiset_ensures();
            }
            assert(b@.take(j as int).push(x).to_multiset() =~= b@.take(j as int).to_multiset().insert(x));
            assert(old_r.push(x).to_multiset() =~= old_r.to_multiset().insert(x));
            assert(b@.take(j + 1).to_multiset() =~= b@.take(j as int).to_multiset().insert(x));
            assert(r@.to_multiset() =~= old_r.to_multiset().insert(x));
            assert(a@.take(i as int).to_multiset().add(b@.take(j as int).to_multiset().insert(x))
                =~= a@.take(i as int).to_multiset().add(b@.take(j as int).to_multiset()).insert(x));
            if i < a.len() {
                assert(!le3(k(a@[i as int]), k(b@[j as int])));
                assert(leq(b@[j as int], a@[i as int]));
            }
            j += 1;
            if j < b.len() {
                assert(leq(b@[j - 1], b@[j as int]));
            }
        }
        assert forall|p: int, q: int| 0 <= p < q < r@.len() implies #[trigger] leq(r@[p], r@[q]) by {
            if q == r@.len() - 1 && p < q {
                assert(leq(old_r[p], old_r.last()));
            }
        }
    }
    assert(a@.take(a.len() as int) == a@);
    assert(b@.take(b.len() as int) == b@);
    r
}

fn msort<T: Copy, F: Fn(&T) -> Key>(v: &Vec<T>, lo: usize, hi: usize, key: &F, Ghost(k): Ghost<spec_fn(T) -> Key>) -> (r: Vec<T>)
    requires
        computes(*key, k),
        lo <= hi <= v.len(),
    ensures
        r@.to_multiset() =~= v@.subrange(lo as int, hi as int).to_multiset(),
        sorted_by(r@, key_leq(k)),
    decreases hi - lo,
{
    broadcast use vstd::seq_lib::group_to_multiset_ensures;
    if hi - lo <= 1 {
        let mut r: Vec<T> = Vec::new();
        if hi > lo {
            r.push(v[lo]);
        }
        assert(r@ == v@.subrange(lo as int, hi as int));
        r
    } else {
        let mid = lo + (hi - lo) / 2;
        let left = msort(v, lo, mid, key, Ghost(k));
        let right = msort(v, mid, hi, key, Ghost(k));
        let r = merge(&left, &right, key, Ghost(k));
        assert(v@.subrange(lo as int, hi as int) == v@.subrange(lo as int, mid as int) + v@.subrange(mid as int, hi as int));
        proof {
            vstd::seq_lib::lemma_multiset_commutative(v@.subrange(lo as int, mid as int), v@.subrange(mid as int, hi as int));
        }
        r
    }
}

/// Sorts `v` by `key`: the result is `v`'s elements ordered by their keys,
/// which for an injective key is one sequence only.
pub fn sort_by_key<T: Copy, F: Fn(&T) -> Key>(v: &Vec<T>, key: &F, Ghost(k): Ghost<spec_fn(T) -> Key>) -> (r: Vec<T>)
    requires
        computes(*key, k),
        injective_key(k),
    ensures
        r@ == v@.sort_by(key_leq(k)),
        r@.to_multiset() == v@.to_multiset(),
        sorted_by(r@, key_leq(k)),
{
    let r = msort(v, 0, v.len(), key, Ghost(k));
    proof {
        assert(v@.subrange(0, v@.len() as int) == v@);
        lemma_key_total(k);
        v@.lemma_sort_by_ensures(key_leq(k));
        vstd::seq_lib::lemma_sorted_unique(r@, v@.sort_by(key_leq(k)), key_leq(k));
    }
    r
}

} // verus!
