//! The mathematical vocabulary shared by the sorting routines: orderings,
//! permutations, sortedness and stability.
use vstd::prelude::*;
use vstd::std_specs::cmp::{PartialOrdIs, PartialOrdSpec};

verus! {

/// `rel` is a strict weak ordering: irreflexive, transitive, and with a
/// transitive incomparability ("neither is less than the other").
pub open spec fn strict_weak_order<T>(rel: spec_fn(T, T) -> bool) -> bool {
    &&& forall|a: T| !(#[trigger] rel(a, a))
    &&& forall|a: T, b: T, c: T| #[trigger] rel(a, b) && #[trigger] rel(b, c) ==> rel(a, c)
    &&& forall|a: T, b: T, c: T|
        !#[trigger] rel(a, b) && !rel(b, a) && !#[trigger] rel(b, c) && !rel(c, b) ==> !rel(a, c)
            && !rel(c, a)
}

/// Every answer that the predicate `less` can give on `(a, b)` is `rel(a, b)`,
/// and `rel` is a strict weak ordering.
pub open spec fn orders_by<T, F: Fn(&T, &T) -> bool>(less: F, rel: spec_fn(T, T) -> bool) -> bool {
    &&& forall|a: T, b: T, r: bool| #[trigger] less.ensures((&a, &b), r) ==> r == rel(a, b)
    &&& strict_weak_order(rel)
}

/// The strict less-than of `T`'s own `PartialOrd`.
pub open spec fn natural_less<T: PartialOrd>() -> spec_fn(T, T) -> bool {
    |a: T, b: T| a.is_lt(&b)
}

/// `T`'s `PartialOrd` behaves as its specification says, and its less-than is
/// a strict weak ordering.
pub open spec fn natural_order_is_strict_weak<T: PartialOrd>() -> bool {
    &&& T::obeys_partial_cmp_spec()
    &&& strict_weak_order(natural_less::<T>())
}

/// `less` may be called on any pair of elements.
pub open spec fn callable_on_all<T, F: Fn(&T, &T) -> bool>(less: F) -> bool {
    forall|a: T, b: T| #[trigger] less.requires((&a, &b))
}

/// `p` lists each of `0 .. n` exactly once.
pub open spec fn is_permutation(p: Seq<int>, n: int) -> bool {
    &&& p.len() == n
    &&& forall|i: int| 0 <= i < n ==> 0 <= #[trigger] p[i] < n
    &&& forall|i: int, j: int| 0 <= i < j < n ==> #[trigger] p[i] != #[trigger] p[j]
}

/// `after` holds the elements of `before` moved around: the element at position
/// `i` of `after` is the one that stood at position `p[i]` of `before`.
pub open spec fn rearranges<T>(after: Seq<T>, before: Seq<T>, p: Seq<int>) -> bool {
    &&& after.len() == before.len()
    &&& is_permutation(p, before.len() as int)
    &&& forall|i: int| 0 <= i < after.len() ==> #[trigger] after[i] == before[p[i]]
}

/// No element of `s` is `rel`-less than an element before it.
pub open spec fn sorted_by<T>(s: Seq<T>, rel: spec_fn(T, T) -> bool) -> bool {
    forall|i: int, j: int| 0 <= i < j < s.len() ==> !rel(#[trigger] s[j], #[trigger] s[i])
}

/// Elements of `after` that are equivalent under `rel` came, by `p`, from
/// positions in the same relative order.
pub open spec fn ties_kept_in_order<T>(after: Seq<T>, p: Seq<int>, rel: spec_fn(T, T) -> bool) -> bool {
    forall|i: int, j: int|
        0 <= i < j < after.len() && !rel(#[trigger] after[i], #[trigger] after[j]) && !rel(after[j], after[i])
            ==> p[i] < p[j]
}

/// A strict weak ordering is negatively transitive: if `a < c`, every `b` is
/// above `a` or below `c`.
pub proof fn lemma_negative_transitive<T>(rel: spec_fn(T, T) -> bool, a: T, b: T, c: T)
    requires
        strict_weak_order(rel),
        rel(a, c),
    ensures
        rel(a, b) || rel(b, c),
{
    if !rel(a, b) && !rel(b, c) {
        if rel(b, a) {
            assert(rel(b, c));
        } else if rel(c, b) {
            assert(rel(a, b));
        }
    }
}

/// A strict weak ordering is asymmetric.
pub proof fn lemma_asymmetric<T>(rel: spec_fn(T, T) -> bool, a: T, b: T)
    requires
        strict_weak_order(rel),
        rel(a, b),
    ensures
        !rel(b, a),
{
    if rel(b, a) {
        assert(rel(a, a));
    }
}

/// Exchanging two positions of a rearrangement, together with the matching
/// entries of its permutation, gives a rearrangement again.
pub(crate) proof fn lemma_swap_rearranges<T>(s: Seq<T>, before: Seq<T>, p: Seq<int>, i: int, j: int)
    requires
        rearranges(s, before, p),
        0 <= i < j < s.len(),
    ensures
        rearranges(
            s.update(i, s[j]).update(j, s[i]),
            before,
            p.update(i, p[j]).update(j, p[i]),
        ),
{
    let q = p.update(i, p[j]).update(j, p[i]);
    let n = s.len() as int;
    assert forall|a: int, b: int| 0 <= a < b < n implies #[trigger] q[a] != #[trigger] q[b] by {
        let pa = if a == i { j } else if a == j { i } else { a };
        let pb = if b == i { j } else if b == j { i } else { b };
        assert(q[a] == p[pa] && q[b] == p[pb]);
        if pa < pb {
            assert(p[pa] != p[pb]);
        } else {
            assert(p[pb] != p[pa]);
        }
    }
}

/// A permutation that only ever increases is the identity.
proof fn lemma_increasing_permutation_is_identity(p: Seq<int>, n: int)
    requires
        is_permutation(p, n),
        forall|i: int, j: int| 0 <= i < j < n ==> #[trigger] p[i] < #[trigger] p[j],
    ensures
        forall|k: int| 0 <= k < n ==> #[trigger] p[k] == k,
    decreases n,
{
    if n > 0 {
        let q = p.subrange(0, n - 1);
        assert forall|k: int| 0 <= k < n - 1 implies 0 <= #[trigger] q[k] < n - 1 by {
            assert(p[k] < p[n - 1]);
        }
        assert forall|i: int, j: int| 0 <= i < j < n - 1 implies #[trigger] q[i] < #[trigger] q[j] by {
            assert(p[i] < p[j]);
        }
        lemma_increasing_permutation_is_identity(q, n - 1);
        if n > 1 {
            assert(q[n - 2] == n - 2);
            assert(p[n - 2] < p[n - 1]);
        }
        assert forall|k: int| 0 <= k < n implies #[trigger] p[k] == k by {
            if k < n - 1 {
                assert(q[k] == p[k]);
            }
        }
    }
}

/// Sorting is idempotent: a stable rearrangement of a sequence that is
/// already sorted, which is itself sorted, is that same sequence.
pub proof fn lemma_stable_sort_of_sorted<T>(after: Seq<T>, before: Seq<T>, p: Seq<int>, rel: spec_fn(T, T) -> bool)
    requires
        strict_weak_order(rel),
        rearranges(after, before, p),
        sorted_by(after, rel),
        ties_kept_in_order(after, p, rel),
        sorted_by(before, rel),
    ensures
        after == before,
{
    let n = before.len() as int;
    assert forall|i: int, j: int| 0 <= i < j < n implies #[trigger] p[i] < #[trigger] p[j] by {
        assert(after[i] == before[p[i]] && after[j] == before[p[j]]);
        if p[j] < p[i] {
            assert(!rel(before[p[i]], before[p[j]]));
        }
    }
    lemma_increasing_permutation_is_identity(p, n);
    assert forall|k: int| 0 <= k < n implies #[trigger] after[k] == before[k] by {
        assert(after[k] == before[p[k]]);
    }
    assert(after =~= before);
}

/// A rearrangement of a sequence of at most one element is that sequence.
pub proof fn lemma_permutation_of_small<T>(after: Seq<T>, before: Seq<T>, p: Seq<int>)
    requires
        rearranges(after, before, p),
        before.len() <= 1,
    ensures
        after == before,
{
    if before.len() == 1 {
        assert(after[0] == before[p[0]]);
    }
    assert(after =~= before);
}

/// Exchanges the elements at positions `i` and `j`.
pub(crate) fn swap_elems<T>(s: &mut [T], i: usize, j: usize)
    requires
        i < j < old(s)@.len(),
    ensures
        final(s)@ == old(s)@.update(i as int, old(s)@[j as int]).update(j as int, old(s)@[i as int]),
{
    let (head, tail) = s.split_at_mut(j);
    let (_, from_i) = head.split_at_mut(i);
    let a = from_i.first_mut().unwrap();
    let b = tail.first_mut().unwrap();
    core::mem::swap(a, b);
}

} // verus!
