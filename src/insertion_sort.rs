//! Stable insertion sort: each element is placed by binary search into the
//! sorted prefix before it, then rotated into its slot.
use vstd::prelude::*;
use vstd::std_specs::cmp::{PartialOrdIs, PartialOrdSpec};
use crate::order::{
    callable_on_all, lemma_asymmetric, natural_less, natural_order_is_strict_weak, lemma_negative_transitive, lemma_swap_rearranges, orders_by,
    lemma_permutation_of_small, lemma_stable_sort_of_sorted, rearranges, sorted_by, strict_weak_order,
    swap_elems, ties_kept_in_order,
};

verus! {

/// The first `end` elements of `s` are sorted by `rel`, and equivalent ones
/// among them came, by `p`, from positions in the same order.
spec fn prefix_sorted_stably<T>(s: Seq<T>, p: Seq<int>, end: int, rel: spec_fn(T, T) -> bool) -> bool {
    forall|a: int, b: int|
        0 <= a < b < end ==> !rel(#[trigger] s[b], #[trigger] s[a]) && (!rel(s[a], s[b]) ==> p[a] < p[b])
}

/// Returns the first position of `slice` at which `element` can be inserted
/// after every element that it is not less than: for a sorted `slice`, all
/// elements before the slot are not above `element`, and all from the slot on are.
fn find_slot<T, F: Fn(&T, &T) -> bool>(slice: &[T], element: &T, less: &F) -> (slot: usize)
    requires
        callable_on_all(*less),
    ensures
        slot <= slice@.len(),
        forall|rel: spec_fn(T, T) -> bool|
            #[trigger] orders_by(*less, rel) && sorted_by(slice@, rel) ==> {
                &&& forall|k: int| 0 <= k < slot ==> !rel(*element, #[trigger] slice@[k])
                &&& forall|k: int| slot <= k < slice@.len() ==> rel(*element, #[trigger] slice@[k])
            },
{
    let mut lo: usize = 0;
    let mut hi: usize = slice.len();
    while lo < hi
        invariant
            lo <= hi <= slice@.len(),
            callable_on_all(*less),
            forall|rel: spec_fn(T, T) -> bool|
                #[trigger] orders_by(*less, rel) && sorted_by(slice@, rel) ==> {
                    &&& forall|k: int| 0 <= k < lo ==> !rel(*element, #[trigger] slice@[k])
                    &&& forall|k: int| hi <= k < slice@.len() ==> rel(*element, #[trigger] slice@[k])
                },
        decreases hi - lo,
    {
        let mid = lo + (hi - lo) / 2;
        let above = less(element, &slice[mid]);
        proof {
            let s = slice@;
            let e = *element;
            assert forall|rel: spec_fn(T, T) -> bool|
                #[trigger] orders_by(*less, rel) && sorted_by(s, rel) implies {
                    &&& forall|k: int| 0 <= k < (if above { lo as int } else { mid + 1 }) ==> !rel(e, #[trigger] s[k])
                    &&& forall|k: int| (if above { mid as int } else { hi as int }) <= k < s.len() ==> rel(e, #[trigger] s[k])
                } by {
                assert(above == rel(e, s[mid as int]));
                if above {
                    assert forall|k: int| mid <= k < s.len() implies rel(e, #[trigger] s[k]) by {
                        if k > mid {
                            lemma_negative_transitive(rel, e, s[k], s[mid as int]);
                        }
                    }
                } else {
                    assert forall|k: int| 0 <= k < mid + 1 implies !rel(e, #[trigger] s[k]) by {
                        if k < mid && rel(e, s[k]) {
                            lemma_negative_transitive(rel, e, s[mid as int], s[k]);
                        }
                    }
                }
            }
        }
        if above {
            hi = mid;
        } else {
            lo = mid + 1;
        }
    }
    lo
}

/// Moving the element at `i` into `slot` of a sorted prefix `[0, i)`, where
/// `slot` is past every element that it is not less than, extends the sorted
/// prefix by one.
proof fn lemma_insert_extends<T>(
    sa: Seq<T>,
    pa: Seq<int>,
    sn: Seq<T>,
    pn: Seq<int>,
    slot: int,
    i: int,
    rel: spec_fn(T, T) -> bool,
)
    requires
        strict_weak_order(rel),
        0 <= slot <= i < sa.len(),
        sn.len() == sa.len(),
        pn.len() == pa.len() == sa.len(),
        prefix_sorted_stably(sa, pa, i, rel),
        forall|m: int| 0 <= m < i ==> #[trigger] pa[m] < i,
        pa[i] == i,
        forall|k: int| 0 <= k < slot ==> !rel(sa[i], #[trigger] sa[k]),
        forall|k: int| slot <= k < i ==> rel(sa[i], #[trigger] sa[k]),
        forall|m: int| 0 <= m < slot ==> #[trigger] sn[m] == sa[m],
        forall|m: int| 0 <= m < slot ==> #[trigger] pn[m] == pa[m],
        sn[slot] == sa[i],
        pn[slot] == pa[i],
        forall|m: int| slot < m <= i ==> #[trigger] sn[m] == sa[m - 1],
        forall|m: int| slot < m <= i ==> #[trigger] pn[m] == pa[m - 1],
    ensures
        prefix_sorted_stably(sn, pn, i + 1, rel),
{
    assert forall|a: int, b: int| 0 <= a < b < i + 1 implies !rel(#[trigger] sn[b], #[trigger] sn[a]) && (
    !rel(sn[a], sn[b]) ==> pn[a] < pn[b]) by {
        let oa = if a < slot { a } else if a == slot { i } else { a - 1 };
        let ob = if b < slot { b } else if b == slot { i } else { b - 1 };
        assert(sn[a] == sa[oa]);
        assert(pn[a] == pa[oa]);
        assert(sn[b] == sa[ob]);
        assert(pn[b] == pa[ob]);
        if a == slot {
            assert(rel(sa[i], sa[ob]));
            lemma_asymmetric(rel, sa[i], sa[ob]);
        } else if b == slot {
            assert(!rel(sa[i], sa[oa]));
        } else {
            assert(oa < ob);
        }
    }
}

/// Sorts `slice` in place by the strict less-than predicate `less`, keeping
/// equivalent elements in their original order.
///
/// Whatever `less` answers, the result is a rearrangement of the input. For
/// every strict weak ordering that `less` decides, the result is sorted by it,
/// equivalent elements keep their relative order, and an input that is
/// already sorted is left as it is.
pub fn insertion_sort_by<T>(slice: &mut [T], less: impl Fn(&T, &T) -> bool)
    requires
        callable_on_all(less),
    ensures
        exists|p: Seq<int>|
            #[trigger] rearranges(final(slice)@, old(slice)@, p) && forall|rel: spec_fn(T, T) -> bool|
                #[trigger] orders_by(less, rel) ==> sorted_by(final(slice)@, rel) && ties_kept_in_order(
                    final(slice)@,
                    p,
                    rel,
                ),
        forall|rel: spec_fn(T, T) -> bool|
            #[trigger] orders_by(less, rel) && sorted_by(old(slice)@, rel) ==> final(slice)@ == old(slice)@,
        old(slice)@.len() <= 1 ==> final(slice)@ == old(slice)@,
{
    let ghost s0 = slice@;
    let ghost mut p: Seq<int> = Seq::new(s0.len(), |m: int| m);
    let len = slice.len();
    let mut i: usize = 0;
    while i < len
        invariant
            callable_on_all(less),
            len == s0.len(),
            0 <= i <= len,
            rearranges(slice@, s0, p),
            forall|m: int| i <= m < len ==> #[trigger] p[m] == m,
            forall|m: int| 0 <= m < i ==> #[trigger] p[m] < i,
            forall|rel: spec_fn(T, T) -> bool|
                #[trigger] orders_by(less, rel) ==> prefix_sorted_stably(slice@, p, i as int, rel),
        decreases len - i,
    {
        let slot = find_slot(&slice[0..i], &slice[i], &less);
        let ghost sa = slice@;
        let ghost pa = p;
        let mut k: usize = slot;
        while k < i
            invariant
                slot <= k <= i < len,
                slice@.len() == len,
                sa.len() == len,
                pa.len() == len,
                rearranges(slice@, s0, p),
                p.len() == len,
                forall|m: int| 0 <= m < slot ==> #[trigger] slice@[m] == sa[m],
                forall|m: int| 0 <= m < slot ==> #[trigger] p[m] == pa[m],
                forall|m: int| i < m < len ==> #[trigger] slice@[m] == sa[m],
                forall|m: int| i < m < len ==> #[trigger] p[m] == pa[m],
                forall|m: int| k <= m < i ==> #[trigger] slice@[m] == sa[m],
                forall|m: int| k <= m < i ==> #[trigger] p[m] == pa[m],
                forall|m: int| slot < m < k ==> #[trigger] slice@[m] == sa[m - 1],
                forall|m: int| slot < m < k ==> #[trigger] p[m] == pa[m - 1],
                k > slot ==> slice@[slot as int] == sa[i as int] && p[slot as int] == pa[i as int],
                k > slot ==> slice@[i as int] == sa[k - 1] && p[i as int] == pa[k - 1],
                k == slot ==> slice@[i as int] == sa[i as int] && p[i as int] == pa[i as int],
            decreases i - k,
        {
            proof {
                lemma_swap_rearranges(slice@, s0, p, k as int, i as int);
                p = p.update(k as int, p[i as int]).update(i as int, p[k as int]);
            }
            swap_elems(slice, k, i);
            k = k + 1;
        }
        proof {
            let sn = slice@;
            assert forall|m: int| i < m < len implies #[trigger] p[m] == m by {
                assert(pa[m] == m);
            }
            assert forall|m: int| 0 <= m <= i implies #[trigger] p[m] < i + 1 by {
                if m < slot {
                    assert(pa[m] < i);
                } else if m > slot {
                    assert(pa[m - 1] < i);
                } else if slot < i {
                    assert(pa[i as int] == i);
                } else {
                    assert(pa[i as int] == i);
                }
            }
            assert forall|rel: spec_fn(T, T) -> bool| #[trigger] orders_by(less, rel) implies prefix_sorted_stably(
                sn,
                p,
                i + 1,
                rel,
            ) by {
                let pre = sa.subrange(0, i as int);
                assert(pre.len() == i);
                assert(sorted_by(pre, rel));
                assert forall|m: int| 0 <= m < slot implies !rel(sa[i as int], #[trigger] sa[m]) by {
                    assert(pre[m] == sa[m]);
                }
                assert forall|m: int| slot <= m < i implies rel(sa[i as int], #[trigger] sa[m]) by {
                    assert(pre[m] == sa[m]);
                }
                lemma_insert_extends(sa, pa, sn, p, slot as int, i as int, rel);
            }
        }
        i = i + 1;
    }
    proof {
        let s = slice@;
        assert forall|rel: spec_fn(T, T) -> bool| #[trigger] orders_by(less, rel) implies sorted_by(s, rel)
            && ties_kept_in_order(s, p, rel) by {
            assert(prefix_sorted_stably(s, p, len as int, rel));
        }
        assert(rearranges(s, s0, p));
        assert forall|rel: spec_fn(T, T) -> bool|
            #[trigger] orders_by(less, rel) && sorted_by(s0, rel) implies s == s0 by {
            lemma_stable_sort_of_sorted(s, s0, p, rel);
        }
        if s0.len() <= 1 {
            lemma_permutation_of_small(s, s0, p);
        }
    }
}

/// Sorts `slice` in place by `T`'s own less-than, keeping equal elements in
/// their original order.
///
/// The result is always a rearrangement of the input; where `T`'s less-than is
/// a strict weak ordering it is sorted and stable, and a sorted input is left
/// as it is.
pub fn insertion_sort<T: PartialOrd>(slice: &mut [T])
    ensures
        exists|p: Seq<int>|
            #[trigger] rearranges(final(slice)@, old(slice)@, p) && (natural_order_is_strict_weak::<T>() ==> sorted_by(
                final(slice)@,
                natural_less::<T>(),
            ) && ties_kept_in_order(final(slice)@, p, natural_less::<T>())),
        natural_order_is_strict_weak::<T>() && sorted_by(old(slice)@, natural_less::<T>()) ==> final(slice)@
            == old(slice)@,
        old(slice)@.len() <= 1 ==> final(slice)@ == old(slice)@,
{
    let less = |a: &T, b: &T| -> (r: bool)
        ensures
            T::obeys_partial_cmp_spec() ==> r == a.is_lt(b),
        { a < b };
    insertion_sort_by(slice, less);
    proof {
        if natural_order_is_strict_weak::<T>() {
            assert(orders_by(less, natural_less::<T>()));
        }
    }
}

} // verus!
