//! Stable top-down merge sort.
//!
//! Elements of a borrowed slice cannot be moved out without leaving something
//! in their place, and they need be neither `Clone` nor `Default`. So the
//! merge passes run over a buffer of positions: `order[t]` names the element
//! that belongs at `t`, and one auxiliary buffer of the same length receives
//! each merge before it is copied back. Once `order` is sorted, every element
//! is moved to its place by swaps.
use vstd::prelude::*;
use vstd::std_specs::cmp::{PartialOrdIs, PartialOrdSpec};
use crate::order::{
    callable_on_all, lemma_asymmetric, lemma_negative_transitive, lemma_permutation_of_small,
    lemma_stable_sort_of_sorted, natural_less, natural_order_is_strict_weak, orders_by, rearranges,
    sorted_by, strict_weak_order, swap_elems, ties_kept_in_order,
};

verus! {

/// Under `rel`, the element at position `x` of `s` goes before the one at
/// position `y`: it is less, or they are equivalent and `x` comes first.
spec fn precedes<T>(s: Seq<T>, rel: spec_fn(T, T) -> bool, x: int, y: int) -> bool {
    rel(s[x], s[y]) || (!rel(s[y], s[x]) && x < y)
}

/// The positions `order[lo .. hi]` name elements of `s` in stable sorted order.
spec fn run_sorted<T>(s: Seq<T>, order: Seq<usize>, lo: int, hi: int, rel: spec_fn(T, T) -> bool) -> bool {
    forall|a: int, b: int|
        lo <= a < b < hi ==> precedes(s, rel, #[trigger] order[a] as int, #[trigger] order[b] as int)
}

/// `order[lo .. hi]` lists distinct positions, each in `lo .. hi`.
spec fn holds_positions(order: Seq<usize>, lo: int, hi: int) -> bool {
    &&& forall|t: int| lo <= t < hi ==> lo <= #[trigger] order[t] < hi
    &&& forall|a: int, b: int| lo <= a < b < hi ==> #[trigger] order[a] != #[trigger] order[b]
}

/// What a merge has written to `out[lo .. k]` is in order, and goes before
/// every position still waiting in `o[i .. mid]` and `o[j .. hi]`.
spec fn merge_progress<T>(
    s: Seq<T>,
    o: Seq<usize>,
    out: Seq<usize>,
    lo: int,
    i: int,
    mid: int,
    j: int,
    hi: int,
    k: int,
    rel: spec_fn(T, T) -> bool,
) -> bool {
    &&& run_sorted(s, out, lo, k, rel)
    &&& forall|t: int, m: int|
        lo <= t < k && (i <= m < mid || j <= m < hi) ==> precedes(s, rel, #[trigger] out[t] as int, #[trigger] o[m] as int)
}

/// `precedes` is transitive for a strict weak ordering.
proof fn lemma_precedes_transitive<T>(s: Seq<T>, rel: spec_fn(T, T) -> bool, x: int, y: int, z: int)
    requires
        strict_weak_order(rel),
        precedes(s, rel, x, y),
        precedes(s, rel, y, z),
    ensures
        precedes(s, rel, x, z),
{
    if rel(s[x], s[y]) {
        lemma_negative_transitive(rel, s[x], s[z], s[y]);
    } else if rel(s[y], s[z]) {
        lemma_negative_transitive(rel, s[y], s[x], s[z]);
    }
}

/// Taking the head of the left run keeps a merge in order, when the right run
/// is exhausted or its head is not less.
proof fn lemma_merge_take_left<T>(
    s: Seq<T>,
    o: Seq<usize>,
    out: Seq<usize>,
    lo: int,
    i: int,
    mid: int,
    j: int,
    hi: int,
    k: int,
    rel: spec_fn(T, T) -> bool,
)
    requires
        strict_weak_order(rel),
        0 <= lo <= i < mid <= j <= hi <= o.len() == out.len(),
        lo <= k < hi,
        holds_positions(o, lo, mid),
        holds_positions(o, mid, hi),
        o.len() == s.len(),
        run_sorted(s, o, lo, mid, rel),
        run_sorted(s, o, mid, hi, rel),
        merge_progress(s, o, out, lo, i, mid, j, hi, k, rel),
        j == hi || !rel(s[o[j] as int], s[o[i] as int]),
    ensures
        merge_progress(s, o, out.update(k, o[i]), lo, i + 1, mid, j, hi, k + 1, rel),
{
    let x = o[i] as int;
    let next = out.update(k, o[i]);
    if j < hi {
        assert(x < o[j]);
        assert(precedes(s, rel, x, o[j] as int));
    }
    assert forall|m: int| (i + 1 <= m < mid || j <= m < hi) implies precedes(s, rel, x, #[trigger] o[m] as int) by {
        if m > j {
            lemma_precedes_transitive(s, rel, x, o[j] as int, o[m] as int);
        }
    }
    assert forall|t: int, m: int| lo <= t < k + 1 && (i + 1 <= m < mid || j <= m < hi) implies precedes(
        s,
        rel,
        #[trigger] next[t] as int,
        #[trigger] o[m] as int,
    ) by {
        if t < k {
            assert(next[t] == out[t]);
        }
    }
    assert forall|a: int, b: int| lo <= a < b < k + 1 implies precedes(s, rel, #[trigger] next[a] as int, #[trigger] next[b] as int) by {
        assert(next[a] == out[a]);
        if b == k {
            assert(precedes(s, rel, out[a] as int, o[i] as int));
        } else {
            assert(next[b] == out[b]);
        }
    }
}

/// Taking the head of the right run keeps a merge in order, when the left run
/// is exhausted or the right head is less than the left head.
proof fn lemma_merge_take_right<T>(
    s: Seq<T>,
    o: Seq<usize>,
    out: Seq<usize>,
    lo: int,
    i: int,
    mid: int,
    j: int,
    hi: int,
    k: int,
    rel: spec_fn(T, T) -> bool,
)
    requires
        strict_weak_order(rel),
        0 <= lo <= i <= mid <= j < hi <= o.len() == out.len(),
        lo <= k < hi,
        holds_positions(o, lo, mid),
        holds_positions(o, mid, hi),
        o.len() == s.len(),
        run_sorted(s, o, lo, mid, rel),
        run_sorted(s, o, mid, hi, rel),
        merge_progress(s, o, out, lo, i, mid, j, hi, k, rel),
        i == mid || rel(s[o[j] as int], s[o[i] as int]),
    ensures
        merge_progress(s, o, out.update(k, o[j]), lo, i, mid, j + 1, hi, k + 1, rel),
{
    let x = o[j] as int;
    let next = out.update(k, o[j]);
    assert forall|m: int| (i <= m < mid || j + 1 <= m < hi) implies precedes(s, rel, x, #[trigger] o[m] as int) by {
        if i <= m < mid && m > i {
            lemma_precedes_transitive(s, rel, x, o[i] as int, o[m] as int);
        }
    }
    assert forall|t: int, m: int| lo <= t < k + 1 && (i <= m < mid || j + 1 <= m < hi) implies precedes(
        s,
        rel,
        #[trigger] next[t] as int,
        #[trigger] o[m] as int,
    ) by {
        if t < k {
            assert(next[t] == out[t]);
        }
    }
    assert forall|a: int, b: int| lo <= a < b < k + 1 implies precedes(s, rel, #[trigger] next[a] as int, #[trigger] next[b] as int) by {
        assert(next[a] == out[a]);
        if b == k {
            assert(precedes(s, rel, out[a] as int, o[j] as int));
        } else {
            assert(next[b] == out[b]);
        }
    }
}

/// Merges the adjacent sorted runs `order[lo .. mid]` and `order[mid .. hi]`
/// through `scratch`. The head of the right run goes first only when its
/// element is strictly less than that of the left head, so ties keep the
/// left, earlier, element first.
fn do_merge<T, F: Fn(&T, &T) -> bool>(
    slice: &[T],
    order: &mut Vec<usize>,
    scratch: &mut Vec<usize>,
    lo: usize,
    mid: usize,
    hi: usize,
    less: &F,
)
    requires
        callable_on_all(*less),
        lo <= mid <= hi <= old(order)@.len(),
        old(scratch)@.len() == old(order)@.len(),
        slice@.len() == old(order)@.len(),
        holds_positions(old(order)@, lo as int, mid as int),
        holds_positions(old(order)@, mid as int, hi as int),
        forall|rel: spec_fn(T, T) -> bool|
            #[trigger] orders_by(*less, rel) ==> run_sorted(slice@, old(order)@, lo as int, mid as int, rel)
                && run_sorted(slice@, old(order)@, mid as int, hi as int, rel),
    ensures
        final(order)@.len() == old(order)@.len(),
        final(scratch)@.len() == old(scratch)@.len(),
        forall|t: int|
            0 <= t < old(order)@.len() && !(lo <= t < hi) ==> #[trigger] final(order)@[t] == old(order)@[t],
        holds_positions(final(order)@, lo as int, hi as int),
        forall|rel: spec_fn(T, T) -> bool|
            #[trigger] orders_by(*less, rel) ==> run_sorted(slice@, final(order)@, lo as int, hi as int, rel),
{
    let ghost o = order@;
    let ghost s = slice@;
    let ghost mut src: Seq<int> = Seq::new(o.len(), |t: int| 0int);
    let mut i: usize = lo;
    let mut j: usize = mid;
    let mut k: usize = lo;
    while k < hi
        invariant
            lo <= i <= mid <= j <= hi <= o.len(),
            k - lo == (i - lo) + (j - mid),
            order@ == o,
            s == slice@,
            scratch@.len() == o.len(),
            src.len() == o.len(),
            s.len() == o.len(),
            callable_on_all(*less),
            holds_positions(o, lo as int, mid as int),
            holds_positions(o, mid as int, hi as int),
            forall|rel: spec_fn(T, T) -> bool|
                #[trigger] orders_by(*less, rel) ==> run_sorted(s, o, lo as int, mid as int, rel) && run_sorted(
                    s,
                    o,
                    mid as int,
                    hi as int,
                    rel,
                ),
            forall|t: int| lo <= t < k ==> (lo <= #[trigger] src[t] < i || mid <= src[t] < j),
            forall|t: int| lo <= t < k ==> #[trigger] scratch@[t] == o[src[t]],
            forall|a: int, b: int| lo <= a < b < k ==> #[trigger] src[a] != #[trigger] src[b],
            forall|rel: spec_fn(T, T) -> bool|
                #[trigger] orders_by(*less, rel) ==> merge_progress(
                    s,
                    o,
                    scratch@,
                    lo as int,
                    i as int,
                    mid as int,
                    j as int,
                    hi as int,
                    k as int,
                    rel,
                ),
        decreases hi - k,
    {
        let take_right = if i == mid {
            true
        } else if j == hi {
            false
        } else {
            less(&slice[order[j]], &slice[order[i]])
        };
        let ghost before = scratch@;
        if take_right {
            scratch[k] = order[j];
            proof {
                assert forall|rel: spec_fn(T, T) -> bool| #[trigger] orders_by(*less, rel) implies merge_progress(
                    s,
                    o,
                    scratch@,
                    lo as int,
                    i as int,
                    mid as int,
                    j + 1,
                    hi as int,
                    k + 1,
                    rel,
                ) by {
                    lemma_merge_take_right(
                        s,
                        o,
                        before,
                        lo as int,
                        i as int,
                        mid as int,
                        j as int,
                        hi as int,
                        k as int,
                        rel,
                    );
                }
                src = src.update(k as int, j as int);
            }
            j = j + 1;
        } else {
            scratch[k] = order[i];
            proof {
                assert forall|rel: spec_fn(T, T) -> bool| #[trigger] orders_by(*less, rel) implies merge_progress(
                    s,
                    o,
                    scratch@,
                    lo as int,
                    i + 1,
                    mid as int,
                    j as int,
                    hi as int,
                    k + 1,
                    rel,
                ) by {
                    lemma_merge_take_left(
                        s,
                        o,
                        before,
                        lo as int,
                        i as int,
                        mid as int,
                        j as int,
                        hi as int,
                        k as int,
                        rel,
                    );
                }
                src = src.update(k as int, i as int);
            }
            i = i + 1;
        }
        k = k + 1;
    }
    proof {
        let sc = scratch@;
        assert forall|a: int, b: int| lo <= a < b < hi implies #[trigger] sc[a] != #[trigger] sc[b] by {
            let x = src[a];
            let y = src[b];
            if x < y {
                assert(o[x] != o[y]);
            } else {
                assert(o[y] != o[x]);
            }
        }
    }
    let mut t: usize = lo;
    while t < hi
        invariant
            lo <= t <= hi <= o.len(),
            order@.len() == o.len(),
            scratch@.len() == o.len(),
            holds_positions(scratch@, lo as int, hi as int),
            forall|u: int| 0 <= u < o.len() && !(lo <= u < t) ==> #[trigger] order@[u] == o[u],
            forall|u: int| lo <= u < t ==> #[trigger] order@[u] == scratch@[u],
            forall|rel: spec_fn(T, T) -> bool|
                #[trigger] orders_by(*less, rel) ==> run_sorted(s, scratch@, lo as int, hi as int, rel),
        decreases hi - t,
    {
        order[t] = scratch[t];
        t = t + 1;
    }
    proof {
        let out = order@;
        assert forall|u: int| lo <= u < hi implies #[trigger] out[u] == scratch@[u] by {}
        assert forall|rel: spec_fn(T, T) -> bool| #[trigger] orders_by(*less, rel) implies run_sorted(
            s,
            out,
            lo as int,
            hi as int,
            rel,
        ) by {
            assert(run_sorted(s, scratch@, lo as int, hi as int, rel));
            assert forall|a: int, b: int| lo <= a < b < hi implies precedes(s, rel, #[trigger] out[a] as int, #[trigger] out[b] as int) by {
                assert(out[a] == scratch@[a] && out[b] == scratch@[b]);
            }
        }
        assert forall|a: int, b: int| lo <= a < b < hi implies #[trigger] out[a] != #[trigger] out[b] by {
            assert(out[a] == scratch@[a] && out[b] == scratch@[b]);
        }
        assert forall|u: int| lo <= u < hi implies lo <= #[trigger] out[u] < hi by {
            assert(out[u] == scratch@[u]);
        }
    }
}

/// Sorts the positions `order[lo .. hi]`, which start out as `lo .. hi` in
/// turn, by splitting the range at its midpoint, sorting both halves and
/// merging them.
fn do_merge_sort<T, F: Fn(&T, &T) -> bool>(
    slice: &[T],
    order: &mut Vec<usize>,
    scratch: &mut Vec<usize>,
    lo: usize,
    hi: usize,
    less: &F,
)
    requires
        callable_on_all(*less),
        lo <= hi <= old(order)@.len(),
        old(scratch)@.len() == old(order)@.len(),
        slice@.len() == old(order)@.len(),
        forall|t: int| lo <= t < hi ==> #[trigger] old(order)@[t] == t,
    ensures
        final(order)@.len() == old(order)@.len(),
        final(scratch)@.len() == old(scratch)@.len(),
        forall|t: int|
            0 <= t < old(order)@.len() && !(lo <= t < hi) ==> #[trigger] final(order)@[t] == old(order)@[t],
        holds_positions(final(order)@, lo as int, hi as int),
        forall|rel: spec_fn(T, T) -> bool|
            #[trigger] orders_by(*less, rel) ==> run_sorted(slice@, final(order)@, lo as int, hi as int, rel),
    decreases hi - lo,
{
    if hi - lo > 1 {
        let mid = lo + (hi - lo) / 2;
        do_merge_sort(slice, order, scratch, lo, mid, less);
        do_merge_sort(slice, order, scratch, mid, hi, less);
        do_merge(slice, order, scratch, lo, mid, hi, less);
    } else {
        proof {
            assert forall|rel: spec_fn(T, T) -> bool| #[trigger] orders_by(*less, rel) implies run_sorted(
                slice@,
                order@,
                lo as int,
                hi as int,
                rel,
            ) by {}
        }
    }
}

/// Moves every element to its place: afterwards position `k` holds the
/// element that stood at position `order[k]`. Each step is one swap, so no
/// element is ever copied.
fn rearrange<T>(slice: &mut [T], order: &Vec<usize>)
    requires
        order@.len() == old(slice)@.len(),
        holds_positions(order@, 0, order@.len() as int),
    ensures
        final(slice)@.len() == old(slice)@.len(),
        forall|k: int| 0 <= k < order@.len() ==> #[trigger] final(slice)@[k] == old(slice)@[order@[k] as int],
{
    let ghost s0 = slice@;
    let n = slice.len();
    // at[q]: where the element now at q started; place[e]: where the element
    // that started at e is now.
    let mut at: Vec<usize> = Vec::new();
    let mut place: Vec<usize> = Vec::new();
    let mut q: usize = 0;
    while q < n
        invariant
            n == s0.len(),
            q <= n,
            at@.len() == q,
            place@.len() == q,
            forall|u: int| 0 <= u < q ==> #[trigger] at@[u] == u,
            forall|u: int| 0 <= u < q ==> #[trigger] place@[u] == u,
        decreases n - q,
    {
        at.push(q);
        place.push(q);
        q = q + 1;
    }
    let mut k: usize = 0;
    while k < n
        invariant
            n == s0.len() == order@.len(),
            k <= n,
            slice@.len() == n,
            at@.len() == n,
            place@.len() == n,
            holds_positions(order@, 0, n as int),
            forall|u: int| 0 <= u < n ==> #[trigger] at@[u] < n,
            forall|u: int| 0 <= u < n ==> #[trigger] slice@[u] == s0[at@[u] as int],
            forall|e: int| 0 <= e < n ==> #[trigger] place@[e] < n,
            forall|e: int| 0 <= e < n ==> #[trigger] at@[place@[e] as int] == e,
            forall|u: int| 0 <= u < n ==> #[trigger] place@[at@[u] as int] == u,
            forall|u: int| 0 <= u < k ==> #[trigger] at@[u] == order@[u],
        decreases n - k,
    {
        let e = order[k];
        let q = place[e];
        proof {
            if q < k {
                assert(at@[q as int] == order@[q as int]);
                assert(order@[q as int] != order@[k as int]);
            }
        }
        if q != k {
            let ghost at0 = at@;
            let ghost place0 = place@;
            let d = at[k];
            swap_elems(slice, k, q);
            at[k] = e;
            at[q] = d;
            place[e] = k;
            place[d] = q;
            proof {
                assert(place0[d as int] == k);
                assert forall|u: int| 0 <= u < n implies #[trigger] place@[at@[u] as int] == u by {
                    if u != k && u != q {
                        assert(at@[u] == at0[u]);
                        assert(place0[at0[u] as int] == u);
                    }
                }
                assert forall|x: int| 0 <= x < n implies #[trigger] at@[place@[x] as int] == x by {
                    if x != e && x != d {
                        assert(place@[x] == place0[x]);
                        assert(at0[place0[x] as int] == x);
                    }
                }
            }
        }
        k = k + 1;
    }
}

/// Sorts `slice` in place by the strict less-than predicate `less`, keeping
/// equivalent elements in their original order, with O(n log n) comparisons
/// and one auxiliary buffer of the slice's length.
///
/// Whatever `less` answers, the result is a rearrangement of the input. For
/// every strict weak ordering that `less` decides, the result is sorted by it,
/// equivalent elements keep their relative order, and an input that is
/// already sorted is left as it is.
pub fn merge_sort_by<T>(slice: &mut [T], less: impl Fn(&T, &T) -> bool)
    requires
        callable_on_all(less),
    ensures
        exists|p: Seq<int>|
            #[trigger] rearranges(final(slice)@, old(slice)@, p) && forall|rel: spec_fn(T, T) -> bool|
                #[trigger] orders_by(less, rel) ==> sorted_by(final(slice)@, rel) && ties_kept_in_order(
                    final(slice)@,
                    p,
                    rel,
                ),
        forall|rel: spec_fn(T, T) -> bool|
            #[trigger] orders_by(less, rel) && sorted_by(old(slice)@, rel) ==> final(slice)@ == old(slice)@,
        old(slice)@.len() <= 1 ==> final(slice)@ == old(slice)@,
{
    let ghost s0 = slice@;
    let n = slice.len();
    let mut order: Vec<usize> = Vec::new();
    let mut scratch: Vec<usize> = Vec::new();
    let mut k: usize = 0;
    while k < n
        invariant
            n == s0.len(),
            k <= n,
            order@.len() == k,
            scratch@.len() == k,
            forall|u: int| 0 <= u < k ==> #[trigger] order@[u] == u,
        decreases n - k,
    {
        order.push(k);
        scratch.push(0);
        k = k + 1;
    }
    do_merge_sort(&*slice, &mut order, &mut scratch, 0, n, &less);
    let ghost sorted_order = order@;
    rearrange(slice, &order);
    proof {
        let s = slice@;
        let p = sorted_order.map_values(|v: usize| v as int);
        assert forall|a: int, b: int| 0 <= a < b < n implies #[trigger] p[a] != #[trigger] p[b] by {
            assert(sorted_order[a] != sorted_order[b]);
        }
        assert forall|u: int| 0 <= u < n implies #[trigger] s[u] == s0[p[u]] by {}
        assert(rearranges(s, s0, p));
        assert forall|rel: spec_fn(T, T) -> bool| #[trigger] orders_by(less, rel) implies sorted_by(s, rel)
            && ties_kept_in_order(s, p, rel) by {
            assert(run_sorted(s0, sorted_order, 0, n as int, rel));
            assert forall|a: int, b: int| 0 <= a < b < n implies !rel(#[trigger] s[b], #[trigger] s[a]) && (!rel(
                s[a],
                s[b],
            ) ==> p[a] < p[b]) by {
                assert(precedes(s0, rel, sorted_order[a] as int, sorted_order[b] as int));
                if rel(s[a], s[b]) {
                    lemma_asymmetric(rel, s[a], s[b]);
                }
            }
        }
        assert forall|rel: spec_fn(T, T) -> bool|
            #[trigger] orders_by(less, rel) && sorted_by(s0, rel) implies s == s0 by {
            lemma_stable_sort_of_sorted(s, s0, p, rel);
        }
        if s0.len() <= 1 {
            lemma_permutation_of_small(s, s0, p);
        }
    }
}

/// Sorts `slice` in place by `T`'s own less-than with a stable merge sort.
///
/// The result is always a rearrangement of the input; where `T`'s less-than is
/// a strict weak ordering it is sorted and stable, and a sorted input is left
/// as it is.
pub fn merge_sort<T: PartialOrd>(slice: &mut [T])
    ensures
        exists|p: Seq<int>|
            #[trigger] rearranges(final(slice)@, old(slice)@, p) && (natural_order_is_strict_weak::<T>() ==> sorted_by(
                final(slice)@,
                natural_less::<T>(),
            ) && ties_kept_in_order(final(slice)@, p, natural_less::<T>())),
        natural_order_is_strict_weak::<T>() && sorted_by(old(slice)@, natural_less::<T>()) ==> final(slice)@
            == old(slice)@,
        old(slice)@.len() <= 1 ==> final(slice)@ == old(slice)@,
{
    let less = |a: &T, b: &T| -> (r: bool)
        ensures
            T::obeys_partial_cmp_spec() ==> r == a.is_lt(b),
        { a < b };
    merge_sort_by(slice, less);
    proof {
        if natural_order_is_strict_weak::<T>() {
            assert(orders_by(less, natural_less::<T>()));
        }
    }
}

} // verus!
