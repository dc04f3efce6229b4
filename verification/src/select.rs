//! Quickselect: find the k-th smallest element of an unordered range.
//!
//! Quickselect has good average-case performance and is cache friendly; for
//! a top-K when K exceeds the square root of N its O(N) behaviour beats the
//! O(N log K) of heap-based selection.
use vstd::prelude::*;
use vstd::seq_lib::lemma_multiset_commutative;
use vstd::seq_lib::to_multiset_update;

verus! {

/// Swap two elements of a vector; the multiset of elements is unchanged.
fn swap_elems(data: &mut Vec<i64>, x: usize, y: usize)
    requires
        x < old(data)@.len(),
        y < old(data)@.len(),
    ensures
        final(data)@ == old(data)@.update(x as int, old(data)@[y as int]).update(
            y as int,
            old(data)@[x as int],
        ),
        final(data)@.len() == old(data)@.len(),
        final(data)@.to_multiset() == old(data)@.to_multiset(),
{
    let a = data[x];
    let b = data[y];
    data[x] = b;
    data[y] = a;
    proof {
        broadcast use vstd::seq_lib::group_to_multiset_ensures;
        broadcast use vstd::multiset::group_multiset_axioms;

        let s = old(data)@;
        to_multiset_update(s, x as int, s[y as int]);
        let s1 = s.update(x as int, s[y as int]);
        to_multiset_update(s1, y as int, s[x as int]);
        if x == y {
            assert(final(data)@ =~= s.update(x as int, s[y as int]).update(
                y as int,
                s[x as int],
            ));
        }
        assert(s.contains(s[x as int]));
        assert(s.contains(s[y as int]));
        assert(s1.update(y as int, s[x as int]).to_multiset() =~= s.to_multiset());
    }
}

/// When two equal-length sequences agree outside `[lo, hi)` and hold the
/// same multiset overall, they hold the same multiset on `[lo, hi)` too.
proof fn lemma_subrange_multiset(pre: Seq<i64>, post: Seq<i64>, lo: int, hi: int)
    requires
        pre.len() == post.len(),
        0 <= lo <= hi <= pre.len(),
        pre.to_multiset() == post.to_multiset(),
        forall|i: int| (0 <= i < lo || hi <= i < pre.len()) ==> pre[i] == post[i],
    ensures
        pre.subrange(lo, hi).to_multiset() == post.subrange(lo, hi).to_multiset(),
{
    broadcast use vstd::multiset::group_multiset_axioms;

    let n = pre.len() as int;
    let pa = pre.subrange(0, lo);
    let pb = pre.subrange(lo, hi);
    let pc = pre.subrange(hi, n);
    let qa = post.subrange(0, lo);
    let qb = post.subrange(lo, hi);
    let qc = post.subrange(hi, n);
    assert(pa =~= qa);
    assert(pc =~= qc);
    assert(pre =~= (pa + pb) + pc);
    assert(post =~= (qa + qb) + qc);
    lemma_multiset_commutative(pa + pb, pc);
    lemma_multiset_commutative(pa, pb);
    lemma_multiset_commutative(qa + qb, qc);
    lemma_multiset_commutative(qa, qb);
    assert forall|v: i64| pb.to_multiset().count(v) == qb.to_multiset().count(v) by {
        assert(pre.to_multiset().count(v) == pa.to_multiset().count(v) + pb.to_multiset().count(
            v,
        ) + pc.to_multiset().count(v));
        assert(post.to_multiset().count(v) == qa.to_multiset().count(v) + qb.to_multiset().count(
            v,
        ) + qc.to_multiset().count(v));
    }
    assert(pb.to_multiset() =~= qb.to_multiset());
}

/// After a range `[lo, hi)` has been rearranged in place, every element now
/// inside the range stood somewhere inside the range before.
proof fn lemma_range_elem_origin(pre: Seq<i64>, post: Seq<i64>, lo: int, hi: int, idx: int)
    requires
        pre.len() == post.len(),
        0 <= lo <= idx < hi <= pre.len(),
        pre.to_multiset() == post.to_multiset(),
        forall|i: int| (0 <= i < lo || hi <= i < pre.len()) ==> pre[i] == post[i],
    ensures
        exists|i0: int| lo <= i0 < hi && pre[i0] == post[idx],
{
    broadcast use vstd::seq_lib::group_to_multiset_ensures;

    lemma_subrange_multiset(pre, post, lo, hi);
    let pb = pre.subrange(lo, hi);
    let qb = post.subrange(lo, hi);
    assert(qb[idx - lo] == post[idx]);
    assert(qb.contains(post[idx]));
    assert(pb.to_multiset().count(post[idx]) > 0);
    assert(pb.contains(post[idx]));
    let j0 = choose|j0: int| 0 <= j0 < pb.len() && pb[j0] == post[idx];
    assert(pre[lo + j0] == post[idx]);
}

/// Selection of the k-th smallest element by repeated partitioning.
pub struct QuickSelect {}

impl QuickSelect {
    /// Lomuto partition over `data[left..=right]` with the pivot taken from
    /// `data[pivot]`: afterwards every element left of the returned position
    /// is strictly smaller than the pivot value, which stands at the
    /// returned position, and everything right of it is at least the pivot
    /// value. The elements are only rearranged, and only inside the range.
    /// A degenerate range (`left >= right` or an empty vector) is returned
    /// unchanged.
    pub fn partition(data: &mut Vec<i64>, left: usize, right: usize, pivot: usize) -> (r: usize)
        requires
            left < right ==> right < old(data)@.len() && left <= pivot <= right,
        ensures
            old(data)@.len() > 0 && left < right ==> {
                &&& left <= r <= right
                &&& final(data)@.len() == old(data)@.len()
                &&& final(data)@.to_multiset() == old(data)@.to_multiset()
                &&& forall|i: int|
                    (0 <= i < left || right < i < final(data)@.len())
                        ==> #[trigger] final(data)@[i] == old(data)@[i]
                &&& forall|i: int| left <= i < r ==> #[trigger] final(data)@[i] < final(data)@[
                    r as int]
                &&& forall|i: int| r < i <= right ==> #[trigger] final(data)@[i] >= final(data)@[
                    r as int]
                &&& final(data)@[r as int] == old(data)@[pivot as int]
            },
            !(old(data)@.len() > 0 && left < right) ==> r == left && final(data)@ == old(data)@,
    {
        if data.len() == 0 || left >= right {
            return left;
        }
        // Move the pivot to the end.
        swap_elems(data, pivot, right);
        let mut store = left;
        let mut i = left;
        while i < right
            invariant
                left <= store <= i <= right < data@.len(),
                data@.len() == old(data)@.len(),
                data@.to_multiset() == old(data)@.to_multiset(),
                forall|j: int|
                    (0 <= j < left || right < j < data@.len()) ==> #[trigger] data@[j] == old(
                        data,
                    )@[j],
                data@[right as int] == old(data)@[pivot as int],
                forall|j: int| left <= j < store ==> #[trigger] data@[j] < data@[right as int],
                forall|j: int| store <= j < i ==> #[trigger] data@[j] >= data@[right as int],
            decreases right - i,
        {
            if data[i] < data[right] {
                swap_elems(data, store, i);
                store = store + 1;
            }
            i = i + 1;
        }
        // Move the pivot to its final place.
        swap_elems(data, right, store);
        store
    }

    /// The k-th smallest element of `data[left..=right]`: the range is
    /// rearranged so that position `k` holds a value no smaller than any
    /// position at or left of `k` and no larger than any position at or
    /// right of `k` within the range; that value is returned. Elements are
    /// only rearranged, and only inside the range.
    pub fn select(data: &mut Vec<i64>, left: usize, right: usize, k: usize) -> (r: i64)
        requires
            left <= k <= right < old(data)@.len(),
        ensures
            final(data)@.len() == old(data)@.len(),
            final(data)@.to_multiset() == old(data)@.to_multiset(),
            forall|i: int|
                (0 <= i < left || right < i < final(data)@.len())
                    ==> #[trigger] final(data)@[i] == old(data)@[i],
            final(data)@[k as int] == r,
            forall|i: int| left <= i <= k ==> #[trigger] final(data)@[i] <= r,
            forall|i: int| k <= i <= right ==> #[trigger] final(data)@[i] >= r,
    {
        let mut l = left;
        let mut rt = right;
        while l < rt
            invariant
                left <= l <= k <= rt <= right < data@.len(),
                data@.len() == old(data)@.len(),
                data@.to_multiset() == old(data)@.to_multiset(),
                forall|i: int|
                    (0 <= i < left || right < i < data@.len()) ==> #[trigger] data@[i] == old(
                        data,
                    )@[i],
                forall|i: int, j: int|
                    left <= i < l && l <= j <= right ==> #[trigger] data@[i] <= #[trigger] data@[j],
                forall|i: int, j: int|
                    l <= i <= rt && rt < j <= right ==> #[trigger] data@[i] <= #[trigger] data@[j],
            decreases rt - l,
        {
            // Pivot at the middle of the current range.
            let mid = l + (rt - l) / 2;
            let ghost pre = data@;
            let p = Self::partition(data, l, rt, mid);
            proof {
                assert(l <= p <= rt);
                // each element now in [l, rt] stood in [l, rt] before the
                // partition, so the ordering against the outside is kept
                assert forall|i: int, j: int|
                    left <= i < l && l <= j <= right implies #[trigger] data@[i]
                    <= #[trigger] data@[j] by {
                    assert(data@[i] == pre[i]);
                    if j <= rt {
                        lemma_range_elem_origin(pre, data@, l as int, rt as int + 1, j);
                        let j0 = choose|j0: int|
                            l <= j0 < rt + 1 && pre[j0] == data@[j];
                        assert(pre[i] <= pre[j0]);
                    } else {
                        assert(data@[j] == pre[j]);
                    }
                }
                assert forall|i: int, j: int|
                    l <= i <= rt && rt < j <= right implies #[trigger] data@[i]
                    <= #[trigger] data@[j] by {
                    assert(data@[j] == pre[j]);
                    lemma_range_elem_origin(pre, data@, l as int, rt as int + 1, i);
                    let i0 = choose|i0: int| l <= i0 < rt + 1 && pre[i0] == data@[i];
                    assert(pre[i0] <= pre[j]);
                }
            }
            if k == p {
                proof {
                    assert forall|i: int| left <= i <= k implies #[trigger] data@[i] <= data@[
                    k as int] by {
                        if l <= i < k {
                            assert(data@[i] < data@[k as int]);
                        }
                    }
                    assert forall|i: int| k <= i <= right implies #[trigger] data@[i] >= data@[
                    k as int] by {
                        if k < i <= rt {
                            assert(data@[i] >= data@[k as int]);
                        }
                    }
                }
                return data[k];
            } else if k < p {
                proof {
                    assert forall|i: int, j: int|
                        l <= i <= p - 1 && p - 1 < j <= right implies #[trigger] data@[i]
                        <= #[trigger] data@[j] by {
                        assert(data@[i] < data@[p as int]);
                        if j <= rt {
                            if j > p {
                                assert(data@[j] >= data@[p as int]);
                            }
                        }
                    }
                }
                rt = p - 1;
            } else {
                proof {
                    assert forall|i: int, j: int|
                        left <= i < p + 1 && p + 1 <= j <= right implies #[trigger] data@[i]
                        <= #[trigger] data@[j] by {
                        if l <= i {
                            if i < p {
                                assert(data@[i] < data@[p as int]);
                            }
                            if j <= rt {
                                assert(data@[j] >= data@[p as int]);
                            }
                        }
                    }
                }
                l = p + 1;
            }
        }
        proof {
            assert(l == k && rt == k);
        }
        data[k]
    }
}

} // verus!
