//! Data-plane primitives for an analytical query engine: an unchained hash
//! table for equi-joins, a bounded ring queue, an Eytzinger-layout search
//! tree, and a quickselect utility.
use vstd::arithmetic::div_mod::lemma_fundamental_div_mod;
use vstd::arithmetic::div_mod::lemma_fundamental_div_mod_converse;
use vstd::arithmetic::div_mod::lemma_mod_bound;
use vstd::prelude::*;

pub mod nblfq;
pub mod sch;
pub mod select;

verus! {

/// The number of nodes in the subtree rooted at `k` of a complete binary
/// tree of `n` nodes laid out level by level (children of `k` at `2k + 1`
/// and `2k + 2`).
pub open spec fn subtree_size(n: int, k: int) -> nat
    decreases (if 0 <= k < n {
        n - k
    } else {
        0
    }),
{
    if 0 <= k < n {
        1 + subtree_size(n, 2 * k + 1) + subtree_size(n, 2 * k + 2)
    } else {
        0
    }
}

/// Where the in-order cursor stands after the subtree rooted at `k` has
/// been written, starting from `idx`: one step per node, stopping at the
/// end of the sorted input.
pub open spec fn eytz_idx(n: int, slen: int, k: int, idx: int) -> int
    decreases (if 0 <= k < n {
        n - k
    } else {
        0
    }),
{
    if 0 <= k < n {
        let i1 = eytz_idx(n, slen, 2 * k + 1, idx);
        let i2 = if i1 < slen {
            i1 + 1
        } else {
            i1
        };
        eytz_idx(n, slen, 2 * k + 2, i2)
    } else {
        idx
    }
}

/// The in-order write of a sorted sequence into the level-by-level layout,
/// mirroring the recursive build: left subtree first, then the node, then
/// the right subtree, consuming `sorted` from position `idx` on.
pub open spec fn eytz_write(n: int, data: Seq<i64>, sorted: Seq<i64>, k: int, idx: int) -> Seq<
    i64,
>
    decreases (if 0 <= k < n {
        n - k
    } else {
        0
    }),
{
    if 0 <= k < n {
        let dl = eytz_write(n, data, sorted, 2 * k + 1, idx);
        let mid = eytz_idx(n, sorted.len() as int, 2 * k + 1, idx);
        let dm = if mid < sorted.len() {
            dl.update(k, sorted[mid])
        } else {
            dl
        };
        eytz_write(
            n,
            dm,
            sorted,
            2 * k + 2,
            if mid < sorted.len() {
                mid + 1
            } else {
                mid
            },
        )
    } else {
        data
    }
}

/// The in-order cursor never runs backwards and never passes the end of
/// the sorted input.
proof fn lemma_eytz_idx_bound(n: int, slen: int, k: int, idx: int)
    requires
        0 <= idx <= slen,
    ensures
        idx <= eytz_idx(n, slen, k, idx) <= slen,
    decreases (if 0 <= k < n {
        n - k
    } else {
        0
    }),
{
    if 0 <= k < n {
        lemma_eytz_idx_bound(n, slen, 2 * k + 1, idx);
        let i1 = eytz_idx(n, slen, 2 * k + 1, idx);
        let i2 = if i1 < slen {
            i1 + 1
        } else {
            i1
        };
        lemma_eytz_idx_bound(n, slen, 2 * k + 2, i2);
    }
}

/// Writing a subtree never changes the length of the layout.
proof fn lemma_eytz_write_len(n: int, data: Seq<i64>, sorted: Seq<i64>, k: int, idx: int)
    requires
        n == data.len(),
    ensures
        eytz_write(n, data, sorted, k, idx).len() == data.len(),
    decreases (if 0 <= k < n {
        n - k
    } else {
        0
    }),
{
    if 0 <= k < n {
        lemma_eytz_write_len(n, data, sorted, 2 * k + 1, idx);
        let dl = eytz_write(n, data, sorted, 2 * k + 1, idx);
        let mid = eytz_idx(n, sorted.len() as int, 2 * k + 1, idx);
        let dm = if mid < sorted.len() {
            dl.update(k, sorted[mid])
        } else {
            dl
        };
        lemma_eytz_write_len(
            n,
            dm,
            sorted,
            2 * k + 2,
            if mid < sorted.len() {
                mid + 1
            } else {
                mid
            },
        );
    }
}


/// Whether `j` lies in the subtree rooted at `k`: either it is `k` itself
/// or its parent chain passes through `k`.
pub open spec fn in_subtree(k: int, j: int) -> bool
    decreases j,
{
    if k < 0 {
        false
    } else if j <= k {
        j == k
    } else {
        in_subtree(k, (j - 1) / 2)
    }
}

/// A subtree lies at or below its root index.
proof fn lemma_subtree_lower(k: int, j: int)
    requires
        in_subtree(k, j),
    ensures
        j >= k >= 0,
    decreases j,
{
    if j > k {
        lemma_subtree_lower(k, (j - 1) / 2);
    }
}

/// Subtree membership is transitive.
proof fn lemma_subtree_trans(a: int, b: int, c: int)
    requires
        in_subtree(a, b),
        in_subtree(b, c),
    ensures
        in_subtree(a, c),
    decreases c,
{
    lemma_subtree_lower(a, b);
    lemma_subtree_lower(b, c);
    if c != b {
        lemma_subtree_trans(a, b, (c - 1) / 2);
    }
}

/// A child's subtree is part of the parent's subtree.
proof fn lemma_subtree_child(k: int, j: int)
    requires
        k >= 0,
        in_subtree(2 * k + 1, j) || in_subtree(2 * k + 2, j),
    ensures
        in_subtree(k, j),
{
    lemma_fundamental_div_mod_converse(2 * k, 2, k, 0);
    lemma_fundamental_div_mod_converse(2 * k + 1, 2, k, 1);
    assert((2 * k) / 2 == k);
    assert((2 * k + 1) / 2 == k);
    assert(in_subtree(k, k));
    assert(2 * k + 1 - 1 == 2 * k);
    assert(in_subtree(k, 2 * k + 1));
    assert(in_subtree(k, 2 * k + 2));
    if in_subtree(2 * k + 1, j) {
        lemma_subtree_trans(k, 2 * k + 1, j);
    } else {
        lemma_subtree_trans(k, 2 * k + 2, j);
    }
}

/// A strict descendant lies in one of the two child subtrees.
proof fn lemma_subtree_decompose(k: int, j: int)
    requires
        k >= 0,
        in_subtree(k, j),
        j != k,
    ensures
        in_subtree(2 * k + 1, j) || in_subtree(2 * k + 2, j),
    decreases j,
{
    lemma_subtree_lower(k, j);
    let p = (j - 1) / 2;
    lemma_fundamental_div_mod(j - 1, 2);
    lemma_mod_bound(j - 1, 2);
    if p == k {
        assert(j == 2 * k + 1 || j == 2 * k + 2);
    } else {
        lemma_subtree_decompose(k, p);
        if in_subtree(2 * k + 1, p) {
            lemma_subtree_lower(2 * k + 1, p);
        } else {
            lemma_subtree_lower(2 * k + 2, p);
        }
    }
}

/// The two child subtrees of one node are disjoint.
proof fn lemma_sibling_disjoint(k: int, j: int)
    requires
        k >= 0,
    ensures
        !(in_subtree(2 * k + 1, j) && in_subtree(2 * k + 2, j)),
    decreases j,
{
    if in_subtree(2 * k + 1, j) && in_subtree(2 * k + 2, j) {
        lemma_subtree_lower(2 * k + 2, j);
        lemma_fundamental_div_mod_converse(2 * k, 2, k, 0);
        lemma_fundamental_div_mod_converse(2 * k + 1, 2, k, 1);
        if j == 2 * k + 2 {
            assert(in_subtree(2 * k + 1, k));
            lemma_subtree_lower(2 * k + 1, k);
        } else {
            lemma_sibling_disjoint(k, (j - 1) / 2);
        }
    }
}

/// Every index lies in the root's subtree.
proof fn lemma_root_all(j: int)
    requires
        j >= 0,
    ensures
        in_subtree(0, j),
    decreases j,
{
    if j > 0 {
        lemma_root_all((j - 1) / 2);
    }
}

/// Extending the layout by one node grows exactly the subtrees that
/// contain the new index.
proof fn lemma_size_grow(n: int, k: int)
    requires
        n >= 0,
        k >= 0,
    ensures
        subtree_size(n + 1, k) == subtree_size(n, k) + if in_subtree(k, n) {
            1int
        } else {
            0int
        },
    decreases (if k < n + 1 {
        n + 1 - k
    } else {
        0
    }),
{
    if k >= n + 1 {
        if in_subtree(k, n) {
            lemma_subtree_lower(k, n);
            assert(false);
        }
    } else if k == n {
        assert(subtree_size(n, k) == 0);
        assert(subtree_size(n + 1, 2 * k + 1) == 0);
        assert(subtree_size(n + 1, 2 * k + 2) == 0);
    } else {
        lemma_size_grow(n, 2 * k + 1);
        lemma_size_grow(n, 2 * k + 2);
        lemma_sibling_disjoint(k, n);
        if in_subtree(k, n) {
            lemma_subtree_decompose(k, n);
        }
        if in_subtree(2 * k + 1, n) || in_subtree(2 * k + 2, n) {
            lemma_subtree_child(k, n);
        }
    }
}

/// The root's subtree is the whole layout.
proof fn lemma_size_root(n: int)
    requires
        n >= 0,
    ensures
        subtree_size(n, 0) == n,
    decreases n,
{
    if n > 0 {
        lemma_size_root(n - 1);
        lemma_size_grow(n - 1, 0);
        lemma_root_all(n - 1);
    }
}

/// When a subtree's worth of input remains, the in-order cursor advances by
/// exactly the subtree size.
proof fn lemma_idx_is_size(n: int, slen: int, k: int, idx: int)
    requires
        0 <= idx,
        0 <= k,
        idx + subtree_size(n, k) <= slen,
    ensures
        eytz_idx(n, slen, k, idx) == idx + subtree_size(n, k),
    decreases (if 0 <= k < n {
        n - k
    } else {
        0
    }),
{
    if 0 <= k < n {
        lemma_idx_is_size(n, slen, 2 * k + 1, idx);
        let i1 = idx + subtree_size(n, 2 * k + 1);
        lemma_idx_is_size(n, slen, 2 * k + 2, i1 + 1);
    }
}


/// Non-decreasing order.
pub open spec fn sorted_seq(s: Seq<i64>) -> bool {
    forall|a: int, b: int| 0 <= a <= b < s.len() ==> s[a] <= s[b]
}

/// The search-tree ordering of a layout: under every node, the left
/// subtree holds no larger values and the right subtree no smaller ones.
pub open spec fn bst_ok(data: Seq<i64>) -> bool {
    &&& forall|k: int, j: int|
        #![trigger data[k], in_subtree(2 * k + 1, j)]
        0 <= k < data.len() && 0 <= j < data.len() && in_subtree(2 * k + 1, j) ==> data[j]
            <= data[k]
    &&& forall|k: int, j: int|
        #![trigger data[k], in_subtree(2 * k + 2, j)]
        0 <= k < data.len() && 0 <= j < data.len() && in_subtree(2 * k + 2, j) ==> data[j]
            >= data[k]
}

/// Writing a subtree of a sorted input in-order touches exactly the
/// subtree, draws its values from the consumed window of the input, and
/// orders every node of the subtree against its descendants.
proof fn lemma_write_bst(data: Seq<i64>, sorted: Seq<i64>, k: int, idx: int)
    requires
        data.len() == sorted.len(),
        sorted_seq(sorted),
        0 <= k,
        0 <= idx,
        idx + subtree_size(data.len() as int, k) <= sorted.len(),
    ensures
        ({
            let n = data.len() as int;
            let res = eytz_write(n, data, sorted, k, idx);
            &&& forall|j: int| 0 <= j < n && !in_subtree(k, j) ==> res[j] == data[j]
            &&& forall|j: int|
                0 <= j < n && #[trigger] in_subtree(k, j) ==> exists|t: int|
                    idx <= t < idx + subtree_size(n, k) && res[j] == sorted[t]
            &&& forall|k2: int, j: int|
                #![trigger in_subtree(k, k2), in_subtree(2 * k2 + 1, j)]
                in_subtree(k, k2) && 0 <= k2 < n && 0 <= j < n && in_subtree(2 * k2 + 1, j)
                    ==> res[j] <= res[k2]
            &&& forall|k2: int, j: int|
                #![trigger in_subtree(k, k2), in_subtree(2 * k2 + 2, j)]
                in_subtree(k, k2) && 0 <= k2 < n && 0 <= j < n && in_subtree(2 * k2 + 2, j)
                    ==> res[j] >= res[k2]
        }),
    decreases (if 0 <= k < data.len() {
        data.len() - k
    } else {
        0
    }),
{
    let n = data.len() as int;
    let res = eytz_write(n, data, sorted, k, idx);
    if !(k < n) {
        assert forall|j: int| 0 <= j < n && #[trigger] in_subtree(k, j) implies false by {
            lemma_subtree_lower(k, j);
        }
        assert(res == data);
    } else {
        let kl = 2 * k + 1;
        let kr = 2 * k + 2;
        let sl = subtree_size(n, kl) as int;
        let sr = subtree_size(n, kr) as int;
        lemma_write_bst(data, sorted, kl, idx);
        let dl = eytz_write(n, data, sorted, kl, idx);
        lemma_eytz_write_len(n, data, sorted, kl, idx);
        lemma_idx_is_size(n, n, kl, idx);
        let mid = idx + sl;
        assert(eytz_idx(n, sorted.len() as int, kl, idx) == mid);
        assert(mid < n);
        let dm = dl.update(k, sorted[mid]);
        lemma_write_bst(dm, sorted, kr, mid + 1);
        assert(res == eytz_write(n, dm, sorted, kr, mid + 1));
        assert(!in_subtree(kr, k) && !in_subtree(kl, k)) by {
            if in_subtree(kr, k) {
                lemma_subtree_lower(kr, k);
            }
            if in_subtree(kl, k) {
                lemma_subtree_lower(kl, k);
            }
        }
        assert(res[k] == sorted[mid]);
        // only the subtree is touched
        assert forall|j: int| 0 <= j < n && !in_subtree(k, j) implies res[j] == data[j] by {
            if in_subtree(kl, j) || in_subtree(kr, j) {
                lemma_subtree_child(k, j);
            }
            assert(dl[j] == data[j]);
            assert(j != k);
            assert(res[j] == dm[j]);
        }
        // every subtree value comes from the consumed window
        assert forall|j: int|
            0 <= j < n && #[trigger] in_subtree(k, j) implies exists|t: int|
            idx <= t < idx + subtree_size(n, k) && res[j] == sorted[t] by {
            if j == k {
                assert(idx <= mid < idx + subtree_size(n, k) && res[j] == sorted[mid]);
            } else {
                lemma_subtree_decompose(k, j);
                if in_subtree(kl, j) {
                    lemma_subtree_lower(kl, j);
                    lemma_sibling_disjoint(k, j);
                    let t = choose|t: int| idx <= t < idx + sl && dl[j] == sorted[t];
                    assert(res[j] == dm[j]);
                    assert(dm[j] == dl[j]);
                    assert(idx <= t < idx + subtree_size(n, k) && res[j] == sorted[t]);
                } else {
                    let t = choose|t: int|
                        mid + 1 <= t < mid + 1 + sr && res[j] == sorted[t];
                    assert(idx <= t < idx + subtree_size(n, k) && res[j] == sorted[t]);
                }
            }
        }
        // left descendants never exceed their ancestor
        assert forall|k2: int, j: int|
            in_subtree(k, k2) && 0 <= k2 < n && 0 <= j < n && in_subtree(
                2 * k2 + 1,
                j,
            ) implies res[j] <= res[k2] by {
            lemma_subtree_child(k2, j);
            if k2 == k {
                let t = choose|t: int| idx <= t < idx + sl && dl[j] == sorted[t];
                lemma_subtree_lower(kl, j);
                lemma_sibling_disjoint(k, j);
                assert(res[j] == dl[j]);
                assert(res[j] == sorted[t] && t < mid);
                assert(sorted[t] <= sorted[mid]);
            } else {
                lemma_subtree_decompose(k, k2);
                if in_subtree(kl, k2) {
                    lemma_subtree_trans(kl, k2, j);
                    lemma_subtree_lower(kl, k2);
                    lemma_subtree_lower(kl, j);
                    lemma_sibling_disjoint(k, k2);
                    lemma_sibling_disjoint(k, j);
                    assert(dl[j] <= dl[k2]);
                    assert(res[j] == dl[j] && res[k2] == dl[k2]);
                } else {
                    assert(in_subtree(kr, k2) && in_subtree(2 * k2 + 1, j));
                }
            }
        }
        // right descendants never undercut their ancestor
        assert forall|k2: int, j: int|
            in_subtree(k, k2) && 0 <= k2 < n && 0 <= j < n && in_subtree(
                2 * k2 + 2,
                j,
            ) implies res[j] >= res[k2] by {
            lemma_subtree_child(k2, j);
            if k2 == k {
                let t = choose|t: int|
                    mid + 1 <= t < mid + 1 + sr && res[j] == sorted[t];
                assert(res[j] == sorted[t] && t > mid);
                assert(sorted[mid] <= sorted[t]);
            } else {
                lemma_subtree_decompose(k, k2);
                if in_subtree(kl, k2) {
                    lemma_subtree_trans(kl, k2, j);
                    lemma_subtree_lower(kl, k2);
                    lemma_subtree_lower(kl, j);
                    lemma_sibling_disjoint(k, k2);
                    lemma_sibling_disjoint(k, j);
                    assert(dl[j] >= dl[k2]);
                    assert(res[j] == dl[j] && res[k2] == dl[k2]);
                } else {
                    assert(in_subtree(kr, k2) && in_subtree(2 * k2 + 2, j));
                }
            }
        }
    }
}

/// A layout written in-order from a sorted input is a search tree.
pub proof fn lemma_sorted_layout_is_bst(sorted: Seq<i64>)
    requires
        sorted_seq(sorted),
    ensures
        bst_ok(
            eytz_write(
                sorted.len() as int,
                Seq::new(sorted.len(), |i: int| 0i64),
                sorted,
                0,
                0,
            ),
        ),
{
    let n = sorted.len() as int;
    let zeros = Seq::new(sorted.len(), |i: int| 0i64);
    lemma_size_root(n);
    lemma_write_bst(zeros, sorted, 0, 0);
    let res = eytz_write(n, zeros, sorted, 0, 0);
    assert forall|k: int, j: int|
        0 <= k < res.len() && 0 <= j < res.len() && in_subtree(2 * k + 1, j) implies #[trigger] res[j]
        <= #[trigger] res[k] by {
        lemma_eytz_write_len(n, zeros, sorted, 0, 0);
        lemma_root_all(k);
        assert(in_subtree(0, k) && in_subtree(2 * k + 1, j));
    }
    assert forall|k: int, j: int|
        0 <= k < res.len() && 0 <= j < res.len() && in_subtree(2 * k + 2, j) implies #[trigger] res[j]
        >= #[trigger] res[k] by {
        lemma_eytz_write_len(n, zeros, sorted, 0, 0);
        lemma_root_all(k);
        assert(in_subtree(0, k) && in_subtree(2 * k + 2, j));
    }
}

/// A search tree in Eytzinger (level-by-level) layout: node `k`'s children
/// sit at `2k + 1` and `2k + 2`, so a binary search descends by index
/// arithmetic over one contiguous array.
pub struct EytzingerTree {
    data: Vec<i64>,
}

impl EytzingerTree {
    /// The layout array.
    pub closed spec fn spec_data(self) -> Seq<i64> {
        self.data@
    }

    /// Size bound under which child indexes cannot overflow.
    pub open spec fn wf(self) -> bool {
        self.spec_data().len() <= 0x1000_0000
    }

    /// Build the layout from a sorted slice: an in-order traversal of the
    /// implicit tree consumes the sorted elements in order.
    pub fn new(sorted: &[i64]) -> (r: Self)
        requires
            sorted@.len() <= 0x1000_0000,
        ensures
            r.wf(),
            r.spec_data().len() == sorted@.len(),
            r.spec_data() == eytz_write(
                sorted@.len() as int,
                Seq::new(sorted@.len(), |i: int| 0i64),
                sorted@,
                0,
                0,
            ),
            sorted_seq(sorted@) ==> bst_ok(r.spec_data()),
    {
        let n = sorted.len();
        let mut data: Vec<i64> = Vec::new();
        while data.len() < n
            invariant
                data@.len() <= n,
                data@ == Seq::new(data@.len(), |i: int| 0i64),
            decreases n - data@.len(),
        {
            data.push(0i64);
            proof {
                assert(data@ =~= Seq::new(data@.len(), |i: int| 0i64));
            }
        }
        let mut index: usize = 0;
        Self::build(&mut data, 0, sorted, &mut index);
        proof {
            if sorted_seq(sorted@) {
                lemma_sorted_layout_is_bst(sorted@);
            }
        }
        Self { data }
    }

    /// Write the subtree rooted at `k` in-order: left subtree, this node,
    /// right subtree, consuming `sorted` from `*index` on.
    fn build(data: &mut Vec<i64>, k: usize, sorted: &[i64], index: &mut usize)
        requires
            old(data)@.len() == sorted@.len(),
            old(data)@.len() <= 0x1000_0000,
            *old(index) <= sorted@.len(),
        ensures
            final(data)@ == eytz_write(
                old(data)@.len() as int,
                old(data)@,
                sorted@,
                k as int,
                *old(index) as int,
            ),
            final(data)@.len() == old(data)@.len(),
            *final(index) == eytz_idx(
                old(data)@.len() as int,
                sorted@.len() as int,
                k as int,
                *old(index) as int,
            ),
            *final(index) <= sorted@.len(),
        decreases (if (k as int) < old(data)@.len() {
            old(data)@.len() - k as int
        } else {
            0
        }),
    {
        let ghost n = old(data)@.len() as int;
        if k >= data.len() {
            return ;
        }
        // Left subtree.
        Self::build(data, 2 * k + 1, sorted, index);
        proof {
            lemma_eytz_write_len(n, old(data)@, sorted@, 2 * k as int + 1, *old(index) as int);
            lemma_eytz_idx_bound(n, sorted@.len() as int, 2 * k as int + 1, *old(index) as int);
        }
        // Current node. The bounds check cannot fail when called from
        // `new`, where the subtree sizes tile the sorted input exactly;
        // it keeps the function total.
        let idx = *index;
        if idx < sorted.len() {
            data[k] = sorted[idx];
            *index = idx + 1;
        }
        // Right subtree.
        Self::build(data, 2 * k + 2, sorted, index);
    }

    /// Binary search for `target`: descend left on smaller, right on
    /// larger. A returned index always holds the target; on a layout built
    /// from a sorted slice a `None` means the target is absent.
    pub fn search(&self, target: i64) -> (r: Option<usize>)
        requires
            self.wf(),
        ensures
            r matches Some(i) ==> i < self.spec_data().len() && self.spec_data()[i as int]
                == target,
            r is None && bst_ok(self.spec_data()) ==> forall|j: int|
                0 <= j < self.spec_data().len() ==> self.spec_data()[j] != target,
    {
        let n = self.data.len();
        let mut i: usize = 0;
        proof {
            if bst_ok(self.spec_data()) {
                assert forall|j: int|
                    0 <= j < n && self.spec_data()[j] == target implies in_subtree(0, j) by {
                    lemma_root_all(j);
                }
            }
        }
        while i < n
            invariant
                n == self.spec_data().len(),
                n <= 0x1000_0000,
                bst_ok(self.spec_data()) ==> forall|j: int|
                    0 <= j < n && self.spec_data()[j] == target ==> in_subtree(i as int, j),
            decreases (if i <= n {
                n - i
            } else {
                0
            }),
        {
            let ghost data = self.spec_data();
            let ghost iv = i as int;
            if target < self.data[i] {
                proof {
                    if bst_ok(data) {
                        assert forall|j: int|
                            0 <= j < n && data[j] == target implies in_subtree(
                            2 * iv + 1,
                            j,
                        ) by {
                            lemma_subtree_decompose(iv, j);
                            if in_subtree(2 * iv + 2, j) {
                                assert(data[j] >= data[iv]);
                            }
                        }
                    }
                }
                i = 2 * i + 1;  // go left
            } else if target > self.data[i] {
                proof {
                    if bst_ok(data) {
                        assert forall|j: int|
                            0 <= j < n && data[j] == target implies in_subtree(
                            2 * iv + 2,
                            j,
                        ) by {
                            lemma_subtree_decompose(iv, j);
                            if in_subtree(2 * iv + 1, j) {
                                assert(data[j] <= data[iv]);
                            }
                        }
                    }
                }
                i = 2 * i + 2;  // go right
            } else {
                return Some(i);  // found it
            }
        }
        proof {
            if bst_ok(self.spec_data()) {
                assert forall|j: int|
                    0 <= j < n implies self.spec_data()[j] != target by {
                    if self.spec_data()[j] == target {
                        lemma_subtree_lower(i as int, j);
                    }
                }
            }
        }
        None
    }

    /// Branch-free variant of [`Self::search`]: always descends to the leaf
    /// level, recording a match on the way down.
    pub fn search_optimized(&self, target: i64) -> (r: Option<usize>)
        requires
            self.wf(),
        ensures
            r matches Some(i) ==> i < self.spec_data().len() && self.spec_data()[i as int]
                == target,
            r is None && bst_ok(self.spec_data()) ==> forall|j: int|
                0 <= j < self.spec_data().len() ==> self.spec_data()[j] != target,
    {
        let n = self.data.len();
        let mut i: usize = 0;
        let mut candidate: usize = n;  // invalid index means "not found"
        proof {
            if bst_ok(self.spec_data()) {
                assert forall|j: int|
                    0 <= j < n && self.spec_data()[j] == target implies in_subtree(0, j) by {
                    lemma_root_all(j);
                }
            }
        }
        while i < n
            invariant
                n == self.spec_data().len(),
                n <= 0x1000_0000,
                candidate == n || (candidate < n && self.spec_data()[candidate as int] == target),
                bst_ok(self.spec_data()) ==> (candidate < n && self.spec_data()[candidate as int]
                    == target) || forall|j: int|
                    0 <= j < n && self.spec_data()[j] == target ==> in_subtree(i as int, j),
            decreases (if i <= n {
                n - i
            } else {
                0
            }),
        {
            // Branchless: update the candidate on a match, keep it otherwise.
            let is_match: usize = if self.data[i] == target {
                1
            } else {
                0
            };
            proof {
                if is_match == 1 {
                    assert(is_match * i + (1 - is_match) * candidate == i) by (nonlinear_arith)
                        requires
                            is_match == 1,
                    ;
                } else {
                    assert(is_match * i + (1 - is_match) * candidate == candidate)
                        by (nonlinear_arith)
                        requires
                            is_match == 0,
                    ;
                }
            }
            candidate = is_match * i + (1 - is_match) * candidate;
            // Branch-free navigation.
            let go_right: usize = if self.data[i] < target {
                1
            } else {
                0
            };
            proof {
                let data = self.spec_data();
                let iv = i as int;
                if bst_ok(data) && !(candidate < n && data[candidate as int] == target) {
                    assert(data[iv] != target);
                    assert forall|j: int|
                        0 <= j < n && data[j] == target implies in_subtree(
                        2 * iv + 1 + go_right as int,
                        j,
                    ) by {
                        lemma_subtree_decompose(iv, j);
                        if data[iv] < target {
                            if in_subtree(2 * iv + 1, j) {
                                assert(data[j] <= data[iv]);
                            }
                        } else {
                            if in_subtree(2 * iv + 2, j) {
                                assert(data[j] >= data[iv]);
                            }
                        }
                    }
                }
            }
            i = 2 * i + 1 + go_right;
        }
        proof {
            if bst_ok(self.spec_data()) && !(candidate < n && self.spec_data()[candidate as int]
                == target) {
                assert forall|j: int|
                    0 <= j < n implies self.spec_data()[j] != target by {
                    if self.spec_data()[j] == target {
                        lemma_subtree_lower(i as int, j);
                    }
                }
            }
        }
        if candidate < n {
            Some(candidate)
        } else {
            None
        }
    }

    /// The layout array as a slice.
    pub fn as_ref(&self) -> (r: &[i64])
        ensures
            r@ == self.spec_data(),
    {
        self.data.as_slice()
    }
}

} // verus!
