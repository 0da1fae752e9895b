//! Array-backed max-heaps: the classic 1-indexed binary heap and a d-ary
//! variant, with sift-down (`max_heapify`), bottom-up construction and
//! in-place heapsort.  The binary heap's operations are verified to keep the
//! heap order ([`heap_seg`]) and its `sort` to leave the entries ascending;
//! every operation of both heaps is verified to rearrange the backing array
//! without losing or inventing elements.

use vstd::prelude::*;
use vstd::pervasive::VecAdditionalExecFns;

verus! {

/// Swaps two positions of the array, preserving its contents as a multiset.
fn vswap(a: &mut Vec<u32>, i: usize, j: usize)
    requires
        i < old(a).len(),
        j < old(a).len(),
    ensures
        final(a)@ == old(a)@.update(i as int, old(a)@[j as int]).update(
            j as int,
            old(a)@[i as int],
        ),
        final(a)@.to_multiset() == old(a)@.to_multiset(),
        final(a).len() == old(a).len(),
{
    let x = a[i];
    let y = a[j];
    a.set(i, y);
    a.set(j, x);
    proof {
        broadcast use vstd::seq_lib::to_multiset_update;
        broadcast use vstd::multiset::group_multiset_axioms;

        let s = old(a)@;
        let s1 = s.update(i as int, s[j as int]);
        assert(s1.to_multiset() == s.to_multiset().insert(s[j as int]).remove(s[i as int]));
        assert(a@ == s1.update(j as int, s[i as int]));
        assert(a@.to_multiset() == s1.to_multiset().insert(s[i as int]).remove(s1[j as int]));
        assert(s1[j as int] == s[j as int]);
        assert(s.to_multiset().count(s[i as int]) > 0) by {
            broadcast use vstd::seq_lib::group_to_multiset_ensures;

            assert(s.contains(s[i as int]));
        }
        assert(s.to_multiset().count(s[j as int]) > 0) by {
            broadcast use vstd::seq_lib::group_to_multiset_ensures;

            assert(s.contains(s[j as int]));
        }
        assert(a@.to_multiset() =~= old(a)@.to_multiset());
    }
}

/// The max-heap arrangement on positions `1 ..= hs` of a 1-indexed array:
/// every entry is at most its parent's.
pub open spec fn heap_seg(a: Seq<u32>, hs: int) -> bool {
    forall|j: int| 2 <= j <= hs ==> a[j / 2] >= #[trigger] a[j]
}

/// `j` lies in the subtree rooted at position `i` of the 1-indexed
/// arrangement.
#[verifier::opaque]
pub open spec fn in_subtree(j: int, i: int) -> bool
    decreases j,
{
    if j < 1 || i < 1 {
        false
    } else if j == i {
        true
    } else if j < i {
        false
    } else {
        in_subtree(j / 2, i)
    }
}

proof fn lemma_in_subtree_ge(j: int, i: int)
    requires
        in_subtree(j, i),
    ensures
        j >= i,
    decreases j,
{
    reveal(in_subtree);
    if j != i {
        lemma_in_subtree_ge(j / 2, i);
    }
}

proof fn lemma_in_subtree_trans(k: int, m: int, i: int)
    requires
        in_subtree(k, m),
        in_subtree(m, i),
    ensures
        in_subtree(k, i),
    decreases k,
{
    reveal(in_subtree);
    lemma_in_subtree_ge(k, m);
    lemma_in_subtree_ge(m, i);
    if k != m {
        lemma_in_subtree_trans(k / 2, m, i);
    }
}

/// The root and its two children belong to the root's subtree, and nothing
/// below position 1 does.
proof fn lemma_subtree_shape(i: int)
    requires
        1 <= i,
    ensures
        in_subtree(i, i),
        in_subtree(2 * i, i),
        in_subtree(2 * i + 1, i),
        forall|k: int| k < 1 ==> !in_subtree(k, i),
{
    reveal(in_subtree);
    assert((2 * i) / 2 == i);
    assert((2 * i + 1) / 2 == i);
}

/// Every heap position belongs to the root's subtree.
proof fn lemma_subtree_all(k: int)
    requires
        1 <= k,
    ensures
        in_subtree(k, 1),
    decreases k,
{
    reveal(in_subtree);
    if k > 1 {
        lemma_subtree_all(k / 2);
    }
}

/// In a max-heap segment the root of a subtree dominates the whole subtree.
proof fn lemma_subtree_bound(a: Seq<u32>, hs: int, root: int, k: int)
    requires
        forall|j: int| 2 <= j <= hs && j / 2 >= root ==> a[j / 2] >= #[trigger] a[j],
        in_subtree(k, root),
        1 <= root,
        k <= hs,
    ensures
        a[root] >= a[k],
    decreases k,
{
    reveal(in_subtree);
    if k != root {
        lemma_in_subtree_ge(k, root);
        lemma_in_subtree_ge(k / 2, root);
        assert(a[k / 2] >= a[k]);
        lemma_subtree_bound(a, hs, root, k / 2);
    }
}

/// One sift-down step, frame part: positions outside the live subtree of
/// `i` are untouched.
#[verifier::rlimit(100)]
proof fn lemma_heapify_frame(
    pre: Seq<u32>,
    mid: Seq<u32>,
    fin: Seq<u32>,
    hs: int,
    i: int,
    largest: int,
)
    requires
        1 <= i < pre.len(),
        hs < pre.len(),
        largest == 2 * i || largest == 2 * i + 1,
        i < largest <= hs,
        mid.len() == pre.len(),
        fin.len() == pre.len(),
        mid[i] == pre[largest],
        mid[largest] == pre[i],
        forall|k: int| 0 <= k < pre.len() && k != i && k != largest ==> mid[k] == #[trigger] pre[k],
        forall|k: int|
            0 <= k < fin.len() && !(in_subtree(k, largest) && k <= hs) ==> fin[k] == #[trigger] mid[k],
    ensures
        forall|k: int|
            0 <= k < fin.len() && !(in_subtree(k, i) && k <= hs) ==> fin[k] == #[trigger] pre[k],
        in_subtree(largest, i),
        !in_subtree(i, largest),
{
    reveal(in_subtree);
    assert(in_subtree(i, i));
    assert(in_subtree(largest, largest));
    assert(in_subtree(largest, i)) by {
        assert(largest / 2 == i);
    }
    assert(!in_subtree(i, largest)) by {
        if in_subtree(i, largest) {
            lemma_in_subtree_ge(i, largest);
        }
    }
    assert forall|k: int|
        0 <= k < fin.len() && !(in_subtree(k, i) && k <= hs) implies fin[k] == #[trigger] pre[k] by {
        assert(!in_subtree(k, largest) || k > hs) by {
            if in_subtree(k, largest) {
                lemma_in_subtree_trans(k, largest, i);
            }
        }
        assert(fin[k] == mid[k]);
        assert(k != i || k > hs);
        assert(k != largest || k > hs) by {
            if k == largest && k <= hs {
                assert(in_subtree(k, i));
            }
        }
    }
}

/// One sift-down step, order part: once the displaced child's subtree is
/// restored, every parent from `i` down dominates its children.
#[verifier::rlimit(100)]
proof fn lemma_heapify_dom(
    pre: Seq<u32>,
    mid: Seq<u32>,
    fin: Seq<u32>,
    hs: int,
    i: int,
    largest: int,
)
    requires
        1 <= i < pre.len(),
        hs < pre.len(),
        largest == 2 * i || largest == 2 * i + 1,
        i < largest <= hs,
        mid.len() == pre.len(),
        fin.len() == pre.len(),
        mid[i] == pre[largest],
        mid[largest] == pre[i],
        pre[largest] > pre[i],
        2 * i <= hs ==> pre[largest] >= pre[2 * i],
        2 * i + 1 <= hs ==> pre[largest] >= pre[2 * i + 1],
        forall|k: int| 0 <= k < pre.len() && k != i && k != largest ==> mid[k] == #[trigger] pre[k],
        forall|j: int| 2 <= j <= hs && j / 2 > i ==> pre[j / 2] >= #[trigger] pre[j],
        forall|k: int|
            0 <= k < fin.len() && !(in_subtree(k, largest) && k <= hs) ==> fin[k] == #[trigger] mid[k],
        forall|j: int| 2 <= j <= hs && j / 2 >= largest ==> fin[j / 2] >= #[trigger] fin[j],
        fin[largest] <= pre[largest],
    ensures
        forall|j: int| 2 <= j <= hs && j / 2 >= i ==> fin[j / 2] >= #[trigger] fin[j],
{
    reveal(in_subtree);
    assert(in_subtree(i, i));
    assert(in_subtree(largest, largest));
    assert(in_subtree(largest, i)) by {
        assert(largest / 2 == i);
    }
    assert(!in_subtree(i, largest)) by {
        if in_subtree(i, largest) {
            lemma_in_subtree_ge(i, largest);
        }
    }
    assert(fin[i] == mid[i]);
    assert forall|j: int|
        2 <= j <= hs && j / 2 >= i implies fin[j / 2] >= #[trigger] fin[j] by {
        if j / 2 == i {
            assert(fin[i] == pre[largest]);
            if j == largest {
            } else {
                assert(!in_subtree(j, largest)) by {
                    if in_subtree(j, largest) {
                        lemma_in_subtree_ge(j, largest);
                        if j != largest {
                            lemma_in_subtree_ge(j / 2, largest);
                        }
                    }
                }
                assert(fin[j] == mid[j]);
                assert(mid[j] == pre[j]);
            }
        } else if j / 2 >= largest {
        } else {
            // a pair strictly between `i` and `largest`: wholly untouched
            assert(j / 2 != i && j != i);
            assert(j != largest) by {
                if j == largest {
                    assert(j / 2 == i);
                }
            }
            assert(!in_subtree(j / 2, largest)) by {
                if in_subtree(j / 2, largest) {
                    lemma_in_subtree_ge(j / 2, largest);
                }
            }
            assert(!in_subtree(j, largest)) by {
                if in_subtree(j, largest) {
                    lemma_in_subtree_ge(j, largest);
                    if j != largest {
                        lemma_in_subtree_ge(j / 2, largest);
                    }
                }
            }
            assert(fin[j / 2] == mid[j / 2] && fin[j] == mid[j]);
            assert(mid[j / 2] == pre[j / 2] && mid[j] == pre[j]);
        }
    }
}

/// After the swap, every parent strictly below the displaced child still
/// dominates its children.
#[verifier::rlimit(100)]
proof fn lemma_swap_pre(pre: Seq<u32>, mid: Seq<u32>, hs: int, i: int, largest: int)
    requires
        1 <= i < pre.len(),
        hs < pre.len(),
        largest == 2 * i || largest == 2 * i + 1,
        i < largest <= hs,
        mid.len() == pre.len(),
        forall|k: int| 0 <= k < pre.len() && k != i && k != largest ==> mid[k] == #[trigger] pre[k],
        forall|j: int| 2 <= j <= hs && j / 2 > i ==> pre[j / 2] >= #[trigger] pre[j],
    ensures
        forall|j: int| 2 <= j <= hs && j / 2 > largest ==> mid[j / 2] >= #[trigger] mid[j],
{
    assert forall|j: int|
        2 <= j <= hs && j / 2 > largest implies mid[j / 2] >= #[trigger] mid[j] by {
        vstd::arithmetic::div_mod::lemma_fundamental_div_mod(j, 2);
        vstd::arithmetic::div_mod::lemma_mod_bound(j, 2);
        assert(j >= 2 * (j / 2));
        assert(j / 2 >= largest + 1);
        assert(j / 2 != i && j != i && j != largest && j / 2 != largest);
        assert(mid[j / 2] == pre[j / 2] && mid[j] == pre[j]);
        assert(pre[j / 2] >= pre[j]);
    }
}

/// When neither live child beats the entry at `i`, the subtree is already
/// in heap order from `i` down.
#[verifier::rlimit(100)]
proof fn lemma_heapify_none(a: Seq<u32>, hs: int, i: int)
    requires
        1 <= i < a.len(),
        hs < a.len(),
        !(2 * i <= hs && a[2 * i] > a[i]),
        !(2 * i + 1 <= hs && a[2 * i + 1] > a[i]),
        forall|j: int| 2 <= j <= hs && j / 2 > i ==> a[j / 2] >= #[trigger] a[j],
    ensures
        forall|j: int| 2 <= j <= hs && j / 2 >= i ==> a[j / 2] >= #[trigger] a[j],
{
    assert forall|j: int|
        2 <= j <= hs && j / 2 >= i implies a[j / 2] >= #[trigger] a[j] by {
        if j / 2 == i {
            vstd::arithmetic::div_mod::lemma_fundamental_div_mod(j, 2);
            vstd::arithmetic::div_mod::lemma_mod_bound(j, 2);
            assert(j == 2 * i || j == 2 * i + 1);
        }
    }
}

/// One sift-down step, combined: the frame, the restored order, and the
/// carried bound.
#[verifier::rlimit(100)]
proof fn lemma_heapify_bound_step(
    pre: Seq<u32>,
    mid: Seq<u32>,
    fin: Seq<u32>,
    hs: int,
    i: int,
    largest: int,
    bound: u32,
)
    requires
        1 <= i < pre.len(),
        hs < pre.len(),
        largest == 2 * i || largest == 2 * i + 1,
        i < largest <= hs,
        mid.len() == pre.len(),
        fin.len() == pre.len(),
        mid[i] == pre[largest],
        mid[largest] == pre[i],
        pre[largest] > pre[i],
        2 * i <= hs ==> pre[largest] >= pre[2 * i],
        2 * i + 1 <= hs ==> pre[largest] >= pre[2 * i + 1],
        forall|k: int| 0 <= k < pre.len() && k != i && k != largest ==> mid[k] == #[trigger] pre[k],
        forall|j: int| 2 <= j <= hs && j / 2 > i ==> pre[j / 2] >= #[trigger] pre[j],
        forall|k: int| #[trigger] in_subtree(k, i) && 1 <= k <= hs ==> pre[k] <= bound,
        forall|k: int|
            0 <= k < fin.len() && !(in_subtree(k, largest) && k <= hs) ==> fin[k] == #[trigger] mid[k],
        forall|j: int| 2 <= j <= hs && j / 2 >= largest ==> fin[j / 2] >= #[trigger] fin[j],
        forall|k: int| #[trigger] in_subtree(k, largest) && 1 <= k <= hs ==> fin[k] <= mid[i],
    ensures
        forall|k: int|
            0 <= k < fin.len() && !(in_subtree(k, i) && k <= hs) ==> fin[k] == #[trigger] pre[k],
        forall|j: int| 2 <= j <= hs && j / 2 >= i ==> fin[j / 2] >= #[trigger] fin[j],
        forall|k: int| #[trigger] in_subtree(k, i) && 1 <= k <= hs ==> fin[k] <= bound,
{
    lemma_subtree_shape(i);
    lemma_subtree_shape(largest);
    lemma_heapify_frame(pre, mid, fin, hs, i, largest);
    assert(fin[largest] <= mid[i]);
    lemma_heapify_dom(pre, mid, fin, hs, i, largest);
    assert forall|k: int|
        #[trigger] in_subtree(k, i) && 1 <= k <= hs implies fin[k] <= bound by {
        if in_subtree(k, largest) {
            assert(fin[k] <= mid[i]);
            assert(pre[largest] <= bound);
        } else {
            assert(fin[k] == mid[k]);
            if k == i {
                assert(pre[largest] <= bound);
            } else {
                assert(k != largest);
                assert(mid[k] == pre[k]);
            }
        }
    }
}

/// Adjacent order over a range gives full sortedness of the range.
proof fn lemma_adjacent_sorted(s: Seq<u32>, lo: int, hi: int)
    requires
        0 <= lo,
        hi <= s.len(),
        forall|q: int| lo <= q < hi - 1 ==> s[q] <= #[trigger] s[q + 1],
    ensures
        crate::sorts::sorted_between(s, lo, hi),
    decreases hi - lo,
{
    if lo < hi - 1 {
        lemma_adjacent_sorted(s, lo + 1, hi);
        assert forall|p: int, q: int| lo <= p < q < hi implies s[p] <= s[q] by {
            if p == lo {
                assert(s[lo] <= s[lo + 1]);
            }
        }
    }
}

/// A max-heap in a 1-indexed array: position 0 is an unused sentinel and the
/// heap occupies positions `1 ..= heap_size`.
pub struct BinaryHeap {
    pub heap_size: usize,
    pub a: Vec<u32>,
}

impl BinaryHeap {
    /// Index of the parent of position `i`.
    pub fn parent(i: usize) -> (r: usize)
        ensures
            r == i / 2,
    {
        i / 2
    }

    /// Index of the left child of position `i`.
    pub fn left(i: usize) -> (r: usize)
        requires
            i <= usize::MAX / 2,
        ensures
            r == 2 * i,
    {
        2 * i
    }

    /// Index of the right child of position `i`.
    pub fn right(i: usize) -> (r: usize)
        requires
            i < usize::MAX / 2,
        ensures
            r == 2 * i + 1,
    {
        2 * i + 1
    }

    /// Sift-down: lets the entry at position `i` descend below its larger
    /// children.  When every parent below `i` already dominates its
    /// children, every parent from `i` down dominates afterwards; the array
    /// keeps exactly the same elements, nothing outside the live subtree of
    /// `i` moves, and any upper bound on the subtree's values still holds.
    #[verifier::rlimit(100)]
    pub fn max_heapify(&mut self, i: usize, bound: Ghost<u32>)
        requires
            1 <= i < old(self).a.len(),
            old(self).heap_size < old(self).a.len(),
            old(self).a.len() <= usize::MAX / 2,
            forall|j: int|
                2 <= j <= old(self).heap_size && j / 2 > i ==> old(self).a@[j / 2]
                    >= #[trigger] old(self).a@[j],
            forall|k: int|
                #[trigger] in_subtree(k, i as int) && 1 <= k <= old(self).heap_size ==> old(
                    self,
                ).a@[k] <= bound@,
        ensures
            final(self).a@.to_multiset() == old(self).a@.to_multiset(),
            final(self).a.len() == old(self).a.len(),
            final(self).heap_size == old(self).heap_size,
            forall|k: int|
                0 <= k < final(self).a.len() && !(in_subtree(k, i as int) && k
                    <= final(self).heap_size) ==> #[trigger] final(self).a@[k] == old(self).a@[k],
            forall|j: int|
                2 <= j <= final(self).heap_size && j / 2 >= i ==> final(self).a@[j / 2]
                    >= #[trigger] final(self).a@[j],
            forall|k: int|
                #[trigger] in_subtree(k, i as int) && 1 <= k <= final(self).heap_size
                    ==> final(self).a@[k] <= bound@,
        decreases old(self).a.len() - i,
    {
        proof {
            lemma_subtree_shape(i as int);
        }
        let l = Self::left(i);
        let r = Self::right(i);
        let mut largest = if l <= self.heap_size && self.a[l] > self.a[i] {
            l
        } else {
            i
        };
        if r <= self.heap_size && self.a[r] > self.a[largest] {
            largest = r;
        }
        if largest != i {
            let ghost pre = old(self).a@;
            let ghost gi = i as int;
            let ghost gl = largest as int;
            let ghost hs = self.heap_size as int;
            vswap(&mut self.a, i, largest);
            proof {
                lemma_subtree_shape(gi);
                lemma_subtree_shape(gl);
                assert(self.a@[gi] == pre[gl]);
                assert(self.a@[gl] == pre[gi]);
                assert(forall|k: int|
                    0 <= k < pre.len() && k != gi && k != gl ==> self.a@[k] == #[trigger] pre[k]);
                lemma_swap_pre(pre, self.a@, hs, gi, gl);
                // the displaced entry bounds the whole subtree it now roots
                assert forall|k: int|
                    #[trigger] in_subtree(k, gl) && 1 <= k <= hs implies self.a@[k]
                    <= self.a@[gi] by {
                    lemma_in_subtree_trans(k, gl, gi);
                    if k == gl {
                    } else {
                        lemma_in_subtree_ge(k, gl);
                        assert(self.a@[k] == pre[k]);
                        lemma_subtree_bound(pre, hs, gl, k);
                    }
                }
            }
            let ghost mid = self.a@;
            let b = self.a[i];
            self.max_heapify(largest, Ghost(b));
            proof {
                assert forall|k: int|
                    #[trigger] in_subtree(k, gl) && 1 <= k <= hs implies self.a@[k] <= mid[gi] by {
                    assert(self.a@[k] <= b);
                }
                lemma_heapify_bound_step(pre, mid, self.a@, hs, gi, gl, bound@);
            }
        } else {
            proof {
                lemma_heapify_none(self.a@, self.heap_size as int, i as int);
            }
        }
    }

    /// Builds a heap from a slice, placing a sentinel at position 0.
    pub fn build(a: &[u32]) -> (me: Self)
        requires
            a@.len() + 1 <= usize::MAX / 2,
        ensures
            me.a.len() == a@.len() + 1,
            me.heap_size == a@.len(),
            me.a@.to_multiset() == (seq![0u32] + a@).to_multiset(),
    {
        let mut v: Vec<u32> = Vec::new();
        v.push(0);
        let mut k: usize = 0;
        while k < a.len()
            invariant
                k <= a@.len(),
                v@ == seq![0u32] + a@.subrange(0, k as int),
            decreases a@.len() - k,
        {
            let x = a[k];
            v.push(x);
            k += 1;
            proof {
                assert(v@ =~= seq![0u32] + a@.subrange(0, k as int));
            }
        }
        proof {
            assert(a@.subrange(0, a@.len() as int) =~= a@);
        }
        let mut me = BinaryHeap { heap_size: a.len(), a: v };
        me.build_max();
        me
    }

    /// Re-establishes the heap arrangement over the whole array by sifting
    /// down every interior position, highest index first.
    pub fn build_max(&mut self)
        requires
            1 <= old(self).a.len(),
            old(self).a.len() <= usize::MAX / 2,
        ensures
            final(self).a@.to_multiset() == old(self).a@.to_multiset(),
            final(self).a.len() == old(self).a.len(),
            final(self).heap_size == old(self).a.len() - 1,
            final(self).a@[0] == old(self).a@[0],
            heap_seg(final(self).a@, final(self).heap_size as int),
    {
        self.heap_size = self.a.len() - 1;
        let mut i: usize = self.a.len() / 2;
        proof {
            assert forall|j: int|
                2 <= j <= self.heap_size && j / 2 > i implies self.a@[j / 2]
                >= #[trigger] self.a@[j] by {
                vstd::arithmetic::div_mod::lemma_fundamental_div_mod(j, 2);
                vstd::arithmetic::div_mod::lemma_mod_bound(j, 2);
                assert(j > self.heap_size as int);
            }
        }
        while i >= 1
            invariant
                i <= self.a.len() / 2,
                self.heap_size == self.a.len() - 1,
                self.a.len() == old(self).a.len(),
                1 <= self.a.len() <= usize::MAX / 2,
                self.a@.to_multiset() == old(self).a@.to_multiset(),
                self.a@[0] == old(self).a@[0],
                forall|j: int|
                    2 <= j <= self.heap_size && j / 2 > i ==> self.a@[j / 2]
                        >= #[trigger] self.a@[j],
            decreases i,
        {
            let ghost pre = self.a@;
            self.max_heapify(i, Ghost(u32::MAX));
            proof {
                lemma_subtree_shape(i as int);
                assert forall|k: int|
                    0 <= k < self.a@.len() && !(in_subtree(k, i as int) && k <= self.heap_size)
                    implies self.a@[k] == pre[k] by {}
                assert(self.a@[0] == pre[0]);
            }
            i = i - 1;
        }
        proof {
            assert forall|j: int|
                2 <= j <= self.heap_size implies self.a@[j / 2] >= #[trigger] self.a@[j] by {
                vstd::arithmetic::div_mod::lemma_fundamental_div_mod(j, 2);
                vstd::arithmetic::div_mod::lemma_mod_bound(j, 2);
            }
        }
    }

    /// The entry at the root of the heap, the greatest of the live entries.
    pub fn maximum(&self) -> (r: u32)
        requires
            1 <= self.heap_size < self.a.len(),
            heap_seg(self.a@, self.heap_size as int),
        ensures
            r == self.a@[1],
            forall|k: int| 1 <= k <= self.heap_size ==> #[trigger] self.a@[k] <= r,
    {
        proof {
            assert forall|k: int| 1 <= k <= self.heap_size implies #[trigger] self.a@[k]
                <= self.a@[1] by {
                lemma_subtree_all(k);
                lemma_subtree_bound(self.a@, self.heap_size as int, 1, k);
            }
        }
        self.a[1]
    }

    /// Removes and returns the root entry, the greatest of the live
    /// entries; the last live entry takes its place and sinks.
    #[verifier::rlimit(100)]
    pub fn extract_max(&mut self) -> (max: u32)
        requires
            1 <= old(self).heap_size,
            old(self).heap_size < old(self).a.len(),
            old(self).a.len() <= usize::MAX / 2,
            heap_seg(old(self).a@, old(self).heap_size as int),
        ensures
            max == old(self).a@[1],
            forall|k: int| 1 <= k <= old(self).heap_size ==> #[trigger] old(self).a@[k] <= max,
            final(self).heap_size == old(self).heap_size - 1,
            final(self).a.len() == old(self).a.len(),
            final(self).a@.to_multiset() == old(self).a@.update(
                1,
                old(self).a@[old(self).heap_size as int],
            ).to_multiset(),
            heap_seg(final(self).a@, final(self).heap_size as int),
            forall|k: int|
                old(self).heap_size <= k < old(self).a.len() ==> final(self).a@[k] == old(
                    self,
                ).a@[k],
    {
        proof {
            assert forall|k: int| 1 <= k <= old(self).heap_size implies #[trigger] old(
                self,
            ).a@[k] <= old(self).a@[1] by {
                lemma_subtree_all(k);
                lemma_subtree_bound(old(self).a@, old(self).heap_size as int, 1, k);
            }
        }
        let max = self.a[1];
        let x = self.a[self.heap_size];
        let idx: usize = 1;
        self.a.set(1, x);
        self.heap_size = self.heap_size - 1;
        let ghost mid = self.a@;
        let ghost hs = self.heap_size as int;
        proof {
            assert forall|j: int|
                2 <= j <= hs && j / 2 > 1 implies mid[j / 2] >= #[trigger] mid[j] by {
                vstd::arithmetic::div_mod::lemma_fundamental_div_mod(j, 2);
                vstd::arithmetic::div_mod::lemma_mod_bound(j, 2);
                assert(j / 2 != 1 && j != 1);
                assert(mid[j / 2] == old(self).a@[j / 2] && mid[j] == old(self).a@[j]);
            }
            assert forall|k: int|
                #[trigger] in_subtree(k, 1int) && 1 <= k <= hs implies mid[k] <= max by {
                if k != 1 {
                    assert(mid[k] == old(self).a@[k]);
                }
            }
        }
        self.max_heapify(idx, Ghost(max));
        proof {
            assert forall|j: int|
                2 <= j <= hs implies self.a@[j / 2] >= #[trigger] self.a@[j] by {
                vstd::arithmetic::div_mod::lemma_fundamental_div_mod(j, 2);
                vstd::arithmetic::div_mod::lemma_mod_bound(j, 2);
            }
            assert forall|k: int|
                old(self).heap_size <= k < old(self).a.len() implies self.a@[k] == old(
                self,
            ).a@[k] by {
                assert(!(in_subtree(k, idx as int) && k <= self.heap_size));
                assert(self.a@[k] == mid[k]);
                assert(mid[k] == old(self).a@[k]);
            }
        }
        max
    }

    /// Overwrites position `i` with a value no smaller than its entry and
    /// lets it climb above smaller parents, keeping the heap in order.
    #[verifier::rlimit(100)]
    pub fn increase_key(&mut self, i: usize, key: u32)
        requires
            1 <= i <= old(self).heap_size,
            old(self).heap_size < old(self).a.len(),
            old(self).a@[i as int] <= key,
            heap_seg(old(self).a@, old(self).heap_size as int),
        ensures
            final(self).a@.to_multiset() == old(self).a@.update(i as int, key).to_multiset(),
            final(self).a.len() == old(self).a.len(),
            final(self).heap_size == old(self).heap_size,
            heap_seg(final(self).a@, final(self).heap_size as int),
    {
        let ghost hs = old(self).heap_size as int;
        self.a.set(i, key);
        let ghost target = self.a@;
        let mut i = i;
        proof {
            assert forall|j: int|
                2 <= j <= hs && j != i implies self.a@[j / 2] >= #[trigger] self.a@[j] by {
                if j / 2 == i as int {
                    assert(self.a@[j] == old(self).a@[j]);
                    assert(old(self).a@[i as int] <= key);
                }
            }
        }
        while i > 1 && self.a[Self::parent(i)] < self.a[i]
            invariant
                1 <= i <= hs,
                hs < self.a.len(),
                self.a.len() == old(self).a.len(),
                self.heap_size == old(self).heap_size,
                hs == self.heap_size as int,
                self.a@.to_multiset() == target.to_multiset(),
                forall|j: int|
                    2 <= j <= hs && j != i ==> self.a@[j / 2] >= #[trigger] self.a@[j],
                i > 1 ==> (2 * i <= hs ==> self.a@[i as int / 2] >= self.a@[2 * i])
                    && (2 * i + 1 <= hs ==> self.a@[i as int / 2] >= self.a@[2 * i + 1]),
            decreases i,
        {
            let ghost pre = self.a@;
            let ghost gi = i as int;
            let p = i / 2;
            vswap(&mut self.a, i, p);
            proof {
                let gp = p as int;
                assert(2 <= gi);
                assert(gp == gi / 2 && 1 <= gp < gi);
                assert forall|j: int|
                    2 <= j <= hs && j != gp implies self.a@[j / 2] >= #[trigger] self.a@[j] by {
                    vstd::arithmetic::div_mod::lemma_fundamental_div_mod(j, 2);
                    vstd::arithmetic::div_mod::lemma_mod_bound(j, 2);
                    if j == gi {
                        assert(self.a@[gp] == pre[gi] && self.a@[gi] == pre[gp]);
                    } else if j / 2 == gi {
                        assert(self.a@[j] == pre[j]);
                        assert(j == 2 * gi || j == 2 * gi + 1);
                        assert(pre[gp] >= pre[j]);
                    } else if j / 2 == gp {
                        assert(self.a@[j] == pre[j]);
                        assert(pre[gp] >= pre[j]);
                        assert(self.a@[gp] == pre[gi]);
                        assert(pre[gi] > pre[gp]);
                    } else {
                        assert(self.a@[j] == pre[j] && self.a@[j / 2] == pre[j / 2]);
                    }
                }
                if gp > 1 {
                    assert(self.a@[gp / 2] == pre[gp / 2]);
                    assert(pre[gp / 2] >= pre[gp]);
                    if 2 * gp <= hs {
                        if 2 * gp == gi {
                            assert(self.a@[2 * gp] == pre[gp]);
                        } else {
                            assert(self.a@[2 * gp] == pre[2 * gp]);
                            assert(pre[gp] >= pre[2 * gp]);
                        }
                    }
                    if 2 * gp + 1 <= hs {
                        if 2 * gp + 1 == gi {
                            assert(self.a@[2 * gp + 1] == pre[gp]);
                        } else {
                            assert(self.a@[2 * gp + 1] == pre[2 * gp + 1]);
                            assert(pre[gp] >= pre[2 * gp + 1]);
                        }
                    }
                }
            }
            i = p;
        }
        proof {
            assert forall|j: int|
                2 <= j <= hs implies self.a@[j / 2] >= #[trigger] self.a@[j] by {
                if j == i as int {
                    assert(i > 1);
                }
            }
        }
    }

    /// Adds an entry to the heap, growing the backing array if it is full;
    /// the heap keeps its order and gains exactly the new key.
    pub fn insert(&mut self, key: u32)
        requires
            old(self).heap_size < usize::MAX,
            old(self).heap_size + 1 <= old(self).a.len(),
            heap_seg(old(self).a@, old(self).heap_size as int),
        ensures
            final(self).heap_size == old(self).heap_size + 1,
            final(self).heap_size < final(self).a.len(),
            heap_seg(final(self).a@, final(self).heap_size as int),
            old(self).heap_size + 1 < old(self).a.len() ==> final(self).a@.to_multiset() == old(
                self,
            ).a@.update(old(self).heap_size + 1, key).to_multiset(),
            old(self).heap_size + 1 == old(self).a.len() ==> final(self).a@.to_multiset() == old(
                self,
            ).a@.push(key).to_multiset(),
    {
        self.heap_size = self.heap_size + 1;
        if self.heap_size == self.a.len() {
            self.a.push(0);
        }
        proof {
            broadcast use vstd::seq_lib::to_multiset_update;
            broadcast use vstd::seq_lib::group_to_multiset_ensures;
            broadcast use vstd::multiset::group_multiset_axioms;

            if old(self).heap_size + 1 == old(self).a.len() {
                assert(self.a@.update(self.heap_size as int, key).to_multiset()
                    =~= old(self).a@.push(key).to_multiset());
            }
        }
        self.a.set(self.heap_size, 0);
        proof {
            broadcast use vstd::seq_lib::to_multiset_update;
            broadcast use vstd::multiset::group_multiset_axioms;

            assert(self.a@.update(self.heap_size as int, key).to_multiset() =~= self.a@.update(
                self.heap_size as int,
                0u32,
            ).to_multiset().insert(key).remove(0u32));
            assert forall|j: int|
                2 <= j <= self.heap_size implies self.a@[j / 2] >= #[trigger] self.a@[j] by {
                if j == self.heap_size as int {
                    assert(self.a@[j] == 0);
                } else {
                    assert(self.a@[j] == old(self).a@[j] && self.a@[j / 2] == old(self).a@[j / 2]);
                }
            }
        }
        self.increase_key(self.heap_size, key);
        proof {
            broadcast use vstd::seq_lib::to_multiset_update;
            broadcast use vstd::multiset::group_multiset_axioms;

            if old(self).heap_size + 1 < old(self).a.len() {
                assert(self.a@.to_multiset() =~= old(self).a@.update(
                    old(self).heap_size + 1,
                    key,
                ).to_multiset());
            } else {
                assert(self.a@.to_multiset() =~= old(self).a@.push(key).to_multiset());
            }
        }
    }

    /// In-place heapsort over positions `1 ..`: repeatedly swaps the root
    /// with the last live entry and sifts the new root down, leaving the
    /// entries past the sentinel in ascending order.
    #[verifier::rlimit(100)]
    pub fn sort(&mut self)
        requires
            1 <= old(self).a.len(),
            old(self).a.len() <= usize::MAX / 2,
        ensures
            final(self).a@.to_multiset() == old(self).a@.to_multiset(),
            final(self).a.len() == old(self).a.len(),
            final(self).a@[0] == old(self).a@[0],
            crate::sorts::sorted_between(final(self).a@, 1, final(self).a.len() as int),
    {
        self.build_max();
        let n = self.a.len();
        let mut i: usize = n - 1;
        while i >= 2
            invariant
                i <= n - 1,
                1 <= i || n == 1,
                1 <= n <= usize::MAX / 2,
                n == self.a.len() == old(self).a.len(),
                self.heap_size == i,
                self.a@.to_multiset() == old(self).a@.to_multiset(),
                self.a@[0] == old(self).a@[0],
                heap_seg(self.a@, i as int),
                forall|q: int| i as int + 1 <= q < n - 1 ==> self.a@[q] <= #[trigger] self.a@[q + 1],
                i < n - 1 ==> forall|p: int| 1 <= p <= i ==> #[trigger] self.a@[p] <= self.a@[i + 1],
            decreases i,
        {
            let ghost pre = self.a@;
            proof {
                assert forall|k: int| 1 <= k <= i implies #[trigger] pre[k] <= pre[1] by {
                    lemma_subtree_all(k);
                    lemma_subtree_bound(pre, i as int, 1, k);
                }
                if i < n - 1 {
                    assert(pre[1] <= pre[i as int + 1]);
                }
            }
            vswap(&mut self.a, 1, i);
            self.heap_size = self.heap_size - 1;
            let ghost hs = i as int - 1;
            proof {
                assert forall|j: int|
                    2 <= j <= hs && j / 2 > 1 implies self.a@[j / 2] >= #[trigger] self.a@[j] by {
                    vstd::arithmetic::div_mod::lemma_fundamental_div_mod(j, 2);
                    vstd::arithmetic::div_mod::lemma_mod_bound(j, 2);
                    assert(self.a@[j / 2] == pre[j / 2] && self.a@[j] == pre[j]);
                }
                assert forall|k: int|
                    #[trigger] in_subtree(k, 1int) && 1 <= k <= hs implies self.a@[k]
                    <= self.a@[i as int] by {
                    assert(self.a@[i as int] == pre[1]);
                    if k == 1 {
                        assert(self.a@[1] == pre[i as int]);
                    } else {
                        assert(self.a@[k] == pre[k]);
                    }
                }
            }
            let ghost mid = self.a@;
            let b = self.a[i];
            let idx: usize = 1;
            self.max_heapify(idx, Ghost(b));
            proof {
                lemma_subtree_shape(idx as int);
                assert(!in_subtree(0, idx as int));
                assert(self.a@[0] == mid[0]);
                assert(mid[0] == pre[0]);
                assert forall|j: int|
                    2 <= j <= hs implies self.a@[j / 2] >= #[trigger] self.a@[j] by {
                    vstd::arithmetic::div_mod::lemma_fundamental_div_mod(j, 2);
                    vstd::arithmetic::div_mod::lemma_mod_bound(j, 2);
                }
                assert forall|k: int| hs < k < n implies self.a@[k] == mid[k] by {
                    assert(!(in_subtree(k, idx as int) && k <= self.heap_size));
                }
                assert(self.a@[i as int] == pre[1]);
                // the new suffix stays in adjacent order
                assert forall|q: int|
                    i as int <= q < n - 1 implies self.a@[q] <= #[trigger] self.a@[q + 1] by {
                    if q == i as int {
                        if i < n - 1 {
                            assert(self.a@[q + 1] == mid[q + 1] && mid[q + 1] == pre[q + 1]);
                            assert(pre[1] <= pre[i + 1]);
                        }
                    } else {
                        assert(self.a@[q] == mid[q] && mid[q] == pre[q]);
                        assert(self.a@[q + 1] == mid[q + 1] && mid[q + 1] == pre[q + 1]);
                    }
                }
                // the live prefix stays below the suffix front
                assert forall|p: int| 1 <= p <= hs implies #[trigger] self.a@[p]
                    <= self.a@[i as int] by {
                    lemma_subtree_all(p);
                }
            }
            i = i - 1;
        }
        proof {
            if n >= 2 {
                assert(i == 1);
                assert forall|q: int| 1 <= q < n - 1 implies self.a@[q] <= #[trigger] self.a@[q
                    + 1] by {
                    if q == 1 {
                        if 1 < n - 1 {
                            assert(self.a@[1] <= self.a@[2]);
                        }
                    }
                }
                lemma_adjacent_sorted(self.a@, 1, n as int);
            } else {
                lemma_adjacent_sorted(self.a@, 1, n as int);
            }
        }
    }
}

/// A d-ary max-heap in a 0-indexed array.
pub struct DArrayHeap {
    pub a: Vec<u32>,
    pub d: usize,
    pub heap_size: usize,
}

impl DArrayHeap {
    /// Builds a d-ary heap holding the elements of the slice.
    pub fn build(a: &[u32], d: usize) -> (me: Self)
        requires
            1 <= d,
            a@.len() <= usize::MAX - d,
        ensures
            me.a@.to_multiset() == a@.to_multiset(),
            me.a.len() == a@.len(),
            me.d == d,
            me.heap_size == a@.len(),
    {
        let mut v: Vec<u32> = Vec::new();
        let mut k: usize = 0;
        while k < a.len()
            invariant
                k <= a@.len(),
                v@ == a@.subrange(0, k as int),
            decreases a@.len() - k,
        {
            let x = a[k];
            v.push(x);
            k += 1;
            proof {
                assert(v@ =~= a@.subrange(0, k as int));
            }
        }
        proof {
            assert(a@.subrange(0, a@.len() as int) =~= a@);
        }
        let mut me = DArrayHeap { heap_size: a.len(), a: v, d };
        me.build_max_heap();
        me
    }

    /// Sift-down for the d-ary arrangement: the entry at `i` descends below
    /// the largest of its up-to-d children.
    pub fn max_heapify(&mut self, i: usize)
        requires
            1 <= old(self).d,
            old(self).heap_size <= old(self).a.len(),
            i < old(self).a.len(),
            old(self).a.len() <= usize::MAX - old(self).d,
        ensures
            final(self).a@.to_multiset() == old(self).a@.to_multiset(),
            final(self).a.len() == old(self).a.len(),
            final(self).heap_size == old(self).heap_size,
            final(self).d == old(self).d,
        decreases old(self).a.len() - i,
    {
        let mut largest = i;
        let b = match self.d.checked_mul(i) {
            Some(b) => b,
            None => self.heap_size,
        };
        if b < self.heap_size {
            proof {
                assert(self.d * i >= i) by (nonlinear_arith)
                    requires
                        self.d >= 1 && i >= 0,
                ;
            }
            let mut j: usize = b + 1;
            let hi: usize = if self.d <= usize::MAX - b - 1 && b + self.d + 1 <= self.heap_size {
                b + self.d + 1
            } else {
                self.heap_size
            };
            while j < hi
                invariant
                    i <= largest,
                    largest < self.a.len(),
                    hi <= self.heap_size <= self.a.len(),
                    b + 1 > i,
                    b + 1 <= j,
                    largest == i || (b + 1 <= largest && i < largest && largest < hi),
                decreases hi - j,
            {
                if self.a[largest] < self.a[j] {
                    largest = j;
                    proof {
                        assert(j >= b + 1);
                    }
                }
                j += 1;
            }
        }
        if largest != i {
            vswap(&mut self.a, i, largest);
            self.max_heapify(largest);
        }
    }

    /// Re-establishes the heap arrangement over the whole array.
    pub fn build_max_heap(&mut self)
        requires
            1 <= old(self).d,
            old(self).a.len() <= usize::MAX - old(self).d,
        ensures
            final(self).a@.to_multiset() == old(self).a@.to_multiset(),
            final(self).a.len() == old(self).a.len(),
            final(self).heap_size == old(self).a.len(),
            final(self).d == old(self).d,
    {
        self.heap_size = self.a.len();
        let mut i: usize = (self.a.len() + self.d - 1) / self.d;
        while i >= 1
            invariant
                1 <= self.d,
                self.heap_size == self.a.len(),
                self.a.len() == old(self).a.len(),
                self.a.len() <= usize::MAX - self.d,
                self.d == old(self).d,
                self.a@.to_multiset() == old(self).a@.to_multiset(),
            decreases i,
        {
            i = i - 1;
            if i < self.a.len() {
                self.max_heapify(i);
            }
        }
    }

    /// In-place heapsort for the d-ary arrangement.
    pub fn sort(&mut self)
        requires
            1 <= old(self).d,
            old(self).a.len() <= usize::MAX - old(self).d,
        ensures
            final(self).a@.to_multiset() == old(self).a@.to_multiset(),
            final(self).a.len() == old(self).a.len(),
            final(self).d == old(self).d,
    {
        self.build_max_heap();
        if self.a.len() >= 1 {
            let mut i: usize = self.a.len() - 1;
            while i >= 1
                invariant
                    1 <= self.d,
                    i <= self.a.len() - 1,
                    1 <= self.a.len(),
                    self.heap_size == i + 1,
                    self.a.len() == old(self).a.len(),
                    self.a.len() <= usize::MAX - self.d,
                    self.d == old(self).d,
                    self.a@.to_multiset() == old(self).a@.to_multiset(),
                decreases i,
            {
                self.heap_size = self.heap_size - 1;
                vswap(&mut self.a, 0, i);
                self.max_heapify(0);
                i = i - 1;
            }
        }
    }

    /// Overwrites position `i` with a value no smaller than its entry and
    /// lets it climb above smaller parents.
    pub fn increase_key(&mut self, i: usize, key: u32)
        requires
            1 <= old(self).d,
            i < old(self).a.len(),
            old(self).a@[i as int] <= key,
        ensures
            final(self).a@.to_multiset() == old(self).a@.update(i as int, key).to_multiset(),
            final(self).a.len() == old(self).a.len(),
            final(self).heap_size == old(self).heap_size,
            final(self).d == old(self).d,
    {
        self.a.set(i, key);
        let ghost target = self.a@;
        let mut i = i;
        while i != 0 && self.a[self.parent(i)] < self.a[i]
            invariant
                1 <= self.d,
                i < self.a.len(),
                self.a.len() == old(self).a.len(),
                self.heap_size == old(self).heap_size,
                self.d == old(self).d,
                self.a@.to_multiset() == target.to_multiset(),
            decreases i,
        {
            let p = self.parent(i);
            vswap(&mut self.a, i, p);
            i = p;
        }
    }

    /// Adds an entry to the heap, growing the backing array if it is full;
    /// the elements gain exactly the new key.
    pub fn insert(&mut self, key: u32)
        requires
            1 <= old(self).d,
            old(self).heap_size < usize::MAX,
            old(self).heap_size <= old(self).a.len(),
        ensures
            final(self).heap_size == old(self).heap_size + 1,
            final(self).d == old(self).d,
            final(self).heap_size <= final(self).a.len(),
            old(self).heap_size < old(self).a.len() ==> final(self).a@.to_multiset() == old(
                self,
            ).a@.update(old(self).heap_size as int, key).to_multiset(),
            old(self).heap_size == old(self).a.len() ==> final(self).a@.to_multiset() == old(
                self,
            ).a@.push(key).to_multiset(),
    {
        self.heap_size = self.heap_size + 1;
        if self.a.len() < self.heap_size {
            self.a.push(0);
        }
        proof {
            broadcast use vstd::seq_lib::to_multiset_update;
            broadcast use vstd::seq_lib::group_to_multiset_ensures;
            broadcast use vstd::multiset::group_multiset_axioms;

            if old(self).heap_size == old(self).a.len() {
                assert(self.a@.update(self.heap_size - 1 as int, key).to_multiset()
                    =~= old(self).a@.push(key).to_multiset());
            }
        }
        self.a.set(self.heap_size - 1, 0);
        proof {
            broadcast use vstd::seq_lib::to_multiset_update;
            broadcast use vstd::multiset::group_multiset_axioms;

            assert(self.a@.update(self.heap_size - 1 as int, key).to_multiset()
                =~= self.a@.update(self.heap_size - 1 as int, 0u32).to_multiset().insert(
                key,
            ).remove(0u32));
        }
        self.increase_key(self.heap_size - 1, key);
        proof {
            broadcast use vstd::seq_lib::to_multiset_update;
            broadcast use vstd::multiset::group_multiset_axioms;

            if old(self).heap_size < old(self).a.len() {
                assert(self.a@.to_multiset() =~= old(self).a@.update(
                    old(self).heap_size as int,
                    key,
                ).to_multiset());
            } else {
                assert(self.a@.to_multiset() =~= old(self).a@.push(key).to_multiset());
            }
        }
    }

    /// Index of the parent of position `i` in the d-ary arrangement.
    fn parent(&self, i: usize) -> (r: usize)
        requires
            1 <= self.d,
            1 <= i,
        ensures
            r == (i - 1) as int / self.d as int,
            r < i,
    {
        (i - 1) / self.d
    }
}

} // verus!
