//! A left-leaning red-black tree over `u64` keys and `u64` values, augmented
//! with a per-node subtree size and a folded accumulator (the wrapping sum of
//! the subtree's values).
//!
//! Keys are unique: inserting a key that is already present leaves the tree
//! unchanged.  The abstract view of a tree is its in-order sequence of
//! `(key, value)` pairs, which is strictly sorted by key.

use vstd::prelude::*;
use crate::wadd;

verus! {

/// Node colour of the red-black balancing scheme.
#[derive(Clone, Copy, PartialEq, Eq, Debug, Structural)]
pub enum Color {
    Red,
    Black,
}

pub struct Node {
    pub key: u64,
    pub value: u64,
    pub color: Color,
    /// Number of nodes in the subtree rooted here.
    pub size: usize,
    /// Wrapping sum of all values in the subtree rooted here.
    pub acc: u64,
    pub left: Option<Box<Node>>,
    pub right: Option<Box<Node>>,
}

/// An ordered map with order-statistic and range-fold queries.
pub struct LLRB {
    root: Option<Box<Node>>,
}

/// In-order sequence of `(key, value)` pairs of an optional subtree.
pub open spec fn seq_of(n: Option<Box<Node>>) -> Seq<(u64, u64)>
    decreases n,
{
    match n {
        None => Seq::empty(),
        Some(node) => seq_of(node.left) + seq![(node.key, node.value)] + seq_of(node.right),
    }
}

/// The keys of an in-order sequence are strictly increasing.
pub open spec fn sorted(s: Seq<(u64, u64)>) -> bool {
    forall|i: int, j: int| 0 <= i < j < s.len() ==> s[i].0 < s[j].0
}

/// Wrapping sum of the values of a sequence of pairs.
pub open spec fn sum_of(s: Seq<(u64, u64)>) -> u64
    decreases s.len(),
{
    if s.len() == 0 {
        0u64
    } else {
        wadd(sum_of(s.drop_last()), s.last().1)
    }
}

pub open spec fn color_of(n: Option<Box<Node>>) -> Color {
    match n {
        None => Color::Black,
        Some(node) => node.color,
    }
}

pub open spec fn is_red(n: Option<Box<Node>>) -> bool {
    color_of(n) is Red
}

/// Number of black nodes on the path from the root of `n` to its leftmost
/// nil; under `colors_ok` every root-to-nil path has this count.
pub open spec fn black_height(n: Option<Box<Node>>) -> nat
    decreases n,
{
    match n {
        None => 0,
        Some(node) => black_height(node.left) + if node.color is Black { 1nat } else { 0nat },
    }
}

/// The colouring invariants of the left-leaning red-black discipline: no red
/// node has a red child, red links only appear as left children, and the
/// black-node count is the same along every root-to-nil path.
pub open spec fn colors_ok(n: Option<Box<Node>>) -> bool
    decreases n,
{
    match n {
        None => true,
        Some(node) => {
            &&& colors_ok(node.left)
            &&& colors_ok(node.right)
            &&& black_height(node.left) == black_height(node.right)
            &&& !is_red(node.right)
            &&& (node.color is Red ==> !is_red(node.left))
        },
    }
}

/// Structural well-formedness of a subtree: binary-search-tree order and
/// correct `size` and `acc` augmentations at every node.
pub open spec fn bst_ok(n: Option<Box<Node>>) -> bool
    decreases n,
{
    match n {
        None => true,
        Some(node) => {
            &&& bst_ok(node.left)
            &&& bst_ok(node.right)
            &&& (forall|i: int|
                0 <= i < seq_of(node.left).len() ==> (#[trigger] seq_of(node.left)[i]).0
                    < node.key)
            &&& (forall|i: int|
                0 <= i < seq_of(node.right).len() ==> (#[trigger] seq_of(node.right)[i]).0
                    > node.key)
            &&& node.size == seq_of(Some(node)).len()
            &&& node.acc == sum_of(seq_of(Some(node)))
        },
    }
}

/// There is an entry with key `k` in the sequence.
pub open spec fn contains_key(s: Seq<(u64, u64)>, k: u64) -> bool {
    exists|i: int| 0 <= i < s.len() && (#[trigger] s[i]).0 == k
}

/// Every key of the sequence is strictly below `k`.
pub open spec fn all_keys_lt(s: Seq<(u64, u64)>, k: u64) -> bool {
    forall|i: int| 0 <= i < s.len() ==> (#[trigger] s[i]).0 < k
}

/// Every key of the sequence is strictly above `k`.
pub open spec fn all_keys_gt(s: Seq<(u64, u64)>, k: u64) -> bool {
    forall|i: int| 0 <= i < s.len() ==> (#[trigger] s[i]).0 > k
}

/// The node's children are well formed and sit on the proper sides of its
/// key; the node's own `size` and `acc` fields are not constrained (they are
/// re-derived by `update` after a structural change).
pub open spec fn order_ok(node: Node) -> bool {
    &&& bst_ok(node.left)
    &&& bst_ok(node.right)
    &&& all_keys_lt(seq_of(node.left), node.key)
    &&& all_keys_gt(seq_of(node.right), node.key)
}

/// The one transient colour violation that insertion and deletion hand back
/// to their caller: a red root whose left child is also red, everything else
/// well coloured.  The caller's fixup resolves it.
pub open spec fn redred_left(n: Option<Box<Node>>) -> bool {
    match n {
        None => false,
        Some(nd) => {
            &&& nd.color is Red
            &&& is_red(nd.left)
            &&& !is_red(nd.right)
            &&& colors_ok(nd.left)
            &&& colors_ok(nd.right)
            &&& black_height(nd.left) == black_height(nd.right)
        },
    }
}

/// The wrapping sum splits across concatenation.
pub proof fn lemma_sum_of_add(a: Seq<(u64, u64)>, b: Seq<(u64, u64)>)
    ensures
        sum_of(a + b) == wadd(sum_of(a), sum_of(b)),
    decreases b.len(),
{
    if b.len() == 0 {
        assert(a + b =~= a);
    } else {
        lemma_sum_of_add(a, b.drop_last());
        assert((a + b).drop_last() =~= a + b.drop_last());
        crate::lemma_wadd_assoc(sum_of(a), sum_of(b.drop_last()), b.last().1);
    }
}

/// A well-formed subtree reads out in strictly increasing key order.
pub proof fn lemma_bst_sorted(n: Option<Box<Node>>)
    requires
        bst_ok(n),
    ensures
        sorted(seq_of(n)),
    decreases n,
{
    match n {
        None => {},
        Some(node) => {
            lemma_bst_sorted(node.left);
            lemma_bst_sorted(node.right);
            let l = seq_of(node.left);
            let r = seq_of(node.right);
            let s = seq_of(n);
            assert forall|i: int, j: int| 0 <= i < j < s.len() implies s[i].0 < s[j].0 by {
                if j < l.len() {
                } else if j == l.len() {
                    assert(s[i] == l[i]);
                } else {
                    if i < l.len() {
                        assert(s[i] == l[i]);
                    } else if i == l.len() {
                    } else {
                        assert(s[i] == r[i - l.len() - 1]);
                    }
                    assert(s[j] == r[j - l.len() - 1]);
                }
            }
        },
    }
}

fn is_red_of(n: &Option<Box<Node>>) -> (b: bool)
    ensures
        b == is_red(*n),
{
    match n {
        None => false,
        Some(node) => node.color == Color::Red,
    }
}

/// Re-derives the `size` and `acc` augmentations of a node from its (already
/// correct) children; every structural change calls this before returning.
fn update(node: Box<Node>) -> (r: Box<Node>)
    requires
        bst_ok(node.left),
        bst_ok(node.right),
        seq_of(node.left).len() + 1 + seq_of(node.right).len() <= usize::MAX,
    ensures
        r.key == node.key,
        r.value == node.value,
        r.color == node.color,
        r.left == node.left,
        r.right == node.right,
        r.size == seq_of(Some(r)).len(),
        r.acc == sum_of(seq_of(Some(r))),
{
    let mut node = node;
    let lsize: usize = match &node.left {
        None => 0,
        Some(l) => l.size,
    };
    let rsize: usize = match &node.right {
        None => 0,
        Some(l) => l.size,
    };
    let lacc: u64 = match &node.left {
        None => 0,
        Some(l) => l.acc,
    };
    let racc: u64 = match &node.right {
        None => 0,
        Some(l) => l.acc,
    };
    node.size = lsize + 1 + rsize;
    node.acc = lacc.wrapping_add(node.value).wrapping_add(racc);
    proof {
        let l = seq_of(node.left);
        let r = seq_of(node.right);
        let m = seq![(node.key, node.value)];
        assert(m.drop_last() =~= Seq::<(u64, u64)>::empty());
        assert(sum_of(m.drop_last()) == 0);
        assert(sum_of(m) == wadd(0, node.value));
        lemma_sum_of_add(l, m);
        lemma_sum_of_add(l + m, r);
        assert(seq_of(Some(node)) == l + m + r);
        assert(node.acc == wadd(wadd(sum_of(l), node.value), sum_of(r)));
    }
    node
}

/// Single left rotation: the red right child becomes the subtree root.
fn rotate_left(x: Box<Node>) -> (y: Box<Node>)
    requires
        x.right is Some,
        is_red(x.right),
        order_ok(*x),
        seq_of(x.left).len() + 1 + seq_of(x.right).len() <= usize::MAX,
    ensures
        bst_ok(Some(y)),
        seq_of(Some(y)) == seq_of(x.left) + seq![(x.key, x.value)] + seq_of(x.right),
        y.color == x.color,
        y.key == x.right.unwrap().key,
        y.value == x.right.unwrap().value,
        y.right == x.right.unwrap().right,
        y.left is Some,
        y.left.unwrap().color is Red,
        y.left.unwrap().key == x.key,
        y.left.unwrap().value == x.value,
        y.left.unwrap().left == x.left,
        y.left.unwrap().right == x.right.unwrap().left,
{
    let mut x = x;
    let ghost gx = *x;
    let mut y = x.right.take().unwrap();
    x.right = y.left.take();
    y.color = x.color;
    x.color = Color::Red;
    proof {
        let gy = gx.right.unwrap();
        let l = seq_of(gx.left);
        let m = seq![(gx.key, gx.value)];
        let yl = seq_of(gy.left);
        let ym = seq![(gy.key, gy.value)];
        let yr = seq_of(gy.right);
        assert(seq_of(gx.right) == yl + ym + yr);
        // the old root's key is below the new root's key
        assert((yl + ym + yr)[yl.len() as int] == (gy.key, gy.value));
        assert(gx.key < gy.key);
        // keys moving to the old root's right side stay above its key
        assert forall|i: int| 0 <= i < yl.len() implies (#[trigger] yl[i]).0 > gx.key by {
            assert((yl + ym + yr)[i] == yl[i]);
        }
        assert(all_keys_gt(seq_of(x.right), x.key));
    }
    let x = update(x);
    proof {
        let gy = gx.right.unwrap();
        let l = seq_of(gx.left);
        let m = seq![(gx.key, gx.value)];
        let yl = seq_of(gy.left);
        assert(bst_ok(Some(x)));
        assert(seq_of(Some(x)) == l + m + yl);
        // everything below the new root's left child is below the new key
        assert forall|i: int|
            0 <= i < seq_of(Some(x)).len() implies (#[trigger] seq_of(Some(x))[i]).0 < gy.key by {
            let s = seq_of(Some(x));
            if i < l.len() {
                assert(s[i] == l[i]);
                assert(l[i].0 < gx.key);
            } else if i == l.len() {
                assert(s[i] == m[0]);
            } else {
                assert(s[i] == yl[i - l.len() - 1]);
            }
        }
    }
    y.left = Some(x);
    let y = update(y);
    proof {
        let gy = gx.right.unwrap();
        assert(all_keys_lt(seq_of(y.left), y.key));
        assert(all_keys_gt(seq_of(y.right), y.key));
        assert(bst_ok(Some(y)));
        assert(seq_of(Some(y)) =~= seq_of(gx.left) + seq![(gx.key, gx.value)] + seq_of(gx.right));
    }
    y
}

/// Single right rotation: the red left child becomes the subtree root.
fn rotate_right(x: Box<Node>) -> (y: Box<Node>)
    requires
        x.left is Some,
        is_red(x.left),
        order_ok(*x),
        seq_of(x.left).len() + 1 + seq_of(x.right).len() <= usize::MAX,
    ensures
        bst_ok(Some(y)),
        seq_of(Some(y)) == seq_of(x.left) + seq![(x.key, x.value)] + seq_of(x.right),
        y.color == x.color,
        y.key == x.left.unwrap().key,
        y.value == x.left.unwrap().value,
        y.left == x.left.unwrap().left,
        y.right is Some,
        y.right.unwrap().color is Red,
        y.right.unwrap().key == x.key,
        y.right.unwrap().value == x.value,
        y.right.unwrap().right == x.right,
        y.right.unwrap().left == x.left.unwrap().right,
{
    let mut x = x;
    let ghost gx = *x;
    let mut y = x.left.take().unwrap();
    x.left = y.right.take();
    y.color = x.color;
    x.color = Color::Red;
    proof {
        let gy = gx.left.unwrap();
        let yl = seq_of(gy.left);
        let ym = seq![(gy.key, gy.value)];
        let yr = seq_of(gy.right);
        assert(seq_of(gx.left) == yl + ym + yr);
        // the old root's key is above the new root's key
        assert((yl + ym + yr)[yl.len() as int] == (gy.key, gy.value));
        assert(gy.key < gx.key);
        // keys moving to the old root's left side stay below its key
        assert forall|i: int| 0 <= i < yr.len() implies (#[trigger] yr[i]).0 < gx.key by {
            assert((yl + ym + yr)[yl.len() + 1 + i] == yr[i]);
        }
        assert(all_keys_lt(seq_of(x.left), x.key));
    }
    let x = update(x);
    proof {
        let gy = gx.left.unwrap();
        let yr = seq_of(gy.right);
        let m = seq![(gx.key, gx.value)];
        let r = seq_of(gx.right);
        assert(bst_ok(Some(x)));
        assert(seq_of(Some(x)) == yr + m + r);
        // everything below the new root's right child is above the new key
        assert forall|i: int|
            0 <= i < seq_of(Some(x)).len() implies (#[trigger] seq_of(Some(x))[i]).0 > gy.key by {
            let s = seq_of(Some(x));
            if i < yr.len() {
                assert(s[i] == yr[i]);
            } else if i == yr.len() {
                assert(s[i] == m[0]);
            } else {
                assert(s[i] == r[i - yr.len() - 1]);
                assert(r[i - yr.len() - 1].0 > gx.key);
            }
        }
    }
    y.right = Some(x);
    let y = update(y);
    proof {
        assert(all_keys_lt(seq_of(y.left), y.key));
        assert(all_keys_gt(seq_of(y.right), y.key));
        assert(bst_ok(Some(y)));
        assert(seq_of(Some(y)) =~= seq_of(gx.left) + seq![(gx.key, gx.value)] + seq_of(gx.right));
    }
    y
}

/// The left child of the root of `n` is red.
pub open spec fn left_red(n: Option<Box<Node>>) -> bool {
    match n {
        None => false,
        Some(nd) => is_red(nd.left),
    }
}

fn left_is_red(n: &Option<Box<Node>>) -> (b: bool)
    ensures
        b == left_red(*n),
{
    match n {
        None => false,
        Some(nd) => is_red_of(&nd.left),
    }
}

/// Recolours a node, leaving everything else in place.
fn paint(n: Box<Node>, c: Color) -> (r: Box<Node>)
    ensures
        r.key == n.key,
        r.value == n.value,
        r.size == n.size,
        r.acc == n.acc,
        r.left == n.left,
        r.right == n.right,
        r.color == c,
        seq_of(Some(r)) == seq_of(Some(n)),
        bst_ok(Some(n)) ==> bst_ok(Some(r)),
{
    let mut n = n;
    n.color = c;
    n
}

proof fn lemma_filter_keys_lt(s: Seq<(u64, u64)>, pred: spec_fn((u64, u64)) -> bool, k: u64)
    requires
        all_keys_lt(s, k),
    ensures
        all_keys_lt(s.filter(pred), k),
    decreases s.len(),
{
    reveal(Seq::filter);
    if s.len() > 0 {
        assert(forall|i: int| 0 <= i < s.drop_last().len() ==> #[trigger] s.drop_last()[i] == s[i]);
        lemma_filter_keys_lt(s.drop_last(), pred, k);
    }
}

proof fn lemma_filter_keys_gt(s: Seq<(u64, u64)>, pred: spec_fn((u64, u64)) -> bool, k: u64)
    requires
        all_keys_gt(s, k),
    ensures
        all_keys_gt(s.filter(pred), k),
    decreases s.len(),
{
    reveal(Seq::filter);
    if s.len() > 0 {
        assert(forall|i: int| 0 <= i < s.drop_last().len() ==> #[trigger] s.drop_last()[i] == s[i]);
        lemma_filter_keys_gt(s.drop_last(), pred, k);
    }
}

/// Local invariant restoration, run at every node on the way back up from a
/// structural change.  A node holding two red children is split at once
/// (this also absorbs the transient red pair a recursive call hands back);
/// a lone red right link rotates left, one that itself carries a red left
/// link first needing the double rotation; a left-leaning pair of red links
/// rotates right and the resulting pair of red children splits.
fn fixup(b: Box<Node>) -> (r: Box<Node>)
    requires
        order_ok(*b),
        seq_of(b.left).len() + 1 + seq_of(b.right).len() <= usize::MAX,
        black_height(b.left) == black_height(b.right),
        colors_ok(b.left) || redred_left(b.left),
        colors_ok(b.right) || redred_left(b.right),
        !(redred_left(b.left) && redred_left(b.right)),
        b.color is Red ==> colors_ok(b.left) && colors_ok(b.right) && !(is_red(b.left) && is_red(
            b.right,
        )),
    ensures
        bst_ok(Some(r)),
        seq_of(Some(r)) == seq_of(b.left) + seq![(b.key, b.value)] + seq_of(b.right),
        black_height(Some(r)) == black_height(Some(b)),
        colors_ok(Some(r)) || redred_left(Some(r)),
        b.color is Black ==> colors_ok(Some(r)),
{
    let ghost gb = *b;
    let ghost gb0 = b;
    let ghost hl = black_height(gb.left);
    let mut b = update(b);
    if is_red_of(&b.left) && is_red_of(&b.right) {
        // split: demote both children to black, promote this node to red
        proof {
            assert(gb.color is Black);
            let nl = gb.left.unwrap();
            let nr = gb.right.unwrap();
            assert(colors_ok(nl.left) && colors_ok(nl.right) && !is_red(nl.right));
            assert(black_height(nl.left) == hl && black_height(nl.right) == hl);
            assert(colors_ok(nr.left) && colors_ok(nr.right) && !is_red(nr.right));
            assert(black_height(nr.left) == hl && black_height(nr.right) == hl);
        }
        b = paint(b, Color::Red);
        let l = b.left.take().unwrap();
        b.left = Some(paint(l, Color::Black));
        let r = b.right.take().unwrap();
        b.right = Some(paint(r, Color::Black));
        proof {
            assert(colors_ok(b.left));
            assert(colors_ok(b.right));
            assert(black_height(b.left) == hl + 1);
            assert(black_height(b.right) == hl + 1);
            assert(colors_ok(Some(b)));
            assert(black_height(Some(b)) == black_height(Some(gb0)));
            assert(seq_of(Some(b)) =~= seq_of(gb.left) + seq![(gb.key, gb.value)] + seq_of(
                gb.right,
            ));
            assert(bst_ok(Some(b)));
        }
        return b;
    }
    if !is_red_of(&b.left) && is_red_of(&b.right) && left_is_red(&b.right) {
        // a red right child carrying a red left link: double rotation + split
        proof {
            assert(redred_left(gb.right));
            assert(gb.color is Black);
            assert(colors_ok(gb.right.unwrap().left));
        }
        let c = b.right.take().unwrap();
        let ghost gc = *c;
        let c = rotate_right(c);
        proof {
            assert(all_keys_gt(seq_of(Some(c)), b.key));
            assert(c.color is Red);
            assert(c.left == gc.left.unwrap().left);
            assert(c.right.unwrap().left == gc.left.unwrap().right);
            assert(c.right.unwrap().right == gc.right);
        }
        b.right = Some(c);
        let y = rotate_left(b);
        let mut y = paint(y, Color::Red);
        let yl = y.left.take().unwrap();
        y.left = Some(paint(yl, Color::Black));
        let yr = y.right.take().unwrap();
        y.right = Some(paint(yr, Color::Black));
        proof {
            assert(bst_ok(Some(y)));
            assert(seq_of(Some(y)) =~= seq_of(gb.left) + seq![(gb.key, gb.value)] + seq_of(
                gb.right,
            ));
            let nl = y.left.unwrap();
            assert(nl.left == gb.left);
            assert(nl.right == gc.left.unwrap().left);
            assert(black_height(gb.right) == hl);
            assert(black_height(gc.left.unwrap().left) == hl);
            assert(colors_ok(Some(nl)));
            assert(black_height(Some(nl)) == hl + 1);
            let nr = y.right.unwrap();
            assert(colors_ok(nr.left));
            assert(colors_ok(nr.right));
            assert(black_height(nr.left) == hl);
            assert(black_height(nr.right) == hl);
            assert(colors_ok(Some(nr)));
            assert(black_height(Some(nr)) == hl + 1);
            assert(colors_ok(Some(y)));
            assert(black_height(Some(y)) == black_height(Some(gb0)));
        }
        return y;
    }
    if !is_red_of(&b.left) && is_red_of(&b.right) {
        // a lone red right link: rotate left
        proof {
            assert(colors_ok(gb.right));
            assert(!is_red(gb.right.unwrap().left));
            assert(!is_red(gb.right.unwrap().right));
            assert(colors_ok(gb.left));
        }
        b = rotate_left(b);
        proof {
            let nl = b.left.unwrap();
            assert(nl.left == gb.left);
            assert(nl.right == gb.right.unwrap().left);
            assert(black_height(gb.right.unwrap().left) == hl);
            assert(colors_ok(Some(nl)));
            assert(black_height(Some(nl)) == hl);
            assert(black_height(b.right) == hl);
            assert(colors_ok(b.right));
            assert(!is_red(b.right));
            if b.color is Black {
                assert(colors_ok(Some(b)));
            } else {
                assert(redred_left(Some(b)));
            }
            assert(black_height(Some(b)) == black_height(Some(gb0)));
        }
    }
    if is_red_of(&b.left) && left_is_red(&b.left) {
        // a left-leaning pair of red links: rotate right, then split
        proof {
            assert(redred_left(b.left));
            assert(gb.color is Black && b.color is Black);
            assert(!is_red(b.right));
            assert(colors_ok(b.left.unwrap().left));
            assert(colors_ok(b.left.unwrap().right));
            assert(black_height(b.left.unwrap().left) == hl);
            assert(black_height(b.left.unwrap().right) == hl);
        }
        b = rotate_right(b);
        proof {
            let nr = b.right.unwrap();
            assert(black_height(Some(nr)) == hl);
            assert(black_height(b.left) == hl);
            assert(is_red(b.left) && is_red(b.right));
            assert(colors_ok(nr.left) && colors_ok(nr.right) && !is_red(nr.right));
        }
        b = paint(b, Color::Red);
        let l = b.left.take().unwrap();
        b.left = Some(paint(l, Color::Black));
        let r = b.right.take().unwrap();
        b.right = Some(paint(r, Color::Black));
        proof {
            assert(colors_ok(b.left));
            assert(colors_ok(b.right));
            assert(black_height(b.left) == hl + 1);
            assert(black_height(b.right) == hl + 1);
            assert(colors_ok(Some(b)));
            assert(black_height(Some(b)) == black_height(Some(gb0)));
        }
    }
    proof {
        assert(seq_of(Some(b)) =~= seq_of(gb.left) + seq![(gb.key, gb.value)] + seq_of(gb.right));
        assert(bst_ok(Some(b)));
        if gb.color is Black {
            assert(colors_ok(Some(b)));
        } else {
            assert(colors_ok(Some(b)) || redred_left(Some(b)));
        }
        assert(black_height(Some(b)) == black_height(Some(gb0)));
    }
    b
}

/// Appending an entry below the bound keeps the bound: stated through the
/// multiset so that it composes with the insertion contract.
proof fn lemma_ms_keys_lt(s: Seq<(u64, u64)>, t: Seq<(u64, u64)>, kv: (u64, u64), k: u64)
    requires
        all_keys_lt(s, k),
        kv.0 < k,
        t.to_multiset() == s.to_multiset().insert(kv),
    ensures
        all_keys_lt(t, k),
{
    broadcast use vstd::seq_lib::group_to_multiset_ensures;

    assert forall|i: int| 0 <= i < t.len() implies (#[trigger] t[i]).0 < k by {
        assert(t.contains(t[i]));
        assert(t.to_multiset().count(t[i]) > 0);
        if t[i] != kv {
            assert(s.to_multiset().count(t[i]) > 0);
            assert(s.contains(t[i]));
            let j = choose|j: int| 0 <= j < s.len() && s[j] == t[i];
            assert(s[j].0 < k);
        }
    }
}

/// Appending an entry above the bound keeps the bound.
proof fn lemma_ms_keys_gt(s: Seq<(u64, u64)>, t: Seq<(u64, u64)>, kv: (u64, u64), k: u64)
    requires
        all_keys_gt(s, k),
        kv.0 > k,
        t.to_multiset() == s.to_multiset().insert(kv),
    ensures
        all_keys_gt(t, k),
{
    broadcast use vstd::seq_lib::group_to_multiset_ensures;

    assert forall|i: int| 0 <= i < t.len() implies (#[trigger] t[i]).0 > k by {
        assert(t.contains(t[i]));
        assert(t.to_multiset().count(t[i]) > 0);
        if t[i] != kv {
            assert(s.to_multiset().count(t[i]) > 0);
            assert(s.contains(t[i]));
            let j = choose|j: int| 0 <= j < s.len() && s[j] == t[i];
            assert(s[j].0 > k);
        }
    }
}

/// Removing an entry keeps an upper bound on the keys.
proof fn lemma_ms_sub_keys_lt(small: Seq<(u64, u64)>, big: Seq<(u64, u64)>, kv: (u64, u64), k: u64)
    requires
        all_keys_lt(big, k),
        big.to_multiset() == small.to_multiset().insert(kv),
    ensures
        all_keys_lt(small, k),
{
    broadcast use vstd::seq_lib::group_to_multiset_ensures;
    broadcast use vstd::multiset::group_multiset_axioms;

    assert forall|i: int| 0 <= i < small.len() implies (#[trigger] small[i]).0 < k by {
        assert(small.contains(small[i]));
        assert(small.to_multiset().count(small[i]) > 0);
        assert(big.to_multiset().count(small[i]) > 0);
        assert(big.contains(small[i]));
        let j = choose|j: int| 0 <= j < big.len() && big[j] == small[i];
        assert(big[j].0 < k);
    }
}

/// Removing an entry keeps a lower bound on the keys.
proof fn lemma_ms_sub_keys_gt(small: Seq<(u64, u64)>, big: Seq<(u64, u64)>, kv: (u64, u64), k: u64)
    requires
        all_keys_gt(big, k),
        big.to_multiset() == small.to_multiset().insert(kv),
    ensures
        all_keys_gt(small, k),
{
    broadcast use vstd::seq_lib::group_to_multiset_ensures;
    broadcast use vstd::multiset::group_multiset_axioms;

    assert forall|i: int| 0 <= i < small.len() implies (#[trigger] small[i]).0 > k by {
        assert(small.contains(small[i]));
        assert(small.to_multiset().count(small[i]) > 0);
        assert(big.to_multiset().count(small[i]) > 0);
        assert(big.contains(small[i]));
        let j = choose|j: int| 0 <= j < big.len() && big[j] == small[i];
        assert(big[j].0 > k);
    }
}

/// An insertion into the left part of a three-way concatenation is an
/// insertion into the whole.
proof fn lemma_ms3_left(
    l2: Seq<(u64, u64)>,
    l: Seq<(u64, u64)>,
    m: Seq<(u64, u64)>,
    r: Seq<(u64, u64)>,
    kv: (u64, u64),
)
    requires
        l2.to_multiset() == l.to_multiset().insert(kv),
    ensures
        (l2 + m + r).to_multiset() == (l + m + r).to_multiset().insert(kv),
{
    vstd::seq_lib::lemma_multiset_commutative(l2 + m, r);
    vstd::seq_lib::lemma_multiset_commutative(l2, m);
    vstd::seq_lib::lemma_multiset_commutative(l + m, r);
    vstd::seq_lib::lemma_multiset_commutative(l, m);
    assert((l2 + m + r).to_multiset() =~= (l + m + r).to_multiset().insert(kv));
}

/// An insertion into the right part of a three-way concatenation is an
/// insertion into the whole.
proof fn lemma_ms3_right(
    r2: Seq<(u64, u64)>,
    l: Seq<(u64, u64)>,
    m: Seq<(u64, u64)>,
    r: Seq<(u64, u64)>,
    kv: (u64, u64),
)
    requires
        r2.to_multiset() == r.to_multiset().insert(kv),
    ensures
        (l + m + r2).to_multiset() == (l + m + r).to_multiset().insert(kv),
{
    vstd::seq_lib::lemma_multiset_commutative(l + m, r2);
    vstd::seq_lib::lemma_multiset_commutative(l + m, r);
    assert((l + m + r2).to_multiset() =~= (l + m + r).to_multiset().insert(kv));
}

/// A key found in one part of the in-order sequence is a key of the whole,
/// and conversely a key strictly between the parts' bounds can only sit in
/// the middle.
proof fn lemma_contains_split(l: Seq<(u64, u64)>, mk: u64, mv: u64, rr: Seq<(u64, u64)>, key: u64)
    requires
        all_keys_lt(l, mk),
        all_keys_gt(rr, mk),
    ensures
        key < mk ==> (contains_key(l + seq![(mk, mv)] + rr, key) <==> contains_key(l, key)),
        key > mk ==> (contains_key(l + seq![(mk, mv)] + rr, key) <==> contains_key(rr, key)),
        key == mk ==> contains_key(l + seq![(mk, mv)] + rr, key),
{
    let s = l + seq![(mk, mv)] + rr;
    assert(s[l.len() as int] == (mk, mv));
    if contains_key(s, key) {
        let i = choose|i: int| 0 <= i < s.len() && (#[trigger] s[i]).0 == key;
        if i < l.len() {
            assert(l[i] == s[i]);
        } else if i > l.len() {
            assert(s[i] == rr[i - l.len() - 1]);
        }
    }
    if contains_key(l, key) {
        let i = choose|i: int| 0 <= i < l.len() && (#[trigger] l[i]).0 == key;
        assert(s[i] == l[i]);
    }
    if contains_key(rr, key) {
        let i = choose|i: int| 0 <= i < rr.len() && (#[trigger] rr[i]).0 == key;
        assert(s[l.len() + 1 + i] == rr[i]);
    }
}

/// A 2-node: a black node with no red child, the minimal shape that cannot
/// give up a key without losing height.
pub open spec fn two(n: Option<Box<Node>>) -> bool {
    match n {
        None => false,
        Some(nd) => nd.color is Black && !is_red(nd.left) && !is_red(nd.right),
    }
}

fn is_two(n: &Option<Box<Node>>) -> (b: bool)
    ensures
        b == two(*n),
{
    match n {
        None => false,
        Some(nd) => nd.color == Color::Black && !is_red_of(&nd.left) && !is_red_of(&nd.right),
    }
}

/// A black subtree of black height zero is empty.
proof fn lemma_black_empty(x: Option<Box<Node>>)
    requires
        colors_ok(x),
        !is_red(x),
        black_height(x) == 0,
    ensures
        x is None,
{
    if x is Some {
        assert(black_height(x) == black_height(x.unwrap().left) + 1);
    }
}

/// Merges a red link down into a left 2-node child before descending into
/// it, so the child entered is never minimal; a red left grandchild on the
/// other side is rotated across to keep the black heights level.
#[verifier::rlimit(100)]
fn move_left(b: Box<Node>) -> (r: Box<Node>)
    requires
        b.color is Red,
        two(b.left),
        bst_ok(Some(b)),
        colors_ok(Some(b)),
    ensures
        bst_ok(Some(r)),
        seq_of(Some(r)) == seq_of(Some(b)),
        black_height(Some(r)) == black_height(Some(b)),
        r.key >= b.key,
        colors_ok(r.left),
        colors_ok(r.right),
        black_height(r.left) == black_height(r.right),
        r.color is Red ==> !is_red(r.left) && !is_red(r.right),
        is_red(r.left) || left_red(r.left),
        !is_red(r.right) || r.color is Black,
{
    let ghost gb = *b;
    let ghost gb0 = b;
    let ghost h = black_height(gb.left);
    let mut b = paint(b, Color::Black);
    let l = b.left.take().unwrap();
    b.left = Some(paint(l, Color::Red));
    let ghost pl = b.left;
    proof {
        assert(black_height(gb.left) == black_height(gb.left.unwrap().left) + 1);
        assert(h >= 1);
        assert(colors_ok(gb.left));
        let gln = gb.left.unwrap();
        assert(colors_ok(gln.left) && colors_ok(gln.right));
        assert(black_height(gln.left) == black_height(gln.right));
        let pn = pl.unwrap();
        assert(pn.left == gln.left && pn.right == gln.right && pn.color is Red);
        assert(!is_red(pn.left) && !is_red(pn.right));
        assert(colors_ok(pl));
        assert(black_height(pl) == black_height(pn.left));
        assert(black_height(gln.left) == (h - 1) as nat);
        assert(black_height(pl) == (h - 1) as nat);
        assert(black_height(gb.right) == h);
        if gb.right is None {
            assert(black_height(gb.right) == 0);
        }
    }
    let c1 = b.right.take().unwrap();
    let ghost gc1 = *c1;
    let mut c1 = paint(c1, Color::Red);
    proof {
        assert(black_height(gb.right) == black_height(gc1.left) + 1);
    }
    if is_red_of(&c1.left) {
        // the neighbour was a 3-node: rotate its red link across
        let c1r = rotate_right(c1);
        proof {
            assert(all_keys_gt(seq_of(Some(c1r)), b.key));
            assert(bst_ok(b.left));
        }
        b.right = Some(c1r);
        let y = rotate_left(b);
        let mut y = paint(y, Color::Red);
        let yl = y.left.take().unwrap();
        y.left = Some(paint(yl, Color::Black));
        let yr = y.right.take().unwrap();
        y.right = Some(paint(yr, Color::Black));
        proof {
            assert(bst_ok(Some(y)));
            assert(seq_of(Some(y)) =~= seq_of(Some(gb0)));
            assert(colors_ok(gb.right));
            assert(colors_ok(gc1.left));
            let gcl = gc1.left.unwrap();
            assert(colors_ok(gcl.left) && colors_ok(gcl.right) && !is_red(gcl.left) && !is_red(
                gcl.right,
            ));
            assert(black_height(gc1.left) == (h - 1) as nat);
            assert(black_height(gcl.left) == black_height(gc1.left));
            assert(black_height(gcl.right) == black_height(gc1.left));
            let nl = y.left.unwrap();
            assert(nl.left == pl);
            assert(is_red(nl.left));
            assert(nl.right == gcl.left);
            assert(black_height(nl.right) == (h - 1) as nat);
            assert(colors_ok(Some(nl)));
            assert(black_height(Some(nl)) == h);
            let nr = y.right.unwrap();
            assert(nr.left == gcl.right);
            assert(nr.right == gc1.right);
            assert(colors_ok(gc1.right) && !is_red(gc1.right));
            assert(black_height(gc1.right) == (h - 1) as nat);
            assert(colors_ok(Some(nr)));
            assert(black_height(Some(nr)) == h);
            assert(colors_ok(Some(y)));
            assert(black_height(Some(y)) == h);
            assert(black_height(Some(gb0)) == h);
            assert(seq_of(gc1.left).len() > 0);
            assert(all_keys_gt(seq_of(gb.right), gb.key));
            assert(seq_of(gb.right)[0] == seq_of(gc1.left)[0]);
            assert(y.key > gb.key);
        }
        y
    } else {
        b.right = Some(c1);
        proof {
            assert(seq_of(Some(b)) =~= seq_of(Some(gb0)));
            assert(bst_ok(Some(b)));
            assert(colors_ok(b.left));
            assert(colors_ok(gb.right));
            assert(colors_ok(gc1.left) && colors_ok(gc1.right));
            assert(black_height(gc1.left) == black_height(gc1.right));
            assert(colors_ok(b.right));
            assert(black_height(b.right) == (h - 1) as nat);
            assert(black_height(Some(b)) == h);
            assert(black_height(Some(gb0)) == h);
        }
        b
    }
}

/// Merges a red link down into a right 2-node child before descending into
/// it; a red left grandchild on the left side is rotated across.
#[verifier::rlimit(100)]
fn move_right(b: Box<Node>) -> (r: Box<Node>)
    requires
        b.color is Red,
        two(b.right),
        bst_ok(Some(b)),
        colors_ok(Some(b)),
    ensures
        bst_ok(Some(r)),
        seq_of(Some(r)) == seq_of(Some(b)),
        black_height(Some(r)) == black_height(Some(b)),
        r.key <= b.key,
        colors_ok(r.left),
        colors_ok(r.right),
        black_height(r.left) == black_height(r.right),
        r.color is Red ==> !is_red(r.left) && !is_red(r.right),
        is_red(r.right) || left_red(r.right),
{
    let ghost gb = *b;
    let ghost gb0 = b;
    let ghost h = black_height(gb.right);
    let mut b = paint(b, Color::Black);
    proof {
        assert(black_height(gb.left) == h);
        assert(black_height(gb.right) == black_height(gb.right.unwrap().left) + 1);
        assert(h >= 1);
        if gb.left is None {
            assert(black_height(gb.left) == 0);
        }
        assert(black_height(gb.left) == black_height(gb.left.unwrap().left) + 1);
    }
    let l = b.left.take().unwrap();
    let ghost gl = *l;
    let l = paint(l, Color::Red);
    b.left = Some(l);
    let ghost plv = b.left;
    let c1 = b.right.take().unwrap();
    let ghost gc1 = *c1;
    b.right = Some(paint(c1, Color::Red));
    let ghost prv = b.right;
    proof {
        assert(colors_ok(gb.right));
        let grn = gb.right.unwrap();
        assert(colors_ok(grn.left) && colors_ok(grn.right));
        assert(black_height(grn.left) == black_height(grn.right));
        assert(colors_ok(prv));
        assert(black_height(prv) == (h - 1) as nat);
        assert(colors_ok(gb.left));
        let glnn = gb.left.unwrap();
        assert(colors_ok(glnn.left) && colors_ok(glnn.right));
        assert(black_height(glnn.left) == black_height(glnn.right));
    }
    if left_is_red(&b.left) {
        // the neighbour was a 3-node: rotate this node right and split
        let y = rotate_right(b);
        let mut y = y;
        proof {
            assert(y.right.unwrap().right == prv);
            assert(is_red(y.right));
            assert(y.left == gl.left);
        }
        let c = y.right.take().unwrap();
        let ghost gc = *c;
        proof {
            assert(c.left == gl.right);
            assert(c.right == prv);
            assert(c.key == gb.key);
            assert(bst_ok(c.left));
            assert(bst_ok(Some(gb.right.unwrap())));
            assert(bst_ok(c.right));
            assert(seq_of(gb.left) == seq_of(gl.left) + seq![(gl.key, gl.value)] + seq_of(
                gl.right,
            ));
            assert forall|i: int|
                0 <= i < seq_of(gl.right).len() implies (#[trigger] seq_of(gl.right)[i]).0
                < gb.key by {
                assert(seq_of(gb.left)[seq_of(gl.left).len() + 1 + i] == seq_of(gl.right)[i]);
            }
            assert(all_keys_lt(seq_of(c.left), c.key));
            assert(seq_of(c.right) == seq_of(gb.right));
            assert(all_keys_gt(seq_of(c.right), c.key));
            assert(order_ok(*c));
            assert(is_red(c.right));
        }
        let c2 = rotate_left(c);
        proof {
            assert(all_keys_gt(seq_of(Some(c2)), y.key));
        }
        y.right = Some(c2);
        let mut y = paint(y, Color::Red);
        let yl = y.left.take().unwrap();
        y.left = Some(paint(yl, Color::Black));
        let yr = y.right.take().unwrap();
        y.right = Some(paint(yr, Color::Black));
        proof {
            assert(bst_ok(y.left));
            assert(bst_ok(y.right));
            assert(seq_of(y.left) == seq_of(gl.left));
            assert(seq_of(y.right) == seq_of(Some(c2)));
            assert(y.key == gl.key);
            assert(all_keys_lt(seq_of(y.left), y.key));
            assert(all_keys_gt(seq_of(y.right), y.key));
        }
        let y = update(y);
        proof {
            assert(bst_ok(Some(y)));
            assert(seq_of(Some(y)) =~= seq_of(Some(gb0)));
            assert(colors_ok(gb.left));
            assert(colors_ok(gl.left));
            assert(is_red(gl.left));
            let gll = gl.left.unwrap();
            assert(gll.color is Red);
            assert(colors_ok(gll.left));
            assert(colors_ok(gll.right));
            assert(!is_red(gll.left));
            assert(!is_red(gll.right));
            assert(black_height(gll.left) == black_height(gll.right));
            assert(black_height(gl.left) == (h - 1) as nat);
            assert(black_height(gll.left) == black_height(gl.left));
            let nl = y.left.unwrap();
            assert(nl.left == gll.left);
            assert(nl.right == gll.right);
            assert(colors_ok(Some(nl)));
            assert(black_height(Some(nl)) == h);
            let nr = y.right.unwrap();
            assert(nr.right == prv.unwrap().right);
            assert(prv.unwrap().right == gc1.right);
            assert(colors_ok(gc1.right) && !is_red(gc1.right));
            assert(black_height(gc1.right) == (h - 1) as nat);
            assert(nr.left is Some);
            let nrl = nr.left.unwrap();
            assert(is_red(Some(nrl)));
            assert(nrl.left == gl.right);
            assert(nrl.right == prv.unwrap().left);
            assert(prv.unwrap().left == gc1.left);
            assert(colors_ok(gl.right) && !is_red(gl.right));
            assert(black_height(gl.right) == (h - 1) as nat);
            assert(colors_ok(gc1.left) && !is_red(gc1.left));
            assert(black_height(gc1.left) == (h - 1) as nat);
            assert(colors_ok(Some(nrl)));
            assert(black_height(Some(nrl)) == (h - 1) as nat);
            assert(colors_ok(Some(nr)));
            assert(black_height(Some(nr)) == h);
            assert(colors_ok(Some(y)));
            assert(black_height(Some(y)) == h);
            assert(black_height(Some(gb0)) == h);
            assert(seq_of(gl.left).len() > 0);
            assert(all_keys_lt(seq_of(gb.left), gb.key));
            assert(seq_of(gb.left)[0] == seq_of(gl.left)[0]);
            assert(y.key < gb.key);
        }
        y
    } else {
        proof {
            assert(seq_of(Some(b)) =~= seq_of(Some(gb0)));
            assert(bst_ok(Some(b)));
            assert(colors_ok(b.left));
            assert(colors_ok(b.right));
            assert(black_height(b.left) == (h - 1) as nat);
            assert(black_height(b.right) == (h - 1) as nat);
            assert(black_height(Some(b)) == h);
            assert(black_height(Some(gb0)) == h);
        }
        b
    }
}

/// Removes the least entry of a non-empty subtree, eagerly merging a red
/// link into any 2-node about to be entered.
#[verifier::rlimit(100)]
fn delete_first(b: Box<Node>) -> (res: (Option<Box<Node>>, (u64, u64)))
    requires
        bst_ok(Some(b)),
        colors_ok(Some(b)),
        b.color is Red || is_red(b.left),
    ensures
        bst_ok(res.0),
        seq_of(Some(b)) == seq![res.1] + seq_of(res.0),
        black_height(res.0) == black_height(Some(b)),
        colors_ok(res.0) || (b.color is Red && redred_left(res.0)),
    decreases seq_of(Some(b)).len(),
{
    let ghost gb = *b;
    let ghost gb0 = b;
    let mut b = b;
    if b.left.is_none() {
        proof {
            assert(b.color is Red);
            assert(!is_red(b.right));
            assert(black_height(b.right) == 0);
            lemma_black_empty(gb.right);
            assert(seq_of(Some(gb0)) =~= seq![(gb.key, gb.value)] + seq_of(
                Option::<Box<Node>>::None,
            ));
        }
        return (None, (b.key, b.value));
    }
    if is_two(&b.left) {
        proof {
            assert(b.color is Red);
        }
        b = move_left(b);
    }
    let ghost gm = *b;
    let ghost gm0 = b;
    let ghost l2 = seq_of(gm.left);
    let ghost m2 = seq![(gm.key, gm.value)];
    let ghost rr2 = seq_of(gm.right);
    proof {
        assert(seq_of(Some(gm0)) == l2 + m2 + rr2);
        assert(seq_of(Some(gm0)) == seq_of(Some(gb0)));
        assert(bst_ok(gm.left) && bst_ok(gm.right));
        assert(gm.left is Some);
        assert(l2.len() >= 1);
        assert(seq_of(Some(gm0)).len() == seq_of(Some(gb0)).len());
        assert(l2.len() < seq_of(Some(gb0)).len());
    }
    let sub = b.left.take().unwrap();
    proof {
        assert(colors_ok(gm.left));
        if !(sub.color is Red || is_red(sub.left)) {
            assert(!is_red(sub.right));
            assert(two(Some(sub)));
            assert(false);
        }
    }
    let (nl, kv) = delete_first(sub);
    b.left = nl;
    proof {
        assert(l2 == seq![kv] + seq_of(b.left));
        assert(all_keys_lt(seq_of(b.left), gm.key)) by {
            assert forall|i: int|
                0 <= i < seq_of(b.left).len() implies (#[trigger] seq_of(b.left)[i]).0
                < gm.key by {
                assert(l2[i + 1] == seq_of(b.left)[i]);
            }
        }
        assert(order_ok(*b));
        assert(colors_ok(gm.right));
        assert(black_height(b.left) == black_height(gm.right));
        if redred_left(b.right) {
            assert(false);
        }
        if gm.color is Red {
            assert(!is_red(gm.left));
            assert(colors_ok(b.left));
            assert(!is_red(gm.right));
        }
        assert(seq_of(b.left).len() + 1 + rr2.len() <= usize::MAX) by {
            assert(gm.size == seq_of(Some(gm0)).len());
        }
    }
    let r = fixup(b);
    proof {
        assert(seq_of(Some(r)) =~= seq_of(b.left) + m2 + rr2);
        assert(seq![kv] + (seq_of(b.left) + m2 + rr2) =~= l2 + m2 + rr2);
        assert(seq_of(Some(gb0)) == seq![kv] + seq_of(Some(r)));
    }
    (Some(r), kv)
}

/// Replacing the middle entry of a three-way concatenation by the head of
/// its right part removes the middle entry from the whole.
proof fn lemma_ms_splice(
    l: Seq<(u64, u64)>,
    mkv: (u64, u64),
    minkv: (u64, u64),
    sub: Seq<(u64, u64)>,
)
    ensures
        (l + seq![mkv] + (seq![minkv] + sub)).to_multiset() == (l + seq![minkv]
            + sub).to_multiset().insert(mkv),
{
    broadcast use vstd::seq_lib::group_to_multiset_ensures;

    vstd::seq_lib::lemma_multiset_commutative(l + seq![mkv], seq![minkv] + sub);
    vstd::seq_lib::lemma_multiset_commutative(l, seq![mkv]);
    vstd::seq_lib::lemma_multiset_commutative(seq![minkv], sub);
    vstd::seq_lib::lemma_multiset_commutative(l + seq![minkv], sub);
    vstd::seq_lib::lemma_multiset_commutative(l, seq![minkv]);
    assert(seq![mkv] =~= Seq::<(u64, u64)>::empty().push(mkv));
    assert(seq![minkv] =~= Seq::<(u64, u64)>::empty().push(minkv));
    assert((l + seq![mkv] + (seq![minkv] + sub)).to_multiset() =~= (l + seq![minkv]
        + sub).to_multiset().insert(mkv));
}

/// Recursive deletion with eager 2-node elimination: before descending into
/// a child that is a 2-node, a red link is merged down into it, so the
/// subtree entered is never minimal; an absent key is a no-op.
#[verifier::rlimit(100)]
fn delete_at(n: Option<Box<Node>>, key: u64) -> (res: (Option<Box<Node>>, Option<(u64, u64)>))
    requires
        bst_ok(n),
        colors_ok(n),
        n is Some ==> (n.unwrap().color is Red || is_red(n.unwrap().left)),
    ensures
        bst_ok(res.0),
        black_height(res.0) == black_height(n),
        colors_ok(res.0) || (is_red(n) && redred_left(res.0)),
        !contains_key(seq_of(n), key) ==> res.1 is None && seq_of(res.0) == seq_of(n),
        contains_key(seq_of(n), key) ==> res.1 is Some && res.1.unwrap().0 == key && seq_of(
            n,
        ).to_multiset() == seq_of(res.0).to_multiset().insert(res.1.unwrap()),
    decreases seq_of(n).len(),
{
    let mut b = match n {
        None => {
            return (None, None);
        },
        Some(b) => b,
    };
    let ghost gn = n;
    let ghost gb = *b;
    let ghost gb0 = b;
    if key < b.key {
        if is_two(&b.left) {
            proof {
                assert(b.color is Red);
            }
            b = move_left(b);
        }
        let ghost gm = *b;
        let ghost gm0 = b;
        let ghost l2 = seq_of(gm.left);
        let ghost m2 = seq![(gm.key, gm.value)];
        let ghost rr2 = seq_of(gm.right);
        proof {
            assert(seq_of(Some(gm0)) == l2 + m2 + rr2);
            assert(seq_of(Some(gm0)) == seq_of(Some(gb0)));
            assert(key < gm.key);
            assert(all_keys_lt(l2, gm.key));
            assert(all_keys_gt(rr2, gm.key));
            lemma_contains_split(l2, gm.key, gm.value, rr2, key);
            assert(l2.len() < seq_of(gn).len());
            assert(colors_ok(gm.left));
            assert(colors_ok(gm.right));
        }
        let sub = b.left.take();
        proof {
            if sub is Some && !(sub.unwrap().color is Red || is_red(sub.unwrap().left)) {
                assert(!is_red(sub.unwrap().right));
                assert(two(gm.left));
                assert(false);
            }
        }
        let (nl, rem) = delete_at(sub, key);
        b.left = nl;
        proof {
            broadcast use vstd::seq_lib::group_to_multiset_ensures;

            if contains_key(l2, key) {
                lemma_ms_sub_keys_lt(seq_of(nl), l2, rem.unwrap(), gm.key);
            } else {
                assert(seq_of(nl) == l2);
            }
            assert(all_keys_lt(seq_of(nl), gm.key));
            assert(order_ok(*b));
            if redred_left(b.right) {
                assert(false);
            }
            if gm.color is Red {
                assert(!is_red(gm.left));
                assert(colors_ok(b.left));
                assert(!is_red(gm.right));
            }
            assert(seq_of(nl).len() + 1 + rr2.len() <= usize::MAX) by {
                broadcast use vstd::multiset::lemma_insert_len;

                assert(gm.size == seq_of(Some(gm0)).len());
                assert(seq_of(Some(gm0)).len() == l2.len() + 1 + rr2.len());
                if contains_key(l2, key) {
                    assert(l2.to_multiset().len() == l2.len());
                    assert(seq_of(nl).to_multiset().len() == seq_of(nl).len());
                    assert(l2.to_multiset().len() == seq_of(nl).to_multiset().len() + 1);
                }
            }
        }
        let r = fixup(b);
        proof {
            if !contains_key(seq_of(gn), key) {
                assert(seq_of(Some(r)) =~= seq_of(gn));
            } else {
                lemma_ms3_left(l2, seq_of(nl), m2, rr2, rem.unwrap());
                assert(seq_of(gn).to_multiset() == seq_of(Some(r)).to_multiset().insert(
                    rem.unwrap(),
                ));
            }
        }
        (Some(r), rem)
    } else {
        if is_red_of(&b.left) {
            proof {
                assert(!(b.color is Red));
            }
            b = rotate_right(b);
            proof {
                assert(b.color is Black);
                let nr = b.right.unwrap();
                assert(is_red(b.right));
                assert(colors_ok(gb.left));
                assert(nr.left == gb.left.unwrap().right);
                assert(nr.right == gb.right);
                assert(!is_red(nr.left) && !is_red(nr.right));
                assert(colors_ok(nr.left) && colors_ok(nr.right));
                assert(black_height(nr.left) == black_height(nr.right));
                assert(colors_ok(b.right));
                assert(colors_ok(b.left));
                assert(black_height(b.left) == black_height(b.right));
                assert(seq_of(gb.left)[seq_of(gb.left.unwrap().left).len() as int] == (
                gb.left.unwrap().key,
                gb.left.unwrap().value,
                ));
                assert(b.key < gb.key);
                assert(key > b.key);
                assert(black_height(Some(b)) == black_height(gn));
                assert(seq_of(Some(b)) == seq_of(gn));
                assert(bst_ok(Some(b)));
            }
        }
        if key == b.key && b.right.is_none() {
            proof {
                assert(b.color is Red);
                assert(!is_red(b.left));
                assert(black_height(b.left) == 0);
                lemma_black_empty(b.left);
                assert(seq_of(Some(b)) =~= seq![(b.key, b.value)]);
                assert(seq_of(gn)[0] == (b.key, b.value));
                broadcast use vstd::seq_lib::group_to_multiset_ensures;

                assert(seq_of(Some(b)) =~= Seq::<(u64, u64)>::empty().push((b.key, b.value)));
                assert(seq_of(gn).to_multiset() =~= Seq::<(u64, u64)>::empty().to_multiset().insert(
                    (b.key, b.value),
                ));
            }
            return (None, Some((b.key, b.value)));
        }
        let ghost glean = *b;
        if is_two(&b.right) {
            proof {
                if !(b.color is Red) {
                    assert(is_red(b.right));
                    assert(false);
                }
            }
            b = move_right(b);
        }
        let ghost gm = *b;
        let ghost gm0 = b;
        let ghost l2 = seq_of(gm.left);
        let ghost m2 = seq![(gm.key, gm.value)];
        let ghost rr2 = seq_of(gm.right);
        proof {
            assert(seq_of(Some(gm0)) == l2 + m2 + rr2);
            assert(seq_of(Some(gm0)) == seq_of(gn));
            assert(key >= gm.key);
            assert(all_keys_lt(l2, gm.key));
            assert(all_keys_gt(rr2, gm.key));
            lemma_contains_split(l2, gm.key, gm.value, rr2, key);
            assert(rr2.len() < seq_of(gn).len());
            assert(colors_ok(gm.left));
            assert(colors_ok(gm.right));
            assert(gm.size == seq_of(Some(gm0)).len());
        }
        if key == b.key {
            // splice: remove the least entry of the right subtree and let it
            // take this node's place, keeping this node's colour and left
            proof {
                assert(contains_key(seq_of(gn), key));
                if gm.right is None {
                    assert(!is_red(gm.right) && colors_ok(gm.right));
                    assert(black_height(gm.left) == 0);
                    if gm.color is Red {
                        lemma_black_empty(gm.left);
                        assert(glean == gm);
                        assert(false);
                    } else {
                        assert(is_red(gm.left));
                        assert(false);
                    }
                }
            }
            let c1 = b.right.take().unwrap();
            proof {
                if !(c1.color is Red || is_red(c1.left)) {
                    assert(!is_red(c1.right));
                    assert(two(gm.right));
                    assert(false);
                }
            }
            let (sub, minkv) = delete_first(c1);
            proof {
                assert(rr2 == seq![minkv] + seq_of(sub));
                lemma_bst_sorted(gm.right);
                assert(rr2[0] == minkv);
                assert(minkv.0 > gm.key);
                assert(all_keys_gt(seq_of(sub), minkv.0)) by {
                    assert forall|i: int|
                        0 <= i < seq_of(sub).len() implies (#[trigger] seq_of(sub)[i]).0
                        > minkv.0 by {
                        assert(rr2[i + 1] == seq_of(sub)[i]);
                    }
                }
                assert(all_keys_lt(l2, minkv.0));
            }
            let old_key = b.key;
            let old_value = b.value;
            b.key = minkv.0;
            b.value = minkv.1;
            b.right = sub;
            proof {
                assert(order_ok(*b));
                if redred_left(b.left) {
                    assert(false);
                }
                if gm.color is Red {
                    assert(!is_red(gm.right));
                    assert(colors_ok(b.right));
                    assert(!is_red(gm.left));
                }
                assert(l2.len() + 1 + seq_of(sub).len() <= usize::MAX);
                assert(black_height(b.left) == black_height(b.right));
            }
            let r = fixup(b);
            proof {
                assert(seq_of(Some(r)) =~= l2 + seq![minkv] + seq_of(sub));
                lemma_ms_splice(l2, (gm.key, gm.value), minkv, seq_of(sub));
                assert(seq_of(gn).to_multiset() == seq_of(Some(r)).to_multiset().insert(
                    (gm.key, gm.value),
                ));
            }
            (Some(r), Some((old_key, old_value)))
        } else {
            proof {
                assert(key > gm.key);
            }
            let sub = b.right.take();
            proof {
                if sub is Some && !(sub.unwrap().color is Red || is_red(sub.unwrap().left)) {
                    assert(!is_red(sub.unwrap().right));
                    assert(two(gm.right));
                    assert(false);
                }
            }
            let (nr, rem) = delete_at(sub, key);
            b.right = nr;
            proof {
                broadcast use vstd::seq_lib::group_to_multiset_ensures;

                if contains_key(rr2, key) {
                    lemma_ms_sub_keys_gt(seq_of(nr), rr2, rem.unwrap(), gm.key);
                } else {
                    assert(seq_of(nr) == rr2);
                }
                assert(all_keys_gt(seq_of(nr), gm.key));
                assert(order_ok(*b));
                if redred_left(b.left) {
                    assert(false);
                }
                if gm.color is Red {
                    assert(!is_red(gm.right));
                    assert(colors_ok(b.right));
                    assert(!is_red(gm.left));
                }
                assert(l2.len() + 1 + seq_of(nr).len() <= usize::MAX) by {
                    broadcast use vstd::multiset::lemma_insert_len;

                    assert(gm.size == seq_of(Some(gm0)).len());
                    assert(seq_of(Some(gm0)).len() == l2.len() + 1 + rr2.len());
                    if contains_key(rr2, key) {
                        assert(rr2.to_multiset().len() == rr2.len());
                        assert(seq_of(nr).to_multiset().len() == seq_of(nr).len());
                        assert(rr2.to_multiset().len() == seq_of(nr).to_multiset().len() + 1);
                    }
                }
            }
            let r = fixup(b);
            proof {
                if !contains_key(seq_of(gn), key) {
                    assert(seq_of(Some(r)) =~= seq_of(gn));
                } else {
                    lemma_ms3_right(rr2, l2, m2, seq_of(nr), rem.unwrap());
                    assert(seq_of(gn).to_multiset() == seq_of(Some(r)).to_multiset().insert(
                        rem.unwrap(),
                    ));
                }
            }
            (Some(r), rem)
        }
    }
}

/// Recursive insertion: creates a red leaf at the search position, or leaves
/// the tree unchanged when the key is already present, then restores the
/// colour invariants on the way back up.
fn insert_at(n: Option<Box<Node>>, key: u64, value: u64) -> (r: Box<Node>)
    requires
        bst_ok(n),
        colors_ok(n),
        seq_of(n).len() < usize::MAX,
    ensures
        bst_ok(Some(r)),
        contains_key(seq_of(n), key) ==> seq_of(Some(r)) == seq_of(n),
        !contains_key(seq_of(n), key) ==> seq_of(Some(r)).to_multiset() == seq_of(
            n,
        ).to_multiset().insert((key, value)),
        black_height(Some(r)) == black_height(n),
        colors_ok(Some(r)) || (is_red(n) && redred_left(Some(r))),
    decreases n,
{
    match n {
        None => {
            let r = Box::new(
                Node {
                    key,
                    value,
                    color: Color::Red,
                    size: 1,
                    acc: value,
                    left: None,
                    right: None,
                },
            );
            proof {
                broadcast use vstd::seq_lib::group_to_multiset_ensures;

                let e = Seq::<(u64, u64)>::empty();
                let s1 = seq![(key, value)];
                assert(seq_of(Some(r)) =~= e.push((key, value)));
                assert(seq_of(Some(r)).to_multiset() =~= e.to_multiset().insert((key, value)));
                assert(seq_of(Some(r)) =~= s1);
                assert(s1.drop_last() =~= e);
                assert(sum_of(e) == 0);
                assert(sum_of(s1) == wadd(0, value));
                assert(wadd(0, value) == value);
            }
            r
        },
        Some(b) => {
            let ghost gn = n;
            let ghost gb = *b;
            let mut b = b;
            let ghost l = seq_of(gb.left);
            let ghost m = seq![(gb.key, gb.value)];
            let ghost rr = seq_of(gb.right);
            proof {
                assert(seq_of(gn) == l + m + rr);
                assert(all_keys_lt(l, gb.key));
                assert(all_keys_gt(rr, gb.key));
                lemma_contains_split(l, gb.key, gb.value, rr, key);
            }
            if key < b.key {
                let sub = insert_at(b.left.take(), key, value);
                b.left = Some(sub);
                proof {
                    broadcast use vstd::seq_lib::group_to_multiset_ensures;
                    broadcast use vstd::multiset::lemma_insert_len;

                    if !contains_key(l, key) {
                        lemma_ms_keys_lt(l, seq_of(Some(sub)), (key, value), gb.key);
                        assert(seq_of(Some(sub)).to_multiset().len() == seq_of(
                            Some(sub),
                        ).len());
                        assert(l.to_multiset().insert((key, value)).len() == l.to_multiset().len()
                            + 1);
                        assert(l.to_multiset().len() == l.len());
                        assert(seq_of(Some(sub)).len() == l.len() + 1);
                    }
                    if redred_left(b.right) {
                        assert(colors_ok(gn));
                        assert(colors_ok(gb.right));
                        assert(gb.right.unwrap().color is Red);
                        assert(is_red(gb.right.unwrap().left));
                        assert(false);
                    }
                    assert(order_ok(*b));
                }
                let r = fixup(b);
                proof {
                    if !contains_key(seq_of(gn), key) {
                        lemma_ms3_left(seq_of(Some(sub)), l, m, rr, (key, value));
                    } else {
                        assert(seq_of(Some(r)) =~= seq_of(gn));
                    }
                }
                r
            } else if key > b.key {
                let sub = insert_at(b.right.take(), key, value);
                b.right = Some(sub);
                proof {
                    broadcast use vstd::seq_lib::group_to_multiset_ensures;
                    broadcast use vstd::multiset::lemma_insert_len;

                    if !contains_key(rr, key) {
                        lemma_ms_keys_gt(rr, seq_of(Some(sub)), (key, value), gb.key);
                        assert(seq_of(Some(sub)).to_multiset().len() == seq_of(
                            Some(sub),
                        ).len());
                        assert(rr.to_multiset().insert((key, value)).len() == rr.to_multiset().len()
                            + 1);
                        assert(rr.to_multiset().len() == rr.len());
                        assert(seq_of(Some(sub)).len() == rr.len() + 1);
                    }
                    if redred_left(b.left) {
                        assert(colors_ok(gn));
                        assert(colors_ok(gb.left));
                        assert(gb.left.unwrap().color is Red);
                        assert(is_red(gb.left.unwrap().left));
                        assert(false);
                    }
                    assert(order_ok(*b));
                }
                let r = fixup(b);
                proof {
                    if !contains_key(seq_of(gn), key) {
                        lemma_ms3_right(seq_of(Some(sub)), l, m, rr, (key, value));
                    } else {
                        assert(seq_of(Some(r)) =~= seq_of(gn));
                    }
                }
                r
            } else {
                b
            }
        },
    }
}

impl LLRB {
    /// Abstract view: the in-order sequence of `(key, value)` pairs.
    pub closed spec fn view(self) -> Seq<(u64, u64)> {
        seq_of(self.root)
    }

    /// The tree is well formed: search order, sizes, accumulators and the
    /// red-black colouring invariants all hold, and the root is black.
    pub closed spec fn wf(self) -> bool {
        &&& bst_ok(self.root)
        &&& colors_ok(self.root)
        &&& !is_red(self.root)
    }

    /// Creates an empty tree.
    pub fn new() -> (tree: Self)
        ensures
            tree.wf(),
            tree@ == Seq::<(u64, u64)>::empty(),
    {
        LLRB { root: None }
    }

    /// Number of entries in the tree.
    pub fn len(&self) -> (n: usize)
        requires
            self.wf(),
        ensures
            n == self@.len(),
    {
        match &self.root {
            None => 0,
            Some(node) => node.size,
        }
    }

    /// Inserts `key → value`; a key already present leaves the tree
    /// unchanged (keys are unique).
    pub fn insert(&mut self, key: u64, value: u64)
        requires
            old(self).wf(),
            old(self)@.len() < usize::MAX,
        ensures
            final(self).wf(),
            contains_key(old(self)@, key) ==> final(self)@ == old(self)@,
            !contains_key(old(self)@, key) ==> final(self)@.to_multiset() == old(
                self,
            )@.to_multiset().insert((key, value)) && final(self)@.len() == old(self)@.len() + 1,
    {
        proof {
            broadcast use vstd::seq_lib::group_to_multiset_ensures;
            broadcast use vstd::multiset::lemma_insert_len;
        }
        let root = self.root.take();
        let r = insert_at(root, key, value);
        let ghost gr = r;
        let r = paint(r, Color::Black);
        proof {
            if redred_left(Some(gr)) {
                assert(colors_ok(Some(r)));
            } else {
                assert(colors_ok(Some(gr)));
                assert(colors_ok(Some(r)));
            }
        }
        self.root = Some(r);
        proof {
            broadcast use vstd::seq_lib::group_to_multiset_ensures;
            broadcast use vstd::multiset::lemma_insert_len;

            if !contains_key(old(self)@, key) {
                assert(self@.to_multiset().len() == self@.len());
                assert(old(self)@.to_multiset().len() == old(self)@.len());
                assert(old(self)@.to_multiset().insert((key, value)).len() == old(
                    self,
                )@.to_multiset().len() + 1);
            }
        }
    }

    /// Removes the entry with the given key and returns it; an absent key is
    /// a no-op returning `None`.
    pub fn delete(&mut self, key: u64) -> (r: Option<(u64, u64)>)
        requires
            old(self).wf(),
        ensures
            final(self).wf(),
            !contains_key(old(self)@, key) ==> r is None && final(self)@ == old(self)@,
            contains_key(old(self)@, key) ==> r is Some && r.unwrap().0 == key && old(
                self,
            )@.to_multiset() == final(self)@.to_multiset().insert(r.unwrap()) && final(self)@.len()
                + 1 == old(self)@.len(),
    {
        proof {
            broadcast use vstd::seq_lib::group_to_multiset_ensures;
            broadcast use vstd::multiset::lemma_insert_len;
        }
        let mut root = self.root.take();
        if is_two(&root) {
            // the root has no parent to borrow a red link from: colour it
            // red for the duration of the call
            let b = root.unwrap();
            proof {
                assert(colors_ok(Some(b)));
            }
            let pb = paint(b, Color::Red);
            proof {
                assert(colors_ok(Some(pb)));
            }
            root = Some(pb);
        }
        let (nr, rem) = delete_at(root, key);
        let newroot = match nr {
            None => None,
            Some(b) => {
                let ghost gb = b;
                let pb = paint(b, Color::Black);
                proof {
                    if redred_left(Some(gb)) {
                        assert(colors_ok(Some(pb)));
                    } else {
                        assert(colors_ok(Some(gb)));
                        assert(colors_ok(Some(pb)));
                    }
                }
                Some(pb)
            },
        };
        self.root = newroot;
        proof {
            broadcast use vstd::seq_lib::group_to_multiset_ensures;
            broadcast use vstd::multiset::lemma_insert_len;

            if contains_key(old(self)@, key) {
                assert(self@.to_multiset().len() == self@.len());
                assert(old(self)@.to_multiset().len() == old(self)@.len());
                assert(self@.to_multiset().insert(rem.unwrap()).len() == self@.to_multiset().len()
                    + 1);
            }
        }
        rem
    }

    /// Returns the entry at sorted position `i`, or `None` past the end.
    pub fn get(&self, i: usize) -> (r: Option<(u64, u64)>)
        requires
            self.wf(),
        ensures
            i < self@.len() ==> r == Some(self@[i as int]),
            i >= self@.len() ==> r is None,
    {
        get_at(&self.root, i)
    }

    /// Folds the values with rank in `[l, r)` with wrapping addition;
    /// an empty range yields `None`.
    pub fn fold(&self, l: usize, r: usize) -> (res: Option<u64>)
        requires
            self.wf(),
            l <= r <= self@.len(),
        ensures
            l == r ==> res is None,
            l < r ==> res == Some(sum_of(self@.subrange(l as int, r as int))),
    {
        fold_at(&self.root, l, r)
    }

    /// The in-order sequence of all entries.
    pub fn collect_vec(&self) -> (v: Vec<(u64, u64)>)
        requires
            self.wf(),
        ensures
            v@ == self@,
    {
        let mut v = Vec::new();
        collect_at(&self.root, &mut v);
        proof {
            assert(v@ =~= self@);
        }
        v
    }

    /// Whether the tree has no entries.
    pub fn is_empty(&self) -> (b: bool)
        requires
            self.wf(),
        ensures
            b <==> self@.len() == 0,
    {
        proof {
            if self.root is Some {
                assert(self@.len() >= 1);
            }
        }
        self.root.is_none()
    }
}

/// Size field of an optional node (zero at nil).
pub open spec fn size_field(n: Option<Box<Node>>) -> usize {
    match n {
        None => 0,
        Some(nd) => nd.size,
    }
}

/// Accumulator field of an optional node (the fold's identity at nil).
pub open spec fn acc_field(n: Option<Box<Node>>) -> u64 {
    match n {
        None => 0,
        Some(nd) => nd.acc,
    }
}

/// No red node has a red child, anywhere in the subtree.
pub open spec fn no_double_red(n: Option<Box<Node>>) -> bool
    decreases n,
{
    match n {
        None => true,
        Some(nd) => {
            &&& (nd.color is Red ==> !is_red(nd.left) && !is_red(nd.right))
            &&& no_double_red(nd.left)
            &&& no_double_red(nd.right)
        },
    }
}

/// At every node the two children carry the same black height, so every
/// root-to-nil path passes the same number of black nodes.
pub open spec fn black_balanced(n: Option<Box<Node>>) -> bool
    decreases n,
{
    match n {
        None => true,
        Some(nd) => {
            &&& black_height(nd.left) == black_height(nd.right)
            &&& black_balanced(nd.left)
            &&& black_balanced(nd.right)
        },
    }
}

/// Every node's size field is one more than the sum of its children's.
pub open spec fn sizes_ok(n: Option<Box<Node>>) -> bool
    decreases n,
{
    match n {
        None => true,
        Some(nd) => {
            &&& nd.size == 1 + size_field(nd.left) + size_field(nd.right)
            &&& sizes_ok(nd.left)
            &&& sizes_ok(nd.right)
        },
    }
}

/// Every node's accumulator combines the children's accumulators with its
/// own value.
pub open spec fn accs_ok(n: Option<Box<Node>>) -> bool
    decreases n,
{
    match n {
        None => true,
        Some(nd) => {
            &&& nd.acc == wadd(wadd(acc_field(nd.left), nd.value), acc_field(nd.right))
            &&& accs_ok(nd.left)
            &&& accs_ok(nd.right)
        },
    }
}

/// Red links only ever appear as left children, anywhere in the subtree.
pub open spec fn left_leaning(n: Option<Box<Node>>) -> bool
    decreases n,
{
    match n {
        None => true,
        Some(nd) => {
            &&& !is_red(nd.right)
            &&& left_leaning(nd.left)
            &&& left_leaning(nd.right)
        },
    }
}

proof fn lemma_colors_left_leaning(n: Option<Box<Node>>)
    requires
        colors_ok(n),
    ensures
        left_leaning(n),
    decreases n,
{
    match n {
        None => {},
        Some(nd) => {
            lemma_colors_left_leaning(nd.left);
            lemma_colors_left_leaning(nd.right);
        },
    }
}

proof fn lemma_colors_no_double_red(n: Option<Box<Node>>)
    requires
        colors_ok(n),
    ensures
        no_double_red(n),
    decreases n,
{
    match n {
        None => {},
        Some(nd) => {
            lemma_colors_no_double_red(nd.left);
            lemma_colors_no_double_red(nd.right);
        },
    }
}

proof fn lemma_colors_black_balanced(n: Option<Box<Node>>)
    requires
        colors_ok(n),
    ensures
        black_balanced(n),
    decreases n,
{
    match n {
        None => {},
        Some(nd) => {
            lemma_colors_black_balanced(nd.left);
            lemma_colors_black_balanced(nd.right);
        },
    }
}

proof fn lemma_bst_sizes_ok(n: Option<Box<Node>>)
    requires
        bst_ok(n),
    ensures
        sizes_ok(n),
    decreases n,
{
    match n {
        None => {},
        Some(nd) => {
            lemma_bst_sizes_ok(nd.left);
            lemma_bst_sizes_ok(nd.right);
            assert(seq_of(n).len() == seq_of(nd.left).len() + 1 + seq_of(nd.right).len());
            assert(bst_ok(nd.left));
            assert(bst_ok(nd.right));
            if nd.left is Some {
                assert(size_field(nd.left) == seq_of(nd.left).len());
            }
            if nd.right is Some {
                assert(size_field(nd.right) == seq_of(nd.right).len());
            }
        },
    }
}

proof fn lemma_bst_accs_ok(n: Option<Box<Node>>)
    requires
        bst_ok(n),
    ensures
        accs_ok(n),
    decreases n,
{
    match n {
        None => {},
        Some(nd) => {
            lemma_bst_accs_ok(nd.left);
            lemma_bst_accs_ok(nd.right);
            let l = seq_of(nd.left);
            let m = seq![(nd.key, nd.value)];
            let r = seq_of(nd.right);
            lemma_sum_of_add(l, m);
            lemma_sum_of_add(l + m, r);
            assert(m.drop_last() =~= Seq::<(u64, u64)>::empty());
            assert(sum_of(Seq::<(u64, u64)>::empty()) == 0);
            assert(sum_of(m) == wadd(0, nd.value));
            assert(wadd(0, nd.value) == nd.value);
            assert(bst_ok(nd.left));
            assert(bst_ok(nd.right));
            if nd.left is Some {
                assert(acc_field(nd.left) == sum_of(l));
            }
            if nd.right is Some {
                assert(acc_field(nd.right) == sum_of(r));
            }
            crate::lemma_wadd_comm(0, sum_of(l));
            crate::lemma_wadd_assoc(sum_of(l), 0, nd.value);
            assert(wadd(sum_of(l), sum_of(m)) == wadd(sum_of(l), nd.value));
        },
    }
}

/// Two strictly sorted sequences holding the same entries are equal: with
/// the tree's view this pins the in-order sequence down from the multiset
/// the insertion and deletion contracts speak of.
pub proof fn lemma_sorted_multiset_unique(a: Seq<(u64, u64)>, b: Seq<(u64, u64)>)
    requires
        sorted(a),
        sorted(b),
        a.to_multiset() == b.to_multiset(),
    ensures
        a == b,
    decreases a.len(),
{
    broadcast use vstd::seq_lib::group_to_multiset_ensures;

    if a.len() == 0 {
        assert(a.to_multiset().len() == a.len());
        assert(b.to_multiset().len() == b.len());
        assert(b.len() == 0);
        assert(a =~= b);
    } else {
        assert(a.to_multiset().len() == a.len());
        assert(b.to_multiset().len() == b.len());
        assert(b.len() == a.len());
        assert(a.contains(a[0]));
        assert(a.to_multiset().count(a[0]) > 0);
        assert(b.to_multiset().count(a[0]) > 0);
        assert(b.contains(a[0]));
        let j = choose|j: int| 0 <= j < b.len() && b[j] == a[0];
        assert(b.contains(b[0]));
        assert(b.to_multiset().count(b[0]) > 0);
        assert(a.to_multiset().count(b[0]) > 0);
        assert(a.contains(b[0]));
        let i = choose|i: int| 0 <= i < a.len() && a[i] == b[0];
        assert(a[0].0 <= a[i].0);
        assert(b[0].0 <= b[j].0);
        assert(a[0] == b[0]);
        let a2 = a.remove(0);
        let b2 = b.remove(0);
        assert(a2.to_multiset() =~= a.to_multiset().remove(a[0]));
        assert(b2.to_multiset() =~= b.to_multiset().remove(b[0]));
        assert(a2.to_multiset() == b2.to_multiset());
        assert forall|x: int, y: int| 0 <= x < y < a2.len() implies a2[x].0 < a2[y].0 by {
            assert(a2[x] == a[x + 1]);
            assert(a2[y] == a[y + 1]);
        }
        assert(sorted(a2));
        assert forall|x: int, y: int| 0 <= x < y < b2.len() implies b2[x].0 < b2[y].0 by {
            assert(b2[x] == b[x + 1]);
            assert(b2[y] == b[y + 1]);
        }
        assert(sorted(b2));
        lemma_sorted_multiset_unique(a2, b2);
        assert forall|x: int| 0 <= x < a.len() implies a[x] == b[x] by {
            if x > 0 {
                assert(a2[x - 1] == b2[x - 1]);
            }
        }
        assert(a =~= b);
    }
}

/// All entries whose key is strictly below `k`.
pub open spec fn below(k: u64) -> spec_fn((u64, u64)) -> bool {
    |p: (u64, u64)| p.0 < k
}

proof fn lemma_filter_keep_all(s: Seq<(u64, u64)>, pred: spec_fn((u64, u64)) -> bool)
    requires
        forall|i: int| 0 <= i < s.len() ==> pred(#[trigger] s[i]),
    ensures
        s.filter(pred) == s,
    decreases s.len(),
{
    reveal(Seq::filter);
    if s.len() > 0 {
        lemma_filter_keep_all(s.drop_last(), pred);
        assert(s.drop_last().push(s.last()) =~= s);
    }
}

/// In a strictly sorted sequence, the entries whose key is below the key at
/// position `i` are exactly the `i` entries before it: selecting by rank and
/// ranking by key are inverse.
pub proof fn lemma_rank_select_inverse(s: Seq<(u64, u64)>, i: int)
    requires
        sorted(s),
        0 <= i < s.len(),
    ensures
        s.filter(below(s[i].0)) == s.take(i),
        s.filter(below(s[i].0)).len() == i,
    decreases s.len(),
{
    reveal(Seq::filter);
    let k = s[i].0;
    if i == s.len() - 1 {
        assert(forall|j: int| 0 <= j < s.drop_last().len() ==> #[trigger] s.drop_last()[j] == s[j]);
        lemma_filter_keep_all(s.drop_last(), below(k));
        assert(s.filter(below(k)) =~= s.take(i));
    } else {
        let s2 = s.drop_last();
        assert(forall|j: int| 0 <= j < s2.len() ==> #[trigger] s2[j] == s[j]);
        assert(sorted(s2));
        assert(s2[i] == s[i]);
        lemma_rank_select_inverse(s2, i);
        assert(!below(k)(s.last()));
        assert(s2.take(i) =~= s.take(i));
    }
}

/// A fold over a key range splits at any midpoint: the wrapping sum over
/// `[l, r)` combines the sums over `[l, m)` and `[m, r)`, and the sum over
/// the full range is the fold of all values.
pub proof fn lemma_range_fold_split(s: Seq<(u64, u64)>, l: int, m: int, r: int)
    requires
        0 <= l <= m <= r <= s.len(),
    ensures
        sum_of(s.subrange(l, r)) == wadd(sum_of(s.subrange(l, m)), sum_of(s.subrange(m, r))),
        sum_of(s.subrange(0, s.len() as int)) == sum_of(s),
{
    lemma_sum_of_add(s.subrange(l, m), s.subrange(m, r));
    assert(s.subrange(l, m) + s.subrange(m, r) =~= s.subrange(l, r));
    assert(s.subrange(0, s.len() as int) =~= s);
}

impl LLRB {
    /// The tree's shape, for stating structural invariants.
    pub closed spec fn repr(self) -> Option<Box<Node>> {
        self.root
    }

    /// The in-order sequence of a well-formed tree is strictly increasing in
    /// its keys.
    pub proof fn lemma_inorder_sorted(self)
        requires
            self.wf(),
        ensures
            sorted(self@),
    {
        lemma_bst_sorted(self.root);
    }

    /// No red node of a well-formed tree has a red child.
    pub proof fn lemma_no_double_red(self)
        requires
            self.wf(),
        ensures
            no_double_red(self.repr()),
    {
        lemma_colors_no_double_red(self.root);
    }

    /// Every two root-to-nil paths of a well-formed tree pass the same
    /// number of black nodes.
    pub proof fn lemma_black_height_consistent(self)
        requires
            self.wf(),
        ensures
            black_balanced(self.repr()),
    {
        lemma_colors_black_balanced(self.root);
    }

    /// The root of a well-formed tree, if present, is black (insertion and
    /// deletion force it back after the top-level call returns).
    pub proof fn lemma_root_black(self)
        requires
            self.wf(),
        ensures
            !is_red(self.repr()),
    {
    }

    /// Red links of a well-formed tree only appear as left children.
    pub proof fn lemma_left_leaning(self)
        requires
            self.wf(),
        ensures
            left_leaning(self.repr()),
    {
        lemma_colors_left_leaning(self.root);
    }

    /// Every node's size field counts itself plus its two children's sizes.
    pub proof fn lemma_size_correct(self)
        requires
            self.wf(),
        ensures
            sizes_ok(self.repr()),
    {
        lemma_bst_sizes_ok(self.root);
    }

    /// Every node's accumulator combines its children's accumulators with
    /// its own value under the wrapping sum.
    pub proof fn lemma_fold_correct(self)
        requires
            self.wf(),
        ensures
            accs_ok(self.repr()),
    {
        lemma_bst_accs_ok(self.root);
    }
}

/// Order-statistic lookup: descends using the left subtree's size.
fn get_at(n: &Option<Box<Node>>, i: usize) -> (r: Option<(u64, u64)>)
    requires
        bst_ok(*n),
    ensures
        i < seq_of(*n).len() ==> r == Some(seq_of(*n)[i as int]),
        i >= seq_of(*n).len() ==> r is None,
    decreases *n,
{
    match n {
        None => None,
        Some(node) => {
            let lsize: usize = match &node.left {
                None => 0,
                Some(l) => l.size,
            };
            proof {
                assert(bst_ok(node.left));
                assert(bst_ok(node.right));
                assert(lsize == seq_of(node.left).len());
                assert(seq_of(*n) == seq_of(node.left) + seq![(node.key, node.value)] + seq_of(
                    node.right,
                ));
            }
            if i < lsize {
                let r = get_at(&node.left, i);
                proof {
                    assert(seq_of(*n)[i as int] == seq_of(node.left)[i as int]);
                }
                r
            } else if i == lsize {
                proof {
                    assert(seq_of(*n)[i as int] == (node.key, node.value));
                }
                Some((node.key, node.value))
            } else {
                let r = get_at(&node.right, i - lsize - 1);
                proof {
                    if i < seq_of(*n).len() {
                        assert(seq_of(*n)[i as int] == seq_of(node.right)[i - lsize - 1]);
                    }
                }
                r
            }
        },
    }
}

/// Range fold: a range that covers a whole subtree is answered from its
/// precomputed accumulator; otherwise the range splits across the two
/// children and the node's own value.
#[verifier::rlimit(100)]
fn fold_at(n: &Option<Box<Node>>, l: usize, r: usize) -> (res: Option<u64>)
    requires
        bst_ok(*n),
        l <= r <= seq_of(*n).len(),
    ensures
        l == r ==> res is None,
        l < r ==> res == Some(sum_of(seq_of(*n).subrange(l as int, r as int))),
    decreases *n,
{
    if l == r {
        return None;
    }
    match n {
        None => None,
        Some(node) => {
            let ghost s = seq_of(*n);
            let ghost ls = seq_of(node.left);
            let ghost ms = seq![(node.key, node.value)];
            let ghost rs = seq_of(node.right);
            if l == 0 && r == node.size {
                proof {
                    assert(s.subrange(l as int, r as int) =~= s);
                }
                Some(node.acc)
            } else {
                let lsize: usize = match &node.left {
                    None => 0,
                    Some(c) => c.size,
                };
                proof {
                    assert(bst_ok(node.left));
                    assert(bst_ok(node.right));
                    assert(lsize == ls.len());
                    assert(s == ls + ms + rs);
                    assert(s.len() == ls.len() + 1 + rs.len());
                    assert(node.size == s.len());
                }
                let ll: usize = if l < lsize {
                    l
                } else {
                    lsize
                };
                let lr: usize = if r < lsize {
                    r
                } else {
                    lsize
                };
                let a = fold_at(&node.left, ll, lr);
                let mid: Option<u64> = if l <= lsize && lsize < r {
                    Some(node.value)
                } else {
                    None
                };
                let rl: usize = if l > lsize {
                    l - lsize - 1
                } else {
                    0
                };
                let rr: usize = if r > lsize {
                    r - lsize - 1
                } else {
                    0
                };
                let c = fold_at(&node.right, rl, rr);
                let ghost pa = ls.subrange(ll as int, lr as int);
                let ghost pm = if l <= lsize && lsize < r {
                    ms
                } else {
                    Seq::<(u64, u64)>::empty()
                };
                let ghost pc = rs.subrange(rl as int, rr as int);
                proof {
                    assert(s.subrange(l as int, r as int) =~= pa + pm + pc);
                    lemma_sum_of_add(pa, pm);
                    lemma_sum_of_add(pa + pm, pc);
                    if l <= lsize && lsize < r {
                        assert(ms.drop_last() =~= Seq::<(u64, u64)>::empty());
                        assert(sum_of(Seq::<(u64, u64)>::empty()) == 0);
                        assert(sum_of(ms) == wadd(0, node.value));
                    }
                }
                let x = match (a, mid) {
                    (None, None) => None,
                    (Some(x), None) => Some(x),
                    (None, Some(y)) => Some(y),
                    (Some(x), Some(y)) => Some(x.wrapping_add(y)),
                };
                let res = match (x, c) {
                    (None, None) => None,
                    (Some(x), None) => Some(x),
                    (None, Some(y)) => Some(y),
                    (Some(x), Some(y)) => Some(x.wrapping_add(y)),
                };
                res
            }
        },
    }
}

/// In-order traversal, appending every entry to `out`.
fn collect_at(n: &Option<Box<Node>>, out: &mut Vec<(u64, u64)>)
    ensures
        final(out)@ == old(out)@ + seq_of(*n),
    decreases *n,
{
    match n {
        None => {
            proof {
                assert(old(out)@ + seq_of(*n) =~= old(out)@);
            }
        },
        Some(node) => {
            collect_at(&node.left, out);
            out.push((node.key, node.value));
            collect_at(&node.right, out);
            proof {
                assert(out@ =~= old(out)@ + seq_of(*n));
            }
        },
    }
}

/// All entries whose key is strictly above `k`.
pub open spec fn above(k: u64) -> spec_fn((u64, u64)) -> bool {
    |p: (u64, u64)| p.0 > k
}

/// The sequence with `(key, value)` placed at its sorted slot.
pub open spec fn placed(s: Seq<(u64, u64)>, key: u64, value: u64) -> Seq<(u64, u64)> {
    s.filter(below(key)) + seq![(key, value)] + s.filter(above(key))
}

/// On a sequence without the key, the two filters split off everything.
proof fn lemma_filter_partition(s: Seq<(u64, u64)>, key: u64)
    requires
        !contains_key(s, key),
    ensures
        s.filter(below(key)).to_multiset().add(s.filter(above(key)).to_multiset())
            == s.to_multiset(),
    decreases s.len(),
{
    broadcast use vstd::seq_lib::group_to_multiset_ensures;
    broadcast use vstd::multiset::group_multiset_axioms;

    reveal(Seq::filter);
    if s.len() == 0 {
        assert(s.filter(below(key)) =~= s);
        assert(s.filter(above(key)) =~= s);
        assert(s.filter(below(key)).to_multiset().add(s.filter(above(key)).to_multiset())
            =~= s.to_multiset());
    } else {
        let s2 = s.drop_last();
        assert(forall|i: int| 0 <= i < s2.len() ==> #[trigger] s2[i] == s[i]);
        assert(!contains_key(s2, key)) by {
            if contains_key(s2, key) {
                let i = choose|i: int| 0 <= i < s2.len() && (#[trigger] s2[i]).0 == key;
                assert(s[i].0 == key);
            }
        }
        lemma_filter_partition(s2, key);
        assert(s.last().0 != key) by {
            assert(s[s.len() - 1] == s.last());
        }
        assert(s2.push(s.last()) =~= s);
        assert(s.to_multiset() == s2.to_multiset().insert(s.last()));
        if below(key)(s.last()) {
            assert(s.filter(below(key)) == s2.filter(below(key)).push(s.last()));
            assert(s.filter(above(key)) == s2.filter(above(key)));
            assert(s.filter(below(key)).to_multiset() == s2.filter(
                below(key),
            ).to_multiset().insert(s.last()));
        } else {
            assert(above(key)(s.last()));
            assert(s.filter(above(key)) == s2.filter(above(key)).push(s.last()));
            assert(s.filter(below(key)) == s2.filter(below(key)));
            assert(s.filter(above(key)).to_multiset() == s2.filter(
                above(key),
            ).to_multiset().insert(s.last()));
        }
        assert(s.filter(below(key)).to_multiset().add(s.filter(above(key)).to_multiset())
            =~= s.to_multiset());
    }
}

/// A filter of a sorted sequence is sorted.
proof fn lemma_filter_sorted(s: Seq<(u64, u64)>, pred: spec_fn((u64, u64)) -> bool)
    requires
        sorted(s),
    ensures
        sorted(s.filter(pred)),
    decreases s.len(),
{
    reveal(Seq::filter);
    broadcast use vstd::seq_lib::group_filter_ensures;

    if s.len() > 0 {
        let s2 = s.drop_last();
        assert(forall|i: int| 0 <= i < s2.len() ==> #[trigger] s2[i] == s[i]);
        assert(sorted(s2));
        lemma_filter_sorted(s2, pred);
        if pred(s.last()) {
            let f = s.filter(pred);
            let f2 = s2.filter(pred);
            assert(f == f2.push(s.last()));
            assert forall|i: int, j: int| 0 <= i < j < f.len() implies f[i].0 < f[j].0 by {
                if j < f.len() - 1 {
                    assert(f[i] == f2[i] && f[j] == f2[j]);
                } else {
                    assert(f[j] == s.last());
                    assert(f[i] == f2[i]);
                    // the filtered entry comes from the sorted prefix
                    lemma_filter_member(s2, pred, i);
                    let m = choose|m: int| 0 <= m < s2.len() && s2[m] == f2[i];
                    assert(s2[m].0 < s.last().0) by {
                        assert(s2[m] == s[m]);
                    }
                }
            }
        }
    }
}

/// Entries of a filtered sequence come from the sequence it was made from.
proof fn lemma_filter_member(s: Seq<(u64, u64)>, pred: spec_fn((u64, u64)) -> bool, i: int)
    requires
        0 <= i < s.filter(pred).len(),
    ensures
        exists|j: int| 0 <= j < s.len() && s[j] == s.filter(pred)[i],
    decreases s.len(),
{
    reveal(Seq::filter);
    if s.len() > 0 {
        let s2 = s.drop_last();
        let f = s.filter(pred);
        let f2 = s2.filter(pred);
        if pred(s.last()) && i == f.len() - 1 {
            assert(s[s.len() - 1] == f[i]);
        } else {
            lemma_filter_member(s2, pred, i);
            let j = choose|j: int| 0 <= j < s2.len() && s2[j] == f2[i];
            assert(s[j] == f[i]);
        }
    }
}

/// The insertion contract pins the new sequence exactly: with strictly
/// sorted keys on both sides, the tree after an insertion reads as the old
/// sequence with the new pair placed at its sorted slot.
pub proof fn lemma_insert_position(s: Seq<(u64, u64)>, t: Seq<(u64, u64)>, key: u64, value: u64)
    requires
        sorted(s),
        sorted(t),
        !contains_key(s, key),
        t.to_multiset() == s.to_multiset().insert((key, value)),
    ensures
        t == placed(s, key, value),
{
    broadcast use vstd::seq_lib::group_to_multiset_ensures;
    broadcast use vstd::multiset::group_multiset_axioms;
    broadcast use vstd::seq_lib::group_filter_ensures;

    let fb = s.filter(below(key));
    let fa = s.filter(above(key));
    let p = placed(s, key, value);
    lemma_filter_sorted(s, below(key));
    lemma_filter_sorted(s, above(key));
    assert forall|i: int, j: int| 0 <= i < j < p.len() implies p[i].0 < p[j].0 by {
        if j < fb.len() {
        } else if i < fb.len() {
            assert(p[i] == fb[i]);
            assert(fb[i].0 < key);
            if j > fb.len() {
                assert(p[j] == fa[j - fb.len() - 1]);
                assert(fa[j - fb.len() - 1].0 > key);
            } else {
                assert(p[j] == (key, value));
            }
        } else if i == fb.len() {
            assert(p[i] == (key, value));
            assert(p[j] == fa[j - fb.len() - 1]);
            assert(fa[j - fb.len() - 1].0 > key);
        } else {
            assert(p[i] == fa[i - fb.len() - 1]);
            assert(p[j] == fa[j - fb.len() - 1]);
        }
    }
    assert(sorted(p));
    lemma_filter_partition(s, key);
    vstd::seq_lib::lemma_multiset_commutative(fb + seq![(key, value)], fa);
    vstd::seq_lib::lemma_multiset_commutative(fb, seq![(key, value)]);
    assert(seq![(key, value)] =~= Seq::<(u64, u64)>::empty().push((key, value)));
    assert(p.to_multiset() =~= s.to_multiset().insert((key, value)));
    lemma_sorted_multiset_unique(t, p);
}

/// The deletion contract pins the new sequence exactly: the old sequence is
/// the new one with the removed pair put back at its sorted slot, and the
/// removed key is gone from the new one.
pub proof fn lemma_delete_position(s: Seq<(u64, u64)>, t: Seq<(u64, u64)>, kv: (u64, u64))
    requires
        sorted(s),
        sorted(t),
        s.to_multiset() == t.to_multiset().insert(kv),
    ensures
        !contains_key(t, kv.0),
        s == placed(t, kv.0, kv.1),
{
    broadcast use vstd::seq_lib::group_to_multiset_ensures;
    broadcast use vstd::multiset::group_multiset_axioms;

    assert(s.no_duplicates()) by {
        assert forall|i: int, j: int|
            0 <= i < s.len() && 0 <= j < s.len() && i != j implies s[i] != s[j] by {
            if i < j {
                assert(s[i].0 < s[j].0);
            } else {
                assert(s[j].0 < s[i].0);
            }
        }
    }
    s.lemma_multiset_has_no_duplicates();
    if contains_key(t, kv.0) {
        let i = choose|i: int| 0 <= i < t.len() && (#[trigger] t[i]).0 == kv.0;
        assert(t.to_multiset().count(t[i]) > 0);
        assert(s.to_multiset().count(t[i]) > 0);
        assert(s.contains(t[i]));
        let j = choose|j: int| 0 <= j < s.len() && s[j] == t[i];
        assert(s.to_multiset().count(kv) > 0);
        assert(s.contains(kv));
        let j2 = choose|j2: int| 0 <= j2 < s.len() && s[j2] == kv;
        assert(j == j2) by {
            if j < j2 {
                assert(s[j].0 < s[j2].0);
            } else if j2 < j {
                assert(s[j2].0 < s[j].0);
            }
        }
        assert(t[i] == kv);
        assert(s.to_multiset().count(kv) == 1);
        assert(t.to_multiset().count(kv) == 0);
        assert(false);
    }
    lemma_insert_position(t, s, kv.0, kv.1);
}

} // verus!
