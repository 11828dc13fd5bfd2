use vstd::multiset::Multiset;
use vstd::prelude::*;
use crate::symbol_map::listing;
use crate::tree::{
    huffman_tree, insert_position, leaf_of, leaf_queue, lemma_insert_position, lemma_leaf_queue,
    lemma_merged, merged, sorted_by_weight, tree_of, Tree,
};

verus! {

/// The cost of a tree: the weight of every leaf, once for each step from the
/// root down to it. This is the number of bits that the codes of the tree
/// need for a text in which each symbol occurs as often as its leaf weighs.
pub open spec fn cost(t: Tree) -> nat
    decreases t,
{
    match t {
        Tree::Leaf { .. } => 0,
        Tree::Node { left, right } => cost(*left) + cost(*right) + left.weight() + right.weight(),
    }
}

/// The longest way from the root down to a leaf.
pub open spec fn height(t: Tree) -> nat
    decreases t,
{
    match t {
        Tree::Leaf { .. } => 0,
        Tree::Node { left, right } => if height(*left) >= height(*right) {
            height(*left) + 1
        } else {
            height(*right) + 1
        },
    }
}

/// The weights of the leaves of a tree, each as often as it occurs.
pub open spec fn leaf_bag(t: Tree) -> Multiset<nat>
    decreases t,
{
    match t {
        Tree::Leaf { weight, .. } => Multiset::singleton(weight),
        Tree::Node { left, right } => leaf_bag(*left).add(leaf_bag(*right)),
    }
}

/// Both children of the node are leaves.
pub open spec fn is_twig(t: Tree) -> bool {
    t matches Tree::Node { left, right } && *left is Leaf && *right is Leaf
}

/// The weight of one leaf of a deepest pair of sibling leaves: the left one
/// if `first`, else the right one.
pub open spec fn deep_leaf(t: Tree, first: bool) -> nat
    decreases t,
{
    match t {
        Tree::Leaf { weight, .. } => weight,
        Tree::Node { left, right } => if is_twig(t) {
            if first {
                left.weight()
            } else {
                right.weight()
            }
        } else if height(*left) >= height(*right) {
            deep_leaf(*left, first)
        } else {
            deep_leaf(*right, first)
        },
    }
}

/// The tree with the weight `v` in the place of that leaf.
pub open spec fn set_deep_leaf(t: Tree, first: bool, v: nat) -> Tree
    decreases t,
{
    match t {
        Tree::Leaf { symbol, .. } => Tree::Leaf { symbol, weight: v },
        Tree::Node { left, right } => if is_twig(t) {
            if first {
                Tree::Node { left: Box::new(set_deep_leaf(*left, first, v)), right }
            } else {
                Tree::Node { left, right: Box::new(set_deep_leaf(*right, first, v)) }
            }
        } else if height(*left) >= height(*right) {
            Tree::Node { left: Box::new(set_deep_leaf(*left, first, v)), right }
        } else {
            Tree::Node { left, right: Box::new(set_deep_leaf(*right, first, v)) }
        },
    }
}

/// The tree with the weight `v` in the place of its leftmost leaf of weight
/// `x`.
pub open spec fn with_leaf(t: Tree, x: nat, v: nat) -> Tree
    decreases t,
{
    match t {
        Tree::Leaf { symbol, .. } => Tree::Leaf { symbol, weight: v },
        Tree::Node { left, right } => if leaf_bag(*left).contains(x) {
            Tree::Node { left: Box::new(with_leaf(*left, x, v)), right }
        } else {
            Tree::Node { left, right: Box::new(with_leaf(*right, x, v)) }
        },
    }
}

proof fn lemma_times_next(d: int, h: int)
    ensures
        d * (h + 1) == d * h + d,
{
    assert(d * (h + 1) == d * h + d) by (nonlinear_arith);
}

proof fn lemma_times_grows(d: int, h1: int, h2: int)
    requires
        0 <= d,
        h1 <= h2,
    ensures
        d * h1 <= d * h2,
{
    assert(d * h1 <= d * h2) by (nonlinear_arith)
        requires
            0 <= d,
            h1 <= h2,
    ;
}

/// The weight of a tree is the sum of its leaf weights; a tree has at least
/// one leaf, and a node at least two.
pub proof fn lemma_leaf_bag(t: Tree)
    ensures
        leaf_bag(t).len() >= 1,
        t is Node ==> leaf_bag(t).len() >= 2,
        t matches Tree::Leaf { weight, .. } ==> leaf_bag(t) == Multiset::singleton(weight),
    decreases t,
{
    match t {
        Tree::Leaf { .. } => {},
        Tree::Node { left, right } => {
            lemma_leaf_bag(*left);
            lemma_leaf_bag(*right);
        },
    }
}

/// A leaf of a deepest pair lies as deep as the tree is high: another weight
/// in its place changes the cost by the difference, once for each level.
pub proof fn lemma_set_deep_leaf(t: Tree, first: bool, v: nat)
    requires
        t is Node,
    ensures
        leaf_bag(t).contains(deep_leaf(t, true)),
        leaf_bag(t).remove(deep_leaf(t, true)).contains(deep_leaf(t, false)),
        set_deep_leaf(t, first, v) is Node,
        height(set_deep_leaf(t, first, v)) == height(t),
        leaf_bag(set_deep_leaf(t, first, v)) == leaf_bag(t).remove(deep_leaf(t, first)).insert(v),
        set_deep_leaf(t, first, v).weight() == t.weight() - deep_leaf(t, first) + v,
        cost(set_deep_leaf(t, first, v)) == cost(t) + (v - deep_leaf(t, first)) * height(t),
    decreases t,
{
    let x = deep_leaf(t, first);
    let d = v - x;
    match t {
        Tree::Leaf { .. } => {},
        Tree::Node { left, right } => {
            if is_twig(t) {
                let child = if first {
                    *left
                } else {
                    *right
                };
                let other = if first {
                    *right
                } else {
                    *left
                };
                let planted = set_deep_leaf(child, first, v);
                assert(planted is Leaf && planted.weight() == v);
                assert(height(planted) == 0 && cost(planted) == 0);
                assert(height(child) == 0 && cost(child) == 0);
                assert(height(other) == 0 && cost(other) == 0);
                assert(leaf_bag(planted) == Multiset::singleton(v));
                assert(leaf_bag(child) == Multiset::singleton(child.weight()));
                assert(leaf_bag(other) == Multiset::singleton(other.weight()));
                assert(height(t) == 1);
                assert(d * 1 == d);
                assert(leaf_bag(set_deep_leaf(t, first, v)) =~= leaf_bag(t).remove(x).insert(v));
            } else if height(*left) >= height(*right) {
                lemma_set_deep_leaf(*left, first, v);
                lemma_times_next(d, height(*left) as int);
                assert(leaf_bag(set_deep_leaf(t, first, v)) =~= leaf_bag(t).remove(x).insert(v));
            } else {
                lemma_set_deep_leaf(*right, first, v);
                lemma_times_next(d, height(*right) as int);
                assert(leaf_bag(set_deep_leaf(t, first, v)) =~= leaf_bag(t).remove(x).insert(v));
            }
        },
    }
}

/// A heavier weight in the place of a leaf raises the cost by no more than
/// the difference, once for each level of the tree.
pub proof fn lemma_with_leaf(t: Tree, x: nat, v: nat)
    requires
        leaf_bag(t).contains(x),
        x <= v,
    ensures
        height(with_leaf(t, x, v)) == height(t),
        leaf_bag(with_leaf(t, x, v)) == leaf_bag(t).remove(x).insert(v),
        with_leaf(t, x, v).weight() == t.weight() - x + v,
        cost(with_leaf(t, x, v)) <= cost(t) + (v - x) * height(t),
    decreases t,
{
    let d = v - x;
    match t {
        Tree::Leaf { .. } => {
            assert(d * 0 == 0);
            assert(leaf_bag(with_leaf(t, x, v)) =~= leaf_bag(t).remove(x).insert(v));
        },
        Tree::Node { left, right } => {
            if leaf_bag(*left).contains(x) {
                lemma_with_leaf(*left, x, v);
                lemma_times_next(d, height(*left) as int);
                lemma_times_grows(d, (height(*left) + 1) as int, height(t) as int);
            } else {
                lemma_with_leaf(*right, x, v);
                lemma_times_next(d, height(*right) as int);
                lemma_times_grows(d, (height(*right) + 1) as int, height(t) as int);
            }
            assert(leaf_bag(with_leaf(t, x, v)) =~= leaf_bag(t).remove(x).insert(v));
        },
    }
}

/// `a` and `b` are the two lightest weights of the bag, `a` the lighter.
pub open spec fn two_lightest(bag: Multiset<nat>, a: nat, b: nat) -> bool {
    &&& bag.contains(a)
    &&& bag.remove(a).contains(b)
    &&& forall|x: nat| bag.count(x) > 0 ==> a <= x
    &&& forall|x: nat| bag.remove(a).count(x) > 0 ==> b <= x
}

/// `r` has the leaves of `t`, but one leaf of weight `a + b` for the two of
/// weight `a` and `b`, and costs less than `t` by `a + b` at least.
pub open spec fn fused(t: Tree, a: nat, b: nat, r: Tree) -> bool {
    &&& leaf_bag(r) == leaf_bag(t).remove(a).remove(b).insert(a + b)
    &&& r.weight() == t.weight()
    &&& cost(r) + a + b <= cost(t)
}

/// The exchange step: in every tree the two lightest leaves can be brought
/// together as siblings on the lowest level without raising the cost, and
/// then be taken for one leaf.
pub proof fn lemma_exchange(t: Tree, a: nat, b: nat) -> (r: Tree)
    requires
        t is Node,
        two_lightest(leaf_bag(t), a, b),
    ensures
        fused(t, a, b, r),
    decreases height(t), 1nat,
{
    let m = leaf_bag(t);
    match t {
        Tree::Leaf { .. } => t,
        Tree::Node { left, right } => {
            let ml = leaf_bag(*left);
            let mr = leaf_bag(*right);
            lemma_leaf_bag(*left);
            lemma_leaf_bag(*right);
            assert(m == ml.add(mr));
            if *left is Leaf && *right is Leaf {
                let r = Tree::Leaf { symbol: ' ', weight: a + b };
                assert(cost(*left) == 0 && cost(*right) == 0);
                assert(left.weight() + right.weight() == a + b);
                assert(leaf_bag(r) =~= m.remove(a).remove(b).insert(a + b));
                r
            } else if ml.contains(a) && ml.remove(a).contains(b) {
                assert(two_lightest(ml, a, b)) by {
                    assert forall|x: nat| ml.count(x) > 0 implies a <= x by {
                        assert(m.count(x) > 0);
                    }
                    assert forall|x: nat| ml.remove(a).count(x) > 0 implies b <= x by {
                        assert(m.remove(a).count(x) > 0);
                    }
                }
                let l2 = lemma_exchange(*left, a, b);
                let r = Tree::Node { left: Box::new(l2), right };
                assert(leaf_bag(r) =~= m.remove(a).remove(b).insert(a + b));
                r
            } else if mr.contains(a) && mr.remove(a).contains(b) {
                assert(two_lightest(mr, a, b)) by {
                    assert forall|x: nat| mr.count(x) > 0 implies a <= x by {
                        assert(m.count(x) > 0);
                    }
                    assert forall|x: nat| mr.remove(a).count(x) > 0 implies b <= x by {
                        assert(m.remove(a).count(x) > 0);
                    }
                }
                let r2 = lemma_exchange(*right, a, b);
                let r = Tree::Node { left, right: Box::new(r2) };
                assert(leaf_bag(r) =~= m.remove(a).remove(b).insert(a + b));
                r
            } else {
                let low = if ml.contains(a) {
                    a
                } else {
                    b
                };
                let high = if ml.contains(a) {
                    b
                } else {
                    a
                };
                assert(ml.contains(low) && mr.contains(high)) by {
                    assert(m.remove(a).count(b) > 0);
                }
                if height(*left) <= height(*right) {
                    lemma_move_across(*left, *right, a, b, low, high)
                } else {
                    assert(mr.add(ml) =~= m);
                    lemma_move_across(*right, *left, a, b, high, low)
                }
            }
        },
    }
}

/// The split case of the exchange step: the two lightest leaves lie in
/// different subtrees, `low` in the one that is no higher. It changes places
/// with a leaf on the lowest level of the other subtree, where the two are
/// then brought together.
proof fn lemma_move_across(from: Tree, to: Tree, a: nat, b: nat, low: nat, high: nat) -> (r: Tree)
    requires
        two_lightest(leaf_bag(from).add(leaf_bag(to)), a, b),
        (low == a && high == b) || (low == b && high == a),
        leaf_bag(from).contains(low),
        leaf_bag(to).contains(high),
        height(from) <= height(to),
        !(from is Leaf && to is Leaf),
    ensures
        leaf_bag(r) == leaf_bag(from).add(leaf_bag(to)).remove(a).remove(b).insert(a + b),
        r.weight() == from.weight() + to.weight(),
        cost(r) + a + b <= cost(from) + cost(to) + from.weight() + to.weight(),
    decreases height(to), 2nat,
{
    let mf = leaf_bag(from);
    let mt = leaf_bag(to);
    lemma_leaf_bag(from);
    lemma_leaf_bag(to);
    assert(to is Node);
    let first = deep_leaf(to, true) != high;
    let c = deep_leaf(to, first);
    lemma_set_deep_leaf(to, first, low);
    let to2 = set_deep_leaf(to, first, low);
    assert(mt.remove(c).contains(high));
    lemma_bags_after_move(mf, mt, a, b, low, high, c);
    lemma_with_leaf(from, low, c);
    let from2 = with_leaf(from, low, c);
    let to3 = lemma_exchange(to2, a, b);
    let r = Tree::Node { left: Box::new(from2), right: Box::new(to3) };
    let d = c - low;
    lemma_times_grows(d, height(from) as int, height(to) as int);
    lemma_times_negated(d, height(to) as int);
    assert(cost(to2) == cost(to) - d * height(to));
    assert(cost(from2) <= cost(from) + d * height(from));
    assert(cost(to3) + a + b <= cost(to2));
    assert(to3.weight() == to.weight() - d);
    assert(from2.weight() == from.weight() + d);
    assert(cost(r) == cost(from2) + cost(to3) + from2.weight() + to3.weight());
    r
}

proof fn lemma_times_negated(d: int, h: int)
    ensures
        (-d) * h == -(d * h),
{
    assert((-d) * h == -(d * h)) by (nonlinear_arith);
}

/// The bags of two subtrees after a leaf `low` of the one has changed places
/// with a leaf `c` of the other.
proof fn lemma_bags_after_move(
    mf: Multiset<nat>,
    mt: Multiset<nat>,
    a: nat,
    b: nat,
    low: nat,
    high: nat,
    c: nat,
)
    requires
        two_lightest(mf.add(mt), a, b),
        (low == a && high == b) || (low == b && high == a),
        mf.contains(low),
        mt.contains(high),
        mt.contains(c),
        mt.remove(c).contains(high),
    ensures
        low <= c,
        two_lightest(mt.remove(c).insert(low), a, b),
        mf.remove(low).insert(c).add(
            mt.remove(c).insert(low).remove(a).remove(b).insert(a + b),
        ) == mf.add(mt).remove(a).remove(b).insert(a + b),
{
    let m = mf.add(mt);
    let mt2 = mt.remove(c).insert(low);
    assert(low <= c) by {
        assert(m.remove(a).count(c) > 0);
    }
    assert(mt2.contains(a));
    assert(mt2.remove(a).contains(b));
    assert forall|x: nat| mt2.count(x) > 0 implies a <= x by {
        assert(m.count(x) > 0);
    }
    assert forall|x: nat| mt2.remove(a).count(x) > 0 implies b <= x by {
        assert(m.remove(a).count(x) > 0);
    }
    assert(mf.remove(low).insert(c).add(mt2.remove(a).remove(b).insert(a + b)) =~= m.remove(
        a,
    ).remove(b).insert(a + b));
}

/// The weights of the trees of a queue, each as often as it occurs.
pub open spec fn queue_bag(q: Seq<Tree>) -> Multiset<nat>
    decreases q.len(),
{
    if q.len() == 0 {
        Multiset::empty()
    } else {
        queue_bag(q.drop_last()).insert(q.last().weight())
    }
}

/// The weights of all leaves of the trees of a queue.
pub open spec fn queue_leaves(q: Seq<Tree>) -> Multiset<nat>
    decreases q.len(),
{
    if q.len() == 0 {
        Multiset::empty()
    } else {
        queue_leaves(q.drop_last()).add(leaf_bag(q.last()))
    }
}

/// The sum of the costs of the trees of a queue.
pub open spec fn queue_cost(q: Seq<Tree>) -> nat
    decreases q.len(),
{
    if q.len() == 0 {
        0
    } else {
        queue_cost(q.drop_last()) + cost(q.last())
    }
}

/// What the merges of a queue add to its cost: with every merge the weight
/// of the two trees that it joins.
pub open spec fn merge_cost(q: Seq<Tree>) -> nat
    decreases q.len(),
{
    if q.len() <= 1 {
        0
    } else {
        proof {
            lemma_merged(q);
        }
        q[0].weight() + q[1].weight() + merge_cost(merged(q))
    }
}

/// A tree put in anywhere adds its weight, its leaves and its cost to those
/// of the queue.
pub proof fn lemma_queue_insert(q: Seq<Tree>, p: int, t: Tree)
    requires
        0 <= p <= q.len(),
    ensures
        queue_bag(q.insert(p, t)) == queue_bag(q).insert(t.weight()),
        queue_leaves(q.insert(p, t)) == queue_leaves(q).add(leaf_bag(t)),
        queue_cost(q.insert(p, t)) == queue_cost(q) + cost(t),
    decreases q.len() - p,
{
    let r = q.insert(p, t);
    if p == q.len() {
        assert(r.drop_last() =~= q);
    } else {
        assert(r.drop_last() =~= q.drop_last().insert(p, t));
        assert(r.last() == q.last());
        lemma_queue_insert(q.drop_last(), p, t);
        assert(queue_bag(r) =~= queue_bag(q).insert(t.weight()));
        assert(queue_leaves(r) =~= queue_leaves(q).add(leaf_bag(t)));
    }
}

/// The first tree of a queue and the rest make up the queue.
pub proof fn lemma_queue_first(q: Seq<Tree>)
    requires
        q.len() > 0,
    ensures
        queue_bag(q) == queue_bag(q.skip(1)).insert(q[0].weight()),
        queue_leaves(q) == queue_leaves(q.skip(1)).add(leaf_bag(q[0])),
        queue_cost(q) == queue_cost(q.skip(1)) + cost(q[0]),
        queue_bag(q).len() == q.len(),
    decreases q.len(),
{
    if q.len() == 1 {
        assert(q.drop_last() =~= q.skip(1));
        assert(q.skip(1).len() == 0);
        assert(queue_bag(q) =~= queue_bag(q.skip(1)).insert(q[0].weight()));
        assert(queue_leaves(q) =~= queue_leaves(q.skip(1)).add(leaf_bag(q[0])));
    } else {
        lemma_queue_first(q.drop_last());
        assert(q.drop_last().skip(1) =~= q.skip(1).drop_last());
        assert(q.skip(1).last() == q.last());
        assert(queue_bag(q) =~= queue_bag(q.skip(1)).insert(q[0].weight()));
        assert(queue_leaves(q) =~= queue_leaves(q.skip(1)).add(leaf_bag(q[0])));
    }
}

/// Every weight of the bag of a queue is the weight of one of its trees.
pub proof fn lemma_queue_bag_weight(q: Seq<Tree>, x: nat)
    requires
        queue_bag(q).count(x) > 0,
    ensures
        exists|i: int| 0 <= i < q.len() && (#[trigger] q[i]).weight() == x,
    decreases q.len(),
{
    if q.len() > 0 {
        if q.last().weight() == x {
            assert(q[q.len() - 1].weight() == x);
        } else {
            lemma_queue_bag_weight(q.drop_last(), x);
            let i = choose|i: int| 0 <= i < q.len() - 1 && (#[trigger] q.drop_last()[i]).weight()
                == x;
            assert(q[i].weight() == x);
        }
    }
}

/// The first two trees of a sorted queue are its two lightest, and a merge
/// puts one tree of their joint weight in their place.
pub proof fn lemma_queue_merged(q: Seq<Tree>)
    requires
        q.len() >= 2,
        sorted_by_weight(q),
    ensures
        two_lightest(queue_bag(q), q[0].weight(), q[1].weight()),
        queue_bag(merged(q)) == queue_bag(q).remove(q[0].weight()).remove(q[1].weight()).insert(
            q[0].weight() + q[1].weight(),
        ),
        queue_leaves(merged(q)) == queue_leaves(q),
        queue_cost(merged(q)) == queue_cost(q) + q[0].weight() + q[1].weight(),
{
    let a = q[0].weight();
    let b = q[1].weight();
    let node = Tree::Node { left: Box::new(q[0]), right: Box::new(q[1]) };
    let rest = q.skip(2);
    let tail = q.skip(1);
    lemma_queue_first(q);
    lemma_queue_first(tail);
    assert(tail.skip(1) =~= rest);
    assert(tail[0] == q[1]);
    lemma_insert_position(rest, node.weight());
    lemma_queue_insert(rest, insert_position(rest, node.weight()), node);
    assert forall|x: nat| queue_bag(q).count(x) > 0 implies a <= x by {
        lemma_queue_bag_weight(q, x);
        let i = choose|i: int| 0 <= i < q.len() && (#[trigger] q[i]).weight() == x;
        if i > 0 {
            assert(q[0].weight() <= q[i].weight());
        }
    }
    assert(queue_bag(q).remove(a) =~= queue_bag(tail));
    assert forall|x: nat| queue_bag(q).remove(a).count(x) > 0 implies b <= x by {
        lemma_queue_bag_weight(tail, x);
        let i = choose|i: int| 0 <= i < tail.len() && (#[trigger] tail[i]).weight() == x;
        if i > 0 {
            assert(q[1].weight() <= q[i + 1].weight());
        }
    }
    assert(queue_bag(merged(q)) =~= queue_bag(q).remove(a).remove(b).insert(a + b));
    assert(queue_leaves(merged(q)) =~= queue_leaves(q));
}

/// The tree built from a queue holds the leaves of the queue, and costs what
/// the trees of the queue cost and the merges add.
pub proof fn lemma_huffman_tree_cost(q: Seq<Tree>)
    requires
        q.len() > 0,
        sorted_by_weight(q),
    ensures
        leaf_bag(huffman_tree(q)) == queue_leaves(q),
        cost(huffman_tree(q)) == queue_cost(q) + merge_cost(q),
    decreases q.len(),
{
    if q.len() == 1 {
        lemma_queue_first(q);
        assert(q.skip(1).len() == 0);
        assert(queue_leaves(q) =~= leaf_bag(q[0]));
    } else {
        lemma_merged(q);
        lemma_queue_merged(q);
        lemma_huffman_tree_cost(merged(q));
    }
}

/// No tree whose leaves weigh what the trees of a sorted queue weigh costs
/// less than the merges of the queue add.
pub proof fn lemma_merge_cost_least(q: Seq<Tree>, other: Tree)
    requires
        q.len() > 0,
        sorted_by_weight(q),
        leaf_bag(other) == queue_bag(q),
    ensures
        merge_cost(q) <= cost(other),
    decreases q.len(),
{
    if q.len() >= 2 {
        lemma_queue_first(q);
        lemma_leaf_bag(other);
        lemma_merged(q);
        lemma_queue_merged(q);
        let fused_tree = lemma_exchange(other, q[0].weight(), q[1].weight());
        lemma_merge_cost_least(merged(q), fused_tree);
    }
}

/// Optimality: the tree built from a sorted queue of leaves costs no more
/// than any tree whose leaves have the same weights.
pub proof fn lemma_huffman_tree_optimal(q: Seq<Tree>, other: Tree)
    requires
        q.len() > 0,
        sorted_by_weight(q),
        forall|i: int| 0 <= i < q.len() ==> (#[trigger] q[i]) is Leaf,
        leaf_bag(other) == leaf_bag(huffman_tree(q)),
    ensures
        cost(huffman_tree(q)) <= cost(other),
{
    lemma_huffman_tree_cost(q);
    lemma_queue_of_leaves(q);
    lemma_merge_cost_least(q, other);
}

/// A queue of leaves costs nothing, and its leaves are its trees.
proof fn lemma_queue_of_leaves(q: Seq<Tree>)
    requires
        forall|i: int| 0 <= i < q.len() ==> (#[trigger] q[i]) is Leaf,
    ensures
        queue_cost(q) == 0,
        queue_leaves(q) == queue_bag(q),
    decreases q.len(),
{
    if q.len() > 0 {
        assert(q[q.len() - 1] is Leaf);
        assert forall|i: int| 0 <= i < q.drop_last().len() implies (#[trigger] q.drop_last()[i])
            is Leaf by {
            assert(q[i] is Leaf);
        }
        lemma_queue_of_leaves(q.drop_last());
        lemma_leaf_bag(q.last());
        assert(queue_leaves(q) =~= queue_bag(q));
    }
}

/// The queue of leaves of a table holds leaves only.
pub proof fn lemma_leaf_queue_is_leaves(entries: Seq<(char, usize)>)
    ensures
        forall|i: int|
            0 <= i < leaf_queue(entries).len() ==> (#[trigger] leaf_queue(entries)[i]) is Leaf,
    decreases entries.len(),
{
    if entries.len() > 0 {
        let front = leaf_queue(entries.drop_last());
        let leaf = leaf_of(entries.last());
        lemma_leaf_queue_is_leaves(entries.drop_last());
        lemma_insert_position(front, leaf.weight());
        let p = insert_position(front, leaf.weight());
        let q = leaf_queue(entries);
        assert forall|i: int| 0 <= i < q.len() implies (#[trigger] q[i]) is Leaf by {
            if i < p {
                assert(q[i] == front[i]);
            } else if i > p {
                assert(q[i] == front[i - 1]);
            }
        }
    }
}

/// Optimality: the tree of a frequency table costs no more than any tree
/// whose leaves have the same weights. No prefix code for the symbols of the
/// table needs fewer bits for a text with these frequencies.
pub proof fn lemma_tree_of_optimal(table: Map<char, usize>, other: Tree)
    requires
        listing(table).len() > 0,
        leaf_bag(other) == leaf_bag(tree_of(table)),
    ensures
        cost(tree_of(table)) <= cost(other),
{
    let entries = listing(table);
    lemma_leaf_queue(entries);
    lemma_leaf_queue_is_leaves(entries);
    lemma_huffman_tree_optimal(leaf_queue(entries), other);
}

} // verus!
