use vstd::prelude::*;
use crate::error::HuffmanError;
use crate::frequency::sum_counts;
use crate::symbol_map::{listing, SymbolMap};

verus! {

/// The mathematical shape of a prefix-code tree: a leaf carries a symbol and
/// its weight, an inner node exactly two subtrees.
pub enum Tree {
    Leaf { symbol: char, weight: nat },
    Node { left: Box<Tree>, right: Box<Tree> },
}

impl Tree {
    /// The sum of the weights of all leaves.
    pub open spec fn weight(self) -> nat
        decreases self,
    {
        match self {
            Tree::Leaf { weight, .. } => weight,
            Tree::Node { left, right } => left.weight() + right.weight(),
        }
    }
}

/// A node of the executable tree. A leaf holds a symbol and no children; an
/// inner node holds two children, no symbol, and the sum of their frequencies.
#[derive(Debug, PartialEq, Eq)]
pub struct HuffmanNode {
    pub frequency: usize,
    pub ch: Option<char>,
    pub left_node: Option<Box<HuffmanNode>>,
    pub right_node: Option<Box<HuffmanNode>>,
}

impl View for HuffmanNode {
    type V = Tree;

    open spec fn view(&self) -> Tree {
        self.shape()
    }
}

impl HuffmanNode {
    /// The tree that a node stands for. A node that lacks a child counts as
    /// a leaf.
    pub open spec fn shape(&self) -> Tree
        decreases self,
    {
        match (self.left_node, self.right_node) {
            (Some(l), Some(r)) => Tree::Node {
                left: Box::new(l.shape()),
                right: Box::new(r.shape()),
            },
            _ => Tree::Leaf {
                symbol: match self.ch {
                    Some(c) => c,
                    None => ' ',
                },
                weight: self.frequency as nat,
            },
        }
    }

    /// Well-formedness: the node is a leaf with a symbol, or an inner node
    /// with two well-formed children whose frequencies add up to its own.
    pub open spec fn wf(&self) -> bool
        decreases self,
    {
        match (self.left_node, self.right_node) {
            (None, None) => self.ch is Some,
            (Some(l), Some(r)) => {
                &&& self.ch is None
                &&& l.wf()
                &&& r.wf()
                &&& self.frequency == l.frequency + r.frequency
            },
            _ => false,
        }
    }

    /// A node without children.
    pub fn new(frequency: usize, ch: Option<char>) -> (node: HuffmanNode)
        ensures
            node.frequency == frequency,
            node.ch == ch,
            node.left_node is None,
            node.right_node is None,
    {
        HuffmanNode { frequency, ch, left_node: None, right_node: None }
    }
}

/// The weights of `q` never fall from one tree to the next.
pub open spec fn sorted_by_weight(q: Seq<Tree>) -> bool {
    forall|i: int, j: int| 0 <= i < j < q.len() ==> q[i].weight() <= q[j].weight()
}

/// Where a tree of weight `w` enters a queue: behind every tree that is not
/// heavier than it. Among equal weights the one that came first stays first.
pub open spec fn insert_position(q: Seq<Tree>, w: nat) -> int
    decreases q.len(),
{
    if q.len() == 0 {
        0
    } else if q.last().weight() <= w {
        q.len() as int
    } else {
        insert_position(q.drop_last(), w)
    }
}

/// The queue `q` after `t` has entered it.
pub open spec fn enqueued(q: Seq<Tree>, t: Tree) -> Seq<Tree> {
    q.insert(insert_position(q, t.weight()), t)
}

/// The leaf of one entry of a frequency table.
pub open spec fn leaf_of(entry: (char, usize)) -> Tree {
    Tree::Leaf { symbol: entry.0, weight: entry.1 as nat }
}

/// The queue that the entries of a frequency table make: one leaf for each
/// entry, entered in the order of the entries.
pub open spec fn leaf_queue(entries: Seq<(char, usize)>) -> Seq<Tree>
    decreases entries.len(),
{
    if entries.len() == 0 {
        Seq::empty()
    } else {
        enqueued(leaf_queue(entries.drop_last()), leaf_of(entries.last()))
    }
}

/// One merge: the two lightest trees leave the queue, and the node that joins
/// them enters it.
pub open spec fn merged(q: Seq<Tree>) -> Seq<Tree> {
    enqueued(q.skip(2), Tree::Node { left: Box::new(q[0]), right: Box::new(q[1]) })
}

/// The tree that is left when a queue is merged until one tree remains.
pub open spec fn huffman_tree(q: Seq<Tree>) -> Tree
    decreases q.len(),
{
    if q.len() <= 1 {
        q[0]
    } else {
        proof {
            lemma_insert_position(
                q.skip(2),
                Tree::Node { left: Box::new(q[0]), right: Box::new(q[1]) }.weight(),
            );
        }
        huffman_tree(merged(q))
    }
}

/// The sum of the weights of the trees of a queue.
pub open spec fn queue_weight(q: Seq<Tree>) -> nat
    decreases q.len(),
{
    if q.len() == 0 {
        0
    } else {
        queue_weight(q.drop_last()) + q.last().weight()
    }
}

/// `insert_position` lies in the queue, behind the trees that are not heavier
/// than `w` and before those that are.
pub proof fn lemma_insert_position(q: Seq<Tree>, w: nat)
    ensures
        0 <= insert_position(q, w) <= q.len(),
        forall|j: int| insert_position(q, w) <= j < q.len() ==> (#[trigger] q[j]).weight() > w,
        insert_position(q, w) > 0 ==> q[insert_position(q, w) - 1].weight() <= w,
    decreases q.len(),
{
    if q.len() > 0 && q.last().weight() > w {
        let front = q.drop_last();
        lemma_insert_position(front, w);
        assert forall|j: int| insert_position(q, w) <= j < q.len() implies (#[trigger] q[j]).weight()
            > w by {
            if j < q.len() - 1 {
                assert(front[j] == q[j]);
            }
        }
    }
}

/// A tree that enters a sorted queue leaves it sorted and one longer.
pub proof fn lemma_enqueued_sorted(q: Seq<Tree>, t: Tree)
    requires
        sorted_by_weight(q),
    ensures
        sorted_by_weight(enqueued(q, t)),
        enqueued(q, t).len() == q.len() + 1,
{
    let p = insert_position(q, t.weight());
    lemma_insert_position(q, t.weight());
    let r = enqueued(q, t);
    assert forall|i: int, j: int| 0 <= i < j < r.len() implies r[i].weight() <= r[j].weight() by {
        if j < p {
            assert(r[i] == q[i] && r[j] == q[j]);
        } else if j == p {
            assert(r[i] == q[i]);
            if i < p - 1 {
                assert(q[i].weight() <= q[p - 1].weight());
            }
        } else if i < p {
            assert(r[i] == q[i] && r[j] == q[j - 1]);
        } else if i == p {
            assert(r[j] == q[j - 1]);
        } else {
            assert(r[i] == q[i - 1] && r[j] == q[j - 1]);
        }
    }
}

/// A tree put in anywhere adds its weight to that of the queue.
pub proof fn lemma_weight_insert(q: Seq<Tree>, p: int, t: Tree)
    requires
        0 <= p <= q.len(),
    ensures
        queue_weight(q.insert(p, t)) == queue_weight(q) + t.weight(),
    decreases q.len() - p,
{
    let r = q.insert(p, t);
    if p == q.len() {
        assert(r.drop_last() =~= q);
    } else {
        assert(r.drop_last() =~= q.drop_last().insert(p, t));
        assert(r.last() == q.last());
        lemma_weight_insert(q.drop_last(), p, t);
    }
}

/// The first tree of a queue and the rest weigh what the queue weighs.
pub proof fn lemma_weight_first(q: Seq<Tree>)
    requires
        q.len() > 0,
    ensures
        queue_weight(q) == q[0].weight() + queue_weight(q.skip(1)),
    decreases q.len(),
{
    if q.len() == 1 {
        assert(q.drop_last() =~= q.skip(1));
        assert(queue_weight(q.drop_last()) == 0);
    } else {
        lemma_weight_first(q.drop_last());
        assert(q.drop_last().skip(1) =~= q.skip(1).drop_last());
        assert(q.skip(1).last() == q.last());
    }
}

/// A merge keeps the weight of the queue and shortens it by one.
pub proof fn lemma_merged(q: Seq<Tree>)
    requires
        q.len() >= 2,
    ensures
        merged(q).len() == q.len() - 1,
        queue_weight(merged(q)) == queue_weight(q),
        sorted_by_weight(q) ==> sorted_by_weight(merged(q)),
{
    let node = Tree::Node { left: Box::new(q[0]), right: Box::new(q[1]) };
    let rest = q.skip(2);
    lemma_insert_position(rest, node.weight());
    lemma_weight_insert(rest, insert_position(rest, node.weight()), node);
    lemma_weight_first(q);
    lemma_weight_first(q.skip(1));
    assert(q.skip(1).skip(1) =~= rest);
    if sorted_by_weight(q) {
        assert forall|i: int, j: int| 0 <= i < j < rest.len() implies rest[i].weight()
            <= rest[j].weight() by {
            assert(q[i + 2].weight() <= q[j + 2].weight());
        }
        lemma_enqueued_sorted(rest, node);
    }
}

/// The weight of the tree built from a queue is the weight of the queue.
pub proof fn lemma_huffman_tree_weight(q: Seq<Tree>)
    requires
        q.len() > 0,
    ensures
        huffman_tree(q).weight() == queue_weight(q),
    decreases q.len(),
{
    if q.len() == 1 {
        assert(q.drop_last().len() == 0);
        assert(queue_weight(q.drop_last()) == 0);
    } else {
        lemma_merged(q);
        lemma_huffman_tree_weight(merged(q));
    }
}

/// The frequency of a well-formed node is the weight of its tree.
pub proof fn lemma_frequency_is_weight(node: HuffmanNode)
    requires
        node.wf(),
    ensures
        node.frequency == node@.weight(),
    decreases node,
{
    match (node.left_node, node.right_node) {
        (Some(l), Some(r)) => {
            lemma_frequency_is_weight(*l);
            lemma_frequency_is_weight(*r);
        },
        _ => {},
    }
}

/// The trees that wait to be merged, the lightest first. Trees of equal
/// weight stand in the order in which they entered.
#[derive(Debug)]
pub struct NodeQueue {
    nodes: Vec<HuffmanNode>,
}

impl View for NodeQueue {
    type V = Seq<Tree>;

    closed spec fn view(&self) -> Seq<Tree> {
        self.nodes@.map_values(|n: HuffmanNode| n@)
    }
}

impl NodeQueue {
    #[verifier::type_invariant]
    closed spec fn inv(&self) -> bool {
        &&& forall|i: int| 0 <= i < self.nodes.len() ==> (#[trigger] self.nodes[i]).wf()
        &&& sorted_by_weight(self@)
    }

    /// A queue without trees.
    pub fn new() -> (queue: Self)
        ensures
            queue@ == Seq::<Tree>::empty(),
    {
        let queue = NodeQueue { nodes: Vec::new() };
        assert(queue@ =~= Seq::<Tree>::empty());
        queue
    }

    /// The number of trees that wait.
    pub fn len(&self) -> (n: usize)
        ensures
            n == self@.len(),
    {
        self.nodes.len()
    }

    /// Lets a tree enter behind every tree that is not heavier than it.
    pub fn push(&mut self, node: HuffmanNode)
        requires
            node.wf(),
        ensures
            final(self)@ == enqueued(old(self)@, node@),
            sorted_by_weight(final(self)@),
    {
        proof {
            use_type_invariant(&*self);
            lemma_frequency_is_weight(node);
            lemma_enqueued_sorted(self@, node@);
        }
        let ghost before = self@;
        let mut nodes: Vec<HuffmanNode> = Vec::new();
        std::mem::swap(&mut nodes, &mut self.nodes);
        assert(self@ =~= Seq::<Tree>::empty());
        let mut p: usize = nodes.len();
        assert(before.take(p as int) == before);
        while p > 0 && nodes[p - 1].frequency > node.frequency
            invariant
                p <= nodes.len(),
                before == nodes@.map_values(|n: HuffmanNode| n@),
                forall|i: int| 0 <= i < nodes.len() ==> (#[trigger] nodes[i]).wf(),
                node.frequency == node@.weight(),
                insert_position(before, node@.weight()) == insert_position(
                    before.take(p as int),
                    node@.weight(),
                ),
            decreases p,
        {
            proof {
                lemma_frequency_is_weight(nodes[p - 1]);
                assert(before.take(p as int).last() == nodes[p - 1]@);
                assert(before.take(p as int).drop_last() == before.take(p - 1));
            }
            p = p - 1;
        }
        proof {
            if p > 0 {
                lemma_frequency_is_weight(nodes[p - 1]);
                assert(before.take(p as int).last() == nodes[p - 1]@);
            }
            assert(insert_position(before, node@.weight()) == p);
        }
        nodes.insert(p, node);
        assert(nodes@.map_values(|n: HuffmanNode| n@) =~= enqueued(before, node@));
        self.nodes = nodes;
    }

    /// Takes the lightest tree out of the queue, if there is one.
    pub fn pop(&mut self) -> (first: Option<HuffmanNode>)
        ensures
            match first {
                Some(node) => {
                    &&& old(self)@.len() > 0
                    &&& node.wf()
                    &&& node@ == old(self)@[0]
                    &&& final(self)@ == old(self)@.skip(1)
                    &&& forall|i: int|
                        0 <= i < old(self)@.len() ==> node@.weight() <= (#[trigger] old(
                            self,
                        )@[i]).weight()
                },
                None => old(self)@.len() == 0 && final(self)@ == old(self)@,
            },
    {
        proof {
            use_type_invariant(&*self);
        }
        if self.nodes.len() == 0 {
            return None;
        }
        let ghost before = self@;
        let mut nodes: Vec<HuffmanNode> = Vec::new();
        std::mem::swap(&mut nodes, &mut self.nodes);
        assert(self@ =~= Seq::<Tree>::empty());
        let node = nodes.remove(0);
        proof {
            assert(nodes@.map_values(|n: HuffmanNode| n@) =~= before.skip(1));
            assert forall|i: int, j: int| 0 <= i < j < before.skip(1).len() implies before.skip(
                1,
            )[i].weight() <= before.skip(1)[j].weight() by {
                assert(before[i + 1].weight() <= before[j + 1].weight());
            }
        }
        self.nodes = nodes;
        Some(node)
    }
}

/// Makes the queue of leaves of a frequency table: one leaf for each symbol,
/// the lightest first, and symbols of equal frequency by increasing symbol.
pub fn make_nodes(freqs: &SymbolMap<usize>) -> (nodes: NodeQueue)
    ensures
        nodes@ == leaf_queue(listing(freqs@)),
        nodes@.len() == freqs@.len(),
        sorted_by_weight(nodes@),
{
    let ghost entries = listing(freqs@);
    let mut nodes = NodeQueue::new();
    let n = freqs.len();
    let mut i: usize = 0;
    while i < n
        invariant
            i <= n,
            n == freqs@.len(),
            entries == listing(freqs@),
            n == entries.len(),
            nodes@ == leaf_queue(entries.take(i as int)),
            nodes@.len() == i,
        decreases n - i,
    {
        let leaf = HuffmanNode::new(*freqs.value_at(i), Some(freqs.key_at(i)));
        proof {
            assert(entries.take(i + 1).drop_last() == entries.take(i as int));
            assert(entries.take(i + 1).last() == entries[i as int]);
            lemma_insert_position(nodes@, leaf@.weight());
        }
        nodes.push(leaf);
        i = i + 1;
    }
    proof {
        assert(entries.take(n as int) == entries);
        lemma_leaf_queue(entries);
    }
    nodes
}

/// Merges the two lightest trees of the queue until one tree remains, and
/// hands it out. The queue is empty afterwards.
pub fn make_huffman_tree(nodes: &mut NodeQueue) -> (result: Result<HuffmanNode, HuffmanError>)
    requires
        queue_weight(old(nodes)@) <= usize::MAX,
    ensures
        final(nodes)@.len() == 0,
        match result {
            Ok(tree) => {
                &&& old(nodes)@.len() > 0
                &&& tree.wf()
                &&& tree@ == huffman_tree(old(nodes)@)
                &&& tree.frequency == queue_weight(old(nodes)@)
            },
            Err(e) => e == HuffmanError::EmptyAlphabet && old(nodes)@.len() == 0,
        },
{
    let ghost start = nodes@;
    while nodes.len() > 1
        invariant
            queue_weight(nodes@) <= usize::MAX,
            nodes@.len() == 0 <==> start.len() == 0,
            nodes@.len() > 0 ==> huffman_tree(nodes@) == huffman_tree(start),
        decreases nodes@.len(),
    {
        let ghost q = nodes@;
        let left = nodes.pop().unwrap();
        let right = nodes.pop().unwrap();
        proof {
            lemma_frequency_is_weight(left);
            lemma_frequency_is_weight(right);
            lemma_weight_first(q);
            lemma_weight_first(q.skip(1));
            lemma_merged(q);
            assert(q.skip(1).skip(1) == q.skip(2));
            assert(q.skip(1)[0] == q[1]);
        }
        let mut new_node = HuffmanNode::new(left.frequency + right.frequency, None);
        new_node.left_node = Some(Box::new(left));
        new_node.right_node = Some(Box::new(right));
        nodes.push(new_node);
    }
    match nodes.pop() {
        Some(tree) => {
            proof {
                lemma_frequency_is_weight(tree);
                lemma_huffman_tree_weight(start);
            }
            Ok(tree)
        },
        None => Err(HuffmanError::EmptyAlphabet),
    }
}

/// The tree of a frequency table: its leaves, queued by weight and symbol,
/// merged until one tree remains.
pub open spec fn tree_of(table: Map<char, usize>) -> Tree {
    huffman_tree(leaf_queue(listing(table)))
}

/// A leaf weighs what its entry counts.
pub proof fn lemma_leaf_weight(entry: (char, usize))
    ensures
        leaf_of(entry).weight() == entry.1,
{
}

/// The queue of leaves of a table is sorted, holds one leaf for each entry,
/// and weighs what the counts of the entries add up to.
pub proof fn lemma_leaf_queue(entries: Seq<(char, usize)>)
    ensures
        leaf_queue(entries).len() == entries.len(),
        sorted_by_weight(leaf_queue(entries)),
        queue_weight(leaf_queue(entries)) == sum_counts(entries),
    decreases entries.len(),
{
    if entries.len() > 0 {
        let front = leaf_queue(entries.drop_last());
        let leaf = leaf_of(entries.last());
        lemma_leaf_weight(entries.last());
        lemma_leaf_queue(entries.drop_last());
        lemma_insert_position(front, leaf.weight());
        lemma_enqueued_sorted(front, leaf);
        lemma_weight_insert(front, insert_position(front, leaf.weight()), leaf);
    }
}

/// A well-formed node is determined by its tree: the symbol and frequency of
/// a leaf are those of the tree's leaf, and an inner node has no symbol and
/// the frequencies of its children added up.
pub proof fn lemma_node_of_tree(a: HuffmanNode, b: HuffmanNode)
    requires
        a.wf(),
        b.wf(),
        a@ == b@,
    ensures
        a == b,
    decreases a,
{
    match (a.left_node, a.right_node, b.left_node, b.right_node) {
        (Some(al), Some(ar), Some(bl), Some(br)) => {
            lemma_node_of_tree(*al, *bl);
            lemma_node_of_tree(*ar, *br);
        },
        _ => {},
    }
}

/// Deterministic tree: two trees that were built from tables with the same
/// counts are the same tree, in shape, in the symbol of every leaf and in
/// every frequency, whatever frequencies are equal and however each table
/// was filled.
pub proof fn lemma_same_table_same_tree(
    first_table: Map<char, usize>,
    second_table: Map<char, usize>,
    first: HuffmanNode,
    second: HuffmanNode,
)
    requires
        first_table == second_table,
        first.wf(),
        second.wf(),
        first@ == tree_of(first_table),
        second@ == tree_of(second_table),
    ensures
        first == second,
{
    lemma_node_of_tree(first, second);
}

} // verus!
