use vstd::prelude::*;
use crate::codec::{encoded, lemma_decode_encoded};
use crate::archive::lemma_tree_holds;
use crate::codes::{
    code_table, lemma_leaf_holds, lemma_leaf_queue_holds, lemma_path_is_bits, path_to,
    queue_holds, holds_at,
};
use crate::frequency::{
    frequency_map, lemma_frequency_conservation, lemma_occurrences_bound, lemma_occurs,
    occurrences,
};
use crate::optimal::{cost, leaf_bag, lemma_leaf_bag, lemma_tree_of_optimal};
use crate::symbol_map::{
    has_key, key_index, lemma_map_of_entries, listing, strictly_sorted,
};
use crate::tree::{
    enqueued, huffman_tree, insert_position, leaf_of, leaf_queue, lemma_insert_position,
    lemma_leaf_queue, lemma_merged, merged, tree_of, Tree,
};

verus! {

/// Every leaf of the tree weighs as often as its symbol occurs in `text`, and
/// no symbol stands on two leaves.
pub open spec fn labelled_by(t: Tree, text: Seq<char>) -> bool
    decreases t,
{
    match t {
        Tree::Leaf { symbol, weight } => weight == occurrences(text, symbol),
        Tree::Node { left, right } => {
            &&& labelled_by(*left, text)
            &&& labelled_by(*right, text)
            &&& forall|c: char| !(path_to(*left, c) is Some && path_to(*right, c) is Some)
        },
    }
}

/// The number of symbols of `text` that the tree holds.
pub open spec fn hits(t: Tree, text: Seq<char>) -> nat
    decreases text.len(),
{
    if text.len() == 0 {
        0
    } else {
        hits(t, text.skip(1)) + if path_to(t, text[0]) is Some {
            1nat
        } else {
            0nat
        }
    }
}

/// The lengths of the paths to the symbols of `text` that the tree holds,
/// added up.
pub open spec fn depth_sum(t: Tree, text: Seq<char>) -> nat
    decreases text.len(),
{
    if text.len() == 0 {
        0
    } else {
        depth_sum(t, text.skip(1)) + match path_to(t, text[0]) {
            Some(p) => p.len(),
            None => 0,
        }
    }
}

/// The occurrences of a symbol, counted from the front of the text.
pub proof fn lemma_occurrences_front(text: Seq<char>, c: char)
    requires
        text.len() > 0,
    ensures
        occurrences(text, c) == occurrences(text.skip(1), c) + if text[0] == c {
            1nat
        } else {
            0nat
        },
    decreases text.len(),
{
    if text.len() == 1 {
        assert(text.drop_last() =~= text.skip(1));
        assert(occurrences(text.skip(1), c) == 0);
    } else {
        lemma_occurrences_front(text.drop_last(), c);
        assert(text.drop_last().skip(1) =~= text.skip(1).drop_last());
        assert(text.skip(1).last() == text.last());
    }
}

/// A leaf is hit as often as its symbol occurs, on a path of no length.
pub proof fn lemma_leaf_sums(t: Tree, text: Seq<char>)
    requires
        t is Leaf,
    ensures
        hits(t, text) == occurrences(text, t->symbol),
        depth_sum(t, text) == 0,
    decreases text.len(),
{
    if text.len() > 0 {
        lemma_leaf_sums(t, text.skip(1));
        lemma_occurrences_front(text, t->symbol);
    }
}

/// A node whose subtrees share no symbol is hit as often as both, one step
/// above them.
pub proof fn lemma_node_sums(t: Tree, text: Seq<char>)
    requires
        t is Node,
        forall|c: char| !(path_to(*t->left, c) is Some && path_to(*t->right, c) is Some),
    ensures
        hits(t, text) == hits(*t->left, text) + hits(*t->right, text),
        depth_sum(t, text) == depth_sum(*t->left, text) + depth_sum(*t->right, text) + hits(
            t,
            text,
        ),
    decreases text.len(),
{
    if text.len() > 0 {
        lemma_node_sums(t, text.skip(1));
        let c = text[0];
        match path_to(*t->right, c) {
            Some(p) => {
                assert(path_to(t, c).unwrap().len() == p.len() + 1);
            },
            None => match path_to(*t->left, c) {
                Some(p) => {
                    assert(path_to(t, c).unwrap().len() == p.len() + 1);
                },
                None => {},
            },
        }
    }
}

/// In a tree that is labelled by a text, the symbols of the text hit the
/// leaves as often as the tree weighs, on paths that add up to its cost.
pub proof fn lemma_labelled_sums(t: Tree, text: Seq<char>)
    requires
        labelled_by(t, text),
    ensures
        hits(t, text) == t.weight(),
        depth_sum(t, text) == cost(t),
    decreases t,
{
    match t {
        Tree::Leaf { .. } => {
            lemma_leaf_sums(t, text);
        },
        Tree::Node { left, right } => {
            lemma_labelled_sums(*left, text);
            lemma_labelled_sums(*right, text);
            lemma_node_sums(t, text);
        },
    }
}

/// The codes of a tree need as many bits for a text as the paths to its
/// symbols are long; under a single leaf, one bit for each symbol.
pub proof fn lemma_encoded_length(t: Tree, text: Seq<char>)
    requires
        forall|i: int| 0 <= i < text.len() ==> path_to(t, #[trigger] text[i]) is Some,
    ensures
        encoded(code_table(t), text) is Ok,
        encoded(code_table(t), text).unwrap().len() == if t is Leaf {
            text.len()
        } else {
            depth_sum(t, text)
        },
    decreases text.len(),
{
    lemma_decode_encoded(t, text);
    if text.len() > 0 {
        let tail = text.skip(1);
        assert forall|i: int| 0 <= i < tail.len() implies path_to(t, #[trigger] tail[i])
            is Some by {
            assert(tail[i] == text[i + 1]);
        }
        lemma_encoded_length(t, tail);
        lemma_path_is_bits(t, text[0]);
        assert(code_table(t).contains_key(text[0]));
    }
}

/// The bits of a text: under a tree that is labelled by the text and holds
/// all its symbols, the text encodes to as many bits as the tree costs.
pub proof fn lemma_encoded_length_is_cost(t: Tree, text: Seq<char>)
    requires
        t is Node,
        labelled_by(t, text),
        forall|i: int| 0 <= i < text.len() ==> path_to(t, #[trigger] text[i]) is Some,
    ensures
        encoded(code_table(t), text) is Ok,
        encoded(code_table(t), text).unwrap().len() == cost(t),
{
    lemma_encoded_length(t, text);
    lemma_labelled_sums(t, text);
}

/// Every tree of the queue is labelled by `text`, and no symbol stands in
/// two trees.
pub open spec fn queue_labelled(q: Seq<Tree>, text: Seq<char>) -> bool {
    &&& forall|i: int| 0 <= i < q.len() ==> labelled_by(#[trigger] q[i], text)
    &&& forall|i: int, j: int, c: char|
        #![trigger path_to(q[i], c), path_to(q[j], c)]
        0 <= i < j < q.len() ==> !(path_to(q[i], c) is Some && path_to(q[j], c) is Some)
}

/// A labelled tree that shares no symbol with a labelled queue may enter it.
pub proof fn lemma_enqueued_labelled(q: Seq<Tree>, t: Tree, text: Seq<char>)
    requires
        queue_labelled(q, text),
        labelled_by(t, text),
        forall|c: char| !(queue_holds(q, c) && path_to(t, c) is Some),
    ensures
        queue_labelled(enqueued(q, t), text),
{
    let p = insert_position(q, t.weight());
    lemma_insert_position(q, t.weight());
    let r = enqueued(q, t);
    assert forall|i: int| 0 <= i < r.len() implies labelled_by(#[trigger] r[i], text) by {
        if i < p {
            assert(r[i] == q[i]);
        } else if i > p {
            assert(r[i] == q[i - 1]);
        }
    }
    assert forall|i: int, j: int, c: char|
        #![trigger path_to(r[i], c), path_to(r[j], c)]
        0 <= i < j < r.len() implies !(path_to(r[i], c) is Some && path_to(r[j], c) is Some) by {
        let qi = if i < p {
            i
        } else {
            i - 1
        };
        let qj = if j < p {
            j
        } else {
            j - 1
        };
        if i != p {
            assert(r[i] == q[qi]);
        }
        if j != p {
            assert(r[j] == q[qj]);
        }
        assert(r[p] == t);
        if i == p {
            if path_to(r[j], c) is Some {
                assert(holds_at(q, c, qj));
                assert(queue_holds(q, c));
            }
        } else if j == p {
            if path_to(r[i], c) is Some {
                assert(holds_at(q, c, qi));
                assert(queue_holds(q, c));
            }
        } else {
            assert(0 <= qi < qj < q.len());
            assert(!(path_to(q[qi], c) is Some && path_to(q[qj], c) is Some));
        }
    }
}

/// A merge keeps a queue labelled.
pub proof fn lemma_merged_labelled(q: Seq<Tree>, text: Seq<char>)
    requires
        q.len() >= 2,
        queue_labelled(q, text),
    ensures
        queue_labelled(merged(q), text),
{
    let node = Tree::Node { left: Box::new(q[0]), right: Box::new(q[1]) };
    let rest = q.skip(2);
    assert(labelled_by(node, text)) by {
        assert(labelled_by(q[0], text) && labelled_by(q[1], text));
        assert forall|c: char| !(path_to(q[0], c) is Some && path_to(q[1], c) is Some) by {}
    }
    assert(queue_labelled(rest, text)) by {
        assert forall|i: int| 0 <= i < rest.len() implies labelled_by(#[trigger] rest[i], text) by {
            assert(rest[i] == q[i + 2]);
        }
        assert forall|i: int, j: int, c: char|
            #![trigger path_to(rest[i], c), path_to(rest[j], c)]
            0 <= i < j < rest.len() implies !(path_to(rest[i], c) is Some && path_to(rest[j], c)
                is Some) by {
            assert(rest[i] == q[i + 2] && rest[j] == q[j + 2]);
            assert(!(path_to(q[i + 2], c) is Some && path_to(q[j + 2], c) is Some));
        }
    }
    assert forall|c: char| !(queue_holds(rest, c) && path_to(node, c) is Some) by {
        if queue_holds(rest, c) && path_to(node, c) is Some {
            let k = choose|k: int| holds_at(rest, c, k);
            assert(rest[k] == q[k + 2]);
            assert(!(path_to(q[0], c) is Some && path_to(q[k + 2], c) is Some));
            assert(!(path_to(q[1], c) is Some && path_to(q[k + 2], c) is Some));
        }
    }
    lemma_enqueued_labelled(rest, node, text);
}

/// The tree built from a labelled queue is labelled.
pub proof fn lemma_huffman_tree_labelled(q: Seq<Tree>, text: Seq<char>)
    requires
        q.len() > 0,
        queue_labelled(q, text),
    ensures
        labelled_by(huffman_tree(q), text),
    decreases q.len(),
{
    if q.len() >= 2 {
        lemma_merged(q);
        lemma_merged_labelled(q, text);
        lemma_huffman_tree_labelled(merged(q), text);
    }
}

/// The leaf of an entry that counts the occurrences of its symbol is
/// labelled.
proof fn lemma_leaf_labelled(entry: (char, usize), text: Seq<char>)
    requires
        entry.1 == occurrences(text, entry.0),
    ensures
        labelled_by(leaf_of(entry), text),
{
}

/// The queue of leaves of sorted entries that count occurrences is labelled.
pub proof fn lemma_leaf_queue_labelled(entries: Seq<(char, usize)>, text: Seq<char>)
    requires
        strictly_sorted(entries),
        forall|i: int|
            0 <= i < entries.len() ==> (#[trigger] entries[i]).1 == occurrences(
                text,
                entries[i].0,
            ),
    ensures
        queue_labelled(leaf_queue(entries), text),
    decreases entries.len(),
{
    if entries.len() > 0 {
        let front = entries.drop_last();
        let last = entries.last();
        assert(entries[entries.len() - 1] == last);
        assert forall|i: int| 0 <= i < front.len() implies (#[trigger] front[i]).1
            == occurrences(text, front[i].0) by {
            assert(front[i] == entries[i]);
        }
        assert(strictly_sorted(front)) by {
            assert forall|i: int, j: int| 0 <= i < j < front.len() implies front[i].0
                < front[j].0 by {
                assert(entries[i].0 < entries[j].0);
            }
        }
        lemma_leaf_queue_labelled(front, text);
        lemma_leaf_labelled(last, text);
        assert forall|c: char|
            !(queue_holds(leaf_queue(front), c) && path_to(leaf_of(last), c) is Some) by {
            lemma_leaf_queue_holds(front, c);
            lemma_leaf_holds(last, c);
            if has_key(front, c) && last.0 == c {
                let i = choose|i: int| key_index(front, c, i);
                assert(entries[i].0 < entries[entries.len() - 1].0);
            }
        }
        lemma_enqueued_labelled(leaf_queue(front), leaf_of(last), text);
    }
}

/// The tree of the frequency table of a text is labelled by the text and
/// holds all its symbols.
pub proof fn lemma_tree_of_text(text: Seq<char>)
    requires
        0 < text.len() <= usize::MAX,
    ensures
        listing(frequency_map(text)).len() > 0,
        labelled_by(tree_of(frequency_map(text)), text),
        forall|i: int|
            0 <= i < text.len() ==> path_to(tree_of(frequency_map(text)), #[trigger] text[i])
                is Some,
{
    let table = frequency_map(text);
    let entries = listing(table);
    lemma_frequency_conservation(text);
    lemma_map_of_entries(entries);
    lemma_occurs(text, 0);
    assert(table != Map::<char, usize>::empty());
    if entries.len() == 0 {
        assert(table =~= Map::<char, usize>::empty());
    }
    assert forall|i: int| 0 <= i < entries.len() implies (#[trigger] entries[i]).1
        == occurrences(text, entries[i].0) by {
        lemma_occurrences_bound(text, entries[i].0);
        assert(table[entries[i].0] == entries[i].1);
    }
    lemma_leaf_queue_labelled(entries, text);
    lemma_leaf_queue(entries);
    lemma_huffman_tree_labelled(leaf_queue(entries), text);
    assert forall|i: int| 0 <= i < text.len() implies path_to(tree_of(table), #[trigger] text[i])
        is Some by {
        lemma_occurs(text, i);
        lemma_tree_holds(table, text[i]);
    }
}

/// Shortest encoding: the tree of the frequency table of a text encodes the
/// text in no more bits than any other tree for its symbols, that is any tree
/// that is labelled by the text, holds all its symbols, and has leaves of the
/// same weights.
pub proof fn lemma_shortest_encoding(text: Seq<char>, other: Tree)
    requires
        0 < text.len() <= usize::MAX,
        labelled_by(other, text),
        forall|i: int| 0 <= i < text.len() ==> path_to(other, #[trigger] text[i]) is Some,
        leaf_bag(other) == leaf_bag(tree_of(frequency_map(text))),
    ensures
        encoded(code_table(tree_of(frequency_map(text))), text) is Ok,
        encoded(code_table(other), text) is Ok,
        encoded(code_table(tree_of(frequency_map(text))), text).unwrap().len() <= encoded(
            code_table(other),
            text,
        ).unwrap().len(),
{
    let tree = tree_of(frequency_map(text));
    lemma_tree_of_text(text);
    lemma_encoded_length(tree, text);
    lemma_encoded_length(other, text);
    lemma_leaf_bag(tree);
    lemma_leaf_bag(other);
    if tree is Node {
        lemma_labelled_sums(tree, text);
        lemma_labelled_sums(other, text);
        lemma_tree_of_optimal(frequency_map(text), other);
    }
}

} // verus!
