use vstd::prelude::*;
use crate::symbol_map::SymbolMap;
use crate::symbol_map::{
    has_key, key_index, lemma_listing_unique, map_of, strictly_sorted,
};
use crate::tree::{
    enqueued, huffman_tree, insert_position, leaf_of, leaf_queue, lemma_insert_position, lemma_merged, merged,
    HuffmanNode, Tree,
};

verus! {

/// The way from the root of `t` to the leaf of `c`: `'0'` for each step to
/// the left, `'1'` for each step to the right. Where several leaves hold `c`,
/// the rightmost counts.
pub open spec fn path_to(t: Tree, c: char) -> Option<Seq<char>>
    decreases t,
{
    match t {
        Tree::Leaf { symbol, .. } => if symbol == c {
            Some(Seq::empty())
        } else {
            None
        },
        Tree::Node { left, right } => match path_to(*right, c) {
            Some(p) => Some(seq!['1'] + p),
            None => match path_to(*left, c) {
                Some(p) => Some(seq!['0'] + p),
                None => None,
            },
        },
    }
}

/// The code for a path. A tree that is one leaf has the empty path to it; its
/// symbol gets the code `"0"`, since no symbol may have an empty code.
pub open spec fn leaf_code(path: Seq<char>) -> Seq<char> {
    if path.len() == 0 {
        seq!['0']
    } else {
        path
    }
}

/// The code table of a tree: the code of each symbol that it holds.
pub open spec fn code_table(t: Tree) -> Map<char, Seq<char>> {
    Map::new(|c: char| path_to(t, c) is Some, |c: char| leaf_code(path_to(t, c).unwrap()))
}

/// The codes of an executable table as sequences of characters.
pub open spec fn code_views(codes: Map<char, String>) -> Map<char, Seq<char>> {
    codes.map_values(|s: String| s@)
}

/// A path holds the characters `'0'` and `'1'` only.
pub proof fn lemma_path_is_bits(t: Tree, c: char)
    requires
        path_to(t, c) is Some,
    ensures
        forall|i: int|
            0 <= i < path_to(t, c).unwrap().len() ==> {
                let b = #[trigger] path_to(t, c).unwrap()[i];
                b == '0' || b == '1'
            },
        t is Node ==> path_to(t, c).unwrap().len() > 0,
    decreases t,
{
    match t {
        Tree::Leaf { .. } => {},
        Tree::Node { left, right } => {
            if path_to(*right, c) is Some {
                lemma_path_is_bits(*right, c);
            } else {
                lemma_path_is_bits(*left, c);
            }
        },
    }
}

/// The paths to two different symbols part somewhere: neither is the
/// beginning of the other.
pub proof fn lemma_paths_part(t: Tree, a: char, b: char)
    requires
        a != b,
        path_to(t, a) is Some,
        path_to(t, b) is Some,
    ensures
        !path_to(t, a).unwrap().is_prefix_of(path_to(t, b).unwrap()),
        t is Node,
    decreases t,
{
    match t {
        Tree::Leaf { .. } => {},
        Tree::Node { left, right } => {
            let pa = path_to(t, a).unwrap();
            let pb = path_to(t, b).unwrap();
            let a_right = path_to(*right, a) is Some;
            let b_right = path_to(*right, b) is Some;
            if a_right && b_right {
                lemma_paths_part(*right, a, b);
                let qa = path_to(*right, a).unwrap();
                let qb = path_to(*right, b).unwrap();
                if pa.is_prefix_of(pb) {
                    assert(qa =~= pa.skip(1));
                    assert(qb =~= pb.skip(1));
                    assert(qa =~= qb.subrange(0, qa.len() as int));
                    assert(false);
                }
            } else if !a_right && !b_right {
                lemma_paths_part(*left, a, b);
                let qa = path_to(*left, a).unwrap();
                let qb = path_to(*left, b).unwrap();
                if pa.is_prefix_of(pb) {
                    assert(qa =~= pa.skip(1));
                    assert(qb =~= pb.skip(1));
                    assert(qa =~= qb.subrange(0, qa.len() as int));
                    assert(false);
                }
            } else {
                if pa.is_prefix_of(pb) {
                    assert(pa[0] == pb.subrange(0, pa.len() as int)[0]);
                    assert(false);
                }
            }
        },
    }
}

/// Prefix-free codes: of the codes of two different symbols of a tree,
/// neither is the beginning of the other.
pub proof fn lemma_prefix_free(t: Tree, a: char, b: char)
    requires
        a != b,
        code_table(t).contains_key(a),
        code_table(t).contains_key(b),
    ensures
        !code_table(t)[a].is_prefix_of(code_table(t)[b]),
        !code_table(t)[b].is_prefix_of(code_table(t)[a]),
{
    lemma_paths_part(t, a, b);
    lemma_paths_part(t, b, a);
    lemma_path_is_bits(t, a);
    lemma_path_is_bits(t, b);
}

/// Records the code of every symbol of the tree in `codes`: the way from the
/// node to its leaf, behind `prefix`. A code that would be empty becomes
/// `"0"`. What `codes` held for other symbols stays.
pub fn make_codes(node: &HuffmanNode, prefix: String, codes: &mut SymbolMap<String>)
    requires
        node.wf(),
    ensures
        forall|c: char|
            match #[trigger] path_to(node@, c) {
                Some(p) => final(codes)@.contains_key(c) && final(codes)@[c]@ == leaf_code(
                    prefix@ + p,
                ),
                None => final(codes)@.contains_key(c) == old(codes)@.contains_key(c) && (old(
                    codes,
                )@.contains_key(c) ==> final(codes)@[c] == old(codes)@[c]),
            },
    decreases node,
{
    match (&node.left_node, &node.right_node) {
        (Some(left), Some(right)) => {
            let mut left_prefix = prefix.clone();
            left_prefix.push('0');
            let mut right_prefix = prefix;
            right_prefix.push('1');
            let ghost base = right_prefix@.drop_last();
            make_codes(left, left_prefix, codes);
            make_codes(right, right_prefix, codes);
            proof {
                assert forall|c: char|
                    match #[trigger] path_to(node@, c) {
                        Some(p) => final(codes)@.contains_key(c) && final(codes)@[c]@ == leaf_code(
                            base + p,
                        ),
                        None => final(codes)@.contains_key(c) == old(codes)@.contains_key(c) && (
                        old(codes)@.contains_key(c) ==> final(codes)@[c] == old(codes)@[c]),
                    } by {
                    match path_to(right@, c) {
                        Some(p) => {
                            assert(base + (seq!['1'] + p) =~= base.push('1') + p);
                        },
                        None => match path_to(left@, c) {
                            Some(p) => {
                                assert(base + (seq!['0'] + p) =~= base.push('0') + p);
                            },
                            None => {},
                        },
                    }
                }
            }
        },
        _ => {
            let ghost path = prefix@;
            let mut code = prefix;
            if code.as_str().is_empty() {
                code.push('0');
            }
            proof {
                assert(path + Seq::<char>::empty() =~= path);
                assert(Seq::<char>::empty().push('0') =~= seq!['0']);
            }
            codes.insert(node.ch.unwrap(), code);
        },
    }
}

/// Tree `i` of the queue holds the symbol `c`.
pub open spec fn holds_at(q: Seq<Tree>, c: char, i: int) -> bool {
    0 <= i < q.len() && path_to(q[i], c) is Some
}

/// Some tree of the queue holds the symbol `c`.
pub open spec fn queue_holds(q: Seq<Tree>, c: char) -> bool {
    exists|i: int| holds_at(q, c, i)
}

/// A tree that enters a queue adds its symbols to those of the queue.
pub proof fn lemma_enqueued_holds(q: Seq<Tree>, t: Tree, c: char)
    ensures
        queue_holds(enqueued(q, t), c) <==> queue_holds(q, c) || path_to(t, c) is Some,
{
    let p = insert_position(q, t.weight());
    lemma_insert_position(q, t.weight());
    let r = enqueued(q, t);
    assert(r[p] == t);
    if queue_holds(r, c) {
        let i = choose|i: int| holds_at(r, c, i);
        if i < p {
            assert(holds_at(q, c, i));
        } else if i > p {
            assert(r[i] == q[i - 1]);
            assert(holds_at(q, c, i - 1));
        }
    }
    if queue_holds(q, c) {
        let i = choose|i: int| holds_at(q, c, i);
        if i < p {
            assert(holds_at(r, c, i));
        } else {
            assert(r[i + 1] == q[i]);
            assert(holds_at(r, c, i + 1));
        }
    }
    if path_to(t, c) is Some {
        assert(holds_at(r, c, p));
    }
}

/// A leaf holds the symbol of its entry, and no other.
pub proof fn lemma_leaf_holds(entry: (char, usize), c: char)
    ensures
        path_to(leaf_of(entry), c) is Some <==> entry.0 == c,
{
}

/// The queue of leaves of a table holds the symbols of its entries.
pub proof fn lemma_leaf_queue_holds(entries: Seq<(char, usize)>, c: char)
    ensures
        queue_holds(leaf_queue(entries), c) <==> has_key(entries, c),
    decreases entries.len(),
{
    if entries.len() == 0 {
        if queue_holds(leaf_queue(entries), c) {
            let i = choose|i: int| holds_at(leaf_queue(entries), c, i);
        }
        if has_key(entries, c) {
            let i = choose|i: int| key_index(entries, c, i);
        }
    } else {
        let front = entries.drop_last();
        let leaf = leaf_of(entries.last());
        lemma_leaf_holds(entries.last(), c);
        lemma_leaf_queue_holds(front, c);
        lemma_enqueued_holds(leaf_queue(front), leaf, c);
        if has_key(entries, c) {
            let i = choose|i: int| key_index(entries, c, i);
            if i < entries.len() - 1 {
                assert(key_index(front, c, i));
            }
        }
        if has_key(front, c) {
            let i = choose|i: int| key_index(front, c, i);
            assert(key_index(entries, c, i));
        }
        if entries.last().0 == c {
            assert(key_index(entries, c, entries.len() - 1));
        }
    }
}

/// The tree built from a queue holds the symbols of the queue, and no others.
pub proof fn lemma_huffman_tree_holds(q: Seq<Tree>, c: char)
    requires
        q.len() > 0,
    ensures
        path_to(huffman_tree(q), c) is Some <==> queue_holds(q, c),
    decreases q.len(),
{
    if q.len() == 1 {
        if queue_holds(q, c) {
            let i = choose|i: int| holds_at(q, c, i);
        }
        if path_to(q[0], c) is Some {
            assert(holds_at(q, c, 0));
        }
    } else {
        let node = Tree::Node { left: Box::new(q[0]), right: Box::new(q[1]) };
        let rest = q.skip(2);
        lemma_merged(q);
        lemma_huffman_tree_holds(merged(q), c);
        lemma_enqueued_holds(rest, node, c);
        if queue_holds(rest, c) {
            let i = choose|i: int| holds_at(rest, c, i);
            assert(holds_at(q, c, i + 2));
        }
        if queue_holds(q, c) {
            let i = choose|i: int| holds_at(q, c, i);
            if i >= 2 {
                assert(rest[i - 2] == q[i]);
                assert(holds_at(rest, c, i - 2));
            }
        }
        if path_to(node, c) is Some {
            if path_to(q[1], c) is Some {
                assert(holds_at(q, c, 1));
            } else {
                assert(holds_at(q, c, 0));
            }
        }
    }
}

/// Deterministic tree: two tables that hold the same counts give the same
/// tree and the same codes, however each of them was filled and whatever
/// frequencies are equal.
pub proof fn lemma_deterministic_tree(a: Seq<(char, usize)>, b: Seq<(char, usize)>)
    requires
        strictly_sorted(a),
        strictly_sorted(b),
        map_of(a) == map_of(b),
    ensures
        huffman_tree(leaf_queue(a)) == huffman_tree(leaf_queue(b)),
        code_table(huffman_tree(leaf_queue(a))) == code_table(huffman_tree(leaf_queue(b))),
{
    lemma_listing_unique(a, b);
}

} // verus!
