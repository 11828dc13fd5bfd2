use vstd::prelude::*;
use crate::error::HuffmanError;
use crate::codes::{code_table, code_views, lemma_path_is_bits, path_to};
use crate::symbol_map::SymbolMap;
use crate::tree::{HuffmanNode, Tree};

verus! {

/// The node reached from `t` by one bit: `'0'` goes left, anything else goes
/// right. A leaf has nowhere to go and stays where it is.
pub open spec fn step(t: Tree, bit: char) -> Tree {
    match t {
        Tree::Leaf { .. } => t,
        Tree::Node { left, right } => if bit == '0' {
            *left
        } else {
            *right
        },
    }
}

/// `rest` put behind `head`, where there is a rest.
pub open spec fn prepend(head: Seq<char>, rest: Option<Seq<char>>) -> Option<Seq<char>> {
    match rest {
        Some(r) => Some(head + r),
        None => None,
    }
}

/// The text that `bits` decode to when the walk stands at `cur`, `mid` telling
/// whether it is in the middle of a code. Each bit moves one step down; on a
/// leaf its symbol is emitted and the walk starts again at `root`. A walk that
/// ends in the middle of a code decodes to nothing.
pub open spec fn decode_from(root: Tree, cur: Tree, mid: bool, bits: Seq<char>) -> Option<
    Seq<char>,
>
    decreases bits.len(),
{
    if bits.len() == 0 {
        if mid {
            None
        } else {
            Some(Seq::empty())
        }
    } else {
        match step(cur, bits[0]) {
            Tree::Leaf { symbol, .. } => prepend(
                seq![symbol],
                decode_from(root, root, false, bits.skip(1)),
            ),
            Tree::Node { left, right } => decode_from(
                root,
                Tree::Node { left, right },
                true,
                bits.skip(1),
            ),
        }
    }
}

/// The text that a whole bit string decodes to under `root`.
pub open spec fn decoded(root: Tree, bits: Seq<char>) -> Option<Seq<char>> {
    decode_from(root, root, false, bits)
}

/// Decodes a bit string by walking the tree from the root, one step per bit.
/// A tree that is a single leaf emits its symbol once for every bit.
pub fn decode(bin_string: &str, root: &HuffmanNode) -> (result: Result<String, HuffmanError>)
    requires
        root.wf(),
    ensures
        match result {
            Ok(text) => decoded(root@, bin_string@) == Some(text@),
            Err(e) => e == HuffmanError::TruncatedStream && decoded(root@, bin_string@) is None,
        },
{
    let mut text = String::new();
    let mut current: &HuffmanNode = root;
    let mut mid = false;
    let ghost bits = bin_string@;
    proof {
        assert(bits.skip(0) == bits);
        if let Some(r) = decoded(root@, bits) {
            assert(Seq::<char>::empty() + r == r);
        }
    }
    for ch in it: bin_string.chars()
        invariant
            it.seq() == bits,
            root.wf(),
            current.wf(),
            !mid ==> current == root,
            decoded(root@, bits) == prepend(
                text@,
                decode_from(root@, current@, mid, bits.skip(it.index())),
            ),
    {
        let ghost rest = bits.skip(it.index());
        let next: &HuffmanNode = match (&current.left_node, &current.right_node) {
            (Some(l), Some(r)) => if ch == '0' {
                &**l
            } else {
                &**r
            },
            _ => current,
        };
        proof {
            assert(rest[0] == ch);
            assert(rest.skip(1) == bits.skip(it.index() + 1));
            assert(next.wf());
            assert(next@ == step(current@, ch));
        }
        if next.left_node.is_none() {
            let ghost before = text@;
            text.push(next.ch.unwrap());
            current = root;
            mid = false;
            proof {
                let tail = decode_from(root@, root@, false, rest.skip(1));
                assert(prepend(before, prepend(seq![next.ch.unwrap()], tail)) == prepend(
                    text@,
                    tail,
                )) by {
                    if let Some(r) = tail {
                        assert(before + (seq![next.ch.unwrap()] + r) == before.push(
                            next.ch.unwrap(),
                        ) + r);
                    }
                }
            }
        } else {
            current = next;
            mid = true;
        }
    }
    proof {
        assert(bits.skip(bits.len() as int).len() == 0);
        assert(text@ + Seq::<char>::empty() == text@);
    }
    if mid {
        Err(HuffmanError::TruncatedStream)
    } else {
        Ok(text)
    }
}

/// `rest` put behind `head`, where there is a rest; else the error.
pub open spec fn join(head: Seq<char>, rest: Result<Seq<char>, HuffmanError>) -> Result<
    Seq<char>,
    HuffmanError,
> {
    match rest {
        Ok(r) => Ok(head + r),
        Err(e) => Err(e),
    }
}

/// The codes of the symbols of `text`, one behind the other; or the first
/// symbol of `text` that has no code.
pub open spec fn encoded(codes: Map<char, Seq<char>>, text: Seq<char>) -> Result<
    Seq<char>,
    HuffmanError,
>
    decreases text.len(),
{
    if text.len() == 0 {
        Ok(Seq::empty())
    } else if !codes.contains_key(text[0]) {
        Err(HuffmanError::UnknownSymbol { symbol: text[0] })
    } else {
        join(codes[text[0]], encoded(codes, text.skip(1)))
    }
}

/// Walking down from an inner node along the path of `c` emits `c`, and the
/// walk goes on at the root with the bits that follow.
pub proof fn lemma_walk(root: Tree, cur: Tree, mid: bool, c: char, rest: Seq<char>)
    requires
        cur is Node,
        path_to(cur, c) is Some,
    ensures
        decode_from(root, cur, mid, path_to(cur, c).unwrap() + rest) == prepend(
            seq![c],
            decode_from(root, root, false, rest),
        ),
    decreases cur,
{
    let p = path_to(cur, c).unwrap();
    let bits = p + rest;
    match cur {
        Tree::Leaf { .. } => {},
        Tree::Node { left, right } => {
            let child = if path_to(*right, c) is Some {
                *right
            } else {
                *left
            };
            let q = path_to(child, c).unwrap();
            assert(bits[0] == p[0]);
            assert(step(cur, bits[0]) == child);
            assert(bits.skip(1) =~= q + rest);
            match child {
                Tree::Leaf { .. } => {
                    assert(q + rest =~= rest);
                },
                Tree::Node { .. } => {
                    lemma_walk(root, child, true, c, rest);
                },
            }
        },
    }
}

/// Decoding what the code table of a tree encodes gives the text back,
/// whenever the tree holds every symbol of the text.
pub proof fn lemma_decode_encoded(t: Tree, text: Seq<char>)
    requires
        forall|i: int| 0 <= i < text.len() ==> path_to(t, #[trigger] text[i]) is Some,
    ensures
        encoded(code_table(t), text) is Ok,
        decoded(t, encoded(code_table(t), text).unwrap()) == Some(text),
    decreases text.len(),
{
    if text.len() > 0 {
        let c = text[0];
        let tail = text.skip(1);
        assert forall|i: int| 0 <= i < tail.len() implies path_to(t, #[trigger] tail[i])
            is Some by {
            assert(tail[i] == text[i + 1]);
        }
        lemma_decode_encoded(t, tail);
        let r = encoded(code_table(t), tail).unwrap();
        let code = code_table(t)[c];
        assert(code_table(t).contains_key(c));
        assert(decode_from(t, t, false, code + r) == prepend(
            seq![c],
            decode_from(t, t, false, r),
        )) by {
            match t {
                Tree::Leaf { .. } => {
                    assert((code + r)[0] == '0');
                    assert((code + r).skip(1) =~= r);
                },
                Tree::Node { .. } => {
                    lemma_walk(t, t, false, c, r);
                    lemma_path_is_bits(t, c);
                },
            }
        }
        assert(seq![c] + tail =~= text);
    }
}

/// Encodes a text: the codes of its symbols, one behind the other. The length
/// of the result is in general no multiple of eight.
pub fn encode(codes: &SymbolMap<String>, data: &str) -> (result: Result<String, HuffmanError>)
    ensures
        match result {
            Ok(bits) => encoded(code_views(codes@), data@) == Ok::<Seq<char>, HuffmanError>(
                bits@,
            ),
            Err(e) => encoded(code_views(codes@), data@) == Err::<Seq<char>, HuffmanError>(e),
        },
{
    let ghost text = data@;
    let ghost table = code_views(codes@);
    let mut bits = String::new();
    proof {
        assert(text.skip(0) == text);
        if let Ok(r) = encoded(table, text) {
            assert(Seq::<char>::empty() + r == r);
        }
    }
    for ch in it: data.chars()
        invariant
            it.seq() == text,
            text == data@,
            table == code_views(codes@),
            encoded(table, text) == join(bits@, encoded(table, text.skip(it.index()))),
    {
        let ghost rest = text.skip(it.index());
        let ghost before = bits@;
        proof {
            assert(rest[0] == ch);
            assert(rest.skip(1) == text.skip(it.index() + 1));
        }
        match codes.get(&ch) {
            Some(code) => {
                bits.append(code.as_str());
                proof {
                    if let Ok(r) = encoded(table, rest.skip(1)) {
                        assert(before + (table[ch] + r) == (before + table[ch]) + r);
                    }
                }
            },
            None => {
                proof {
                    assert(!table.contains_key(ch));
                    assert(encoded(table, rest) == Err::<Seq<char>, HuffmanError>(
                        HuffmanError::UnknownSymbol { symbol: ch },
                    ));
                }
                return Err(HuffmanError::UnknownSymbol { symbol: ch });
            },
        }
    }
    proof {
        assert(text.skip(text.len() as int).len() == 0);
        assert(bits@ + Seq::<char>::empty() == bits@);
    }
    Ok(bits)
}

} // verus!
