//! What holds of every code tree: decoding undoes encoding, and no code is
//! the beginning of another.

use crate::tree::HuffmanTree;
use vstd::prelude::*;

verus! {

/// Following the code of a symbol from the node it was taken at leads to the
/// leaf of that symbol, and the walk goes on from the root with the bits that
/// come after.
pub proof fn lemma_walk_code(t: HuffmanTree, node: HuffmanTree, c: char, rest: Seq<bool>)
    requires
        node is Fork,
        node.has(c),
    ensures
        t.walk(node, node.code(c) + rest) == seq![c] + t.walk(t, rest),
    decreases node,
{
    let bits = node.code(c) + rest;
    let below = node.step(bits.first());
    let tail = below.code(c) + rest;
    assert(below.has(c));
    assert(node.code(c) == seq![bits.first()] + below.code(c));
    assert(bits.drop_first() == tail);
    match below {
        HuffmanTree::Leaf(_) => {
            assert(tail == rest);
        },
        HuffmanTree::Fork(_, _) => {
            lemma_walk_code(t, below, c, rest);
        },
    }
}

/// Decoding undoes encoding: under a tree with a fork at its root, a string
/// whose symbols the tree holds comes back from its encoding unchanged.
pub proof fn lemma_round_trip(t: HuffmanTree, s: Seq<char>)
    requires
        t is Fork,
        forall|i: int| 0 <= i < s.len() ==> t.has(#[trigger] s[i]),
    ensures
        t.decoding(t.encoding(s)) == s,
    decreases s.len(),
{
    if s.len() == 0 {
        assert(t.decoding(t.encoding(s)) == s);
    } else {
        let rest = s.drop_first();
        assert forall|i: int| 0 <= i < rest.len() implies t.has(#[trigger] rest[i]) by {
            assert(rest[i] == s[i + 1]);
        }
        lemma_round_trip(t, rest);
        lemma_walk_code(t, t, s.first(), t.encoding(rest));
        assert(seq![s.first()] + rest == s);
    }
}

/// The code is prefix-free: of two different symbols that a tree holds, the
/// code of the one is not the beginning of the code of the other.
pub proof fn lemma_prefix_free(t: HuffmanTree, a: char, b: char)
    requires
        t.has(a),
        t.has(b),
        a != b,
    ensures
        !t.code(a).is_prefix_of(t.code(b)),
    decreases t,
{
    match t {
        HuffmanTree::Leaf(_) => {},
        HuffmanTree::Fork(left, right) => {
            let ca = t.code(a);
            let cb = t.code(b);
            if ca.is_prefix_of(cb) {
                assert(ca[0] == cb[0]);
                let sub = if left.has(a) {
                    *left
                } else {
                    *right
                };
                assert(ca == seq![ca[0]] + sub.code(a));
                assert(cb == seq![ca[0]] + sub.code(b));
                assert(ca.drop_first() == sub.code(a));
                assert(cb.drop_first() == sub.code(b));
                assert(sub.code(a).is_prefix_of(sub.code(b))) by {
                    assert(sub.code(a) =~= sub.code(b).subrange(0, sub.code(a).len() as int)) by {
                        assert(ca == cb.subrange(0, ca.len() as int));
                    }
                }
                lemma_prefix_free(sub, a, b);
            }
        },
    }
}

/// Under a tree with a fork at its root, every symbol that the tree holds has
/// a code of at least one bit.
pub proof fn lemma_code_not_empty(t: HuffmanTree, c: char)
    requires
        t is Fork,
        t.has(c),
    ensures
        t.code(c).len() > 0,
{
}

} // verus!
