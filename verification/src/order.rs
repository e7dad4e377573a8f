//! The order on trees is total: it compares any two trees, calls only equal
//! trees the same, and is transitive. The code of a symbol depends on the
//! order in which subtrees are joined, so these laws are what makes a built
//! tree reproducible.

use crate::tree::{HuffmanTree, Rank};
use vstd::prelude::*;

verus! {

impl Rank {
    /// The rank seen from the other side.
    pub open spec fn flip(self) -> Rank {
        match self {
            Rank::Lower => Rank::Higher,
            Rank::Same => Rank::Same,
            Rank::Higher => Rank::Lower,
        }
    }
}

/// Two trees rank the same exactly when they are equal.
pub proof fn lemma_rank_same(a: HuffmanTree, b: HuffmanTree)
    ensures
        a.rank(b) == Rank::Same <==> a == b,
    decreases a,
{
    match (a, b) {
        (HuffmanTree::Fork(a1, a2), HuffmanTree::Fork(b1, b2)) => {
            lemma_rank_same(*a1, *b1);
            lemma_rank_same(*a2, *b2);
        },
        _ => {},
    }
}

/// Swapping the two trees flips their rank.
pub proof fn lemma_rank_flip(a: HuffmanTree, b: HuffmanTree)
    ensures
        b.rank(a) == a.rank(b).flip(),
    decreases a,
{
    match (a, b) {
        (HuffmanTree::Fork(a1, a2), HuffmanTree::Fork(b1, b2)) => {
            lemma_rank_flip(*a1, *b1);
            lemma_rank_flip(*a2, *b2);
        },
        _ => {},
    }
}

/// Lower than a tree that is lower than a third is lower than the third.
pub proof fn lemma_rank_trans(a: HuffmanTree, b: HuffmanTree, c: HuffmanTree)
    requires
        a.rank(b) == Rank::Lower,
        b.rank(c) == Rank::Lower,
    ensures
        a.rank(c) == Rank::Lower,
    decreases a,
{
    match (a, b, c) {
        (HuffmanTree::Fork(a1, a2), HuffmanTree::Fork(b1, b2), HuffmanTree::Fork(c1, c2)) => {
            lemma_rank_same(*a1, *b1);
            lemma_rank_same(*b1, *c1);
            lemma_rank_same(*a1, *c1);
            if a1.rank(*b1) == Rank::Lower && b1.rank(*c1) == Rank::Lower {
                lemma_rank_trans(*a1, *b1, *c1);
            } else if a1.rank(*b1) == Rank::Same && b1.rank(*c1) == Rank::Same {
                lemma_rank_trans(*a2, *b2, *c2);
            }
        },
        _ => {},
    }
}

} // verus!
