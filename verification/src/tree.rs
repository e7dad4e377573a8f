//! The code tree, what it says about symbols and bits, and the order on trees
//! by which ties between equal frequencies are settled.

use vstd::prelude::*;

verus! {

/// A binary code tree: a leaf holds one symbol, a fork owns two subtrees.
/// Going to the left subtree is the bit `false`, to the right one `true`.
#[derive(Debug, PartialEq, Eq, PartialOrd, Ord)]
pub enum HuffmanTree {
    Leaf(char),
    Fork(Box<HuffmanTree>, Box<HuffmanTree>),
}

/// The symbol of the leaf that fills the second place under the root where
/// a string has one symbol only.
pub const PLACEHOLDER: char = '\0';

/// How one value stands to another in a total order.
#[derive(Debug, Clone, Copy, PartialEq, Eq, Structural)]
pub enum Rank {
    Lower,
    Same,
    Higher,
}

impl HuffmanTree {
    /// Some leaf of the tree holds `c`.
    pub open spec fn has(self, c: char) -> bool
        decreases self,
    {
        match self {
            HuffmanTree::Leaf(d) => d == c,
            HuffmanTree::Fork(left, right) => left.has(c) || right.has(c),
        }
    }

    /// The symbols at the leaves, left to right.
    pub open spec fn leaves(self) -> Seq<char>
        decreases self,
    {
        match self {
            HuffmanTree::Leaf(d) => seq![d],
            HuffmanTree::Fork(left, right) => left.leaves() + right.leaves(),
        }
    }

    /// The bits on the way from the root to the leftmost leaf that holds `c`,
    /// root first; no bits at all where no leaf holds `c`.
    pub open spec fn code(self, c: char) -> Seq<bool>
        decreases self,
    {
        match self {
            HuffmanTree::Leaf(_) => Seq::empty(),
            HuffmanTree::Fork(left, right) => if left.has(c) {
                seq![false] + left.code(c)
            } else if right.has(c) {
                seq![true] + right.code(c)
            } else {
                Seq::empty()
            },
        }
    }

    /// The codes of the symbols of `s`, one after the other.
    pub open spec fn encoding(self, s: Seq<char>) -> Seq<bool>
        decreases s.len(),
    {
        if s.len() == 0 {
            Seq::empty()
        } else {
            self.code(s.first()) + self.encoding(s.drop_first())
        }
    }

    /// Where one bit leads from this node: a fork's left subtree on `false`,
    /// its right one on `true`; a leaf leads nowhere else.
    pub open spec fn step(self, bit: bool) -> HuffmanTree {
        match self {
            HuffmanTree::Fork(left, right) => if bit {
                *right
            } else {
                *left
            },
            HuffmanTree::Leaf(_) => self,
        }
    }

    /// The symbols met when `bits` are followed from `node`, going back to the
    /// root `self` after each leaf. Bits that end short of a leaf give nothing.
    pub open spec fn walk(self, node: HuffmanTree, bits: Seq<bool>) -> Seq<char>
        decreases bits.len(),
    {
        if bits.len() == 0 {
            Seq::empty()
        } else {
            match node.step(bits.first()) {
                HuffmanTree::Leaf(c) => seq![c] + self.walk(self, bits.drop_first()),
                next => self.walk(next, bits.drop_first()),
            }
        }
    }

    /// The symbols that `bits` stand for, read from the root.
    pub open spec fn decoding(self, bits: Seq<bool>) -> Seq<char> {
        self.walk(self, bits)
    }

    /// The total order on trees: a leaf comes before a fork, leaves go by
    /// their symbols, forks by their left subtrees and then their right ones.
    pub open spec fn rank(self, other: HuffmanTree) -> Rank
        decreases self,
    {
        match (self, other) {
            (HuffmanTree::Leaf(a), HuffmanTree::Leaf(b)) => if a < b {
                Rank::Lower
            } else if a == b {
                Rank::Same
            } else {
                Rank::Higher
            },
            (HuffmanTree::Leaf(_), HuffmanTree::Fork(_, _)) => Rank::Lower,
            (HuffmanTree::Fork(_, _), HuffmanTree::Leaf(_)) => Rank::Higher,
            (HuffmanTree::Fork(a1, a2), HuffmanTree::Fork(b1, b2)) => match a1.rank(*b1) {
                Rank::Same => a2.rank(*b2),
                r => r,
            },
        }
    }

    /// A fork over two trees.
    pub fn fork(a: Self, b: Self) -> (r: Self)
        ensures
            r == HuffmanTree::Fork(Box::new(a), Box::new(b)),
    {
        HuffmanTree::Fork(Box::new(a), Box::new(b))
    }

    /// Follows one bit down the tree.
    pub fn desc_tree(&self, bit: bool) -> (r: &Self)
        ensures
            *r == self.step(bit),
    {
        match self {
            HuffmanTree::Fork(a, b) => {
                if bit {
                    &**b
                } else {
                    &**a
                }
            },
            HuffmanTree::Leaf(_) => self,
        }
    }

    /// Compares two trees in the total order on trees.
    pub fn compare(&self, other: &HuffmanTree) -> (r: Rank)
        ensures
            r == self.rank(*other),
        decreases *self,
    {
        match (self, other) {
            (HuffmanTree::Leaf(a), HuffmanTree::Leaf(b)) => {
                if *a < *b {
                    Rank::Lower
                } else if *a == *b {
                    Rank::Same
                } else {
                    Rank::Higher
                }
            },
            (HuffmanTree::Leaf(_), HuffmanTree::Fork(_, _)) => Rank::Lower,
            (HuffmanTree::Fork(_, _), HuffmanTree::Leaf(_)) => Rank::Higher,
            (HuffmanTree::Fork(a1, a2), HuffmanTree::Fork(b1, b2)) => {
                match a1.compare(b1) {
                    Rank::Same => a2.compare(b2),
                    r => r,
                }
            },
        }
    }
}

} // verus!
