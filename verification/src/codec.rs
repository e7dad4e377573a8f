//! Encoding a string to bits with a code tree, and decoding bits back.

use crate::bits::{bits_at, Bits, MAX_BITS};
use crate::tree::HuffmanTree;
use vstd::prelude::*;

verus! {

/// A symbol that the tree does not hold has the empty code.
pub proof fn lemma_code_absent(t: HuffmanTree, c: char)
    requires
        !t.has(c),
    ensures
        t.code(c).len() == 0,
{
}

/// The encoding of two strings joined is their encodings joined.
pub proof fn lemma_encoding_concat(t: HuffmanTree, a: Seq<char>, b: Seq<char>)
    ensures
        t.encoding(a + b) == t.encoding(a) + t.encoding(b),
    decreases a.len(),
{
    if a.len() > 0 {
        lemma_encoding_concat(t, a.drop_first(), b);
        assert((a + b).drop_first() == a.drop_first() + b);
    }
}

/// The encoding of a string grows by the code of each further symbol.
pub proof fn lemma_encoding_step(t: HuffmanTree, s: Seq<char>, i: int)
    requires
        0 <= i < s.len(),
    ensures
        t.encoding(s.take(i + 1)) == t.encoding(s.take(i)) + t.code(s[i]),
        t.encoding(s.take(i)).len() + t.code(s[i]).len() <= t.encoding(s).len(),
{
    let one = seq![s[i]];
    assert(t.encoding(one.drop_first()) == Seq::<bool>::empty());
    assert(s.take(i + 1) == s.take(i) + one);
    lemma_encoding_concat(t, s.take(i), one);
    assert(s == s.take(i + 1) + s.skip(i + 1));
    lemma_encoding_concat(t, s.take(i + 1), s.skip(i + 1));
}

/// `String::push`: one more character at the end. A string of `n` characters
/// takes at most `4 * n` bytes, and `push` panics only where the bytes would
/// pass `isize::MAX`, which the precondition rules out.
#[verifier::external_body]
fn push_char(s: &mut String, c: char)
    requires
        4 * (old(s)@.len() + 1) <= isize::MAX,
    ensures
        final(s)@ == old(s)@.push(c),
{
    s.push(c)
}

/// Searches `tree` for `ch`, left subtree first, and on the way back up from
/// the leaf appends the bit of each step taken: the code of `ch`, last bit
/// first.
fn seek(tree: &HuffmanTree, ch: char, bv: &mut Bits) -> (found: bool)
    requires
        old(bv)@.len() + tree.code(ch).len() <= MAX_BITS,
    ensures
        found == tree.has(ch),
        final(bv)@ == old(bv)@ + tree.code(ch).reverse(),
    decreases *tree,
{
    match tree {
        HuffmanTree::Leaf(c) => {
            *c == ch
        },
        HuffmanTree::Fork(left, right) => {
            proof {
                if !left.has(ch) {
                    lemma_code_absent(**left, ch);
                }
                if !right.has(ch) {
                    lemma_code_absent(**right, ch);
                }
            }
            if seek(left, ch, bv) {
                bv.push(false);
                true
            } else if seek(right, ch, bv) {
                bv.push(true);
                true
            } else {
                false
            }
        },
    }
}

/// How many bits the code of `ch` has, counted up to the largest `usize`;
/// nothing where the tree does not hold `ch`.
fn code_len(tree: &HuffmanTree, ch: char) -> (r: Option<usize>)
    ensures
        r is Some <==> tree.has(ch),
        r is Some ==> r.unwrap() == (if tree.code(ch).len() < usize::MAX {
            tree.code(ch).len()
        } else {
            usize::MAX as nat
        }),
    decreases *tree,
{
    match tree {
        HuffmanTree::Leaf(c) => {
            if *c == ch {
                Some(0)
            } else {
                None
            }
        },
        HuffmanTree::Fork(left, right) => {
            match code_len(left, ch) {
                Some(d) => Some(d.saturating_add(1)),
                None => match code_len(right, ch) {
                    Some(d) => Some(d.saturating_add(1)),
                    None => None,
                },
            }
        },
    }
}

impl HuffmanTree {
    /// The number of bits that `string` encodes to, where a bit sequence can
    /// hold that many.
    pub fn enc_len(&self, string: &str) -> (r: Option<usize>)
        ensures
            r == (if self.encoding(string@).len() <= MAX_BITS {
                Some(self.encoding(string@).len() as usize)
            } else {
                None
            }),
    {
        let mut total: usize = 0;
        for c in it: string.chars()
            invariant
                it.seq() == string@,
                total <= MAX_BITS,
                total == self.encoding(string@.take(it.index())).len(),
        {
            proof {
                lemma_encoding_step(*self, string@, it.index());
                if !self.has(c) {
                    lemma_code_absent(*self, c);
                }
            }
            match code_len(self, c) {
                Some(d) => {
                    if d > MAX_BITS - total {
                        return None;
                    }
                    total = total + d;
                },
                None => {},
            }
        }
        assert(string@.take(string@.len() as int) == string@);
        Some(total)
    }

    /// Encodes a string where its encoding fits into a bit sequence, and
    /// gives nothing where it does not.
    pub fn try_enc(&self, string: &str) -> (r: Option<Bits>)
        ensures
            match r {
                Some(bits) => bits@ == self.encoding(string@),
                None => self.encoding(string@).len() > MAX_BITS,
            },
    {
        match self.enc_len(string) {
            Some(_) => Some(self.enc(string)),
            None => None,
        }
    }

    /// The code of one symbol: the bits on the way to its leaf, and no bits
    /// for a symbol that the tree does not hold.
    pub fn enc_char(&self, ch: char) -> (r: Bits)
        requires
            self.code(ch).len() <= MAX_BITS,
        ensures
            r@ == self.code(ch),
    {
        let mut bv = Bits::new();
        seek(self, ch, &mut bv);
        bv.reverse();
        bv
    }

    /// Encodes a string: the codes of its characters, one after the other.
    pub fn enc(&self, string: &str) -> (r: Bits)
        requires
            self.encoding(string@).len() <= MAX_BITS,
        ensures
            r@ == self.encoding(string@),
    {
        let mut out = Bits::new();
        for c in it: string.chars()
            invariant
                it.seq() == string@,
                self.encoding(string@).len() <= MAX_BITS,
                out@ == self.encoding(string@.take(it.index())),
        {
            proof {
                lemma_encoding_step(*self, string@, it.index());
            }
            let code = self.enc_char(c);
            out.extend(&code);
        }
        assert(string@.take(string@.len() as int) == string@);
        out
    }

    /// Decodes a bit sequence: follows the bits down from the root, and at
    /// each leaf takes its symbol and starts again at the root. Bits at the
    /// end that stop short of a leaf are dropped.
    pub fn dec(&self, bv: &Bits) -> (r: String)
        ensures
            r@ == self.decoding(bv@),
    {
        let mut cv = String::new();
        let mut node = self;
        let n = bv.len();
        assert(bv@.skip(0) == bv@);
        for i in 0..n
            invariant
                n == bv@.len(),
                n <= MAX_BITS,
                cv@.len() <= i,
                cv@ + self.walk(*node, bv@.skip(i as int)) == self.decoding(bv@),
        {
            let bit = bits_at(bv, i);
            let ghost rest = bv@.skip(i as int);
            assert(rest.drop_first() == bv@.skip(i + 1));
            let next = node.desc_tree(bit);
            match next {
                HuffmanTree::Leaf(c) => {
                    push_char(&mut cv, *c);
                    node = self;
                },
                HuffmanTree::Fork(_, _) => {
                    node = next;
                },
            }
        }
        cv
    }
}

} // verus!
