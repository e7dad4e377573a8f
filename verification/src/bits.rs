//! The bit sequence that the coder writes and reads, kept in a `bitvec` vector.

use bitvec::vec::BitVec;
use vstd::prelude::*;

verus! {

/// The most bits that one bit sequence can hold: `bitvec` keeps three bits of
/// the length word for itself.
pub const MAX_BITS: usize = usize::MAX / 8;

/// An ordered sequence of bits, stored packed in a `bitvec::vec::BitVec`.
#[verifier::external_body]
pub struct Bits {
    inner: BitVec,
}

/// The bits that a bit sequence holds, first to last.
pub uninterp spec fn bits_of(b: Bits) -> Seq<bool>;

impl View for Bits {
    type V = Seq<bool>;

    open spec fn view(&self) -> Seq<bool> {
        bits_of(*self)
    }
}

/// `BitVec::new`: a vector that holds no bits.
#[verifier::external_body]
fn bits_new() -> (r: Bits)
    ensures
        bits_of(r) == Seq::<bool>::empty(),
{
    Bits { inner: BitVec::new() }
}

/// `BitVec::len`: the number of bits held, which `bitvec` keeps within
/// `BitSlice::MAX_BITS`, an eighth of the `usize` range.
#[verifier::external_body]
fn bits_len(b: &Bits) -> (r: usize)
    ensures
        r == bits_of(*b).len(),
        r <= MAX_BITS,
{
    b.inner.len()
}

/// `BitVec::push`: one more bit at the end. It panics when the new length
/// would pass `BitSlice::MAX_BITS`, which the precondition rules out.
#[verifier::external_body]
fn bits_push(b: &mut Bits, bit: bool)
    requires
        bits_of(*old(b)).len() < MAX_BITS,
    ensures
        bits_of(*final(b)) == bits_of(*old(b)).push(bit),
{
    b.inner.push(bit)
}

/// Indexing a `BitSlice` by `usize`: the bit at position `i`. It panics when
/// `i` is not below the length, which the precondition rules out.
#[verifier::external_body]
pub(crate) fn bits_at(b: &Bits, i: usize) -> (r: bool)
    requires
        i < bits_of(*b).len(),
    ensures
        r == bits_of(*b)[i as int],
{
    b.inner[i]
}

/// `BitSlice::reverse`: the same bits in the opposite order.
#[verifier::external_body]
fn bits_reverse(b: &mut Bits)
    ensures
        bits_of(*final(b)) == bits_of(*old(b)).reverse(),
{
    b.inner.reverse()
}

impl Bits {
    /// An empty bit sequence.
    pub fn new() -> (r: Bits)
        ensures
            r@ == Seq::<bool>::empty(),
    {
        bits_new()
    }

    /// The number of bits held.
    pub fn len(&self) -> (r: usize)
        ensures
            r == self@.len(),
            r <= MAX_BITS,
    {
        bits_len(self)
    }

    /// Appends one bit.
    pub fn push(&mut self, bit: bool)
        requires
            old(self)@.len() < MAX_BITS,
        ensures
            final(self)@ == old(self)@.push(bit),
    {
        bits_push(self, bit)
    }

    /// The bit at position `i`, if there is one.
    pub fn get(&self, i: usize) -> (r: Option<bool>)
        ensures
            r == (if i < self@.len() { Some(self@[i as int]) } else { None }),
    {
        if i < bits_len(self) {
            Some(bits_at(self, i))
        } else {
            None
        }
    }

    /// Appends the bits of `other`, in their order.
    pub fn extend(&mut self, other: &Bits)
        requires
            old(self)@.len() + other@.len() <= MAX_BITS,
        ensures
            final(self)@ == old(self)@ + other@,
    {
        let n = bits_len(other);
        for i in 0..n
            invariant
                n == other@.len(),
                old(self)@.len() + n <= MAX_BITS,
                self@ == old(self)@ + other@.take(i as int),
        {
            bits_push(self, bits_at(other, i));
        }
    }

    /// Reverses the order of the bits in place.
    pub fn reverse(&mut self)
        ensures
            final(self)@ == old(self)@.reverse(),
    {
        bits_reverse(self)
    }
}

} // verus!
