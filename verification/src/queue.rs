//! The min-first priority queue of weighted subtrees: the item of lowest
//! frequency leaves first, and among items of equal frequency the one whose
//! tree is highest in the order on trees.

use crate::order::{lemma_rank_flip, lemma_rank_same, lemma_rank_trans};
use crate::tree::{HuffmanTree, Rank, PLACEHOLDER};
use vstd::prelude::*;
use vstd::relations::{sorted_by, total_ordering};

verus! {

/// A subtree with the number of times its symbols occur.
#[derive(Debug, PartialEq, Eq)]
pub struct FrequencyPair(pub u32, pub HuffmanTree);

impl FrequencyPair {
    /// The order by which the queue lets items go, highest first: a smaller
    /// frequency ranks higher, equal frequencies go by the order on trees.
    pub open spec fn rank(self, other: FrequencyPair) -> Rank {
        if self.0 > other.0 {
            Rank::Lower
        } else if self.0 < other.0 {
            Rank::Higher
        } else {
            self.1.rank(other.1)
        }
    }

    /// The fork over the trees of two items, weighted with the sum of their
    /// frequencies, which stops at the largest `u32`.
    pub open spec fn joined(self, other: FrequencyPair) -> FrequencyPair {
        FrequencyPair(
            if self.0 + other.0 > u32::MAX {
                u32::MAX
            } else {
                (self.0 + other.0) as u32
            },
            HuffmanTree::Fork(Box::new(self.1), Box::new(other.1)),
        )
    }

    /// Compares two items in the order of the queue.
    pub fn compare(&self, other: &FrequencyPair) -> (r: Rank)
        ensures
            r == self.rank(*other),
    {
        if self.0 > other.0 {
            Rank::Lower
        } else if self.0 < other.0 {
            Rank::Higher
        } else {
            self.1.compare(&other.1)
        }
    }

    /// Joins two items into one.
    pub fn join(self, other: FrequencyPair) -> (r: FrequencyPair)
        ensures
            r == self.joined(other),
    {
        FrequencyPair(self.0.saturating_add(other.0), HuffmanTree::fork(self.1, other.1))
    }
}

/// Two items rank the same exactly when they are equal.
pub proof fn lemma_pair_same(a: FrequencyPair, b: FrequencyPair)
    ensures
        a.rank(b) == Rank::Same <==> a == b,
{
    lemma_rank_same(a.1, b.1);
}

/// Swapping the two items flips their rank.
pub proof fn lemma_pair_flip(a: FrequencyPair, b: FrequencyPair)
    ensures
        b.rank(a) == a.rank(b).flip(),
{
    lemma_rank_flip(a.1, b.1);
}

/// Not higher than an item that is lower than a third is lower than the third.
pub proof fn lemma_pair_trans(a: FrequencyPair, b: FrequencyPair, c: FrequencyPair)
    requires
        a.rank(b) != Rank::Higher,
        b.rank(c) == Rank::Lower,
    ensures
        a.rank(c) == Rank::Lower,
{
    lemma_rank_same(a.1, b.1);
    if a.0 == b.0 && b.0 == c.0 && a.1 != b.1 {
        lemma_rank_trans(a.1, b.1, c.1);
    }
}

/// Items stand in rising rank, so that the last one leaves first.
pub open spec fn ordered(q: Seq<FrequencyPair>) -> bool {
    forall|i: int, j: int| 0 <= i < j < q.len() ==> #[trigger] q[i].rank(q[j]) != Rank::Higher
}

/// The place where `x` enters `q`: just behind the last item that ranks lower.
pub open spec fn slot(q: Seq<FrequencyPair>, x: FrequencyPair) -> nat
    decreases q.len(),
{
    if q.len() == 0 || q.last().rank(x) == Rank::Lower {
        q.len()
    } else {
        slot(q.drop_last(), x)
    }
}

/// The queue `q` with `x` added.
pub open spec fn enqueue(q: Seq<FrequencyPair>, x: FrequencyPair) -> Seq<FrequencyPair> {
    q.insert(slot(q, x) as int, x)
}

/// What the place of a new item is bounded by: lower items before it, none behind.
pub proof fn lemma_slot(q: Seq<FrequencyPair>, x: FrequencyPair)
    ensures
        slot(q, x) <= q.len(),
        slot(q, x) > 0 ==> q[slot(q, x) - 1].rank(x) == Rank::Lower,
        forall|j: int| slot(q, x) <= j < q.len() ==> (#[trigger] q[j]).rank(x) != Rank::Lower,
    decreases q.len(),
{
    if q.len() == 0 || q.last().rank(x) == Rank::Lower {
    } else {
        lemma_slot(q.drop_last(), x);
        assert forall|j: int| slot(q, x) <= j < q.len() implies (#[trigger] q[j]).rank(x)
            != Rank::Lower by {
            if j < q.len() - 1 {
                assert(q[j] == q.drop_last()[j]);
            }
        }
    }
}

/// Adding an item keeps the queue in order.
pub proof fn lemma_enqueue_ordered(q: Seq<FrequencyPair>, x: FrequencyPair)
    requires
        ordered(q),
    ensures
        ordered(enqueue(q, x)),
        enqueue(q, x).len() == q.len() + 1,
{
    lemma_slot(q, x);
    let p = slot(q, x) as int;
    let n = enqueue(q, x);
    assert forall|i: int, j: int| 0 <= i < j < n.len() implies #[trigger] n[i].rank(n[j])
        != Rank::Higher by {
        if j == p {
            assert(n[i] == q[i]);
            if i < p - 1 {
                assert(q[i].rank(q[p - 1]) != Rank::Higher);
            } else {
                lemma_pair_same(q[i], q[i]);
            }
            lemma_pair_trans(q[i], q[p - 1], x);
        } else if i == p {
            assert(n[j] == q[j - 1]);
            lemma_pair_flip(q[j - 1], x);
        } else {
            let oi = if i < p { i } else { i - 1 };
            let oj = if j < p { j } else { j - 1 };
            assert(n[i] == q[oi] && n[j] == q[oj]);
            assert(q[oi].rank(q[oj]) != Rank::Higher);
        }
    }
}

/// The queue that holds `items`, entered one by one from the first on.
pub open spec fn entered(items: Seq<FrequencyPair>) -> Seq<FrequencyPair>
    decreases items.len(),
{
    if items.len() == 0 {
        Seq::empty()
    } else {
        enqueue(entered(items.drop_last()), items.last())
    }
}

/// The order of the queue as a relation: `a` does not rank higher than `b`.
pub open spec fn not_higher() -> spec_fn(FrequencyPair, FrequencyPair) -> bool {
    |a: FrequencyPair, b: FrequencyPair| a.rank(b) != Rank::Higher
}

/// The order of the queue is a total order.
pub proof fn lemma_total_order()
    ensures
        total_ordering(not_higher()),
{
    let r = not_higher();
    assert forall|x: FrequencyPair| #[trigger] r(x, x) by {
        lemma_pair_same(x, x);
    }
    assert forall|x: FrequencyPair, y: FrequencyPair| #[trigger] r(x, y) && #[trigger] r(y, x) implies x
        == y by {
        lemma_pair_flip(x, y);
        lemma_pair_same(x, y);
    }
    assert forall|x: FrequencyPair, y: FrequencyPair, z: FrequencyPair| #[trigger]
        r(x, y) && #[trigger] r(y, z) implies r(x, z) by {
        lemma_pair_same(y, z);
        if y != z {
            lemma_pair_trans(x, y, z);
        }
    }
    assert forall|x: FrequencyPair, y: FrequencyPair| #[trigger] r(x, y) || #[trigger] r(y, x) by {
        lemma_pair_flip(x, y);
    }
}

/// Two queues in order that hold the same items are the same queue.
pub proof fn lemma_ordered_unique(a: Seq<FrequencyPair>, b: Seq<FrequencyPair>)
    requires
        ordered(a),
        ordered(b),
        a.to_multiset() == b.to_multiset(),
    ensures
        a == b,
{
    lemma_total_order();
    assert(sorted_by(a, not_higher())) by {
        assert forall|i: int, j: int| 0 <= i < j < a.len() implies #[trigger] not_higher()(
            a[i],
            a[j],
        ) by {
            assert(a[i].rank(a[j]) != Rank::Higher);
        }
    }
    assert(sorted_by(b, not_higher())) by {
        assert forall|i: int, j: int| 0 <= i < j < b.len() implies #[trigger] not_higher()(
            b[i],
            b[j],
        ) by {
            assert(b[i].rank(b[j]) != Rank::Higher);
        }
    }
    vstd::seq_lib::lemma_sorted_unique(a, b, not_higher());
}

/// Adding an item to a queue in order gives the one queue in order that
/// holds the items of the queue and the new one.
pub proof fn lemma_enqueue_unique(q: Seq<FrequencyPair>, x: FrequencyPair, r: Seq<FrequencyPair>)
    requires
        ordered(q),
        ordered(r),
        r.to_multiset() == q.to_multiset().insert(x),
    ensures
        r == enqueue(q, x),
{
    lemma_slot(q, x);
    lemma_enqueue_ordered(q, x);
    vstd::seq_lib::to_multiset_insert(q, slot(q, x) as int, x);
    lemma_ordered_unique(r, enqueue(q, x));
}

/// Entering items one by one gives a queue in order that holds just them.
pub proof fn lemma_entered(items: Seq<FrequencyPair>)
    ensures
        ordered(entered(items)),
        entered(items).to_multiset() == items.to_multiset(),
        entered(items).len() == items.len(),
    decreases items.len(),
{
    if items.len() == 0 {
        assert(items == Seq::<FrequencyPair>::empty());
    } else {
        let before = entered(items.drop_last());
        lemma_entered(items.drop_last());
        lemma_enqueue_ordered(before, items.last());
        lemma_slot(before, items.last());
        assert(items.drop_last().push(items.last()) == items);
        vstd::seq_lib::to_multiset_insert(before, slot(before, items.last()) as int, items.last());
        vstd::seq_lib::to_multiset_build(items.drop_last(), items.last());
        assert(entered(items).to_multiset() == before.to_multiset().insert(items.last()));
        assert(items.to_multiset() == items.drop_last().to_multiset().insert(items.last()));
    }
}

/// The queue does not depend on the order in which its items entered.
pub proof fn lemma_entered_any_order(xs: Seq<FrequencyPair>, ys: Seq<FrequencyPair>)
    requires
        xs.to_multiset() == ys.to_multiset(),
    ensures
        entered(xs) == entered(ys),
{
    lemma_entered(xs);
    lemma_entered(ys);
    lemma_ordered_unique(entered(xs), entered(ys));
}

/// The queue after joining its two first-out items over and over, until
/// fewer than two are left.
pub open spec fn merged(q: Seq<FrequencyPair>) -> Seq<FrequencyPair>
    decreases q.len(),
{
    if q.len() < 2 {
        q
    } else {
        let rest = q.take(q.len() - 2);
        let both = q[q.len() - 1].joined(q[q.len() - 2]);
        proof {
            lemma_slot(rest, both);
        }
        merged(enqueue(rest, both))
    }
}

/// The tree that a fully merged queue stands for: none where the queue is
/// empty; else the tree of its item, and under a new root beside a
/// placeholder leaf where that tree is a bare leaf.
pub open spec fn crown(q: Seq<FrequencyPair>) -> Option<HuffmanTree> {
    if q.len() == 0 {
        None
    } else {
        match q.last().1 {
            HuffmanTree::Leaf(c) => Some(
                HuffmanTree::Fork(
                    Box::new(HuffmanTree::Leaf(c)),
                    Box::new(HuffmanTree::Leaf(PLACEHOLDER)),
                ),
            ),
            t => Some(t),
        }
    }
}

/// A min-first priority queue of weighted subtrees. A queue that is filled
/// through `push` alone is always `ordered`.
pub struct Queue {
    items: Vec<FrequencyPair>,
}

impl View for Queue {
    type V = Seq<FrequencyPair>;

    closed spec fn view(&self) -> Seq<FrequencyPair> {
        self.items@
    }
}

impl Queue {
    /// An empty queue.
    pub fn new() -> (r: Queue)
        ensures
            r@ == Seq::<FrequencyPair>::empty(),
            ordered(r@),
    {
        Queue { items: Vec::new() }
    }

    /// The number of items waiting.
    pub fn len(&self) -> (r: usize)
        ensures
            r == self@.len(),
    {
        self.items.len()
    }

    /// Adds an item.
    pub fn push(&mut self, x: FrequencyPair)
        ensures
            final(self)@ == enqueue(old(self)@, x),
            final(self)@.len() == old(self)@.len() + 1,
            ordered(old(self)@) ==> ordered(final(self)@),
    {
        proof {
            lemma_slot(self.items@, x);
            if ordered(self.items@) {
                lemma_enqueue_ordered(self.items@, x);
            }
        }
        let mut i: usize = self.items.len();
        assert(self.items@.take(i as int) == self.items@);
        while i > 0 && self.items[i - 1].compare(&x) != Rank::Lower
            invariant
                i <= self.items.len(),
                slot(self.items@.take(i as int), x) == slot(self.items@, x),
            decreases i,
        {
            assert(self.items@.take(i as int).drop_last() == self.items@.take(i - 1));
            i -= 1;
        }
        self.items.insert(i, x);
    }

    /// Takes out the item that is first to leave: none ranks higher.
    pub fn pop(&mut self) -> (r: Option<FrequencyPair>)
        ensures
            r == (if old(self)@.len() == 0 {
                None
            } else {
                Some(old(self)@.last())
            }),
            final(self)@ == (if old(self)@.len() == 0 {
                old(self)@
            } else {
                old(self)@.drop_last()
            }),
            ordered(old(self)@) ==> ordered(final(self)@),
            ordered(old(self)@) && r is Some ==> forall|i: int|
                0 <= i < final(self)@.len() ==> (#[trigger] final(self)@[i]).rank(r.unwrap())
                    != Rank::Higher,
    {
        let r = self.items.pop();
        proof {
            if ordered(old(self)@) {
                assert forall|i: int, j: int| 0 <= i < j < self@.len() implies #[trigger] self@[i].rank(
                    self@[j],
                ) != Rank::Higher by {
                    assert(old(self)@[i].rank(old(self)@[j]) != Rank::Higher);
                }
                if r is Some {
                    assert forall|i: int| 0 <= i < self@.len() implies (#[trigger] self@[i]).rank(
                        r.unwrap(),
                    ) != Rank::Higher by {
                        assert(old(self)@[i].rank(old(self)@[old(self)@.len() - 1]) != Rank::Higher);
                    }
                }
            }
        }
        r
    }
}

impl Queue {
    /// Joins the two items that are first to leave, the first of them to the
    /// left, and puts the fork back, until fewer than two items are left.
    /// What is left is the tree; a bare leaf gets a root of its own.
    pub fn merge(self) -> (r: Option<HuffmanTree>)
        ensures
            r == crown(merged(self@)),
    {
        let mut queue = self;
        loop
            invariant
                ordered(self@) ==> ordered(queue@),
                crown(merged(queue@)) == crown(merged(self@)),
            decreases queue@.len(),
        {
            let ghost before = queue@;
            match queue.pop() {
                None => {
                    return None;
                },
                Some(a) => {
                    match queue.pop() {
                        Some(b) => {
                            assert(queue@ == before.take(before.len() - 2));
                            queue.push(a.join(b));
                        },
                        None => {
                            return match a.1 {
                                HuffmanTree::Leaf(c) => Some(
                                    HuffmanTree::fork(
                                        HuffmanTree::Leaf(c),
                                        HuffmanTree::Leaf(PLACEHOLDER),
                                    ),
                                ),
                                t => Some(t),
                            };
                        },
                    }
                },
            }
        }
    }
}

} // verus!
