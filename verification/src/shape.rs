//! What holds of the tree built for a string: it has a fork at its root, its
//! leaves are the symbols of the string, none of them twice, and it depends
//! on nothing but how often each symbol occurs.

use crate::count::{count, lemma_count_contains};
use crate::huffman::{huffman, leaf_item, leaf_items, lemma_leaf_items, lemma_same_items};
use crate::laws::lemma_round_trip;
use crate::queue::{
    enqueue, entered, lemma_entered, lemma_entered_any_order, lemma_slot, merged, slot,
    FrequencyPair,
};
use crate::tree::{HuffmanTree, PLACEHOLDER};
use vstd::multiset::Multiset;
use vstd::prelude::*;

verus! {

/// The symbols at the leaves of all the trees in a queue, each as often as
/// it stands there.
pub open spec fn foliage(q: Seq<FrequencyPair>) -> Multiset<char>
    decreases q.len(),
{
    if q.len() == 0 {
        Multiset::empty()
    } else {
        foliage(q.drop_last()).add(q.last().1.leaves().to_multiset())
    }
}

/// A tree holds a symbol exactly when the symbol is among its leaves.
pub proof fn lemma_leaves_has(t: HuffmanTree, c: char)
    ensures
        t.leaves().contains(c) <==> t.has(c),
        t.leaves().to_multiset().count(c) > 0 <==> t.has(c),
    decreases t,
{
    vstd::seq_lib::to_multiset_contains(t.leaves(), c);
    match t {
        HuffmanTree::Leaf(d) => {
            assert(seq![d][0] == d);
        },
        HuffmanTree::Fork(left, right) => {
            lemma_leaves_has(*left, c);
            lemma_leaves_has(*right, c);
            let l = left.leaves();
            let r = right.leaves();
            if l.contains(c) {
                let i = choose|i: int| 0 <= i < l.len() && l[i] == c;
                assert((l + r)[i] == c);
            }
            if r.contains(c) {
                let i = choose|i: int| 0 <= i < r.len() && r[i] == c;
                assert((l + r)[l.len() + i] == c);
            }
        },
    }
}

/// A new item adds its leaves to those of the queue, wherever it enters.
pub proof fn lemma_foliage_insert(q: Seq<FrequencyPair>, i: int, x: FrequencyPair)
    requires
        0 <= i <= q.len(),
    ensures
        foliage(q.insert(i, x)) == foliage(q).add(x.1.leaves().to_multiset()),
    decreases q.len(),
{
    broadcast use vstd::multiset::group_multiset_axioms;

    let grown = q.insert(i, x);
    if i == q.len() {
        assert(grown.drop_last() == q);
    } else {
        lemma_foliage_insert(q.drop_last(), i, x);
        assert(grown.drop_last() == q.drop_last().insert(i, x));
        assert(grown.last() == q.last());
        assert(foliage(grown) =~= foliage(q).add(x.1.leaves().to_multiset()));
    }
}

/// Joining items moves leaves from tree to tree and neither adds nor loses one.
pub proof fn lemma_foliage_merged(q: Seq<FrequencyPair>)
    ensures
        foliage(merged(q)) == foliage(q),
        merged(q).len() == (if q.len() == 0 {
            0nat
        } else {
            1nat
        }),
    decreases q.len(),
{
    broadcast use vstd::multiset::group_multiset_axioms;

    if q.len() >= 2 {
        let a = q[q.len() - 1];
        let b = q[q.len() - 2];
        let rest = q.take(q.len() - 2);
        let both = a.joined(b);
        lemma_slot(rest, both);
        lemma_foliage_insert(rest, slot(rest, both) as int, both);
        lemma_foliage_merged(enqueue(rest, both));
        vstd::seq_lib::lemma_multiset_commutative(a.1.leaves(), b.1.leaves());
        assert(q.drop_last().drop_last() == rest);
        assert(q.drop_last().last() == b);
        assert(foliage(q.drop_last()) == foliage(rest).add(b.1.leaves().to_multiset()));
        assert(foliage(q) == foliage(q.drop_last()).add(a.1.leaves().to_multiset()));
        assert(both.1.leaves() == a.1.leaves() + b.1.leaves());
        assert(foliage(enqueue(rest, both)) == foliage(rest).add(both.1.leaves().to_multiset()));
        assert(foliage(q) =~= foliage(enqueue(rest, both)));
    }
}

/// The queue holds the leaves of the items that entered it.
pub proof fn lemma_foliage_entered(items: Seq<FrequencyPair>)
    ensures
        foliage(entered(items)) == foliage(items),
    decreases items.len(),
{
    if items.len() > 0 {
        let before = entered(items.drop_last());
        lemma_foliage_entered(items.drop_last());
        lemma_slot(before, items.last());
        lemma_foliage_insert(before, slot(before, items.last()) as int, items.last());
    }
}

/// The queue starts with each symbol of the string at one leaf.
pub proof fn lemma_foliage_leaf_items(s: Seq<char>, n: nat)
    requires
        n <= s.len(),
    ensures
        forall|c: char|
            foliage(leaf_items(s, n)).count(c) == (if s.take(n as int).contains(c) {
                1nat
            } else {
                0nat
            }),
    decreases n,
{
    broadcast use vstd::seq_lib::group_to_multiset_ensures;
    broadcast use vstd::multiset::group_multiset_axioms;

    if n > 0 {
        let seen = s.take(n - 1);
        let d = s[n - 1];
        let before = leaf_items(s, (n - 1) as nat);
        lemma_foliage_leaf_items(s, (n - 1) as nat);
        assert(s.take(n as int) == seen.push(d));
        assert forall|c: char| s.take(n as int).contains(c) <==> seen.contains(c) || c == d by {
            if seen.contains(c) {
                let i = choose|i: int| 0 <= i < seen.len() && seen[i] == c;
                assert(s.take(n as int)[i] == c);
            }
            if c == d {
                assert(s.take(n as int)[n - 1] == c);
            }
        }
        if !seen.contains(d) {
            let now = before.push(leaf_item(s, d));
            assert(now.drop_last() == before);
            assert(seq![d] == Seq::<char>::empty().push(d));
            assert(foliage(now) == foliage(before).add(seq![d].to_multiset()));
            assert forall|c: char|
                foliage(now).count(c) == (if s.take(n as int).contains(c) {
                    1nat
                } else {
                    0nat
                }) by {
                lemma_leaves_has(HuffmanTree::Leaf(d), c);
            }
        }
    }
}

/// The shape of the tree built for a string. There is a tree exactly when the
/// string is not empty, and it has a fork at its root. It holds every symbol
/// of the string. Where the string has two symbols or more, the tree holds
/// nothing else and no symbol at two leaves; where it has one, the tree is
/// the leaf of that symbol beside the placeholder leaf.
pub proof fn lemma_huffman_shape(s: Seq<char>)
    ensures
        huffman(s) is None <==> s.len() == 0,
        huffman(s) is Some ==> huffman(s).unwrap() is Fork,
        huffman(s) is Some ==> forall|c: char| s.contains(c) ==> huffman(s).unwrap().has(c),
        huffman(s) is Some ==> forall|c: char|
            huffman(s).unwrap().has(c) ==> s.contains(c) || c == PLACEHOLDER,
        (exists|i: int, j: int| 0 <= i < j < s.len() && s[i] != s[j]) ==> {
            &&& huffman(s).unwrap().leaves().no_duplicates()
            &&& forall|c: char| huffman(s).unwrap().has(c) <==> s.contains(c)
        },
        s.len() > 0 && (forall|i: int| 0 <= i < s.len() ==> #[trigger] s[i] == s[0]) ==> huffman(s) == Some(
            HuffmanTree::Fork(
                Box::new(HuffmanTree::Leaf(s[0])),
                Box::new(HuffmanTree::Leaf(PLACEHOLDER)),
            ),
        ),
{
    broadcast use vstd::multiset::group_multiset_axioms;

    let items = leaf_items(s, s.len());
    let q = entered(items);
    let m = merged(q);
    lemma_leaf_items(s, s.len());
    lemma_entered(items);
    lemma_foliage_leaf_items(s, s.len());
    lemma_foliage_entered(items);
    lemma_foliage_merged(q);
    assert(s.take(s.len() as int) == s);
    if s.len() == 0 {
        assert(items.len() == 0);
    } else {
        assert(s[0] == s[0] && s.contains(s[0]));
        assert(items.contains(leaf_item(s, s[0])));
        assert(m.len() == 1);
        let t = m[0].1;
        assert(m.drop_last() == Seq::<FrequencyPair>::empty());
        assert(foliage(m.drop_last()) == Multiset::<char>::empty());
        assert(m.last() == m[0]);
        assert(foliage(m) =~= t.leaves().to_multiset());
        assert forall|c: char| t.has(c) <==> s.contains(c) by {
            lemma_leaves_has(t, c);
        }
        assert(t.leaves().no_duplicates()) by {
            t.leaves().lemma_multiset_has_no_duplicates_conv();
        }
        match t {
            HuffmanTree::Leaf(d) => {
                assert(t.has(d));
                assert forall|i: int| 0 <= i < s.len() implies s[i] == d by {
                    assert(s.contains(s[i]));
                    assert(t.has(s[i]));
                }
                let w = huffman(s).unwrap();
                assert forall|c: char| w.has(c) implies s.contains(c) || c == PLACEHOLDER by {
                    assert(w.has(c) == (t.has(c) || HuffmanTree::Leaf(PLACEHOLDER).has(c)));
                }
            },
            HuffmanTree::Fork(left, right) => {
                if forall|i: int| 0 <= i < s.len() ==> #[trigger] s[i] == s[0] {
                    lemma_two_leaves(t);
                    let a = t.leaves()[0];
                    let b = t.leaves()[1];
                    lemma_leaves_has(t, a);
                    lemma_leaves_has(t, b);
                    assert(s.contains(a) && s.contains(b));
                }
            },
        }
    }
}

/// A fork has two leaves at least.
pub proof fn lemma_two_leaves(t: HuffmanTree)
    ensures
        t.leaves().len() >= 1,
        t is Fork ==> t.leaves().len() >= 2,
    decreases t,
{
    match t {
        HuffmanTree::Leaf(_) => {},
        HuffmanTree::Fork(left, right) => {
            lemma_two_leaves(*left);
            lemma_two_leaves(*right);
        },
    }
}

/// Building, encoding and decoding gives every string that is not empty back.
pub proof fn lemma_huffman_round_trip(s: Seq<char>)
    requires
        s.len() > 0,
    ensures
        huffman(s) is Some,
        huffman(s).unwrap().decoding(huffman(s).unwrap().encoding(s)) == s,
{
    lemma_huffman_shape(s);
    let t = huffman(s).unwrap();
    assert forall|i: int| 0 <= i < s.len() implies t.has(#[trigger] s[i]) by {
        assert(s.contains(s[i]));
    }
    lemma_round_trip(t, s);
}

/// Building is deterministic: strings with the same symbols in the same
/// places have the same tree, and with it the same code for every symbol.
pub proof fn lemma_huffman_deterministic(s1: Seq<char>, s2: Seq<char>)
    requires
        s1.len() == s2.len(),
        forall|i: int| 0 <= i < s1.len() ==> s1[i] == s2[i],
    ensures
        huffman(s1) == huffman(s2),
        huffman(s1) is Some ==> forall|c: char|
            huffman(s1).unwrap().code(c) == huffman(s2).unwrap().code(c),
{
    assert(s1 =~= s2);
}

/// The tree of a string depends on the frequencies of its symbols alone: two
/// strings in which every symbol occurs equally often have the same tree.
pub proof fn lemma_huffman_by_counts(s1: Seq<char>, s2: Seq<char>)
    requires
        forall|c: char| count(s1, c) == count(s2, c),
    ensures
        huffman(s1) == huffman(s2),
{
    let xs = leaf_items(s1, s1.len());
    let ys = leaf_items(s2, s2.len());
    lemma_leaf_items(s1, s1.len());
    lemma_leaf_items(s2, s2.len());
    assert(s1.take(s1.len() as int) == s1);
    assert(s2.take(s2.len() as int) == s2);
    assert forall|x: FrequencyPair| xs.contains(x) <==> ys.contains(x) by {
        if let HuffmanTree::Leaf(c) = x.1 {
            lemma_count_contains(s1, c);
            lemma_count_contains(s2, c);
        }
    }
    lemma_same_items(xs, ys);
    lemma_entered_any_order(xs, ys);
}

} // verus!
