//! Building the code tree of a string: count the symbols, put a leaf for each
//! into the queue, and join the two items of lowest frequency until one tree
//! is left.

use crate::count::{counted, frequencies, frequency, is_scalar};
use crate::queue::{
    crown, entered, lemma_entered_any_order, merged, ordered, FrequencyPair, Queue,
};
use crate::shape::lemma_huffman_shape;
use crate::tree::{HuffmanTree, PLACEHOLDER};
use vstd::prelude::*;
use vstd::std_specs::iter::IteratorSpec;

verus! {

/// The leaf for the symbol `c` of `s`, with its frequency there.
pub open spec fn leaf_item(s: Seq<char>, c: char) -> FrequencyPair {
    FrequencyPair(frequency(s, c), HuffmanTree::Leaf(c))
}

/// The leaves for the distinct symbols among the first `n` of `s`, in the
/// order in which the symbols first occur.
pub open spec fn leaf_items(s: Seq<char>, n: nat) -> Seq<FrequencyPair>
    decreases n,
{
    if n == 0 || n > s.len() {
        Seq::empty()
    } else if s.take(n - 1).contains(s[n - 1]) {
        leaf_items(s, (n - 1) as nat)
    } else {
        leaf_items(s, (n - 1) as nat).push(leaf_item(s, s[n - 1]))
    }
}

/// The code tree of the string `s`.
pub open spec fn huffman(s: Seq<char>) -> Option<HuffmanTree> {
    crown(merged(entered(leaf_items(s, s.len()))))
}

/// `x` is the leaf for one of the symbols in `seen`, with its frequency in `s`.
pub open spec fn is_leaf_item(s: Seq<char>, seen: Seq<char>, x: FrequencyPair) -> bool {
    match x.1 {
        HuffmanTree::Leaf(c) => seen.contains(c) && x.0 == frequency(s, c),
        HuffmanTree::Fork(_, _) => false,
    }
}

/// The leaves that the queue starts from: one for each symbol, none twice.
pub proof fn lemma_leaf_items(s: Seq<char>, n: nat)
    requires
        n <= s.len(),
    ensures
        leaf_items(s, n).no_duplicates(),
        forall|x: FrequencyPair| #[trigger]
            leaf_items(s, n).contains(x) <==> is_leaf_item(s, s.take(n as int), x),
    decreases n,
{
    if n > 0 {
        let before = leaf_items(s, (n - 1) as nat);
        let seen = s.take(n - 1);
        let c = s[n - 1];
        lemma_leaf_items(s, (n - 1) as nat);
        assert(s.take(n as int) == seen.push(c));
        assert forall|d: char| s.take(n as int).contains(d) <==> seen.contains(d) || d == c by {
            if seen.contains(d) {
                let i = choose|i: int| 0 <= i < seen.len() && seen[i] == d;
                assert(s.take(n as int)[i] == d);
            }
            if d == c {
                assert(s.take(n as int)[n - 1] == d);
            }
        }
        if !seen.contains(c) {
            let now = before.push(leaf_item(s, c));
            assert(!before.contains(leaf_item(s, c)));
            assert forall|x: FrequencyPair| #[trigger]
                now.contains(x) <==> is_leaf_item(s, s.take(n as int), x) by {
                if before.contains(x) {
                    let i = choose|i: int| 0 <= i < before.len() && before[i] == x;
                    assert(now[i] == x);
                }
                if x == leaf_item(s, c) {
                    assert(now[now.len() - 1] == x);
                }
            }
        }
    }
}

/// Two sequences without repetition that hold the same items hold each as
/// often as the other.
pub proof fn lemma_same_items(xs: Seq<FrequencyPair>, ys: Seq<FrequencyPair>)
    requires
        xs.no_duplicates(),
        ys.no_duplicates(),
        forall|x: FrequencyPair| xs.contains(x) <==> ys.contains(x),
    ensures
        xs.to_multiset() == ys.to_multiset(),
{
    xs.lemma_multiset_has_no_duplicates();
    ys.lemma_multiset_has_no_duplicates();
    assert forall|x: FrequencyPair| xs.to_multiset().count(x) == ys.to_multiset().count(x) by {
        vstd::seq_lib::to_multiset_contains(xs, x);
        vstd::seq_lib::to_multiset_contains(ys, x);
    }
    assert(xs.to_multiset() =~= ys.to_multiset());
}

/// `char::from_u32`: the character with the code point `u`, or none where
/// `u` is no code point of a character.
#[verifier::external_body]
fn char_of(u: u32) -> (r: Option<char>)
    ensures
        r == (if is_scalar(u) {
            Some(u as char)
        } else {
            None
        }),
{
    char::from_u32(u)
}

/// The leaf that stands for one entry of the frequency map.
spec fn entry_item(kv: (&u32, &u32)) -> FrequencyPair {
    FrequencyPair(*kv.1, HuffmanTree::Leaf(*kv.0 as char))
}

impl HuffmanTree {
    /// Builds the code tree of a string from the frequencies of its
    /// characters. An empty string has none.
    pub fn tree(string: &str) -> (r: Option<HuffmanTree>)
        ensures
            r == huffman(string@),
            r is None <==> string@.len() == 0,
            r is Some ==> r.unwrap() is Fork,
            r is Some ==> forall|c: char| string@.contains(c) ==> r.unwrap().has(c),
            r is Some ==> forall|c: char|
                r.unwrap().has(c) ==> string@.contains(c) || c == PLACEHOLDER,
            (exists|i: int, j: int| 0 <= i < j < string@.len() && string@[i] != string@[j]) ==> {
                &&& r.unwrap().leaves().no_duplicates()
                &&& forall|c: char| r.unwrap().has(c) <==> string@.contains(c)
            },
    {
        broadcast use vstd::std_specs::hash::group_hash_axioms;


        let counts = frequencies(string);
        let mut queue = Queue::new();
        let ghost mut sown: Seq<FrequencyPair> = Seq::empty();
        let ghost entries = vstd::std_specs::hash::spec_hash_map_iter(&counts).remaining();
        for kv in it: counts.iter()
            invariant
                counted(counts@, string@),
                it.seq() == entries,
                entries.no_duplicates(),
                forall|i: int|
                    0 <= i < entries.len() ==> counts@.contains_key(*(#[trigger] entries[i]).0)
                        && counts@[*entries[i].0] == *entries[i].1,
                forall|k: u32| #[trigger]
                    counts@.contains_key(k) ==> entries.contains((&k, &counts@[k])),
                sown.len() == it.index(),
                forall|i: int| 0 <= i < sown.len() ==> #[trigger] sown[i] == entry_item(entries[i]),
                queue@ == entered(sown),
                ordered(queue@),
        {
            let (k, v) = kv;
            let ghost grown = sown.push(entry_item(kv));
            assert(grown.drop_last() == sown);
            match char_of(*k) {
                Some(c) => {
                    queue.push(FrequencyPair(*v, HuffmanTree::Leaf(c)));
                },
                // Every key of the map is the code point of a symbol.
                None => {},
            }
            proof {
                sown = grown;
            }
        }
        proof {
            let s = string@;
            let all = leaf_items(s, s.len());
            lemma_leaf_items(s, s.len());
            assert(s.take(s.len() as int) == s);
            assert(sown.len() == entries.len());
            assert forall|i: int, j: int|
                0 <= i < sown.len() && 0 <= j < sown.len() && i != j implies sown[i] != sown[j] by {
                assert(entries[i] != entries[j]);
            }
            assert forall|x: FrequencyPair| sown.contains(x) <==> all.contains(x) by {
                if sown.contains(x) {
                    let i = choose|i: int| 0 <= i < sown.len() && sown[i] == x;
                    assert(x == entry_item(entries[i]));
                    assert(counts@.contains_key(*entries[i].0));
                }
                if all.contains(x) {
                    let c = x.1->Leaf_0;
                    let k = c as u32;
                    assert(counts@.contains_key(k));
                    let i = choose|i: int| 0 <= i < entries.len() && entries[i] == (&k, &counts@[k]);
                    assert(sown[i] == x);
                }
            }
            lemma_same_items(sown, all);
            lemma_entered_any_order(sown, all);
        }
        proof {
            lemma_huffman_shape(string@);
        }
        queue.merge()
    }
}

} // verus!
