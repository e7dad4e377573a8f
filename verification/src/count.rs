//! Counting how often each symbol occurs in a string. The counts are kept in
//! a hash map under the code points of the symbols: `vstd` states how a
//! `HashMap` behaves for integer keys.

use std::collections::HashMap;
use vstd::prelude::*;

verus! {

/// How many times `c` occurs in `s`.
pub open spec fn count(s: Seq<char>, c: char) -> nat
    decreases s.len(),
{
    if s.len() == 0 {
        0
    } else {
        count(s.drop_last(), c) + if s.last() == c {
            1nat
        } else {
            0nat
        }
    }
}

/// The count of `c` in `s` as the counter holds it: it stops at the largest
/// `u32` and never wraps.
pub open spec fn frequency(s: Seq<char>, c: char) -> u32 {
    if count(s, c) >= u32::MAX {
        u32::MAX
    } else {
        count(s, c) as u32
    }
}

/// `u` is the code point of a character: no surrogate, and at most 0x10FFFF.
pub open spec fn is_scalar(u: u32) -> bool {
    u <= 0xD7FF || 0xE000 <= u <= 0x10FFFF
}

/// `m` maps the code point of each symbol of `s` to its frequency in `s`,
/// and holds nothing else.
pub open spec fn counted(m: Map<u32, u32>, s: Seq<char>) -> bool {
    &&& forall|k: u32| #[trigger]
        m.contains_key(k) <==> is_scalar(k) && s.contains(k as char)
    &&& forall|k: u32| #[trigger] m.contains_key(k) ==> m[k] == frequency(s, k as char)
}

/// A character and its code point stand for each other.
pub proof fn lemma_code_point(c: char)
    ensures
        is_scalar(c as u32),
        (c as u32) as char == c,
{
}

/// A symbol occurs in a string exactly when its count there is not zero.
pub proof fn lemma_count_contains(s: Seq<char>, c: char)
    ensures
        s.contains(c) <==> count(s, c) > 0,
    decreases s.len(),
{
    if s.len() > 0 {
        lemma_count_contains(s.drop_last(), c);
        if s.drop_last().contains(c) {
            let i = choose|i: int| 0 <= i < s.drop_last().len() && s.drop_last()[i] == c;
            assert(s[i] == c);
        }
        if s.contains(c) && s.last() != c {
            let i = choose|i: int| 0 <= i < s.len() && s[i] == c;
            assert(s.drop_last()[i] == c);
        }
    }
}

/// Counts the symbols of a string, by code point.
pub fn frequencies(string: &str) -> (m: HashMap<u32, u32>)
    ensures
        counted(m@, string@),
{
    broadcast use vstd::std_specs::hash::group_hash_axioms;

    let mut m: HashMap<u32, u32> = HashMap::new();
    for c in it: string.chars()
        invariant
            it.seq() == string@,
            counted(m@, string@.take(it.index())),
    {
        let ghost seen = string@.take(it.index());
        proof {
            lemma_code_point(c);
        }
        let k: u32 = c as u32;
        let n: u32 = match m.get(&k) {
            Some(n) => n.saturating_add(1),
            None => 1,
        };
        m.insert(k, n);
        proof {
            let next = string@.take(it.index() + 1);
            assert(next.drop_last() == seen);
            assert(next.last() == c);
            lemma_count_contains(seen, c);
            assert forall|j: u32| #[trigger]
                m@.contains_key(j) <==> is_scalar(j) && next.contains(j as char) by {
                lemma_count_contains(seen, j as char);
                lemma_count_contains(next, j as char);
            }
        }
    }
    assert(string@.take(string@.len() as int) == string@);
    m
}

} // verus!
