use huffco::queue::{FrequencyPair, Queue};
use huffco::tree::Rank;
use huffco::HuffmanTree;

fn leaf(c: char) -> HuffmanTree {
    HuffmanTree::Leaf(c)
}

fn fork(a: HuffmanTree, b: HuffmanTree) -> HuffmanTree {
    HuffmanTree::Fork(Box::new(a), Box::new(b))
}

#[test]
fn lower_frequency_ranks_higher() {
    let rare = FrequencyPair(1, leaf('a'));
    let common = FrequencyPair(9, leaf('a'));
    assert_eq!(rare.compare(&common), Rank::Higher);
    assert_eq!(common.compare(&rare), Rank::Lower);
    assert_eq!(rare.compare(&FrequencyPair(1, leaf('a'))), Rank::Same);
}

#[test]
fn equal_frequencies_rank_by_their_trees() {
    let a = FrequencyPair(3, leaf('a'));
    let b = FrequencyPair(3, leaf('b'));
    let f = FrequencyPair(3, fork(leaf('a'), leaf('a')));
    assert_eq!(a.compare(&b), Rank::Lower);
    assert_eq!(b.compare(&a), Rank::Higher);
    assert_eq!(f.compare(&b), Rank::Higher);
}

#[test]
fn join_adds_frequencies_and_forks_trees() {
    let joined = FrequencyPair(2, leaf('x')).join(FrequencyPair(5, leaf('y')));
    assert_eq!(joined, FrequencyPair(7, fork(leaf('x'), leaf('y'))));
}

#[test]
fn join_stops_at_the_largest_frequency() {
    let joined = FrequencyPair(u32::MAX, leaf('x')).join(FrequencyPair(1, leaf('y')));
    assert_eq!(joined.0, u32::MAX);
    let joined = FrequencyPair(u32::MAX - 1, leaf('x')).join(FrequencyPair(u32::MAX - 1, leaf('y')));
    assert_eq!(joined.0, u32::MAX);
    let joined = FrequencyPair(u32::MAX - 1, leaf('x')).join(FrequencyPair(1, leaf('y')));
    assert_eq!(joined.0, u32::MAX);
}

#[test]
fn the_queue_gives_the_lowest_frequency_first() {
    let mut queue = Queue::new();
    queue.push(FrequencyPair(5, leaf('a')));
    queue.push(FrequencyPair(1, leaf('b')));
    queue.push(FrequencyPair(3, leaf('c')));
    queue.push(FrequencyPair(2, fork(leaf('d'), leaf('e'))));
    assert_eq!(queue.len(), 4);
    assert_eq!(queue.pop(), Some(FrequencyPair(1, leaf('b'))));
    assert_eq!(queue.pop(), Some(FrequencyPair(2, fork(leaf('d'), leaf('e')))));
    assert_eq!(queue.pop(), Some(FrequencyPair(3, leaf('c'))));
    assert_eq!(queue.pop(), Some(FrequencyPair(5, leaf('a'))));
    assert_eq!(queue.pop(), None);
    assert_eq!(queue.len(), 0);
}

#[test]
fn the_queue_settles_ties_by_the_higher_tree() {
    let mut queue = Queue::new();
    queue.push(FrequencyPair(2, leaf('b')));
    queue.push(FrequencyPair(2, fork(leaf('a'), leaf('a'))));
    queue.push(FrequencyPair(2, leaf('c')));
    queue.push(FrequencyPair(2, leaf('a')));
    assert_eq!(queue.pop(), Some(FrequencyPair(2, fork(leaf('a'), leaf('a')))));
    assert_eq!(queue.pop(), Some(FrequencyPair(2, leaf('c'))));
    assert_eq!(queue.pop(), Some(FrequencyPair(2, leaf('b'))));
    assert_eq!(queue.pop(), Some(FrequencyPair(2, leaf('a'))));
}

#[test]
fn the_queue_does_not_depend_on_the_order_of_entry() {
    let orders: [[u32; 4]; 3] = [[1, 2, 3, 4], [4, 3, 2, 1], [2, 4, 1, 3]];
    for order in orders {
        let mut queue = Queue::new();
        for f in order {
            queue.push(FrequencyPair(f, leaf('q')));
        }
        for f in [1, 2, 3, 4] {
            assert_eq!(queue.pop(), Some(FrequencyPair(f, leaf('q'))));
        }
    }
}

#[test]
fn merging_an_empty_queue_gives_no_tree() {
    assert_eq!(Queue::new().merge(), None);
}

#[test]
fn merging_a_single_leaf_gives_it_a_root() {
    let mut queue = Queue::new();
    queue.push(FrequencyPair(7, leaf('s')));
    assert_eq!(queue.merge(), Some(fork(leaf('s'), leaf('\0'))));
}

#[test]
fn merging_a_single_fork_gives_the_fork() {
    let mut queue = Queue::new();
    queue.push(FrequencyPair(7, fork(leaf('s'), leaf('t'))));
    assert_eq!(queue.merge(), Some(fork(leaf('s'), leaf('t'))));
}

#[test]
fn merging_joins_the_two_lowest_first() {
    let mut queue = Queue::new();
    queue.push(FrequencyPair(5, leaf('a')));
    queue.push(FrequencyPair(2, leaf('b')));
    queue.push(FrequencyPair(1, leaf('c')));
    queue.push(FrequencyPair(1, leaf('d')));
    queue.push(FrequencyPair(2, leaf('r')));
    let expected = fork(
        leaf('a'),
        fork(leaf('b'), fork(fork(leaf('d'), leaf('c')), leaf('r'))),
    );
    assert_eq!(queue.merge(), Some(expected));
}

#[test]
fn merging_keeps_a_full_frequency_full() {
    let mut queue = Queue::new();
    queue.push(FrequencyPair(1, leaf('b')));
    queue.push(FrequencyPair(u32::MAX, fork(leaf('z'), leaf('z'))));
    queue.push(FrequencyPair(u32::MAX, fork(leaf('y'), leaf('y'))));
    queue.push(FrequencyPair(u32::MAX, leaf('a')));
    let joined = fork(leaf('b'), fork(leaf('z'), leaf('z')));
    let expected = fork(fork(fork(leaf('y'), leaf('y')), joined), leaf('a'));
    assert_eq!(queue.merge(), Some(expected));
}
