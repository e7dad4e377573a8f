use huffco::bits::MAX_BITS;
use huffco::{Bits, HuffmanTree};

fn leaf(c: char) -> HuffmanTree {
    HuffmanTree::Leaf(c)
}

fn fork(a: HuffmanTree, b: HuffmanTree) -> HuffmanTree {
    HuffmanTree::Fork(Box::new(a), Box::new(b))
}

fn bits(values: &[u8]) -> Bits {
    let mut out = Bits::new();
    for v in values {
        out.push(*v == 1);
    }
    out
}

fn values(bits: &Bits) -> Vec<u8> {
    let mut out = Vec::new();
    let mut i = 0;
    while let Some(bit) = bits.get(i) {
        out.push(if bit { 1 } else { 0 });
        i += 1;
    }
    out
}

fn is_prefix(a: &[u8], b: &[u8]) -> bool {
    a.len() <= b.len() && a == &b[..a.len()]
}

#[test]
fn aab_encodes_to_three_bits_and_back() {
    let tree = HuffmanTree::tree("aab").unwrap();
    let encoded = tree.enc("aab");
    assert_eq!(values(&encoded), vec![1, 1, 0]);
    assert_eq!(tree.dec(&encoded), "aab");
}

#[test]
fn codes_of_abracadabra() {
    let tree = HuffmanTree::tree("abracadabra").unwrap();
    assert_eq!(values(&tree.enc_char('a')), vec![0]);
    assert_eq!(values(&tree.enc_char('b')), vec![1, 0]);
    assert_eq!(values(&tree.enc_char('r')), vec![1, 1, 1]);
    assert_eq!(values(&tree.enc_char('c')), vec![1, 1, 0, 1]);
    assert_eq!(values(&tree.enc_char('d')), vec![1, 1, 0, 0]);
    let encoded = tree.enc("abracadabra");
    assert_eq!(
        values(&encoded),
        vec![0, 1, 0, 1, 1, 1, 0, 1, 1, 0, 1, 0, 1, 1, 0, 0, 0, 1, 0, 1, 1, 1, 0]
    );
    assert_eq!(tree.dec(&encoded), "abracadabra");
}

#[test]
fn round_trip_of_many_strings() {
    let texts = [
        "a",
        "ab",
        "aab",
        "aaaa",
        "\0",
        "\0\0a",
        "abracadabra",
        "the quick brown fox jumps over the lazy dog",
        "héllo wörld ✓✓ 𝄞",
        "aAbBcC aaa AAA",
    ];
    for text in texts {
        let tree = HuffmanTree::tree(text).unwrap();
        assert_eq!(tree.dec(&tree.enc(text)), text);
    }
}

#[test]
fn encoding_twice_gives_the_same_bits() {
    let text = "mississippi river";
    let first = HuffmanTree::tree(text).unwrap();
    let second = HuffmanTree::tree(text).unwrap();
    assert_eq!(values(&first.enc(text)), values(&second.enc(text)));
    for c in text.chars() {
        assert_eq!(values(&first.enc_char(c)), values(&second.enc_char(c)));
    }
}

#[test]
fn no_code_is_a_prefix_of_another() {
    let text = "the quick brown fox jumps over the lazy dog";
    let tree = HuffmanTree::tree(text).unwrap();
    let mut symbols: Vec<char> = text.chars().collect();
    symbols.sort();
    symbols.dedup();
    for a in &symbols {
        for b in &symbols {
            if a != b {
                let ca = values(&tree.enc_char(*a));
                let cb = values(&tree.enc_char(*b));
                assert!(!ca.is_empty());
                assert!(!is_prefix(&ca, &cb));
            }
        }
    }
}

#[test]
fn single_symbol_has_a_code_of_one_bit() {
    let tree = HuffmanTree::tree("aaaa").unwrap();
    assert_eq!(values(&tree.enc_char('a')), vec![0]);
    let encoded = tree.enc("aaaa");
    assert_eq!(values(&encoded), vec![0, 0, 0, 0]);
    assert_eq!(tree.dec(&encoded), "aaaa");
}

#[test]
fn skewed_frequencies_take_fewer_bits_than_bytes() {
    let text = "aaaaaaaaaaaaaaaabbbbbbbbccccdde";
    let tree = HuffmanTree::tree(text).unwrap();
    let encoded = tree.enc(text);
    assert_eq!(encoded.len(), 16 + 8 * 2 + 4 * 3 + 2 * 4 + 4);
    assert!(encoded.len() < 8 * text.chars().count());
}

#[test]
fn a_symbol_outside_the_tree_adds_no_bits() {
    let tree = HuffmanTree::tree("aab").unwrap();
    assert_eq!(tree.enc_char('z').len(), 0);
    assert_eq!(values(&tree.enc("azbz")), vec![1, 0]);
    assert_eq!(tree.enc("zzz").len(), 0);
}

#[test]
fn the_leftmost_leaf_of_a_symbol_gives_its_code() {
    let tree = fork(fork(leaf('x'), leaf('y')), fork(leaf('y'), leaf('x')));
    assert_eq!(values(&tree.enc_char('x')), vec![0, 0]);
    assert_eq!(values(&tree.enc_char('y')), vec![0, 1]);
}

#[test]
fn a_bare_leaf_has_the_empty_code() {
    assert_eq!(leaf('a').enc_char('a').len(), 0);
    assert_eq!(leaf('a').enc("aaa").len(), 0);
}

#[test]
fn empty_string_encodes_to_no_bits() {
    let tree = HuffmanTree::tree("ab").unwrap();
    assert_eq!(tree.enc("").len(), 0);
    assert_eq!(tree.dec(&Bits::new()), "");
}

#[test]
fn decoding_walks_the_tree_bit_by_bit() {
    let tree = fork(leaf('a'), fork(leaf('c'), leaf('b')));
    assert_eq!(tree.dec(&bits(&[0, 1, 0, 1, 1, 0])), "acba");
}

#[test]
fn trailing_bits_short_of_a_leaf_are_dropped() {
    let tree = fork(leaf('a'), fork(leaf('c'), leaf('b')));
    assert_eq!(tree.dec(&bits(&[0, 1, 1, 1])), "ab");
    assert_eq!(tree.dec(&bits(&[1])), "");
    let deep = HuffmanTree::tree("abracadabra").unwrap();
    assert_eq!(deep.dec(&bits(&[1, 0, 1, 1, 0])), "b");
}

#[test]
fn decoding_under_a_bare_leaf_gives_its_symbol_for_each_bit() {
    assert_eq!(leaf('x').dec(&bits(&[0, 1, 1])), "xxx");
}

#[test]
fn enc_len_counts_the_bits() {
    let tree = HuffmanTree::tree("abracadabra").unwrap();
    assert_eq!(tree.enc_len("abracadabra"), Some(23));
    assert_eq!(tree.enc_len(""), Some(0));
    assert_eq!(tree.enc_len("zzz"), Some(0));
    assert_eq!(tree.enc_len("dad"), Some(9));
}

#[test]
fn try_enc_encodes_what_fits() {
    let tree = HuffmanTree::tree("aab").unwrap();
    let encoded = tree.try_enc("aab").unwrap();
    assert_eq!(values(&encoded), vec![1, 1, 0]);
    assert!(MAX_BITS >= 0x1fff_ffff);
}
