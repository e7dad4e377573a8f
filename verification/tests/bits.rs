use huffco::bits::MAX_BITS;
use huffco::Bits;

fn values(bits: &Bits) -> Vec<bool> {
    let mut out = Vec::new();
    let mut i = 0;
    while let Some(bit) = bits.get(i) {
        out.push(bit);
        i += 1;
    }
    out
}

#[test]
fn new_bits_are_empty() {
    let bits = Bits::new();
    assert_eq!(bits.len(), 0);
    assert_eq!(bits.get(0), None);
}

#[test]
fn push_appends_at_the_end() {
    let mut bits = Bits::new();
    bits.push(true);
    bits.push(false);
    bits.push(false);
    assert_eq!(bits.len(), 3);
    assert_eq!(bits.get(0), Some(true));
    assert_eq!(bits.get(1), Some(false));
    assert_eq!(bits.get(2), Some(false));
    assert_eq!(bits.get(3), None);
}

#[test]
fn reverse_turns_the_order_round() {
    let mut bits = Bits::new();
    bits.push(true);
    bits.push(true);
    bits.push(false);
    bits.reverse();
    assert_eq!(values(&bits), vec![false, true, true]);
}

#[test]
fn extend_appends_all_bits_in_order() {
    let mut head = Bits::new();
    head.push(true);
    let mut tail = Bits::new();
    tail.push(false);
    tail.push(true);
    tail.push(false);
    head.extend(&tail);
    assert_eq!(values(&head), vec![true, false, true, false]);
    assert_eq!(tail.len(), 3);
    head.extend(&Bits::new());
    assert_eq!(head.len(), 4);
}

#[test]
fn many_bits_cross_word_boundaries() {
    let mut bits = Bits::new();
    for i in 0..1000 {
        bits.push(i % 3 == 0);
    }
    assert_eq!(bits.len(), 1000);
    for i in 0..1000 {
        assert_eq!(bits.get(i), Some(i % 3 == 0));
    }
}

#[test]
fn max_bits_is_an_eighth_of_the_address_range() {
    assert_eq!(MAX_BITS, usize::MAX >> 3);
}
