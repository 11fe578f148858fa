use mempool_sync::oddsketch::{Oddsketch, DEFAULT_LEN};

#[test]
fn is_empty() {
    let mut oddsketch = Oddsketch::default();
    assert!(oddsketch.is_empty());

    oddsketch.insert(0);

    assert!(!oddsketch.is_empty());
}

#[test]
fn involution() {
    let mut oddsketch = Oddsketch::default();
    oddsketch.insert(0);
    oddsketch.insert(0);
    assert!(oddsketch.is_empty());
}

#[test]
fn insert_flips_the_slot_bit() {
    let mut oddsketch = Oddsketch::default();
    oddsketch.insert(3);
    assert_eq!(oddsketch.as_bytes()[0], 0b0000_1000);
    oddsketch.insert(8 * 5 + 7);
    assert_eq!(oddsketch.as_bytes()[5], 0b1000_0000);
    // 2048 + 3 falls into the same slot as 3 and clears it again
    oddsketch.insert(2048 + 3);
    assert_eq!(oddsketch.as_bytes()[0], 0);
    // the last slot
    oddsketch.insert(u64::MAX);
    assert_eq!(oddsketch.as_bytes()[255], 0b1000_0000);
    assert_eq!(oddsketch.hamming_weight(), 2);
}

#[test]
fn insertion_order_does_not_matter() {
    let mut a = Oddsketch::default();
    let mut b = Oddsketch::default();
    for id in [5u64, 77, 2053, 1 << 40] {
        a.insert(id);
    }
    for id in [1u64 << 40, 2053, 77, 5] {
        b.insert(id);
    }
    assert_eq!(a.as_bytes()[..], b.as_bytes()[..]);
}

#[test]
fn hamming_weight_counts_set_bits() {
    let mut oddsketch = Oddsketch::default();
    assert_eq!(oddsketch.hamming_weight(), 0);
    oddsketch.insert(0);
    oddsketch.insert(1);
    oddsketch.insert(9);
    assert_eq!(oddsketch.hamming_weight(), 3);
    oddsketch.insert(1);
    assert_eq!(oddsketch.hamming_weight(), 2);
    let full = Oddsketch::new([0xff; 256]);
    assert_eq!(full.hamming_weight(), 2048);
    assert!(!full.is_empty());
}

#[test]
fn xor_is_the_sketch_of_the_symmetric_difference() {
    let mut a = Oddsketch::default();
    a.insert(1);
    a.insert(2);
    let mut b = Oddsketch::default();
    b.insert(2);
    b.insert(3);
    let mut expected = Oddsketch::default();
    expected.insert(1);
    expected.insert(3);

    let x = a.clone() ^ b.clone();
    assert_eq!(x.as_bytes()[..], expected.as_bytes()[..]);
    assert_eq!(a.xor(&b).as_bytes()[..], expected.as_bytes()[..]);

    let mut y = a.clone();
    y ^= b;
    assert_eq!(y.as_bytes()[..], expected.as_bytes()[..]);

    assert!((a.clone() ^ a).is_empty());
}

#[test]
fn xor_assign_matches_xor() {
    let mut a = Oddsketch::new([0b1010_1010; 256]);
    let b = Oddsketch::new([0b0110_0110; 256]);
    a.xor_assign(&b);
    assert!(a.as_bytes().iter().all(|x| *x == 0b1100_1100));
}

#[test]
fn new_keeps_the_bytes_and_deref_shows_them() {
    let mut raw = [0u8; DEFAULT_LEN];
    raw[7] = 0x42;
    raw[200] = 1;
    let oddsketch = Oddsketch::new(raw);
    assert_eq!(oddsketch.as_bytes()[..], raw[..]);
    assert_eq!(oddsketch[7], 0x42);
    assert_eq!(oddsketch.len(), DEFAULT_LEN);
    assert_eq!(oddsketch.hamming_weight(), 3);
    let copy = oddsketch.clone();
    assert_eq!(copy[..], raw[..]);
}
