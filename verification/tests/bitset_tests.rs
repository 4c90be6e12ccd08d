use cell_tower::Bitset;

#[test]
fn new_bitset_is_empty() {
    let bits = Bitset::new();
    assert!(bits.is_empty());
    assert!(!bits.any());
    assert!(!bits.is_full());
    for i in 0..8 {
        assert!(!bits.get(i));
    }
}

#[test]
fn set_and_clear_one_slot() {
    let mut bits = Bitset::new();
    bits.set(3, true);
    assert!(bits.get(3));
    assert!(bits.any());
    assert!(!bits.is_empty());
    for i in 0..8 {
        assert_eq!(bits.get(i), i == 3);
    }
    bits.set(3, false);
    assert!(bits.is_empty());
    assert_eq!(bits, Bitset::new());
}

#[test]
fn set_keeps_other_slots() {
    let mut bits = Bitset::first_n(4);
    bits.set(0, true);
    bits.set(7, false);
    let expected = [true, false, false, false, true, true, true, false];
    for i in 0..8 {
        assert_eq!(bits.get(i), expected[i]);
    }
}

#[test]
fn first_n_marks_the_tail() {
    for n in 0..=8 {
        let bits = Bitset::first_n(n);
        for i in 0..8 {
            assert_eq!(bits.get(i), i >= n);
        }
    }
    assert!(Bitset::first_n(0).is_full());
    assert!(Bitset::first_n(8).is_empty());
    assert_eq!(Bitset::first_n(8), Bitset::new());
}

#[test]
fn full_after_setting_every_slot() {
    let mut bits = Bitset::first_n(3);
    assert!(!bits.is_full());
    bits.set(0, true);
    bits.set(1, true);
    assert!(!bits.is_full());
    bits.set(2, true);
    assert!(bits.is_full());
    assert!(bits.any());
}

#[test]
fn bitsets_compare_by_slots() {
    let mut a = Bitset::first_n(5);
    let b = Bitset::first_n(5);
    assert_eq!(a, b);
    a.set(2, true);
    assert_ne!(a, b);
}
