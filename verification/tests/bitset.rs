use afisp_rs::BitMask;

#[test]
fn basic_bitmask_ops() {
    let a = BitMask::from_bool_iter(6, &[true, false, true, false, true, false]);
    let b = BitMask::from_bool_iter(6, &[true, true, false, false, true, false]);
    let c = a.and(&b);
    assert_eq!(c.to_bools(), vec![true, false, false, false, true, false]);
    assert_eq!(c.count_ones(), 2);
    assert_eq!(a.and_count(&b), 2);
    assert_eq!(
        a.not().to_bools(),
        vec![false, true, false, true, false, true]
    );
}

#[test]
fn new_zeros_is_all_clear() {
    let m = BitMask::new_zeros(130);
    assert_eq!(m.to_bools(), vec![false; 130]);
    assert_eq!(m.count_ones(), 0);
    assert!(m.indices().is_empty());
    let empty = BitMask::new_zeros(0);
    assert_eq!(empty.to_bools(), Vec::<bool>::new());
    assert_eq!(empty.not().count_ones(), 0);
}

#[test]
fn set_then_get_across_words() {
    let mut m = BitMask::new_zeros(200);
    m.set(0, true);
    m.set(63, true);
    m.set(64, true);
    m.set(199, true);
    assert!(m.get(0) && m.get(63) && m.get(64) && m.get(199));
    assert!(!m.get(1) && !m.get(65) && !m.get(198));
    m.set(63, false);
    assert!(!m.get(63));
    assert_eq!(m.count_ones(), 3);
    assert_eq!(m.indices(), vec![0, 64, 199]);
}

#[test]
fn from_bools_round_trip() {
    let flags: Vec<bool> = (0..150).map(|i| i % 3 == 0 || i % 7 == 0).collect();
    let m = BitMask::from_bool_iter(flags.len(), &flags);
    assert_eq!(m.to_bools(), flags);
    let expected: Vec<usize> = (0..150).filter(|i| flags[*i]).collect();
    assert_eq!(m.indices(), expected);
    assert_eq!(m.count_ones(), expected.len());
}

#[test]
fn shorter_flag_list_leaves_the_rest_clear() {
    let m = BitMask::from_bool_iter(5, &[true, true]);
    assert_eq!(m.to_bools(), vec![true, true, false, false, false]);
}

#[test]
fn not_clears_padding_bits() {
    let m = BitMask::new_zeros(70);
    let n = m.not();
    assert_eq!(n.count_ones(), 70);
    assert!(!n.get(70));
    assert!(!n.get(127));
    assert_eq!(n.indices().len(), 70);
    assert_eq!(n.indices()[69], 69);
}

#[test]
fn not_twice_gives_the_mask_back() {
    let m = BitMask::from_bool_iter(66, &[true; 3]);
    assert_eq!(m.not().not().to_bools(), m.to_bools());
}

#[test]
fn complement_counts_add_up_to_length() {
    let flags: Vec<bool> = (0..97).map(|i| i % 5 == 1).collect();
    let m = BitMask::from_bool_iter(97, &flags);
    assert_eq!(m.count_ones() + m.not().count_ones(), 97);
    assert_eq!(m.and_count(&m.not()), 0);
}

#[test]
fn and_is_commutative_idempotent_and_shrinks_support() {
    let a = BitMask::from_bool_iter(10, &[true, true, false, true, false, true, true, false, false, true]);
    let b = BitMask::from_bool_iter(10, &[false, true, true, true, false, false, true, true, false, false]);
    assert_eq!(a.and(&b).to_bools(), b.and(&a).to_bools());
    assert_eq!(a.and(&a).to_bools(), a.to_bools());
    let support = a.and_count(&b);
    assert_eq!(support, 3);
    assert!(support <= a.count_ones() && support <= b.count_ones());
    assert_eq!(a.and(&b).count_ones(), support);
}

#[test]
fn padding_bit_is_stored_but_not_listed() {
    let mut m = BitMask::new_zeros(3);
    m.set(10, true);
    assert!(m.get(10));
    assert_eq!(m.count_ones(), 1);
    assert!(m.indices().is_empty());
    assert_eq!(m.to_bools(), vec![false, false, false]);
}
