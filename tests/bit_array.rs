use prismarine_world_lite::bit_array::BitArray;

#[test]
fn non_spanning_pack_five_bits() {
    let mut b = BitArray::new(5, 13);
    assert_eq!(b.len(), 2);
    for i in 0..13usize {
        b.set(i, (i + 1) as u32);
    }
    let words = b.get_data();
    assert_eq!(words[0], 0x062d_4941_cc52_0c41);
    assert_eq!(words[0] >> 60, 0);
    assert_eq!(words[1], 13);
    assert_eq!(b.get(12), 13);
    assert_eq!(b.get(11), 12);
    assert_eq!(b.get(0), 1);
}

#[test]
fn set_then_get_leaves_others() {
    let mut b = BitArray::new(7, 100);
    for i in 0..100usize {
        b.set(i, (i % 128) as u32);
    }
    b.set(50, 127);
    assert_eq!(b.get(50), 127);
    assert_eq!(b.get(49), 49);
    assert_eq!(b.get(51), 51);
    assert_eq!(b.get(99), 99);
}

#[test]
fn word_count_is_ceiling() {
    assert_eq!(BitArray::new(4, 4096).len(), 256);
    assert_eq!(BitArray::new(5, 4096).len(), 342);
    assert_eq!(BitArray::new(15, 4096).len(), 1024);
    assert_eq!(BitArray::new(64, 3).len(), 3);
    assert_eq!(BitArray::new(1, 64).len(), 1);
    assert_eq!(BitArray::new(1, 65).len(), 2);
    assert_eq!(BitArray::new(0, 10).len(), 0);
    assert_eq!(BitArray::new(3, 0).len(), 0);
}

#[test]
fn zero_bits_reads_zero() {
    let b = BitArray::new(0, 10);
    assert_eq!(b.get(9), 0);
    assert_eq!(b.get_bits_per_value(), 0);
    assert_eq!(b.get_capacity(), 10);
}

#[test]
fn full_width_values() {
    let mut b = BitArray::new(64, 2);
    b.set(1, u32::MAX);
    assert_eq!(b.get(1), u32::MAX);
    assert_eq!(b.get(0), 0);
    assert_eq!(b.get_data()[1], u32::MAX as u64);
}

#[test]
fn from_data_checks_word_count() {
    assert!(BitArray::from_data(4, 4096, vec![0u64; 255]).is_none());
    assert!(BitArray::from_data(4, 4096, vec![0u64; 257]).is_none());
    assert!(BitArray::from_data(65, 1, vec![0u64; 1]).is_none());
    assert!(BitArray::from_data(0, 5, vec![]).is_some());
    assert!(BitArray::from_data(3, 0, vec![]).is_some());
    let b = BitArray::from_data(4, 32, vec![0x21, 0xf0]).unwrap();
    assert_eq!(b.get(0), 1);
    assert_eq!(b.get(1), 2);
    assert_eq!(b.get(17), 15);
    assert_eq!(b.get(16), 0);
}

#[test]
fn new_words_are_zero_and_set_keeps_unused_bits() {
    let b = BitArray::new(5, 13);
    assert!(b.get_data().iter().all(|w| *w == 0));
    let mut b = BitArray::from_data(5, 12, vec![0xf000_0000_0000_0000]).unwrap();
    b.set(11, 31);
    assert_eq!(b.get_data()[0], 0xf000_0000_0000_0000 | (31u64 << 55));
    b.set(11, 0);
    assert_eq!(b.get_data()[0], 0xf000_0000_0000_0000);
}
