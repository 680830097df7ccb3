use bit_tree::bitset::{BitSet, ByteSet};

#[test]
fn test_bitset_includes() {
    let set = BitSet::from_words(vec![0b11]);
    assert!(set.includes(0));
    assert!(set.includes(1));
    assert!(!set.includes(2));

    let byteset = BitSet::from_words(vec![0b011, u32::MAX, 0b101, 0b100]);
    assert!(byteset.includes(0));
    assert!(byteset.includes(1));

    for i in 32..64 {
        assert!(byteset.includes(i));
    }

    assert!(byteset.includes(64));
    assert!(!byteset.includes(65));
    assert!(byteset.includes(66));

    assert!(!byteset.includes(32 * 3 + 0));
    assert!(!byteset.includes(32 * 3 + 1));
    assert!(byteset.includes(32 * 3 + 2));
}

#[test]
fn test_remove() {
    let mut set = BitSet::from_words(vec![0, 0]);
    set.insert(10);
    for i in 0..set.size() {
        if i == 10 {
            assert!(set.includes(i));
        } else {
            assert!(!set.includes(i));
        }
    }
    set.remove(10);
    for i in 0..set.size() {
        assert!(!set.includes(i));
    }
}

#[test]
fn test_index() {
    let mut set = ByteSet::from_entries(&vec![1, 2, 128]);
    assert_eq!(set.index(0), None);
    assert_eq!(set.index(1), Some(0));
    assert_eq!(set.index(2), Some(1));
    assert_eq!(set.index(128), Some(2));

    set.insert(5);
    assert_eq!(set.index(1), Some(0));
    assert_eq!(set.index(2), Some(1));
    assert_eq!(set.index(5), Some(2));
    assert_eq!(set.index(128), Some(3));
}

#[test]
fn test_remove_unchecked_clears() {
    let mut set = ByteSet::new();
    set.insert(7);
    set.remove_unchecked(7);
    set.remove_unchecked(9);
    for i in 0..set.size() {
        assert!(!set.includes(i));
    }
}

#[test]
fn test_includes_exactly_inserted() {
    let entries = vec![0, 31, 32, 63, 64, 200, 255];
    let set = ByteSet::from_entries(&entries);
    for i in 0..256 {
        assert_eq!(set.includes(i), entries.contains(&i));
    }
}

#[test]
fn test_index_counts_smaller_entries() {
    let entries = vec![3, 40, 41, 129, 254];
    let set = ByteSet::from_entries(&entries);
    for (rank, &e) in entries.iter().enumerate() {
        assert_eq!(set.index(e), Some(rank as u32));
    }
    assert_eq!(set.index(128), None);
    let (entry, bit) = set.entry_bit(129);
    assert_eq!((entry, bit), (4, 1));
}
