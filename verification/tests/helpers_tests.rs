use cowabunga_rs::helpers::bitmask;
use cowabunga_rs::helpers::copy_using_mask;
use cowabunga_rs::index::HashMapIndex;

/// The mask counts from the end: the final element decides the lowest
/// bit, set when a value is present.
#[test]
fn test_bitmask() {
    assert_eq!(bitmask(&vec![], 0), 0);
    assert_eq!(bitmask(&vec![Some(5)], 0), 1);
    assert_eq!(bitmask(&vec![None, Some(5)], 0), 1);
    assert_eq!(bitmask(&vec![Some(5), None], 0), 2);
    assert_eq!(bitmask(&vec![Some(1), None, Some(2)], 0), 5);
    assert_eq!(bitmask(&vec![Some(1), None, Some(2)], 1), 1);
    assert_eq!(bitmask(&vec![Some(1), Some(2), Some(3)], 3), 0);
}

/// Set bits select elements from the lowest bit upward.
#[test]
fn test_copy_using_mask() {
    let original = vec![10, 20, 30, 40];
    let mut target: Vec<i32> = Vec::new();
    copy_using_mask(&original, &mut target, 0b101);
    assert_eq!(target, vec![10, 30]);

    let mut target2: Vec<i32> = vec![1];
    copy_using_mask(&original, &mut target2, 0b10);
    assert_eq!(target2, vec![1, 20]);

    // Bits beyond the source select nothing.
    let mut target3: Vec<i32> = Vec::new();
    copy_using_mask(&original, &mut target3, 0b10000);
    assert_eq!(target3, Vec::<i32>::new());
}

/// The prototype hash index registers and removes record ids per value.
#[test]
fn test_hashmap_index() {
    let mut idx = HashMapIndex::new();
    idx.add_hash(7, 1);
    idx.add_hash(7, 2);
    idx.add_hash(9, 3);
    idx.delete_hash(7, 1);
    idx.add_hash(7, 4);
    idx.delete_hash(9, 3);
    // Re-adding after a full removal starts a fresh entry.
    idx.add_hash(9, 5);
    idx.delete_hash(9, 5);
}
