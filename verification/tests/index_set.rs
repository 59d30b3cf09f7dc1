use evenio::archetype::ArchetypeIdx;
use evenio::map::IndexSet;

#[test]
fn insert_keeps_order_and_refuses_duplicates() {
    let mut s: IndexSet<u32> = IndexSet::new();
    assert!(s.is_empty());
    assert!(s.insert(5));
    assert!(s.insert(3));
    assert!(!s.insert(5));
    assert!(s.insert(9));
    assert_eq!(s.len(), 3);
    assert_eq!(s.to_vec(), vec![5, 3, 9]);
    assert_eq!(s.get_index(1), Some(3));
    assert_eq!(s.get_index(3), None);
    assert_eq!(s.get_index_of(9), Some(2));
    assert_eq!(s.get_index_of(4), None);
    assert!(s.contains(3));
    assert!(!s.contains(4));
}

#[test]
fn swap_remove_puts_the_last_item_in_the_gap() {
    let mut s: IndexSet<ArchetypeIdx> = IndexSet::new();
    for i in 1..=4 {
        s.insert(ArchetypeIdx(i));
    }
    assert!(s.swap_remove(ArchetypeIdx(2)));
    assert_eq!(s.to_vec(), vec![ArchetypeIdx(1), ArchetypeIdx(4), ArchetypeIdx(3)]);
    assert!(!s.swap_remove(ArchetypeIdx(2)));
    assert!(s.swap_remove(ArchetypeIdx(3)));
    assert_eq!(s.to_vec(), vec![ArchetypeIdx(1), ArchetypeIdx(4)]);
    assert!(!s.contains(ArchetypeIdx(3)));
    assert_eq!(s.len(), 2);
}
