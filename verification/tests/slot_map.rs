use evenio::slot_map::{Key, SlotMap};

#[test]
fn key_new_rejects_generation_zero() {
    assert_eq!(Key::new(3, 0), None);
    let key = Key::new(3, 1).unwrap();
    assert_eq!(key.index(), 3);
    assert_eq!(key.generation(), 1);
    let key = Key::new(u32::MAX, 7).unwrap();
    assert_eq!(key.index(), u32::MAX);
    assert_eq!(key.generation(), 7);
    assert_ne!(Key::new(3, 1), Key::new(3, 2));
    assert_ne!(Key::new(3, 1), Key::new(4, 1));
    assert_eq!(Key::new(3, 1), Key::new(3, 1));
}

#[test]
fn key_null_is_the_default() {
    let null = Key::null();
    assert_eq!(null, Key::default());
    assert_eq!(null.index(), u32::MAX);
    assert_eq!(null.generation(), u32::MAX);
    let m: SlotMap<u8> = SlotMap::new();
    assert!(!m.contains(null));
    assert_eq!(m.get(null), None);
}

#[test]
fn insert_hands_out_fresh_slots_in_order() {
    let mut m: SlotMap<&str> = SlotMap::new();
    assert_eq!(m.next_key(), Some(Key::new(0, 1).unwrap()));
    let a = m.insert("a").unwrap();
    let b = m.insert("b").unwrap();
    assert_eq!(a, Key::new(0, 1).unwrap());
    assert_eq!(b, Key::new(1, 1).unwrap());
    assert_eq!(m.get(a), Some(&"a"));
    assert_eq!(m.get(b), Some(&"b"));
    assert_eq!(m.keys(), vec![a, b]);
    assert_eq!(m.values(), vec![&"a", &"b"]);
}

#[test]
fn removed_slot_is_reused_under_the_next_generation() {
    let mut m: SlotMap<u32> = SlotMap::new();
    let a = m.insert(1).unwrap();
    let b = m.insert(2).unwrap();
    assert_eq!(m.remove(a), Some(1));
    assert_eq!(m.next_key(), Some(Key::new(0, 2).unwrap()));
    let c = m.insert(3).unwrap();
    assert_eq!(c, Key::new(0, 2).unwrap());
    assert_ne!(a, c);
    assert_eq!(m.get(a), None);
    assert!(!m.contains(a));
    assert_eq!(m.get(c), Some(&3));
    assert_eq!(m.get(b), Some(&2));
    assert_eq!(m.remove(a), None);
    assert_eq!(m.get(c), Some(&3));
}

#[test]
fn the_slot_freed_last_is_reused_first() {
    let mut m: SlotMap<u32> = SlotMap::new();
    let a = m.insert(1).unwrap();
    let b = m.insert(2).unwrap();
    m.remove(a);
    m.remove(b);
    assert_eq!(m.insert(3), Some(Key::new(1, 2).unwrap()));
    assert_eq!(m.insert(4), Some(Key::new(0, 2).unwrap()));
    assert_eq!(m.insert(5), Some(Key::new(2, 1).unwrap()));
}

#[test]
fn a_removed_key_never_comes_back() {
    let mut m: SlotMap<u32> = SlotMap::new();
    let first = m.insert(0).unwrap();
    let mut seen = vec![first];
    let mut live = first;
    for round in 1..50u32 {
        assert_eq!(m.remove(live), Some(round - 1));
        live = m.insert(round).unwrap();
        assert_eq!(live.index(), first.index());
        assert!(!seen.contains(&live));
        for old in &seen {
            assert_eq!(m.get(*old), None);
        }
        seen.push(live);
    }
}

#[test]
fn lookups_by_index() {
    let mut m: SlotMap<u32> = SlotMap::new();
    let a = m.insert(10).unwrap();
    let b = m.insert(20).unwrap();
    m.remove(a);
    assert_eq!(m.get_by_index(0), None);
    assert_eq!(m.get_by_index(1), Some((b, &20)));
    assert_eq!(m.get_by_index(2), None);
    assert!(m.get_by_index_mut(0).is_none());
    *m.get_by_index_mut(1).unwrap() = 21;
    assert_eq!(m.get(b), Some(&21));
    assert_eq!(m.keys(), vec![b]);
    assert_eq!(m.values(), vec![&21]);
}
