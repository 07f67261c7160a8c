use sigflow::arena::Arena;
use sigflow::slot_map::SlotMap;
use sigflow::slot_table::SlotTable;
use sigflow::value::{PrimType, Type};

#[test]
fn arena_finds_what_was_put_in() {
    let mut a: Arena<String> = Arena::new();
    assert_eq!(a.len(), 0);
    assert!(a.insert(7, "seven".to_string()));
    assert!(a.insert(u64::MAX, "max".to_string()));
    assert!(a.insert(0, "zero".to_string()));
    assert_eq!(a.len(), 3);
    assert_eq!(a.get(7), Some(&"seven".to_string()));
    assert_eq!(a.get(u64::MAX), Some(&"max".to_string()));
    assert_eq!(a.get(1), None);
    assert!(a.contains_key(0));
    assert!(!a.contains_key(8));
}

#[test]
fn arena_insert_keeps_a_present_key() {
    let mut a: Arena<u32> = Arena::new();
    assert!(a.insert(3, 10));
    assert!(!a.insert(3, 20));
    assert_eq!(a.get(3), Some(&10));
    assert_eq!(a.len(), 1);
}

#[test]
fn arena_remove_and_reuse() {
    let mut a: Arena<u32> = Arena::new();
    for k in 0..50u64 {
        assert!(a.insert(k, k as u32 * 2));
    }
    for k in (0..50u64).step_by(2) {
        assert_eq!(a.remove(k), Some(k as u32 * 2));
    }
    assert_eq!(a.remove(0), None);
    assert_eq!(a.len(), 25);
    for k in 100..125u64 {
        assert!(a.insert(k, 1));
    }
    for k in (1..50u64).step_by(2) {
        assert_eq!(a.get(k), Some(&(k as u32 * 2)));
    }
    for k in 100..125u64 {
        assert_eq!(a.get(k), Some(&1));
    }
    assert_eq!(a.len(), 50);
}

#[test]
fn arena_get_mut_changes_one_value() {
    let mut a: Arena<u32> = Arena::new();
    a.insert(1, 1);
    a.insert(2, 2);
    *a.get_mut(1).unwrap() = 11;
    assert!(a.get_mut(3).is_none());
    assert_eq!(a.get(1), Some(&11));
    assert_eq!(a.get(2), Some(&2));
}

#[test]
fn slot_map_keeps_order_of_first_entry() {
    let mut m: SlotMap<&str> = SlotMap::new();
    assert_eq!(m.insert(5, "five"), None);
    assert_eq!(m.insert(1, "one"), None);
    assert_eq!(m.insert(9, "nine"), None);
    assert_eq!(m.insert(1, "uno"), Some("one"));
    assert_eq!(m.len(), 3);
    assert_eq!(m.key_at(0), 5);
    assert_eq!(m.key_at(1), 1);
    assert_eq!(m.key_at(2), 9);
    assert_eq!(*m.value_at(1), "uno");
    assert_eq!(m.get(9), Some(&"nine"));
    assert_eq!(m.get(2), None);
    assert!(m.contains_key(5));
    assert!(!m.contains_key(0));
    *m.get_mut(5).unwrap() = "cinq";
    assert_eq!(m.into_entries(), vec![(5, "cinq"), (1, "uno"), (9, "nine")]);
}

#[test]
fn slot_table_is_sorted() {
    let t0 = Type::Event(PrimType::U32);
    let t1 = Type::Sampled { ty: PrimType::F32, f_nyq: 1 };
    let mut t = SlotTable::new();
    assert!(t.is_empty());
    assert_eq!(t.last_key(), None);
    assert_eq!(t.insert(4, t0), None);
    assert_eq!(t.insert(2, t1), None);
    assert_eq!(t.insert(9, t0), None);
    assert_eq!(t.insert(4, t1), Some(t0));
    assert_eq!(t.len(), 3);
    assert_eq!(t.entry_at(0), (2, t1));
    assert_eq!(t.entry_at(1), (4, t1));
    assert_eq!(t.entry_at(2), (9, t0));
    assert_eq!(t.last_key(), Some(9));
    assert_eq!(t.get(4), Some(t1));
    assert_eq!(t.get(5), None);
    assert!(t.contains_key(9));
    assert_eq!(t.remove(4), Some(t1));
    assert_eq!(t.remove(4), None);
    assert_eq!(t.len(), 2);
    assert_eq!(t.entry_at(1), (9, t0));
}
