use glfont::types::slotmap::{SecondaryMap, Slotmap, CAPACITY};

#[test]
fn keys_hold_index_and_odd_version() {
    let mut arena: Slotmap<&str> = Slotmap::new();
    assert_eq!(arena.len(), 0);
    let a = arena.push("a");
    let b = arena.push("b");
    let c = arena.push("c");
    assert_eq!(a, 0x0000_0001);
    assert_eq!(b, 0x0001_0001);
    assert_eq!(c, 0x0002_0001);
    assert_eq!(arena.len(), 3);
    assert_eq!(arena.get(a), Some(&"a"));
    assert_eq!(arena.get(b), Some(&"b"));
    assert_eq!(arena.get(c), Some(&"c"));
}

#[test]
fn foreign_keys_are_rejected() {
    let mut arena: Slotmap<u32> = Slotmap::with_capacity(4);
    let a = arena.push(10);
    assert!(arena.contains(a));
    assert!(!arena.contains(0));
    assert!(!arena.contains(a + 2), "another version of the slot");
    assert!(!arena.contains(0x0001_0001), "a slot that is not there");
    assert!(!arena.contains(0xffff_ffff));
    assert_eq!(arena.get(0x0001_0001), None);
    assert_eq!(arena.get_mut(0xffff_0001), None);
    assert_eq!(arena.try_pop(0x0001_0001), None);
    assert_eq!(arena.len(), 1);
}

#[test]
fn removed_keys_stay_stale() {
    let mut arena: Slotmap<u32> = Slotmap::new();
    let a = arena.push(10);
    let b = arena.push(20);
    assert_eq!(arena.try_pop(a), Some(10));
    assert_eq!(arena.len(), 1);
    assert!(!arena.contains(a));
    assert_eq!(arena.get(a), None);
    assert_eq!(arena.try_pop(a), None);
    assert!(!arena.contains(a + 1), "the version of the free slot names nothing");
    assert_eq!(arena.get(b), Some(&20));

    let c = arena.push(30);
    assert_eq!(c, 0x0000_0003, "the slot is used again in its next odd version");
    assert!(!arena.contains(a));
    assert_eq!(arena.get(a), None);
    assert_eq!(arena.get(c), Some(&30));
    assert_eq!(arena.len(), 2);
}

#[test]
fn the_slot_freed_last_is_filled_first() {
    let mut arena: Slotmap<u32> = Slotmap::new();
    let keys: Vec<u32> = (0..4).map(|v| arena.push(v)).collect();
    assert_eq!(arena.try_pop(keys[1]), Some(1));
    assert_eq!(arena.try_pop(keys[3]), Some(3));
    assert_eq!(arena.try_pop(keys[0]), Some(0));
    assert_eq!(arena.push(100), 0x0000_0003);
    assert_eq!(arena.push(101), 0x0003_0003);
    assert_eq!(arena.push(102), 0x0001_0003);
    assert_eq!(arena.push(103), 0x0004_0001);
    assert_eq!(arena.len(), 5);
}

#[test]
fn get_mut_changes_in_place() {
    let mut arena: Slotmap<String> = Slotmap::new();
    let a = arena.push(String::from("x"));
    let b = arena.push(String::from("y"));
    arena.get_mut(a).expect("the key is live").push('!');
    assert_eq!(arena.get(a).map(|s| s.as_str()), Some("x!"));
    assert_eq!(arena.get(b).map(|s| s.as_str()), Some("y"));
    assert!(arena.contains(a));
}

#[test]
fn iteration_is_by_slot_and_skips_free_slots() {
    let mut arena: Slotmap<u32> = Slotmap::new();
    let keys: Vec<u32> = (0..5).map(|v| arena.push(v * 10)).collect();
    arena.try_pop(keys[1]);
    arena.try_pop(keys[3]);
    assert_eq!(arena.iter(), vec![&0, &20, &40]);
    assert_eq!(arena.kv_iter(), vec![(keys[0], &0), (keys[2], &20), (keys[4], &40)]);
    let again = arena.push(7);
    assert_eq!(arena.iter(), vec![&0, &20, &7, &40]);
    assert_eq!(
        arena.kv_iter(),
        vec![(keys[0], &0), (keys[2], &20), (again, &7), (keys[4], &40)]
    );
    let empty: Slotmap<u32> = Slotmap::new();
    assert!(empty.iter().is_empty());
    assert!(empty.kv_iter().is_empty());
}

#[test]
fn versions_come_round() {
    let mut arena: Slotmap<u32> = Slotmap::new();
    let first = arena.push(0);
    assert_eq!(arena.try_pop(first), Some(0));
    let mut last = first;
    for round in 1..0x8000u32 {
        let key = arena.push(round);
        assert_eq!(key, round * 2 + 1);
        assert!(!arena.contains(first));
        assert_eq!(arena.try_pop(key), Some(round));
        last = key;
    }
    assert_eq!(last, 0xffff);
    assert_eq!(arena.push(1), first, "after the last version the first comes again");
}

#[test]
fn an_arena_fills_up_to_its_capacity() {
    let mut arena: Slotmap<u16> = Slotmap::with_capacity(u16::MAX);
    assert_eq!(CAPACITY, 65534);
    let mut last = 0;
    while arena.len() < CAPACITY {
        last = arena.push(arena.len());
    }
    assert_eq!(arena.len(), 65534);
    assert_eq!(last, 0xfffd_0001);
    assert_eq!(arena.get(last), Some(&65533));
    assert_eq!(arena.try_pop(1), Some(0));
    assert_eq!(arena.push(9), 3);
}

#[test]
fn secondary_map_goes_by_index_and_version() {
    let mut arena: Slotmap<&str> = Slotmap::new();
    let a = arena.push("a");
    let b = arena.push("b");
    let mut extra: SecondaryMap<u32> = SecondaryMap::with_capacity(0);
    assert!(!extra.contains(a));
    assert_eq!(extra.get(a), None);
    extra.insert(a, 1);
    extra.insert(b, 2);
    assert!(extra.contains(a));
    assert!(extra.contains(b));
    assert_eq!(extra.get(a), Some(&1));
    assert_eq!(extra.get(b), Some(&2));
    assert!(!extra.contains(a + 2));
    assert_eq!(extra.get(0x0002_0001), None);
    *extra.get_mut(b).expect("held") += 40;
    assert_eq!(extra.get(b), Some(&42));
    assert_eq!(extra.get_mut(a + 2), None);
}

#[test]
fn secondary_map_ends_with_the_slot_put_last() {
    let mut extra: SecondaryMap<u32> = SecondaryMap::new();
    extra.insert(0x0003_0001, 3);
    assert!(!extra.contains(0x0000_0001));
    assert_eq!(extra.get(0x0003_0001), Some(&3));
    extra.insert(0x0001_0001, 1);
    assert_eq!(extra.get(0x0001_0001), Some(&1));
    assert_eq!(extra.get(0x0003_0001), None, "what was behind is let go");
    extra.insert(0x0001_0002, 5);
    assert!(extra.contains(0x0001_0003), "the version is held as an odd one");
    assert!(!extra.contains(0x0001_0002));
    assert_eq!(extra.get(0x0001_0003), Some(&5));
}

#[test]
fn values_are_changed_slot_by_slot() {
    let mut arena: Slotmap<u32> = Slotmap::new();
    let keys: Vec<u32> = (0..4).map(|v| arena.push(v * 10)).collect();
    arena.try_pop(keys[2]);
    assert_eq!(arena.slots(), 4);
    let mut seen = Vec::new();
    for slot in 0..arena.slots() as u16 {
        if let Some((key, value)) = arena.iter_mut(slot) {
            *value += 1;
            seen.push(key);
        }
    }
    assert_eq!(seen, vec![keys[0], keys[1], keys[3]]);
    assert_eq!(arena.iter(), vec![&1, &11, &31]);
    assert_eq!(arena.iter_mut(4), None);
    assert_eq!(arena.iter_mut(2), None);
    assert_eq!(arena.iter_mut(u16::MAX), None);
    assert_eq!(arena.len(), 3);
}

#[test]
fn a_push_leaves_the_other_values() {
    let mut arena: Slotmap<u32> = Slotmap::new();
    let a = arena.push(1);
    let b = arena.push(2);
    arena.try_pop(a);
    let c = arena.push(3);
    assert_eq!(arena.get(b), Some(&2));
    assert_eq!(arena.get(c), Some(&3));
    let d = arena.push(4);
    assert_eq!(arena.get(b), Some(&2));
    assert_eq!(arena.get(c), Some(&3));
    assert_eq!(arena.get(d), Some(&4));
}
