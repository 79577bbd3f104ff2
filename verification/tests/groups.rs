use pg_cocoon::scan::agg::group::{
    hash_group_key, hash_group_key_ref, keys_match, GroupKey, GroupKeyRef, GroupKeyVal, GroupTable,
    StringArena,
};

#[test]
fn an_arena_reads_back_its_strings() {
    let mut arena = StringArena::new();
    let (o1, l1) = arena.alloc_str("héllo");
    let (o2, l2) = arena.alloc_str("");
    let (o3, l3) = arena.alloc_str("x");
    assert_eq!((o1, l1, o2, l2, o3, l3), (0, 6, 6, 0, 6, 1));
    assert_eq!(arena.get(o1, l1), "héllo");
    assert_eq!(arena.get(o2, l2), "");
    assert_eq!(arena.get(o3, l3), "x");
    // A range that splits a character reads as the empty string.
    assert_eq!(arena.get(0, 2), "");
}

#[test]
fn borrowed_components_match_owned_ones() {
    let mut arena = StringArena::new();
    let s = GroupKeyRef::from_str("abc").resolve(&mut arena);
    assert_eq!(s, GroupKeyVal::Str(0, 3));
    assert!(GroupKeyRef::from_str("abc").matches_owned(&s, &arena));
    assert!(!GroupKeyRef::from_str("abd").matches_owned(&s, &arena));
    assert!(!GroupKeyRef::Null.matches_owned(&s, &arena));
    assert!(GroupKeyRef::Int(3).matches_owned(&GroupKeyVal::Int(3), &arena));
    assert!(!GroupKeyRef::Int(3).matches_owned(&GroupKeyVal::Int(4), &arena));
    assert!(GroupKeyRef::Null.matches_owned(&GroupKeyVal::Null, &arena));
    assert!(!GroupKeyRef::Int(0).matches_owned(&GroupKeyVal::Null, &arena));
}

#[test]
fn keys_match_by_all_components() {
    let arena = StringArena::new();
    let one = GroupKey::Single(GroupKeyVal::Int(1));
    assert_eq!(one.as_slice(), &[GroupKeyVal::Int(1)]);
    assert!(keys_match(&one, &[GroupKeyRef::Int(1)], &arena));
    assert!(!keys_match(&one, &[GroupKeyRef::Int(1), GroupKeyRef::Null], &arena));
}

#[test]
fn groups_are_numbered_in_order_of_first_occurrence() {
    let mut table = GroupTable::new();
    assert_eq!(table.find_or_insert(&[GroupKeyRef::from_str("a"), GroupKeyRef::Int(1)]), 0);
    assert_eq!(table.find_or_insert(&[GroupKeyRef::from_str("a"), GroupKeyRef::Int(2)]), 1);
    assert_eq!(table.find_or_insert(&[GroupKeyRef::Null, GroupKeyRef::Int(1)]), 2);
    assert_eq!(table.find_or_insert(&[GroupKeyRef::from_str("a"), GroupKeyRef::Int(1)]), 0);
    assert_eq!(table.len(), 3);
    match table.key(1)[0] {
        GroupKeyVal::Str(off, len) => assert_eq!(table.key_text(off, len), "a"),
        _ => panic!("no string"),
    }
    assert_eq!(table.key(2)[0], GroupKeyVal::Null);
}

#[test]
fn many_groups_stay_distinct() {
    let names: Vec<String> = (0..5000).map(|i| format!("group-{}", i)).collect();
    let mut table = GroupTable::new();
    for (i, n) in names.iter().enumerate() {
        assert_eq!(table.find_or_insert(&[GroupKeyRef::from_str(n)]), i);
    }
    for (i, n) in names.iter().enumerate().rev() {
        assert_eq!(table.find_or_insert(&[GroupKeyRef::from_str(n)]), i);
    }
    assert_eq!(table.len(), 5000);
}

#[test]
fn a_number_and_its_text_are_different_keys() {
    let mut table = GroupTable::new();
    assert_eq!(table.find_or_insert(&[GroupKeyRef::Int(1)]), 0);
    assert_eq!(table.find_or_insert(&[GroupKeyRef::from_str("1")]), 1);
    assert_eq!(table.find_or_insert(&[GroupKeyRef::Null]), 2);
    assert_eq!(table.find_or_insert(&[GroupKeyRef::from_str("")]), 3);
}

#[test]
fn known_keys_are_found() {
    let mut table = GroupTable::new();
    let key = [GroupKeyRef::from_str("a"), GroupKeyRef::Int(1)];
    assert!(!table.contains(&key));
    table.find_or_insert(&key);
    assert!(table.contains(&key));
    assert!(!table.contains(&[GroupKeyRef::from_str("a"), GroupKeyRef::Int(2)]));
    assert!(!table.contains(&[GroupKeyRef::from_str("a")]));
    assert_eq!(table.len(), 1);
}

#[test]
fn keys_are_found_again_from_their_own_components() {
    let mut table = GroupTable::new();
    let long = "x".repeat(300);
    let texts = ["", "a", "ab", long.as_str()];
    for (i, t) in texts.iter().enumerate() {
        table.find_or_insert(&[GroupKeyRef::from_str(t), GroupKeyRef::Int(-(i as i64))]);
    }
    for g in 0..texts.len() {
        let (off, len, v) = match (table.key(g)[0], table.key(g)[1]) {
            (GroupKeyVal::Str(off, len), GroupKeyVal::Int(v)) => (off, len, v),
            _ => panic!("no such key"),
        };
        let text = table.key_text(off, len).to_string();
        let probe = [GroupKeyRef::from_str(&text), GroupKeyRef::Int(v)];
        assert!(table.contains(&probe));
        assert_eq!(table.find_or_insert(&probe), g);
    }
}

#[test]
fn matching_keys_hash_alike() {
    let base = ahash::AHasher::default();
    let mut arena = StringArena::new();
    arena.alloc_str("some other string");
    let probe = [GroupKeyRef::from_str("abc"), GroupKeyRef::Int(-5), GroupKeyRef::Null];
    let vals: Vec<GroupKeyVal> = probe.iter().map(|p| p.resolve(&mut arena)).collect();
    let stored = GroupKey::Multi(vals);
    assert!(keys_match(&stored, &probe, &arena));
    assert_eq!(hash_group_key_ref(&base, &probe), hash_group_key(&base, &stored, &arena));
    let single = GroupKey::Single(probe[0].resolve(&mut arena));
    assert_eq!(hash_group_key_ref(&base, &probe[..1]), hash_group_key(&base, &single, &arena));
    assert_ne!(hash_group_key_ref(&base, &probe), hash_group_key(&base, &single, &arena));
}
