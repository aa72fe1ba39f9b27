use squadbot::ttl_table::{MemberKey, TtlTable};

#[test]
fn table_entries_expire_at_their_deadline() {
    let mut table: TtlTable<u64, &str> = TtlTable::new();
    table.insert(1, "one", 10);
    table.insert(2, "two", 20);
    table.insert(1, "uno", 15);
    assert_eq!(table.get(&1).map(|t| (t.value, t.deadline)), Some(("uno", 15)));
    let mut keys = table.keys();
    keys.sort();
    assert_eq!(keys, vec![1, 2]);
    table.purge(15);
    assert!(table.get(&1).is_none());
    assert_eq!(table.get(&2).map(|t| t.value), Some("two"));
    assert_eq!(table.remove(&2).map(|t| t.deadline), Some(20));
    assert!(table.remove(&2).is_none());
    assert!(table.keys().is_empty());
}

#[test]
fn member_keys_compare_both_parts() {
    let mut table: TtlTable<MemberKey, ()> = TtlTable::new();
    table.insert(MemberKey { squad: 1, user: 2 }, (), 5);
    assert!(table.get(&MemberKey { squad: 1, user: 2 }).is_some());
    assert!(table.get(&MemberKey { squad: 2, user: 1 }).is_none());
    assert!(table.get(&MemberKey { squad: 1, user: 3 }).is_none());
}
