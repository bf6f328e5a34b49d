use mpc_carrier::table::{Key, Table};

#[test]
fn keys_are_the_same_where_they_hold_the_same() {
    assert!(vec![1u8, 2].same(&vec![1, 2]));
    assert!(!vec![1u8, 2].same(&vec![1, 3]));
    assert!(!vec![1u8, 2].same(&vec![1]));
    assert!(Vec::<u8>::new().same(&vec![]));
    assert!("a".to_string().same(&"a".to_string()));
    assert!(!"a".to_string().same(&"b".to_string()));
}

#[test]
fn new_table_is_empty() {
    let table: Table<String, u16> = Table::new();
    assert!(table.is_empty());
    assert_eq!(table.count(), 0);
    assert!(!table.contains_key(&"a".to_string()));
    assert_eq!(table.get(&"a".to_string()), None);
}

#[test]
fn insert_replaces_and_hands_out_what_was_there() {
    let mut table: Table<String, u16> = Table::new();
    assert_eq!(table.insert("a".to_string(), 9000), None);
    assert_eq!(table.insert("b".to_string(), 9001), None);
    assert_eq!(table.insert("a".to_string(), 9002), Some(9000));
    assert_eq!(table.count(), 2);
    assert_eq!(table.get(&"a".to_string()), Some(&9002));
    assert_eq!(table.get(&"b".to_string()), Some(&9001));
    assert!(!table.is_empty());
}

#[test]
fn try_insert_never_replaces() {
    let mut table: Table<Vec<u8>, u16> = Table::new();
    assert_eq!(table.try_insert(vec![7], 1), Ok(()));
    assert_eq!(table.try_insert(vec![7], 2), Err(2));
    assert_eq!(table.try_insert(vec![8], 3), Ok(()));
    assert_eq!(table.get(&vec![7]), Some(&1));
    assert_eq!(table.count(), 2);
    assert_eq!(table.key(0), &vec![7]);
    assert_eq!(table.key(1), &vec![8]);
    assert_eq!(table.value(1), &3);
}

#[test]
fn remove_takes_one_key_out() {
    let mut table: Table<Vec<u8>, u16> = Table::new();
    for id in 0..10u8 {
        assert_eq!(table.try_insert(vec![id], u16::from(id) * 10), Ok(()));
    }
    assert_eq!(table.remove(&vec![3]), Some(30));
    assert_eq!(table.remove(&vec![3]), None);
    assert_eq!(table.remove(&vec![0]), Some(0));
    assert_eq!(table.remove(&vec![9]), Some(90));
    assert_eq!(table.count(), 7);
    for id in [1u8, 2, 4, 5, 6, 7, 8] {
        assert_eq!(table.get(&vec![id]), Some(&(u16::from(id) * 10)));
    }
    for id in [0u8, 3, 9] {
        assert!(!table.contains_key(&vec![id]));
    }
}

#[test]
fn values_are_changed_in_place() {
    let mut table: Table<String, u16> = Table::new();
    table.insert("a".to_string(), 1);
    table.insert("b".to_string(), 2);
    *table.get_mut(&"b".to_string()) += 40;
    *table.value_mut(0) += 10;
    assert_eq!(table.get(&"a".to_string()), Some(&11));
    assert_eq!(table.get(&"b".to_string()), Some(&42));
}
