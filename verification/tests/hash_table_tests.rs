use flcd::hash_table::MyHashMap;

fn before_each() -> MyHashMap<String> {
    let mut my_map = MyHashMap::new(16);

    my_map.insert("a".to_owned()).expect("");
    my_map.insert("b".to_owned()).expect("");
    my_map.insert("c".to_owned()).expect("");

    my_map
}

#[test]
fn test_get() {
    let my_map = before_each();

    assert!(my_map.get(&"a".to_owned()).is_some());
    assert!(my_map.get(&"b".to_owned()).is_some());
    assert!(my_map.get(&"c".to_owned()).is_some());
    assert!(my_map.get(&"d".to_owned()).is_none());

    let val = my_map.get(&"a".to_owned()).expect("");
    assert_eq!(my_map.get_by_position(&val).unwrap(), "a");
}

#[test]
fn test_insert() {
    let mut my_map = before_each();

    my_map.insert("d".to_owned()).expect("");
    assert!(my_map.get(&"d".to_owned()).is_some());
    assert!(my_map.get(&"e".to_owned()).is_none());
}

#[test]
fn test_delete() {
    let mut my_map = before_each();

    my_map.delete(&"c".to_owned()).expect("");
    assert!(my_map.get(&"c".to_owned()).is_none());
}

#[test]
fn find_is_deterministic_and_roundtrips() {
    let mut my_map: MyHashMap<String> = MyHashMap::new(8);
    let pos = my_map.insert("key".to_owned()).expect("fresh insert succeeds");
    assert_eq!(my_map.get(&"key".to_owned()), Some(pos));
    assert_eq!(my_map.get(&"key".to_owned()), Some(pos));
    assert_eq!(my_map.get_by_position(&pos).unwrap(), "key");
}

#[test]
fn duplicate_insert_fails_and_does_not_mutate() {
    let mut my_map: MyHashMap<String> = MyHashMap::new(8);
    let pos = my_map.insert("key".to_owned()).expect("fresh insert succeeds");
    assert_eq!(my_map.insert("key".to_owned()), Err(()));
    assert_eq!(my_map.get(&"key".to_owned()), Some(pos));
    assert_eq!(my_map.get_by_position(&pos).unwrap(), "key");
}

#[test]
fn positions_stay_while_other_keys_arrive() {
    let mut my_map: MyHashMap<String> = MyHashMap::new(4);
    let pa = my_map.insert("alpha".to_owned()).unwrap();
    let pb = my_map.insert("beta".to_owned()).unwrap();
    let pc = my_map.insert("gamma".to_owned()).unwrap();
    let pd = my_map.insert("delta".to_owned()).unwrap();
    assert_eq!(my_map.get(&"alpha".to_owned()), Some(pa));
    assert_eq!(my_map.get(&"beta".to_owned()), Some(pb));
    assert_eq!(my_map.get(&"gamma".to_owned()), Some(pc));
    assert_eq!(my_map.get(&"delta".to_owned()), Some(pd));
}

#[test]
fn int_keys_work() {
    let mut my_map: MyHashMap<i32> = MyHashMap::new(8);
    let p = my_map.insert(-7).unwrap();
    assert_eq!(my_map.get(&-7), Some(p));
    assert_eq!(my_map.get_by_position(&p), Some(&-7));
    assert!(my_map.get(&7).is_none());
}

#[test]
fn delete_missing_key_fails() {
    let mut my_map: MyHashMap<i32> = MyHashMap::new(8);
    my_map.insert(1).unwrap();
    assert_eq!(my_map.delete(&2), Err(()));
    assert!(my_map.get(&1).is_some());
}
