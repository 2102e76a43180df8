use maillog_scan::keyed::KeyedList;

#[test]
fn new_list_is_empty() {
    let list: KeyedList<u32> = KeyedList::new();
    assert_eq!(list.len(), 0);
    assert_eq!(list.position(&"a".to_string()), None);
}

#[test]
fn put_appends_new_keys_in_order() {
    let mut list: KeyedList<u32> = KeyedList::new();
    list.put("b".to_string(), 2);
    list.put("a".to_string(), 1);
    list.put("".to_string(), 0);
    assert_eq!(list.len(), 3);
    assert_eq!(list.position(&"b".to_string()), Some(0));
    assert_eq!(list.position(&"a".to_string()), Some(1));
    assert_eq!(list.position(&"".to_string()), Some(2));
    assert_eq!(list.position(&"c".to_string()), None);
    assert_eq!(list.key_at(1), "a");
    assert_eq!(*list.value_at(1), 1);
}

#[test]
fn put_replaces_the_value_of_a_known_key() {
    let mut list: KeyedList<u32> = KeyedList::new();
    list.put("b".to_string(), 2);
    list.put("a".to_string(), 1);
    list.put("b".to_string(), 7);
    assert_eq!(list.len(), 2);
    assert_eq!(list.position(&"b".to_string()), Some(0));
    assert_eq!(*list.value_at(0), 7);
    assert_eq!(*list.value_at(1), 1);
}
