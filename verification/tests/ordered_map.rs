use ergibus::ordered_map::OrderedMap;
use std::collections::HashMap;

const TEST_ITEMS_0: &[(&str, (&str, u32))] = &[
    ("aaa", ("AAA", 0)),
    ("bbb", ("BBB", 0)),
    ("ccc", ("CCC", 0)),
    ("ddd", ("DDD", 0)),
    ("eee", ("EEE", 0)),
    ("fff", ("FFF", 0)),
    ("ggg", ("GGG", 0)),
    ("hhh", ("HHH", 0)),
    ("iii", ("III", 0)),
    ("jjj", ("JJJ", 0)),
    ("kkk", ("KKK", 0)),
    ("lll", ("LLL", 0)),
    ("mmm", ("MMM", 0)),
    ("nnn", ("NNN", 0)),
    ("ooo", ("OOO", 0)),
    ("ppp", ("PPP", 0)),
    ("qqq", ("QQQ", 0)),
    ("rrr", ("RRR", 0)),
    ("sss", ("SSS", 0)),
];

const TEST_ITEMS_1: &[(&str, (&str, u32))] = &[
    ("bbb", ("BBB", 1)),
    ("ddd", ("DDD", 1)),
    ("fff", ("FFF", 1)),
    ("hhh", ("HHH", 1)),
    ("jjj", ("JJJ", 1)),
    ("lll", ("LLL", 1)),
    ("nnn", ("NNN", 1)),
    ("ppp", ("PPP", 1)),
    ("rrr", ("RRR", 1)),
];

#[test]
fn map_default_works() {
    let map = OrderedMap::<u32, u32>::default();
    assert_eq!(map.len(), 0);
    assert!(map.is_empty());
}

#[test]
fn contains_key() {
    let map = OrderedMap::<String, u32>::default();
    let anything = "anything".to_string();
    assert!(!map.contains_key(&anything));
    assert!(!map.contains_key(&"whatever".to_string()));
}

#[test]
fn map_basic_functionality() {
    let mut map = OrderedMap::<&str, (&str, u32)>::default();
    for (key, value) in TEST_ITEMS_0.iter() {
        assert!(map.insert(*key, *value).is_none());
        assert!(map.is_valid());
        assert_eq!(map.get(key), Some(value));
        assert_eq!(map.insert(*key, *value), Some(*value));
        assert!(map.is_valid());
    }
    let mut hash_map = HashMap::<&str, (&str, u32)>::new();
    for (key, value) in TEST_ITEMS_0.iter() {
        assert!(hash_map.insert(key, *value).is_none());
    }
    for (key, value) in TEST_ITEMS_1.iter() {
        if let Some(old_value) = hash_map.get(key) {
            assert_eq!(map.insert(*key, *value), Some(*old_value));
            assert!(map.is_valid());
            assert_eq!(map.get(key), Some(value));
        } else {
            assert!(false);
        }
    }
}

#[test]
fn map_keys_come_out_in_order() {
    let mut map = OrderedMap::<u32, &str>::default();
    assert!(map.insert(30, "thirty").is_none());
    assert!(map.insert(10, "ten").is_none());
    assert!(map.insert(20, "twenty").is_none());
    assert_eq!(map.keys(), &[10, 20, 30]);
    let mut values = map.values();
    assert_eq!(values.next(), Some(&"ten"));
    assert_eq!(values.next(), Some(&"twenty"));
    assert_eq!(values.next(), Some(&"thirty"));
    assert_eq!(values.next(), None);
    assert_eq!(map.len(), 3);
    assert!(!map.is_empty());
    assert!(map.contains_key(&20));
    assert!(!map.contains_key(&25));
}

#[test]
fn map_read_after_write() {
    let mut map = OrderedMap::<u32, u32>::default();
    assert_eq!(map.insert(5, 50), None);
    assert_eq!(map.insert(5, 55), Some(50));
    assert_eq!(map.get(&5), Some(&55));
    assert_eq!(map.get(&6), None);
    assert_eq!(map.len(), 1);
}

#[test]
fn map_get_mut_changes_value() {
    let mut map = OrderedMap::<u32, u32>::default();
    map.insert(1, 10);
    map.insert(2, 20);
    if let Some(v) = map.get_mut(&2) {
        *v = 21;
    }
    assert!(map.get_mut(&3).is_none());
    assert_eq!(map.get(&2), Some(&21));
    assert_eq!(map.get(&1), Some(&10));
    assert!(map.is_valid());
}
