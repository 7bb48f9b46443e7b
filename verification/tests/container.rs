use skiplist::data::Data;
use skiplist::SkipList;

#[test]
fn test_data() {
    let data: Data<u64, &str> = (1, "hello").into();
    assert_eq!(data.render(), "(1, hello)");
    let data: (_, _) = data.into_pair();
    assert_eq!(data, (1, "hello"));
}

#[test]
fn update_value() {
    let mut skiplist = SkipList::new();

    skiplist.insert(1, "value1");
    assert_eq!(skiplist.insert(1, "value2"), Some("value1"));
    assert_eq!(skiplist.get(1), Some(&"value2"));
}

#[test]
fn remove() {
    let mut skiplist = SkipList::new();

    skiplist.insert(1, "value1");
    skiplist.insert(2, "value2");
    skiplist.insert(3, "value3");

    assert_eq!(skiplist.remove(2), Some("value2"));
    assert_eq!(skiplist.get(2), None);
    assert_eq!(skiplist.len(), 2);
}

#[test]
fn remove_non_existent() {
    let mut skiplist = SkipList::new();

    skiplist.insert(1, "value1");
    assert_eq!(skiplist.remove(2), None);
}

#[test]
fn clear() {
    let mut skiplist = SkipList::new();

    skiplist.insert(1, "value1");
    skiplist.insert(2, "value2");
    skiplist.clear();

    assert_eq!(skiplist.len(), 0);
    assert!(skiplist.is_empty());
}

#[test]
fn clone() {
    let mut skiplist = SkipList::new();
    skiplist.insert(1, "value1");
    skiplist.insert(2, "value2");

    let cloned_skiplist = skiplist.clone();

    assert_eq!(cloned_skiplist.get(1), Some(&"value1"));
    assert_eq!(cloned_skiplist.get(2), Some(&"value2"));
    assert_eq!(cloned_skiplist.len(), 2);
}

#[test]
fn display() {
    let mut skiplist = SkipList::new();
    skiplist.insert(1, "value1");
    skiplist.insert(2, "value2");

    assert_eq!(skiplist.render(), "{(1: value1),(2: value2)}");

    skiplist.remove(1);
    assert_eq!(skiplist.render(), "{(2: value2)}");
}

#[test]
fn display_empty() {
    let skiplist: SkipList<&str> = SkipList::new();
    assert_eq!(skiplist.render(), "{}");
}

#[test]
fn display_large_key() {
    let mut skiplist = SkipList::new();
    skiplist.insert(1234567890, "v");
    skiplist.insert(u64::MAX, "w");
    assert_eq!(
        skiplist.render(),
        "{(1234567890: v),(18446744073709551615: w)}"
    );
}

#[test]
fn remove_on_fresh_structure() {
    let mut skiplist: SkipList<&str> = SkipList::new();
    assert_eq!(skiplist.remove(2), None);
    assert_eq!(skiplist.len(), 0);
}

#[test]
fn update_keeps_len() {
    let mut skiplist = SkipList::new();
    skiplist.insert(1, "value1");
    let before = skiplist.len();
    assert_eq!(skiplist.insert(1, "value2"), Some("value1"));
    assert_eq!(skiplist.len(), before);
}

#[test]
fn remove_then_get_and_len() {
    let mut skiplist = SkipList::new();
    skiplist.insert(10, "a");
    skiplist.insert(20, "b");
    skiplist.insert(30, "c");

    assert_eq!(skiplist.remove(20), Some("b"));
    assert_eq!(skiplist.get(20), None);
    assert_eq!(skiplist.len(), 2);

    let untouched = skiplist.len();
    assert_eq!(skiplist.remove(99), None);
    assert_eq!(skiplist.len(), untouched);
    assert_eq!(skiplist.get(10), Some(&"a"));
    assert_eq!(skiplist.get(30), Some(&"c"));
}

#[test]
fn ordering_after_mixed_mutation() {
    let mut skiplist = SkipList::new();
    for k in [41u64, 7, 29, 3, 56, 18, 7, 90, 0, 29] {
        skiplist.insert(k, k);
    }
    skiplist.remove(29);
    skiplist.remove(3);
    skiplist.insert(5, 5);

    let mut it = skiplist.iter();
    let mut previous: Option<u64> = None;
    let mut yields: usize = 0;
    while let Some((k, v)) = it.next() {
        if let Some(p) = previous {
            assert!(p < *k);
        }
        assert_eq!(*k, *v);
        previous = Some(*k);
        yields += 1;
    }
    assert_eq!(yields, skiplist.len());
}

#[test]
fn consuming_round_trip() {
    let mut skiplist = SkipList::new();
    for k in [9u64, 2, 5, 7, 1] {
        skiplist.insert(k, k * 100);
    }

    let mut borrowed: Vec<(u64, u64)> = Vec::new();
    let mut it = skiplist.iter();
    while let Some((k, v)) = it.next() {
        borrowed.push((*k, *v));
    }

    let expected_len = skiplist.len();
    let mut consuming = skiplist.into_iter();
    let mut owned: Vec<(u64, u64)> = Vec::new();
    while let Some(kv) = consuming.next() {
        owned.push(kv);
    }

    assert_eq!(borrowed, owned);
    assert_eq!(owned.len(), expected_len);
    assert_eq!(consuming.next(), None);
}

#[test]
fn clone_does_not_alias() {
    let mut original = SkipList::new();
    original.insert(1, "one");
    original.insert(2, "two");

    let mut copy = original.clone();
    copy.insert(3, "three");
    copy.insert(1, "replaced");

    assert_eq!(original.get(3), None);
    assert_eq!(original.get(1), Some(&"one"));
    assert_eq!(original.len(), 2);
    assert_eq!(copy.get(3), Some(&"three"));
    assert_eq!(copy.get(1), Some(&"replaced"));
    assert_eq!(copy.len(), 3);
}

#[test]
fn get_mut_updates_value() {
    let mut skiplist = SkipList::new();
    skiplist.insert(4, String::from("before"));

    match skiplist.get_mut(4) {
        Some(v) => {
            assert_eq!(v, "before");
            *v = String::from("after");
        }
        None => panic!("key must be present"),
    }
    assert_eq!(skiplist.get(4), Some(&String::from("after")));
    assert_eq!(skiplist.get_mut(5), None);
}

#[test]
fn remove_front_in_order() {
    let mut skiplist = SkipList::new();
    skiplist.insert(3, "c");
    skiplist.insert(1, "a");
    skiplist.insert(2, "b");

    assert_eq!(skiplist.remove_front(), Some((1, "a")));
    assert_eq!(skiplist.remove_front(), Some((2, "b")));
    assert_eq!(skiplist.remove_front(), Some((3, "c")));
    assert_eq!(skiplist.remove_front(), None);
    assert!(skiplist.is_empty());
}

#[test]
fn remove_then_render() {
    let mut skiplist = SkipList::new();
    skiplist.insert(1, "value1");
    skiplist.insert(2, "value2");
    skiplist.insert(3, "value3");

    assert_eq!(skiplist.remove(2), Some("value2"));
    assert_eq!(skiplist.get(2), None);
    assert_eq!(skiplist.len(), 2);
    assert_eq!(skiplist.render(), "{(1: value1),(3: value3)}");
}

#[test]
fn iter_mut_updates_in_place() {
    let mut sl = SkipList::new();
    for i in 0..10u64 {
        let res = sl.insert(i, i.to_string());
        assert!(res.is_none());
    }

    let mut it = sl.iter_mut();
    let mut i: u64 = 0;
    while let Some((k, v)) = it.next() {
        assert_eq!(*k, i);
        assert_eq!(*v, i.to_string());
        *v = (i * 10).to_string();
        i += 1;
    }
    assert_eq!(i, 10);

    let mut it = sl.iter();
    let mut i: u64 = 0;
    while let Some((k, v)) = it.next() {
        assert_eq!(*k, i);
        assert_eq!(*v, (i * 10).to_string());
        i += 1;
    }
    assert_eq!(i, 10);
}
