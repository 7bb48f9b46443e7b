use skiplist::{DefaultGenerator, LevelGenerator, SkipList, MAX_LEVEL};

#[test]
fn default_generator() {
    let mut gen = DefaultGenerator::default();

    for _ in 0..1000000 {
        let level = gen.random_level();
        assert!(0 < level && level <= MAX_LEVEL);
    }
}

#[test]
fn insert_and_get() {
    let mut skiplist = SkipList::new();

    for i in 0..100000u64 {
        skiplist.insert(i, i);
    }
    for i in 0..100000u64 {
        assert_eq!(skiplist.get(i), Some(&i));
    }
}

#[test]
fn bulk_iteration_round_trip() {
    let mut sl = SkipList::new();

    for i in 0..100000u64 {
        let res = sl.insert(i, i.to_string());
        assert!(res.is_none());
    }
    assert_eq!(sl.len(), 100000);

    let mut it = sl.iter();
    let mut i: u64 = 0;
    while let Some((k, v)) = it.next() {
        assert_eq!(*k, i);
        assert_eq!(*v, i.to_string());
        i += 1;
    }
    assert_eq!(i, 100000);

    for i in 0..100000u64 {
        let res = sl.insert(i, (i * 10).to_string());
        assert!(res.is_some_and(|s| s == i.to_string()));
    }
    assert_eq!(sl.len(), 100000);

    let mut consuming = sl.into_iter();
    let mut count: u64 = 0;
    while let Some((k, v)) = consuming.next() {
        assert_eq!(k, count);
        assert_eq!(v, (count * 10).to_string());
        count += 1;
    }
    assert_eq!(count, 100000);
}

#[test]
fn bulk_iter_mut() {
    let mut sl = SkipList::new();
    for i in 0..100000u64 {
        sl.insert(i, i.to_string());
    }

    let mut it = sl.iter_mut();
    let mut i: u64 = 0;
    while let Some((k, v)) = it.next() {
        assert_eq!(*k, i);
        assert_eq!(*v, i.to_string());
        *v = (i * 10).to_string();
        i += 1;
    }

    let mut it = sl.iter();
    let mut i: u64 = 0;
    while let Some((k, v)) = it.next() {
        assert_eq!(*k, i);
        assert_eq!(*v, (i * 10).to_string());
        i += 1;
    }
    assert_eq!(i, 100000);
}
