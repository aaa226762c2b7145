use inohashmap::BitSet;
use inohashmap::TinySet;

#[test]
fn bitset_scenario() {
    let mut set = BitSet::with_max_value(128);
    for el in [0u32, 63, 64, 127] {
        set.insert(el);
    }
    assert_eq!(set.len(), 4);
    assert!(set.contains(64));
    assert!(!set.contains(65));
    assert_eq!(set.iter(), vec![0, 63, 64, 127]);
    set.clear();
    assert_eq!(set.len(), 0);
    for el in 0..128u32 {
        assert!(!set.contains(el));
    }
    assert_eq!(set.max_value(), 128);
    assert_eq!(set.iter(), Vec::<u32>::new());
}

#[test]
fn bitset_insert_is_idempotent() {
    let mut set = BitSet::with_max_value(100);
    set.insert(5);
    set.insert(5);
    set.insert(99);
    assert_eq!(set.len(), 2);
    assert_eq!(set.iter(), vec![5, 99]);
}

#[test]
fn bitset_partial_last_bucket() {
    let mut set = BitSet::with_max_value(65);
    set.insert(64);
    assert!(set.contains(64));
    assert!(!set.contains(0));
    assert_eq!(set.iter(), vec![64]);
    let empty = BitSet::with_max_value(0);
    assert_eq!(empty.len(), 0);
    assert_eq!(empty.iter(), Vec::<u32>::new());
}

#[test]
fn bitset_iter_is_ascending() {
    let mut set = BitSet::with_max_value(1000);
    for el in [999u32, 3, 500, 64, 65, 1, 128] {
        set.insert(el);
    }
    assert_eq!(set.iter(), vec![1, 3, 64, 65, 128, 500, 999]);
    assert_eq!(set.len(), 7);
}

#[test]
fn word_range_lower_and_complement() {
    let low = TinySet::range_lower(5);
    let high = TinySet::range_greater_or_equal(5);
    for el in 0..64u32 {
        assert_eq!(low.contains(el), el < 5);
        assert_eq!(high.contains(el), el >= 5);
    }
    assert_eq!(low.len(), 5);
    assert_eq!(high.len(), 59);
    assert!(low.intersect(high).is_empty());
    assert_eq!(low.union(high).len(), 64);
    assert_eq!(TinySet::range_lower(64).len(), 0);
    assert_eq!(TinySet::range_greater_or_equal(0).len(), 64);
}

#[test]
fn word_algebra() {
    let a = TinySet::empty().insert(1).insert(10).insert(63);
    let b = TinySet::singleton(10).insert(20);
    assert_eq!(a.len(), 3);
    assert!(a.contains(63));
    assert!(!a.contains(62));
    let i = a.intersect(b);
    assert_eq!(i.len(), 1);
    assert!(i.contains(10));
    let u = a.union(b);
    assert_eq!(u.len(), 4);
    assert!(TinySet::empty().is_empty());
    assert!(!a.is_empty());
}

#[test]
fn word_insert_mut_and_pop_lowest() {
    let mut t = TinySet::empty();
    assert!(t.insert_mut(7));
    assert!(!t.insert_mut(7));
    assert!(t.insert_mut(0));
    assert!(t.insert_mut(63));
    assert_eq!(t.pop_lowest(), Some(0));
    assert_eq!(t.pop_lowest(), Some(7));
    assert_eq!(t.pop_lowest(), Some(63));
    assert_eq!(t.pop_lowest(), None);
    let mut c = TinySet::singleton(3);
    c.clear();
    assert!(c.is_empty());
}

#[test]
fn word_iterator_ascending() {
    let t = TinySet::empty().insert(40).insert(2).insert(17);
    let mut it = t.into_iter();
    let mut out = Vec::new();
    while let Some(el) = it.next() {
        out.push(el);
    }
    assert_eq!(out, vec![2, 17, 40]);
}
