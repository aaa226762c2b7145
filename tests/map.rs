use inohashmap::hasher::fnv32a_yoshimitsu_hasher;
use inohashmap::BytesRef;
use inohashmap::StringHashMap;

#[test]
fn get_values() {
    let mut hashmap = StringHashMap::<u32>::new();
    hashmap.get_or_create("blub", 1);

    let val: u32 = hashmap.get_values().into_iter().sum();
    assert_eq!(val, 1);
}

#[test]
fn simple() {
    let mut hashmap = StringHashMap::<u32>::new();
    let val = hashmap.get_or_create("blub1", 0);
    assert_eq!(*val, 0);
    *val += 1;

    let val = hashmap.get_or_create("blub2", 2);
    assert_eq!(*val, 2);
}

#[test]
fn get_or_create() {
    let mut hashmap = StringHashMap::<u32>::new();
    let val = hashmap.get_or_create("blub", 0);
    assert_eq!(*val, 0);
    *val += 1;

    let val = hashmap.get_or_create("blub", 0);
    assert_eq!(*val, 1);
}

#[test]
fn test_resize() {
    let mut hashmap = StringHashMap::<u32>::with_power_of_two_size(1);
    hashmap.get_or_create("blub1", 3);
    hashmap.get_or_create("blub2", 4);

    assert_eq!(hashmap.get_or_create("blub1", 3), &3);

    //should resize
    let val = hashmap.get_or_create("blub3", 5);
    assert_eq!(*val, 5);

    // check values after resize
    assert_eq!(hashmap.get_or_create("blub1", 0), &3);
    assert_eq!(hashmap.get_or_create("blub2", 0), &4);
    assert_eq!(hashmap.get_or_create("blub3", 0), &5);
}

#[test]
fn literal_scenario_keeps_written_value() {
    let mut hashmap = StringHashMap::<u32>::new();
    let val = hashmap.get_or_create("blub1", 0);
    assert_eq!(*val, 0);
    *val = 1;
    assert_eq!(*hashmap.get_or_create("blub2", 2), 2);
    assert_eq!(*hashmap.get_or_create("blub1", 0), 1);
}

#[test]
fn lookup_twice_returns_same_stored_value() {
    let mut hashmap = StringHashMap::<u64>::new();
    assert_eq!(*hashmap.get_or_create("key", 7), 7);
    assert_eq!(*hashmap.get_or_create("key", 9), 7);
    *hashmap.get_or_create("key", 0) += 5;
    assert_eq!(*hashmap.get_or_create("key", 0), 12);
    assert_eq!(hashmap.get_values().len(), 1);
}

#[test]
fn duplicates_do_not_add_values() {
    let mut hashmap = StringHashMap::<u32>::with_power_of_two_size(2);
    let keys = ["a", "b", "a", "c", "b", "a", "", "", "dd"];
    for k in keys.iter() {
        *hashmap.get_or_create(k, 0) += 1;
    }
    let values = hashmap.get_values();
    assert_eq!(values.len(), 5);
    assert!(values.len() <= keys.len());
    let mut counts: Vec<u32> = values.into_iter().copied().collect();
    counts.sort();
    assert_eq!(counts, vec![1, 1, 2, 2, 3]);
    assert_eq!(hashmap.occupied, 5);
}

#[test]
fn empty_key_is_a_key() {
    let mut hashmap = StringHashMap::<u32>::new();
    assert_eq!(*hashmap.get_or_create("", 4), 4);
    assert_eq!(*hashmap.get_or_create("", 0), 4);
    assert_eq!(*hashmap.get_or_create("x", 1), 1);
    assert_eq!(hashmap.get_values().len(), 2);
}

#[test]
fn sum_of_counts_equals_token_count() {
    let text = "It is a truth universally acknowledged, that a single man in \
                possession of a good fortune, must be in want of a wife. \
                However little known the feelings or views of such a man may be \
                on his first entering a neighbourhood, this truth is so well fixed \
                in the minds of the surrounding families, that he is considered \
                the rightful property of some one or other of their daughters.";
    let mut map = StringHashMap::<u32>::with_power_of_two_size(1);
    let mut counter = 0;
    for token in text.split_whitespace() {
        let value = map.get_or_create(token, 0);
        *value += 1;
        counter += 1;
    }
    let sum: u32 = map.get_values().into_iter().sum();
    assert_eq!(sum, counter);
    assert_eq!(*map.get_or_create("a", 0), 6);
    assert_eq!(*map.get_or_create("truth", 0), 2);
}

#[test]
fn many_keys_survive_resizes() {
    let mut map = StringHashMap::<usize>::with_power_of_two_size(1);
    for i in 0..2000usize {
        let key = format!("key{}", i);
        assert_eq!(*map.get_or_create(&key, i), i);
    }
    for i in 0..2000usize {
        let key = format!("key{}", i);
        assert_eq!(*map.get_or_create(&key, 0), i);
    }
    assert_eq!(map.get_values().len(), 2000);
    let sum: usize = map.get_values().into_iter().sum();
    assert_eq!(sum, 1999 * 2000 / 2);
}

#[test]
fn long_keys_use_multi_byte_length_prefix() {
    let mut map = StringHashMap::<u32>::new();
    let long_a = "a".repeat(300);
    let long_b = "a".repeat(20000);
    assert_eq!(*map.get_or_create(&long_a, 1), 1);
    assert_eq!(*map.get_or_create(&long_b, 2), 2);
    assert_eq!(*map.get_or_create(&long_a, 0), 1);
    assert_eq!(*map.get_or_create(&long_b, 0), 2);
    assert_eq!(*map.get_or_create("a", 3), 3);
}

#[test]
fn resize_keeps_all_values() {
    let mut map = StringHashMap::<u32>::with_power_of_two_size(3);
    map.get_or_create("one", 1);
    map.get_or_create("two", 2);
    map.resize();
    map.resize();
    assert_eq!(*map.get_or_create("one", 0), 1);
    assert_eq!(*map.get_or_create("two", 0), 2);
    assert_eq!(map.get_values().len(), 2);
}

#[test]
fn hasher_is_fnv1a_with_mixing() {
    // FNV-1a of the empty string is the offset basis 0x811c9dc5.
    let h0: u32 = 0x811c_9dc5;
    let a = h0 ^ (h0 >> 15);
    let b = a.wrapping_mul(0x85eb_ca6b);
    assert_eq!(fnv32a_yoshimitsu_hasher(b""), b ^ (b >> 13));
    // FNV-1a of "a" is 0xe40c292c.
    let h1: u32 = 0xe40c_292c;
    let a = h1 ^ (h1 >> 15);
    let b = a.wrapping_mul(0x85eb_ca6b);
    assert_eq!(fnv32a_yoshimitsu_hasher(b"a"), b ^ (b >> 13));
    assert_ne!(fnv32a_yoshimitsu_hasher(b"a"), fnv32a_yoshimitsu_hasher(b"b"));
}

#[test]
fn bytes_ref_null_and_addr() {
    let r = BytesRef::default();
    assert!(r.is_null());
    assert_eq!(r.addr(), u32::MAX);
}
