use ngram::multimap::{ConcurrentMultiMap, ShardKey, ShardValue};
use std::collections::hash_map::DefaultHasher;
use std::hash::{Hash, Hasher};

fn key(s: &str) -> String {
    s.to_string()
}

#[test]
fn a_new_map_holds_nothing() {
    let map: ConcurrentMultiMap<String, usize> = ConcurrentMultiMap::new(4);
    assert_eq!(map.get(&key("a")), Vec::<usize>::new());
    assert_eq!(map.get(&key("")), Vec::<usize>::new());
}

#[test]
fn a_pair_inserted_twice_is_held_once() {
    let mut map: ConcurrentMultiMap<String, usize> = ConcurrentMultiMap::new(8);
    map.set(key("word"), 3);
    map.set(key("word"), 3);
    assert_eq!(map.get(&key("word")), vec![3]);
}

#[test]
fn values_come_out_in_the_order_of_first_insertion() {
    let mut map: ConcurrentMultiMap<String, usize> = ConcurrentMultiMap::new(8);
    for v in [5usize, 2, 9, 2, 5, 7] {
        map.set(key("k"), v);
    }
    assert_eq!(map.get(&key("k")), vec![5, 2, 9, 7]);
}

#[test]
fn keys_do_not_see_each_other() {
    let mut map: ConcurrentMultiMap<String, usize> = ConcurrentMultiMap::new(3);
    for (i, k) in ["a", "b", "c", "d", "e", "f", "g", "h"].iter().enumerate() {
        map.set(key(k), i);
        map.set(key(k), i + 100);
    }
    for (i, k) in ["a", "b", "c", "d", "e", "f", "g", "h"].iter().enumerate() {
        assert_eq!(map.get(&key(k)), vec![i, i + 100]);
    }
    assert_eq!(map.get(&key("z")), Vec::<usize>::new());
}

#[test]
fn one_shard_holds_every_key() {
    let mut map: ConcurrentMultiMap<String, usize> = ConcurrentMultiMap::new(1);
    map.set(key("x"), 1);
    map.set(key("y"), 2);
    map.set(key("x"), 3);
    assert_eq!(map.get(&key("x")), vec![1, 3]);
    assert_eq!(map.get(&key("y")), vec![2]);
}

#[test]
fn the_same_value_under_two_keys_is_held_under_both() {
    let mut map: ConcurrentMultiMap<String, usize> = ConcurrentMultiMap::new(16);
    map.set(key("left"), 1);
    map.set(key("right"), 1);
    assert_eq!(map.get(&key("left")), vec![1]);
    assert_eq!(map.get(&key("right")), vec![1]);
}

#[test]
fn a_string_key_is_hashed_as_the_default_hasher_does() {
    for s in ["", "a", "hello", "The Quick Fox", "\u{4e16}\u{754c}"] {
        let mut hasher = DefaultHasher::new();
        s.to_string().hash(&mut hasher);
        assert_eq!(key(s).hash_code(), hasher.finish());
    }
    assert_ne!(key("a").hash_code(), key("b").hash_code());
}

#[test]
fn string_keys_compare_by_their_characters() {
    assert!(key("abc").same_key(&key("abc")));
    assert!(!key("abc").same_key(&key("abd")));
    assert!(!key("abc").same_key(&key("ab")));
}

#[test]
fn identifiers_compare_and_copy_by_value() {
    assert!(4usize.same_value(&4));
    assert!(!4usize.same_value(&5));
    assert_eq!(17usize.duplicate(), 17);
}

#[test]
fn insertions_under_different_keys_commute() {
    let mut one: ConcurrentMultiMap<String, usize> = ConcurrentMultiMap::new(2);
    let mut other: ConcurrentMultiMap<String, usize> = ConcurrentMultiMap::new(2);
    one.set(key("a"), 1);
    one.set(key("b"), 2);
    other.set(key("b"), 2);
    other.set(key("a"), 1);
    for k in ["a", "b", "c"] {
        assert_eq!(one.get(&key(k)), other.get(&key(k)));
    }
}
