use shardmap::keys::{FNV_OFFSET, FNV_PRIME};
use shardmap::selector::{next_pow_of_two, MAX_SHARDS};
use shardmap::{route_key, shard_count, FnvHasher, IdentityHasher, KeyHasher, ShardKey, ShardMap};

#[test]
fn scenario_insert_get_remove() {
    let mut map: ShardMap<String, String> = ShardMap::new();
    assert_eq!(map.insert(String::from("foo"), String::from("bar")), None);
    assert_eq!(map.len(), 1);
    assert!(map.contains_key(&String::from("foo")));
    assert!(!map.contains_key(&String::from("bar")));
    assert_eq!(map.get(&String::from("foo")).unwrap().value(), "bar");
    assert_eq!(map.remove(&String::from("foo")), Some(String::from("bar")));
    assert_eq!(map.len(), 0);
    assert!(map.get(&String::from("foo")).is_none());
}

#[test]
fn single_shard_holds_all_keys() {
    let mut map: ShardMap<u64, u64> = ShardMap::with_shards(1);
    for k in 0..100u64 {
        assert_eq!(map.insert(k, k * 2), None);
    }
    assert_eq!(map.len(), 100);
    for k in 0..100u64 {
        assert_eq!(map.get(&k).map(|r| *r.value()), Some(k * 2));
        assert!(map.contains_key(&k));
    }
}

#[test]
fn insert_same_key_replaces() {
    let mut map: ShardMap<u64, u64> = ShardMap::new();
    assert_eq!(map.insert(7, 1), None);
    assert_eq!(map.len(), 1);
    assert_eq!(map.insert(7, 2), Some(1));
    assert_eq!(map.len(), 1);
    assert_eq!(map.get(&7).map(|r| *r.value()), Some(2));
    assert_eq!(map.insert(7, 3), Some(2));
    assert_eq!(map.len(), 1);
}

#[test]
fn round_trip_insert_get_remove_get() {
    let mut map: ShardMap<String, u64> = ShardMap::new();
    assert_eq!(map.insert(String::from("k"), 41), None);
    assert_eq!(map.get(&String::from("k")).map(|r| *r.value()), Some(41));
    assert_eq!(map.remove(&String::from("k")), Some(41));
    assert!(map.get(&String::from("k")).is_none());
    assert_eq!(map.remove(&String::from("k")), None);
}

#[test]
fn counter_matches_distinct_keys() {
    let mut map: ShardMap<u64, u64> = ShardMap::with_shards(8);
    assert_eq!(map.len(), 0);
    assert!(map.is_empty());
    for k in 0..50u64 {
        map.insert(k, 0);
    }
    for k in 0..25u64 {
        map.insert(k, 1);
    }
    assert_eq!(map.len(), 50);
    for k in 0..10u64 {
        assert_eq!(map.remove(&k), Some(1));
    }
    assert_eq!(map.len(), 40);
    assert_eq!(map.remove(&1000), None);
    assert_eq!(map.len(), 40);
    assert!(!map.is_empty());
}

#[test]
fn clear_is_idempotent_and_empties() {
    let mut map: ShardMap<String, String> = ShardMap::new();
    map.clear();
    assert_eq!(map.len(), 0);
    map.insert(String::from("a"), String::from("1"));
    map.insert(String::from("b"), String::from("2"));
    map.insert(String::from("c"), String::from("3"));
    map.clear();
    assert_eq!(map.len(), 0);
    assert!(map.get(&String::from("a")).is_none());
    assert!(map.get(&String::from("b")).is_none());
    assert!(map.get(&String::from("c")).is_none());
    map.clear();
    assert_eq!(map.len(), 0);
    assert_eq!(map.insert(String::from("a"), String::from("4")), None);
    assert_eq!(map.get(&String::from("a")).unwrap().value(), "4");
}

#[test]
fn get_mut_changes_value_in_place() {
    let mut map: ShardMap<u64, u64> = ShardMap::new();
    map.insert(7, 1);
    if let Some(v) = map.get_mut(&7) {
        *v = 99;
    }
    assert_eq!(map.get(&7).map(|r| *r.value()), Some(99));
    assert_eq!(map.len(), 1);
    assert!(map.get_mut(&5).is_none());
}

#[test]
fn map_ref_exposes_key_and_value() {
    let mut map: ShardMap<String, u64> = ShardMap::new();
    map.insert(String::from("pi"), 314);
    let r = map.get(&String::from("pi")).unwrap();
    assert_eq!(r.key(), "pi");
    assert_eq!(*r.value(), 314);
    drop(r);
    map.insert(String::from("e"), 271);
    assert_eq!(map.len(), 2);
}

#[test]
fn controlled_hashes_route_to_chosen_shards() {
    // With the identity hasher the shard index is the key modulo the
    // shard count, so these keys' shards are known by construction.
    let mut map: ShardMap<u64, u64, IdentityHasher> =
        ShardMap::with_shards_and_hasher(4, IdentityHasher);
    for k in 0..4u64 {
        assert_eq!(map.insert(k, k + 10), None);
    }
    assert_eq!(map.len(), 4);
    for k in 0..4u64 {
        assert_eq!(map.get(&k).map(|r| *r.value()), Some(k + 10));
    }
    // 5 and 13 land in the same shard (both are 1 modulo 4); neither
    // disturbs the other.
    assert_eq!(map.insert(5, 50), None);
    assert_eq!(map.insert(13, 130), None);
    assert_eq!(map.get(&5).map(|r| *r.value()), Some(50));
    assert_eq!(map.get(&13).map(|r| *r.value()), Some(130));
    assert_eq!(map.get(&1).map(|r| *r.value()), Some(11));
    assert_eq!(map.len(), 6);
}

#[test]
fn capacity_constructors_work() {
    let mut a: ShardMap<u64, u64> = ShardMap::with_capacity(100);
    assert_eq!(a.insert(1, 2), None);
    assert_eq!(a.get(&1).map(|r| *r.value()), Some(2));

    let mut b: ShardMap<u64, u64> = ShardMap::with_shards_and_capacity(8, 64);
    assert_eq!(b.insert(3, 4), None);
    assert_eq!(b.len(), 1);

    let mut c: ShardMap<String, u64> = ShardMap::with_hasher(FnvHasher);
    assert_eq!(c.insert(String::from("x"), 1), None);
    assert!(c.contains_key(&String::from("x")));

    let mut d: ShardMap<String, u64> = ShardMap::with_capacity_and_hasher(10, FnvHasher);
    assert_eq!(d.insert(String::from("y"), 2), None);
    assert_eq!(d.len(), 1);

    let mut e: ShardMap<u64, u64, IdentityHasher> =
        ShardMap::with_shards_and_capacity_and_hasher(2, 10, IdentityHasher);
    assert_eq!(e.insert(9, 9), None);
    assert_eq!(e.remove(&9), Some(9));
}

#[test]
fn route_key_is_hash_mod_count() {
    assert_eq!(route_key(13, 4), 1);
    assert_eq!(route_key(0, 1), 0);
    assert_eq!(route_key(u64::MAX, 8), 7);
    assert_eq!(route_key(0x1234_5678_9abc_def0, 16), 0);
    for h in 0..64u64 {
        assert_eq!(route_key(h, 8), (h % 8) as usize);
    }
}

#[test]
fn next_pow_of_two_rounds_up() {
    assert_eq!(next_pow_of_two(0), 1);
    assert_eq!(next_pow_of_two(1), 1);
    assert_eq!(next_pow_of_two(2), 2);
    assert_eq!(next_pow_of_two(3), 4);
    assert_eq!(next_pow_of_two(16), 16);
    assert_eq!(next_pow_of_two(17), 32);
    assert_eq!(next_pow_of_two(MAX_SHARDS), MAX_SHARDS);
}

#[test]
fn shard_count_is_four_times_parallelism_rounded() {
    assert_eq!(shard_count(0), 4);
    assert_eq!(shard_count(1), 4);
    assert_eq!(shard_count(2), 8);
    assert_eq!(shard_count(3), 16);
    assert_eq!(shard_count(8), 32);
}

#[test]
fn fnv_string_hash_matches_reference_vectors() {
    // 64-bit FNV-1a reference values for ASCII inputs.
    assert_eq!(FnvHasher.hash_key(&String::from("")), FNV_OFFSET);
    assert_eq!(FnvHasher.hash_key(&String::from("a")), 0xaf63dc4c8601ec8c);
    assert_eq!(
        FnvHasher.hash_key(&String::from("a")),
        (FNV_OFFSET ^ 0x61).wrapping_mul(FNV_PRIME)
    );
    assert_eq!(FnvHasher.hash_key(&String::from("foobar")), 0x85944171f73967e8);
}

#[test]
fn hashers_are_deterministic() {
    let s = String::from("some key");
    assert_eq!(FnvHasher.hash_key(&s), FnvHasher.hash_key(&s.clone()));
    let k: u64 = 0xdead_beef;
    assert_eq!(FnvHasher.hash_key(&k), FnvHasher.hash_key(&k));
    assert_ne!(FnvHasher.hash_key(&0u64), FnvHasher.hash_key(&1u64));
    assert_eq!(IdentityHasher.hash_key(&42u64), 42);
}

#[test]
fn key_eq_follows_contents() {
    assert!(String::from("abc").key_eq(&String::from("abc")));
    assert!(!String::from("abc").key_eq(&String::from("abd")));
    assert!(7u64.key_eq(&7u64));
    assert!(!7u64.key_eq(&8u64));
    assert!(3usize.key_eq(&3usize));
}
