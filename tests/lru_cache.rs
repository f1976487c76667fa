use std::collections::hash_map::RandomState;
use std::collections::HashSet;
use kip_db::error::CacheError;
use kip_db::lru_cache::LruCache;
use kip_db::sharding::{shard_index, ShardingLruCache};

#[test]
fn test_lru_cache() {
    let mut lru = LruCache::new(3).unwrap();
    assert!(lru.is_empty());
    assert_eq!(lru.put(1, 10), None);
    assert_eq!(lru.put(2, 20), None);
    assert_eq!(lru.put(3, 30), None);
    assert_eq!(lru.get(&1), Some(&10));
    assert_eq!(lru.put(2, 200), Some(20));
    assert_eq!(lru.put(4, 40), None);
    assert_eq!(lru.get(&2), Some(&200));
    assert_eq!(lru.get(&3), None);

    assert_eq!(
        lru.get_or_insert(
            9,
            |_| Ok(9)
        ).unwrap(),
        &9
    );

    assert_eq!(lru.len(), 3);
    assert!(!lru.is_empty());

    let mut set = HashSet::from([(&9, &9), (&2, &200), (&4, &40)]);

    for item in lru.iter() {
        assert!(set.remove(&item))
    }
}

#[test]
fn test_sharding_cache() {
    let mut lru = ShardingLruCache::new(4, 2, RandomState::default()).unwrap();
    assert!(lru.is_empty());
    assert_eq!(lru.put(1, 10), None);
    assert_eq!(lru.get(&1), Some(&10));
    assert!(!lru.is_empty());
    assert_eq!(
        lru.get_or_insert(
            9,
            |_| Ok(9)
        ).unwrap(),
        &9
    );
}

#[test]
fn lru_basic_eviction_after_get() {
    let mut lru = LruCache::new(3).unwrap();
    lru.put(1, 10);
    lru.put(2, 20);
    lru.put(3, 30);
    assert_eq!(lru.get(&1), Some(&10));
    assert_eq!(lru.put(4, 40), None);
    assert_eq!(lru.get(&2), None);
    assert_eq!(lru.get(&1), Some(&10));
    assert_eq!(lru.get(&3), Some(&30));
    assert_eq!(lru.get(&4), Some(&40));
}

#[test]
fn lru_in_place_update() {
    let mut lru = LruCache::new(2).unwrap();
    lru.put(1, 10);
    lru.put(2, 20);
    assert_eq!(lru.put(1, 11), Some(10));
    assert_eq!(lru.len(), 2);
    assert_eq!(lru.put(3, 30), None);
    assert_eq!(lru.get(&1), Some(&11));
    assert_eq!(lru.get(&2), None);
}

#[test]
fn lru_get_or_insert_runs_factory_once() {
    let mut lru: LruCache<u32> = LruCache::new(2).unwrap();
    let mut calls = 0;
    assert_eq!(lru.get_or_insert(5, |_| { calls += 1; Ok(50) }), Ok(&50));
    assert_eq!(calls, 1);
    assert_eq!(lru.get_or_insert(5, |_| panic!("factory must not run on a hit")), Ok(&50));
}

#[test]
fn lru_get_or_insert_failure_inserts_nothing() {
    let mut lru: LruCache<u32> = LruCache::new(2).unwrap();
    assert_eq!(lru.get_or_insert(5, |_| Err(CacheError::Factory)), Err(CacheError::Factory));
    assert!(lru.is_empty());
    assert_eq!(lru.get(&5), None);
}

#[test]
fn lru_zero_capacity_refused() {
    assert!(matches!(LruCache::<u32>::new(0), Err(CacheError::CacheSizeOverFlow)));
}

#[test]
fn lru_remove() {
    let mut lru = LruCache::new(2).unwrap();
    lru.put(1, 10);
    lru.put(2, 20);
    assert_eq!(lru.remove(&1), Some(10));
    assert_eq!(lru.remove(&1), None);
    assert_eq!(lru.len(), 1);
    assert_eq!(lru.get(&2), Some(&20));
}

#[test]
fn lru_puts_up_to_capacity_all_present() {
    let mut lru = LruCache::new(4).unwrap();
    lru.put(100, 0);
    lru.put(101, 0);
    lru.put(102, 0);
    for k in [7u64, 8, 7, 9] {
        lru.put(k, k * 2);
    }
    for k in [7u64, 8, 9] {
        assert_eq!(lru.get(&k), Some(&(k * 2)));
    }
}

#[test]
fn lru_overflow_evicts_exactly_the_oldest() {
    let mut lru = LruCache::new(3).unwrap();
    for k in [1u64, 2, 3, 4] {
        lru.put(k, k);
    }
    assert_eq!(lru.len(), 3);
    assert_eq!(lru.get(&1), None);
    assert_eq!(lru.get(&2), Some(&2));
    assert_eq!(lru.get(&3), Some(&3));
    assert_eq!(lru.get(&4), Some(&4));
}

#[test]
fn sharding_alignment() {
    assert!(matches!(
        ShardingLruCache::<u32, RandomState>::new(5, 2, RandomState::default()),
        Err(CacheError::ShardingNotAlign)
    ));
    let cache = ShardingLruCache::<u32, RandomState>::new(4, 2, RandomState::default()).unwrap();
    assert_eq!(cache.sharding_size(), 2);
    assert!(matches!(
        ShardingLruCache::<u32, RandomState>::new(0, 2, RandomState::default()),
        Err(CacheError::CacheSizeOverFlow)
    ));
}

#[test]
fn sharding_shard_capacity_is_a_share() {
    // Two shards of capacity 2: a shard keeps its two most recent keys.
    let mut cache = ShardingLruCache::new(4, 2, RandomState::default()).unwrap();
    for k in 0u64..16 {
        cache.put(k, k);
    }
    let mut present = 0;
    for k in 0u64..16 {
        if cache.get(&k).is_some() {
            present += 1;
        }
    }
    assert!(present <= 4);
    assert_eq!(cache.remove(&15), Some(15));
    assert_eq!(cache.get(&15), None);
}

#[test]
fn shard_index_is_hash_mod_count() {
    assert_eq!(shard_index(10, 4), 2);
    assert_eq!(shard_index(7, 7), 0);
    assert_eq!(shard_index(u64::MAX, 2), 1);
}

#[test]
fn sharding_put_hashed_targets_one_shard() {
    let mut cache = ShardingLruCache::new(2, 2, RandomState::default()).unwrap();
    assert_eq!(cache.put_hashed(3, 1, 10), None);
    assert_eq!(cache.put_hashed(3, 2, 20), None);
    // Shard 1 has capacity 1: the second key evicted the first.
    assert_eq!(cache.put_hashed(3, 2, 21), Some(20));
    assert_eq!(cache.put_hashed(3, 1, 11), None);
}

#[test]
fn sharding_hashed_operations_use_hash_mod_count() {
    let mut cache = ShardingLruCache::new(4, 2, RandomState::default()).unwrap();
    assert_eq!(cache.put_hashed(4, 7, 70), None);
    // Hash 4 and hash 6 both select shard 0; hash 5 selects shard 1.
    assert_eq!(cache.get_hashed(6, &7), Some(&70));
    assert_eq!(cache.get_hashed(5, &7), None);
    assert_eq!(cache.remove_hashed(5, &7), None);
    assert_eq!(cache.get_or_insert_hashed(1, 7, |_| Ok(71)), Ok(&71));
    assert_eq!(cache.remove_hashed(0, &7), Some(70));
    assert_eq!(cache.get_hashed(3, &7), Some(&71));
}

#[test]
fn lru_node_level_operations() {
    let n = kip_db::lru_cache::Node::new(3, "x");
    assert_eq!(n.key, 3);
    assert_eq!(n.value, "x");
    let mut lru = LruCache::new(2).unwrap();
    lru.put(1, 10);
    lru.put(2, 20);
    assert_eq!(lru.get_node(&1).map(|n| (n.key, n.value)), Some((1, 10)));
    // Full: the least recently used entry, key 2, goes.
    lru.expulsion();
    assert_eq!(lru.len(), 1);
    assert_eq!(lru.get(&2), None);
    lru.expulsion();
    assert_eq!(lru.len(), 1);
    let node = lru.get_or_insert_node(4, |_| Ok(40)).unwrap();
    assert_eq!((node.key, node.value), (4, 40));
    let items: Vec<(u64, i32)> = lru.iter().into_iter().map(|(k, v)| (*k, *v)).collect();
    assert_eq!(items, vec![(1, 10), (4, 40)]);
}
