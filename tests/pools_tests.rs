use rust_aggregator::pools::{fetch_limit, progress_due, CacheStats, PoolManager};
use rust_aggregator::router::Router;
use rust_aggregator::types::{Address, AggregatorError, OptimizationStrategy, PoolInfo};
use rust_aggregator::U256;

fn t(v: u64) -> Address {
    Address::from_low_u64_be(v)
}

fn pool(addr: u64, t0: u64, t1: u64, dex: &str) -> PoolInfo {
    PoolInfo::from_pair(
        t(addr),
        t(t0),
        t(t1),
        U256::from_u128(100_000_000_000_000_000_000),
        U256::from_u128(200_000_000_000_000_000_000),
        dex.to_string(),
        7,
    )
}

#[test]
fn test_cache_stats() {
    let manager = PoolManager::new();
    let stats = manager.get_cache_stats();
    assert_eq!(stats.total_pools, 0);
}

#[test]
fn insert_get_and_replace() {
    let mut cache = PoolManager::new();
    cache.insert(pool(100, 1, 2, "Uniswap"));
    cache.insert(pool(101, 2, 3, "SushiSwap"));
    assert_eq!(cache.get_pool(&t(100)).unwrap().token1, t(2));
    assert!(cache.get_pool(&t(999)).is_none());
    let mut newer = pool(100, 1, 2, "Uniswap");
    newer.last_updated = 8;
    cache.insert(newer);
    assert_eq!(cache.get_pool(&t(100)).unwrap().last_updated, 8);
    assert_eq!(cache.get_all_pools().len(), 2);
    assert_eq!(pool(1, 2, 3, "x").fee_bps, 30);
}

#[test]
fn filtered_views() {
    let mut cache = PoolManager::new();
    cache.insert(pool(100, 1, 2, "Uniswap"));
    cache.insert(pool(101, 2, 3, "Uniswap"));
    cache.insert(pool(102, 3, 1, "SushiSwap"));
    assert_eq!(cache.get_pools_with_token(&t(2)).len(), 2);
    let pair = cache.get_pools_for_pair(&t(1), &t(3));
    assert_eq!(pair.len(), 1);
    assert_eq!(pair[0].address, t(102));
    assert!(cache.get_pools_for_pair(&t(1), &t(9)).is_empty());
}

#[test]
fn stats_count_by_exchange() {
    let mut cache = PoolManager::new();
    cache.insert(pool(100, 1, 2, "Uniswap"));
    cache.insert(pool(101, 2, 3, "Uniswap"));
    cache.insert(pool(102, 3, 1, "SushiSwap"));
    let stats = cache.get_cache_stats();
    assert_eq!(stats.total_pools, 3);
    let mut counts = stats.dex_counts.clone();
    counts.sort();
    assert_eq!(counts, vec![("SushiSwap".to_string(), 1), ("Uniswap".to_string(), 2)]);
    let listed = CacheStats::of_pools(&vec![pool(1, 1, 2, "A"), pool(2, 1, 2, "A")]);
    assert_eq!(listed.dex_counts, vec![("A".to_string(), 2)]);
}

#[test]
fn snapshot_round_trip() {
    let mut cache = PoolManager::new();
    cache.insert(pool(100, 1, 2, "Uniswap"));
    cache.insert(pool(101, 2, 3, "SushiSwap"));
    let snap = cache.export_snapshot(1_700_000_000);
    assert_eq!(snap.timestamp, 1_700_000_000);
    assert_eq!(snap.pools.len(), 2);

    let mut restored = PoolManager::new();
    assert_eq!(restored.import_snapshot(&snap).unwrap(), 2);
    let mut a: Vec<u64> = cache.get_all_pools().iter().map(|p| p.last_updated + p.address.bytes[19] as u64).collect();
    let mut b: Vec<u64> = restored.get_all_pools().iter().map(|p| p.last_updated + p.address.bytes[19] as u64).collect();
    a.sort();
    b.sort();
    assert_eq!(a, b);
    assert_eq!(restored.get_pool(&t(101)).unwrap().dex_name, "SushiSwap");
}

#[test]
fn import_refuses_bad_fee_and_clear_empties() {
    let mut cache = PoolManager::new();
    let mut bad = pool(100, 1, 2, "Uniswap");
    bad.fee_bps = 10000;
    let snap = rust_aggregator::CacheSnapshot { pools: vec![pool(101, 1, 2, "Uniswap"), bad], timestamp: 0 };
    assert!(matches!(cache.import_snapshot(&snap), Err(AggregatorError::CacheError(_))));
    assert!(cache.get_all_pools().is_empty());
    cache.insert(pool(101, 1, 2, "Uniswap"));
    cache.clear();
    assert!(cache.get_all_pools().is_empty());
}

#[test]
fn quoting_an_empty_cache_is_pool_not_found() {
    let cache = PoolManager::new();
    let router = Router::new(OptimizationStrategy::Price, 3);
    let r = cache.quote_routes(&router, t(1), t(2), U256::from_u64(1000));
    assert!(matches!(r, Err(AggregatorError::PoolNotFound(_))));
    let mut cache = PoolManager::new();
    cache.insert(pool(100, 1, 2, "Uniswap"));
    let quotes = cache.quote_routes(&router, t(1), t(2), U256::from_u128(1_000_000_000_000_000_000)).unwrap();
    assert_eq!(quotes[0].amount_out, U256::from_u128(1_974_316_068_794_122_597));
}

#[test]
fn fetch_limits_and_progress() {
    assert_eq!(fetch_limit(Some(5), U256::from_u64(100)), 5);
    assert_eq!(fetch_limit(Some(500), U256::from_u64(100)), 100);
    assert_eq!(fetch_limit(None, U256::from_u64(42)), 42);
    assert!(progress_due(9));
    assert!(!progress_due(10));
}
