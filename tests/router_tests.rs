use rust_aggregator::router::Router;
use rust_aggregator::types::{Address, AggregatorError, OptimizationStrategy, PoolInfo};
use rust_aggregator::U256;

const E18: u128 = 1_000_000_000_000_000_000;

fn pool(addr: u64, t0: u64, t1: u64, r0: u128, r1: u128) -> PoolInfo {
    PoolInfo {
        address: Address::from_low_u64_be(addr),
        token0: Address::from_low_u64_be(t0),
        token1: Address::from_low_u64_be(t1),
        reserve0: U256::from_u128(r0),
        reserve1: U256::from_u128(r1),
        fee_bps: 30,
        dex_name: "TestDEX".to_string(),
        last_updated: 0,
    }
}

fn create_test_pools() -> Vec<PoolInfo> {
    vec![
        pool(100, 1, 2, 100 * E18, 200 * E18),
        pool(101, 2, 3, 200 * E18, 300 * E18),
    ]
}

fn t(v: u64) -> Address {
    Address::from_low_u64_be(v)
}

#[test]
fn test_build_adjacency_map() {
    let pools = create_test_pools();
    let router = Router::new(OptimizationStrategy::Price, 3);
    let adjacency = router.build_adjacency_map(&pools);

    assert!(adjacency.contains_key(&Address::from_low_u64_be(1)));
    assert!(adjacency.contains_key(&Address::from_low_u64_be(2)));
    assert!(adjacency.contains_key(&Address::from_low_u64_be(3)));
}

#[test]
fn test_find_all_routes() {
    let pools = create_test_pools();
    let router = Router::new(OptimizationStrategy::Price, 3);

    let routes = router
        .find_all_routes(&pools, Address::from_low_u64_be(1), Address::from_low_u64_be(3))
        .unwrap();

    assert!(!routes.is_empty());
}

#[test]
fn max_hops_is_capped() {
    assert_eq!(Router::new(OptimizationStrategy::Gas, 10).max_hops, 4);
    assert_eq!(Router::new(OptimizationStrategy::Gas, 2).max_hops, 2);
}

#[test]
fn two_hop_route_quote() {
    let pools = vec![pool(100, 1, 2, 100 * E18, 200 * E18), pool(101, 2, 3, 100 * E18, 200 * E18)];
    let router = Router::new(OptimizationStrategy::Balanced, 3);
    let quotes = router.quote_routes(&pools, t(1), t(3), U256::from_u128(E18)).unwrap();
    assert_eq!(quotes.len(), 1);
    let q = &quotes[0];
    assert_eq!(q.hops.len(), 2);
    assert_eq!(q.hops[0].amount_out, q.hops[1].amount_in);
    assert_eq!(q.hops[0].token_out, t(2));
    assert_eq!(q.amount_out, U256::from_u128(3_860_790_702_585_496_463));
    assert_eq!(q.total_fee, U256::from_u128(3_000_000_000_000_000 + 5_922_948_206_382_367));
    assert_eq!(q.gas_estimate, U256::from_u64(200_000));
    assert_eq!(q.price_impact_bps, 20);
    let expected = format!("{} → {} → {}", t(1).to_hex(), t(2).to_hex(), t(3).to_hex());
    assert_eq!(q.description, expected);
    assert_eq!(q.route_path(), expected);
    assert!(q.hops.iter().all(|h| h.token_out != t(1)));
}

#[test]
fn zero_reserve_pool_is_excluded() {
    let pools = vec![
        pool(100, 1, 2, 100 * E18, 200 * E18),
        pool(101, 2, 3, 100 * E18, 200 * E18),
        pool(102, 1, 3, 0, 200 * E18),
    ];
    let router = Router::new(OptimizationStrategy::Price, 3);
    let adjacency = router.build_adjacency_map(&pools);
    assert_eq!(adjacency.get(&t(1)).len(), 1);
    let quotes = router.quote_routes(&pools, t(1), t(3), U256::from_u128(E18)).unwrap();
    assert_eq!(quotes.len(), 1);
    assert_eq!(quotes[0].hops.len(), 2);
    assert!(quotes[0].hops.iter().all(|h| h.pool != t(102)));
}

#[test]
fn bfs_paths_are_simple_and_bounded() {
    let pools = vec![
        pool(100, 1, 2, E18, E18),
        pool(101, 2, 3, E18, E18),
        pool(102, 3, 4, E18, E18),
        pool(103, 1, 3, E18, E18),
        pool(104, 2, 4, E18, E18),
        pool(105, 4, 5, E18, E18),
    ];
    let router = Router::new(OptimizationStrategy::Price, 3);
    let adjacency = router.build_adjacency_map(&pools);
    let routes = router.bfs_routes(&adjacency, t(1), t(5), 3);
    assert!(!routes.is_empty());
    for r in &routes {
        assert!(r.pools.len() <= 3);
        assert_eq!(r.tokens.len(), r.pools.len() + 1);
        for i in 0..r.tokens.len() {
            for j in (i + 1)..r.tokens.len() {
                assert_ne!(r.tokens[i], r.tokens[j]);
            }
        }
        assert_eq!(r.tokens[0], t(1));
        assert_eq!(*r.tokens.last().unwrap(), t(5));
    }
    for w in routes.windows(2) {
        assert!(w[0].pools.len() <= w[1].pools.len());
    }
}

#[test]
fn parallel_pools_give_distinct_routes_without_duplicates() {
    let pools = vec![pool(100, 1, 2, E18, E18), pool(101, 1, 2, 2 * E18, 2 * E18)];
    let router = Router::new(OptimizationStrategy::Price, 3);
    let routes = router.find_all_routes(&pools, t(1), t(2)).unwrap();
    assert_eq!(routes.len(), 2);
    assert_ne!(routes[0].pools, routes[1].pools);
}

#[test]
fn no_route_between_unconnected_tokens() {
    let pools = create_test_pools();
    let router = Router::new(OptimizationStrategy::Price, 3);
    let r = router.quote_routes(&pools, t(1), t(9), U256::from_u128(E18));
    match r {
        Err(AggregatorError::NoRouteFound { from, to }) => {
            assert_eq!(from, t(1).to_hex());
            assert_eq!(to, t(9).to_hex());
        }
        _ => panic!("expected NoRouteFound"),
    }
}

#[test]
fn route_impact_grows_with_length_and_is_capped() {
    let router = Router::new(OptimizationStrategy::Price, 3);
    let pools = vec![pool(100, 1, 2, 100 * E18, 200 * E18), pool(101, 2, 3, 100 * E18, 200 * E18)];
    let quotes = router.quote_routes(&pools, t(1), t(2), U256::from_u128(E18)).unwrap();
    assert_eq!(quotes[0].price_impact_bps, 10);
    let hop = quotes[0].hops[0].clone();
    let many = vec![hop; 1001];
    assert_eq!(router.estimate_route_price_impact(&many), 10000);
}

#[test]
fn strategy_weights_and_names() {
    assert_eq!(OptimizationStrategy::Price.weight_tenths(), (10, 1, 1));
    assert_eq!(OptimizationStrategy::Gas.weight_tenths(), (3, 10, 1));
    assert_eq!(OptimizationStrategy::Slippage.weight_tenths(), (3, 1, 10));
    assert_eq!(OptimizationStrategy::Balanced.weight_tenths(), (5, 3, 2));
    assert_eq!(OptimizationStrategy::Slippage.name(), "Slippage");
}

#[test]
fn route_order_is_direct_first_and_repeatable() {
    let pools = vec![
        pool(100, 1, 2, 100 * E18, 200 * E18),
        pool(101, 2, 3, 100 * E18, 200 * E18),
        pool(102, 1, 3, 100 * E18, 200 * E18),
    ];
    let router = Router::new(OptimizationStrategy::Price, 3);
    let routes = router.find_all_routes(&pools, t(1), t(3)).unwrap();
    assert_eq!(routes.len(), 2);
    assert_eq!(routes[0].pools, vec![t(102)]);
    assert_eq!(routes[1].pools, vec![t(100), t(101)]);

    let first = router.quote_routes(&pools, t(1), t(3), U256::from_u128(E18)).unwrap();
    let second = router.quote_routes(&pools, t(1), t(3), U256::from_u128(E18)).unwrap();
    assert_eq!(first.len(), second.len());
    for (a, b) in first.iter().zip(second.iter()) {
        assert_eq!(a.amount_out, b.amount_out);
        assert_eq!(a.gas_estimate, b.gas_estimate);
        assert_eq!(a.price_impact_bps, b.price_impact_bps);
        assert_eq!(a.description, b.description);
    }
}
