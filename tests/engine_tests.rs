use rust_aggregator::quote::QuoteEngine;
use rust_aggregator::types::{Address, AggregatorError, PoolInfo};
use rust_aggregator::U256;

fn create_test_pool() -> PoolInfo {
    PoolInfo {
        address: Address::zero(),
        token0: Address::from_low_u64_be(1),
        token1: Address::from_low_u64_be(2),
        reserve0: U256::from_u128(100_000_000_000_000_000_000u128),
        reserve1: U256::from_u128(200_000_000_000_000_000_000u128),
        fee_bps: 30,
        dex_name: "TestDEX".to_string(),
        last_updated: 0,
    }
}

#[test]
fn test_calculate_pool_output() {
    let pool = create_test_pool();
    let token_in = pool.token0;
    let amount_in = U256::from_u128(1_000_000_000_000_000_000u128);

    let result = QuoteEngine::calculate_pool_output(&pool, token_in, amount_in);
    assert!(result.is_ok());

    let quote = result.unwrap();
    assert!(quote.amount_out.gt(&U256::zero()));
    assert_eq!(quote.token_in, token_in);
    assert_eq!(quote.token_out, pool.token1);
}

#[test]
fn test_calculate_pool_output_invalid_token() {
    let pool = create_test_pool();
    let invalid_token = Address::from_low_u64_be(999);
    let amount_in = U256::from_u128(1_000_000_000_000_000_000u128);

    let result = QuoteEngine::calculate_pool_output(&pool, invalid_token, amount_in);
    assert!(result.is_err());
    assert!(matches!(result, Err(AggregatorError::InvalidTokenAddress(_))));
}

#[test]
fn test_find_best_direct_pool() {
    let pool1 = PoolInfo {
        reserve0: U256::from_u128(100_000_000_000_000_000_000u128),
        reserve1: U256::from_u128(200_000_000_000_000_000_000u128),
        ..create_test_pool()
    };

    let pool2 = PoolInfo {
        reserve0: U256::from_u128(150_000_000_000_000_000_000u128),
        reserve1: U256::from_u128(250_000_000_000_000_000_000u128),
        ..create_test_pool()
    };

    let pools = vec![pool1, pool2];
    let token_in = Address::from_low_u64_be(1);
    let token_out = Address::from_low_u64_be(2);
    let amount_in = U256::from_u128(1_000_000_000_000_000_000u128);

    let result = QuoteEngine::find_best_direct_pool(&pools, token_in, token_out, amount_in);
    assert!(result.is_ok());
}

#[test]
fn single_hop_quote_fields() {
    let pool = create_test_pool();
    let q = QuoteEngine::calculate_pool_output(&pool, pool.token0, U256::from_u128(1_000_000_000_000_000_000)).unwrap();
    assert_eq!(q.amount_out, U256::from_u128(1_974_316_068_794_122_597));
    assert_eq!(q.fee, U256::from_u128(3_000_000_000_000_000));
    assert_eq!(q.price_impact_bps, 128);
    assert_eq!(q.gas_estimate, U256::from_u64(100_000));
    let back = QuoteEngine::calculate_pool_output(&pool, pool.token1, U256::from_u128(1_000_000_000_000_000_000)).unwrap();
    assert_eq!(back.token_out, pool.token0);
}

#[test]
fn deeper_pool_wins_and_ties_keep_first() {
    let a = PoolInfo { address: Address::from_low_u64_be(10), ..create_test_pool() };
    let b = PoolInfo {
        address: Address::from_low_u64_be(11),
        reserve0: U256::from_u128(200_000_000_000_000_000_000u128),
        reserve1: U256::from_u128(400_000_000_000_000_000_000u128),
        ..create_test_pool()
    };
    let twin = PoolInfo { address: Address::from_low_u64_be(12), ..b.clone() };
    let pools = vec![a, b, twin];
    let best = QuoteEngine::find_best_direct_pool(&pools, Address::from_low_u64_be(1), Address::from_low_u64_be(2), U256::from_u128(1_000_000_000_000_000_000)).unwrap();
    assert_eq!(best.pool.address, Address::from_low_u64_be(11));
    assert_eq!(best.amount_out, U256::from_u128(1_984_109_215_560_431_250));
}

#[test]
fn no_direct_pool_is_no_route() {
    let pools = vec![create_test_pool()];
    let r = QuoteEngine::find_best_direct_pool(&pools, Address::from_low_u64_be(1), Address::from_low_u64_be(3), U256::from_u64(5));
    assert!(matches!(r, Err(AggregatorError::NoRouteFound { .. })));
}

#[test]
fn route_output_chains_hops() {
    let first_pool = PoolInfo { address: Address::from_low_u64_be(100), ..create_test_pool() };
    let second_pool = PoolInfo {
        address: Address::from_low_u64_be(101),
        token0: Address::from_low_u64_be(2),
        token1: Address::from_low_u64_be(3),
        ..create_test_pool()
    };
    let tokens = vec![Address::from_low_u64_be(1), Address::from_low_u64_be(2), Address::from_low_u64_be(3)];
    let hops = QuoteEngine::calculate_route_output(&[first_pool.clone(), second_pool.clone()], &tokens, U256::from_u128(1_000_000_000_000_000_000)).unwrap();
    assert_eq!(hops.len(), 2);
    assert_eq!(hops[0].amount_out, hops[1].amount_in);
    assert_eq!(hops[1].amount_out, U256::from_u128(3_860_790_702_585_496_463));
    assert_eq!(hops[1].token_out, Address::from_low_u64_be(3));

    let mismatch = QuoteEngine::calculate_route_output(&[first_pool.clone()], &tokens, U256::from_u64(1));
    assert!(matches!(mismatch, Err(AggregatorError::InvalidAmount(_))));
    let wrong_pair = QuoteEngine::calculate_route_output(&[second_pool, first_pool], &tokens, U256::from_u64(1));
    assert!(matches!(wrong_pair, Err(AggregatorError::InvalidAmount(_))));
}
