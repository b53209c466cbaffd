use rust_aggregator::types::AggregatorError;
use rust_aggregator::utils::{
    calculate_fee, calculate_price_impact, calculate_uniswap_v2_output, format_token_amount,
    get_token_decimals, gwei_to_wei, parse_address, parse_token_amount,
};
use rust_aggregator::{Address, U256};

const E18: u128 = 1_000_000_000_000_000_000;

#[test]
fn test_calculate_uniswap_v2_output() {
    let amount_in = U256::from_u128(1_000_000_000_000_000_000u128);
    let reserve_in = U256::from_u128(100_000_000_000_000_000_000u128);
    let reserve_out = U256::from_u128(180_000_000_000u128);
    let fee_bps = 30;

    let result = calculate_uniswap_v2_output(amount_in, reserve_in, reserve_out, fee_bps);
    assert!(result.is_ok());

    let amount_out = result.unwrap();
    assert!(amount_out.gt(&U256::zero()));
    assert_eq!(amount_out, U256::from_u128(1_776_884_461));
}

#[test]
fn utils_test_parse_token_amount() {
    let amount = parse_token_amount("1.0", 18).unwrap();
    assert_eq!(amount, U256::from_u128(1_000_000_000_000_000_000u128));

    let amount = parse_token_amount("0.5", 18).unwrap();
    assert_eq!(amount, U256::from_u128(500_000_000_000_000_000u128));

    let amount = parse_token_amount("1000", 6).unwrap();
    assert_eq!(amount, U256::from_u128(1_000_000_000u128));
}

#[test]
fn utils_test_format_token_amount() {
    let amount = U256::from_u128(1_000_000_000_000_000_000u128);
    assert_eq!(format_token_amount(amount, 18), "1");

    let amount = U256::from_u128(1_500_000_000_000_000_000u128);
    assert_eq!(format_token_amount(amount, 18), "1.5");

    let amount = U256::from_u128(1_234_560_000_000_000_000u128);
    assert_eq!(format_token_amount(amount, 18), "1.23456");
}

#[test]
fn test_gwei_to_wei() {
    let wei = gwei_to_wei(30);
    assert_eq!(wei, U256::from_u64(30_000_000_000u64));
}

#[test]
fn test_parse_address() {
    let addr = parse_address("0x5C69bEe701ef814a2B6a3EDD4B1652CB9cc5aA6f");
    assert!(addr.is_ok());

    let invalid = parse_address("invalid");
    assert!(invalid.is_err());
}

#[test]
fn single_hop_output_is_exact() {
    let out = calculate_uniswap_v2_output(
        U256::from_u128(E18),
        U256::from_u128(100 * E18),
        U256::from_u128(200 * E18),
        30,
    )
    .unwrap();
    assert_eq!(out, U256::from_u128(1_974_316_068_794_122_597));
}

#[test]
fn output_below_reserve_and_positive() {
    let reserve_out = U256::from_u128(200 * E18);
    let out = calculate_uniswap_v2_output(
        U256::from_u128(1_000_000 * E18),
        U256::from_u128(100 * E18),
        reserve_out,
        30,
    )
    .unwrap();
    assert!(out.lt(&reserve_out));
    assert!(out.gt(&U256::zero()));
}

#[test]
fn doubling_input_raises_output_but_less_than_double() {
    let one = calculate_uniswap_v2_output(U256::from_u128(E18), U256::from_u128(100 * E18), U256::from_u128(200 * E18), 30).unwrap();
    let two = calculate_uniswap_v2_output(U256::from_u128(2 * E18), U256::from_u128(100 * E18), U256::from_u128(200 * E18), 30).unwrap();
    assert_eq!(two, U256::from_u128(3_910_033_923_564_131_223));
    assert!(two.gt(&one));
    assert!(two.lt(&U256::from_u128(2 * 1_974_316_068_794_122_597)));
}

#[test]
fn lower_fee_gives_more_output() {
    let with_fee = calculate_uniswap_v2_output(U256::from_u128(E18), U256::from_u128(100 * E18), U256::from_u128(200 * E18), 30).unwrap();
    let no_fee = calculate_uniswap_v2_output(U256::from_u128(E18), U256::from_u128(100 * E18), U256::from_u128(200 * E18), 0).unwrap();
    assert_eq!(no_fee, U256::from_u128(1_980_198_019_801_980_198));
    assert!(no_fee.gt(&with_fee));
}

#[test]
fn output_errors_by_kind() {
    let zero = calculate_uniswap_v2_output(U256::zero(), U256::from_u64(1), U256::from_u64(1), 30);
    assert!(matches!(zero, Err(AggregatorError::InvalidAmount(_))));

    let dry = calculate_uniswap_v2_output(U256::from_u64(1), U256::zero(), U256::from_u64(1), 30);
    assert!(matches!(dry, Err(AggregatorError::InsufficientLiquidity(_))));

    let tiny = calculate_uniswap_v2_output(U256::from_u64(1), U256::from_u128(E18), U256::from_u64(1), 30);
    assert!(matches!(tiny, Err(AggregatorError::InsufficientLiquidity(_))));

    let huge = U256 { limbs: [0, 0, 0, 1u64 << 62] };
    let overflow = calculate_uniswap_v2_output(huge, U256::from_u64(1), U256::from_u64(1), 30);
    assert!(matches!(overflow, Err(AggregatorError::MathError)));
}

#[test]
fn price_impact_values_and_bounds() {
    let impact = calculate_price_impact(
        U256::from_u128(E18),
        U256::from_u128(100 * E18),
        U256::from_u128(1_974_316_068_794_122_597),
        U256::from_u128(200 * E18),
    );
    assert_eq!(impact, 128);

    let dry = calculate_price_impact(U256::from_u64(1), U256::zero(), U256::from_u64(1), U256::from_u64(1));
    assert_eq!(dry, 10000);

    let max = U256 { limbs: [u64::MAX, u64::MAX, u64::MAX, u64::MAX] };
    let overflow = calculate_price_impact(max, max, U256::from_u64(1), max);
    assert_eq!(overflow, 10000);
}

#[test]
fn fee_amounts() {
    assert_eq!(calculate_fee(U256::from_u128(E18), 30), U256::from_u128(3_000_000_000_000_000));
    let max = U256 { limbs: [u64::MAX, u64::MAX, u64::MAX, u64::MAX] };
    assert_eq!(calculate_fee(max, 30), U256::zero());
}

#[test]
fn amount_formatting_round_trip() {
    let x = U256::from_u128(1_234_560_000_000_000_000);
    assert_eq!(format_token_amount(x, 18), "1.23456");
    assert_eq!(parse_token_amount("1.23456", 18).unwrap(), x);

    for (v, d) in [(0u128, 18u8), (1, 18), (123_456_789, 6), (10_000_000, 6), (5, 0), (u128::MAX, 18)] {
        let text = format_token_amount(U256::from_u128(v), d);
        assert_eq!(parse_token_amount(&text, d).unwrap(), U256::from_u128(v), "round trip of {}", text);
    }
    assert_eq!(format_token_amount(U256::from_u128(1), 18), "0.000000000000000001");
    assert_eq!(format_token_amount(U256::zero(), 6), "0");
}

#[test]
fn amount_parse_errors() {
    assert!(matches!(parse_token_amount("", 18), Err(AggregatorError::ParseError(_))));
    assert!(matches!(parse_token_amount("1.2.3", 18), Err(AggregatorError::ParseError(_))));
    assert!(matches!(parse_token_amount("1.1234567", 6), Err(AggregatorError::ParseError(_))));
    assert!(matches!(parse_token_amount("abc", 6), Err(AggregatorError::ParseError(_))));
    assert!(matches!(parse_token_amount("1.5", 0), Err(AggregatorError::ParseError(_))));
    let too_big = "1".repeat(80);
    assert!(matches!(parse_token_amount(&too_big, 0), Err(AggregatorError::MathError)));
    assert_eq!(parse_token_amount("7.", 3).unwrap(), U256::from_u64(7000));
    assert_eq!(parse_token_amount("1.", 0).unwrap(), U256::from_u64(1));
    assert!(matches!(parse_token_amount(".5", 1), Err(AggregatorError::ParseError(_))));
}

#[test]
fn known_token_decimals() {
    let usdc = parse_address("0xa0b86991c6218b36c1d19d4a2e9eb0ce3606eb48").unwrap();
    let wbtc = parse_address("0x2260FAC5E5542a773Aa44fBCfeDf7C193bc2C599").unwrap();
    assert_eq!(get_token_decimals(usdc), 6);
    assert_eq!(get_token_decimals(wbtc), 8);
    assert_eq!(get_token_decimals(Address::from_low_u64_be(7)), 18);
}

#[test]
fn address_hex_text() {
    let a = Address::from_low_u64_be(0xabcd);
    assert_eq!(a.to_hex(), "0x000000000000000000000000000000000000abcd");
    let parsed = parse_address(&a.to_hex()).unwrap();
    assert_eq!(parsed, a);
}
