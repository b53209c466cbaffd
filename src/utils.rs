use crate::types::{Address, AggregatorError, Result};
use crate::u256::{U256, u256_limit, limb_base};
use vstd::prelude::*;
use vstd::string::StringExecFns;

pub use crate::amount::{format_token_amount, parse_token_amount};

verus! {

/// `amount_in · (10000 − fee_bps)`: the input that remains after the fee, scaled by 10000.
pub open spec fn input_after_fee(amount_in: nat, fee_bps: nat) -> nat {
    amount_in * (10000 - fee_bps) as nat
}

/// Numerator of the constant-product output.
pub open spec fn v2_numerator(amount_in: nat, reserve_out: nat, fee_bps: nat) -> nat {
    input_after_fee(amount_in, fee_bps) * reserve_out
}

/// Denominator of the constant-product output.
pub open spec fn v2_denominator(amount_in: nat, reserve_in: nat, fee_bps: nat) -> nat {
    reserve_in * 10000 + input_after_fee(amount_in, fee_bps)
}

/// The constant-product output `numerator / denominator`, rounded down.
pub open spec fn v2_output(amount_in: nat, reserve_in: nat, reserve_out: nat, fee_bps: nat) -> nat {
    v2_numerator(amount_in, reserve_out, fee_bps) / v2_denominator(amount_in, reserve_in, fee_bps)
}

/// Whether an intermediate product of the output formula needs more than 256 bits.
pub open spec fn v2_overflows(amount_in: nat, reserve_in: nat, reserve_out: nat, fee_bps: nat) -> bool {
    ||| input_after_fee(amount_in, fee_bps) >= u256_limit()
    ||| v2_numerator(amount_in, reserve_out, fee_bps) >= u256_limit()
    ||| reserve_in * 10000 >= u256_limit()
    ||| v2_denominator(amount_in, reserve_in, fee_bps) >= u256_limit()
}

/// Whether the output formula succeeds: a positive input, positive reserves, no
/// overflowing product and a positive output.
pub open spec fn v2_ok(amount_in: nat, reserve_in: nat, reserve_out: nat, fee_bps: nat) -> bool {
    &&& amount_in > 0
    &&& reserve_in > 0
    &&& reserve_out > 0
    &&& !v2_overflows(amount_in, reserve_in, reserve_out, fee_bps)
    &&& v2_output(amount_in, reserve_in, reserve_out, fee_bps) > 0
}

/// The error of the output formula on inputs where it does not succeed.
pub open spec fn v2_error(
    e: AggregatorError,
    amount_in: nat,
    reserve_in: nat,
    reserve_out: nat,
    fee_bps: nat,
) -> bool {
    if amount_in == 0 {
        e is InvalidAmount
    } else if reserve_in == 0 || reserve_out == 0 {
        e is InsufficientLiquidity
    } else if v2_overflows(amount_in, reserve_in, reserve_out, fee_bps) {
        e is MathError
    } else {
        e is InsufficientLiquidity
    }
}

/// The swap output of a constant-product pool.
///
/// Fails with `InvalidAmount` for a zero input, with `InsufficientLiquidity` for a
/// zero reserve or a zero output, and with `MathError` when a product overflows 256 bits.
pub fn calculate_uniswap_v2_output(
    amount_in: U256,
    reserve_in: U256,
    reserve_out: U256,
    fee_bps: u32,
) -> (r: Result<U256>)
    requires
        fee_bps <= 10000,
    ensures
        v2_ok(amount_in@, reserve_in@, reserve_out@, fee_bps as nat) ==> r is Ok && r->Ok_0@
            == v2_output(amount_in@, reserve_in@, reserve_out@, fee_bps as nat),
        !v2_ok(amount_in@, reserve_in@, reserve_out@, fee_bps as nat) ==> r is Err && v2_error(
            r->Err_0,
            amount_in@,
            reserve_in@,
            reserve_out@,
            fee_bps as nat,
        ),
{
    if amount_in.is_zero() {
        return Err(AggregatorError::InvalidAmount(String::from_str("Amount in cannot be zero")));
    }
    if reserve_in.is_zero() || reserve_out.is_zero() {
        return Err(
            AggregatorError::InsufficientLiquidity(String::from_str("Pool has zero reserves")),
        );
    }
    let fee_factor = U256::from_u64((10000 - fee_bps) as u64);
    let fee_base = U256::from_u64(10000);
    let amount_in_with_fee = match amount_in.checked_mul(&fee_factor) {
        Some(v) => v,
        None => {
            proof {
                lemma_mul_grows(input_after_fee(amount_in@, fee_bps as nat), reserve_out@);
            }
            return Err(AggregatorError::MathError);
        },
    };
    let numerator = match amount_in_with_fee.checked_mul(&reserve_out) {
        Some(v) => v,
        None => return Err(AggregatorError::MathError),
    };
    let scaled_reserve = match reserve_in.checked_mul(&fee_base) {
        Some(v) => v,
        None => return Err(AggregatorError::MathError),
    };
    let denominator = match scaled_reserve.checked_add(&amount_in_with_fee) {
        Some(v) => v,
        None => return Err(AggregatorError::MathError),
    };
    let amount_out = match numerator.checked_div(&denominator) {
        Some(v) => v,
        None => return Err(AggregatorError::MathError),
    };
    if amount_out.is_zero() {
        return Err(
            AggregatorError::InsufficientLiquidity(String::from_str("Output amount would be zero")),
        );
    }
    Ok(amount_out)
}

proof fn lemma_mul_grows(x: nat, y: nat)
    requires
        y > 0,
    ensures
        x * y >= x,
{
    assert(x * y >= x) by (nonlinear_arith)
        requires
            y > 0,
    ;
}

/// Price impact in basis points, before clamping, when no product overflows:
/// the shortfall of `amount_out / amount_in` against `reserve_out / reserve_in`.
pub open spec fn impact_ratio(amount_in: nat, reserve_in: nat, amount_out: nat, reserve_out: nat) -> nat {
    let spot = amount_in * reserve_out;
    let exec = amount_out * reserve_in;
    let shortfall: nat = if spot >= exec {
        (spot - exec) as nat
    } else {
        0
    };
    if shortfall * 10000 >= u256_limit() {
        10000
    } else {
        shortfall * 10000 / spot
    }
}

/// The price impact of a swap in basis points, clamped to `[0, 10000]`; zero reserves,
/// a zero input or an overflowing product give 10000.
pub open spec fn price_impact(amount_in: nat, reserve_in: nat, amount_out: nat, reserve_out: nat) -> nat {
    if reserve_in == 0 || reserve_out == 0 {
        10000
    } else if amount_in * reserve_out >= u256_limit() || amount_out * reserve_in >= u256_limit() {
        10000
    } else if amount_in * reserve_out == 0 {
        10000
    } else if impact_ratio(amount_in, reserve_in, amount_out, reserve_out) > 10000 {
        10000
    } else {
        impact_ratio(amount_in, reserve_in, amount_out, reserve_out)
    }
}

/// Price impact in basis points; never above 10000.
pub fn calculate_price_impact(amount_in: U256, reserve_in: U256, amount_out: U256, reserve_out: U256) -> (r: u32)
    ensures
        r as nat == price_impact(amount_in@, reserve_in@, amount_out@, reserve_out@),
        r <= 10000,
{
    if reserve_in.is_zero() || reserve_out.is_zero() {
        return 10000;
    }
    let spot = match amount_in.checked_mul(&reserve_out) {
        Some(v) => v,
        None => return 10000,
    };
    let exec = match amount_out.checked_mul(&reserve_in) {
        Some(v) => v,
        None => return 10000,
    };
    let numerator = spot.saturating_sub(&exec);
    if spot.is_zero() {
        return 10000;
    }
    let ten_thousand = U256::from_u64(10000);
    let impact = match numerator.checked_mul(&ten_thousand) {
        Some(scaled) => match scaled.checked_div(&spot) {
            Some(q) => q,
            None => ten_thousand,
        },
        None => ten_thousand,
    };
    if impact.gt(&ten_thousand) {
        10000
    } else {
        impact.low_u64() as u32
    }
}

/// The fee taken from `amount`: `amount · fee_bps / 10000`, or zero when the product overflows.
pub open spec fn fee_of(amount: nat, fee_bps: nat) -> nat {
    if amount * fee_bps >= u256_limit() {
        0
    } else {
        amount * fee_bps / 10000
    }
}

/// The fee amount for an input amount.
pub fn calculate_fee(amount: U256, fee_bps: u32) -> (r: U256)
    ensures
        r@ == fee_of(amount@, fee_bps as nat),
{
    let bps = U256::from_u64(fee_bps as u64);
    match amount.checked_mul(&bps) {
        Some(v) => match v.checked_div(&U256::from_u64(10000)) {
            Some(q) => q,
            None => U256::zero(),
        },
        None => U256::zero(),
    }
}

/// Converts gwei to wei.
pub fn gwei_to_wei(gwei: u64) -> (r: U256)
    ensures
        r@ == gwei as nat * 1_000_000_000,
{
    let g = U256::from_u64(gwei);
    let unit = U256::from_u64(1_000_000_000);
    match g.checked_mul(&unit) {
        Some(v) => v,
        None => {
            proof {
                assert(gwei as nat * 1_000_000_000 < limb_base() * limb_base()) by (nonlinear_arith)
                    requires
                        gwei < limb_base(),
                        limb_base() == 18446744073709551616,
                ;
                assert(limb_base() * limb_base() <= u256_limit()) by (nonlinear_arith)
                    requires
                        limb_base() == 18446744073709551616,
                        u256_limit() == limb_base() * limb_base() * limb_base() * limb_base(),
                ;
            }
            U256::zero()
        },
    }
}

/// USDC, `0xa0b86991c6218b36c1d19d4a2e9eb0ce3606eb48`.
pub open spec fn usdc_bytes() -> Seq<u8> {
    seq![
        0xa0u8, 0xb8, 0x69, 0x91, 0xc6, 0x21, 0x8b, 0x36, 0xc1, 0xd1,
        0x9d, 0x4a, 0x2e, 0x9e, 0xb0, 0xce, 0x36, 0x06, 0xeb, 0x48,
    ]
}

/// USDT, `0xdac17f958d2ee523a2206206994597c13d831ec7`.
pub open spec fn usdt_bytes() -> Seq<u8> {
    seq![
        0xdau8, 0xc1, 0x7f, 0x95, 0x8d, 0x2e, 0xe5, 0x23, 0xa2, 0x20,
        0x62, 0x06, 0x99, 0x45, 0x97, 0xc1, 0x3d, 0x83, 0x1e, 0xc7,
    ]
}

/// WBTC, `0x2260fac5e5542a773aa44fbcfedf7c193bc2c599`.
pub open spec fn wbtc_bytes() -> Seq<u8> {
    seq![
        0x22u8, 0x60, 0xfa, 0xc5, 0xe5, 0x54, 0x2a, 0x77, 0x3a, 0xa4,
        0x4f, 0xbc, 0xfe, 0xdf, 0x7c, 0x19, 0x3b, 0xc2, 0xc5, 0x99,
    ]
}

/// Decimals of the known tokens: 6 for USDC and USDT, 8 for WBTC, 18 for any other.
pub open spec fn token_decimals(bytes: Seq<u8>) -> u8 {
    if bytes == usdc_bytes() || bytes == usdt_bytes() {
        6
    } else if bytes == wbtc_bytes() {
        8
    } else {
        18
    }
}

fn same_bytes(a: &Address, b: &[u8; 20]) -> (r: bool)
    ensures
        r == (a.bytes@ == b@),
{
    let mut i: usize = 0;
    while i < 20
        invariant
            0 <= i <= 20,
            forall|j: int| 0 <= j < i ==> a.bytes[j] == b[j],
        decreases 20 - i,
    {
        if a.bytes[i] != b[i] {
            return false;
        }
        i = i + 1;
    }
    assert(a.bytes@ =~= b@);
    true
}

/// Decimals of a token, 18 unless it is one of the known 6- or 8-decimal tokens.
pub fn get_token_decimals(token_address: Address) -> (r: u8)
    ensures
        r == token_decimals(token_address.bytes@),
{
    let usdc: [u8; 20] = [
        0xa0, 0xb8, 0x69, 0x91, 0xc6, 0x21, 0x8b, 0x36, 0xc1, 0xd1,
        0x9d, 0x4a, 0x2e, 0x9e, 0xb0, 0xce, 0x36, 0x06, 0xeb, 0x48,
    ];
    let usdt: [u8; 20] = [
        0xda, 0xc1, 0x7f, 0x95, 0x8d, 0x2e, 0xe5, 0x23, 0xa2, 0x20,
        0x62, 0x06, 0x99, 0x45, 0x97, 0xc1, 0x3d, 0x83, 0x1e, 0xc7,
    ];
    let wbtc: [u8; 20] = [
        0x22, 0x60, 0xfa, 0xc5, 0xe5, 0x54, 0x2a, 0x77, 0x3a, 0xa4,
        0x4f, 0xbc, 0xfe, 0xdf, 0x7c, 0x19, 0x3b, 0xc2, 0xc5, 0x99,
    ];
    assert(usdc@ =~= usdc_bytes());
    assert(usdt@ =~= usdt_bytes());
    assert(wbtc@ =~= wbtc_bytes());
    if same_bytes(&token_address, &usdc) || same_bytes(&token_address, &usdt) {
        6
    } else if same_bytes(&token_address, &wbtc) {
        8
    } else {
        18
    }
}

/// The value of a hex digit of either case, or -1 for any other character.
pub open spec fn hex_val(c: char) -> int {
    if '0' <= c && c <= '9' {
        c as u32 - 48
    } else if 'a' <= c && c <= 'f' {
        c as u32 - 87
    } else if 'A' <= c && c <= 'F' {
        c as u32 - 55
    } else {
        -1
    }
}

/// The whitespace the hex reader skips.
pub open spec fn hex_space(c: char) -> bool {
    c == ' ' || c == '\r' || c == '\n' || c == '\t'
}

/// The characters of an address text after an optional leading `0x`, without whitespace.
pub open spec fn address_hex_digits(s: Seq<char>) -> Seq<char> {
    let body = if s.len() >= 2 && s[0] == '0' && s[1] == 'x' {
        s.skip(2)
    } else {
        s
    };
    body.filter(|c: char| !hex_space(c))
}

/// Whether `s` is an address text: an optional `0x`, then exactly forty hex digits of
/// either case, whitespace aside.
pub open spec fn address_text_ok(s: Seq<char>) -> bool {
    let d = address_hex_digits(s);
    &&& d.len() == 40
    &&& forall|i: int| 0 <= i < 40 ==> hex_val(#[trigger] d[i]) >= 0
}

/// The twenty bytes of an address text, two hex digits per byte, most significant first.
pub open spec fn address_bytes(s: Seq<char>) -> Seq<u8> {
    let d = address_hex_digits(s);
    Seq::new(20, |i: int| (hex_val(d[2 * i]) * 16 + hex_val(d[2 * i + 1])) as u8)
}

/// Relies on ethers' `Address::from_str` (`H160`): it strips an optional `0x`, skips
/// whitespace, and reads exactly forty hex digits of either case, two per byte.
#[verifier::external_body]
fn parse_h160(s: &str) -> (r: Option<[u8; 20]>)
    ensures
        r is Some <==> address_text_ok(s@),
        r is Some ==> r->0@ == address_bytes(s@),
{
    s.parse::<ethers::types::Address>().ok().map(|a| a.0)
}

/// Parses an address written in hex.
pub fn parse_address(addr_str: &str) -> (r: Result<Address>)
    ensures
        address_text_ok(addr_str@) ==> r is Ok && r->Ok_0.bytes@ == address_bytes(addr_str@),
        !address_text_ok(addr_str@) ==> r is Err && r->Err_0 is InvalidTokenAddress
            && r->Err_0->InvalidTokenAddress_0@ == addr_str@,
{
    match parse_h160(addr_str) {
        Some(b) => Ok(Address { bytes: b }),
        None => Err(AggregatorError::InvalidTokenAddress(String::from_str(addr_str))),
    }
}

} // verus!
