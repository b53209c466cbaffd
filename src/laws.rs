use crate::amount::{
    all_digits, amount_syntax_ok, amount_text, amount_value, digit_val, digits_value, dot_at,
    fraction_digits, integer_digits, is_digit, lemma_pow10_monotone, lemma_pow10_positive,
    lemma_single_dot_unique, padded_text, pow10, single_dot_at, trim_zeros, zeros,
};
use crate::u256::{decimal_text, digit_chars, limb_base, u256_limit};
use crate::utils::{input_after_fee, price_impact, v2_denominator, v2_numerator, v2_output};
use vstd::arithmetic::div_mod::lemma_fundamental_div_mod;
use crate::quote::{SWAP_GAS, is_route_hop};
use crate::router::{Route, paths, quotable_routes, route_pools, routes_quoted, is_route_quote};
use crate::types::{Address, PoolInfo, RouteHop, RouteQuote, gas_sum};
use crate::u256::U256;
use crate::types::Result;
use vstd::prelude::*;

verus! {

/// Floors of two fractions keep the order of the fractions.
proof fn lemma_floor_monotone(n1: nat, d1: nat, n2: nat, d2: nat)
    requires
        d1 > 0,
        d2 > 0,
        n1 * d2 <= n2 * d1,
    ensures
        n1 / d1 <= n2 / d2,
{
    let q1 = n1 / d1;
    let q2 = n2 / d2;
    lemma_fundamental_div_mod(n1 as int, d1 as int);
    lemma_fundamental_div_mod(n2 as int, d2 as int);
    assert(d1 * q1 <= n1);
    assert(n2 % d2 < d2);
    assert(d1 * (d2 * q1) <= d1 * n2) by (nonlinear_arith)
        requires
            d1 * q1 <= n1,
            n1 * d2 <= n2 * d1,
            d2 > 0,
    ;
    assert(d2 * q1 <= n2) by (nonlinear_arith)
        requires
            d1 * (d2 * q1) <= d1 * n2,
            d1 > 0,
    ;
    assert(q1 <= q2) by (nonlinear_arith)
        requires
            d2 * q1 <= n2,
            n2 == d2 * q2 + n2 % d2,
            n2 % d2 < d2,
            d2 > 0,
    ;
}

/// The constant-product output never reaches the output reserve, and it is positive
/// whenever the numerator `a_in · (10000 − fee_bps) · r_out` exceeds the denominator
/// `r_in · 10000 + a_in · (10000 − fee_bps)`.
pub proof fn lemma_output_bounds(a_in: nat, r_in: nat, r_out: nat, fee_bps: nat)
    requires
        r_in > 0,
        r_out > 0,
        fee_bps < 10000,
        a_in > 0,
    ensures
        v2_output(a_in, r_in, r_out, fee_bps) < r_out,
        v2_numerator(a_in, r_out, fee_bps) > v2_denominator(a_in, r_in, fee_bps) ==> v2_output(
            a_in,
            r_in,
            r_out,
            fee_bps,
        ) > 0,
{
    let x = input_after_fee(a_in, fee_bps);
    let num = v2_numerator(a_in, r_out, fee_bps);
    let den = v2_denominator(a_in, r_in, fee_bps);
    let q = num / den;
    assert(den > x);
    assert(num == x * r_out);
    lemma_fundamental_div_mod(num as int, den as int);
    assert(num % den < den);
    assert(q < r_out) by (nonlinear_arith)
        requires
            num == den * q + num % den,
            num % den >= 0,
            num == x * r_out,
            den > x,
            r_out > 0,
    ;
    if num > den && q == 0 {
        assert(den * q == 0) by (nonlinear_arith)
            requires
                q == 0,
        ;
        assert(num == num % den);
        assert(false);
    }
}

/// Doubling the input: the exact quotient `numerator / denominator` grows strictly but
/// stays below twice its value, and the rounded-down output does not shrink.
pub proof fn lemma_output_monotone_in_amount(a_in: nat, r_in: nat, r_out: nat, fee_bps: nat)
    requires
        r_in > 0,
        r_out > 0,
        fee_bps < 10000,
        a_in > 0,
    ensures
        v2_numerator(2 * a_in, r_out, fee_bps) * v2_denominator(a_in, r_in, fee_bps)
            > v2_numerator(a_in, r_out, fee_bps) * v2_denominator(2 * a_in, r_in, fee_bps),
        v2_numerator(2 * a_in, r_out, fee_bps) * v2_denominator(a_in, r_in, fee_bps) < 2
            * v2_numerator(a_in, r_out, fee_bps) * v2_denominator(2 * a_in, r_in, fee_bps),
        v2_output(2 * a_in, r_in, r_out, fee_bps) >= v2_output(a_in, r_in, r_out, fee_bps),
{
    let f = (10000 - fee_bps) as nat;
    let x = input_after_fee(a_in, fee_bps);
    let x2 = input_after_fee(2 * a_in, fee_bps);
    assert(x2 == 2 * x) by (nonlinear_arith)
        requires
            x == a_in * f,
            x2 == (2 * a_in) * f,
    ;
    assert(x > 0) by (nonlinear_arith)
        requires
            x == a_in * f,
            a_in > 0,
            f > 0,
    ;
    let n1 = v2_numerator(a_in, r_out, fee_bps);
    let d1 = v2_denominator(a_in, r_in, fee_bps);
    let n2 = v2_numerator(2 * a_in, r_out, fee_bps);
    let d2 = v2_denominator(2 * a_in, r_in, fee_bps);
    assert(n2 * d1 > n1 * d2) by (nonlinear_arith)
        requires
            n1 == x * r_out,
            n2 == (2 * x) * r_out,
            d1 == r_in * 10000 + x,
            d2 == r_in * 10000 + 2 * x,
            x > 0,
            r_in > 0,
            r_out > 0,
    ;
    assert(n2 * d1 < 2 * n1 * d2) by (nonlinear_arith)
        requires
            n1 == x * r_out,
            n2 == (2 * x) * r_out,
            d1 == r_in * 10000 + x,
            d2 == r_in * 10000 + 2 * x,
            x > 0,
            r_out > 0,
    ;
    lemma_floor_monotone(n1, d1, n2, d2);
}

/// Lowering the fee at fixed reserves and input: the exact quotient grows strictly, and
/// the rounded-down output does not shrink.
pub proof fn lemma_output_monotone_in_fee(a_in: nat, r_in: nat, r_out: nat, fee_low: nat, fee_high: nat)
    requires
        r_in > 0,
        r_out > 0,
        fee_low < fee_high,
        fee_high < 10000,
        a_in > 0,
    ensures
        v2_numerator(a_in, r_out, fee_low) * v2_denominator(a_in, r_in, fee_high)
            > v2_numerator(a_in, r_out, fee_high) * v2_denominator(a_in, r_in, fee_low),
        v2_output(a_in, r_in, r_out, fee_low) >= v2_output(a_in, r_in, r_out, fee_high),
{
    let xl = input_after_fee(a_in, fee_low);
    let xh = input_after_fee(a_in, fee_high);
    assert(xl > xh) by (nonlinear_arith)
        requires
            xl == a_in * (10000 - fee_low),
            xh == a_in * (10000 - fee_high),
            fee_low < fee_high,
            a_in > 0,
    ;
    let nl = v2_numerator(a_in, r_out, fee_low);
    let dl = v2_denominator(a_in, r_in, fee_low);
    let nh = v2_numerator(a_in, r_out, fee_high);
    let dh = v2_denominator(a_in, r_in, fee_high);
    assert(nl * dh > nh * dl) by (nonlinear_arith)
        requires
            nl == xl * r_out,
            nh == xh * r_out,
            dl == r_in * 10000 + xl,
            dh == r_in * 10000 + xh,
            xl > xh,
            r_in > 0,
            r_out > 0,
    ;
    assert(dh > 0);
    lemma_floor_monotone(nh, dh, nl, dl);
}

/// The price impact of a swap lies in `[0, 10000]` on every input, overflow included.
pub proof fn lemma_price_impact_bounded(amount_in: nat, reserve_in: nat, amount_out: nat, reserve_out: nat)
    ensures
        price_impact(amount_in, reserve_in, amount_out, reserve_out) <= 10000,
{
}

proof fn lemma_digit_char(k: int)
    requires
        0 <= k < 10,
    ensures
        is_digit(digit_chars()[k]),
        digit_val(digit_chars()[k]) == k,
{
}

proof fn lemma_single_digit(c: char)
    ensures
        digits_value(seq![c]) == digit_val(c),
{
    assert(seq![c].drop_last() =~= Seq::<char>::empty());
    assert(digits_value(Seq::<char>::empty()) == 0);
    assert(seq![c].last() == c);
}

/// The decimal text of `n` is a non-empty string of digits worth `n`.
proof fn lemma_decimal_text(n: nat)
    ensures
        decimal_text(n).len() >= 1,
        all_digits(decimal_text(n)),
        digits_value(decimal_text(n)) == n,
    decreases n,
{
    if n < 10 {
        lemma_digit_char(n as int);
        lemma_single_digit(digit_chars()[n as int]);
    } else {
        lemma_decimal_text(n / 10);
        let t = decimal_text(n / 10);
        let c = digit_chars()[(n % 10) as int];
        lemma_digit_char((n % 10) as int);
        let s = t.push(c);
        assert(s.drop_last() =~= t);
        lemma_fundamental_div_mod(n as int, 10);
        assert forall|i: int| 0 <= i < s.len() implies is_digit(#[trigger] s[i]) by {
            if i < t.len() {
                assert(s[i] == t[i]);
            }
        }
    }
}

/// A text of `n` digits worth less than `10^k` has at most `k` digits.
proof fn lemma_decimal_len(n: nat, k: nat)
    requires
        n < pow10(k),
        k >= 1,
    ensures
        decimal_text(n).len() <= k,
    decreases n,
{
    if n >= 10 {
        if k == 1 {
            assert(pow10(1) == 10 * pow10(0));
        }
        let km = (k - 1) as nat;
        assert(pow10(k) == 10 * pow10(km));
        lemma_fundamental_div_mod(n as int, 10);
        assert(n / 10 < pow10(km)) by (nonlinear_arith)
            requires
                n == 10 * (n / 10) + n % 10,
                n % 10 >= 0,
                n < 10 * pow10(km),
        ;
        lemma_decimal_len(n / 10, km);
    }
}

/// Digits of `a` followed by digits of `b`.
proof fn lemma_digits_concat(a: Seq<char>, b: Seq<char>)
    ensures
        digits_value(a + b) == digits_value(a) * pow10(b.len()) + digits_value(b),
    decreases b.len(),
{
    if b.len() == 0 {
        assert(a + b =~= a);
        assert(digits_value(b) == 0);
        assert(pow10(0) == 1);
    } else {
        let bl = b.drop_last();
        lemma_digits_concat(a, bl);
        assert((a + b).drop_last() =~= a + bl);
        assert((a + b).last() == b.last());
        assert(pow10(b.len()) == 10 * pow10(bl.len()));
        let x = digits_value(a);
        let p = pow10(bl.len());
        let y = digits_value(bl);
        let l = digit_val(b.last());
        assert((x * p + y) * 10 + l == x * (10 * p) + (y * 10 + l)) by (nonlinear_arith);
        assert(digits_value(a + b) == digits_value(a + bl) * 10 + l);
        assert(digits_value(b) == y * 10 + l);
    }
}

/// Zero characters are digits worth zero.
proof fn lemma_zeros(k: nat)
    ensures
        all_digits(zeros(k)),
        digits_value(zeros(k)) == 0,
    decreases k,
{
    if k > 0 {
        lemma_zeros((k - 1) as nat);
        assert(zeros(k).drop_last() =~= zeros((k - 1) as nat));
    }
}

/// Trimming trailing zeros removes exactly a run of zeros at the end.
proof fn lemma_trim_split(s: Seq<char>)
    ensures
        trim_zeros(s).len() <= s.len(),
        s =~= trim_zeros(s) + zeros((s.len() - trim_zeros(s).len()) as nat),
    decreases s.len(),
{
    if s.len() > 0 && s.last() == '0' {
        let t = s.drop_last();
        lemma_trim_split(t);
        let tt = trim_zeros(t);
        assert(s =~= t.push('0'));
        assert(zeros((s.len() - tt.len()) as nat) =~= zeros((t.len() - tt.len()) as nat).push('0'));
    } else {
        assert(zeros(0) =~= Seq::<char>::empty());
        assert(s + zeros(0) =~= s);
    }
}

proof fn lemma_prefix_digits(s: Seq<char>, t: Seq<char>, z: Seq<char>)
    requires
        s == t + z,
        all_digits(s),
    ensures
        all_digits(t),
{
    assert forall|i: int| 0 <= i < t.len() implies is_digit(#[trigger] t[i]) by {
        assert(s[i] == t[i]);
    }
}

/// Formatting an amount with `d ≤ 18` decimals and parsing the text back with the same
/// decimals gives the amount again.
pub proof fn lemma_format_parse_round_trip(x: nat, d: nat)
    requires
        x < u256_limit(),
        d <= 18,
    ensures
        amount_syntax_ok(amount_text(x, d), d),
        pow10(d) < u256_limit(),
        amount_value(amount_text(x, d), d) == x,
{
    reveal_with_fuel(pow10, 19);
    lemma_pow10_monotone(d, 18);
    assert(pow10(18) == 1000000000000000000);
    assert(limb_base() * limb_base() * limb_base() * limb_base() > 1000000000000000000);
    lemma_pow10_positive(d);
    let text = amount_text(x, d);
    if x == 0 {
        assert(text =~= seq!['0']);
        lemma_digit_char(0);
        lemma_single_digit('0');
        assert(!text.contains('.'));
        assert(integer_digits(text) == text);
        assert(all_digits(text));
        assert(fraction_digits(text) =~= Seq::<char>::empty());
        return;
    }
    let p = pow10(d);
    let ip = x / p;
    let rem = x % p;
    lemma_fundamental_div_mod(x as int, p as int);
    let it = decimal_text(ip);
    lemma_decimal_text(ip);
    let dt = decimal_text(rem);
    lemma_decimal_text(rem);
    let padded = padded_text(rem, d);
    let t = trim_zeros(padded);
    lemma_trim_split(padded);
    let z = (padded.len() - t.len()) as nat;
    assert(!it.contains('.')) by {
        if it.contains('.') {
            let k = choose|k: int| 0 <= k < it.len() && it[k] == '.';
            assert(is_digit(it[k]));
        }
    }
    if rem != 0 {
        assert(d >= 1) by {
            if d == 0 {
                assert(pow10(0) == 1);
            }
        }
        lemma_decimal_len(rem, d);
        lemma_zeros((d - dt.len()) as nat);
        lemma_digits_concat(zeros((d - dt.len()) as nat), dt);
        assert(padded.len() == d);
        assert(digits_value(padded) == rem);
        assert(all_digits(padded)) by {
            assert forall|i: int| 0 <= i < padded.len() implies is_digit(#[trigger] padded[i]) by {
                if dt.len() < d {
                    let zs = zeros((d - dt.len()) as nat);
                    if i < zs.len() {
                        assert(padded[i] == zs[i]);
                    } else {
                        assert(padded[i] == dt[i - zs.len()]);
                    }
                }
            }
        }
        lemma_prefix_digits(padded, t, zeros(z));
        lemma_zeros(z);
        lemma_digits_concat(t, zeros(z));
        if t.len() == 0 {
            assert(padded =~= zeros(z));
            assert(false);
        }
        assert(text == it + seq!['.'] + t);
        let dp = it.len() as int;
        assert(text.take(dp) =~= it);
        assert(text.skip(dp + 1) =~= t);
        assert(!t.contains('.')) by {
            if t.contains('.') {
                let k = choose|k: int| 0 <= k < t.len() && t[k] == '.';
                assert(is_digit(t[k]));
            }
        }
        assert(single_dot_at(text, dp));
        assert(text.contains('.')) by {
            assert(text[dp] == '.');
        }
        let chosen = dot_at(text);
        lemma_single_dot_unique(text, dp, chosen);
        assert(integer_digits(text) =~= it);
        assert(fraction_digits(text) =~= t);
        assert(digits_value(t) * pow10(z) == rem);
        assert((d - t.len()) as nat == z);
    } else {
        assert(text == it);
        assert(integer_digits(text) == it);
        assert(fraction_digits(text) =~= Seq::<char>::empty());
        assert(digits_value(Seq::<char>::empty()) == 0);
        assert(ip * p + rem == x) by (nonlinear_arith)
            requires
                x == p * ip + rem,
        ;
    }
}

/// Routes with the same tokens and pools keep the same tokens and pools once the
/// unquotable ones are dropped.
proof fn lemma_quotable_paths(rs1: Seq<Route>, rs2: Seq<Route>, pools: Seq<PoolInfo>, amount_in: nat)
    requires
        paths(rs1) == paths(rs2),
    ensures
        paths(quotable_routes(rs1, pools, amount_in)) == paths(quotable_routes(rs2, pools, amount_in)),
    decreases rs1.len(),
{
    reveal(Seq::filter);
    assert(paths(rs1).len() == paths(rs2).len());
    if rs1.len() > 0 {
        assert(paths(rs1.drop_last()) =~= paths(rs1).drop_last());
        assert(paths(rs2.drop_last()) =~= paths(rs2).drop_last());
        lemma_quotable_paths(rs1.drop_last(), rs2.drop_last(), pools, amount_in);
        assert(paths(rs1)[rs1.len() - 1] == paths(rs2)[rs2.len() - 1]);
        let a = quotable_routes(rs1.drop_last(), pools, amount_in);
        let b = quotable_routes(rs2.drop_last(), pools, amount_in);
        let x = rs1.last();
        let y = rs2.last();
        assert(x.tokens@ == y.tokens@ && x.pools@ == y.pools@);
        assert(paths(a.push(x)) =~= paths(a).push((x.tokens@, x.pools@)));
        assert(paths(b.push(y)) =~= paths(b).push((y.tokens@, y.pools@)));
    } else {
        assert(paths(quotable_routes(rs1, pools, amount_in)) =~= paths(quotable_routes(rs2, pools, amount_in)));
    }
}

/// The gas of hops that each cost one swap is one swap per hop.
proof fn lemma_gas_per_hop(hops: Seq<RouteHop>)
    requires
        forall|i: int| 0 <= i < hops.len() ==> (#[trigger] hops[i]).gas_estimate@ == SWAP_GAS as nat,
    ensures
        gas_sum(hops) == SWAP_GAS as nat * hops.len(),
    decreases hops.len(),
{
    if hops.len() > 0 {
        lemma_gas_per_hop(hops.drop_last());
        assert(hops.last().gas_estimate@ == SWAP_GAS as nat);
        assert(SWAP_GAS as nat * (hops.len() - 1) + SWAP_GAS as nat == SWAP_GAS as nat * hops.len()) by (nonlinear_arith);
    }
}

/// Two route searches on identical inputs agree: both succeed or both fail, with as many
/// quotes, and each quote in the same place has the same output, gas, price impact and
/// path. Those are all a score reads, so scores and their ranking agree too.
pub proof fn lemma_quotes_deterministic(
    r1: Result<Vec<RouteQuote>>,
    r2: Result<Vec<RouteQuote>>,
    pools: Seq<PoolInfo>,
    token_in: Address,
    token_out: Address,
    amount_in: U256,
    max_hops: nat,
    cap: nat,
)
    requires
        routes_quoted(r1, pools, token_in, token_out, amount_in, max_hops, cap),
        routes_quoted(r2, pools, token_in, token_out, amount_in, max_hops, cap),
    ensures
        r1 is Ok <==> r2 is Ok,
        r1 is Ok ==> r1->Ok_0@.len() == r2->Ok_0@.len() && forall|k: int|
            0 <= k < r1->Ok_0@.len() ==> {
                let q1 = #[trigger] r1->Ok_0@[k];
                let q2 = r2->Ok_0@[k];
                &&& q1.amount_out@ == q2.amount_out@
                &&& q1.gas_estimate@ == q2.gas_estimate@
                &&& q1.price_impact_bps == q2.price_impact_bps
                &&& q1.description@ == q2.description@
                &&& q1.hops@.len() == q2.hops@.len()
            },
{
    let rs1 = choose|rs: Seq<Route>| crate::router::candidates_ok(rs, pools, token_in, token_out, cap)
        && paths(rs) == crate::router::candidates_spec(pools, token_in, token_out, max_hops) && ({
            let good = quotable_routes(rs, pools, amount_in@);
            &&& r1 is Ok <==> good.len() > 0
            &&& r1 is Ok ==> r1->Ok_0@.len() == good.len() && forall|k: int|
                0 <= k < good.len() ==> is_route_quote(#[trigger] r1->Ok_0@[k], pools, good[k].tokens@, good[k].pools@, amount_in)
        });
    let rs2 = choose|rs: Seq<Route>| crate::router::candidates_ok(rs, pools, token_in, token_out, cap)
        && paths(rs) == crate::router::candidates_spec(pools, token_in, token_out, max_hops) && ({
            let good = quotable_routes(rs, pools, amount_in@);
            &&& r2 is Ok <==> good.len() > 0
            &&& r2 is Ok ==> r2->Ok_0@.len() == good.len() && forall|k: int|
                0 <= k < good.len() ==> is_route_quote(#[trigger] r2->Ok_0@[k], pools, good[k].tokens@, good[k].pools@, amount_in)
        });
    let g1 = quotable_routes(rs1, pools, amount_in@);
    let g2 = quotable_routes(rs2, pools, amount_in@);
    lemma_quotable_paths(rs1, rs2, pools, amount_in@);
    assert(paths(g1).len() == paths(g2).len());
    if r1 is Ok {
        assert forall|k: int| 0 <= k < r1->Ok_0@.len() implies {
            let q1 = #[trigger] r1->Ok_0@[k];
            let q2 = r2->Ok_0@[k];
            &&& q1.amount_out@ == q2.amount_out@
            &&& q1.gas_estimate@ == q2.gas_estimate@
            &&& q1.price_impact_bps == q2.price_impact_bps
            &&& q1.description@ == q2.description@
            &&& q1.hops@.len() == q2.hops@.len()
        } by {
            let q1 = r1->Ok_0@[k];
            let q2 = r2->Ok_0@[k];
            assert(paths(g1)[k] == paths(g2)[k]);
            let t = g1[k].tokens@;
            let a = g1[k].pools@;
            assert(g2[k].tokens@ == t && g2[k].pools@ == a);
            assert(is_route_quote(q1, pools, t, a, amount_in));
            assert(is_route_quote(q2, pools, t, a, amount_in));
            let rp = route_pools(pools, a);
            let n = rp.len() as int;
            assert(is_route_hop(q1.hops@[n - 1], rp, t, amount_in@, n - 1));
            assert(is_route_hop(q2.hops@[n - 1], rp, t, amount_in@, n - 1));
            assert forall|i: int| 0 <= i < q1.hops@.len() implies (#[trigger] q1.hops@[i]).gas_estimate@ == SWAP_GAS as nat by {
                assert(is_route_hop(q1.hops@[i], rp, t, amount_in@, i));
            }
            assert forall|i: int| 0 <= i < q2.hops@.len() implies (#[trigger] q2.hops@[i]).gas_estimate@ == SWAP_GAS as nat by {
                assert(is_route_hop(q2.hops@[i], rp, t, amount_in@, i));
            }
            lemma_gas_per_hop(q1.hops@);
            lemma_gas_per_hop(q2.hops@);
        }
    }
}

} // verus!
