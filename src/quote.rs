use crate::types::{Address, AggregatorError, PoolInfo, Result, RouteHop, no_route, address_text};
use crate::u256::U256;
use crate::utils::{
    calculate_fee, calculate_price_impact, calculate_uniswap_v2_output, fee_of, price_impact,
    v2_error, v2_ok, v2_output,
};
use vstd::prelude::*;
use vstd::string::StringExecFns;

verus! {

/// Gas charged for one constant-product swap.
pub const SWAP_GAS: u64 = 100_000;

/// Whether a swap of `amount_in` of `token_in` through `pool` can be quoted.
pub open spec fn quote_ok(pool: PoolInfo, token_in: Address, amount_in: nat) -> bool {
    &&& pool.reserves_spec(token_in) is Some
    &&& v2_ok(
        amount_in,
        pool.reserve_in_of(token_in),
        pool.reserve_out_of(token_in),
        pool.fee_bps as nat,
    )
}

/// The output of a swap of `amount_in` of `token_in` through `pool`.
pub open spec fn quote_out(pool: PoolInfo, token_in: Address, amount_in: nat) -> nat {
    v2_output(
        amount_in,
        pool.reserve_in_of(token_in),
        pool.reserve_out_of(token_in),
        pool.fee_bps as nat,
    )
}

/// The error of a swap that cannot be quoted.
pub open spec fn quote_error(e: AggregatorError, pool: PoolInfo, token_in: Address, amount_in: nat) -> bool {
    if pool.reserves_spec(token_in) is None {
        e is InvalidTokenAddress
    } else {
        v2_error(
            e,
            amount_in,
            pool.reserve_in_of(token_in),
            pool.reserve_out_of(token_in),
            pool.fee_bps as nat,
        )
    }
}

/// Whether `q` is the quote of a swap of `amount_in` of `token_in` through `pool`.
pub open spec fn is_quote_of(q: QuoteResult, pool: PoolInfo, token_in: Address, amount_in: U256) -> bool {
    &&& q.pool == pool
    &&& q.token_in == token_in
    &&& q.token_out == pool.other_token_spec(token_in)->0
    &&& q.amount_in == amount_in
    &&& q.amount_out@ == quote_out(pool, token_in, amount_in@)
    &&& q.fee@ == fee_of(amount_in@, pool.fee_bps as nat)
    &&& q.price_impact_bps as nat == price_impact(
        amount_in@,
        pool.reserve_in_of(token_in),
        q.amount_out@,
        pool.reserve_out_of(token_in),
    )
    &&& q.gas_estimate@ == SWAP_GAS as nat
}

/// The amount that enters hop `i` of a route that starts with `amount_in`.
pub open spec fn hop_input(pools: Seq<PoolInfo>, tokens: Seq<Address>, amount_in: nat, i: nat) -> nat
    decreases i,
{
    if i == 0 {
        amount_in
    } else {
        quote_out(
            pools[i - 1],
            tokens[i - 1],
            hop_input(pools, tokens, amount_in, (i - 1) as nat),
        )
    }
}

/// Whether the first `n` hops of a route can all be quoted.
pub open spec fn hops_ok(pools: Seq<PoolInfo>, tokens: Seq<Address>, amount_in: nat, n: nat) -> bool {
    forall|j: nat|
        j < n ==> #[trigger] quote_ok(pools[j as int], tokens[j as int], hop_input(pools, tokens, amount_in, j))
}

/// Whether hop `j` is the first hop of a route that cannot be quoted.
pub open spec fn first_failure(pools: Seq<PoolInfo>, tokens: Seq<Address>, amount_in: nat, j: nat) -> bool {
    &&& j < pools.len()
    &&& hops_ok(pools, tokens, amount_in, j)
    &&& !quote_ok(pools[j as int], tokens[j as int], hop_input(pools, tokens, amount_in, j))
}

/// Whether a route has a usable shape: at least one pool, one token more than pools,
/// and each pool joining its two tokens.
pub open spec fn route_shape_ok(pools: Seq<PoolInfo>, tokens: Seq<Address>) -> bool {
    &&& pools.len() > 0
    &&& tokens.len() == pools.len() + 1
    &&& forall|i: int| 0 <= i < pools.len() ==> #[trigger] pools[i].joins(tokens[i], tokens[i + 1])
}

/// Whether `hop` is hop `i` of the route through `pools` and `tokens` from `amount_in`.
pub open spec fn is_route_hop(hop: RouteHop, pools: Seq<PoolInfo>, tokens: Seq<Address>, amount_in: nat, i: int) -> bool {
    let input = hop_input(pools, tokens, amount_in, i as nat);
    &&& hop.pool == pools[i].address
    &&& hop.token_in == tokens[i]
    &&& hop.token_out == tokens[i + 1]
    &&& hop.dex_name == pools[i].dex_name
    &&& hop.amount_in@ == input
    &&& hop.amount_out@ == quote_out(pools[i], tokens[i], input)
    &&& hop.fee@ == fee_of(input, pools[i].fee_bps as nat)
    &&& hop.gas_estimate@ == SWAP_GAS as nat
}

/// Every pool has a fee below 100%.
pub open spec fn fees_valid(pools: Seq<PoolInfo>) -> bool {
    forall|i: int| 0 <= i < pools.len() ==> #[trigger] pools[i].fee_bps < 10000
}

/// Quote engine for swap outputs.
pub struct QuoteEngine;

impl QuoteEngine {
    /// The quote of a single-pool swap.
    pub fn calculate_pool_output(pool: &PoolInfo, token_in: Address, amount_in: U256) -> (r: Result<QuoteResult>)
        requires
            pool.fee_bps < 10000,
        ensures
            quote_ok(*pool, token_in, amount_in@) ==> r is Ok && is_quote_of(
                r->Ok_0,
                *pool,
                token_in,
                amount_in,
            ),
            !quote_ok(*pool, token_in, amount_in@) ==> r is Err && quote_error(
                r->Err_0,
                *pool,
                token_in,
                amount_in@,
            ),
    {
        let (reserve_in, reserve_out) = match pool.get_reserves(&token_in) {
            Some(p) => p,
            None => {
                return Err(
                    AggregatorError::InvalidTokenAddress(String::from_str("Token not in pool")),
                );
            },
        };
        let token_out = match pool.get_other_token(&token_in) {
            Some(t) => t,
            None => {
                return Err(
                    AggregatorError::InvalidTokenAddress(String::from_str("Invalid token pair")),
                );
            },
        };
        let amount_out = calculate_uniswap_v2_output(
            amount_in,
            reserve_in,
            reserve_out,
            pool.fee_bps,
        )?;
        let fee = calculate_fee(amount_in, pool.fee_bps);
        let price_impact_bps = calculate_price_impact(amount_in, reserve_in, amount_out, reserve_out);
        let gas_estimate = U256::from_u64(SWAP_GAS);
        Ok(
            QuoteResult {
                pool: pool.duplicate(),
                token_in,
                token_out,
                amount_in,
                amount_out,
                fee,
                price_impact_bps,
                gas_estimate,
            },
        )
    }

    /// The hops of a multi-hop route: the output of each hop is the input of the next.
    pub fn calculate_route_output(pools: &[PoolInfo], tokens: &[Address], amount_in: U256) -> (r: Result<Vec<RouteHop>>)
        requires
            fees_valid(pools@),
        ensures
            !route_shape_ok(pools@, tokens@) ==> r is Err && r->Err_0 is InvalidAmount,
            route_shape_ok(pools@, tokens@) && hops_ok(pools@, tokens@, amount_in@, pools@.len())
                ==> r is Ok && r->Ok_0@.len() == pools@.len() && forall|i: int|
                0 <= i < pools@.len() ==> is_route_hop(
                    #[trigger] r->Ok_0@[i],
                    pools@,
                    tokens@,
                    amount_in@,
                    i,
                ),
            route_shape_ok(pools@, tokens@) && !hops_ok(pools@, tokens@, amount_in@, pools@.len())
                ==> r is Err && exists|j: nat|
                #[trigger] first_failure(pools@, tokens@, amount_in@, j) && quote_error(
                    r->Err_0,
                    pools@[j as int],
                    tokens@[j as int],
                    hop_input(pools@, tokens@, amount_in@, j),
                ),
    {
        if pools.len() == 0 || tokens.len() == 0 || tokens.len() - 1 != pools.len() {
            return Err(
                AggregatorError::InvalidAmount(
                    String::from_str("Invalid route: pools and tokens mismatch"),
                ),
            );
        }
        let mut k: usize = 0;
        while k < pools.len()
            invariant
                0 <= k <= pools@.len(),
                tokens@.len() == pools@.len() + 1,
                forall|i: int| 0 <= i < k ==> #[trigger] pools@[i].joins(tokens@[i], tokens@[i + 1]),
            decreases pools@.len() - k,
        {
            let p = &pools[k];
            let a = tokens[k];
            let b = tokens[k + 1];
            if !((p.token0 == a && p.token1 == b) || (p.token0 == b && p.token1 == a)) {
                assert(!pools@[k as int].joins(tokens@[k as int], tokens@[k + 1]));
                return Err(
                    AggregatorError::InvalidAmount(
                        String::from_str("Invalid route: pool does not join its tokens"),
                    ),
                );
            }
            k = k + 1;
        }
        let mut hops: Vec<RouteHop> = Vec::new();
        let mut current = amount_in;
        let mut i: usize = 0;
        while i < pools.len()
            invariant
                0 <= i <= pools@.len(),
                route_shape_ok(pools@, tokens@),
                fees_valid(pools@),
                hops@.len() == i,
                current@ == hop_input(pools@, tokens@, amount_in@, i as nat),
                hops_ok(pools@, tokens@, amount_in@, i as nat),
                forall|h: int|
                    0 <= h < i ==> is_route_hop(#[trigger] hops@[h], pools@, tokens@, amount_in@, h),
            decreases pools@.len() - i,
        {
            let pool = &pools[i];
            let token_in = tokens[i];
            let token_out = tokens[i + 1];
            let quote = match Self::calculate_pool_output(pool, token_in, current) {
                Ok(q) => q,
                Err(e) => {
                    proof {
                        assert(!hops_ok(pools@, tokens@, amount_in@, pools@.len())) by {
                            assert(!quote_ok(pools@[i as int], tokens@[i as int], hop_input(pools@, tokens@, amount_in@, i as nat)));
                        }
                        let j: nat = i as nat;
                        assert(first_failure(pools@, tokens@, amount_in@, j) && quote_error(
                            e,
                            pools@[j as int],
                            tokens@[j as int],
                            hop_input(pools@, tokens@, amount_in@, j),
                        ));
                    }
                    return Err(e);
                },
            };
            let hop = RouteHop {
                pool: pool.address,
                token_in,
                token_out,
                dex_name: pool.dex_name.clone(),
                amount_in: current,
                amount_out: quote.amount_out,
                fee: quote.fee,
                gas_estimate: quote.gas_estimate,
            };
            hops.push(hop);
            current = quote.amount_out;
            proof {
                assert(hops_ok(pools@, tokens@, amount_in@, (i + 1) as nat)) by {
                    assert forall|j: nat| j < i + 1 implies #[trigger] quote_ok(
                        pools@[j as int],
                        tokens@[j as int],
                        hop_input(pools@, tokens@, amount_in@, j),
                    ) by {
                        if j < i {
                            assert(hops_ok(pools@, tokens@, amount_in@, i as nat));
                        }
                    }
                }
            }
            i = i + 1;
        }
        Ok(hops)
    }

    /// The best direct quote across the pools that join `token_in` and `token_out`:
    /// the greatest output, the first such pool on ties.
    pub fn find_best_direct_pool(pools: &[PoolInfo], token_in: Address, token_out: Address, amount_in: U256) -> (r: Result<QuoteResult>)
        requires
            fees_valid(pools@),
        ensures
            r is Ok <==> exists|i: int|
                0 <= i < pools@.len() && #[trigger] pools@[i].joins(token_in, token_out) && quote_ok(
                    pools@[i],
                    token_in,
                    amount_in@,
                ),
            r is Ok ==> exists|i: int|
                0 <= i < pools@.len() && pools@[i].joins(token_in, token_out) && quote_ok(
                    pools@[i],
                    token_in,
                    amount_in@,
                ) && is_quote_of(r->Ok_0, pools@[i], token_in, amount_in) && (forall|j: int|
                    0 <= j < pools@.len() && #[trigger] pools@[j].joins(token_in, token_out)
                        && quote_ok(pools@[j], token_in, amount_in@) ==> quote_out(
                        pools@[j],
                        token_in,
                        amount_in@,
                    ) <= r->Ok_0.amount_out@ && (j < i ==> quote_out(
                        pools@[j],
                        token_in,
                        amount_in@,
                    ) < r->Ok_0.amount_out@)),
            r is Err ==> r->Err_0 is NoRouteFound && r->Err_0->from@ == address_text(token_in.bytes@)
                && r->Err_0->to@ == address_text(token_out.bytes@),
    {
        let mut best: Option<QuoteResult> = None;
        let ghost mut best_index: int = -1;
        let mut i: usize = 0;
        while i < pools.len()
            invariant
                0 <= i <= pools@.len(),
                fees_valid(pools@),
                best is None <==> forall|j: int|
                    0 <= j < i ==> !(#[trigger] pools@[j].joins(token_in, token_out) && quote_ok(
                        pools@[j],
                        token_in,
                        amount_in@,
                    )),
                best is Some ==> {
                    &&& 0 <= best_index < i
                    &&& pools@[best_index].joins(token_in, token_out)
                    &&& quote_ok(pools@[best_index], token_in, amount_in@)
                    &&& is_quote_of(best->0, pools@[best_index], token_in, amount_in)
                    &&& forall|j: int|
                        0 <= j < i && #[trigger] pools@[j].joins(token_in, token_out) && quote_ok(
                            pools@[j],
                            token_in,
                            amount_in@,
                        ) ==> quote_out(pools@[j], token_in, amount_in@) <= best->0.amount_out@
                            && (j < best_index ==> quote_out(pools@[j], token_in, amount_in@)
                            < best->0.amount_out@)
                },
            decreases pools@.len() - i,
        {
            let pool = &pools[i];
            let joins = (pool.token0 == token_in && pool.token1 == token_out) || (pool.token0
                == token_out && pool.token1 == token_in);
            assert(joins == pools@[i as int].joins(token_in, token_out));
            if joins {
                match Self::calculate_pool_output(pool, token_in, amount_in) {
                    Ok(quote) => {
                        let better = match &best {
                            Some(current) => quote.amount_out.gt(&current.amount_out),
                            None => true,
                        };
                        if better {
                            best = Some(quote);
                            proof {
                                best_index = i as int;
                            }
                        }
                    },
                    Err(_) => {},
                }
            }
            i = i + 1;
        }
        match best {
            Some(q) => Ok(q),
            None => Err(no_route(&token_in, &token_out)),
        }
    }
}

/// The quote of a single-pool swap.
#[derive(Clone, Debug)]
pub struct QuoteResult {
    pub pool: PoolInfo,
    pub token_in: Address,
    pub token_out: Address,
    pub amount_in: U256,
    pub amount_out: U256,
    pub fee: U256,
    pub price_impact_bps: u32,
    pub gas_estimate: U256,
}

} // verus!
