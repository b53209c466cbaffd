use crate::u256::U256;
use vstd::prelude::*;
use vstd::string::StringExecFns;

verus! {

/// A 20-byte account or contract address, compared by its bytes.
#[derive(Clone, Copy, Eq, Debug, Hash)]
pub struct Address {
    pub bytes: [u8; 20],
}

impl PartialEq for Address {
    fn eq(&self, other: &Address) -> (r: bool) {
        let mut i: usize = 0;
        while i < 20
            invariant
                0 <= i <= 20,
                forall|j: int| 0 <= j < i ==> self.bytes[j] == other.bytes[j],
            decreases 20 - i,
        {
            if self.bytes[i] != other.bytes[i] {
                return false;
            }
            i = i + 1;
        }
        assert(self.bytes =~= other.bytes);
        true
    }
}

impl vstd::std_specs::cmp::PartialEqSpecImpl for Address {
    open spec fn obeys_eq_spec() -> bool {
        true
    }

    open spec fn eq_spec(&self, other: &Address) -> bool {
        self.bytes == other.bytes
    }
}

/// The lowercase hexadecimal digits.
pub open spec fn hex_alphabet() -> Seq<char> {
    seq!['0', '1', '2', '3', '4', '5', '6', '7', '8', '9', 'a', 'b', 'c', 'd', 'e', 'f']
}

/// Two lowercase hex digits per byte, most significant nibble first.
pub open spec fn hex_of_bytes(b: Seq<u8>) -> Seq<char>
    decreases b.len(),
{
    if b.len() == 0 {
        Seq::empty()
    } else {
        hex_of_bytes(b.drop_last()) + seq![
            hex_alphabet()[b.last() as int / 16],
            hex_alphabet()[b.last() as int % 16],
        ]
    }
}

/// The text of an address: `0x` and forty lowercase hex digits.
pub open spec fn address_text(b: Seq<u8>) -> Seq<char> {
    seq!['0', 'x'] + hex_of_bytes(b)
}

/// Relies on the `Debug` format of ethers' `Address` (`H160`), which writes `0x`
/// and then every byte as two lowercase hex digits.
#[verifier::external_body]
fn address_debug_text(a: &Address) -> (r: String)
    ensures
        r@ == address_text(a.bytes@),
{
    format!("{:?}", ethers::types::Address::from(a.bytes))
}

impl Address {
    /// The all-zero address.
    pub fn zero() -> (r: Address)
        ensures
            forall|i: int| 0 <= i < 20 ==> r.bytes[i] == 0,
    {
        Address { bytes: [0u8; 20] }
    }

    /// The address whose last eight bytes hold `v` in big-endian order.
    pub fn from_low_u64_be(v: u64) -> (r: Address)
        ensures
            forall|i: int| 0 <= i < 12 ==> r.bytes[i] == 0,
            r.bytes[12] == (v / 0x100000000000000) as u8,
            r.bytes[13] == (v / 0x1000000000000 % 0x100) as u8,
            r.bytes[14] == (v / 0x10000000000 % 0x100) as u8,
            r.bytes[15] == (v / 0x100000000 % 0x100) as u8,
            r.bytes[16] == (v / 0x1000000 % 0x100) as u8,
            r.bytes[17] == (v / 0x10000 % 0x100) as u8,
            r.bytes[18] == (v / 0x100 % 0x100) as u8,
            r.bytes[19] == (v % 0x100) as u8,
    {
        let b: [u8; 20] = [
            0,
            0,
            0,
            0,
            0,
            0,
            0,
            0,
            0,
            0,
            0,
            0,
            (v / 0x100000000000000) as u8,
            (v / 0x1000000000000 % 0x100) as u8,
            (v / 0x10000000000 % 0x100) as u8,
            (v / 0x100000000 % 0x100) as u8,
            (v / 0x1000000 % 0x100) as u8,
            (v / 0x10000 % 0x100) as u8,
            (v / 0x100 % 0x100) as u8,
            (v % 0x100) as u8,
        ];
        Address { bytes: b }
    }

    /// `0x` followed by the forty lowercase hex digits of the address.
    pub fn to_hex(&self) -> (r: String)
        ensures
            r@ == address_text(self.bytes@),
    {
        address_debug_text(self)
    }
}

/// The errors of the aggregator.
#[derive(Clone, Debug)]
pub enum AggregatorError {
    RpcError(String),
    PoolNotFound(String),
    InsufficientLiquidity(String),
    NoRouteFound { from: String, to: String },
    InvalidTokenAddress(String),
    InvalidAmount(String),
    ConfigError(String),
    CacheError(String),
    ParseError(String),
    ContractError(String),
    MathError,
}

/// The result of an aggregator operation.
pub type Result<T> = core::result::Result<T, AggregatorError>;

/// The `NoRouteFound` error for a pair of tokens, naming both by their hex text.
pub fn no_route(from: &Address, to: &Address) -> (e: AggregatorError)
    ensures
        e == (AggregatorError::NoRouteFound {
            from: e->from,
            to: e->to,
        }),
        e->from@ == address_text(from.bytes@),
        e->to@ == address_text(to.bytes@),
{
    AggregatorError::NoRouteFound { from: from.to_hex(), to: to.to_hex() }
}

/// A constant-product liquidity pool.
#[derive(Clone, Debug)]
pub struct PoolInfo {
    /// Pool contract address
    pub address: Address,
    /// First token of the pair
    pub token0: Address,
    /// Second token of the pair
    pub token1: Address,
    /// Reserve of token0
    pub reserve0: U256,
    /// Reserve of token1
    pub reserve1: U256,
    /// Fee in basis points (30 = 0.3%)
    pub fee_bps: u32,
    /// Name of the exchange the pool belongs to
    pub dex_name: String,
    /// Block number at which the reserves were read
    pub last_updated: u64,
}

impl PoolInfo {
    /// A well-formed pool has two distinct tokens and a fee below 100%.
    pub open spec fn wf(&self) -> bool {
        &&& self.token0 != self.token1
        &&& self.fee_bps < 10000
    }

    /// Whether `t` is one of the pool's two tokens.
    pub open spec fn has_token(&self, t: Address) -> bool {
        t == self.token0 || t == self.token1
    }

    /// Whether the pool joins `a` and `b`, in either order.
    pub open spec fn joins(&self, a: Address, b: Address) -> bool {
        (self.token0 == a && self.token1 == b) || (self.token0 == b && self.token1 == a)
    }

    /// The counter-token of `t`, if `t` belongs to the pool.
    pub open spec fn other_token_spec(&self, t: Address) -> Option<Address> {
        if t == self.token0 {
            Some(self.token1)
        } else if t == self.token1 {
            Some(self.token0)
        } else {
            None
        }
    }

    /// `(reserve_in, reserve_out)` for a swap that puts `t` in, if `t` belongs to the pool.
    pub open spec fn reserves_spec(&self, t: Address) -> Option<(U256, U256)> {
        if t == self.token0 {
            Some((self.reserve0, self.reserve1))
        } else if t == self.token1 {
            Some((self.reserve1, self.reserve0))
        } else {
            None
        }
    }

    /// The reserve of `t`, the token put in.
    pub open spec fn reserve_in_of(&self, t: Address) -> nat {
        if t == self.token0 {
            self.reserve0@
        } else {
            self.reserve1@
        }
    }

    /// The reserve of the counter-token of `t`, the token taken out.
    pub open spec fn reserve_out_of(&self, t: Address) -> nat {
        if t == self.token0 {
            self.reserve1@
        } else {
            self.reserve0@
        }
    }

    /// The pool of a Uniswap-V2 pair read from the chain, with the canonical 0.3% fee.
    pub fn from_pair(
        address: Address,
        token0: Address,
        token1: Address,
        reserve0: U256,
        reserve1: U256,
        dex_name: String,
        last_updated: u64,
    ) -> (r: PoolInfo)
        ensures
            r == (PoolInfo {
                address,
                token0,
                token1,
                reserve0,
                reserve1,
                fee_bps: 30,
                dex_name,
                last_updated,
            }),
    {
        PoolInfo { address, token0, token1, reserve0, reserve1, fee_bps: 30, dex_name, last_updated }
    }

    /// A field-by-field copy.
    pub fn duplicate(&self) -> (r: PoolInfo)
        ensures
            r == *self,
    {
        PoolInfo {
            address: self.address,
            token0: self.token0,
            token1: self.token1,
            reserve0: self.reserve0,
            reserve1: self.reserve1,
            fee_bps: self.fee_bps,
            dex_name: self.dex_name.clone(),
            last_updated: self.last_updated,
        }
    }

    /// The other token of the pair.
    pub fn get_other_token(&self, token: &Address) -> (r: Option<Address>)
        ensures
            r == self.other_token_spec(*token),
    {
        if *token == self.token0 {
            Some(self.token1)
        } else if *token == self.token1 {
            Some(self.token0)
        } else {
            None
        }
    }

    /// The reserves for a swap that puts `token_in` into the pool.
    pub fn get_reserves(&self, token_in: &Address) -> (r: Option<(U256, U256)>)
        ensures
            r == self.reserves_spec(*token_in),
    {
        if *token_in == self.token0 {
            Some((self.reserve0, self.reserve1))
        } else if *token_in == self.token1 {
            Some((self.reserve1, self.reserve0))
        } else {
            None
        }
    }
}

/// A single hop in a route.
#[derive(Clone, Debug)]
pub struct RouteHop {
    /// Pool used for this hop
    pub pool: Address,
    /// Token put in
    pub token_in: Address,
    /// Token taken out
    pub token_out: Address,
    /// Exchange of the pool
    pub dex_name: String,
    /// Amount put in
    pub amount_in: U256,
    /// Amount taken out
    pub amount_out: U256,
    /// Fee paid in this hop, in `token_in`
    pub fee: U256,
    /// Gas estimate for this hop
    pub gas_estimate: U256,
}

/// Sum of the fees of a sequence of hops.
pub open spec fn fee_sum(hops: Seq<RouteHop>) -> nat
    decreases hops.len(),
{
    if hops.len() == 0 {
        0
    } else {
        fee_sum(hops.drop_last()) + hops.last().fee@
    }
}

/// Sum of the gas estimates of a sequence of hops.
pub open spec fn gas_sum(hops: Seq<RouteHop>) -> nat
    decreases hops.len(),
{
    if hops.len() == 0 {
        0
    } else {
        gas_sum(hops.drop_last()) + hops.last().gas_estimate@
    }
}

/// Hops chain when each one takes what the previous one gave, in token and in amount.
pub open spec fn hops_chain(hops: Seq<RouteHop>) -> bool {
    forall|i: int|
        0 <= i < hops.len() - 1 ==> {
            &&& #[trigger] hops[i].token_out == hops[i + 1].token_in
            &&& hops[i].amount_out@ == hops[i + 1].amount_in@
        }
}

/// A complete quote for a route.
#[derive(Clone, Debug)]
pub struct RouteQuote {
    /// Input token
    pub token_in: Address,
    /// Output token
    pub token_out: Address,
    /// Input amount
    pub amount_in: U256,
    /// Expected output amount
    pub amount_out: U256,
    /// Route hops
    pub hops: Vec<RouteHop>,
    /// Total fee across all hops
    pub total_fee: U256,
    /// Total gas estimate
    pub gas_estimate: U256,
    /// Price impact in basis points
    pub price_impact_bps: u32,
    /// Route description
    pub description: String,
}

impl RouteQuote {
    /// The route's invariants: its hops run from `token_in` to `token_out`, chain
    /// one into the next, and add up to the totals.
    pub open spec fn wf(&self) -> bool {
        let h = self.hops@;
        &&& h.len() > 0
        &&& h[0].token_in == self.token_in
        &&& h.last().token_out == self.token_out
        &&& h[0].amount_in@ == self.amount_in@
        &&& h.last().amount_out@ == self.amount_out@
        &&& hops_chain(h)
        &&& fee_sum(h) == self.total_fee@
        &&& gas_sum(h) == self.gas_estimate@
    }

    /// Number of hops.
    pub fn hop_count(&self) -> (r: usize)
        ensures
            r == self.hops@.len(),
    {
        self.hops.len()
    }

    /// The token path `a → b → …`, or `Direct` for a route without hops.
    pub fn route_path(&self) -> (r: String)
        ensures
            self.hops@.len() == 0 ==> r@ == "Direct"@,
            self.hops@.len() > 0 ==> r@ == path_text(
                seq![self.token_in] + self.hops@.map_values(|h: RouteHop| h.token_out),
            ),
    {
        if self.hops.len() == 0 {
            return String::from_str("Direct");
        }
        let mut tokens: Vec<Address> = Vec::new();
        tokens.push(self.token_in);
        let mut i: usize = 0;
        while i < self.hops.len()
            invariant
                0 <= i <= self.hops@.len(),
                tokens@ == seq![self.token_in] + self.hops@.subrange(0, i as int).map_values(
                    |h: RouteHop| h.token_out,
                ),
            decreases self.hops@.len() - i,
        {
            tokens.push(self.hops[i].token_out);
            i = i + 1;
            assert(tokens@ =~= seq![self.token_in] + self.hops@.subrange(0, i as int).map_values(
                |h: RouteHop| h.token_out,
            ));
        }
        assert(self.hops@.subrange(0, i as int) =~= self.hops@);
        join_path(&tokens)
    }
}

/// The separator between tokens of a path.
pub open spec fn arrow() -> Seq<char> {
    " → "@
}

/// The hex texts of `tokens`, joined by arrows.
pub open spec fn path_text(tokens: Seq<Address>) -> Seq<char>
    decreases tokens.len(),
{
    if tokens.len() == 0 {
        Seq::empty()
    } else if tokens.len() == 1 {
        address_text(tokens[0].bytes@)
    } else {
        path_text(tokens.drop_last()) + arrow() + address_text(tokens.last().bytes@)
    }
}

/// Joins the hex texts of `tokens` with arrows.
pub fn join_path(tokens: &Vec<Address>) -> (r: String)
    ensures
        r@ == path_text(tokens@),
{
    let mut out = String::new();
    let mut i: usize = 0;
    while i < tokens.len()
        invariant
            0 <= i <= tokens@.len(),
            out@ == path_text(tokens@.subrange(0, i as int)),
        decreases tokens@.len() - i,
    {
        if i > 0 {
            out.append(" → ");
        }
        let t = tokens[i].to_hex();
        out.append(t.as_str());
        proof {
            let s = tokens@.subrange(0, i + 1);
            assert(s.drop_last() =~= tokens@.subrange(0, i as int));
            if i == 0 {
                assert(path_text(s) == address_text(s[0].bytes@));
            }
        }
        i = i + 1;
    }
    assert(tokens@.subrange(0, i as int) =~= tokens@);
    out
}

/// Token metadata.
#[derive(Clone, Debug)]
pub struct TokenInfo {
    pub address: Address,
    pub symbol: String,
    pub name: String,
    pub decimals: u8,
}

impl TokenInfo {
    /// `symbol (name)`.
    pub fn label(&self) -> (r: String)
        ensures
            r@ == self.symbol@ + " ("@ + self.name@ + ")"@,
    {
        let mut s = self.symbol.clone();
        s.append(" (");
        s.append(self.name.as_str());
        s.append(")");
        s
    }
}

/// The objective a route search optimises.
#[derive(Clone, Copy, PartialEq, Eq, Structural, Debug)]
pub enum OptimizationStrategy {
    /// Maximize output amount (default)
    Price,
    /// Minimize gas cost
    Gas,
    /// Minimize slippage/price impact
    Slippage,
    /// Balanced optimization
    Balanced,
}

impl OptimizationStrategy {
    /// The scoring weights `(price, gas, slippage)`, in tenths.
    pub open spec fn weights_spec(self) -> (u32, u32, u32) {
        match self {
            OptimizationStrategy::Price => (10, 1, 1),
            OptimizationStrategy::Gas => (3, 10, 1),
            OptimizationStrategy::Slippage => (3, 1, 10),
            OptimizationStrategy::Balanced => (5, 3, 2),
        }
    }

    /// The scoring weights `(price, gas, slippage)`, in tenths:
    /// Price 1.0/0.1/0.1, Gas 0.3/1.0/0.1, Slippage 0.3/0.1/1.0, Balanced 0.5/0.3/0.2.
    pub fn weight_tenths(&self) -> (r: (u32, u32, u32))
        ensures
            r == self.weights_spec(),
    {
        match self {
            OptimizationStrategy::Price => (10, 1, 1),
            OptimizationStrategy::Gas => (3, 10, 1),
            OptimizationStrategy::Slippage => (3, 1, 10),
            OptimizationStrategy::Balanced => (5, 3, 2),
        }
    }

    /// The strategy's name.
    pub fn name(&self) -> (r: &'static str)
        ensures
            *self == OptimizationStrategy::Price ==> r@ == "Price"@,
            *self == OptimizationStrategy::Gas ==> r@ == "Gas"@,
            *self == OptimizationStrategy::Slippage ==> r@ == "Slippage"@,
            *self == OptimizationStrategy::Balanced ==> r@ == "Balanced"@,
    {
        match self {
            OptimizationStrategy::Price => "Price",
            OptimizationStrategy::Gas => "Gas",
            OptimizationStrategy::Slippage => "Slippage",
            OptimizationStrategy::Balanced => "Balanced",
        }
    }
}

} // verus!
