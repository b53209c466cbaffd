use crate::quote::{QuoteEngine, fees_valid, first_failure, hops_ok, is_route_hop, quote_error, route_shape_ok, SWAP_GAS};
use crate::types::{
    Address, AggregatorError, OptimizationStrategy, PoolInfo, Result, RouteHop, RouteQuote,
    address_text, fee_sum, gas_sum, join_path, no_route, path_text,
};
use crate::u256::{U256, u256_limit};
use vstd::prelude::*;
use vstd::string::StringExecFns;

verus! {

/// The longest route the router searches, in hops.
pub const MAX_HOPS_CAP: usize = 4;

/// One direction of a pool in the token graph: from a token, through a pool, to the other token.
#[derive(Clone, Copy, Debug)]
pub struct Edge {
    pub from: Address,
    pub pool: Address,
    pub to: Address,
}

/// A pool with both reserves positive.
pub open spec fn live(p: PoolInfo) -> bool {
    p.reserve0@ > 0 && p.reserve1@ > 0
}

/// The edges of the token graph, in pool order: each live pool gives token0 → token1
/// and then token1 → token0.
pub open spec fn adjacency_edges(pools: Seq<PoolInfo>) -> Seq<Edge>
    decreases pools.len(),
{
    if pools.len() == 0 {
        Seq::empty()
    } else {
        let rest = adjacency_edges(pools.drop_last());
        let p = pools.last();
        if live(p) {
            rest + seq![
                Edge { from: p.token0, pool: p.address, to: p.token1 },
                Edge { from: p.token1, pool: p.address, to: p.token0 },
            ]
        } else {
            rest
        }
    }
}

/// The `(pool, next token)` pairs that leave `t`, in edge order.
pub open spec fn edges_from(edges: Seq<Edge>, t: Address) -> Seq<(Address, Address)>
    decreases edges.len(),
{
    if edges.len() == 0 {
        Seq::empty()
    } else {
        let rest = edges_from(edges.drop_last(), t);
        if edges.last().from == t {
            rest.push((edges.last().pool, edges.last().to))
        } else {
            rest
        }
    }
}

/// Whether the graph has an edge from `from` through `pool` to `to`.
pub open spec fn has_edge(edges: Seq<Edge>, from: Address, pool: Address, to: Address) -> bool {
    exists|k: int|
        0 <= k < edges.len() && #[trigger] edges[k] == (Edge { from, pool, to })
}

/// A path from `start` along edges of the graph that repeats no token.
pub open spec fn path_valid(edges: Seq<Edge>, start: Address, tokens: Seq<Address>, pools: Seq<Address>) -> bool {
    &&& tokens.len() == pools.len() + 1
    &&& tokens[0] == start
    &&& tokens.no_duplicates()
    &&& forall|i: int|
        0 <= i < pools.len() ==> #[trigger] has_edge(edges, tokens[i], pools[i], tokens[i + 1])
}

/// A complete route: a valid path that ends at `end` with between one and `max` hops.
pub open spec fn route_found(
    edges: Seq<Edge>,
    start: Address,
    end: Address,
    tokens: Seq<Address>,
    pools: Seq<Address>,
    max: nat,
) -> bool {
    &&& path_valid(edges, start, tokens, pools)
    &&& tokens.last() == end
    &&& 1 <= pools.len() <= max
}

/// The token graph: for each token, the pools that leave it and where they lead.
pub struct Adjacency {
    pub edges: Vec<Edge>,
}

impl Adjacency {
    /// The `(pool, next token)` pairs that leave `token`.
    pub fn get(&self, token: &Address) -> (r: Vec<(Address, Address)>)
        ensures
            r@ == edges_from(self.edges@, *token),
            forall|k: int| 0 <= k < r@.len() ==> has_edge(self.edges@, *token, #[trigger] r@[k].0, r@[k].1),
    {
        let mut r: Vec<(Address, Address)> = Vec::new();
        let mut i: usize = 0;
        while i < self.edges.len()
            invariant
                0 <= i <= self.edges@.len(),
                r@ == edges_from(self.edges@.subrange(0, i as int), *token),
                forall|k: int| 0 <= k < r@.len() ==> has_edge(self.edges@, *token, #[trigger] r@[k].0, r@[k].1),
            decreases self.edges@.len() - i,
        {
            let e = self.edges[i];
            proof {
                assert(self.edges@.subrange(0, i + 1).drop_last() =~= self.edges@.subrange(0, i as int));
            }
            if e.from == *token {
                r.push((e.pool, e.to));
                proof {
                    assert(self.edges@[i as int] == (Edge { from: *token, pool: e.pool, to: e.to }));
                }
            }
            i = i + 1;
        }
        assert(self.edges@.subrange(0, i as int) =~= self.edges@);
        r
    }

    /// Whether any pool leaves `token`.
    pub fn contains_key(&self, token: &Address) -> (r: bool)
        ensures
            r == (edges_from(self.edges@, *token).len() > 0),
    {
        self.get(token).len() > 0
    }
}

/// A route through pools: the tokens visited and the pools used between them.
pub struct Route {
    pub tokens: Vec<Address>,
    pub pools: Vec<Address>,
}

/// A copy of a list of addresses.
fn copy_addresses(v: &Vec<Address>) -> (r: Vec<Address>)
    ensures
        r@ == v@,
{
    let mut r: Vec<Address> = Vec::new();
    let mut i: usize = 0;
    while i < v.len()
        invariant
            0 <= i <= v@.len(),
            r@ == v@.subrange(0, i as int),
        decreases v@.len() - i,
    {
        r.push(v[i]);
        i = i + 1;
        assert(r@ =~= v@.subrange(0, i as int));
    }
    assert(v@.subrange(0, i as int) =~= v@);
    r
}

/// Whether `t` occurs in `v`.
fn contains_address(v: &Vec<Address>, t: &Address) -> (r: bool)
    ensures
        r == v@.contains(*t),
{
    let mut i: usize = 0;
    while i < v.len()
        invariant
            0 <= i <= v@.len(),
            forall|k: int| 0 <= k < i ==> v@[k] != *t,
        decreases v@.len() - i,
    {
        if v[i] == *t {
            return true;
        }
        i = i + 1;
    }
    false
}

/// Whether two lists of addresses are equal.
fn same_addresses(a: &Vec<Address>, b: &Vec<Address>) -> (r: bool)
    ensures
        r == (a@ == b@),
{
    if a.len() != b.len() {
        return false;
    }
    let mut i: usize = 0;
    while i < a.len()
        invariant
            0 <= i <= a@.len(),
            a@.len() == b@.len(),
            forall|k: int| 0 <= k < i ==> a@[k] == b@[k],
        decreases a@.len() - i,
    {
        if a[i] != b[i] {
            return false;
        }
        i = i + 1;
    }
    assert(a@ =~= b@);
    true
}

proof fn lemma_push_no_duplicates(s: Seq<Address>, t: Address)
    requires
        s.no_duplicates(),
        !s.contains(t),
    ensures
        s.push(t).no_duplicates(),
{
    let p = s.push(t);
    assert forall|i: int, j: int| 0 <= i < p.len() && 0 <= j < p.len() && i != j implies p[i] != p[j] by {
        if i == s.len() {
            assert(s[j] == p[j]);
        } else if j == s.len() {
            assert(s[i] == p[i]);
        }
    }
}

/// The extension of a valid path by one more edge is valid.
proof fn lemma_extend_path(
    edges: Seq<Edge>,
    start: Address,
    tokens: Seq<Address>,
    pools: Seq<Address>,
    pool: Address,
    next: Address,
)
    requires
        path_valid(edges, start, tokens, pools),
        !tokens.contains(next),
        has_edge(edges, tokens.last(), pool, next),
    ensures
        path_valid(edges, start, tokens.push(next), pools.push(pool)),
{
    lemma_push_no_duplicates(tokens, next);
    let ext_tokens = tokens.push(next);
    let ext_pools = pools.push(pool);
    assert forall|i: int| 0 <= i < ext_pools.len() implies #[trigger] has_edge(edges, ext_tokens[i], ext_pools[i], ext_tokens[i + 1]) by {
        if i < pools.len() {
            assert(has_edge(edges, tokens[i], pools[i], tokens[i + 1]));
        }
    }
}

/// A quoted route's price impact: 10 basis points per hop, at most 10000.
pub open spec fn route_impact(hop_count: nat) -> nat {
    if hop_count * 10 > 10000 {
        10000
    } else {
        hop_count * 10
    }
}

/// Whether `i` is the first index of a pool with address `a`.
pub open spec fn first_with_address(pools: Seq<PoolInfo>, a: Address, i: int) -> bool {
    &&& 0 <= i < pools.len()
    &&& pools[i].address == a
    &&& forall|j: int| 0 <= j < i ==> pools[j].address != a
}

/// Whether some pool has address `a`.
pub open spec fn has_pool(pools: Seq<PoolInfo>, a: Address) -> bool {
    exists|i: int| 0 <= i < pools.len() && #[trigger] pools[i].address == a
}

/// The first pool with address `a`.
pub open spec fn pool_at(pools: Seq<PoolInfo>, a: Address) -> PoolInfo {
    pools[choose|i: int| first_with_address(pools, a, i)]
}

/// The pools of a route, each looked up by address.
pub open spec fn route_pools(pools: Seq<PoolInfo>, addrs: Seq<Address>) -> Seq<PoolInfo> {
    addrs.map_values(|a: Address| pool_at(pools, a))
}

proof fn lemma_first_unique(pools: Seq<PoolInfo>, a: Address, i: int, j: int)
    requires
        first_with_address(pools, a, i),
        first_with_address(pools, a, j),
    ensures
        i == j,
{
}

/// Looks up the first pool with address `a`.
fn find_pool(pools: &[PoolInfo], a: &Address) -> (r: Option<usize>)
    ensures
        r is Some ==> first_with_address(pools@, *a, r->0 as int) && pool_at(pools@, *a)
            == pools@[r->0 as int],
        r is None ==> !has_pool(pools@, *a),
{
    let mut i: usize = 0;
    while i < pools.len()
        invariant
            0 <= i <= pools@.len(),
            forall|j: int| 0 <= j < i ==> pools@[j].address != *a,
        decreases pools@.len() - i,
    {
        if pools[i].address == *a {
            proof {
                assert(first_with_address(pools@, *a, i as int));
                let c = choose|k: int| first_with_address(pools@, *a, k);
                lemma_first_unique(pools@, *a, i as int, c);
            }
            return Some(i);
        }
        i = i + 1;
    }
    None
}

/// Whether a route can be quoted over `pools`: each of its pools is found, its shape is
/// right, every hop can be quoted and the fees add up to less than 2^256.
pub open spec fn route_quotable(pools: Seq<PoolInfo>, tokens: Seq<Address>, addrs: Seq<Address>, amount_in: nat) -> bool {
    let rp = route_pools(pools, addrs);
    &&& forall|k: int| 0 <= k < addrs.len() ==> has_pool(pools, #[trigger] addrs[k])
    &&& route_shape_ok(rp, tokens)
    &&& hops_ok(rp, tokens, amount_in, rp.len())
    &&& fee_total_fits(rp, tokens, amount_in)
}

/// Whether `q` is the quote of the route through `tokens` and the pools at `addrs`.
pub open spec fn is_route_quote(q: RouteQuote, pools: Seq<PoolInfo>, tokens: Seq<Address>, addrs: Seq<Address>, amount_in: U256) -> bool {
    let rp = route_pools(pools, addrs);
    &&& q.wf()
    &&& route_shape_ok(rp, tokens)
    &&& hops_ok(rp, tokens, amount_in@, rp.len())
    &&& q.hops@.len() == rp.len()
    &&& forall|i: int| 0 <= i < rp.len() ==> is_route_hop(#[trigger] q.hops@[i], rp, tokens, amount_in@, i)
    &&& q.token_in == tokens[0]
    &&& q.token_out == tokens.last()
    &&& q.amount_in == amount_in
    &&& q.price_impact_bps as nat == route_impact(q.hops@.len())
    &&& q.description@ == path_text(tokens)
}

/// The candidate routes of a search: every route is a valid path from `token_in` to
/// `token_out` of at most `cap` hops, no two use the same pools, and every such path has
/// its pools among them.
pub open spec fn candidates_ok(rs: Seq<Route>, pools: Seq<PoolInfo>, token_in: Address, token_out: Address, cap: nat) -> bool {
    &&& forall|k: int|
        0 <= k < rs.len() ==> route_found(
            adjacency_edges(pools),
            token_in,
            token_out,
            #[trigger] rs[k].tokens@,
            rs[k].pools@,
            cap,
        )
    &&& keys_unique(rs)
    &&& forall|t: Seq<Address>, p: Seq<Address>|
        #[trigger] path_valid(adjacency_edges(pools), token_in, t, p) && t.last() == token_out && 1
            <= p.len() <= cap ==> key_in(rs, p)
}

/// The routes of `rs` that can be quoted, in order.
pub open spec fn quotable_routes(rs: Seq<Route>, pools: Seq<PoolInfo>, amount_in: nat) -> Seq<Route> {
    rs.filter(|rt: Route| route_quotable(pools, rt.tokens@, rt.pools@, amount_in))
}

/// `r` holds the quotes, in order, of the quotable routes among the candidate routes
/// from `token_in` to `token_out` over `pools`, and is `Ok` exactly when there is one.
pub open spec fn routes_quoted(
    r: Result<Vec<RouteQuote>>,
    pools: Seq<PoolInfo>,
    token_in: Address,
    token_out: Address,
    amount_in: U256,
    max_hops: nat,
    cap: nat,
) -> bool {
    exists|rs: Seq<Route>|
        candidates_ok(rs, pools, token_in, token_out, cap) && paths(rs) == candidates_spec(
            pools,
            token_in,
            token_out,
            max_hops,
        ) && ({
            let good = quotable_routes(rs, pools, amount_in@);
            &&& r is Ok <==> good.len() > 0
            &&& r is Ok ==> r->Ok_0@.len() == good.len() && forall|k: int|
                0 <= k < good.len() ==> is_route_quote(
                    #[trigger] r->Ok_0@[k],
                    pools,
                    good[k].tokens@,
                    good[k].pools@,
                    amount_in,
                )
        })
}

/// Router for finding swap routes.
pub struct Router {
    pub optimization: OptimizationStrategy,
    pub max_hops: usize,
}

impl Router {
    /// The most hops a candidate route may have: `max_hops`, and at least one.
    pub open spec fn hop_cap(&self) -> nat {
        if self.max_hops == 0 {
            1
        } else {
            self.max_hops as nat
        }
    }

    /// A router; `max_hops` is capped at 4.
    pub fn new(optimization: OptimizationStrategy, max_hops: usize) -> (r: Router)
        ensures
            r.optimization == optimization,
            r.max_hops == if max_hops < MAX_HOPS_CAP {
                max_hops
            } else {
                MAX_HOPS_CAP
            },
    {
        let capped = if max_hops < MAX_HOPS_CAP {
            max_hops
        } else {
            MAX_HOPS_CAP
        };
        Router { optimization, max_hops: capped }
    }

    /// The token graph of the pools whose reserves are both positive.
    pub fn build_adjacency_map(&self, pools: &[PoolInfo]) -> (r: Adjacency)
        ensures
            r.edges@ == adjacency_edges(pools@),
    {
        let mut edges: Vec<Edge> = Vec::new();
        let mut i: usize = 0;
        while i < pools.len()
            invariant
                0 <= i <= pools@.len(),
                edges@ == adjacency_edges(pools@.subrange(0, i as int)),
            decreases pools@.len() - i,
        {
            let pool = &pools[i];
            proof {
                assert(pools@.subrange(0, i + 1).drop_last() =~= pools@.subrange(0, i as int));
            }
            if !pool.reserve0.is_zero() && !pool.reserve1.is_zero() {
                edges.push(Edge { from: pool.token0, pool: pool.address, to: pool.token1 });
                edges.push(Edge { from: pool.token1, pool: pool.address, to: pool.token0 });
                proof {
                    let p = pools@.subrange(0, i + 1).last();
                    assert(edges@ =~= adjacency_edges(pools@.subrange(0, i as int)) + seq![
                        Edge { from: p.token0, pool: p.address, to: p.token1 },
                        Edge { from: p.token1, pool: p.address, to: p.token0 },
                    ]);
                }
            }
            i = i + 1;
        }
        assert(pools@.subrange(0, i as int) =~= pools@);
        Adjacency { edges }
    }

    /// All routes from `start` to `end` of at most `max_depth` hops that repeat no token,
    /// found breadth-first: shorter routes come first.
    pub fn bfs_routes(&self, adjacency: &Adjacency, start: Address, end: Address, max_depth: usize) -> (r: Vec<Route>)
        ensures
            paths(r@) == bfs_spec(adjacency.edges@, seq![(seq![start], Seq::<Address>::empty())], end, max_depth as nat),
            routes_complete(adjacency.edges@, start, end, r@, max_depth as nat),
            forall|k: int|
                0 <= k < r@.len() ==> route_found(
                    adjacency.edges@,
                    start,
                    end,
                    #[trigger] r@[k].tokens@,
                    r@[k].pools@,
                    max_depth as nat,
                ),
    {
        let mut routes: Vec<Route> = Vec::new();
        let mut frontier: Vec<Route> = Vec::new();
        let mut first: Vec<Address> = Vec::new();
        first.push(start);
        proof {
            assert(first@.no_duplicates());
        }
        frontier.push(Route { tokens: first, pools: Vec::new() });
        proof {
            let edges = adjacency.edges@;
            assert forall|t: Seq<Address>, p: Seq<Address>|
                path_valid(edges, start, t, p) && p.len() == 0 && avoids_after_start(t, end) implies #[trigger] holds_path(frontier@, t, p) by {
                assert(t =~= frontier@[0].tokens@);
                assert(p =~= frontier@[0].pools@);
            }
        }
        let ghost init = seq![(seq![start], Seq::<Address>::empty())];
        let ghost target = bfs_spec(adjacency.edges@, init, end, max_depth as nat);
        proof {
            assert(paths(frontier@) =~= init);
            assert(paths(routes@) =~= Seq::empty());
            assert(paths(routes@) + target =~= target);
        }
        let mut depth: usize = 0;
        while depth < max_depth
            invariant
                paths(routes@) + bfs_spec(adjacency.edges@, paths(frontier@), end, (max_depth - depth) as nat) == target,
                level_valid(adjacency.edges@, start, frontier@, depth as nat),
                all_found(adjacency.edges@, start, end, routes@, max_depth as nat),
                level_complete(adjacency.edges@, start, end, frontier@, depth as nat),
                routes_complete(adjacency.edges@, start, end, routes@, depth as nat),
                depth <= max_depth,
            decreases max_depth - depth,
        {
            let ghost r0 = paths(routes@);
            let ghost level = expand_spec(adjacency.edges@, paths(frontier@), end);
            let ghost rest = bfs_spec(adjacency.edges@, level.1, end, (max_depth - depth - 1) as nat);
            assert(bfs_spec(adjacency.edges@, paths(frontier@), end, (max_depth - depth) as nat) == level.0 + rest);
            frontier = expand_level(adjacency, &frontier, start, end, max_depth, depth, &mut routes);
            depth = depth + 1;
            assert(paths(routes@) + rest =~= r0 + (level.0 + rest));
        }
        assert(paths(routes@) + Seq::empty() =~= paths(routes@));
        routes
    }

    /// Drops every route whose pool sequence already occurred; the first one is kept.
    pub fn deduplicate_routes(&self, routes: Vec<Route>) -> (r: Vec<Route>)
        ensures
            paths(r@) == dedup_spec(paths(routes@)),
            drawn_from(r@, routes@),
            forall|i: int| 0 <= i < routes@.len() ==> key_in(r@, #[trigger] routes@[i].pools@),
            keys_unique(r@),
    {
        let mut unique: Vec<Route> = Vec::new();
        let mut i: usize = 0;
        while i < routes.len()
            invariant
                0 <= i <= routes@.len(),
                drawn_from(unique@, routes@),
                forall|m: int| 0 <= m < i ==> key_in(unique@, #[trigger] routes@[m].pools@),
                keys_unique(unique@),
                paths(unique@) == dedup_spec(paths(routes@).take(i as int)),
            decreases routes@.len() - i,
        {
            let route = &routes[i];
            let ghost pr = paths(routes@);
            let ghost d = paths(unique@);
            proof {
                assert(pr.take(i + 1).drop_last() =~= pr.take(i as int));
                assert(pr.take(i + 1).last() == (route.tokens@, route.pools@));
            }
            let seen = key_present(&unique, &route.pools);
            if !seen {
                let copy = Route { tokens: copy_addresses(&route.tokens), pools: copy_addresses(&route.pools) };
                proof {
                    lemma_push_keeps(unique@, copy, routes@, i as int);
                    lemma_paths_push(unique@, copy);
                    assert(!exists|k: int| 0 <= k < d.len() && d[k].1 == route.pools@) by {
                        if exists|k: int| 0 <= k < d.len() && d[k].1 == route.pools@ {
                            let k = choose|k: int| 0 <= k < d.len() && d[k].1 == route.pools@;
                            assert(unique@[k].pools@ == route.pools@);
                        }
                    }
                }
                unique.push(copy);
            } else {
                proof {
                    let q = choose|q: int| 0 <= q < unique@.len() && (#[trigger] unique@[q]).pools@ == route.pools@;
                    assert(d[q].1 == route.pools@);
                }
            }
            i = i + 1;
        }
        assert(paths(routes@).take(i as int) =~= paths(routes@));
        unique
    }

    /// All candidate routes from `token_in` to `token_out`: the direct ones, then those
    /// of two or more hops found breadth-first, without repeated pool sequences.
    pub fn find_all_routes(&self, pools: &[PoolInfo], token_in: Address, token_out: Address) -> (r: Result<Vec<Route>>)
        ensures
            r is Ok,
            candidates_ok(r->Ok_0@, pools@, token_in, token_out, self.hop_cap()),
            paths(r->Ok_0@) == candidates_spec(pools@, token_in, token_out, self.max_hops as nat),
    {
        let adjacency = self.build_adjacency_map(pools);
        let ghost edges = adjacency.edges@;
        let ghost cap: nat = if self.max_hops == 0 {
            1
        } else {
            self.max_hops as nat
        };
        let mut all_routes: Vec<Route> = Vec::new();
        let connections = adjacency.get(&token_in);
        let mut j: usize = 0;
        while j < connections.len()
            invariant
                edges == adjacency.edges@,
                edges == adjacency_edges(pools@),
                cap >= 1,
                connections@ == edges_from(edges, token_in),
                forall|k: int| 0 <= k < connections@.len() ==> has_edge(edges, token_in, #[trigger] connections@[k].0, connections@[k].1),
                0 <= j <= connections@.len(),
                forall|k: int|
                    0 <= k < all_routes@.len() ==> route_found(
                        edges,
                        token_in,
                        token_out,
                        #[trigger] all_routes@[k].tokens@,
                        all_routes@[k].pools@,
                        cap,
                    ),
                forall|k: int|
                    0 <= k < j && connections@[k].1 == token_out && token_in != token_out ==> has_single(
                        all_routes@,
                        #[trigger] connections@[k].0,
                    ),
                paths(all_routes@) == direct_from(connections@.take(j as int), token_in, token_out),
            decreases connections@.len() - j,
        {
            let (pool_addr, next_token) = connections[j];
            proof {
                assert(connections@.take(j + 1).drop_last() =~= connections@.take(j as int));
                assert(connections@.take(j + 1).last() == connections@[j as int]);
            }
            if next_token == token_out && token_in != token_out {
                let mut tokens: Vec<Address> = Vec::new();
                tokens.push(token_in);
                tokens.push(token_out);
                let mut route_pools: Vec<Address> = Vec::new();
                route_pools.push(pool_addr);
                proof {
                    assert(has_edge(edges, token_in, connections@[j as int].0, connections@[j as int].1));
                    assert(tokens@.no_duplicates());
                    assert(has_edge(edges, tokens@[0], route_pools@[0], tokens@[1]));
                    assert(route_pools@ =~= seq![pool_addr]);
                }
                let route = Route { tokens, pools: route_pools };
                proof {
                    lemma_single_push(all_routes@, route);
                    assert(all_routes@.push(route)[all_routes@.len() as int] == route);
                    lemma_paths_push(all_routes@, route);
                    assert(route.tokens@ =~= seq![token_in, token_out]);
                }
                all_routes.push(route);
            }
            j = j + 1;
        }
        let ghost direct = paths(all_routes@);
        proof {
            assert(connections@.take(j as int) =~= connections@);
            lemma_edges_from_complete(edges, token_in);
            assert forall|p: Address|
                #[trigger] has_edge(edges, token_in, p, token_out) && token_in != token_out implies has_single(all_routes@, p) by {
                assert(edges_from(edges, token_in).contains((p, token_out)));
                let k = choose|k: int| 0 <= k < connections@.len() && connections@[k] == (p, token_out);
                assert(connections@[k].1 == token_out);
                assert(connections@[k].0 == p);
            }
        }
        if self.max_hops > 1 {
            let multi = self.bfs_routes(&adjacency, token_in, token_out, self.max_hops);
            let mut m: usize = 0;
            while m < multi.len()
                invariant
                    edges == adjacency.edges@,
                    cap == self.max_hops as nat,
                    0 <= m <= multi@.len(),
                    forall|k: int| 0 <= k < m ==> key_in(all_routes@, #[trigger] multi@[k].pools@),
                    paths(all_routes@) == direct + paths(multi@).take(m as int),
                    forall|k: int|
                        0 <= k < multi@.len() ==> route_found(
                            edges,
                            token_in,
                            token_out,
                            #[trigger] multi@[k].tokens@,
                            multi@[k].pools@,
                            self.max_hops as nat,
                        ),
                    forall|k: int|
                        0 <= k < all_routes@.len() ==> route_found(
                            edges,
                            token_in,
                            token_out,
                            #[trigger] all_routes@[k].tokens@,
                            all_routes@[k].pools@,
                            cap,
                        ),
                    forall|p: Address|
                        #[trigger] has_edge(edges, token_in, p, token_out) && token_in != token_out
                            ==> has_single(all_routes@, p),
                decreases multi@.len() - m,
            {
                let route = &multi[m];
                let copy = Route { tokens: copy_addresses(&route.tokens), pools: copy_addresses(&route.pools) };
                proof {
                    lemma_single_push(all_routes@, copy);
                    lemma_key_in_push(all_routes@, copy);
                    lemma_paths_push(all_routes@, copy);
                    assert(paths(multi@).take(m + 1) =~= paths(multi@).take(m as int).push((copy.tokens@, copy.pools@)));
                    assert(paths(all_routes@.push(copy)) =~= direct + paths(multi@).take(m + 1));
                }
                all_routes.push(copy);
                m = m + 1;
            }
            assert(paths(multi@).take(m as int) =~= paths(multi@));
            proof {
                assert forall|t: Seq<Address>, p: Seq<Address>|
                    #[trigger] path_valid(edges, token_in, t, p) && t.last() == token_out && 1 <= p.len() <= cap implies key_in(all_routes@, p) by {
                    if p.len() == 1 {
                        lemma_single_hop_key(edges, token_in, token_out, t, p, all_routes@);
                    } else {
                        assert(holds_path(multi@, t, p));
                        let k = choose|k: int| 0 <= k < multi@.len() && (#[trigger] multi@[k]).tokens@ == t && multi@[k].pools@ == p;
                        assert(key_in(all_routes@, multi@[k].pools@));
                    }
                }
            }
        } else {
            proof {
                assert(paths(all_routes@) =~= direct + Seq::empty());
                assert forall|t: Seq<Address>, p: Seq<Address>|
                    #[trigger] path_valid(edges, token_in, t, p) && t.last() == token_out && 1 <= p.len() <= cap implies key_in(all_routes@, p) by {
                    lemma_single_hop_key(edges, token_in, token_out, t, p, all_routes@);
                }
            }
        }
        let ghost all = all_routes@;
        let unique = self.deduplicate_routes(all_routes);
        proof {
            assert forall|k: int| 0 <= k < unique@.len() implies route_found(
                edges,
                token_in,
                token_out,
                #[trigger] unique@[k].tokens@,
                unique@[k].pools@,
                cap,
            ) by {
                let i = choose|i: int| 0 <= i < all.len() && (#[trigger] unique@[k]).tokens@ == (#[trigger] all[i]).tokens@
                    && unique@[k].pools@ == all[i].pools@;
                assert(route_found(edges, token_in, token_out, all[i].tokens@, all[i].pools@, cap));
            }
            assert forall|t: Seq<Address>, p: Seq<Address>|
                #[trigger] path_valid(edges, token_in, t, p) && t.last() == token_out && 1 <= p.len() <= cap implies key_in(unique@, p) by {
                assert(key_in(all, p));
                let i = choose|i: int| 0 <= i < all.len() && (#[trigger] all[i]).pools@ == p;
                assert(key_in(unique@, all[i].pools@));
            }
        }
        Ok(unique)
    }

    /// The price impact of a route: 10 basis points per hop, at most 10000.
    pub fn estimate_route_price_impact(&self, hops: &[RouteHop]) -> (r: u32)
        ensures
            r as nat == route_impact(hops@.len()),
            r <= 10000,
    {
        if hops.len() > 1000 {
            10000
        } else {
            (hops.len() * 10) as u32
        }
    }

    /// The quote of a route: its pools are looked up by address, the hops quoted in turn,
    /// and fees and gas added up.
    pub fn calculate_route_quote(&self, route: &Route, pools: &[PoolInfo], amount_in: U256) -> (r: Result<RouteQuote>)
        requires
            fees_valid(pools@),
        ensures
            (exists|k: int| 0 <= k < route.pools@.len() && !has_pool(pools@, #[trigger] route.pools@[k]))
                ==> r is Err && r->Err_0 is PoolNotFound,
            r is Ok <==> route_quotable(pools@, route.tokens@, route.pools@, amount_in@),
            r is Ok ==> is_route_quote(r->Ok_0, pools@, route.tokens@, route.pools@, amount_in),
            (forall|k: int| 0 <= k < route.pools@.len() ==> has_pool(pools@, #[trigger] route.pools@[k]))
                ==> {
                let rp = route_pools(pools@, route.pools@);
                &&& !route_shape_ok(rp, route.tokens@) ==> r is Err && r->Err_0 is InvalidAmount
                &&& route_shape_ok(rp, route.tokens@) && !hops_ok(rp, route.tokens@, amount_in@, rp.len())
                    ==> r is Err && exists|j: nat|
                    #[trigger] first_failure(rp, route.tokens@, amount_in@, j) && quote_error(
                        r->Err_0,
                        rp[j as int],
                        route.tokens@[j as int],
                        crate::quote::hop_input(rp, route.tokens@, amount_in@, j),
                    )
                &&& route_shape_ok(rp, route.tokens@) && hops_ok(rp, route.tokens@, amount_in@, rp.len())
                    ==> (r is Ok <==> fee_total_fits(rp, route.tokens@, amount_in@))
                &&& r is Err && route_shape_ok(rp, route.tokens@) && hops_ok(rp, route.tokens@, amount_in@, rp.len())
                    ==> r->Err_0 is MathError
            },
    {
        let mut route_pools_vec: Vec<PoolInfo> = Vec::new();
        let mut k: usize = 0;
        while k < route.pools.len()
            invariant
                0 <= k <= route.pools@.len(),
                fees_valid(pools@),
                route_pools_vec@ == route_pools(pools@, route.pools@.subrange(0, k as int)),
                fees_valid(route_pools_vec@),
                forall|q: int| 0 <= q < k ==> has_pool(pools@, #[trigger] route.pools@[q]),
            decreases route.pools@.len() - k,
        {
            match find_pool(pools, &route.pools[k]) {
                Some(idx) => {
                    assert(pools@[idx as int].address == route.pools@[k as int]);
                    route_pools_vec.push(pools[idx].duplicate());
                    proof {
                        assert(route_pools_vec@ =~= route_pools(pools@, route.pools@.subrange(0, k + 1)));
                    }
                },
                None => {
                    return Err(AggregatorError::PoolNotFound(String::from_str("Pool not found in cache")));
                },
            }
            k = k + 1;
        }
        assert(route.pools@.subrange(0, k as int) =~= route.pools@);
        assert(forall|q: int| 0 <= q < route.pools@.len() ==> has_pool(pools@, #[trigger] route.pools@[q]));
        let ghost rp = route_pools_vec@;
        let hops = QuoteEngine::calculate_route_output(route_pools_vec.as_slice(), route.tokens.as_slice(), amount_in)?;
        let ghost tokens = route.tokens@;
        let mut total_fee = U256::zero();
        let mut gas_estimate = U256::zero();
        let mut h: usize = 0;
        while h < hops.len()
            invariant
                0 <= h <= hops@.len(),
                hops@.len() == rp.len(),
                forall|i: int| 0 <= i < rp.len() ==> is_route_hop(#[trigger] hops@[i], rp, tokens, amount_in@, i),
                total_fee@ == fee_sum(hops@.subrange(0, h as int)),
                gas_estimate@ == gas_sum(hops@.subrange(0, h as int)),
                gas_estimate@ == SWAP_GAS as nat * h as nat,
                forall|q: int| 0 <= q < route.pools@.len() ==> has_pool(pools@, #[trigger] route.pools@[q]),
                rp == route_pools(pools@, route.pools@),
                tokens == route.tokens@,
                route_shape_ok(rp, tokens),
                hops_ok(rp, tokens, amount_in@, rp.len()),
            decreases hops@.len() - h,
        {
            proof {
                assert(hops@.subrange(0, h + 1).drop_last() =~= hops@.subrange(0, h as int));
                assert(is_route_hop(hops@[h as int], rp, tokens, amount_in@, h as int));
            }
            total_fee = match total_fee.checked_add(&hops[h].fee) {
                Some(v) => v,
                None => {
                    proof {
                        lemma_fee_sum_prefix(hops@, h as nat + 1);
                        assert(!fee_total_fits(rp, tokens, amount_in@)) by {
                            lemma_fee_sum_of_hops(hops@, rp, tokens, amount_in@);
                        }
                    }
                    return Err(AggregatorError::MathError);
                },
            };
            gas_estimate = match gas_estimate.checked_add(&hops[h].gas_estimate) {
                Some(v) => v,
                None => {
                    proof {
                        let hh = h as nat;
                        assert(SWAP_GAS as nat * hh + SWAP_GAS as nat == SWAP_GAS as nat * (hh + 1))
                            by (nonlinear_arith);
                        assert(SWAP_GAS as nat * (hh + 1) < u256_limit()) by (nonlinear_arith)
                            requires
                                hh < 18446744073709551616,
                                u256_limit() == crate::u256::limb_base() * crate::u256::limb_base()
                                    * crate::u256::limb_base() * crate::u256::limb_base(),
                                crate::u256::limb_base() == 18446744073709551616,
                        ;
                    }
                    return Err(AggregatorError::MathError);
                },
            };
            proof {
                let hh = h as nat;
                assert(SWAP_GAS as nat * hh + SWAP_GAS as nat == SWAP_GAS as nat * (hh + 1))
                    by (nonlinear_arith);
            }
            h = h + 1;
        }
        assert(hops@.subrange(0, h as int) =~= hops@);
        proof {
            lemma_fee_sum_of_hops(hops@, rp, tokens, amount_in@);
        }
        let amount_out = hops[hops.len() - 1].amount_out;
        let price_impact_bps = self.estimate_route_price_impact(hops.as_slice());
        let description = join_path(&route.tokens);
        let token_in = route.tokens[0];
        let token_out = route.tokens[route.tokens.len() - 1];
        proof {
            assert forall|i: int| 0 <= i < hops@.len() - 1 implies #[trigger] hops@[i].token_out == hops@[i + 1].token_in
                && hops@[i].amount_out@ == hops@[i + 1].amount_in@ by {
                assert(is_route_hop(hops@[i], rp, tokens, amount_in@, i));
                assert(is_route_hop(hops@[i + 1], rp, tokens, amount_in@, i + 1));
            }
            assert(is_route_hop(hops@[0], rp, tokens, amount_in@, 0));
            assert(is_route_hop(hops@[hops@.len() - 1], rp, tokens, amount_in@, hops@.len() - 1));
        }
        Ok(
            RouteQuote {
                token_in,
                token_out,
                amount_in,
                amount_out,
                hops,
                total_fee,
                gas_estimate,
                price_impact_bps,
                description,
            },
        )
    }

    /// Quotes every candidate route from `token_in` to `token_out`, in the order found,
    /// dropping those that cannot be quoted; `NoRouteFound` when none is left.
    pub fn quote_routes(&self, pools: &[PoolInfo], token_in: Address, token_out: Address, amount_in: U256) -> (r: Result<Vec<RouteQuote>>)
        requires
            fees_valid(pools@),
        ensures
            r is Err ==> r->Err_0 is NoRouteFound && r->Err_0->from@ == address_text(token_in.bytes@)
                && r->Err_0->to@ == address_text(token_out.bytes@),
            routes_quoted(r, pools@, token_in, token_out, amount_in, self.max_hops as nat, self.hop_cap()),
            r is Ok ==> forall|k: int|
                0 <= k < r->Ok_0@.len() ==> {
                    let q = #[trigger] r->Ok_0@[k];
                    &&& q.wf()
                    &&& q.token_in == token_in
                    &&& q.token_out == token_out
                    &&& q.amount_in == amount_in
                    &&& 1 <= q.hops@.len() <= self.hop_cap()
                },
    {
        let routes = match self.find_all_routes(pools, token_in, token_out) {
            Ok(v) => v,
            Err(_) => return Err(no_route(&token_in, &token_out)),
        };
        let ghost cap = self.hop_cap();
        let ghost rs = routes@;
        let mut quotes: Vec<RouteQuote> = Vec::new();
        let mut i: usize = 0;
        while i < routes.len()
            invariant
                0 <= i <= routes@.len(),
                rs == routes@,
                fees_valid(pools@),
                candidates_ok(rs, pools@, token_in, token_out, cap),
                quotes@.len() == quotable_routes(rs.take(i as int), pools@, amount_in@).len(),
                forall|k: int|
                    0 <= k < quotes@.len() ==> is_route_quote(
                        #[trigger] quotes@[k],
                        pools@,
                        quotable_routes(rs.take(i as int), pools@, amount_in@)[k].tokens@,
                        quotable_routes(rs.take(i as int), pools@, amount_in@)[k].pools@,
                        amount_in,
                    ),
                forall|k: int|
                    0 <= k < quotes@.len() ==> {
                        let q = #[trigger] quotes@[k];
                        &&& q.wf()
                        &&& q.token_in == token_in
                        &&& q.token_out == token_out
                        &&& q.amount_in == amount_in
                        &&& 1 <= q.hops@.len() <= cap
                    },
            decreases routes@.len() - i,
        {
            let route = &routes[i];
            assert(route_found(adjacency_edges(pools@), token_in, token_out, route.tokens@, route.pools@, cap));
            let ghost before = quotable_routes(rs.take(i as int), pools@, amount_in@);
            let ghost after = quotable_routes(rs.take(i + 1), pools@, amount_in@);
            proof {
                reveal(Seq::filter);
                assert(rs.take(i + 1).drop_last() =~= rs.take(i as int));
                assert(rs.take(i + 1).last() == rs[i as int]);
            }
            match self.calculate_route_quote(route, pools, amount_in) {
                Ok(q) => {
                    proof {
                        assert(after == before.push(rs[i as int]));
                        assert(after[before.len() as int] == rs[i as int]);
                    }
                    let ghost old_quotes = quotes@;
                    quotes.push(q);
                    proof {
                        assert forall|k: int| 0 <= k < quotes@.len() implies is_route_quote(
                            #[trigger] quotes@[k],
                            pools@,
                            after[k].tokens@,
                            after[k].pools@,
                            amount_in,
                        ) by {
                            if k < old_quotes.len() {
                                assert(quotes@[k] == old_quotes[k]);
                                assert(after[k] == before[k]);
                            }
                        }
                        assert forall|k: int| 0 <= k < quotes@.len() implies {
                            let q = #[trigger] quotes@[k];
                            &&& q.wf()
                            &&& q.token_in == token_in
                            &&& q.token_out == token_out
                            &&& q.amount_in == amount_in
                            &&& 1 <= q.hops@.len() <= cap
                        } by {
                            if k < old_quotes.len() {
                                assert(quotes@[k] == old_quotes[k]);
                            }
                        }
                    }
                },
                Err(_) => {
                    proof {
                        assert(after == before);
                    }
                },
            }
            i = i + 1;
        }
        proof {
            assert(rs.take(i as int) =~= rs);
        }
        if quotes.len() == 0 {
            let r = Err(no_route(&token_in, &token_out));
            assert(candidates_ok(rs, pools@, token_in, token_out, cap));
            assert(paths(rs) == candidates_spec(pools@, token_in, token_out, self.max_hops as nat));
            return r;
        }
        let r = Ok(quotes);
        assert(candidates_ok(rs, pools@, token_in, token_out, cap));
        assert(paths(rs) == candidates_spec(pools@, token_in, token_out, self.max_hops as nat));
        r
    }
}

/// `ps` without the paths whose pool sequence occurred earlier.
pub open spec fn dedup_spec(ps: Seq<(Seq<Address>, Seq<Address>)>) -> Seq<(Seq<Address>, Seq<Address>)>
    decreases ps.len(),
{
    if ps.len() == 0 {
        Seq::empty()
    } else {
        let d = dedup_spec(ps.drop_last());
        if exists|k: int| 0 <= k < d.len() && d[k].1 == ps.last().1 {
            d
        } else {
            d.push(ps.last())
        }
    }
}

/// The one-hop routes from `token_in` to `token_out` along the edges `conns` leaving `token_in`.
pub open spec fn direct_from(conns: Seq<(Address, Address)>, token_in: Address, token_out: Address) -> Seq<(Seq<Address>, Seq<Address>)>
    decreases conns.len(),
{
    if conns.len() == 0 {
        Seq::empty()
    } else {
        let d = direct_from(conns.drop_last(), token_in, token_out);
        if conns.last().1 == token_out && token_in != token_out {
            d.push((seq![token_in, token_out], seq![conns.last().0]))
        } else {
            d
        }
    }
}

/// The candidate routes of a search, in order: the direct routes in edge order, then,
/// when more than one hop is allowed, the breadth-first routes; repeated pool sequences
/// dropped.
pub open spec fn candidates_spec(pools: Seq<PoolInfo>, token_in: Address, token_out: Address, max_hops: nat) -> Seq<(Seq<Address>, Seq<Address>)> {
    let edges = adjacency_edges(pools);
    let direct = direct_from(edges_from(edges, token_in), token_in, token_out);
    let multi = if max_hops > 1 {
        bfs_spec(edges, seq![(seq![token_in], Seq::<Address>::empty())], token_out, max_hops)
    } else {
        Seq::empty()
    };
    dedup_spec(direct + multi)
}

/// The tokens and pools of each route of `rs`, in order.
pub open spec fn paths(rs: Seq<Route>) -> Seq<(Seq<Address>, Seq<Address>)> {
    rs.map_values(|r: Route| (r.tokens@, r.pools@))
}

/// The extensions of the path `(t, p)` by the edges `conns`, in order, that revisit no
/// token: those that reach `end`, and the others.
pub open spec fn extend_by(
    t: Seq<Address>,
    p: Seq<Address>,
    conns: Seq<(Address, Address)>,
    end: Address,
) -> (Seq<(Seq<Address>, Seq<Address>)>, Seq<(Seq<Address>, Seq<Address>)>)
    decreases conns.len(),
{
    if conns.len() == 0 {
        (Seq::empty(), Seq::empty())
    } else {
        let prev = extend_by(t, p, conns.drop_last(), end);
        let c = conns.last();
        if t.contains(c.1) {
            prev
        } else if c.1 == end {
            (prev.0.push((t.push(c.1), p.push(c.0))), prev.1)
        } else {
            (prev.0, prev.1.push((t.push(c.1), p.push(c.0))))
        }
    }
}

/// One breadth-first level: each path of `frontier` in turn, extended by the edges that
/// leave its last token; the completed routes, and the next level.
pub open spec fn expand_spec(
    edges: Seq<Edge>,
    frontier: Seq<(Seq<Address>, Seq<Address>)>,
    end: Address,
) -> (Seq<(Seq<Address>, Seq<Address>)>, Seq<(Seq<Address>, Seq<Address>)>)
    decreases frontier.len(),
{
    if frontier.len() == 0 {
        (Seq::empty(), Seq::empty())
    } else {
        let prev = expand_spec(edges, frontier.drop_last(), end);
        let item = frontier.last();
        let ext = extend_by(item.0, item.1, edges_from(edges, item.0.last()), end);
        (prev.0 + ext.0, prev.1 + ext.1)
    }
}

/// The routes that `n` breadth-first levels find, starting from `frontier`.
pub open spec fn bfs_spec(
    edges: Seq<Edge>,
    frontier: Seq<(Seq<Address>, Seq<Address>)>,
    end: Address,
    n: nat,
) -> Seq<(Seq<Address>, Seq<Address>)>
    decreases n,
{
    if n == 0 {
        Seq::empty()
    } else {
        let level = expand_spec(edges, frontier, end);
        level.0 + bfs_spec(edges, level.1, end, (n - 1) as nat)
    }
}

proof fn lemma_paths_push(rs: Seq<Route>, x: Route)
    ensures
        paths(rs.push(x)) == paths(rs).push((x.tokens@, x.pools@)),
{
    assert(paths(rs.push(x)) =~= paths(rs).push((x.tokens@, x.pools@)));
}

/// `rs` holds a route with exactly these tokens and pools.
pub open spec fn holds_path(rs: Seq<Route>, tokens: Seq<Address>, pools: Seq<Address>) -> bool {
    exists|k: int| 0 <= k < rs.len() && (#[trigger] rs[k]).tokens@ == tokens && rs[k].pools@ == pools
}

/// Every path held by `a` is held by `b`.
pub open spec fn covers(a: Seq<Route>, b: Seq<Route>) -> bool {
    forall|t: Seq<Address>, p: Seq<Address>| #[trigger] holds_path(a, t, p) ==> holds_path(b, t, p)
}

/// After its first token, the path never visits `end`.
pub open spec fn avoids_after_start(tokens: Seq<Address>, end: Address) -> bool {
    forall|i: int| 1 <= i < tokens.len() ==> tokens[i] != end
}

/// Every valid path of `depth` hops that does not reach `end` is in `level`.
pub open spec fn level_complete(edges: Seq<Edge>, start: Address, end: Address, level: Seq<Route>, depth: nat) -> bool {
    forall|t: Seq<Address>, p: Seq<Address>|
        path_valid(edges, start, t, p) && p.len() == depth && avoids_after_start(t, end)
            ==> #[trigger] holds_path(level, t, p)
}

/// Every complete route from `start` to `end` of at most `depth` hops is in `routes`.
pub open spec fn routes_complete(edges: Seq<Edge>, start: Address, end: Address, routes: Seq<Route>, depth: nat) -> bool {
    forall|t: Seq<Address>, p: Seq<Address>|
        path_valid(edges, start, t, p) && t.last() == end && 1 <= p.len() <= depth
            ==> #[trigger] holds_path(routes, t, p)
}

/// The extension of `item` by the edge `pn` is recorded: in `routes` when it reaches
/// `end`, in `next` otherwise; nothing is owed when it would revisit a token.
pub open spec fn extension_recorded(routes: Seq<Route>, next: Seq<Route>, item: Route, pn: (Address, Address), end: Address) -> bool {
    !item.tokens@.contains(pn.1) ==> {
        &&& pn.1 == end ==> holds_path(routes, item.tokens@.push(pn.1), item.pools@.push(pn.0))
        &&& pn.1 != end ==> holds_path(next, item.tokens@.push(pn.1), item.pools@.push(pn.0))
    }
}

/// Every edge leaving the last token of each of the first `n` paths of `frontier` is recorded.
pub open spec fn processed(edges: Seq<Edge>, routes: Seq<Route>, next: Seq<Route>, frontier: Seq<Route>, end: Address, n: int) -> bool {
    forall|i: int, j: int|
        0 <= i < n && 0 <= j < edges_from(edges, frontier[i].tokens@.last()).len() ==> #[trigger] extension_recorded(
            routes,
            next,
            frontier[i],
            #[trigger] edges_from(edges, frontier[i].tokens@.last())[j],
            end,
        )
}

proof fn lemma_covers_push(rs: Seq<Route>, x: Route)
    ensures
        covers(rs, rs.push(x)),
        holds_path(rs.push(x), x.tokens@, x.pools@),
{
    assert forall|t: Seq<Address>, p: Seq<Address>| #[trigger] holds_path(rs, t, p) implies holds_path(rs.push(x), t, p) by {
        let k = choose|k: int| 0 <= k < rs.len() && (#[trigger] rs[k]).tokens@ == t && rs[k].pools@ == p;
        assert(rs.push(x)[k] == rs[k]);
    }
    assert(rs.push(x)[rs.len() as int] == x);
}

proof fn lemma_processed_mono(
    edges: Seq<Edge>,
    routes: Seq<Route>,
    next: Seq<Route>,
    routes2: Seq<Route>,
    next2: Seq<Route>,
    frontier: Seq<Route>,
    end: Address,
    n: int,
)
    requires
        processed(edges, routes, next, frontier, end, n),
        covers(routes, routes2),
        covers(next, next2),
    ensures
        processed(edges, routes2, next2, frontier, end, n),
{
    assert forall|i: int, j: int|
        0 <= i < n && 0 <= j < edges_from(edges, frontier[i].tokens@.last()).len() implies #[trigger] extension_recorded(
            routes2,
            next2,
            frontier[i],
            #[trigger] edges_from(edges, frontier[i].tokens@.last())[j],
            end,
        ) by {
        let pn = edges_from(edges, frontier[i].tokens@.last())[j];
        assert(extension_recorded(routes, next, frontier[i], pn, end));
        if !frontier[i].tokens@.contains(pn.1) {
            if pn.1 == end {
                assert(holds_path(routes, frontier[i].tokens@.push(pn.1), frontier[i].pools@.push(pn.0)));
            } else {
                assert(holds_path(next, frontier[i].tokens@.push(pn.1), frontier[i].pools@.push(pn.0)));
            }
        }
    }
}

proof fn lemma_routes_complete_mono(edges: Seq<Edge>, start: Address, end: Address, a: Seq<Route>, b: Seq<Route>, depth: nat)
    requires
        routes_complete(edges, start, end, a, depth),
        covers(a, b),
    ensures
        routes_complete(edges, start, end, b, depth),
{
    assert forall|t: Seq<Address>, p: Seq<Address>|
        path_valid(edges, start, t, p) && t.last() == end && 1 <= p.len() <= depth implies #[trigger] holds_path(b, t, p) by {
        assert(holds_path(a, t, p));
    }
}

/// A path of `depth + 1` hops extends a path of `depth` hops of the frontier by one edge.
proof fn lemma_complete_step(
    edges: Seq<Edge>,
    start: Address,
    end: Address,
    frontier: Seq<Route>,
    routes: Seq<Route>,
    next: Seq<Route>,
    depth: nat,
)
    requires
        level_complete(edges, start, end, frontier, depth),
        processed(edges, routes, next, frontier, end, frontier.len() as int),
        routes_complete(edges, start, end, routes, depth),
    ensures
        level_complete(edges, start, end, next, depth + 1),
        routes_complete(edges, start, end, routes, depth + 1),
{
    assert forall|t: Seq<Address>, p: Seq<Address>|
        path_valid(edges, start, t, p) && p.len() == depth + 1 && (avoids_after_start(t, end) || t.last() == end)
            implies (avoids_after_start(t, end) ==> holds_path(next, t, p)) && (t.last() == end ==> holds_path(routes, t, p)) by {
        let prefix_tokens = t.drop_last();
        let prefix_pools = p.drop_last();
        assert(prefix_tokens.no_duplicates()) by {
            assert forall|a: int, b: int| 0 <= a < prefix_tokens.len() && 0 <= b < prefix_tokens.len() && a != b implies prefix_tokens[a] != prefix_tokens[b] by {
                assert(prefix_tokens[a] == t[a] && prefix_tokens[b] == t[b]);
            }
        }
        assert forall|i: int| 0 <= i < prefix_pools.len() implies #[trigger] has_edge(edges, prefix_tokens[i], prefix_pools[i], prefix_tokens[i + 1]) by {
            assert(has_edge(edges, t[i], p[i], t[i + 1]));
        }
        assert(path_valid(edges, start, prefix_tokens, prefix_pools));
        assert(avoids_after_start(prefix_tokens, end)) by {
            assert forall|i: int| 1 <= i < prefix_tokens.len() implies prefix_tokens[i] != end by {
                assert(prefix_tokens[i] == t[i]);
                if t.last() == end {
                    assert(t[i] != t[t.len() - 1]);
                }
            }
        }
        assert(holds_path(frontier, prefix_tokens, prefix_pools));
        let k = choose|k: int| 0 <= k < frontier.len() && (#[trigger] frontier[k]).tokens@ == prefix_tokens && frontier[k].pools@ == prefix_pools;
        let last = prefix_tokens.last();
        assert(has_edge(edges, t[depth as int], p[depth as int], t[depth as int + 1]));
        lemma_edges_from_complete(edges, last);
        assert(edges_from(edges, last).contains((p.last(), t.last())));
        let j = choose|j: int| 0 <= j < edges_from(edges, last).len() && edges_from(edges, last)[j] == (p.last(), t.last());
        assert(extension_recorded(routes, next, frontier[k], edges_from(edges, frontier[k].tokens@.last())[j], end));
        assert(!prefix_tokens.contains(t.last())) by {
            if prefix_tokens.contains(t.last()) {
                let a = choose|a: int| 0 <= a < prefix_tokens.len() && prefix_tokens[a] == t.last();
                assert(t[a] == t[t.len() - 1]);
            }
        }
        assert(prefix_tokens.push(t.last()) =~= t);
        assert(prefix_pools.push(p.last()) =~= p);
        if avoids_after_start(t, end) {
            assert(t.last() != end);
        }
    }
    assert forall|t: Seq<Address>, p: Seq<Address>|
        path_valid(edges, start, t, p) && t.last() == end && 1 <= p.len() <= depth + 1 implies #[trigger] holds_path(routes, t, p) by {
        if p.len() <= depth {
            assert(holds_path(routes, t, p));
        } else {
            assert(path_valid(edges, start, t, p) && p.len() == depth + 1 && (avoids_after_start(t, end) || t.last() == end));
        }
    }
}

proof fn lemma_level_push(edges: Seq<Edge>, start: Address, level: Seq<Route>, x: Route, depth: nat)
    requires
        level_valid(edges, start, level, depth),
        path_valid(edges, start, x.tokens@, x.pools@),
        x.pools@.len() == depth,
    ensures
        level_valid(edges, start, level.push(x), depth),
{
    let l2 = level.push(x);
    assert forall|k: int| 0 <= k < l2.len() implies path_valid(edges, start, #[trigger] l2[k].tokens@, l2[k].pools@)
        && l2[k].pools@.len() == depth by {
        if k < level.len() {
            assert(l2[k] == level[k]);
        }
    }
}

proof fn lemma_found_push(edges: Seq<Edge>, start: Address, end: Address, routes: Seq<Route>, x: Route, max: nat)
    requires
        all_found(edges, start, end, routes, max),
        route_found(edges, start, end, x.tokens@, x.pools@, max),
    ensures
        all_found(edges, start, end, routes.push(x), max),
{
    let r2 = routes.push(x);
    assert forall|k: int| 0 <= k < r2.len() implies route_found(edges, start, end, #[trigger] r2[k].tokens@, r2[k].pools@, max) by {
        if k < routes.len() {
            assert(r2[k] == routes[k]);
        }
    }
}

/// Every path of `level` is valid and has `depth` hops.
pub open spec fn level_valid(edges: Seq<Edge>, start: Address, level: Seq<Route>, depth: nat) -> bool {
    forall|k: int|
        0 <= k < level.len() ==> path_valid(edges, start, #[trigger] level[k].tokens@, level[k].pools@)
            && level[k].pools@.len() == depth
}

/// Every route of `routes` is a complete route of at most `max` hops.
pub open spec fn all_found(edges: Seq<Edge>, start: Address, end: Address, routes: Seq<Route>, max: nat) -> bool {
    forall|k: int|
        0 <= k < routes.len() ==> route_found(edges, start, end, #[trigger] routes[k].tokens@, routes[k].pools@, max)
}

/// One breadth-first level: extends every path of `frontier` by each edge that leaves
/// its last token towards a token not yet on it; paths that reach `end` go to `routes`,
/// the others form the next level.
fn expand_level(
    adjacency: &Adjacency,
    frontier: &Vec<Route>,
    start: Address,
    end: Address,
    max_depth: usize,
    depth: usize,
    routes: &mut Vec<Route>,
) -> (next: Vec<Route>)
    requires
        depth < max_depth,
        level_valid(adjacency.edges@, start, frontier@, depth as nat),
        all_found(adjacency.edges@, start, end, old(routes)@, max_depth as nat),
        level_complete(adjacency.edges@, start, end, frontier@, depth as nat),
        routes_complete(adjacency.edges@, start, end, old(routes)@, depth as nat),
    ensures
        level_valid(adjacency.edges@, start, next@, depth as nat + 1),
        all_found(adjacency.edges@, start, end, final(routes)@, max_depth as nat),
        level_complete(adjacency.edges@, start, end, next@, depth as nat + 1),
        routes_complete(adjacency.edges@, start, end, final(routes)@, depth as nat + 1),
        paths(final(routes)@) == paths(old(routes)@) + expand_spec(adjacency.edges@, paths(frontier@), end).0,
        paths(next@) == expand_spec(adjacency.edges@, paths(frontier@), end).1,
{
    let ghost routes0 = paths(routes@);
    let ghost edges = adjacency.edges@;
    let mut next: Vec<Route> = Vec::new();
    let mut i: usize = 0;
    while i < frontier.len()
        invariant
            edges == adjacency.edges@,
            depth < max_depth,
            0 <= i <= frontier@.len(),
            level_valid(edges, start, frontier@, depth as nat),
            level_valid(edges, start, next@, depth as nat + 1),
            all_found(edges, start, end, routes@, max_depth as nat),
            level_complete(edges, start, end, frontier@, depth as nat),
            routes_complete(edges, start, end, routes@, depth as nat),
            processed(edges, routes@, next@, frontier@, end, i as int),
            paths(routes@) == routes0 + expand_spec(edges, paths(frontier@).take(i as int), end).0,
            paths(next@) == expand_spec(edges, paths(frontier@).take(i as int), end).1,
        decreases frontier@.len() - i,
    {
        let item = &frontier[i];
        let ghost routes_i = paths(routes@);
        let ghost next_i = paths(next@);
        assert(path_valid(edges, start, item.tokens@, item.pools@));
        let current = item.tokens[item.tokens.len() - 1];
        let connections = adjacency.get(&current);
        let mut j: usize = 0;
        while j < connections.len()
            invariant
                edges == adjacency.edges@,
                depth < max_depth,
                path_valid(edges, start, item.tokens@, item.pools@),
                item.pools@.len() == depth,
                current == item.tokens@.last(),
                0 <= j <= connections@.len(),
                forall|k: int|
                    0 <= k < connections@.len() ==> has_edge(
                        edges,
                        current,
                        #[trigger] connections@[k].0,
                        connections@[k].1,
                    ),
                level_valid(edges, start, next@, depth as nat + 1),
                all_found(edges, start, end, routes@, max_depth as nat),
                0 <= i < frontier@.len(),
                *item == frontier@[i as int],
                connections@ == edges_from(edges, current),
                routes_complete(edges, start, end, routes@, depth as nat),
                processed(edges, routes@, next@, frontier@, end, i as int),
                forall|q: int| 0 <= q < j ==> #[trigger] extension_recorded(routes@, next@, *item, connections@[q], end),
                paths(routes@) == routes_i + extend_by(item.tokens@, item.pools@, connections@.take(j as int), end).0,
                paths(next@) == next_i + extend_by(item.tokens@, item.pools@, connections@.take(j as int), end).1,
            decreases connections@.len() - j,
        {
            let (pool_addr, next_token) = connections[j];
            assert(has_edge(edges, current, connections@[j as int].0, connections@[j as int].1));
            let ghost ext_before = extend_by(item.tokens@, item.pools@, connections@.take(j as int), end);
            proof {
                assert(connections@.take(j + 1).drop_last() =~= connections@.take(j as int));
                assert(connections@.take(j + 1).last() == connections@[j as int]);
            }
            if !contains_address(&item.tokens, &next_token) {
                let mut new_tokens = copy_addresses(&item.tokens);
                new_tokens.push(next_token);
                let mut new_pools = copy_addresses(&item.pools);
                new_pools.push(pool_addr);
                proof {
                    lemma_extend_path(edges, start, item.tokens@, item.pools@, pool_addr, next_token);
                }
                let extended = Route { tokens: new_tokens, pools: new_pools };
                if next_token == end {
                    let ghost before = routes@;
                    let ghost ext = extended;
                    routes.push(extended);
                    proof {
                        lemma_paths_push(before, ext);
                        assert(paths(routes@) =~= routes_i + extend_by(item.tokens@, item.pools@, connections@.take(j + 1), end).0);
                        lemma_covers_push(before, ext);
                        lemma_processed_mono(edges, before, next@, routes@, next@, frontier@, end, i as int);
                        lemma_routes_complete_mono(edges, start, end, before, routes@, depth as nat);
                        assert forall|q: int| 0 <= q < j + 1 implies #[trigger] extension_recorded(routes@, next@, *item, connections@[q], end) by {
                            if q < j {
                                let pn = connections@[q];
                                assert(extension_recorded(before, next@, *item, pn, end));
                                if !item.tokens@.contains(pn.1) && pn.1 == end {
                                    assert(holds_path(before, item.tokens@.push(pn.1), item.pools@.push(pn.0)));
                                }
                            } else {
                                assert(ext.tokens@ == item.tokens@.push(connections@[q].1));
                            }
                        }
                        lemma_found_push(edges, start, end, before, ext, max_depth as nat);
                    }
                } else {
                    let ghost before = next@;
                    let ghost ext = extended;
                    next.push(extended);
                    proof {
                        lemma_paths_push(before, ext);
                        assert(paths(next@) =~= next_i + extend_by(item.tokens@, item.pools@, connections@.take(j + 1), end).1);
                        lemma_covers_push(before, ext);
                        assert(covers(routes@, routes@));
                        lemma_processed_mono(edges, routes@, before, routes@, next@, frontier@, end, i as int);
                        assert forall|q: int| 0 <= q < j + 1 implies #[trigger] extension_recorded(routes@, next@, *item, connections@[q], end) by {
                            if q < j {
                                let pn = connections@[q];
                                assert(extension_recorded(routes@, before, *item, pn, end));
                                if !item.tokens@.contains(pn.1) && pn.1 != end {
                                    assert(holds_path(before, item.tokens@.push(pn.1), item.pools@.push(pn.0)));
                                }
                            } else {
                                assert(ext.tokens@ == item.tokens@.push(connections@[q].1));
                            }
                        }
                        lemma_level_push(edges, start, before, ext, depth as nat + 1);
                    }
                }
            }
            j = j + 1;
        }
        proof {
            let pf = paths(frontier@);
            assert(pf.take(i + 1).drop_last() =~= pf.take(i as int));
            assert(pf.take(i + 1).last() == (item.tokens@, item.pools@));
            assert(connections@.take(connections@.len() as int) =~= connections@);
            assert(paths(routes@) =~= routes0 + expand_spec(edges, pf.take(i + 1), end).0);
            assert(paths(next@) =~= expand_spec(edges, pf.take(i + 1), end).1);
        }
        proof {
            assert forall|a: int, b: int|
                0 <= a < i + 1 && 0 <= b < edges_from(edges, frontier@[a].tokens@.last()).len() implies #[trigger] extension_recorded(
                routes@,
                next@,
                frontier@[a],
                #[trigger] edges_from(edges, frontier@[a].tokens@.last())[b],
                end,
            ) by {
                if a == i {
                    assert(frontier@[a] == *item);
                    assert(connections@[b] == edges_from(edges, frontier@[a].tokens@.last())[b]);
                }
            }
        }
        i = i + 1;
    }
    proof {
        lemma_complete_step(edges, start, end, frontier@, routes@, next@, depth as nat);
        assert(paths(frontier@).take(i as int) =~= paths(frontier@));
    }
    next
}

/// Whether some route of `rs` uses exactly the pools `key`.
pub open spec fn key_in(rs: Seq<Route>, key: Seq<Address>) -> bool {
    exists|q: int| 0 <= q < rs.len() && (#[trigger] rs[q]).pools@ == key
}

/// No two routes of `rs` use the same pools.
pub open spec fn keys_unique(rs: Seq<Route>) -> bool {
    forall|a: int, b: int|
        0 <= a < rs.len() && 0 <= b < rs.len() && a != b ==> (#[trigger] rs[a]).pools@ != (
        #[trigger] rs[b]).pools@
}

/// Every route of `rs` is, in tokens and pools, a route of `src`.
pub open spec fn drawn_from(rs: Seq<Route>, src: Seq<Route>) -> bool {
    forall|k: int|
        0 <= k < rs.len() ==> exists|i: int|
            0 <= i < src.len() && (#[trigger] rs[k]).tokens@ == (#[trigger] src[i]).tokens@
                && rs[k].pools@ == src[i].pools@
}

/// Whether some route of `rs` is the single pool `p`.
pub open spec fn has_single(rs: Seq<Route>, p: Address) -> bool {
    key_in(rs, seq![p])
}

/// Whether some route of `unique` uses exactly the pools of `pools`.
fn key_present(unique: &Vec<Route>, pools: &Vec<Address>) -> (r: bool)
    ensures
        r == key_in(unique@, pools@),
{
    let mut k: usize = 0;
    while k < unique.len()
        invariant
            0 <= k <= unique@.len(),
            forall|q: int| 0 <= q < k ==> (#[trigger] unique@[q]).pools@ != pools@,
        decreases unique@.len() - k,
    {
        if same_addresses(&unique[k].pools, pools) {
            return true;
        }
        k = k + 1;
    }
    false
}

proof fn lemma_push_keeps(unique: Seq<Route>, copy: Route, routes: Seq<Route>, i: int)
    requires
        0 <= i < routes.len(),
        copy.tokens@ == routes[i].tokens@,
        copy.pools@ == routes[i].pools@,
        drawn_from(unique, routes),
        forall|m: int| 0 <= m < i ==> key_in(unique, #[trigger] routes[m].pools@),
        keys_unique(unique),
        !key_in(unique, routes[i].pools@),
    ensures
        drawn_from(unique.push(copy), routes),
        forall|m: int| 0 <= m <= i ==> key_in(unique.push(copy), #[trigger] routes[m].pools@),
        keys_unique(unique.push(copy)),
{
    let u2 = unique.push(copy);
    assert forall|k: int| 0 <= k < u2.len() implies exists|j: int|
        0 <= j < routes.len() && (#[trigger] u2[k]).tokens@ == (#[trigger] routes[j]).tokens@
            && u2[k].pools@ == routes[j].pools@ by {
        if k < unique.len() {
            assert(u2[k] == unique[k]);
            let j = choose|j: int| 0 <= j < routes.len() && (#[trigger] unique[k]).tokens@ == (#[trigger] routes[j]).tokens@
                && unique[k].pools@ == routes[j].pools@;
            assert(u2[k].tokens@ == routes[j].tokens@);
        } else {
            assert(u2[k].tokens@ == routes[i].tokens@);
        }
    }
    assert forall|m: int| 0 <= m <= i implies key_in(u2, #[trigger] routes[m].pools@) by {
        if m < i {
            let q = choose|q: int| 0 <= q < unique.len() && (#[trigger] unique[q]).pools@ == routes[m].pools@;
            assert(u2[q] == unique[q]);
        } else {
            assert(u2[unique.len() as int].pools@ == routes[m].pools@);
        }
    }
    assert forall|a: int, b: int| 0 <= a < u2.len() && 0 <= b < u2.len() && a != b implies (#[trigger] u2[a]).pools@
        != (#[trigger] u2[b]).pools@ by {
        if a < unique.len() && b < unique.len() {
            assert(u2[a] == unique[a]);
            assert(u2[b] == unique[b]);
        } else if a < unique.len() {
            assert(u2[a] == unique[a]);
        } else {
            assert(u2[b] == unique[b]);
        }
    }
}

proof fn lemma_key_in_push(rs: Seq<Route>, x: Route)
    ensures
        forall|key: Seq<Address>| key_in(rs, key) ==> #[trigger] key_in(rs.push(x), key),
        key_in(rs.push(x), x.pools@),
{
    assert(rs.push(x)[rs.len() as int] == x);
    assert forall|key: Seq<Address>| key_in(rs, key) implies #[trigger] key_in(rs.push(x), key) by {
        let q = choose|q: int| 0 <= q < rs.len() && (#[trigger] rs[q]).pools@ == key;
        assert(rs.push(x)[q] == rs[q]);
    }
}

/// A one-hop route is a direct edge, so its single pool is among the direct routes.
proof fn lemma_single_hop_key(edges: Seq<Edge>, token_in: Address, token_out: Address, t: Seq<Address>, p: Seq<Address>, rs: Seq<Route>)
    requires
        path_valid(edges, token_in, t, p),
        t.last() == token_out,
        p.len() == 1,
        forall|q: Address| #[trigger] has_edge(edges, token_in, q, token_out) && token_in != token_out ==> has_single(rs, q),
    ensures
        key_in(rs, p),
{
    let i: int = 0;
    assert(has_edge(edges, t[i], p[i], t[i + 1]));
    assert(t[0] != t[1]);
    assert(has_single(rs, p[0]));
    assert(p =~= seq![p[0]]);
}

proof fn lemma_single_push(rs: Seq<Route>, x: Route)
    ensures
        forall|p: Address| has_single(rs, p) ==> #[trigger] has_single(rs.push(x), p),
{
    assert forall|p: Address| has_single(rs, p) implies #[trigger] has_single(rs.push(x), p) by {
        let q = choose|q: int| 0 <= q < rs.len() && (#[trigger] rs[q]).pools@ == seq![p];
        assert(rs.push(x)[q] == rs[q]);
    }
}

/// Whether the fees of a fully quoted route add up to less than 2^256.
pub open spec fn fee_total_fits(pools: Seq<PoolInfo>, tokens: Seq<Address>, amount_in: nat) -> bool {
    route_fee_sum(pools, tokens, amount_in, pools.len()) < u256_limit()
}

/// The fees of the first `n` hops of a route.
pub open spec fn route_fee_sum(pools: Seq<PoolInfo>, tokens: Seq<Address>, amount_in: nat, n: nat) -> nat
    decreases n,
{
    if n == 0 {
        0
    } else {
        route_fee_sum(pools, tokens, amount_in, (n - 1) as nat) + crate::utils::fee_of(
            crate::quote::hop_input(pools, tokens, amount_in, (n - 1) as nat),
            pools[n - 1].fee_bps as nat,
        )
    }
}

proof fn lemma_fee_sum_prefix(hops: Seq<RouteHop>, n: nat)
    requires
        n <= hops.len(),
    ensures
        fee_sum(hops.subrange(0, n as int)) <= fee_sum(hops),
    decreases hops.len(),
{
    if n < hops.len() {
        assert(hops.drop_last().subrange(0, n as int) =~= hops.subrange(0, n as int));
        lemma_fee_sum_prefix(hops.drop_last(), n);
    } else {
        assert(hops.subrange(0, n as int) =~= hops);
    }
}

proof fn lemma_fee_sum_of_hops(hops: Seq<RouteHop>, pools: Seq<PoolInfo>, tokens: Seq<Address>, amount_in: nat)
    requires
        hops.len() == pools.len(),
        forall|i: int| 0 <= i < pools.len() ==> is_route_hop(#[trigger] hops[i], pools, tokens, amount_in, i),
    ensures
        fee_sum(hops) == route_fee_sum(pools, tokens, amount_in, pools.len()),
    decreases hops.len(),
{
    lemma_fee_sum_of_hops_upto(hops, pools, tokens, amount_in, hops.len());
    assert(hops.subrange(0, hops.len() as int) =~= hops);
}

proof fn lemma_fee_sum_of_hops_upto(hops: Seq<RouteHop>, pools: Seq<PoolInfo>, tokens: Seq<Address>, amount_in: nat, n: nat)
    requires
        n <= hops.len(),
        hops.len() == pools.len(),
        forall|i: int| 0 <= i < pools.len() ==> is_route_hop(#[trigger] hops[i], pools, tokens, amount_in, i),
    ensures
        fee_sum(hops.subrange(0, n as int)) == route_fee_sum(pools, tokens, amount_in, n),
    decreases n,
{
    if n > 0 {
        lemma_fee_sum_of_hops_upto(hops, pools, tokens, amount_in, (n - 1) as nat);
        assert(hops.subrange(0, n as int).drop_last() =~= hops.subrange(0, n - 1));
        assert(is_route_hop(hops[n - 1], pools, tokens, amount_in, n - 1));
    }
    if n == hops.len() {
        assert(hops.subrange(0, n as int) =~= hops);
    }
}

/// Every `(pool, next)` edge leaving `t` shows in `edges_from`.
proof fn lemma_edges_from_complete(edges: Seq<Edge>, t: Address)
    ensures
        forall|p: Address, n: Address|
            #[trigger] has_edge(edges, t, p, n) ==> edges_from(edges, t).contains((p, n)),
    decreases edges.len(),
{
    if edges.len() > 0 {
        lemma_edges_from_complete(edges.drop_last(), t);
        assert forall|p: Address, n: Address| #[trigger] has_edge(edges, t, p, n) implies edges_from(edges, t).contains((p, n)) by {
            let k = choose|k: int| 0 <= k < edges.len() && #[trigger] edges[k] == (Edge { from: t, pool: p, to: n });
            let rest = edges_from(edges.drop_last(), t);
            if k < edges.len() - 1 {
                assert(edges.drop_last()[k] == edges[k]);
                assert(has_edge(edges.drop_last(), t, p, n));
                let w = choose|w: int| 0 <= w < rest.len() && rest[w] == (p, n);
                if edges.last().from == t {
                    assert(rest.push((edges.last().pool, edges.last().to))[w] == (p, n));
                }
            } else {
                assert(edges_from(edges, t).last() == (p, n));
            }
        }
    }
}

} // verus!
