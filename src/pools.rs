use crate::quote::fees_valid;
use crate::router::{routes_quoted, Router};
use crate::types::{Address, AggregatorError, PoolInfo, Result, RouteQuote, address_text};
use crate::u256::U256;
use dashmap::DashMap;
use vstd::prelude::*;
use vstd::string::StringExecFns;

verus! {

/// The key of a cached pool: the bytes of its address.
pub type AddressKey = [u8; 20];

#[verifier::external_type_specification]
#[verifier::external_body]
#[verifier::reject_recursive_types(K)]
#[verifier::reject_recursive_types(V)]
#[verifier::reject_recursive_types(S)]
pub struct ExDashMap<K, V, S>(DashMap<K, V, S>);

/// What a pool map holds: the pool stored under each address.
pub uninterp spec fn pool_entries(m: DashMap<AddressKey, PoolInfo>) -> Map<AddressKey, PoolInfo>;

/// Relies on `DashMap::new`: an empty map.
#[verifier::external_body]
fn map_new() -> (r: DashMap<AddressKey, PoolInfo>)
    ensures
        forall|k: AddressKey| !(#[trigger] pool_entries(r).contains_key(k)),
{
    DashMap::new()
}

/// Relies on `DashMap::insert`: the value is stored under the key, replacing any other.
#[verifier::external_body]
fn map_insert(m: &mut DashMap<AddressKey, PoolInfo>, key: AddressKey, value: PoolInfo)
    ensures
        pool_entries(*final(m)) == pool_entries(*old(m)).insert(key, value),
{
    m.insert(key, value);
}

/// Relies on `DashMap::get`: a copy of the value stored under the key, if any.
#[verifier::external_body]
fn map_get(m: &DashMap<AddressKey, PoolInfo>, key: &AddressKey) -> (r: Option<PoolInfo>)
    ensures
        r == (if pool_entries(*m).contains_key(*key) {
            Some(pool_entries(*m)[*key])
        } else {
            None
        }),
{
    m.get(key).map(|e| e.value().clone())
}

/// Relies on `DashMap::iter`: every entry once, as a key and a copy of its value,
/// in an order the map does not promise.
#[verifier::external_body]
fn map_entries(m: &DashMap<AddressKey, PoolInfo>) -> (r: Vec<(AddressKey, PoolInfo)>)
    ensures
        forall|i: int|
            0 <= i < r@.len() ==> pool_entries(*m).contains_key(#[trigger] r@[i].0)
                && pool_entries(*m)[r@[i].0] == r@[i].1,
        forall|k: AddressKey|
            #[trigger] pool_entries(*m).contains_key(k) ==> exists|i: int|
                0 <= i < r@.len() && #[trigger] r@[i].0 == k,
        forall|i: int, j: int| 0 <= i < j < r@.len() ==> #[trigger] r@[i].0 != #[trigger] r@[j].0,
{
    m.iter().map(|e| (*e.key(), e.value().clone())).collect()
}

/// Relies on `DashMap::clear`: afterwards the map is empty.
#[verifier::external_body]
fn map_clear(m: &mut DashMap<AddressKey, PoolInfo>)
    ensures
        forall|k: AddressKey| !(#[trigger] pool_entries(*final(m)).contains_key(k)),
{
    m.clear();
}

/// A map of pools is consistent when each pool is stored under its own address and has a
/// fee below 100%.
pub open spec fn entries_wf(m: Map<AddressKey, PoolInfo>) -> bool {
    forall|k: AddressKey|
        #[trigger] m.contains_key(k) ==> m[k].address.bytes == k && m[k].fee_bps < 10000
}

/// `e` lists every pool of `m` exactly once.
pub open spec fn enumerates(e: Seq<PoolInfo>, m: Map<AddressKey, PoolInfo>) -> bool {
    &&& forall|i: int|
        0 <= i < e.len() ==> m.contains_key(#[trigger] e[i].address.bytes) && m[e[i].address.bytes]
            == e[i]
    &&& forall|k: AddressKey|
        #[trigger] m.contains_key(k) ==> exists|i: int| 0 <= i < e.len() && #[trigger] e[i].address.bytes == k
    &&& forall|i: int, j: int|
        0 <= i < j < e.len() ==> #[trigger] e[i].address.bytes != #[trigger] e[j].address.bytes
}

/// The map after storing each pool of `pools` under its address, in order.
pub open spec fn insert_all(m: Map<AddressKey, PoolInfo>, pools: Seq<PoolInfo>) -> Map<AddressKey, PoolInfo>
    decreases pools.len(),
{
    if pools.len() == 0 {
        m
    } else {
        insert_all(m, pools.drop_last()).insert(pools.last().address.bytes, pools.last())
    }
}

/// Number of pools in `pools` whose exchange is named `name`.
pub open spec fn dex_count(pools: Seq<PoolInfo>, name: Seq<char>) -> nat
    decreases pools.len(),
{
    if pools.len() == 0 {
        0
    } else {
        dex_count(pools.drop_last(), name) + if pools.last().dex_name@ == name {
            1nat
        } else {
            0nat
        }
    }
}

/// `counts` holds each exchange name of `pools` once, with its number of pools.
pub open spec fn counts_match(counts: Seq<(String, usize)>, pools: Seq<PoolInfo>) -> bool {
    &&& forall|i: int| 0 <= i < counts.len() ==> #[trigger] counts[i].1 as nat == dex_count(pools, counts[i].0@)
    &&& forall|i: int| 0 <= i < counts.len() ==> #[trigger] dex_count(pools, counts[i].0@) > 0
    &&& forall|j: int| 0 <= j < pools.len() ==> exists|i: int|
        0 <= i < counts.len() && #[trigger] counts[i].0@ == #[trigger] pools[j].dex_name@
    &&& forall|i: int, k: int| 0 <= i < k < counts.len() ==> #[trigger] counts[i].0@ != #[trigger] counts[k].0@
}

/// Statistics of a set of pools.
pub struct CacheStats {
    pub total_pools: usize,
    /// Each exchange name with its number of pools.
    pub dex_counts: Vec<(String, usize)>,
}

impl CacheStats {
    /// The statistics of a list of pools.
    pub fn of_pools(pools: &Vec<PoolInfo>) -> (r: CacheStats)
        ensures
            r.total_pools == pools@.len(),
            counts_match(r.dex_counts@, pools@),
    {
        let mut counts: Vec<(String, usize)> = Vec::new();
        let mut i: usize = 0;
        while i < pools.len()
            invariant
                0 <= i <= pools@.len(),
                counts_match(counts@, pools@.take(i as int)),
            decreases pools@.len() - i,
        {
            let name = &pools[i].dex_name;
            let ghost prefix = pools@.take(i as int);
            let ghost next = pools@.take(i + 1);
            proof {
                assert(next.drop_last() =~= prefix);
                assert(next.last() == pools@[i as int]);
            }
            let mut k: usize = 0;
            let mut found = false;
            while k < counts.len() && !found
                invariant
                    0 <= k <= counts@.len(),
                    !found ==> forall|q: int| 0 <= q < k ==> counts@[q].0@ != name@,
                    found ==> k > 0 && counts@[k - 1].0@ == name@,
                decreases counts@.len() - k,
            {
                if counts[k].0 == *name {
                    found = true;
                }
                k = k + 1;
            }
            if found {
                let at = k - 1;
                let c = counts[at].1;
                proof {
                    assert(c as nat == dex_count(prefix, name@));
                    assert(dex_count(next, name@) == c + 1);
                    assert(dex_count(next, name@) <= next.len()) by {
                        lemma_dex_count_bounded(next, name@);
                    }
                }
                let entry = (counts[at].0.clone(), c + 1);
                let ghost old_counts = counts@;
                counts.set(at, entry);
                proof {
                    assert forall|q: int| 0 <= q < counts@.len() implies #[trigger] counts@[q].1 as nat
                        == dex_count(next, counts@[q].0@) by {
                        if q != at {
                            assert(counts@[q] == old_counts[q]);
                            assert(old_counts[q].0@ != name@);
                        }
                    }
                    assert forall|q: int| 0 <= q < counts@.len() implies #[trigger] dex_count(next, counts@[q].0@) > 0 by {
                        if q != at {
                            assert(counts@[q] == old_counts[q]);
                            assert(dex_count(prefix, old_counts[q].0@) > 0);
                        }
                    }
                    assert forall|j: int| 0 <= j < next.len() implies exists|q: int|
                        0 <= q < counts@.len() && #[trigger] counts@[q].0@ == #[trigger] next[j].dex_name@ by {
                        if j < prefix.len() {
                            assert(next[j] == prefix[j]);
                            let q = choose|q: int| 0 <= q < old_counts.len() && #[trigger] old_counts[q].0@ == #[trigger] prefix[j].dex_name@;
                            assert(counts@[q].0@ == old_counts[q].0@);
                        } else {
                            assert(counts@[at as int].0@ == next[j].dex_name@);
                        }
                    }
                    assert forall|a: int, b: int| 0 <= a < b < counts@.len() implies #[trigger] counts@[a].0@ != #[trigger] counts@[b].0@ by {
                        assert(counts@[a].0@ == old_counts[a].0@);
                        assert(counts@[b].0@ == old_counts[b].0@);
                    }
                }
            } else {
                let ghost old_counts = counts@;
                counts.push((name.clone(), 1));
                proof {
                    assert(dex_count(prefix, name@) == 0) by {
                        lemma_dex_count_absent(prefix, name@, old_counts);
                    }
                    assert forall|q: int| 0 <= q < counts@.len() implies #[trigger] counts@[q].1 as nat
                        == dex_count(next, counts@[q].0@) by {
                        if q < old_counts.len() {
                            assert(counts@[q] == old_counts[q]);
                        }
                    }
                    assert forall|q: int| 0 <= q < counts@.len() implies #[trigger] dex_count(next, counts@[q].0@) > 0 by {
                        if q < old_counts.len() {
                            assert(counts@[q] == old_counts[q]);
                            assert(dex_count(prefix, old_counts[q].0@) > 0);
                        } else {
                            assert(counts@[q].0@ == name@);
                        }
                    }
                    assert forall|j: int| 0 <= j < next.len() implies exists|q: int|
                        0 <= q < counts@.len() && #[trigger] counts@[q].0@ == #[trigger] next[j].dex_name@ by {
                        if j < prefix.len() {
                            assert(next[j] == prefix[j]);
                            let q = choose|q: int| 0 <= q < old_counts.len() && #[trigger] old_counts[q].0@ == #[trigger] prefix[j].dex_name@;
                            assert(counts@[q] == old_counts[q]);
                        } else {
                            assert(counts@[old_counts.len() as int].0@ == next[j].dex_name@);
                        }
                    }
                    assert forall|a: int, b: int| 0 <= a < b < counts@.len() implies #[trigger] counts@[a].0@ != #[trigger] counts@[b].0@ by {
                        assert(counts@[a] == old_counts[a]);
                        if b < old_counts.len() {
                            assert(counts@[b] == old_counts[b]);
                        }
                    }
                }
            }
            i = i + 1;
        }
        assert(pools@.take(i as int) =~= pools@);
        CacheStats { total_pools: pools.len(), dex_counts: counts }
    }
}

proof fn lemma_dex_count_bounded(pools: Seq<PoolInfo>, name: Seq<char>)
    ensures
        dex_count(pools, name) <= pools.len(),
    decreases pools.len(),
{
    if pools.len() > 0 {
        lemma_dex_count_bounded(pools.drop_last(), name);
    }
}

proof fn lemma_dex_count_absent(pools: Seq<PoolInfo>, name: Seq<char>, counts: Seq<(String, usize)>)
    requires
        counts_match(counts, pools),
        forall|q: int| 0 <= q < counts.len() ==> counts[q].0@ != name,
    ensures
        dex_count(pools, name) == 0,
    decreases pools.len(),
{
    if pools.len() > 0 {
        let last = pools.len() - 1;
        let q = choose|q: int| 0 <= q < counts.len() && #[trigger] counts[q].0@ == #[trigger] pools[last].dex_name@;
        assert(pools.last().dex_name@ != name);
        lemma_dex_count_absent_seq(pools.drop_last(), name, pools);
    }
}

proof fn lemma_dex_count_absent_seq(pools: Seq<PoolInfo>, name: Seq<char>, whole: Seq<PoolInfo>)
    requires
        pools.len() <= whole.len(),
        forall|j: int| 0 <= j < pools.len() ==> pools[j] == whole[j],
        forall|j: int| 0 <= j < whole.len() ==> #[trigger] whole[j].dex_name@ != name,
    ensures
        dex_count(pools, name) == 0,
    decreases pools.len(),
{
    if pools.len() > 0 {
        assert(pools.last() == whole[pools.len() - 1]);
        lemma_dex_count_absent_seq(pools.drop_last(), name, whole);
    }
}

/// A snapshot of the cache for persistence: its pools and when it was taken.
pub struct CacheSnapshot {
    pub pools: Vec<PoolInfo>,
    pub timestamp: u64,
}

/// The pool cache: pools keyed by address.
pub struct PoolManager {
    pools: DashMap<AddressKey, PoolInfo>,
}

impl View for PoolManager {
    type V = Map<AddressKey, PoolInfo>;

    closed spec fn view(&self) -> Map<AddressKey, PoolInfo> {
        pool_entries(self.pools)
    }
}

impl PoolManager {
    /// The cache's invariant: each pool under its own address, with a fee below 100%.
    pub open spec fn wf(&self) -> bool {
        entries_wf(self@)
    }

    /// An empty cache.
    pub fn new() -> (r: PoolManager)
        ensures
            r@ == Map::<AddressKey, PoolInfo>::empty(),
            r.wf(),
    {
        let r = PoolManager { pools: map_new() };
        assert(r@ =~= Map::<AddressKey, PoolInfo>::empty());
        r
    }

    /// Stores a pool under its address, replacing any earlier one.
    pub fn insert(&mut self, pool: PoolInfo)
        requires
            old(self).wf(),
            pool.fee_bps < 10000,
        ensures
            final(self).wf(),
            final(self)@ == old(self)@.insert(pool.address.bytes, pool),
    {
        let key = pool.address.bytes;
        map_insert(&mut self.pools, key, pool);
    }

    /// Records a freshly fetched pool: stores it and appends it to `fetched`.
    pub fn record_fetched(&mut self, pool: PoolInfo, fetched: &mut Vec<PoolInfo>)
        requires
            old(self).wf(),
            pool.fee_bps < 10000,
        ensures
            final(self).wf(),
            final(self)@ == old(self)@.insert(pool.address.bytes, pool),
            final(fetched)@ == old(fetched)@.push(pool),
    {
        let copy = pool.duplicate();
        self.insert(pool);
        fetched.push(copy);
    }

    /// Copies of all cached pools, in no particular order.
    pub fn get_all_pools(&self) -> (r: Vec<PoolInfo>)
        requires
            self.wf(),
        ensures
            enumerates(r@, self@),
    {
        let entries = map_entries(&self.pools);
        let ghost m = self@;
        let mut r: Vec<PoolInfo> = Vec::new();
        let mut i: usize = 0;
        while i < entries.len()
            invariant
                0 <= i <= entries@.len(),
                m == self@,
                entries_wf(m),
                r@.len() == i,
                forall|j: int| 0 <= j < i ==> #[trigger] r@[j] == entries@[j].1,
                forall|j: int| 0 <= j < entries@.len() ==> m.contains_key(#[trigger] entries@[j].0) && m[entries@[j].0] == entries@[j].1,
            decreases entries@.len() - i,
        {
            r.push(entries[i].1.duplicate());
            i = i + 1;
        }
        proof {
            assert forall|j: int| 0 <= j < r@.len() implies m.contains_key(#[trigger] r@[j].address.bytes) && m[r@[j].address.bytes] == r@[j] by {
                assert(m.contains_key(entries@[j].0));
            }
            assert forall|k: AddressKey| #[trigger] m.contains_key(k) implies exists|j: int| 0 <= j < r@.len() && #[trigger] r@[j].address.bytes == k by {
                let j = choose|j: int| 0 <= j < entries@.len() && #[trigger] entries@[j].0 == k;
                assert(m.contains_key(entries@[j].0));
                assert(r@[j].address.bytes == k);
            }
            assert forall|a: int, b: int| 0 <= a < b < r@.len() implies #[trigger] r@[a].address.bytes != #[trigger] r@[b].address.bytes by {
                assert(m.contains_key(entries@[a].0));
                assert(m.contains_key(entries@[b].0));
                assert(entries@[a].0 != entries@[b].0);
            }
        }
        r
    }

    /// A copy of the pool at `address`, if cached.
    pub fn get_pool(&self, address: &Address) -> (r: Option<PoolInfo>)
        ensures
            r == (if self@.contains_key(address.bytes) {
                Some(self@[address.bytes])
            } else {
                None
            }),
    {
        map_get(&self.pools, &address.bytes)
    }

    /// Copies of the cached pools that hold `token`.
    pub fn get_pools_with_token(&self, token: &Address) -> (r: Vec<PoolInfo>)
        requires
            self.wf(),
        ensures
            exists|e: Seq<PoolInfo>|
                enumerates(e, self@) && r@ == e.filter(|p: PoolInfo| p.has_token(*token)),
    {
        let all = self.get_all_pools();
        let mut r: Vec<PoolInfo> = Vec::new();
        let mut i: usize = 0;
        while i < all.len()
            invariant
                0 <= i <= all@.len(),
                r@ == all@.take(i as int).filter(|p: PoolInfo| p.has_token(*token)),
            decreases all@.len() - i,
        {
            let p = &all[i];
            proof {
                reveal(Seq::filter);
                assert(all@.take(i + 1).drop_last() =~= all@.take(i as int));
                assert(all@.take(i + 1).last() == all@[i as int]);
            }
            if p.token0 == *token || p.token1 == *token {
                r.push(p.duplicate());
            }
            i = i + 1;
        }
        assert(all@.take(i as int) =~= all@);
        assert(enumerates(all@, self@) && r@ == all@.filter(|p: PoolInfo| p.has_token(*token)));
        r
    }

    /// Copies of the cached pools that join `token_a` and `token_b`, in either order.
    pub fn get_pools_for_pair(&self, token_a: &Address, token_b: &Address) -> (r: Vec<PoolInfo>)
        requires
            self.wf(),
        ensures
            exists|e: Seq<PoolInfo>|
                enumerates(e, self@) && r@ == e.filter(|p: PoolInfo| p.joins(*token_a, *token_b)),
    {
        let all = self.get_all_pools();
        let mut r: Vec<PoolInfo> = Vec::new();
        let mut i: usize = 0;
        while i < all.len()
            invariant
                0 <= i <= all@.len(),
                r@ == all@.take(i as int).filter(|p: PoolInfo| p.joins(*token_a, *token_b)),
            decreases all@.len() - i,
        {
            let p = &all[i];
            proof {
                reveal(Seq::filter);
                assert(all@.take(i + 1).drop_last() =~= all@.take(i as int));
                assert(all@.take(i + 1).last() == all@[i as int]);
            }
            if (p.token0 == *token_a && p.token1 == *token_b) || (p.token0 == *token_b && p.token1
                == *token_a) {
                r.push(p.duplicate());
            }
            i = i + 1;
        }
        assert(all@.take(i as int) =~= all@);
        assert(enumerates(all@, self@) && r@ == all@.filter(|p: PoolInfo| p.joins(*token_a, *token_b)));
        r
    }

    /// Statistics of the cached pools.
    pub fn get_cache_stats(&self) -> (r: CacheStats)
        requires
            self.wf(),
        ensures
            exists|e: Seq<PoolInfo>|
                enumerates(e, self@) && r.total_pools == e.len() && counts_match(r.dex_counts@, e),
    {
        let all = self.get_all_pools();
        let r = CacheStats::of_pools(&all);
        assert(enumerates(all@, self@) && r.total_pools == all@.len() && counts_match(r.dex_counts@, all@));
        r
    }

    /// Removes every cached pool.
    pub fn clear(&mut self)
        ensures
            final(self)@ == Map::<AddressKey, PoolInfo>::empty(),
            final(self).wf(),
    {
        map_clear(&mut self.pools);
        assert(self@ =~= Map::<AddressKey, PoolInfo>::empty());
    }

    /// A snapshot of the cache taken at `timestamp`.
    pub fn export_snapshot(&self, timestamp: u64) -> (r: CacheSnapshot)
        requires
            self.wf(),
        ensures
            enumerates(r.pools@, self@),
            r.timestamp == timestamp,
    {
        CacheSnapshot { pools: self.get_all_pools(), timestamp }
    }

    /// Adds every pool of a snapshot to the cache, in order, without clearing it, and
    /// returns how many there were. A snapshot holding a pool whose fee is not below
    /// 100% is refused with `CacheError` and nothing is added.
    pub fn import_snapshot(&mut self, snapshot: &CacheSnapshot) -> (r: Result<usize>)
        requires
            old(self).wf(),
        ensures
            fees_valid(snapshot.pools@) ==> r is Ok && r->Ok_0 == snapshot.pools@.len()
                && final(self)@ == insert_all(old(self)@, snapshot.pools@),
            !fees_valid(snapshot.pools@) ==> r is Err && r->Err_0 is CacheError && final(self)@
                == old(self)@,
            final(self).wf(),
    {
        let mut k: usize = 0;
        while k < snapshot.pools.len()
            invariant
                0 <= k <= snapshot.pools@.len(),
                forall|j: int| 0 <= j < k ==> #[trigger] snapshot.pools@[j].fee_bps < 10000,
                self@ == old(self)@,
                self.wf(),
            decreases snapshot.pools@.len() - k,
        {
            if snapshot.pools[k].fee_bps >= 10000 {
                return Err(AggregatorError::CacheError(String::from_str("Pool fee out of range")));
            }
            k = k + 1;
        }
        let mut i: usize = 0;
        while i < snapshot.pools.len()
            invariant
                0 <= i <= snapshot.pools@.len(),
                fees_valid(snapshot.pools@),
                self.wf(),
                self@ == insert_all(old(self)@, snapshot.pools@.take(i as int)),
            decreases snapshot.pools@.len() - i,
        {
            let pool = snapshot.pools[i].duplicate();
            proof {
                assert(snapshot.pools@.take(i + 1).drop_last() =~= snapshot.pools@.take(i as int));
            }
            self.insert(pool);
            i = i + 1;
        }
        assert(snapshot.pools@.take(i as int) =~= snapshot.pools@);
        Ok(snapshot.pools.len())
    }

    /// Quotes every route from `token_in` to `token_out` over the cached pools;
    /// `PoolNotFound` when the cache is empty.
    pub fn quote_routes(&self, router: &Router, token_in: Address, token_out: Address, amount_in: U256) -> (r: Result<Vec<RouteQuote>>)
        requires
            self.wf(),
        ensures
            self@.dom() == Set::<AddressKey>::empty() ==> r is Err && r->Err_0 is PoolNotFound,
            self@.dom() != Set::<AddressKey>::empty() ==> (r is Err ==> r->Err_0 is NoRouteFound && r->Err_0->from@ == address_text(token_in.bytes@)
                && r->Err_0->to@ == address_text(token_out.bytes@)),
            self@.dom() != Set::<AddressKey>::empty() ==> exists|e: Seq<PoolInfo>|
                enumerates(e, self@) && routes_quoted(r, e, token_in, token_out, amount_in, router.max_hops as nat, router.hop_cap()),
            r is Ok ==> r->Ok_0@.len() > 0 && forall|k: int|
                0 <= k < r->Ok_0@.len() ==> {
                    let q = #[trigger] r->Ok_0@[k];
                    &&& q.wf()
                    &&& q.token_in == token_in
                    &&& q.token_out == token_out
                    &&& q.amount_in == amount_in
                },
    {
        let pools = self.get_all_pools();
        if pools.len() == 0 {
            proof {
                assert forall|k: AddressKey| !self@.contains_key(k) by {
                    if self@.contains_key(k) {
                        let j = choose|j: int| 0 <= j < pools@.len() && #[trigger] pools@[j].address.bytes == k;
                    }
                }
                assert(self@.dom() =~= Set::<AddressKey>::empty());
            }
            return Err(AggregatorError::PoolNotFound(String::from_str("No pools cached. Run fetch-pools first.")));
        }
        proof {
            assert(self@.contains_key(pools@[0].address.bytes));
            assert(self@.dom().contains(pools@[0].address.bytes));
            assert forall|i: int| 0 <= i < pools@.len() implies #[trigger] pools@[i].fee_bps < 10000 by {
                assert(self@.contains_key(pools@[i].address.bytes));
            }
        }
        let r = router.quote_routes(pools.as_slice(), token_in, token_out, amount_in);
        assert(enumerates(pools@, self@) && routes_quoted(r, pools@, token_in, token_out, amount_in, router.max_hops as nat, router.hop_cap()));
        r
    }
}

/// Importing a snapshot of a consistent cache into an empty cache gives back the same
/// pools under the same addresses.
pub proof fn lemma_export_import_round_trip(m: Map<AddressKey, PoolInfo>, snapshot_pools: Seq<PoolInfo>)
    requires
        entries_wf(m),
        enumerates(snapshot_pools, m),
    ensures
        insert_all(Map::<AddressKey, PoolInfo>::empty(), snapshot_pools) == m,
{
    lemma_insert_all_distinct(snapshot_pools);
    let got = insert_all(Map::<AddressKey, PoolInfo>::empty(), snapshot_pools);
    assert forall|k: AddressKey| #[trigger] got.contains_key(k) <==> m.contains_key(k) by {
        if m.contains_key(k) {
            let i = choose|i: int| 0 <= i < snapshot_pools.len() && #[trigger] snapshot_pools[i].address.bytes == k;
        }
        if got.contains_key(k) {
            let i = choose|i: int| 0 <= i < snapshot_pools.len() && #[trigger] snapshot_pools[i].address.bytes == k && got[k] == snapshot_pools[i];
            assert(m.contains_key(snapshot_pools[i].address.bytes));
        }
    }
    assert forall|k: AddressKey| #[trigger] got.contains_key(k) implies got[k] == m[k] by {
        let i = choose|i: int| 0 <= i < snapshot_pools.len() && #[trigger] snapshot_pools[i].address.bytes == k && got[k] == snapshot_pools[i];
        assert(m.contains_key(snapshot_pools[i].address.bytes));
    }
    assert(got =~= m);
}

/// Inserting pools with distinct addresses into an empty map stores each under its address.
proof fn lemma_insert_all_distinct(pools: Seq<PoolInfo>)
    requires
        forall|i: int, j: int| 0 <= i < j < pools.len() ==> #[trigger] pools[i].address.bytes != #[trigger] pools[j].address.bytes,
    ensures
        forall|k: AddressKey| #[trigger] insert_all(Map::<AddressKey, PoolInfo>::empty(), pools).contains_key(k) <==> exists|i: int|
            0 <= i < pools.len() && #[trigger] pools[i].address.bytes == k,
        forall|i: int| 0 <= i < pools.len() ==> #[trigger] insert_all(Map::<AddressKey, PoolInfo>::empty(), pools).contains_key(pools[i].address.bytes)
            && insert_all(Map::<AddressKey, PoolInfo>::empty(), pools)[pools[i].address.bytes] == pools[i],
        forall|k: AddressKey| #[trigger] insert_all(Map::<AddressKey, PoolInfo>::empty(), pools).contains_key(k) ==> exists|i: int|
            0 <= i < pools.len() && #[trigger] pools[i].address.bytes == k && insert_all(Map::<AddressKey, PoolInfo>::empty(), pools)[k] == pools[i],
    decreases pools.len(),
{
    if pools.len() > 0 {
        let init = pools.drop_last();
        lemma_insert_all_distinct(init);
        let prev = insert_all(Map::<AddressKey, PoolInfo>::empty(), init);
        let cur = insert_all(Map::<AddressKey, PoolInfo>::empty(), pools);
        let last = pools.last();
        assert(cur == prev.insert(last.address.bytes, last));
        assert forall|k: AddressKey| #[trigger] cur.contains_key(k) <==> exists|i: int| 0 <= i < pools.len() && #[trigger] pools[i].address.bytes == k by {
            if cur.contains_key(k) && k != last.address.bytes {
                let i = choose|i: int| 0 <= i < init.len() && #[trigger] init[i].address.bytes == k;
                assert(pools[i] == init[i]);
            }
            if exists|i: int| 0 <= i < pools.len() && #[trigger] pools[i].address.bytes == k {
                let i = choose|i: int| 0 <= i < pools.len() && #[trigger] pools[i].address.bytes == k;
                if i < init.len() {
                    assert(init[i] == pools[i]);
                }
            }
        }
        assert forall|i: int| 0 <= i < pools.len() implies #[trigger] cur.contains_key(pools[i].address.bytes) && cur[pools[i].address.bytes] == pools[i] by {
            if i < init.len() {
                assert(init[i] == pools[i]);
                assert(pools[i].address.bytes != last.address.bytes);
            }
        }
        assert forall|k: AddressKey| #[trigger] cur.contains_key(k) implies exists|i: int|
            0 <= i < pools.len() && #[trigger] pools[i].address.bytes == k && cur[k] == pools[i] by {
            if k == last.address.bytes {
                assert(pools[pools.len() - 1].address.bytes == k);
            } else {
                let i = choose|i: int| 0 <= i < init.len() && #[trigger] init[i].address.bytes == k && prev[k] == init[i];
                assert(pools[i] == init[i]);
            }
        }
    }
}

/// How many pairs a fetch reads: the limit when one is given, but never more than the
/// factory holds (counts beyond `usize::MAX` read as `usize::MAX`).
pub fn fetch_limit(limit: Option<usize>, pair_count: U256) -> (r: usize)
    ensures
        ({
            let count: nat = if pair_count@ > usize::MAX as nat {
                usize::MAX as nat
            } else {
                pair_count@
            };
            &&& limit is None ==> r as nat == count
            &&& limit is Some ==> r as nat == if (limit->0 as nat) < count {
                limit->0 as nat
            } else {
                count
            }
        }),
{
    let max = U256::from_u64(usize::MAX as u64);
    let count: usize = if pair_count.gt(&max) {
        usize::MAX
    } else {
        pair_count.low_u64() as usize
    };
    match limit {
        Some(l) => if l < count {
            l
        } else {
            count
        },
        None => count,
    }
}

/// Whether progress is reported after fetching the pool at `index`: every tenth pool.
pub fn progress_due(index: usize) -> (r: bool)
    ensures
        r == ((index as nat + 1) % 10 == 0),
{
    index % 10 == 9
}

} // verus!
