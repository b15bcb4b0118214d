//! The registry of the router: the pools by address, an index from token
//! pairs to the pools that were added for them, and the operations and queries
//! on both.
//!
//! Every operation is one transition on a `Registry` that the caller owns.
//! Queries do not change it.

use crate::router::{
    canonical_pair, dijkstra_find_path, is_empty_route, route_answer, Config, ExecuteMsg,
    InstantiateMsg, PoolInfo, QueryMsg, Route, TokenPair,
};
use crate::text::{lemma_text_less_irreflexive, lemma_text_less_total, lemma_text_less_transitive, string_less, text_less};
use vstd::prelude::*;

verus! {

/// The pools that trade one pair of tokens, in the order in which they came.
#[derive(Clone, Debug, PartialEq, Eq)]
pub struct PairEntry {
    pub pair: TokenPair,
    pub pools: Vec<String>,
}

/// The state of the router: its owner, the pools by address, and for each
/// pair of tokens the addresses of the pools that were added for it.
#[derive(Clone, Debug, PartialEq, Eq)]
pub struct Registry {
    pub config: Config,
    pub pools: Vec<PoolInfo>,
    pub pairs: Vec<PairEntry>,
}

/// Why an operation on the registry failed.
#[derive(Clone, Copy, Debug, PartialEq, Eq, Structural)]
pub enum RouterError {
    /// No pool with that address is registered.
    PoolNotFound,
}

impl RouterError {
    /// The error in words.
    pub fn message(&self) -> (s: &'static str)
        ensures
            s@ == "pool not found"@,
    {
        match self {
            RouterError::PoolNotFound => "pool not found",
        }
    }
}

/// What an operation did.
#[derive(Clone, Copy, Debug, PartialEq, Eq, Structural)]
pub enum Action {
    AddPool,
    RemovePool,
}

/// The result of a successful operation.
#[derive(Clone, Debug, PartialEq, Eq)]
pub struct Response {
    pub action: Action,
    pub pool_address: String,
}

/// The answer to a query.
#[derive(Clone, Debug, PartialEq, Eq)]
pub enum QueryResponse {
    Config(Config),
    Pool(PoolInfo),
    Route(Route),
    Pools(Vec<String>),
}

/// The pools stand in the order of their addresses, each address once.
pub open spec fn sorted_by_address(pools: Seq<PoolInfo>) -> bool {
    forall|i: int, j: int|
        0 <= i < j < pools.len() ==> text_less((#[trigger] pools[i]).address@, (#[trigger] pools[j]).address@)
}

/// Some pool has the address.
pub open spec fn has_address(pools: Seq<PoolInfo>, address: Seq<char>) -> bool {
    exists|i: int| 0 <= i < pools.len() && (#[trigger] pools[i]).address@ == address
}

/// The place of the pool with the address.
pub open spec fn place_of(pools: Seq<PoolInfo>, address: Seq<char>) -> int {
    choose|i: int| 0 <= i < pools.len() && (#[trigger] pools[i]).address@ == address
}

/// The place at which a pool with the address belongs: after every pool whose
/// address comes before it.
pub open spec fn is_rank(pools: Seq<PoolInfo>, address: Seq<char>, p: int) -> bool {
    &&& 0 <= p <= pools.len()
    &&& forall|i: int| 0 <= i < p ==> text_less((#[trigger] pools[i]).address@, address)
    &&& forall|i: int| p <= i < pools.len() ==> !text_less((#[trigger] pools[i]).address@, address)
}

pub open spec fn rank_of(pools: Seq<PoolInfo>, address: Seq<char>) -> int {
    choose|p: int| is_rank(pools, address, p)
}

/// The pools with `info` added: in the place of the pool with its address
/// where there is one, at the place where its address belongs where not.
pub open spec fn with_pool(pools: Seq<PoolInfo>, info: PoolInfo) -> Seq<PoolInfo> {
    if has_address(pools, info.address@) {
        pools.update(place_of(pools, info.address@), info)
    } else {
        pools.insert(rank_of(pools, info.address@), info)
    }
}

/// The pools without the one with the address.
pub open spec fn without_pool(pools: Seq<PoolInfo>, address: Seq<char>) -> Seq<PoolInfo> {
    if has_address(pools, address) {
        pools.remove(place_of(pools, address))
    } else {
        pools
    }
}

/// No two entries are for the same pair.
pub open spec fn distinct_pairs(pairs: Seq<PairEntry>) -> bool {
    forall|i: int, j: int|
        0 <= i < pairs.len() && 0 <= j < pairs.len() && i != j ==> (#[trigger] pairs[i]).pair.key() != (
        #[trigger] pairs[j]).pair.key()
}

/// No entry is without pools.
pub open spec fn no_empty_entry(pairs: Seq<PairEntry>) -> bool {
    forall|i: int| 0 <= i < pairs.len() ==> (#[trigger] pairs[i]).pools@.len() > 0
}

/// Some entry is for the pair.
pub open spec fn has_pair(pairs: Seq<PairEntry>, key: (Seq<char>, Seq<char>)) -> bool {
    exists|i: int| 0 <= i < pairs.len() && (#[trigger] pairs[i]).pair.key() == key
}

/// The addresses listed for the pair; none where the pair has no entry.
pub open spec fn listed(pairs: Seq<PairEntry>, key: (Seq<char>, Seq<char>)) -> Seq<String> {
    if has_pair(pairs, key) {
        pairs[choose|i: int| 0 <= i < pairs.len() && (#[trigger] pairs[i]).pair.key() == key].pools@
    } else {
        Seq::empty()
    }
}

/// The address is among the listed ones.
pub open spec fn lists(list: Seq<String>, address: Seq<char>) -> bool {
    exists|m: int| 0 <= m < list.len() && (#[trigger] list[m])@ == address
}

/// The list with the address at its end, unless it is there already.
pub open spec fn list_with(list: Seq<String>, address: String) -> Seq<String> {
    if lists(list, address@) {
        list
    } else {
        list.push(address)
    }
}

/// Whether a string is another one than `address`.
pub open spec fn other_than(address: Seq<char>) -> spec_fn(String) -> bool {
    |s: String| s@ != address
}

/// The list without the address.
pub open spec fn list_without(list: Seq<String>, address: Seq<char>) -> Seq<String> {
    list.filter(other_than(address))
}

proof fn lemma_listed_at(pairs: Seq<PairEntry>, i: int)
    requires
        distinct_pairs(pairs),
        0 <= i < pairs.len(),
    ensures
        has_pair(pairs, pairs[i].pair.key()),
        listed(pairs, pairs[i].pair.key()) == pairs[i].pools@,
{
    let key = pairs[i].pair.key();
    let j = choose|j: int| 0 <= j < pairs.len() && (#[trigger] pairs[j]).pair.key() == key;
    assert(j == i);
}

proof fn lemma_place_unique(pools: Seq<PoolInfo>, i: int)
    requires
        sorted_by_address(pools),
        0 <= i < pools.len(),
    ensures
        has_address(pools, pools[i].address@),
        place_of(pools, pools[i].address@) == i,
{
    let a = pools[i].address@;
    let j = place_of(pools, a);
    lemma_text_less_irreflexive(a);
    if j < i {
        assert(text_less(pools[j].address@, pools[i].address@));
    } else if i < j {
        assert(text_less(pools[i].address@, pools[j].address@));
    }
}

proof fn lemma_rank_unique(pools: Seq<PoolInfo>, address: Seq<char>, p: int)
    requires
        is_rank(pools, address, p),
    ensures
        rank_of(pools, address) == p,
{
    let q = rank_of(pools, address);
    if q < p {
        assert(text_less(pools[q].address@, address));
    } else if p < q {
        assert(text_less(pools[p].address@, address));
    }
}

/// Every pool is listed under the pair of its tokens.
pub open spec fn indexed(pools: Seq<PoolInfo>, pairs: Seq<PairEntry>) -> bool {
    forall|i: int|
        0 <= i < pools.len() ==> lists(
            listed(pairs, canonical_pair((#[trigger] pools[i]).token_x@, pools[i].token_y@)),
            pools[i].address@,
        )
}

/// An address that is listed stays listed when another one is taken out.
proof fn lemma_list_without_keeps(list: Seq<String>, kept: Seq<char>, gone: Seq<char>)
    requires
        lists(list, kept),
        kept != gone,
    ensures
        lists(list_without(list, gone), kept),
{
    let m = choose|m: int| 0 <= m < list.len() && (#[trigger] list[m])@ == kept;
    let keep = other_than(gone);
    list.lemma_filter_contains(keep, m);
    let rest = list.filter(keep);
    let k = choose|k: int| 0 <= k < rest.len() && rest[k] == list[m];
    assert(rest[k]@ == kept);
}

/// Adding a pool keeps every pool listed under its pair.
proof fn lemma_add_keeps_indexed(
    pools: Seq<PoolInfo>,
    pairs: Seq<PairEntry>,
    next_pools: Seq<PoolInfo>,
    next_pairs: Seq<PairEntry>,
    info: PoolInfo,
)
    requires
        indexed(pools, pairs),
        next_pools == with_pool(pools, info),
        has_address(pools, info.address@) ==> 0 <= place_of(pools, info.address@) < pools.len(),
        !has_address(pools, info.address@) ==> 0 <= rank_of(pools, info.address@) <= pools.len(),
        forall|key: (Seq<char>, Seq<char>)|
            #[trigger] listed(next_pairs, key) == if key == canonical_pair(
                info.token_x@,
                info.token_y@,
            ) {
                list_with(listed(pairs, key), info.address)
            } else {
                listed(pairs, key)
            },
    ensures
        indexed(next_pools, next_pairs),
{
    let key0 = canonical_pair(info.token_x@, info.token_y@);
    assert forall|i: int| 0 <= i < next_pools.len() implies lists(
        listed(next_pairs, canonical_pair((#[trigger] next_pools[i]).token_x@, next_pools[i].token_y@)),
        next_pools[i].address@,
    ) by {
        let pool = next_pools[i];
        let key = canonical_pair(pool.token_x@, pool.token_y@);
        let before = listed(pairs, key);
        if pool == info {
            let now = list_with(listed(pairs, key0), info.address);
            if !lists(listed(pairs, key0), info.address@) {
                assert(now[now.len() - 1] == info.address);
            }
        } else {
            // an old pool: its list is as it was, or longer by one
            let j = if has_address(pools, info.address@) {
                i
            } else if i < rank_of(pools, info.address@) {
                i
            } else {
                i - 1
            };
            assert(pool == pools[j]);
            let m = choose|m: int| 0 <= m < before.len() && (#[trigger] before[m])@ == pool.address@;
            if key == key0 {
                let now = list_with(before, info.address);
                assert(now[m] == before[m]);
            }
        }
    }
}

/// Removing a pool keeps every other pool listed under its pair.
proof fn lemma_remove_keeps_indexed(
    pools: Seq<PoolInfo>,
    pairs: Seq<PairEntry>,
    next_pairs: Seq<PairEntry>,
    place: int,
)
    requires
        sorted_by_address(pools),
        indexed(pools, pairs),
        0 <= place < pools.len(),
        forall|key: (Seq<char>, Seq<char>)|
            #[trigger] listed(next_pairs, key) == if key == canonical_pair(
                pools[place].token_x@,
                pools[place].token_y@,
            ) {
                list_without(listed(pairs, key), pools[place].address@)
            } else {
                listed(pairs, key)
            },
    ensures
        indexed(pools.remove(place), next_pairs),
{
    let rest = pools.remove(place);
    let gone = pools[place];
    let key0 = canonical_pair(gone.token_x@, gone.token_y@);
    assert forall|i: int| 0 <= i < rest.len() implies lists(
        listed(next_pairs, canonical_pair((#[trigger] rest[i]).token_x@, rest[i].token_y@)),
        rest[i].address@,
    ) by {
        let j = if i < place {
            i
        } else {
            i + 1
        };
        let pool = pools[j];
        assert(rest[i] == pool);
        let key = canonical_pair(pool.token_x@, pool.token_y@);
        lemma_text_less_irreflexive(pool.address@);
        if j < place {
            assert(text_less(pools[j].address@, pools[place].address@));
        } else {
            assert(text_less(pools[place].address@, pools[j].address@));
        }
        if key == key0 {
            lemma_list_without_keeps(listed(pairs, key), pool.address@, gone.address@);
        }
    }
}

impl Registry {
    /// What holds of every registry: the pools are in the order of their
    /// addresses, the index has one entry for a pair and never an empty one,
    /// and every pool is listed under the pair of its tokens.
    pub open spec fn wf(&self) -> bool {
        &&& sorted_by_address(self.pools@)
        &&& distinct_pairs(self.pairs@)
        &&& no_empty_entry(self.pairs@)
        &&& indexed(self.pools@, self.pairs@)
    }
}

/// A copy of a pool's entry.
fn copy_pool(p: &PoolInfo) -> (r: PoolInfo)
    ensures
        r == *p,
{
    PoolInfo {
        address: p.address.clone(),
        token_x: p.token_x.clone(),
        token_y: p.token_y.clone(),
        fee_bps: p.fee_bps,
        liquidity: p.liquidity,
    }
}

/// A copy of a list of addresses.
fn copy_list(list: &Vec<String>) -> (r: Vec<String>)
    ensures
        r@ == list@,
{
    let mut r: Vec<String> = Vec::new();
    let mut i: usize = 0;
    while i < list.len()
        invariant
            i <= list.len(),
            r@ == list@.take(i as int),
        decreases list.len() - i,
    {
        r.push(list[i].clone());
        proof {
            assert(list@.take(i as int + 1) =~= list@.take(i as int).push(list@[i as int]));
        }
        i = i + 1;
    }
    proof {
        assert(list@.take(list.len() as int) =~= list@);
    }
    r
}

/// Where the address stands among the pools, or where it belongs.
fn locate(pools: &Vec<PoolInfo>, address: &String) -> (r: (usize, bool))
    requires
        sorted_by_address(pools@),
    ensures
        is_rank(pools@, address@, r.0 as int),
        r.1 == has_address(pools@, address@),
        r.1 ==> r.0 < pools.len() && pools@[r.0 as int].address@ == address@ && place_of(
            pools@,
            address@,
        ) == r.0,
        !r.1 ==> rank_of(pools@, address@) == r.0,
{
    let mut i: usize = 0;
    while i < pools.len() && string_less(&pools[i].address, address)
        invariant
            i <= pools.len(),
            forall|j: int| 0 <= j < i ==> text_less((#[trigger] pools@[j]).address@, address@),
        decreases pools.len() - i,
    {
        i = i + 1;
    }
    proof {
        assert forall|j: int| i <= j < pools.len() implies !text_less(
            (#[trigger] pools@[j]).address@,
            address@,
        ) by {
            if j > i && text_less(pools@[j].address@, address@) {
                assert(text_less(pools@[i as int].address@, pools@[j].address@));
                lemma_text_less_transitive(pools@[i as int].address@, pools@[j].address@, address@);
            }
        }
        lemma_rank_unique(pools@, address@, i as int);
    }
    let found: bool = i < pools.len() && pools[i].address == *address;
    proof {
        if found {
            lemma_place_unique(pools@, i as int);
        } else {
            if has_address(pools@, address@) {
                let j = place_of(pools@, address@);
                lemma_text_less_irreflexive(address@);
                if j > i {
                    assert(text_less(pools@[i as int].address@, pools@[j].address@));
                }
            }
        }
    }
    (i, found)
}

/// The place of the entry for the pair.
fn pair_index(pairs: &Vec<PairEntry>, pair: &TokenPair) -> (r: Option<usize>)
    ensures
        match r {
            Some(i) => i < pairs.len() && pairs@[i as int].pair.key() == pair.key(),
            None => !has_pair(pairs@, pair.key()),
        },
{
    let mut i: usize = 0;
    while i < pairs.len()
        invariant
            i <= pairs.len(),
            forall|j: int| 0 <= j < i ==> (#[trigger] pairs@[j]).pair.key() != pair.key(),
        decreases pairs.len() - i,
    {
        if pairs[i].pair.token_a == pair.token_a && pairs[i].pair.token_b == pair.token_b {
            return Some(i);
        }
        i = i + 1;
    }
    None
}

/// Whether the address is in the list.
fn list_has(list: &Vec<String>, address: &String) -> (r: bool)
    ensures
        r == lists(list@, address@),
{
    let mut i: usize = 0;
    while i < list.len()
        invariant
            i <= list.len(),
            forall|j: int| 0 <= j < i ==> (#[trigger] list@[j])@ != address@,
        decreases list.len() - i,
    {
        if list[i] == *address {
            return true;
        }
        i = i + 1;
    }
    false
}

/// The list without the address.
fn pruned(list: &Vec<String>, address: &String) -> (r: Vec<String>)
    ensures
        r@ == list_without(list@, address@),
{
    let mut r: Vec<String> = Vec::new();
    let mut i: usize = 0;
    let ghost keep = other_than(address@);
    proof {
        assert(list@.take(0) =~= Seq::<String>::empty());
    }
    while i < list.len()
        invariant
            i <= list.len(),
            keep == other_than(address@),
            r@ == list@.take(i as int).filter(keep),
        decreases list.len() - i,
    {
        proof {
            let upto = list@.take(i as int + 1);
            assert(upto.drop_last() =~= list@.take(i as int));
            assert(upto.last() == list@[i as int]);
            reveal(Seq::filter);
        }
        if list[i] != *address {
            r.push(list[i].clone());
        }
        i = i + 1;
    }
    proof {
        assert(list@.take(list.len() as int) =~= list@);
    }
    r
}

/// Whether the pools stand in the order of their addresses.
fn pools_sorted(pools: &Vec<PoolInfo>) -> (r: bool)
    ensures
        r == sorted_by_address(pools@),
{
    if pools.len() < 2 {
        return true;
    }
    let mut i: usize = 0;
    while i + 1 < pools.len()
        invariant
            i + 1 <= pools.len(),
            forall|a: int, b: int|
                0 <= a < b <= i ==> text_less((#[trigger] pools@[a]).address@, (#[trigger] pools@[b]).address@),
        decreases pools.len() - i,
    {
        if !string_less(&pools[i].address, &pools[i + 1].address) {
            return false;
        }
        proof {
            assert forall|a: int, b: int| 0 <= a < b <= i + 1 implies text_less(
                (#[trigger] pools@[a]).address@,
                (#[trigger] pools@[b]).address@,
            ) by {
                if b == i + 1 && a < i {
                    lemma_text_less_transitive(
                        pools@[a].address@,
                        pools@[i as int].address@,
                        pools@[b].address@,
                    );
                }
            }
        }
        i = i + 1;
    }
    true
}

/// Whether no two entries are for the same pair and none is without pools.
fn pairs_sound(pairs: &Vec<PairEntry>) -> (r: bool)
    ensures
        r == (distinct_pairs(pairs@) && no_empty_entry(pairs@)),
{
    let mut i: usize = 0;
    while i < pairs.len()
        invariant
            i <= pairs.len(),
            forall|a: int, b: int|
                0 <= a < i && 0 <= b < i && a != b ==> (#[trigger] pairs@[a]).pair.key() != (
                #[trigger] pairs@[b]).pair.key(),
            forall|a: int| 0 <= a < i ==> (#[trigger] pairs@[a]).pools@.len() > 0,
        decreases pairs.len() - i,
    {
        if pairs[i].pools.len() == 0 {
            return false;
        }
        let mut j: usize = 0;
        while j < i
            invariant
                j <= i,
                i < pairs.len(),
                forall|b: int| 0 <= b < j ==> (#[trigger] pairs@[b]).pair.key() != pairs@[i as int].pair.key(),
            decreases i - j,
        {
            if pairs[j].pair.token_a == pairs[i].pair.token_a && pairs[j].pair.token_b
                == pairs[i].pair.token_b {
                return false;
            }
            j = j + 1;
        }
        i = i + 1;
    }
    true
}

/// Whether every pool is listed under the pair of its tokens.
fn pools_indexed(pools: &Vec<PoolInfo>, pairs: &Vec<PairEntry>) -> (r: bool)
    requires
        distinct_pairs(pairs@),
    ensures
        r == indexed(pools@, pairs@),
{
    let mut i: usize = 0;
    while i < pools.len()
        invariant
            i <= pools.len(),
            distinct_pairs(pairs@),
            forall|a: int|
                0 <= a < i ==> lists(
                    listed(pairs@, canonical_pair((#[trigger] pools@[a]).token_x@, pools@[a].token_y@)),
                    pools@[a].address@,
                ),
        decreases pools.len() - i,
    {
        let pair = TokenPair::new(pools[i].token_x.clone(), pools[i].token_y.clone());
        let found: bool = match pair_index(pairs, &pair) {
            Some(at) => {
                proof {
                    lemma_listed_at(pairs@, at as int);
                }
                list_has(&pairs[at].pools, &pools[i].address)
            },
            None => false,
        };
        if !found {
            return false;
        }
        i = i + 1;
    }
    true
}

/// Whether the registry is well formed. Every registry that `instantiate`
/// made and the operations changed is; one that was put together by hand, or
/// read from a store, is to be checked before it is used.
pub fn is_well_formed(registry: &Registry) -> (r: bool)
    ensures
        r == registry.wf(),
{
    pools_sorted(&registry.pools) && pairs_sound(&registry.pairs) && pools_indexed(
        &registry.pools,
        &registry.pairs,
    )
}

/// A new router for the owner, with no pools.
pub fn instantiate(msg: InstantiateMsg) -> (registry: Registry)
    ensures
        registry.wf(),
        registry.config.owner == msg.owner,
        registry.pools@.len() == 0,
        registry.pairs@.len() == 0,
{
    Registry { config: Config { owner: msg.owner }, pools: Vec::new(), pairs: Vec::new() }
}

/// Registers a pool, in the place of the pool with the same address where
/// there is one, and lists its address under the pair of its tokens.
pub fn execute_add_pool(
    registry: &mut Registry,
    pool_address: String,
    token_x: String,
    token_y: String,
    fee_bps: u16,
    liquidity: u128,
) -> (r: Response)
    requires
        old(registry).wf(),
    ensures
        final(registry).wf(),
        final(registry).config == old(registry).config,
        final(registry).pools@ == with_pool(
            old(registry).pools@,
            PoolInfo { address: pool_address, token_x, token_y, fee_bps, liquidity },
        ),
        forall|key: (Seq<char>, Seq<char>)|
            #[trigger] listed(final(registry).pairs@, key) == if key == canonical_pair(
                token_x@,
                token_y@,
            ) {
                list_with(listed(old(registry).pairs@, key), pool_address)
            } else {
                listed(old(registry).pairs@, key)
            },
        r.action == Action::AddPool,
        r.pool_address == pool_address,
{
    let info = PoolInfo {
        address: pool_address.clone(),
        token_x: token_x.clone(),
        token_y: token_y.clone(),
        fee_bps,
        liquidity,
    };
    let ghost old_pools = registry.pools@;
    let ghost entry_view = info;
    let ghost first_pairs = registry.pairs@;
    let (place, found) = locate(&registry.pools, &pool_address);
    if found {
        registry.pools.set(place, info);
    } else {
        registry.pools.insert(place, info);
    }
    proof {
        let now = registry.pools@;
        assert forall|i: int, j: int| 0 <= i < j < now.len() implies text_less(
            (#[trigger] now[i]).address@,
            (#[trigger] now[j]).address@,
        ) by {
            let p = place as int;
            if found {
                assert(now[i].address@ == old_pools[i].address@);
                assert(now[j].address@ == old_pools[j].address@);
            } else {
                let a = pool_address@;
                let oi = if i < p {
                    i
                } else {
                    i - 1
                };
                let oj = if j < p {
                    j
                } else {
                    j - 1
                };
                if i == p {
                    // the new pool, and an old one after it
                    assert(now[j] == old_pools[oj]);
                    assert(!text_less(old_pools[oj].address@, a));
                    if !text_less(a, old_pools[oj].address@) {
                        lemma_text_less_total(a, old_pools[oj].address@);
                        assert(has_address(old_pools, a));
                    }
                } else if j == p {
                    assert(now[i] == old_pools[oi]);
                } else {
                    assert(now[i] == old_pools[oi]);
                    assert(now[j] == old_pools[oj]);
                }
            }
        }
    }
    let pair = TokenPair::new(token_x, token_y);
    let ghost old_pairs = registry.pairs@;
    let ghost key0 = pair.key();
    match pair_index(&registry.pairs, &pair) {
        Some(i) => {
            if !list_has(&registry.pairs[i].pools, &pool_address) {
                let mut entry = registry.pairs.remove(i);
                entry.pools.push(pool_address.clone());
                registry.pairs.insert(i, entry);
            }
            proof {
                let now = registry.pairs@;
                assert(now.len() == old_pairs.len());
                assert forall|j: int| 0 <= j < now.len() implies (#[trigger] now[j]).pair.key()
                    == old_pairs[j].pair.key() && (j != i ==> now[j] == old_pairs[j]) by {}
                assert(distinct_pairs(now));
                assert(no_empty_entry(now));
                lemma_listed_at(old_pairs, i as int);
                lemma_listed_at(now, i as int);
                assert(now[i as int].pools@ == list_with(old_pairs[i as int].pools@, pool_address));
                assert forall|key: (Seq<char>, Seq<char>)|
                    #[trigger] listed(now, key) == if key == key0 {
                        list_with(listed(old_pairs, key), pool_address)
                    } else {
                        listed(old_pairs, key)
                    } by {
                    if key != key0 {
                        if has_pair(old_pairs, key) {
                            let j = choose|j: int|
                                0 <= j < old_pairs.len() && (#[trigger] old_pairs[j]).pair.key() == key;
                            lemma_listed_at(old_pairs, j);
                            lemma_listed_at(now, j);
                        } else if has_pair(now, key) {
                            let j = choose|j: int|
                                0 <= j < now.len() && (#[trigger] now[j]).pair.key() == key;
                            assert(old_pairs[j].pair.key() == key);
                        }
                    }
                }
            }
        },
        None => {
            let mut list: Vec<String> = Vec::new();
            list.push(pool_address.clone());
            registry.pairs.push(PairEntry { pair, pools: list });
            proof {
                let now = registry.pairs@;
                let last = old_pairs.len() as int;
                assert forall|j: int| 0 <= j < old_pairs.len() implies #[trigger] now[j]
                    == old_pairs[j] by {}
                assert(distinct_pairs(now)) by {
                    assert forall|a: int, b: int|
                        0 <= a < now.len() && 0 <= b < now.len() && a != b implies (
                    #[trigger] now[a]).pair.key() != (#[trigger] now[b]).pair.key() by {
                        if a < last {
                            assert(now[a] == old_pairs[a]);
                        }
                        if b < last {
                            assert(now[b] == old_pairs[b]);
                        }
                    }
                }
                assert(no_empty_entry(now)) by {
                    assert forall|j: int| 0 <= j < now.len() implies (#[trigger] now[j]).pools@.len()
                        > 0 by {
                        if j < last {
                            assert(now[j] == old_pairs[j]);
                        }
                    }
                }
                lemma_listed_at(now, last);
                assert(listed(old_pairs, key0) =~= Seq::<String>::empty());
                assert(!lists(Seq::<String>::empty(), pool_address@));
                assert(now[last].pools@ =~= Seq::<String>::empty().push(pool_address));
                assert forall|key: (Seq<char>, Seq<char>)|
                    #[trigger] listed(now, key) == if key == key0 {
                        list_with(listed(old_pairs, key), pool_address)
                    } else {
                        listed(old_pairs, key)
                    } by {
                    if key != key0 {
                        if has_pair(old_pairs, key) {
                            let j = choose|j: int|
                                0 <= j < old_pairs.len() && (#[trigger] old_pairs[j]).pair.key() == key;
                            lemma_listed_at(old_pairs, j);
                            lemma_listed_at(now, j);
                        } else if has_pair(now, key) {
                            let j = choose|j: int|
                                0 <= j < now.len() && (#[trigger] now[j]).pair.key() == key;
                            assert(j < last);
                            assert(old_pairs[j].pair.key() == key);
                        }
                    }
                }
            }
        },
    }
    proof {
        lemma_add_keeps_indexed(
            old_pools,
            first_pairs,
            registry.pools@,
            registry.pairs@,
            entry_view,
        );
    }
    Response { action: Action::AddPool, pool_address }
}

/// Takes the pool with the address out of the registry and out of the list of
/// its pair; the entry of the pair goes with its last pool.
///
/// `PoolNotFound` where no pool has the address; the registry is then as it was.
pub fn execute_remove_pool(registry: &mut Registry, pool_address: String) -> (r: Result<
    Response,
    RouterError,
>)
    requires
        old(registry).wf(),
    ensures
        final(registry).wf(),
        final(registry).config == old(registry).config,
        final(registry).pools@ == without_pool(old(registry).pools@, pool_address@),
        has_address(old(registry).pools@, pool_address@) ==> {
            let gone = old(registry).pools@[place_of(old(registry).pools@, pool_address@)];
            &&& r is Ok
            &&& r->Ok_0.action == Action::RemovePool
            &&& r->Ok_0.pool_address == pool_address
            &&& forall|key: (Seq<char>, Seq<char>)|
                #[trigger] listed(final(registry).pairs@, key) == if key == canonical_pair(
                    gone.token_x@,
                    gone.token_y@,
                ) {
                    list_without(listed(old(registry).pairs@, key), pool_address@)
                } else {
                    listed(old(registry).pairs@, key)
                }
        },
        !has_address(old(registry).pools@, pool_address@) ==> {
            &&& r == Err::<Response, RouterError>(RouterError::PoolNotFound)
            &&& final(registry).pairs@ == old(registry).pairs@
        },
{
    let ghost old_pools = registry.pools@;
    let (place, found) = locate(&registry.pools, &pool_address);
    if !found {
        return Err(RouterError::PoolNotFound);
    }
    let gone: PoolInfo = registry.pools.remove(place);
    proof {
        let now = registry.pools@;
        assert forall|i: int, j: int| 0 <= i < j < now.len() implies text_less(
            (#[trigger] now[i]).address@,
            (#[trigger] now[j]).address@,
        ) by {
            let p = place as int;
            let oi = if i < p {
                i
            } else {
                i + 1
            };
            let oj = if j < p {
                j
            } else {
                j + 1
            };
            assert(now[i] == old_pools[oi]);
            assert(now[j] == old_pools[oj]);
        }
    }
    let ghost gone_view = gone;
    let pair = TokenPair::new(gone.token_x, gone.token_y);
    let ghost old_pairs = registry.pairs@;
    let ghost key0 = pair.key();
    match pair_index(&registry.pairs, &pair) {
        Some(i) => {
            let entry = registry.pairs.remove(i);
            let rest = pruned(&entry.pools, &pool_address);
            let ghost emptied = rest@.len() == 0;
            if rest.len() > 0 {
                registry.pairs.insert(i, PairEntry { pair: entry.pair, pools: rest });
            }
            proof {
                let now = registry.pairs@;
                lemma_listed_at(old_pairs, i as int);
                if emptied {
                    assert forall|j: int| 0 <= j < now.len() implies #[trigger] now[j] == old_pairs[if j
                        < i {
                        j
                    } else {
                        j + 1
                    }] by {}
                    assert(distinct_pairs(now)) by {
                        assert forall|a: int, b: int|
                            0 <= a < now.len() && 0 <= b < now.len() && a != b implies (
                        #[trigger] now[a]).pair.key() != (#[trigger] now[b]).pair.key() by {
                            let oa = if a < i {
                                a
                            } else {
                                a + 1
                            };
                            let ob = if b < i {
                                b
                            } else {
                                b + 1
                            };
                            assert(now[a] == old_pairs[oa]);
                            assert(now[b] == old_pairs[ob]);
                        }
                    }
                    assert(no_empty_entry(now)) by {
                        assert forall|j: int| 0 <= j < now.len() implies (
                        #[trigger] now[j]).pools@.len() > 0 by {
                            let oj = if j < i {
                                j
                            } else {
                                j + 1
                            };
                            assert(now[j] == old_pairs[oj]);
                        }
                    }
                    assert(!has_pair(now, key0)) by {
                        if has_pair(now, key0) {
                            let j = choose|j: int|
                                0 <= j < now.len() && (#[trigger] now[j]).pair.key() == key0;
                            let oj = if j < i {
                                j
                            } else {
                                j + 1
                            };
                            assert(now[j] == old_pairs[oj]);
                        }
                    }
                    assert(listed(now, key0) =~= rest@);
                    assert forall|key: (Seq<char>, Seq<char>)|
                        #[trigger] listed(now, key) == if key == key0 {
                            list_without(listed(old_pairs, key), pool_address@)
                        } else {
                            listed(old_pairs, key)
                        } by {
                        if key != key0 {
                            if has_pair(old_pairs, key) {
                                let j = choose|j: int|
                                    0 <= j < old_pairs.len() && (#[trigger] old_pairs[j]).pair.key()
                                        == key;
                                lemma_listed_at(old_pairs, j);
                                let nj = if j < i {
                                    j
                                } else {
                                    j - 1
                                };
                                assert(now[nj] == old_pairs[j]);
                                lemma_listed_at(now, nj);
                            } else if has_pair(now, key) {
                                let j = choose|j: int|
                                    0 <= j < now.len() && (#[trigger] now[j]).pair.key() == key;
                                let oj = if j < i {
                                    j
                                } else {
                                    j + 1
                                };
                                assert(now[j] == old_pairs[oj]);
                            }
                        }
                    }
                } else {
                    assert(now.len() == old_pairs.len());
                    assert forall|j: int| 0 <= j < now.len() implies (#[trigger] now[j]).pair.key()
                        == old_pairs[j].pair.key() && (j != i ==> now[j] == old_pairs[j]) by {}
                    assert(distinct_pairs(now));
                    assert(no_empty_entry(now));
                    lemma_listed_at(now, i as int);
                    assert forall|key: (Seq<char>, Seq<char>)|
                        #[trigger] listed(now, key) == if key == key0 {
                            list_without(listed(old_pairs, key), pool_address@)
                        } else {
                            listed(old_pairs, key)
                        } by {
                        if key != key0 {
                            if has_pair(old_pairs, key) {
                                let j = choose|j: int|
                                    0 <= j < old_pairs.len() && (#[trigger] old_pairs[j]).pair.key()
                                        == key;
                                lemma_listed_at(old_pairs, j);
                                lemma_listed_at(now, j);
                            } else if has_pair(now, key) {
                                let j = choose|j: int|
                                    0 <= j < now.len() && (#[trigger] now[j]).pair.key() == key;
                                assert(old_pairs[j].pair.key() == key);
                            }
                        }
                    }
                }
            }
        },
        None => {
            proof {
                assert(listed(old_pairs, key0) =~= Seq::<String>::empty());
                assert(list_without(Seq::<String>::empty(), pool_address@) =~= Seq::<
                    String,
                >::empty()) by {
                    reveal(Seq::filter);
                }
            }
        },
    }
    proof {
        assert(gone_view == old_pools[place as int]);
        lemma_remove_keeps_indexed(old_pools, old_pairs, registry.pairs@, place as int);
    }
    Ok(Response { action: Action::RemovePool, pool_address })
}

/// Carries out one operation on the registry.
pub fn execute(registry: &mut Registry, msg: ExecuteMsg) -> (r: Result<Response, RouterError>)
    requires
        old(registry).wf(),
    ensures
        final(registry).wf(),
        final(registry).config == old(registry).config,
        match msg {
            ExecuteMsg::AddPool { pool_address, token_x, token_y, fee_bps, liquidity } => {
                &&& r is Ok
                &&& r->Ok_0.action == Action::AddPool
                &&& r->Ok_0.pool_address == pool_address
                &&& final(registry).pools@ == with_pool(
                    old(registry).pools@,
                    PoolInfo { address: pool_address, token_x, token_y, fee_bps, liquidity },
                )
                &&& forall|key: (Seq<char>, Seq<char>)|
                    #[trigger] listed(final(registry).pairs@, key) == if key == canonical_pair(
                        token_x@,
                        token_y@,
                    ) {
                        list_with(listed(old(registry).pairs@, key), pool_address)
                    } else {
                        listed(old(registry).pairs@, key)
                    }
            },
            ExecuteMsg::RemovePool { pool_address } => {
                &&& final(registry).pools@ == without_pool(old(registry).pools@, pool_address@)
                &&& r is Ok == has_address(old(registry).pools@, pool_address@)
                &&& r is Ok ==> r->Ok_0.action == Action::RemovePool && r->Ok_0.pool_address
                    == pool_address
                &&& r is Err ==> r->Err_0 == RouterError::PoolNotFound && final(registry).pairs@
                    == old(registry).pairs@
            },
        },
{
    match msg {
        ExecuteMsg::AddPool { pool_address, token_x, token_y, fee_bps, liquidity } => Ok(
            execute_add_pool(registry, pool_address, token_x, token_y, fee_bps, liquidity),
        ),
        ExecuteMsg::RemovePool { pool_address } => execute_remove_pool(registry, pool_address),
    }
}

/// The addresses of the pools that were added for the pair of the two tokens,
/// whichever is given first.
pub fn pools_for_pair(registry: &Registry, token_a: String, token_b: String) -> (r: Vec<String>)
    requires
        registry.wf(),
    ensures
        r@ == listed(registry.pairs@, canonical_pair(token_a@, token_b@)),
        r@ == listed(registry.pairs@, canonical_pair(token_b@, token_a@)),
{
    let pair = TokenPair::new(token_a, token_b);
    match pair_index(&registry.pairs, &pair) {
        Some(i) => {
            proof {
                lemma_listed_at(registry.pairs@, i as int);
            }
            copy_list(&registry.pairs[i].pools)
        },
        None => Vec::new(),
    }
}

/// The best route from `token_in` to `token_out` through the registered pools
/// for an input of `amount_in`. With no pool registered the answer is the empty
/// route, also from a token to itself.
pub fn find_best_route(registry: &Registry, token_in: String, token_out: String, amount_in: u128) -> (route:
    Route)
    ensures
        registry.pools@.len() == 0 ==> is_empty_route(route),
        registry.pools@.len() > 0 ==> route_answer(
            registry.pools@,
            token_in@,
            token_out@,
            amount_in,
            route,
        ),
{
    if registry.pools.len() == 0 {
        return Route { pools: Vec::new(), tokens: Vec::new(), estimated_output: 0, price_impact: 0 };
    }
    dijkstra_find_path(&registry.pools, &token_in, &token_out, amount_in)
}

/// The answer to a question about the registry.
///
/// `PoolNotFound` for a pool that is not registered; every other question has
/// an answer.
pub fn query(registry: &Registry, msg: QueryMsg) -> (r: Result<QueryResponse, RouterError>)
    requires
        registry.wf(),
    ensures
        match msg {
            QueryMsg::Config {  } => r is Ok && r->Ok_0 == QueryResponse::Config(registry.config),
            QueryMsg::Pool { pool_address } => if has_address(registry.pools@, pool_address@) {
                r is Ok && r->Ok_0 == QueryResponse::Pool(
                    registry.pools@[place_of(registry.pools@, pool_address@)],
                )
            } else {
                r == Err::<QueryResponse, RouterError>(RouterError::PoolNotFound)
            },
            QueryMsg::Route { token_in, token_out, amount_in } => {
                &&& r is Ok
                &&& r->Ok_0 is Route
                &&& registry.pools@.len() == 0 ==> is_empty_route(r->Ok_0->Route_0)
                &&& registry.pools@.len() > 0 ==> route_answer(
                    registry.pools@,
                    token_in@,
                    token_out@,
                    amount_in,
                    r->Ok_0->Route_0,
                )
            },
            QueryMsg::PoolsForTokenPair { token_a, token_b } => {
                &&& r is Ok
                &&& r->Ok_0 is Pools
                &&& r->Ok_0->Pools_0@ == listed(registry.pairs@, canonical_pair(token_a@, token_b@))
            },
        },
{
    match msg {
        QueryMsg::Config {  } => Ok(
            QueryResponse::Config(Config { owner: registry.config.owner.clone() }),
        ),
        QueryMsg::Pool { pool_address } => {
            let (place, found) = locate(&registry.pools, &pool_address);
            if found {
                Ok(QueryResponse::Pool(copy_pool(&registry.pools[place])))
            } else {
                Err(RouterError::PoolNotFound)
            }
        },
        QueryMsg::Route { token_in, token_out, amount_in } => Ok(
            QueryResponse::Route(find_best_route(registry, token_in, token_out, amount_in)),
        ),
        QueryMsg::PoolsForTokenPair { token_a, token_b } => Ok(
            QueryResponse::Pools(pools_for_pair(registry, token_a, token_b)),
        ),
    }
}

} // verus!
