//! Routes through pools: what a pool and a route are, what makes a route a
//! best one, and the search that finds it.
//!
//! A route is a walk through a list of pools. Walking a pool turns the amount
//! at hand into the pool's estimated output; the best route is one whose final
//! amount no other route between the same two tokens exceeds. Finding no route
//! is no error: the answer is then the empty route.

use crate::search::{
    best_path, edges_ok, estimate_output, far_end, path_amount, path_node, path_ok, touches, Edge,
};
use crate::text::{lemma_text_less_asymmetric, lemma_text_less_total, string_less, text_less};
use crate::wide::{mul_div, Wide};
use vstd::prelude::*;

verus! {

/// Who owns the router.
#[derive(Clone, Debug, PartialEq, Eq)]
pub struct Config {
    pub owner: String,
}

/// One registered pool. The liquidity is a scalar for estimating routes, not
/// the pool's reserves.
#[derive(Clone, Debug, PartialEq, Eq)]
pub struct PoolInfo {
    pub address: String,
    pub token_x: String,
    pub token_y: String,
    pub fee_bps: u16,
    pub liquidity: u128,
}

/// The answer to a route query: the pools to go through, the tokens on the
/// way (one more than pools), the estimated final amount, and how far that is
/// from the input, in basis points of the output.
#[derive(Clone, Debug, PartialEq, Eq)]
pub struct Route {
    pub pools: Vec<String>,
    pub tokens: Vec<String>,
    pub estimated_output: u128,
    pub price_impact: u64,
}

/// An unordered pair of tokens, held in the order of strings.
#[derive(Clone, Debug, PartialEq, Eq)]
pub struct TokenPair {
    pub token_a: String,
    pub token_b: String,
}

/// The two tokens in the order of strings.
pub open spec fn canonical_pair(a: Seq<char>, b: Seq<char>) -> (Seq<char>, Seq<char>) {
    if text_less(a, b) {
        (a, b)
    } else {
        (b, a)
    }
}

/// The pair does not depend on the order in which its tokens are given.
pub proof fn lemma_pair_symmetric(a: Seq<char>, b: Seq<char>)
    ensures
        canonical_pair(a, b) == canonical_pair(b, a),
{
    if text_less(a, b) {
        lemma_text_less_asymmetric(a, b);
    } else if !text_less(b, a) {
        lemma_text_less_total(a, b);
    }
}

impl TokenPair {
    /// The pair as two strings.
    pub open spec fn key(&self) -> (Seq<char>, Seq<char>) {
        (self.token_a@, self.token_b@)
    }

    /// The pair of the two tokens, whichever is given first.
    pub fn new(token_a: String, token_b: String) -> (pair: TokenPair)
        ensures
            pair.key() == canonical_pair(token_a@, token_b@),
            pair.key() == canonical_pair(token_b@, token_a@),
    {
        proof {
            lemma_pair_symmetric(token_a@, token_b@);
        }
        if string_less(&token_a, &token_b) {
            TokenPair { token_a, token_b }
        } else {
            TokenPair { token_a: token_b, token_b: token_a }
        }
    }
}

/// What a new router is made from.
#[derive(Clone, Debug, PartialEq, Eq)]
pub struct InstantiateMsg {
    pub owner: String,
}

/// The operations that change the registry.
#[derive(Clone, Debug, PartialEq, Eq)]
pub enum ExecuteMsg {
    AddPool { pool_address: String, token_x: String, token_y: String, fee_bps: u16, liquidity: u128 },
    RemovePool { pool_address: String },
}

/// The questions the router answers.
#[derive(Clone, Debug, PartialEq, Eq)]
pub enum QueryMsg {
    Config {  },
    Pool { pool_address: String },
    Route { token_in: String, token_out: String, amount_in: u128 },
    PoolsForTokenPair { token_a: String, token_b: String },
}

/// The pool has the token at one of its ends.
pub open spec fn pool_touches(pool: PoolInfo, token: Seq<char>) -> bool {
    token == pool.token_x@ || token == pool.token_y@
}

/// The token at the other end of the pool.
pub open spec fn hop_token(pool: PoolInfo, token: Seq<char>) -> Seq<char> {
    if token == pool.token_x@ {
        pool.token_y@
    } else {
        pool.token_x@
    }
}

/// The token at which a walk through the pools numbered by `hops` ends.
pub open spec fn route_token(pools: Seq<PoolInfo>, start: Seq<char>, hops: Seq<usize>) -> Seq<char>
    decreases hops.len(),
{
    if hops.len() == 0 {
        start
    } else {
        hop_token(pools[hops.last() as int], route_token(pools, start, hops.drop_last()))
    }
}

/// Every hop is a pool of the registry that trades the token reached before it.
pub open spec fn route_ok(pools: Seq<PoolInfo>, start: Seq<char>, hops: Seq<usize>) -> bool
    decreases hops.len(),
{
    if hops.len() == 0 {
        true
    } else {
        &&& route_ok(pools, start, hops.drop_last())
        &&& hops.last() < pools.len()
        &&& pool_touches(pools[hops.last() as int], route_token(pools, start, hops.drop_last()))
    }
}

/// The amount at the end of the walk: one estimate per pool.
pub open spec fn route_amount(pools: Seq<PoolInfo>, amount_in: u128, hops: Seq<usize>) -> u128
    decreases hops.len(),
{
    if hops.len() == 0 {
        amount_in
    } else {
        let pool = pools[hops.last() as int];
        estimate_output(route_amount(pools, amount_in, hops.drop_last()), pool.liquidity, pool.fee_bps)
    }
}

/// Some walk leads from `start` to `end`.
pub open spec fn reachable(pools: Seq<PoolInfo>, start: Seq<char>, end: Seq<char>) -> bool {
    exists|hops: Seq<usize>| #[trigger]
        route_ok(pools, start, hops) && route_token(pools, start, hops) == end
}

/// How far the output is from the input, in basis points of the output:
/// `|amount_in / output - 1| * 10000`, rounded down, and no more than 64 bits
/// hold. A rough measure against a reference price of one.
pub open spec fn price_impact_bps(amount_in: u128, output: u128) -> u64 {
    if amount_in == 0 {
        0
    } else if output == 0 {
        u64::MAX
    } else {
        let gap: nat = if amount_in >= output {
            (amount_in - output) as nat
        } else {
            (output - amount_in) as nat
        };
        let bps = (gap * 10000) / (output as nat);
        if bps > u64::MAX {
            u64::MAX
        } else {
            bps as u64
        }
    }
}

/// The route says what the walk `hops` is: its pools by address, its tokens,
/// its final amount and the price impact of that amount.
pub open spec fn route_describes(
    pools: Seq<PoolInfo>,
    start: Seq<char>,
    amount_in: u128,
    hops: Seq<usize>,
    route: Route,
) -> bool {
    &&& route.pools@.len() == hops.len()
    &&& forall|k: int|
        0 <= k < hops.len() ==> (#[trigger] route.pools@[k])@ == pools[hops[k] as int].address@
    &&& route.tokens@.len() == hops.len() + 1
    &&& forall|k: int|
        0 <= k <= hops.len() ==> (#[trigger] route.tokens@[k])@ == route_token(
            pools,
            start,
            hops.take(k),
        )
    &&& route.estimated_output == route_amount(pools, amount_in, hops)
    &&& route.price_impact == price_impact_bps(amount_in, route.estimated_output)
}

/// The route of no hops and no tokens, with nothing arriving.
pub open spec fn is_empty_route(route: Route) -> bool {
    &&& route.pools@.len() == 0
    &&& route.tokens@.len() == 0
    &&& route.estimated_output == 0
    &&& route.price_impact == 0
}

/// The route is a best one from `start` to `end`: it describes a walk between
/// the two, and no walk between them ends with more.
pub open spec fn is_best_route(
    pools: Seq<PoolInfo>,
    start: Seq<char>,
    end: Seq<char>,
    amount_in: u128,
    route: Route,
) -> bool {
    &&& exists|hops: Seq<usize>| #[trigger]
        route_ok(pools, start, hops) && route_token(pools, start, hops) == end && route_describes(
            pools,
            start,
            amount_in,
            hops,
            route,
        )
    &&& forall|other: Seq<usize>| #[trigger]
        route_ok(pools, start, other) && route_token(pools, start, other) == end ==> route_amount(
            pools,
            amount_in,
            other,
        ) <= route.estimated_output
}

/// What a route query is answered with: a best route where `end` can be
/// reached, the empty route where it cannot.
pub open spec fn route_answer(
    pools: Seq<PoolInfo>,
    start: Seq<char>,
    end: Seq<char>,
    amount_in: u128,
    route: Route,
) -> bool {
    if reachable(pools, start, end) {
        is_best_route(pools, start, end, amount_in, route)
    } else {
        is_empty_route(route)
    }
}

/// A route query between two tokens that a registered pool trades directly is
/// answered with a route, and the route brings at least what that pool is
/// estimated to give.
pub proof fn lemma_route_covers_direct_pool(
    pools: Seq<PoolInfo>,
    start: Seq<char>,
    end: Seq<char>,
    amount_in: u128,
    route: Route,
    j: usize,
)
    requires
        route_answer(pools, start, end, amount_in, route),
        j < pools.len(),
        pool_touches(pools[j as int], start),
        hop_token(pools[j as int], start) == end,
    ensures
        is_best_route(pools, start, end, amount_in, route),
        route.estimated_output >= estimate_output(
            amount_in,
            pools[j as int].liquidity,
            pools[j as int].fee_bps,
        ),
{
    let hops = seq![j];
    assert(hops.drop_last() =~= Seq::<usize>::empty());
    assert(hops.last() == j);
    let none = hops.drop_last();
    assert(route_ok(pools, start, none));
    assert(route_token(pools, start, none) == start);
    assert(route_amount(pools, amount_in, none) == amount_in);
    assert(route_ok(pools, start, hops) && route_token(pools, start, hops) == end);
}

/// No walk ends with more than it began with, and a walk of one hop or more
/// ends with no more than its first hop gives.
pub proof fn lemma_walk_bounded(pools: Seq<PoolInfo>, amount_in: u128, hops: Seq<usize>)
    ensures
        route_amount(pools, amount_in, hops) <= amount_in,
        hops.len() > 0 ==> route_amount(pools, amount_in, hops) <= estimate_output(
            amount_in,
            pools[hops[0] as int].liquidity,
            pools[hops[0] as int].fee_bps,
        ),
    decreases hops.len(),
{
    if hops.len() > 0 {
        let before = hops.drop_last();
        lemma_walk_bounded(pools, amount_in, before);
        let pool = pools[hops.last() as int];
        let at = route_amount(pools, amount_in, before);
        crate::search::lemma_estimate_monotonic(at, amount_in, pool.liquidity, pool.fee_bps);
        if before.len() > 0 {
            assert(before[0] == hops[0]);
            let first = pools[hops[0] as int];
            let one = estimate_output(amount_in, first.liquidity, first.fee_bps);
            crate::search::lemma_estimate_monotonic(at, one, pool.liquidity, pool.fee_bps);
            crate::search::lemma_estimate_monotonic(one, one, pool.liquidity, pool.fee_bps);
        }
    }
}

/// With a single pool registered, a route between its two tokens brings
/// exactly what that pool is estimated to give.
pub proof fn lemma_single_pool_route(
    pools: Seq<PoolInfo>,
    start: Seq<char>,
    end: Seq<char>,
    amount_in: u128,
    route: Route,
)
    requires
        pools.len() == 1,
        start != end,
        pool_touches(pools[0], start),
        hop_token(pools[0], start) == end,
        route_answer(pools, start, end, amount_in, route),
    ensures
        route.estimated_output == estimate_output(amount_in, pools[0].liquidity, pools[0].fee_bps),
{
    lemma_route_covers_direct_pool(pools, start, end, amount_in, route, 0);
    let hops = choose|hops: Seq<usize>| #[trigger]
        route_ok(pools, start, hops) && route_token(pools, start, hops) == end && route_describes(
            pools,
            start,
            amount_in,
            hops,
            route,
        );
    lemma_walk_bounded(pools, amount_in, hops);
    assert(hops.len() > 0);
    lemma_first_hop_in_range(pools, start, hops);
}

/// The first hop of a walk is a registered pool.
proof fn lemma_first_hop_in_range(pools: Seq<PoolInfo>, start: Seq<char>, hops: Seq<usize>)
    requires
        route_ok(pools, start, hops),
        hops.len() > 0,
    ensures
        hops[0] < pools.len(),
    decreases hops.len(),
{
    if hops.len() > 1 {
        lemma_first_hop_in_range(pools, start, hops.drop_last());
        assert(hops.drop_last()[0] == hops[0]);
    }
}

/// The strings of the table are pairwise different.
pub open spec fn distinct_tokens(table: Seq<String>) -> bool {
    forall|i: int, j: int|
        0 <= i < table.len() && 0 <= j < table.len() && i != j ==> (#[trigger] table[i])@ != (
        #[trigger] table[j])@
}

/// Edge `j` is pool `j` with its tokens replaced by their places in the table.
pub open spec fn edge_matches(pool: PoolInfo, table: Seq<String>, e: Edge) -> bool {
    &&& e.x < table.len()
    &&& e.y < table.len()
    &&& table[e.x as int]@ == pool.token_x@
    &&& table[e.y as int]@ == pool.token_y@
    &&& e.liquidity == pool.liquidity
    &&& e.fee_bps == pool.fee_bps
}

pub open spec fn graph_matches(pools: Seq<PoolInfo>, table: Seq<String>, edges: Seq<Edge>) -> bool {
    &&& edges.len() == pools.len()
    &&& forall|j: int| 0 <= j < edges.len() ==> edge_matches(pools[j], table, #[trigger] edges[j])
}

/// Walks through the pools are walks through the graph, hop for hop.
proof fn lemma_walks_agree(
    pools: Seq<PoolInfo>,
    table: Seq<String>,
    edges: Seq<Edge>,
    start: Seq<char>,
    amount_in: u128,
    hops: Seq<usize>,
)
    requires
        graph_matches(pools, table, edges),
        distinct_tokens(table),
        table.len() > 0,
        table[0]@ == start,
    ensures
        route_ok(pools, start, hops) == path_ok(edges, 0, hops),
        path_ok(edges, 0, hops) ==> {
            &&& path_node(edges, 0, hops) < table.len()
            &&& table[path_node(edges, 0, hops) as int]@ == route_token(pools, start, hops)
            &&& path_amount(edges, amount_in, hops) == route_amount(pools, amount_in, hops)
        },
    decreases hops.len(),
{
    if hops.len() > 0 {
        let before = hops.drop_last();
        lemma_walks_agree(pools, table, edges, start, amount_in, before);
        if path_ok(edges, 0, before) && hops.last() < edges.len() {
            let j = hops.last() as int;
            let u = path_node(edges, 0, before);
            assert(edge_matches(pools[j], table, edges[j]));
            // the token at `u` is a token of the pool exactly where `u` is an end of the edge
            if u != edges[j].x {
                assert(table[u as int]@ != table[edges[j].x as int]@);
            }
            if u != edges[j].y {
                assert(table[u as int]@ != table[edges[j].y as int]@);
            }
        }
    }
}

/// A walk that is cut short is still a walk.
proof fn lemma_prefix_ok(edges: Seq<Edge>, start: usize, hops: Seq<usize>, k: int)
    requires
        path_ok(edges, start, hops),
        0 <= k <= hops.len(),
    ensures
        path_ok(edges, start, hops.take(k)),
    decreases hops.len(),
{
    if k < hops.len() {
        lemma_prefix_ok(edges, start, hops.drop_last(), k);
        assert(hops.drop_last().take(k) =~= hops.take(k));
    } else {
        assert(hops.take(k) =~= hops);
    }
}

/// The first place of `token` in the table.
fn token_index(table: &Vec<String>, token: &String) -> (r: Option<usize>)
    ensures
        match r {
            Some(i) => i < table.len() && table@[i as int]@ == token@,
            None => forall|j: int| 0 <= j < table.len() ==> (#[trigger] table@[j])@ != token@,
        },
{
    let mut i: usize = 0;
    while i < table.len()
        invariant
            i <= table.len(),
            forall|j: int| 0 <= j < i ==> (#[trigger] table@[j])@ != token@,
        decreases table.len() - i,
    {
        if table[i] == *token {
            return Some(i);
        }
        i = i + 1;
    }
    None
}

/// The place of `token` in the table, which gets the token at its end where
/// it does not hold it yet.
fn intern(table: &mut Vec<String>, token: &String) -> (i: usize)
    requires
        distinct_tokens(old(table)@),
    ensures
        distinct_tokens(final(table)@),
        i < final(table).len(),
        final(table)@[i as int]@ == token@,
        final(table).len() >= old(table).len(),
        final(table)@.take(old(table).len() as int) == old(table)@,
{
    match token_index(table, token) {
        Some(i) => {
            proof {
                assert(table@.take(table.len() as int) =~= table@);
            }
            i
        },
        None => {
            let ghost before = table@;
            table.push(token.clone());
            proof {
                assert(table@.take(before.len() as int) =~= before);
                assert forall|i: int, j: int|
                    0 <= i < table@.len() && 0 <= j < table@.len() && i != j implies (
                #[trigger] table@[i])@ != (#[trigger] table@[j])@ by {
                    if i < before.len() {
                        assert(table@[i] == before[i]);
                    }
                    if j < before.len() {
                        assert(table@[j] == before[j]);
                    }
                }
            }
            table.len() - 1
        },
    }
}

/// The price impact of `output` for an input of `amount_in`.
pub fn price_impact(amount_in: u128, output: u128) -> (r: u64)
    ensures
        r == price_impact_bps(amount_in, output),
{
    if amount_in == 0 {
        return 0;
    }
    if output == 0 {
        return u64::MAX;
    }
    let gap: u128 = if amount_in >= output {
        amount_in - output
    } else {
        output - amount_in
    };
    let times: u128 = gap / output;
    let rest: u128 = gap % output;
    let (part, left) = mul_div(10000, &Wide::from_u128(rest), &Wide::from_u128(output));
    proof {
        // gap * 10000 == (times * 10000 + part) * output + left
        let g = gap as int;
        let o = output as int;
        let t = times as int;
        let r0 = rest as int;
        let p = part as int;
        let l = left@ as int;
        vstd::arithmetic::div_mod::lemma_fundamental_div_mod(g, o);
        vstd::arithmetic::div_mod::lemma_fundamental_div_mod(10000 * r0, o);
        assert(10000 * r0 >= 0);
        vstd::arithmetic::div_mod::lemma_mod_bound(10000 * r0, o);
        assert(g * 10000 == (t * 10000 + p) * o + l) by (nonlinear_arith)
            requires
                g == o * t + r0,
                10000 * r0 == o * p + l,
        ;
        crate::wide::lemma_quotient_unique(g * 10000, o, t * 10000 + p, l);
        assert(t >= 0 && p >= 0) by {
            vstd::arithmetic::div_mod::lemma_div_pos_is_pos(g, o);
        }
    }
    if times > 1844674407370955 {
        // times * 10000 alone is above 64 bits
        return u64::MAX;
    }
    let bps: u128 = times * 10000 + part;
    if bps > 0xffff_ffff_ffff_ffff {
        u64::MAX
    } else {
        bps as u64
    }
}

/// The best route from `start_token` to `end_token` through `pools`, for an
/// input of `amount_in`; the empty route where there is none.
///
/// A best-first search over the tokens: the token with the largest amount
/// known so far is settled next, and every pool that trades it offers its
/// estimated output to the token at its other end.
pub fn dijkstra_find_path(
    pools: &Vec<PoolInfo>,
    start_token: &String,
    end_token: &String,
    amount_in: u128,
) -> (route: Route)
    ensures
        route_answer(pools@, start_token@, end_token@, amount_in, route),
{
    let mut table: Vec<String> = Vec::new();
    table.push(start_token.clone());
    let mut edges: Vec<Edge> = Vec::new();
    let mut i: usize = 0;
    while i < pools.len()
        invariant
            i <= pools.len(),
            edges.len() == i,
            table.len() > 0,
            table@[0]@ == start_token@,
            distinct_tokens(table@),
            forall|j: int| 0 <= j < i ==> edge_matches(pools@[j], table@, #[trigger] edges@[j]),
        decreases pools.len() - i,
    {
        let ghost before = table@;
        let x: usize = intern(&mut table, &pools[i].token_x);
        let ghost middle = table@;
        let y: usize = intern(&mut table, &pools[i].token_y);
        let edge = Edge { x, y, liquidity: pools[i].liquidity, fee_bps: pools[i].fee_bps };
        let ghost old_edges = edges@;
        edges.push(edge);
        proof {
            assert(middle[x as int] == table@.take(middle.len() as int)[x as int]);
            assert(before[0] == middle.take(before.len() as int)[0]);
            assert(middle[0] == table@.take(middle.len() as int)[0]);
            assert forall|j: int| 0 <= j < i + 1 implies edge_matches(
                pools@[j],
                table@,
                #[trigger] edges@[j],
            ) by {
                if j < i {
                    let e = old_edges[j];
                    assert(edges@[j] == e);
                    assert(edge_matches(pools@[j], before, e));
                    assert(before[e.x as int] == middle.take(before.len() as int)[e.x as int]);
                    assert(before[e.y as int] == middle.take(before.len() as int)[e.y as int]);
                    assert(middle[e.x as int] == table@.take(middle.len() as int)[e.x as int]);
                    assert(middle[e.y as int] == table@.take(middle.len() as int)[e.y as int]);
                }
            }
        }
        i = i + 1;
    }
    proof {
        assert(graph_matches(pools@, table@, edges@));
        assert(edges_ok(edges@, table@.len()));
    }
    let end: usize = match token_index(&table, end_token) {
        Some(e) => e,
        None => {
            proof {
                // every walk ends at a token of the table
                assert forall|hops: Seq<usize>| #[trigger]
                    route_ok(pools@, start_token@, hops) implies route_token(
                    pools@,
                    start_token@,
                    hops,
                ) != end_token@ by {
                    lemma_walks_agree(pools@, table@, edges@, start_token@, amount_in, hops);
                }
            }
            return Route {
                pools: Vec::new(),
                tokens: Vec::new(),
                estimated_output: 0,
                price_impact: 0,
            };
        },
    };
    let found = best_path(&edges, table.len(), 0, end, amount_in);
    let (hops, amount) = match found {
        Some(f) => f,
        None => {
            proof {
                assert forall|hops: Seq<usize>| #[trigger]
                    route_ok(pools@, start_token@, hops) implies route_token(
                    pools@,
                    start_token@,
                    hops,
                ) != end_token@ by {
                    lemma_walks_agree(pools@, table@, edges@, start_token@, amount_in, hops);
                    if route_token(pools@, start_token@, hops) == end_token@ {
                        let w = path_node(edges@, 0, hops);
                        if w != end {
                            assert(table@[w as int]@ != table@[end as int]@);
                        }
                    }
                }
            }
            return Route {
                pools: Vec::new(),
                tokens: Vec::new(),
                estimated_output: 0,
                price_impact: 0,
            };
        },
    };
    // the walk as addresses and tokens
    let mut route_pools: Vec<String> = Vec::new();
    let mut route_tokens: Vec<String> = Vec::new();
    route_tokens.push(start_token.clone());
    let mut at: usize = 0;
    let mut k: usize = 0;
    proof {
        assert(hops@.take(0) =~= Seq::<usize>::empty());
    }
    while k < hops.len()
        invariant
            k <= hops.len(),
            graph_matches(pools@, table@, edges@),
            distinct_tokens(table@),
            table.len() > 0,
            table@[0]@ == start_token@,
            path_ok(edges@, 0, hops@),
            at == path_node(edges@, 0, hops@.take(k as int)),
            at < table.len(),
            route_pools@.len() == k,
            route_tokens@.len() == k + 1,
            forall|m: int| 0 <= m < k ==> (#[trigger] route_pools@[m])@ == pools@[hops@[m] as int].address@,
            forall|m: int|
                0 <= m <= k ==> (#[trigger] route_tokens@[m])@ == route_token(
                    pools@,
                    start_token@,
                    hops@.take(m),
                ),
        decreases hops.len() - k,
    {
        proof {
            lemma_prefix_ok(edges@, 0, hops@, k as int + 1);
            let longer = hops@.take(k as int + 1);
            assert(longer.drop_last() =~= hops@.take(k as int));
            assert(longer.last() == hops@[k as int]);
            lemma_walks_agree(pools@, table@, edges@, start_token@, amount_in, longer);
        }
        let j: usize = hops[k];
        let e: Edge = edges[j];
        let next: usize = if at == e.x {
            e.y
        } else {
            e.x
        };
        route_pools.push(pools[j].address.clone());
        route_tokens.push(table[next].clone());
        at = next;
        k = k + 1;
    }
    let impact: u64 = price_impact(amount_in, amount);
    let route = Route {
        pools: route_pools,
        tokens: route_tokens,
        estimated_output: amount,
        price_impact: impact,
    };
    proof {
        lemma_walks_agree(pools@, table@, edges@, start_token@, amount_in, hops@);
        assert(route_describes(pools@, start_token@, amount_in, hops@, route));
        assert(route_ok(pools@, start_token@, hops@) && route_token(pools@, start_token@, hops@)
            == end_token@);
        assert forall|other: Seq<usize>| #[trigger]
            route_ok(pools@, start_token@, other) && route_token(pools@, start_token@, other)
                == end_token@ implies route_amount(pools@, amount_in, other)
            <= route.estimated_output by {
            lemma_walks_agree(pools@, table@, edges@, start_token@, amount_in, other);
            let w = path_node(edges@, 0, other);
            if w != end {
                assert(table@[w as int]@ != table@[end as int]@);
            }
        }
    }
    route
}

} // verus!
