//! The best-route search on a graph of numbered tokens.
//!
//! A token is a number below `n`; an edge is a pool between two tokens, with
//! the liquidity and the fee that the swap estimate needs. A path is a sequence
//! of edge numbers; walking it from the start token turns the input amount into
//! an output amount, one estimate per edge. `best_path` finds a path to the end
//! token whose output no other path exceeds.
//!
//! The search settles tokens in the order of their best amounts, largest
//! first. That is sound because an estimate never returns more than it is
//! given, and never less for a larger input.

use crate::wide::{mul_div, Wide};
use vstd::prelude::*;

verus! {

/// The output that a pool of the given liquidity is expected to give for
/// `amount_in`, with both reserves taken as half the liquidity:
///
/// ```text
/// fee             = amount_in * fee_bps / 10000
/// amount_after_fee = amount_in - fee
/// reserve         = liquidity / 2
/// out             = reserve * amount_after_fee / (reserve + amount_after_fee)
/// ```
///
/// Each division rounds down; a fee above the input leaves nothing.
pub open spec fn estimate_output(amount_in: u128, liquidity: u128, fee_bps: u16) -> u128 {
    if liquidity == 0 || amount_in == 0 {
        0
    } else {
        let after = amount_after_fee(amount_in, fee_bps);
        let reserve = (liquidity / 2) as nat;
        if reserve + after == 0 {
            0
        } else {
            ((reserve * after) / (reserve + after)) as u128
        }
    }
}

/// What is left of `amount_in` once the fee is taken.
pub open spec fn amount_after_fee(amount_in: u128, fee_bps: u16) -> nat {
    let fee = (amount_in as nat * fee_bps as nat) / 10000;
    if fee >= amount_in {
        0
    } else {
        (amount_in - fee) as nat
    }
}

/// What is left after the fee is no more than the input, and grows with it.
pub proof fn lemma_after_fee_monotonic(a1: u128, a2: u128, fee_bps: u16)
    requires
        a1 <= a2,
    ensures
        amount_after_fee(a1, fee_bps) <= amount_after_fee(a2, fee_bps),
        amount_after_fee(a1, fee_bps) <= a1,
{
    let f = fee_bps as int;
    let n1 = a1 as int * f;
    let n2 = a2 as int * f;
    let q1 = n1 / 10000;
    let q2 = n2 / 10000;
    assert(n1 >= 0 && n2 >= 0) by (nonlinear_arith)
        requires
            n1 == a1 as int * f,
            n2 == a2 as int * f,
            f >= 0,
    ;
    vstd::arithmetic::div_mod::lemma_fundamental_div_mod(n1, 10000);
    vstd::arithmetic::div_mod::lemma_fundamental_div_mod(n2, 10000);
    if f >= 10000 {
        // the fee takes everything
        assert(n2 >= a2 as int * 10000) by (nonlinear_arith)
            requires
                n2 == a2 as int * f,
                f >= 10000,
        ;
        assert(n1 >= a1 as int * 10000) by (nonlinear_arith)
            requires
                n1 == a1 as int * f,
                f >= 10000,
        ;
    } else {
        // q2 - q1 <= a2 - a1
        let k = a2 as int - a1 as int;
        assert(n2 == n1 + k * f) by (nonlinear_arith)
            requires
                n1 == a1 as int * f,
                n2 == a2 as int * f,
                k == a2 as int - a1 as int,
        ;
        assert(k * f <= k * 10000) by (nonlinear_arith)
            requires
                k >= 0,
                f < 10000,
        ;
    }
}

/// An estimate is no more than its input, and no less for a larger input.
pub proof fn lemma_estimate_monotonic(a1: u128, a2: u128, liquidity: u128, fee_bps: u16)
    requires
        a1 <= a2,
    ensures
        estimate_output(a1, liquidity, fee_bps) <= estimate_output(a2, liquidity, fee_bps),
        estimate_output(a1, liquidity, fee_bps) <= a1,
{
    lemma_after_fee_monotonic(a1, a2, fee_bps);
    lemma_after_fee_monotonic(a2, a2, fee_bps);
    lemma_after_fee_monotonic(0, a1, fee_bps);
    let r = (liquidity / 2) as int;
    let x1 = amount_after_fee(a1, fee_bps) as int;
    let x2 = amount_after_fee(a2, fee_bps) as int;
    lemma_share_bounds(r, x1);
    lemma_share_bounds(r, x2);
    if liquidity != 0 && a1 != 0 && r + x1 != 0 {
        assert((r * x1) * (r + x2) <= (r * x2) * (r + x1)) by (nonlinear_arith)
            requires
                r >= 0,
                0 <= x1 <= x2,
        ;
        assert(r * x1 >= 0 && r * x2 >= 0) by (nonlinear_arith)
            requires
                r >= 0,
                x1 >= 0,
                x2 >= 0,
        ;
        crate::math::lemma_fraction_order(r * x1, r + x1, r * x2, r + x2);
    }
}

/// `r * x / (r + x)` lies between zero and both `r` and `x`.
pub proof fn lemma_share_bounds(r: int, x: int)
    requires
        r >= 0,
        x >= 0,
    ensures
        r + x > 0 ==> 0 <= (r * x) / (r + x) <= x,
        r + x > 0 ==> (r * x) / (r + x) <= r,
{
    if r + x > 0 {
        let n = r * x;
        let d = r + x;
        let q = n / d;
        assert(n >= 0) by (nonlinear_arith)
            requires
                n == r * x,
                r >= 0,
                x >= 0,
        ;
        vstd::arithmetic::div_mod::lemma_fundamental_div_mod(n, d);
        vstd::arithmetic::div_mod::lemma_mod_bound(n, d);
        vstd::arithmetic::div_mod::lemma_div_pos_is_pos(n, d);
        assert(d * q <= n);
        if q > x {
            assert(d * q >= d * (x + 1)) by (nonlinear_arith)
                requires
                    q >= x + 1,
                    d > 0,
            ;
            assert(d * (x + 1) > r * x) by (nonlinear_arith)
                requires
                    d == r + x,
                    d > 0,
                    r >= 0,
                    x >= 0,
            ;
        }
        if q > r {
            assert(d * q >= d * (r + 1)) by (nonlinear_arith)
                requires
                    q >= r + 1,
                    d > 0,
            ;
            assert(d * (r + 1) > r * x) by (nonlinear_arith)
                requires
                    d == r + x,
                    d > 0,
                    r >= 0,
                    x >= 0,
            ;
        }
    }
}

/// The estimated output of a swap of `amount_in` through a pool of the given
/// liquidity and fee.
pub fn estimate_swap_output(amount_in: u128, liquidity: u128, fee_bps: u16) -> (out: u128)
    ensures
        out == estimate_output(amount_in, liquidity, fee_bps),
        out <= amount_in,
{
    proof {
        lemma_estimate_monotonic(amount_in, amount_in, liquidity, fee_bps);
    }
    if liquidity == 0 || amount_in == 0 {
        return 0;
    }
    let after: u128 = if fee_bps >= 10000 {
        proof {
            let n = amount_in as int * fee_bps as int;
            assert(n >= amount_in as int * 10000) by (nonlinear_arith)
                requires
                    n == amount_in as int * fee_bps as int,
                    fee_bps >= 10000,
            ;
            vstd::arithmetic::div_mod::lemma_fundamental_div_mod(n, 10000);
        }
        0
    } else {
        let (fee, _rest) = mul_div(
            amount_in,
            &Wide::from_u128(fee_bps as u128),
            &Wide::from_u128(10000),
        );
        amount_in - fee
    };
    let reserve: u128 = liquidity / 2;
    if reserve == 0 && after == 0 {
        return 0;
    }
    let total = Wide::from_u128(reserve).plus(&Wide::from_u128(after));
    let (out, _rest) = mul_div(reserve, &Wide::from_u128(after), &total);
    out
}

/// A pool as the search sees it: the numbers of its two tokens, and what the
/// estimate needs.
#[derive(Clone, Copy, Debug, PartialEq, Eq, Structural)]
pub struct Edge {
    pub x: usize,
    pub y: usize,
    pub liquidity: u128,
    pub fee_bps: u16,
}

/// Every edge joins two tokens below `n`.
pub open spec fn edges_ok(edges: Seq<Edge>, n: nat) -> bool {
    forall|j: int| 0 <= j < edges.len() ==> (#[trigger] edges[j]).x < n && edges[j].y < n
}

/// The edge has the token `u` at one of its ends.
pub open spec fn touches(e: Edge, u: usize) -> bool {
    u == e.x || u == e.y
}

/// The token at the other end of the edge, seen from `u`.
pub open spec fn far_end(e: Edge, u: usize) -> usize {
    if u == e.x {
        e.y
    } else {
        e.x
    }
}

/// The token that the path ends at.
pub open spec fn path_node(edges: Seq<Edge>, start: usize, hops: Seq<usize>) -> usize
    decreases hops.len(),
{
    if hops.len() == 0 {
        start
    } else {
        far_end(edges[hops.last() as int], path_node(edges, start, hops.drop_last()))
    }
}

/// Every hop is an edge of the graph that touches the token reached before it.
pub open spec fn path_ok(edges: Seq<Edge>, start: usize, hops: Seq<usize>) -> bool
    decreases hops.len(),
{
    if hops.len() == 0 {
        true
    } else {
        &&& path_ok(edges, start, hops.drop_last())
        &&& hops.last() < edges.len()
        &&& touches(edges[hops.last() as int], path_node(edges, start, hops.drop_last()))
    }
}

/// The amount that arrives at the end of the path.
pub open spec fn path_amount(edges: Seq<Edge>, amount_in: u128, hops: Seq<usize>) -> u128
    decreases hops.len(),
{
    if hops.len() == 0 {
        amount_in
    } else {
        let e = edges[hops.last() as int];
        estimate_output(path_amount(edges, amount_in, hops.drop_last()), e.liquidity, e.fee_bps)
    }
}

/// One entry of the frontier: a token, the amount that a path brings to it,
/// and that path.
struct Candidate {
    node: usize,
    amount: u128,
    hops: Vec<usize>,
}

/// The entry describes its own path, and `best` knows an amount at least as large.
spec fn candidate_sound(
    edges: Seq<Edge>,
    start: usize,
    amount_in: u128,
    best: Seq<Option<u128>>,
    c: Candidate,
) -> bool {
    &&& c.node < best.len()
    &&& path_ok(edges, start, c.hops@)
    &&& path_node(edges, start, c.hops@) == c.node
    &&& path_amount(edges, amount_in, c.hops@) == c.amount
    &&& best[c.node as int] is Some
    &&& c.amount <= best[c.node as int]->0
}

spec fn frontier_sound(
    edges: Seq<Edge>,
    start: usize,
    amount_in: u128,
    best: Seq<Option<u128>>,
    frontier: Seq<Candidate>,
) -> bool {
    forall|i: int|
        0 <= i < frontier.len() ==> candidate_sound(edges, start, amount_in, best, #[trigger] frontier[i])
}

/// No known amount is above the input, and the start token holds the input.
spec fn best_capped(best: Seq<Option<u128>>, start: usize, amount_in: u128) -> bool {
    &&& start < best.len()
    &&& best[start as int] == Some(amount_in)
    &&& forall|v: int|
        0 <= v < best.len() && (#[trigger] best[v]) is Some ==> best[v]->0 <= amount_in
}

/// Every token that is not settled and has a known amount has an entry with
/// that amount in the frontier.
spec fn covered(best: Seq<Option<u128>>, done: Set<usize>, frontier: Seq<Candidate>) -> bool {
    forall|v: usize|
        v < best.len() && !done.contains(v) && (#[trigger] best[v as int]) is Some ==> exists|i: int|
            0 <= i < frontier.len() && (#[trigger] frontier[i]).node == v && frontier[i].amount
                == best[v as int]->0
}

/// The first `upto` edges at `u` have been followed: the token at the far end
/// of each has a known amount no less than the estimate from `u`'s amount.
spec fn closed_upto(edges: Seq<Edge>, best: Seq<Option<u128>>, u: usize, upto: int) -> bool {
    &&& u < best.len()
    &&& best[u as int] is Some
    &&& forall|j: int|
        0 <= j < upto && j < edges.len() && touches(#[trigger] edges[j], u) ==> {
            let w = far_end(edges[j], u);
            &&& w < best.len()
            &&& best[w as int] is Some
            &&& best[w as int]->0 >= estimate_output(
                best[u as int]->0,
                edges[j].liquidity,
                edges[j].fee_bps,
            )
        }
}

/// Every edge at every settled token has been followed.
spec fn closed(edges: Seq<Edge>, best: Seq<Option<u128>>, done: Set<usize>) -> bool {
    forall|u: usize| #[trigger] done.contains(u) ==> closed_upto(edges, best, u, edges.len() as int)
}

/// No entry of the frontier holds more than a settled token does.
spec fn ahead(best: Seq<Option<u128>>, done: Set<usize>, frontier: Seq<Candidate>) -> bool {
    forall|u: usize, i: int|
        #[trigger] done.contains(u) && 0 <= i < frontier.len() ==> u < best.len() && best[u as int] is Some
            && (#[trigger] frontier[i]).amount <= best[u as int]->0
}

/// No token outside `done` has a known amount above `top`.
spec fn open_below(best: Seq<Option<u128>>, done: Set<usize>, top: int) -> bool {
    forall|v: usize|
        v < best.len() && !done.contains(v) && (#[trigger] best[v as int]) is Some ==> best[v as int]->0
            <= top
}

/// How far the known amounts are from their ceiling: for each token the
/// distance of its amount from the input, and one more where none is known.
spec fn slack(best: Seq<Option<u128>>, amount_in: u128) -> nat
    decreases best.len(),
{
    if best.len() == 0 {
        0
    } else {
        slack(best.drop_last(), amount_in) + slack_at(best.last(), amount_in)
    }
}

spec fn slack_at(b: Option<u128>, amount_in: u128) -> nat {
    match b {
        None => amount_in as nat + 1,
        Some(v) => if v <= amount_in {
            (amount_in - v) as nat
        } else {
            0
        },
    }
}

/// Raising one amount lowers the slack by as much.
proof fn lemma_slack_update(best: Seq<Option<u128>>, amount_in: u128, v: int, value: Option<u128>)
    requires
        0 <= v < best.len(),
    ensures
        slack(best.update(v, value), amount_in) + slack_at(best[v], amount_in) == slack(
            best,
            amount_in,
        ) + slack_at(value, amount_in),
    decreases best.len(),
{
    let next = best.update(v, value);
    if v == best.len() - 1 {
        assert(next.drop_last() =~= best.drop_last());
    } else {
        lemma_slack_update(best.drop_last(), amount_in, v, value);
        assert(next.drop_last() =~= best.drop_last().update(v, value));
    }
}

/// A path that is walked one hop further.
proof fn lemma_path_push(edges: Seq<Edge>, start: usize, amount_in: u128, hops: Seq<usize>, j: usize)
    requires
        path_ok(edges, start, hops),
        j < edges.len(),
        touches(edges[j as int], path_node(edges, start, hops)),
    ensures
        path_ok(edges, start, hops.push(j)),
        path_node(edges, start, hops.push(j)) == far_end(
            edges[j as int],
            path_node(edges, start, hops),
        ),
        path_amount(edges, amount_in, hops.push(j)) == estimate_output(
            path_amount(edges, amount_in, hops),
            edges[j as int].liquidity,
            edges[j as int].fee_bps,
        ),
{
    assert(hops.push(j).drop_last() =~= hops);
    assert(hops.push(j).last() == j);
}

/// Every path ends at a token below `n`, with no more than the input.
proof fn lemma_path_in_range(edges: Seq<Edge>, n: nat, start: usize, amount_in: u128, hops: Seq<usize>)
    requires
        edges_ok(edges, n),
        start < n,
        path_ok(edges, start, hops),
    ensures
        path_node(edges, start, hops) < n,
        path_amount(edges, amount_in, hops) <= amount_in,
    decreases hops.len(),
{
    if hops.len() > 0 {
        lemma_path_in_range(edges, n, start, amount_in, hops.drop_last());
        let e = edges[hops.last() as int];
        lemma_estimate_monotonic(
            path_amount(edges, amount_in, hops.drop_last()),
            path_amount(edges, amount_in, hops.drop_last()),
            e.liquidity,
            e.fee_bps,
        );
    }
}

/// The bound that the search rests on. Where every edge at a settled token has
/// been followed and no open token holds more than `top`, a path either ends
/// at a settled token with no more than that token holds, or brings no more
/// than `top`.
proof fn lemma_path_bound(
    edges: Seq<Edge>,
    start: usize,
    amount_in: u128,
    best: Seq<Option<u128>>,
    done: Set<usize>,
    top: int,
    hops: Seq<usize>,
)
    requires
        edges_ok(edges, best.len()),
        best_capped(best, start, amount_in),
        closed(edges, best, done),
        open_below(best, done, top),
        path_ok(edges, start, hops),
    ensures
        ({
            let w = path_node(edges, start, hops);
            let a = path_amount(edges, amount_in, hops);
            &&& w < best.len()
            &&& (done.contains(w) && best[w as int] is Some && a <= best[w as int]->0) || a <= top
        }),
    decreases hops.len(),
{
    lemma_path_in_range(edges, best.len(), start, amount_in, hops);
    if hops.len() == 0 {
        assert(best[start as int] is Some);
    } else {
        let before = hops.drop_last();
        lemma_path_bound(edges, start, amount_in, best, done, top, before);
        let u = path_node(edges, start, before);
        let a0 = path_amount(edges, amount_in, before);
        let j = hops.last() as int;
        let e = edges[j];
        let w = far_end(e, u);
        let a = estimate_output(a0, e.liquidity, e.fee_bps);
        lemma_estimate_monotonic(a0, a0, e.liquidity, e.fee_bps);
        if done.contains(u) && best[u as int] is Some && a0 <= best[u as int]->0 {
            assert(closed_upto(edges, best, u, edges.len() as int));
            assert(touches(edges[j], u));
            lemma_estimate_monotonic(a0, best[u as int]->0, e.liquidity, e.fee_bps);
            assert(best[w as int] is Some);
            assert(best[w as int]->0 >= a);
        }
    }
}

/// A copy of a path.
fn copy_hops(hops: &Vec<usize>) -> (r: Vec<usize>)
    ensures
        r@ == hops@,
{
    let mut r: Vec<usize> = Vec::new();
    let mut i: usize = 0;
    while i < hops.len()
        invariant
            i <= hops.len(),
            r@ == hops@.take(i as int),
        decreases hops.len() - i,
    {
        r.push(hops[i]);
        proof {
            assert(hops@.take(i as int + 1) =~= hops@.take(i as int).push(hops@[i as int]));
        }
        i = i + 1;
    }
    proof {
        assert(hops@.take(hops.len() as int) =~= hops@);
    }
    r
}

/// The place of the first entry with the largest amount.
fn largest(frontier: &Vec<Candidate>) -> (k: usize)
    requires
        frontier.len() > 0,
    ensures
        k < frontier.len(),
        forall|i: int| 0 <= i < frontier.len() ==> (#[trigger] frontier[i]).amount <= frontier[k as int].amount,
{
    let mut k: usize = 0;
    let mut i: usize = 1;
    while i < frontier.len()
        invariant
            k < i <= frontier.len(),
            forall|p: int| 0 <= p < i ==> (#[trigger] frontier[p]).amount <= frontier[k as int].amount,
        decreases frontier.len() - i,
    {
        if frontier[i].amount > frontier[k].amount {
            k = i;
        }
        i = i + 1;
    }
    k
}

/// Taking an entry out of the frontier keeps what is known of the rest,
/// as long as the entry is not the one that stands for an open token.
proof fn lemma_remove_keeps(
    edges: Seq<Edge>,
    start: usize,
    amount_in: u128,
    best: Seq<Option<u128>>,
    done: Set<usize>,
    after: Set<usize>,
    frontier: Seq<Candidate>,
    k: int,
)
    requires
        0 <= k < frontier.len(),
        frontier_sound(edges, start, amount_in, best, frontier),
        covered(best, done, frontier),
        ahead(best, done, frontier),
        forall|i: int| 0 <= i < frontier.len() ==> (#[trigger] frontier[i]).amount <= frontier[k].amount,
        // the token of the entry is settled afterwards, or the entry is stale
        after == done || after == done.insert(frontier[k].node),
        !after.contains(frontier[k].node) ==> frontier[k].amount < best[frontier[k].node as int]->0,
        after.contains(frontier[k].node) && !done.contains(frontier[k].node) ==> frontier[k].amount
            == best[frontier[k].node as int]->0,
    ensures
        frontier_sound(edges, start, amount_in, best, frontier.remove(k)),
        covered(best, after, frontier.remove(k)),
        ahead(best, after, frontier.remove(k)),
{
    let rest = frontier.remove(k);
    assert forall|i: int| 0 <= i < rest.len() implies candidate_sound(
        edges,
        start,
        amount_in,
        best,
        #[trigger] rest[i],
    ) by {
        if i < k {
            assert(rest[i] == frontier[i]);
        } else {
            assert(rest[i] == frontier[i + 1]);
        }
    }
    assert forall|v: usize|
        v < best.len() && !after.contains(v) && (#[trigger] best[v as int]) is Some implies exists|
        i: int,
    |
        0 <= i < rest.len() && (#[trigger] rest[i]).node == v && rest[i].amount == best[v as int]->0 by {
        assert(!done.contains(v));
        let i0 = choose|i: int|
            0 <= i < frontier.len() && (#[trigger] frontier[i]).node == v && frontier[i].amount
                == best[v as int]->0;
        assert(i0 != k);
        if i0 < k {
            assert(rest[i0] == frontier[i0]);
        } else {
            assert(rest[i0 - 1] == frontier[i0]);
        }
    }
    assert forall|u: usize, i: int| #[trigger]
        after.contains(u) && 0 <= i < rest.len() implies u < best.len() && best[u as int] is Some && (
    #[trigger] rest[i]).amount <= best[u as int]->0 by {
        let i1 = if i < k {
            i
        } else {
            i + 1
        };
        assert(rest[i] == frontier[i1]);
        assert(candidate_sound(edges, start, amount_in, best, frontier[k]));
        if !done.contains(u) {
            assert(u == frontier[k].node);
            assert(frontier[i1].amount <= frontier[k].amount);
        } else {
            assert(frontier[i1].amount <= best[u as int]->0);
        }
    }
}

/// Following one more edge from the token `t` that is being settled, with a
/// better amount found for the token `w` at its far end.
proof fn lemma_push_keeps(
    edges: Seq<Edge>,
    start: usize,
    amount_in: u128,
    best: Seq<Option<u128>>,
    done: Set<usize>,
    frontier: Seq<Candidate>,
    t: usize,
    j: int,
    c: Candidate,
)
    requires
        edges_ok(edges, best.len()),
        best_capped(best, start, amount_in),
        frontier_sound(edges, start, amount_in, best, frontier),
        covered(best, done, frontier),
        ahead(best, done, frontier),
        done.contains(t),
        forall|u: usize| #[trigger] done.contains(u) && u != t ==> closed_upto(edges, best, u, edges.len() as int),
        closed_upto(edges, best, t, j),
        0 <= j < edges.len(),
        touches(edges[j], t),
        c.node == far_end(edges[j], t),
        c.amount == estimate_output(best[t as int]->0, edges[j].liquidity, edges[j].fee_bps),
        path_ok(edges, start, c.hops@),
        path_node(edges, start, c.hops@) == c.node,
        path_amount(edges, amount_in, c.hops@) == c.amount,
        forall|u: usize| #[trigger] done.contains(u) ==> u < best.len() && best[u as int] is Some && best[t as int]->0 <= best[u as int]->0,
        best[c.node as int] is Some ==> c.amount > best[c.node as int]->0,
    ensures
        ({
            let next = best.update(c.node as int, Some(c.amount));
            let grown = frontier.push(c);
            &&& !done.contains(c.node)
            &&& best_capped(next, start, amount_in)
            &&& frontier_sound(edges, start, amount_in, next, grown)
            &&& covered(next, done, grown)
            &&& ahead(next, done, grown)
            &&& forall|u: usize| #[trigger] done.contains(u) && u != t ==> closed_upto(edges, next, u, edges.len() as int)
            &&& closed_upto(edges, next, t, j + 1)
            &&& forall|u: usize| #[trigger] done.contains(u) ==> u < next.len() && next[u as int] is Some && next[t as int]->0 <= next[u as int]->0
            &&& slack(next, amount_in) < slack(best, amount_in)
        }),
{
    let w = c.node;
    let next = best.update(w as int, Some(c.amount));
    let grown = frontier.push(c);
    let at = best[t as int]->0;
    lemma_estimate_monotonic(at, at, edges[j].liquidity, edges[j].fee_bps);
    assert(at <= amount_in);
    assert(c.amount <= at);
    // a settled token never gets a better amount
    if done.contains(w) {
        assert(at <= best[w as int]->0);
        assert(false);
    }
    assert(w != t);
    assert(w != start) by {
        if w == start {
            assert(best[start as int] == Some(amount_in));
        }
    }
    assert forall|i: int| 0 <= i < grown.len() implies candidate_sound(
        edges,
        start,
        amount_in,
        next,
        #[trigger] grown[i],
    ) by {
        if i < frontier.len() {
            assert(grown[i] == frontier[i]);
            assert(candidate_sound(edges, start, amount_in, best, frontier[i]));
        }
    }
    assert forall|v: usize|
        v < next.len() && !done.contains(v) && (#[trigger] next[v as int]) is Some implies exists|
        i: int,
    |
        0 <= i < grown.len() && (#[trigger] grown[i]).node == v && grown[i].amount == next[v as int]->0 by {
        if v == w {
            assert(grown[frontier.len() as int] == c);
        } else {
            assert(best[v as int] is Some);
            let i0 = choose|i: int|
                0 <= i < frontier.len() && (#[trigger] frontier[i]).node == v && frontier[i].amount
                    == best[v as int]->0;
            assert(grown[i0] == frontier[i0]);
        }
    }
    assert forall|u: usize, i: int| #[trigger]
        done.contains(u) && 0 <= i < grown.len() implies u < next.len() && next[u as int] is Some && (
    #[trigger] grown[i]).amount <= next[u as int]->0 by {
        assert(u != w);
        if i < frontier.len() {
            assert(grown[i] == frontier[i]);
        } else {
            assert(grown[i] == c);
        }
    }
    assert forall|u: usize| #[trigger] done.contains(u) && u != t implies closed_upto(
        edges,
        next,
        u,
        edges.len() as int,
    ) by {
        assert(closed_upto(edges, best, u, edges.len() as int));
        assert(u != w);
        assert forall|q: int|
            0 <= q < edges.len() && touches(#[trigger] edges[q], u) implies {
            let z = far_end(edges[q], u);
            &&& z < next.len()
            &&& next[z as int] is Some
            &&& next[z as int]->0 >= estimate_output(
                next[u as int]->0,
                edges[q].liquidity,
                edges[q].fee_bps,
            )
        } by {
            let z = far_end(edges[q], u);
            assert(best[z as int] is Some);
        }
    }
    assert(closed_upto(edges, next, t, j + 1)) by {
        assert forall|q: int|
            0 <= q < j + 1 && q < edges.len() && touches(#[trigger] edges[q], t) implies {
            let z = far_end(edges[q], t);
            &&& z < next.len()
            &&& next[z as int] is Some
            &&& next[z as int]->0 >= estimate_output(
                next[t as int]->0,
                edges[q].liquidity,
                edges[q].fee_bps,
            )
        } by {
            let z = far_end(edges[q], t);
            if q < j {
                assert(best[z as int] is Some);
            }
        }
    }
    lemma_slack_update(best, amount_in, w as int, Some(c.amount));
}

/// An edge from the token `t` that brings nothing better to its far end.
proof fn lemma_skip_keeps(edges: Seq<Edge>, best: Seq<Option<u128>>, t: usize, j: int)
    requires
        closed_upto(edges, best, t, j),
        0 <= j < edges.len(),
        touches(edges[j], t) ==> {
            let w = far_end(edges[j], t);
            &&& w < best.len()
            &&& best[w as int] is Some
            &&& best[w as int]->0 >= estimate_output(
                best[t as int]->0,
                edges[j].liquidity,
                edges[j].fee_bps,
            )
        },
    ensures
        closed_upto(edges, best, t, j + 1),
{
}

/// Whether the graph is one that `best_path` searches: every edge joins two
/// tokens below `n`, and so are the two ends of the search.
pub fn graph_is_sound(edges: &Vec<Edge>, n: usize, start: usize, end: usize) -> (r: bool)
    ensures
        r == (edges_ok(edges@, n as nat) && start < n && end < n),
{
    if start >= n || end >= n {
        return false;
    }
    let mut j: usize = 0;
    while j < edges.len()
        invariant
            j <= edges.len(),
            forall|i: int| 0 <= i < j ==> (#[trigger] edges@[i]).x < n && edges@[i].y < n,
        decreases edges.len() - j,
    {
        if edges[j].x >= n || edges[j].y >= n {
            return false;
        }
        j = j + 1;
    }
    true
}

/// A path from `start` to `end` whose output no other such path exceeds, with
/// that output; `None` where no path leads from `start` to `end`.
pub fn best_path(edges: &Vec<Edge>, n: usize, start: usize, end: usize, amount_in: u128) -> (r:
    Option<(Vec<usize>, u128)>)
    requires
        edges_ok(edges@, n as nat),
        start < n,
        end < n,
    ensures
        match r {
            Some((hops, amount)) => {
                &&& path_ok(edges@, start, hops@)
                &&& path_node(edges@, start, hops@) == end
                &&& path_amount(edges@, amount_in, hops@) == amount
                &&& forall|other: Seq<usize>|
                    #[trigger] path_ok(edges@, start, other) && path_node(edges@, start, other) == end
                        ==> path_amount(edges@, amount_in, other) <= amount
            },
            None => forall|other: Seq<usize>|
                #[trigger] path_ok(edges@, start, other) ==> path_node(edges@, start, other) != end,
        },
{
    let mut best: Vec<Option<u128>> = Vec::new();
    let mut v: usize = 0;
    while v < n
        invariant
            v <= n,
            best.len() == v,
            forall|i: int| 0 <= i < v ==> (#[trigger] best@[i]) is None,
            slack(best@, amount_in) == v * (amount_in as nat + 1),
        decreases n - v,
    {
        proof {
            assert(best@.push(None).drop_last() =~= best@);
            assert((v + 1) * (amount_in as nat + 1) == v * (amount_in as nat + 1) + (amount_in as nat
                + 1)) by (nonlinear_arith);
        }
        best.push(None);
        v = v + 1;
    }
    proof {
        lemma_slack_update(best@, amount_in, start as int, Some(amount_in));
    }
    best.set(start, Some(amount_in));
    let mut frontier: Vec<Candidate> = Vec::new();
    frontier.push(Candidate { node: start, amount: amount_in, hops: Vec::new() });
    let ghost mut done: Set<usize> = Set::empty();
    proof {
        assert(frontier@[0].node == start);
    }
    while frontier.len() > 0
        invariant
            edges_ok(edges@, n as nat),
            start < n,
            end < n,
            best.len() == n,
            best_capped(best@, start, amount_in),
            frontier_sound(edges@, start, amount_in, best@, frontier@),
            covered(best@, done, frontier@),
            closed(edges@, best@, done),
            ahead(best@, done, frontier@),
            !done.contains(end),
        decreases 2 * slack(best@, amount_in) + frontier.len(),
    {
        let k: usize = largest(&frontier);
        let ghost before = frontier@;
        let ghost top = frontier@[k as int].amount as int;
        proof {
            // no open token holds more than the largest entry
            assert forall|v: usize|
                v < best@.len() && !done.contains(v) && (#[trigger] best@[v as int]) is Some implies best@[v as int]->0
                <= top by {
                let i0 = choose|i: int|
                    0 <= i < before.len() && (#[trigger] before[i]).node == v && before[i].amount
                        == best@[v as int]->0;
                assert(before[i0].amount <= before[k as int].amount);
            }
            assert(candidate_sound(edges@, start, amount_in, best@, before[k as int]));
        }
        let current: Candidate = frontier.remove(k);
        if current.node == end {
            proof {
                assert forall|other: Seq<usize>|
                    #[trigger] path_ok(edges@, start, other) && path_node(edges@, start, other)
                        == end implies path_amount(edges@, amount_in, other) <= current.amount by {
                    lemma_path_bound(edges@, start, amount_in, best@, done, top, other);
                }
            }
            return Some((current.hops, current.amount));
        }
        let known: u128 = match best[current.node] {
            Some(b) => b,
            None => current.amount,
        };
        if current.amount < known {
            proof {
                lemma_remove_keeps(edges@, start, amount_in, best@, done, done, before, k as int);
            }
            continue ;
        }
        let ghost settled = done.insert(current.node);
        let t: usize = current.node;
        proof {
            lemma_remove_keeps(edges@, start, amount_in, best@, done, settled, before, k as int);
            assert forall|u: usize| #[trigger] settled.contains(u) implies u < best@.len() && best@[u as int] is Some
                && best@[t as int]->0 <= best@[u as int]->0 by {
                if u != t {
                    assert(done.contains(u));
                    assert(before[k as int].amount <= best@[u as int]->0);
                }
            }
            assert forall|u: usize| #[trigger] settled.contains(u) && u != t implies closed_upto(
                edges@,
                best@,
                u,
                edges@.len() as int,
            ) by {
                assert(done.contains(u));
            }
            if done.contains(t) {
                assert(closed_upto(edges@, best@, t, edges@.len() as int));
            }
        }
        let ghost budget = 2 * slack(best@, amount_in) + frontier.len();
        let mut j: usize = 0;
        while j < edges.len()
            invariant
                j <= edges.len(),
                edges_ok(edges@, n as nat),
                start < n,
                end < n,
                t < n,
                t != end,
                t == current.node,
                best.len() == n,
                settled == done.insert(t),
                best@[t as int] == Some(current.amount),
                candidate_sound(edges@, start, amount_in, best@, current),
                best_capped(best@, start, amount_in),
                frontier_sound(edges@, start, amount_in, best@, frontier@),
                covered(best@, settled, frontier@),
                ahead(best@, settled, frontier@),
                forall|u: usize| #[trigger] settled.contains(u) && u != t ==> closed_upto(edges@, best@, u, edges@.len() as int),
                closed_upto(edges@, best@, t, j as int),
                forall|u: usize| #[trigger] settled.contains(u) ==> u < best@.len() && best@[u as int] is Some && best@[t as int]->0 <= best@[u as int]->0,
                2 * slack(best@, amount_in) + frontier.len() <= budget,
            decreases edges.len() - j,
        {
            let e: Edge = edges[j];
            if t == e.x || t == e.y {
                let next: usize = if t == e.x {
                    e.y
                } else {
                    e.x
                };
                let amount: u128 = estimate_swap_output(current.amount, e.liquidity, e.fee_bps);
                let better: bool = match best[next] {
                    Some(b) => amount > b,
                    None => true,
                };
                if better {
                    let mut hops: Vec<usize> = copy_hops(&current.hops);
                    hops.push(j);
                    let entry = Candidate { node: next, amount, hops };
                    proof {
                        lemma_path_push(edges@, start, amount_in, current.hops@, j);
                        lemma_push_keeps(
                            edges@,
                            start,
                            amount_in,
                            best@,
                            settled,
                            frontier@,
                            t,
                            j as int,
                            entry,
                        );
                    }
                    best.set(next, Some(amount));
                    frontier.push(entry);
                } else {
                    proof {
                        lemma_skip_keeps(edges@, best@, t, j as int);
                    }
                }
            } else {
                proof {
                    lemma_skip_keeps(edges@, best@, t, j as int);
                }
            }
            j = j + 1;
        }
        proof {
            done = settled;
            assert forall|u: usize| #[trigger] done.contains(u) implies closed_upto(
                edges@,
                best@,
                u,
                edges@.len() as int,
            ) by {
                if u != t {
                    assert(settled.contains(u) && u != t);
                }
            }
        }
    }
    proof {
        assert forall|other: Seq<usize>| #[trigger] path_ok(edges@, start, other) implies path_node(
            edges@,
            start,
            other,
        ) != end by {
            assert forall|v: usize|
                v < best@.len() && !done.contains(v) && (#[trigger] best@[v as int]) is Some implies best@[v as int]->0
                <= -1 by {
                let i0 = choose|i: int|
                    0 <= i < frontier@.len() && (#[trigger] frontier@[i]).node == v && frontier@[i].amount
                        == best@[v as int]->0;
            }
            lemma_path_bound(edges@, start, amount_in, best@, done, -1, other);
        }
    }
    None
}

} // verus!
