use vstd::prelude::*;
use crate::graph::GraphView;
use crate::search::{
    bit_of, covered, edge_move, has_bit, history, in_range, initial, is_step, key_flow, lemma_seq_max,
    lemma_sets_pos, n_bits, n_keys, n_sets, seq_max, with_bit, yields,
};

verus! {

/// The larger of two optional values, where a missing value loses.
pub open spec fn max_opt(a: Option<int>, b: Option<int>) -> Option<int> {
    match (a, b) {
        (None, _) => b,
        (_, None) => a,
        (Some(x), Some(y)) => Some(if x >= y { x } else { y }),
    }
}

/// `a` with `d` added, if present.
pub open spec fn plus(a: Option<int>, d: int) -> Option<int> {
    match a {
        Some(x) => Some(x + d),
        None => None,
    }
}

/// The most pressure still to be released from the state of key `k` with `r`
/// minutes left, trying every sequence of moves, or `None` when every
/// sequence runs into a dead end before time is up.
pub open spec fn best_from(g: GraphView, k: int, r: int) -> Option<int>
    decreases r, 1int, 0int,
{
    let s = n_sets(g);
    let v = k / s;
    let m = k % s;
    let fl = key_flow(g, k) as int;
    if r <= 0 {
        Some(0)
    } else if m == s - 1 {
        plus(best_from(g, k, r - 1), fl)
    } else {
        let opened = if g.valves[v].flow_rate > 0 && !has_bit(m, bit_of(g, v)) {
            plus(best_from(g, v * s + with_bit(m, bit_of(g, v)), r - 1), fl)
        } else {
            None
        };
        max_opt(opened, best_walk(g, k, r, g.valves[v].adj.len() as int))
    }
}

/// The best over walking one of the first `n` tunnels out of the valve of key
/// `k`, with `r` minutes left.
pub open spec fn best_walk(g: GraphView, k: int, r: int, n: int) -> Option<int>
    decreases r, 0int, n,
{
    let s = n_sets(g);
    if n <= 0 || r <= 0 {
        None
    } else {
        let e = g.valves[k / s].adj[n - 1];
        let t = if e.time as int <= r { e.time as int } else { r };
        let here = if t >= 1 {
            plus(best_from(g, e.next * s + k % s, r - t), key_flow(g, k) * t)
        } else {
            None
        };
        max_opt(best_walk(g, k, r, n - 1), here)
    }
}

} // verus!

verus! {

/// The key reached by a move lies in the table.
proof fn lemma_key_bounds(g: GraphView, k: int)
    requires
        g.wf(),
        n_bits(g) < 63,
        0 <= k < n_keys(g),
    ensures
        0 <= k / n_sets(g) < g.len(),
        0 <= k % n_sets(g) < n_sets(g),
        forall|j: int|
            0 <= j < g.valves[k / n_sets(g)].adj.len() ==> 0 <= #[trigger] g.valves[k / n_sets(
                g,
            )].adj[j].next * n_sets(g) + k % n_sets(g) < n_keys(g),
        g.valves[k / n_sets(g)].flow_rate > 0 ==> 0 <= (k / n_sets(g)) * n_sets(g) + with_bit(
            k % n_sets(g),
            bit_of(g, k / n_sets(g)),
        ) < n_keys(g),
{
    let s = n_sets(g);
    lemma_sets_pos(g);
    let v = k / s;
    let m = k % s;
    assert(0 <= v < g.len() && 0 <= m < s) by (nonlinear_arith)
        requires
            0 <= k < g.len() * s,
            s >= 1,
            v == k / s,
            m == k % s,
    ;
    assert forall|j: int| 0 <= j < g.valves[v].adj.len() implies 0 <= #[trigger] g.valves[v].adj[j].next * s + m
        < n_keys(g) by {
        let next = g.valves[v].adj[j].next;
        assert(next < g.len());
        assert(0 <= next * s + m < g.len() * s) by (nonlinear_arith)
            requires
                0 <= next < g.len(),
                0 <= m < s,
        ;
    }
    if g.valves[v].flow_rate > 0 {
        crate::search::lemma_count_flow_mono(g.valves, v, v + 1);
        crate::search::lemma_count_flow_mono(g.valves, v + 1, g.len());
        crate::search::lemma_bit_set_bound(m as u64, bit_of(g, v) as u64, n_bits(g) as u64);
        let m2 = with_bit(m, bit_of(g, v));
        assert(0 <= v * s + m2 < g.len() * s) by (nonlinear_arith)
            requires
                0 <= v < g.len(),
                0 <= m2 < s,
        ;
    }
}

/// A walk through tunnel `j` bounds the best walk over the first `n`
/// tunnels from below.
proof fn lemma_walk_bound(g: GraphView, k: int, r: int, n: int, j: int, k2: int, r2: int)
    requires
        g.wf(),
        0 <= k < n_keys(g),
        n_bits(g) < 63,
        0 <= j < n <= g.valves[k / n_sets(g)].adj.len(),
        r >= 1,
        edge_move(g, k, r, j, k2, r2),
        best_from(g, k2, r2) is Some,
    ensures
        best_walk(g, k, r, n) is Some,
        best_walk(g, k, r, n)->0 >= best_from(g, k2, r2)->0 + key_flow(g, k) * (r - r2),
    decreases n,
{
    lemma_key_bounds(g, k);
    let s = n_sets(g);
    let e = g.valves[k / s].adj[n - 1];
    assert(e.time >= 1);
    if j < n - 1 {
        lemma_walk_bound(g, k, r, n - 1, j, k2, r2);
    }
}

/// The best from a state is at least what any single move leads to.
proof fn lemma_step_bound(g: GraphView, k: int, r: int, k2: int, r2: int)
    requires
        g.wf(),
        n_bits(g) < 63,
        0 <= k < n_keys(g),
        is_step(g, k, r, k2, r2),
        best_from(g, k2, r2) is Some,
    ensures
        best_from(g, k, r) is Some,
        best_from(g, k, r)->0 >= best_from(g, k2, r2)->0 + key_flow(g, k) * (r - r2),
{
    lemma_key_bounds(g, k);
    let s = n_sets(g);
    let v = k / s;
    let m = k % s;
    let fl = key_flow(g, k) as int;
    if m == s - 1 {
        assert(fl * (r - r2) == fl) by (nonlinear_arith)
            requires
                r - r2 == 1,
        ;
    } else {
        if exists|j: int| 0 <= j < g.valves[v].adj.len() && #[trigger] edge_move(g, k, r, j, k2, r2) {
            let j = choose|j: int| 0 <= j < g.valves[v].adj.len() && #[trigger] edge_move(g, k, r, j, k2, r2);
            lemma_walk_bound(g, k, r, g.valves[v].adj.len() as int, j, k2, r2);
        } else {
            assert(fl * (r - r2) == fl) by (nonlinear_arith)
                requires
                    r - r2 == 1,
            ;
        }
    }
}

/// The best walk over the first `n` tunnels is reached through one of them.
proof fn lemma_walk_witness(g: GraphView, k: int, r: int, n: int) -> (w: (int, int))
    requires
        g.wf(),
        n_bits(g) < 63,
        0 <= k < n_keys(g),
        0 <= n <= g.valves[k / n_sets(g)].adj.len(),
        best_walk(g, k, r, n) is Some,
    ensures
        0 <= w.0 < n_keys(g),
        0 <= w.1 < r,
        exists|j: int| 0 <= j < n && #[trigger] edge_move(g, k, r, j, w.0, w.1),
        best_from(g, w.0, w.1) is Some,
        best_walk(g, k, r, n)->0 == best_from(g, w.0, w.1)->0 + key_flow(g, k) * (r - w.1),
    decreases n,
{
    lemma_key_bounds(g, k);
    let s = n_sets(g);
    let m = k % s;
    let e = g.valves[k / s].adj[n - 1];
    let t = if e.time as int <= r { e.time as int } else { r };
    let k2 = e.next * s + m;
    let here = if t >= 1 {
        plus(best_from(g, k2, r - t), key_flow(g, k) * t)
    } else {
        None
    };
    let rest = best_walk(g, k, r, n - 1);
    if here is Some && (rest is None || here->0 >= rest->0) {
        assert(edge_move(g, k, r, n - 1, k2, r - t));
        (k2, r - t)
    } else {
        let w = lemma_walk_witness(g, k, r, n - 1);
        let j = choose|j: int| 0 <= j < n - 1 && #[trigger] edge_move(g, k, r, j, w.0, w.1);
        assert(edge_move(g, k, r, j, w.0, w.1));
        w
    }
}

/// The best from a state with time left is reached through one move.
proof fn lemma_step_witness(g: GraphView, k: int, r: int) -> (w: (int, int))
    requires
        g.wf(),
        n_bits(g) < 63,
        0 <= k < n_keys(g),
        r >= 1,
        best_from(g, k, r) is Some,
    ensures
        0 <= w.0 < n_keys(g),
        0 <= w.1 < r,
        is_step(g, k, r, w.0, w.1),
        best_from(g, w.0, w.1) is Some,
        best_from(g, k, r)->0 == best_from(g, w.0, w.1)->0 + key_flow(g, k) * (r - w.1),
{
    lemma_key_bounds(g, k);
    let s = n_sets(g);
    let v = k / s;
    let m = k % s;
    let fl = key_flow(g, k) as int;
    assert(fl * (r - (r - 1)) == fl) by (nonlinear_arith);
    if m == s - 1 {
        (k, r - 1)
    } else {
        let k2 = v * s + with_bit(m, bit_of(g, v));
        let opens = g.valves[v].flow_rate > 0 && !has_bit(m, bit_of(g, v));
        let opened = if opens { plus(best_from(g, k2, r - 1), fl) } else { None };
        let walk = best_walk(g, k, r, g.valves[v].adj.len() as int);
        if opened is Some && (walk is None || opened->0 >= walk->0) {
            (k2, r - 1)
        } else {
            let w = lemma_walk_witness(g, k, r, g.valves[v].adj.len() as int);
            w
        }
    }
}

/// Whatever the search holds for a state, with what is best from there,
/// stays within the best from the start.
proof fn lemma_search_below(g: GraphView, b: int, t: Seq<Seq<Option<u64>>>, r: int)
    requires
        g.wf(),
        n_bits(g) < 63,
        history(g, b, t),
        0 <= r <= b,
    ensures
        forall|k: int|
            0 <= k < n_keys(g) && #[trigger] t[r][k] is Some && best_from(g, k, r) is Some ==> best_from(
                g,
                g.start * n_sets(g),
                b,
            ) is Some && t[r][k]->0 + best_from(g, k, r)->0 <= best_from(g, g.start * n_sets(g), b)->0,
    decreases b - r,
{
    if r == b {
        assert(t[b] == initial(g));
    } else {
        assert forall|k: int|
            0 <= k < n_keys(g) && #[trigger] t[r][k] is Some && best_from(g, k, r) is Some implies best_from(
                g,
                g.start * n_sets(g),
                b,
            ) is Some && t[r][k]->0 + best_from(g, k, r)->0 <= best_from(g, g.start * n_sets(g), b)->0 by {
            assert(covered(g, t, b, r, r, 0));
            let p = t[r][k]->0 as int;
            let (r1, k1) = choose|r1: int, k1: int| in_range(g, b, r, 0, r1, k1) && #[trigger] yields(g, t[r1], k1, r1, k, r, p);
            lemma_step_bound(g, k1, r1, k, r);
            lemma_search_below(g, b, t, r1);
            assert(t[r1][k1] is Some);
        }
    }
}

/// From every state the search holds, the best from there is reached by a
/// state of the last layer.
proof fn lemma_search_reaches(g: GraphView, b: int, t: Seq<Seq<Option<u64>>>, r: int, k: int) -> (k0: int)
    requires
        g.wf(),
        n_bits(g) < 63,
        history(g, b, t),
        0 <= r <= b,
        0 <= k < n_keys(g),
        t[r][k] is Some,
        best_from(g, k, r) is Some,
    ensures
        0 <= k0 < n_keys(g),
        t[0][k0] is Some,
        t[0][k0]->0 >= t[r][k]->0 + best_from(g, k, r)->0,
    decreases r,
{
    if r == 0 {
        k
    } else {
        let (k2, r2) = lemma_step_witness(g, k, r);
        assert(covered(g, t, b, r2, r2, 0));
        assert(in_range(g, b, r2, 0, r, k));
        assert(yields(g, t[r], k, r, k2, r2, t[r][k]->0 + key_flow(g, k) * (r - r2)));
        lemma_search_reaches(g, b, t, r2, k2)
    }
}

/// The merged search loses nothing: the best pressure it ends with is the
/// best over every sequence of moves from the start, and it ends with
/// nothing exactly when every sequence runs into a dead end.
pub proof fn lemma_search_exhaustive(g: GraphView, b: int, t: Seq<Seq<Option<u64>>>)
    requires
        g.wf(),
        n_bits(g) < 63,
        b >= 0,
        history(g, b, t),
    ensures
        match seq_max(t[0]) {
            Some(x) => best_from(g, g.start * n_sets(g), b) == Some(x as int),
            None => best_from(g, g.start * n_sets(g), b) is None,
        },
{
    let s = n_sets(g);
    lemma_sets_pos(g);
    let k0 = g.start * s;
    assert(0 <= k0 < n_keys(g)) by (nonlinear_arith)
        requires
            0 <= g.start < g.len(),
            s >= 1,
            k0 == g.start * s,
            n_keys(g) == g.len() * s,
    ;
    assert(t[0].len() == n_keys(g));
    lemma_seq_max(t[0]);
    lemma_search_below(g, b, t, 0);
    if best_from(g, k0, b) is Some {
        assert(t[b] == initial(g));
        assert(t[b][k0] == Some(0u64));
        let k1 = lemma_search_reaches(g, b, t, b, k0);
        assert(t[0][k1] is Some);
        let i = choose|i: int| 0 <= i < t[0].len() && #[trigger] t[0][i] == seq_max(t[0]);
        assert(best_from(g, i, 0) == Some(0int));
    }
}

} // verus!
