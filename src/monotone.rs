use vstd::prelude::*;
use crate::graph::GraphView;
use crate::search::{
    covered, edge_move, history, in_range, initial, is_step, key_flow, lemma_seq_max, lemma_sets_pos,
    n_keys, n_sets, searchable, seq_max, yields,
};

verus! {

/// Every valve has a tunnel, so a state can always make a move.
pub open spec fn no_dead_end(g: GraphView) -> bool {
    forall|v: int| 0 <= v < g.len() ==> (#[trigger] g.valves[v].adj).len() >= 1
}

/// A move that leaves time on the clock can be made as well with one more
/// minute, and then leaves one more minute.
proof fn lemma_step_shift(g: GraphView, k1: int, r1: int, k2: int, r2: int)
    requires
        is_step(g, k1, r1, k2, r2),
        r2 >= 1,
    ensures
        is_step(g, k1, r1 + 1, k2, r2 + 1),
{
    let s = n_sets(g);
    let v = k1 / s;
    let m = k1 % s;
    if m != s - 1 {
        if exists|j: int| 0 <= j < g.valves[v].adj.len() && #[trigger] edge_move(g, k1, r1, j, k2, r2) {
            let j = choose|j: int| 0 <= j < g.valves[v].adj.len() && #[trigger] edge_move(g, k1, r1, j, k2, r2);
            assert(edge_move(g, k1, r1 + 1, j, k2, r2 + 1));
        }
    }
}

/// What the search of `b` minutes holds with `r` minutes left, the search of
/// `b + 1` minutes holds at least as well with `r + 1` minutes left.
proof fn lemma_shift_dominates(g: GraphView, b: int, t1: Seq<Seq<Option<u64>>>, t2: Seq<Seq<Option<u64>>>, r: int)
    requires
        history(g, b, t1),
        history(g, b + 1, t2),
        1 <= r <= b,
    ensures
        forall|k: int|
            0 <= k < n_keys(g) && #[trigger] t1[r][k] is Some ==> t2[r + 1][k] is Some && t1[r][k]->0
                <= t2[r + 1][k]->0,
    decreases b - r,
{
    if r == b {
        assert(t1[b] == initial(g));
        assert(t2[b + 1] == initial(g));
    } else {
        assert forall|k: int| 0 <= k < n_keys(g) && #[trigger] t1[r][k] is Some implies t2[r + 1][k] is Some
            && t1[r][k]->0 <= t2[r + 1][k]->0 by {
            assert(covered(g, t1, b, r, r, 0));
            let p = t1[r][k]->0 as int;
            let (r1, k1) = choose|r1: int, k1: int|
                in_range(g, b, r, 0, r1, k1) && #[trigger] yields(g, t1[r1], k1, r1, k, r, p);
            lemma_shift_dominates(g, b, t1, t2, r1);
            assert(t1[r1][k1] is Some);
            lemma_step_shift(g, k1, r1, k, r);
            let q = t2[r1 + 1][k1]->0 + key_flow(g, k1) * (r1 - r);
            assert((r1 + 1) - (r + 1) == r1 - r);
            assert(yields(g, t2[r1 + 1], k1, r1 + 1, k, r + 1, q));
            assert(covered(g, t2, b + 1, r + 1, r + 1, 0));
            assert(in_range(g, b + 1, r + 1, 0, r1 + 1, k1));
        }
    }
}

/// With one minute left a state always has a move.
proof fn lemma_last_move(g: GraphView, k: int) -> (k3: int)
    requires
        g.wf(),
        no_dead_end(g),
        n_sets(g) >= 1,
        0 <= k < n_keys(g),
    ensures
        0 <= k3 < n_keys(g),
        is_step(g, k, 1, k3, 0),
{
    let s = n_sets(g);
    let v = k / s;
    let m = k % s;
    assert(0 <= v < g.len() && 0 <= m < s) by (nonlinear_arith)
        requires
            0 <= k < g.len() * s,
            s >= 1,
            v == k / s,
            m == k % s,
    ;
    if m == s - 1 {
        k
    } else {
        assert(g.valves[v].adj.len() >= 1);
        let e = g.valves[v].adj[0];
        assert(e.next < g.len());
        let k3 = e.next * s + m;
        assert(k3 < g.len() * s) by (nonlinear_arith)
            requires
                e.next < g.len(),
                0 <= m < s,
                k3 == e.next * s + m,
        ;
        assert(edge_move(g, k, 1, 0, k3, 0));
        k3
    }
}

/// Each state the search of `b` minutes ends with is matched, at least as
/// well, by some state the search of `b + 1` minutes ends with.
proof fn lemma_last_layer(g: GraphView, b: int, t1: Seq<Seq<Option<u64>>>, t2: Seq<Seq<Option<u64>>>, k: int) -> (k2: int)
    requires
        searchable(g, b + 1),
        no_dead_end(g),
        history(g, b, t1),
        history(g, b + 1, t2),
        b >= 0,
        0 <= k < n_keys(g),
        t1[0][k] is Some,
    ensures
        0 <= k2 < n_keys(g),
        t2[0][k2] is Some,
        t1[0][k]->0 <= t2[0][k2]->0,
{
    lemma_sets_pos(g);
    let s = n_sets(g);
    if b == 0 {
        assert(t1[0] == initial(g));
        assert(t2[1] == initial(g));
        assert(t2[1][k] == Some(0u64));
        let k3 = lemma_last_move(g, k);
        assert(covered(g, t2, b + 1, 0, 0, 0));
        assert(in_range(g, b + 1, 0, 0, 1, k));
        assert(yields(g, t2[1], k, 1, k3, 0, (key_flow(g, k) * 1) as int));
        return k3;
    }
    assert(covered(g, t1, b, 0, 0, 0));
    let p = t1[0][k]->0 as int;
    let (r1, k1) = choose|r1: int, k1: int| in_range(g, b, 0, 0, r1, k1) && #[trigger] yields(g, t1[r1], k1, r1, k, 0, p);
    lemma_shift_dominates(g, b, t1, t2, r1);
    assert(t1[r1][k1] is Some);
    let q1 = t2[r1 + 1][k1]->0;
    let fl = key_flow(g, k1);
    let v1 = k1 / s;
    let m1 = k1 % s;
    assert(covered(g, t2, b + 1, 0, 0, 0));
    assert(covered(g, t2, b + 1, 1, 1, 0));
    assert(in_range(g, b + 1, 0, 0, r1 + 1, k1));
    assert(in_range(g, b + 1, 1, 0, r1 + 1, k1));
    let clamped = m1 != s - 1 && exists|j: int|
        0 <= j < g.valves[v1].adj.len() && #[trigger] edge_move(g, k1, r1, j, k, 0)
            && g.valves[v1].adj[j].time > r1;
    if clamped {
        let j = choose|j: int|
            0 <= j < g.valves[v1].adj.len() && #[trigger] edge_move(g, k1, r1, j, k, 0)
                && g.valves[v1].adj[j].time > r1;
        assert(edge_move(g, k1, r1 + 1, j, k, 0));
        assert(is_step(g, k1, r1 + 1, k, 0));
        assert(fl * r1 <= fl * (r1 + 1)) by (nonlinear_arith);
        assert(yields(g, t2[r1 + 1], k1, r1 + 1, k, 0, q1 + fl * (r1 + 1)));
        k
    } else {
        assert(is_step(g, k1, r1 + 1, k, 1)) by {
            if m1 != s - 1 {
                if exists|j: int| 0 <= j < g.valves[v1].adj.len() && #[trigger] edge_move(g, k1, r1, j, k, 0) {
                    let j = choose|j: int| 0 <= j < g.valves[v1].adj.len() && #[trigger] edge_move(g, k1, r1, j, k, 0);
                    assert(!(g.valves[v1].adj[j].time > r1));
                    assert(edge_move(g, k1, r1 + 1, j, k, 1));
                }
            }
        }
        assert(yields(g, t2[r1 + 1], k1, r1 + 1, k, 1, q1 + fl * r1));
        let q = t2[1][k]->0;
        let k3 = lemma_last_move(g, k);
        assert(yields(g, t2[1], k, 1, k3, 0, q + key_flow(g, k) * 1));
        assert(in_range(g, b + 1, 0, 0, 1, k));
        k3
    }
}

/// More time never hurts: on a graph where every valve has a tunnel, the best
/// pressure of a search with one more minute is at least that of the shorter
/// one.
pub proof fn lemma_more_time(g: GraphView, b: int, t1: Seq<Seq<Option<u64>>>, t2: Seq<Seq<Option<u64>>>)
    requires
        b >= 0,
        searchable(g, b + 1),
        no_dead_end(g),
        history(g, b, t1),
        history(g, b + 1, t2),
    ensures
        seq_max(t1[0]) is Some ==> seq_max(t2[0]) is Some && seq_max(t1[0])->0 <= seq_max(t2[0])->0,
{
    assert(t1[0].len() == n_keys(g));
    assert(t2[0].len() == n_keys(g));
    lemma_seq_max(t1[0]);
    lemma_seq_max(t2[0]);
    if seq_max(t1[0]) is Some {
        let i = choose|i: int| 0 <= i < t1[0].len() && #[trigger] t1[0][i] == seq_max(t1[0]);
        let k2 = lemma_last_layer(g, b, t1, t2, i);
        assert(t2[0][k2] is Some);
    }
}

} // verus!
