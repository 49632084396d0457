use vstd::prelude::*;
use crate::compact::{
    lemma_without_wf,
    compacted, find_removable, lemma_find_removable, redirect, removable, rewire, shifted, without,
};
use crate::graph::{Edge, GraphView};

verus! {

/// Tunnel `j` of valve `x` exists.
pub open spec fn step_ok(g: GraphView, x: int, j: int) -> bool {
    0 <= x < g.len() && 0 <= j < g.valves[x].adj.len()
}

/// `path` and `tun` are a walk through `g`: from `path[i]`, tunnel `tun[i]`
/// leads to `path[i + 1]`.
pub open spec fn is_walk(g: GraphView, path: Seq<int>, tun: Seq<int>) -> bool {
    &&& path.len() == tun.len() + 1
    &&& 0 <= path[0] < g.len()
    &&& forall|i: int|
        0 <= i < tun.len() ==> step_ok(g, path[i], #[trigger] tun[i]) && g.valves[path[i]].adj[tun[i]].next
            == path[i + 1]
}

/// The minutes a walk takes.
pub open spec fn walk_cost(g: GraphView, path: Seq<int>, tun: Seq<int>) -> int
    decreases tun.len(),
{
    if tun.len() == 0 {
        0
    } else {
        g.valves[path[0]].adj[tun[0]].time + walk_cost(g, path.drop_first(), tun.drop_first())
    }
}

/// Some walk leads from `a` to `b` in `c` minutes.
pub open spec fn reaches(g: GraphView, a: int, b: int, c: int) -> bool {
    exists|path: Seq<int>, tun: Seq<int>|
        #[trigger] is_walk(g, path, tun) && path[0] == a && path.last() == b && walk_cost(g, path, tun) == c
}

/// Every tunnel has a tunnel back.
pub open spec fn two_way(g: GraphView) -> bool {
    forall|x: int, i: int|
        step_ok(g, x, i) ==> exists|j: int|
            step_ok(g, g.valves[x].adj[i].next as int, j) && #[trigger] g.valves[g.valves[x].adj[i].next as int].adj[j].next
                == x
}

/// Folding away valve `v` adds no two tunnel times beyond `u32`.
pub open spec fn sums_fit(g: GraphView, v: int) -> bool {
    forall|x: int, i: int, k: int|
        step_ok(g, x, i) && g.valves[x].adj[i].next == v && 0 <= k < g.valves[v].adj.len() ==> #[trigger] g.valves[x].adj[i].time
            + #[trigger] g.valves[v].adj[k].time <= u32::MAX
}

/// No fold of the compaction of `g` adds tunnel times beyond `u32`.
pub open spec fn folds_fit(g: GraphView) -> bool
    decreases g.len(),
{
    let v = find_removable(g, 0);
    if 0 <= v < g.len() {
        sums_fit(g, v) && folds_fit(without(g, v))
    } else {
        true
    }
}

/// Index in `g` of valve `u` of `g` with valve `v` folded away.
pub open spec fn unshifted(u: int, v: int) -> int {
    if u < v {
        u
    } else {
        u + 1
    }
}

proof fn lemma_walk_tail(g: GraphView, path: Seq<int>, tun: Seq<int>)
    requires
        g.wf(),
        is_walk(g, path, tun),
        tun.len() >= 1,
    ensures
        is_walk(g, path.drop_first(), tun.drop_first()),
        step_ok(g, path[0], tun[0]),
        g.valves[path[0]].adj[tun[0]].next == path[1],
{
    assert(step_ok(g, path[0], tun[0]));
    assert(g.valves[path[0]].adj[tun[0]].next < g.len());
    let p = path.drop_first();
    let w = tun.drop_first();
    assert forall|i: int| 0 <= i < w.len() implies step_ok(g, p[i], #[trigger] w[i]) && g.valves[p[i]].adj[w[i]].next
        == p[i + 1] by {
        assert(w[i] == tun[i + 1]);
        assert(step_ok(g, path[i + 1], tun[i + 1]));
    }
}

proof fn lemma_walk_cons(g: GraphView, x: int, j: int, path: Seq<int>, tun: Seq<int>)
    requires
        is_walk(g, path, tun),
        step_ok(g, x, j),
        g.valves[x].adj[j].next == path[0],
    ensures
        is_walk(g, seq![x] + path, seq![j] + tun),
        walk_cost(g, seq![x] + path, seq![j] + tun) == g.valves[x].adj[j].time + walk_cost(g, path, tun),
        (seq![x] + path).last() == path.last(),
{
    let p = seq![x] + path;
    let w = seq![j] + tun;
    assert(p.drop_first() =~= path);
    assert(w.drop_first() =~= tun);
    assert forall|i: int| 0 <= i < w.len() implies step_ok(g, p[i], #[trigger] w[i]) && g.valves[p[i]].adj[w[i]].next
        == p[i + 1] by {
        if i > 0 {
            assert(w[i] == tun[i - 1]);
            assert(step_ok(g, path[i - 1], tun[i - 1]));
        }
    }
}

/// Each tunnel of the folded graph comes from a tunnel of `g`.
proof fn lemma_rewire_source(g: GraphView, v: int, u: int, n: int, jj: int) -> (i: int)
    requires
        0 <= u < g.len(),
        0 <= n <= g.valves[u].adj.len(),
        0 <= jj < rewire(g, v, u, n).len(),
    ensures
        0 <= i < n,
        redirect(g, v, u, g.valves[u].adj[i]).next != v,
        rewire(g, v, u, n)[jj] == (Edge {
            time: redirect(g, v, u, g.valves[u].adj[i]).time,
            next: shifted(redirect(g, v, u, g.valves[u].adj[i]).next as int, v) as usize,
        }),
    decreases n,
{
    let prev = rewire(g, v, u, n - 1);
    let e = redirect(g, v, u, g.valves[u].adj[n - 1]);
    if e.next == v || jj < prev.len() {
        if e.next != v {
            assert(rewire(g, v, u, n)[jj] == prev[jj]);
        }
        lemma_rewire_source(g, v, u, n - 1, jj)
    } else {
        n - 1
    }
}

/// Each tunnel of `g` that is not dropped stands in the folded graph.
proof fn lemma_rewire_target(g: GraphView, v: int, u: int, n: int, i: int) -> (jj: int)
    requires
        0 <= u < g.len(),
        0 <= i < n <= g.valves[u].adj.len(),
        redirect(g, v, u, g.valves[u].adj[i]).next != v,
    ensures
        0 <= jj < rewire(g, v, u, n).len(),
        rewire(g, v, u, n)[jj] == (Edge {
            time: redirect(g, v, u, g.valves[u].adj[i]).time,
            next: shifted(redirect(g, v, u, g.valves[u].adj[i]).next as int, v) as usize,
        }),
    decreases n,
{
    let prev = rewire(g, v, u, n - 1);
    let e = redirect(g, v, u, g.valves[u].adj[n - 1]);
    if i == n - 1 {
        prev.len() as int
    } else {
        let jj = lemma_rewire_target(g, v, u, n - 1, i);
        if e.next != v {
            assert(rewire(g, v, u, n)[jj] == prev[jj]);
        }
        jj
    }
}

} // verus!

verus! {

/// A walk of the folded graph is a walk of `g`, of the same cost, when no
/// fold adds times beyond `u32`.
proof fn lemma_fold_lifts(g: GraphView, v: int, hp: Seq<int>, ht: Seq<int>) -> (r: (Seq<int>, Seq<int>))
    requires
        g.wf(),
        removable(g, v),
        sums_fit(g, v),
        is_walk(without(g, v), hp, ht),
    ensures
        is_walk(g, r.0, r.1),
        r.0[0] == unshifted(hp[0], v),
        r.0.last() == unshifted(hp.last(), v),
        walk_cost(g, r.0, r.1) == walk_cost(without(g, v), hp, ht),
    decreases ht.len(),
{
    let h = without(g, v);
    lemma_without_wf(g, v);
    if ht.len() == 0 {
        (seq![unshifted(hp[0], v)], Seq::<int>::empty())
    } else {
        lemma_walk_tail(h, hp, ht);
        let rest = lemma_fold_lifts(g, v, hp.drop_first(), ht.drop_first());
        let u = unshifted(hp[0], v);
        let n = g.valves[u].adj.len() as int;
        assert(h.valves[hp[0]].adj == rewire(g, v, u, n));
        let i = lemma_rewire_source(g, v, u, n, ht[0]);
        let e = g.valves[u].adj[i];
        let f = redirect(g, v, u, e);
        assert(e.next < g.len());
        if e.next != v {
            lemma_walk_cons(g, u, i, rest.0, rest.1);
            (seq![u] + rest.0, seq![i] + rest.1)
        } else {
            let adj = g.valves[v].adj;
            let k: int = if adj.len() == 2 && u == adj[0].next { 1 } else { 0 };
            assert(adj[k].next < g.len());
            assert(g.valves[u].adj[i].time + g.valves[v].adj[k].time <= u32::MAX);
            lemma_walk_cons(g, v, k, rest.0, rest.1);
            lemma_walk_cons(g, u, i, seq![v] + rest.0, seq![k] + rest.1);
            (seq![u] + (seq![v] + rest.0), seq![i] + (seq![k] + rest.1))
        }
    }
}

/// A walk of `g` between valves other than `v` gives a walk of the folded
/// graph that takes no longer.
proof fn lemma_fold_keeps_short(g: GraphView, v: int, p: Seq<int>, t: Seq<int>) -> (r: (Seq<int>, Seq<int>))
    requires
        g.wf(),
        removable(g, v),
        two_way(g),
        is_walk(g, p, t),
        p[0] != v,
        p.last() != v,
    ensures
        is_walk(without(g, v), r.0, r.1),
        r.0[0] == shifted(p[0], v),
        r.0.last() == shifted(p.last(), v),
        walk_cost(without(g, v), r.0, r.1) <= walk_cost(g, p, t),
    decreases t.len(), 1int,
{
    let h = without(g, v);
    lemma_without_wf(g, v);
    if t.len() == 0 {
        (seq![shifted(p[0], v)], Seq::<int>::empty())
    } else {
        lemma_walk_tail(g, p, t);
        let u = p[0];
        let x = p[1];
        if x == v {
            lemma_through(g, v, u, t[0], p.drop_first(), t.drop_first())
        } else {
            let rest = lemma_fold_keeps_short(g, v, p.drop_first(), t.drop_first());
            let n = g.valves[u].adj.len() as int;
            let jj = lemma_rewire_target(g, v, u, n, t[0]);
            assert(h.valves[shifted(u, v)].adj == rewire(g, v, u, n));
            lemma_walk_cons(h, shifted(u, v), jj, rest.0, rest.1);
            (seq![shifted(u, v)] + rest.0, seq![jj] + rest.1)
        }
    }
}

/// A walk of `g` that has just entered `v` through tunnel `i` of valve `a`
/// gives a walk of the folded graph from `a` that takes no longer.
proof fn lemma_through(g: GraphView, v: int, a: int, i: int, p: Seq<int>, t: Seq<int>) -> (r: (Seq<int>, Seq<int>))
    requires
        g.wf(),
        removable(g, v),
        two_way(g),
        step_ok(g, a, i),
        g.valves[a].adj[i].next == v,
        a != v,
        is_walk(g, p, t),
        p[0] == v,
        p.last() != v,
    ensures
        is_walk(without(g, v), r.0, r.1),
        r.0[0] == shifted(a, v),
        r.0.last() == shifted(p.last(), v),
        walk_cost(without(g, v), r.0, r.1) <= g.valves[a].adj[i].time + walk_cost(g, p, t),
    decreases t.len(), 0int,
{
    let h = without(g, v);
    lemma_without_wf(g, v);
    lemma_walk_tail(g, p, t);
    let adj = g.valves[v].adj;
    let k = t[0];
    let x = p[1];
    if x == v {
        lemma_through(g, v, a, i, p.drop_first(), t.drop_first())
    } else if x == a {
        lemma_fold_keeps_short(g, v, p.drop_first(), t.drop_first())
    } else {
        assert(step_ok(g, a, i));
        let j = choose|j: int|
            step_ok(g, g.valves[a].adj[i].next as int, j) && #[trigger] g.valves[g.valves[a].adj[i].next as int].adj[j].next
                == a;
        assert(adj[j].next == a && adj[k].next == x);
        assert(adj.len() == 2);
        let rest = lemma_fold_keeps_short(g, v, p.drop_first(), t.drop_first());
        let n = g.valves[a].adj.len() as int;
        let jj = lemma_rewire_target(g, v, a, n, i);
        assert(h.valves[shifted(a, v)].adj == rewire(g, v, a, n));
        lemma_walk_cons(h, shifted(a, v), jj, rest.0, rest.1);
        (seq![shifted(a, v)] + rest.0, seq![jj] + rest.1)
    }
}

} // verus!

verus! {

/// Folding a removable valve away keeps every tunnel two-way.
proof fn lemma_fold_two_way(g: GraphView, v: int)
    requires
        g.wf(),
        removable(g, v),
        two_way(g),
    ensures
        two_way(without(g, v)),
{
    let h = without(g, v);
    lemma_without_wf(g, v);
    assert forall|x2: int, jj: int| step_ok(h, x2, jj) implies exists|j2: int|
        step_ok(h, h.valves[x2].adj[jj].next as int, j2) && #[trigger] h.valves[h.valves[x2].adj[jj].next as int].adj[j2].next
            == x2 by {
        let u = unshifted(x2, v);
        let n = g.valves[u].adj.len() as int;
        assert(h.valves[x2].adj == rewire(g, v, u, n));
        let i = lemma_rewire_source(g, v, u, n, jj);
        let e = g.valves[u].adj[i];
        let f = redirect(g, v, u, e);
        let w = f.next as int;
        assert(e.next < g.len());
        let adj = g.valves[v].adj;
        // a tunnel of `w` that leads back to `u` once `v` is folded away
        let back: int = if e.next != v {
            assert(step_ok(g, u, i));
            choose|j: int| step_ok(g, w, j) && #[trigger] g.valves[w].adj[j].next == u
        } else {
            let k: int = if u == adj[0].next { 1 } else { 0 };
            assert(adj[k].next == w);
            assert(step_ok(g, v, k));
            choose|j: int| step_ok(g, w, j) && #[trigger] g.valves[w].adj[j].next == v
        };
        assert(w < g.len());
        assert(redirect(g, v, w, g.valves[w].adj[back]).next == u);
        let j2 = lemma_rewire_target(g, v, w, g.valves[w].adj.len() as int, back);
        assert(h.valves[shifted(w, v)].adj == rewire(g, v, w, g.valves[w].adj.len() as int));
        assert(h.valves[shifted(w, v)].adj[j2].next == x2);
    }
}

/// Where valve `w` of `g` stands once `g` is compacted.
pub open spec fn kept_index(g: GraphView, w: int) -> int
    decreases g.len(),
{
    let v = find_removable(g, 0);
    if 0 <= v < g.len() {
        kept_index(without(g, v), shifted(w, v))
    } else {
        w
    }
}

/// Valves with a positive flow rate, and the start: those compaction keeps.
pub open spec fn kept(g: GraphView, w: int) -> bool {
    0 <= w < g.len() && (g.valves[w].flow_rate > 0 || w == g.start)
}

/// One fold of the compaction leaves the kept valves kept, the tunnels
/// two-way, and the rest of the compaction as it was.
proof fn lemma_fold_facts(g: GraphView, a: int)
    requires
        g.wf(),
        two_way(g),
        folds_fit(g),
        kept(g, a),
        find_removable(g, 0) < g.len(),
    ensures
        ({
            let v = find_removable(g, 0);
            let h = without(g, v);
            &&& removable(g, v)
            &&& v != a
            &&& sums_fit(g, v)
            &&& h.wf()
            &&& two_way(h)
            &&& folds_fit(h)
            &&& kept(h, shifted(a, v))
            &&& compacted(g) == compacted(h)
            &&& kept_index(g, a) == kept_index(h, shifted(a, v))
        }),
{
    lemma_find_removable(g, 0);
    let v = find_removable(g, 0);
    lemma_without_wf(g, v);
    lemma_fold_two_way(g, v);
}

/// A walk of the compacted graph between kept valves is a walk of `g` of the
/// same cost.
proof fn lemma_compaction_lifts(g: GraphView, a: int, b: int, c: int)
    requires
        g.wf(),
        two_way(g),
        folds_fit(g),
        kept(g, a),
        kept(g, b),
        reaches(compacted(g), kept_index(g, a), kept_index(g, b), c),
    ensures
        reaches(g, a, b, c),
    decreases g.len(),
{
    lemma_find_removable(g, 0);
    let v = find_removable(g, 0);
    if v < g.len() {
        let h = without(g, v);
        lemma_fold_facts(g, a);
        lemma_fold_facts(g, b);
        lemma_compaction_lifts(h, shifted(a, v), shifted(b, v), c);
        let (hp, ht) = choose|hp: Seq<int>, ht: Seq<int>|
            #[trigger] is_walk(h, hp, ht) && hp[0] == shifted(a, v) && hp.last() == shifted(b, v) && walk_cost(h, hp, ht) == c;
        let r = lemma_fold_lifts(g, v, hp, ht);
        assert(is_walk(g, r.0, r.1));
    }
}

/// A walk of `g` between kept valves gives a walk of the compacted graph
/// that takes no longer.
proof fn lemma_compaction_shortens(g: GraphView, a: int, b: int, c: int) -> (d: int)
    requires
        g.wf(),
        two_way(g),
        folds_fit(g),
        kept(g, a),
        kept(g, b),
        reaches(g, a, b, c),
    ensures
        d <= c,
        reaches(compacted(g), kept_index(g, a), kept_index(g, b), d),
    decreases g.len(),
{
    lemma_find_removable(g, 0);
    let v = find_removable(g, 0);
    if v < g.len() {
        let h = without(g, v);
        lemma_fold_facts(g, a);
        lemma_fold_facts(g, b);
        let (p, t) = choose|p: Seq<int>, t: Seq<int>|
            #[trigger] is_walk(g, p, t) && p[0] == a && p.last() == b && walk_cost(g, p, t) == c;
        let r = lemma_fold_keeps_short(g, v, p, t);
        assert(is_walk(h, r.0, r.1));
        lemma_compaction_shortens(h, shifted(a, v), shifted(b, v), walk_cost(h, r.0, r.1))
    } else {
        c
    }
}

/// Compaction keeps travel times between the valves it keeps, on a graph
/// whose tunnels are two-way and whose folds add no times beyond `u32`: a
/// walk of the compacted graph is a walk of the same cost in `g`, and a walk
/// of `g` gives one of the compacted graph that takes no longer. So the
/// shortest travel time between two kept valves is the same before and after.
pub proof fn lemma_compaction_keeps_distances(g: GraphView, a: int, b: int)
    requires
        g.wf(),
        two_way(g),
        folds_fit(g),
        kept(g, a),
        kept(g, b),
    ensures
        forall|c: int| #[trigger] reaches(compacted(g), kept_index(g, a), kept_index(g, b), c) ==> reaches(g, a, b, c),
        forall|c: int|
            #[trigger] reaches(g, a, b, c) ==> exists|d: int|
                d <= c && #[trigger] reaches(compacted(g), kept_index(g, a), kept_index(g, b), d),
{
    assert forall|c: int| #[trigger] reaches(compacted(g), kept_index(g, a), kept_index(g, b), c) implies reaches(
        g,
        a,
        b,
        c,
    ) by {
        lemma_compaction_lifts(g, a, b, c);
    }
    assert forall|c: int| #[trigger] reaches(g, a, b, c) implies exists|d: int|
        d <= c && #[trigger] reaches(compacted(g), kept_index(g, a), kept_index(g, b), d) by {
        let d = lemma_compaction_shortens(g, a, b, c);
    }
}

} // verus!
