use vstd::prelude::*;
use crate::graph::{Edge, Graph, GraphView, Valve, ValveView};

verus! {

/// Valve `v` can be folded into its neighbours: it is not the start, releases
/// nothing, and has at most two tunnels.
pub open spec fn removable(g: GraphView, v: int) -> bool {
    &&& 0 <= v < g.len()
    &&& v != g.start
    &&& g.valves[v].flow_rate == 0
    &&& g.valves[v].adj.len() <= 2
}

/// No valve of `g` can be folded away.
pub open spec fn is_compact(g: GraphView) -> bool {
    forall|v: int| 0 <= v < g.len() ==> !#[trigger] removable(g, v)
}

/// The first removable valve at or after `i`, or the number of valves when
/// there is none.
pub open spec fn find_removable(g: GraphView, i: int) -> int
    decreases g.len() - i,
{
    if i < 0 || i >= g.len() {
        g.len()
    } else if removable(g, i) {
        i
    } else {
        find_removable(g, i + 1)
    }
}

/// Index `u` once valve `v` is taken out.
pub open spec fn shifted(u: int, v: int) -> int {
    if u > v {
        u - 1
    } else {
        u
    }
}

/// Where tunnel `e` of valve `u` leads once valve `v` is folded away, and how
/// long it takes: a tunnel into `v` from one of its two neighbours goes on to
/// the other neighbour; the others into `v` lead nowhere (the target `v`).
pub open spec fn redirect(g: GraphView, v: int, u: int, e: Edge) -> Edge {
    let adj = g.valves[v].adj;
    if e.next != v {
        e
    } else if adj.len() == 2 && u == adj[0].next {
        Edge { time: e.time.saturating_add(adj[1].time), next: adj[1].next }
    } else if adj.len() == 2 && u == adj[1].next {
        Edge { time: e.time.saturating_add(adj[0].time), next: adj[0].next }
    } else {
        Edge { time: e.time, next: v as usize }
    }
}

/// The first `n` tunnels of valve `u` once valve `v` is folded away: each one
/// redirected, dropped where it would still lead to `v`, and renumbered.
pub open spec fn rewire(g: GraphView, v: int, u: int, n: int) -> Seq<Edge>
    decreases n,
{
    if n <= 0 {
        Seq::empty()
    } else {
        let prev = rewire(g, v, u, n - 1);
        let e = redirect(g, v, u, g.valves[u].adj[n - 1]);
        if e.next == v {
            prev
        } else {
            prev.push(Edge { time: e.time, next: shifted(e.next as int, v) as usize })
        }
    }
}

/// `g` with valve `v` folded away.
pub open spec fn without(g: GraphView, v: int) -> GraphView {
    GraphView {
        valves: Seq::new(
            (g.len() - 1) as nat,
            |i: int|
                {
                    let u = if i < v { i } else { i + 1 };
                    ValveView {
                        name: g.valves[u].name,
                        flow_rate: g.valves[u].flow_rate,
                        adj: rewire(g, v, u, g.valves[u].adj.len() as int),
                    }
                },
        ),
        start: shifted(g.start, v),
    }
}

/// The compaction of `g`: fold away the first removable valve, again and
/// again, until none is left.
pub open spec fn compacted(g: GraphView) -> GraphView
    decreases g.len(),
{
    let v = find_removable(g, 0);
    if 0 <= v < g.len() {
        compacted(without(g, v))
    } else {
        g
    }
}

} // verus!

verus! {

/// The first removable valve, or the number of valves when there is none.
fn first_removable(g: &Graph) -> (r: usize)
    ensures
        r == find_removable(g@, 0),
{
    let mut i: usize = 0;
    while i < g.valves.len()
        invariant
            i <= g@.len(),
            find_removable(g@, 0) == find_removable(g@, i as int),
        decreases g@.len() - i,
    {
        let val = &g.valves[i];
        if i != g.start && val.flow_rate == 0 && val.adj.len() <= 2 {
            return i;
        }
        i = i + 1;
    }
    i
}

/// The tunnels of valve `u` once valve `v` is folded away.
fn rewired(g: &Graph, v: usize, u: usize) -> (r: Vec<Edge>)
    requires
        v < g@.len(),
        u < g@.len(),
    ensures
        r@ == rewire(g@, v as int, u as int, g@.valves[u as int].adj.len() as int),
{
    let gone = &g.valves[v].adj;
    let adj = &g.valves[u].adj;
    let mut out: Vec<Edge> = Vec::new();
    let mut j: usize = 0;
    while j < adj.len()
        invariant
            v < g@.len(),
            u < g@.len(),
            gone@ == g@.valves[v as int].adj,
            adj@ == g@.valves[u as int].adj,
            j <= adj@.len(),
            out@ == rewire(g@, v as int, u as int, j as int),
        decreases adj@.len() - j,
    {
        let e = adj[j];
        let f = if e.next != v {
            e
        } else if gone.len() == 2 && u == gone[0].next {
            Edge { time: e.time.saturating_add(gone[1].time), next: gone[1].next }
        } else if gone.len() == 2 && u == gone[1].next {
            Edge { time: e.time.saturating_add(gone[0].time), next: gone[0].next }
        } else {
            Edge { time: e.time, next: v }
        };
        assert(f == redirect(g@, v as int, u as int, adj@[j as int]));
        if f.next != v {
            let next = if f.next > v { f.next - 1 } else { f.next };
            out.push(Edge { time: f.time, next });
        }
        j = j + 1;
    }
    out
}

/// `g` with valve `v` folded away.
fn fold_valve(g: &Graph, v: usize) -> (r: Graph)
    requires
        v < g@.len(),
        v != g@.start,
    ensures
        r@ == without(g@, v as int),
{
    let mut valves: Vec<Valve> = Vec::new();
    let mut u: usize = 0;
    while u < g.valves.len()
        invariant
            v < g@.len(),
            u <= g@.len(),
            valves@.len() == if u <= v { u as int } else { u - 1 },
            forall|i: int|
                0 <= i < valves@.len() ==> (#[trigger] valves@[i])@ == without(g@, v as int).valves[i],
        decreases g@.len() - u,
    {
        if u != v {
            let adj = rewired(g, v, u);
            let val = Valve { name: g.valves[u].name.clone(), flow_rate: g.valves[u].flow_rate, adj };
            valves.push(val);
        }
        u = u + 1;
    }
    let start = if g.start > v { g.start - 1 } else { g.start };
    let r = Graph { valves, start };
    assert(r@.valves =~= without(g@, v as int).valves);
    r
}

/// Folds away valves that release nothing and have at most two tunnels,
/// other than the start, until none is left. A valve with one tunnel loses it
/// from its neighbour; a valve with two becomes a single tunnel between its
/// neighbours, as long as the two it replaces together.
pub fn compact(g: Graph) -> (r: Graph)
    ensures
        r@ == compacted(g@),
        is_compact(r@),
        g@.wf() ==> r@.wf(),
{
    proof {
        lemma_compacted_is_compact(g@);
        if g@.wf() {
            lemma_compacted_wf(g@);
        }
    }
    let mut cur = g;
    loop
        invariant
            compacted(cur@) == compacted(g@),
            is_compact(compacted(g@)),
            g@.wf() ==> compacted(g@).wf(),
        decreases cur@.len(),
    {
        let v = first_removable(&cur);
        if v >= cur.valves.len() {
            return cur;
        }
        proof {
            lemma_find_removable(cur@, 0);
        }
        cur = fold_valve(&cur, v);
    }
}

/// The valve that `find_removable` gives is removable, and none before it is.
pub(crate) proof fn lemma_find_removable(g: GraphView, i: int)
    requires
        0 <= i <= g.len(),
    ensures
        i <= find_removable(g, i) <= g.len(),
        find_removable(g, i) < g.len() ==> removable(g, find_removable(g, i)),
        forall|u: int| i <= u < find_removable(g, i) ==> !#[trigger] removable(g, u),
    decreases g.len() - i,
{
    if i < g.len() && !removable(g, i) {
        lemma_find_removable(g, i + 1);
    }
}

} // verus!

verus! {

/// When no valve is removable, `find_removable` finds none.
proof fn lemma_none_removable(g: GraphView, i: int)
    requires
        0 <= i <= g.len(),
        is_compact(g),
    ensures
        find_removable(g, i) == g.len(),
    decreases g.len() - i,
{
    if i < g.len() {
        assert(!removable(g, i));
        lemma_none_removable(g, i + 1);
    }
}

/// A compacted graph has no removable valve left.
pub proof fn lemma_compacted_is_compact(g: GraphView)
    ensures
        is_compact(compacted(g)),
    decreases g.len(),
{
    lemma_find_removable(g, 0);
    let v = find_removable(g, 0);
    if v < g.len() {
        lemma_compacted_is_compact(without(g, v));
    }
}

/// Compaction leaves a graph with no removable valve as it is.
pub proof fn lemma_compact_fixed(g: GraphView)
    requires
        is_compact(g),
    ensures
        compacted(g) == g,
{
    lemma_none_removable(g, 0);
}

/// Compacting twice gives the same graph as compacting once.
pub proof fn lemma_compaction_idempotent(g: GraphView)
    ensures
        compacted(compacted(g)) == compacted(g),
{
    lemma_compacted_is_compact(g);
    lemma_compact_fixed(compacted(g));
}

/// Every rewired tunnel leads to a valve of the smaller graph, and takes at
/// least a minute.
proof fn lemma_rewire_wf(g: GraphView, v: int, u: int, n: int)
    requires
        g.wf(),
        0 <= v < g.len(),
        0 <= u < g.len(),
        0 <= n <= g.valves[u].adj.len(),
    ensures
        forall|j: int|
            0 <= j < rewire(g, v, u, n).len() ==> {
                let e = #[trigger] rewire(g, v, u, n)[j];
                &&& e.next < g.len() - 1
                &&& e.time >= 1
            },
    decreases n,
{
    if n > 0 {
        lemma_rewire_wf(g, v, u, n - 1);
        let e = g.valves[u].adj[n - 1];
        assert(e.next < g.len() && e.time >= 1);
        let adj = g.valves[v].adj;
        if adj.len() == 2 {
            assert(adj[0].next < g.len() && adj[1].next < g.len());
        }
        let f = redirect(g, v, u, e);
        assert(f.next < g.len() && f.time >= 1);
        let prev = rewire(g, v, u, n - 1);
        if f.next != v {
            let last = Edge { time: f.time, next: shifted(f.next as int, v) as usize };
            assert(rewire(g, v, u, n) == prev.push(last));
            assert forall|j: int| 0 <= j < prev.len() + 1 implies {
                let e = #[trigger] prev.push(last)[j];
                &&& e.next < g.len() - 1
                &&& e.time >= 1
            } by {
                if j < prev.len() {
                    assert(prev.push(last)[j] == prev[j]);
                }
            }
        }
    }
}

/// Folding away a valve other than the start keeps the graph well formed.
pub(crate) proof fn lemma_without_wf(g: GraphView, v: int)
    requires
        g.wf(),
        0 <= v < g.len(),
        v != g.start,
    ensures
        without(g, v).wf(),
{
    let h = without(g, v);
    assert forall|i: int, j: int| 0 <= i < h.len() && 0 <= j < h.valves[i].adj.len() implies {
        let e = #[trigger] h.valves[i].adj[j];
        &&& e.next < h.len()
        &&& e.time >= 1
    } by {
        let u = if i < v { i } else { i + 1 };
        lemma_rewire_wf(g, v, u, g.valves[u].adj.len() as int);
    }
}

/// Compaction keeps the graph well formed.
pub proof fn lemma_compacted_wf(g: GraphView)
    requires
        g.wf(),
    ensures
        compacted(g).wf(),
    decreases g.len(),
{
    lemma_find_removable(g, 0);
    let v = find_removable(g, 0);
    if v < g.len() {
        lemma_without_wf(g, v);
        lemma_compacted_wf(without(g, v));
    }
}

} // verus!

verus! {

/// Compaction keeps every valve with a positive flow rate, and the start:
/// the valve keeps its label and flow rate, and the start stays the start.
pub proof fn lemma_compaction_keeps(g: GraphView, w: int) -> (u: int)
    requires
        0 <= w < g.len(),
        0 <= g.start < g.len(),
        g.valves[w].flow_rate > 0 || w == g.start,
    ensures
        0 <= u < compacted(g).len(),
        compacted(g).valves[u].name == g.valves[w].name,
        compacted(g).valves[u].flow_rate == g.valves[w].flow_rate,
        w == g.start ==> compacted(g).start == u,
    decreases g.len(),
{
    lemma_find_removable(g, 0);
    let v = find_removable(g, 0);
    if v < g.len() {
        let h = without(g, v);
        let w2 = shifted(w, v);
        assert(h.valves[w2].name == g.valves[w].name);
        lemma_compaction_keeps(h, w2)
    } else {
        w
    }
}

} // verus!
