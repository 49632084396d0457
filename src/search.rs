use vstd::prelude::*;
use crate::exhaustive::{best_from, lemma_search_exhaustive};
use crate::graph::{Graph, GraphView, ValveView};

verus! {

/// Number of valves among the first `n` whose flow rate is positive.
pub open spec fn count_flow(vs: Seq<ValveView>, n: int) -> nat
    decreases n,
{
    if n <= 0 {
        0
    } else {
        count_flow(vs, n - 1) + if vs[n - 1].flow_rate > 0 { 1nat } else { 0nat }
    }
}

/// Sum of the flow rates of the first `n` valves.
pub open spec fn total_flow(vs: Seq<ValveView>, n: int) -> nat
    decreases n,
{
    if n <= 0 {
        0
    } else {
        total_flow(vs, n - 1) + vs[n - 1].flow_rate as nat
    }
}

/// The bit that stands for valve `v` in an open set: valves with a positive
/// flow rate are numbered in the order of the graph.
pub open spec fn bit_of(g: GraphView, v: int) -> nat {
    count_flow(g.valves, v)
}

/// Number of valves that can be opened.
pub open spec fn n_bits(g: GraphView) -> nat {
    count_flow(g.valves, g.len())
}

/// Number of distinct open sets.
pub open spec fn n_sets(g: GraphView) -> int {
    (1u64 << (n_bits(g) as u64)) as int
}

/// Number of search keys: a valve together with an open set.
pub open spec fn n_keys(g: GraphView) -> int {
    g.len() * n_sets(g)
}

pub open spec fn has_bit(m: int, b: nat) -> bool {
    b < 64 && ((m as u64) >> (b as u64)) & 1u64 == 1u64
}

pub open spec fn with_bit(m: int, b: nat) -> int {
    ((m as u64) | (1u64 << (b as u64))) as int
}

/// Pressure released per minute by the open set `m`, counting the first `n`
/// valves.
pub open spec fn set_flow(g: GraphView, m: int, n: int) -> nat
    decreases n,
{
    if n <= 0 {
        0
    } else {
        set_flow(g, m, n - 1) + if g.valves[n - 1].flow_rate > 0 && has_bit(m, bit_of(g, n - 1)) {
            g.valves[n - 1].flow_rate as nat
        } else {
            0nat
        }
    }
}

/// Pressure released per minute in the state with key `k`.
pub open spec fn key_flow(g: GraphView, k: int) -> nat {
    set_flow(g, k % n_sets(g), g.len())
}

/// Graphs the search can run on for `budget` minutes: the dense table of keys
/// fits in memory addresses and every pressure fits in a `u64`.
pub open spec fn searchable(g: GraphView, budget: int) -> bool {
    &&& g.wf()
    &&& n_bits(g) < 63
    &&& n_keys(g) <= usize::MAX
    &&& 2 * total_flow(g.valves, g.len()) * budget <= u64::MAX
}

/// Walking tunnel `j` out of the valve of key `k1` at `r1` minutes left ends
/// at key `k2` with `r2` minutes left; a walk longer than the time left is cut
/// short at the end.
pub open spec fn edge_move(g: GraphView, k1: int, r1: int, j: int, k2: int, r2: int) -> bool {
    let s = n_sets(g);
    let e = g.valves[k1 / s].adj[j];
    &&& k2 == e.next * s + k1 % s
    &&& r2 == r1 - if e.time as int <= r1 { e.time as int } else { r1 }
}

/// One move of the search: from key `k1` with `r1` minutes left to key `k2`
/// with `r2` left. Once every valve is open the state only waits; otherwise
/// it opens its closed valve, or walks a tunnel.
pub open spec fn is_step(g: GraphView, k1: int, r1: int, k2: int, r2: int) -> bool {
    let s = n_sets(g);
    let v = k1 / s;
    let m = k1 % s;
    &&& 1 <= r1
    &&& if m == s - 1 {
        k2 == k1 && r2 == r1 - 1
    } else {
        ||| (g.valves[v].flow_rate > 0 && !has_bit(m, bit_of(g, v)) && k2 == v * s + with_bit(
            m,
            bit_of(g, v),
        ) && r2 == r1 - 1)
        ||| exists|j: int| 0 <= j < g.valves[v].adj.len() && #[trigger] edge_move(g, k1, r1, j, k2, r2)
    }
}

/// The state of key `k1` in layer `src`, with `r1` minutes left, moves to key
/// `k2` with `r2` minutes left, and has then released pressure `p`: what it
/// had, and its flow for each minute that passed.
pub open spec fn yields(g: GraphView, src: Seq<Option<u64>>, k1: int, r1: int, k2: int, r2: int, p: int) -> bool {
    &&& src[k1] is Some
    &&& is_step(g, k1, r1, k2, r2)
    &&& p == src[k1]->0 + key_flow(g, k1) * (r1 - r2)
}

/// The source states taken into account: all keys of the layers above `lo_r`
/// (up to the budget), and the keys below `lo_k` of layer `lo_r`.
pub open spec fn in_range(g: GraphView, budget: int, lo_r: int, lo_k: int, r1: int, k1: int) -> bool {
    &&& 0 <= k1 < n_keys(g)
    &&& (lo_r < r1 <= budget || (r1 == lo_r && k1 < lo_k))
}

/// Layer `r` of `t` holds, for each key, the best pressure among the moves
/// into it from the source states in range, and nothing for a key that no
/// such move reaches.
pub open spec fn covered(g: GraphView, t: Seq<Seq<Option<u64>>>, budget: int, r: int, lo_r: int, lo_k: int) -> bool {
    forall|k2: int|
        0 <= k2 < n_keys(g) ==> {
            &&& forall|r1: int, k1: int, p: int|
                in_range(g, budget, lo_r, lo_k, r1, k1) && #[trigger] yields(g, t[r1], k1, r1, k2, r, p)
                    ==> #[trigger] t[r][k2] is Some && p <= t[r][k2]->0
            &&& t[r][k2] is Some ==> exists|r1: int, k1: int|
                in_range(g, budget, lo_r, lo_k, r1, k1) && #[trigger] yields(
                    g,
                    t[r1],
                    k1,
                    r1,
                    k2,
                    r,
                    t[r][k2]->0 as int,
                )
        }
}

/// The layer the search starts from: the start valve with nothing open and
/// no pressure released.
pub open spec fn initial(g: GraphView) -> Seq<Option<u64>> {
    Seq::new(n_keys(g) as nat, |k: int| if k == g.start * n_sets(g) { Some(0u64) } else { None })
}

/// `t` is the history of a search of `budget` minutes, indexed by minutes
/// left: the top layer is the initial one, and each lower layer keeps, for
/// every key, the best pressure among all moves into it from higher layers.
pub open spec fn history(g: GraphView, budget: int, t: Seq<Seq<Option<u64>>>) -> bool {
    &&& t.len() == budget + 1
    &&& forall|r: int| 0 <= r <= budget ==> (#[trigger] t[r]).len() == n_keys(g)
    &&& t[budget] == initial(g)
    &&& forall|r: int| 0 <= r < budget ==> covered(g, t, budget, r, r, 0)
}

/// Taking in one more source state, whose moves were recorded going from `t1`
/// to `t2`.
proof fn lemma_cover_extend(
    g: GraphView,
    t1: Seq<Seq<Option<u64>>>,
    t2: Seq<Seq<Option<u64>>>,
    budget: int,
    cur: int,
    k: int,
    r: int,
)
    requires
        0 <= r < cur <= budget,
        0 <= k < n_keys(g),
        t1.len() == budget + 1,
        t2.len() == budget + 1,
        forall|r1: int| cur <= r1 <= budget ==> #[trigger] t2[r1] == t1[r1],
        t1[r].len() == n_keys(g),
        t2[r].len() == n_keys(g),
        covered(g, t1, budget, r, cur, k),
        forall|k2: int|
            0 <= k2 < n_keys(g) ==> {
                let was = t1[r][k2];
                let now = #[trigger] t2[r][k2];
                &&& was is Some ==> now is Some && was->0 <= now->0
                &&& t1[cur][k] is Some && is_step(g, k, cur, k2, r) ==> now is Some && t1[cur][k]->0
                    + key_flow(g, k) * (cur - r) <= now->0
                &&& now != was ==> now is Some && t1[cur][k] is Some && is_step(g, k, cur, k2, r)
                    && now->0 == t1[cur][k]->0 + key_flow(g, k) * (cur - r)
            },
    ensures
        covered(g, t2, budget, r, cur, k + 1),
{
    assert forall|k2: int| 0 <= k2 < n_keys(g) implies {
        &&& forall|r1: int, k1: int, p: int|
            in_range(g, budget, cur, k + 1, r1, k1) && #[trigger] yields(g, t2[r1], k1, r1, k2, r, p)
                ==> #[trigger] t2[r][k2] is Some && p <= t2[r][k2]->0
        &&& t2[r][k2] is Some ==> exists|r1: int, k1: int|
            in_range(g, budget, cur, k + 1, r1, k1) && #[trigger] yields(
                g,
                t2[r1],
                k1,
                r1,
                k2,
                r,
                t2[r][k2]->0 as int,
            )
    } by {
        assert forall|r1: int, k1: int, p: int|
            in_range(g, budget, cur, k + 1, r1, k1) && #[trigger] yields(g, t2[r1], k1, r1, k2, r, p)
                implies t2[r][k2] is Some && p <= t2[r][k2]->0 by {
            assert(t2[r1] == t1[r1]);
            if r1 == cur && k1 == k {
            } else {
                assert(in_range(g, budget, cur, k, r1, k1));
                assert(yields(g, t1[r1], k1, r1, k2, r, p));
            }
        }
        if t2[r][k2] is Some {
            if t2[r][k2] == t1[r][k2] {
                let (r1, k1) = choose|r1: int, k1: int|
                    in_range(g, budget, cur, k, r1, k1) && #[trigger] yields(
                        g,
                        t1[r1],
                        k1,
                        r1,
                        k2,
                        r,
                        t1[r][k2]->0 as int,
                    );
                assert(t2[r1] == t1[r1]);
                assert(in_range(g, budget, cur, k + 1, r1, k1));
                assert(yields(g, t2[r1], k1, r1, k2, r, t2[r][k2]->0 as int));
            } else {
                assert(t2[cur] == t1[cur]);
                assert(in_range(g, budget, cur, k + 1, cur, k));
                assert(yields(g, t2[cur], k, cur, k2, r, t2[r][k2]->0 as int));
            }
        }
    }
}

/// Once every key of layer `cur` is taken in, the sources are exactly the
/// layers above `cur - 1`.
proof fn lemma_cover_next_layer(g: GraphView, t: Seq<Seq<Option<u64>>>, budget: int, cur: int, r: int)
    requires
        0 <= r < cur <= budget,
        covered(g, t, budget, r, cur, n_keys(g)),
    ensures
        covered(g, t, budget, r, cur - 1, 0),
{
    assert forall|r1: int, k1: int|
        in_range(g, budget, cur - 1, 0, r1, k1) == in_range(g, budget, cur, n_keys(g), r1, k1) by {}
}

/// Layer `r` stays covered while the layers it depends on stay the same.
proof fn lemma_cover_frame(
    g: GraphView,
    t1: Seq<Seq<Option<u64>>>,
    t2: Seq<Seq<Option<u64>>>,
    budget: int,
    r: int,
    lo_r: int,
    lo_k: int,
)
    requires
        0 <= r <= lo_r <= budget,
        t1.len() == budget + 1,
        t2.len() == budget + 1,
        forall|r1: int| lo_r <= r1 <= budget ==> #[trigger] t2[r1] == t1[r1],
        t2[r] == t1[r],
        covered(g, t1, budget, r, lo_r, lo_k),
    ensures
        covered(g, t2, budget, r, lo_r, lo_k),
{
    assert forall|k2: int| 0 <= k2 < n_keys(g) implies {
        &&& forall|r1: int, k1: int, p: int|
            in_range(g, budget, lo_r, lo_k, r1, k1) && #[trigger] yields(g, t2[r1], k1, r1, k2, r, p)
                ==> #[trigger] t2[r][k2] is Some && p <= t2[r][k2]->0
        &&& t2[r][k2] is Some ==> exists|r1: int, k1: int|
            in_range(g, budget, lo_r, lo_k, r1, k1) && #[trigger] yields(
                g,
                t2[r1],
                k1,
                r1,
                k2,
                r,
                t2[r][k2]->0 as int,
            )
    } by {
        assert forall|r1: int, k1: int, p: int|
            in_range(g, budget, lo_r, lo_k, r1, k1) && #[trigger] yields(g, t2[r1], k1, r1, k2, r, p)
                implies t2[r][k2] is Some && p <= t2[r][k2]->0 by {
            assert(t2[r1] == t1[r1]);
            assert(yields(g, t1[r1], k1, r1, k2, r, p));
        }
        if t2[r][k2] is Some {
            let (r1, k1) = choose|r1: int, k1: int|
                in_range(g, budget, lo_r, lo_k, r1, k1) && #[trigger] yields(
                    g,
                    t1[r1],
                    k1,
                    r1,
                    k2,
                    r,
                    t1[r][k2]->0 as int,
                );
            assert(t2[r1] == t1[r1]);
            assert(yields(g, t2[r1], k1, r1, k2, r, t2[r][k2]->0 as int));
        }
    }
}

/// A searchable graph has at least one open set.
pub proof fn lemma_sets_pos(g: GraphView)
    requires
        n_bits(g) < 63,
    ensures
        n_sets(g) >= 1,
{
    lemma_u64_shl_pos(n_bits(g) as u64);
}

proof fn lemma_u64_shl_pos(f: u64)
    requires
        f < 63,
    ensures
        (1u64 << f) >= 1,
{
    assert((1u64 << f) >= 1) by (bit_vector)
        requires
            f < 63,
    ;
}

pub(crate) proof fn lemma_bit_set_bound(m: u64, b: u64, f: u64)
    requires
        b < f,
        f < 64,
        m < (1u64 << f),
    ensures
        (m | (1u64 << b)) < (1u64 << f),
{
    assert((m | (1u64 << b)) < (1u64 << f)) by (bit_vector)
        requires
            b < f,
            f < 64,
            m < (1u64 << f),
    ;
}

pub(crate) proof fn lemma_count_flow_mono(vs: Seq<ValveView>, u: int, v: int)
    requires
        0 <= u <= v <= vs.len(),
    ensures
        count_flow(vs, u) <= count_flow(vs, v),
        count_flow(vs, v) - count_flow(vs, u) <= v - u,
        u < v && vs[u].flow_rate > 0 ==> count_flow(vs, u) < count_flow(vs, v),
    decreases v - u,
{
    if u < v {
        lemma_count_flow_mono(vs, u, v - 1);
        if u < v - 1 {
            lemma_count_flow_mono(vs, u + 1, v);
        }
    }
}

proof fn lemma_total_flow_mono(vs: Seq<ValveView>, u: int, v: int)
    requires
        0 <= u <= v <= vs.len(),
    ensures
        total_flow(vs, u) <= total_flow(vs, v),
    decreases v - u,
{
    if u < v {
        lemma_total_flow_mono(vs, u, v - 1);
    }
}

proof fn lemma_set_flow_le_total(g: GraphView, m: int, n: int)
    requires
        0 <= n <= g.len(),
    ensures
        set_flow(g, m, n) <= total_flow(g.valves, n),
    decreases n,
{
    if n > 0 {
        lemma_set_flow_le_total(g, m, n - 1);
    }
}

/// Pressure released per minute by the open set `m`.
fn open_flow(g: &Graph, bits: &Vec<usize>, m: usize) -> (r: u64)
    requires
        bits@.len() == g@.len(),
        forall|v: int| 0 <= v < g@.len() ==> bits@[v] == bit_of(g@, v),
        total_flow(g@.valves, g@.len()) <= u64::MAX,
    ensures
        r == set_flow(g@, m as int, g@.len()),
{
    let mut sum: u64 = 0;
    let mut v: usize = 0;
    while v < g.valves.len()
        invariant
            v <= g.valves.len(),
            bits@.len() == g@.len(),
            forall|u: int| 0 <= u < g@.len() ==> bits@[u] == bit_of(g@, u),
            total_flow(g@.valves, g@.len()) <= u64::MAX,
            sum == set_flow(g@, m as int, v as int),
        decreases g.valves.len() - v,
    {
        proof {
            lemma_set_flow_le_total(g@, m as int, v as int + 1);
            lemma_total_flow_mono(g@.valves, v as int + 1, g@.len());
        }
        let b = bits[v];
        if g.valves[v].flow_rate > 0 && b < 64 && ((m as u64) >> (b as u64)) & 1u64 == 1u64 {
            sum = sum + g.valves[v].flow_rate as u64;
        }
        v = v + 1;
    }
    sum
}

/// Keeps the larger of the pressure already recorded for key `k` at layer `r`
/// and `p`.
fn relax(layers: &mut Vec<Vec<Option<u64>>>, r: usize, k: usize, p: u64)
    requires
        r < old(layers)@.len(),
        k < old(layers)@[r as int]@.len(),
    ensures
        final(layers)@.len() == old(layers)@.len(),
        forall|i: int| 0 <= i < old(layers)@.len() && i != r ==> final(layers)@[i] == old(layers)@[i],
        final(layers)@[r as int]@ == old(layers)@[r as int]@.update(
            k as int,
            Some(
                match old(layers)@[r as int]@[k as int] {
                    Some(q) => if q >= p { q } else { p },
                    None => p,
                },
            ),
        ),
{
    let best = match layers[r][k] {
        Some(q) => if q >= p { q } else { p },
        None => p,
    };
    layers[r].set(k, Some(best));
}

/// The layers of a table as sequences.
pub open spec fn table(layers: Seq<Vec<Option<u64>>>) -> Seq<Seq<Option<u64>>> {
    layers.map_values(|row: Vec<Option<u64>>| row@)
}

/// Pressure bound of layer `r` in a search of `budget` minutes.
pub open spec fn cap(g: GraphView, budget: int, r: int) -> int {
    total_flow(g.valves, g.len()) * (budget - r)
}

/// Every entry of the layers below `hi` stays within its layer's bound.
pub open spec fn capped(g: GraphView, budget: int, layers: Seq<Vec<Option<u64>>>, hi: int) -> bool {
    forall|r: int, k: int|
        0 <= r < hi && 0 <= k < layers[r]@.len() && #[trigger] layers[r]@[k] is Some
            ==> layers[r]@[k]->0 <= cap(g, budget, r)
}

/// Every move out of the state of key `k`, at `cur` minutes left and with
/// pressure `base`, recorded in the layers below.
fn expand(
    g: &Graph,
    bits: &Vec<usize>,
    s: usize,
    budget: usize,
    layers: &mut Vec<Vec<Option<u64>>>,
    cur: usize,
    k: usize,
    base: u64,
)
    requires
        searchable(g@, budget as int),
        bits@.len() == g@.len(),
        forall|v: int| 0 <= v < g@.len() ==> bits@[v] == bit_of(g@, v),
        s == n_sets(g@),
        old(layers)@.len() == budget + 1,
        forall|r: int| 0 <= r <= budget ==> (#[trigger] old(layers)@[r])@.len() == n_keys(g@),
        1 <= cur <= budget,
        k < n_keys(g@),
        old(layers)@[cur as int]@[k as int] == Some(base),
        base <= cap(g@, budget as int, cur as int),
        capped(g@, budget as int, old(layers)@, cur as int),
    ensures
        final(layers)@.len() == budget + 1,
        forall|r: int| 0 <= r <= budget ==> (#[trigger] final(layers)@[r])@.len() == n_keys(g@),
        forall|r: int| cur <= r <= budget ==> #[trigger] final(layers)@[r] == old(layers)@[r],
        capped(g@, budget as int, final(layers)@, cur as int),
        forall|r: int, k2: int|
            0 <= r < cur && 0 <= k2 < n_keys(g@) ==> {
                let was = old(layers)@[r]@[k2];
                let now = #[trigger] final(layers)@[r]@[k2];
                &&& was is Some ==> now is Some && was->0 <= now->0
                &&& is_step(g@, k as int, cur as int, k2, r) ==> now is Some && base + key_flow(
                    g@,
                    k as int,
                ) * (cur - r) <= now->0
                &&& now != was ==> now is Some && is_step(g@, k as int, cur as int, k2, r)
                    && now->0 == base + key_flow(g@, k as int) * (cur - r)
            },
{
    let ghost gv = g@;
    let ghost nk = n_keys(gv);
    let ghost tf = total_flow(gv.valves, gv.len());
    proof {
        assert(s > 0) by {
            lemma_u64_shl_pos(n_bits(gv) as u64);
        }
        assert(k / s < gv.len() && (k / s) * s + k % s == k && k % s < s) by (nonlinear_arith)
            requires
                k < gv.len() * s,
                s > 0,
        ;
    }
    let v = k / s;
    let m = k % s;
    assert(tf <= u64::MAX) by (nonlinear_arith)
        requires
            2 * tf * budget <= u64::MAX,
            budget >= 1,
    ;
    let fl = open_flow(g, bits, m);
    proof {
        lemma_set_flow_le_total(gv, m as int, gv.len());
        assert(fl * cur <= tf * budget) by (nonlinear_arith)
            requires
                fl <= tf,
                cur <= budget,
        ;
        assert(base + fl * cur <= tf * budget) by (nonlinear_arith)
            requires
                fl <= tf,
                base <= tf * (budget - cur),
                cur <= budget,
        ;
        assert(tf * budget <= u64::MAX) by (nonlinear_arith)
            requires
                2 * tf * budget <= u64::MAX,
        ;
        assert(fl <= fl * cur) by (nonlinear_arith)
            requires
                cur >= 1,
        ;
    }
    if m == s - 1 {
        relax(layers, cur - 1, k, base + fl);
        proof {
            assert(base + fl <= tf * (budget - (cur - 1))) by (nonlinear_arith)
                requires
                    fl <= tf,
                    base <= tf * (budget - cur),
            ;
            assert(is_step(gv, k as int, cur as int, k as int, cur - 1));
            assert forall|r: int, k2: int|
                0 <= r < cur && 0 <= k2 < nk && is_step(gv, k as int, cur as int, k2, r) implies r
                == cur - 1 && k2 == k by {}
            assert(fl == key_flow(gv, k as int));
            assert(fl * (cur - (cur - 1)) == fl) by (nonlinear_arith);
            assert forall|r: int, k2: int| 0 <= r < cur && 0 <= k2 < nk implies {
                let was = old(layers)@[r]@[k2];
                let now = #[trigger] layers@[r]@[k2];
                &&& was is Some ==> now is Some && was->0 <= now->0
                &&& is_step(gv, k as int, cur as int, k2, r) ==> now is Some && base + fl * (cur - r) <= now->0
                &&& now != was ==> now is Some && is_step(gv, k as int, cur as int, k2, r)
                    && now->0 == base + fl * (cur - r)
            } by {
                if r == cur - 1 && k2 == k {
                } else {
                    assert(layers@[r]@[k2] == old(layers)@[r]@[k2]);
                }
            }
        }
        return;
    }
    let vf = g.valves[v].flow_rate;
    let b = bits[v];
    let ghost opens = vf > 0 && !has_bit(m as int, bit_of(gv, v as int));
    if vf > 0 && !(b < 64 && ((m as u64) >> (b as u64)) & 1u64 == 1u64) {
        proof {
            lemma_count_flow_mono(gv.valves, v as int, gv.len());
            lemma_bit_set_bound(m as u64, b as u64, n_bits(gv) as u64);
        }
        let m2 = ((m as u64) | (1u64 << (b as u64))) as usize;
        proof {
            assert(v * s + m2 < gv.len() * s) by (nonlinear_arith)
                requires
                    v < gv.len(),
                    m2 < s,
            ;
            assert(base + fl <= tf * (budget - (cur - 1))) by (nonlinear_arith)
                requires
                    fl <= tf,
                    base <= tf * (budget - cur),
            ;
        }
        relax(layers, cur - 1, v * s + m2, base + fl);
    }
    let mut j: usize = 0;
    while j < g.valves[v].adj.len()
        invariant
            gv == g@,
            searchable(gv, budget as int),
            s == n_sets(gv),
            v == k / s,
            m == k % s,
            v < gv.len(),
            m < s,
            m != s - 1,
            fl == key_flow(gv, k as int),
            1 <= cur <= budget,
            base + fl * cur <= tf * budget,
            tf * budget <= u64::MAX,
            old(layers)@.len() == budget + 1,
            forall|r: int| 0 <= r <= budget ==> (#[trigger] old(layers)@[r])@.len() == nk,
            base <= cap(gv, budget as int, cur as int),
            fl <= tf,
            tf == total_flow(gv.valves, gv.len()),
            nk == n_keys(gv),
            opens == (gv.valves[v as int].flow_rate > 0 && !has_bit(m as int, bit_of(gv, v as int))),
            j <= gv.valves[v as int].adj.len(),
            layers@.len() == budget + 1,
            forall|r: int| 0 <= r <= budget ==> (#[trigger] layers@[r])@.len() == nk,
            forall|r: int| cur <= r <= budget ==> #[trigger] layers@[r] == old(layers)@[r],
            capped(gv, budget as int, layers@, cur as int),
            forall|r: int, k2: int|
                0 <= r < cur && 0 <= k2 < nk ==> {
                    let was = old(layers)@[r]@[k2];
                    let now = #[trigger] layers@[r]@[k2];
                    &&& was is Some ==> now is Some && was->0 <= now->0
                    &&& opens && k2 == v * s + with_bit(m as int, bit_of(gv, v as int)) && r == cur
                        - 1 ==> now is Some && base + fl <= now->0
                    &&& (forall|jj: int|
                        0 <= jj < j && #[trigger] edge_move(gv, k as int, cur as int, jj, k2, r)
                            ==> now is Some && base + fl * (cur - r) <= now->0)
                    &&& now != was ==> now is Some && is_step(gv, k as int, cur as int, k2, r)
                        && now->0 == base + fl * (cur - r)
                },
        decreases g.valves[v as int].adj.len() - j,
    {
        let e = g.valves[v].adj[j];
        assert(gv.valves[v as int].adj[j as int] == e);
        let t: usize = if e.time as usize <= cur { e.time as usize } else { cur };
        proof {
            assert(e.next * s + m < gv.len() * s) by (nonlinear_arith)
                requires
                    e.next < gv.len(),
                    m < s,
            ;
            assert(fl * t <= fl * cur) by (nonlinear_arith)
                requires
                    t <= cur,
            ;
            assert(base + fl * t <= tf * (budget - (cur - t))) by (nonlinear_arith)
                requires
                    fl <= tf,
                    base <= tf * (budget - cur),
                    t <= cur,
            ;
            assert(edge_move(gv, k as int, cur as int, j as int, e.next * s + m, cur - t));
        }
        relax(layers, cur - t, e.next * s + m, base + fl * (t as u64));
        proof {
            assert forall|r: int, k2: int|
                0 <= r < cur && 0 <= k2 < nk && #[trigger] edge_move(
                    gv,
                    k as int,
                    cur as int,
                    j as int,
                    k2,
                    r,
                ) implies r == cur - t && k2 == e.next * s + m by {}
        }
        j = j + 1;
    }
}

/// The bit of each valve, and the number of valves that can be opened.
fn flow_bits(g: &Graph) -> (r: (Vec<usize>, usize))
    ensures
        r.0@.len() == g@.len(),
        forall|v: int| 0 <= v < g@.len() ==> r.0@[v] == bit_of(g@, v),
        r.1 == n_bits(g@),
{
    let mut bits: Vec<usize> = Vec::new();
    let mut count: usize = 0;
    let mut v: usize = 0;
    while v < g.valves.len()
        invariant
            v <= g.valves.len(),
            bits@.len() == v,
            count == count_flow(g@.valves, v as int),
            forall|u: int| 0 <= u < v ==> bits@[u] == bit_of(g@, u),
        decreases g.valves.len() - v,
    {
        proof {
            lemma_count_flow_mono(g@.valves, v as int, v as int + 1);
            lemma_count_flow_mono(g@.valves, 0, v as int);
        }
        bits.push(count);
        if g.valves[v].flow_rate > 0 {
            count = count + 1;
        }
        v = v + 1;
    }
    (bits, count)
}

} // verus!

verus! {

/// Runs the layered search for `budget` minutes from the start valve with no
/// valve open, and returns the last layer: for each key `v * n_sets + m` (the
/// valve `v` with open set `m`) the best pressure released by a state that
/// ends there when time runs out, or `None` where no state ends there.
pub fn search(g: &Graph, budget: u32) -> (r: Vec<Option<u64>>)
    requires
        searchable(g@, budget as int),
    ensures
        exists|t: Seq<Seq<Option<u64>>>| #[trigger] history(g@, budget as int, t) && r@ == t[0],
        forall|k: int|
            0 <= k < r@.len() && #[trigger] r@[k] is Some ==> r@[k]->0 <= total_flow(g@.valves, g@.len())
                * budget,
{
    let ghost gv = g@;
    let (bits, nbits) = flow_bits(g);
    proof {
        lemma_u64_shl_pos(nbits as u64);
        assert(n_sets(gv) <= n_keys(gv)) by (nonlinear_arith)
            requires
                n_sets(gv) >= 1,
                gv.len() >= 1,
                n_keys(gv) == gv.len() * n_sets(gv),
        ;
    }
    let s: usize = (1u64 << (nbits as u64)) as usize;
    let nk: usize = g.valves.len() * s;
    let ghost gnk = n_keys(gv);
    let b: usize = budget as usize;
    let mut layers: Vec<Vec<Option<u64>>> = Vec::new();
    while layers.len() < b
        invariant
            layers@.len() <= b,
            forall|r: int| 0 <= r < layers@.len() ==> (#[trigger] layers@[r])@ == Seq::new(
                nk as nat,
                |k: int| None::<u64>,
            ),
        decreases b - layers@.len(),
    {
        let mut row: Vec<Option<u64>> = Vec::new();
        while row.len() < nk
            invariant
                row@.len() <= nk,
                forall|k: int| 0 <= k < row@.len() ==> row@[k] == None::<u64>,
            decreases nk - row@.len(),
        {
            row.push(None);
        }
        assert(row@ =~= Seq::new(nk as nat, |k: int| None::<u64>));
        layers.push(row);
    }
    let mut top: Vec<Option<u64>> = Vec::new();
    while top.len() < nk
        invariant
            top@.len() <= nk,
            forall|k: int| 0 <= k < top@.len() ==> top@[k] == None::<u64>,
        decreases nk - top@.len(),
    {
        top.push(None);
    }
    proof {
        assert(g.start * s < nk) by (nonlinear_arith)
            requires
                g.start < g.valves.len(),
                nk == g.valves.len() * s,
                s >= 1,
        ;
    }
    top.set(g.start * s, Some(0));
    assert(top@ =~= initial(gv));
    layers.push(top);
    proof {
        assert forall|r: int| 0 <= r < b implies #[trigger] covered(gv, table(layers@), b as int, r, b as int, 0) by {
            assert(table(layers@)[r] == layers@[r]@);
        }
        assert(table(layers@)[b as int] == initial(gv));
    }
    let mut cur: usize = b;
    while cur > 0
        invariant
            gv == g@,
            searchable(gv, b as int),
            bits@.len() == gv.len(),
            forall|v: int| 0 <= v < gv.len() ==> bits@[v] == bit_of(gv, v),
            s == n_sets(gv),
            nk == gnk,
            gnk == n_keys(gv),
            cur <= b,
            layers@.len() == b + 1,
            forall|r: int| 0 <= r <= b ==> (#[trigger] layers@[r])@.len() == nk,
            table(layers@)[b as int] == initial(gv),
            forall|r: int| cur <= r < b ==> #[trigger] covered(gv, table(layers@), b as int, r, r, 0),
            forall|r: int| 0 <= r < cur ==> #[trigger] covered(gv, table(layers@), b as int, r, cur as int, 0),
            capped(gv, b as int, layers@, b + 1),
        decreases cur,
    {
        let ghost above = layers@;
        let mut k: usize = 0;
        while k < nk
            invariant
                gv == g@,
                searchable(gv, b as int),
                bits@.len() == gv.len(),
                forall|v: int| 0 <= v < gv.len() ==> bits@[v] == bit_of(gv, v),
                s == n_sets(gv),
                nk == gnk,
                gnk == n_keys(gv),
                1 <= cur <= b,
                k <= nk,
                layers@.len() == b + 1,
                above.len() == b + 1,
                forall|r: int| 0 <= r <= b ==> (#[trigger] layers@[r])@.len() == nk,
                forall|r: int| cur <= r <= b ==> #[trigger] layers@[r] == above[r],
                forall|r: int| 0 <= r < cur ==> #[trigger] covered(gv, table(layers@), b as int, r, cur as int, k as int),
                capped(gv, b as int, layers@, b + 1),
            decreases nk - k,
        {
            let ghost before = layers@;
            match layers[cur][k] {
                Some(base) => {
                    expand(g, &bits, s, b, &mut layers, cur, k, base);
                    proof {
                        assert forall|r: int, kk: int|
                            0 <= r <= b && 0 <= kk < layers@[r]@.len() && #[trigger] layers@[r]@[kk] is Some
                                implies layers@[r]@[kk]->0 <= cap(gv, b as int, r) by {
                            if r >= cur {
                                assert(layers@[r] == before[r]);
                            }
                        }
                    }
                },
                None => {},
            }
            proof {
                assert forall|r: int| 0 <= r < cur implies #[trigger] covered(gv, table(layers@), b as int, r, cur as int, k + 1) by {
                    assert forall|r1: int| cur <= r1 <= b implies #[trigger] table(layers@)[r1] == table(before)[r1] by {
                        assert(layers@[r1] == before[r1]);
                    }
                    assert(table(layers@)[r] == layers@[r]@);
                    assert(table(before)[r] == before[r]@);
                    assert(table(before)[cur as int] == before[cur as int]@);
                    lemma_cover_extend(gv, table(before), table(layers@), b as int, cur as int, k as int, r);
                }
            }
            k = k + 1;
        }
        proof {
            assert forall|r1: int| cur <= r1 <= b implies #[trigger] table(layers@)[r1] == table(above)[r1] by {
                assert(layers@[r1] == above[r1]);
            }
            assert forall|r: int| cur - 1 <= r < b implies #[trigger] covered(gv, table(layers@), b as int, r, r, 0) by {
                if r == cur - 1 {
                    lemma_cover_next_layer(gv, table(layers@), b as int, cur as int, r);
                } else {
                    lemma_cover_frame(gv, table(above), table(layers@), b as int, r, r, 0);
                }
            }
            assert forall|r: int| 0 <= r < cur - 1 implies #[trigger] covered(gv, table(layers@), b as int, r, cur - 1, 0) by {
                lemma_cover_next_layer(gv, table(layers@), b as int, cur as int, r);
            }
        }
        cur = cur - 1;
    }
    proof {
        let t = table(layers@);
        assert forall|r: int| 0 <= r <= b implies (#[trigger] t[r]).len() == n_keys(gv) by {
            assert(t[r] == layers@[r]@);
        }
        assert(history(gv, b as int, t));
        assert(t[0] == layers@[0]@);
        assert forall|k: int| 0 <= k < layers@[0]@.len() && #[trigger] layers@[0]@[k] is Some implies layers@[0]@[k]->0
            <= total_flow(gv.valves, gv.len()) * budget by {
            assert(cap(gv, b as int, 0) == total_flow(gv.valves, gv.len()) * budget);
        }
    }
    let last = layers.swap_remove(0);
    last
}

} // verus!

verus! {

/// The largest value held in `xs`, or `None` when it holds none.
pub open spec fn seq_max(xs: Seq<Option<u64>>) -> Option<u64>
    decreases xs.len(),
{
    if xs.len() == 0 {
        None
    } else {
        let x = xs.last();
        match seq_max(xs.drop_last()) {
            None => x,
            Some(a) => match x {
                None => Some(a),
                Some(b) => Some(if a >= b { a } else { b }),
            },
        }
    }
}

/// What `seq_max` is: a value of `xs` that none exceeds.
pub proof fn lemma_seq_max(xs: Seq<Option<u64>>)
    ensures
        seq_max(xs) is None <==> forall|i: int| 0 <= i < xs.len() ==> #[trigger] xs[i] is None,
        seq_max(xs) is Some ==> exists|i: int| 0 <= i < xs.len() && #[trigger] xs[i] == seq_max(xs),
        forall|i: int|
            0 <= i < xs.len() && #[trigger] xs[i] is Some ==> seq_max(xs) is Some && xs[i]->0 <= seq_max(
                xs,
            )->0,
    decreases xs.len(),
{
    if xs.len() > 0 {
        let ys = xs.drop_last();
        lemma_seq_max(ys);
        assert forall|i: int| 0 <= i < ys.len() implies #[trigger] ys[i] == xs[i] by {}
        if seq_max(xs) is Some {
            if seq_max(xs) == xs.last() {
                assert(xs[xs.len() - 1] == seq_max(xs));
            } else {
                let i = choose|i: int| 0 <= i < ys.len() && #[trigger] ys[i] == seq_max(ys);
                assert(xs[i] == seq_max(xs));
            }
        }
        assert forall|i: int| 0 <= i < xs.len() && #[trigger] xs[i] is Some implies seq_max(xs) is Some
            && xs[i]->0 <= seq_max(xs)->0 by {
            if i < ys.len() {
                assert(ys[i] == xs[i]);
            }
        }
        if seq_max(xs) is None {
            assert forall|i: int| 0 <= i < xs.len() implies #[trigger] xs[i] is None by {
                if i < ys.len() {
                    assert(ys[i] == xs[i]);
                }
            }
        }
    }
}

/// The largest value held in `xs`.
pub fn best(xs: &Vec<Option<u64>>) -> (r: Option<u64>)
    ensures
        r == seq_max(xs@),
{
    let mut r: Option<u64> = None;
    let mut i: usize = 0;
    while i < xs.len()
        invariant
            i <= xs@.len(),
            r == seq_max(xs@.take(i as int)),
        decreases xs@.len() - i,
    {
        assert(xs@.take(i as int + 1).drop_last() =~= xs@.take(i as int));
        r = match (r, xs[i]) {
            (None, x) => x,
            (Some(a), None) => Some(a),
            (Some(a), Some(b)) => Some(if a >= b { a } else { b }),
        };
        i = i + 1;
    }
    assert(xs@.take(xs@.len() as int) =~= xs@);
    r
}

/// The most pressure one agent can release in `budget` minutes, or `None`
/// when every walk from the start runs into a dead end: the best over every
/// sequence of moves from the start.
pub fn max_pressure(g: &Graph, budget: u32) -> (r: Option<u64>)
    requires
        searchable(g@, budget as int),
    ensures
        exists|t: Seq<Seq<Option<u64>>>| #[trigger] history(g@, budget as int, t) && r == seq_max(t[0]),
        match r {
            Some(x) => best_from(g@, g@.start * n_sets(g@), budget as int) == Some(x as int),
            None => best_from(g@, g@.start * n_sets(g@), budget as int) is None,
        },
{
    let last = search(g, budget);
    let r = best(&last);
    proof {
        let t = choose|t: Seq<Seq<Option<u64>>>| #[trigger] history(g@, budget as int, t) && last@ == t[0];
        lemma_search_exhaustive(g@, budget as int, t);
    }
    r
}

} // verus!

verus! {

/// With no time at all nothing moves: the search ends with its initial
/// layer, and the best pressure is the initial one, nothing.
pub proof fn lemma_no_time(g: GraphView, t: Seq<Seq<Option<u64>>>)
    requires
        searchable(g, 0),
        history(g, 0, t),
    ensures
        t[0] == initial(g),
        seq_max(t[0]) == Some(0u64),
{
    let s = n_sets(g);
    lemma_sets_pos(g);
    assert(g.start * s < g.len() * s) by (nonlinear_arith)
        requires
            0 <= g.start < g.len(),
            s >= 1,
    ;
    let xs = initial(g);
    lemma_seq_max(xs);
    assert(xs[g.start * s] == Some(0u64));
}

} // verus!

verus! {

/// Whether every tunnel leads to a valve of the graph and takes at least a
/// minute, and the start is a valve of the graph.
pub fn is_wf(g: &Graph) -> (r: bool)
    ensures
        r == g@.wf(),
{
    let n = g.valves.len();
    if g.start >= n {
        return false;
    }
    let mut v: usize = 0;
    while v < n
        invariant
            n == g@.len(),
            v <= n,
            g@.start < n,
            forall|u: int, j: int|
                0 <= u < v && 0 <= j < g@.valves[u].adj.len() ==> {
                    let e = #[trigger] g@.valves[u].adj[j];
                    &&& e.next < n
                    &&& e.time >= 1
                },
        decreases n - v,
    {
        let adj = &g.valves[v].adj;
        let mut j: usize = 0;
        while j < adj.len()
            invariant
                n == g@.len(),
                v < n,
                adj@ == g@.valves[v as int].adj,
                j <= adj@.len(),
                forall|u: int, jj: int|
                    0 <= u < v && 0 <= jj < g@.valves[u].adj.len() ==> {
                        let e = #[trigger] g@.valves[u].adj[jj];
                        &&& e.next < n
                        &&& e.time >= 1
                    },
                forall|jj: int|
                    0 <= jj < j ==> {
                        let e = #[trigger] g@.valves[v as int].adj[jj];
                        &&& e.next < n
                        &&& e.time >= 1
                    },
            decreases adj@.len() - j,
        {
            let e = adj[j];
            if e.next >= n || e.time < 1 {
                assert(g@.valves[v as int].adj[j as int] == e);
                return false;
            }
            j = j + 1;
        }
        v = v + 1;
    }
    true
}

/// Whether the search can run on `g` for `budget` minutes: the graph is well
/// formed, it has fewer than 63 valves to open, its table of keys can be
/// addressed, and twice the total flow over the budget fits in a `u64`.
pub fn is_searchable(g: &Graph, budget: u32) -> (r: bool)
    ensures
        r == searchable(g@, budget as int),
{
    let ghost gv = g@;
    let ghost tf = total_flow(gv.valves, gv.len());
    if !is_wf(g) {
        return false;
    }
    let (_, nbits) = flow_bits(g);
    if nbits >= 63 {
        return false;
    }
    let s: usize = match usize::try_from(1u64 << (nbits as u64)) {
        Ok(s) => s,
        Err(_) => {
            proof {
                lemma_u64_shl_pos(nbits as u64);
                assert(n_keys(gv) >= n_sets(gv)) by (nonlinear_arith)
                    requires
                        n_keys(gv) == gv.len() * n_sets(gv),
                        gv.len() >= 1,
                        n_sets(gv) >= 1,
                ;
            }
            return false;
        },
    };
    if g.valves.len().checked_mul(s).is_none() {
        return false;
    }
    if budget == 0 {
        assert(2 * tf * budget == 0) by (nonlinear_arith)
            requires
                budget == 0,
        ;
        return true;
    }
    let mut sum: u64 = 0;
    let mut v: usize = 0;
    while v < g.valves.len()
        invariant
            gv == g@,
            v <= gv.len(),
            sum == total_flow(gv.valves, v as int),
            budget >= 1,
            tf == total_flow(gv.valves, gv.len()),
        decreases gv.len() - v,
    {
        match sum.checked_add(g.valves[v].flow_rate as u64) {
            Some(x) => {
                sum = x;
            },
            None => {
                proof {
                    lemma_total_flow_mono(gv.valves, v + 1, gv.len());
                    assert(2 * tf * budget > u64::MAX) by (nonlinear_arith)
                        requires
                            tf > u64::MAX,
                            budget >= 1,
                    ;
                }
                return false;
            },
        }
        v = v + 1;
    }
    assert(sum == tf);
    match sum.checked_mul(2) {
        None => {
            assert(2 * tf * budget >= 2 * tf) by (nonlinear_arith)
                requires
                    budget >= 1,
                    tf >= 0,
            ;
            false
        },
        Some(twice) => {
            assert(2 * tf * budget == twice * budget) by (nonlinear_arith)
                requires
                    twice == 2 * tf,
            ;
            match twice.checked_mul(budget as u64) {
                None => false,
                Some(_) => true,
            }
        },
    }
}

} // verus!
