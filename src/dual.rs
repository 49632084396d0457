use vstd::prelude::*;
use crate::graph::Graph;
use crate::graph::GraphView;
use crate::search::{
    best, history, lemma_seq_max, n_keys, n_sets, search, searchable, seq_max, total_flow,
};

verus! {

/// The pressures of the last layer `layer` whose open set is `m`, one per
/// valve.
pub open spec fn column(g: GraphView, layer: Seq<Option<u64>>, m: int) -> Seq<Option<u64>> {
    Seq::new(g.len() as nat, |v: int| layer[v * n_sets(g) + m])
}

/// The best pressure an agent ends with after opening exactly the set `m`,
/// wherever it stands. An agent that opens nothing releases nothing, and can
/// always do so by waiting.
pub open spec fn set_best(g: GraphView, layer: Seq<Option<u64>>, m: int) -> Option<u64> {
    if m == 0 {
        Some(0)
    } else {
        seq_max(column(g, layer, m))
    }
}

/// The open sets `m1` and `m2` share no valve.
pub open spec fn disjoint(m1: int, m2: int) -> bool {
    (m1 as u64) & (m2 as u64) == 0
}

/// Both sets were reached, share no valve, and release `p` together.
pub open spec fn pair_gives(sb: Seq<Option<u64>>, m1: int, m2: int, p: int) -> bool {
    &&& 0 <= m1 < sb.len()
    &&& 0 <= m2 < sb.len()
    &&& disjoint(m1, m2)
    &&& sb[m1] is Some
    &&& sb[m2] is Some
    &&& p == sb[m1]->0 + sb[m2]->0
}

/// `r` is the largest pressure two agents release together by opening
/// disjoint sets, where `sb` gives the best pressure of each set.
pub open spec fn is_pair_max(sb: Seq<Option<u64>>, r: int) -> bool {
    &&& forall|m1: int, m2: int, p: int| #[trigger] pair_gives(sb, m1, m2, p) ==> p <= r
    &&& exists|m1: int, m2: int| #[trigger] pair_gives(sb, m1, m2, r)
}

/// The best pressure of each open set, from the last layer of a search.
pub open spec fn set_bests(g: GraphView, layer: Seq<Option<u64>>) -> Seq<Option<u64>> {
    Seq::new(n_sets(g) as nat, |m: int| set_best(g, layer, m))
}

/// The best pressure of each open set in `layer`, the last layer of a search.
fn best_by_set(g: &Graph, s: usize, layer: &Vec<Option<u64>>, cap: Ghost<int>) -> (r: Vec<Option<u64>>)
    requires
        s == n_sets(g@),
        s >= 1,
        layer@.len() == n_keys(g@),
        n_keys(g@) == g@.len() * s,
        n_keys(g@) <= usize::MAX,
        forall|k: int| 0 <= k < layer@.len() && #[trigger] layer@[k] is Some ==> layer@[k]->0 <= cap@,
        cap@ >= 0,
    ensures
        r@ == set_bests(g@, layer@),
        forall|m: int| 0 <= m < r@.len() && #[trigger] r@[m] is Some ==> r@[m]->0 <= cap@,
{
    let mut r: Vec<Option<u64>> = Vec::new();
    let mut m: usize = 0;
    while m < s
        invariant
            m <= s,
            s == n_sets(g@),
            layer@.len() == n_keys(g@),
            n_keys(g@) == g@.len() * s,
            n_keys(g@) <= usize::MAX,
            forall|k: int| 0 <= k < layer@.len() && #[trigger] layer@[k] is Some ==> layer@[k]->0 <= cap@,
            cap@ >= 0,
            r@.len() == m,
            forall|i: int| 0 <= i < m ==> #[trigger] r@[i] == set_best(g@, layer@, i),
            forall|i: int| 0 <= i < m && #[trigger] r@[i] is Some ==> r@[i]->0 <= cap@,
        decreases s - m,
    {
        if m == 0 {
            r.push(Some(0));
        } else {
            let mut col: Vec<Option<u64>> = Vec::new();
            let mut v: usize = 0;
            while v < g.valves.len()
                invariant
                    v <= g@.len(),
                    m < s,
                    s == n_sets(g@),
                    layer@.len() == n_keys(g@),
                    n_keys(g@) == g@.len() * s,
                    n_keys(g@) <= usize::MAX,
                    col@.len() == v,
                    forall|u: int| 0 <= u < v ==> #[trigger] col@[u] == layer@[u * s + m],
                decreases g@.len() - v,
            {
                proof {
                    assert(v * s + m < g@.len() * s) by (nonlinear_arith)
                        requires
                            v < g@.len(),
                            m < s,
                    ;
                }
                col.push(layer[v * s + m]);
                v = v + 1;
            }
            assert(col@ =~= column(g@, layer@, m as int));
            let x = best(&col);
            proof {
                lemma_seq_max(col@);
                if x is Some {
                    let u = choose|u: int| 0 <= u < col@.len() && #[trigger] col@[u] == x;
                    assert(u * s + m < g@.len() * s) by (nonlinear_arith)
                        requires
                            u < g@.len(),
                            m < s,
                            0 <= u,
                    ;
                    assert(layer@[u * s + m] is Some);
                }
            }
            r.push(x);
        }
        m = m + 1;
    }
    assert(r@ =~= set_bests(g@, layer@));
    r
}

/// The best pressure two agents release together, opening disjoint sets,
/// where `sb[m]` is the best pressure of the set `m`.
fn pair_best(sb: &Vec<Option<u64>>, cap: Ghost<int>) -> (r: u64)
    requires
        sb@.len() >= 1,
        sb@[0] == Some(0u64),
        forall|m: int| 0 <= m < sb@.len() && #[trigger] sb@[m] is Some ==> sb@[m]->0 <= cap@,
        2 * cap@ <= u64::MAX,
    ensures
        is_pair_max(sb@, r as int),
{
    let n = sb.len();
    let mut r: u64 = 0;
    let mut i: usize = 0;
    assert(disjoint(0, 0)) by (bit_vector);
    assert(pair_gives(sb@, 0, 0, 0));
    while i < n
        invariant
            n == sb@.len(),
            i <= n,
            forall|m: int| 0 <= m < sb@.len() && #[trigger] sb@[m] is Some ==> sb@[m]->0 <= cap@,
            2 * cap@ <= u64::MAX,
            forall|m1: int, m2: int, p: int| #[trigger] pair_gives(sb@, m1, m2, p) && m1 < i ==> p <= r,
            exists|m1: int, m2: int| #[trigger] pair_gives(sb@, m1, m2, r as int),
        decreases n - i,
    {
        let mut j: usize = 0;
        while j < n
            invariant
                n == sb@.len(),
                i < n,
                j <= n,
                forall|m: int| 0 <= m < sb@.len() && #[trigger] sb@[m] is Some ==> sb@[m]->0 <= cap@,
                2 * cap@ <= u64::MAX,
                forall|m1: int, m2: int, p: int|
                    #[trigger] pair_gives(sb@, m1, m2, p) && (m1 < i || (m1 == i && m2 < j)) ==> p <= r,
                exists|m1: int, m2: int| #[trigger] pair_gives(sb@, m1, m2, r as int),
            decreases n - j,
        {
            if let (Some(a), Some(b)) = (sb[i], sb[j]) {
                if (i as u64) & (j as u64) == 0 && a + b > r {
                    r = a + b;
                    assert(pair_gives(sb@, i as int, j as int, r as int));
                }
            }
            j = j + 1;
        }
        i = i + 1;
    }
    r
}

/// The most pressure two agents release together in `budget` minutes each,
/// both starting at the start valve and opening disjoint sets of valves: the
/// best pair of sets that one agent's search ends with.
pub fn max_pressure_pair(g: &Graph, budget: u32) -> (r: u64)
    requires
        searchable(g@, budget as int),
    ensures
        exists|t: Seq<Seq<Option<u64>>>|
            #[trigger] history(g@, budget as int, t) && is_pair_max(set_bests(g@, t[0]), r as int),
{
    let ghost gv = g@;
    let last = search(g, budget);
    let ghost cap = total_flow(gv.valves, gv.len()) * budget;
    let ghost t = choose|t: Seq<Seq<Option<u64>>>| #[trigger] history(gv, budget as int, t) && last@ == t[0];
    proof {
        assert(last@.len() == n_keys(gv));
        crate::search::lemma_sets_pos(gv);
        assert(cap >= 0 && 2 * cap <= u64::MAX) by (nonlinear_arith)
            requires
                cap == total_flow(gv.valves, gv.len()) * budget,
                2 * total_flow(gv.valves, gv.len()) * budget <= u64::MAX,
        ;
    }
    let s: usize = last.len() / g.valves.len();
    proof {
        assert(s == n_sets(gv)) by (nonlinear_arith)
            requires
                last@.len() == gv.len() * n_sets(gv),
                gv.len() >= 1,
                s == (last@.len() as int) / gv.len(),
        ;
    }
    let sb = best_by_set(g, s, &last, Ghost(cap));
    pair_best(&sb, Ghost(cap))
}

} // verus!

verus! {

/// With two valves to open (open sets `0`, `1`, `2` and `3`), when the two
/// agents opening one valve each release more than the best single agent
/// opening both, the composition answers with that split.
pub proof fn lemma_two_valves_split(sb: Seq<Option<u64>>, r: int)
    requires
        sb.len() == 4,
        sb[0] == Some(0u64),
        sb[1] is Some,
        sb[2] is Some,
        sb[3] is Some ==> sb[3]->0 < sb[1]->0 + sb[2]->0,
        is_pair_max(sb, r),
    ensures
        r == sb[1]->0 + sb[2]->0,
{
    assert(disjoint(1, 2)) by (bit_vector);
    assert(pair_gives(sb, 1, 2, sb[1]->0 + sb[2]->0));
    let (m1, m2) = choose|m1: int, m2: int| #[trigger] pair_gives(sb, m1, m2, r);
    assert(!disjoint(1, 1) && !disjoint(2, 2) && !disjoint(3, 3)) by (bit_vector);
    assert(!disjoint(1, 3) && !disjoint(3, 1) && !disjoint(2, 3) && !disjoint(3, 2)) by (bit_vector);
}

} // verus!
