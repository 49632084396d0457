use vstd::prelude::*;
use indexmap::IndexMap;
use crate::graph::{Edge, Graph, Valve};
use crate::input::{scans_view, Scan, ScanView};
use crate::labels::{label_order, labels_index_of, labels_insert, labels_new};

verus! {

/// Why parsed lines do not make a graph.
#[derive(Debug, Clone, Copy, PartialEq, Eq, Structural)]
pub enum GraphError {
    /// The line describes a valve already described on an earlier line.
    DuplicateValve { line: usize },
    /// A tunnel of the line leads to a valve that no line describes.
    UnknownValve { line: usize },
    /// No line describes the start valve.
    UnknownStart,
}

/// The labels of the lines, in order.
pub open spec fn labels_of(ls: Seq<ScanView>) -> Seq<Seq<char>> {
    ls.map_values(|l: ScanView| l.name)
}

/// Line `i` repeats the label of an earlier line.
pub open spec fn repeats_at(ls: Seq<ScanView>, i: int) -> bool {
    labels_of(ls).subrange(0, i).contains(ls[i].name)
}

/// Every tunnel of line `i` leads to a labelled valve.
pub open spec fn tunnels_known(ls: Seq<ScanView>, i: int) -> bool {
    forall|j: int| 0 <= j < ls[i].tunnels.len() ==> labels_of(ls).contains(#[trigger] ls[i].tunnels[j])
}

/// The graph `g` is the one the lines describe: valve `i` is line `i`, and
/// each tunnel is an edge of one minute to the valve of that label.
pub open spec fn describes(ls: Seq<ScanView>, start: Seq<char>, g: crate::graph::GraphView) -> bool {
    &&& g.len() == ls.len()
    &&& 0 <= g.start < g.len()
    &&& labels_of(ls)[g.start] == start
    &&& forall|i: int|
        0 <= i < ls.len() ==> {
            &&& (#[trigger] g.valves[i]).name == ls[i].name
            &&& g.valves[i].flow_rate == ls[i].flow_rate
            &&& g.valves[i].adj.len() == ls[i].tunnels.len()
            &&& forall|j: int|
                0 <= j < ls[i].tunnels.len() ==> {
                    let e = #[trigger] g.valves[i].adj[j];
                    &&& e.time == 1
                    &&& 0 <= e.next < ls.len()
                    &&& labels_of(ls)[e.next as int] == ls[i].tunnels[j]
                }
        }
}

/// Builds the graph that the lines describe, starting at the valve labelled
/// `start`. Each line must have its own label, every tunnel must lead to a
/// labelled valve, and the start must be labelled; the first failure of these,
/// in that order, is the error.
pub fn build_graph(ls: &Vec<Scan>, start: &str) -> (r: Result<Graph, GraphError>)
    ensures
        match r {
            Err(GraphError::DuplicateValve { line }) => line < ls@.len() && repeats_at(
                scans_view(ls@),
                line as int,
            ) && forall|i: int| 0 <= i < line ==> !#[trigger] repeats_at(scans_view(ls@), i),
            Err(GraphError::UnknownValve { line }) => line < ls@.len() && (forall|i: int|
                0 <= i < ls@.len() ==> !#[trigger] repeats_at(scans_view(ls@), i)) && !tunnels_known(
                scans_view(ls@),
                line as int,
            ) && forall|i: int| 0 <= i < line ==> #[trigger] tunnels_known(scans_view(ls@), i),
            Err(GraphError::UnknownStart) => (forall|i: int|
                0 <= i < ls@.len() ==> !#[trigger] repeats_at(scans_view(ls@), i)) && (forall|i: int|
                0 <= i < ls@.len() ==> #[trigger] tunnels_known(scans_view(ls@), i)) && !labels_of(
                scans_view(ls@),
            ).contains(start@),
            Ok(g) => (forall|i: int| 0 <= i < ls@.len() ==> !#[trigger] repeats_at(scans_view(ls@), i))
                && (forall|i: int| 0 <= i < ls@.len() ==> #[trigger] tunnels_known(scans_view(ls@), i))
                && describes(scans_view(ls@), start@, g@) && g@.wf(),
        },
{
    let ghost lv = scans_view(ls@);
    let ghost names = labels_of(lv);
    let mut m: IndexMap<String, ()> = labels_new();
    let mut i: usize = 0;
    while i < ls.len()
        invariant
            lv == scans_view(ls@),
            names == labels_of(lv),
            i <= ls@.len(),
            label_order(m) == names.subrange(0, i as int),
            forall|k: int| 0 <= k < i ==> !#[trigger] repeats_at(lv, k),
        decreases ls@.len() - i,
    {
        let (_, seen) = labels_insert(&mut m, ls[i].name.clone());
        if seen {
            return Err(GraphError::DuplicateValve { line: i });
        }
        assert(names.subrange(0, i + 1) =~= names.subrange(0, i as int).push(lv[i as int].name));
        i = i + 1;
    }
    assert(names.subrange(0, ls@.len() as int) =~= names);
    let mut valves: Vec<Valve> = Vec::new();
    let mut i: usize = 0;
    while i < ls.len()
        invariant
            lv == scans_view(ls@),
            names == labels_of(lv),
            label_order(m) == names,
            forall|k: int| 0 <= k < ls@.len() ==> !#[trigger] repeats_at(lv, k),
            i <= ls@.len(),
            valves@.len() == i,
            forall|k: int| 0 <= k < i ==> #[trigger] tunnels_known(lv, k),
            forall|k: int|
                0 <= k < i ==> {
                    &&& (#[trigger] valves@[k])@.name == lv[k].name
                    &&& valves@[k]@.flow_rate == lv[k].flow_rate
                    &&& valves@[k]@.adj.len() == lv[k].tunnels.len()
                    &&& forall|j: int|
                        0 <= j < lv[k].tunnels.len() ==> {
                            let e = #[trigger] valves@[k]@.adj[j];
                            &&& e.time == 1
                            &&& 0 <= e.next < ls@.len()
                            &&& names[e.next as int] == lv[k].tunnels[j]
                        }
                },
        decreases ls@.len() - i,
    {
        let line = &ls[i];
        let mut adj: Vec<Edge> = Vec::new();
        let mut j: usize = 0;
        while j < line.tunnels.len()
            invariant
                lv == scans_view(ls@),
                names == labels_of(lv),
                label_order(m) == names,
                i < ls@.len(),
                *line == ls@[i as int],
                forall|k: int| 0 <= k < ls@.len() ==> !repeats_at(lv, k),
                forall|k: int| 0 <= k < i ==> tunnels_known(lv, k),
                j <= line.tunnels@.len(),
                adj@.len() == j,
                forall|jj: int| 0 <= jj < j ==> names.contains(#[trigger] lv[i as int].tunnels[jj]),
                forall|jj: int|
                    0 <= jj < j ==> {
                        let e = #[trigger] adj@[jj];
                        &&& e.time == 1
                        &&& 0 <= e.next < ls@.len()
                        &&& names[e.next as int] == lv[i as int].tunnels[jj]
                    },
            decreases line.tunnels@.len() - j,
        {
            match labels_index_of(&m, line.tunnels[j].as_str()) {
                None => {
                    assert(lv[i as int].tunnels[j as int] == line.tunnels@[j as int]@);
                    assert(!tunnels_known(lv, i as int));
                    return Err(GraphError::UnknownValve { line: i });
                },
                Some(k) => {
                    adj.push(Edge { time: 1, next: k });
                },
            }
            j = j + 1;
        }
        valves.push(Valve { name: line.name.clone(), flow_rate: line.flow_rate, adj });
        i = i + 1;
    }
    match labels_index_of(&m, start) {
        None => Err(GraphError::UnknownStart),
        Some(s) => {
            let g = Graph { valves, start: s };
            assert forall|v: int, j: int| 0 <= v < g@.len() && 0 <= j < g@.valves[v].adj.len() implies {
                let e = #[trigger] g@.valves[v].adj[j];
                &&& e.next < g@.len()
                &&& e.time >= 1
            } by {
                assert(g@.valves[v] == valves@[v]@);
            }
            assert forall|i: int| 0 <= i < ls@.len() implies #[trigger] g@.valves[i] == valves@[i]@ by {}
            Ok(g)
        },
    }
}

} // verus!
