use vstd::prelude::*;

verus! {

/// A tunnel out of a valve: the valve it leads to, by index, and the minutes
/// it takes to walk.
#[derive(Clone, Copy, Debug, PartialEq, Eq, Structural)]
pub struct Edge {
    pub time: u32,
    pub next: usize,
}

/// A valve: its label, the pressure it releases per minute once open, and the
/// tunnels leaving it.
#[derive(Debug)]
pub struct Valve {
    pub name: String,
    pub flow_rate: u32,
    pub adj: Vec<Edge>,
}

/// The mathematical value of a valve.
pub struct ValveView {
    pub name: Seq<char>,
    pub flow_rate: u32,
    pub adj: Seq<Edge>,
}

impl View for Valve {
    type V = ValveView;

    open spec fn view(&self) -> ValveView {
        ValveView { name: self.name@, flow_rate: self.flow_rate, adj: self.adj@ }
    }
}

/// A graph of valves, with the valve the search starts at.
#[derive(Debug)]
pub struct Graph {
    pub valves: Vec<Valve>,
    pub start: usize,
}

/// The mathematical value of a graph.
pub struct GraphView {
    pub valves: Seq<ValveView>,
    pub start: int,
}

impl View for Graph {
    type V = GraphView;

    open spec fn view(&self) -> GraphView {
        GraphView { valves: self.valves@.map_values(|v: Valve| v@), start: self.start as int }
    }
}

impl GraphView {
    pub open spec fn len(self) -> int {
        self.valves.len() as int
    }

    /// Every tunnel leads to a valve of the graph and takes at least a minute,
    /// and the start is a valve of the graph.
    pub open spec fn wf(self) -> bool {
        &&& 0 <= self.start < self.len()
        &&& forall|v: int, j: int|
            0 <= v < self.len() && 0 <= j < self.valves[v].adj.len() ==> {
                let e = #[trigger] self.valves[v].adj[j];
                &&& e.next < self.len()
                &&& e.time >= 1
            }
    }
}

} // verus!
