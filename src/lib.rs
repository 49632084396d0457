//! Puzzle solvers whose core is the valve pressure search: a graph of valves
//! with flow rates, its compaction, a layered search over opened valve sets,
//! and the composition of two independent agents.

pub mod assemble;
pub mod compact;
pub mod distance;
pub mod dual;
pub mod exhaustive;
pub mod graph;
pub mod heightmap;
pub mod input;
pub mod labels;
pub mod monotone;
pub mod search;

pub use assemble::{build_graph, GraphError};
pub use compact::compact;
pub use dual::max_pressure_pair;
pub use graph::{Edge, Graph, GraphView, Valve, ValveView};
pub use heightmap::Height;
pub use input::{parse, ParseError, Scan, ScanView};
pub use search::{best, is_searchable, is_wf, max_pressure, search};
