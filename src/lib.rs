//! Carrying ants across a graph: disjoint shortest paths from a start node to
//! an end node, a schedule that sends the ants along them, and the movement
//! of every ant, tick by tick.
use vstd::prelude::*;

pub mod arrival;
pub mod bit_array;
pub mod explorer;
pub mod graph;
pub mod link;
pub mod name;
pub mod node;
pub mod parse;
pub mod path;
pub mod render;
pub mod search;
pub mod shortest;
pub mod simulate;
pub mod solution;
pub mod text;
pub mod work_queue;

pub use bit_array::BitArray;
pub use explorer::{Backtrace, Branch, BranchId, Explorer};
pub use graph::{Graph, GraphModel};
pub use link::LinkByName;
pub use name::{is_invalid_name_char, Name};
pub use node::{Node, NodeId, Position, PositionParseError};
pub use parse::{LinkingError, ParseError};
pub use path::Path;
pub use simulate::Move;
pub use solution::{Solution, SolutionStep};

verus! {

} // verus!
