use vstd::prelude::*;

use crate::graph::GraphModel;
use crate::node::NodeId;

verus! {

/// A path through a graph: the nodes after the start node, in order, up to and
/// including the end node.
#[derive(Clone, Debug)]
pub struct Path(Vec<NodeId>);

impl View for Path {
    type V = Seq<NodeId>;

    closed spec fn view(&self) -> Seq<NodeId> {
        self.0@
    }
}

/// `p` leads from the start of `g` to its end along links of `g`, the start
/// excluded and the end included, and goes through no node twice.
///
/// When the start is the end, the only path is the empty one.
pub open spec fn is_path(g: GraphModel, p: Seq<NodeId>) -> bool {
    if p.len() == 0 {
        g.start == g.end
    } else {
        is_route(g, p)
    }
}

/// `p` is a non-empty path of `g` (see [`is_path`]).
pub open spec fn is_route(g: GraphModel, p: Seq<NodeId>) -> bool {
    &&& p.len() >= 1
    &&& p.last() == g.end
    &&& g.linked(g.start, p[0])
    &&& forall|i: int| 0 <= i < p.len() - 1 ==> g.linked(#[trigger] p[i], p[i + 1])
    &&& forall|i: int| 0 <= i < p.len() ==> #[trigger] p[i] != g.start
    &&& p.no_duplicates()
}

/// The nodes of a path strictly between its start and its end.
pub open spec fn inner(p: Seq<NodeId>) -> Seq<NodeId> {
    if p.len() == 0 {
        p
    } else {
        p.drop_last()
    }
}

/// Two paths share no node but their terminals.
pub open spec fn disjoint(p: Seq<NodeId>, q: Seq<NodeId>) -> bool {
    forall|i: int, j: int|
        0 <= i < inner(p).len() && 0 <= j < inner(q).len() ==> #[trigger] inner(p)[i] != #[trigger] inner(q)[j]
}

/// Each of `ps` is a path of `g`, and no two of them share a node but their
/// terminals.
pub open spec fn disjoint_paths(g: GraphModel, ps: Seq<Seq<NodeId>>) -> bool {
    &&& forall|i: int| 0 <= i < ps.len() ==> is_path(g, #[trigger] ps[i])
    &&& forall|i: int, j: int|
        0 <= i < ps.len() && 0 <= j < ps.len() && i != j ==> disjoint(
            #[trigger] ps[i],
            #[trigger] ps[j],
        )
}

/// The views of some paths.
pub open spec fn views(ps: Seq<Path>) -> Seq<Seq<NodeId>> {
    Seq::new(ps.len(), |i: int| ps[i]@)
}

impl Path {
    pub fn from_vec(nodes: Vec<NodeId>) -> (r: Path)
        ensures
            r@ == nodes@,
    {
        Path(nodes)
    }

    /// How many moves an ant makes along the path: its number of nodes.
    pub fn len(&self) -> (r: usize)
        ensures
            r == self@.len(),
    {
        self.0.len()
    }

    pub fn nodes(&self) -> (r: &[NodeId])
        ensures
            r@ == self@,
    {
        self.0.as_slice()
    }

    pub fn node(&self, i: usize) -> (r: NodeId)
        requires
            i < self@.len(),
        ensures
            r == self@[i as int],
    {
        self.0[i]
    }

    /// A copy of the path.
    pub fn duplicate(&self) -> (r: Path)
        ensures
            r@ == self@,
    {
        Path(self.0.clone())
    }
}

} // verus!
