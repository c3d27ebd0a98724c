use vstd::prelude::*;

use crate::node::{Node, NodeId, Position};

verus! {

/// What the search sees of a graph: the links of each node, the two
/// terminals, and how many ants cross.
pub ghost struct GraphModel {
    pub links: Seq<Seq<NodeId>>,
    pub start: NodeId,
    pub end: NodeId,
    pub ant_count: nat,
}

impl GraphModel {
    pub open spec fn node_count(&self) -> nat {
        self.links.len()
    }

    pub open spec fn has_node(&self, v: NodeId) -> bool {
        v.0 < self.links.len()
    }

    /// Whether `v` is among the links of `u`.
    pub open spec fn linked(&self, u: NodeId, v: NodeId) -> bool {
        self.has_node(u) && self.links[u.0 as int].contains(v)
    }

    /// Both terminals and every link end are nodes of the graph.
    pub open spec fn wf(&self) -> bool {
        &&& self.has_node(self.start)
        &&& self.has_node(self.end)
        &&& forall|u: int, k: int|
            0 <= u < self.links.len() && 0 <= k < self.links[u].len() ==> self.has_node(
                #[trigger] self.links[u][k],
            )
    }

    /// The number of links of `v`.
    pub open spec fn degree(&self, v: NodeId) -> nat {
        self.links[v.0 as int].len()
    }

    /// A bound on how many node-disjoint paths can join the terminals: the
    /// smaller of their degrees.
    pub open spec fn majorant(&self) -> nat {
        if self.degree(self.start) <= self.degree(self.end) {
            self.degree(self.start)
        } else {
            self.degree(self.end)
        }
    }
}

/// An undirected graph of named nodes, with a start node, an end node and a
/// number of ants to carry from one to the other.
#[derive(Debug)]
pub struct Graph {
    nodes: Vec<Node>,
    start: NodeId,
    end: NodeId,
    ant_count: usize,
}

impl View for Graph {
    type V = GraphModel;

    closed spec fn view(&self) -> GraphModel {
        GraphModel {
            links: Seq::new(self.nodes@.len(), |i: int| self.nodes@[i].links@),
            start: self.start,
            end: self.end,
            ant_count: self.ant_count as nat,
        }
    }
}

impl Graph {
    /// The names of the nodes, in index order.
    pub closed spec fn names(&self) -> Seq<Seq<u8>> {
        Seq::new(self.nodes@.len(), |i: int| self.nodes@[i].name@)
    }

    /// The positions of the nodes, in index order.
    pub closed spec fn positions(&self) -> Seq<Position> {
        Seq::new(self.nodes@.len(), |i: int| self.nodes@[i].pos)
    }

    /// A graph whose terminals and links all name nodes of it.
    pub open spec fn wf(&self) -> bool {
        self@.wf()
    }

    /// The graph made of `nodes`, with the given terminals and ant count;
    /// `None` when a terminal or a link names no node of it.
    pub fn new(nodes: Vec<Node>, start: NodeId, end: NodeId, ant_count: usize) -> (r: Option<
        Graph,
    >)
        ensures
            r matches Some(g) ==> g.wf() && g@.links == Seq::new(
                nodes@.len(),
                |i: int| nodes@[i].links@,
            ) && g@.start == start && g@.end == end && g@.ant_count == ant_count && g.names()
                == Seq::new(nodes@.len(), |i: int| nodes@[i].name@) && g.positions() == Seq::new(
                nodes@.len(),
                |i: int| nodes@[i].pos,
            ),
            r is None <==> !(GraphModel {
                links: Seq::new(nodes@.len(), |i: int| nodes@[i].links@),
                start,
                end,
                ant_count: ant_count as nat,
            }).wf(),
    {
        let g = Graph { nodes, start, end, ant_count };
        if g.check() {
            Some(g)
        } else {
            None
        }
    }

    fn check(&self) -> (r: bool)
        ensures
            r == self.wf(),
    {
        let n = self.nodes.len();
        if self.start.0 >= n || self.end.0 >= n {
            return false;
        }
        let mut u: usize = 0;
        while u < n
            invariant
                n == self.nodes@.len(),
                u <= n,
                forall|a: int, k: int|
                    0 <= a < u && 0 <= k < self@.links[a].len() ==> self@.has_node(
                        #[trigger] self@.links[a][k],
                    ),
            decreases n - u,
        {
            let links = &self.nodes[u].links;
            let mut k: usize = 0;
            while k < links.len()
                invariant
                    n == self.nodes@.len(),
                    u < n,
                    links@ == self@.links[u as int],
                    k <= links@.len(),
                    forall|a: int, j: int|
                        0 <= a < u && 0 <= j < self@.links[a].len() ==> self@.has_node(
                            #[trigger] self@.links[a][j],
                        ),
                    forall|j: int| 0 <= j < k ==> self@.has_node(#[trigger] links@[j]),
                decreases links@.len() - k,
            {
                if links[k].0 >= n {
                    return false;
                }
                k = k + 1;
            }
            u = u + 1;
        }
        true
    }

    /// The nodes, in index order.
    pub fn nodes(&self) -> (r: &[Node])
        ensures
            r@.len() == self@.node_count(),
            forall|i: int| 0 <= i < r@.len() ==> #[trigger] r@[i].links@ == self@.links[i],
    {
        self.nodes.as_slice()
    }

    pub fn start(&self) -> (r: NodeId)
        ensures
            r == self@.start,
    {
        self.start
    }

    pub fn end(&self) -> (r: NodeId)
        ensures
            r == self@.end,
    {
        self.end
    }

    pub fn ant_count(&self) -> (r: usize)
        ensures
            r == self@.ant_count,
    {
        self.ant_count
    }

    /// The links of node `v`.
    pub fn links(&self, v: NodeId) -> (r: &Vec<NodeId>)
        requires
            self@.has_node(v),
        ensures
            r@ == self@.links[v.0 as int],
    {
        &self.nodes[v.0].links
    }

    /// The smaller of the start node's and the end node's degrees: no more
    /// node-disjoint paths than that can join them.
    pub fn simple_throughput_majorant(&self) -> (r: usize)
        requires
            self.wf(),
        ensures
            r == self@.majorant(),
    {
        let start_link_count = self.nodes[self.start.0].links.len();
        let end_link_count = self.nodes[self.end.0].links.len();
        if start_link_count <= end_link_count {
            start_link_count
        } else {
            end_link_count
        }
    }
}

} // verus!
