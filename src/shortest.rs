use vstd::prelude::*;

use std::collections::VecDeque;

use crate::graph::{Graph, GraphModel};
use crate::node::NodeId;
use crate::path::{is_path, Path};

verus! {

/// How many nodes the search has not reached yet.
pub open spec fn unseen(parent: Seq<Option<usize>>) -> nat
    decreases parent.len(),
{
    if parent.len() == 0 {
        0
    } else {
        unseen(parent.drop_last()) + if parent.last() is None {
            1nat
        } else {
            0nat
        }
    }
}

proof fn lemma_unseen_update(parent: Seq<Option<usize>>, v: int, x: usize)
    requires
        0 <= v < parent.len(),
        parent[v] is None,
    ensures
        unseen(parent.update(v, Some(x))) + 1 == unseen(parent),
    decreases parent.len(),
{
    let u = parent.update(v, Some(x));
    if v == parent.len() - 1 {
        assert(u.drop_last() =~= parent.drop_last());
    } else {
        assert(u.drop_last() =~= parent.drop_last().update(v, Some(x)));
        lemma_unseen_update(parent.drop_last(), v, x);
    }
}

proof fn lemma_contains_push(q: Seq<usize>, x: usize)
    ensures
        forall|y: usize| #[trigger] q.push(x).contains(y) <==> (q.contains(y) || y == x),
{
    assert forall|y: usize| #[trigger] q.push(x).contains(y) <==> (q.contains(y) || y == x) by {
        if q.contains(y) {
            let k = choose|k: int| 0 <= k < q.len() && q[k] == y;
            assert(q.push(x)[k] == y);
        }
        if y == x {
            assert(q.push(x)[q.len() as int] == y);
        }
        if q.push(x).contains(y) {
            let k = choose|k: int| 0 <= k < q.len() + 1 && q.push(x)[k] == y;
            if k < q.len() {
                assert(q[k] == y);
            }
        }
    }
}

proof fn lemma_contains_rest(q: Seq<usize>)
    requires
        q.len() > 0,
    ensures
        forall|y: usize|
            #[trigger] q.subrange(1, q.len() as int).contains(y) <==> (q.contains(y) && (y != q[0]
                || q.subrange(1, q.len() as int).contains(y))),
        forall|y: usize| y != q[0] ==> (#[trigger] q.subrange(1, q.len() as int).contains(y) <==> q.contains(y)),
{
    let r = q.subrange(1, q.len() as int);
    assert forall|y: usize| y != q[0] implies (#[trigger] r.contains(y) <==> q.contains(y)) by {
        if r.contains(y) {
            let k = choose|k: int| 0 <= k < r.len() && r[k] == y;
            assert(q[k + 1] == y);
        }
        if q.contains(y) {
            let k = choose|k: int| 0 <= k < q.len() && q[k] == y;
            assert(k != 0);
            assert(r[k - 1] == y);
        }
    }
    assert forall|y: usize| #[trigger] r.contains(y) implies q.contains(y) by {
        let k = choose|k: int| 0 <= k < r.len() && r[k] == y;
        assert(q[k + 1] == y);
    }
}

/// What the search keeps true: the start is reached; every reached node but
/// the start was reached from a node one step closer to the start, along a
/// link.
pub open spec fn tree_ok(g: GraphModel, parent: Seq<Option<usize>>, dist: Seq<nat>) -> bool {
    &&& parent.len() == g.node_count()
    &&& dist.len() == g.node_count()
    &&& parent[g.start.0 as int] == Some(g.start.0)
    &&& dist[g.start.0 as int] == 0
    &&& forall|v: int|
        0 <= v < parent.len() && v != g.start.0 && (#[trigger] parent[v]) is Some ==> {
            let u = parent[v]->0 as int;
            &&& 0 <= u < parent.len()
            &&& parent[u] is Some
            &&& g.linked(NodeId(u as usize), NodeId(v as usize))
            &&& dist[v] == dist[u] + 1
        }
}

/// Every node on a walk from the start that follows links is reached, when
/// every reached node has all its links reached.
proof fn lemma_closed_reaches(g: GraphModel, parent: Seq<Option<usize>>, p: Seq<NodeId>, k: int)
    requires
        g.wf(),
        parent.len() == g.node_count(),
        parent[g.start.0 as int] is Some,
        forall|u: int, j: int|
            0 <= u < parent.len() && (#[trigger] parent[u]) is Some && 0 <= j < g.links[u].len()
                ==> parent[#[trigger] g.links[u][j].0 as int] is Some,
        p.len() >= 1,
        g.linked(g.start, p[0]),
        forall|i: int| 0 <= i < p.len() - 1 ==> g.linked(#[trigger] p[i], p[i + 1]),
        0 <= k < p.len(),
    ensures
        p[k].0 < parent.len() && parent[p[k].0 as int] is Some,
    decreases k,
{
    let prev = if k == 0 {
        g.start
    } else {
        p[k - 1]
    };
    if k > 0 {
        lemma_closed_reaches(g, parent, p, k - 1);
    }
    assert(g.linked(prev, p[k]));
    let j = choose|j: int| 0 <= j < g.links[prev.0 as int].len() && g.links[prev.0 as int][j] == p[k];
    assert(g.has_node(g.links[prev.0 as int][j]));
}

/// The breadth-first order: the queue goes by distance, and spans at most
/// one level; every reached node is at most one level past its front; a node
/// that has left the queue has all its links reached, none more than one
/// level further, and is no further than anything still queued.
pub open spec fn frontier_ok(g: GraphModel, parent: Seq<Option<usize>>, dist: Seq<nat>, queue: Seq<usize>) -> bool {
    &&& forall|a: int, b: int|
        0 <= a <= b < queue.len() ==> dist[#[trigger] queue[a] as int] <= dist[#[trigger] queue[b] as int]
    &&& queue.len() > 0 ==> forall|a: int| 0 <= a < queue.len() ==> dist[#[trigger] queue[a] as int] <= dist[queue[0] as int] + 1
    &&& queue.len() > 0 ==> forall|x: int| 0 <= x < parent.len() && (#[trigger] parent[x]) is Some ==> dist[x] <= dist[queue[0] as int] + 1
    &&& forall|u: int, j: int|
        0 <= u < parent.len() && (#[trigger] parent[u]) is Some && !queue.contains(u as usize) && 0 <= j < g.links[u].len()
            ==> parent[#[trigger] g.links[u][j].0 as int] is Some && dist[g.links[u][j].0 as int] <= dist[u] + 1
    &&& forall|u: int, a: int|
        0 <= u < parent.len() && (#[trigger] parent[u]) is Some && !queue.contains(u as usize) && 0 <= a < queue.len()
            ==> dist[u] <= dist[#[trigger] queue[a] as int]
}

/// The node of a path at step `j`: the start, then the nodes of the path.
pub open spec fn step_node(g: GraphModel, q: Seq<NodeId>, j: int) -> NodeId {
    if j == 0 {
        g.start
    } else {
        q[j - 1]
    }
}

/// Walking `q` from the start, either some node among the first `j + 1` is
/// still queued and at most as far as its step, or the node at step `j` has
/// left the queue and is at most as far as `j`.
proof fn lemma_bfs_walk(g: GraphModel, parent: Seq<Option<usize>>, dist: Seq<nat>, queue: Seq<usize>, q: Seq<NodeId>, j: int)
    requires
        g.wf(),
        tree_ok(g, parent, dist),
        frontier_ok(g, parent, dist, queue),
        forall|k: int| 0 <= k < queue.len() ==> #[trigger] queue[k] < parent.len() && parent[queue[k] as int] is Some,
        is_path(g, q),
        q.len() >= 1,
        0 <= j <= q.len(),
    ensures
        (exists|i: int| 0 <= i <= j && #[trigger] queue.contains(step_node(g, q, i).0) && dist[step_node(g, q, i).0 as int] <= i)
        || (parent[step_node(g, q, j).0 as int] is Some && !queue.contains(step_node(g, q, j).0) && dist[step_node(g, q, j).0 as int] <= j),
    decreases j,
{
    if j > 0 {
        lemma_bfs_walk(g, parent, dist, queue, q, j - 1);
        let prev = step_node(g, q, j - 1);
        let cur = step_node(g, q, j);
        if parent[prev.0 as int] is Some && !queue.contains(prev.0) && dist[prev.0 as int] <= j - 1 {
            assert(g.linked(prev, cur)) by {
                if j > 1 {
                    assert(q[j - 2] == prev);
                    assert(g.linked(q[j - 2], q[j - 1]));
                }
            }
            let k = choose|k: int| 0 <= k < g.links[prev.0 as int].len() && g.links[prev.0 as int][k] == cur;
            assert(parent[g.links[prev.0 as int][k].0 as int] is Some);
            if queue.contains(cur.0) {
                assert(queue.contains(step_node(g, q, j).0));
            }
        } else {
            let i = choose|i: int| 0 <= i <= j - 1 && #[trigger] queue.contains(step_node(g, q, i).0) && dist[step_node(g, q, i).0 as int] <= i;
            assert(0 <= i <= j);
        }
    } else {
        let s = step_node(g, q, 0);
        assert(s == g.start);
        if queue.contains(s.0) {
            assert(exists|i: int| 0 <= i <= 0 && #[trigger] queue.contains(step_node(g, q, i).0) && dist[step_node(g, q, i).0 as int] <= i);
        }
    }
}

/// When the end is at the front of the queue, no path is shorter than its
/// distance.
proof fn lemma_bfs_bound(g: GraphModel, parent: Seq<Option<usize>>, dist: Seq<nat>, queue: Seq<usize>, q: Seq<NodeId>)
    requires
        g.wf(),
        tree_ok(g, parent, dist),
        frontier_ok(g, parent, dist, queue),
        forall|k: int| 0 <= k < queue.len() ==> #[trigger] queue[k] < parent.len() && parent[queue[k] as int] is Some,
        queue.len() > 0,
        queue[0] == g.end.0,
        is_path(g, q),
    ensures
        dist[g.end.0 as int] <= q.len(),
{
    if q.len() >= 1 {
        lemma_bfs_walk(g, parent, dist, queue, q, q.len() as int);
        let last = step_node(g, q, q.len() as int);
        assert(last == g.end);
        assert(queue.contains(g.end.0)) by {
            assert(queue[0] == g.end.0);
        }
        if exists|i: int| 0 <= i <= q.len() && #[trigger] queue.contains(step_node(g, q, i).0) && dist[step_node(g, q, i).0 as int] <= i {
            let i = choose|i: int| 0 <= i <= q.len() && #[trigger] queue.contains(step_node(g, q, i).0) && dist[step_node(g, q, i).0 as int] <= i;
            let x = step_node(g, q, i).0;
            let a = choose|a: int| 0 <= a < queue.len() && queue[a] == x;
            assert(dist[queue[0] as int] <= dist[queue[a] as int]);
        }
    } else {
        assert(g.start == g.end);
        assert(dist[g.start.0 as int] == 0);
    }
}

impl Path {
    /// A path with the fewest nodes from the start to the end, found breadth
    /// first; `None` when the end cannot be reached.
    pub fn shortest(graph: &Graph) -> (r: Option<Path>)
        requires
            graph.wf(),
        ensures
            r matches Some(p) ==> is_path(graph@, p@),
            r matches Some(p) ==> forall|q: Seq<NodeId>| is_path(graph@, q) ==> p@.len() <= q.len(),
            r is None ==> forall|p: Seq<NodeId>| !is_path(graph@, p),
    {
        let ghost g = graph@;
        let n = graph.nodes().len();
        let start = graph.start();
        let end = graph.end();
        let mut parent: Vec<Option<usize>> = vec![None; n];
        let ghost mut dist: Seq<nat> = Seq::new(n as nat, |v: int| 0nat);
        parent.set(start.0, Some(start.0));
        let mut queue: VecDeque<usize> = VecDeque::new();
        queue.push_back(start.0);
        proof {
            lemma_unseen_update(Seq::new(n as nat, |v: int| None::<usize>), start.0 as int, start.0);
            assert(Seq::new(n as nat, |v: int| None::<usize>).update(start.0 as int, Some(start.0)) =~= parent@);
            assert(queue@[0] == start.0);
            assert(queue@.contains(start.0));
            assert forall|v: int| 0 <= v < n && v != start.0 implies parent@[v] is None by {}
        }
        loop
            invariant
                g == graph@,
                g.wf(),
                n == g.node_count(),
                start == g.start,
                end == g.end,
                tree_ok(g, parent@, dist),
                forall|k: int| 0 <= k < queue@.len() ==> #[trigger] queue@[k] < n && parent@[queue@[k] as int] is Some,
                parent@[end.0 as int] is Some ==> queue@.contains(end.0),
                frontier_ok(g, parent@, dist, queue@),
            decreases 2 * unseen(parent@) + queue@.len(),
        {
            let ghost queue_before_pop = queue@;
            let u = match queue.pop_front() {
                None => {
                    proof {
                        assert forall|p: Seq<NodeId>| !is_path(g, p) by {
                            if is_path(g, p) {
                                if p.len() == 0 {
                                    assert(parent@[end.0 as int] is Some);
                                } else {
                                    lemma_closed_reaches(g, parent@, p, p.len() - 1);
                                }
                            }
                        }
                    }
                    return None;
                },
                Some(u) => u,
            };
            if u == end.0 {
                proof {
                    assert forall|q: Seq<NodeId>| is_path(g, q) implies dist[end.0 as int] <= q.len() by {
                        lemma_bfs_bound(g, parent@, dist, queue_before_pop, q);
                    }
                }
                return Some(Self::rebuild(graph, &parent, Ghost(dist)));
            }
            proof {
                lemma_contains_rest(queue_before_pop);
                assert(queue@ == queue_before_pop.subrange(1, queue_before_pop.len() as int));
            }
            let ghost old_parent = parent@;
            let ghost old_queue_len = queue@.len();
            let ghost du = dist[u as int];
            let links = graph.links(NodeId(u));
            let mut k: usize = 0;
            while k < links.len()
                invariant
                    g == graph@,
                    g.wf(),
                    n == g.node_count(),
                    start == g.start,
                    end == g.end,
                    u < n,
                    u != end.0,
                    parent@[u as int] is Some,
                    du == dist[u as int],
                    links@ == g.links[u as int],
                    k <= links@.len(),
                    tree_ok(g, parent@, dist),
                    forall|q: int| 0 <= q < queue@.len() ==> #[trigger] queue@[q] < n && parent@[queue@[q] as int] is Some,
                    parent@[end.0 as int] is Some ==> queue@.contains(end.0),
                    forall|a: int, b: int|
                        0 <= a <= b < queue@.len() ==> dist[#[trigger] queue@[a] as int] <= dist[#[trigger] queue@[b] as int],
                    forall|a: int| 0 <= a < queue@.len() ==> du <= dist[#[trigger] queue@[a] as int] <= du + 1,
                    forall|x: int| 0 <= x < n && (#[trigger] parent@[x]) is Some ==> dist[x] <= du + 1,
                    forall|j: int|
                        0 <= j < k ==> parent@[#[trigger] links@[j].0 as int] is Some && dist[links@[j].0 as int] <= du + 1,
                    forall|w: int, j: int|
                        0 <= w < n && w != u && (#[trigger] parent@[w]) is Some && !queue@.contains(w as usize) && 0 <= j < g.links[w].len()
                            ==> parent@[#[trigger] g.links[w][j].0 as int] is Some && dist[g.links[w][j].0 as int] <= dist[w] + 1,
                    forall|w: int|
                        0 <= w < n && w != u && (#[trigger] parent@[w]) is Some && !queue@.contains(w as usize)
                            ==> dist[w] <= du,
                    2 * unseen(parent@) + queue@.len() <= 2 * unseen(old_parent) + old_queue_len,
                decreases links@.len() - k,
            {
                let v = links[k];
                assert(g.has_node(g.links[u as int][k as int]));
                if parent[v.0].is_none() {
                    proof {
                        lemma_unseen_update(parent@, v.0 as int, u);
                        dist = dist.update(v.0 as int, dist[u as int] + 1);
                    }
                    parent.set(v.0, Some(u));
                    proof {
                        lemma_contains_push(queue@, v.0);
                    }
                    queue.push_back(v.0);
                }
                k = k + 1;
            }
            proof {
                let qq = queue@;
                assert forall|w: int, j: int|
                    0 <= w < n && (#[trigger] parent@[w]) is Some && !qq.contains(w as usize) && 0 <= j < g.links[w].len()
                        implies parent@[#[trigger] g.links[w][j].0 as int] is Some && dist[g.links[w][j].0 as int] <= dist[w] + 1 by {
                    if w == u {
                        assert(links@[j] == g.links[w][j]);
                    }
                }
                assert forall|w: int, a: int|
                    0 <= w < n && (#[trigger] parent@[w]) is Some && !qq.contains(w as usize) && 0 <= a < qq.len()
                        implies dist[w] <= dist[#[trigger] qq[a] as int] by {
                }
            }
        }
    }

    /// The path that the search tree leads along from the start to the end.
    fn rebuild(graph: &Graph, parent: &Vec<Option<usize>>, Ghost(dist): Ghost<Seq<nat>>) -> (r: Path)
        requires
            graph.wf(),
            tree_ok(graph@, parent@, dist),
            parent@[graph@.end.0 as int] is Some,
        ensures
            is_path(graph@, r@),
            r@.len() == dist[graph@.end.0 as int],
    {
        let ghost g = graph@;
        let start = graph.start();
        let mut back: Vec<NodeId> = Vec::new();
        let mut v = graph.end().0;
        while v != start.0
            invariant
                g == graph@,
                g.wf(),
                start == g.start,
                tree_ok(g, parent@, dist),
                v < parent@.len(),
                parent@[v as int] is Some,
                back@.len() > 0 ==> g.linked(NodeId(v), back@.last()),
                back@.len() > 0 ==> dist[v as int] < dist[back@.last().0 as int],
                back@.len() == 0 ==> v == g.end.0,
                back@.len() + dist[v as int] == dist[g.end.0 as int],
                back@.len() > 0 ==> back@[0] == g.end,
                forall|i: int| 0 <= i < back@.len() ==> #[trigger] back@[i].0 < parent@.len() && back@[i] != g.start,
                forall|i: int| 0 <= i < back@.len() - 1 ==> g.linked(#[trigger] back@[i + 1], back@[i]),
                forall|i: int, j: int| 0 <= i < j < back@.len() ==> dist[#[trigger] back@[i].0 as int] > dist[#[trigger] back@[j].0 as int],
                forall|i: int| 0 <= i < back@.len() ==> dist[v as int] < dist[#[trigger] back@[i].0 as int],
            decreases dist[v as int],
        {
            back.push(NodeId(v));
            v = parent[v].unwrap();
        }
        let mut nodes: Vec<NodeId> = Vec::new();
        let mut i = back.len();
        while i > 0
            invariant
                i <= back@.len(),
                nodes@.len() == back@.len() - i,
                forall|j: int| 0 <= j < nodes@.len() ==> #[trigger] nodes@[j] == back@[back@.len() - 1 - j],
            decreases i,
        {
            i = i - 1;
            nodes.push(back[i]);
        }
        let r = Path::from_vec(nodes);
        proof {
            let p = r@;
            let m = back@.len();
            if m > 0 {
                assert(p.last() == back@[0]);
                assert(p[0] == back@[m - 1]);
                assert forall|a: int| 0 <= a < p.len() - 1 implies g.linked(#[trigger] p[a], p[a + 1]) by {
                    assert(p[a] == back@[m - 1 - a]);
                    assert(p[a + 1] == back@[m - 2 - a]);
                    assert(g.linked(back@[(m - 2 - a) + 1], back@[m - 2 - a]));
                }
                assert forall|a: int, b: int| 0 <= a < p.len() && 0 <= b < p.len() && a != b implies p[a] != p[b] by {
                    assert(p[a] == back@[m - 1 - a]);
                    assert(p[b] == back@[m - 1 - b]);
                    if m - 1 - a < m - 1 - b {
                        assert(dist[back@[m - 1 - a].0 as int] > dist[back@[m - 1 - b].0 as int]);
                    } else {
                        assert(dist[back@[m - 1 - b].0 as int] > dist[back@[m - 1 - a].0 as int]);
                    }
                }
                assert forall|a: int| 0 <= a < p.len() implies #[trigger] p[a] != g.start by {
                    assert(p[a] == back@[m - 1 - a]);
                }
            }
        }
        r
    }
}

impl Graph {
    /// A path with the fewest nodes from the start to the end; see
    /// [`Path::shortest`].
    pub fn shortest_path(&self) -> (r: Option<Path>)
        requires
            self.wf(),
        ensures
            r matches Some(p) ==> is_path(self@, p@),
            r matches Some(p) ==> forall|q: Seq<NodeId>| is_path(self@, q) ==> p@.len() <= q.len(),
            r is None ==> forall|p: Seq<NodeId>| !is_path(self@, p),
    {
        Path::shortest(self)
    }
}

} // verus!
