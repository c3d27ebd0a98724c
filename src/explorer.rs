use vstd::prelude::*;

use crate::graph::Graph;
use crate::node::NodeId;

verus! {

/// The identifier of a branch. Identifiers are handed out in increasing
/// order and never reused; `0` is kept for the origin.
#[derive(Clone, Copy, Debug, PartialEq, Eq, Structural)]
pub struct BranchId(pub usize);

/// Having reached `node` along one particular path from the start.
#[derive(Clone, Copy, Debug, PartialEq, Eq, Structural)]
pub struct Branch {
    pub id: BranchId,
    pub node: NodeId,
}

impl Branch {
    pub open spec fn spec_origin() -> Branch {
        Branch { id: BranchId(0), node: NodeId(usize::MAX) }
    }

    /// The sentinel that every path leads back to. Its node is no node of
    /// any graph.
    pub fn origin() -> (r: Branch)
        ensures
            r == Branch::spec_origin(),
    {
        Branch { id: BranchId(0), node: NodeId(usize::MAX) }
    }

    pub fn is_origin(&self) -> (r: bool)
        ensures
            r == (self.id.0 == 0),
    {
        self.id.0 == 0
    }
}

/// What the explorer keeps of one branch: where it is and where it came from.
#[derive(Clone, Copy, Debug, PartialEq, Eq, Structural)]
pub struct Entry {
    pub node: NodeId,
    pub parent: Branch,
}

/// The nodes that branch `id` went through, from its own node back to the
/// node where it started; empty for the origin.
pub open spec fn trace_of(entries: Seq<Entry>, id: nat) -> Seq<NodeId>
    decreases id,
{
    if id == 0 || id >= entries.len() {
        Seq::empty()
    } else {
        let parent = entries[id as int].parent.id.0 as nat;
        seq![entries[id as int].node] + if parent < id {
            trace_of(entries, parent)
        } else {
            Seq::empty()
        }
    }
}

/// Growing the arena leaves the traces of earlier branches as they were: a
/// branch can be walked back again at any later time, and the walk gives the
/// same nodes.
pub proof fn lemma_trace_prefix(entries: Seq<Entry>, more: Seq<Entry>, id: nat)
    requires
        entries.len() <= more.len(),
        entries == more.subrange(0, entries.len() as int),
        id < entries.len(),
    ensures
        trace_of(more, id) == trace_of(entries, id),
    decreases id,
{
    if id != 0 {
        let parent = entries[id as int].parent.id.0 as nat;
        if parent < id {
            lemma_trace_prefix(entries, more, parent);
        }
    }
}

/// Every node of a trace is the node of some minted branch.
pub proof fn lemma_trace_nodes(entries: Seq<Entry>, id: nat, x: NodeId)
    requires
        trace_of(entries, id).contains(x),
    ensures
        exists|k: int| 1 <= k < entries.len() && (#[trigger] entries[k]).node == x,
    decreases id,
{
    let t = trace_of(entries, id);
    let parent = entries[id as int].parent.id.0 as nat;
    let rest = if parent < id {
        trace_of(entries, parent)
    } else {
        Seq::empty()
    };
    assert(t == seq![entries[id as int].node] + rest);
    let i = choose|i: int| 0 <= i < t.len() && t[i] == x;
    if i == 0 {
        assert(entries[id as int].node == x);
    } else {
        assert(rest[i - 1] == x);
        assert(rest.contains(x));
        lemma_trace_nodes(entries, parent, x);
    }
}

/// Mints branches and remembers, for each node, which branches reached it and
/// from which branch they came, so that any branch can be traced back.
///
/// The records are an arena indexed by branch identifier; `counts` holds, for
/// each node, how many branches were made to reach it by `branch`.
pub struct Explorer {
    entries: Vec<Entry>,
    counts: Vec<usize>,
}

/// The abstract state of an explorer.
pub ghost struct ExplorerModel {
    /// What is known of each minted branch, by identifier (the origin at `0`).
    pub entries: Seq<Entry>,
    /// For each node, the size of its access record.
    pub counts: Seq<usize>,
}

impl ExplorerModel {
    /// `b` was minted by this explorer, or is the origin.
    pub open spec fn valid(&self, b: Branch) -> bool {
        &&& b.id.0 < self.entries.len()
        &&& self.entries[b.id.0 as int].node == b.node
    }

    pub open spec fn trace(&self, b: Branch) -> Seq<NodeId> {
        trace_of(self.entries, b.id.0 as nat)
    }

    /// The origin comes first; every other branch points back to an earlier
    /// one; no access record is as large as the arena.
    pub open spec fn wf(&self) -> bool {
        &&& self.entries.len() >= 1
        &&& self.entries[0] == Entry { node: NodeId(usize::MAX), parent: Branch::spec_origin() }
        &&& forall|i: int|
            1 <= i < self.entries.len() ==> {
                let p = #[trigger] self.entries[i].parent;
                &&& p.id.0 < i
                &&& self.valid(p)
            }
        &&& forall|v: int| 0 <= v < self.counts.len() ==> #[trigger] self.counts[v] < self.entries.len()
    }

    /// The next identifier to be handed out.
    pub open spec fn next_id(&self) -> nat {
        self.entries.len()
    }
}

impl View for Explorer {
    type V = ExplorerModel;

    closed spec fn view(&self) -> ExplorerModel {
        ExplorerModel { entries: self.entries@, counts: self.counts@ }
    }
}

impl Explorer {
    /// An explorer for `graph`, with nothing recorded.
    pub fn new(graph: &Graph) -> (r: Explorer)
        ensures
            r@.wf(),
            r@.entries == seq![Entry { node: NodeId(usize::MAX), parent: Branch::spec_origin() }],
            r@.counts == Seq::new(graph@.node_count(), |v: int| 0usize),
    {
        let node_count = graph.nodes().len();
        let mut entries: Vec<Entry> = Vec::new();
        entries.push(Entry { node: NodeId(usize::MAX), parent: Branch::origin() });
        let counts: Vec<usize> = vec![0usize; node_count];
        let r = Explorer { entries, counts };
        assert(r@.counts =~= Seq::new(node_count as nat, |v: int| 0usize));
        r
    }

    /// The next identifier, which becomes taken.
    fn next_id(&mut self, entry: Entry) -> (r: BranchId)
        ensures
            r.0 == old(self)@.entries.len(),
            final(self)@.entries == old(self)@.entries.push(entry),
            final(self)@.counts == old(self)@.counts,
    {
        let result = BranchId(self.entries.len());
        self.entries.push(entry);
        result
    }

    /// A fresh branch standing at `at`, with no parent. No access record
    /// changes.
    pub fn start(&mut self, at: NodeId) -> (r: Branch)
        requires
            old(self)@.wf(),
        ensures
            final(self)@.wf(),
            r.id.0 == old(self)@.next_id(),
            r.node == at,
            final(self)@.entries == old(self)@.entries.push(
                Entry { node: at, parent: Branch::spec_origin() },
            ),
            final(self)@.counts == old(self)@.counts,
            final(self)@.trace(r) == seq![at],
    {
        let id = self.next_id(Entry { node: at, parent: Branch::origin() });
        let r = Branch { id, node: at };
        proof {
            reveal_with_fuel(trace_of, 2);
        }
        r
    }

    /// A fresh branch standing at `dest`, reached from `sub_branch`; it is
    /// added to `dest`'s access record.
    pub fn branch(&mut self, sub_branch: Branch, dest: NodeId) -> (r: Branch)
        requires
            old(self)@.wf(),
            old(self)@.valid(sub_branch),
            dest.0 < old(self)@.counts.len(),
        ensures
            final(self)@.wf(),
            r.id.0 == old(self)@.next_id(),
            r.node == dest,
            final(self)@.entries == old(self)@.entries.push(
                Entry { node: dest, parent: sub_branch },
            ),
            final(self)@.counts == old(self)@.counts.update(
                dest.0 as int,
                (old(self)@.counts[dest.0 as int] + 1) as usize,
            ),
            final(self)@.trace(r) == seq![dest] + old(self)@.trace(sub_branch),
    {
        let ghost before = self@;
        let count = self.counts[dest.0];
        let id = self.next_id(Entry { node: dest, parent: sub_branch });
        self.counts.set(dest.0, count + 1);
        let r = Branch { id, node: dest };
        proof {
            assert(before.entries =~= self@.entries.subrange(0, before.entries.len() as int));
            lemma_trace_prefix(before.entries, self@.entries, sub_branch.id.0 as nat);
            assert(self@.entries[r.id.0 as int].parent == sub_branch);
            assert(trace_of(self@.entries, r.id.0 as nat) == seq![dest] + trace_of(
                self@.entries,
                sub_branch.id.0 as nat,
            ));
        }
        r
    }

    /// The branch that `branch` was reached from; `None` for a branch made by
    /// `start` (and for the origin).
    pub fn rewind(&self, branch: Branch) -> (r: Option<Branch>)
        requires
            self@.wf(),
            self@.valid(branch),
        ensures
            r == (if branch.id.0 == 0 || self@.entries[branch.id.0 as int].parent.id.0 == 0 {
                None
            } else {
                Some(self@.entries[branch.id.0 as int].parent)
            }),
    {
        if branch.id.0 == 0 {
            return None;
        }
        let parent = self.entries[branch.id.0].parent;
        if parent.id.0 == 0 {
            None
        } else {
            Some(parent)
        }
    }

    /// How many branches were made to reach `node`: the size of its access
    /// record.
    pub fn record_len(&self, node: NodeId) -> (r: usize)
        requires
            node.0 < self@.counts.len(),
        ensures
            r == self@.counts[node.0 as int],
    {
        self.counts[node.0]
    }

    /// A walk back from `branch` to the node where it started, one node per
    /// call of `next`. Any number of them can be made for one branch.
    pub fn bracktrace(&self, branch: Branch) -> (r: Backtrace<'_>)
        requires
            self@.wf(),
            self@.valid(branch),
        ensures
            r.wf(),
            r.explorer() == self@,
            r.remaining() == self@.trace(branch),
    {
        Backtrace { current: branch, explorer: self }
    }

    /// Whether `node` lies on the path that led to `branch`, its own node
    /// included.
    pub fn visits(&self, branch: Branch, node: NodeId) -> (r: bool)
        requires
            self@.wf(),
            self@.valid(branch),
        ensures
            r == self@.trace(branch).contains(node),
    {
        let mut walk = self.bracktrace(branch);
        loop
            invariant
                walk.wf(),
                walk.explorer() == self@,
                self@.trace(branch).contains(node) <==> walk.remaining().contains(node),
            decreases walk.remaining().len(),
        {
            let ghost rest = walk.remaining();
            match walk.next() {
                None => {
                    return false;
                },
                Some(v) => {
                    if v == node {
                        return true;
                    }
                    assert(rest =~= seq![v] + walk.remaining());
                    assert(rest.contains(node) ==> walk.remaining().contains(node)) by {
                        if rest.contains(node) {
                            let k = choose|k: int| 0 <= k < rest.len() && rest[k] == node;
                            assert(k > 0);
                            assert(walk.remaining()[k - 1] == node);
                        }
                    }
                    assert(walk.remaining().contains(node) ==> rest.contains(node)) by {
                        if walk.remaining().contains(node) {
                            let k = choose|k: int| 0 <= k < walk.remaining().len() && walk.remaining()[k] == node;
                            assert(rest[k + 1] == node);
                        }
                    }
                },
            }
        }
    }

    /// The nodes that `branch` went through, from its own node back to the
    /// node where it started.
    pub fn trace(&self, branch: Branch) -> (r: Vec<NodeId>)
        requires
            self@.wf(),
            self@.valid(branch),
        ensures
            r@ == self@.trace(branch),
    {
        let mut walk = self.bracktrace(branch);
        let mut r: Vec<NodeId> = Vec::new();
        loop
            invariant
                walk.wf(),
                walk.explorer() == self@,
                r@ + walk.remaining() == self@.trace(branch),
            decreases walk.remaining().len(),
        {
            let ghost rest = walk.remaining();
            match walk.next() {
                None => {
                    assert(r@ + rest == r@);
                    return r;
                },
                Some(v) => {
                    r.push(v);
                    assert(r@ + walk.remaining() == self@.trace(branch)) by {
                        assert(rest == seq![v] + walk.remaining());
                        assert((r@.drop_last() + seq![v]) + walk.remaining() =~= r@.drop_last()
                            + (seq![v] + walk.remaining()));
                    }
                },
            }
        }
    }
}

/// A lazy walk from a branch back to the node where it started.
pub struct Backtrace<'a> {
    current: Branch,
    explorer: &'a Explorer,
}

impl<'a> Backtrace<'a> {
    pub closed spec fn explorer(&self) -> ExplorerModel {
        self.explorer@
    }

    /// The nodes that are still to come.
    pub closed spec fn remaining(&self) -> Seq<NodeId> {
        self.explorer@.trace(self.current)
    }

    pub closed spec fn wf(&self) -> bool {
        self.explorer@.wf() && self.explorer@.valid(self.current)
    }

    /// Starts a walk back from `current`.
    pub fn new(explorer: &'a Explorer, current: Branch) -> (r: Backtrace<'a>)
        requires
            explorer@.wf(),
            explorer@.valid(current),
        ensures
            r.wf(),
            r.explorer() == explorer@,
            r.remaining() == explorer@.trace(current),
    {
        Backtrace { current, explorer }
    }

    /// The next node back, or `None` once the walk is over.
    pub fn next(&mut self) -> (r: Option<NodeId>)
        requires
            old(self).wf(),
        ensures
            final(self).wf(),
            final(self).explorer() == old(self).explorer(),
            old(self).remaining().len() == 0 ==> r is None && final(self).remaining() == old(
                self,
            ).remaining(),
            old(self).remaining().len() > 0 ==> r == Some(old(self).remaining()[0])
                && final(self).remaining() == old(self).remaining().drop_first(),
    {
        if self.current.id.0 == 0 {
            return None;
        }
        let result = self.current.node;
        let parent = self.explorer.entries[self.current.id.0].parent;
        proof {
            assert(self.explorer@.entries[self.current.id.0 as int].parent == parent);
            assert(self.remaining() == seq![result] + trace_of(
                self.explorer@.entries,
                parent.id.0 as nat,
            ));
        }
        self.current = parent;
        Some(result)
    }
}

} // verus!
