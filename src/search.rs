use vstd::prelude::*;

use crate::bit_array::BitArray;
use crate::explorer::{trace_of, Branch, BranchId, Entry, Explorer, ExplorerModel};
use crate::graph::{Graph, GraphModel};
use crate::node::NodeId;
use crate::path::{disjoint, disjoint_paths, inner, is_path, views, Path};
use crate::work_queue::{holds, lemma_empty_holds_nothing, lowest, padded, size, WorkQueue};

verus! {

/// A trace read the other way: from the node after the start to the node
/// where the trace began. The last node of a trace is the start node, which is
/// left out.
pub open spec fn forward(t: Seq<NodeId>) -> Seq<NodeId> {
    Seq::new((t.len() - 1) as nat, |i: int| t[t.len() - 2 - i])
}

/// `t` leads back along links of `g` to its start node, through nodes of `g`,
/// never twice through one node.
pub open spec fn walk(g: GraphModel, t: Seq<NodeId>) -> bool {
    &&& t.len() >= 1
    &&& t.last() == g.start
    &&& forall|i: int| 0 <= i < t.len() ==> g.has_node(#[trigger] t[i])
    &&& forall|i: int| 0 <= i < t.len() - 1 ==> g.linked(t[i + 1], #[trigger] t[i])
    &&& t.no_duplicates()
}

/// Two candidate paths share a node other than their terminals.
pub open spec fn clash(p: Seq<NodeId>, q: Seq<NodeId>) -> bool {
    !disjoint(p, q)
}

/// A path that reached the end node during the search, with the nodes it
/// goes through and the earlier candidates that it clashes with.
pub struct Candidate {
    pub branch: Branch,
    pub path: Path,
    /// Bit `v` is set when node `v` lies strictly inside the path.
    pub hit_node: BitArray,
    /// Bit `i` is set when candidate `i`, recorded before this one, clashes
    /// with it.
    pub incompats: BitArray,
}

/// Each candidate's incompatibility bits mark exactly the earlier candidates
/// that it clashes with.
pub open spec fn incompats_ok(store: Seq<Candidate>) -> bool {
    forall|k: int|
        0 <= k < store.len() ==> {
            let c = #[trigger] store[k];
            &&& c.incompats.wf()
            &&& c.incompats@.len() == k
            &&& forall|j: int| 0 <= j < k ==> (c.incompats@[j] <==> clash(c.path@, store[j].path@))
        }
}

/// What the candidate store keeps true: each candidate's bits say which nodes
/// it goes through and which earlier candidates it clashes with.
pub open spec fn store_ok(store: Seq<Candidate>, node_count: nat) -> bool {
    forall|k: int|
        0 <= k < store.len() ==> {
            let c = #[trigger] store[k];
            &&& c.hit_node.wf()
            &&& c.hit_node@.len() == node_count
            &&& forall|v: int|
                0 <= v < node_count ==> (c.hit_node@[v] <==> inner(c.path@).contains(
                    NodeId(v as usize),
                ))
        } && incompats_ok(store)
}

/// The paths of the candidates.
pub open spec fn store_paths(store: Seq<Candidate>) -> Seq<Seq<NodeId>> {
    Seq::new(store.len(), |i: int| store[i].path@)
}

/// `g` picks `count` candidates, in increasing order, from `start` on, none of
/// them excluded, no two of them clashing.
pub open spec fn group_ok(
    paths: Seq<Seq<NodeId>>,
    excluded: Seq<bool>,
    start: int,
    count: nat,
    g: Seq<usize>,
) -> bool {
    &&& g.len() == count
    &&& forall|i: int| 0 <= i < g.len() ==> start <= #[trigger] g[i] < paths.len()
    &&& forall|i: int| 0 <= i < g.len() ==> !excluded[#[trigger] g[i] as int]
    &&& forall|i: int, j: int| 0 <= i < j < g.len() ==> #[trigger] g[i] < #[trigger] g[j]
    &&& forall|i: int, j: int|
        0 <= i < j < g.len() ==> !clash(paths[#[trigger] g[i] as int], paths[#[trigger] g[j] as int])
}

/// `a` comes before `b` in dictionary order: they agree up to some index,
/// where `a` holds the smaller candidate.
pub open spec fn lex_less(a: Seq<usize>, b: Seq<usize>) -> bool {
    exists|m: int| 0 <= m < a.len() && m < b.len() && a.take(m) == b.take(m) && a[m] < b[m]
}

proof fn lemma_clash_symmetric(p: Seq<NodeId>, q: Seq<NodeId>)
    ensures
        clash(p, q) == clash(q, p),
{
    if clash(p, q) {
        let (i, j) = choose|i: int, j: int|
            0 <= i < inner(p).len() && 0 <= j < inner(q).len() && inner(p)[i] == inner(q)[j];
        assert(inner(q)[j] == inner(p)[i]);
    }
    if clash(q, p) {
        let (i, j) = choose|i: int, j: int|
            0 <= i < inner(q).len() && 0 <= j < inner(p).len() && inner(q)[i] == inner(p)[j];
        assert(inner(p)[j] == inner(q)[i]);
    }
}

/// Choosing candidate `j` first leaves the groups of the rest that avoid
/// everything that clashes with `j`.
proof fn lemma_group_split(
    paths: Seq<Seq<NodeId>>,
    excluded: Seq<bool>,
    widened: Seq<bool>,
    start: int,
    count: nat,
    j: int,
    g: Seq<usize>,
)
    requires
        count >= 1,
        start <= j < paths.len(),
        j <= usize::MAX,
        !excluded[j],
        widened.len() == excluded.len(),
        excluded.len() == paths.len(),
        forall|x: int|
            j < x < paths.len() ==> (#[trigger] widened[x] <==> (excluded[x] || clash(
                paths[j],
                paths[x],
            ))),
    ensures
        group_ok(paths, excluded, start, count, g) && g[0] == j ==> group_ok(
            paths,
            widened,
            j + 1,
            (count - 1) as nat,
            g.drop_first(),
        ),
        g.len() >= 1 && g[0] == j && group_ok(
            paths,
            widened,
            j + 1,
            (count - 1) as nat,
            g.drop_first(),
        ) ==> group_ok(paths, excluded, start, count, g),
{
    let rest = g.drop_first();
    if group_ok(paths, excluded, start, count, g) && g[0] == j {
        assert forall|i: int| 0 <= i < rest.len() implies j + 1 <= #[trigger] rest[i] < paths.len() by {
            assert(g[0] < g[i + 1]);
        }
        assert forall|i: int| 0 <= i < rest.len() implies !widened[#[trigger] rest[i] as int] by {
            assert(g[0] < g[i + 1]);
            assert(!clash(paths[g[0] as int], paths[g[i + 1] as int]));
        }
        assert forall|a: int, b: int| 0 <= a < b < rest.len() implies #[trigger] rest[a]
            < #[trigger] rest[b] by {
            assert(g[a + 1] < g[b + 1]);
        }
        assert forall|a: int, b: int| 0 <= a < b < rest.len() implies !clash(
            paths[#[trigger] rest[a] as int],
            paths[#[trigger] rest[b] as int],
        ) by {
            assert(!clash(paths[g[a + 1] as int], paths[g[b + 1] as int]));
        }
    }
    if g.len() >= 1 && g[0] == j && group_ok(paths, widened, j + 1, (count - 1) as nat, rest) {
        assert forall|i: int| 0 <= i < g.len() implies start <= #[trigger] g[i] < paths.len() by {
            if i > 0 {
                assert(rest[i - 1] == g[i]);
            }
        }
        assert forall|i: int| 0 <= i < g.len() implies !excluded[#[trigger] g[i] as int] by {
            if i > 0 {
                assert(rest[i - 1] == g[i]);
            }
        }
        assert forall|a: int, b: int| 0 <= a < b < g.len() implies #[trigger] g[a] < #[trigger] g[b] by {
            if a > 0 {
                assert(rest[a - 1] < rest[b - 1]);
            } else {
                assert(rest[b - 1] == g[b]);
            }
        }
        assert forall|a: int, b: int| 0 <= a < b < g.len() implies !clash(
            paths[#[trigger] g[a] as int],
            paths[#[trigger] g[b] as int],
        ) by {
            if a > 0 {
                assert(!clash(paths[rest[a - 1] as int], paths[rest[b - 1] as int]));
            } else {
                assert(rest[b - 1] == g[b]);
                assert(!widened[g[b] as int]);
            }
        }
    }
}

/// Searches, from candidate `start` on, for `count` candidates that clash
/// neither with one another nor with anything marked in `incompats`. The scan
/// goes in the order the candidates were recorded; the first group found is
/// returned, as candidate indices in increasing order.
fn find_group(incompats: &BitArray, paths: &Vec<Candidate>, start: usize, count: usize) -> (r:
    Option<Vec<usize>>)
    requires
        incompats_ok(paths@),
        incompats.wf(),
        incompats@.len() == paths@.len(),
        start <= paths@.len(),
    ensures
        r matches Some(g) ==> group_ok(
            store_paths(paths@),
            incompats@,
            start as int,
            count as nat,
            g@,
        ),
        r is None ==> forall|g: Seq<usize>|
            !#[trigger] group_ok(store_paths(paths@), incompats@, start as int, count as nat, g),
        r matches Some(g) ==> forall|h: Seq<usize>|
            #[trigger] group_ok(store_paths(paths@), incompats@, start as int, count as nat, h)
                ==> !lex_less(h, g@),
    decreases count,
{
    let ghost ps = store_paths(paths@);
    if count == 0 {
        let r: Vec<usize> = Vec::new();
        return Some(r);
    }
    let mut path_index: usize = start;
    while path_index < paths.len()
        invariant
            count >= 1,
            start <= path_index <= paths@.len(),
            ps == store_paths(paths@),
            incompats.wf(),
            incompats@.len() == paths@.len(),
            incompats_ok(paths@),
            forall|g: Seq<usize>|
                #[trigger] group_ok(ps, incompats@, start as int, count as nat, g) ==> g[0]
                    >= path_index,
        decreases paths@.len() - path_index,
    {
        if incompats.get(path_index) {
            assert forall|g: Seq<usize>|
                #[trigger] group_ok(ps, incompats@, start as int, count as nat, g) implies g[0]
                >= path_index + 1 by {
                if g[0] == path_index {
                    assert(!incompats@[g[0] as int]);
                }
            }
        } else {
            let widened = widen(incompats, paths, path_index);
            let result = find_group(&widened, paths, path_index + 1, count - 1);
            match result {
                Some(group) => {
                    let mut out: Vec<usize> = Vec::new();
                    out.push(path_index);
                    let mut k: usize = 0;
                    while k < group.len()
                        invariant
                            k <= group@.len(),
                            out@ == seq![path_index] + group@.subrange(0, k as int),
                        decreases group@.len() - k,
                    {
                        out.push(group[k]);
                        k = k + 1;
                        assert(out@ =~= seq![path_index] + group@.subrange(0, k as int));
                    }
                    proof {
                        assert(group@.subrange(0, k as int) =~= group@);
                        assert(out@.drop_first() =~= group@);
                        lemma_group_split(
                            ps,
                            incompats@,
                            widened@,
                            start as int,
                            count as nat,
                            path_index as int,
                            out@,
                        );
                        assert forall|h: Seq<usize>|
                            #[trigger] group_ok(ps, incompats@, start as int, count as nat, h) implies !lex_less(
                            h,
                            out@,
                        ) by {
                            if lex_less(h, out@) {
                                let m = choose|m: int|
                                    0 <= m < h.len() && m < out@.len() && h.take(m) == out@.take(m)
                                        && h[m] < out@[m];
                                assert(h[0] >= path_index);
                                if m == 0 {
                                    assert(out@[0] == path_index);
                                } else {
                                    assert(h.take(m)[0] == out@.take(m)[0]);
                                    assert(h[0] == path_index);
                                    lemma_group_split(
                                        ps,
                                        incompats@,
                                        widened@,
                                        start as int,
                                        count as nat,
                                        path_index as int,
                                        h,
                                    );
                                    let hr = h.drop_first();
                                    assert(group_ok(ps, widened@, path_index + 1, (count - 1) as nat, hr));
                                    assert forall|x: int| 0 <= x < m - 1 implies #[trigger] hr.take(m - 1)[x] == group@.take(
                                        m - 1,
                                    )[x] by {
                                        assert(h.take(m)[x + 1] == out@.take(m)[x + 1]);
                                    }
                                    assert(hr.take(m - 1) =~= group@.take(m - 1));
                                    assert(hr[m - 1] < group@[m - 1]);
                                    assert(lex_less(hr, group@));
                                }
                            }
                        }
                    }
                    return Some(out);
                },
                None => {
                    assert forall|g: Seq<usize>|
                        #[trigger] group_ok(ps, incompats@, start as int, count as nat, g) implies g[0]
                        >= path_index + 1 by {
                        if g[0] == path_index {
                            lemma_group_split(
                                ps,
                                incompats@,
                                widened@,
                                start as int,
                                count as nat,
                                path_index as int,
                                g,
                            );
                            assert(!group_ok(
                                ps,
                                widened@,
                                path_index + 1,
                                (count - 1) as nat,
                                g.drop_first(),
                            ));
                        }
                    }
                },
            }
        }
        path_index = path_index + 1;
    }
    assert forall|g: Seq<usize>|
        !#[trigger] group_ok(ps, incompats@, start as int, count as nat, g) by {
        if group_ok(ps, incompats@, start as int, count as nat, g) {
            assert(g[0] < ps.len());
        }
    }
    None
}

/// `incompats`, with everything that clashes with candidate `j` added: the
/// earlier candidates that `j` lists, and the later ones that list `j`.
fn widen(incompats: &BitArray, paths: &Vec<Candidate>, j: usize) -> (r: BitArray)
    requires
        incompats_ok(paths@),
        incompats.wf(),
        incompats@.len() == paths@.len(),
        j < paths@.len(),
    ensures
        r.wf(),
        r@.len() == incompats@.len(),
        forall|x: int|
            j < x < paths@.len() ==> (#[trigger] r@[x] <==> (incompats@[x] || clash(
                paths@[j as int].path@,
                paths@[x].path@,
            ))),
{
    let mut r = incompats.bitor(&paths[j].incompats);
    let n = paths.len();
    let mut x: usize = j + 1;
    while x < paths.len()
        invariant
            j < x <= paths@.len(),
            r.wf(),
            r@.len() == incompats@.len(),
            incompats@.len() == paths@.len(),
            incompats_ok(paths@),
            forall|y: int| j < y < x ==> (#[trigger] r@[y] <==> (incompats@[y] || clash(
                paths@[j as int].path@,
                paths@[y].path@,
            ))),
            forall|y: int| x <= y < paths@.len() ==> (#[trigger] r@[y] <==> incompats@[y]),
        decreases paths@.len() - x,
    {
        let hit = paths[x].incompats.get(j);
        proof {
            lemma_clash_symmetric(paths@[j as int].path@, paths@[x as int].path@);
        }
        r.add_if(x, hit);
        x = x + 1;
    }
    r
}


/// How many more branches a node with `c` branches may still queue.
pub open spec fn room(c: usize, cap: nat) -> nat {
    if c < cap {
        (cap - c) as nat
    } else {
        0
    }
}

/// How many more branches all the nodes together may still queue.
pub open spec fn slack(counts: Seq<usize>, cap: nat) -> nat
    decreases counts.len(),
{
    if counts.len() == 0 {
        0
    } else {
        slack(counts.drop_last(), cap) + room(counts.last(), cap)
    }
}

proof fn lemma_slack_update(counts: Seq<usize>, i: int, x: usize, cap: nat)
    requires
        0 <= i < counts.len(),
    ensures
        slack(counts.update(i, x), cap) == slack(counts, cap) - room(counts[i], cap) + room(x, cap),
    decreases counts.len(),
{
    let u = counts.update(i, x);
    if i == counts.len() - 1 {
        assert(u.drop_last() =~= counts.drop_last());
    } else {
        assert(u.drop_last() =~= counts.drop_last().update(i, x));
        lemma_slack_update(counts.drop_last(), i, x, cap);
    }
}

/// Every branch minted so far leads back to the start node along links.
pub open spec fn walks_ok(g: GraphModel, e: ExplorerModel) -> bool {
    forall|id: nat| 1 <= id < e.entries.len() ==> walk(g, #[trigger] trace_of(e.entries, id))
}

proof fn lemma_trace_head(e: ExplorerModel, b: Branch)
    requires
        e.wf(),
        e.valid(b),
        b.id.0 >= 1,
    ensures
        e.trace(b).len() >= 1,
        e.trace(b)[0] == b.node,
{
}

proof fn lemma_walk_extend(g: GraphModel, t: Seq<NodeId>, v: NodeId)
    requires
        walk(g, t),
        g.has_node(v),
        g.linked(t[0], v),
        !t.contains(v),
    ensures
        walk(g, seq![v] + t),
{
    let w = seq![v] + t;
    assert forall|i: int| 0 <= i < w.len() implies g.has_node(#[trigger] w[i]) by {
        if i > 0 {
            assert(w[i] == t[i - 1]);
        }
    }
    assert forall|i: int| 0 <= i < w.len() - 1 implies g.linked(w[i + 1], #[trigger] w[i]) by {
        if i > 0 {
            assert(w[i] == t[i - 1]);
            assert(w[i + 1] == t[i]);
        }
    }
    assert forall|i: int, j: int| 0 <= i < w.len() && 0 <= j < w.len() && i != j implies w[i]
        != w[j] by {
        if i == 0 && j > 0 {
            assert(w[j] == t[j - 1]);
        } else if j == 0 && i > 0 {
            assert(w[i] == t[i - 1]);
        } else if i > 0 && j > 0 {
            assert(w[i] == t[i - 1]);
            assert(w[j] == t[j - 1]);
        }
    }
    assert(w.last() == t.last());
}

/// The path that a walk back from the end node describes is a path of the
/// graph.
proof fn lemma_forward_is_path(g: GraphModel, t: Seq<NodeId>)
    requires
        g.wf(),
        walk(g, t),
        t[0] == g.end,
    ensures
        is_path(g, forward(t)),
{
    let p = forward(t);
    let n = t.len();
    if n >= 2 {
        assert(p.last() == t[0]);
        assert(p[0] == t[n - 2]);
        assert(g.linked(t[n - 1], t[n - 2]));
        assert forall|i: int| 0 <= i < p.len() - 1 implies g.linked(#[trigger] p[i], p[i + 1]) by {
            assert(p[i] == t[n - 2 - i]);
            assert(p[i + 1] == t[n - 3 - i]);
            assert(g.linked(t[(n - 3 - i) + 1], t[n - 3 - i]));
        }
        assert forall|i: int| 0 <= i < p.len() implies #[trigger] p[i] != g.start by {
            assert(p[i] == t[n - 2 - i]);
            assert(t[n - 1] == g.start);
        }
        assert forall|i: int, j: int| 0 <= i < p.len() && 0 <= j < p.len() && i != j implies p[i]
            != p[j] by {
            assert(p[i] == t[n - 2 - i]);
            assert(p[j] == t[n - 2 - j]);
        }
    } else {
        assert(t[0] == t.last());
    }
}

/// Marks in `incompats` every candidate whose path has `v` inside it.
fn mark_clashes(incompats: &mut BitArray, store: &Vec<Candidate>, v: NodeId, node_count: usize)
    requires
        store_ok(store@, node_count as nat),
        v.0 < node_count,
        old(incompats).wf(),
        old(incompats)@.len() == store@.len(),
    ensures
        final(incompats).wf(),
        final(incompats)@.len() == store@.len(),
        forall|c: int|
            0 <= c < store@.len() ==> (final(incompats)@[c] <==> (old(incompats)@[c] || inner(
                store@[c].path@,
            ).contains(v))),
{
    let mut c: usize = 0;
    while c < store.len()
        invariant
            c <= store@.len(),
            v.0 < node_count,
            store_ok(store@, node_count as nat),
            incompats.wf(),
            incompats@.len() == store@.len(),
            forall|c2: int|
                0 <= c2 < c ==> (incompats@[c2] <==> (old(incompats)@[c2] || inner(
                    store@[c2].path@,
                ).contains(v))),
            forall|c2: int| c <= c2 < store@.len() ==> incompats@[c2] == old(incompats)@[c2],
        decreases store@.len() - c,
    {
        let cand = &store[c];
        assert(cand.hit_node@.len() == node_count);
        let there = cand.hit_node.get(v.0);
        assert(NodeId(v.0) == v);
        incompats.add_if(c, there);
        c = c + 1;
    }
}

/// A candidate whose bits were filled from the inner nodes of its trace keeps
/// the store in order.
proof fn lemma_candidate_store(store: Seq<Candidate>, r: Candidate, t: Seq<NodeId>, k: int, node_count: nat)
    requires
        store_ok(store, node_count),
        r.hit_node.wf(),
        r.hit_node@.len() == node_count,
        r.incompats.wf(),
        r.incompats@.len() == store.len(),
        forall|x: NodeId|
            inner(r.path@).contains(x) <==> exists|k2: int| 1 <= k2 < k && #[trigger] t[k2] == x,
        forall|v: int|
            0 <= v < node_count ==> (r.hit_node@[v] <==> exists|k2: int|
                1 <= k2 < k && #[trigger] t[k2] == NodeId(v as usize)),
        forall|c: int|
            0 <= c < store.len() ==> (r.incompats@[c] <==> exists|k2: int|
                1 <= k2 < k && inner(store[c].path@).contains(#[trigger] t[k2])),
    ensures
        store_ok(store.push(r), node_count),
{
    let s2 = store.push(r);
    let ip = inner(r.path@);
    assert(s2[store.len() as int] == r);
    assert forall|v: int| 0 <= v < node_count implies (r.hit_node@[v] <==> ip.contains(
        NodeId(v as usize),
    )) by {
        if r.hit_node@[v] {
            let k2 = choose|k2: int| 1 <= k2 < k && #[trigger] t[k2] == NodeId(v as usize);
            assert(ip.contains(t[k2]));
        }
    }
    assert forall|j: int| 0 <= j < store.len() implies (r.incompats@[j] <==> clash(
        r.path@,
        s2[j].path@,
    )) by {
        let q = store[j].path@;
        assert(s2[j] == store[j]);
        if r.incompats@[j] {
            let k2 = choose|k2: int| 1 <= k2 < k && inner(q).contains(#[trigger] t[k2]);
            assert(ip.contains(t[k2]));
            let a = choose|a: int| 0 <= a < ip.len() && ip[a] == t[k2];
            let b = choose|b: int| 0 <= b < inner(q).len() && inner(q)[b] == t[k2];
            assert(inner(r.path@)[a] == inner(q)[b]);
        }
        if clash(r.path@, q) {
            let (a, b) = choose|a: int, b: int|
                0 <= a < ip.len() && 0 <= b < inner(q).len() && ip[a] == inner(q)[b];
            assert(ip.contains(ip[a]));
            let k2 = choose|k2: int| 1 <= k2 < k && #[trigger] t[k2] == ip[a];
            assert(inner(q).contains(t[k2]));
        }
    }
    assert forall|m: int| 0 <= m < s2.len() implies {
        let c = #[trigger] s2[m];
        &&& c.hit_node.wf()
        &&& c.hit_node@.len() == node_count
        &&& forall|v: int|
            0 <= v < node_count ==> (c.hit_node@[v] <==> inner(c.path@).contains(
                NodeId(v as usize),
            ))
    } by {
        if m < store.len() {
            assert(s2[m] == store[m]);
        }
    }
    assert forall|m: int| 0 <= m < s2.len() implies {
        let c = #[trigger] s2[m];
        &&& c.incompats.wf()
        &&& c.incompats@.len() == m
        &&& forall|j: int| 0 <= j < m ==> (c.incompats@[j] <==> clash(c.path@, s2[j].path@))
    } by {
        if m < store.len() {
            assert(s2[m] == store[m]);
            assert forall|j: int| 0 <= j < m implies s2[j] == store[j] by {}
        }
    }
}

/// The candidate for `branch`, which stands at the end node: its path, the
/// nodes inside it, and the earlier candidates that it clashes with.
fn make_candidate(graph: &Graph, explorer: &Explorer, branch: Branch, store: &Vec<Candidate>) -> (r:
    Candidate)
    requires
        graph.wf(),
        explorer@.wf(),
        explorer@.valid(branch),
        branch.id.0 >= 1,
        branch.node == graph@.end,
        walk(graph@, explorer@.trace(branch)),
        store_ok(store@, graph@.node_count()),
    ensures
        r.branch == branch,
        r.path@ == forward(explorer@.trace(branch)),
        is_path(graph@, r.path@),
        store_ok(store@.push(r), graph@.node_count()),
{
    let ghost g = graph@;
    let t = explorer.trace(branch);
    proof {
        lemma_trace_head(explorer@, branch);
        lemma_forward_is_path(g, t@);
    }
    let len = t.len();
    let mut nodes: Vec<NodeId> = Vec::new();
    let mut i: usize = 0;
    while i + 1 < len
        invariant
            len == t@.len(),
            len >= 1,
            i + 1 <= len,
            nodes@ == forward(t@).subrange(0, i as int),
        decreases len - i,
    {
        nodes.push(t[len - 2 - i]);
        i = i + 1;
        assert(nodes@ =~= forward(t@).subrange(0, i as int));
    }
    assert(nodes@ =~= forward(t@));
    let path = Path::from_vec(nodes);
    let ghost p = path@;
    let ghost ip = inner(p);
    assert forall|x: NodeId| ip.contains(x) <==> exists|k: int| 1 <= k < len - 1 && #[trigger] t@[k] == x by {
        if ip.contains(x) {
            let a = choose|a: int| 0 <= a < ip.len() && ip[a] == x;
            assert(ip[a] == p[a]);
            assert(p[a] == t@[len - 2 - a]);
        }
        if exists|k: int| 1 <= k < len - 1 && #[trigger] t@[k] == x {
            let k = choose|k: int| 1 <= k < len - 1 && #[trigger] t@[k] == x;
            assert(p[len - 2 - k] == t@[k]);
            assert(ip[len - 2 - k] == x);
        }
    }
    let node_count = graph.nodes().len();
    let mut hit_node = BitArray::new(node_count);
    let mut incompats = BitArray::new(store.len());
    let mut k: usize = 1;
    while k < len - 1
        invariant
            len == t@.len(),
            len >= 1,
            1 <= k,
            k <= len,
            len == 1 || k <= len - 1,
            walk(g, t@),
            node_count == g.node_count(),
            store_ok(store@, g.node_count()),
            hit_node.wf(),
            hit_node@.len() == node_count,
            incompats.wf(),
            incompats@.len() == store@.len(),
            forall|v: int|
                0 <= v < node_count ==> (hit_node@[v] <==> exists|k2: int|
                    1 <= k2 < k && #[trigger] t@[k2] == NodeId(v as usize)),
            forall|c: int|
                0 <= c < store@.len() ==> (incompats@[c] <==> exists|k2: int|
                    1 <= k2 < k && inner(store@[c].path@).contains(#[trigger] t@[k2])),
        decreases len - k,
    {
        let v = t[k];
        assert(g.has_node(t@[k as int]));
        let ghost hit_before = hit_node@;
        hit_node.add(v.0);
        assert forall|w: int| 0 <= w < node_count implies (hit_node@[w] <==> exists|k2: int|
            1 <= k2 < k + 1 && #[trigger] t@[k2] == NodeId(w as usize)) by {
            if hit_node@[w] && w != v.0 {
                assert(hit_before[w]);
            }
            if exists|k2: int| 1 <= k2 < k + 1 && #[trigger] t@[k2] == NodeId(w as usize) {
                let k2 = choose|k2: int| 1 <= k2 < k + 1 && #[trigger] t@[k2] == NodeId(w as usize);
                if k2 < k {
                    assert(hit_before[w]);
                }
            }
        }
        let ghost inc_before = incompats@;
        mark_clashes(&mut incompats, store, v, node_count);
        assert forall|c: int|
            0 <= c < store@.len() implies (incompats@[c] <==> exists|k2: int|
                1 <= k2 < k + 1 && inner(store@[c].path@).contains(#[trigger] t@[k2])) by {
            if inc_before[c] {
                let k2 = choose|k2: int|
                    1 <= k2 < k && inner(store@[c].path@).contains(#[trigger] t@[k2]);
                assert(1 <= k2 < k + 1);
            }
            if exists|k2: int| 1 <= k2 < k + 1 && inner(store@[c].path@).contains(#[trigger] t@[k2]) {
                let k2 = choose|k2: int|
                    1 <= k2 < k + 1 && inner(store@[c].path@).contains(#[trigger] t@[k2]);
                if k2 < k {
                    assert(inc_before[c]);
                }
            }
        }
        k = k + 1;
    }
    let r = Candidate { branch, path, hit_node, incompats };
    proof {
        if len == 1 {
            assert(ip.len() == 0);
        }
        assert forall|x: NodeId| ip.contains(x) <==> exists|k2: int|
            1 <= k2 < k && #[trigger] t@[k2] == x by {
            if ip.contains(x) {
                let k2 = choose|k2: int| 1 <= k2 < len - 1 && #[trigger] t@[k2] == x;
                assert(k2 < k);
            }
            if exists|k2: int| 1 <= k2 < k && #[trigger] t@[k2] == x {
                let k2 = choose|k2: int| 1 <= k2 < k && #[trigger] t@[k2] == x;
                assert(k2 < len - 1);
            }
        }
        lemma_candidate_store(store@, r, t@, k as int, node_count as nat);
    }
    r
}


/// Node `v` has been reached: it is the start, or a branch was made to it.
pub open spec fn reached(g: GraphModel, e: ExplorerModel, v: int) -> bool {
    v == g.start.0 || e.counts[v] >= 1
}

/// Every link of node `v` leads to a reached node.
pub open spec fn expanded(g: GraphModel, e: ExplorerModel, v: int) -> bool {
    forall|j: int| 0 <= j < g.links[v].len() ==> reached(g, e, (#[trigger] g.links[v][j]).0 as int)
}

/// A branch standing at node `v` waits in the queue.
pub open spec fn waiting(q: Seq<Seq<Branch>>, v: int) -> bool {
    exists|b: Branch| #[trigger] holds(q, b) && b.node.0 == v
}

/// What the search keeps true of the nodes it reached: each branch stands at
/// a reached node, and every reached node but the end has either all its
/// links reached or a branch waiting in the queue.
pub open spec fn coverage_ok(g: GraphModel, e: ExplorerModel, q: Seq<Seq<Branch>>) -> bool {
    &&& forall|k: int| 1 <= k < e.entries.len() ==> reached(g, e, (#[trigger] e.entries[k]).node.0 as int)
    &&& forall|v: int|
        0 <= v < g.node_count() && v != g.end.0 && #[trigger] reached(g, e, v) ==> expanded(g, e, v)
            || waiting(q, v)
}

/// With every queued branch gone and the end not reached, no path joins the
/// start to the end.
proof fn lemma_no_path(g: GraphModel, e: ExplorerModel, q: Seq<Seq<Branch>>, p: Seq<NodeId>)
    requires
        g.wf(),
        e.counts.len() == g.node_count(),
        coverage_ok(g, e, q),
        size(q) == 0,
        !reached(g, e, g.end.0 as int),
    ensures
        !is_path(g, p),
{
    if is_path(g, p) {
        if p.len() == 0 {
            assert(reached(g, e, g.start.0 as int));
        } else {
            lemma_path_reached(g, e, q, p, p.len() as int);
            assert(p[p.len() - 1] == g.end);
        }
    }
}

proof fn lemma_path_reached(g: GraphModel, e: ExplorerModel, q: Seq<Seq<Branch>>, p: Seq<NodeId>, j: int)
    requires
        g.wf(),
        e.counts.len() == g.node_count(),
        coverage_ok(g, e, q),
        size(q) == 0,
        !reached(g, e, g.end.0 as int),
        is_path(g, p),
        p.len() >= 1,
        0 <= j <= p.len(),
    ensures
        reached(g, e, crate::shortest::step_node(g, p, j).0 as int),
    decreases j,
{
    if j > 0 {
        lemma_path_reached(g, e, q, p, j - 1);
        let prev = crate::shortest::step_node(g, p, j - 1);
        let cur = crate::shortest::step_node(g, p, j);
        assert(cur == p[j - 1]);
        assert(g.linked(prev, cur)) by {
            if j > 1 {
                assert(prev == p[j - 2]);
                assert(g.linked(p[j - 2], p[j - 1]));
            }
        }
        assert(g.has_node(prev)) by {
            if j > 1 {
                assert(g.linked(p[j - 2], p[j - 1]));
            }
        }
        assert(prev.0 != g.end.0) by {
            if j > 1 {
                assert(p[j - 2] != p[p.len() - 1]);
            }
        }
        if waiting(q, prev.0 as int) {
            let b = choose|b: Branch| #[trigger] holds(q, b) && b.node.0 == prev.0;
            lemma_empty_holds_nothing(q, b);
        }
        assert(expanded(g, e, prev.0 as int));
        let k = choose|k: int| 0 <= k < g.links[prev.0 as int].len() && g.links[prev.0 as int][k] == cur;
        assert(reached(g, e, g.links[prev.0 as int][k].0 as int));
    } else {
        assert(crate::shortest::step_node(g, p, 0) == g.start);
    }
}

/// The state of the search, as plain values: the branches minted, how many
/// reached each node, the queue's buckets, and the candidates recorded.
pub ghost struct SearchState {
    pub entries: Seq<Entry>,
    pub counts: Seq<usize>,
    pub queue: Seq<Seq<Branch>>,
    pub store: Seq<Branch>,
}

/// The path that branch `b` describes, start excluded.
pub open spec fn branch_path(entries: Seq<Entry>, b: Branch) -> Seq<NodeId> {
    forward(trace_of(entries, b.id.0 as nat))
}

/// The lowest bucket from `i` on that is not empty.
pub open spec fn first_nonempty(q: Seq<Seq<Branch>>, i: nat) -> Option<nat>
    decreases q.len() - i,
{
    if i >= q.len() {
        None
    } else if q[i as int].len() > 0 {
        Some(i)
    } else {
        first_nonempty(q, i + 1)
    }
}

/// The group of `count` candidates that comes first in candidate order
/// among those that clash neither with one another nor with `excluded`.
pub open spec fn first_group(paths: Seq<Seq<NodeId>>, excluded: Seq<bool>, count: nat) -> Option<
    Seq<usize>,
> {
    if exists|g: Seq<usize>|
        #[trigger] group_ok(paths, excluded, 0, count, g) && forall|h: Seq<usize>|
            group_ok(paths, excluded, 0, count, h) ==> !lex_less(h, g) {
        Some(
            choose|g: Seq<usize>|
                #[trigger] group_ok(paths, excluded, 0, count, g) && forall|h: Seq<usize>|
                    group_ok(paths, excluded, 0, count, h) ==> !lex_less(h, g),
        )
    } else {
        None
    }
}

/// The state after branching from `b` along the first `k` links of its node:
/// a link on the path that led to `b` is skipped; otherwise a branch is
/// minted there, and queued at the level of that node's access record unless
/// the level is `cap` or more.
pub open spec fn expand_state(g: GraphModel, cap: nat, st: SearchState, b: Branch, k: nat) -> SearchState
    decreases k,
{
    if k == 0 {
        st
    } else {
        let prev = expand_state(g, cap, st, b, (k - 1) as nat);
        let link = g.links[b.node.0 as int][k - 1];
        if trace_of(prev.entries, b.id.0 as nat).contains(link) {
            prev
        } else {
            let c = (prev.counts[link.0 as int] + 1) as usize;
            let nb = Branch { id: BranchId(prev.entries.len() as usize), node: link };
            let p = padded(prev.queue, c as nat + 1);
            SearchState {
                entries: prev.entries.push(Entry { node: link, parent: b }),
                counts: prev.counts.update(link.0 as int, c),
                queue: if c < cap {
                    p.update(c as int, p[c as int].push(nb))
                } else {
                    prev.queue
                },
                store: prev.store,
            }
        }
    }
}

/// Where the search ends from state `st`, with `fuel` steps at most: each
/// step takes the next branch; one at the end node becomes a candidate, and
/// ends the search when a group of `n - 1` earlier candidates goes with it;
/// any other is branched along its links.
pub open spec fn search_outcome(g: GraphModel, n: nat, cap: nat, st: SearchState, fuel: nat) -> Option<
    Seq<Seq<NodeId>>,
>
    decreases fuel,
{
    if fuel == 0 {
        None
    } else {
        match first_nonempty(st.queue, 0) {
            None => None,
            Some(i) => {
                let b = st.queue[i as int][0];
                let popped = SearchState {
                    queue: st.queue.update(i as int, st.queue[i as int].drop_first()),
                    ..st
                };
                if b.node == g.end {
                    let p = branch_path(st.entries, b);
                    let paths = Seq::new(st.store.len(), |k: int| branch_path(st.entries, st.store[k]));
                    let excluded = Seq::new(st.store.len(), |k: int| clash(p, paths[k]));
                    match first_group(paths, excluded, (n - 1) as nat) {
                        Some(gr) => Some(Seq::new(gr.len(), |k: int| paths[gr[k] as int]).push(p)),
                        None => search_outcome(
                            g,
                            n,
                            cap,
                            SearchState { store: popped.store.push(b), ..popped },
                            (fuel - 1) as nat,
                        ),
                    }
                } else {
                    search_outcome(
                        g,
                        n,
                        cap,
                        expand_state(g, cap, popped, b, g.links[b.node.0 as int].len()),
                        (fuel - 1) as nat,
                    )
                }
            },
        }
    }
}

/// What searching for disjoint paths from `n` down gives: the paths of the
/// first count, from `n` down to one, for which the search succeeds.
pub open spec fn best_paths(g: GraphModel, n: nat) -> Option<Seq<Seq<NodeId>>>
    decreases n,
{
    if n == 0 {
        None
    } else {
        match n_shortest_of(g, n) {
            Some(p) => Some(p),
            None => best_paths(g, (n - 1) as nat),
        }
    }
}

/// The search's state as plain values.
pub open spec fn state_of(e: ExplorerModel, q: Seq<Seq<Branch>>, store: Seq<Candidate>) -> SearchState {
    SearchState {
        entries: e.entries,
        counts: e.counts,
        queue: q,
        store: Seq::new(store.len(), |k: int| store[k].branch),
    }
}

/// The state the search starts from: one branch, at the start node, queued.
pub open spec fn initial_state(g: GraphModel) -> SearchState {
    SearchState {
        entries: seq![
            Entry { node: NodeId(usize::MAX), parent: Branch::spec_origin() },
            Entry { node: g.start, parent: Branch::spec_origin() },
        ],
        counts: Seq::new(g.node_count(), |v: int| 0usize),
        queue: seq![seq![Branch { id: BranchId(1), node: g.start }]],
        store: Seq::empty(),
    }
}

/// The level from which the search drops branches, for `n` paths.
pub open spec fn overlap_cap(n: nat) -> nat {
    if n <= usize::MAX / 2 {
        2 * n
    } else {
        usize::MAX as nat
    }
}

/// The paths that the search for `n` disjoint paths finds in `g`, if any.
pub open spec fn n_shortest_of(g: GraphModel, n: nat) -> Option<Seq<Seq<NodeId>>> {
    if n == 0 {
        Some(Seq::empty())
    } else if n > g.majorant() {
        None
    } else {
        search_outcome(
            g,
            n,
            overlap_cap(n),
            initial_state(g),
            2 + slack(Seq::new(g.node_count(), |v: int| 0usize), overlap_cap(n)),
        )
    }
}

proof fn lemma_first_nonempty_lowest(q: Seq<Seq<Branch>>, i: int, j: nat)
    requires
        lowest(q, i),
        j <= i,
    ensures
        first_nonempty(q, j) == Some(i as nat),
    decreases i - j,
{
    if j < i {
        assert(q[j as int].len() == 0);
        lemma_first_nonempty_lowest(q, i, j + 1);
    }
}

proof fn lemma_first_nonempty_none(q: Seq<Seq<Branch>>, j: nat)
    requires
        size(q) == 0,
    ensures
        first_nonempty(q, j) is None,
    decreases q.len() - j,
{
    if j < q.len() {
        if q[j as int].len() > 0 {
            assert(holds(q, q[j as int][0]));
            lemma_empty_holds_nothing(q, q[j as int][0]);
        }
        lemma_first_nonempty_none(q, j + 1);
    }
}

proof fn lemma_lex_trichotomy(a: Seq<usize>, b: Seq<usize>, k: int)
    requires
        a.len() == b.len(),
        0 <= k <= a.len(),
        a.take(k) == b.take(k),
    ensures
        a == b || lex_less(a, b) || lex_less(b, a),
    decreases a.len() - k,
{
    if k == a.len() {
        assert(a =~= a.take(k));
        assert(b =~= b.take(k));
    } else if a[k] == b[k] {
        assert(a.take(k + 1) =~= a.take(k).push(a[k]));
        assert(b.take(k + 1) =~= b.take(k).push(b[k]));
        lemma_lex_trichotomy(a, b, k + 1);
    } else if a[k] < b[k] {
        assert(lex_less(a, b));
    } else {
        assert(b.take(k) == a.take(k));
        assert(lex_less(b, a));
    }
}

/// The group `find_group` returns is the first one.
proof fn lemma_first_group(paths: Seq<Seq<NodeId>>, excluded: Seq<bool>, count: nat, g: Seq<usize>)
    requires
        group_ok(paths, excluded, 0, count, g),
        forall|h: Seq<usize>| #[trigger] group_ok(paths, excluded, 0, count, h) ==> !lex_less(h, g),
    ensures
        first_group(paths, excluded, count) == Some(g),
{
    let f = choose|f: Seq<usize>|
        #[trigger] group_ok(paths, excluded, 0, count, f) && forall|h: Seq<usize>|
            group_ok(paths, excluded, 0, count, h) ==> !lex_less(h, f);
    assert(g.take(0) =~= f.take(0));
    lemma_lex_trichotomy(g, f, 0);
}

/// The paths of the candidates in `group`, in that order, followed by the
/// path of `last`.
fn collect(store: &Vec<Candidate>, group: &Vec<usize>, last: &Candidate) -> (r: Vec<Path>)
    requires
        forall|i: int| 0 <= i < group@.len() ==> #[trigger] group@[i] < store@.len(),
    ensures
        r@.len() == group@.len() + 1,
        forall|i: int|
            0 <= i < group@.len() ==> #[trigger] r@[i]@ == store@[group@[i] as int].path@,
        r@[group@.len() as int]@ == last.path@,
{
    let mut r: Vec<Path> = Vec::new();
    let mut i: usize = 0;
    while i < group.len()
        invariant
            i <= group@.len(),
            r@.len() == i,
            forall|i: int| 0 <= i < group@.len() ==> #[trigger] group@[i] < store@.len(),
            forall|j: int| 0 <= j < i ==> #[trigger] r@[j]@ == store@[group@[j] as int].path@,
        decreases group@.len() - i,
    {
        r.push(store[group[i]].path.duplicate());
        i = i + 1;
    }
    r.push(last.path.duplicate());
    r
}

impl Path {
    /// Searches `graph` for `n` paths from its start to its end that share no
    /// node but those two.
    ///
    /// Branches are explored breadth first, less crowded nodes first; a branch
    /// is dropped when its node has already been reached `2 n` times. Each
    /// branch that reaches the end becomes a candidate, and the search stops
    /// as soon as it clashes with none of some `n - 1` earlier candidates that
    /// clash with none of one another. `None` when `n` exceeds the smaller
    /// degree of the two terminals, or when the branches run out first.
    pub fn n_shortest(graph: &Graph, n: usize) -> (r: Option<Vec<Path>>)
        requires
            graph.wf(),
        ensures
            n == 0 ==> (r matches Some(ps) && ps@.len() == 0),
            n > graph@.majorant() ==> r is None,
            r matches Some(ps) ==> ps@.len() == n && disjoint_paths(graph@, views(ps@)),
            n == 1 && graph@.majorant() >= 1 && (exists|p: Seq<NodeId>| is_path(graph@, p)) ==> r is Some,
            match (r, n_shortest_of(graph@, n as nat)) {
                (Some(ps), Some(q)) => views(ps@) == q,
                (None, None) => true,
                _ => false,
            },
    {
        if n == 0 {
            assert(views(Seq::<Path>::empty()) =~= Seq::<Seq<NodeId>>::empty());
            return Some(Vec::new());
        }
        let max_possible = graph.simple_throughput_majorant();
        if n > max_possible {
            return None;
        }
        let max_overlap: usize = if n <= usize::MAX / 2 {
            2 * n
        } else {
            usize::MAX
        };
        assert(max_overlap == overlap_cap(n as nat));
        let node_count = graph.nodes().len();
        let mut work_queue = WorkQueue::new(max_overlap);
        let mut explorer = Explorer::new(graph);
        let mut valid_paths: Vec<Candidate> = Vec::new();
        let root = explorer.start(graph.start());
        let level = explorer.record_len(graph.start());
        work_queue.push(root, level);
        proof {
            reveal_with_fuel(trace_of, 2);
            let g = graph@;
            let e = explorer@;
            assert(holds(work_queue@, root));
            assert forall|v: int|
                0 <= v < g.node_count() && #[trigger] reached(g, e, v) implies v == g.start.0 && waiting(
                work_queue@,
                v,
            ) by {
                assert(e.counts[v] == 0);
            }
            let st = state_of(e, work_queue@, valid_paths@);
            let init = initial_state(g);
            assert(st.entries =~= init.entries);
            assert(st.counts =~= init.counts);
            assert(work_queue@[0] =~= seq![root]);
            assert(st.queue =~= init.queue);
            assert(st.store =~= init.store);
            assert(size(work_queue@) == 1) by {
                reveal_with_fuel(size, 2);
            }
        }
        let ghost mut fuel: nat = 2 + slack(Seq::new(graph@.node_count(), |v: int| 0usize), max_overlap as nat);
        loop
            invariant
                graph.wf(),
                n >= 1,
                n <= graph@.majorant(),
                node_count == graph@.node_count(),
                explorer@.wf(),
                explorer@.counts.len() == node_count,
                walks_ok(graph@, explorer@),
                forall|b: Branch|
                    #[trigger] holds(work_queue@, b) ==> explorer@.valid(b) && b.id.0 >= 1,
                work_queue.max_overlap() == max_overlap,
                store_ok(valid_paths@, node_count as nat),
                forall|k: int|
                    0 <= k < valid_paths@.len() ==> is_path(graph@, #[trigger] valid_paths@[k].path@),
                coverage_ok(graph@, explorer@, work_queue@),
                max_overlap >= 2,
                max_overlap == overlap_cap(n as nat),
                n_shortest_of(graph@, n as nat) == search_outcome(
                    graph@,
                    n as nat,
                    max_overlap as nat,
                    state_of(explorer@, work_queue@, valid_paths@),
                    fuel,
                ),
                fuel >= size(work_queue@) + slack(explorer@.counts, max_overlap as nat) + 1,
                forall|k: int|
                    0 <= k < valid_paths@.len() ==> (#[trigger] valid_paths@[k]).branch.id.0
                        < explorer@.entries.len() && valid_paths@[k].path@ == branch_path(
                        explorer@.entries,
                        valid_paths@[k].branch,
                    ),
                n == 1 && reached(graph@, explorer@, graph@.end.0 as int) ==> waiting(
                    work_queue@,
                    graph@.end.0 as int,
                ),
            decreases size(work_queue@) + slack(explorer@.counts, max_overlap as nat),
        {
            let ghost queue_before_pop = work_queue@;
            let branch = match work_queue.next() {
                None => {
                    proof {
                        lemma_first_nonempty_none(queue_before_pop, 0);
                        assert(state_of(explorer@, work_queue@, valid_paths@).queue == queue_before_pop);
                        if n == 1 {
                            if reached(graph@, explorer@, graph@.end.0 as int) {
                                let b = choose|b: Branch|
                                    #[trigger] holds(work_queue@, b) && b.node.0 == graph@.end.0;
                                lemma_empty_holds_nothing(work_queue@, b);
                            }
                            assert forall|p: Seq<NodeId>| !is_path(graph@, p) by {
                                lemma_no_path(graph@, explorer@, work_queue@, p);
                            }
                        }
                    }
                    return None;
                },
                Some(b) => b,
            };
            proof {
                let g = graph@;
                let e = explorer@;
                assert forall|v: int|
                    0 <= v < g.node_count() && v != branch.node.0 && waiting(queue_before_pop, v) implies waiting(
                    work_queue@,
                    v,
                ) by {
                    let y = choose|y: Branch| #[trigger] holds(queue_before_pop, y) && y.node.0 == v;
                    assert(holds(work_queue@, y));
                }
            }
            let ghost bound = size(work_queue@) + slack(explorer@.counts, max_overlap as nat);
            let ghost popped = state_of(explorer@, work_queue@, valid_paths@);
            proof {
                let i = choose|i: int|
                    #![trigger queue_before_pop[i]]
                    lowest(queue_before_pop, i) && branch == queue_before_pop[i][0] && work_queue@
                        == queue_before_pop.update(i, queue_before_pop[i].drop_first());
                lemma_first_nonempty_lowest(queue_before_pop, i, 0);
                let st = state_of(explorer@, queue_before_pop, valid_paths@);
                assert(popped == SearchState { queue: st.queue.update(i, st.queue[i].drop_first()), ..st });
                assert(fuel >= 1);
            }
            assert(walk(graph@, explorer@.trace(branch)));
            proof {
                lemma_trace_head(explorer@, branch);
            }
            if branch.node == graph.end() {
                let current = make_candidate(graph, &explorer, branch, &valid_paths);
                assert(valid_paths@.push(current)[valid_paths@.len() as int] == current);
                match find_group(&current.incompats, &valid_paths, 0, n - 1) {
                    Some(group) => {
                        let ghost ps = store_paths(valid_paths@);
                        assert(group_ok(ps, current.incompats@, 0, (n - 1) as nat, group@));
                        let r = collect(&valid_paths, &group, &current);
                        proof {
                            lemma_group_paths(graph@, valid_paths@, current, group@, r@);
                            let st = popped;
                            let pm = Seq::new(st.store.len(), |k: int| branch_path(st.entries, st.store[k]));
                            assert(pm =~= ps);
                            let p = branch_path(st.entries, branch);
                            assert(p == current.path@);
                            let ex = Seq::new(st.store.len(), |k: int| clash(p, pm[k]));
                            assert forall|k: int| 0 <= k < ex.len() implies ex[k] == current.incompats@[k] by {
                                assert(valid_paths@.push(current)[k] == valid_paths@[k]);
                            }
                            assert(ex =~= current.incompats@);
                            lemma_first_group(ps, current.incompats@, (n - 1) as nat, group@);
                            assert(views(r@) =~= Seq::new(group@.len(), |k: int| pm[group@[k] as int]).push(p));
                        }
                        return Some(r);
                    },
                    None => {
                        proof {
                            if n == 1 {
                                assert(group_ok(
                                    store_paths(valid_paths@),
                                    current.incompats@,
                                    0,
                                    0,
                                    Seq::<usize>::empty(),
                                ));
                            }
                            let st = popped;
                            let pm = Seq::new(st.store.len(), |k: int| branch_path(st.entries, st.store[k]));
                            assert(pm =~= store_paths(valid_paths@));
                            let p = branch_path(st.entries, branch);
                            let ex = Seq::new(st.store.len(), |k: int| clash(p, pm[k]));
                            assert forall|k: int| 0 <= k < ex.len() implies ex[k] == current.incompats@[k] by {
                                assert(valid_paths@.push(current)[k] == valid_paths@[k]);
                            }
                            assert(ex =~= current.incompats@);
                            assert(first_group(pm, ex, (n - 1) as nat) is None);
                        }
                        let ghost old_store = valid_paths@;
                        valid_paths.push(current);
                        proof {
                            assert(state_of(explorer@, work_queue@, valid_paths@).store =~= popped.store.push(
                                branch,
                            ));
                            assert(state_of(explorer@, work_queue@, valid_paths@) == SearchState {
                                store: popped.store.push(branch),
                                ..popped
                            });
                            assert forall|k: int| 0 <= k < valid_paths@.len() implies (
                            #[trigger] valid_paths@[k]).branch.id.0 < explorer@.entries.len()
                                && valid_paths@[k].path@ == branch_path(
                                explorer@.entries,
                                valid_paths@[k].branch,
                            ) by {
                                if k < old_store.len() {
                                    assert(valid_paths@[k] == old_store[k]);
                                }
                            }
                            fuel = (fuel - 1) as nat;
                        }
                    },
                }
            } else {
                let links = graph.links(branch.node);
                let mut k: usize = 0;
                while k < links.len()
                    invariant
                        graph.wf(),
                        links@ == graph@.links[branch.node.0 as int],
                        graph@.has_node(branch.node),
                        k <= links@.len(),
                        node_count == graph@.node_count(),
                        explorer@.wf(),
                        explorer@.counts.len() == node_count,
                        explorer@.valid(branch),
                        branch.id.0 >= 1,
                        walks_ok(graph@, explorer@),
                        forall|b: Branch|
                            #[trigger] holds(work_queue@, b) ==> explorer@.valid(b) && b.id.0 >= 1,
                        work_queue.max_overlap() == max_overlap,
                        size(work_queue@) + slack(explorer@.counts, max_overlap as nat) <= bound,
                        max_overlap >= 2,
                        branch.node != graph@.end,
                        forall|kk: int|
                            1 <= kk < explorer@.entries.len() ==> reached(
                                graph@,
                                explorer@,
                                (#[trigger] explorer@.entries[kk]).node.0 as int,
                            ),
                        forall|v: int|
                            0 <= v < graph@.node_count() && v != graph@.end.0 && v != branch.node.0
                                && #[trigger] reached(graph@, explorer@, v) ==> expanded(graph@, explorer@, v)
                                || waiting(work_queue@, v),
                        forall|j: int|
                            0 <= j < k ==> reached(graph@, explorer@, (#[trigger] links@[j]).0 as int),
                        n == 1 && reached(graph@, explorer@, graph@.end.0 as int) ==> waiting(
                            work_queue@,
                            graph@.end.0 as int,
                        ),
                        state_of(explorer@, work_queue@, valid_paths@) == expand_state(
                            graph@,
                            max_overlap as nat,
                            popped,
                            branch,
                            k as nat,
                        ),
                        forall|q: int|
                            0 <= q < valid_paths@.len() ==> (#[trigger] valid_paths@[q]).branch.id.0
                                < explorer@.entries.len() && valid_paths@[q].path@ == branch_path(
                                explorer@.entries,
                                valid_paths@[q].branch,
                            ),
                    decreases links@.len() - k,
                {
                    let link = links[k];
                    assert(graph@.links[branch.node.0 as int][k as int] == link);
                    let visited = explorer.visits(branch, link);
                    proof {
                        if visited {
                            assert(expand_state(graph@, max_overlap as nat, popped, branch, (k + 1) as nat)
                                == expand_state(graph@, max_overlap as nat, popped, branch, k as nat));
                            crate::explorer::lemma_trace_nodes(
                                explorer@.entries,
                                branch.id.0 as nat,
                                link,
                            );
                            let kk = choose|kk: int|
                                1 <= kk < explorer@.entries.len() && (#[trigger] explorer@.entries[kk]).node
                                    == link;
                            assert(reached(graph@, explorer@, explorer@.entries[kk].node.0 as int));
                        }
                    }
                    if !visited {
                        let ghost before = explorer@;
                        let ghost queue_before = work_queue@;
                        let next = explorer.branch(branch, link);
                        let level = explorer.record_len(link);
                        work_queue.push(next, level);
                        proof {
                            let prev = expand_state(graph@, max_overlap as nat, popped, branch, k as nat);
                            assert(prev.entries == before.entries);
                            assert(!trace_of(prev.entries, branch.id.0 as nat).contains(link));
                            let c = (before.counts[link.0 as int] + 1) as usize;
                            assert(level == c);
                            let nb = Branch { id: BranchId(prev.entries.len() as usize), node: link };
                            assert(next == nb);
                            let now = state_of(explorer@, work_queue@, valid_paths@);
                            let want = expand_state(graph@, max_overlap as nat, popped, branch, (k + 1) as nat);
                            assert(now.store =~= prev.store);
                            assert(now == want);
                            assert(before.entries =~= explorer@.entries.subrange(0, before.entries.len() as int));
                            assert forall|q: int|
                                0 <= q < valid_paths@.len() implies (#[trigger] valid_paths@[q]).branch.id.0
                                    < explorer@.entries.len() && valid_paths@[q].path@ == branch_path(
                                    explorer@.entries,
                                    valid_paths@[q].branch,
                                ) by {
                                crate::explorer::lemma_trace_prefix(
                                    before.entries,
                                    explorer@.entries,
                                    valid_paths@[q].branch.id.0 as nat,
                                );
                            }
                            lemma_slack_update(
                                before.counts,
                                link.0 as int,
                                (before.counts[link.0 as int] + 1) as usize,
                                max_overlap as nat,
                            );
                            lemma_trace_head(before, branch);
                            assert(graph@.linked(branch.node, link));
                            assert forall|b: Branch| #[trigger]
                                holds(work_queue@, b) implies explorer@.valid(b) && b.id.0 >= 1 by {
                                if holds(queue_before, b) {
                                    assert(before.valid(b));
                                    assert(explorer@.entries[b.id.0 as int] == before.entries[b.id.0 as int]);
                                }
                            }
                            lemma_walk_extend(graph@, before.trace(branch), link);
                            assert forall|id: nat|
                                1 <= id < explorer@.entries.len() implies walk(
                                graph@,
                                #[trigger] trace_of(explorer@.entries, id),
                            ) by {
                                if id < before.entries.len() {
                                    assert(before.entries =~= explorer@.entries.subrange(
                                        0,
                                        before.entries.len() as int,
                                    ));
                                    crate::explorer::lemma_trace_prefix(
                                        before.entries,
                                        explorer@.entries,
                                        id,
                                    );
                                    assert(walk(graph@, trace_of(before.entries, id)));
                                } else {
                                    assert(id == next.id.0);
                                }
                            }
                            let g = graph@;
                            let e = explorer@;
                            let c = before.counts[link.0 as int];
                            assert(graph@.has_node(link));
                            assert forall|w: int|
                                0 <= w < g.node_count() && reached(g, before, w) implies #[trigger] reached(
                                g,
                                e,
                                w,
                            ) by {
                                if w == link.0 {
                                } else {
                                    assert(e.counts[w] == before.counts[w]);
                                }
                            }
                            assert(holds(work_queue@, next) || c + 1 >= max_overlap);
                            assert forall|kk: int|
                                1 <= kk < e.entries.len() implies reached(
                                g,
                                e,
                                (#[trigger] e.entries[kk]).node.0 as int,
                            ) by {
                                if kk < before.entries.len() {
                                    let x = before.entries[kk];
                                    assert(e.entries[kk] == x);
                                    assert(reached(g, before, x.node.0 as int));
                                    let bk = Branch { id: crate::explorer::BranchId(kk as usize), node: x.node };
                                    lemma_trace_head(before, bk);
                                    assert(walk(g, trace_of(before.entries, kk as nat)));
                                    assert(g.has_node(trace_of(before.entries, kk as nat)[0]));
                                    assert(reached(g, e, x.node.0 as int));
                                }
                            }
                            assert forall|v: int|
                                0 <= v < g.node_count() && v != g.end.0 && v != branch.node.0
                                    && #[trigger] reached(g, e, v) implies expanded(g, e, v) || waiting(
                                work_queue@,
                                v,
                            ) by {
                                if v == link.0 && c == 0 {
                                    assert(holds(work_queue@, next));
                                } else {
                                    assert(reached(g, before, v));
                                    if expanded(g, before, v) {
                                        assert forall|j: int| 0 <= j < g.links[v].len() implies reached(
                                            g,
                                            e,
                                            (#[trigger] g.links[v][j]).0 as int,
                                        ) by {
                                            assert(g.has_node(g.links[v][j]));
                                            assert(reached(g, before, g.links[v][j].0 as int));
                                        }
                                    } else {
                                        let y = choose|y: Branch| #[trigger] holds(queue_before, y) && y.node.0 == v;
                                        assert(holds(work_queue@, y));
                                    }
                                }
                            }
                            if n == 1 && reached(g, e, g.end.0 as int) {
                                if link == g.end && c == 0 {
                                    assert(holds(work_queue@, next));
                                } else {
                                    assert(reached(g, before, g.end.0 as int));
                                    let y = choose|y: Branch|
                                        #[trigger] holds(queue_before, y) && y.node.0 == g.end.0;
                                    assert(holds(work_queue@, y));
                                }
                            }
                            assert forall|j: int| 0 <= j <= k implies reached(
                                g,
                                e,
                                (#[trigger] links@[j]).0 as int,
                            ) by {
                                if j < k {
                                    assert(g.has_node(links@[j]));
                                    assert(reached(g, before, links@[j].0 as int));
                                }
                            }
                        }
                    }
                    k = k + 1;
                }
                proof {
                    let g = graph@;
                    assert forall|j: int| 0 <= j < g.links[branch.node.0 as int].len() implies reached(
                        g,
                        explorer@,
                        (#[trigger] g.links[branch.node.0 as int][j]).0 as int,
                    ) by {
                        assert(links@[j] == g.links[branch.node.0 as int][j]);
                    }
                    assert(expanded(g, explorer@, branch.node.0 as int));
                    assert(links@.len() == g.links[branch.node.0 as int].len());
                    fuel = (fuel - 1) as nat;
                }
            }
        }
    }
}

/// The candidates of a group found for `current`, with `current` itself,
/// are paths of the graph that share no node but the terminals.
proof fn lemma_group_paths(
    g: GraphModel,
    store: Seq<Candidate>,
    current: Candidate,
    group: Seq<usize>,
    r: Seq<Path>,
)
    requires
        forall|k: int| 0 <= k < store.len() ==> is_path(g, #[trigger] store[k].path@),
        is_path(g, current.path@),
        store_ok(store.push(current), g.node_count()),
        group_ok(store_paths(store), current.incompats@, 0, group.len(), group),
        r.len() == group.len() + 1,
        forall|i: int| 0 <= i < group.len() ==> #[trigger] r[i]@ == store[group[i] as int].path@,
        r[group.len() as int]@ == current.path@,
    ensures
        disjoint_paths(g, views(r)),
{
    let ps = store_paths(store);
    let vs = views(r);
    let m = group.len() as int;
    let s2 = store.push(current);
    assert(s2[store.len() as int] == current);
    assert forall|i: int| 0 <= i < vs.len() implies is_path(g, #[trigger] vs[i]) by {
        if i < m {
            assert(vs[i] == store[group[i] as int].path@);
        }
    }
    assert forall|i: int, j: int|
        0 <= i < vs.len() && 0 <= j < vs.len() && i != j implies disjoint(
        #[trigger] vs[i],
        #[trigger] vs[j],
    ) by {
        if i < m && j < m {
            if i < j {
                assert(!clash(ps[group[i] as int], ps[group[j] as int]));
            } else {
                assert(!clash(ps[group[j] as int], ps[group[i] as int]));
                lemma_clash_symmetric(ps[group[j] as int], ps[group[i] as int]);
            }
        } else if i < m {
            assert(!current.incompats@[group[i] as int]);
            assert(s2[group[i] as int] == store[group[i] as int]);
            lemma_clash_symmetric(current.path@, ps[group[i] as int]);
        } else {
            assert(!current.incompats@[group[j] as int]);
            assert(s2[group[j] as int] == store[group[j] as int]);
        }
    }
}


impl Graph {
    /// Searches the graph for `n` paths from its start to its end that share
    /// no node but those two; see [`Path::n_shortest`].
    pub fn n_shortest_paths(&self, n: usize) -> (r: Option<Vec<Path>>)
        requires
            self.wf(),
        ensures
            n == 0 ==> (r matches Some(ps) && ps@.len() == 0),
            n > self@.majorant() ==> r is None,
            r matches Some(ps) ==> ps@.len() == n && disjoint_paths(self@, views(ps@)),
            n == 1 && self@.majorant() >= 1 && (exists|p: Seq<NodeId>| is_path(self@, p)) ==> r is Some,
            match (r, n_shortest_of(self@, n as nat)) {
                (Some(ps), Some(q)) => views(ps@) == q,
                (None, None) => true,
                _ => false,
            },
    {
        Path::n_shortest(self, n)
    }
}

} // verus!
