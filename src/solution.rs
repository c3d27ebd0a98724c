use vstd::prelude::*;

use crate::graph::{Graph, GraphModel};
use crate::node::NodeId;
use crate::path::{disjoint_paths, is_path, views, Path};
use crate::search::best_paths;
use crate::simulate::{lemma_ticks_send_all, simulable};

verus! {

/// One phase of a schedule, as the contracts see it.
pub ghost struct StepModel {
    pub duration: nat,
    pub paths: Seq<Seq<NodeId>>,
}

/// For `duration` consecutive ticks, one new ant enters each of `paths`.
pub struct SolutionStep {
    duration: usize,
    paths: Vec<Path>,
}

impl View for SolutionStep {
    type V = StepModel;

    closed spec fn view(&self) -> StepModel {
        StepModel { duration: self.duration as nat, paths: views(self.paths@) }
    }
}

impl SolutionStep {
    pub fn duration(&self) -> (r: usize)
        ensures
            r == self@.duration,
    {
        self.duration
    }

    pub fn paths(&self) -> (r: &[Path])
        ensures
            views(r@) == self@.paths,
    {
        self.paths.as_slice()
    }
}

/// A schedule: its steps, the one with every path first, then fewer and fewer
/// paths as the longest is dropped.
pub struct Solution(Vec<SolutionStep>);

impl View for Solution {
    type V = Seq<StepModel>;

    closed spec fn view(&self) -> Seq<StepModel> {
        Seq::new(self.0@.len(), |i: int| self.0@[i]@)
    }
}

impl Solution {
    /// The steps, in order.
    pub fn steps(&self) -> (r: &[SolutionStep])
        ensures
            r@.len() == self@.len(),
            forall|i: int| 0 <= i < r@.len() ==> #[trigger] r@[i]@ == self@[i],
    {
        self.0.as_slice()
    }
}

/// The number of ants that the steps send: each sends one ant per path per
/// tick.
pub open spec fn total_sent(steps: Seq<StepModel>) -> nat
    decreases steps.len(),
{
    if steps.len() == 0 {
        0
    } else {
        steps[0].duration * steps[0].paths.len() + total_sent(steps.drop_first())
    }
}

/// The lengths of some paths, as integers.
pub open spec fn lengths(ps: Seq<Seq<NodeId>>) -> Seq<nat> {
    Seq::new(ps.len(), |i: int| ps[i].len())
}

/// The extra ticks that the first `k` paths need so that their last ants
/// arrive no later than those of a path of length `top`.
pub open spec fn gap_sum(lens: Seq<nat>, top: nat, k: nat) -> nat
    decreases k,
{
    if k == 0 {
        0
    } else {
        gap_sum(lens, top, (k - 1) as nat) + if top >= lens[k - 1] {
            (top - lens[k - 1]) as nat
        } else {
            0
        }
    }
}

/// How long the step over the first `w` paths lasts, with `remaining` ants
/// left to send: what is left over once the shorter paths have been given
/// their extra ticks, shared among the `w` paths.
pub open spec fn phase_duration(lens: Seq<nat>, remaining: nat, w: nat) -> nat {
    let need = gap_sum(lens, lens[w - 1], (w - 1) as nat);
    if w > 0 && remaining >= need {
        ((remaining - need) as nat) / w
    } else {
        0
    }
}

/// The phases, as (duration, number of paths), over windows of the shortest
/// `w`, `w - 1`, ..., `1` of the paths whose lengths are `lens` (sorted); a
/// window whose duration comes to zero gives no phase.
pub open spec fn plan(lens: Seq<nat>, remaining: nat, w: nat) -> Seq<(nat, nat)>
    decreases w,
{
    if w == 0 {
        Seq::empty()
    } else {
        let d = phase_duration(lens, remaining, w);
        if d > 0 {
            seq![(d, w)] + plan(lens, (remaining - d * w) as nat, (w - 1) as nat)
        } else {
            plan(lens, remaining, (w - 1) as nat)
        }
    }
}

/// `order` lists each index below `n` once.
pub open spec fn is_permutation(order: Seq<int>, n: nat) -> bool {
    &&& order.len() == n
    &&& forall|i: int| 0 <= i < n ==> 0 <= #[trigger] order[i] < n
    &&& order.no_duplicates()
}

/// The paths `ps` put in `order`.
pub open spec fn arranged(ps: Seq<Seq<NodeId>>, order: Seq<int>) -> Seq<Seq<NodeId>> {
    Seq::new(order.len(), |i: int| ps[order[i]])
}

/// Lengths that never decrease.
pub open spec fn ascending(lens: Seq<nat>) -> bool {
    forall|i: int, j: int| 0 <= i <= j < lens.len() ==> #[trigger] lens[i] <= #[trigger] lens[j]
}

/// Paths of one length keep, in `order`, the order they had in `ps`.
pub open spec fn stable(ps: Seq<Seq<NodeId>>, order: Seq<int>) -> bool {
    forall|a: int, b: int|
        0 <= a < b < order.len() && ps[#[trigger] order[a]].len() == ps[#[trigger] order[b]].len()
            ==> order[a] < order[b]
}

/// `steps` is the schedule of `ants` ants over the paths `ps` sorted by length
/// in `order`.
pub open spec fn scheduled(
    ps: Seq<Seq<NodeId>>,
    ants: nat,
    order: Seq<int>,
    steps: Seq<StepModel>,
) -> bool {
    let sorted = arranged(ps, order);
    let p = plan(lengths(sorted), ants, ps.len());
    &&& is_permutation(order, ps.len())
    &&& ascending(lengths(sorted))
    &&& stable(ps, order)
    &&& steps.len() == p.len()
    &&& forall|s: int|
        0 <= s < steps.len() ==> #[trigger] steps[s] == (StepModel {
            duration: p[s].0,
            paths: sorted.take(p[s].1 as int),
        })
}

/// `steps` is the schedule of `ants` ants over the paths `ps`, sorted by
/// length in some order.
pub open spec fn is_schedule_of(ps: Seq<Seq<NodeId>>, ants: nat, steps: Seq<StepModel>) -> bool {
    exists|order: Seq<int>| #[trigger] scheduled(ps, ants, order, steps)
}

/// Counting more paths never lowers the extra ticks they need.
pub proof fn lemma_gap_sum_monotone(lens: Seq<nat>, top: nat, a: nat, b: nat)
    requires
        a <= b,
    ensures
        gap_sum(lens, top, a) <= gap_sum(lens, top, b),
    decreases b,
{
    if a < b {
        lemma_gap_sum_monotone(lens, top, a, (b - 1) as nat);
    }
}

/// Every phase of a plan lasts at least a tick, windows shrink from one phase
/// to the next, and all the phases together send no more ants than there are.
pub proof fn lemma_plan_sound(lens: Seq<nat>, remaining: nat, w: nat)
    ensures
        forall|s: int| 0 <= s < plan(lens, remaining, w).len() ==> {
            let ph = #[trigger] plan(lens, remaining, w)[s];
            &&& ph.0 >= 1
            &&& 1 <= ph.1 <= w
        },
        forall|s: int, t: int|
            0 <= s < t < plan(lens, remaining, w).len() ==> #[trigger] plan(lens, remaining, w)[s].1
                > #[trigger] plan(lens, remaining, w)[t].1,
        plan_sent(plan(lens, remaining, w)) <= remaining,
        remaining > 0 && w > 0 ==> plan(lens, remaining, w).len() > 0,
        remaining == 0 ==> plan(lens, remaining, w).len() == 0,
    decreases w,
{
    if w > 0 {
        let d = phase_duration(lens, remaining, w);
        let need = gap_sum(lens, lens[w - 1], (w - 1) as nat);
        if d > 0 {
            let rest = (remaining - d * w) as nat;
            assert(d * w <= remaining - need) by (nonlinear_arith)
                requires
                    d == ((remaining - need) as nat) / w,
                    w > 0,
                    remaining >= need,
            ;
            lemma_plan_sound(lens, rest, (w - 1) as nat);
            let p = plan(lens, remaining, w);
            let q = plan(lens, rest, (w - 1) as nat);
            assert(p == seq![(d, w)] + q);
            assert(p.drop_first() =~= q);
            assert forall|s: int, t: int| 0 <= s < t < p.len() implies #[trigger] p[s].1
                > #[trigger] p[t].1 by {
                if s > 0 {
                    assert(p[s] == q[s - 1]);
                    assert(p[t] == q[t - 1]);
                } else {
                    assert(p[t] == q[t - 1]);
                }
            }
            assert forall|s: int| 0 <= s < p.len() implies {
                let ph = #[trigger] p[s];
                &&& ph.0 >= 1
                &&& 1 <= ph.1 <= w
            } by {
                if s > 0 {
                    assert(p[s] == q[s - 1]);
                }
            }
        } else {
            lemma_plan_sound(lens, remaining, (w - 1) as nat);
            if remaining > 0 && w == 1 {
                assert(gap_sum(lens, lens[0], 0) == 0);
                assert(((remaining - 0) as nat) / 1 == remaining) by (nonlinear_arith);
                assert(d == remaining);
            }
        }
    }
}

/// The number of ants that a plan sends.
pub open spec fn plan_sent(p: Seq<(nat, nat)>) -> nat
    decreases p.len(),
{
    if p.len() == 0 {
        0
    } else {
        p[0].0 * p[0].1 + plan_sent(p.drop_first())
    }
}

/// Step `s` lasts and spans as the plan's phase `s` says.
pub open spec fn step_follows(steps: Seq<StepModel>, p: Seq<(nat, nat)>, s: int) -> bool {
    steps[s].duration == p[s].0 && steps[s].paths.len() == p[s].1
}

proof fn lemma_sent_matches(steps: Seq<StepModel>, p: Seq<(nat, nat)>)
    requires
        steps.len() == p.len(),
        forall|s: int| 0 <= s < steps.len() ==> #[trigger] step_follows(steps, p, s),
    ensures
        total_sent(steps) == plan_sent(p),
    decreases steps.len(),
{
    if steps.len() > 0 {
        let a = steps.drop_first();
        let b = p.drop_first();
        assert forall|s: int| 0 <= s < a.len() implies #[trigger] step_follows(a, b, s) by {
            assert(a[s] == steps[s + 1]);
            assert(b[s] == p[s + 1]);
            assert(step_follows(steps, p, s + 1));
        }
        assert(step_follows(steps, p, 0));
        lemma_sent_matches(a, b);
    }
}

proof fn lemma_views_push(ps: Seq<Path>, p: Path)
    ensures
        views(ps.push(p)) == views(ps).push(p@),
{
    assert(views(ps.push(p)) =~= views(ps).push(p@));
}

/// The indices as integers.
pub open spec fn as_ints(order: Seq<usize>) -> Seq<int> {
    Seq::new(order.len(), |i: int| order[i] as int)
}

/// The indices of `paths`, shortest path first; paths of one length keep
/// their order.
fn order_by_len(paths: &Vec<Path>) -> (order: Vec<usize>)
    ensures
        is_permutation(as_ints(order@), paths@.len()),
        ascending(lengths(arranged(views(paths@), as_ints(order@)))),
        stable(views(paths@), as_ints(order@)),
{
    let ghost ps = views(paths@);
    let mut order: Vec<usize> = Vec::new();
    let mut i: usize = 0;
    while i < paths.len()
        invariant
            ps == views(paths@),
            i <= paths@.len(),
            order@.len() == i,
            forall|a: int| 0 <= a < i ==> #[trigger] order@[a] < i,
            order@.no_duplicates(),
            forall|a: int, b: int|
                0 <= a <= b < i ==> #[trigger] ps[order@[a] as int].len() <= #[trigger] ps[order@[
                    b
                ] as int].len(),
            forall|a: int, b: int|
                0 <= a < b < i && ps[#[trigger] order@[a] as int].len() == ps[#[trigger] order@[
                    b
                ] as int].len() ==> order@[a] < order@[b],
        decreases paths@.len() - i,
    {
        let li = paths[i].len();
        let mut pos: usize = 0;
        while pos < order.len() && paths[order[pos]].len() <= li
            invariant
                ps == views(paths@),
                i < paths@.len(),
                li == ps[i as int].len(),
                pos <= order@.len(),
                order@.len() == i,
                forall|a: int| 0 <= a < i ==> #[trigger] order@[a] < i,
                forall|a: int| 0 <= a < pos ==> #[trigger] ps[order@[a] as int].len() <= li,
            decreases order@.len() - pos,
        {
            pos = pos + 1;
        }
        let ghost before = order@;
        order.insert(pos, i);
        proof {
            assert forall|a: int| 0 <= a < i + 1 implies #[trigger] order@[a] < i + 1 by {
                if a < pos {
                    assert(order@[a] == before[a]);
                } else if a > pos {
                    assert(order@[a] == before[a - 1]);
                }
            }
            assert forall|a: int, b: int| 0 <= a < order@.len() && 0 <= b < order@.len() && a != b implies order@[a]
                != order@[b] by {
                if a != pos && b != pos {
                    let a0 = if a < pos { a } else { a - 1 };
                    let b0 = if b < pos { b } else { b - 1 };
                    assert(order@[a] == before[a0]);
                    assert(order@[b] == before[b0]);
                } else if a == pos {
                    let b0 = if b < pos { b } else { b - 1 };
                    assert(order@[b] == before[b0]);
                } else {
                    let a0 = if a < pos { a } else { a - 1 };
                    assert(order@[a] == before[a0]);
                }
            }
            assert forall|a: int, b: int| 0 <= a <= b < i + 1 implies #[trigger] ps[order@[
                a
            ] as int].len() <= #[trigger] ps[order@[b] as int].len() by {
                let a0 = if a < pos { a } else { a - 1 };
                let b0 = if b < pos { b } else { b - 1 };
                if a != pos && b != pos {
                    assert(order@[a] == before[a0]);
                    assert(order@[b] == before[b0]);
                } else if a == pos && b != pos {
                    assert(order@[b] == before[b0]);
                    assert(ps[before[pos as int] as int].len() > li);
                } else if b == pos && a != pos {
                    assert(order@[a] == before[a0]);
                }
            }
            assert forall|a: int, b: int|
                0 <= a < b < i + 1 && ps[#[trigger] order@[a] as int].len() == ps[#[trigger] order@[
                    b
                ] as int].len() implies order@[a] < order@[b] by {
                let a0 = if a < pos { a } else { a - 1 };
                let b0 = if b < pos { b } else { b - 1 };
                if a != pos && b != pos {
                    assert(order@[a] == before[a0]);
                    assert(order@[b] == before[b0]);
                } else if a == pos {
                    assert(order@[b] == before[b0]);
                    assert(ps[before[pos as int] as int].len() <= ps[before[b0] as int].len());
                    assert(ps[before[pos as int] as int].len() > li);
                } else {
                    assert(order@[a] == before[a0]);
                }
            }
        }
        i = i + 1;
    }
    let ghost oi = as_ints(order@);
    assert(ps == views(paths@));
    assert forall|a: int, b: int| 0 <= a <= b < oi.len() implies #[trigger] lengths(arranged(ps, oi))[a]
        <= #[trigger] lengths(arranged(ps, oi))[b] by {
        assert(ps[order@[a] as int].len() <= ps[order@[b] as int].len());
    }
    assert forall|a: int, b: int| 0 <= a < oi.len() && 0 <= b < oi.len() && a != b implies oi[a]
        != oi[b] by {
        assert(order@[a] != order@[b]);
    }
    assert forall|a: int, b: int|
        0 <= a < b < oi.len() && ps[#[trigger] oi[a]].len() == ps[#[trigger] oi[b]].len() implies oi[a]
        < oi[b] by {
        assert(order@[a] < order@[b]);
    }
    order
}

/// Copies of the first `w` paths.
fn first_paths(paths: &Vec<Path>, w: usize) -> (r: Vec<Path>)
    requires
        w <= paths@.len(),
    ensures
        views(r@) == views(paths@).take(w as int),
{
    let mut r: Vec<Path> = Vec::new();
    let mut j: usize = 0;
    while j < w
        invariant
            j <= w,
            w <= paths@.len(),
            r@.len() == j,
            views(r@) == views(paths@).take(j as int),
        decreases w - j,
    {
        let ghost before = r@;
        r.push(paths[j].duplicate());
        proof {
            lemma_views_push(before, r@[j as int]);
        }
        j = j + 1;
        assert(views(r@) =~= views(paths@).take(j as int));
    }
    r
}

impl Solution {
    /// The schedule of `ant_count` ants over `paths`.
    ///
    /// The paths are sorted by length. Over a window that starts as all of
    /// them, the step over the window lasts for the ants left, less the extra
    /// ticks that the shorter paths of the window need to keep pace with its
    /// longest, shared among the window's paths; a step that would last no
    /// tick is left out. Then the longest path leaves the window, down to
    /// none. `None` when no step is left: when there are no ants or no paths.
    pub fn schedule(paths: &Vec<Path>, ant_count: usize) -> (r: Option<Solution>)
        ensures
            r is None <==> (ant_count == 0 || paths@.len() == 0),
            r matches Some(sol) ==> is_schedule_of(views(paths@), ant_count as nat, sol@),
            r matches Some(sol) ==> sol@.len() >= 1,
            r matches Some(sol) ==> (ant_count < usize::MAX ==> simulable(sol@)),
            r matches Some(sol) ==> forall|s: int|
                0 <= s < sol@.len() ==> #[trigger] sol@[s].duration >= 1,
            r matches Some(sol) ==> total_sent(sol@) <= ant_count,
            r matches Some(sol) ==> forall|s: int, t: int|
                0 <= s < t < sol@.len() ==> #[trigger] sol@[s].paths.len() > #[trigger] sol@[t].paths.len(),
            r matches Some(sol) ==> forall|s: int|
                0 <= s < sol@.len() ==> #[trigger] sol@[s].paths == sol@[0].paths.take(
                    sol@[s].paths.len() as int,
                ),
    {
        let ghost ps = views(paths@);
        let order = order_by_len(paths);
        let ghost oi = as_ints(order@);
        let mut sorted: Vec<Path> = Vec::new();
        let mut i: usize = 0;
        while i < order.len()
            invariant
                ps == views(paths@),
                oi == as_ints(order@),
                is_permutation(oi, paths@.len()),
                i <= order@.len(),
                sorted@.len() == i,
                views(sorted@) == arranged(ps, oi).take(i as int),
            decreases order@.len() - i,
        {
            assert(oi[i as int] < paths@.len());
            let ghost before = sorted@;
            sorted.push(paths[order[i]].duplicate());
            proof {
                lemma_views_push(before, sorted@[i as int]);
            }
            i = i + 1;
            assert(views(sorted@) =~= arranged(ps, oi).take(i as int));
        }
        let ghost sv = arranged(ps, oi);
        assert(views(sorted@) =~= sv);
        let ghost lens = lengths(sv);
        let ghost full = plan(lens, ant_count as nat, ps.len());
        let k = sorted.len();
        let mut steps: Vec<SolutionStep> = Vec::new();
        let ghost mut done: Seq<(nat, nat)> = Seq::empty();
        let mut remaining = ant_count;
        let mut w = k;
        while w > 0
            invariant
                views(sorted@) == sv,
                lens == lengths(sv),
                ascending(lens),
                k == sv.len(),
                w <= k,
                remaining <= ant_count,
                done + plan(lens, remaining as nat, w as nat) == full,
                steps@.len() == done.len(),
                forall|s: int|
                    0 <= s < steps@.len() ==> #[trigger] steps@[s]@ == (StepModel {
                        duration: done[s].0,
                        paths: sv.take(done[s].1 as int),
                    }),
            decreases w,
        {
            let longest = sorted[w - 1].len();
            assert(longest == lens[w - 1]);
            let mut need: usize = 0;
            let mut fits = true;
            let mut j: usize = 0;
            while j < w - 1 && fits
                invariant
                    views(sorted@) == sv,
                    lens == lengths(sv),
                    ascending(lens),
                    1 <= w <= k,
                    k == sv.len(),
                    longest == lens[w - 1],
                    j <= w - 1,
                    fits ==> need == gap_sum(lens, longest as nat, j as nat),
                    fits ==> need <= remaining,
                    !fits ==> gap_sum(lens, longest as nat, (w - 1) as nat) > remaining,
                decreases w - j + (if fits { 1int } else { 0int }),
            {
                assert(lens[j as int] <= lens[w - 1]);
                let gap = longest - sorted[j].len();
                if gap > remaining - need {
                    proof {
                        lemma_gap_sum_monotone(lens, longest as nat, (j + 1) as nat, (w - 1) as nat);
                    }
                    fits = false;
                } else {
                    need = need + gap;
                    j = j + 1;
                }
            }
            let ghost d = phase_duration(lens, remaining as nat, w as nat);
            if fits {
                let duration = (remaining - need) / w;
                assert(duration == d);
                if duration != 0 {
                    let ghost (dd, ww, rr) = (duration as int, w as int, (remaining - need) as int);
                    assert(dd * ww <= rr) by (nonlinear_arith)
                        requires
                            dd == rr / ww,
                            ww > 0,
                            rr >= 0,
                    ;
                    let window = first_paths(&sorted, w);
                    steps.push(SolutionStep { duration, paths: window });
                    proof {
                        let rest = plan(lens, (remaining - duration * w) as nat, (w - 1) as nat);
                        assert(plan(lens, remaining as nat, w as nat) == seq![(d, w as nat)] + rest);
                        assert((done + seq![(d, w as nat)]) + rest =~= done + (seq![(d, w as nat)] + rest));
                        done = done.push((d, w as nat));
                    }
                    remaining = remaining - duration * w;
                } else {
                    assert(plan(lens, remaining as nat, w as nat) == plan(lens, remaining as nat, (w - 1) as nat));
                }
            } else {
                assert(d == 0);
                assert(plan(lens, remaining as nat, w as nat) == plan(lens, remaining as nat, (w - 1) as nat));
            }
            w = w - 1;
        }
        proof {
            assert(done =~= full);
            lemma_plan_sound(lens, ant_count as nat, ps.len());
        }
        if steps.len() == 0 {
            return None;
        }
        let sol = Solution(steps);
        proof {
            let m = sol@;
            assert forall|s: int| 0 <= s < m.len() implies #[trigger] m[s] == (StepModel {
                duration: full[s].0,
                paths: sv.take(full[s].1 as int),
            }) by {
                assert(m[s] == steps@[s]@);
            }
            assert(scheduled(ps, ant_count as nat, oi, m));
            assert(scheduled(views(paths@), ant_count as nat, oi, sol@));
            assert(is_schedule_of(views(paths@), ant_count as nat, sol@));
            assert forall|s: int| 0 <= s < m.len() implies #[trigger] m[s].paths.len() == full[s].1 by {
                assert(full[s].1 <= k);
            }
            assert forall|s: int| 0 <= s < m.len() implies #[trigger] step_follows(m, full, s) by {
                assert(m[s].paths.len() == full[s].1);
            }
            lemma_sent_matches(m, full);
            lemma_ticks_send_all(m);
            assert forall|s: int| 0 <= s < m.len() implies #[trigger] m[s].paths == m[0].paths.take(
                m[s].paths.len() as int,
            ) by {
                if s > 0 {
                    assert(full[0].1 > full[s].1);
                }
                assert(m[s].paths =~= m[0].paths.take(m[s].paths.len() as int));
            }
        }
        Some(sol)
    }
}


/// Disjoint paths stay disjoint when they are put in another order and only
/// the first few are kept.
proof fn lemma_arranged_disjoint(g: GraphModel, ps: Seq<Seq<NodeId>>, order: Seq<int>, w: int)
    requires
        disjoint_paths(g, ps),
        is_permutation(order, ps.len()),
        0 <= w <= ps.len(),
    ensures
        disjoint_paths(g, arranged(ps, order).take(w)),
{
    let a = arranged(ps, order).take(w);
    assert forall|i: int| 0 <= i < a.len() implies crate::path::is_path(g, #[trigger] a[i]) by {
        assert(a[i] == ps[order[i]]);
    }
    assert forall|i: int, j: int| 0 <= i < a.len() && 0 <= j < a.len() && i != j implies crate::path::disjoint(
        #[trigger] a[i],
        #[trigger] a[j],
    ) by {
        assert(a[i] == ps[order[i]]);
        assert(a[j] == ps[order[j]]);
        assert(order[i] != order[j]);
    }
}

impl Graph {
    /// Carries the ants from the start to the end: finds as many disjoint
    /// paths as it can, starting from the smaller terminal degree and one
    /// fewer after each failure, then schedules the ants over them. `None`
    /// when no number of paths down to one is found, or when there are no
    /// ants.
    pub fn solve(&self) -> (r: Option<Solution>)
        requires
            self.wf(),
        ensures
            self@.ant_count == 0 ==> r is None,
            self@.majorant() == 0 ==> r is None,
            r is None <==> (self@.ant_count == 0 || best_paths(self@, self@.majorant()) is None),
            r matches Some(sol) ==> (best_paths(self@, self@.majorant()) matches Some(ps)
                && is_schedule_of(ps, self@.ant_count, sol@)),
            self@.ant_count > 0 && self@.majorant() >= 1 && (exists|p: Seq<NodeId>|
                is_path(self@, p)) ==> r is Some,
            r matches Some(sol) ==> sol@.len() >= 1,
            r matches Some(sol) ==> (self@.ant_count < usize::MAX ==> simulable(sol@)),
            r matches Some(sol) ==> exists|ps: Seq<Seq<NodeId>>|
                disjoint_paths(self@, ps) && 1 <= ps.len() <= self@.majorant() && #[trigger] is_schedule_of(
                    ps,
                    self@.ant_count,
                    sol@,
                ),
            r matches Some(sol) ==> forall|s: int|
                0 <= s < sol@.len() ==> #[trigger] sol@[s].duration >= 1,
            r matches Some(sol) ==> total_sent(sol@) <= self@.ant_count,
            r matches Some(sol) ==> forall|s: int|
                0 <= s < sol@.len() ==> disjoint_paths(self@, #[trigger] sol@[s].paths),
            r matches Some(sol) ==> forall|s: int, t: int|
                0 <= s < t < sol@.len() ==> #[trigger] sol@[s].paths.len() > #[trigger] sol@[t].paths.len(),
            r matches Some(sol) ==> forall|s: int|
                0 <= s < sol@.len() ==> #[trigger] sol@[s].paths == sol@[0].paths.take(
                    sol@[s].paths.len() as int,
                ),
    {
        let mut n = self.simple_throughput_majorant();
        loop
            invariant
                self.wf(),
                n <= self@.majorant(),
                self@.ant_count > 0 && self@.majorant() >= 1 && (exists|p: Seq<NodeId>|
                    is_path(self@, p)) ==> n >= 1,
                best_paths(self@, self@.majorant()) == best_paths(self@, n as nat),
            decreases n,
        {
            if n == 0 {
                return None;
            }
            match Path::n_shortest(self, n) {
                Some(paths) => {
                    let ants = self.ant_count();
                    let r = Solution::schedule(&paths, ants);
                    assert(ants == self@.ant_count);
                    proof {
                        if r is Some {
                            let sol = r->0@;
                            assert(is_schedule_of(views(paths@), self@.ant_count, sol));
                            let order = choose|order: Seq<int>|
                                #[trigger] scheduled(views(paths@), self@.ant_count, order, sol);
                            assert forall|s: int| 0 <= s < sol.len() implies disjoint_paths(
                                self@,
                                #[trigger] sol[s].paths,
                            ) by {
                                let p = plan(
                                    lengths(arranged(views(paths@), order)),
                                    self@.ant_count,
                                    views(paths@).len(),
                                );
                                lemma_plan_sound(
                                    lengths(arranged(views(paths@), order)),
                                    self@.ant_count,
                                    views(paths@).len(),
                                );
                                assert(sol[s] == (StepModel {
                                    duration: p[s].0,
                                    paths: arranged(views(paths@), order).take(p[s].1 as int),
                                }));
                                lemma_arranged_disjoint(self@, views(paths@), order, p[s].1 as int);
                            }
                        }
                    }
                    return r;
                },
                None => {
                    n = n - 1;
                },
            }
        }
    }
}

} // verus!
