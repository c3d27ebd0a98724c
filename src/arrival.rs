use vstd::prelude::*;

use crate::node::NodeId;
use crate::simulate::{
    active, lemma_ant_lines, lemma_ant_numbers_cover, lemma_sent_before_monotone,
    lemma_tick_moves_contains, lemma_ticks_send_all, longest, movements, occupant, sent_before,
    tick_moves, tick_widths,
};
use crate::solution::total_sent;
use crate::solution::{
    arranged, ascending, gap_sum, lemma_gap_sum_monotone, lemma_plan_sound, lengths, phase_duration, plan, scheduled, StepModel,
};

verus! {

/// The number of ticks of a plan.
pub open spec fn plan_ticks(p: Seq<(nat, nat)>) -> nat
    decreases p.len(),
{
    if p.len() == 0 {
        0
    } else {
        p[0].0 + plan_ticks(p.drop_first())
    }
}

proof fn lemma_gap_split(lens: Seq<nat>, top: nat, m: nat, k: nat)
    requires
        k <= lens.len(),
        m <= top,
        forall|i: int| 0 <= i < k ==> #[trigger] lens[i] <= m,
    ensures
        gap_sum(lens, top, k) == k * (top - m) + gap_sum(lens, m, k),
    decreases k,
{
    if k > 0 {
        lemma_gap_split(lens, top, m, (k - 1) as nat);
        assert(lens[k - 1] <= m);
        assert(gap_sum(lens, top, k) == gap_sum(lens, top, (k - 1) as nat) + (top - lens[k - 1]));
        assert(gap_sum(lens, m, k) == gap_sum(lens, m, (k - 1) as nat) + (m - lens[k - 1]));
        let km = (k - 1) as int;
        let diff = (top - m) as int;
        assert(km * diff + diff == (km + 1) * diff) by (nonlinear_arith);
        assert(k * (top - m) == (km + 1) * diff);
        assert(((k - 1) as nat) * (top - m) == km * diff);
    } else {
        let diff = (top - m) as int;
        assert(0 * diff == 0);
        assert(k * (top - m) == 0 * diff);
    }
}

/// When the ants left pay for every path of the window to keep pace with a
/// path of length `top`, the ticks still to come, with the drain after the
/// last step, last at least `top - 1`.
proof fn lemma_plan_lasts(lens: Seq<nat>, remaining: nat, w: nat, top: nat)
    requires
        ascending(lens),
        w <= lens.len(),
        forall|i: int| 0 <= i < w ==> #[trigger] lens[i] <= top,
        remaining >= gap_sum(lens, top, w),
        plan(lens, remaining, w).len() > 0,
    ensures
        plan_ticks(plan(lens, remaining, w)) + lens[plan(lens, remaining, w).last().1 - 1] + 1 >= top,
    decreases w,
{
    let p = plan(lens, remaining, w);
    let m = lens[w - 1];
    let need = gap_sum(lens, m, (w - 1) as nat);
    assert forall|i: int| 0 <= i < w implies #[trigger] lens[i] <= m by {
        assert(lens[i] <= lens[w - 1]);
    }
    lemma_gap_split(lens, top, m, w);
    assert(gap_sum(lens, m, w) == need);
    let d = phase_duration(lens, remaining, w);
    let diff = (top - m) as int;
    let wi = w as int;
    let rest = (remaining - need) as int;
    assert(rest >= wi * diff);
    assert(d as int == rest / wi);
    assert(d >= diff) by (nonlinear_arith)
        requires
            rest >= wi * diff,
            d as int == rest / wi,
            wi > 0,
            diff >= 0,
    ;
    if d > 0 {
        let after = (remaining - d * w) as nat;
        assert((d as int) * wi <= rest) by (nonlinear_arith)
            requires
                d as int == rest / wi,
                wi > 0,
                rest >= 0,
        ;
        assert(d * w == (d as int) * wi);
        let q = plan(lens, after, (w - 1) as nat);
        assert(p == seq![(d, w)] + q);
        assert(p.drop_first() =~= q);
        if q.len() == 0 {
            assert(p.last() == (d, w));
        } else {
            assert forall|i: int| 0 <= i < w - 1 implies #[trigger] lens[i] <= m by {}
            lemma_plan_lasts(lens, after, (w - 1) as nat, m);
            assert(p.last() == q.last());
        }
    } else {
        assert(top == m);
        lemma_gap_sum_monotone(lens, top, (w - 1) as nat, w);
        assert(p == plan(lens, remaining, (w - 1) as nat));
        lemma_plan_lasts(lens, remaining, (w - 1) as nat, top);
    }
}

/// In every plan, the longest path of each step is no longer than the ticks
/// after that step, with the drain after the last step, and one more.
proof fn lemma_plan_arrives(lens: Seq<nat>, remaining: nat, w: nat)
    requires
        ascending(lens),
        w <= lens.len(),
    ensures
        forall|s: int|
            0 <= s < plan(lens, remaining, w).len() ==> lens[#[trigger] plan(lens, remaining, w)[s].1 - 1]
                <= plan_ticks(plan(lens, remaining, w).skip(s + 1)) + lens[plan(lens, remaining, w).last().1
                - 1] + 1,
    decreases w,
{
    lemma_plan_sound(lens, remaining, w);
    if w > 0 {
        let p = plan(lens, remaining, w);
        let d = phase_duration(lens, remaining, w);
        if d > 0 {
            let m = lens[w - 1];
            let need = gap_sum(lens, m, (w - 1) as nat);
            let rest = (remaining - need) as int;
            let wi = w as int;
            assert((d as int) * wi <= rest) by (nonlinear_arith)
                requires
                    d as int == rest / wi,
                    wi > 0,
                    rest >= 0,
            ;
            assert(d * w == (d as int) * wi);
            let after = (remaining - d * w) as nat;
            let q = plan(lens, after, (w - 1) as nat);
            lemma_plan_arrives(lens, after, (w - 1) as nat);
            assert(p == seq![(d, w)] + q);
            assert(p.drop_first() =~= q);
            assert forall|s: int| 0 <= s < p.len() implies lens[#[trigger] p[s].1 - 1] <= plan_ticks(
                p.skip(s + 1),
            ) + lens[p.last().1 - 1] + 1 by {
                if s == 0 {
                    assert(p.skip(1) =~= q);
                    if q.len() == 0 {
                        assert(p.last() == (d, w));
                    } else {
                        assert(p.last() == q.last());
                        assert forall|i: int| 0 <= i < w - 1 implies #[trigger] lens[i] <= m by {
                            assert(lens[i] <= lens[w - 1]);
                        }
                        lemma_plan_lasts(lens, after, (w - 1) as nat, m);
                    }
                } else {
                    assert(p[s] == q[s - 1]);
                    assert(p.skip(s + 1) =~= q.skip(s));
                    assert(p.last() == q.last());
                }
            }
        } else {
            assert(p == plan(lens, remaining, (w - 1) as nat));
            lemma_plan_arrives(lens, remaining, (w - 1) as nat);
        }
    }
}


proof fn lemma_active_len(st: Seq<StepModel>, q: Seq<(nat, nat)>)
    requires
        st.len() == q.len(),
        forall|s: int| 0 <= s < st.len() ==> #[trigger] st[s].duration == q[s].0,
    ensures
        active(st).len() == plan_ticks(q),
    decreases st.len(),
{
    if st.len() > 0 {
        let a = st.drop_first();
        let b = q.drop_first();
        assert forall|s: int| 0 <= s < a.len() implies #[trigger] a[s].duration == b[s].0 by {
            assert(a[s] == st[s + 1]);
            assert(b[s] == q[s + 1]);
        }
        lemma_active_len(a, b);
        assert(st[0].duration == q[0].0);
    }
}

/// The ticks of the steps after step `s`.
pub open spec fn ticks_after(st: Seq<StepModel>, s: int) -> nat {
    active(st.skip(s + 1)).len()
}

/// No path of step `s` is longer than the ticks after that step, with
/// `drain` more, and one.
pub open spec fn paths_fit(st: Seq<StepModel>, ps: Seq<Seq<NodeId>>, drain: nat, s: int) -> bool {
    forall|j: int|
        0 <= j < st[s].paths.len() ==> j < ps.len() && (#[trigger] ps[j]).len() <= ticks_after(st, s)
            + drain + 1
}

/// An ant that enters at tick `t` of the steps from step `k` on, on path
/// `i`, has as many ticks left as its path has nodes, when no step's paths
/// are longer than the ticks after that step, with `drain` more, and one.
proof fn lemma_in_time(st: Seq<StepModel>, ps: Seq<Seq<NodeId>>, drain: nat, k: int, t: int, i: int)
    requires
        forall|s: int| 0 <= s < st.len() ==> #[trigger] paths_fit(st, ps, drain, s),
        0 <= k <= st.len(),
        0 <= t < active(st.skip(k)).len(),
        0 <= i < active(st.skip(k))[t],
    ensures
        i < ps.len(),
        t + ps[i].len() <= active(st.skip(k)).len() + drain,
    decreases st.len() - k,
{
    let suffix = st.skip(k);
    if k == st.len() {
        assert(suffix.len() == 0);
    } else {
        let d0 = st[k].duration;
        let head = Seq::new(d0, |x: int| st[k].paths.len());
        assert(suffix[0] == st[k]);
        assert(suffix.drop_first() =~= st.skip(k + 1));
        assert(active(suffix) == head + active(st.skip(k + 1)));
        if t < d0 {
            assert(active(suffix)[t] == st[k].paths.len());
            assert(paths_fit(st, ps, drain, k));
            assert(ps[i].len() <= ticks_after(st, k) + drain + 1);
        } else {
            assert(active(suffix)[t] == active(st.skip(k + 1))[t - d0]);
            lemma_in_time(st, ps, drain, k + 1, t - d0, i);
        }
    }
}

/// Every ant of a schedule's simulation reaches the end of its path before
/// the simulation stops: the ant that path `i` takes at tick `t` is shown on
/// each of the path's nodes, one tick after the other, all within the ticks
/// of the simulation.
pub proof fn lemma_every_ant_arrives(
    ps: Seq<Seq<NodeId>>,
    ants: nat,
    order: Seq<int>,
    steps: Seq<StepModel>,
    t: int,
    i: int,
)
    requires
        scheduled(ps, ants, order, steps),
        0 <= t < active(steps).len(),
        0 <= i < tick_widths(steps)[t],
    ensures
        i < steps[0].paths.len(),
        t + steps[0].paths[i].len() <= tick_widths(steps).len(),
{
    let sorted = arranged(ps, order);
    let lens = lengths(sorted);
    let p = plan(lens, ants, ps.len());
    lemma_plan_sound(lens, ants, ps.len());
    lemma_plan_arrives(lens, ants, ps.len());
    lemma_active_len(steps, p);
    assert(steps.len() > 0);
    let last = steps.last();
    let drain = longest(last.paths);
    let m = p.len() - 1;
    assert(steps[m] == last);
    assert(last.paths == sorted.take(p[m].1 as int));
    assert(drain >= last.paths.last().len());
    assert(last.paths.last() == sorted[p[m].1 - 1]);
    let first = steps[0].paths;
    assert(first == sorted.take(p[0].1 as int));
    assert(tick_widths(steps) == active(steps) + Seq::new(drain, |k: int| 0nat));
    assert forall|s: int, j: int|
        0 <= s < steps.len() && 0 <= j < steps[s].paths.len() implies (j < first.len() && (
        #[trigger] first[j]).len() <= #[trigger] ticks_after(steps, s) + drain + 1) by {
        assert(steps[s].paths == sorted.take(p[s].1 as int));
        if s > 0 {
            assert(p[0].1 > p[s].1);
        }
        assert(first[j] == sorted[j]);
        assert(lens[j] <= lens[p[s].1 - 1]);
        let tail = steps.skip(s + 1);
        let q = p.skip(s + 1);
        assert forall|k: int| 0 <= k < tail.len() implies #[trigger] tail[k].duration == q[k].0 by {
            assert(tail[k] == steps[s + 1 + k]);
        }
        lemma_active_len(tail, q);
        assert(p.last() == p[m]);
    }
    assert forall|s: int| 0 <= s < steps.len() implies #[trigger] paths_fit(steps, first, drain, s) by {
        assert forall|j: int| 0 <= j < steps[s].paths.len() implies (j < first.len() && (
            #[trigger] first[j]).len() <= ticks_after(steps, s) + drain + 1) by {
            assert(j < first.len() && first[j].len() <= ticks_after(steps, s) + drain + 1);
        }
    }
    assert(tick_widths(steps)[t] == active(steps)[t]);
    assert(steps.skip(0) =~= steps);
    lemma_in_time(steps, first, drain, 0, t, i);
}


/// The ants shown by a schedule's simulation are exactly those numbered from
/// `1` to the number of ants its steps send: one ant for each path and tick
/// of each step, none twice and none left out (when no path is empty).
pub proof fn lemma_ants_shown(ps: Seq<Seq<NodeId>>, ants: nat, order: Seq<int>, steps: Seq<StepModel>, a: nat)
    requires
        scheduled(ps, ants, order, steps),
        forall|k: int| 0 <= k < ps.len() ==> (#[trigger] ps[k]).len() >= 1,
    ensures
        (exists|t: int, x: NodeId|
            0 <= t < movements(steps).len() && #[trigger] movements(steps)[t].contains((a, x))) <==> (1 <= a
            <= total_sent(steps)),
{
    let w = tick_widths(steps);
    lemma_ticks_send_all(steps);
    if 1 <= a <= total_sent(steps) {
        lemma_ant_numbers_cover(w, w.len(), a);
        let t0 = choose|t0: int|
            0 <= t0 < w.len() && #[trigger] sent_before(w, t0 as nat) < a <= sent_before(w, t0 as nat)
                + w[t0];
        let i = a - sent_before(w, t0 as nat) - 1;
        assert(steps.len() > 0) by {
            if steps.len() == 0 {
                assert(w.len() == 0);
            }
        }
        assert(t0 < active(steps).len()) by {
            if t0 >= active(steps).len() {
                assert(w[t0] == 0);
            }
        }
        lemma_every_ant_arrives(ps, ants, order, steps, t0, i);
        let sorted = arranged(ps, order);
        let p = plan(lengths(sorted), ants, ps.len());
        lemma_plan_sound(lengths(sorted), ants, ps.len());
        assert(steps[0].paths == sorted.take(p[0].1 as int));
        assert(steps[0].paths[i] == ps[order[i]]);
        let x = steps[0].paths[i][0];
        lemma_ant_lines(steps, t0, i, t0, x);
        assert(movements(steps)[t0].contains((a, x)));
    }
    if exists|t: int, x: NodeId| 0 <= t < movements(steps).len() && #[trigger] movements(steps)[t].contains((a, x)) {
        let (t, x) = choose|t: int, x: NodeId|
            0 <= t < movements(steps).len() && #[trigger] movements(steps)[t].contains((a, x));
        let first = steps[0].paths;
        lemma_tick_moves_contains(w, t + 1, first, first.len(), a, x);
        assert(movements(steps)[t] == tick_moves(w, t + 1, first, first.len()));
        let (j, s) = choose|j: int, s: int|
            0 <= j < first.len() && 0 <= s < first[j].len() && #[trigger] occupant(w, t + 1, j, s) == Some(a)
                && first[j][s] == x;
        let t1 = t - s;
        lemma_sent_before_monotone(w, (t1 + 1) as nat, w.len());
    }
}

} // verus!
