use vstd::prelude::*;

use std::collections::VecDeque;

use crate::node::NodeId;
use crate::path::{views, Path};
use crate::solution::{total_sent, Solution, StepModel};

verus! {

/// Ant `ant` stands on `node`.
#[derive(Clone, Copy, Debug, PartialEq, Eq, Structural)]
pub struct Move {
    pub ant: usize,
    pub node: NodeId,
}

/// The ticks of the steps, each as the number of paths that take a new ant.
pub open spec fn active(steps: Seq<StepModel>) -> Seq<nat>
    decreases steps.len(),
{
    if steps.len() == 0 {
        Seq::empty()
    } else {
        Seq::new(steps[0].duration, |t: int| steps[0].paths.len()) + active(steps.drop_first())
    }
}

/// The length of the longest of `ps`, `0` when there are none.
pub open spec fn longest(ps: Seq<Seq<NodeId>>) -> nat
    decreases ps.len(),
{
    if ps.len() == 0 {
        0
    } else if longest(ps.drop_last()) >= ps.last().len() {
        longest(ps.drop_last())
    } else {
        ps.last().len()
    }
}

/// Every tick of the simulation, as the number of paths that take a new ant:
/// the ticks of the steps, then, to let the ants still on their way arrive,
/// as many ticks without new ants as the longest path of the last step has
/// nodes.
pub open spec fn tick_widths(steps: Seq<StepModel>) -> Seq<nat> {
    if steps.len() == 0 {
        Seq::empty()
    } else {
        active(steps) + Seq::new(longest(steps.last().paths), |t: int| 0nat)
    }
}

/// The number of ants that enter during the first `n` ticks.
pub open spec fn sent_before(w: Seq<nat>, n: nat) -> nat
    decreases n,
{
    if n == 0 || n > w.len() {
        0
    } else {
        sent_before(w, (n - 1) as nat) + w[n - 1]
    }
}

/// The ant in slot `s` of path `i` once `n` ticks are over: the one that
/// entered `s` ticks before the last, if path `i` took one then. Ants are
/// numbered from `1`, tick by tick, and within a tick path by path.
pub open spec fn occupant(w: Seq<nat>, n: int, i: int, s: int) -> Option<nat> {
    let t = n - 1 - s;
    if 0 <= t < w.len() && i < w[t] {
        Some(sent_before(w, t as nat) + i as nat + 1)
    } else {
        None
    }
}

/// The ants on path `p` (number `i`) once `n` ticks are over, in the order of
/// its first `m` nodes, each with the node it stands on.
pub open spec fn path_moves(w: Seq<nat>, n: int, i: int, p: Seq<NodeId>, m: nat) -> Seq<(nat, NodeId)>
    decreases m,
{
    if m == 0 {
        Seq::empty()
    } else {
        path_moves(w, n, i, p, (m - 1) as nat) + match occupant(w, n, i, m - 1) {
            Some(a) => seq![(a, p[m - 1])],
            None => Seq::empty(),
        }
    }
}

/// The ants on the first `k` of `ps` once `n` ticks are over.
pub open spec fn tick_moves(w: Seq<nat>, n: int, ps: Seq<Seq<NodeId>>, k: nat) -> Seq<(nat, NodeId)>
    decreases k,
{
    if k == 0 {
        Seq::empty()
    } else {
        tick_moves(w, n, ps, (k - 1) as nat) + path_moves(
            w,
            n,
            k - 1,
            ps[k - 1],
            ps[k - 1].len(),
        )
    }
}

/// What each tick of the simulation shows: after tick `t`, every ant on the
/// paths of the first step with the node where it stands.
pub open spec fn movements(steps: Seq<StepModel>) -> Seq<Seq<(nat, NodeId)>> {
    let w = tick_widths(steps);
    Seq::new(
        w.len(),
        |t: int| tick_moves(w, t + 1, steps[0].paths, steps[0].paths.len()),
    )
}

/// The moves as pairs of plain values.
pub open spec fn move_views(ms: Seq<Move>) -> Seq<(nat, NodeId)> {
    Seq::new(ms.len(), |i: int| (ms[i].ant as nat, ms[i].node))
}

/// No step has more paths than the first, and the ants can be numbered.
pub open spec fn simulable(steps: Seq<StepModel>) -> bool {
    &&& forall|s: int| 0 <= s < steps.len() ==> #[trigger] steps[s].paths.len() <= steps[0].paths.len()
    &&& sent_before(tick_widths(steps), tick_widths(steps).len()) < usize::MAX
}

/// Shifts a window of a path by one node: `x` enters at the front and the
/// last slot leaves.
fn cycle(window: &mut VecDeque<Option<usize>>, x: Option<usize>)
    requires
        old(window)@.len() > 0,
    ensures
        final(window)@ == seq![x] + old(window)@.drop_last(),
{
    window.pop_back();
    window.push_front(x);
}


/// A slot's ant as a plain number.
pub open spec fn slot(o: Option<usize>) -> Option<nat> {
    match o {
        Some(a) => Some(a as nat),
        None => None,
    }
}

/// The window of path `i` holds, slot by slot, the ants on it once `n`
/// ticks are over.
pub open spec fn window_ok(win: Seq<Option<usize>>, w: Seq<nat>, n: int, i: int, len: nat) -> bool {
    &&& win.len() == len
    &&& forall|s: int| 0 <= s < len ==> #[trigger] slot(win[s]) == occupant(w, n, i, s)
}

pub proof fn lemma_sent_before_monotone(w: Seq<nat>, a: nat, b: nat)
    requires
        a <= b <= w.len(),
    ensures
        sent_before(w, a) <= sent_before(w, b),
    decreases b,
{
    if a < b {
        lemma_sent_before_monotone(w, a, (b - 1) as nat);
    }
}

/// Moves every window one tick on: path `i` takes a new ant when `i` is below
/// `width`.
fn advance(
    windows: &mut Vec<VecDeque<Option<usize>>>,
    first: &[Path],
    width: usize,
    next_id: &mut usize,
    Ghost(w): Ghost<Seq<nat>>,
    Ghost(n): Ghost<int>,
)
    requires
        0 <= n < w.len(),
        w[n] == width,
        width <= first@.len(),
        old(windows)@.len() == first@.len(),
        forall|i: int|
            0 <= i < first@.len() ==> window_ok(
                #[trigger] old(windows)@[i]@,
                w,
                n,
                i,
                first@[i]@.len(),
            ),
        *old(next_id) == sent_before(w, n as nat) + 1,
        sent_before(w, w.len()) < usize::MAX,
    ensures
        final(windows)@.len() == first@.len(),
        forall|i: int|
            0 <= i < first@.len() ==> window_ok(
                #[trigger] final(windows)@[i]@,
                w,
                n + 1,
                i,
                first@[i]@.len(),
            ),
        *final(next_id) == sent_before(w, (n + 1) as nat) + 1,
{
    proof {
        lemma_sent_before_monotone(w, (n + 1) as nat, w.len());
    }
    let k = first.len();
    let mut i: usize = 0;
    while i < k
        invariant
            k == first@.len(),
            0 <= n < w.len(),
            w[n] == width,
            width <= k,
            i <= k,
            windows@.len() == k,
            forall|j: int|
                i <= j < k ==> window_ok(#[trigger] windows@[j]@, w, n, j, first@[j]@.len()),
            forall|j: int|
                0 <= j < i ==> window_ok(#[trigger] windows@[j]@, w, n + 1, j, first@[j]@.len()),
            *next_id == sent_before(w, n as nat) + (if i < width { i } else { width }) + 1,
            sent_before(w, (n + 1) as nat) < usize::MAX,
            sent_before(w, (n + 1) as nat) == sent_before(w, n as nat) + w[n],
        decreases k - i,
    {
        let x = if i < width {
            let id = *next_id;
            *next_id = id + 1;
            Some(id)
        } else {
            None
        };
        let ghost before = windows@[i as int]@;
        let len = first[i].len();
        if len > 0 {
            cycle(&mut windows[i], x);
        }
        proof {
            let win = windows@[i as int]@;
            assert forall|s: int| 0 <= s < len implies #[trigger] slot(win[s]) == occupant(
                w,
                n + 1,
                i as int,
                s,
            ) by {
                if s > 0 {
                    assert(win[s] == before[s - 1]);
                    assert(slot(before[s - 1]) == occupant(w, n, i as int, s - 1));
                }
            }
        }
        i = i + 1;
    }
}

/// What the windows show: each ant on the paths with the node where it
/// stands.
fn read_line(windows: &Vec<VecDeque<Option<usize>>>, first: &[Path], Ghost(w): Ghost<Seq<nat>>, Ghost(n): Ghost<int>) -> (r: Vec<Move>)
    requires
        windows@.len() == first@.len(),
        forall|i: int|
            0 <= i < first@.len() ==> window_ok(#[trigger] windows@[i]@, w, n, i, first@[i]@.len()),
    ensures
        move_views(r@) == tick_moves(w, n, views(first@), first@.len()),
{
    let ghost ps = views(first@);
    let mut r: Vec<Move> = Vec::new();
    let mut i: usize = 0;
    while i < first.len()
        invariant
            ps == views(first@),
            i <= first@.len(),
            windows@.len() == first@.len(),
            forall|i: int|
                0 <= i < first@.len() ==> window_ok(#[trigger] windows@[i]@, w, n, i, first@[i]@.len()),
            move_views(r@) == tick_moves(w, n, ps, i as nat),
        decreases first@.len() - i,
    {
        let path = &first[i];
        let window = &windows[i];
        let ghost base = move_views(r@);
        assert(ps[i as int] == path@);
        let mut s: usize = 0;
        while s < path.len()
            invariant
                s <= path@.len(),
                window@.len() == path@.len(),
                window_ok(window@, w, n, i as int, path@.len()),
                move_views(r@) == base + path_moves(w, n, i as int, path@, s as nat),
            decreases path@.len() - s,
        {
            assert(slot(window@[s as int]) == occupant(w, n, i as int, s as int));
            match window[s] {
                Some(a) => {
                    let ghost prev = move_views(r@);
                    r.push(Move { ant: a, node: path.node(s) });
                    assert(move_views(r@) =~= prev + seq![(a as nat, path@[s as int])]);
                },
                None => {},
            }
            s = s + 1;
            assert(move_views(r@) =~= base + path_moves(w, n, i as int, path@, s as nat));
        }
        i = i + 1;
    }
    r
}


/// The length of the longest of `paths`.
fn longest_len(paths: &[Path]) -> (r: usize)
    ensures
        r == longest(views(paths@)),
{
    let ghost ps = views(paths@);
    let mut r: usize = 0;
    let mut i: usize = 0;
    while i < paths.len()
        invariant
            ps == views(paths@),
            i <= paths@.len(),
            r == longest(ps.take(i as int)),
        decreases paths@.len() - i,
    {
        let len = paths[i].len();
        assert(ps.take(i + 1).drop_last() =~= ps.take(i as int));
        if len > r {
            r = len;
        }
        i = i + 1;
    }
    assert(ps.take(i as int) =~= ps);
    r
}

/// A window of `len` empty slots.
fn empty_window(len: usize) -> (r: VecDeque<Option<usize>>)
    ensures
        r@ == Seq::new(len as nat, |s: int| None::<usize>),
{
    let mut r: VecDeque<Option<usize>> = VecDeque::new();
    let mut s: usize = 0;
    while s < len
        invariant
            s <= len,
            r@ == Seq::new(s as nat, |s: int| None::<usize>),
        decreases len - s,
    {
        r.push_back(None);
        s = s + 1;
        assert(r@ =~= Seq::new(s as nat, |s: int| None::<usize>));
    }
    r
}

impl Solution {
    /// The movement of the ants, tick by tick: each path of the first step
    /// holds a window of its nodes; for each tick of each step, the paths of
    /// that step take a new ant at their first node and every ant moves one
    /// node on. The steps over, as many ticks follow as the longest path of
    /// the last step has nodes, with no new ants. After each tick, every ant
    /// on the paths is shown with the node where it stands.
    pub fn moves(&self) -> (r: Vec<Vec<Move>>)
        requires
            simulable(self@),
        ensures
            r@.len() == movements(self@).len(),
            forall|t: int| 0 <= t < r@.len() ==> move_views(#[trigger] r@[t]@) == movements(self@)[t],
    {
        let mut lines: Vec<Vec<Move>> = Vec::new();
        let all = self.steps();
        if all.len() == 0 {
            return lines;
        }
        let ghost steps = self@;
        let ghost w = tick_widths(steps);
        let first = all[0].paths();
        let k = first.len();
        assert(views(first@) == steps[0].paths);
        let mut windows: Vec<VecDeque<Option<usize>>> = Vec::new();
        let mut i: usize = 0;
        while i < k
            invariant
                k == first@.len(),
                i <= k,
                windows@.len() == i,
                forall|j: int| 0 <= j < i ==> window_ok(#[trigger] windows@[j]@, w, 0, j, first@[j]@.len()),
            decreases k - i,
        {
            windows.push(empty_window(first[i].len()));
            i = i + 1;
        }
        let mut next_id: usize = 1;
        let ghost mut n: int = 0;
        assert(steps.skip(0) =~= steps);
        assert(w.subrange(0, w.len() as int) =~= w);
        let mut s: usize = 0;
        while s < all.len()
            invariant
                steps == self@,
                w == tick_widths(steps),
                steps.len() >= 1,
                views(first@) == steps[0].paths,
                simulable(steps),
                k == first@.len(),
                s <= steps.len(),
                all@.len() == steps.len(),
                forall|i: int| 0 <= i < all@.len() ==> #[trigger] all@[i]@ == steps[i],
                0 <= n <= w.len(),
                w.subrange(n, w.len() as int) == active(steps.skip(s as int)) + Seq::new(
                    longest(steps.last().paths),
                    |t: int| 0nat,
                ),
                windows@.len() == k,
                forall|j: int| 0 <= j < k ==> window_ok(#[trigger] windows@[j]@, w, n, j, first@[j]@.len()),
                next_id == sent_before(w, n as nat) + 1,
                lines@.len() == n,
                forall|t: int|
                    0 <= t < n ==> move_views(#[trigger] lines@[t]@) == tick_moves(
                        w,
                        t + 1,
                        views(first@),
                        k as nat,
                    ),
            decreases steps.len() - s,
        {
            let step = &all[s];
            let width = step.paths().len();
            let duration = step.duration();
            assert(steps[s as int] == step@);
            proof {
                assert(steps.skip(s as int).drop_first() =~= steps.skip(s + 1));
                assert(steps.skip(s as int)[0] == steps[s as int]);
            }
            let mut r: usize = 0;
            while r < duration
                invariant
                    steps == self@,
                    w == tick_widths(steps),
                    steps.len() >= 1,
                    views(first@) == steps[0].paths,
                    simulable(steps),
                    k == first@.len(),
                    s < steps.len(),
                    width == steps[s as int].paths.len(),
                    duration == steps[s as int].duration,
                    r <= duration,
                    0 <= n <= w.len(),
                    w.subrange(n, w.len() as int) == Seq::new((duration - r) as nat, |t: int| width as nat) + active(steps.skip(s + 1)) + Seq::new(
                        longest(steps.last().paths),
                        |t: int| 0nat,
                    ),
                    windows@.len() == k,
                    forall|j: int| 0 <= j < k ==> window_ok(#[trigger] windows@[j]@, w, n, j, first@[j]@.len()),
                    next_id == sent_before(w, n as nat) + 1,
                    lines@.len() == n,
                    forall|t: int|
                        0 <= t < n ==> move_views(#[trigger] lines@[t]@) == tick_moves(
                            w,
                            t + 1,
                            views(first@),
                            k as nat,
                        ),
                decreases duration - r,
            {
                let ghost rest = w.subrange(n, w.len() as int);
                assert(rest.len() == w.len() - n);
                assert(rest.len() > 0);
                assert(rest[0] == width);
                assert(steps[s as int].paths.len() <= steps[0].paths.len());
                advance(&mut windows, first, width, &mut next_id, Ghost(w), Ghost(n));
                proof {
                    n = n + 1;
                }
                let line = read_line(&windows, first, Ghost(w), Ghost(n));
                lines.push(line);
                r = r + 1;
                proof {
                    assert(w.subrange(n, w.len() as int) =~= rest.drop_first());
                    assert(rest.drop_first() =~= Seq::new((duration - r) as nat, |t: int| width as nat) + active(steps.skip(s + 1)) + Seq::new(
                        longest(steps.last().paths),
                        |t: int| 0nat,
                    ));
                    assert forall|t: int|
                        0 <= t < n implies move_views(#[trigger] lines@[t]@) == tick_moves(
                            w,
                            t + 1,
                            views(first@),
                            k as nat,
                        ) by {}
                }
            }
            s = s + 1;
        }
        let last = all[all.len() - 1].paths();
        let drain = longest_len(last);
        assert(views(last@) == steps.last().paths);
        let mut r: usize = 0;
        while r < drain
            invariant
                steps == self@,
                w == tick_widths(steps),
                views(first@) == steps[0].paths,
                simulable(steps),
                k == first@.len(),
                r <= drain,
                steps.len() >= 1,
                0 <= n <= w.len(),
                w.subrange(n, w.len() as int) == Seq::new((drain - r) as nat, |t: int| 0nat),
                windows@.len() == k,
                forall|j: int| 0 <= j < k ==> window_ok(#[trigger] windows@[j]@, w, n, j, first@[j]@.len()),
                next_id == sent_before(w, n as nat) + 1,
                lines@.len() == n,
                forall|t: int|
                    0 <= t < n ==> move_views(#[trigger] lines@[t]@) == tick_moves(
                        w,
                        t + 1,
                        views(first@),
                        k as nat,
                    ),
            decreases drain - r,
        {
            let ghost rest = w.subrange(n, w.len() as int);
            assert(rest.len() == w.len() - n);
            assert(rest.len() > 0);
            assert(rest[0] == 0);
            advance(&mut windows, first, 0, &mut next_id, Ghost(w), Ghost(n));
            proof {
                n = n + 1;
            }
            let line = read_line(&windows, first, Ghost(w), Ghost(n));
            lines.push(line);
            r = r + 1;
            proof {
                assert(w.subrange(n, w.len() as int) =~= rest.drop_first());
            }
        }
        assert(n == w.len());
        lines
    }
}


proof fn lemma_sent_before_concat(a: Seq<nat>, b: Seq<nat>, k: nat)
    requires
        k <= b.len(),
    ensures
        sent_before(a + b, a.len() + k) == sent_before(a, a.len()) + sent_before(b, k),
    decreases k,
{
    let ab = a + b;
    if k == 0 {
        lemma_sent_before_prefix(a, b, a.len());
    } else {
        lemma_sent_before_concat(a, b, (k - 1) as nat);
        assert(ab[a.len() + k - 1] == b[k - 1]);
    }
}

proof fn lemma_sent_before_prefix(a: Seq<nat>, b: Seq<nat>, k: nat)
    requires
        k <= a.len(),
    ensures
        sent_before(a + b, k) == sent_before(a, k),
    decreases k,
{
    if k > 0 {
        lemma_sent_before_prefix(a, b, (k - 1) as nat);
        assert((a + b)[k - 1] == a[k - 1]);
    }
}

/// `d` ticks in which `w` paths take an ant.
pub open spec fn repeat(d: nat, w: nat) -> Seq<nat> {
    Seq::new(d, |t: int| w)
}

proof fn lemma_sent_before_constant(d: nat, w: nat, k: nat)
    requires
        k <= d,
    ensures
        sent_before(repeat(d, w), k) == k * w,
    decreases k,
{
    if k > 0 {
        lemma_sent_before_constant(d, w, (k - 1) as nat);
        let r = repeat(d, w);
        assert(r[k - 1] == w);
        assert(sent_before(r, k) == sent_before(r, (k - 1) as nat) + r[k - 1]);
        assert(((k - 1) as nat) * w + w == k * w) by (nonlinear_arith)
            requires
                k > 0,
        ;
    } else {
        assert(0 * w == 0);
    }
}

proof fn lemma_sent_active(steps: Seq<StepModel>)
    ensures
        sent_before(active(steps), active(steps).len()) == total_sent(steps),
    decreases steps.len(),
{
    if steps.len() > 0 {
        let head = repeat(steps[0].duration, steps[0].paths.len());
        let rest = active(steps.drop_first());
        assert(active(steps) =~= head + rest);
        lemma_sent_active(steps.drop_first());
        lemma_sent_before_concat(head, rest, rest.len());
        lemma_sent_before_constant(steps[0].duration, steps[0].paths.len(), steps[0].duration);
    }
}

/// The simulation numbers as many ants as the steps send.
pub proof fn lemma_ticks_send_all(steps: Seq<StepModel>)
    ensures
        sent_before(tick_widths(steps), tick_widths(steps).len()) == total_sent(steps),
{
    if steps.len() > 0 {
        let a = active(steps);
        let z = repeat(longest(steps.last().paths), 0);
        assert(tick_widths(steps) =~= a + z);
        lemma_sent_active(steps);
        lemma_sent_before_concat(a, z, z.len());
        lemma_sent_before_constant(z.len(), 0, z.len());
    }
}


/// Two different slots of the schedule (a tick and a path that takes an ant
/// at that tick) give different ant numbers.
pub proof fn lemma_ant_numbers_distinct(w: Seq<nat>, t1: int, i1: int, t2: int, i2: int)
    requires
        0 <= t1 < w.len(),
        0 <= t2 < w.len(),
        0 <= i1 < w[t1],
        0 <= i2 < w[t2],
        t1 != t2 || i1 != i2,
    ensures
        sent_before(w, t1 as nat) + i1 != sent_before(w, t2 as nat) + i2,
{
    if t1 < t2 {
        lemma_sent_before_monotone(w, (t1 + 1) as nat, t2 as nat);
    } else if t2 < t1 {
        lemma_sent_before_monotone(w, (t2 + 1) as nat, t1 as nat);
    }
}

/// Every number from `1` to the number of ants sent in the first `n` ticks
/// belongs to a slot of those ticks: to path `a - sent_before(w, t) - 1` of
/// some tick `t`.
pub proof fn lemma_ant_numbers_cover(w: Seq<nat>, n: nat, a: nat)
    requires
        n <= w.len(),
        1 <= a <= sent_before(w, n),
    ensures
        exists|t: int|
            0 <= t < n && #[trigger] sent_before(w, t as nat) < a <= sent_before(w, t as nat) + w[t],
    decreases n,
{
    if n > 0 {
        let prev = sent_before(w, (n - 1) as nat);
        if a <= prev {
            lemma_ant_numbers_cover(w, (n - 1) as nat, a);
        } else {
            assert(sent_before(w, (n - 1) as nat) < a <= sent_before(w, (n - 1) as nat) + w[n - 1]);
        }
    }
}

/// The ant that enters path `i` at tick `t0` is, once `n` ticks are over, in
/// slot `s` of path `j` exactly when `j` is `i` and `s` is `n - 1 - t0`: it
/// stays on its path and moves one node on per tick, from the first node.
pub proof fn lemma_ant_journey(steps: Seq<StepModel>, t0: int, i: int, n: int, j: int, s: int)
    requires
        0 <= t0 < tick_widths(steps).len(),
        0 <= i < tick_widths(steps)[t0],
        0 <= j,
        0 <= s,
    ensures
        occupant(tick_widths(steps), n, j, s) == Some(
            sent_before(tick_widths(steps), t0 as nat) + i as nat + 1,
        ) <==> (j == i && s == n - 1 - t0),
{
    let w = tick_widths(steps);
    let t = n - 1 - s;
    if 0 <= t < w.len() && j < w[t] && (t != t0 || j != i) {
        lemma_ant_numbers_distinct(w, t, j, t0, i);
    }
}


proof fn lemma_path_moves_contains(w: Seq<nat>, n: int, i: int, p: Seq<NodeId>, m: nat, a: nat, x: NodeId)
    requires
        m <= p.len(),
    ensures
        path_moves(w, n, i, p, m).contains((a, x)) <==> exists|s: int|
            0 <= s < m && #[trigger] occupant(w, n, i, s) == Some(a) && p[s] == x,
    decreases m,
{
    if m > 0 {
        lemma_path_moves_contains(w, n, i, p, (m - 1) as nat, a, x);
        let prev = path_moves(w, n, i, p, (m - 1) as nat);
        let last = match occupant(w, n, i, m - 1) {
            Some(b) => seq![(b, p[m - 1])],
            None => Seq::<(nat, NodeId)>::empty(),
        };
        assert(path_moves(w, n, i, p, m) == prev + last);
        if path_moves(w, n, i, p, m).contains((a, x)) {
            let k = choose|k: int| 0 <= k < prev.len() + last.len() && (prev + last)[k] == (a, x);
            if k < prev.len() {
                assert(prev[k] == (a, x));
                assert(prev.contains((a, x)));
            } else {
                assert(last[k - prev.len()] == (a, x));
                assert(occupant(w, n, i, m - 1) == Some(a) && p[m - 1] == x);
            }
        }
        if exists|s: int| 0 <= s < m && #[trigger] occupant(w, n, i, s) == Some(a) && p[s] == x {
            let s = choose|s: int| 0 <= s < m && #[trigger] occupant(w, n, i, s) == Some(a) && p[s] == x;
            if s < m - 1 {
                let k = choose|k: int| 0 <= k < prev.len() && prev[k] == (a, x);
                assert((prev + last)[k] == (a, x));
            } else {
                assert(last[0] == (a, x));
                assert((prev + last)[prev.len() as int] == (a, x));
            }
        }
    }
}

pub proof fn lemma_tick_moves_contains(w: Seq<nat>, n: int, ps: Seq<Seq<NodeId>>, k: nat, a: nat, x: NodeId)
    requires
        k <= ps.len(),
    ensures
        tick_moves(w, n, ps, k).contains((a, x)) <==> exists|j: int, s: int|
            0 <= j < k && 0 <= s < ps[j].len() && #[trigger] occupant(w, n, j, s) == Some(a) && ps[j][s]
                == x,
    decreases k,
{
    if k > 0 {
        lemma_tick_moves_contains(w, n, ps, (k - 1) as nat, a, x);
        let j = k - 1;
        lemma_path_moves_contains(w, n, j, ps[j], ps[j].len(), a, x);
        let prev = tick_moves(w, n, ps, (k - 1) as nat);
        let last = path_moves(w, n, j, ps[j], ps[j].len());
        assert(tick_moves(w, n, ps, k) == prev + last);
        if (prev + last).contains((a, x)) {
            let q = choose|q: int| 0 <= q < prev.len() + last.len() && (prev + last)[q] == (a, x);
            if q < prev.len() {
                assert(prev[q] == (a, x));
                assert(prev.contains((a, x)));
            } else {
                assert(last[q - prev.len()] == (a, x));
                assert(last.contains((a, x)));
                let s = choose|s: int| 0 <= s < ps[j].len() && #[trigger] occupant(w, n, j, s) == Some(a) && ps[j][s] == x;
                assert(occupant(w, n, j, s) == Some(a));
            }
        }
        if exists|jj: int, s: int|
            0 <= jj < k && 0 <= s < ps[jj].len() && #[trigger] occupant(w, n, jj, s) == Some(a) && ps[jj][s] == x {
            let (jj, s) = choose|jj: int, s: int|
                0 <= jj < k && 0 <= s < ps[jj].len() && #[trigger] occupant(w, n, jj, s) == Some(a) && ps[jj][s] == x;
            if jj < k - 1 {
                assert(prev.contains((a, x)));
                let q = choose|q: int| 0 <= q < prev.len() && prev[q] == (a, x);
                assert((prev + last)[q] == (a, x));
            } else {
                assert(occupant(w, n, j, s) == Some(a));
                assert(last.contains((a, x)));
                let q = choose|q: int| 0 <= q < last.len() && last[q] == (a, x);
                assert((prev + last)[prev.len() + q] == (a, x));
            }
        }
    }
}

/// What the lines show of one ant: the ant that path `i` takes at tick `t0`
/// stands in line `t` on node `x` exactly when `t` is one of the `len`
/// ticks from `t0` on, `len` being the length of its path, and `x` is the
/// node of the path that it has reached by then. It appears in no other line
/// and on no other node.
pub proof fn lemma_ant_lines(steps: Seq<StepModel>, t0: int, i: int, t: int, x: NodeId)
    requires
        steps.len() > 0,
        0 <= t0 < tick_widths(steps).len(),
        0 <= i < tick_widths(steps)[t0],
        i < steps[0].paths.len(),
        0 <= t < movements(steps).len(),
    ensures
        movements(steps)[t].contains((sent_before(tick_widths(steps), t0 as nat) + i as nat + 1, x)) <==> (
        0 <= t - t0 < steps[0].paths[i].len() && x == steps[0].paths[i][t - t0]),
{
    let w = tick_widths(steps);
    let ps = steps[0].paths;
    let a = sent_before(w, t0 as nat) + i as nat + 1;
    lemma_tick_moves_contains(w, t + 1, ps, ps.len(), a, x);
    assert(movements(steps)[t] == tick_moves(w, t + 1, ps, ps.len()));
    if movements(steps)[t].contains((a, x)) {
        let (j, s) = choose|j: int, s: int|
            0 <= j < ps.len() && 0 <= s < ps[j].len() && #[trigger] occupant(w, t + 1, j, s) == Some(a)
                && ps[j][s] == x;
        lemma_ant_journey(steps, t0, i, t + 1, j, s);
    }
    if 0 <= t - t0 < ps[i].len() && x == ps[i][t - t0] {
        lemma_ant_journey(steps, t0, i, t + 1, i, t - t0);
        assert(occupant(w, t + 1, i, t - t0) == Some(a));
    }
}

} // verus!
