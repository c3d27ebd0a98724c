use vstd::prelude::*;

use crate::node::NodeId;
use crate::simulate::{move_views, movements, simulable, Move};
use crate::path::{views, Path};
use crate::solution::{Solution, SolutionStep, StepModel};

verus! {

/// The decimal digits of `n`, in ASCII, without leading zeros.
pub open spec fn decimal(n: nat) -> Seq<u8>
    decreases n,
{
    if n < 10 {
        seq![(48 + n) as u8]
    } else {
        decimal(n / 10) + seq![(48 + n % 10) as u8]
    }
}

/// One ant on one node: `L<ant>-<node> `.
pub open spec fn move_text(m: (nat, NodeId)) -> Seq<u8> {
    seq![76u8] + decimal(m.0) + seq![45u8] + decimal(m.1.0 as nat) + seq![32u8]
}

/// The moves of one tick, one after the other.
pub open spec fn moves_text(ms: Seq<(nat, NodeId)>) -> Seq<u8>
    decreases ms.len(),
{
    if ms.len() == 0 {
        Seq::empty()
    } else {
        moves_text(ms.drop_last()) + move_text(ms.last())
    }
}

/// One line per tick.
pub open spec fn lines_text(lines: Seq<Seq<(nat, NodeId)>>) -> Seq<u8>
    decreases lines.len(),
{
    if lines.len() == 0 {
        Seq::empty()
    } else {
        lines_text(lines.drop_last()) + moves_text(lines.last()) + seq![10u8]
    }
}

/// Appends the decimal digits of `n`.
fn push_decimal(out: &mut Vec<u8>, n: usize)
    ensures
        final(out)@ == old(out)@ + decimal(n as nat),
    decreases n,
{
    if n >= 10 {
        push_decimal(out, n / 10);
    }
    let digit = (n % 10) as u8;
    out.push(48u8 + digit);
    proof {
        if n >= 10 {
            assert(final(out)@ =~= old(out)@ + decimal(n as nat));
        } else {
            assert(final(out)@ =~= old(out)@ + decimal(n as nat));
        }
    }
}

/// Appends one tick's line.
fn push_line(out: &mut Vec<u8>, line: &Vec<Move>)
    ensures
        final(out)@ == old(out)@ + moves_text(move_views(line@)) + seq![10u8],
{
    let ghost start = out@;
    let mut j: usize = 0;
    while j < line.len()
        invariant
            j <= line@.len(),
            out@ == start + moves_text(move_views(line@).take(j as int)),
        decreases line@.len() - j,
    {
        let m = line[j];
        let ghost before = out@;
        out.push(76u8);
        push_decimal(out, m.ant);
        out.push(45u8);
        push_decimal(out, m.node.0);
        out.push(32u8);
        proof {
            let mv = move_views(line@);
            assert(mv.take(j + 1).drop_last() =~= mv.take(j as int));
            assert(mv.take(j + 1).last() == (m.ant as nat, m.node));
            assert(out@ =~= before + move_text((m.ant as nat, m.node)));
        }
        j = j + 1;
    }
    assert(move_views(line@).take(j as int) =~= move_views(line@));
    out.push(10u8);
}

impl Solution {
    /// The movement of the ants as text: for each tick, a line that lists,
    /// each followed by a space, the ants as `L<ant>-<node>`.
    pub fn movement_text(&self) -> (r: Vec<u8>)
        requires
            simulable(self@),
        ensures
            r@ == lines_text(movements(self@)),
    {
        let lines = self.moves();
        let ghost mv = movements(self@);
        let mut out: Vec<u8> = Vec::new();
        let mut t: usize = 0;
        while t < lines.len()
            invariant
                lines@.len() == mv.len(),
                forall|t: int| 0 <= t < lines@.len() ==> move_views(#[trigger] lines@[t]@) == mv[t],
                t <= lines@.len(),
                out@ == lines_text(mv.take(t as int)),
            decreases lines@.len() - t,
        {
            push_line(&mut out, &lines[t]);
            proof {
                assert(mv.take(t + 1).drop_last() =~= mv.take(t as int));
                assert(mv.take(t + 1).last() == mv[t as int]);
            }
            t = t + 1;
        }
        assert(mv.take(t as int) =~= mv);
        out
    }
}


/// `NodeId(<index>)`.
pub open spec fn node_text(v: NodeId) -> Seq<u8> {
    seq![78u8, 111u8, 100u8, 101u8, 73u8, 100u8, 40u8] + decimal(v.0 as nat) + seq![41u8]
}

/// The nodes of a path, separated by `, `.
pub open spec fn nodes_text(p: Seq<NodeId>) -> Seq<u8>
    decreases p.len(),
{
    if p.len() == 0 {
        Seq::empty()
    } else if p.len() == 1 {
        node_text(p[0])
    } else {
        nodes_text(p.drop_last()) + seq![44u8, 32u8] + node_text(p.last())
    }
}

/// One path of a step: `    - Path([<nodes>])` and a line break.
pub open spec fn path_line(p: Seq<NodeId>) -> Seq<u8> {
    seq![32u8, 32u8, 32u8, 32u8, 45u8, 32u8, 80u8, 97u8, 116u8, 104u8, 40u8, 91u8] + nodes_text(p)
        + seq![93u8, 41u8, 10u8]
}

/// The paths of a step, one line each.
pub open spec fn paths_text(ps: Seq<Seq<NodeId>>) -> Seq<u8>
    decreases ps.len(),
{
    if ps.len() == 0 {
        Seq::empty()
    } else {
        paths_text(ps.drop_last()) + path_line(ps.last())
    }
}

/// A step: `<duration> times:` on a line, then its paths.
pub open spec fn step_text(st: StepModel) -> Seq<u8> {
    decimal(st.duration) + seq![32u8, 116u8, 105u8, 109u8, 101u8, 115u8, 58u8, 10u8] + paths_text(
        st.paths,
    )
}

/// The steps, one after the other.
pub open spec fn summary_text(steps: Seq<StepModel>) -> Seq<u8>
    decreases steps.len(),
{
    if steps.len() == 0 {
        Seq::empty()
    } else {
        summary_text(steps.drop_last()) + step_text(steps.last())
    }
}

/// Appends `bytes`.
fn push_all(out: &mut Vec<u8>, bytes: &Vec<u8>)
    ensures
        final(out)@ == old(out)@ + bytes@,
{
    let ghost start = out@;
    let mut i: usize = 0;
    while i < bytes.len()
        invariant
            i <= bytes@.len(),
            out@ == start + bytes@.take(i as int),
        decreases bytes@.len() - i,
    {
        out.push(bytes[i]);
        i = i + 1;
        assert(out@ =~= start + bytes@.take(i as int));
    }
    assert(bytes@.take(i as int) =~= bytes@);
}

/// Appends the line of one path.
fn push_path_line(out: &mut Vec<u8>, path: &Path)
    ensures
        final(out)@ == old(out)@ + path_line(path@),
{
    let ghost start = out@;
    push_all(out, &vec![32u8, 32u8, 32u8, 32u8, 45u8, 32u8, 80u8, 97u8, 116u8, 104u8, 40u8, 91u8]);
    let ghost head = out@;
    let mut i: usize = 0;
    while i < path.len()
        invariant
            i <= path@.len(),
            out@ == head + nodes_text(path@.take(i as int)),
        decreases path@.len() - i,
    {
        let ghost before = out@;
        if i > 0 {
            push_all(out, &vec![44u8, 32u8]);
        }
        push_all(out, &vec![78u8, 111u8, 100u8, 101u8, 73u8, 100u8, 40u8]);
        push_decimal(out, path.node(i).0);
        push_all(out, &vec![41u8]);
        proof {
            let t = path@.take(i + 1);
            assert(t.drop_last() =~= path@.take(i as int));
            assert(t.last() == path@[i as int]);
            if i == 0 {
                assert(out@ =~= head + nodes_text(t));
            } else {
                assert(out@ =~= before + (seq![44u8, 32u8] + node_text(t.last())));
                assert(out@ =~= head + nodes_text(t));
            }
        }
        i = i + 1;
    }
    assert(path@.take(i as int) =~= path@);
    push_all(out, &vec![93u8, 41u8, 10u8]);
    assert(out@ =~= start + path_line(path@));
}

/// Appends the text of one step.
fn push_step(out: &mut Vec<u8>, step: &SolutionStep)
    ensures
        final(out)@ == old(out)@ + step_text(step@),
{
    let ghost start = out@;
    push_decimal(out, step.duration());
    push_all(out, &vec![32u8, 116u8, 105u8, 109u8, 101u8, 115u8, 58u8, 10u8]);
    let ghost head = out@;
    let paths = step.paths();
    let mut i: usize = 0;
    while i < paths.len()
        invariant
            i <= paths@.len(),
            views(paths@) == step@.paths,
            out@ == head + paths_text(step@.paths.take(i as int)),
        decreases paths@.len() - i,
    {
        push_path_line(out, &paths[i]);
        proof {
            let t = step@.paths.take(i + 1);
            assert(t.drop_last() =~= step@.paths.take(i as int));
            assert(t.last() == paths@[i as int]@);
        }
        i = i + 1;
    }
    assert(step@.paths.take(i as int) =~= step@.paths);
    assert(out@ =~= start + step_text(step@));
}

impl Solution {
    /// The schedule as text: for each step, `<duration> times:` on a line,
    /// then each of its paths on a line of its own.
    pub fn summary(&self) -> (r: Vec<u8>)
        ensures
            r@ == summary_text(self@),
    {
        let steps = self.steps();
        let mut out: Vec<u8> = Vec::new();
        let mut i: usize = 0;
        while i < steps.len()
            invariant
                i <= steps@.len(),
                steps@.len() == self@.len(),
                forall|k: int| 0 <= k < steps@.len() ==> #[trigger] steps@[k]@ == self@[k],
                out@ == summary_text(self@.take(i as int)),
            decreases steps@.len() - i,
        {
            push_step(&mut out, &steps[i]);
            proof {
                let t = self@.take(i + 1);
                assert(t.drop_last() =~= self@.take(i as int));
                assert(t.last() == self@[i as int]);
            }
            i = i + 1;
        }
        assert(self@.take(i as int) =~= self@);
        out
    }
}

} // verus!
