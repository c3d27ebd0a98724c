use lem_in::{Graph, NodeId, Path, Solution};

const SQUARE: &str = "3\n##start\nS 0 0\nA 1 0\nB 1 1\n##end\nE 2 0\nS-A\nA-E\nS-B\nB-E\n";

fn path(ids: &[usize]) -> Path {
    Path::from_vec(ids.iter().map(|&i| NodeId(i)).collect())
}

#[test]
fn square_schedule_and_movement() {
    let graph: Graph = SQUARE.parse().unwrap();
    let solution = graph.solve().unwrap();
    let steps = solution.steps();
    assert_eq!(steps.len(), 2);
    assert_eq!(steps[0].duration(), 1);
    assert_eq!(steps[0].paths().len(), 2);
    assert_eq!(steps[1].duration(), 1);
    assert_eq!(steps[1].paths().len(), 1);
    let text = String::from_utf8(solution.movement_text()).unwrap();
    assert_eq!(text, "L1-1 L2-2 \nL3-1 L1-3 L2-3 \nL3-3 \n\n");
}

#[test]
fn schedule_shares_extra_ticks() {
    let short = path(&[1, 9]);
    let long = path(&[2, 3, 4, 5, 9]);
    let solution = Solution::schedule(&vec![long, short], 10).unwrap();
    let steps = solution.steps();
    assert_eq!(steps.len(), 2);
    assert_eq!(steps[0].duration(), 3);
    assert_eq!(steps[0].paths().len(), 2);
    assert_eq!(steps[0].paths()[0].len(), 2);
    assert_eq!(steps[0].paths()[1].len(), 5);
    assert_eq!(steps[1].duration(), 4);
    assert_eq!(steps[1].paths().len(), 1);
    assert_eq!(steps[1].paths()[0].len(), 2);
}

#[test]
fn schedule_without_ants_or_paths_is_none() {
    assert!(Solution::schedule(&vec![path(&[1])], 0).is_none());
    assert!(Solution::schedule(&vec![], 5).is_none());
}

#[test]
fn schedule_skips_windows_that_cannot_pay_for_their_gaps() {
    let solution = Solution::schedule(&vec![path(&[1]), path(&[2, 3, 4, 5, 6, 7])], 3).unwrap();
    let steps = solution.steps();
    assert_eq!(steps.len(), 1);
    assert_eq!(steps[0].duration(), 3);
    assert_eq!(steps[0].paths().len(), 1);
}

#[test]
fn steps_never_send_more_ants_than_there_are() {
    for ants in 1..40usize {
        let paths = vec![path(&[1, 2, 9]), path(&[3, 9]), path(&[4, 5, 6, 9])];
        let solution = Solution::schedule(&paths, ants).unwrap();
        let mut sent = 0;
        for step in solution.steps() {
            assert!(step.duration() >= 1);
            sent += step.duration() * step.paths().len();
        }
        assert!(sent <= ants);
    }
}

#[test]
fn each_ant_walks_its_whole_path() {
    let graph: Graph = SQUARE.parse().unwrap();
    let solution = graph.solve().unwrap();
    let lines = solution.moves();
    assert_eq!(lines.len(), 4);
    for ant in 1..=3usize {
        let ticks: Vec<usize> = (0..lines.len())
            .filter(|&t| lines[t].iter().any(|m| m.ant == ant))
            .collect();
        assert_eq!(ticks.len(), 2);
        assert_eq!(ticks[1], ticks[0] + 1);
    }
    assert_eq!(lines[0][0].node, NodeId(1));
    assert_eq!(lines[1][1].node, NodeId(3));
}

#[test]
fn solve_without_ants_or_exits_is_none() {
    let no_ants: Graph = "0\n##start\nS 0 0\n##end\nE 1 0\nS-E\n".parse().unwrap();
    assert!(no_ants.solve().is_none());
    let walled: Graph = "5\n##start\nS 0 0\n##end\nE 1 0\n".parse().unwrap();
    assert!(walled.solve().is_none());
}

#[test]
fn solve_falls_back_to_fewer_paths() {
    let graph: Graph = "2\n##start\nS 0 0\nA 1 0\nB 1 1\nM 2 0\nC 3 0\nD 3 1\n##end\nE 4 0\n\
S-A\nS-B\nA-M\nB-M\nM-C\nM-D\nC-E\nD-E\n"
        .parse()
        .unwrap();
    let solution = graph.solve().unwrap();
    let steps = solution.steps();
    assert_eq!(steps.len(), 1);
    assert_eq!(steps[0].duration(), 2);
    assert_eq!(steps[0].paths().len(), 1);
}

#[test]
fn every_ant_walks_every_node_of_its_path() {
    let paths = vec![path(&[1, 9]), path(&[2, 3, 4, 5, 9]), path(&[6, 7, 9])];
    for ants in 1..40usize {
        let solution = Solution::schedule(&paths, ants).unwrap();
        let lines = solution.moves();
        let mut seen = 0;
        for ant in 1..=ants {
            let ticks: Vec<usize> = (0..lines.len())
                .filter(|&t| lines[t].iter().any(|m| m.ant == ant))
                .collect();
            if ticks.is_empty() {
                continue;
            }
            seen += 1;
            let walked: Vec<usize> = ticks
                .iter()
                .map(|&t| lines[t].iter().find(|m| m.ant == ant).unwrap().node.0)
                .collect();
            for w in ticks.windows(2) {
                assert_eq!(w[1], w[0] + 1);
            }
            assert!(paths.iter().any(|p| p.nodes().iter().map(|n| n.0).collect::<Vec<_>>() == walked));
        }
        let mut sent = 0;
        for step in solution.steps() {
            sent += step.duration() * step.paths().len();
        }
        assert_eq!(seen, sent);
    }
}

#[test]
fn summary_lists_steps_and_paths() {
    let graph: Graph = SQUARE.parse().unwrap();
    let solution = graph.solve().unwrap();
    let text = String::from_utf8(solution.summary()).unwrap();
    assert_eq!(
        text,
        "1 times:\n    - Path([NodeId(1), NodeId(3)])\n    - Path([NodeId(2), NodeId(3)])\n\
1 times:\n    - Path([NodeId(1), NodeId(3)])\n"
    );
}
