use lem_in::{Branch, Explorer, Graph, NodeId, Path};

const SQUARE: &str = "3\n##start\nS 0 0\nA 1 0\nB 1 1\n##end\nE 2 0\nS-A\nA-E\nS-B\nB-E\n";

fn nodes(p: &Path) -> Vec<usize> {
    p.nodes().iter().map(|n| n.0).collect()
}

fn inner_disjoint(paths: &[Path]) -> bool {
    for (i, p) in paths.iter().enumerate() {
        for (j, q) in paths.iter().enumerate() {
            if i == j {
                continue;
            }
            let pn = nodes(p);
            let qn = nodes(q);
            for a in &pn[..pn.len().saturating_sub(1)] {
                if qn[..qn.len().saturating_sub(1)].contains(a) {
                    return false;
                }
            }
        }
    }
    true
}

#[test]
fn try_it() {
    let graph: Graph = "10\n##start\ns 0 0\na1 1 0\na2 2 0\nb1 1 1\nb2 2 1\nc1 1 2\nc2 2 2\n##end\ne 3 1\n\
s-a1\na1-a2\na2-e\ns-b1\nb1-b2\nb2-e\ns-c1\nc1-c2\nc2-e\n"
        .parse()
        .unwrap();
    let paths = graph.n_shortest_paths(graph.simple_throughput_majorant()).unwrap();
    assert_eq!(paths.len(), 3);
    assert!(inner_disjoint(&paths));
}

#[test]
fn square_gives_two_disjoint_paths() {
    let graph: Graph = SQUARE.parse().unwrap();
    let paths = Path::n_shortest(&graph, 2).unwrap();
    assert_eq!(paths.len(), 2);
    assert_eq!(nodes(&paths[0]), vec![1, 3]);
    assert_eq!(nodes(&paths[1]), vec![2, 3]);
    assert_eq!(paths[0].len(), 2);
    assert_eq!(paths[1].len(), 2);
}

#[test]
fn zero_paths_is_an_empty_set() {
    let graph: Graph = SQUARE.parse().unwrap();
    assert_eq!(graph.n_shortest_paths(0).unwrap().len(), 0);
    let lonely: Graph = "1\n##start\nS 0 0\n##end\nE 1 1\n".parse().unwrap();
    assert_eq!(lonely.n_shortest_paths(0).unwrap().len(), 0);
}

#[test]
fn direct_link_gives_one_single_edge_path() {
    let graph: Graph = "4\n##start\nS 0 0\n##end\nE 1 0\nS-E\n".parse().unwrap();
    let one = graph.n_shortest_paths(1).unwrap();
    assert_eq!(one.len(), 1);
    assert_eq!(nodes(&one[0]), vec![1]);
    assert!(graph.n_shortest_paths(2).is_none());
}

#[test]
fn disconnected_terminals_give_no_paths() {
    let bare: Graph = "1\n##start\nS 0 0\n##end\nE 1 0\n".parse().unwrap();
    assert!(bare.n_shortest_paths(1).is_none());
    let apart: Graph = "1\n##start\nS 0 0\nA 1 0\nB 2 0\n##end\nE 3 0\nS-A\nB-E\n"
        .parse()
        .unwrap();
    assert_eq!(apart.simple_throughput_majorant(), 1);
    assert!(apart.n_shortest_paths(1).is_none());
}

#[test]
fn more_paths_than_the_degrees_allow_is_refused() {
    let graph: Graph = SQUARE.parse().unwrap();
    assert!(graph.n_shortest_paths(3).is_none());
}

#[test]
fn shared_bottleneck_allows_one_path_only() {
    // Both routes go through M, so two disjoint paths cannot be found.
    let graph: Graph = "2\n##start\nS 0 0\nA 1 0\nB 1 1\nM 2 0\nC 3 0\nD 3 1\n##end\nE 4 0\n\
S-A\nS-B\nA-M\nB-M\nM-C\nM-D\nC-E\nD-E\n"
        .parse()
        .unwrap();
    assert_eq!(graph.simple_throughput_majorant(), 2);
    assert!(graph.n_shortest_paths(2).is_none());
    let one = graph.n_shortest_paths(1).unwrap();
    assert_eq!(nodes(&one[0]), vec![1, 3, 4, 6]);
}

#[test]
fn backtrace_is_restartable() {
    let graph: Graph = "1\n##start\nS 0 0\nA 1 0\nB 2 0\n##end\nE 3 0\nS-B\nB-E\n".parse().unwrap();
    let mut explorer = Explorer::new(&graph);
    let root = explorer.start(NodeId(0));
    let a = explorer.branch(root, NodeId(2));
    let b = explorer.branch(a, NodeId(3));
    assert_eq!(explorer.record_len(NodeId(2)), 1);
    assert_eq!(explorer.record_len(NodeId(0)), 0);
    let collect = |explorer: &Explorer, branch: Branch| {
        let mut walk = explorer.bracktrace(branch);
        let mut out = Vec::new();
        while let Some(n) = walk.next() {
            out.push(n.0);
        }
        out
    };
    let first = collect(&explorer, b);
    let second = collect(&explorer, b);
    assert_eq!(first, vec![3, 2, 0]);
    assert_eq!(first, second);
    assert_eq!(explorer.trace(b), vec![NodeId(3), NodeId(2), NodeId(0)]);
    assert!(explorer.visits(b, NodeId(2)));
    assert!(!explorer.visits(b, NodeId(1)));
    assert_eq!(explorer.rewind(b), Some(a));
    assert_eq!(explorer.rewind(root), None);
    assert!(Branch::origin().is_origin());
    assert!(!root.is_origin());
}

#[test]
fn shortest_path_breadth_first() {
    let graph: Graph = SQUARE.parse().unwrap();
    let path = graph.shortest_path().unwrap();
    assert_eq!(nodes(&path), vec![1, 3]);
    let long: Graph = "1\n##start\nS 0 0\nA 1 0\nB 2 0\nC 3 0\n##end\nE 4 0\nS-A\nA-B\nB-C\nC-E\nS-C\n"
        .parse()
        .unwrap();
    assert_eq!(nodes(&Path::shortest(&long).unwrap()), vec![3, 4]);
    let apart: Graph = "1\n##start\nS 0 0\nA 1 0\nB 2 0\n##end\nE 3 0\nS-A\nB-E\n"
        .parse()
        .unwrap();
    assert!(apart.shortest_path().is_none());
    let same: Graph = "1\n##end\n##start\nS 0 0\n".parse().unwrap();
    assert_eq!(same.shortest_path().unwrap().len(), 0);
}

#[test]
fn search_gives_the_same_paths_every_time() {
    let a: Graph = SQUARE.parse().unwrap();
    let b: Graph = SQUARE.parse().unwrap();
    let first: Vec<Vec<usize>> = a.n_shortest_paths(2).unwrap().iter().map(nodes).collect();
    let again: Vec<Vec<usize>> = a.n_shortest_paths(2).unwrap().iter().map(nodes).collect();
    let other: Vec<Vec<usize>> = b.n_shortest_paths(2).unwrap().iter().map(nodes).collect();
    assert_eq!(first, again);
    assert_eq!(first, other);
}
