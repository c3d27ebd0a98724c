use lem_in::{link, name, Graph, LinkingError, NodeId, ParseError};

const SQUARE: &str = "3\n##start\nS 0 0\nA 1 0\nB 1 1\n##end\nE 2 0\nS-A\nA-E\nS-B\nB-E\n";

#[test]
fn empty_graph() {
    let result = "".parse::<Graph>();

    assert!(matches!(result, Err(ParseError::MissingAnts)));
}

#[test]
fn parses_nodes_links_and_terminals() {
    let graph: Graph = SQUARE.parse().unwrap();
    assert_eq!(graph.ant_count(), 3);
    assert_eq!(graph.start(), NodeId(0));
    assert_eq!(graph.end(), NodeId(3));
    let nodes = graph.nodes();
    assert_eq!(nodes.len(), 4);
    assert_eq!(nodes[0].name.as_bytes(), b"S");
    assert_eq!(nodes[3].name.as_bytes(), b"E");
    assert_eq!(nodes[1].pos.x, 1);
    assert_eq!(nodes[2].pos.y, 1);
    assert_eq!(nodes[0].links, vec![NodeId(1), NodeId(2)]);
    assert_eq!(nodes[3].links, vec![NodeId(1), NodeId(2)]);
    assert_eq!(graph.simple_throughput_majorant(), 2);
}

#[test]
fn parse_accepts_comments_and_crlf() {
    let graph = Graph::parse("+2\r\n#a comment\r\n##start\r\nS 0 0\r\n##end\r\nE 1 1\r\nS-E").unwrap();
    assert_eq!(graph.ant_count(), 2);
    assert_eq!(graph.nodes()[0].links, vec![NodeId(1)]);
}

#[test]
fn parse_reports_each_error() {
    assert!(matches!(Graph::parse("x\n"), Err(ParseError::MissingAnts)));
    assert!(matches!(Graph::parse("-1\n"), Err(ParseError::MissingAnts)));
    assert!(matches!(Graph::parse("99999999999999999999999\n"), Err(ParseError::MissingAnts)));
    match Graph::parse("1\n##middle\n") {
        Err(ParseError::InvalidTag(t)) => assert_eq!(t, b"middle".to_vec()),
        _ => panic!("expected an invalid tag"),
    }
    match Graph::parse("1\n##start\nS 0 0\n##start\n") {
        Err(ParseError::DuplicateTag(t)) => assert_eq!(t, b"start".to_vec()),
        _ => panic!("expected a duplicate tag"),
    }
    match Graph::parse("1\n##end\nE 0 0\n") {
        Err(ParseError::MissingTag(t)) => assert_eq!(t, b"start".to_vec()),
        _ => panic!("expected a missing start"),
    }
    match Graph::parse("1\n##start\nS 0 0\n") {
        Err(ParseError::MissingTag(t)) => assert_eq!(t, b"end".to_vec()),
        _ => panic!("expected a missing end"),
    }
    match Graph::parse("1\n##start\nS 0 0\n##end\n") {
        Err(ParseError::MissingTag(t)) => assert_eq!(t, b"end".to_vec()),
        _ => panic!("expected an end tag with no node after it"),
    }
    match Graph::parse("1\n##start\nS 0 0\nS 1 1\n") {
        Err(ParseError::DuplicateName(n)) => assert_eq!(n.as_bytes(), b"S"),
        _ => panic!("expected a duplicate name"),
    }
    assert!(matches!(
        Graph::parse("1\n##start\nS 0 0\nnonsense\n"),
        Err(ParseError::LinkParseError(link::ParseError::MissingField))
    ));
    assert!(matches!(
        Graph::parse("1\n##start\nS 0 0\nS-a#b\n"),
        Err(ParseError::LinkParseError(link::ParseError::InvalidName(
            name::ParseError::InvalidCharacter('#')
        )))
    ));
    match Graph::parse("1\n##start\nS 0 0\n##end\nE 1 1\nS-X\n") {
        Err(ParseError::LinkingError(LinkingError::UnknownName(n))) => assert_eq!(n.as_bytes(), b"X"),
        _ => panic!("expected an unknown name"),
    }
}

#[test]
fn nodes_after_links_are_links() {
    assert!(matches!(
        Graph::parse("1\n##start\nS 0 0\n##end\nE 1 1\nS-E\nF 2 2\n"),
        Err(ParseError::LinkParseError(link::ParseError::MissingField))
    ));
}

#[test]
fn graph_new_checks_link_ends() {
    let a = lem_in::Node {
        name: lem_in::Name::parse(b"a").unwrap(),
        pos: lem_in::Position { x: 0, y: 0 },
        links: vec![NodeId(1)],
    };
    let b = lem_in::Node {
        name: lem_in::Name::parse(b"b").unwrap(),
        pos: lem_in::Position { x: 0, y: 0 },
        links: vec![NodeId(7)],
    };
    assert!(Graph::new(vec![a], NodeId(0), NodeId(0), 1).is_none());
    assert!(Graph::new(vec![b], NodeId(0), NodeId(0), 1).is_none());
    let c = lem_in::Node {
        name: lem_in::Name::parse(b"c").unwrap(),
        pos: lem_in::Position { x: 0, y: 0 },
        links: vec![NodeId(0)],
    };
    let g = Graph::new(vec![c], NodeId(0), NodeId(0), 4).unwrap();
    assert_eq!(g.ant_count(), 4);
    assert_eq!(g.links(NodeId(0)), &vec![NodeId(0)]);
}
