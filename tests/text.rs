use lem_in::{is_invalid_name_char, link, name, node, LinkByName, Name, Node, Position, PositionParseError};

#[test]
fn invalid_name_chars() {
    assert_eq!(is_invalid_name_char(&'a'), false);
    assert_eq!(is_invalid_name_char(&'-'), true);
    assert_eq!(is_invalid_name_char(&'#'), true);
    assert_eq!(is_invalid_name_char(&' '), true);
}

#[test]
fn names() {
    assert_eq!(Name::parse(b"room_1").unwrap().as_bytes(), b"room_1");
    assert!(Name::parse(b"").is_ok());
    assert_eq!(
        Name::parse(b"a b-c").unwrap_err(),
        name::ParseError::InvalidCharacter(' ')
    );
    assert!(Name::parse(b"x").unwrap().same(&Name::parse(b"x").unwrap()));
    assert!(!Name::parse(b"x").unwrap().same(&Name::parse(b"xy").unwrap()));
}

#[test]
fn positions() {
    assert_eq!(Position::parse(b"12 +7"), Ok(Position { x: 12, y: 7 }));
    assert_eq!(Position::parse(b"12"), Err(PositionParseError::MissingField));
    assert_eq!(Position::parse(b"1 2 3"), Err(PositionParseError::ParseIntError));
    assert_eq!(Position::parse(b"a 2"), Err(PositionParseError::ParseIntError));
    assert_eq!(Position::parse(b"1 "), Err(PositionParseError::ParseIntError));
}

#[test]
fn nodes() {
    let node = Node::parse(b"hall 3 4").unwrap();
    assert_eq!(node.name.as_bytes(), b"hall");
    assert_eq!(node.pos, Position { x: 3, y: 4 });
    assert!(node.links.is_empty());
    assert!(matches!(Node::parse(b"hall"), Err(node::ParseError::MissingField)));
    assert!(matches!(
        Node::parse(b"hall 3"),
        Err(node::ParseError::PositionParseError(PositionParseError::MissingField))
    ));
    assert!(matches!(
        Node::parse(b"h#ll 3 4"),
        Err(node::ParseError::InvalidName(name::ParseError::InvalidCharacter('#')))
    ));
}

#[test]
fn links() {
    let link = LinkByName::parse(b"a-b").unwrap();
    assert_eq!(link.a.as_bytes(), b"a");
    assert_eq!(link.b.as_bytes(), b"b");
    assert!(matches!(LinkByName::parse(b"ab"), Err(link::ParseError::MissingField)));
    assert!(matches!(
        LinkByName::parse(b"a-b-c"),
        Err(link::ParseError::InvalidName(name::ParseError::InvalidCharacter('-')))
    ));
}
