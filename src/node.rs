use vstd::prelude::*;

use crate::name::{name_of, Name};
use crate::text::{find_byte, first_from, parse_usize, slice_to_vec, usize_of};

verus! {

/// The index of a node in its graph.
#[derive(Clone, Copy, Debug, PartialEq, Eq, Structural)]
pub struct NodeId(pub usize);

impl NodeId {
    /// The index as a plain integer.
    pub fn index(&self) -> (r: usize)
        ensures
            r == self.0,
    {
        self.0
    }
}

/// Where a node is drawn. The search does not read it.
#[derive(Debug, Clone, Copy, PartialEq, Eq, Structural)]
pub struct Position {
    pub x: usize,
    pub y: usize,
}

/// A node: its name, its position, and the nodes that it is linked to.
#[derive(Debug)]
pub struct Node {
    pub name: Name,
    pub pos: Position,
    pub links: Vec<NodeId>,
}

/// Why a text is no position.
#[derive(Debug, Clone, Copy, PartialEq, Eq, Structural)]
pub enum PositionParseError {
    MissingField,
    ParseIntError,
}

/// What reading `b` as a position gives: two numbers with a space between.
pub open spec fn position_of(b: Seq<u8>) -> Result<Position, PositionParseError> {
    let j = first_from(b, 32, 0);
    if j >= b.len() {
        Err(PositionParseError::MissingField)
    } else {
        match (usize_of(b.subrange(0, j as int)), usize_of(b.subrange(j as int + 1, b.len() as int))) {
            (Some(x), Some(y)) => Ok(Position { x: x as usize, y: y as usize }),
            _ => Err(PositionParseError::ParseIntError),
        }
    }
}

/// Why a text is no node.
#[derive(Debug, Clone, Copy, PartialEq, Eq, Structural)]
pub enum ParseError {
    MissingField,
    PositionParseError(PositionParseError),
    InvalidName(crate::name::ParseError),
}

/// What reading `b` as a node gives: its name, a space, its position.
pub open spec fn node_of(b: Seq<u8>) -> Result<(Seq<u8>, Position), ParseError> {
    let j = first_from(b, 32, 0);
    if j >= b.len() {
        Err(ParseError::MissingField)
    } else {
        match position_of(b.subrange(j as int + 1, b.len() as int)) {
            Err(e) => Err(ParseError::PositionParseError(e)),
            Ok(pos) => match name_of(b.subrange(0, j as int)) {
                Err(e) => Err(ParseError::InvalidName(e)),
                Ok(name) => Ok((name, pos)),
            },
        }
    }
}

impl Position {
    /// Reads `text` as a position.
    pub fn parse(text: &[u8]) -> (r: Result<Position, PositionParseError>)
        ensures
            r == position_of(text@),
    {
        let j = find_byte(text, 32, 0);
        if j >= text.len() {
            return Err(PositionParseError::MissingField);
        }
        let x = parse_usize(text, 0, j);
        let y = parse_usize(text, j + 1, text.len());
        match (x, y) {
            (Some(x), Some(y)) => Ok(Position { x, y }),
            _ => Err(PositionParseError::ParseIntError),
        }
    }
}

impl Node {
    /// Reads `text` as a node, with no links yet.
    pub fn parse(text: &[u8]) -> (r: Result<Node, ParseError>)
        ensures
            match (r, node_of(text@)) {
                (Ok(n), Ok((name, pos))) => n.name@ == name && n.pos == pos && n.links@.len() == 0,
                (Err(e), Err(f)) => e == f,
                _ => false,
            },
    {
        let j = find_byte(text, 32, 0);
        if j >= text.len() {
            return Err(ParseError::MissingField);
        }
        let rest = slice_to_vec(text, j + 1, text.len());
        let pos = match Position::parse(rest.as_slice()) {
            Err(e) => {
                return Err(ParseError::PositionParseError(e));
            },
            Ok(p) => p,
        };
        let head = slice_to_vec(text, 0, j);
        let name = match Name::parse(head.as_slice()) {
            Err(e) => {
                return Err(ParseError::InvalidName(e));
            },
            Ok(n) => n,
        };
        Ok(Node { name, pos, links: Vec::new() })
    }
}

impl std::str::FromStr for Position {
    type Err = PositionParseError;

    fn from_str(s: &str) -> Result<Position, PositionParseError> {
        Position::parse(s.as_bytes())
    }
}

impl std::str::FromStr for Node {
    type Err = ParseError;

    fn from_str(s: &str) -> Result<Node, ParseError> {
        Node::parse(s.as_bytes())
    }
}

} // verus!
