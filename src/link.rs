use vstd::prelude::*;

use crate::name::{name_of, Name};
use crate::text::{find_byte, first_from, slice_to_vec};

verus! {

/// Why a text is no link.
#[derive(Debug, Clone, Copy, PartialEq, Eq, Structural)]
pub enum ParseError {
    MissingField,
    InvalidName(crate::name::ParseError),
}

/// What reading `b` as a link gives: two names with a `-` between.
pub open spec fn link_of(b: Seq<u8>) -> Result<(Seq<u8>, Seq<u8>), ParseError> {
    let j = first_from(b, 45, 0);
    if j >= b.len() {
        Err(ParseError::MissingField)
    } else {
        match name_of(b.subrange(0, j as int)) {
            Err(e) => Err(ParseError::InvalidName(e)),
            Ok(a) => match name_of(b.subrange(j as int + 1, b.len() as int)) {
                Err(e) => Err(ParseError::InvalidName(e)),
                Ok(c) => Ok((a, c)),
            },
        }
    }
}

/// A link between two nodes, by name.
pub struct LinkByName {
    pub a: Name,
    pub b: Name,
}

impl LinkByName {
    /// Reads `text` as a link.
    pub fn parse(text: &[u8]) -> (r: Result<LinkByName, ParseError>)
        ensures
            match (r, link_of(text@)) {
                (Ok(l), Ok((a, b))) => l.a@ == a && l.b@ == b,
                (Err(e), Err(f)) => e == f,
                _ => false,
            },
    {
        let j = find_byte(text, 45, 0);
        if j >= text.len() {
            return Err(ParseError::MissingField);
        }
        let head = slice_to_vec(text, 0, j);
        let a = match Name::parse(head.as_slice()) {
            Err(e) => {
                return Err(ParseError::InvalidName(e));
            },
            Ok(n) => n,
        };
        let tail = slice_to_vec(text, j + 1, text.len());
        let b = match Name::parse(tail.as_slice()) {
            Err(e) => {
                return Err(ParseError::InvalidName(e));
            },
            Ok(n) => n,
        };
        Ok(LinkByName { a, b })
    }
}


impl std::str::FromStr for LinkByName {
    type Err = ParseError;

    fn from_str(s: &str) -> Result<LinkByName, ParseError> {
        LinkByName::parse(s.as_bytes())
    }
}

} // verus!
