use vstd::prelude::*;

verus! {

/// The characters that a node name cannot hold: `'-'`, `' '` and `'#'`.
pub open spec fn invalid_name_char(c: char) -> bool {
    c == '-' || c == ' ' || c == '#'
}

/// Whether `c` cannot stand in a node name.
pub fn is_invalid_name_char(c: &char) -> (r: bool)
    ensures
        r == invalid_name_char(*c),
{
    *c == '-' || *c == ' ' || *c == '#'
}

/// The bytes that a node name cannot hold: `'-'`, `' '` and `'#'`.
pub open spec fn invalid_name_byte(b: u8) -> bool {
    b == 45 || b == 32 || b == 35
}

/// A valid node name: none of its characters is invalid. It is kept as the
/// bytes of its text.
#[derive(Debug)]
pub struct Name(Vec<u8>);

/// Why a text is no valid node name.
#[derive(Debug, Clone, Copy, PartialEq, Eq, Structural)]
pub enum ParseError {
    InvalidCharacter(char),
}

impl View for Name {
    type V = Seq<u8>;

    closed spec fn view(&self) -> Seq<u8> {
        self.0@
    }
}

/// The index of the first invalid byte of `b` from `i` on; `b.len()` when
/// there is none.
pub open spec fn first_invalid(b: Seq<u8>, i: nat) -> nat
    decreases b.len() - i,
{
    if i >= b.len() {
        b.len()
    } else if invalid_name_byte(b[i as int]) {
        i
    } else {
        first_invalid(b, i + 1)
    }
}

/// What reading `b` as a node name gives.
pub open spec fn name_of(b: Seq<u8>) -> Result<Seq<u8>, ParseError> {
    let k = first_invalid(b, 0);
    if k < b.len() {
        Err(ParseError::InvalidCharacter(b[k as int] as char))
    } else {
        Ok(b)
    }
}

impl Name {
    /// The name's text, as bytes.
    pub fn as_bytes(&self) -> (r: &[u8])
        ensures
            r@ == self@,
    {
        self.0.as_slice()
    }

    /// Whether two names are the same text.
    pub fn same(&self, other: &Name) -> (r: bool)
        ensures
            r == (self@ == other@),
    {
        let n = self.0.len();
        if n != other.0.len() {
            return false;
        }
        let mut i: usize = 0;
        while i < n
            invariant
                n == self@.len(),
                self@.len() == other@.len(),
                i <= n,
                forall|k: int| 0 <= k < i ==> self@[k] == other@[k],
            decreases n - i,
        {
            if self.0[i] != other.0[i] {
                return false;
            }
            i = i + 1;
        }
        assert(self@ =~= other@);
        true
    }

    /// Reads `text` as a node name: an error names its first invalid
    /// character.
    pub fn parse(text: &[u8]) -> (r: Result<Name, ParseError>)
        ensures
            match (r, name_of(text@)) {
                (Ok(n), Ok(b)) => n@ == b,
                (Err(e), Err(f)) => e == f,
                _ => false,
            },
    {
        let mut i: usize = 0;
        while i < text.len()
            invariant
                i <= text@.len(),
                first_invalid(text@, 0) == first_invalid(text@, i as nat),
            decreases text@.len() - i,
        {
            let b = text[i];
            if b == 45 || b == 32 || b == 35 {
                return Err(ParseError::InvalidCharacter(b as char));
            }
            i = i + 1;
        }
        let mut v: Vec<u8> = Vec::new();
        let mut k: usize = 0;
        while k < text.len()
            invariant
                k <= text@.len(),
                v@ == text@.subrange(0, k as int),
            decreases text@.len() - k,
        {
            v.push(text[k]);
            k = k + 1;
        }
        assert(v@ =~= text@);
        Ok(Name(v))
    }
}

impl std::str::FromStr for Name {
    type Err = ParseError;

    fn from_str(s: &str) -> Result<Name, ParseError> {
        Name::parse(s.as_bytes())
    }
}

} // verus!
