use vstd::prelude::*;

use vstd::string::StringSliceAdditionalSpecFns;

use crate::graph::Graph;
use crate::link::{link_of, LinkByName};
use crate::name::Name;
use crate::node::{node_of, Node, NodeId, Position};
use crate::text::{lines_from, next_line, parse_usize, usize_of};

verus! {

/// Why a text is no graph.
#[derive(Debug)]
pub enum ParseError {
    /// The first line holds no number of ants.
    MissingAnts,
    DuplicateName(Name),
    InvalidTag(Vec<u8>),
    DuplicateTag(Vec<u8>),
    /// A terminal tag is missing, or no node follows it.
    MissingTag(Vec<u8>),
    LinkParseError(crate::link::ParseError),
    LinkingError(LinkingError),
}

/// Why a link cannot be made.
#[derive(Debug)]
pub enum LinkingError {
    UnknownName(Name),
}

/// A parse error as plain values.
pub ghost enum ParseFailure {
    MissingAnts,
    DuplicateName(Seq<u8>),
    InvalidTag(Seq<u8>),
    DuplicateTag(Seq<u8>),
    MissingTag(Seq<u8>),
    LinkParseError(crate::link::ParseError),
    UnknownName(Seq<u8>),
}

impl View for ParseError {
    type V = ParseFailure;

    closed spec fn view(&self) -> ParseFailure {
        match self {
            ParseError::MissingAnts => ParseFailure::MissingAnts,
            ParseError::DuplicateName(n) => ParseFailure::DuplicateName(n@),
            ParseError::InvalidTag(t) => ParseFailure::InvalidTag(t@),
            ParseError::DuplicateTag(t) => ParseFailure::DuplicateTag(t@),
            ParseError::MissingTag(t) => ParseFailure::MissingTag(t@),
            ParseError::LinkParseError(e) => ParseFailure::LinkParseError(*e),
            ParseError::LinkingError(LinkingError::UnknownName(n)) => ParseFailure::UnknownName(n@),
        }
    }
}

/// The graph read so far.
pub ghost struct Draft {
    pub names: Seq<Seq<u8>>,
    pub positions: Seq<Position>,
    pub links: Seq<Seq<NodeId>>,
    pub start: Option<nat>,
    pub end: Option<nat>,
    /// Whether node lines are still expected; the first line that is no node
    /// ends them.
    pub parsing_nodes: bool,
}

pub open spec fn empty_draft() -> Draft {
    Draft {
        names: Seq::empty(),
        positions: Seq::empty(),
        links: Seq::empty(),
        start: None,
        end: None,
        parsing_nodes: true,
    }
}

pub open spec fn start_word() -> Seq<u8> {
    seq![115u8, 116u8, 97u8, 114u8, 116u8]
}

pub open spec fn end_word() -> Seq<u8> {
    seq![101u8, 110u8, 100u8]
}

/// The index of the first of `names` from `i` on that is `a`.
pub open spec fn index_of(names: Seq<Seq<u8>>, a: Seq<u8>, i: nat) -> Option<nat>
    decreases names.len() - i,
{
    if i >= names.len() {
        None
    } else if names[i as int] == a {
        Some(i)
    } else {
        index_of(names, a, i + 1)
    }
}

/// Adds the link `a-b` in both directions.
pub open spec fn add_link(d: Draft, a: nat, b: nat) -> Draft {
    let l1 = d.links.update(a as int, d.links[a as int].push(NodeId(b as usize)));
    let l2 = l1.update(b as int, l1[b as int].push(NodeId(a as usize)));
    Draft { links: l2, ..d }
}

/// What one line after the first does to the graph read so far: `##start`
/// and `##end` mark the next node; other lines starting with `#` are
/// comments; then come nodes, `name x y`, and after them links, `a-b`.
pub open spec fn step(d: Draft, line: Seq<u8>) -> Result<Draft, ParseFailure> {
    if line.len() >= 2 && line[0] == 35 && line[1] == 35 {
        let tag = line.skip(2);
        if tag == start_word() {
            if d.start is Some {
                Err(ParseFailure::DuplicateTag(tag))
            } else {
                Ok(Draft { start: Some(d.names.len()), ..d })
            }
        } else if tag == end_word() {
            if d.end is Some {
                Err(ParseFailure::DuplicateTag(tag))
            } else {
                Ok(Draft { end: Some(d.names.len()), ..d })
            }
        } else {
            Err(ParseFailure::InvalidTag(tag))
        }
    } else if line.len() >= 1 && line[0] == 35 {
        Ok(d)
    } else if d.parsing_nodes && node_of(line) is Ok {
        let (name, pos) = node_of(line)->Ok_0;
        if d.names.contains(name) {
            Err(ParseFailure::DuplicateName(name))
        } else {
            Ok(
                Draft {
                    names: d.names.push(name),
                    positions: d.positions.push(pos),
                    links: d.links.push(Seq::empty()),
                    ..d
                },
            )
        }
    } else {
        match link_of(line) {
            Err(e) => Err(ParseFailure::LinkParseError(e)),
            Ok((a, b)) => match index_of(d.names, a, 0) {
                None => Err(ParseFailure::UnknownName(a)),
                Some(ia) => match index_of(d.names, b, 0) {
                    None => Err(ParseFailure::UnknownName(b)),
                    Some(ib) => Ok(add_link(Draft { parsing_nodes: false, ..d }, ia, ib)),
                },
            },
        }
    }
}

/// The lines applied one after the other; the first error stops it.
pub open spec fn fold(d: Draft, lines: Seq<Seq<u8>>) -> Result<Draft, ParseFailure>
    decreases lines.len(),
{
    if lines.len() == 0 {
        Ok(d)
    } else {
        match step(d, lines[0]) {
            Err(e) => Err(e),
            Ok(d2) => fold(d2, lines.drop_first()),
        }
    }
}

/// What reading `s` as a graph gives: the number of ants on the first line,
/// then the lines that [`step`] reads; both tags must be there, each followed
/// by a node.
pub open spec fn graph_of(s: Seq<u8>) -> Result<(nat, Draft), ParseFailure> {
    let ls = lines_from(s, 0);
    if ls.len() == 0 {
        Err(ParseFailure::MissingAnts)
    } else {
        match usize_of(ls[0]) {
            None => Err(ParseFailure::MissingAnts),
            Some(ants) => match fold(empty_draft(), ls.drop_first()) {
                Err(e) => Err(e),
                Ok(d) => if !(d.start is Some && d.start->0 < d.names.len()) {
                    Err(ParseFailure::MissingTag(start_word()))
                } else if !(d.end is Some && d.end->0 < d.names.len()) {
                    Err(ParseFailure::MissingTag(end_word()))
                } else {
                    Ok((ants, d))
                },
            },
        }
    }
}

/// The graph under construction.
struct Builder {
    nodes: Vec<Node>,
    start: Option<usize>,
    end: Option<usize>,
    parsing_nodes: bool,
}

impl View for Builder {
    type V = Draft;

    closed spec fn view(&self) -> Draft {
        Draft {
            names: Seq::new(self.nodes@.len(), |i: int| self.nodes@[i].name@),
            positions: Seq::new(self.nodes@.len(), |i: int| self.nodes@[i].pos),
            links: Seq::new(self.nodes@.len(), |i: int| self.nodes@[i].links@),
            start: match self.start {
                Some(v) => Some(v as nat),
                None => None,
            },
            end: match self.end {
                Some(v) => Some(v as nat),
                None => None,
            },
            parsing_nodes: self.parsing_nodes,
        }
    }
}

/// Every link of a draft names one of its nodes.
pub open spec fn links_ok(d: Draft) -> bool {
    &&& d.links.len() == d.names.len()
    &&& d.positions.len() == d.names.len()
    &&& forall|u: int, k: int|
        0 <= u < d.links.len() && 0 <= k < d.links[u].len() ==> (#[trigger] d.links[u][k]).0
            < d.names.len()
}

/// Whether `line[from..]` is `word`.
fn is_word(line: &[u8], from: usize, word: &[u8]) -> (r: bool)
    requires
        from <= line@.len(),
    ensures
        r == (line@.skip(from as int) == word@),
{
    let n = line.len();
    if n - from != word.len() {
        assert(line@.skip(from as int).len() != word@.len());
        return false;
    }
    let mut i: usize = 0;
    while i < word.len()
        invariant
            n == line@.len(),
            from <= n,
            n - from == word@.len(),
            i <= word@.len(),
            forall|k: int| 0 <= k < i ==> line@[from + k] == word@[k],
        decreases word@.len() - i,
    {
        if line[from + i] != word[i] {
            assert(line@.skip(from as int)[i as int] != word@[i as int]);
            return false;
        }
        i = i + 1;
    }
    assert(line@.skip(from as int) =~= word@);
    true
}

impl Builder {
    fn find(&self, name: &Name) -> (r: Option<usize>)
        ensures
            match (r, index_of(self@.names, name@, 0)) {
                (Some(i), Some(j)) => i == j,
                (None, None) => true,
                _ => false,
            },
    {
        let mut i: usize = 0;
        while i < self.nodes.len()
            invariant
                i <= self.nodes@.len(),
                index_of(self@.names, name@, 0) == index_of(self@.names, name@, i as nat),
            decreases self.nodes@.len() - i,
        {
            if self.nodes[i].name.same(name) {
                return Some(i);
            }
            i = i + 1;
        }
        None
    }

    fn apply(&mut self, line: &[u8]) -> (r: Result<(), ParseError>)
        requires
            links_ok(old(self)@),
        ensures
            links_ok(final(self)@),
            match (r, step(old(self)@, line@)) {
                (Ok(()), Ok(d)) => final(self)@ == d,
                (Err(e), Err(f)) => e@ == f,
                _ => false,
            },
            r is Err ==> final(self)@.names == old(self)@.names && final(self)@.positions == old(
                self,
            )@.positions && final(self)@.links == old(self)@.links && final(self)@.start == old(
                self,
            )@.start && final(self)@.end == old(self)@.end,
    {
        let ghost d = self@;
        if line.len() >= 2 && line[0] == 35 && line[1] == 35 {
            let start_tag: Vec<u8> = vec![115u8, 116u8, 97u8, 114u8, 116u8];
            let end_tag: Vec<u8> = vec![101u8, 110u8, 100u8];
            assert(start_tag@ =~= start_word());
            assert(end_tag@ =~= end_word());
            let tag = crate::text::slice_to_vec(line, 2, line.len());
            assert(tag@ =~= line@.skip(2));
            if is_word(line, 2, start_tag.as_slice()) {
                if self.start.is_some() {
                    return Err(ParseError::DuplicateTag(tag));
                }
                self.start = Some(self.nodes.len());
                assert(self@ =~= Draft { start: Some(d.names.len()), ..d });
                return Ok(());
            } else if is_word(line, 2, end_tag.as_slice()) {
                if self.end.is_some() {
                    return Err(ParseError::DuplicateTag(tag));
                }
                self.end = Some(self.nodes.len());
                assert(self@ =~= Draft { end: Some(d.names.len()), ..d });
                return Ok(());
            } else {
                return Err(ParseError::InvalidTag(tag));
            }
        } else if line.len() >= 1 && line[0] == 35 {
            return Ok(());
        }
        if self.parsing_nodes {
            match Node::parse(line) {
                Ok(node) => {
                    match self.find(&node.name) {
                        Some(i) => {
                            proof {
                                crate::parse::lemma_index_of_found(d.names, node.name@, 0);
                            }
                            return Err(ParseError::DuplicateName(node.name));
                        },
                        None => {
                            proof {
                                crate::parse::lemma_index_of_absent(d.names, node.name@, 0);
                            }
                            assert(node.links@ =~= Seq::<NodeId>::empty());
                            self.nodes.push(node);
                            proof {
                                let n = self@;
                                assert(n.names =~= d.names.push(node.name@));
                                assert(n.positions =~= d.positions.push(node.pos));
                                assert(n.links =~= d.links.push(Seq::empty()));
                            }
                            return Ok(());
                        },
                    }
                },
                Err(_) => {
                    self.parsing_nodes = false;
                },
            }
        }
        assert(self@ == Draft { parsing_nodes: false, ..d });
        let link = match LinkByName::parse(line) {
            Err(e) => {
                return Err(ParseError::LinkParseError(e));
            },
            Ok(l) => l,
        };
        let a = match self.find(&link.a) {
            None => {
                return Err(ParseError::LinkingError(LinkingError::UnknownName(link.a)));
            },
            Some(i) => i,
        };
        let b = match self.find(&link.b) {
            None => {
                return Err(ParseError::LinkingError(LinkingError::UnknownName(link.b)));
            },
            Some(i) => i,
        };
        proof {
            crate::parse::lemma_index_of_found(d.names, link.a@, 0);
            crate::parse::lemma_index_of_found(d.names, link.b@, 0);
        }
        let ghost before = self@;
        self.nodes[a].links.push(NodeId(b));
        let ghost mid = self@;
        assert(mid.links =~= before.links.update(a as int, before.links[a as int].push(NodeId(b))));
        assert(mid.names =~= before.names);
        assert(mid.positions =~= before.positions);
        self.nodes[b].links.push(NodeId(a));
        proof {
            let n = self@;
            assert(n.links =~= mid.links.update(b as int, mid.links[b as int].push(NodeId(a))));
            assert(n.names =~= before.names);
            assert(n.positions =~= before.positions);
            assert(n == add_link(before, a as nat, b as nat));
        }
        Ok(())
    }
}

proof fn lemma_index_of_found(names: Seq<Seq<u8>>, a: Seq<u8>, i: nat)
    ensures
        index_of(names, a, i) matches Some(j) ==> i <= j < names.len() && names[j as int] == a,
        names.contains(a) && (forall|k: int| 0 <= k < i ==> names[k] != a) ==> index_of(
            names,
            a,
            i,
        ) is Some,
    decreases names.len() - i,
{
    if i < names.len() && names[i as int] != a {
        lemma_index_of_found(names, a, i + 1);
    }
}

proof fn lemma_index_of_absent(names: Seq<Seq<u8>>, a: Seq<u8>, i: nat)
    requires
        index_of(names, a, i) is None,
    ensures
        forall|k: int| i <= k < names.len() ==> names[k] != a,
    decreases names.len() - i,
{
    if i < names.len() {
        lemma_index_of_absent(names, a, i + 1);
    }
}


impl std::str::FromStr for Graph {
    type Err = ParseError;

    fn from_str(s: &str) -> Result<Graph, ParseError> {
        Graph::parse(s)
    }
}

/// The lines of `s` after the line ending at `i`.
pub open spec fn rest_after(s: Seq<u8>, i: nat) -> Seq<Seq<u8>> {
    if i < s.len() {
        lines_from(s, i + 1)
    } else {
        Seq::empty()
    }
}

/// Applies the lines of `s` after the line ending at `j`.
fn read_body(s: &[u8], j: usize, b: &mut Builder) -> (r: Result<(), ParseError>)
    requires
        j <= s@.len(),
        links_ok(old(b)@),
    ensures
        match (r, fold(old(b)@, rest_after(s@, j as nat))) {
            (Ok(()), Ok(d)) => final(b)@ == d && links_ok(d),
            (Err(e), Err(f)) => e@ == f,
            _ => false,
        },
{
    let ghost sb = s@;
    let ghost target = fold(old(b)@, rest_after(sb, j as nat));
    let mut i = j;
    while i < s.len() && i + 1 < s.len()
        invariant
            sb == s@,
            i <= sb.len(),
            links_ok(b@),
            target == fold(b@, rest_after(sb, i as nat)),
            target == fold(old(b)@, rest_after(sb, j as nat)),
        decreases sb.len() - i,
    {
        let pos = i + 1;
        let (line, j2) = next_line(s, pos);
        let ghost ls = lines_from(sb, pos as nat);
        assert(ls[0] == line@);
        assert(ls.drop_first() =~= rest_after(sb, j2 as nat));
        assert(rest_after(sb, i as nat) == ls);
        let ghost before = b@;
        match b.apply(line.as_slice()) {
            Err(e) => {
                assert(fold(before, ls) == match step(before, ls[0]) {
                    Err(e) => Err(e),
                    Ok(d2) => fold(d2, ls.drop_first()),
                });
                return Err(e);
            },
            Ok(()) => {},
        }
        i = j2;
    }
    proof {
        if i < sb.len() {
            assert(lines_from(sb, (i + 1) as nat) =~= Seq::<Seq<u8>>::empty());
        }
        assert(rest_after(sb, i as nat) =~= Seq::<Seq<u8>>::empty());
    }
    Ok(())
}

impl Graph {
    /// Reads a graph from its text (see [`graph_of`]).
    pub fn parse(text: &str) -> (r: Result<Graph, ParseError>)
        ensures
            match (r, graph_of(text.spec_bytes())) {
                (Ok(g), Ok((ants, d))) => {
                    &&& g.wf()
                    &&& g@.ant_count == ants
                    &&& g.names() == d.names
                    &&& g.positions() == d.positions
                    &&& g@.links == d.links
                    &&& g@.start == NodeId(d.start->0 as usize)
                    &&& g@.end == NodeId(d.end->0 as usize)
                },
                (Err(e), Err(f)) => e@ == f,
                _ => false,
            },
    {
        let s = text.as_bytes();
        let ghost sb = s@;
        if s.len() == 0 {
            return Err(ParseError::MissingAnts);
        }
        let (first, j) = next_line(s, 0);
        assert(first@.subrange(0, first@.len() as int) =~= first@);
        let ants = match parse_usize(first.as_slice(), 0, first.len()) {
            None => {
                return Err(ParseError::MissingAnts);
            },
            Some(a) => a,
        };
        let mut b = Builder { nodes: Vec::new(), start: None, end: None, parsing_nodes: true };
        let ghost all = lines_from(sb, 0);
        proof {
            let e = b@;
            assert(e.names =~= Seq::<Seq<u8>>::empty());
            assert(e.positions =~= Seq::<Position>::empty());
            assert(e.links =~= Seq::<Seq<NodeId>>::empty());
            assert(e == empty_draft());
            assert(all.drop_first() =~= rest_after(sb, j as nat));
        }
        match read_body(s, j, &mut b) {
            Err(e) => {
                return Err(e);
            },
            Ok(()) => {},
        }
        let n = b.nodes.len();
        let start = match b.start {
            Some(v) => {
                if v >= n {
                    return Err(ParseError::MissingTag(vec![115u8, 116u8, 97u8, 114u8, 116u8]));
                }
                v
            },
            None => {
                return Err(ParseError::MissingTag(vec![115u8, 116u8, 97u8, 114u8, 116u8]));
            },
        };
        let end = match b.end {
            Some(v) => {
                if v >= n {
                    return Err(ParseError::MissingTag(vec![101u8, 110u8, 100u8]));
                }
                v
            },
            None => {
                return Err(ParseError::MissingTag(vec![101u8, 110u8, 100u8]));
            },
        };
        let ghost d = b@;
        let ghost nodes = b.nodes@;
        match Graph::new(b.nodes, NodeId(start), NodeId(end), ants) {
            Some(g) => {
                proof {
                    assert(g.names() =~= d.names);
                    assert(g.positions() =~= d.positions);
                    assert(g@.links =~= d.links);
                }
                Ok(g)
            },
            None => {
                proof {
                    let m = crate::graph::GraphModel {
                        links: Seq::new(nodes.len(), |i: int| nodes[i].links@),
                        start: NodeId(start),
                        end: NodeId(end),
                        ant_count: ants as nat,
                    };
                    assert(m.links =~= d.links);
                    assert(m.wf());
                }
                Err(ParseError::MissingAnts)
            },
        }
    }
}

} // verus!
