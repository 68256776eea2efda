//! A directed edge between two nodes, named by their identifiers.
use vstd::prelude::*;
use crate::error::ParseError;
use crate::text::{
    chars_of, lemma_split_arrow_nonempty, lemma_split_nonempty, split, split_arrow,
    split_arrow_chars, split_chars, string_of, trim, trim_chars,
};

verus! {

/// A directed edge: `parent` must finish before `child` may run.
#[derive(Clone, Debug)]
pub struct Edge {
    /// Identifier of the parent node.
    pub parent: String,
    /// Identifier of the child node.
    pub child: String,
}

impl View for Edge {
    type V = (Seq<char>, Seq<char>);

    open spec fn view(&self) -> (Seq<char>, Seq<char>) {
        (self.parent@, self.child@)
    }
}

impl PartialEq for Edge {
    fn eq(&self, other: &Edge) -> (r: bool) {
        self.parent == other.parent && self.child == other.child
    }
}

impl vstd::std_specs::cmp::PartialEqSpecImpl for Edge {
    open spec fn obeys_eq_spec() -> bool {
        true
    }

    open spec fn eq_spec(&self, other: &Edge) -> bool {
        self@ == other@
    }
}

impl Eq for Edge {
}

/// The endpoints read from an edge line such as `0 -> 1 [ ]`: the text before
/// any `[`, cut at the arrows, with the first two pieces trimmed.
pub open spec fn parse_edge(s: Seq<char>) -> Result<(Seq<char>, Seq<char>), ParseError> {
    let parts = split_arrow(split(s, '[')[0]);
    if parts.len() >= 2 {
        Ok((trim(parts[0]), trim(parts[1])))
    } else {
        Err(ParseError::MissingEdgeChild)
    }
}

impl Edge {
    /// The edge from `parent` to `child`.
    pub fn new(parent: String, child: String) -> (r: Edge)
        ensures
            r@ == (parent@, child@),
    {
        Edge { parent, child }
    }

    /// A copy of this edge.
    pub fn duplicate(&self) -> (r: Edge)
        ensures
            r@ == self@,
    {
        Edge { parent: self.parent.clone(), child: self.child.clone() }
    }

    /// Reads an edge from a line such as `0 -> 1 [ ]`.
    pub fn parse(s: &[char]) -> (r: Result<Edge, ParseError>)
        ensures
            r is Ok <==> parse_edge(s@) is Ok,
            r is Ok ==> r->Ok_0@ == parse_edge(s@)->Ok_0,
            r is Err ==> r->Err_0 == parse_edge(s@)->Err_0,
    {
        let pieces = split_chars(s, '[');
        proof {
            lemma_split_nonempty(s@, '[');
        }
        assert(pieces@[0]@ == split(s@, '[')[0]);
        let parts = split_arrow_chars(pieces[0].as_slice());
        proof {
            lemma_split_arrow_nonempty(pieces@[0]@);
        }
        if parts.len() < 2 {
            return Err(ParseError::MissingEdgeChild);
        }
        assert(parts@[0]@ == split_arrow(split(s@, '[')[0])[0]);
        assert(parts@[1]@ == split_arrow(split(s@, '[')[0])[1]);
        let p = trim_chars(parts[0].as_slice());
        let c = trim_chars(parts[1].as_slice());
        Ok(Edge { parent: string_of(p.as_slice()), child: string_of(c.as_slice()) })
    }
}

impl std::str::FromStr for Edge {
    type Err = ParseError;

    fn from_str(s: &str) -> (r: Result<Edge, ParseError>)
        ensures
            r is Ok <==> parse_edge(s@) is Ok,
            r is Ok ==> r->Ok_0@ == parse_edge(s@)->Ok_0,
            r is Err ==> r->Err_0 == parse_edge(s@)->Err_0,
    {
        let c = chars_of(s);
        Edge::parse(c.as_slice())
    }
}

} // verus!
