//! The text form of a graph, in the style of a DOT digraph.
//!
//! ```text
//! digraph {
//!     0 [ label = "Struct Node, Node.args: <payload>, Node.execution_status: <status>" ]
//!     0 -> 1 [ ]
//! }
//! ```
//!
//! Reading also accepts chains such as `a -> b -> c;`, where each name
//! declares a node, with the name as payload, unless a node of that name exists.
use vstd::prelude::*;
use crate::edge::Edge;
use crate::error::{GraphError, ParseError};
use crate::graph::{
    acyclic, built, edge_views, on_cycle, id_views, lookup, first_from, node_views, DirectedAcyclicGraph, GraphView,
};
use crate::node::{fresh, label_text, parse_label, Node, NodeView};
use crate::text::{
    all_digits, all_digits_chars, chars_of, decimal, decimal_chars, push_all, split, split_arrow,
    split_arrow_chars, split_chars, starts_with, starts_with_chars, string_of, trim, trim_chars,
    views,
};
use crate::status::chars_equal;

verus! {

/// The line of node `i`.
pub open spec fn node_line(i: nat, n: NodeView) -> Seq<char> {
    "    "@ + decimal(i) + " [ label = \""@ + label_text(n) + "\" ]\n"@
}

/// The line of an edge.
pub open spec fn edge_line(e: (usize, usize)) -> Seq<char> {
    "    "@ + decimal(e.0 as nat) + " -> "@ + decimal(e.1 as nat) + " [ ]\n"@
}

/// The lines of the nodes, in order of their ordinals.
pub open spec fn nodes_text(ns: Seq<NodeView>) -> Seq<char>
    decreases ns.len(),
{
    if ns.len() == 0 {
        Seq::empty()
    } else {
        nodes_text(ns.drop_last()) + node_line((ns.len() - 1) as nat, ns.last())
    }
}

/// The lines of the edges, in order.
pub open spec fn edges_text(es: Seq<(usize, usize)>) -> Seq<char>
    decreases es.len(),
{
    if es.len() == 0 {
        Seq::empty()
    } else {
        edges_text(es.drop_last()) + edge_line(es.last())
    }
}

/// The text form of a graph.
pub open spec fn dot_text(g: GraphView) -> Seq<char> {
    "digraph {\n"@ + nodes_text(g.nodes) + edges_text(g.edges) + "}\n"@
}

/// What has been read so far: named nodes in order of first appearance, and
/// edges between names.
pub struct DotState {
    pub names: Seq<Seq<char>>,
    pub nodes: Seq<NodeView>,
    pub edges: Seq<(Seq<char>, Seq<char>)>,
}

/// Nothing read yet.
pub open spec fn empty_state() -> DotState {
    DotState { names: Seq::empty(), nodes: Seq::empty(), edges: Seq::empty() }
}

/// `l` without one trailing `;`.
pub open spec fn strip_semicolon(l: Seq<char>) -> Seq<char> {
    if l.len() > 0 && l.last() == ';' {
        l.drop_last()
    } else {
        l
    }
}

/// The space-separated words of a line, each trimmed.
pub open spec fn tokens(l: Seq<char>) -> Seq<Seq<char>> {
    split(trim(l), ' ').map_values(|t: Seq<char>| trim(t))
}

/// A node line: `<digits> [ label = "Struct Node, Node.args: ...`.
pub open spec fn is_node_line(toks: Seq<Seq<char>>) -> bool {
    &&& toks.len() >= 7
    &&& all_digits(toks[0])
    &&& toks[1] == "["@
    &&& toks[2] == "label"@
    &&& toks[3] == "="@
    &&& toks[4] == "\"Struct"@
    &&& toks[5] == "Node,"@
    &&& toks[6] == "Node.args:"@
}

/// An edge line: `<digits> -> <digits> [ ]`.
pub open spec fn is_edge_line(toks: Seq<Seq<char>>) -> bool {
    &&& toks.len() >= 5
    &&& all_digits(toks[0])
    &&& toks[1] == "->"@
    &&& all_digits(toks[2])
    &&& toks[3] == "["@
    &&& toks[4] == "]"@
}

/// A chain line: `a -> b ...`.
pub open spec fn is_chain_line(toks: Seq<Seq<char>>) -> bool {
    toks.len() >= 3 && toks[1] == "->"@
}

/// The state with node `n` under name `id`: a node of that name is replaced,
/// otherwise the node is added.
pub open spec fn insert_node(st: DotState, id: Seq<char>, n: NodeView) -> DotState {
    match lookup(st.names, id) {
        Some(i) => DotState { nodes: st.nodes.update(i, n), ..st },
        None => DotState { names: st.names.push(id), nodes: st.nodes.push(n), ..st },
    }
}

/// The state after a chain of names: each name not yet known becomes a node
/// with the name as payload, and consecutive names are joined by an edge.
pub open spec fn add_chain(st: DotState, items: Seq<Seq<char>>) -> DotState
    decreases items.len(),
{
    if items.len() == 0 {
        st
    } else {
        let s0 = add_chain(st, items.drop_last());
        let x = items.last();
        let s1 = if lookup(s0.names, x) is None {
            DotState { names: s0.names.push(x), nodes: s0.nodes.push(fresh(x)), ..s0 }
        } else {
            s0
        };
        if items.len() >= 2 {
            DotState { edges: s1.edges.push((items[items.len() - 2], x)), ..s1 }
        } else {
            s1
        }
    }
}

/// The effect of one line on what has been read; other lines are ignored.
pub open spec fn apply_line(acc: Result<DotState, ParseError>, line: Seq<char>) -> Result<
    DotState,
    ParseError,
> {
    match acc {
        Err(e) => Err(e),
        Ok(st) => {
            let l = strip_semicolon(line);
            let toks = tokens(l);
            if is_node_line(toks) {
                let quoted = split(l, '"');
                if quoted.len() < 2 {
                    Err(ParseError::MissingLabel)
                } else {
                    match parse_label(quoted[1]) {
                        Ok(n) => Ok(insert_node(st, toks[0], n)),
                        Err(e) => Err(e),
                    }
                }
            } else if is_edge_line(toks) {
                Ok(DotState { edges: st.edges.push((toks[0], toks[2])), ..st })
            } else if is_chain_line(toks) {
                Ok(add_chain(st, split_arrow(l).map_values(|t: Seq<char>| trim(t))))
            } else {
                Ok(st)
            }
        },
    }
}

/// What the lines say, read in turn.
pub open spec fn parse_lines(lines: Seq<Seq<char>>) -> Result<DotState, ParseError>
    decreases lines.len(),
{
    if lines.len() == 0 {
        Ok(empty_state())
    } else {
        apply_line(parse_lines(lines.drop_last()), lines.last())
    }
}

/// What a text says; once trimmed, it must begin with `digraph`.
pub open spec fn parse_dot(t: Seq<char>) -> Result<DotState, ParseError> {
    let tt = trim(t);
    if starts_with(tt, "digraph"@) {
        parse_lines(split(tt, '\n'))
    } else {
        Err(ParseError::MissingHeader)
    }
}

/// The graph a text describes.
pub open spec fn graph_of_text(st: DotState) -> GraphView {
    built(st.names, st.nodes, st.edges)
}

} // verus!

verus! {

/// Does `t` hold exactly the characters of `lit`?
fn is_word(t: &Vec<char>, lit: &str) -> (r: bool)
    ensures
        r == (t@ == lit@),
{
    let w = chars_of(lit);
    chars_equal(t.as_slice(), w.as_slice())
}

/// The space-separated words of a line, each trimmed.
fn tokens_of(l: &[char]) -> (r: Vec<Vec<char>>)
    ensures
        views(r@) == tokens(l@),
{
    let t = trim_chars(l);
    let parts = split_chars(t.as_slice(), ' ');
    let ghost ps = split(trim(l@), ' ');
    let mut r: Vec<Vec<char>> = Vec::new();
    let mut i: usize = 0;
    while i < parts.len()
        invariant
            views(parts@) == ps,
            ps == split(trim(l@), ' '),
            i <= parts@.len(),
            r@.len() == i,
            forall|k: int| 0 <= k < i ==> (#[trigger] r@[k])@ == trim(ps[k]),
        decreases parts@.len() - i,
    {
        let w = trim_chars(parts[i].as_slice());
        r.push(w);
        assert(parts@[i as int]@ == ps[i as int]);
        i += 1;
    }
    assert(views(r@) =~= ps.map_values(|x: Seq<char>| trim(x)));
    r
}

fn node_line_check(toks: &Vec<Vec<char>>) -> (r: bool)
    ensures
        r == is_node_line(views(toks@)),
{
    if toks.len() < 7 {
        return false;
    }
    let ghost v = views(toks@);
    assert(v[0] == toks@[0]@ && v[1] == toks@[1]@ && v[2] == toks@[2]@ && v[3] == toks@[3]@);
    assert(v[4] == toks@[4]@ && v[5] == toks@[5]@ && v[6] == toks@[6]@);
    all_digits_chars(toks[0].as_slice()) && is_word(&toks[1], "[") && is_word(&toks[2], "label")
        && is_word(&toks[3], "=") && is_word(&toks[4], "\"Struct") && is_word(&toks[5], "Node,")
        && is_word(&toks[6], "Node.args:")
}

fn edge_line_check(toks: &Vec<Vec<char>>) -> (r: bool)
    ensures
        r == is_edge_line(views(toks@)),
{
    if toks.len() < 5 {
        return false;
    }
    let ghost v = views(toks@);
    assert(v[0] == toks@[0]@ && v[1] == toks@[1]@ && v[2] == toks@[2]@ && v[3] == toks@[3]@);
    assert(v[4] == toks@[4]@);
    all_digits_chars(toks[0].as_slice()) && is_word(&toks[1], "->") && all_digits_chars(
        toks[2].as_slice(),
    ) && is_word(&toks[3], "[") && is_word(&toks[4], "]")
}

fn chain_line_check(toks: &Vec<Vec<char>>) -> (r: bool)
    ensures
        r == is_chain_line(views(toks@)),
{
    if toks.len() < 3 {
        return false;
    }
    assert(views(toks@)[1] == toks@[1]@);
    is_word(&toks[1], "->")
}

fn copy_chars(v: &Vec<char>) -> (r: Vec<char>)
    ensures
        r@ == v@,
{
    crate::text::slice_chars(v.as_slice(), 0, v.len())
}

/// What has been read so far, in executable form.
struct Reader {
    names: Vec<Vec<char>>,
    nodes: Vec<Node>,
    edges: Vec<(Vec<char>, Vec<char>)>,
}

impl Reader {
    spec fn view(&self) -> DotState {
        DotState {
            names: views(self.names@),
            nodes: self.nodes@.map_values(|n: Node| n@),
            edges: self.edges@.map_values(|e: (Vec<char>, Vec<char>)| (e.0@, e.1@)),
        }
    }

    spec fn wf(&self) -> bool {
        self.names@.len() == self.nodes@.len()
    }

    fn find(&self, x: &[char]) -> (r: Option<usize>)
        ensures
            r is Some ==> lookup(self.view().names, x@) == Some(r->Some_0 as int) && r->Some_0
                < self.names@.len(),
            r is None ==> lookup(self.view().names, x@) is None,
    {
        let ghost v = self.view().names;
        let mut i: usize = 0;
        while i < self.names.len()
            invariant
                v == views(self.names@),
                i <= self.names@.len(),
                lookup(v, x@) == first_from(v, x@, i as int),
            decreases self.names@.len() - i,
        {
            assert(v[i as int] == self.names@[i as int]@);
            if chars_equal(self.names[i].as_slice(), x) {
                return Some(i);
            }
            i += 1;
        }
        None
    }

    fn insert(&mut self, id: Vec<char>, n: Node)
        requires
            old(self).wf(),
        ensures
            final(self).wf(),
            final(self).view() == insert_node(old(self).view(), id@, n@),
    {
        let ghost st = self.view();
        match self.find(id.as_slice()) {
            Some(i) => {
                self.nodes.set(i, n);
                assert(self.view().nodes =~= st.nodes.update(i as int, n@));
                assert(self.view().names =~= st.names);
                assert(self.view().edges =~= st.edges);
                assert(lookup(st.names, id@) == Some(i as int));
                assert(self.view() == insert_node(st, id@, n@));
            },
            None => {
                self.names.push(id);
                self.nodes.push(n);
                assert(self.view().nodes =~= st.nodes.push(n@));
                assert(self.view().names =~= st.names.push(id@));
                assert(self.view().edges =~= st.edges);
                assert(self.view() == insert_node(st, id@, n@));
            },
        }
    }

    fn add_edge(&mut self, p: Vec<char>, c: Vec<char>)
        requires
            old(self).wf(),
        ensures
            final(self).wf(),
            final(self).view() == (DotState {
                edges: old(self).view().edges.push((p@, c@)),
                ..old(self).view()
            }),
    {
        let ghost st = self.view();
        self.edges.push((p, c));
        assert(self.view().edges =~= st.edges.push((p@, c@)));
        assert(self.view().names =~= st.names);
        assert(self.view().nodes =~= st.nodes);
    }

    fn chain(&mut self, items: &Vec<Vec<char>>)
        requires
            old(self).wf(),
        ensures
            final(self).wf(),
            final(self).view() == add_chain(old(self).view(), views(items@)),
    {
        let ghost st0 = self.view();
        let ghost its = views(items@);
        let mut k: usize = 0;
        assert(its.take(0) =~= Seq::<Seq<char>>::empty());
        while k < items.len()
            invariant
                self.wf(),
                its == views(items@),
                k <= items@.len(),
                self.view() == add_chain(st0, its.take(k as int)),
            decreases items@.len() - k,
        {
            let ghost s0 = self.view();
            assert(its.take(k + 1).drop_last() =~= its.take(k as int));
            assert(its.take(k + 1).last() == items@[k as int]@);
            let x = copy_chars(&items[k]);
            match self.find(x.as_slice()) {
                None => {
                    let payload = string_of(x.as_slice());
                    let id = copy_chars(&x);
                    self.names.push(id);
                    self.nodes.push(Node::new(payload));
                    assert(self.view().nodes =~= s0.nodes.push(fresh(x@)));
                    assert(self.view().names =~= s0.names.push(x@));
                    assert(self.view().edges =~= s0.edges);
                },
                Some(_) => {},
            }
            if k >= 1 {
                let p = copy_chars(&items[k - 1]);
                assert(its.take(k + 1)[k - 1] == items@[k - 1]@);
                self.add_edge(p, x);
            }
            k += 1;
        }
        assert(its.take(k as int) =~= its);
    }
}

proof fn lemma_lines_error_sticks(ls: Seq<Seq<char>>, i: int, k: int)
    requires
        0 <= i <= k <= ls.len(),
        parse_lines(ls.take(i)) is Err,
    ensures
        parse_lines(ls.take(k)) == parse_lines(ls.take(i)),
    decreases k - i,
{
    if k > i {
        lemma_lines_error_sticks(ls, i, k - 1);
        assert(ls.take(k).drop_last() =~= ls.take(k - 1));
    }
}

} // verus!

verus! {

fn trim_all(v: &Vec<Vec<char>>) -> (r: Vec<Vec<char>>)
    ensures
        views(r@) == views(v@).map_values(|t: Seq<char>| trim(t)),
{
    let mut r: Vec<Vec<char>> = Vec::new();
    let mut i: usize = 0;
    while i < v.len()
        invariant
            i <= v@.len(),
            r@.len() == i,
            forall|k: int| 0 <= k < i ==> (#[trigger] r@[k])@ == trim(v@[k]@),
        decreases v@.len() - i,
    {
        let w = trim_chars(v[i].as_slice());
        r.push(w);
        i += 1;
    }
    assert(views(r@) =~= views(v@).map_values(|t: Seq<char>| trim(t)));
    r
}

fn without_semicolon(l: &Vec<char>) -> (r: Vec<char>)
    ensures
        r@ == strip_semicolon(l@),
{
    if l.len() > 0 && l[l.len() - 1] == ';' {
        let r = crate::text::slice_chars(l.as_slice(), 0, l.len() - 1);
        assert(r@ =~= l@.drop_last());
        r
    } else {
        copy_chars(l)
    }
}

impl DirectedAcyclicGraph {
    /// Reads a graph from its text form.
    ///
    /// Lines are read in turn: node lines declare or replace a node under
    /// their number, edge lines add an edge, chain lines declare the names
    /// they mention and join them; other lines are ignored. The graph is then
    /// built from the names and edges as `new` does.
    pub fn parse(t: &[char]) -> (r: Result<Self, GraphError>)
        ensures
            parse_dot(t@) is Err ==> r == Err::<Self, GraphError>(GraphError::Parse(parse_dot(t@)->Err_0)),
            parse_dot(t@) is Ok ==> ({
                let g = graph_of_text(parse_dot(t@)->Ok_0);
                &&& r is Ok <==> acyclic(g.nodes.len(), g.edges)
                &&& r is Ok ==> r->Ok_0@ == g && r->Ok_0@.wf()
                &&& r is Err ==> r->Err_0 is CyclicGraph && r->Err_0->CyclicGraph_0 < g.nodes.len()
                    && on_cycle(g.edges, r->Err_0->CyclicGraph_0)
            }),
    {
        let tt = trim_chars(t);
        let mut rd = Reader { names: Vec::new(), nodes: Vec::new(), edges: Vec::new() };
        assert(rd.view().names =~= empty_state().names);
        assert(rd.view().nodes =~= empty_state().nodes);
        assert(rd.view().edges =~= empty_state().edges);
        let dg = chars_of("digraph");
        if !starts_with_chars(tt.as_slice(), dg.as_slice()) {
            return Err(GraphError::Parse(ParseError::MissingHeader));
        }
        {
            let lines = split_chars(tt.as_slice(), '\n');
            let ghost ls = split(trim(t@), '\n');
            let mut i: usize = 0;
            assert(ls.take(0) =~= Seq::<Seq<char>>::empty());
            while i < lines.len()
                invariant
                    views(lines@) == ls,
                    ls == split(trim(t@), '\n'),
                    parse_dot(t@) == parse_lines(ls),
                    i <= lines@.len(),
                    rd.wf(),
                    parse_lines(ls.take(i as int)) == Ok::<DotState, ParseError>(rd.view()),
                decreases lines@.len() - i,
            {
                assert(ls.take(i + 1).drop_last() =~= ls.take(i as int));
                assert(ls.take(i + 1).last() == lines@[i as int]@);
                let l = without_semicolon(&lines[i]);
                let toks = tokens_of(l.as_slice());
                if node_line_check(&toks) {
                    let quoted = split_chars(l.as_slice(), '"');
                    if quoted.len() < 2 {
                        proof {
                            lemma_lines_error_sticks(ls, i + 1, ls.len() as int);
                            assert(ls.take(ls.len() as int) =~= ls);
                        }
                        return Err(GraphError::Parse(ParseError::MissingLabel));
                    }
                    assert(views(quoted@)[1] == quoted@[1]@);
                    match Node::parse(quoted[1].as_slice()) {
                        Ok(n) => {
                            let id = copy_chars(&toks[0]);
                            assert(views(toks@)[0] == toks@[0]@);
                            rd.insert(id, n);
                        },
                        Err(e) => {
                            proof {
                                lemma_lines_error_sticks(ls, i + 1, ls.len() as int);
                                assert(ls.take(ls.len() as int) =~= ls);
                            }
                            return Err(GraphError::Parse(e));
                        },
                    }
                } else if edge_line_check(&toks) {
                    let p = copy_chars(&toks[0]);
                    let c = copy_chars(&toks[2]);
                    assert(views(toks@)[0] == toks@[0]@);
                    assert(views(toks@)[2] == toks@[2]@);
                    rd.add_edge(p, c);
                } else if chain_line_check(&toks) {
                    let pieces = split_arrow_chars(l.as_slice());
                    let items = trim_all(&pieces);
                    rd.chain(&items);
                }
                i += 1;
            }
            assert(ls.take(i as int) =~= ls);
        }
        let ghost st = rd.view();
        assert(parse_dot(t@) == Ok::<DotState, ParseError>(st));
        let mut pairs: Vec<(String, Node)> = Vec::new();
        let mut k: usize = 0;
        while k < rd.names.len()
            invariant
                rd.wf(),
                st == rd.view(),
                k <= rd.names@.len(),
                pairs@.len() == k,
                forall|j: int| 0 <= j < k ==> (#[trigger] pairs@[j]).0@ == st.names[j] && pairs@[j].1@ == st.nodes[j],
            decreases rd.names@.len() - k,
        {
            let name = string_of(rd.names[k].as_slice());
            let node = rd.nodes[k].duplicate();
            pairs.push((name, node));
            k += 1;
        }
        assert(id_views(pairs@) =~= st.names);
        assert(node_views(pairs@) =~= st.nodes);
        let mut es: Vec<Edge> = Vec::new();
        let mut j: usize = 0;
        while j < rd.edges.len()
            invariant
                st == rd.view(),
                j <= rd.edges@.len(),
                es@.len() == j,
                forall|x: int| 0 <= x < j ==> (#[trigger] es@[x])@ == st.edges[x],
            decreases rd.edges@.len() - j,
        {
            let e = Edge::new(string_of(rd.edges[j].0.as_slice()), string_of(rd.edges[j].1.as_slice()));
            es.push(e);
            j += 1;
        }
        assert(edge_views(es@) =~= st.edges);
        DirectedAcyclicGraph::new(pairs, es)
    }

    /// The text form of this graph.
    pub fn to_dot(&self) -> (r: Vec<char>)
        ensures
            r@ == dot_text(self@),
    {
        let mut v = chars_of("digraph {\n");
        let ghost h = v@;
        let n = self.node_count();
        let mut i: usize = 0;
        assert(self@.nodes.take(0) =~= Seq::<NodeView>::empty());
        while i < n
            invariant
                n == self@.nodes.len(),
                i <= n,
                h == "digraph {\n"@,
                v@ == h + nodes_text(self@.nodes.take(i as int)),
            decreases n - i,
        {
            let ghost before = v@;
            let a = chars_of("    ");
            push_all(&mut v, a.as_slice());
            let d = decimal_chars(i);
            push_all(&mut v, d.as_slice());
            let b = chars_of(" [ label = \"");
            push_all(&mut v, b.as_slice());
            let lab = self.node(i).label();
            push_all(&mut v, lab.as_slice());
            let c = chars_of("\" ]\n");
            push_all(&mut v, c.as_slice());
            assert(self@.nodes.take(i + 1).drop_last() =~= self@.nodes.take(i as int));
            assert(self@.nodes.take(i + 1).last() == self@.nodes[i as int]);
            assert(v@ =~= before + node_line(i as nat, self@.nodes[i as int]));
            i += 1;
        }
        assert(self@.nodes.take(n as int) =~= self@.nodes);
        let ghost h2 = v@;
        let es = self.edges();
        let mut k: usize = 0;
        assert(self@.edges.take(0) =~= Seq::<(usize, usize)>::empty());
        while k < es.len()
            invariant
                es@ == self@.edges,
                k <= es@.len(),
                v@ == h2 + edges_text(self@.edges.take(k as int)),
            decreases es@.len() - k,
        {
            let ghost before = v@;
            let a = chars_of("    ");
            push_all(&mut v, a.as_slice());
            let d = decimal_chars(es[k].0);
            push_all(&mut v, d.as_slice());
            let b = chars_of(" -> ");
            push_all(&mut v, b.as_slice());
            let d2 = decimal_chars(es[k].1);
            push_all(&mut v, d2.as_slice());
            let c = chars_of(" [ ]\n");
            push_all(&mut v, c.as_slice());
            assert(self@.edges.take(k + 1).drop_last() =~= self@.edges.take(k as int));
            assert(v@ =~= before + edge_line(es@[k as int]));
            k += 1;
        }
        assert(self@.edges.take(k as int) =~= self@.edges);
        let close = chars_of("}\n");
        push_all(&mut v, close.as_slice());
        assert(v@ =~= dot_text(self@));
        v
    }

    /// The text form of this graph as a string.
    pub fn to_string(&self) -> (r: String)
        ensures
            r@ == dot_text(self@),
    {
        let v = self.to_dot();
        string_of(v.as_slice())
    }
}

impl std::str::FromStr for DirectedAcyclicGraph {
    type Err = GraphError;

    fn from_str(s: &str) -> (r: Result<DirectedAcyclicGraph, GraphError>)
        ensures
            parse_dot(s@) is Err ==> r == Err::<Self, GraphError>(GraphError::Parse(parse_dot(s@)->Err_0)),
            parse_dot(s@) is Ok ==> ({
                let g = graph_of_text(parse_dot(s@)->Ok_0);
                &&& r is Ok <==> acyclic(g.nodes.len(), g.edges)
                &&& r is Ok ==> r->Ok_0@ == g && r->Ok_0@.wf()
                &&& r is Err ==> r->Err_0 is CyclicGraph && r->Err_0->CyclicGraph_0 < g.nodes.len()
                    && on_cycle(g.edges, r->Err_0->CyclicGraph_0)
            }),
    {
        let c = chars_of(s);
        DirectedAcyclicGraph::parse(c.as_slice())
    }
}

} // verus!
