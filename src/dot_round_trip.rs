//! Reading back the printed text form of a graph gives the graph.
use vstd::prelude::*;
use crate::dot::{
    apply_line, dot_text, edge_line, edges_text, empty_state, graph_of_text, insert_node, is_chain_line,
    is_edge_line, is_node_line, node_line, nodes_text, parse_dot, parse_lines, strip_semicolon, tokens,
    DotState,
};
use crate::graph::{built, collect_named, first_from, initial_nodes, lookup, resolve_edges, has_incoming, GraphView};
use crate::node::{args_tag, label_text, parse_label, parse_label_parts, status_tag, NodeView};
use crate::schedule::initial_state;
use crate::status::{lemma_status_text_round_trip, status_text, ExecutionStatus};
use crate::text::{
    all_digits, decimal, digit, is_ws, lemma_split_nonempty, split, starts_with, trim, trim_end,
    trim_start,
};

verus! {

/// Splitting at a separator splits both sides apart.
proof fn lemma_split_concat(x: Seq<char>, y: Seq<char>, sep: char)
    ensures
        split(x + seq![sep] + y, sep) == split(x, sep) + split(y, sep),
    decreases y.len(),
{
    lemma_split_nonempty(x, sep);
    if y.len() == 0 {
        assert(x + seq![sep] + y =~= x.push(sep));
        assert((x + seq![sep] + y).drop_last() =~= x);
        assert(split(y, sep) =~= seq![Seq::<char>::empty()]);
        assert(split(x, sep).push(Seq::empty()) =~= split(x, sep) + split(y, sep));
    } else {
        let s = x + seq![sep] + y;
        assert(s.drop_last() =~= x + seq![sep] + y.drop_last());
        lemma_split_concat(x, y.drop_last(), sep);
        lemma_split_nonempty(y.drop_last(), sep);
        let a = split(x, sep);
        let b = split(y.drop_last(), sep);
        assert(s.last() == y.last());
        if y.last() == sep {
            assert((a + b).push(Seq::empty()) =~= a + b.push(Seq::empty()));
        } else {
            assert((a + b).update((a + b).len() - 1, (a + b).last().push(y.last())) =~= a + b.update(
                b.len() - 1,
                b.last().push(y.last()),
            ));
        }
    }
}

/// Text without the separator is one piece.
proof fn lemma_split_none(y: Seq<char>, sep: char)
    requires
        forall|i: int| 0 <= i < y.len() ==> y[i] != sep,
    ensures
        split(y, sep) == seq![y],
    decreases y.len(),
{
    if y.len() > 0 {
        lemma_split_none(y.drop_last(), sep);
        assert(y.drop_last().push(y.last()) =~= y);
        assert(y.last() != sep);
        assert(seq![y.drop_last()].update(0, y.drop_last().push(y.last())) =~= seq![y]);
    } else {
        assert(y =~= Seq::<char>::empty());
    }
}

/// Text that neither begins nor ends with whitespace is its own trim.
proof fn lemma_trim_plain(s: Seq<char>)
    requires
        s.len() > 0 ==> !is_ws(s[0]) && !is_ws(s.last()),
    ensures
        trim(s) == s,
{
}

proof fn lemma_trim_start_ws(w: Seq<char>, s: Seq<char>)
    requires
        forall|i: int| 0 <= i < w.len() ==> is_ws(w[i]),
    ensures
        trim_start(w + s) == trim_start(s),
    decreases w.len(),
{
    if w.len() > 0 {
        assert((w + s).drop_first() =~= w.drop_first() + s);
        lemma_trim_start_ws(w.drop_first(), s);
    } else {
        assert(w + s =~= s);
    }
}

proof fn lemma_digit_props(d: nat)
    ensures
        '0' <= digit(d) <= '9',
{
}

/// A numeral is nonempty and made of digits.
proof fn lemma_decimal_digits(n: nat)
    ensures
        decimal(n).len() > 0,
        all_digits(decimal(n)),
    decreases n,
{
    lemma_digit_props(n % 10);
    if n >= 10 {
        lemma_decimal_digits(n / 10);
        lemma_digit_props(n % 10);
    } else {
        lemma_digit_props(n);
    }
}

proof fn lemma_digit_injective(a: nat, b: nat)
    requires
        a < 10,
        b < 10,
        digit(a) == digit(b),
    ensures
        a == b,
{
}

/// Different numbers have different numerals.
proof fn lemma_decimal_injective(a: nat, b: nat)
    requires
        decimal(a) == decimal(b),
    ensures
        a == b,
    decreases a,
{
    lemma_decimal_digits(a / 10);
    lemma_decimal_digits(b / 10);
    if a < 10 && b < 10 {
        assert(decimal(a)[0] == digit(a));
        assert(decimal(b)[0] == digit(b));
        lemma_digit_injective(a, b);
    } else if a >= 10 && b >= 10 {
        assert(decimal(a).last() == digit(a % 10));
        assert(decimal(a).drop_last() =~= decimal(a / 10));
        assert(decimal(b).drop_last() =~= decimal(b / 10));
        lemma_digit_injective(a % 10, b % 10);
        lemma_decimal_injective(a / 10, b / 10);
    } else if a < 10 {
        assert(decimal(b).len() >= 2);
    } else {
        assert(decimal(a).len() >= 2);
    }
}

} // verus!

verus! {

/// `s` holds none of the characters `c`.
pub open spec fn free_of(s: Seq<char>, c: char) -> bool {
    forall|i: int| 0 <= i < s.len() ==> s[i] != c
}

proof fn lemma_free_concat(a: Seq<char>, b: Seq<char>, c: char)
    requires
        free_of(a, c),
        free_of(b, c),
    ensures
        free_of(a + b, c),
{
    assert forall|i: int| 0 <= i < (a + b).len() implies (a + b)[i] != c by {
        if i >= a.len() {
            assert((a + b)[i] == b[i - a.len()]);
        }
    }
}

proof fn lemma_status_text_plain(s: ExecutionStatus)
    ensures
        status_text(s).len() > 0,
        !is_ws(status_text(s).last()),
        free_of(status_text(s), ','),
        free_of(status_text(s), '"'),
        free_of(status_text(s), '\n'),
        free_of(status_text(s), ' '),
{
}

/// A label is read back as the node it describes, provided the payload holds no comma.
pub proof fn lemma_label_round_trip(n: NodeView)
    requires
        free_of(n.args, ','),
    ensures
        parse_label(label_text(n)) == Ok::<NodeView, crate::error::ParseError>(n),
{
    let t = label_text(n);
    let st = status_text(n.status);
    reveal_strlit("Struct Node,");
    reveal_strlit("Struct Node");
    reveal_strlit(" Node.args: ");
    reveal_strlit(",");
    reveal_strlit(" Node.execution_status: ");
    lemma_status_text_plain(n.status);
    let head_part = "Struct Node"@;
    let args_part = args_tag() + n.args;
    let status_part = status_tag() + st;
    assert(t =~= head_part + seq![','] + (args_part + seq![','] + status_part));
    assert(t[0] == 'S');
    assert(t.last() == st.last());
    lemma_trim_plain(t);
    assert(free_of(head_part, ','));
    assert(free_of(args_tag(), ','));
    assert(free_of(status_tag(), ','));
    lemma_free_concat(args_tag(), n.args, ',');
    lemma_free_concat(status_tag(), st, ',');
    lemma_split_concat(head_part, args_part + seq![','] + status_part, ',');
    lemma_split_concat(args_part, status_part, ',');
    lemma_split_none(head_part, ',');
    lemma_split_none(args_part, ',');
    lemma_split_none(status_part, ',');
    let parts = split(t, ',');
    assert(parts =~= seq![head_part, args_part, status_part]);
    assert(parts.drop_last() =~= seq![head_part, args_part]);
    assert(parts.drop_last().drop_last() =~= seq![head_part]);
    assert(parts.drop_last().drop_last().drop_last() =~= Seq::<Seq<char>>::empty());
    assert(!starts_with(head_part, args_tag()));
    assert(!starts_with(head_part, status_tag()));
    assert(args_part.subrange(0, 12) =~= args_tag());
    assert(args_part.subrange(12, args_part.len() as int) =~= n.args);
    assert(!starts_with(status_part, args_tag())) by {
        assert(status_part[6] == 'e');
        assert(args_tag()[6] == 'a');
        assert(status_part.subrange(0, 12)[6] == status_part[6]);
    }
    assert(status_part.subrange(0, status_tag().len() as int) =~= status_tag());
    assert(status_part.subrange(status_tag().len() as int, status_part.len() as int) =~= st);
    lemma_status_text_round_trip(n.status);
    let e = Seq::<char>::empty();
    let r1 = parse_label_parts(seq![head_part]);
    assert(seq![head_part].drop_last() =~= Seq::<Seq<char>>::empty());
    assert(parse_label_parts(Seq::<Seq<char>>::empty()) == Ok::<NodeView, crate::error::ParseError>(crate::node::fresh(e)));
    assert(r1 == Ok::<NodeView, crate::error::ParseError>(crate::node::fresh(e)));
    let r2 = parse_label_parts(seq![head_part, args_part]);
    assert(seq![head_part, args_part].drop_last() =~= seq![head_part]);
    assert(r2 == Ok::<NodeView, crate::error::ParseError>(NodeView { args: n.args, status: ExecutionStatus::Executable }));
    assert(parse_label_parts(parts) == Ok::<NodeView, crate::error::ParseError>(NodeView { args: n.args, status: n.status }));
}

} // verus!

verus! {

proof fn lemma_word(w: Seq<char>)
    requires
        w.len() > 0,
        free_of(w, ' '),
        !is_ws(w[0]),
        !is_ws(w.last()),
    ensures
        split(w, ' ') == seq![w],
        trim(w) == w,
{
    lemma_split_none(w, ' ');
    lemma_trim_plain(w);
}

proof fn lemma_decimal_plain(i: nat)
    ensures
        decimal(i).len() > 0,
        all_digits(decimal(i)),
        free_of(decimal(i), ' '),
        free_of(decimal(i), '"'),
        free_of(decimal(i), '\n'),
        !is_ws(decimal(i)[0]),
        !is_ws(decimal(i).last()),
{
    lemma_decimal_digits(i);
    let d = decimal(i);
    assert('0' <= d[0] <= '9');
    assert('0' <= d[d.len() - 1] <= '9');
    assert forall|k: int| 0 <= k < d.len() implies d[k] != ' ' && d[k] != '"' && d[k] != '\n' by {
        assert('0' <= d[k] <= '9');
    }
}

proof fn lemma_trim_after_indent(d: Seq<char>, rest: Seq<char>)
    requires
        d.len() > 0,
        !is_ws(d[0]),
        rest.len() > 0,
        !is_ws(rest.last()),
    ensures
        trim("    "@ + d + rest) == d + rest,
{
    reveal_strlit("    ");
    let w = "    "@;
    assert forall|i: int| 0 <= i < w.len() implies is_ws(w[i]) by {}
    assert(w + d + rest =~= w + (d + rest));
    lemma_trim_start_ws(w, d + rest);
    assert((d + rest)[0] == d[0]);
    assert((d + rest).last() == rest.last());
}

/// The line of node `i`, without its line break.
pub open spec fn node_body(i: nat, n: NodeView) -> Seq<char> {
    "    "@ + decimal(i) + " [ label = \""@ + label_text(n) + "\" ]"@
}

/// The line of an edge, without its line break.
pub open spec fn edge_body(e: (usize, usize)) -> Seq<char> {
    "    "@ + decimal(e.0 as nat) + " -> "@ + decimal(e.1 as nat) + " [ ]"@
}

#[verifier::rlimit(100)]
proof fn lemma_node_tokens(i: nat, n: NodeView)
    ensures
        strip_semicolon(node_body(i, n)) == node_body(i, n),
        is_node_line(tokens(node_body(i, n))),
        tokens(node_body(i, n))[0] == decimal(i),
{
    reveal_strlit(" [ label = \"");
    reveal_strlit("\" ]");
    reveal_strlit("Struct Node,");
    reveal_strlit(" Node.args: ");
    reveal_strlit("[");
    reveal_strlit("label");
    reveal_strlit("=");
    reveal_strlit("\"Struct");
    reveal_strlit("Node,");
    reveal_strlit("Node.args:");
    let d = decimal(i);
    let lab = label_text(n);
    lemma_status_text_plain(n.status);
    lemma_decimal_plain(i);
    let b = node_body(i, n);
    let rest = " [ label = \""@ + lab + "\" ]"@;
    assert(b =~= "    "@ + d + rest);
    lemma_trim_after_indent(d, rest);
    assert(b.last() == ']');
    let t = d + rest;
    let tail = n.args + ","@ + status_tag() + status_text(n.status) + "\" ]"@;
    let sp = seq![' '];
    let x6 = "Node.args:"@ + sp + tail;
    let x5 = "Node,"@ + sp + x6;
    let x4 = "\"Struct"@ + sp + x5;
    let x3 = "="@ + sp + x4;
    let x2 = "label"@ + sp + x3;
    let x1 = "["@ + sp + x2;
    assert(t =~= d + sp + x1);
    lemma_split_concat("Node.args:"@, tail, ' ');
    lemma_split_concat("Node,"@, x6, ' ');
    lemma_split_concat("\"Struct"@, x5, ' ');
    lemma_split_concat("="@, x4, ' ');
    lemma_split_concat("label"@, x3, ' ');
    lemma_split_concat("["@, x2, ' ');
    lemma_split_concat(d, x1, ' ');
    lemma_word(d);
    lemma_word("["@);
    lemma_word("label"@);
    lemma_word("="@);
    lemma_word("\"Struct"@);
    lemma_word("Node,"@);
    lemma_word("Node.args:"@);
    lemma_split_nonempty(tail, ' ');
    let pieces = split(t, ' ');
    assert(pieces =~= seq![d, "["@, "label"@, "="@, "\"Struct"@, "Node,"@, "Node.args:"@] + split(tail, ' '));
    let toks = tokens(b);
    assert(toks[0] == d);
    assert(toks[1] == "["@);
    assert(toks[2] == "label"@);
    assert(toks[3] == "="@);
    assert(toks[4] == "\"Struct"@);
    assert(toks[5] == "Node,"@);
    assert(toks[6] == "Node.args:"@);
}

#[verifier::rlimit(100)]
proof fn lemma_node_quoted(i: nat, n: NodeView)
    requires
        free_of(n.args, '"'),
    ensures
        split(node_body(i, n), '"').len() >= 2,
        split(node_body(i, n), '"')[1] == label_text(n),
{
    reveal_strlit(" [ label = \"");
    reveal_strlit("\" ]");
    reveal_strlit("Struct Node,");
    reveal_strlit(" Node.args: ");
    reveal_strlit(",");
    reveal_strlit(" Node.execution_status: ");
    reveal_strlit(" [ label = ");
    reveal_strlit(" ]");
    reveal_strlit("    ");
    let d = decimal(i);
    let lab = label_text(n);
    let st_t = status_text(n.status);
    lemma_status_text_plain(n.status);
    lemma_decimal_plain(i);
    let b = node_body(i, n);
    let a = "    "@ + d + " [ label = "@;
    let q = seq!['"'];
    assert(b =~= a + q + (lab + q + " ]"@));
    assert(free_of(a, '"')) by {
        assert forall|k: int| 0 <= k < a.len() implies a[k] != '"' by {
            if 4 <= k < 4 + d.len() {
                assert(a[k] == d[k - 4]);
            }
        }
    }
    assert(free_of(lab, '"')) by {
        assert forall|k: int| 0 <= k < lab.len() implies lab[k] != '"' by {
            let pre = "Struct Node,"@ + args_tag();
            let mid = pre + n.args;
            let mid2 = mid + ","@ + status_tag();
            if pre.len() <= k < mid.len() {
                assert(lab[k] == n.args[k - pre.len()]);
            } else if k >= mid2.len() {
                assert(lab[k] == st_t[k - mid2.len()]);
            }
        }
    }
    lemma_split_concat(a, lab + q + " ]"@, '"');
    lemma_split_concat(lab, " ]"@, '"');
    lemma_split_none(a, '"');
    lemma_split_none(lab, '"');
    lemma_split_none(" ]"@, '"');
    assert(split(b, '"') =~= seq![a, lab, " ]"@]);
}

proof fn lemma_node_line_read(st: DotState, i: nat, n: NodeView)
    requires
        free_of(n.args, ','),
        free_of(n.args, '"'),
    ensures
        apply_line(Ok(st), node_body(i, n)) == Ok::<DotState, crate::error::ParseError>(
            insert_node(st, decimal(i), n),
        ),
{
    lemma_node_tokens(i, n);
    lemma_node_quoted(i, n);
    lemma_label_round_trip(n);
}

} // verus!

verus! {

#[verifier::rlimit(100)]
proof fn lemma_edge_line_read(st: DotState, e: (usize, usize))
    ensures
        apply_line(Ok(st), edge_body(e)) == Ok::<DotState, crate::error::ParseError>(
            DotState { edges: st.edges.push((decimal(e.0 as nat), decimal(e.1 as nat))), ..st },
        ),
{
    reveal_strlit(" -> ");
    reveal_strlit(" [ ]");
    reveal_strlit("->");
    reveal_strlit("[");
    reveal_strlit("]");
    let d0 = decimal(e.0 as nat);
    let d1 = decimal(e.1 as nat);
    lemma_decimal_plain(e.0 as nat);
    lemma_decimal_plain(e.1 as nat);
    let b = edge_body(e);
    let rest = " -> "@ + d1 + " [ ]"@;
    assert(b =~= "    "@ + d0 + rest);
    lemma_trim_after_indent(d0, rest);
    assert(b.last() == ']');
    assert(strip_semicolon(b) == b);
    let sp = seq![' '];
    let x3 = "["@ + sp + "]"@;
    let x2 = d1 + sp + x3;
    let x1 = "->"@ + sp + x2;
    assert(d0 + rest =~= d0 + sp + x1);
    lemma_split_concat("["@, "]"@, ' ');
    lemma_split_concat(d1, x3, ' ');
    lemma_split_concat("->"@, x2, ' ');
    lemma_split_concat(d0, x1, ' ');
    lemma_word(d0);
    lemma_word(d1);
    lemma_word("->"@);
    lemma_word("["@);
    lemma_word("]"@);
    let toks = tokens(b);
    assert(split(d0 + rest, ' ') =~= seq![d0, "->"@, d1, "["@, "]"@]);
    assert(toks =~= seq![d0, "->"@, d1, "["@, "]"@]);
    assert(!is_node_line(toks));
    assert(is_edge_line(toks));
}

proof fn lemma_header_line_read(st: DotState)
    ensures
        apply_line(Ok(st), "digraph {"@) == Ok::<DotState, crate::error::ParseError>(st),
{
    reveal_strlit("digraph {");
    reveal_strlit("digraph");
    reveal_strlit("{");
    let b = "digraph {"@;
    assert(b.last() == '{');
    assert(strip_semicolon(b) == b);
    lemma_trim_plain(b);
    assert(b =~= "digraph"@ + seq![' '] + "{"@);
    lemma_split_concat("digraph"@, "{"@, ' ');
    lemma_word("digraph"@);
    lemma_word("{"@);
    assert(tokens(b) =~= seq!["digraph"@, "{"@]);
}

proof fn lemma_closing_line_read(st: DotState)
    ensures
        apply_line(Ok(st), "}"@) == Ok::<DotState, crate::error::ParseError>(st),
{
    reveal_strlit("}");
    let b = "}"@;
    assert(strip_semicolon(b) == b);
    lemma_word(b);
    assert(tokens(b) =~= seq![b]);
}

} // verus!

verus! {

/// The lines, each followed by a line break.
pub open spec fn joined(ls: Seq<Seq<char>>) -> Seq<char>
    decreases ls.len(),
{
    if ls.len() == 0 {
        Seq::empty()
    } else {
        joined(ls.drop_last()) + ls.last() + "\n"@
    }
}

proof fn lemma_split_joined(ls: Seq<Seq<char>>, r: Seq<char>)
    requires
        forall|k: int| 0 <= k < ls.len() ==> free_of(#[trigger] ls[k], '\n'),
    ensures
        split(joined(ls) + r, '\n') == ls + split(r, '\n'),
    decreases ls.len(),
{
    reveal_strlit("\n");
    if ls.len() == 0 {
        assert(joined(ls) + r =~= r);
        assert(ls + split(r, '\n') =~= split(r, '\n'));
    } else {
        let init = ls.drop_last();
        let last = ls.last();
        assert(joined(ls) + r =~= joined(init) + (last + seq!['\n'] + r));
        assert forall|k: int| 0 <= k < init.len() implies free_of(#[trigger] init[k], '\n') by {
            assert(init[k] == ls[k]);
        }
        lemma_split_joined(init, last + seq!['\n'] + r);
        lemma_split_concat(last, r, '\n');
        assert(free_of(ls[ls.len() - 1], '\n'));
        lemma_split_none(last, '\n');
        assert(init + (seq![last] + split(r, '\n')) =~= ls + split(r, '\n'));
    }
}

/// The node lines of a graph, without line breaks.
pub open spec fn node_bodies(ns: Seq<NodeView>) -> Seq<Seq<char>> {
    Seq::new(ns.len(), |i: int| node_body(i as nat, ns[i]))
}

/// The edge lines of a graph, without line breaks.
pub open spec fn edge_bodies(es: Seq<(usize, usize)>) -> Seq<Seq<char>> {
    Seq::new(es.len(), |k: int| edge_body(es[k]))
}

proof fn lemma_nodes_text_joined(ns: Seq<NodeView>)
    ensures
        nodes_text(ns) == joined(node_bodies(ns)),
    decreases ns.len(),
{
    reveal_strlit("\" ]\n");
    reveal_strlit("\" ]");
    reveal_strlit("\n");
    if ns.len() > 0 {
        lemma_nodes_text_joined(ns.drop_last());
        assert(node_bodies(ns).drop_last() =~= node_bodies(ns.drop_last()));
        let i = (ns.len() - 1) as nat;
        assert(node_line(i, ns.last()) =~= node_body(i, ns.last()) + "\n"@);
    } else {
        assert(node_bodies(ns) =~= Seq::<Seq<char>>::empty());
    }
}

proof fn lemma_edges_text_joined(es: Seq<(usize, usize)>)
    ensures
        edges_text(es) == joined(edge_bodies(es)),
    decreases es.len(),
{
    reveal_strlit(" [ ]\n");
    reveal_strlit(" [ ]");
    reveal_strlit("\n");
    if es.len() > 0 {
        lemma_edges_text_joined(es.drop_last());
        assert(edge_bodies(es).drop_last() =~= edge_bodies(es.drop_last()));
        assert(edge_line(es.last()) =~= edge_body(es.last()) + "\n"@);
    } else {
        assert(edge_bodies(es) =~= Seq::<Seq<char>>::empty());
    }
}

proof fn lemma_body_free_of_newline(i: nat, n: NodeView, e: (usize, usize))
    requires
        free_of(n.args, '\n'),
    ensures
        free_of(node_body(i, n), '\n'),
        free_of(edge_body(e), '\n'),
{
    reveal_strlit("    ");
    reveal_strlit(" [ label = \"");
    reveal_strlit("\" ]");
    reveal_strlit("Struct Node,");
    reveal_strlit(" Node.args: ");
    reveal_strlit(",");
    reveal_strlit(" Node.execution_status: ");
    reveal_strlit(" -> ");
    reveal_strlit(" [ ]");
    lemma_decimal_plain(i);
    lemma_decimal_plain(e.0 as nat);
    lemma_decimal_plain(e.1 as nat);
    lemma_status_text_plain(n.status);
    assert(free_of("    "@, '\n'));
    assert(free_of(" [ label = \""@, '\n'));
    assert(free_of("\" ]"@, '\n'));
    assert(free_of("Struct Node,"@, '\n'));
    assert(free_of(" Node.args: "@, '\n'));
    assert(free_of(","@, '\n'));
    assert(free_of(" Node.execution_status: "@, '\n'));
    assert(free_of(" -> "@, '\n'));
    assert(free_of(" [ ]"@, '\n'));
    lemma_free_concat("Struct Node,"@, " Node.args: "@, '\n');
    lemma_free_concat("Struct Node,"@ + " Node.args: "@, n.args, '\n');
    lemma_free_concat("Struct Node,"@ + " Node.args: "@ + n.args, ","@, '\n');
    lemma_free_concat("Struct Node,"@ + " Node.args: "@ + n.args + ","@, " Node.execution_status: "@, '\n');
    lemma_free_concat(
        "Struct Node,"@ + " Node.args: "@ + n.args + ","@ + " Node.execution_status: "@,
        status_text(n.status),
        '\n',
    );
    lemma_free_concat("    "@, decimal(i), '\n');
    lemma_free_concat("    "@ + decimal(i), " [ label = \""@, '\n');
    lemma_free_concat("    "@ + decimal(i) + " [ label = \""@, label_text(n), '\n');
    lemma_free_concat("    "@ + decimal(i) + " [ label = \""@ + label_text(n), "\" ]"@, '\n');
    lemma_free_concat("    "@, decimal(e.0 as nat), '\n');
    lemma_free_concat("    "@ + decimal(e.0 as nat), " -> "@, '\n');
    lemma_free_concat("    "@ + decimal(e.0 as nat) + " -> "@, decimal(e.1 as nat), '\n');
    lemma_free_concat("    "@ + decimal(e.0 as nat) + " -> "@ + decimal(e.1 as nat), " [ ]"@, '\n');
}

/// The lines of the printed text of `g`.
pub open spec fn printed_lines(g: GraphView) -> Seq<Seq<char>> {
    seq!["digraph {"@] + node_bodies(g.nodes) + edge_bodies(g.edges) + seq!["}"@]
}

proof fn lemma_printed_lines(g: GraphView)
    requires
        forall|i: int| 0 <= i < g.nodes.len() ==> free_of((#[trigger] g.nodes[i]).args, '\n'),
    ensures
        starts_with(trim(dot_text(g)), "digraph"@),
        split(trim(dot_text(g)), '\n') == printed_lines(g),
{
    reveal_strlit("digraph {\n");
    reveal_strlit("digraph {");
    reveal_strlit("digraph");
    reveal_strlit("}\n");
    reveal_strlit("}");
    reveal_strlit("\n");
    let nt = nodes_text(g.nodes);
    let et = edges_text(g.edges);
    let t = dot_text(g);
    let x = "digraph {\n"@ + nt + et + "}"@;
    assert(t =~= x.push('\n'));
    assert(t.drop_last() =~= x);
    assert(x.last() == '}');
    assert(t.last() == '\n');
    assert(trim_end(x) == x);
    assert(trim_end(t) == x);
    assert(t[0] == 'd');
    assert(trim_start(t) == t);
    assert(x.subrange(0, 7) =~= "digraph"@);
    lemma_nodes_text_joined(g.nodes);
    lemma_edges_text_joined(g.edges);
    let nb = node_bodies(g.nodes);
    let eb = edge_bodies(g.edges);
    assert forall|k: int| 0 <= k < nb.len() implies free_of(#[trigger] nb[k], '\n') by {
        lemma_body_free_of_newline(k as nat, g.nodes[k], (0, 0));
    }
    assert forall|k: int| 0 <= k < eb.len() implies free_of(#[trigger] eb[k], '\n') by {
        lemma_body_free_of_newline(
            0,
            NodeView { args: Seq::empty(), status: ExecutionStatus::Executed },
            g.edges[k],
        );
    }
    assert(x =~= "digraph {"@ + seq!['\n'] + (joined(nb) + (joined(eb) + "}"@)));
    lemma_split_concat("digraph {"@, joined(nb) + (joined(eb) + "}"@), '\n');
    lemma_split_none("digraph {"@, '\n');
    lemma_split_joined(nb, joined(eb) + "}"@);
    lemma_split_joined(eb, "}"@);
    lemma_split_none("}"@, '\n');
    assert(split(x, '\n') =~= printed_lines(g));
}

} // verus!

verus! {

/// The numerals of `0..i`.
pub open spec fn numerals(i: nat) -> Seq<Seq<char>> {
    Seq::new(i, |j: int| decimal(j as nat))
}

/// What has been read after the first `i` node lines of the printed text of `g`.
pub open spec fn node_state(g: GraphView, i: nat) -> DotState {
    DotState { names: numerals(i), nodes: g.nodes.take(i as int), edges: Seq::empty() }
}

/// What has been read after all node lines and the first `k` edge lines.
pub open spec fn edge_state(g: GraphView, k: nat) -> DotState {
    DotState {
        names: numerals(g.nodes.len()),
        nodes: g.nodes,
        edges: Seq::new(k, |x: int| (decimal(g.edges[x].0 as nat), decimal(g.edges[x].1 as nat))),
    }
}

proof fn lemma_first_from_absent(ids: Seq<Seq<char>>, x: Seq<char>, j: int)
    requires
        0 <= j,
        forall|k: int| j <= k < ids.len() ==> ids[k] != x,
    ensures
        first_from(ids, x, j) is None,
    decreases ids.len() - j,
{
    if j < ids.len() {
        lemma_first_from_absent(ids, x, j + 1);
    }
}

proof fn lemma_first_from_numeral(n: nat, p: nat, j: int)
    requires
        0 <= j <= p,
        p < n,
    ensures
        first_from(numerals(n), decimal(p), j) == Some(p as int),
    decreases p - j,
{
    if j < p {
        if decimal(j as nat) == decimal(p) {
            lemma_decimal_injective(j as nat, p);
        }
        lemma_first_from_numeral(n, p, j + 1);
    }
}

proof fn lemma_fold_nodes(g: GraphView, i: nat)
    requires
        i <= g.nodes.len(),
        forall|x: int|
            0 <= x < g.nodes.len() ==> free_of((#[trigger] g.nodes[x]).args, ',') && free_of(
                g.nodes[x].args,
                '"',
            ),
    ensures
        parse_lines(printed_lines(g).take((1 + i) as int)) == Ok::<DotState, crate::error::ParseError>(
            node_state(g, i),
        ),
    decreases i,
{
    let l = printed_lines(g);
    if i == 0 {
        assert(l.take(1).drop_last() =~= Seq::<Seq<char>>::empty());
        assert(l.take(1).last() == "digraph {"@);
        lemma_header_line_read(empty_state());
        assert(node_state(g, 0).names =~= empty_state().names);
        assert(node_state(g, 0).nodes =~= empty_state().nodes);
        assert(node_state(g, 0) == empty_state());
        assert(parse_lines(l.take(1)) == apply_line(parse_lines(Seq::<Seq<char>>::empty()), "digraph {"@));
    } else {
        let j = (i - 1) as nat;
        lemma_fold_nodes(g, j);
        assert(l.take((1 + i) as int).drop_last() =~= l.take((1 + j) as int));
        assert(l.take((1 + i) as int).last() == node_body(j, g.nodes[j as int]));
        lemma_node_line_read(node_state(g, j), j, g.nodes[j as int]);
        assert forall|k: int| 0 <= k < numerals(j).len() implies numerals(j)[k] != decimal(j) by {
            if decimal(k as nat) == decimal(j) {
                lemma_decimal_injective(k as nat, j);
            }
        }
        lemma_first_from_absent(numerals(j), decimal(j), 0);
        assert(numerals(j).push(decimal(j)) =~= numerals(i));
        assert(g.nodes.take(j as int).push(g.nodes[j as int]) =~= g.nodes.take(i as int));
        assert(insert_node(node_state(g, j), decimal(j), g.nodes[j as int]) == node_state(g, i));
        assert(parse_lines(l.take((1 + i) as int)) == apply_line(
            parse_lines(l.take((1 + j) as int)),
            node_body(j, g.nodes[j as int]),
        ));
    }
}

proof fn lemma_fold_edges(g: GraphView, k: nat)
    requires
        k <= g.edges.len(),
        forall|x: int|
            0 <= x < g.nodes.len() ==> free_of((#[trigger] g.nodes[x]).args, ',') && free_of(
                g.nodes[x].args,
                '"',
            ),
    ensures
        parse_lines(printed_lines(g).take((1 + g.nodes.len() as int) + k)) == Ok::<
            DotState,
            crate::error::ParseError,
        >(edge_state(g, k)),
    decreases k,
{
    let l = printed_lines(g);
    let n = g.nodes.len();
    if k == 0 {
        lemma_fold_nodes(g, n);
        assert(g.nodes.take(n as int) =~= g.nodes);
        assert(edge_state(g, 0).edges =~= Seq::<(Seq<char>, Seq<char>)>::empty());
        assert(node_state(g, n) == edge_state(g, 0));
    } else {
        let j = (k - 1) as nat;
        lemma_fold_edges(g, j);
        assert(l.take((1 + n + k) as int).drop_last() =~= l.take((1 + n + j) as int));
        assert(l.take((1 + n + k) as int).last() == edge_body(g.edges[j as int]));
        lemma_edge_line_read(edge_state(g, j), g.edges[j as int]);
        assert(edge_state(g, j).edges.push((decimal(g.edges[j as int].0 as nat), decimal(g.edges[j as int].1 as nat)))
            =~= edge_state(g, k).edges);
    }
}

proof fn lemma_resolve_printed(g: GraphView, k: nat)
    requires
        k <= g.edges.len(),
        crate::graph::edges_in_range(g.nodes.len(), g.edges),
    ensures
        resolve_edges(numerals(g.nodes.len()), edge_state(g, k).edges) == g.edges.take(k as int),
    decreases k,
{
    if k == 0 {
        assert(edge_state(g, 0).edges =~= Seq::<(Seq<char>, Seq<char>)>::empty());
        assert(g.edges.take(0) =~= Seq::<(usize, usize)>::empty());
    } else {
        let j = (k - 1) as nat;
        lemma_resolve_printed(g, j);
        assert(edge_state(g, k).edges.drop_last() =~= edge_state(g, j).edges);
        let e = g.edges[j as int];
        lemma_first_from_numeral(g.nodes.len(), e.0 as nat, 0);
        lemma_first_from_numeral(g.nodes.len(), e.1 as nat, 0);
        assert(g.edges.take(j as int).push(e) =~= g.edges.take(k as int));
    }
}

proof fn lemma_collect_numerals(nodes: Seq<NodeView>, k: nat)
    requires
        k <= nodes.len(),
    ensures
        collect_named(numerals(k), nodes) == (numerals(k), nodes.take(k as int)),
    decreases k,
{
    if k == 0 {
        assert(numerals(0) =~= Seq::<Seq<char>>::empty());
        assert(nodes.take(0) =~= Seq::<NodeView>::empty());
    } else {
        let j = (k - 1) as nat;
        lemma_collect_numerals(nodes, j);
        assert(numerals(k).drop_last() =~= numerals(j));
        assert(numerals(k).last() == decimal(j));
        assert forall|x: int| 0 <= x < numerals(j).len() implies numerals(j)[x] != decimal(j) by {
            if decimal(x as nat) == decimal(j) {
                lemma_decimal_injective(x as nat, j);
            }
        }
        lemma_first_from_absent(numerals(j), decimal(j), 0);
        assert(numerals(j).push(decimal(j)) =~= numerals(k));
        assert(nodes.take(j as int).push(nodes[j as int]) =~= nodes.take(k as int));
    }
}

/// Reading back the printed text of a graph as `new` builds it gives the
/// same graph, provided no payload holds a comma, a double quote or a line break.
pub proof fn lemma_text_round_trip(g: GraphView)
    requires
        g.wf(),
        initial_state(g),
        forall|i: int|
            0 <= i < g.nodes.len() ==> free_of((#[trigger] g.nodes[i]).args, ',') && free_of(
                g.nodes[i].args,
                '"',
            ) && free_of(g.nodes[i].args, '\n'),
    ensures
        parse_dot(dot_text(g)) is Ok,
        graph_of_text(parse_dot(dot_text(g))->Ok_0) == g,
{
    let n = g.nodes.len();
    let m = g.edges.len();
    lemma_printed_lines(g);
    let l = printed_lines(g);
    lemma_fold_edges(g, m);
    assert(l.len() == n + m + 2);
    assert(l.take(l.len() as int) =~= l);
    assert(l.drop_last() =~= l.take((1 + n + m) as int));
    assert(l.last() == "}"@);
    lemma_closing_line_read(edge_state(g, m));
    assert(parse_dot(dot_text(g)) == Ok::<DotState, crate::error::ParseError>(edge_state(g, m)));
    lemma_resolve_printed(g, m);
    lemma_collect_numerals(g.nodes, n);
    assert(g.nodes.take(n as int) =~= g.nodes);
    assert(g.edges.take(m as int) =~= g.edges);
    let es = g.edges;
    assert(initial_nodes(g.nodes, es) =~= g.nodes) by {
        assert forall|i: int| 0 <= i < n implies #[trigger] initial_nodes(g.nodes, es)[i] == g.nodes[i] by {
            assert(g.status(i) == crate::graph::initial_status(es, i));
        }
    }
}

} // verus!
