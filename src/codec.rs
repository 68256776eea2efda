//! The binary form of a graph, as held in the shared byte cells.
//!
//! Layout, with every integer a big-endian `u64`: the node count, the edge
//! count, then each node as a status byte, the byte length of its payload and
//! the payload in UTF-8, then each edge as its parent and child ordinals.
use vstd::prelude::*;
use vstd::utf8::{decode_utf8, encode_utf8, valid_utf8};
use crate::graph::{DirectedAcyclicGraph, GraphView};
use crate::node::{Node, NodeView};
use crate::status::ExecutionStatus;
use crate::error::GraphError;

verus! {

/// The eight big-endian bytes of `x`.
pub open spec fn u64_be(x: u64) -> Seq<u8> {
    seq![
        (x >> 56u64) as u8,
        (x >> 48u64) as u8,
        (x >> 40u64) as u8,
        (x >> 32u64) as u8,
        (x >> 24u64) as u8,
        (x >> 16u64) as u8,
        (x >> 8u64) as u8,
        x as u8,
    ]
}

/// The number whose big-endian bytes are `b[0..8]`.
pub open spec fn be_u64(b: Seq<u8>) -> u64 {
    ((b[0] as u64) << 56u64) | ((b[1] as u64) << 48u64) | ((b[2] as u64) << 40u64) | ((b[3] as u64)
        << 32u64) | ((b[4] as u64) << 24u64) | ((b[5] as u64) << 16u64) | ((b[6] as u64) << 8u64)
        | (b[7] as u64)
}

/// Reading back the bytes of a number gives the number.
pub proof fn lemma_be_round_trip(x: u64)
    ensures
        be_u64(u64_be(x)) == x,
{
    let b = u64_be(x);
    let (b0, b1, b2, b3, b4, b5, b6, b7) = (b[0], b[1], b[2], b[3], b[4], b[5], b[6], b[7]);
    assert(((b0 as u64) << 56u64) | ((b1 as u64) << 48u64) | ((b2 as u64) << 40u64) | ((b3 as u64)
        << 32u64) | ((b4 as u64) << 24u64) | ((b5 as u64) << 16u64) | ((b6 as u64) << 8u64) | (b7 as u64)
        == x) by (bit_vector)
        requires
            b0 == (x >> 56u64) as u8,
            b1 == (x >> 48u64) as u8,
            b2 == (x >> 40u64) as u8,
            b3 == (x >> 32u64) as u8,
            b4 == (x >> 24u64) as u8,
            b5 == (x >> 16u64) as u8,
            b6 == (x >> 8u64) as u8,
            b7 == x as u8,
    ;
}

/// The byte that stands for a status.
pub open spec fn status_code(s: ExecutionStatus) -> u8 {
    match s {
        ExecutionStatus::NonExecutable => 0,
        ExecutionStatus::Executable => 1,
        ExecutionStatus::Executing => 2,
        ExecutionStatus::Executed => 3,
    }
}

/// The status that a byte stands for, if any.
pub open spec fn status_of_code(c: u8) -> Option<ExecutionStatus> {
    if c == 0 {
        Some(ExecutionStatus::NonExecutable)
    } else if c == 1 {
        Some(ExecutionStatus::Executable)
    } else if c == 2 {
        Some(ExecutionStatus::Executing)
    } else if c == 3 {
        Some(ExecutionStatus::Executed)
    } else {
        None
    }
}

/// The bytes of one node.
pub open spec fn node_bytes(n: NodeView) -> Seq<u8> {
    seq![status_code(n.status)] + u64_be(encode_utf8(n.args).len() as u64) + encode_utf8(n.args)
}

/// The bytes of a list of nodes, one after the other.
pub open spec fn nodes_bytes(ns: Seq<NodeView>) -> Seq<u8>
    decreases ns.len(),
{
    if ns.len() == 0 {
        Seq::empty()
    } else {
        nodes_bytes(ns.drop_last()) + node_bytes(ns.last())
    }
}

/// The bytes of one edge.
pub open spec fn edge_bytes(e: (usize, usize)) -> Seq<u8> {
    u64_be(e.0 as u64) + u64_be(e.1 as u64)
}

/// The bytes of a list of edges, one after the other.
pub open spec fn edges_bytes(es: Seq<(usize, usize)>) -> Seq<u8>
    decreases es.len(),
{
    if es.len() == 0 {
        Seq::empty()
    } else {
        edges_bytes(es.drop_last()) + edge_bytes(es.last())
    }
}

/// The binary form of a graph.
pub open spec fn graph_bytes(g: GraphView) -> Seq<u8> {
    u64_be(g.nodes.len() as u64) + u64_be(g.edges.len() as u64) + nodes_bytes(g.nodes) + edges_bytes(
        g.edges,
    )
}

/// Every length in the binary form of `g` fits in 64 bits, as it does for
/// any graph held in memory.
pub open spec fn fits(g: GraphView) -> bool {
    &&& g.nodes.len() <= u64::MAX
    &&& g.edges.len() <= u64::MAX
    &&& forall|i: int| 0 <= i < g.nodes.len() ==> encode_utf8((#[trigger] g.nodes[i]).args).len() <= u64::MAX
}

/// The number at position `p`, if eight bytes stand there.
pub open spec fn read_u64(b: Seq<u8>, p: int) -> Option<u64> {
    if 0 <= p && p + 8 <= b.len() {
        Some(be_u64(b.subrange(p, p + 8)))
    } else {
        None
    }
}

/// The node at position `p`, and the position after it.
pub open spec fn read_node(b: Seq<u8>, p: int) -> Option<(NodeView, int)> {
    if p < 0 || p >= b.len() {
        None
    } else {
        match status_of_code(b[p]) {
            None => None,
            Some(s) => match read_u64(b, p + 1) {
                None => None,
                Some(l) => {
                    let q = p + 9 + l;
                    if q <= b.len() && valid_utf8(b.subrange(p + 9, q)) {
                        Some((NodeView { args: decode_utf8(b.subrange(p + 9, q)), status: s }, q))
                    } else {
                        None
                    }
                },
            },
        }
    }
}

/// `k` nodes read one after the other from position `p`, and the position after them.
pub open spec fn read_nodes(b: Seq<u8>, p: int, k: nat) -> Option<(Seq<NodeView>, int)>
    decreases k,
{
    if k == 0 {
        Some((Seq::empty(), p))
    } else {
        match read_nodes(b, p, (k - 1) as nat) {
            None => None,
            Some((ns, q)) => match read_node(b, q) {
                None => None,
                Some((n, r)) => Some((ns.push(n), r)),
            },
        }
    }
}

/// `k` edges read one after the other from position `p`, and the position after them.
pub open spec fn read_edges(b: Seq<u8>, p: int, k: nat) -> Option<(Seq<(usize, usize)>, int)>
    decreases k,
{
    if k == 0 {
        Some((Seq::empty(), p))
    } else {
        match read_edges(b, p, (k - 1) as nat) {
            None => None,
            Some((es, q)) => match (read_u64(b, q), read_u64(b, q + 8)) {
                (Some(x), Some(y)) => if x <= usize::MAX && y <= usize::MAX {
                    Some((es.push((x as usize, y as usize)), q + 16))
                } else {
                    None
                },
                _ => None,
            },
        }
    }
}

/// The graph whose binary form is exactly `b`, if there is one that is well formed.
pub open spec fn parse_graph(b: Seq<u8>) -> Option<GraphView> {
    match (read_u64(b, 0), read_u64(b, 8)) {
        (Some(n), Some(m)) => match read_nodes(b, 16, n as nat) {
            None => None,
            Some((ns, p)) => match read_edges(b, p, m as nat) {
                None => None,
                Some((es, q)) => {
                    let g = GraphView { nodes: ns, edges: es };
                    if q == b.len() && g.wf() {
                        Some(g)
                    } else {
                        None
                    }
                },
            },
        },
        _ => None,
    }
}

} // verus!

verus! {

proof fn lemma_status_code(s: ExecutionStatus)
    ensures
        status_of_code(status_code(s)) == Some(s),
{
}

proof fn lemma_read_node(b: Seq<u8>, q: int, n: NodeView)
    requires
        encode_utf8(n.args).len() <= u64::MAX,
        0 <= q,
        q + node_bytes(n).len() <= b.len(),
        b.subrange(q, q + node_bytes(n).len()) == node_bytes(n),
    ensures
        read_node(b, q) == Some((n, q + node_bytes(n).len())),
{
    let nb = node_bytes(n);
    let e = encode_utf8(n.args);
    let l = e.len() as u64;
    lemma_be_round_trip(l);
    lemma_status_code(n.status);
    assert forall|x: int| 0 <= x < nb.len() implies #[trigger] b[q + x] == nb[x] by {
        assert(b.subrange(q, q + nb.len())[x] == b[q + x]);
    }
    assert(b[q + 0] == status_code(n.status));
    assert(b.subrange(q + 1, q + 9) =~= u64_be(l)) by {
        assert forall|x: int| 0 <= x < 8 implies #[trigger] b.subrange(q + 1, q + 9)[x] == u64_be(l)[x] by {
            assert(b[q + (1 + x)] == nb[1 + x]);
        }
    }
    assert(b.subrange(q + 9, q + 9 + e.len()) =~= e) by {
        assert forall|x: int| 0 <= x < e.len() implies #[trigger] b.subrange(q + 9, q + 9 + e.len())[x] == e[x] by {
            assert(b[q + (9 + x)] == nb[9 + x]);
        }
    }
    vstd::utf8::encode_utf8_valid_utf8(n.args);
    vstd::utf8::encode_utf8_decode_utf8(n.args);
}

proof fn lemma_nodes_prefix(ns: Seq<NodeView>, k: int)
    requires
        0 <= k <= ns.len(),
    ensures
        nodes_bytes(ns.take(k)).len() <= nodes_bytes(ns).len(),
        nodes_bytes(ns).subrange(0, nodes_bytes(ns.take(k)).len() as int) == nodes_bytes(ns.take(k)),
    decreases ns.len(),
{
    if k == ns.len() {
        assert(ns.take(k) =~= ns);
        assert(nodes_bytes(ns).subrange(0, nodes_bytes(ns).len() as int) =~= nodes_bytes(ns));
    } else {
        lemma_nodes_prefix(ns.drop_last(), k);
        assert(ns.drop_last().take(k) =~= ns.take(k));
        let a = nodes_bytes(ns.drop_last());
        let t = nodes_bytes(ns.take(k));
        assert(nodes_bytes(ns) == a + node_bytes(ns.last()));
        assert((a + node_bytes(ns.last())).subrange(0, t.len() as int) =~= a.subrange(0, t.len() as int));
    }
}

#[verifier::rlimit(60)]
proof fn lemma_read_nodes(pre: Seq<u8>, ns: Seq<NodeView>, post: Seq<u8>, k: nat)
    requires
        k <= ns.len(),
        forall|i: int| 0 <= i < ns.len() ==> encode_utf8((#[trigger] ns[i]).args).len() <= u64::MAX,
    ensures
        read_nodes(pre + nodes_bytes(ns) + post, pre.len() as int, k) == Some(
            (ns.take(k as int), (pre.len() + nodes_bytes(ns.take(k as int)).len()) as int),
        ),
    decreases k,
{
    let b = pre + nodes_bytes(ns) + post;
    if k == 0 {
        assert(ns.take(0) =~= Seq::<NodeView>::empty());
    } else {
        let j = (k - 1) as nat;
        lemma_read_nodes(pre, ns, post, j);
        let tj = nodes_bytes(ns.take(j as int));
        let q = (pre.len() + tj.len()) as int;
        let nb = node_bytes(ns[j as int]);
        assert(ns.take(k as int).drop_last() =~= ns.take(j as int));
        assert(nodes_bytes(ns.take(k as int)) == tj + nb);
        lemma_nodes_prefix(ns, k as int);
        let all = nodes_bytes(ns);
        assert(all.subrange(tj.len() as int, (tj.len() + nb.len()) as int) =~= nb) by {
            assert(all.subrange(0, (tj + nb).len() as int) == tj + nb);
            assert forall|x: int| 0 <= x < nb.len() implies all.subrange(
                tj.len() as int,
                (tj.len() + nb.len()) as int,
            )[x] == nb[x] by {
                assert(all.subrange(0, (tj + nb).len() as int)[tj.len() + x] == (tj + nb)[tj.len() + x]);
            }
        }
        assert(b.subrange(q, q + nb.len()) =~= nb) by {
            assert forall|x: int| 0 <= x < nb.len() implies #[trigger] b.subrange(q, q + nb.len())[x] == nb[x] by {
                assert(b[q + x] == all[tj.len() + x]);
                assert(all.subrange(tj.len() as int, (tj.len() + nb.len()) as int)[x] == all[tj.len() + x]);
            }
        }
        lemma_read_node(b, q, ns[j as int]);
        assert(ns.take(j as int).push(ns[j as int]) =~= ns.take(k as int));
    }
}

proof fn lemma_edges_prefix(es: Seq<(usize, usize)>, k: int)
    requires
        0 <= k <= es.len(),
    ensures
        edges_bytes(es.take(k)).len() <= edges_bytes(es).len(),
        edges_bytes(es).subrange(0, edges_bytes(es.take(k)).len() as int) == edges_bytes(es.take(k)),
    decreases es.len(),
{
    if k == es.len() {
        assert(es.take(k) =~= es);
        assert(edges_bytes(es).subrange(0, edges_bytes(es).len() as int) =~= edges_bytes(es));
    } else {
        lemma_edges_prefix(es.drop_last(), k);
        assert(es.drop_last().take(k) =~= es.take(k));
        let a = edges_bytes(es.drop_last());
        let t = edges_bytes(es.take(k));
        assert(edges_bytes(es) == a + edge_bytes(es.last()));
        assert((a + edge_bytes(es.last())).subrange(0, t.len() as int) =~= a.subrange(0, t.len() as int));
    }
}

proof fn lemma_edge_bytes_len(es: Seq<(usize, usize)>)
    ensures
        edges_bytes(es).len() == 16 * es.len(),
    decreases es.len(),
{
    if es.len() > 0 {
        lemma_edge_bytes_len(es.drop_last());
    }
}

proof fn lemma_read_edges(pre: Seq<u8>, es: Seq<(usize, usize)>, post: Seq<u8>, k: nat)
    requires
        k <= es.len(),
    ensures
        read_edges(pre + edges_bytes(es) + post, pre.len() as int, k) == Some(
            (es.take(k as int), (pre.len() + 16 * k) as int),
        ),
    decreases k,
{
    let b = pre + edges_bytes(es) + post;
    if k == 0 {
        assert(es.take(0) =~= Seq::<(usize, usize)>::empty());
    } else {
        let j = (k - 1) as nat;
        lemma_read_edges(pre, es, post, j);
        let tj = edges_bytes(es.take(j as int));
        lemma_edge_bytes_len(es.take(j as int));
        let q = (pre.len() + 16 * j) as int;
        let e = es[j as int];
        let eb = edge_bytes(e);
        assert(es.take(k as int).drop_last() =~= es.take(j as int));
        assert(edges_bytes(es.take(k as int)) == tj + eb);
        lemma_edges_prefix(es, k as int);
        let all = edges_bytes(es);
        assert(b.subrange(q, q + 8) =~= u64_be(e.0 as u64)) by {
            assert forall|x: int| 0 <= x < 8 implies #[trigger] b.subrange(q, q + 8)[x] == u64_be(e.0 as u64)[x] by {
                assert(all.subrange(0, (tj + eb).len() as int)[tj.len() + x] == (tj + eb)[tj.len() + x]);
            }
        }
        assert(b.subrange(q + 8, q + 16) =~= u64_be(e.1 as u64)) by {
            assert forall|x: int| 0 <= x < 8 implies #[trigger] b.subrange(q + 8, q + 16)[x] == u64_be(e.1 as u64)[x] by {
                assert(all.subrange(0, (tj + eb).len() as int)[tj.len() + 8 + x] == (tj + eb)[tj.len() + 8 + x]);
            }
        }
        lemma_be_round_trip(e.0 as u64);
        lemma_be_round_trip(e.1 as u64);
        assert(es.take(j as int).push(e) =~= es.take(k as int));
    }
}

/// Reading the binary form of a well-formed graph gives back that graph.
pub proof fn lemma_graph_bytes_round_trip(g: GraphView)
    requires
        g.wf(),
        fits(g),
    ensures
        parse_graph(graph_bytes(g)) == Some(g),
{
    let n = g.nodes.len() as u64;
    let m = g.edges.len() as u64;
    let h = u64_be(n) + u64_be(m);
    let nb = nodes_bytes(g.nodes);
    let eb = edges_bytes(g.edges);
    let b = graph_bytes(g);
    assert(b =~= h + nb + eb);
    lemma_be_round_trip(n);
    lemma_be_round_trip(m);
    assert(b.subrange(0, 8) =~= u64_be(n));
    assert(b.subrange(8, 16) =~= u64_be(m));
    lemma_read_nodes(h, g.nodes, eb, g.nodes.len());
    assert(g.nodes.take(g.nodes.len() as int) =~= g.nodes);
    assert(b =~= (h + nb) + eb + Seq::<u8>::empty());
    lemma_read_edges(h + nb, g.edges, Seq::empty(), g.edges.len());
    assert(g.edges.take(g.edges.len() as int) =~= g.edges);
    lemma_edge_bytes_len(g.edges);
}

} // verus!

verus! {

/// Appends the eight big-endian bytes of `x` to `v`.
pub fn push_u64(v: &mut Vec<u8>, x: u64)
    ensures
        final(v)@ == old(v)@ + u64_be(x),
{
    v.push((x >> 56u64) as u8);
    v.push((x >> 48u64) as u8);
    v.push((x >> 40u64) as u8);
    v.push((x >> 32u64) as u8);
    v.push((x >> 24u64) as u8);
    v.push((x >> 16u64) as u8);
    v.push((x >> 8u64) as u8);
    v.push(x as u8);
    assert(v@ =~= old(v)@ + u64_be(x));
}

/// The number whose big-endian bytes stand at position `p`, if eight bytes stand there.
pub fn read_u64_at(b: &[u8], p: usize) -> (r: Option<u64>)
    ensures
        r == read_u64(b@, p as int),
{
    if p > b.len() || b.len() - p < 8 {
        return None;
    }
    let x = ((b[p] as u64) << 56u64) | ((b[p + 1] as u64) << 48u64) | ((b[p + 2] as u64) << 40u64)
        | ((b[p + 3] as u64) << 32u64) | ((b[p + 4] as u64) << 24u64) | ((b[p + 5] as u64) << 16u64)
        | ((b[p + 6] as u64) << 8u64) | (b[p + 7] as u64);
    let ghost s = b@.subrange(p as int, p + 8);
    assert(s[0] == b@[p as int] && s[1] == b@[p + 1] && s[2] == b@[p + 2] && s[3] == b@[p + 3]);
    assert(s[4] == b@[p + 4] && s[5] == b@[p + 5] && s[6] == b@[p + 6] && s[7] == b@[p + 7]);
    Some(x)
}

fn status_byte(s: ExecutionStatus) -> (r: u8)
    ensures
        r == status_code(s),
{
    match s {
        ExecutionStatus::NonExecutable => 0,
        ExecutionStatus::Executable => 1,
        ExecutionStatus::Executing => 2,
        ExecutionStatus::Executed => 3,
    }
}

fn status_from_byte(c: u8) -> (r: Option<ExecutionStatus>)
    ensures
        r == status_of_code(c),
{
    if c == 0 {
        Some(ExecutionStatus::NonExecutable)
    } else if c == 1 {
        Some(ExecutionStatus::Executable)
    } else if c == 2 {
        Some(ExecutionStatus::Executing)
    } else if c == 3 {
        Some(ExecutionStatus::Executed)
    } else {
        None
    }
}

/// Relies on `String::from_utf8`: it accepts exactly the valid UTF-8 byte
/// strings, and the string holds the characters they encode.
#[verifier::external_body]
fn utf8_string(b: Vec<u8>) -> (r: Option<String>)
    ensures
        r is Some <==> valid_utf8(b@),
        r is Some ==> r->Some_0@ == decode_utf8(b@),
{
    String::from_utf8(b).ok()
}

fn copy_bytes(b: &[u8], from: usize, to: usize) -> (r: Vec<u8>)
    requires
        from <= to <= b@.len(),
    ensures
        r@ == b@.subrange(from as int, to as int),
{
    let mut r: Vec<u8> = Vec::new();
    let mut i = from;
    while i < to
        invariant
            from <= i <= to <= b@.len(),
            r@ == b@.subrange(from as int, i as int),
        decreases to - i,
    {
        r.push(b[i]);
        i += 1;
        assert(r@ =~= b@.subrange(from as int, i as int));
    }
    r
}

fn read_node_at(b: &[u8], p: usize) -> (r: Option<(Node, usize)>)
    ensures
        match read_node(b@, p as int) {
            Some((n, q)) => r is Some && r->Some_0.0@ == n && r->Some_0.1 == q,
            None => r is None,
        },
{
    if p >= b.len() {
        return None;
    }
    let s = match status_from_byte(b[p]) {
        Some(s) => s,
        None => {
            return None;
        },
    };
    let l = match read_u64_at(b, p + 1) {
        Some(l) => l,
        None => {
            return None;
        },
    };
    if ((b.len() - (p + 9)) as u64) < l {
        return None;
    }
    let q = p + 9 + l as usize;
    let bytes = copy_bytes(b, p + 9, q);
    match utf8_string(bytes) {
        Some(args) => Some((Node { args, execution_status: s }, q)),
        None => None,
    }
}

proof fn lemma_read_nodes_none(b: Seq<u8>, p: int, k: nat, k2: nat)
    requires
        k <= k2,
        read_nodes(b, p, k) is None,
    ensures
        read_nodes(b, p, k2) is None,
    decreases k2 - k,
{
    if k2 > k {
        lemma_read_nodes_none(b, p, k, (k2 - 1) as nat);
    }
}

proof fn lemma_read_edges_none(b: Seq<u8>, p: int, k: nat, k2: nat)
    requires
        k <= k2,
        read_edges(b, p, k) is None,
    ensures
        read_edges(b, p, k2) is None,
    decreases k2 - k,
{
    if k2 > k {
        lemma_read_edges_none(b, p, k, (k2 - 1) as nat);
    }
}

impl DirectedAcyclicGraph {
    /// The binary form of this graph; reading it back gives the graph.
    pub fn serialize(&self) -> (r: Vec<u8>)
        ensures
            r@ == graph_bytes(self@),
            parse_graph(r@) == Some(self@),
    {
        proof {
            use_type_invariant(self);
        }
        let n = self.node_count();
        let es = self.edges();
        let mut v: Vec<u8> = Vec::new();
        push_u64(&mut v, n as u64);
        push_u64(&mut v, es.len() as u64);
        let ghost h = v@;
        let mut i: usize = 0;
        assert(self@.nodes.take(0) =~= Seq::<NodeView>::empty());
        while i < n
            invariant
                n == self@.nodes.len(),
                i <= n,
                v@ == h + nodes_bytes(self@.nodes.take(i as int)),
                forall|k: int| 0 <= k < i ==> encode_utf8((#[trigger] self@.nodes[k]).args).len() <= u64::MAX,
            decreases n - i,
        {
            let node = self.node(i);
            let bytes = node.args.as_str().as_bytes();
            v.push(status_byte(node.execution_status));
            push_u64(&mut v, bytes.len() as u64);
            let mut j: usize = 0;
            let ghost before = v@;
            while j < bytes.len()
                invariant
                    j <= bytes@.len(),
                    v@ == before + bytes@.subrange(0, j as int),
                decreases bytes@.len() - j,
            {
                v.push(bytes[j]);
                j += 1;
                assert(v@ =~= before + bytes@.subrange(0, j as int));
            }
            assert(bytes@.subrange(0, j as int) =~= bytes@);
            assert(self@.nodes.take(i + 1).drop_last() =~= self@.nodes.take(i as int));
            assert(v@ =~= h + nodes_bytes(self@.nodes.take(i + 1)));
            i += 1;
        }
        assert(self@.nodes.take(n as int) =~= self@.nodes);
        let ghost h2 = v@;
        let mut k: usize = 0;
        assert(self@.edges.take(0) =~= Seq::<(usize, usize)>::empty());
        while k < es.len()
            invariant
                es@ == self@.edges,
                k <= es@.len(),
                v@ == h2 + edges_bytes(self@.edges.take(k as int)),
            decreases es@.len() - k,
        {
            push_u64(&mut v, es[k].0 as u64);
            push_u64(&mut v, es[k].1 as u64);
            assert(self@.edges.take(k + 1).drop_last() =~= self@.edges.take(k as int));
            assert(v@ =~= h2 + edges_bytes(self@.edges.take(k + 1)));
            k += 1;
        }
        assert(self@.edges.take(k as int) =~= self@.edges);
        proof {
            lemma_graph_bytes_round_trip(self@);
        }
        v
    }

    /// Reads a graph from its binary form; fails with `MalformedBytes` on
    /// bytes that are not exactly the binary form of a well-formed graph.
    pub fn deserialize(b: &[u8]) -> (r: Result<DirectedAcyclicGraph, GraphError>)
        ensures
            r is Ok <==> parse_graph(b@) is Some,
            r is Ok ==> r->Ok_0@ == parse_graph(b@)->Some_0,
            r is Err ==> r->Err_0 == GraphError::MalformedBytes,
    {
        let n = match read_u64_at(b, 0) {
            Some(n) => n,
            None => {
                return Err(GraphError::MalformedBytes);
            },
        };
        let m = match read_u64_at(b, 8) {
            Some(m) => m,
            None => {
                return Err(GraphError::MalformedBytes);
            },
        };
        let mut nodes: Vec<Node> = Vec::new();
        let mut pos: usize = 16;
        let mut i: u64 = 0;
        while i < n
            invariant
                i <= n,
                read_u64(b@, 0) == Some(n),
                read_u64(b@, 8) == Some(m),
                read_nodes(b@, 16, i as nat) == Some((nodes@.map_values(|x: Node| x@), pos as int)),
            decreases n - i,
        {
            match read_node_at(b, pos) {
                Some((node, q)) => {
                    let ghost before = nodes@.map_values(|x: Node| x@);
                    nodes.push(node);
                    pos = q;
                    assert(nodes@.map_values(|x: Node| x@) =~= before.push(node@));
                },
                None => {
                    proof {
                        assert(read_nodes(b@, 16, (i + 1) as nat) is None);
                        lemma_read_nodes_none(b@, 16, (i + 1) as nat, n as nat);
                    }
                    return Err(GraphError::MalformedBytes);
                },
            }
            i += 1;
        }
        let ghost pn = pos;
        let mut edges: Vec<(usize, usize)> = Vec::new();
        let mut k: u64 = 0;
        while k < m
            invariant
                k <= m,
                read_u64(b@, 0) == Some(n),
                read_u64(b@, 8) == Some(m),
                read_nodes(b@, 16, n as nat) == Some((nodes@.map_values(|x: Node| x@), pn as int)),
                read_edges(b@, pn as int, k as nat) == Some((edges@, pos as int)),
            decreases m - k,
        {
            if pos > b.len() || b.len() - pos < 16 {
                proof {
                    assert(read_u64(b@, pos as int) is None || read_u64(b@, pos + 8) is None);
                    assert(read_edges(b@, pn as int, (k + 1) as nat) is None);
                    lemma_read_edges_none(b@, pn as int, (k + 1) as nat, m as nat);
                }
                return Err(GraphError::MalformedBytes);
            }
            let x = read_u64_at(b, pos);
            let y = read_u64_at(b, pos + 8);
            match (x, y) {
                (Some(x), Some(y)) => {
                    if x > usize::MAX as u64 || y > usize::MAX as u64 {
                        proof {
                            assert(read_edges(b@, pn as int, (k + 1) as nat) is None);
                            lemma_read_edges_none(b@, pn as int, (k + 1) as nat, m as nat);
                        }
                        return Err(GraphError::MalformedBytes);
                    }
                    edges.push((x as usize, y as usize));
                    pos = pos + 16;
                },
                _ => {
                    return Err(GraphError::MalformedBytes);
                },
            }
            k += 1;
        }
        if pos != b.len() {
            return Err(GraphError::MalformedBytes);
        }
        match DirectedAcyclicGraph::from_parts(nodes, edges) {
            Some(g) => Ok(g),
            None => Err(GraphError::MalformedBytes),
        }
    }
}

} // verus!
