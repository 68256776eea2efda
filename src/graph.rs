//! The graph: nodes identified by ordinals, and directed edges between them.
use vstd::prelude::*;
use crate::edge::Edge;
use crate::error::GraphError;
use crate::node::{Node, NodeView};
use crate::status::ExecutionStatus;

verus! {

/// A directed acyclic graph of nodes, each identified by its ordinal.
#[derive(Debug)]
pub struct DirectedAcyclicGraph {
    nodes: Vec<Node>,
    edges: Vec<(usize, usize)>,
}

/// What a graph is, as plain values: the nodes by ordinal, and the edges as
/// `(parent, child)` pairs of ordinals, in the order they were given.
pub struct GraphView {
    pub nodes: Seq<NodeView>,
    pub edges: Seq<(usize, usize)>,
}

impl DirectedAcyclicGraph {
    /// Every graph value is well formed: its edges join existing nodes and
    /// form no cycle.
    #[verifier::type_invariant]
    pub open spec fn inv(self) -> bool {
        self@.wf()
    }
}

impl View for DirectedAcyclicGraph {
    type V = GraphView;

    closed spec fn view(&self) -> GraphView {
        GraphView { nodes: self.nodes@.map_values(|n: Node| n@), edges: self.edges@ }
    }
}

/// Every edge joins two of the `n` nodes.
pub open spec fn edges_in_range(n: nat, edges: Seq<(usize, usize)>) -> bool {
    forall|k: int| 0 <= k < edges.len() ==> (#[trigger] edges[k]).0 < n && edges[k].1 < n
}

/// The edges admit a level for each of the `n` nodes that strictly grows
/// along every edge; that is, they form no cycle.
pub open spec fn acyclic(n: nat, edges: Seq<(usize, usize)>) -> bool {
    exists|level: Seq<nat>| is_leveling(level, n, edges)
}

/// `level` gives each of the `n` nodes a level that strictly grows along every edge.
pub open spec fn is_leveling(level: Seq<nat>, n: nat, edges: Seq<(usize, usize)>) -> bool {
    &&& level.len() == n
    &&& forall|k: int|
        0 <= k < edges.len() ==> level[(#[trigger] edges[k]).0 as int] < level[edges[k].1 as int]
}

/// The parents of node `c`, one entry per edge into it, from the last edge to the first.
pub open spec fn parents_from(edges: Seq<(usize, usize)>, c: usize) -> Seq<usize>
    decreases edges.len(),
{
    if edges.len() == 0 {
        Seq::empty()
    } else {
        parents_from(edges.drop_first(), c) + if edges[0].1 == c {
            seq![edges[0].0]
        } else {
            Seq::empty()
        }
    }
}

/// The children of node `p`, one entry per edge out of it, from the last edge to the first.
pub open spec fn children_from(edges: Seq<(usize, usize)>, p: usize) -> Seq<usize>
    decreases edges.len(),
{
    if edges.len() == 0 {
        Seq::empty()
    } else {
        children_from(edges.drop_first(), p) + if edges[0].0 == p {
            seq![edges[0].1]
        } else {
            Seq::empty()
        }
    }
}

/// The ordinals of the nodes with status `Executable`, in increasing order.
pub open spec fn executable_indices(nodes: Seq<NodeView>) -> Seq<usize>
    decreases nodes.len(),
{
    if nodes.len() == 0 {
        Seq::empty()
    } else {
        let r = executable_indices(nodes.drop_last());
        if nodes.last().status == ExecutionStatus::Executable {
            r.push((nodes.len() - 1) as usize)
        } else {
            r
        }
    }
}

impl GraphView {
    /// Edges join existing nodes and form no cycle.
    pub open spec fn wf(self) -> bool {
        edges_in_range(self.nodes.len(), self.edges) && acyclic(self.nodes.len(), self.edges)
    }

    /// Some edge leads from `p` to `c`.
    pub open spec fn is_edge(self, p: int, c: int) -> bool {
        exists|k: int| 0 <= k < self.edges.len() && #[trigger] self.edges[k] == (p as usize, c as usize)
    }

    /// The status of node `i`.
    pub open spec fn status(self, i: int) -> ExecutionStatus {
        self.nodes[i].status
    }

    /// This graph with the status of node `i` replaced by `s`.
    pub open spec fn with_status(self, i: int, s: ExecutionStatus) -> GraphView {
        GraphView {
            nodes: self.nodes.update(i, NodeView { status: s, ..self.nodes[i] }),
            edges: self.edges,
        }
    }

    /// Every node has status `Executed`.
    pub open spec fn executed(self) -> bool {
        forall|i: int| 0 <= i < self.nodes.len() ==> #[trigger] self.nodes[i].status == ExecutionStatus::Executed
    }
}

/// The first position at or after `i` where `ids` holds `x`.
pub open spec fn first_from(ids: Seq<Seq<char>>, x: Seq<char>, i: int) -> Option<int>
    decreases ids.len() - i,
{
    if i < 0 || i >= ids.len() {
        None
    } else if ids[i] == x {
        Some(i)
    } else {
        first_from(ids, x, i + 1)
    }
}

/// The ordinal of the first node named `x`.
pub open spec fn lookup(ids: Seq<Seq<char>>, x: Seq<char>) -> Option<int> {
    first_from(ids, x, 0)
}

/// The edges, as ordinals, whose two endpoints both name a node; the others are left out.
pub open spec fn resolve_edges(
    ids: Seq<Seq<char>>,
    es: Seq<(Seq<char>, Seq<char>)>,
) -> Seq<(usize, usize)>
    decreases es.len(),
{
    if es.len() == 0 {
        Seq::empty()
    } else {
        let r = resolve_edges(ids, es.drop_last());
        let e = es.last();
        match (lookup(ids, e.0), lookup(ids, e.1)) {
            (Some(p), Some(c)) => r.push((p as usize, c as usize)),
            _ => r,
        }
    }
}

/// Some edge leads into node `i`.
pub open spec fn has_incoming(edges: Seq<(usize, usize)>, i: int) -> bool {
    exists|k: int| 0 <= k < edges.len() && (#[trigger] edges[k]).1 == i
}

/// The status a node starts with: `NonExecutable` when it has a parent,
/// `Executable` when it has none.
pub open spec fn initial_status(edges: Seq<(usize, usize)>, i: int) -> ExecutionStatus {
    if has_incoming(edges, i) {
        ExecutionStatus::NonExecutable
    } else {
        ExecutionStatus::Executable
    }
}

/// The nodes as given, each with the status it starts with.
pub open spec fn initial_nodes(nodes: Seq<NodeView>, edges: Seq<(usize, usize)>) -> Seq<NodeView> {
    Seq::new(nodes.len(), |i: int| NodeView { status: initial_status(edges, i), ..nodes[i] })
}

/// The distinct identifiers in order of first appearance, each with the
/// last node given under it.
pub open spec fn collect_named(ids: Seq<Seq<char>>, nodes: Seq<NodeView>) -> (
    Seq<Seq<char>>,
    Seq<NodeView>,
)
    decreases ids.len(),
{
    if ids.len() == 0 {
        (Seq::empty(), Seq::empty())
    } else {
        let prev = collect_named(ids.drop_last(), nodes);
        let x = ids.last();
        let v = nodes[ids.len() - 1];
        match lookup(prev.0, x) {
            Some(i) => (prev.0, prev.1.update(i, v)),
            None => (prev.0.push(x), prev.1.push(v)),
        }
    }
}

/// A path of at least one edge leads from `v` back to `v`.
pub open spec fn on_cycle(edges: Seq<(usize, usize)>, v: usize) -> bool {
    exists|path: Seq<usize>|
        path.len() >= 2 && path[0] == v && path.last() == v && forall|k: int|
            0 <= k < path.len() - 1 ==> #[trigger] edge_between(edges, path[k], path[k + 1])
}

/// Some edge leads from `p` to `c`.
pub open spec fn edge_between(edges: Seq<(usize, usize)>, p: usize, c: usize) -> bool {
    exists|e: int| 0 <= e < edges.len() && edges[e] == (p, c)
}

/// The identifiers of named nodes.
pub open spec fn id_views(s: Seq<(String, Node)>) -> Seq<Seq<char>> {
    s.map_values(|p: (String, Node)| p.0@)
}

/// The nodes of named nodes.
pub open spec fn node_views(s: Seq<(String, Node)>) -> Seq<NodeView> {
    s.map_values(|p: (String, Node)| p.1@)
}

/// The endpoints of edges.
pub open spec fn edge_views(s: Seq<Edge>) -> Seq<(Seq<char>, Seq<char>)> {
    s.map_values(|e: Edge| e@)
}

/// The graph built from named nodes and edges between names: one node per
/// distinct identifier, in order of first appearance, holding the last node
/// given under it; edges whose endpoints name no node are left out; every
/// node starts `Executable` without parents and `NonExecutable` with some.
pub open spec fn built(
    ids: Seq<Seq<char>>,
    nodes: Seq<NodeView>,
    es: Seq<(Seq<char>, Seq<char>)>,
) -> GraphView {
    let named = collect_named(ids, nodes);
    let edges = resolve_edges(named.0, es);
    GraphView { nodes: initial_nodes(named.1, edges), edges }
}

/// Relies on `petgraph::algo::toposort`, which fails exactly on graphs with a
/// cycle, and on `Cycle::node_id`, a node that takes part in the cycle.
#[verifier::external_body]
fn find_cycle(n: usize, edges: &Vec<(usize, usize)>) -> (r: Option<usize>)
    requires
        edges_in_range(n as nat, edges@),
    ensures
        r is None <==> acyclic(n as nat, edges@),
        r is Some ==> r->Some_0 < n && on_cycle(edges@, r->Some_0),
{
    let mut g = petgraph::Graph::<(), (), petgraph::Directed, usize>::with_capacity(n, edges.len());
    for _ in 0..n {
        g.add_node(());
    }
    for &(p, c) in edges.iter() {
        g.add_edge(petgraph::graph::NodeIndex::new(p), petgraph::graph::NodeIndex::new(c), ());
    }
    match petgraph::algo::toposort(&g, None) {
        Ok(_) => None,
        Err(cycle) => Some(cycle.node_id().index()),
    }
}

/// The first ordinal whose identifier is `x`.
fn find_id(ids: &Vec<String>, x: &String) -> (r: Option<usize>)
    ensures
        r is Some ==> lookup(ids@.map_values(|s: String| s@), x@) == Some(r->Some_0 as int)
            && r->Some_0 < ids@.len(),
        r is None ==> lookup(ids@.map_values(|s: String| s@), x@) is None,
{
    let ghost v = ids@.map_values(|s: String| s@);
    let mut i: usize = 0;
    while i < ids.len()
        invariant
            v == ids@.map_values(|s: String| s@),
            i <= ids@.len(),
            lookup(v, x@) == first_from(v, x@, i as int),
        decreases ids@.len() - i,
    {
        if ids[i] == *x {
            return Some(i);
        }
        i += 1;
    }
    None
}

impl DirectedAcyclicGraph {
    /// Builds a graph from named nodes and edges between names.
    ///
    /// There is one node per distinct identifier, in order of first
    /// appearance; a repeated identifier replaces the node given before it.
    /// An edge naming no node is left out. A node starts `NonExecutable` when
    /// it has a parent and `Executable` otherwise. Fails with `CyclicGraph`,
    /// naming a node on a cycle, exactly when the edges form a cycle.
    pub fn new(nodes: Vec<(String, Node)>, edges: Vec<Edge>) -> (r: Result<Self, GraphError>)
        ensures
            ({
                let g = built(id_views(nodes@), node_views(nodes@), edge_views(edges@));
                &&& r is Ok <==> acyclic(g.nodes.len(), g.edges)
                &&& r is Ok ==> r->Ok_0@ == g && r->Ok_0@.wf()
                &&& r is Err ==> r->Err_0 is CyclicGraph && r->Err_0->CyclicGraph_0 < g.nodes.len()
                    && on_cycle(g.edges, r->Err_0->CyclicGraph_0)
            }),
    {
        let ghost idv = id_views(nodes@);
        let ghost nv = node_views(nodes@);
        let ghost ev = edge_views(edges@);
        let mut ids: Vec<String> = Vec::new();
        let mut ns: Vec<Node> = Vec::new();
        let mut i: usize = 0;
        assert(idv.take(0) =~= Seq::<Seq<char>>::empty());
        while i < nodes.len()
            invariant
                idv == id_views(nodes@),
                nv == node_views(nodes@),
                i <= nodes@.len(),
                idv.len() == nv.len() == nodes@.len(),
                ids@.map_values(|s: String| s@) == collect_named(idv.take(i as int), nv).0,
                ns@.map_values(|n: Node| n@) == collect_named(idv.take(i as int), nv).1,
                ids@.len() == ns@.len(),
            decreases nodes@.len() - i,
        {
            let ghost prev = collect_named(idv.take(i as int), nv);
            assert(idv.take(i + 1).drop_last() =~= idv.take(i as int));
            assert(idv.take(i + 1).last() == nodes@[i as int].0@);
            assert(nv[i as int] == nodes@[i as int].1@);
            let nd = nodes[i].1.duplicate();
            proof {
                lemma_first_from_range(prev.0, nodes@[i as int].0@, 0);
            }
            match find_id(&ids, &nodes[i].0) {
                Some(k) => {
                    assert(lookup(prev.0, nodes@[i as int].0@) == Some(k as int));
                    assert(collect_named(idv.take(i + 1), nv) == (prev.0, prev.1.update(k as int, nv[i as int])));
                    ns.set(k, nd);
                    assert(ns@.map_values(|n: Node| n@) =~= prev.1.update(k as int, nv[i as int]));
                },
                None => {
                    let id = nodes[i].0.clone();
                    ids.push(id);
                    ns.push(nd);
                    assert(ids@.map_values(|s: String| s@) =~= prev.0.push(nodes@[i as int].0@));
                    assert(ns@.map_values(|n: Node| n@) =~= prev.1.push(nv[i as int]));
                },
            }
            i += 1;
        }
        assert(idv.take(i as int) =~= idv);
        let ghost named = collect_named(idv, nv);
        let ghost vs = named.1;
        let n = ns.len();
        let mut q: usize = 0;
        while q < n
            invariant
                n == ns@.len(),
                vs.len() == n,
                q <= n,
                forall|x: int| 0 <= x < q ==> (#[trigger] ns@[x])@ == (NodeView { status: ExecutionStatus::Executable, ..vs[x] }),
                forall|x: int| q <= x < n ==> (#[trigger] ns@[x])@ == vs[x],
            decreases n - q,
        {
            let fresh = Node { args: ns[q].args.clone(), execution_status: ExecutionStatus::Executable };
            ns.set(q, fresh);
            q += 1;
        }
        let ghost idn = named.0;
        let mut es: Vec<(usize, usize)> = Vec::new();
        let mut j: usize = 0;
        assert(ev.subrange(0, 0) =~= Seq::<(Seq<char>, Seq<char>)>::empty());
        while j < edges.len()
            invariant
                ev == edge_views(edges@),
                idn == ids@.map_values(|s: String| s@),
                n == ids@.len() == idn.len(),
                j <= edges@.len(),
                es@ == resolve_edges(idn, ev.subrange(0, j as int)),
                edges_in_range(n as nat, es@),
            decreases edges@.len() - j,
        {
            assert(ev.subrange(0, j + 1).drop_last() =~= ev.subrange(0, j as int));
            let p = find_id(&ids, &edges[j].parent);
            let c = find_id(&ids, &edges[j].child);
            proof {
                lemma_first_from_range(idn, edges@[j as int].parent@, 0);
                lemma_first_from_range(idn, edges@[j as int].child@, 0);
            }
            match (p, c) {
                (Some(p), Some(c)) => {
                    es.push((p, c));
                },
                _ => {},
            }
            j += 1;
        }
        assert(ev.subrange(0, j as int) =~= ev);
        let ghost es0 = es@;
        let mut k: usize = 0;
        assert forall|x: int| 0 <= x < n implies !has_incoming(es0.subrange(0, 0), x) by {}
        while k < es.len()
            invariant
                es@ == es0,
                ns@.len() == n,
                vs.len() == n,
                edges_in_range(n as nat, es0),
                k <= es0.len(),
                forall|x: int|
                    0 <= x < n ==> (#[trigger] ns@[x])@ == (NodeView {
                        status: initial_status(es0.subrange(0, k as int), x),
                        ..vs[x]
                    }),
            decreases es0.len() - k,
        {
            let c = es[k].1;
            let child = Node { args: ns[c].args.clone(), execution_status: ExecutionStatus::NonExecutable };
            ns.set(c, child);
            k += 1;
            assert forall|x: int| 0 <= x < n implies has_incoming(es0.subrange(0, k as int), x)
                == (has_incoming(es0.subrange(0, k - 1), x) || x == c) by {
                if has_incoming(es0.subrange(0, k - 1), x) {
                    let w = choose|w: int| 0 <= w < k - 1 && (#[trigger] es0.subrange(0, k - 1)[w]).1 == x;
                    assert(es0.subrange(0, k as int)[w] == es0.subrange(0, k - 1)[w]);
                }
                if x == c {
                    assert(es0.subrange(0, k as int)[k - 1].1 == x);
                }
                if has_incoming(es0.subrange(0, k as int), x) {
                    let w = choose|w: int| 0 <= w < k && (#[trigger] es0.subrange(0, k as int)[w]).1 == x;
                    if w < k - 1 {
                        assert(es0.subrange(0, k - 1)[w] == es0.subrange(0, k as int)[w]);
                    }
                }
            }
        }
        assert(es0.subrange(0, k as int) =~= es0);
        assert(ns@.map_values(|x: Node| x@) =~= initial_nodes(vs, es0));
        match find_cycle(n, &es) {
            Some(c) => Err(GraphError::CyclicGraph(c)),
            None => Ok(DirectedAcyclicGraph { nodes: ns, edges: es }),
        }
    }

    fn copy_parts(&self) -> (r: (Vec<Node>, Vec<(usize, usize)>))
        ensures
            r.0@.map_values(|n: Node| n@) == self@.nodes,
            r.1@ == self@.edges,
    {
        let mut ns: Vec<Node> = Vec::new();
        let mut i: usize = 0;
        while i < self.nodes.len()
            invariant
                i <= self.nodes@.len(),
                self@.nodes.len() == self.nodes@.len(),
                ns@.len() == i,
                forall|k: int| 0 <= k < i ==> (#[trigger] ns@[k])@ == self@.nodes[k],
            decreases self.nodes@.len() - i,
        {
            let nd = self.nodes[i].duplicate();
            ns.push(nd);
            assert(self@.nodes[i as int] == self.nodes@[i as int]@);
            i += 1;
        }
        let mut es: Vec<(usize, usize)> = Vec::new();
        let mut j: usize = 0;
        while j < self.edges.len()
            invariant
                j <= self.edges@.len(),
                es@ == self.edges@.subrange(0, j as int),
            decreases self.edges@.len() - j,
        {
            es.push(self.edges[j]);
            j += 1;
            assert(es@ =~= self.edges@.subrange(0, j as int));
        }
        assert(ns@.map_values(|n: Node| n@) =~= self@.nodes);
        assert(es@ =~= self@.edges);
        (ns, es)
    }

    /// A copy of this graph.
    pub fn duplicate(&self) -> (r: Self)
        ensures
            r@ == self@,
    {
        proof {
            use_type_invariant(self);
        }
        let (ns, es) = self.copy_parts();
        let r = DirectedAcyclicGraph { nodes: ns, edges: es };
        assert(r@.nodes =~= self@.nodes);
        r
    }

    /// The number of nodes.
    pub fn node_count(&self) -> (r: usize)
        ensures
            r == self@.nodes.len(),
    {
        self.nodes.len()
    }

    /// The edges, as `(parent, child)` ordinals.
    pub fn edges(&self) -> (r: &Vec<(usize, usize)>)
        ensures
            r@ == self@.edges,
    {
        &self.edges
    }

    /// The node with ordinal `i`.
    pub fn node(&self, i: usize) -> (r: &Node)
        requires
            i < self@.nodes.len(),
        ensures
            r@ == self@.nodes[i as int],
    {
        &self.nodes[i]
    }

    /// The status of node `i`.
    pub fn status(&self, i: usize) -> (r: ExecutionStatus)
        requires
            i < self@.nodes.len(),
        ensures
            r == self@.status(i as int),
    {
        self.nodes[i].execution_status
    }

    /// This graph with the status of node `i` set to `s`.
    pub fn with_status(&self, i: usize, s: ExecutionStatus) -> (r: Self)
        requires
            i < self@.nodes.len(),
        ensures
            r@ == self@.with_status(i as int, s),
    {
        proof {
            use_type_invariant(self);
        }
        let (mut ns, es) = self.copy_parts();
        assert(ns@[i as int]@ == self@.nodes[i as int]);
        let node = Node { args: ns[i].args.clone(), execution_status: s };
        ns.set(i, node);
        assert(ns@.map_values(|n: Node| n@) =~= self@.with_status(i as int, s).nodes);
        DirectedAcyclicGraph { nodes: ns, edges: es }
    }

    /// The ordinals of all nodes with status `Executable`, in increasing order.
    pub fn get_executable_node_indices(&self) -> (r: Vec<usize>)
        ensures
            r@ == executable_indices(self@.nodes),
    {
        let mut r: Vec<usize> = Vec::new();
        let mut i: usize = 0;
        assert(self@.nodes.subrange(0, 0) =~= Seq::<NodeView>::empty());
        while i < self.nodes.len()
            invariant
                i <= self.nodes@.len(),
                self@.nodes.len() == self.nodes@.len(),
                r@ == executable_indices(self@.nodes.subrange(0, i as int)),
            decreases self.nodes@.len() - i,
        {
            assert(self@.nodes.subrange(0, i + 1).drop_last() =~= self@.nodes.subrange(0, i as int));
            assert(self@.nodes[i as int] == self.nodes@[i as int]@);
            if self.nodes[i].execution_status == ExecutionStatus::Executable {
                r.push(i);
            }
            i += 1;
        }
        assert(self@.nodes.subrange(0, i as int) =~= self@.nodes);
        r
    }

    /// The first node with status `Executable`, if any.
    pub fn get_executable_node_index(&self) -> (r: Option<usize>)
        ensures
            r is Some ==> r->Some_0 < self@.nodes.len() && self@.status(r->Some_0 as int)
                == ExecutionStatus::Executable && forall|j: int|
                0 <= j < r->Some_0 ==> self@.status(j) != ExecutionStatus::Executable,
            r is None ==> forall|j: int|
                0 <= j < self@.nodes.len() ==> self@.status(j) != ExecutionStatus::Executable,
    {
        let mut i: usize = 0;
        while i < self.nodes.len()
            invariant
                i <= self.nodes@.len(),
                self@.nodes.len() == self.nodes@.len(),
                forall|j: int| 0 <= j < i ==> self@.status(j) != ExecutionStatus::Executable,
            decreases self.nodes@.len() - i,
        {
            assert(self@.nodes[i as int] == self.nodes@[i as int]@);
            if self.nodes[i].execution_status == ExecutionStatus::Executable {
                return Some(i);
            }
            i += 1;
        }
        None
    }

    /// Has every node been executed?
    pub fn is_graph_executed(&self) -> (r: bool)
        ensures
            r == self@.executed(),
    {
        let mut i: usize = 0;
        while i < self.nodes.len()
            invariant
                i <= self.nodes@.len(),
                self@.nodes.len() == self.nodes@.len(),
                forall|j: int| 0 <= j < i ==> #[trigger] self@.nodes[j].status == ExecutionStatus::Executed,
            decreases self.nodes@.len() - i,
        {
            assert(self@.nodes[i as int] == self.nodes@[i as int]@);
            if self.nodes[i].execution_status != ExecutionStatus::Executed {
                assert(self@.nodes[i as int].status != ExecutionStatus::Executed);
                return false;
            }
            i += 1;
        }
        true
    }

    /// The parents of node `c`, one per edge into it, from the most recently
    /// added edge to the first.
    pub fn get_parent_node_indices(&self, c: usize) -> (r: Vec<usize>)
        ensures
            r@ == parents_from(self@.edges, c),
    {
        let mut r: Vec<usize> = Vec::new();
        let mut j: usize = self.edges.len();
        let ghost es = self.edges@;
        assert(es.subrange(es.len() as int, es.len() as int) =~= Seq::<(usize, usize)>::empty());
        while j > 0
            invariant
                es == self.edges@,
                es == self@.edges,
                j <= es.len(),
                r@ == parents_from(es.subrange(j as int, es.len() as int), c),
            decreases j,
        {
            assert(es.subrange(j - 1, es.len() as int).drop_first() =~= es.subrange(j as int, es.len() as int));
            let e = self.edges[j - 1];
            if e.1 == c {
                r.push(e.0);
            }
            j -= 1;
            assert(r@ =~= parents_from(es.subrange(j as int, es.len() as int), c));
        }
        assert(es.subrange(0, es.len() as int) =~= es);
        r
    }

    /// The children of node `p`, one per edge out of it, from the most
    /// recently added edge to the first.
    pub fn get_child_node_indices(&self, p: usize) -> (r: Vec<usize>)
        ensures
            r@ == children_from(self@.edges, p),
    {
        let mut r: Vec<usize> = Vec::new();
        let mut j: usize = self.edges.len();
        let ghost es = self.edges@;
        assert(es.subrange(es.len() as int, es.len() as int) =~= Seq::<(usize, usize)>::empty());
        while j > 0
            invariant
                es == self.edges@,
                es == self@.edges,
                j <= es.len(),
                r@ == children_from(es.subrange(j as int, es.len() as int), p),
            decreases j,
        {
            assert(es.subrange(j - 1, es.len() as int).drop_first() =~= es.subrange(j as int, es.len() as int));
            let e = self.edges[j - 1];
            if e.0 == p {
                r.push(e.1);
            }
            j -= 1;
            assert(r@ =~= children_from(es.subrange(j as int, es.len() as int), p));
        }
        assert(es.subrange(0, es.len() as int) =~= es);
        r
    }
}

proof fn lemma_first_from_range(ids: Seq<Seq<char>>, x: Seq<char>, i: int)
    ensures
        first_from(ids, x, i) is Some ==> 0 <= first_from(ids, x, i)->Some_0 < ids.len(),
    decreases ids.len() - i,
{
    if 0 <= i < ids.len() && ids[i] != x {
        lemma_first_from_range(ids, x, i + 1);
    }
}

impl DirectedAcyclicGraph {
    /// The graph with the given nodes and edges, if the edges join existing
    /// nodes and form no cycle.
    pub fn from_parts(nodes: Vec<Node>, edges: Vec<(usize, usize)>) -> (r: Option<Self>)
        ensures
            ({
                let g = GraphView { nodes: nodes@.map_values(|n: Node| n@), edges: edges@ };
                &&& r is Some <==> g.wf()
                &&& r is Some ==> r->Some_0@ == g
            }),
    {
        let n = nodes.len();
        let mut k: usize = 0;
        while k < edges.len()
            invariant
                k <= edges@.len(),
                n == nodes@.len(),
                edges_in_range(n as nat, edges@.subrange(0, k as int)),
            decreases edges@.len() - k,
        {
            if edges[k].0 >= n || edges[k].1 >= n {
                assert(!edges_in_range(nodes@.map_values(|n: Node| n@).len(), edges@)) by {
                    assert(nodes@.map_values(|n: Node| n@).len() == n);
                    assert(!(edges@[k as int].0 < n && edges@[k as int].1 < n));
                }
                return None;
            }
            k += 1;
            assert forall|x: int| 0 <= x < k implies (#[trigger] edges@.subrange(0, k as int)[x]).0 < n
                && edges@.subrange(0, k as int)[x].1 < n by {
                if x < k - 1 {
                    assert(edges@.subrange(0, k as int)[x] == edges@.subrange(0, k - 1)[x]);
                }
            }
        }
        assert(edges@.subrange(0, k as int) =~= edges@);
        match find_cycle(n, &edges) {
            Some(_) => None,
            None => Some(DirectedAcyclicGraph { nodes, edges }),
        }
    }
}

impl Clone for DirectedAcyclicGraph {
    fn clone(&self) -> (r: Self)
        ensures
            r@ == self@,
    {
        self.duplicate()
    }
}

impl PartialEq for DirectedAcyclicGraph {
    fn eq(&self, other: &Self) -> (r: bool) {
        assert(self@.nodes.len() == self.nodes@.len());
        assert(other@.nodes.len() == other.nodes@.len());
        if self.nodes.len() != other.nodes.len() || self.edges.len() != other.edges.len() {
            assert(self@.nodes.len() != other@.nodes.len() || self@.edges.len() != other@.edges.len());
            return false;
        }
        let mut i: usize = 0;
        while i < self.nodes.len()
            invariant
                self.nodes@.len() == other.nodes@.len(),
                self@.nodes.len() == self.nodes@.len(),
                other@.nodes.len() == other.nodes@.len(),
                i <= self.nodes@.len(),
                forall|j: int| 0 <= j < i ==> #[trigger] self@.nodes[j] == other@.nodes[j],
            decreases self.nodes@.len() - i,
        {
            assert(self@.nodes[i as int] == self.nodes@[i as int]@);
            assert(other@.nodes[i as int] == other.nodes@[i as int]@);
            if !(self.nodes[i] == other.nodes[i]) {
                return false;
            }
            i += 1;
        }
        let mut j: usize = 0;
        while j < self.edges.len()
            invariant
                self.edges@.len() == other.edges@.len(),
                j <= self.edges@.len(),
                forall|k: int| 0 <= k < j ==> self.edges@[k] == other.edges@[k],
            decreases self.edges@.len() - j,
        {
            if self.edges[j].0 != other.edges[j].0 || self.edges[j].1 != other.edges[j].1 {
                return false;
            }
            j += 1;
        }
        assert(self@.nodes =~= other@.nodes);
        assert(self@.edges =~= other@.edges);
        true
    }
}

impl vstd::std_specs::cmp::PartialEqSpecImpl for DirectedAcyclicGraph {
    open spec fn obeys_eq_spec() -> bool {
        true
    }

    open spec fn eq_spec(&self, other: &Self) -> bool {
        self@ == other@
    }
}

} // verus!
