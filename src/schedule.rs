//! The rules by which node statuses advance, what they guarantee, and the
//! decisions of a worker that runs the graph together with other workers.
use vstd::prelude::*;
use crate::graph::{
    built, edges_in_range, has_incoming, initial_status, is_leveling, DirectedAcyclicGraph, GraphView,
};
use crate::node::NodeView;
use crate::status::{rank, successor, ExecutionStatus};

verus! {

/// Every parent of node `c` exists and has status `Executed`.
pub open spec fn parents_executed(g: GraphView, c: int) -> bool {
    forall|k: int|
        0 <= k < g.edges.len() && (#[trigger] g.edges[k]).1 == c ==> g.edges[k].0 < g.nodes.len()
            && g.status(g.edges[k].0 as int) == ExecutionStatus::Executed
}

/// Every parent of node `c` exists and has status `Executed` or `Executing`.
pub open spec fn parents_started(g: GraphView, c: int) -> bool {
    forall|k: int|
        0 <= k < g.edges.len() && (#[trigger] g.edges[k]).1 == c ==> g.edges[k].0 < g.nodes.len()
            && (g.status(g.edges[k].0 as int) == ExecutionStatus::Executed || g.status(
            g.edges[k].0 as int,
        ) == ExecutionStatus::Executing)
}

/// `g2` is `g` with node `i` moved one status forward, and a node leaves
/// `NonExecutable` only once all its parents have been executed.
pub open spec fn valid_step(g: GraphView, g2: GraphView, i: int) -> bool {
    &&& 0 <= i < g.nodes.len()
    &&& successor(g.status(i)) == Some(g2.status(i))
    &&& g2 == g.with_status(i, g2.status(i))
    &&& g.status(i) == ExecutionStatus::NonExecutable ==> parents_executed(g, i)
}

/// `g2` follows from `g` by one valid step.
pub open spec fn valid_transition(g: GraphView, g2: GraphView) -> bool {
    exists|i: int| valid_step(g, g2, i)
}

/// Only the statuses differ between `g` and `g2`, and none of them moved back.
pub open spec fn no_regress(g: GraphView, g2: GraphView) -> bool {
    &&& g2.nodes.len() == g.nodes.len()
    &&& g2.edges == g.edges
    &&& forall|i: int|
        0 <= i < g.nodes.len() ==> (#[trigger] g2.nodes[i]).args == g.nodes[i].args && rank(
            g.nodes[i].status,
        ) <= rank(g2.nodes[i].status)
}

/// A node that has left `NonExecutable` has all its parents executed.
pub open spec fn ready_invariant(g: GraphView) -> bool {
    forall|c: int|
        0 <= c < g.nodes.len() && (#[trigger] g.nodes[c]).status != ExecutionStatus::NonExecutable
            ==> parents_executed(g, c)
}

/// A valid step moves no status backwards.
pub proof fn lemma_step_no_regress(g: GraphView, g2: GraphView, i: int)
    requires
        valid_step(g, g2, i),
    ensures
        no_regress(g, g2),
{
    assert forall|j: int| 0 <= j < g.nodes.len() implies (#[trigger] g2.nodes[j]).args == g.nodes[j].args
        && rank(g.nodes[j].status) <= rank(g2.nodes[j].status) by {
        if j != i {
            assert(g2.nodes[j] == g.nodes[j]);
        }
    }
}

/// Moving no status backwards is transitive, so it holds along any run of valid steps.
pub proof fn lemma_no_regress_trans(g1: GraphView, g2: GraphView, g3: GraphView)
    requires
        no_regress(g1, g2),
        no_regress(g2, g3),
    ensures
        no_regress(g1, g3),
{
    assert forall|i: int| 0 <= i < g1.nodes.len() implies (#[trigger] g3.nodes[i]).args == g1.nodes[i].args
        && rank(g1.nodes[i].status) <= rank(g3.nodes[i].status) by {
        assert(g2.nodes[i].args == g1.nodes[i].args);
    }
}

/// A valid step keeps every node that left `NonExecutable` with all its parents executed.
pub proof fn lemma_step_keeps_ready(g: GraphView, g2: GraphView, i: int)
    requires
        valid_step(g, g2, i),
        ready_invariant(g),
    ensures
        ready_invariant(g2),
{
    assert forall|c: int|
        0 <= c < g2.nodes.len() && (#[trigger] g2.nodes[c]).status
            != ExecutionStatus::NonExecutable implies parents_executed(g2, c) by {
        if c == i && g.status(i) == ExecutionStatus::NonExecutable {
            assert forall|k: int|
                0 <= k < g2.edges.len() && (#[trigger] g2.edges[k]).1 == c implies g2.edges[k].0
                < g2.nodes.len() && g2.status(g2.edges[k].0 as int) == ExecutionStatus::Executed by {
                assert(g.edges[k].1 == c);
                assert(g.edges[k].0 as int != i);
            }
        } else {
            assert(parents_executed(g, c));
            assert forall|k: int|
                0 <= k < g2.edges.len() && (#[trigger] g2.edges[k]).1 == c implies g2.edges[k].0
                < g2.nodes.len() && g2.status(g2.edges[k].0 as int) == ExecutionStatus::Executed by {
                assert(g.edges[k].1 == c);
                let p = g.edges[k].0 as int;
                assert(g.status(p) == ExecutionStatus::Executed);
                if p == i {
                    assert(successor(g.status(i)) is None);
                }
            }
        }
    }
}

/// A graph as built from its parts: every node with a parent is `NonExecutable`.
pub open spec fn initial_state(g: GraphView) -> bool {
    forall|i: int| 0 <= i < g.nodes.len() ==> #[trigger] g.status(i) == initial_status(g.edges, i)
}

/// A newly built graph already keeps nodes with unfinished parents `NonExecutable`.
pub proof fn lemma_initial_ready(g: GraphView)
    requires
        edges_in_range(g.nodes.len(), g.edges),
        initial_state(g),
    ensures
        ready_invariant(g),
{
    assert forall|c: int|
        0 <= c < g.nodes.len() && (#[trigger] g.nodes[c]).status
            != ExecutionStatus::NonExecutable implies parents_executed(g, c) by {
        assert forall|k: int|
            0 <= k < g.edges.len() && (#[trigger] g.edges[k]).1 == c implies g.edges[k].0
            < g.nodes.len() && g.status(g.edges[k].0 as int) == ExecutionStatus::Executed by {
            assert(has_incoming(g.edges, c));
            assert(g.status(c) == initial_status(g.edges, c));
        }
    }
}

/// The outcome of a compare-and-swap on the stored graph `s`: the new stored
/// graph, and whether `desired` was written.
pub open spec fn cas_outcome(s: GraphView, expected: GraphView, desired: GraphView) -> (GraphView, bool) {
    if s == expected {
        (desired, true)
    } else {
        (s, false)
    }
}

/// How many of the requests, applied in turn from stored graph `s`, succeed
/// in moving node `n` from `Executable` to `Executing`.
pub open spec fn claims(s: GraphView, reqs: Seq<(GraphView, GraphView)>, n: int) -> nat
    decreases reqs.len(),
{
    if reqs.len() == 0 {
        0
    } else {
        let (s1, ok) = cas_outcome(s, reqs[0].0, reqs[0].1);
        let here: nat = if ok && reqs[0].0.status(n) == ExecutionStatus::Executable
            && reqs[0].1.status(n) == ExecutionStatus::Executing {
            1
        } else {
            0
        };
        here + claims(s1, reqs.drop_first(), n)
    }
}

/// Every request asks for a valid step from the graph it expects.
pub open spec fn all_valid(reqs: Seq<(GraphView, GraphView)>) -> bool {
    forall|k: int| 0 <= k < reqs.len() ==> valid_transition((#[trigger] reqs[k]).0, reqs[k].1)
}

/// However compare-and-swap requests of valid steps interleave, at most one
/// of them claims a given node, and none once the node has been claimed.
pub proof fn lemma_single_claim(s: GraphView, reqs: Seq<(GraphView, GraphView)>, n: int)
    requires
        all_valid(reqs),
        0 <= n < s.nodes.len(),
    ensures
        claims(s, reqs, n) <= 1,
        rank(s.status(n)) >= 2 ==> claims(s, reqs, n) == 0,
    decreases reqs.len(),
{
    if reqs.len() > 0 {
        let (e, d) = reqs[0];
        assert(valid_transition(e, d));
        let i = choose|i: int| valid_step(e, d, i);
        lemma_step_no_regress(e, d, i);
        let (s1, ok) = cas_outcome(s, e, d);
        assert(all_valid(reqs.drop_first())) by {
            assert forall|k: int| 0 <= k < reqs.drop_first().len() implies valid_transition(
                (#[trigger] reqs.drop_first()[k]).0,
                reqs.drop_first()[k].1,
            ) by {
                assert(reqs.drop_first()[k] == reqs[k + 1]);
            }
        }
        assert(s1.nodes.len() == s.nodes.len());
        assert(rank(s.status(n)) <= rank(s1.status(n)));
        lemma_single_claim(s1, reqs.drop_first(), n);
        if ok && e.status(n) == ExecutionStatus::Executable && d.status(n) == ExecutionStatus::Executing {
            assert(rank(s1.status(n)) == 2);
        }
    }
}

/// A claim on node `n` made after another worker's claim went through
/// fails, and the losing worker observes the stored graph, in which `n` is
/// already running or executed.
pub proof fn lemma_losing_claim(s: GraphView, expected: GraphView, desired: GraphView, n: int)
    requires
        0 <= n < s.nodes.len(),
        rank(s.status(n)) >= 2,
        expected.status(n) == ExecutionStatus::Executable,
    ensures
        cas_outcome(s, expected, desired) == (s, false),
        rank(cas_outcome(s, expected, desired).0.status(n)) >= 2,
{
}

/// The number of single steps that remain before every node is executed.
pub open spec fn remaining(nodes: Seq<NodeView>) -> nat
    decreases nodes.len(),
{
    if nodes.len() == 0 {
        0
    } else {
        remaining(nodes.drop_last()) + (3 - rank(nodes.last().status)) as nat
    }
}

proof fn lemma_remaining_update(nodes: Seq<NodeView>, i: int, x: NodeView)
    requires
        0 <= i < nodes.len(),
    ensures
        remaining(nodes.update(i, x)) + (3 - rank(nodes[i].status)) == remaining(nodes) + (3 - rank(
            x.status,
        )),
    decreases nodes.len(),
{
    let u = nodes.update(i, x);
    if i == nodes.len() - 1 {
        assert(u.drop_last() =~= nodes.drop_last());
    } else {
        lemma_remaining_update(nodes.drop_last(), i, x);
        assert(u.drop_last() =~= nodes.drop_last().update(i, x));
    }
}

/// Each valid step brings the count of remaining steps down by one, so no
/// run of valid steps is longer than `remaining` of its first graph.
pub proof fn lemma_step_decreases(g: GraphView, g2: GraphView, i: int)
    requires
        valid_step(g, g2, i),
    ensures
        remaining(g2.nodes) + 1 == remaining(g.nodes),
{
    lemma_remaining_update(g.nodes, i, g2.nodes[i]);
}

/// Nothing remains exactly when every node is executed.
pub proof fn lemma_remaining_zero(g: GraphView)
    ensures
        remaining(g.nodes) == 0 <==> g.executed(),
    decreases g.nodes.len(),
{
    if g.nodes.len() > 0 {
        let h = GraphView { nodes: g.nodes.drop_last(), edges: g.edges };
        lemma_remaining_zero(h);
        if g.executed() {
            assert(h.executed()) by {
                assert forall|i: int| 0 <= i < h.nodes.len() implies #[trigger] h.nodes[i].status
                    == ExecutionStatus::Executed by {
                    assert(h.nodes[i] == g.nodes[i]);
                }
            }
            assert(g.nodes.last() == g.nodes[g.nodes.len() - 1]);
        }
        if remaining(g.nodes) == 0 {
            assert forall|i: int| 0 <= i < g.nodes.len() implies #[trigger] g.nodes[i].status
                == ExecutionStatus::Executed by {
                if i < g.nodes.len() - 1 {
                    assert(h.nodes[i] == g.nodes[i]);
                }
            }
        }
    }
}

proof fn lemma_find_ready(g: GraphView, level: Seq<nat>, v: int)
    requires
        edges_in_range(g.nodes.len(), g.edges),
        is_leveling(level, g.nodes.len(), g.edges),
        0 <= v < g.nodes.len(),
        g.status(v) != ExecutionStatus::Executed,
    ensures
        exists|u: int|
            0 <= u < g.nodes.len() && g.status(u) != ExecutionStatus::Executed && parents_executed(
                g,
                u,
            ),
    decreases level[v],
{
    if !parents_executed(g, v) {
        let k = choose|k: int|
            0 <= k < g.edges.len() && (#[trigger] g.edges[k]).1 == v && !(g.edges[k].0
                < g.nodes.len() && g.status(g.edges[k].0 as int) == ExecutionStatus::Executed);
        let p = g.edges[k].0 as int;
        assert(level[p] < level[v]);
        lemma_find_ready(g, level, p);
    }
}

/// In a graph without cycles where no node is running and not every node is
/// executed, some node can still take a valid step: a run of valid steps
/// only stops, with no worker holding a node, once every node is executed.
pub proof fn lemma_progress(g: GraphView)
    requires
        g.wf(),
        !g.executed(),
        forall|i: int| 0 <= i < g.nodes.len() ==> #[trigger] g.nodes[i].status != ExecutionStatus::Executing,
    ensures
        exists|i: int, s: ExecutionStatus| valid_step(g, g.with_status(i, s), i),
{
    let v = choose|v: int| 0 <= v < g.nodes.len() && !(#[trigger] g.nodes[v].status == ExecutionStatus::Executed);
    let level = choose|level: Seq<nat>| is_leveling(level, g.nodes.len(), g.edges);
    lemma_find_ready(g, level, v);
    let u = choose|u: int|
        0 <= u < g.nodes.len() && g.status(u) != ExecutionStatus::Executed && parents_executed(g, u);
    assert(g.nodes[u].status != ExecutionStatus::Executing);
    let s = successor(g.status(u))->Some_0;
    let g2 = g.with_status(u, s);
    assert(g2.status(u) == s);
    assert(g2 =~= g.with_status(u, g2.status(u)));
    assert(valid_step(g, g2, u));
}

} // verus!

verus! {

/// A newly built graph keeps every node whose parents have not all been
/// executed `NonExecutable`.
pub proof fn lemma_built_ready(
    ids: Seq<Seq<char>>,
    nodes: Seq<NodeView>,
    es: Seq<(Seq<char>, Seq<char>)>,
)
    requires
        edges_in_range(built(ids, nodes, es).nodes.len(), built(ids, nodes, es).edges),
    ensures
        initial_state(built(ids, nodes, es)),
        ready_invariant(built(ids, nodes, es)),
{
    let g = built(ids, nodes, es);
    assert(initial_state(g));
    lemma_initial_ready(g);
}

/// The standing of a node's parents when a sweep looks at it.
#[derive(Clone, Copy, Debug, PartialEq, Eq, Structural)]
pub enum ParentState {
    /// Every parent has been executed.
    AllExecuted,
    /// Every parent has been executed or is running, and some is running.
    SomeRunning,
    /// Some parent has not started.
    NotReady,
}

/// The standing of the parents of node `c` in `g`.
pub open spec fn parent_state(g: GraphView, c: int) -> ParentState {
    if parents_executed(g, c) {
        ParentState::AllExecuted
    } else if parents_started(g, c) {
        ParentState::SomeRunning
    } else {
        ParentState::NotReady
    }
}

/// The standing of the parents of node `c`.
pub fn classify_parents(g: &DirectedAcyclicGraph, c: usize) -> (r: ParentState)
    ensures
        r == parent_state(g@, c as int),
{
    let es = g.edges();
    let n = g.node_count();
    let mut all_executed = true;
    let mut k: usize = 0;
    while k < es.len()
        invariant
            es@ == g@.edges,
            n == g@.nodes.len(),
            k <= es@.len(),
            parents_started(GraphView { nodes: g@.nodes, edges: g@.edges.take(k as int) }, c as int),
            all_executed == parents_executed(
                GraphView { nodes: g@.nodes, edges: g@.edges.take(k as int) },
                c as int,
            ),
        decreases es@.len() - k,
    {
        let ghost h = GraphView { nodes: g@.nodes, edges: g@.edges.take(k as int) };
        let ghost h2 = GraphView { nodes: g@.nodes, edges: g@.edges.take(k + 1) };
        let (p, ch) = es[k];
        assert forall|j: int| 0 <= j < k implies #[trigger] h2.edges[j] == h.edges[j] by {}
        assert(h2.edges[k as int] == (p, ch));
        if ch == c {
            if p >= n {
                assert(!parents_started(g@, c as int)) by {
                    assert(g@.edges[k as int] == (p, ch));
                }
                return ParentState::NotReady;
            }
            let st = g.status(p);
            if st == ExecutionStatus::Executing {
                all_executed = false;
            } else if st != ExecutionStatus::Executed {
                assert(!parents_started(g@, c as int)) by {
                    assert(g@.edges[k as int] == (p, ch));
                }
                return ParentState::NotReady;
            }
        }
        assert(all_executed == parents_executed(h2, c as int)) by {
            if all_executed && !parents_executed(h2, c as int) {
                let j = choose|j: int|
                    0 <= j < h2.edges.len() && (#[trigger] h2.edges[j]).1 == c && !(h2.edges[j].0
                        < h2.nodes.len() && h2.status(h2.edges[j].0 as int) == ExecutionStatus::Executed);
                if j < k {
                    assert(h.edges[j] == h2.edges[j]);
                }
            }
            if !all_executed && ch != c {
                let j = choose|j: int|
                    0 <= j < h.edges.len() && (#[trigger] h.edges[j]).1 == c && !(h.edges[j].0
                        < h.nodes.len() && h.status(h.edges[j].0 as int) == ExecutionStatus::Executed);
                assert(h2.edges[j] == h.edges[j]);
            }
            if !all_executed && ch == c {
                assert(h2.edges[k as int].1 == c);
            }
        }
        k += 1;
    }
    assert(g@.edges.take(k as int) =~= g@.edges);
    if all_executed {
        ParentState::AllExecuted
    } else {
        ParentState::SomeRunning
    }
}

} // verus!

verus! {

/// Relies on `rand::random_range`: a number drawn from `low..high`.
#[verifier::external_body]
fn random_millis(low: u64, high: u64) -> (r: u64)
    requires
        low < high,
    ensures
        low <= r < high,
{
    rand::random_range(low..high)
}

/// Something a worker asks its surroundings to do; each is answered with an `Event`.
#[derive(Debug)]
pub enum Action {
    /// Read the shared graph; answer with `Event::Snapshot`.
    Read,
    /// Replace the shared graph by `desired` if it equals `expected`; answer
    /// with `Event::Swapped`, holding the graph found when it differed.
    CompareAndSwap { expected: DirectedAcyclicGraph, desired: DirectedAcyclicGraph },
    /// Run the computation of node `node` on its payload; answer with `Event::Ran`.
    Run { node: usize, args: String },
    /// Wait; answer with `Event::Woke`.
    Sleep { millis: u64 },
    /// Every node has been executed: the worker is done.
    Finish,
    /// The worker stops with an error.
    Fail(SchedulerError),
}

/// The answer to a worker's last `Action`.
#[derive(Debug)]
pub enum Event {
    /// The worker begins.
    Start,
    /// The shared graph, as read.
    Snapshot(DirectedAcyclicGraph),
    /// `None` when the swap was made; otherwise the shared graph found.
    Swapped(Option<DirectedAcyclicGraph>),
    /// The node's computation has finished.
    Ran,
    /// The wait is over.
    Woke,
}

/// Where a worker stands.
#[derive(Debug)]
pub enum Phase {
    /// Not started.
    Idle,
    /// Waiting for a snapshot to pick a node from.
    Observing,
    /// Waiting to learn whether its claim on `node` went through.
    Claiming { node: usize, desired: DirectedAcyclicGraph },
    /// Running `node`, which it holds in `graph`.
    Running { node: usize, graph: DirectedAcyclicGraph },
    /// Waiting to learn whether `node` was recorded as executed.
    Committing { node: usize, desired: DirectedAcyclicGraph },
    /// Waiting for a snapshot to look at the first child in `queue`.
    Sweeping { queue: Vec<usize> },
    /// Waiting to learn whether `child` was made executable.
    Proposing { child: usize, queue: Vec<usize> },
    /// Waiting out a pause.
    Sleeping,
    /// Every node has been executed.
    Finished,
    /// Stopped with an error.
    Failed,
}

/// One worker's side of running the shared graph.
#[derive(Debug)]
pub struct Worker {
    phase: Phase,
}

use crate::error::SchedulerError;

impl Worker {
    /// The worker's phase.
    pub closed spec fn phase_of(&self) -> &Phase {
        &self.phase
    }

    /// A node held by the worker is in range and has the status the phase implies.
    pub open spec fn wf(&self) -> bool {
        match self.phase_of() {
            Phase::Claiming { node, desired } => *node < desired@.nodes.len() && desired@.status(
                *node as int,
            ) == ExecutionStatus::Executing,
            Phase::Running { node, graph } => *node < graph@.nodes.len() && graph@.status(*node as int)
                == ExecutionStatus::Executing,
            Phase::Committing { node, desired } => *node < desired@.nodes.len() && desired@.status(
                *node as int,
            ) == ExecutionStatus::Executed,
            _ => true,
        }
    }

    /// A worker that has not started.
    pub fn new() -> (r: Worker)
        ensures
            r.wf(),
            r.phase_of() is Idle,
    {
        Worker { phase: Phase::Idle }
    }

    /// Is the worker done, one way or the other?
    pub fn is_done(&self) -> (r: bool)
        ensures
            r == (self.phase_of() is Finished || self.phase_of() is Failed),
    {
        match self.phase {
            Phase::Finished | Phase::Failed => true,
            _ => false,
        }
    }
}

/// Node `n` is the first with status `Executable`.
pub open spec fn first_executable(g: GraphView, n: int) -> bool {
    &&& 0 <= n < g.nodes.len()
    &&& g.status(n) == ExecutionStatus::Executable
    &&& forall|j: int| 0 <= j < n ==> g.status(j) != ExecutionStatus::Executable
}

/// No node has status `Executable`.
pub open spec fn none_executable(g: GraphView) -> bool {
    forall|j: int| 0 <= j < g.nodes.len() ==> g.status(j) != ExecutionStatus::Executable
}

/// The worker stops on an event that does not fit its phase.
pub open spec fn fails_unexpected(p: Phase, a: Action) -> bool {
    p is Failed && a is Fail && a->Fail_0 == SchedulerError::UnexpectedEvent
}

/// On snapshot `g`: claim its first executable node, finish when every node
/// is executed, or else pause for 10 to 99 milliseconds.
pub open spec fn claim_decision(g: GraphView, p: Phase, a: Action) -> bool {
    if none_executable(g) {
        if g.executed() {
            p is Finished && a is Finish
        } else {
            p is Sleeping && a is Sleep && 10 <= a->millis < 100
        }
    } else {
        &&& p is Claiming
        &&& first_executable(g, p->Claiming_node as int)
        &&& a is CompareAndSwap
        &&& a->expected@ == g
        &&& a->desired@ == g.with_status(p->Claiming_node as int, ExecutionStatus::Executing)
        &&& p->Claiming_desired@ == a->desired@
    }
}

/// Go on with the children in `q`, or look for the next node to claim.
pub open spec fn sweep_continues(q: Seq<usize>, p: Phase, a: Action) -> bool {
    &&& a is Read
    &&& if q.len() == 0 {
        p is Observing
    } else {
        p is Sweeping && p->Sweeping_queue@ == q
    }
}

/// On snapshot `g`, look at the first child in `q`: propose it as executable
/// when all its parents are executed and it is still `NonExecutable`, look at
/// it again later while some parent is running, and drop it otherwise.
pub open spec fn sweep_decision(q: Seq<usize>, g: GraphView, p: Phase, a: Action) -> bool {
    if q.len() == 0 {
        p is Observing && a is Read
    } else {
        let c = q[0];
        let rest = q.drop_first();
        if c >= g.nodes.len() {
            sweep_continues(rest, p, a)
        } else {
            match parent_state(g, c as int) {
                ParentState::AllExecuted => if g.status(c as int) == ExecutionStatus::NonExecutable {
                    &&& p is Proposing
                    &&& p->Proposing_child == c
                    &&& p->Proposing_queue@ == rest
                    &&& a is CompareAndSwap
                    &&& a->expected@ == g
                    &&& a->desired@ == g.with_status(c as int, ExecutionStatus::Executable)
                } else {
                    sweep_continues(rest, p, a)
                },
                ParentState::SomeRunning => sweep_continues(rest.push(c), p, a),
                ParentState::NotReady => sweep_continues(rest, p, a),
            }
        }
    }
}

/// Recording node `n` as executed met `cur`: try again while `cur` still
/// shows `n` running, and stop with `ForeignMutation` otherwise.
pub open spec fn retry_decision(n: usize, cur: GraphView, p: Phase, a: Action) -> bool {
    if n >= cur.nodes.len() {
        fails_unexpected(p, a)
    } else if cur.status(n as int) == ExecutionStatus::Executing {
        &&& p is Committing
        &&& p->Committing_node == n
        &&& a is CompareAndSwap
        &&& a->expected@ == cur
        &&& a->desired@ == cur.with_status(n as int, ExecutionStatus::Executed)
        &&& p->Committing_desired@ == a->desired@
    } else {
        p is Failed && a is Fail && a->Fail_0 == SchedulerError::ForeignMutation {
            node: n,
            observed: cur.status(n as int),
        }
    }
}

/// The phase `p` and action `a` that follow phase `old` on event `e`.
pub open spec fn next_decision(old: Phase, e: Event, p: Phase, a: Action) -> bool {
    match old {
        Phase::Idle => if e is Start {
            p is Observing && a is Read
        } else {
            fails_unexpected(p, a)
        },
        Phase::Observing => if e is Snapshot {
            claim_decision(e->Snapshot_0@, p, a)
        } else {
            fails_unexpected(p, a)
        },
        Phase::Sleeping => if e is Woke {
            p is Observing && a is Read
        } else {
            fails_unexpected(p, a)
        },
        Phase::Claiming { node, desired } => if e is Swapped {
            if e->Swapped_0 is None {
                &&& p is Running
                &&& p->Running_node == node
                &&& p->Running_graph@ == desired@
                &&& a is Run
                &&& a->node == node
                &&& a->args@ == desired@.nodes[node as int].args
            } else {
                claim_decision(e->Swapped_0->Some_0@, p, a)
            }
        } else {
            fails_unexpected(p, a)
        },
        Phase::Running { node, graph } => if e is Ran {
            &&& p is Committing
            &&& p->Committing_node == node
            &&& a is CompareAndSwap
            &&& a->expected@ == graph@
            &&& a->desired@ == graph@.with_status(node as int, ExecutionStatus::Executed)
            &&& p->Committing_desired@ == a->desired@
        } else {
            fails_unexpected(p, a)
        },
        Phase::Committing { node, desired } => if e is Swapped {
            if e->Swapped_0 is None {
                sweep_continues(crate::graph::children_from(desired@.edges, node), p, a)
            } else {
                retry_decision(node, e->Swapped_0->Some_0@, p, a)
            }
        } else {
            fails_unexpected(p, a)
        },
        Phase::Sweeping { queue } => if e is Snapshot {
            sweep_decision(queue@, e->Snapshot_0@, p, a)
        } else {
            fails_unexpected(p, a)
        },
        Phase::Proposing { child, queue } => if e is Swapped {
            let again = e->Swapped_0 is Some && child < e->Swapped_0->Some_0@.nodes.len()
                && e->Swapped_0->Some_0@.status(child as int) == ExecutionStatus::NonExecutable;
            sweep_continues(
                if again {
                    queue@.push(child)
                } else {
                    queue@
                },
                p,
                a,
            )
        } else {
            fails_unexpected(p, a)
        },
        Phase::Finished => p is Finished && a is Finish,
        Phase::Failed => fails_unexpected(p, a),
    }
}

/// Claim the first executable node of `g`, or finish, or pause.
fn decide_claim(g: DirectedAcyclicGraph) -> (r: (Phase, Action))
    ensures
        (Worker { phase: r.0 }).wf(),
        claim_decision(g@, r.0, r.1),
        r.1 is CompareAndSwap ==> valid_transition(r.1->expected@, r.1->desired@),
{
    match g.get_executable_node_index() {
        Some(n) => {
            let desired = g.with_status(n, ExecutionStatus::Executing);
            let keep = desired.duplicate();
            assert(desired@ =~= g@.with_status(n as int, desired@.status(n as int)));
            assert(valid_step(g@, desired@, n as int));
            (Phase::Claiming { node: n, desired: keep }, Action::CompareAndSwap { expected: g, desired })
        },
        None => {
            if g.is_graph_executed() {
                (Phase::Finished, Action::Finish)
            } else {
                (Phase::Sleeping, Action::Sleep { millis: random_millis(10, 100) })
            }
        },
    }
}

/// Go on with the children still in `queue`, or look for the next node to claim.
fn continue_sweep(queue: Vec<usize>) -> (r: (Phase, Action))
    ensures
        sweep_continues(queue@, r.0, r.1),
{
    if queue.len() == 0 {
        (Phase::Observing, Action::Read)
    } else {
        (Phase::Sweeping { queue }, Action::Read)
    }
}

/// `v` without its first element.
fn rest_of(v: &Vec<usize>) -> (r: Vec<usize>)
    requires
        v@.len() > 0,
    ensures
        r@ == v@.drop_first(),
{
    let mut r: Vec<usize> = Vec::new();
    let mut i: usize = 1;
    while i < v.len()
        invariant
            1 <= i <= v@.len(),
            r@ == v@.subrange(1, i as int),
        decreases v@.len() - i,
    {
        r.push(v[i]);
        i += 1;
        assert(r@ =~= v@.subrange(1, i as int));
    }
    assert(r@ =~= v@.drop_first());
    r
}

} // verus!

verus! {

impl Worker {
    /// Takes the answer to the last action and decides the next one.
    ///
    /// A compare-and-swap always asks for one valid step from the graph it
    /// expects; a node is run only after this worker's claim on it went
    /// through; a node is recorded as executed only while the shared graph
    /// still shows it running, and a failure to do so is `ForeignMutation`.
    pub fn step(self, event: Event) -> (res: (Worker, Action))
        requires
            self.wf(),
        ensures
            res.0.wf(),
            next_decision(*self.phase_of(), event, *res.0.phase_of(), res.1),
            res.1 is CompareAndSwap ==> valid_transition(res.1->expected@, res.1->desired@),
    {
        let phase = self.phase;
        let (next, action) = match (phase, event) {
            (Phase::Idle, Event::Start) => (Phase::Observing, Action::Read),
            (Phase::Observing, Event::Snapshot(g)) => decide_claim(g),
            (Phase::Sleeping, Event::Woke) => (Phase::Observing, Action::Read),
            (Phase::Claiming { node, desired }, Event::Swapped(None)) => {
                let args = desired.node(node).args.clone();
                (Phase::Running { node, graph: desired }, Action::Run { node, args })
            },
            (Phase::Claiming { .. }, Event::Swapped(Some(cur))) => decide_claim(cur),
            (Phase::Running { node, graph }, Event::Ran) => {
                let desired = graph.with_status(node, ExecutionStatus::Executed);
                let keep = desired.duplicate();
                assert(desired@ =~= graph@.with_status(node as int, desired@.status(node as int)));
                assert(valid_step(graph@, desired@, node as int));
                (
                    Phase::Committing { node, desired: keep },
                    Action::CompareAndSwap { expected: graph, desired },
                )
            },
            (Phase::Committing { node, desired }, Event::Swapped(None)) => {
                let queue = desired.get_child_node_indices(node);
                continue_sweep(queue)
            },
            (Phase::Committing { node, .. }, Event::Swapped(Some(cur))) => {
                if node >= cur.node_count() {
                    (Phase::Failed, Action::Fail(SchedulerError::UnexpectedEvent))
                } else {
                    let observed = cur.status(node);
                    if observed == ExecutionStatus::Executing {
                        let desired = cur.with_status(node, ExecutionStatus::Executed);
                        let keep = desired.duplicate();
                        assert(desired@ =~= cur@.with_status(node as int, desired@.status(node as int)));
                        assert(valid_step(cur@, desired@, node as int));
                        (
                            Phase::Committing { node, desired: keep },
                            Action::CompareAndSwap { expected: cur, desired },
                        )
                    } else {
                        (
                            Phase::Failed,
                            Action::Fail(SchedulerError::ForeignMutation { node, observed }),
                        )
                    }
                }
            },
            (Phase::Sweeping { queue }, Event::Snapshot(g)) => {
                if queue.len() == 0 {
                    (Phase::Observing, Action::Read)
                } else {
                    let c = queue[0];
                    let mut rest = rest_of(&queue);
                    if c >= g.node_count() {
                        continue_sweep(rest)
                    } else {
                        match classify_parents(&g, c) {
                            ParentState::AllExecuted => {
                                if g.status(c) == ExecutionStatus::NonExecutable {
                                    let desired = g.with_status(c, ExecutionStatus::Executable);
                                    assert(desired@ =~= g@.with_status(c as int, desired@.status(c as int)));
                                    assert(valid_step(g@, desired@, c as int));
                                    (
                                        Phase::Proposing { child: c, queue: rest },
                                        Action::CompareAndSwap { expected: g, desired },
                                    )
                                } else {
                                    continue_sweep(rest)
                                }
                            },
                            ParentState::SomeRunning => {
                                rest.push(c);
                                continue_sweep(rest)
                            },
                            ParentState::NotReady => continue_sweep(rest),
                        }
                    }
                }
            },
            (Phase::Proposing { child, mut queue }, Event::Swapped(found)) => {
                match found {
                    Some(cur) => {
                        if child < cur.node_count() && cur.status(child) == ExecutionStatus::NonExecutable {
                            queue.push(child);
                        }
                    },
                    None => {},
                }
                continue_sweep(queue)
            },
            (Phase::Finished, _) => (Phase::Finished, Action::Finish),
            _ => (Phase::Failed, Action::Fail(SchedulerError::UnexpectedEvent)),
        };
        (Worker { phase: next }, action)
    }
}

} // verus!
