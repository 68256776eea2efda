use dag::cells::{frame, payload_from_cells, plan_write, total_length, CellOp};
use dag::edge::Edge;
use dag::error::SchedulerError;
use dag::graph::DirectedAcyclicGraph;
use dag::node::Node;
use dag::schedule::{Action, Event, Worker};
use dag::status::ExecutionStatus;

fn graph(n: usize, es: &[(usize, usize)]) -> DirectedAcyclicGraph {
    let nodes = (0..n).map(|i| (i.to_string(), Node::new(format!("Node {} was just executed", i)))).collect();
    let edges = es.iter().map(|(p, c)| Edge::new(p.to_string(), c.to_string())).collect();
    DirectedAcyclicGraph::new(nodes, edges).unwrap()
}

/// Answers one action against an in-memory store; records runs.
fn answer(store: &mut DirectedAcyclicGraph, action: Action, runs: &mut Vec<usize>) -> Option<Event> {
    match action {
        Action::Read => Some(Event::Snapshot(store.clone())),
        Action::CompareAndSwap { expected, desired } => {
            if *store == expected {
                *store = desired;
                Some(Event::Swapped(None))
            } else {
                Some(Event::Swapped(Some(store.clone())))
            }
        }
        Action::Run { node, .. } => {
            runs.push(node);
            Some(Event::Ran)
        }
        Action::Sleep { millis } => {
            assert!((10..100).contains(&millis));
            Some(Event::Woke)
        }
        Action::Finish => None,
        Action::Fail(e) => panic!("worker failed: {:?}", e),
    }
}

#[test]
fn dag_method_execute_nodes_one_process() {
    let mut store = graph(4, &[(0, 1), (2, 3), (1, 3)]);
    assert_eq!(store.get_executable_node_indices(), vec![0, 2]);
    let mut runs = vec![];
    let mut w = Worker::new();
    let mut ev = Event::Start;
    for _ in 0..1000 {
        let (next, action) = w.step(ev);
        w = next;
        match answer(&mut store, action, &mut runs) {
            Some(e) => ev = e,
            None => break,
        }
    }
    assert!(store.is_graph_executed(), "`shm.execute_graph()` method does not execute all `Node`s.");
    assert_eq!(runs.len(), 4);
    assert_eq!(*runs.last().unwrap(), 3);
}

#[test]
fn two_workers_share_seven_nodes() {
    let mut store = graph(7, &[(0, 1), (1, 3), (4, 3), (2, 4), (6, 3), (5, 4), (5, 6)]);
    let mut runs = vec![];
    let mut workers = vec![(Worker::new(), Some(Event::Start)), (Worker::new(), Some(Event::Start))];
    for round in 0..10000 {
        let k = round % 2;
        if let Some(ev) = workers[k].1.take() {
            let w = std::mem::replace(&mut workers[k].0, Worker::new());
            let (next, action) = w.step(ev);
            workers[k].0 = next;
            workers[k].1 = answer(&mut store, action, &mut runs);
        }
        if workers[0].1.is_none() && workers[1].1.is_none() {
            break;
        }
    }
    assert!(store.is_graph_executed());
    let mut sorted = runs.clone();
    sorted.sort();
    assert_eq!(sorted, vec![0, 1, 2, 3, 4, 5, 6]);
}

#[test]
fn losing_claim_retries_with_observed_graph() {
    let mut store = graph(2, &[]);
    let (w1, a1) = Worker::new().step(Event::Start);
    let (w2, a2) = Worker::new().step(Event::Start);
    assert!(matches!(a1, Action::Read) && matches!(a2, Action::Read));
    let (w1, c1) = w1.step(Event::Snapshot(store.clone()));
    let (w2, c2) = w2.step(Event::Snapshot(store.clone()));
    let mut runs = vec![];
    let r1 = answer(&mut store, c1, &mut runs).unwrap();
    let r2 = answer(&mut store, c2, &mut runs).unwrap();
    assert!(matches!(r1, Event::Swapped(None)));
    match &r2 {
        Event::Swapped(Some(g)) => assert_eq!(g.status(0), ExecutionStatus::Executing),
        _ => panic!("second claim should lose"),
    }
    let (_, a1) = w1.step(r1);
    assert!(matches!(a1, Action::Run { node: 0, .. }));
    let (_, a2) = w2.step(r2);
    match a2 {
        Action::CompareAndSwap { desired, .. } => assert_eq!(desired.status(1), ExecutionStatus::Executing),
        _ => panic!("loser should claim the other node"),
    }
}

#[test]
fn foreign_mutation_is_reported() {
    let store = graph(1, &[]);
    let (w, _) = Worker::new().step(Event::Start);
    let (w, _) = w.step(Event::Snapshot(store.clone()));
    let (w, _) = w.step(Event::Swapped(None));
    let (w, commit) = w.step(Event::Ran);
    assert!(matches!(commit, Action::CompareAndSwap { .. }));
    let (_, a) = w.step(Event::Swapped(Some(store.with_status(0, ExecutionStatus::Executed))));
    match a {
        Action::Fail(SchedulerError::ForeignMutation { node, observed }) => {
            assert_eq!(node, 0);
            assert_eq!(observed, ExecutionStatus::Executed);
        }
        _ => panic!("expected a foreign mutation"),
    }
}

#[test]
fn unexpected_event_fails() {
    let (_, a) = Worker::new().step(Event::Ran);
    assert!(matches!(a, Action::Fail(SchedulerError::UnexpectedEvent)));
}

#[test]
fn waiting_worker_sleeps_in_range() {
    let store = graph(2, &[(0, 1)]).with_status(0, ExecutionStatus::Executing);
    let (w, _) = Worker::new().step(Event::Start);
    let (w, a) = w.step(Event::Snapshot(store));
    match a {
        Action::Sleep { millis } => assert!((10..100).contains(&millis)),
        _ => panic!("expected a pause"),
    }
    let (_, a) = w.step(Event::Woke);
    assert!(matches!(a, Action::Read));
}

fn apply(cells: &mut Vec<u8>, ops: &[CellOp]) {
    for op in ops {
        match *op {
            CellOp::Store { index, byte } => cells[index] = byte,
            CellOp::Create { index, byte } => {
                assert_eq!(index, cells.len());
                cells.push(byte)
            }
            CellOp::Release { index } => {
                assert_eq!(index, cells.len() - 1);
                cells.pop();
            }
        }
    }
}

#[test]
fn shrinking_write_releases_cells() {
    let mut cells = vec![];
    let big = frame(&vec![7u8; 200]);
    apply(&mut cells, &plan_write(0, &big));
    assert_eq!(cells.len(), 208);
    let small = frame(&vec![9u8; 30]);
    let ops = plan_write(cells.len(), &small);
    assert_eq!(ops.iter().filter(|o| matches!(o, CellOp::Release { .. })).count(), 170);
    apply(&mut cells, &ops);
    assert_eq!(cells.len(), 38);
    assert_eq!(total_length(&cells), Some(38));
    assert_eq!(payload_from_cells(&cells), Some(vec![9u8; 30]));
}

#[test]
fn growing_write_creates_cells() {
    let mut cells = frame(&[1, 2]);
    let ops = plan_write(cells.len(), &frame(&[3, 4, 5]));
    assert_eq!(ops.iter().filter(|o| matches!(o, CellOp::Create { .. })).count(), 1);
    apply(&mut cells, &ops);
    assert_eq!(payload_from_cells(&cells), Some(vec![3, 4, 5]));
}

#[test]
fn stale_cells_beyond_length_are_ignored() {
    let mut cells = frame(&[5, 6]);
    cells.extend_from_slice(&[1, 1, 1]);
    assert_eq!(payload_from_cells(&cells), Some(vec![5, 6]));
    assert_eq!(payload_from_cells(&[0, 0, 0]), None);
}
