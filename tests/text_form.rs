use dag::edge::Edge;
use dag::error::{GraphError, ParseError};
use dag::graph::DirectedAcyclicGraph;
use dag::node::Node;
use dag::status::ExecutionStatus;
use std::collections::BTreeMap;
use std::str::FromStr;

fn named(pairs: &[(&str, &str)]) -> Vec<(String, Node)> {
    pairs.iter().map(|(id, p)| (id.to_string(), Node::new(p.to_string()))).collect()
}

fn edges(pairs: &[(&str, &str)]) -> Vec<Edge> {
    pairs.iter().map(|(p, c)| Edge::new(p.to_string(), c.to_string())).collect()
}

#[test]
fn dag_compare_equality_new_from_str_from_bytes() {
    let graph_new = DirectedAcyclicGraph::new(
        BTreeMap::from([
            (String::from("0"), Node::new(String::from("Node 0 was just executed"))),
            (String::from("1"), Node::new(String::from("Node 1 was just executed"))),
            (String::from("2"), Node::new(String::from("Node 2 was just executed"))),
            (String::from("3"), Node::new(String::from("Node 3 was just executed"))),
        ])
        .into_iter()
        .collect(),
        vec![
            Edge::new(String::from("0"), String::from("1")),
            Edge::new(String::from("2"), String::from("3")),
            Edge::new(String::from("1"), String::from("3")),
        ],
    )
    .unwrap();

    let graph_from_str = DirectedAcyclicGraph::from_str(&graph_new.to_string()).unwrap();
    let graph_from_bytes = DirectedAcyclicGraph::deserialize(&graph_new.serialize()).unwrap();

    assert!(graph_new == graph_from_str, "`DAG::new()` and `DAG::from_str()` initializations are not equal.");
    assert!(graph_new == graph_from_bytes, "`DAG::new()` and `DAG::from_bytes()` initializations are not equal.");
    assert!(graph_from_str == graph_from_bytes, "`DAG::from_str()` and `DAG::from_bytes()` initializations are not equal.");
}

#[test]
fn printed_form_is_exact() {
    let g = DirectedAcyclicGraph::new(named(&[("0", "x"), ("1", "y")]), edges(&[("0", "1")])).unwrap();
    assert_eq!(
        g.to_string(),
        "digraph {\n    0 [ label = \"Struct Node, Node.args: x, Node.execution_status: Executable\" ]\n    1 [ label = \"Struct Node, Node.args: y, Node.execution_status: NonExecutable\" ]\n    0 -> 1 [ ]\n}\n"
    );
}

#[test]
fn print_then_parse_seven_nodes() {
    let g = DirectedAcyclicGraph::new(
        named(&[("0", "a"), ("1", "b"), ("2", "c"), ("3", "d"), ("4", "e"), ("5", "f"), ("6", "g")]),
        edges(&[("0", "1"), ("1", "3"), ("4", "3"), ("2", "4"), ("6", "3"), ("5", "4"), ("5", "6")]),
    )
    .unwrap();
    let back = DirectedAcyclicGraph::from_str(&g.to_string()).unwrap();
    assert!(g == back);
}

#[test]
fn print_then_parse_twelve_nodes_keeps_order() {
    let ids: Vec<String> = (0..12).map(|i| i.to_string()).collect();
    let pairs: Vec<(String, Node)> = ids.iter().map(|i| (i.clone(), Node::new(format!("p{}", i)))).collect();
    let g = DirectedAcyclicGraph::new(pairs, vec![Edge::new("10".to_string(), "11".to_string())]).unwrap();
    let back = DirectedAcyclicGraph::from_str(&g.to_string()).unwrap();
    assert!(g == back);
    assert_eq!(back.get_parent_node_indices(11), vec![10]);
}

#[test]
fn compact_chain_form() {
    let g = DirectedAcyclicGraph::from_str("digraph {\n    a -> b -> c;\n}\n").unwrap();
    assert_eq!(g.node_count(), 3);
    assert_eq!(g.node(0).args, "a");
    assert_eq!(g.node(1).args, "b");
    assert_eq!(g.node(2).args, "c");
    assert_eq!(g.edges().clone(), vec![(0usize, 1usize), (1, 2)]);
    assert_eq!(g.node(0).execution_status, ExecutionStatus::Executable);
    assert_eq!(g.node(2).execution_status, ExecutionStatus::NonExecutable);
}

#[test]
fn typical_compact_digraph() {
    let g = DirectedAcyclicGraph::from_str("digraph {\n    a -> b -> c;\n    b -> d;\n}").unwrap();
    let expected = DirectedAcyclicGraph::new(
        named(&[("a", "a"), ("b", "b"), ("c", "c"), ("d", "d")]),
        edges(&[("a", "b"), ("b", "c"), ("b", "d")]),
    )
    .unwrap();
    assert!(g == expected);
}

#[test]
fn text_without_digraph_header_is_rejected() {
    assert_eq!(
        DirectedAcyclicGraph::from_str("graph { 0 -> 1 [ ] }").unwrap_err(),
        GraphError::Parse(ParseError::MissingHeader)
    );
    assert_eq!(DirectedAcyclicGraph::from_str("").unwrap_err(), GraphError::Parse(ParseError::MissingHeader));
}

#[test]
fn parentless_node_starts_executable() {
    let mut done = Node::new("x".to_string());
    done.execution_status = ExecutionStatus::Executed;
    let mut child = Node::new("y".to_string());
    child.execution_status = ExecutionStatus::Executing;
    let g = DirectedAcyclicGraph::new(
        vec![("0".to_string(), done), ("1".to_string(), child)],
        edges(&[("0", "1")]),
    )
    .unwrap();
    assert_eq!(g.node(0).execution_status, ExecutionStatus::Executable);
    assert_eq!(g.node(1).execution_status, ExecutionStatus::NonExecutable);
}

#[test]
fn repeated_identifier_keeps_last_node() {
    let g = DirectedAcyclicGraph::new(named(&[("a", "first"), ("b", "other"), ("a", "last")]), edges(&[("a", "b")]))
        .unwrap();
    assert_eq!(g.node_count(), 2);
    assert_eq!(g.node(0).args, "last");
    assert_eq!(g.edges().clone(), vec![(0usize, 1usize)]);
}

#[test]
fn cycle_error_names_a_node_on_the_cycle() {
    let err = DirectedAcyclicGraph::new(
        named(&[("r", "r"), ("a", "a"), ("b", "b")]),
        edges(&[("r", "a"), ("a", "b"), ("b", "a")]),
    )
    .unwrap_err();
    assert!(err == GraphError::CyclicGraph(1) || err == GraphError::CyclicGraph(2));
}

#[test]
fn invalid_status_in_label_is_rejected() {
    let text = "digraph {\n    0 [ label = \"Struct Node, Node.args: x, Node.execution_status: Done\" ]\n}\n";
    assert_eq!(
        DirectedAcyclicGraph::from_str(text).unwrap_err(),
        GraphError::Parse(ParseError::InvalidStatus)
    );
    assert_eq!(ExecutionStatus::from_str("Done").unwrap_err(), ParseError::InvalidStatus);
}

#[test]
fn edge_without_child_is_rejected() {
    assert_eq!(Edge::from_str("0 [ ]").unwrap_err(), ParseError::MissingEdgeChild);
}

#[test]
fn node_label_reads_payload_and_status() {
    let n = Node::from_str("Struct Node, Node.args: hello world, Node.execution_status: Executing").unwrap();
    assert_eq!(n.args, "hello world");
    assert_eq!(n.execution_status, ExecutionStatus::Executing);
    assert_eq!(n.to_string(), "Struct Node, Node.args: hello world, Node.execution_status: Executing");
}

#[test]
fn cyclic_text_fails() {
    let err = DirectedAcyclicGraph::from_str("digraph {\n a -> b -> a;\n}").unwrap_err();
    assert!(matches!(err, GraphError::CyclicGraph(_)));
}

#[test]
fn unknown_edge_endpoints_are_dropped() {
    let g = DirectedAcyclicGraph::new(named(&[("0", "x")]), edges(&[("0", "9")])).unwrap();
    assert_eq!(g.edges().len(), 0);
    assert_eq!(g.node(0).execution_status, ExecutionStatus::Executable);
}

#[test]
fn empty_edge_set_all_executable() {
    let g = DirectedAcyclicGraph::new(named(&[("0", "x"), ("1", "y")]), vec![]).unwrap();
    assert_eq!(g.get_executable_node_indices(), vec![0, 1]);
    assert!(!g.is_graph_executed());
}

#[test]
fn serialized_bytes_are_exact() {
    let g = DirectedAcyclicGraph::new(named(&[("0", "é")]), vec![]).unwrap();
    let b = g.serialize();
    assert_eq!(b, vec![0, 0, 0, 0, 0, 0, 0, 1, 0, 0, 0, 0, 0, 0, 0, 0, 1, 0, 0, 0, 0, 0, 0, 0, 2, 0xc3, 0xa9]);
    assert!(DirectedAcyclicGraph::deserialize(&b).unwrap() == g);
    assert_eq!(DirectedAcyclicGraph::deserialize(&b[..b.len() - 1]).unwrap_err(), GraphError::MalformedBytes);
}

#[test]
fn deserialize_rejects_cyclic_bytes() {
    let mut b = vec![0, 0, 0, 0, 0, 0, 0, 1, 0, 0, 0, 0, 0, 0, 0, 1, 1, 0, 0, 0, 0, 0, 0, 0, 0];
    b.extend_from_slice(&[0, 0, 0, 0, 0, 0, 0, 0, 0, 0, 0, 0, 0, 0, 0, 0]);
    assert_eq!(DirectedAcyclicGraph::deserialize(&b).unwrap_err(), GraphError::MalformedBytes);
}
