use dag::edge::Edge;
use dag::graph::DirectedAcyclicGraph;
use dag::node::Node;
use dag::status::ExecutionStatus;
use std::collections::BTreeMap;
use std::str::FromStr;

fn diamond() -> DirectedAcyclicGraph {
    DirectedAcyclicGraph::new(
        BTreeMap::from([
            (String::from("0"), Node::new(String::from("Node 0 was just executed"))),
            (String::from("1"), Node::new(String::from("Node 1 was just executed"))),
            (String::from("2"), Node::new(String::from("Node 2 was just executed"))),
            (String::from("3"), Node::new(String::from("Node 3 was just executed"))),
        ])
        .into_iter()
        .collect(),
        vec![
            Edge::new(String::from("0"), String::from("1")),
            Edge::new(String::from("2"), String::from("3")),
            Edge::new(String::from("1"), String::from("3")),
        ],
    )
    .unwrap()
}

#[test]
fn edge_compare_equality_from_str_direct_new() {
    let edge_from_str = Edge::from_str("0 -> 1 [ ]").unwrap();
    let edge_direct = Edge { parent: String::from("0"), child: String::from("1") };
    let edge_new = Edge::new(String::from("0"), String::from("1"));

    assert_eq!(
        edge_from_str, edge_direct,
        "`Edge::from_string()` and `Edge {{}}` initializations are not equal."
    );
    assert_eq!(
        edge_from_str, edge_new,
        "`Edge::from_string()` and `Edge::new()` initializations are not equal."
    );
    assert_eq!(edge_direct, edge_new, "`Edge {{}}` and `Edge::new()` initializations are not equal.");
}

#[test]
fn node_compare_equality_from_str_new_default() {
    let node_from_str = Node::from_str("Struct Node, Node.args: , Node.executed: Executable").unwrap();
    let node_new = Node::new(String::from(""));
    let node_default = Node::default();

    assert_eq!(
        node_from_str, node_new,
        "`Node::from_string()` and `Node::new()` initializations are not equal."
    );
    assert_eq!(
        node_from_str, node_default,
        "`Node::from_string()` and `Node::default()` initializations are not equal."
    );
    assert_eq!(node_new, node_default, "`Node::new()` and `Node::default()` initializations are not equal.");
}

#[test]
fn graph_structure_node_compare_equality_from_str_new_default() {
    let node_from_str = Node::from_str("Struct Node, Node.args: , Node.executed: Executable").unwrap();
    let node_new = Node::new(String::from(""));
    let node_default = Node::default();

    assert_eq!(node_from_str, node_new);
    assert_eq!(node_from_str, node_default);
    assert_eq!(node_new, node_default);
}

#[test]
fn node_method_execute() {
    let mut node_executed = Node::new(String::from(""));
    node_executed.execution_status = ExecutionStatus::Executed;
    let mut node_executing = Node::new(String::from(""));
    node_executing.execution_status = ExecutionStatus::Executing;
    let node_executable = Node::new(String::from(""));
    let mut node_non_executable = Node::new(String::from(""));
    node_non_executable.execution_status = ExecutionStatus::NonExecutable;

    let result_executed = node_executed.execute();
    let result_executing = node_executing.execute();
    let result_executable = node_executable.execute();
    let result_non_executable = node_non_executable.execute();

    assert_eq!(
        result_executed.unwrap_err().message(),
        String::from("Trying to execute node which has already been executed."),
        "Wrong/no error when trying to execute node which has `ExecutionStatus::Executed`."
    );
    assert_eq!(
        result_executing.unwrap(),
        (),
        "Unsuccessful when trying to execute node which has `ExecutionStatus::Executing`."
    );
    assert_eq!(
        result_executable.unwrap_err().message(),
        String::from("Trying to execute node which is not yet set for execution."),
        "Wrong/no error when trying to execute node which has `ExecutionStatus::Executable`."
    );
    assert_eq!(
        result_non_executable.unwrap_err().message(),
        String::from("Trying to execute node which is not executable."),
        "Wrong/no error when trying to execute node which has `ExecutionStatus::NonExecutable`."
    );
}

#[test]
fn execution_status_compare_equality_from_str_direct() {
    let execution_status_from_str = ExecutionStatus::from_str("Executed").unwrap();
    let execution_status_direct = ExecutionStatus::Executed;

    assert_eq!(
        execution_status_from_str, execution_status_direct,
        "`ExecutionStatus::from_string()` and `ExecutionStatus::Executed` initializations are not equal."
    );
}

#[test]
fn graph_structure_execution_status_compare_equality_from_str_direct() {
    let execution_status_from_str = ExecutionStatus::from_str("Executed").unwrap();
    assert_eq!(execution_status_from_str, ExecutionStatus::Executed);
}

#[test]
fn dag_method_get_executable_node_indeces() {
    let graph = diamond();
    let executable_nodes_1 = graph.get_executable_node_indices();
    let executable_nodes_2 = vec![0usize, 2];
    assert_eq!(
        executable_nodes_1, executable_nodes_2,
        "`DAG.get_executable_node_indeces()` method does not return correct node indeces."
    );
}

#[test]
fn dag_fail_directed_cyclic_graph() {
    let err = DirectedAcyclicGraph::new(
        BTreeMap::from([
            (String::from("0"), Node::new(String::from("Node 0 was just executed"))),
            (String::from("1"), Node::new(String::from("Node 1 was just executed"))),
        ])
        .into_iter()
        .collect(),
        vec![
            Edge::new(String::from("0"), String::from("1")),
            Edge::new(String::from("1"), String::from("0")),
        ],
    )
    .unwrap_err();

    assert_eq!(
        err.message(),
        format!("Cyclic graph supplied on NodeIndex(1)"),
        "Cyclic graph is successfully created (it shouldn't be)."
    );
}

#[test]
fn dag_get_parent_child_node_indeces() {
    let graph = diamond();
    assert_eq!(graph.get_parent_node_indices(3), vec![1usize, 2], "Wrong parents of Node 3.");
    assert_eq!(graph.get_parent_node_indices(2), Vec::<usize>::new(), "Wrong parents of Node 2.");
    assert_eq!(graph.get_child_node_indices(2), vec![3usize], "Wrong children of Node 2.");
    assert_eq!(graph.get_child_node_indices(1), vec![3usize], "Wrong children of Node 1.");
}

#[test]
fn dag_serialize_deserialize() {
    let graph_new = DirectedAcyclicGraph::new(
        BTreeMap::from([
            (String::from("0"), Node::new(String::from("Node 0 was just executed"))),
            (String::from("1"), Node::new(String::from("Node 1 was just executed"))),
        ])
        .into_iter()
        .collect(),
        vec![Edge::new(String::from("0"), String::from("1"))],
    )
    .unwrap();

    let bytes = graph_new.serialize();
    let graph_from_bytes = DirectedAcyclicGraph::deserialize(&bytes).unwrap();
    assert!(graph_new == graph_from_bytes);
}
