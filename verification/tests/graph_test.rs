use dag_engine::Error::{
    CyclicGraphFound, DuplicatedEdge, DuplicatedNode, InvalidEdge, InvalidNode, NodeNotFound,
    RuntimeFailed, RuntimePanicked,
};
use dag_engine::Graph;

type TaskError = Box<dyn std::error::Error + Send>;

fn dummy_task(_: &()) -> Result<(), TaskError> {
    Ok(())
}

#[test]
fn normal() {
    let mut g = Graph::new();
    g.add_node("A", dummy_task).unwrap();
    g.add_node("B", dummy_task).unwrap();
    g.add_node("C", dummy_task).unwrap();
    g.add_edge("A", "B").unwrap();
    g.add_edge("A", "C").unwrap();
    g.add_edge("B", "C").unwrap();
    g.froze().unwrap();
}

#[test]
fn invalid_task() {
    let mut g = Graph::new();
    g.add_node("A", dummy_task).unwrap();
    g.add_node("B", dummy_task).unwrap();
    assert!(g.add_node("", dummy_task).is_err_and(
        |e| if let InvalidNode{name} = e { name == "" } else { false }
    ));
}

#[test]
fn duplicated_task() {
    let mut g = Graph::new();
    g.add_node("A", dummy_task).unwrap();
    g.add_node("B", dummy_task).unwrap();
    assert!(g.add_node("B", dummy_task).is_err_and(
        |e| if let DuplicatedNode{name} = e { name == "B" } else { false }
    ));
}

#[test]
fn invalid_edge() {
    let mut g = Graph::new();
    g.add_node("A", dummy_task).unwrap();
    g.add_node("B", dummy_task).unwrap();
    g.add_edge("A", "B").unwrap();
    assert!(g.add_edge("A", "A").is_err_and(
        |e| if let InvalidEdge{from_node, to_node} = e {
            from_node == "A" && to_node == "A" } else { false }
    ));
    assert!(g.add_edge("", "A").is_err_and(
        |e| if let InvalidEdge{from_node, to_node} = e {
            from_node == "" && to_node == "A" } else { false }
    ));
    assert!(g.add_edge("A", "").is_err_and(
        |e| if let InvalidEdge{from_node, to_node} = e {
            from_node == "A" && to_node == "" } else { false }
    ));
    assert!(g.add_edge("A", "C").is_err_and(
        |e| if let NodeNotFound{name} = e { name == "C" } else { false }
    ));
    assert!(g.add_edge("C", "A").is_err_and(
        |e| if let NodeNotFound{name} = e { name == "C" } else { false }
    ));
    assert!(g.add_edge("A", "B").is_err_and(
        |e| if let DuplicatedEdge{from_node, to_node} = e {
            from_node == "A" && to_node == "B" } else { false }
    ));
}

#[test]
fn cyclic_graph() {
    let mut g = Graph::new();
    g.add_node("A", dummy_task).unwrap();
    g.add_node("B", dummy_task).unwrap();
    g.add_edge("A", "B").unwrap();
    g.add_edge("B", "A").unwrap();
    assert!(g.froze().is_err_and(
        |e| if let CyclicGraphFound{ring} = e {
            ring == "[A, B]" } else { false }
    ));
    let mut g = Graph::new();
    g.add_node("A", dummy_task).unwrap();
    g.add_node("B", dummy_task).unwrap();
    g.add_node("C", dummy_task).unwrap();
    g.add_edge("A", "B").unwrap();
    g.add_edge("B", "C").unwrap();
    g.add_edge("C", "A").unwrap();
    assert!(g.froze().is_err_and(
        |e| if let CyclicGraphFound{ring} = e {
            ring == "[A, B, C]" } else { false }
    ));
}

#[test]
fn unchanged_after_failed_addition() {
    // a failed add_node or add_edge must leave the graph exactly as it was:
    // afterwards the same graph still compiles and runs the same way
    let mut g = Graph::new();
    g.add_node("A", dummy_task).unwrap();
    g.add_node("B", dummy_task).unwrap();
    g.add_edge("A", "B").unwrap();
    assert!(g.add_node("", dummy_task).is_err());
    assert!(g.add_node("A", dummy_task).is_err());
    assert!(g.add_edge("A", "B").is_err());
    assert!(g.add_edge("B", "B").is_err());
    assert!(g.add_edge("B", "X").is_err());
    let frozen = g.froze().unwrap();
    let s = dag_engine::Scheduler::new(frozen);
    assert_eq!(s.n_nodes(), 2);
    assert_eq!(s.root_index(), 2);
    assert_eq!(s.node_name(0), "A");
    assert_eq!(s.node_name(1), "B");
}

#[test]
fn three_node_ring_with_tail() {
    // the unresolved set lists every node that never reaches in-degree zero,
    // in insertion order: the cycle and everything downstream of it, but not
    // the independent node
    let mut g = Graph::new();
    g.add_node("X", dummy_task).unwrap();
    g.add_node("A", dummy_task).unwrap();
    g.add_node("B", dummy_task).unwrap();
    g.add_node("T", dummy_task).unwrap();
    g.add_edge("A", "B").unwrap();
    g.add_edge("B", "A").unwrap();
    g.add_edge("B", "T").unwrap();
    assert!(g.froze().is_err_and(
        |e| if let CyclicGraphFound{ring} = e {
            ring == "[A, B, T]" } else { false }
    ));
}

#[test]
fn error_messages() {
    let invalid: dag_engine::Error<(), ()> = InvalidNode { name: "".to_string() };
    assert_eq!(invalid.message(None), "invalid node: ");
    let dup: dag_engine::Error<(), ()> = DuplicatedNode { name: "B".to_string() };
    assert_eq!(dup.message(None), "duplicated node: B");
    let missing: dag_engine::Error<(), ()> = NodeNotFound { name: "C".to_string() };
    assert_eq!(missing.message(None), "node not found: C");
    let edge: dag_engine::Error<(), ()> =
        InvalidEdge { from_node: "A".to_string(), to_node: "A".to_string() };
    assert_eq!(edge.message(None), "invalid edge: A -> A");
    let dup_edge: dag_engine::Error<(), ()> =
        DuplicatedEdge { from_node: "A".to_string(), to_node: "B".to_string() };
    assert_eq!(dup_edge.message(None), "duplicated edge: A -> B");
    let ring: dag_engine::Error<(), ()> = CyclicGraphFound { ring: "[A, B]".to_string() };
    assert_eq!(ring.message(None), "found ring in graph: [A, B]");
    let failed: dag_engine::Error<String, ()> =
        RuntimeFailed { node: "C".to_string(), err: "boom".to_string() };
    assert_eq!(failed.message(Some("boom")), "run C failed: boom");
    let panicked: dag_engine::Error<(), String> =
        RuntimePanicked { node: "C1".to_string(), err: "C1".to_string() };
    assert_eq!(panicked.message(Some("C1")), "run C1 panic: C1");
    assert_eq!(panicked.message(None), "run C1 panic occurred");
}
