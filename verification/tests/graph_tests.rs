use carb::dependency_graph::{topological, DependencyGraph, GraphError, NodeIndex, TopologicalError};

#[test]
fn add_node_to_graph() {
    let mut graph = DependencyGraph::new();
    let data = 1;
    let id = graph.add_node(data);
    assert_eq!(&data, graph.get(id).unwrap());
}

#[test]
fn add_dependency_to_node() {
    let mut graph = DependencyGraph::new();
    let a = graph.add_node("a");
    let b = graph.add_node("b");
    graph.add_dependency(a, b).unwrap();
    let mut it = graph.dependencies(a);
    let mut targets: Vec<NodeIndex> = Vec::new();
    while let Some(d) = it.next() {
        targets.push(d);
    }
    assert_eq!(targets, vec![b]);
}

#[test]
fn topological_sort() {
    let mut graph = DependencyGraph::new();
    let a = graph.add_node("a");
    let b = graph.add_node("b");
    let c = graph.add_node("c");

    graph.add_dependency(a, b).unwrap();
    graph.add_dependency(b, c).unwrap();

    assert_eq!(topological(&graph).unwrap(), vec![c, b, a]);
}

#[test]
fn handles_are_dense_and_get_is_total() {
    let mut graph = DependencyGraph::new();
    assert_eq!(graph.add_node("first"), 0);
    assert_eq!(graph.add_node("second"), 1);
    assert_eq!(graph.add_node("third"), 2);
    assert_eq!(graph.get(2), Some(&"third"));
    assert!(graph.get(3).is_none());
    assert!(graph.get(usize::MAX).is_none());
}

#[test]
fn add_dependency_rejects_invalid_handles() {
    let mut graph = DependencyGraph::new();
    let a = graph.add_node("a");
    assert_eq!(graph.add_dependency(a, 7), Err(GraphError::InvalidHandle));
    assert_eq!(graph.add_dependency(9, a), Err(GraphError::InvalidHandle));
    let mut it = graph.dependencies(a);
    assert!(it.next().is_none());
}

#[test]
fn dependencies_iterate_most_recent_first() {
    let mut graph = DependencyGraph::new();
    let a = graph.add_node("a");
    let b = graph.add_node("b");
    let c = graph.add_node("c");
    graph.add_dependency(a, b).unwrap();
    graph.add_dependency(a, c).unwrap();
    let mut it = graph.dependencies(a);
    assert_eq!(it.next(), Some(c));
    assert_eq!(it.next(), Some(b));
    assert_eq!(it.next(), None);
}

#[test]
fn cycle_is_detected() {
    let mut graph = DependencyGraph::new();
    let a = graph.add_node("a");
    let b = graph.add_node("b");
    graph.add_dependency(a, b).unwrap();
    graph.add_dependency(b, a).unwrap();
    assert!(matches!(topological(&graph), Err(TopologicalError::ContainsCycle)));
}

#[test]
fn self_loop_is_a_cycle() {
    let mut graph = DependencyGraph::new();
    let a = graph.add_node("a");
    graph.add_dependency(a, a).unwrap();
    assert!(matches!(topological(&graph), Err(TopologicalError::ContainsCycle)));
}

#[test]
fn topological_is_deterministic() {
    let mut graph = DependencyGraph::new();
    let a = graph.add_node(10);
    let b = graph.add_node(20);
    let c = graph.add_node(30);
    let d = graph.add_node(40);
    graph.add_dependency(a, c).unwrap();
    graph.add_dependency(b, c).unwrap();
    graph.add_dependency(c, d).unwrap();
    let first = topological(&graph).unwrap();
    let second = topological(&graph).unwrap();
    assert_eq!(first, second);
    assert_eq!(first, vec![d, c, a, b]);
}

#[test]
fn disconnected_components_follow_handle_order() {
    let mut graph = DependencyGraph::new();
    let a = graph.add_node("a");
    let b = graph.add_node("b");
    let c = graph.add_node("c");
    let d = graph.add_node("d");
    graph.add_dependency(c, d).unwrap();
    assert_eq!(topological(&graph).unwrap(), vec![a, b, d, c]);
}
