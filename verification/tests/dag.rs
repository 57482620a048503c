use dozer_pipeline::dag::{Edge, Endpoint, Graph, NodeKind};
use dozer_pipeline::errors::ExecutionError;

fn endpoint(node: &str, port: u16) -> Endpoint {
    Endpoint::new(node.to_string(), port)
}

fn chain() -> Graph {
    let mut graph = Graph::new();
    graph.add_node(NodeKind::Source, "src".to_string(), vec![], vec![1]).unwrap();
    graph.add_node(NodeKind::Processor, "a".to_string(), vec![1, 2], vec![1]).unwrap();
    graph.add_node(NodeKind::Processor, "b".to_string(), vec![1], vec![1, 2]).unwrap();
    graph.add_node(NodeKind::Sink, "sink".to_string(), vec![1], vec![]).unwrap();
    graph
}

#[test]
fn edges_join_declared_ports() {
    let mut graph = chain();
    assert_eq!(graph.connect(endpoint("src", 1), endpoint("a", 1)), Ok(()));
    assert_eq!(graph.connect(endpoint("a", 1), endpoint("b", 1)), Ok(()));
    assert_eq!(graph.connect(endpoint("b", 1), endpoint("sink", 1)), Ok(()));
    assert_eq!(
        graph.edges,
        vec![
            Edge { from_node: 0, from_port: 1, to_node: 1, to_port: 1 },
            Edge { from_node: 1, from_port: 1, to_node: 2, to_port: 1 },
            Edge { from_node: 2, from_port: 1, to_node: 3, to_port: 1 },
        ]
    );
    assert_eq!(graph.find_node(&"b".to_string()), Some(2));
    assert_eq!(graph.find_node(&"c".to_string()), None);
}

#[test]
fn an_edge_that_would_close_a_cycle_is_refused() {
    let mut graph = chain();
    graph.connect(endpoint("a", 1), endpoint("b", 1)).unwrap();
    assert_eq!(
        graph.connect(endpoint("b", 2), endpoint("a", 2)),
        Err(ExecutionError::WouldCycle)
    );
    assert_eq!(graph.edges.len(), 1);
    assert_eq!(
        graph.connect(endpoint("a", 1), endpoint("a", 2)),
        Err(ExecutionError::WouldCycle)
    );
    assert_eq!(graph.connect(endpoint("a", 1), endpoint("b", 1)), Ok(()));
    assert_eq!(graph.edges.len(), 2);
}

#[test]
fn a_longer_way_back_is_a_cycle_too() {
    let mut graph = Graph::new();
    for name in ["a", "b", "c", "d"] {
        graph.add_node(NodeKind::Processor, name.to_string(), vec![1], vec![1]).unwrap();
    }
    graph.connect(endpoint("a", 1), endpoint("b", 1)).unwrap();
    graph.connect(endpoint("b", 1), endpoint("c", 1)).unwrap();
    graph.connect(endpoint("c", 1), endpoint("d", 1)).unwrap();
    assert_eq!(
        graph.connect(endpoint("d", 1), endpoint("a", 1)),
        Err(ExecutionError::WouldCycle)
    );
    assert_eq!(
        graph.connect(endpoint("c", 1), endpoint("b", 1)),
        Err(ExecutionError::WouldCycle)
    );
    assert_eq!(graph.connect(endpoint("a", 1), endpoint("d", 1)), Ok(()));
}

#[test]
fn unknown_nodes_and_ports_are_refused() {
    let mut graph = chain();
    assert_eq!(
        graph.connect(endpoint("nowhere", 1), endpoint("a", 1)),
        Err(ExecutionError::InvalidNodeHandle("nowhere".to_string()))
    );
    assert_eq!(
        graph.connect(endpoint("src", 1), endpoint("nowhere", 1)),
        Err(ExecutionError::InvalidNodeHandle("nowhere".to_string()))
    );
    assert_eq!(
        graph.connect(endpoint("src", 9), endpoint("a", 1)),
        Err(ExecutionError::InvalidPortHandle(9))
    );
    assert_eq!(
        graph.connect(endpoint("src", 1), endpoint("a", 8)),
        Err(ExecutionError::InvalidPortHandle(8))
    );
    assert_eq!(
        graph.add_node(NodeKind::Sink, "a".to_string(), vec![], vec![]),
        Err(ExecutionError::MetadataAlreadyExists("a".to_string()))
    );
    assert_eq!(graph.nodes.len(), 4);
    assert_eq!(graph.edges.len(), 0);
}

#[test]
fn every_input_port_needs_exactly_one_edge() {
    let mut graph = chain();
    assert_eq!(
        graph.validate(),
        Err(ExecutionError::MissingInput { node: "a".to_string(), port: 1 })
    );
    graph.connect(endpoint("src", 1), endpoint("a", 1)).unwrap();
    assert_eq!(
        graph.validate(),
        Err(ExecutionError::MissingInput { node: "a".to_string(), port: 2 })
    );
    graph.connect(endpoint("src", 1), endpoint("a", 2)).unwrap();
    graph.connect(endpoint("a", 1), endpoint("b", 1)).unwrap();
    assert_eq!(
        graph.validate(),
        Err(ExecutionError::MissingInput { node: "sink".to_string(), port: 1 })
    );
    graph.connect(endpoint("b", 1), endpoint("sink", 1)).unwrap();
    assert_eq!(graph.validate(), Ok(()));
    graph.connect(endpoint("b", 2), endpoint("sink", 1)).unwrap();
    assert_eq!(
        graph.validate(),
        Err(ExecutionError::DuplicateInput { node: "sink".to_string(), port: 1 })
    );
    assert_eq!(Graph::new().validate(), Ok(()));
}
