use raven::error::InMemoryGraphError;
use raven::ids::NodeIdentity;
use raven::in_memory_graph::InMemoryUndirectedGraph;
use raven::workloads::{SbmEdgeOp, SbmUpdateBatch};

type Graph = InMemoryUndirectedGraph<f64>;

fn n(x: usize) -> NodeIdentity {
    NodeIdentity(x)
}

fn batch(edge_ops: Vec<SbmEdgeOp<f64>>) -> SbmUpdateBatch<f64> {
    SbmUpdateBatch {
        time: 3,
        edge_ops,
        node_ops: Vec::new(),
    }
}

#[test]
fn set_weight_inserts_and_overwrites_both_directions() {
    let mut graph = Graph::new();
    SbmEdgeOp::SetWeight { u: 1, v: 2, weight: 1.5 }
        .apply_to_graph(&mut graph)
        .unwrap();
    SbmEdgeOp::SetWeight { u: 2, v: 1, weight: 4.0 }
        .apply_to_graph(&mut graph)
        .unwrap();
    assert_eq!(graph.edge_weight(n(1), n(2)), Some(4.0));
    assert_eq!(graph.edge_weight(n(2), n(1)), Some(4.0));
}

#[test]
fn deleting_an_absent_edge_is_not_an_error() {
    let mut graph = Graph::new();
    SbmEdgeOp::SetWeight { u: 1, v: 2, weight: 1.0 }
        .apply_to_graph(&mut graph)
        .unwrap();
    let _ = graph.take_changed_nodes();
    assert!(SbmEdgeOp::<f64>::Delete { u: 5, v: 6 }
        .apply_to_graph(&mut graph)
        .is_ok());
    assert_eq!(graph.node_ops_buffer_len(), 0);
    assert_eq!(graph.edge_weight(n(1), n(2)), Some(1.0));
    assert!(SbmEdgeOp::<f64>::Delete { u: 2, v: 1 }
        .apply_to_graph(&mut graph)
        .is_ok());
    assert_eq!(graph.edge_weight(n(1), n(2)), None);
    assert!(!graph.contains_node(n(1)));
}

#[test]
fn self_loop_change_is_refused() {
    let mut graph = Graph::new();
    assert_eq!(
        SbmEdgeOp::SetWeight { u: 3, v: 3, weight: 1.0 }.apply_to_graph(&mut graph),
        Err(InMemoryGraphError::SelfLoop)
    );
    assert_eq!(
        SbmEdgeOp::<f64>::Delete { u: 3, v: 3 }.apply_to_graph(&mut graph),
        Err(InMemoryGraphError::SelfLoop)
    );
    assert!(!graph.contains_node(n(3)));
}

#[test]
fn batch_replays_changes_in_order_and_flushes_changed_nodes() {
    let mut graph = Graph::new();
    let ops = batch(vec![
        SbmEdgeOp::SetWeight { u: 1, v: 2, weight: 1.0 },
        SbmEdgeOp::SetWeight { u: 2, v: 3, weight: 2.0 },
        SbmEdgeOp::Delete { u: 1, v: 2 },
        SbmEdgeOp::Delete { u: 7, v: 8 },
    ]);
    let changed = ops.apply_to_graph_and_flush_node_ops(&mut graph).unwrap();
    assert_eq!(changed, vec![n(1), n(2), n(3)]);
    assert_eq!(graph.node_ops_buffer_len(), 0);
    assert_eq!(graph.edge_weight(n(1), n(2)), None);
    assert_eq!(graph.edge_weight(n(3), n(2)), Some(2.0));
    assert!(!graph.contains_node(n(1)));
}

#[test]
fn batch_stops_at_first_self_loop_keeping_earlier_changes() {
    let mut graph = Graph::new();
    let ops = batch(vec![
        SbmEdgeOp::SetWeight { u: 1, v: 2, weight: 1.0 },
        SbmEdgeOp::SetWeight { u: 4, v: 4, weight: 2.0 },
        SbmEdgeOp::SetWeight { u: 5, v: 6, weight: 3.0 },
    ]);
    assert_eq!(
        ops.apply_to_graph(&mut graph),
        Err(InMemoryGraphError::SelfLoop)
    );
    assert_eq!(graph.edge_weight(n(1), n(2)), Some(1.0));
    assert_eq!(graph.edge_weight(n(5), n(6)), None);
    assert_eq!(graph.node_ops_buffer_len(), 2);
    assert_eq!(ops.time, 3);
}
