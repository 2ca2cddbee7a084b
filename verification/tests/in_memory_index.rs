use raven::error::{InMemoryGraphError, InMemoryIndexError};
use raven::config::EdgeUpdateStats;
use raven::in_memory_index::{EdgeUpdate, InMemoryIndex};

#[test]
fn in_memory_index_interns_strings_queries_and_reuses_deleted_slots() {
    let mut index = InMemoryIndex::<2, f64>::new();

    for (u, v) in [(10, 11), (11, 12), (12, 13), (13, 14), (14, 15)] {
        index.update_edge(u, v, Some(1.0)).unwrap();
    }
    index.apply_pending_node_ops().unwrap();
    assert_eq!(index.live_node_count(), 6);
    assert_eq!(index.tree().num_leaves(), 6);

    let mut live = index.live_nodes();
    live.sort();
    assert_eq!(live, vec![10, 11, 12, 13, 14, 15]);

    let subset = index.internal_live_nodes(&[15, 10, 12]).unwrap();
    assert_eq!(subset.len(), 3);
    assert_eq!(subset[0], index.internal_id(15).unwrap());

    let f_id = index.internal_id(15).unwrap();
    index.update_edge(14, 15, None).unwrap();
    assert_eq!(index.internal_id(15), Some(f_id));
    assert!(!index.contains_node(15));

    index.apply_pending_node_ops().unwrap();
    assert_eq!(index.internal_id(15), None);
    assert_eq!(index.live_node_count(), 5);
    assert_eq!(index.tree().num_leaves(), 5);

    index.update_edge(16, 17, Some(1.0)).unwrap();
    let g_id = index.internal_id(16).unwrap();
    assert_eq!(g_id, f_id);
}

#[test]
fn in_memory_index_delete_of_unknown_edge_does_not_intern_nodes() {
    let mut index = InMemoryIndex::<2, f64>::new();

    let err = index.update_edge(100, 101, None).unwrap_err();

    assert!(matches!(
        err,
        InMemoryIndexError::Graph(InMemoryGraphError::MissingEdge)
    ));
    assert_eq!(index.internal_id(100), None);
    assert_eq!(index.internal_id(101), None);
    assert_eq!(index.live_node_count(), 0);
}

#[test]
fn index_refuses_self_loops_and_missing_edges_between_known_nodes() {
    let mut index = InMemoryIndex::<3, f64>::with_capacity(8);
    assert!(matches!(
        index.update_edge(5, 5, Some(1.0)),
        Err(InMemoryIndexError::Graph(InMemoryGraphError::SelfLoop))
    ));
    index.update_edge(1, 2, Some(1.0)).unwrap();
    index.update_edge(2, 3, Some(1.0)).unwrap();
    assert!(matches!(
        index.update_edge(1, 3, None),
        Err(InMemoryIndexError::Graph(InMemoryGraphError::MissingEdge))
    ));
    assert!(matches!(
        index.internal_live_nodes(&[1, 9]),
        Err(InMemoryIndexError::UnknownNode)
    ));
}

#[test]
fn tree_follows_live_nodes_only_after_pending_changes_apply() {
    let mut index = InMemoryIndex::<2, f64>::new();
    index.update_edge(1, 2, Some(1.0)).unwrap();
    index.update_edge(3, 4, Some(1.0)).unwrap();
    assert_eq!(index.tree().num_leaves(), 0);
    index.apply_pending_node_ops().unwrap();
    assert_eq!(index.tree().num_leaves(), 4);

    index.update_edge(1, 2, None).unwrap();
    index.update_edge(3, 5, Some(2.0)).unwrap();
    assert_eq!(index.tree().num_leaves(), 4);
    index.apply_pending_node_ops().unwrap();
    assert_eq!(index.tree().num_leaves(), 3);
    for node in [3, 4, 5] {
        let id = index.internal_id(node).unwrap();
        assert!(index.tree().position_of(id.0).is_some());
    }
    assert_eq!(index.internal_id(1), None);
    assert_eq!(index.internal_id(2), None);

    index.apply_pending_node_ops().unwrap();
    assert_eq!(index.tree().num_leaves(), 3);
}

#[test]
fn batch_edge_updates_count_sets_removals_and_missing_removals() {
    let mut index = InMemoryIndex::<2, f64>::new();
    let stats = index
        .update_edges(&[
            EdgeUpdate::SetWeight { u: 1, v: 2, weight: 1.0 },
            EdgeUpdate::SetWeight { u: 2, v: 3, weight: 2.0 },
            EdgeUpdate::Delete { u: 2, v: 1 },
            EdgeUpdate::Delete { u: 1, v: 3 },
            EdgeUpdate::Delete { u: 1, v: 2 },
        ])
        .unwrap();
    assert_eq!(stats, EdgeUpdateStats { total: 5, set: 2, deleted: 1, missing_deletes: 2 });
    index.apply_pending_node_ops().unwrap();
    let mut live = index.live_nodes();
    live.sort();
    assert_eq!(live, vec![2, 3]);
}

#[test]
fn batch_edge_updates_stop_at_a_self_loop() {
    let mut index = InMemoryIndex::<2, f64>::new();
    let res = index.update_edges(&[
        EdgeUpdate::SetWeight { u: 1, v: 2, weight: 1.0 },
        EdgeUpdate::Delete { u: 4, v: 4 },
        EdgeUpdate::SetWeight { u: 5, v: 6, weight: 1.0 },
    ]);
    assert!(matches!(res, Err(InMemoryIndexError::Graph(InMemoryGraphError::SelfLoop))));
    index.apply_pending_node_ops().unwrap();
    let mut live = index.live_nodes();
    live.sort();
    assert_eq!(live, vec![1, 2]);
}
