use raven::error::{InMemoryGraphError, OracleError};
use raven::ids::NodeIdentity;
use raven::in_memory_graph::InMemoryUndirectedGraph;
use raven::neighbourhoods::OwnedNeighbourhoods;

type Graph = InMemoryUndirectedGraph<f64>;

fn n(x: usize) -> NodeIdentity {
    NodeIdentity(x)
}

fn row(rows: &OwnedNeighbourhoods<(NodeIdentity, f64)>, i: usize) -> Vec<(NodeIdentity, f64)> {
    rows.as_borrowed().row(i).unwrap().to_vec()
}

fn num_rows(rows: &OwnedNeighbourhoods<(NodeIdentity, f64)>) -> usize {
    rows.as_borrowed().len()
}

#[test]
fn tests_graph_oracle_returns_full_adjacency_rows() {
    let mut graph = Graph::new();
    graph.update_edge(n(1), n(2), Some(1.5)).unwrap();
    graph.update_edge(n(1), n(3), Some(2.5)).unwrap();

    let rows = graph.graph_neighbourhoods(&[n(1), n(2)]).unwrap();

    assert_eq!(num_rows(&rows), 2);
    assert!(row(&rows, 0).contains(&(n(2), 1.5)));
    assert!(row(&rows, 0).contains(&(n(3), 2.5)));
    assert_eq!(row(&rows, 1), vec![(n(1), 1.5)]);
}

#[test]
fn in_memory_graph_oracle_returns_full_adjacency_rows() {
    let mut graph = Graph::new();
    graph.update_edge(n(1), n(2), Some(1.5)).unwrap();
    graph.update_edge(n(1), n(3), Some(2.5)).unwrap();

    let rows = graph.graph_neighbourhoods(&[n(1), n(2)]).unwrap();

    assert_eq!(num_rows(&rows), 2);
    assert!(row(&rows, 0).contains(&(n(2), 1.5)));
    assert!(row(&rows, 0).contains(&(n(3), 2.5)));
    assert_eq!(row(&rows, 1), vec![(n(1), 1.5)]);
}

#[test]
fn graph_oracle_returns_intersecting_adjacency_rows() {
    let mut graph = Graph::new();
    graph.update_edge(n(1), n(2), Some(1.0)).unwrap();
    graph.update_edge(n(1), n(3), Some(2.0)).unwrap();
    graph.update_edge(n(1), n(4), Some(3.0)).unwrap();

    let rows = graph
        .graph_neighbourhoods_intersecting(&[n(1), n(2)], &[n(3), n(4), n(99)])
        .unwrap();

    assert_eq!(num_rows(&rows), 2);
    assert_eq!(row(&rows, 0).len(), 2);
    assert!(row(&rows, 0).contains(&(n(3), 2.0)));
    assert!(row(&rows, 0).contains(&(n(4), 3.0)));
    assert!(row(&rows, 1).is_empty());
}

#[test]
fn graph_lends_independent_oracle_handles() {
    let mut graph = Graph::new();
    graph.update_edge(n(1), n(2), Some(1.5)).unwrap();
    graph.update_edge(n(1), n(3), Some(2.5)).unwrap();

    let left_rows = graph.graph_neighbourhoods(&[n(1)]).unwrap();
    let right_rows = graph.graph_neighbourhoods(&[n(2)]).unwrap();

    assert!(row(&left_rows, 0).contains(&(n(2), 1.5)));
    assert!(row(&left_rows, 0).contains(&(n(3), 2.5)));
    assert_eq!(row(&right_rows, 0), vec![(n(1), 1.5)]);
}

#[test]
fn tests_reversed_edge_updates_the_same_undirected_relationship() {
    let mut graph = Graph::new();
    graph.update_edge(n(1), n(2), Some(1.5)).unwrap();
    graph.update_edge(n(2), n(1), Some(2.5)).unwrap();

    assert_eq!(graph.edge_weight(n(1), n(2)), Some(2.5));
    assert_eq!(graph.edge_weight(n(2), n(1)), Some(2.5));

    let rows = graph.graph_neighbourhoods(&[n(1), n(2)]).unwrap();
    assert_eq!(row(&rows, 0), vec![(n(2), 2.5)]);
    assert_eq!(row(&rows, 1), vec![(n(1), 2.5)]);
}

#[test]
fn in_memory_reversed_edge_updates_the_same_undirected_relationship() {
    let mut graph = Graph::new();
    graph.update_edge(n(1), n(2), Some(1.5)).unwrap();
    graph.update_edge(n(2), n(1), Some(2.5)).unwrap();

    assert_eq!(graph.edge_weight(n(1), n(2)), Some(2.5));
    assert_eq!(graph.edge_weight(n(2), n(1)), Some(2.5));

    let rows = graph.graph_neighbourhoods(&[n(1), n(2)]).unwrap();
    assert_eq!(row(&rows, 0), vec![(n(2), 2.5)]);
    assert_eq!(row(&rows, 1), vec![(n(1), 2.5)]);
}

#[test]
fn tests_coreset_oracle_filters_to_input_batch() {
    let mut graph = Graph::new();
    graph.update_edge(n(1), n(2), Some(1.0)).unwrap();
    graph.update_edge(n(1), n(3), Some(2.0)).unwrap();
    graph.update_edge(n(2), n(3), Some(3.0)).unwrap();

    let rows = graph.coreset_neighbourhoods(&[n(1), n(3)]).unwrap();

    assert_eq!(num_rows(&rows), 2);
    assert_eq!(row(&rows, 0), vec![(n(3), 2.0)]);
    assert_eq!(row(&rows, 1), vec![(n(1), 2.0)]);
}

#[test]
fn in_memory_coreset_oracle_filters_to_input_batch() {
    let mut graph = Graph::new();
    graph.update_edge(n(1), n(2), Some(1.0)).unwrap();
    graph.update_edge(n(1), n(3), Some(2.0)).unwrap();
    graph.update_edge(n(2), n(3), Some(3.0)).unwrap();

    let rows = graph.coreset_neighbourhoods(&[n(1), n(3)]).unwrap();

    assert_eq!(num_rows(&rows), 2);
    assert_eq!(row(&rows, 0), vec![(n(3), 2.0)]);
    assert_eq!(row(&rows, 1), vec![(n(1), 2.0)]);
}

#[test]
fn tests_node_ops_buffer_tracks_unique_touched_nodes_until_flush() {
    let mut graph = Graph::with_capacity(3);

    graph.update_edge(n(1), n(2), Some(1.0)).unwrap();
    assert_eq!(graph.node_ops_buffer_len(), 2);
    assert!(!graph.node_ops_buffer_is_full());

    graph.update_edge(n(2), n(3), Some(1.0)).unwrap();
    assert_eq!(graph.node_ops_buffer_len(), 3);
    assert!(graph.node_ops_buffer_is_full());

    let ops = graph.take_changed_nodes();
    assert_eq!(ops.len(), 3);
    assert!(graph.node_ops_buffer_is_empty());
}

#[test]
fn in_memory_node_ops_buffer_tracks_unique_touched_nodes_until_flush() {
    let mut graph = Graph::with_capacity(3);

    graph.update_edge(n(1), n(2), Some(1.0)).unwrap();
    assert_eq!(graph.node_ops_buffer_len(), 2);
    assert!(!graph.node_ops_buffer_is_full());

    graph.update_edge(n(2), n(3), Some(1.0)).unwrap();
    assert_eq!(graph.node_ops_buffer_len(), 3);
    assert!(graph.node_ops_buffer_is_full());

    let ops = graph.take_changed_nodes();
    assert_eq!(ops.len(), 3);
    assert!(graph.node_ops_buffer_is_empty());
}

#[test]
fn deleting_an_edge_drops_isolated_endpoints_and_records_them() {
    let mut graph = Graph::new();
    graph.update_edge(n(1), n(2), Some(4.0)).unwrap();
    graph.update_edge(n(2), n(3), Some(1.0)).unwrap();
    assert_eq!(graph.take_changed_nodes(), vec![n(1), n(2), n(3)]);

    graph.update_edge(n(1), n(2), None).unwrap();
    assert!(!graph.contains_node(n(1)));
    assert!(graph.contains_node(n(2)));
    assert!(graph.contains_node(n(3)));
    assert_eq!(graph.edge_weight(n(1), n(2)), None);
    assert_eq!(graph.edge_weight(n(2), n(1)), None);
    assert_eq!(graph.neighbours(n(1)), None);
    assert_eq!(graph.neighbours(n(2)), Some(vec![(n(3), 1.0)]));
    assert_eq!(graph.take_changed_nodes(), vec![n(1), n(2)]);
}

#[test]
fn refused_updates_leave_the_graph_unchanged() {
    let mut graph = Graph::new();
    graph.update_edge(n(1), n(2), Some(4.0)).unwrap();
    graph.take_changed_nodes();

    assert_eq!(
        graph.update_edge(n(3), n(3), Some(1.0)),
        Err(InMemoryGraphError::SelfLoop)
    );
    assert_eq!(
        graph.update_edge(n(1), n(3), None),
        Err(InMemoryGraphError::MissingEdge)
    );
    assert!(!graph.contains_node(n(3)));
    assert_eq!(graph.edge_weight(n(1), n(2)), Some(4.0));
    assert!(graph.node_ops_buffer_is_empty());
}

#[test]
fn oracle_reads_refuse_nodes_without_edges() {
    let mut graph = Graph::new();
    graph.update_edge(n(1), n(2), Some(1.0)).unwrap();

    assert!(matches!(
        graph.graph_neighbourhoods(&[n(1), n(5)]),
        Err(OracleError::GraphError(InMemoryGraphError::MissingNode))
    ));
    assert!(matches!(
        graph.graph_neighbourhoods_intersecting(&[n(5)], &[n(1)]),
        Err(OracleError::GraphError(InMemoryGraphError::MissingNode))
    ));
    assert!(matches!(
        graph.coreset_neighbourhoods(&[n(2), n(7)]),
        Err(OracleError::CoresetError(InMemoryGraphError::MissingNode))
    ));
}

fn sorted_rows(rows: &OwnedNeighbourhoods<(NodeIdentity, f64)>) -> Vec<Vec<(NodeIdentity, f64)>> {
    (0..num_rows(rows))
        .map(|i| {
            let mut r = row(rows, i);
            r.sort_by_key(|(node, _)| *node);
            r
        })
        .collect()
}

fn rows_of_visits(visits: &[(usize, NodeIdentity, f64)], count: usize) -> Vec<Vec<(NodeIdentity, f64)>> {
    let mut rows = vec![Vec::new(); count];
    for &(r, node, weight) in visits {
        rows[r].push((node, weight));
    }
    for r in &mut rows {
        r.sort_by_key(|(node, _)| *node);
    }
    rows
}

fn ordinal_rows(visits: &[(usize, usize, NodeIdentity, f64)], count: usize) -> Vec<Vec<(usize, NodeIdentity, f64)>> {
    let mut rows = vec![Vec::new(); count];
    for &(r, t, node, weight) in visits {
        rows[r].push((t, node, weight));
    }
    for r in &mut rows {
        r.sort_by_key(|(_, node, _)| *node);
    }
    rows
}

#[test]
fn dense_oracle_matches_generic_node_identity_oracle() {
    let mut graph = Graph::new();
    graph.update_edge(n(0), n(2), Some(1.0)).unwrap();
    graph.update_edge(n(0), n(100), Some(2.0)).unwrap();
    graph.update_edge(n(2), n(100), Some(3.0)).unwrap();

    let sources = [n(0), n(2)];
    let targets = [n(100)];
    let coreset = [n(0), n(100)];

    let generic_intersecting =
        sorted_rows(&graph.graph_neighbourhoods_intersecting(&sources, &targets).unwrap());
    let dense_intersecting = {
        let mut oracle = graph.dense_oracle();
        sorted_rows(&oracle.graph_neighbourhoods_intersecting(&sources, &targets).unwrap())
    };
    assert_eq!(dense_intersecting, generic_intersecting);

    let dense_visited = {
        let mut oracle = graph.dense_oracle();
        let visits = oracle.visit_graph_neighbourhoods_intersecting(&sources, &targets).unwrap();
        assert_eq!(
            visits.len(),
            generic_intersecting.iter().map(Vec::len).sum::<usize>()
        );
        rows_of_visits(&visits, sources.len())
    };
    assert_eq!(dense_visited, generic_intersecting);

    let ordinal_targets = [n(100), n(0)];
    let expected_ordinal_rows = vec![vec![(1usize, n(0), 1.0), (0usize, n(100), 3.0)]];
    let dense_ordinal_visited = {
        let mut oracle = graph.dense_oracle();
        let visits = oracle
            .visit_graph_neighbourhoods_intersecting_with_target_indices(&[n(2)], &ordinal_targets)
            .unwrap();
        assert_eq!(visits.len(), 2);
        ordinal_rows(&visits, 1)
    };
    assert_eq!(dense_ordinal_visited, expected_ordinal_rows);

    let generic_coreset = sorted_rows(&graph.coreset_neighbourhoods(&coreset).unwrap());
    let dense_coreset = {
        let mut oracle = graph.dense_oracle();
        sorted_rows(&oracle.coreset_neighbourhoods(&coreset).unwrap())
    };
    assert_eq!(dense_coreset, generic_coreset);

    let expected_coreset_ordinals = vec![vec![(1usize, n(100), 2.0)], vec![(0usize, n(0), 2.0)]];
    let dense_coreset_ordinals = {
        let mut oracle = graph.dense_oracle();
        let visits = oracle.visit_coreset_neighbourhoods_with_target_indices(&coreset).unwrap();
        assert_eq!(visits.len(), 2);
        ordinal_rows(&visits, coreset.len())
    };
    assert_eq!(dense_coreset_ordinals, expected_coreset_ordinals);

    let dense_empty = {
        let mut oracle = graph.dense_oracle();
        sorted_rows(&oracle.graph_neighbourhoods_intersecting(&sources, &[]).unwrap())
    };
    assert_eq!(dense_empty, vec![Vec::new(), Vec::new()]);
}

#[test]
fn dense_oracles_are_independent_handles() {
    let mut graph = Graph::new();
    graph.update_edge(n(1), n(2), Some(1.5)).unwrap();
    graph.update_edge(n(1), n(3), Some(2.5)).unwrap();

    let mut oracles = graph.dense_oracles(2);
    assert_eq!(oracles.len(), 2);
    let (left, right) = oracles.split_at_mut(1);
    let left_rows = left[0].graph_neighbourhoods_intersecting(&[n(1)], &[n(3)]).unwrap();
    let right_rows = right[0].graph_neighbourhoods(&[n(2)]).unwrap();
    assert_eq!(row(&left_rows, 0), vec![(n(3), 2.5)]);
    assert_eq!(row(&right_rows, 0), vec![(n(1), 1.5)]);
    assert!(matches!(
        left[0].visit_coreset_neighbourhoods_with_target_indices(&[n(9)]),
        Err(OracleError::CoresetError(InMemoryGraphError::MissingNode))
    ));
}

#[test]
fn node_ops_capacity_sets_the_flush_threshold() {
    let mut graph = Graph::with_node_ops_capacity(2);
    graph.update_edge(n(1), n(2), Some(1.0)).unwrap();
    assert!(graph.node_ops_buffer_is_full());
    assert_eq!(graph.node_count(), 2);
    let mut nodes = graph.nodes();
    nodes.sort();
    assert_eq!(nodes, vec![n(1), n(2)]);
}

fn flush_reports_updated_and_deleted_nodes() {
    let mut graph = Graph::new();
    graph.update_edge(n(1), n(2), Some(4.0)).unwrap();

    assert_eq!(graph.edge_weight(n(1), n(2)), Some(4.0));

    let initial_ops = graph.take_changed_nodes();
    assert_eq!(initial_ops, vec![n(1), n(2)]);
    assert!(graph.contains_node(n(1)) && graph.contains_node(n(2)));
    assert!(graph.node_ops_buffer_is_empty());

    graph.update_edge(n(1), n(2), None).unwrap();

    assert_eq!(graph.take_changed_nodes(), vec![n(1), n(2)]);
    assert!(!graph.contains_node(n(1)) && !graph.contains_node(n(2)));
}

#[test]
fn in_memory_flush_node_ops_reports_updated_and_deleted_nodes() {
    flush_reports_updated_and_deleted_nodes();
}

#[test]
fn tests_flush_node_ops_reports_updated_and_deleted_nodes() {
    flush_reports_updated_and_deleted_nodes();
}
