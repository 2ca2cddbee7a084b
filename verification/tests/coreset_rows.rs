use raven::coreset_rows::{assemble_coreset_rows, Coreset, CoresetRowError};
use raven::ids::TreeIndex;
use raven::ids::NodeIdentity;
use raven::in_memory_graph::InMemoryUndirectedGraph;

fn n(x: usize) -> NodeIdentity {
    NodeIdentity(x)
}

#[test]
fn visits_fill_rows_and_empty_rows_share_offsets() {
    let visits = [
        (0, 1, n(20), 0.5),
        (0, 2, n(30), 1.5),
        (2, 0, n(10), 2.5),
    ];
    let rows = assemble_coreset_rows(4, &visits).unwrap();
    assert_eq!(rows.offsets, vec![0, 2, 2, 3, 3]);
    assert_eq!(rows.data, vec![(n(20), 0.5), (n(30), 1.5), (n(10), 2.5)]);
    assert_eq!(rows.index_data, vec![(1, 0.5), (2, 1.5), (0, 2.5)]);
}

#[test]
fn no_visits_gives_empty_rows() {
    let rows = assemble_coreset_rows::<f64>(3, &[]).unwrap();
    assert_eq!(rows.offsets, vec![0, 0, 0, 0]);
    assert!(rows.data.is_empty());
    assert!(rows.index_data.is_empty());
}

#[test]
fn first_misfit_visit_is_reported() {
    assert_eq!(
        assemble_coreset_rows(2, &[(0, 0, n(1), 1.0), (2, 0, n(1), 1.0)]).err(),
        Some(CoresetRowError::RowOutOfRange { row: 2, rows: 2 })
    );
    assert_eq!(
        assemble_coreset_rows(2, &[(1, 5, n(1), 1.0), (9, 0, n(1), 1.0)]).err(),
        Some(CoresetRowError::TargetOutOfRange {
            target: 5,
            targets: 2
        })
    );
    assert_eq!(
        assemble_coreset_rows(3, &[(2, 0, n(1), 1.0), (1, 0, n(1), 1.0)]).err(),
        Some(CoresetRowError::RowOrder { row: 1, after: 2 })
    );
}

#[test]
fn coreset_visits_of_the_dense_oracle_assemble_into_rows() {
    let mut graph: InMemoryUndirectedGraph<f64> = InMemoryUndirectedGraph::new();
    graph.update_edge(n(0), n(2), Some(1.0)).unwrap();
    graph.update_edge(n(0), n(100), Some(2.0)).unwrap();
    graph.update_edge(n(2), n(100), Some(3.0)).unwrap();
    let coreset = [n(0), n(100)];
    let visits = {
        let mut oracle = graph.dense_oracle();
        oracle
            .visit_coreset_neighbourhoods_with_target_indices(&coreset)
            .unwrap()
    };
    let rows = assemble_coreset_rows(coreset.len(), &visits).unwrap();
    assert_eq!(rows.offsets, vec![0, 1, 2]);
    assert_eq!(rows.data, vec![(n(100), 2.0), (n(0), 2.0)]);
    assert_eq!(rows.index_data, vec![(1, 2.0), (0, 2.0)]);
}

fn coreset_with(offsets: Vec<usize>) -> Coreset<NodeIdentity, f64> {
    Coreset {
        nodes: vec![n(1), n(2)],
        node_indices: vec![TreeIndex(3), TreeIndex(4)],
        weights: vec![1.0, 2.0],
        coreset_labels: None,
        coreset_neighbourhood_data: vec![(n(2), 0.5), (n(1), 0.5), (n(2), 0.25)],
        coreset_neighbourhood_offsets: offsets,
    }
}

#[test]
fn cached_rows_follow_the_offsets() {
    let coreset = coreset_with(vec![0, 1, 3]);
    let rows = coreset.cached_coreset_neighbourhood_rows().unwrap();
    assert_eq!(rows.len(), 2);
    assert_eq!(rows[0], &[(n(2), 0.5)][..]);
    assert_eq!(rows[1], &[(n(1), 0.5), (n(2), 0.25)][..]);
}

#[test]
fn cached_rows_are_refused_when_offsets_do_not_fit() {
    assert!(coreset_with(vec![0, 1]).cached_coreset_neighbourhood_rows().is_none());
    assert!(coreset_with(vec![0, 2, 1]).cached_coreset_neighbourhood_rows().is_none());
    assert!(coreset_with(vec![0, 1, 4]).cached_coreset_neighbourhood_rows().is_none());
}
