use raven::components::connected_components;
use raven::error::RavenError;

#[test]
fn chained_pairs_form_one_component() {
    let comps = connected_components(&[1, 2, 3], &[(1, 2), (2, 3)], false).unwrap();
    assert_eq!(comps, vec![vec![1, 2, 3]]);
}

#[test]
fn components_are_sorted_inside_and_by_smallest_id() {
    let nodes = [40, 7, 12, 3, 25, 9];
    let pairs = [(40, 3), (12, 25), (25, 9)];
    let comps = connected_components(&nodes, &pairs, false).unwrap();
    assert_eq!(comps, vec![vec![3, 40], vec![9, 12, 25]]);
}

#[test]
fn singletons_are_kept_only_on_request() {
    let nodes = [5, 1, 8, 2];
    let pairs = [(8, 1)];
    assert_eq!(
        connected_components(&nodes, &pairs, false).unwrap(),
        vec![vec![1, 8]]
    );
    assert_eq!(
        connected_components(&nodes, &pairs, true).unwrap(),
        vec![vec![1, 8], vec![2], vec![5]]
    );
}

#[test]
fn no_pairs_gives_singletons_or_nothing() {
    assert_eq!(
        connected_components(&[3, 1, 2], &[], true).unwrap(),
        vec![vec![1], vec![2], vec![3]]
    );
    assert!(connected_components(&[3, 1, 2], &[], false)
        .unwrap()
        .is_empty());
}

#[test]
fn self_pair_keeps_its_node() {
    assert_eq!(
        connected_components(&[4, 6], &[(6, 6)], false).unwrap(),
        vec![vec![6]]
    );
}

#[test]
fn repeated_and_reversed_pairs_merge_once() {
    let comps =
        connected_components(&[1, 2, 3, 4], &[(2, 1), (1, 2), (4, 3), (3, 1)], false).unwrap();
    assert_eq!(comps, vec![vec![1, 2, 3, 4]]);
}

#[test]
fn pair_with_unknown_node_is_invalid_input() {
    assert_eq!(
        connected_components(&[1, 2], &[(1, 2), (2, 99)], false),
        Err(RavenError::InvalidInput(
            "node 99 was not part of this consensus query".to_string()
        ))
    );
    assert!(matches!(
        connected_components(&[1, 2], &[(99, 1)], true),
        Err(RavenError::InvalidInput(_))
    ));
}

#[test]
fn node_position_reads_dense_table_and_map() {
    let nodes = vec![5, 2, 9];
    let (map, dense) = raven::consensus::node_positions(&nodes).unwrap();
    assert!(dense.is_some());
    assert_eq!(raven::components::node_position(&nodes, &map, &dense, 9), Ok(2));
    assert_eq!(raven::components::node_position(&nodes, &map, &None, 2), Ok(1));
    match raven::components::node_position(&nodes, &map, &dense, 4) {
        Err(raven::error::RavenError::InvalidInput(msg)) => {
            assert_eq!(msg, "node 4 was not part of this consensus query")
        }
        other => panic!("unexpected {:?}", other),
    }
    assert!(raven::components::node_position(&nodes, &map, &dense, 1_000_000).is_err());
}
