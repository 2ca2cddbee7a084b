use raven::consensus::{dense_node_positions, find, node_positions, union, validate_unique_nodes};
use raven::error::RavenError;
use raven::partition::{build_orig_to_agg_mapping, Partition};

#[test]
fn node_positions_map_each_node_to_its_position() {
    let (map, dense) = node_positions(&[10, 3, 7]).unwrap();
    assert_eq!(map.get(&10), Some(&0));
    assert_eq!(map.get(&3), Some(&1));
    assert_eq!(map.get(&7), Some(&2));
    assert_eq!(map.len(), 3);
    let dense = dense.unwrap();
    assert_eq!(dense.len(), 11);
    assert_eq!(dense[10], 0);
    assert_eq!(dense[3], 1);
    assert_eq!(dense[7], 2);
    assert_eq!(dense[0], usize::MAX);
}

#[test]
fn duplicate_nodes_are_rejected() {
    let err = node_positions(&[1, 2, 1]).unwrap_err();
    assert_eq!(
        err,
        RavenError::InvalidInput("consensus nodes must be unique, found duplicate node 1".to_string())
    );
    assert!(validate_unique_nodes(&[4, 4]).is_err());
    assert!(validate_unique_nodes(&[4, 5]).is_ok());
    assert!(validate_unique_nodes(&[]).is_ok());
}

#[test]
fn dense_positions_are_skipped_for_sparse_or_empty_ids() {
    assert_eq!(dense_node_positions(&[]), None);
    assert!(dense_node_positions(&[1023]).is_some());
    assert_eq!(dense_node_positions(&[1024]), None);
    assert_eq!(dense_node_positions(&[usize::MAX]), None);
    let many: Vec<usize> = (0..20).collect();
    let mut with_large = many.clone();
    with_large.push(1279);
    assert!(dense_node_positions(&with_large).is_some());
    with_large.push(1344);
    assert_eq!(dense_node_positions(&with_large).map(|v| v.len()), Some(1345));
    let last_wins = dense_node_positions(&[2, 2]).unwrap();
    assert_eq!(last_wins[2], 1);
}

#[test]
fn find_returns_roots_and_compresses_paths() {
    let mut parent = vec![0, 0, 1, 2, 4];
    assert_eq!(find(&mut parent, 3), 0);
    assert_eq!(parent[3], 0);
    assert_eq!(parent[2], 0);
    assert_eq!(find(&mut parent, 4), 4);
}

#[test]
fn union_merges_exactly_the_two_components() {
    let mut parent: Vec<usize> = (0..6).collect();
    union(&mut parent, 0, 1);
    union(&mut parent, 2, 3);
    union(&mut parent, 1, 3);
    let r0 = find(&mut parent, 0);
    assert_eq!(find(&mut parent, 2), r0);
    assert_eq!(find(&mut parent, 3), r0);
    assert_ne!(find(&mut parent, 4), r0);
    assert_ne!(find(&mut parent, 5), find(&mut parent, 4));
    union(&mut parent, 3, 3);
    assert_eq!(find(&mut parent, 1), r0);
}

#[test]
fn renumber_relabels_by_first_appearance() {
    let mut partition = Partition::from_membership(vec![5, 2, 5, 9, 2]);
    assert_eq!(partition.community_of(3), 9);
    partition.renumber();
    let labels: Vec<usize> = (0..5).map(|i| partition.community_of(i)).collect();
    assert_eq!(labels, vec![0, 1, 0, 2, 1]);
}

#[test]
fn renumber_of_an_empty_partition_has_no_communities() {
    let mut partition = Partition::from_membership(vec![]);
    partition.renumber();
    let (mapping, count) = build_orig_to_agg_mapping(0, &partition);
    assert!(mapping.is_empty());
    assert_eq!(count, 0);
}

#[test]
fn singleton_partition_and_moves() {
    let mut partition = Partition::singleton(4);
    assert_eq!(partition.community_of(2), 2);
    partition.move_node(2, 0);
    partition.move_node(3, 7);
    assert_eq!(partition.community_of(2), 0);
    assert_eq!(partition.community_of(3), 7);
    let (mapping, count) = build_orig_to_agg_mapping(4, &partition);
    assert_eq!(mapping, vec![0, 1, 0, 2]);
    assert_eq!(count, 3);
}

#[test]
fn aggregate_mapping_covers_only_the_requested_prefix() {
    let partition = Partition::from_membership(vec![3, 3, 1, 0]);
    let (mapping, count) = build_orig_to_agg_mapping(3, &partition);
    assert_eq!(mapping, vec![0, 0, 1]);
    assert_eq!(count, 2);
}
