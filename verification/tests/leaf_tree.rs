use std::collections::HashSet;

use raven::ids::TreeIndex;
use raven::leaf_tree::{LeafTree, TreeOpError};
use raven::tree_layout::TreeLayout;

type Tree = LeafTree<2>;

fn set_of(items: &[usize]) -> HashSet<usize> {
    items.iter().copied().collect()
}

/// Every node sits at a leaf position that holds it back, every leaf
/// position holds a node, and every size is the number of leaves below.
fn assert_tree_consistent<const D: usize>(tree: &LeafTree<D>, nodes: &[usize]) {
    let leaves = tree.num_leaves();
    assert_eq!(leaves, nodes.len());
    let total = TreeLayout::<D>::total_count_for_leaves(leaves);
    let range = TreeLayout::<D>::leaf_range_for_leaves(leaves);
    assert_eq!(tree.num_total_nodes(), total);
    assert_eq!(tree.num_internal_nodes(), range.start);
    for &node in nodes {
        let idx = tree.position_of(node).expect("node is in the tree");
        assert!(range.contains(&idx.0));
        assert_eq!(tree.node_at(idx), Some(node));
    }
    for pos in 0..total {
        let mut below = 0;
        for leaf in range.clone() {
            let mut cur = leaf;
            loop {
                if cur == pos {
                    below += 1;
                    break;
                }
                if cur == 0 {
                    break;
                }
                cur = (cur - 1) / D;
            }
        }
        assert_eq!(tree.size_at(TreeIndex(pos)), Some(below), "size at {pos}");
    }
    assert_eq!(tree.size_at(TreeIndex(total)), None);
}

#[test]
fn tree_insert_big_height_jump_clears_pending_touched_indices() {
    let mut tree = Tree::new();
    let mut touched = HashSet::new();

    tree.insert_fresh_nodes(&[1], &mut touched).unwrap();
    touched.insert(0);

    tree.insert_fresh_nodes(&[2], &mut touched).unwrap();

    assert!(touched.is_empty());
    assert_eq!(tree.size_at(TreeIndex(0)), Some(2));
    assert_eq!(tree.position_of(1), Some(TreeIndex(1)));
    assert_eq!(tree.position_of(2), Some(TreeIndex(2)));
}

#[test]
fn tree_insert_small_height_change_removes_touched_promoted_leaves_only() {
    let mut tree = Tree::new();
    let mut touched = HashSet::new();

    tree.insert_fresh_nodes(&[1, 2], &mut touched).unwrap();

    touched.insert(1);
    touched.insert(2);

    tree.insert_fresh_nodes(&[3], &mut touched).unwrap();

    assert!(!touched.contains(&1));
    assert!(touched.contains(&2));
    assert_eq!(touched.len(), 1);

    assert_eq!(tree.position_of(1), Some(TreeIndex(3)));
    assert_eq!(tree.position_of(2), Some(TreeIndex(2)));
    assert_eq!(tree.position_of(3), Some(TreeIndex(4)));
    assert_eq!(tree.size_at(TreeIndex(0)), Some(3));
}

#[test]
fn tree_delete_tail_leaf_promotes_live_tail_source() {
    let mut tree = Tree::new();
    let mut touched = HashSet::new();

    tree.insert_fresh_nodes(&[1, 2, 3], &mut touched).unwrap();

    touched.insert(2);
    touched.insert(3);

    tree.delete_nodes_compact(&[3], &mut touched).unwrap();
    tree.apply_updates_from_set(&touched);

    assert_eq!(tree.num_total_nodes(), 3);
    assert_eq!(tree.position_of(2), Some(TreeIndex(1)));
    assert_eq!(tree.position_of(1), Some(TreeIndex(2)));
    assert_eq!(tree.position_of(3), None);

    assert_eq!(touched, set_of(&[2]));
    assert_eq!(tree.size_at(TreeIndex(0)), Some(2));
}

#[test]
fn tree_delete_interior_leaf_fills_hole_from_tail_source() {
    let mut tree = Tree::new();
    let mut touched = HashSet::new();

    tree.insert_fresh_nodes(&[1, 2, 3], &mut touched).unwrap();

    tree.delete_nodes_compact(&[1], &mut touched).unwrap();
    tree.apply_updates_from_set(&touched);

    assert_eq!(tree.num_total_nodes(), 3);
    assert_eq!(tree.position_of(2), Some(TreeIndex(1)));
    assert_eq!(tree.position_of(3), Some(TreeIndex(2)));
    assert_eq!(tree.position_of(1), None);

    assert_eq!(touched, set_of(&[2]));
    assert_eq!(tree.size_at(TreeIndex(0)), Some(2));
}

#[test]
fn tree_delete_to_single_leaf_moves_survivor_to_root() {
    let mut tree = Tree::new();
    let mut touched = HashSet::new();

    tree.insert_fresh_nodes(&[1, 2, 3, 4, 5], &mut touched).unwrap();

    tree.delete_nodes_compact(&[1, 2, 3, 4], &mut touched).unwrap();

    assert!(touched.is_empty());
    assert_eq!(tree.num_total_nodes(), 1);
    assert_eq!(tree.position_of(5), Some(TreeIndex(0)));
    assert_eq!(tree.node_at(TreeIndex(0)), Some(5));
    assert_eq!(tree.size_at(TreeIndex(0)), Some(1));
}

#[test]
fn tree_delete_all_nodes_clears_tree() {
    let mut tree = Tree::new();
    let mut touched = HashSet::new();

    tree.insert_fresh_nodes(&[1, 2], &mut touched).unwrap();
    touched.insert(1);

    tree.delete_nodes_compact(&[1, 2], &mut touched).unwrap();

    assert!(touched.is_empty());
    assert_eq!(tree.num_leaves(), 0);
    assert_eq!(tree.position_of(1), None);
    assert_eq!(tree.position_of(2), None);
    assert_eq!(tree.node_at(TreeIndex(0)), None);
    assert_eq!(tree.num_total_nodes(), 0);
}

#[test]
fn tree_apply_node_ops_handles_mixed_delete_insert_modify_batch() {
    let mut tree = Tree::new();

    tree.apply_node_ops(&[
        (1, Some(1.0)),
        (2, Some(2.0)),
        (3, Some(3.0)),
        (4, Some(4.0)),
        (5, Some(5.0)),
    ])
    .unwrap();
    assert_tree_consistent(&tree, &[1, 2, 3, 4, 5]);

    tree.apply_node_ops(&[
        (2, None),
        (3, Some(30.0)),
        (4, None),
        (6, Some(6.0)),
        (7, Some(7.0)),
    ])
    .unwrap();

    assert_tree_consistent(&tree, &[1, 3, 5, 6, 7]);
    assert_eq!(tree.num_leaves(), 5);
    assert_eq!(tree.position_of(2), None);
    assert_eq!(tree.position_of(4), None);
    assert_eq!(tree.size_at(TreeIndex(0)), Some(5));
}

#[test]
fn tree_apply_node_ops_can_delete_all_nodes() {
    let mut tree = Tree::new();

    tree.apply_node_ops(&[(1, Some(1.0)), (2, Some(2.0))]).unwrap();
    tree.apply_node_ops::<f64>(&[(1, None), (2, None)]).unwrap();

    assert_tree_consistent(&tree, &[]);
    assert_eq!(tree.num_leaves(), 0);
    assert_eq!(tree.position_of(1), None);
    assert_eq!(tree.num_total_nodes(), 0);
}

#[test]
fn leaf_tree_rejects_duplicate_operations_without_change() {
    let mut tree = Tree::new();
    tree.apply_node_ops(&[(1, Some(1.0)), (2, Some(2.0))]).unwrap();

    let res = tree.apply_node_ops(&[(3, Some(3.0)), (3, None)]);
    assert_eq!(res, Err(TreeOpError::DuplicateOperation));
    assert_tree_consistent(&tree, &[1, 2]);
    assert_eq!(tree.position_of(3), None);
}

#[test]
fn leaf_tree_ignores_removal_of_absent_node() {
    let mut tree = Tree::new();
    tree.apply_node_ops(&[(1, Some(1.0)), (2, Some(2.0))]).unwrap();
    tree.apply_node_ops::<f64>(&[(9, None)]).unwrap();
    assert_tree_consistent(&tree, &[1, 2]);
}

#[test]
fn leaf_tree_insert_refuses_existing_node() {
    let mut tree = Tree::new();
    let mut touched = HashSet::new();
    tree.insert_fresh_nodes(&[1, 2], &mut touched).unwrap();
    touched.insert(2);

    let res = tree.insert_fresh_nodes(&[3, 1], &mut touched);
    assert_eq!(res, Err(TreeOpError::NodeAlreadyExists));
    assert_eq!(tree.num_leaves(), 2);
    assert_eq!(tree.position_of(3), None);
    assert_eq!(touched, set_of(&[2]));
}

#[test]
fn leaf_tree_delete_reports_first_failing_node() {
    let mut tree = Tree::new();
    let mut touched = HashSet::new();
    tree.insert_fresh_nodes(&[1, 2, 3], &mut touched).unwrap();

    assert_eq!(
        tree.delete_nodes_compact(&[1, 7, 1], &mut touched),
        Err(TreeOpError::NodeNotFound)
    );
    assert_eq!(
        tree.delete_nodes_compact(&[1, 1, 7], &mut touched),
        Err(TreeOpError::DuplicateDeletion)
    );
    assert_eq!(tree.num_leaves(), 3);
    assert_eq!(tree.position_of(1), Some(TreeIndex(2)));
}

#[test]
fn leaf_tree_modified_nodes_mark_their_positions() {
    let mut tree = Tree::new();
    let mut touched = HashSet::new();
    tree.insert_fresh_nodes(&[1, 2, 3], &mut touched).unwrap();

    assert_eq!(tree.update_modified_nodes(&[3, 1], &mut touched), Ok(()));
    assert_eq!(touched, set_of(&[4, 2]));

    assert_eq!(
        tree.update_modified_nodes(&[2, 8, 1], &mut touched),
        Err(TreeOpError::NodeNotFound)
    );
    assert_eq!(touched, set_of(&[4, 2, 3]));
}

#[test]
fn leaf_tree_classifies_operations_by_membership() {
    let mut tree = Tree::new();
    tree.apply_node_ops(&[(1, Some(1.0)), (2, Some(2.0))]).unwrap();

    let ops = tree
        .classify_node_ops(&[(2, Some(20.0)), (5, Some(5.0)), (1, None), (9, None)])
        .unwrap();
    assert_eq!(ops.fresh, vec![(5, 5.0)]);
    assert_eq!(ops.modified, vec![(2, 20.0)]);
    assert_eq!(ops.deleted, vec![1]);
}

#[test]
fn leaf_tree_keeps_sizes_over_a_long_batch_sequence() {
    let mut tree = LeafTree::<3>::new();
    let mut present: Vec<usize> = Vec::new();
    for round in 0..12usize {
        let mut diffs: Vec<(usize, Option<u32>)> = Vec::new();
        for k in 0..(round % 5 + 1) {
            diffs.push((round * 10 + k, Some(1)));
        }
        if round % 3 == 2 {
            let removed: Vec<usize> = present.iter().copied().step_by(2).collect();
            for node in removed {
                diffs.push((node, None));
            }
        }
        tree.apply_node_ops(&diffs).unwrap();
        for (node, value) in &diffs {
            if value.is_some() {
                present.push(*node);
            } else {
                present.retain(|x| x != node);
            }
        }
        assert_tree_consistent(&tree, &present);
    }
}

#[test]
fn tree_impls_insert_big_height_jump_clears_pending_touched_indices() {
    let mut tree = Tree::new();
    let mut touched = HashSet::new();

    tree.insert_fresh_nodes(&[1], &mut touched).unwrap();
    touched.insert(0);

    tree.insert_fresh_nodes(&[2], &mut touched).unwrap();

    assert!(touched.is_empty());
    assert_eq!(tree.size_at(TreeIndex(0)), Some(2));
    assert_eq!(tree.position_of(1), Some(TreeIndex(1)));
    assert_eq!(tree.position_of(2), Some(TreeIndex(2)));
}

#[test]
fn tree_impls_insert_small_height_change_removes_touched_promoted_leaves_only() {
    let mut tree = Tree::new();
    let mut touched = HashSet::new();

    tree.insert_fresh_nodes(&[1, 2], &mut touched).unwrap();

    touched.insert(1);
    touched.insert(2);

    tree.insert_fresh_nodes(&[3], &mut touched).unwrap();

    assert!(!touched.contains(&1));
    assert!(touched.contains(&2));
    assert_eq!(touched.len(), 1);

    assert_eq!(tree.position_of(1), Some(TreeIndex(3)));
    assert_eq!(tree.position_of(2), Some(TreeIndex(2)));
    assert_eq!(tree.position_of(3), Some(TreeIndex(4)));
    assert_eq!(tree.size_at(TreeIndex(0)), Some(3));
}

#[test]
fn tree_impls_delete_tail_leaf_promotes_live_tail_source() {
    let mut tree = Tree::new();
    let mut touched = HashSet::new();

    tree.insert_fresh_nodes(&[1, 2, 3], &mut touched).unwrap();

    touched.insert(2);
    touched.insert(3);

    tree.delete_nodes_compact(&[3], &mut touched).unwrap();

    assert_eq!(tree.position_of(2), Some(TreeIndex(1)));
    assert_eq!(tree.position_of(1), Some(TreeIndex(2)));
    assert_eq!(tree.position_of(3), None);

    assert_eq!(touched, set_of(&[2]));
    assert_eq!(tree.size_at(TreeIndex(0)), Some(2));
}

#[test]
fn tree_impls_delete_interior_leaf_fills_hole_from_tail_source() {
    let mut tree = Tree::new();
    let mut touched = HashSet::new();

    tree.insert_fresh_nodes(&[1, 2, 3], &mut touched).unwrap();

    tree.delete_nodes_compact(&[1], &mut touched).unwrap();

    assert_eq!(tree.position_of(2), Some(TreeIndex(1)));
    assert_eq!(tree.position_of(3), Some(TreeIndex(2)));
    assert_eq!(tree.position_of(1), None);

    assert_eq!(touched, set_of(&[2]));
    assert_eq!(tree.size_at(TreeIndex(0)), Some(2));
}

#[test]
fn tree_impls_delete_to_single_leaf_moves_survivor_to_root() {
    let mut tree = Tree::new();
    let mut touched = HashSet::new();

    tree.insert_fresh_nodes(&[1, 2, 3, 4, 5], &mut touched).unwrap();

    tree.delete_nodes_compact(&[1, 2, 3, 4], &mut touched).unwrap();

    assert!(touched.is_empty());
    assert_eq!(tree.position_of(5), Some(TreeIndex(0)));
    assert_eq!(tree.node_at(TreeIndex(0)), Some(5));
    assert_eq!(tree.size_at(TreeIndex(0)), Some(1));
}

#[test]
fn tree_impls_delete_all_nodes_clears_tree() {
    let mut tree = Tree::new();
    let mut touched = HashSet::new();

    tree.insert_fresh_nodes(&[1, 2], &mut touched).unwrap();
    touched.insert(1);

    tree.delete_nodes_compact(&[1, 2], &mut touched).unwrap();

    assert!(touched.is_empty());
    assert_eq!(tree.position_of(1), None);
    assert_eq!(tree.position_of(2), None);
    assert_eq!(tree.node_at(TreeIndex(0)), None);
    assert_eq!(tree.num_total_nodes(), 0);
}

#[test]
fn tree_impls_apply_node_ops_handles_mixed_delete_insert_modify_batch() {
    let mut tree = Tree::new();

    tree.apply_node_ops(&[
        (1, Some(1.0)),
        (2, Some(2.0)),
        (3, Some(3.0)),
        (4, Some(4.0)),
        (5, Some(5.0)),
    ])
    .unwrap();
    assert_tree_consistent(&tree, &[1, 2, 3, 4, 5]);

    tree.apply_node_ops(&[
        (2, None),
        (3, Some(30.0)),
        (4, None),
        (6, Some(6.0)),
        (7, Some(7.0)),
    ])
    .unwrap();

    assert_tree_consistent(&tree, &[1, 3, 5, 6, 7]);
    assert_eq!(tree.num_leaves(), 5);
    assert_eq!(tree.position_of(2), None);
    assert_eq!(tree.position_of(4), None);
    assert_eq!(tree.size_at(TreeIndex(0)), Some(5));
}

#[test]
fn tree_impls_apply_node_ops_can_delete_all_nodes() {
    let mut tree = Tree::new();

    tree.apply_node_ops(&[(1, Some(1.0)), (2, Some(2.0))]).unwrap();
    tree.apply_node_ops::<f64>(&[(1, None), (2, None)]).unwrap();

    assert_tree_consistent(&tree, &[]);
    assert_eq!(tree.num_leaves(), 0);
    assert_eq!(tree.position_of(1), None);
    assert_eq!(tree.num_total_nodes(), 0);
}

#[test]
fn nodes_by_position_follow_the_leaf_range() {
    let mut tree = LeafTree::<2>::new();
    let mut touched = HashSet::new();
    tree.insert_fresh_nodes(&[10, 20, 30], &mut touched).unwrap();
    let order = tree.nodes_by_position();
    assert_eq!(order.len(), 3);
    let first = tree.num_internal_nodes();
    for (i, node) in order.iter().enumerate() {
        assert_eq!(tree.node_at(TreeIndex(first + i)), Some(*node));
    }
    let mut sorted = order.clone();
    sorted.sort();
    assert_eq!(sorted, vec![10, 20, 30]);
}
