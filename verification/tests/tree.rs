use std::collections::HashSet;

use raven::compact_tree::DeletionError;
use raven::ids::TreeIndex;
use raven::tree_layout::TreeLayout;

type D4 = TreeLayout<4>;
type D2 = TreeLayout<2>;

#[test]
fn tree_layout_helpers_match_d_ary_leaf_math() {
    assert_eq!(D4::internal_count_for_leaves(0), 0);
    assert_eq!(D4::internal_count_for_leaves(1), 0);
    assert_eq!(D4::internal_count_for_leaves(2), 1);
    assert_eq!(D4::internal_count_for_leaves(4), 1);
    assert_eq!(D4::internal_count_for_leaves(5), 2);
    assert_eq!(D4::internal_count_for_leaves(7), 2);
    assert_eq!(D4::internal_count_for_leaves(8), 3);

    assert_eq!(D4::total_count_for_leaves(0), 0);
    assert_eq!(D4::total_count_for_leaves(1), 1);
    assert_eq!(D4::total_count_for_leaves(5), 7);
    assert_eq!(D4::leaf_start_for_leaves(5), 2);
    assert_eq!(D4::leaf_range_for_leaves(5), 2..7);
}

#[test]
fn tree_impls_layout_helpers_match_d_ary_leaf_math() {
    assert_eq!(D4::internal_count_for_leaves(0), 0);
    assert_eq!(D4::internal_count_for_leaves(1), 0);
    assert_eq!(D4::internal_count_for_leaves(2), 1);
    assert_eq!(D4::internal_count_for_leaves(4), 1);
    assert_eq!(D4::internal_count_for_leaves(5), 2);
    assert_eq!(D4::internal_count_for_leaves(7), 2);
    assert_eq!(D4::internal_count_for_leaves(8), 3);

    assert_eq!(D4::total_count_for_leaves(0), 0);
    assert_eq!(D4::total_count_for_leaves(1), 1);
    assert_eq!(D4::total_count_for_leaves(5), 7);
    assert_eq!(D4::leaf_start_for_leaves(5), 2);
    assert_eq!(D4::leaf_range_for_leaves(5), 2..7);
}

#[test]
fn tree_binary_layout_degenerates_to_standard_heap_shape() {
    for leaves in 1..12 {
        assert_eq!(D2::internal_count_for_leaves(leaves), leaves - 1);
        assert_eq!(D2::total_count_for_leaves(leaves), 2 * leaves - 1);
        assert_eq!(D2::leaf_start_for_leaves(leaves), leaves - 1);
    }
}

#[test]
fn tree_impls_binary_layout_degenerates_to_standard_heap_shape() {
    for leaves in 1..12 {
        assert_eq!(D2::internal_count_for_leaves(leaves), leaves - 1);
        assert_eq!(D2::total_count_for_leaves(leaves), 2 * leaves - 1);
        assert_eq!(D2::leaf_start_for_leaves(leaves), leaves - 1);
    }
}

#[test]
fn leaf_index_check_uses_the_leaf_block() {
    assert!(!D4::is_leaf_index_for_leaves(TreeIndex(1), 5));
    assert!(D4::is_leaf_index_for_leaves(TreeIndex(2), 5));
    assert!(D4::is_leaf_index_for_leaves(TreeIndex(6), 5));
    assert!(!D4::is_leaf_index_for_leaves(TreeIndex(7), 5));
}

#[test]
fn parent_and_child_positions_invert_each_other() {
    assert_eq!(D4::parent_index(TreeIndex(0)), None);
    assert_eq!(D4::parent_index(TreeIndex(1)), Some(TreeIndex(0)));
    assert_eq!(D4::parent_index(TreeIndex(4)), Some(TreeIndex(0)));
    assert_eq!(D4::parent_index(TreeIndex(5)), Some(TreeIndex(1)));
    assert_eq!(D4::child_index(TreeIndex(1), 0), TreeIndex(5));
    assert_eq!(D4::child_index(TreeIndex(2), 3), TreeIndex(12));
    for child in 0..4 {
        assert_eq!(
            D4::parent_index(D4::child_index(TreeIndex(3), child)),
            Some(TreeIndex(3))
        );
    }
}

#[test]
fn single_update_walks_to_the_root() {
    assert_eq!(
        D2::apply_updates_from_single(TreeIndex(9)),
        vec![TreeIndex(4), TreeIndex(1), TreeIndex(0)]
    );
    assert!(D2::apply_updates_from_single(TreeIndex(0)).is_empty());
}

#[test]
fn slice_updates_visit_every_ancestor_children_first() {
    let mut seen = Vec::new();
    let mut epoch = 0usize;
    let mut current = Vec::new();
    let mut next = Vec::new();
    let order = D2::apply_updates_from_slice_with_marker(
        9,
        &[TreeIndex(7), TreeIndex(8), TreeIndex(5)],
        &mut current,
        &mut next,
        &mut seen,
        &mut epoch,
    );
    let mut sorted = order.clone();
    sorted.sort_by_key(|idx| idx.0);
    sorted.dedup();
    assert_eq!(sorted, vec![TreeIndex(0), TreeIndex(1), TreeIndex(2), TreeIndex(3)]);
    for (i, idx) in order.iter().enumerate() {
        if let Some(parent) = D2::parent_index(*idx) {
            assert!(order[i + 1..].contains(&parent));
        }
    }
    assert_eq!(order.last(), Some(&TreeIndex(0)));
    assert_eq!(seen.len(), 9);
}

#[test]
fn empty_update_set_visits_nothing() {
    let mut seen = Vec::new();
    let mut epoch = 0usize;
    let mut current = vec![TreeIndex(1)];
    let mut next = Vec::new();
    let order =
        D2::apply_updates_from_slice_with_marker(9, &[], &mut current, &mut next, &mut seen, &mut epoch);
    assert!(order.is_empty());
    assert!(current.is_empty());
}

#[test]
fn insertion_with_small_height_change_moves_promoted_leaves() {
    let plan = D2::plan_leaf_insertion(2, 1);
    assert_eq!(plan.new_leaves, 3);
    assert_eq!(plan.new_internal, 2);
    assert_eq!(plan.moves, vec![(TreeIndex(1), TreeIndex(3))]);
    assert_eq!(plan.fresh_start, 4);
    assert_eq!((plan.rebuild_start, plan.rebuild_end), (3, 5));
    assert!(!plan.reset_touched);
}

#[test]
fn insertion_with_big_height_jump_moves_every_old_leaf() {
    let plan = D2::plan_leaf_insertion(1, 1);
    assert_eq!(plan.new_internal, 1);
    assert_eq!(plan.moves, vec![(TreeIndex(0), TreeIndex(1))]);
    assert_eq!(plan.fresh_start, 2);
    assert_eq!((plan.rebuild_start, plan.rebuild_end), (1, 3));
    assert!(plan.reset_touched);
}

#[test]
fn deleting_a_tail_leaf_promotes_the_live_tail_source() {
    let plan = D2::plan_leaf_deletion(3, &[TreeIndex(4)]).unwrap();
    assert_eq!(plan.new_leaves, 2);
    assert_eq!(plan.new_internal, 1);
    assert_eq!((plan.promoted_start, plan.promoted_end), (1, 2));
    assert_eq!(plan.moves, vec![(TreeIndex(3), TreeIndex(1))]);
}

#[test]
fn deleting_an_interior_leaf_fills_the_hole_from_the_tail() {
    let plan = D2::plan_leaf_deletion(3, &[TreeIndex(3)]).unwrap();
    assert_eq!(plan.moves, vec![(TreeIndex(4), TreeIndex(1))]);
    let plan = D2::plan_leaf_deletion(5, &[TreeIndex(5)]).unwrap();
    assert_eq!(plan.new_leaves, 4);
    assert_eq!(plan.new_internal, 3);
    assert_eq!(
        plan.moves,
        vec![(TreeIndex(7), TreeIndex(3)), (TreeIndex(8), TreeIndex(5))]
    );
}

#[test]
fn deleting_down_to_one_leaf_moves_the_survivor_to_the_root() {
    let plan =
        D2::plan_leaf_deletion(5, &[TreeIndex(4), TreeIndex(5), TreeIndex(6), TreeIndex(7)])
            .unwrap();
    assert_eq!(plan.new_leaves, 1);
    assert_eq!(plan.new_internal, 0);
    assert_eq!(plan.moves, vec![(TreeIndex(8), TreeIndex(0))]);
}

#[test]
fn deleting_every_leaf_empties_the_layout() {
    let plan = D2::plan_leaf_deletion(2, &[TreeIndex(1), TreeIndex(2)]).unwrap();
    assert_eq!(plan.new_leaves, 0);
    assert!(plan.moves.is_empty());
}

#[test]
fn deletion_rejects_internal_positions_and_repeats() {
    assert_eq!(
        D2::plan_leaf_deletion(3, &[TreeIndex(1)]).err(),
        Some(DeletionError::NotALeaf)
    );
    assert_eq!(
        D2::plan_leaf_deletion(3, &[TreeIndex(3), TreeIndex(3)]).err(),
        Some(DeletionError::DuplicateDeletion)
    );
    assert_eq!(
        D2::plan_leaf_deletion(3, &[TreeIndex(3), TreeIndex(9)]).err(),
        Some(DeletionError::NotALeaf)
    );
}

#[test]
fn one_step_recompute_size_sums_existing_children() {
    // Layout over 3 binary leaves: positions 0, 1 internal; 2, 3, 4 leaves.
    let mut sizes = vec![0, 0, 1, 1, 1];
    D2::one_step_recompute_size(TreeIndex(1), &mut sizes);
    assert_eq!(sizes, vec![0, 2, 1, 1, 1]);
    D2::one_step_recompute_size(TreeIndex(0), &mut sizes);
    assert_eq!(sizes, vec![3, 2, 1, 1, 1]);
    // A leaf has no children and keeps its value.
    D2::one_step_recompute_size(TreeIndex(4), &mut sizes);
    assert_eq!(sizes, vec![3, 2, 1, 1, 1]);
}

#[test]
fn one_step_recompute_with_timestamp_prefers_current_values() {
    let mut tree = vec![0, 5, 7, 9, 11];
    let timestamps = vec![0, 3, 2, 3, 1];
    let fallback = vec![0, 100, 200, 300, 400];
    // Children of 0 are 1 and 2: 1 is current, 2 falls back.
    D2::one_step_recompute_with_timestamp(TreeIndex(0), &mut tree, &timestamps, 3, &fallback);
    assert_eq!(tree, vec![205, 5, 7, 9, 11]);
    // Children of 1 are 3 and 4: 3 is current, 4 falls back.
    D2::one_step_recompute_with_timestamp(TreeIndex(1), &mut tree, &timestamps, 3, &fallback);
    assert_eq!(tree, vec![205, 409, 7, 9, 11]);
    // Position 2 has no children in a tree of five positions.
    D2::one_step_recompute_with_timestamp(TreeIndex(2), &mut tree, &timestamps, 3, &fallback);
    assert_eq!(tree, vec![205, 409, 7, 9, 11]);
}

#[test]
fn rebuild_from_leaves_restores_leaf_counts() {
    // Four-ary layout over 7 leaves: positions 0, 1 internal; 2..9 leaves.
    let leaves = 7;
    let total = D4::total_count_for_leaves(leaves);
    assert_eq!(total, 9);
    let mut sizes = vec![1; total];
    sizes[0] = 0;
    sizes[1] = 0;
    D4::rebuild_from_leaves(&mut sizes, leaves, 2, 9);
    // Position 1 holds leaves 5..8, position 0 holds 1 and leaves 2, 3, 4.
    assert_eq!(sizes, vec![7, 4, 1, 1, 1, 1, 1, 1, 1]);
}

#[test]
fn recompute_sizes_above_fixes_only_ancestors() {
    // Binary layout over 4 leaves: 0, 1, 2 internal; 3..6 leaves.
    let mut sizes = vec![9, 9, 2, 1, 1, 1, 1];
    D2::recompute_sizes_above(&mut sizes, 4, &[TreeIndex(3)]);
    // Position 3 lies below 1 and 0; 2 keeps its value.
    assert_eq!(sizes, vec![4, 2, 2, 1, 1, 1, 1]);
}

#[test]
fn set_updates_visit_every_ancestor_children_first() {
    let update_set: HashSet<usize> = [5, 6, 3].into_iter().collect();
    let order = D2::apply_updates_from_set(7, &update_set);
    let positions: Vec<usize> = order.iter().map(|idx| idx.0).collect();
    let mut sorted = positions.clone();
    sorted.sort_unstable();
    sorted.dedup();
    assert_eq!(sorted, vec![0, 1, 2]);
    let last_one = positions.iter().rposition(|&p| p == 1).unwrap();
    let last_two = positions.iter().rposition(|&p| p == 2).unwrap();
    let last_zero = positions.iter().rposition(|&p| p == 0).unwrap();
    assert!(last_one < last_zero && last_two < last_zero);

    let empty: HashSet<usize> = HashSet::new();
    assert!(D2::apply_updates_from_set(7, &empty).is_empty());
}

#[test]
fn slice_updates_recompute_shared_parent_once_and_root_again() {
    let mut current = Vec::new();
    let mut next = Vec::new();
    let mut seen = Vec::new();
    let mut epoch = 0usize;
    let order = D2::apply_updates_from_slice_with_marker(
        5,
        &[TreeIndex(2), TreeIndex(3), TreeIndex(4)],
        &mut current,
        &mut next,
        &mut seen,
        &mut epoch,
    );
    assert_eq!(order, vec![TreeIndex(0), TreeIndex(1), TreeIndex(0)]);
    assert_eq!(seen.len(), 5);
}
