use std::collections::HashSet;

use raven::error::MemgraphRowError;
use raven::neighbourhoods::{
    owned_from_filtered_rows, owned_from_rows, pack_neighbourhoods, MemgraphNeighbourhoodRow,
    Neighbourhoods, OwnedNeighbourhoods,
};

#[test]
fn pack_neighbourhoods_preserves_requested_row_order() {
    let rows = vec![
        MemgraphNeighbourhoodRow::new(1, vec![(3usize, 3.0f64)]),
        MemgraphNeighbourhoodRow::new(0, vec![(2usize, 2.0f64)]),
    ];

    let packed = pack_neighbourhoods(2, rows).unwrap();

    assert_eq!(packed.offsets, vec![0, 1, 2]);
    assert_eq!(packed.data, vec![(2, 2.0), (3, 3.0)]);
}

#[test]
fn pack_neighbourhoods_rejects_duplicate_rows() {
    let rows = vec![
        MemgraphNeighbourhoodRow::<(usize, f64)>::new(0, vec![]),
        MemgraphNeighbourhoodRow::new(0, vec![]),
    ];

    let err = pack_neighbourhoods(1, rows).unwrap_err();

    assert!(matches!(err, MemgraphRowError::DuplicateRow));
}

#[test]
fn pack_neighbourhoods_rejects_missing_rows() {
    let rows = vec![MemgraphNeighbourhoodRow::<(usize, f64)>::new(1, vec![])];

    let err = pack_neighbourhoods(2, rows).unwrap_err();

    assert!(matches!(err, MemgraphRowError::MissingRow));
}

#[test]
fn pack_neighbourhoods_rejects_out_of_range_rows() {
    let rows = vec![MemgraphNeighbourhoodRow::<(usize, f64)>::new(2, vec![])];
    let err = pack_neighbourhoods(2, rows).unwrap_err();
    assert!(matches!(err, MemgraphRowError::RowIndexOutOfBounds));
}

#[test]
fn filtered_rows_only_include_target_neighbours_and_preserve_source_rows() {
    let rows = vec![
        vec![(2usize, 1.0f64), (3, 2.0)],
        vec![(1usize, 3.0f64), (4, 4.0)],
    ];
    let targets = [3usize, 4].into_iter().collect::<HashSet<_>>();

    let packed = owned_from_filtered_rows(rows, &targets);

    assert_eq!(packed.offsets, vec![0, 1, 2]);
    assert_eq!(packed.data, vec![(3, 2.0), (4, 4.0)]);
}

#[test]
fn owned_rows_concatenate_in_order() {
    let packed = owned_from_rows(vec![vec![1u32, 2], vec![], vec![3]]);
    assert_eq!(packed.data, vec![1, 2, 3]);
    assert_eq!(packed.offsets, vec![0, 2, 2, 3]);
    let rows = packed.as_borrowed();
    assert!(rows.is_well_formed());
    assert_eq!(rows.len(), 3);
    assert_eq!(rows.row(0), Some(&[1u32, 2][..]));
    assert_eq!(rows.row(1), Some(&[][..]));
    assert_eq!(rows.row(3), None);
    let all = rows.iter();
    assert_eq!(all, vec![&[1u32, 2][..], &[][..], &[3u32][..]]);
}

#[test]
fn empty_neighbourhoods_have_no_rows() {
    let empty = OwnedNeighbourhoods::<u8>::empty();
    let rows = empty.as_borrowed();
    assert!(rows.is_empty());
    assert!(rows.is_well_formed());
}

#[test]
fn malformed_offsets_are_detected() {
    let data = [1u8, 2, 3];
    let decreasing = [0usize, 2, 1, 3];
    let rows = Neighbourhoods::new(&data, &decreasing);
    assert!(!rows.is_well_formed());
    assert_eq!(rows.row(1), None);
    let short = [0usize, 2];
    assert!(!Neighbourhoods::new(&data, &short).is_well_formed());
    let late_start = [1usize, 3];
    assert!(!Neighbourhoods::new(&data, &late_start).is_well_formed());
    assert_eq!(Neighbourhoods::new(&data, &[]).len(), 0);
}
