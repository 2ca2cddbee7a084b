use raven::dense_marker::DenseMarker;
use raven::ids::NodeIdentity;

#[test]
fn dense_marker_epoch_overflow_clears_old_marks() {
    let mut marker = DenseMarker::default();
    marker.mark_all(&[NodeIdentity(2)]);
    assert!(marker.contains(NodeIdentity(2)));

    marker.set_epoch(u32::MAX);
    marker.mark_all(&[NodeIdentity(1)]);

    assert_eq!(marker.epoch(), 1);
    assert!(marker.contains(NodeIdentity(1)));
    assert!(!marker.contains(NodeIdentity(2)));
}

#[test]
fn dense_marker_new_batch_replaces_previous_set() {
    let mut marker = DenseMarker::default();
    marker.mark_all(&[NodeIdentity(0), NodeIdentity(5)]);
    assert_eq!(marker.epoch(), 1);
    marker.mark_all(&[NodeIdentity(3)]);
    assert_eq!(marker.epoch(), 2);
    assert!(marker.contains(NodeIdentity(3)));
    assert!(!marker.contains(NodeIdentity(0)));
    assert!(!marker.contains(NodeIdentity(5)));
    assert!(!marker.contains(NodeIdentity(100)));
}

#[test]
fn dense_marker_ordinals_keep_first_occurrence() {
    let mut marker = DenseMarker::default();
    marker.mark_all_with_ordinals(&[
        NodeIdentity(4),
        NodeIdentity(1),
        NodeIdentity(4),
        NodeIdentity(7),
    ]);
    assert_eq!(marker.ordinal(NodeIdentity(4)), Some(0));
    assert_eq!(marker.ordinal(NodeIdentity(1)), Some(1));
    assert_eq!(marker.ordinal(NodeIdentity(7)), Some(3));
    assert_eq!(marker.ordinal(NodeIdentity(2)), None);
    assert_eq!(marker.ordinal(NodeIdentity(50)), None);
}

#[test]
fn dense_marker_empty_batch_marks_nothing() {
    let mut marker = DenseMarker::default();
    marker.mark_all(&[NodeIdentity(2)]);
    marker.mark_all(&[]);
    assert!(!marker.contains(NodeIdentity(2)));
}

#[test]
fn dense_marker_later_epoch_empties_set() {
    let mut marker = DenseMarker::default();
    marker.mark_all(&[NodeIdentity(2)]);
    marker.set_epoch(9);
    assert!(!marker.contains(NodeIdentity(2)));
    assert_eq!(marker.epoch(), 9);
}
