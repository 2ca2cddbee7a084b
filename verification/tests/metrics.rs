use raven::metrics::{pair_agreement, PairAgreement};

#[test]
fn pair_counts_of_a_partial_agreement() {
    let counts = pair_agreement(&[0, 0, 0, 1, 1, 1], &[0, 0, 1, 1, 2, 2]);
    assert_eq!(
        counts,
        PairAgreement {
            same_both: 2,
            same_true: 6,
            same_pred: 3,
            total_pairs: 15,
        }
    );
    let expected = (6.0 * 3.0) / 15.0;
    let max = 0.5 * (6.0 + 3.0);
    let ari = (2.0 - expected) / (max - expected);
    assert!((ari - 0.24242424242424243f64).abs() < 1e-12);
}

#[test]
fn identical_and_renamed_labellings_have_equal_counts() {
    let labels = [0, 0, 1, 1, 2, 2];
    let same = pair_agreement(&labels, &labels);
    assert_eq!(same.same_both, same.same_true);
    assert_eq!(same.same_both, same.same_pred);
    let renamed = pair_agreement(&labels, &[7, 7, 4, 4, 9, 9]);
    assert_eq!(renamed, same);
}

#[test]
fn pair_counts_of_tiny_inputs() {
    assert_eq!(
        pair_agreement(&[], &[]),
        PairAgreement {
            same_both: 0,
            same_true: 0,
            same_pred: 0,
            total_pairs: 0,
        }
    );
    let one = pair_agreement(&[3], &[4]);
    assert_eq!(one.total_pairs, 0);
    let apart = pair_agreement(&[1, 2, 3], &[1, 1, 1]);
    assert_eq!(apart.same_true, 0);
    assert_eq!(apart.same_pred, 3);
    assert_eq!(apart.same_both, 0);
    assert_eq!(apart.total_pairs, 3);
}
