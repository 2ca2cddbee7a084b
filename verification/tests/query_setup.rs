use raven::error::RavenError;
use raven::types::{assemble_partition_output, check_coreset_labels, PartitionOutput};
use raven::workspace::{Persistent, QuerySetupError, QueryTime, ResizeQueryInfo, TreeData};

fn tree_with(len: usize, trials: usize) -> TreeData<2, f64> {
    TreeData {
        persistent: Persistent { volume: vec![1.0; len], size: vec![1; len] },
        query_time: (0..trials).map(|_| QueryTime::default()).collect(),
    }
}

#[test]
fn query_setup_refuses_an_empty_tree() {
    let mut data = tree_with(0, 1);
    let res = data.prepare_query(3, 2, 1, 1, ResizeQueryInfo::Query, 0, 0.0);
    assert_eq!(res, Err(QuerySetupError::NoData));
}

#[test]
fn query_setup_refuses_zero_settings_in_order() {
    let mut data = tree_with(3, 1);
    assert_eq!(
        data.prepare_query(0, 0, 0, 1, ResizeQueryInfo::Query, 0, 0.0),
        Err(QuerySetupError::ZeroCoresetSize)
    );
    assert_eq!(
        data.prepare_query(3, 0, 0, 1, ResizeQueryInfo::Query, 0, 0.0),
        Err(QuerySetupError::ZeroSamplingSeeds)
    );
    assert_eq!(
        data.prepare_query(3, 2, 0, 0, ResizeQueryInfo::Query, 0, 0.0),
        Err(QuerySetupError::ZeroTrials)
    );
}

#[test]
fn query_setup_refuses_oracle_count_mismatch() {
    let mut data = tree_with(3, 2);
    assert_eq!(
        data.prepare_query(3, 2, 2, 1, ResizeQueryInfo::Updates, 0, 0.0),
        Err(QuerySetupError::OracleCount { expected: 2, got: 1 })
    );
}

#[test]
fn query_setup_refuses_workspace_count_mismatch() {
    let mut data = tree_with(3, 1);
    assert_eq!(
        data.prepare_query(3, 2, 2, 2, ResizeQueryInfo::Query, 0, 0.0),
        Err(QuerySetupError::WorkspaceCount { expected: 2, got: 1 })
    );
}

#[test]
fn query_setup_refuses_stale_scratch_when_resized_on_update() {
    let mut data = tree_with(3, 1);
    data.query_time[0].resize(3, 0.0);
    data.query_time[0].h_s.pop();
    assert_eq!(
        data.prepare_query(3, 2, 1, 1, ResizeQueryInfo::Updates, 0, 0.0),
        Err(QuerySetupError::StaleScratch { expected: 3 })
    );
}

#[test]
fn query_setup_resizes_scratch_at_query_time_and_advances_the_counter() {
    let mut data = tree_with(4, 2);
    assert_eq!(data.prepare_query(3, 2, 2, 2, ResizeQueryInfo::Query, 7, 0.0), Ok(8));
    for q in &data.query_time {
        assert_eq!(q.timestamp.len(), 4);
        assert_eq!(q.h_s.len(), 4);
    }
}

#[test]
fn query_setup_refuses_counter_overflow() {
    let mut data = tree_with(2, 1);
    data.query_time[0].resize(2, 0.0);
    assert_eq!(
        data.prepare_query(3, 2, 1, 1, ResizeQueryInfo::Updates, usize::MAX, 0.0),
        Err(QuerySetupError::TimestampOverflow)
    );
}

#[test]
fn coreset_labels_must_match_coreset_nodes() {
    assert_eq!(check_coreset_labels(4, 4), Ok(()));
    assert_eq!(
        check_coreset_labels(3, 12),
        Err(RavenError::UnexpectedOutput(
            "cluster algorithm returned 3 labels for 12 coreset nodes".to_string()
        ))
    );
}

#[test]
fn partition_output_keeps_every_trial_in_order() {
    let trials = vec![(vec![0, 1], vec![0.5, 0.25], 2), (vec![0, 0], vec![1.0, 2.0], 1)];
    match assemble_partition_output(Some(vec![7usize, 8]), trials, None) {
        PartitionOutput::All(names, parts) => {
            assert_eq!(names, vec![7, 8]);
            assert_eq!(parts.len(), 2);
            assert_eq!(parts[1].trial_index, 1);
            assert_eq!(parts[1].labels, vec![0, 0]);
            assert_eq!(parts[1].scores, Some(vec![1.0, 2.0]));
            assert_eq!(parts[0].num_clusters, 2);
        }
        other => panic!("unexpected {:?}", other),
    }
}

#[test]
fn partition_output_returns_only_the_winner() {
    let trials = vec![(vec![0, 1], vec![0.5, 0.25], 2), (vec![0, 0], vec![1.0, 2.0], 1)];
    match assemble_partition_output::<usize, f64>(None, trials, Some(1)) {
        PartitionOutput::Subset(parts) => {
            assert_eq!(parts.len(), 1);
            assert_eq!(parts[0].trial_index, 1);
            assert_eq!(parts[0].labels, vec![0, 0]);
            assert_eq!(parts[0].scores, None);
            assert_eq!(parts[0].num_clusters, 1);
        }
        other => panic!("unexpected {:?}", other),
    }
}
