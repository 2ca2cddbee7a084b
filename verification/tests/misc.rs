use std::collections::HashMap;

use rand::{RngExt, SeedableRng};

use raven::config::{default_sampling_seeds, non_zero, validate_settings, ConfigViolation, EdgeUpdateStats};
use raven::edges::{edge_key, labels_from_memgraph_map, ordered_edge};
use raven::elapsed::Elapsed;
use raven::error::{InMemoryGraphError, InMemoryIndexError, InvalidNumber, MemgraphRowError, RavenError, RemoteGraphError, ReciprocalOverflow};
use raven::ids::{NodeIdentity, TreeIndex};
use raven::interner::NodeInterner;
use raven::node_ops::NodeOpsBuffer;
use raven::remote::{MemgraphCacheConfig, MemgraphFilterStrategy, MemgraphQueries, RemoteSnapshotNodeOps, SnapshotId, GRAPH_NEIGHBOURHOODS_QUERY};
use raven::rng::RngMode;
use raven::timing::{CoresetExtractionTiming, FullGraphLabelTiming, InMemoryOracleTiming, QueryTiming};
use raven::types::{query_result_from_trial, query_results_from_output, PartitionOutput, SamplingStats, TrialPartition};
use raven::workspace::QueryTime;

#[test]
fn trial_seeds_follow_the_splitmix_finaliser() {
    assert_eq!(RngMode::trial_seed(0, 0), 0);
    assert_eq!(RngMode::trial_seed(42, 0), 12058926934050108962);
    assert_eq!(RngMode::trial_seed(42, 1), 13679457532755275413);
    assert_eq!(RngMode::trial_seed(42, 7), 4028864712777624925);
    assert_eq!(RngMode::trial_seed(u64::MAX, 3), 4048727598324417001);
}

#[test]
fn seeded_generators_repeat_per_trial() {
    let mut a = RngMode::Seeded(7).rng_for_trial(3).unwrap();
    let mut b = RngMode::Seeded(7).rng_for_trial(3).unwrap();
    let mut c = RngMode::Seeded(7).rng_for_trial(4).unwrap();
    let xa: u64 = a.random();
    let xb: u64 = b.random();
    let xc: u64 = c.random();
    assert_eq!(xa, xb);
    assert_ne!(xa, xc);
    if let Some(mut fresh) = RngMode::Random.rng_for_trial(0) {
        let _: u64 = fresh.random();
    }
}

#[test]
fn elapsed_spans_add_with_carry() {
    let a = Elapsed::new(1, 700_000_000);
    let b = Elapsed::new(2, 600_000_000);
    let sum = a.add(b);
    assert_eq!(sum.as_secs(), 4);
    assert_eq!(sum.subsec_nanos(), 300_000_000);
    let carried = Elapsed::new(0, 2_500_000_000);
    assert_eq!(carried.as_secs(), 2);
    assert_eq!(carried.subsec_nanos(), 500_000_000);
    assert_eq!(Elapsed::zero(), Elapsed::default());
}

#[test]
fn oracle_timings_add_field_by_field() {
    let mut total = InMemoryOracleTiming::default();
    let mut one = InMemoryOracleTiming::default();
    one.graph_calls = 2;
    one.coreset_edges = 5;
    one.graph_time = Elapsed::new(1, 0);
    one.intersecting_time = Elapsed::new(0, 500);
    one.coreset_time = Elapsed::new(0, 999_999_600);
    total.add(one);
    total.add(one);
    assert_eq!(total.graph_calls, 4);
    assert_eq!(total.coreset_edges, 10);
    assert_eq!(total.graph_sources, 0);
    let t = total.total_time();
    assert_eq!(t.as_secs(), 4);
    assert_eq!(t.subsec_nanos(), 200);
}

#[test]
fn label_and_extraction_timings_add() {
    let mut label = FullGraphLabelTiming::default();
    let mut other = FullGraphLabelTiming::default();
    other.labelled_nodes = 3;
    other.setup = Elapsed::new(0, 10);
    label.add(other);
    label.add(other);
    assert_eq!(label.labelled_nodes, 6);
    assert_eq!(label.setup.subsec_nanos(), 20);

    let mut extraction = CoresetExtractionTiming::default();
    extraction.initial_repairs = Elapsed::new(1, 0);
    extraction.seed_repairs = Elapsed::new(0, 5);
    extraction.repair_calls = 1;
    let mut sum = CoresetExtractionTiming::default();
    sum.add(extraction);
    assert_eq!(sum.repair_calls, 1);
    let wall = sum.repair_wall();
    assert_eq!((wall.as_secs(), wall.subsec_nanos()), (1, 5));
    assert!(QueryTiming::default().trials.is_empty());
}

#[test]
fn sampling_seed_defaults() {
    assert_eq!(default_sampling_seeds(4, 8192), 16);
    assert_eq!(default_sampling_seeds(2, 3), 2);
    assert_eq!(default_sampling_seeds(0, 0), 2);
    assert_eq!(default_sampling_seeds(usize::MAX, 100), 99);
    assert_eq!(default_sampling_seeds(10, 25), 24);
}

#[test]
fn settings_are_checked_in_order() {
    assert_eq!(validate_settings(4, true, 8192, 16, 1, 1024, 16, 4096), Ok(()));
    assert_eq!(
        validate_settings(0, false, 0, 0, 0, 0, 0, 0),
        Err(ConfigViolation::ZeroClusters)
    );
    assert_eq!(
        validate_settings(1, false, 0, 0, 0, 0, 0, 0),
        Err(ConfigViolation::InvalidSigma)
    );
    assert_eq!(
        validate_settings(1, true, 3, 3, 1, 1, 1, 1),
        Err(ConfigViolation::TooManySamplingSeeds)
    );
    assert_eq!(
        validate_settings(1, true, 3, 2, 1, 1, 1, 0),
        Err(ConfigViolation::ZeroDegreeRebuildThreshold)
    );
    assert_eq!(non_zero(3, "node_capacity"), Ok(3));
    assert_eq!(
        non_zero(0, "node_capacity"),
        Err(RavenError::InvalidConfig("node_capacity must be non-zero".to_string()))
    );
    assert_eq!(EdgeUpdateStats::default().total, 0);
}

#[test]
fn error_descriptions() {
    assert_eq!(
        InMemoryGraphError::SelfLoop.message(),
        "self-loops are not supported by the in-memory graph"
    );
    assert_eq!(
        RemoteGraphError::MissingNode.message(),
        "node was missing from the remote graph"
    );
    assert_eq!(
        MemgraphRowError::MissingRow.message(),
        "Memgraph did not return one row per requested source"
    );
    assert_eq!(InvalidNumber::NaN.message(), "NaN is not a valid number");
    assert_eq!(ReciprocalOverflow.message(), "reciprocal overflowed to infinity");
    assert!(matches!(
        InMemoryIndexError::from(InMemoryGraphError::MissingEdge),
        InMemoryIndexError::Graph(InMemoryGraphError::MissingEdge)
    ));
}

#[test]
fn node_interner_reuses_released_slots_for_clone_only_ids() {
    let mut interner = NodeInterner::new();

    let alpha = interner.intern(100);
    let beta = interner.intern(200);

    assert_eq!(interner.get(&100), Some(alpha));
    assert_eq!(interner.external(beta), Some(200));

    assert_eq!(interner.release(alpha), Some(100));
    assert_eq!(interner.get(&100), None);

    let gamma = interner.intern(300);
    assert_eq!(gamma, alpha);
    assert_eq!(interner.external(gamma), Some(300));
    assert_eq!(interner.get(&200), Some(beta));
}

#[test]
fn interner_mints_fresh_identities_and_ignores_unknown_releases() {
    let mut interner = NodeInterner::default();
    assert_eq!(interner.intern(5), NodeIdentity(0));
    assert_eq!(interner.intern(6), NodeIdentity(1));
    assert_eq!(interner.intern(5), NodeIdentity(0));
    assert_eq!(interner.release(NodeIdentity(9)), None);
    assert_eq!(interner.release(NodeIdentity(1)), Some(6));
    assert_eq!(interner.release(NodeIdentity(1)), None);
    assert_eq!(interner.external(NodeIdentity(1)), None);
    let mut sized = NodeInterner::with_capacity(8);
    assert_eq!(sized.intern(1), NodeIdentity(0));
}

#[test]
fn node_ops_buffer_tracks_unique_touched_nodes() {
    let mut buffer = NodeOpsBuffer::with_capacity(3);
    buffer.touch(NodeIdentity(1));
    buffer.touch(NodeIdentity(2));
    buffer.touch(NodeIdentity(1));
    assert_eq!(buffer.len(), 2);
    assert!(!buffer.is_full());
    buffer.touch(NodeIdentity(3));
    assert!(buffer.is_full());
    let nodes = buffer.take_nodes();
    assert_eq!(nodes, vec![NodeIdentity(1), NodeIdentity(2), NodeIdentity(3)]);
    assert!(buffer.is_empty());
    let unbounded = NodeOpsBuffer::default();
    assert!(!unbounded.is_full());
}

#[test]
fn query_time_scratch_resizes_truncates_and_clears() {
    let mut scratch: QueryTime<f64> = QueryTime::default();
    scratch.resize(3, 0.0);
    assert_eq!(scratch.timestamp, vec![0, 0, 0]);
    assert_eq!(scratch.seed_owner, vec![TreeIndex(0); 3]);
    assert_eq!(scratch.h_b, vec![0.0; 3]);
    scratch.timestamp[1] = 7;
    scratch.tree_update_current.push(TreeIndex(2));
    scratch.old_seed_seen_epoch = 4;
    scratch.truncate(2);
    assert_eq!(scratch.timestamp, vec![0, 7]);
    assert_eq!(scratch.f_delta.len(), 2);
    assert_eq!(scratch.tree_update_current, vec![TreeIndex(2)]);
    scratch.resize(4, 1.5);
    assert_eq!(scratch.timestamp, vec![0, 7, 0, 0]);
    assert_eq!(scratch.seed_weight, vec![0.0, 0.0, 1.5, 1.5]);
    scratch.clear();
    assert!(scratch.timestamp.is_empty());
    assert!(scratch.tree_update_current.is_empty());
    assert_eq!(scratch.old_seed_seen_epoch, 0);
}

#[test]
fn trial_results_must_match_the_request() {
    let trial = TrialPartition { trial_index: 2, labels: vec![0, 1], scores: Some(vec![0.5f64, 1.0]), num_clusters: 2 };
    let result = query_result_from_trial(&[7, 8], trial).unwrap();
    assert_eq!(result.nodes, vec![7, 8]);
    assert_eq!(result.trial_index, 2);
    let short = TrialPartition::<f64> { trial_index: 0, labels: vec![0], scores: None, num_clusters: 1 };
    assert_eq!(
        query_result_from_trial(&[7, 8], short).unwrap_err(),
        RavenError::UnexpectedOutput("query returned 1 labels for 2 requested nodes".to_string())
    );
    let bad_scores = TrialPartition { trial_index: 0, labels: vec![0, 0], scores: Some(vec![1.0f64]), num_clusters: 1 };
    assert_eq!(
        query_result_from_trial(&[7, 8], bad_scores).unwrap_err(),
        RavenError::UnexpectedOutput("query returned 1 scores for 2 requested nodes".to_string())
    );
    let all: PartitionOutput<usize, f64> = PartitionOutput::All(vec![], vec![]);
    assert!(query_results_from_output(&[1], all).is_err());
    let subset: PartitionOutput<usize, f64> = PartitionOutput::Subset(vec![
        TrialPartition { trial_index: 0, labels: vec![3], scores: None, num_clusters: 1 },
        TrialPartition { trial_index: 1, labels: vec![4], scores: None, num_clusters: 1 },
    ]);
    let results = query_results_from_output(&[9], subset).unwrap();
    assert_eq!(results.len(), 2);
    assert_eq!(results[1].labels, vec![4]);
}

#[test]
fn sampling_stats_add() {
    let a = SamplingStats { num_samples: 3, num_clippings: 1 };
    let sum = SamplingStats::new().add(a).add(a);
    assert_eq!(sum, SamplingStats { num_samples: 6, num_clippings: 2 });
}

#[test]
fn edge_helpers() {
    assert_eq!(ordered_edge(5, 2), (2, 5));
    assert_eq!(ordered_edge(2, 5), (2, 5));
    assert_eq!(edge_key(3, 4, 16384), Some(3 * 16384 + 4));
    assert_eq!(edge_key(usize::MAX, 0, 1), None);
    assert_eq!(edge_key(1 << 40, 0, 1 << 40), None);
    let labels = HashMap::from([(1usize, 10usize), (2, 20)]);
    assert_eq!(labels_from_memgraph_map(&labels, &[2, 1]), Ok(vec![20, 10]));
    assert_eq!(labels_from_memgraph_map(&labels, &[2, 3, 4]), Err(3));
}

#[test]
fn remote_settings_defaults() {
    assert_eq!(MemgraphFilterStrategy::default(), MemgraphFilterStrategy::FullRowsThenFilterLocally);
    let cache = MemgraphCacheConfig::default();
    assert_eq!(cache.max_capacity, 100_000);
    assert!(cache.time_to_live.is_none());
    let queries = MemgraphQueries::default();
    assert_eq!(queries.graph_neighbourhoods, GRAPH_NEIGHBOURHOODS_QUERY);
    let ops = RemoteSnapshotNodeOps::new(SnapshotId(3), vec![(1usize, Some(2.0f64)), (2, None)]);
    assert_eq!(ops.snapshot, SnapshotId(3));
    assert_eq!(ops.node_ops().len(), 2);
    assert_eq!(ops.into_node_ops()[1], (2, None));
}

#[test]
fn external_nodes_map_back_in_order_and_report_the_first_unknown() {
    let mut interner = NodeInterner::new();
    let a = interner.intern(500);
    let b = interner.intern(70);
    assert_eq!(interner.external_nodes(&[b, a, b]).unwrap(), vec![70, 500, 70]);
    assert!(interner.external_nodes(&[]).unwrap().is_empty());
    let released = interner.release(a);
    assert_eq!(released, Some(500));
    assert!(matches!(
        interner.external_nodes(&[b, a, NodeIdentity(9)]),
        Err(InMemoryIndexError::MissingExternalMapping(node)) if node == a
    ));
}

#[test]
fn map_output_translates_full_outputs_and_passes_subsets_through() {
    let mut interner = NodeInterner::new();
    let a = interner.intern(11);
    let b = interner.intern(4);
    let trial = || TrialPartition::<f64> {
        trial_index: 0,
        labels: vec![1, 0],
        scores: None,
        num_clusters: 2,
    };
    match interner
        .map_output(PartitionOutput::All(vec![b, a], vec![trial()]))
        .unwrap()
    {
        PartitionOutput::All(ids, trials) => {
            assert_eq!(ids, vec![4, 11]);
            assert_eq!(trials.len(), 1);
            assert_eq!(trials[0].labels, vec![1, 0]);
        }
        PartitionOutput::Subset(_) => panic!("expected a full output"),
    }
    match interner
        .map_output(PartitionOutput::<NodeIdentity, f64>::Subset(vec![trial()]))
        .unwrap()
    {
        PartitionOutput::Subset(trials) => assert_eq!(trials[0].num_clusters, 2),
        PartitionOutput::All(..) => panic!("expected a subset output"),
    }
    assert!(matches!(
        interner.map_output(PartitionOutput::All(vec![a, NodeIdentity(7)], vec![trial()])),
        Err(InMemoryIndexError::MissingExternalMapping(NodeIdentity(7)))
    ));
}

#[test]
fn seed_owner_is_read_only_within_its_round() {
    let mut qt: QueryTime<f64> = QueryTime::default();
    qt.resize(4, 0.0);
    assert_eq!(qt.get_seed_idx(TreeIndex(2), 7, TreeIndex(9)), TreeIndex(9));
    qt.set_seed_idx(TreeIndex(2), TreeIndex(3), 7);
    assert_eq!(qt.get_seed_idx(TreeIndex(2), 7, TreeIndex(9)), TreeIndex(3));
    assert_eq!(qt.get_seed_idx(TreeIndex(2), 8, TreeIndex(9)), TreeIndex(9));
}

#[test]
fn old_seeds_are_pushed_once_per_epoch() {
    let mut qt: QueryTime<f64> = QueryTime::default();
    qt.resize(5, 0.0);
    let epoch = qt.next_old_seed_seen_epoch();
    assert_eq!(epoch, 1);
    let mut seeds = Vec::new();
    for idx in [3, 1, 3, 4, 1] {
        qt.push_old_seed_once(TreeIndex(idx), epoch, &mut seeds);
    }
    assert_eq!(seeds, vec![TreeIndex(3), TreeIndex(1), TreeIndex(4)]);
    let next = qt.next_old_seed_seen_epoch();
    assert_eq!(next, 2);
    let mut again = Vec::new();
    qt.push_old_seed_once(TreeIndex(3), next, &mut again);
    assert_eq!(again, vec![TreeIndex(3)]);
}

#[test]
fn old_seed_epoch_wraps_by_clearing_marks() {
    let mut qt: QueryTime<f64> = QueryTime::default();
    qt.resize(3, 0.0);
    qt.old_seed_seen_epoch = usize::MAX;
    qt.old_seed_seen[1] = usize::MAX;
    let epoch = qt.next_old_seed_seen_epoch();
    assert_eq!(epoch, 1);
    assert_eq!(qt.old_seed_seen, vec![0, 0, 0]);
    let mut seeds = Vec::new();
    qt.push_old_seed_once(TreeIndex(1), epoch, &mut seeds);
    assert_eq!(seeds, vec![TreeIndex(1)]);
}

#[test]
fn remote_snapshot_node_ops_exposes_snapshot_and_core_node_ops() {
    let snapshot_node_ops =
        RemoteSnapshotNodeOps::new(SnapshotId(5), vec![(1usize, Some(3.0f64)), (2, None)]);

    assert_eq!(snapshot_node_ops.snapshot, SnapshotId(5));
    assert_eq!(snapshot_node_ops.node_ops(), &[(1, Some(3.0)), (2, None)]);
    assert_eq!(
        snapshot_node_ops.into_node_ops(),
        vec![(1, Some(3.0)), (2, None)]
    );
}

#[test]
fn remote_snapshot_node_ops_can_update_the_core_tree() {
    let snapshot_node_ops = RemoteSnapshotNodeOps::new(
        SnapshotId(13),
        vec![(10usize, Some(4.0f64)), (20, Some(4.0))],
    );
    let mut tree = raven::leaf_tree::LeafTree::<2>::new();

    tree.apply_node_ops(snapshot_node_ops.node_ops()).unwrap();

    assert_eq!(snapshot_node_ops.snapshot, SnapshotId(13));
    assert_eq!(tree.num_leaves(), 2);
}

#[test]
fn seeded_generator_is_seeded_with_the_trial_seed() {
    let mut from_mode = RngMode::Seeded(11).rng_for_trial(2).unwrap();
    let mut direct = rand::rngs::StdRng::seed_from_u64(RngMode::trial_seed(11, 2));
    let a: u64 = from_mode.random();
    let b: u64 = direct.random();
    assert_eq!(a, b);
}
