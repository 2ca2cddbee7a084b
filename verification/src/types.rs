use vstd::prelude::*;

use crate::error::RavenError;
use crate::text::{append_decimal, decimal};

verus! {

/// Whether a query is about all nodes or a given subset of nodes.
pub enum PartitionType<'a, V> {
    All,
    Subset(&'a [V]),
}

/// Output of one query trial: labels (and scores, when the trial mode
/// produces them) in the order of the queried nodes.
#[derive(Debug)]
pub struct TrialPartition<T> {
    pub trial_index: usize,
    pub labels: Vec<usize>,
    pub scores: Option<Vec<T>>,
    pub num_clusters: usize,
}

/// Output of a partition query: for all nodes (with the node order), or
/// for the requested subset.
#[derive(Debug)]
pub enum PartitionOutput<V, T> {
    All(Vec<V>, Vec<TrialPartition<T>>),
    Subset(Vec<TrialPartition<T>>),
}

/// Which trials a query returns.
#[derive(Debug, Clone, Copy, PartialEq, Eq, Structural, Hash)]
pub enum TrialOutputMode {
    AllTrials,
    Winner(TrialObjective),
}

/// Objective by which the winning trial is chosen.
#[derive(Debug, Clone, Copy, PartialEq, Eq, Structural, Hash)]
pub enum TrialObjective {
    KernelDistance,
}

/// What an edge deletion left of its two end nodes.
#[derive(Debug, Clone, PartialEq, Eq)]
pub enum EdgeDeletionResult {
    BothNodesStillConnected,
    OneNodeDisconnected(String),
    BothNodesDisconnected(String, String),
}

/// Counts of samples drawn and of samples that were clipped.
#[derive(Debug, Clone, Copy, PartialEq, Eq, Structural)]
pub struct SamplingStats {
    pub num_samples: usize,
    pub num_clippings: usize,
}

impl SamplingStats {
    /// No samples yet.
    pub fn new() -> (res: Self)
        ensures
            res.num_samples == 0,
            res.num_clippings == 0,
    {
        SamplingStats { num_samples: 0, num_clippings: 0 }
    }

    /// Field-wise sum of two counts.
    pub fn add(self, rhs: Self) -> (res: Self)
        requires
            self.num_samples + rhs.num_samples <= usize::MAX,
            self.num_clippings + rhs.num_clippings <= usize::MAX,
        ensures
            res.num_samples == self.num_samples + rhs.num_samples,
            res.num_clippings == self.num_clippings + rhs.num_clippings,
    {
        SamplingStats {
            num_samples: self.num_samples + rhs.num_samples,
            num_clippings: self.num_clippings + rhs.num_clippings,
        }
    }
}

/// Marks the type-level constants that are powers of two.
pub trait PowerOfTwo {

}

/// A `usize` constant carried at the type level.
pub struct ConstPow2<const N: usize>;

impl PowerOfTwo for ConstPow2<2> {

}

impl PowerOfTwo for ConstPow2<4> {

}

impl PowerOfTwo for ConstPow2<8> {

}

impl PowerOfTwo for ConstPow2<16> {

}

impl PowerOfTwo for ConstPow2<32> {

}

impl PowerOfTwo for ConstPow2<64> {

}

impl PowerOfTwo for ConstPow2<128> {

}

impl PowerOfTwo for ConstPow2<256> {

}

impl PowerOfTwo for ConstPow2<512> {

}

impl PowerOfTwo for ConstPow2<1024> {

}

/// Output of one query trial over a requested node list.
#[derive(Debug, Clone)]
pub struct QueryResult<T> {
    /// Queried node ids in request order.
    pub nodes: Vec<usize>,
    /// Cluster labels in the same order as `nodes`.
    pub labels: Vec<usize>,
    /// Optional per-node objective scores.
    pub scores: Option<Vec<T>>,
    /// Zero-based trial index.
    pub trial_index: usize,
    /// Number of clusters produced by this trial.
    pub num_clusters: usize,
}

/// Text of the error for a per-node output with `found` entries where
/// `requested` nodes were asked for.
pub open spec fn mismatch_text(what: Seq<char>, found: nat, requested: nat) -> Seq<char> {
    "query returned "@ + decimal(found) + " "@ + what + " for "@ + decimal(requested) + " requested nodes"@
}

/// Text of the error for a trial that does not fit `requested` nodes: its
/// labels are reported first, then its scores.
pub open spec fn trial_misfit_text<T>(trial: TrialPartition<T>, requested: nat) -> Seq<char> {
    if trial.labels@.len() != requested {
        mismatch_text("labels"@, trial.labels@.len(), requested)
    } else {
        mismatch_text(
            "scores"@,
            match trial.scores {
                Some(s) => s@.len(),
                None => 0,
            },
            requested,
        )
    }
}

/// Description of a per-node output of the wrong length.
fn length_mismatch_message(what: &str, found: usize, requested: usize) -> (res: String)
    ensures
        res@ == mismatch_text(what@, found as nat, requested as nat),
{
    let mut text = String::new();
    text.append("query returned ");
    append_decimal(&mut text, found);
    text.append(" ");
    text.append(what);
    text.append(" for ");
    append_decimal(&mut text, requested);
    text.append(" requested nodes");
    assert(text@ =~= mismatch_text(what@, found as nat, requested as nat));
    text
}

/// The result of `trial` for the requested nodes, provided it has one label
/// (and one score, when it has scores) per requested node.
pub fn query_result_from_trial<T>(requested_nodes: &[usize], trial: TrialPartition<T>) -> (res: Result<QueryResult<T>, RavenError>)
    ensures
        ({
            let labels_ok = trial.labels@.len() == requested_nodes@.len();
            let scores_ok = match trial.scores {
                Some(s) => s@.len() == requested_nodes@.len(),
                None => true,
            };
            &&& res is Ok <==> labels_ok && scores_ok
            &&& res is Err ==> (res matches Err(RavenError::UnexpectedOutput(msg)) && msg@
                == trial_misfit_text(trial, requested_nodes@.len()))
            &&& res matches Ok(r) ==> {
                &&& r.nodes@ == requested_nodes@
                &&& r.labels@ == trial.labels@
                &&& r.scores == trial.scores
                &&& r.trial_index == trial.trial_index
                &&& r.num_clusters == trial.num_clusters
            }
        }),
{
    if trial.labels.len() != requested_nodes.len() {
        return Err(
            RavenError::UnexpectedOutput(
                length_mismatch_message("labels", trial.labels.len(), requested_nodes.len()),
            ),
        );
    }
    let scores_len_ok = match &trial.scores {
        Some(scores) => scores.len() == requested_nodes.len(),
        None => true,
    };
    if !scores_len_ok {
        let found = match &trial.scores {
            Some(scores) => scores.len(),
            None => 0,
        };
        return Err(
            RavenError::UnexpectedOutput(
                length_mismatch_message("scores", found, requested_nodes.len()),
            ),
        );
    }
    let mut nodes: Vec<usize> = Vec::new();
    let mut i: usize = 0;
    while i < requested_nodes.len()
        invariant
            i <= requested_nodes@.len(),
            nodes@ == requested_nodes@.take(i as int),
        decreases requested_nodes@.len() - i,
    {
        nodes.push(requested_nodes[i]);
        proof {
            assert(requested_nodes@.take(i + 1) =~= requested_nodes@.take(i as int).push(
                requested_nodes@[i as int],
            ));
        }
        i += 1;
    }
    proof {
        assert(requested_nodes@.take(requested_nodes@.len() as int) =~= requested_nodes@);
    }
    Ok(
        QueryResult {
            nodes,
            labels: trial.labels,
            scores: trial.scores,
            trial_index: trial.trial_index,
            num_clusters: trial.num_clusters,
        },
    )
}

/// Trial `t` has one label, and one score when it has scores, per requested node.
pub open spec fn trial_fits<T>(trial: TrialPartition<T>, requested: nat) -> bool {
    &&& trial.labels@.len() == requested
    &&& match trial.scores {
        Some(s) => s@.len() == requested,
        None => true,
    }
}

/// The results of each trial of a subset query, in trial order; fails when
/// the output covers all nodes or when a trial does not fit the request.
pub fn query_results_from_output<V, T>(requested_nodes: &[usize], output: PartitionOutput<V, T>) -> (res: Result<Vec<QueryResult<T>>, RavenError>)
    ensures
        match output {
            PartitionOutput::All(_, _) => res matches Err(RavenError::UnexpectedOutput(msg)) && msg@
                == "subset query returned all-node output"@,
            PartitionOutput::Subset(trials) => {
                &&& res is Ok <==> forall|i: int|
                    0 <= i < trials@.len() ==> trial_fits(#[trigger] trials@[i], requested_nodes@.len())
                &&& res is Err ==> exists|k: int|
                    0 <= k < trials@.len() && (forall|i: int|
                        0 <= i < k ==> trial_fits(#[trigger] trials@[i], requested_nodes@.len()))
                        && !trial_fits(trials@[k], requested_nodes@.len()) && (res matches Err(
                        RavenError::UnexpectedOutput(msg),
                    ) && msg@ == trial_misfit_text(trials@[k], requested_nodes@.len()))
                &&& res matches Ok(results) ==> {
                    &&& results@.len() == trials@.len()
                    &&& forall|i: int|
                        0 <= i < trials@.len() ==> {
                            &&& (#[trigger] results@[i]).nodes@ == requested_nodes@
                            &&& results@[i].labels@ == trials@[i].labels@
                            &&& results@[i].scores == trials@[i].scores
                            &&& results@[i].trial_index == trials@[i].trial_index
                            &&& results@[i].num_clusters == trials@[i].num_clusters
                        }
                }
            },
        },
{
    match output {
        PartitionOutput::All(_, _) => Err(
            RavenError::UnexpectedOutput("subset query returned all-node output".to_string()),
        ),
        PartitionOutput::Subset(trials) => {
            let ghost orig = trials@;
            let count = trials.len();
            proof {
                assert(orig.skip(0) =~= orig);
                assert(orig.len() == count);
            }
            let mut trials = trials;
            let mut results: Vec<QueryResult<T>> = Vec::new();
            let mut k: usize = 0;
            while trials.len() > 0
                invariant
                    k + trials@.len() == orig.len(),
                    orig.len() <= usize::MAX,
                    output matches PartitionOutput::Subset(t) && t@ == orig,
                    trials@ == orig.skip(k as int),
                    results@.len() == k,
                    forall|i: int| 0 <= i < k ==> trial_fits(#[trigger] orig[i], requested_nodes@.len()),
                    forall|i: int|
                        0 <= i < k ==> {
                            &&& (#[trigger] results@[i]).nodes@ == requested_nodes@
                            &&& results@[i].labels@ == orig[i].labels@
                            &&& results@[i].scores == orig[i].scores
                            &&& results@[i].trial_index == orig[i].trial_index
                            &&& results@[i].num_clusters == orig[i].num_clusters
                        },
                decreases trials@.len(),
            {
                let trial = trials.remove(0);
                proof {
                    assert(trial == orig[k as int]);
                    assert(trials@ =~= orig.skip(k + 1));
                }
                match query_result_from_trial(requested_nodes, trial) {
                    Ok(result) => {
                        results.push(result);
                    },
                    Err(e) => {
                        proof {
                            assert(!trial_fits(orig[k as int], requested_nodes@.len()));
                        }
                        return Err(e);
                    },
                }
                k += 1;
            }
            Ok(results)
        },
    }
}

/// Text of the error for a clustering that returned `labels` labels for
/// `nodes` coreset nodes.
pub open spec fn label_count_text(labels: nat, nodes: nat) -> Seq<char> {
    "cluster algorithm returned "@ + decimal(labels) + " labels for "@ + decimal(nodes) + " coreset nodes"@
}

/// Checks that the clustering of a coreset gave one label per coreset node.
pub fn check_coreset_labels(labels: usize, coreset_nodes: usize) -> (res: Result<(), RavenError>)
    ensures
        res is Ok <==> labels == coreset_nodes,
        res is Err ==> (res matches Err(RavenError::UnexpectedOutput(msg)) && msg@ == label_count_text(
            labels as nat,
            coreset_nodes as nat,
        )),
{
    if labels == coreset_nodes {
        return Ok(());
    }
    let mut text = String::new();
    text.append("cluster algorithm returned ");
    append_decimal(&mut text, labels);
    text.append(" labels for ");
    append_decimal(&mut text, coreset_nodes);
    text.append(" coreset nodes");
    assert(text@ =~= label_count_text(labels as nat, coreset_nodes as nat));
    Err(RavenError::UnexpectedOutput(text))
}

/// `part` is trial `index`, whose labels, scores and number of clusters were
/// `found`; the scores are kept only when `with_scores` holds.
pub open spec fn is_trial_part<T>(
    part: TrialPartition<T>,
    index: int,
    found: (Vec<usize>, Vec<T>, usize),
    with_scores: bool,
) -> bool {
    &&& part.trial_index == index
    &&& part.labels@ == found.0@
    &&& if with_scores {
        part.scores matches Some(scores) && scores@ == found.1@
    } else {
        part.scores is None
    }
    &&& part.num_clusters == found.2
}

/// The trials of a partition output.
pub open spec fn output_parts<V, T>(output: PartitionOutput<V, T>) -> Seq<TrialPartition<T>> {
    match output {
        PartitionOutput::All(_, parts) => parts@,
        PartitionOutput::Subset(parts) => parts@,
    }
}

/// The output of a query from what each trial found, in trial order: for
/// all nodes when `node_names` gives their order, for the requested subset
/// otherwise. With a `winner`, only that trial is returned, without its
/// scores; otherwise every trial is, with its index and scores.
pub fn assemble_partition_output<V, T>(
    node_names: Option<Vec<V>>,
    trials: Vec<(Vec<usize>, Vec<T>, usize)>,
    winner: Option<usize>,
) -> (res: PartitionOutput<V, T>)
    requires
        winner matches Some(w) ==> w < trials@.len(),
    ensures
        node_names matches Some(names) ==> (res matches PartitionOutput::All(order, _) && order@
            == names@),
        node_names is None ==> res is Subset,
        winner matches Some(w) ==> output_parts(res).len() == 1 && is_trial_part(
            output_parts(res)[0],
            w as int,
            trials@[w as int],
            false,
        ),
        winner is None ==> output_parts(res).len() == trials@.len() && forall|i: int|
            0 <= i < trials@.len() ==> is_trial_part(
                #[trigger] output_parts(res)[i],
                i,
                trials@[i],
                true,
            ),
{
    let ghost found = trials@;
    let mut trials = trials;
    let mut parts: Vec<TrialPartition<T>> = Vec::new();
    match winner {
        Some(w) => {
            let (labels, _scores, num_clusters) = trials.remove(w);
            parts.push(TrialPartition { trial_index: w, labels, scores: None, num_clusters });
        },
        None => {
            let n = trials.len();
            let mut i: usize = 0;
            while i < n
                invariant
                    n == found.len(),
                    i <= n,
                    trials@ == found.subrange(i as int, n as int),
                    parts@.len() == i,
                    forall|j: int| 0 <= j < i ==> is_trial_part(#[trigger] parts@[j], j, found[j], true),
                decreases n - i,
            {
                let (labels, scores, num_clusters) = trials.remove(0);
                parts.push(TrialPartition { trial_index: i, labels, scores: Some(scores), num_clusters });
                proof {
                    assert(trials@ =~= found.subrange(i + 1, n as int));
                }
                i = i + 1;
            }
        },
    }
    match node_names {
        Some(names) => PartitionOutput::All(names, parts),
        None => PartitionOutput::Subset(parts),
    }
}

} // verus!
