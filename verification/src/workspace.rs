use vstd::prelude::*;

use crate::grow::resize_with_value;
use crate::ids::TreeIndex;

verus! {

/// `new` is `old` cut back or padded with `fill` to length `len`.
pub open spec fn resized<A>(old: Seq<A>, new: Seq<A>, len: nat, fill: A) -> bool {
    &&& new.len() == len
    &&& forall|i: int| 0 <= i < len ==> #[trigger] new[i] == if i < old.len() {
        old[i]
    } else {
        fill
    }
}

/// `new` is `old` cut back to at most `len` entries.
pub open spec fn truncated<A>(old: Seq<A>, new: Seq<A>, len: nat) -> bool {
    if len <= old.len() {
        new == old.subrange(0, len as int)
    } else {
        new == old
    }
}

/// Whether the per-trial scratch arrays are resized while updates are
/// applied, or only when a query runs.
#[derive(Debug, Clone, Copy, PartialEq, Eq, Structural)]
pub enum ResizeQueryInfo {
    Updates,
    Query,
}

/// Tree data shared across all query trials: the volume and the number of
/// leaves below each tree position.
pub struct Persistent<T> {
    pub volume: Vec<T>,
    pub size: Vec<usize>,
}

/// Scratch tree data local to one query trial; `T` is the scalar type of
/// the per-position values, which this library only moves.
pub struct QueryTime<T> {
    pub timestamp: Vec<usize>,
    pub f_delta: Vec<T>,
    pub h_b: Vec<T>,
    pub h_s: Vec<T>,
    pub seed_owner: Vec<TreeIndex>,
    pub seed_owner_epoch: Vec<usize>,
    pub seed_weight: Vec<T>,
    pub seed_weight_epoch: Vec<usize>,
    pub old_seed_seen: Vec<usize>,
    pub old_seed_seen_epoch: usize,
    pub tree_update_current: Vec<TreeIndex>,
    pub tree_update_next: Vec<TreeIndex>,
    pub tree_update_seen: Vec<usize>,
    pub tree_update_seen_epoch: usize,
}

/// The tree data backing the dynamic clustering algorithm.
pub struct TreeData<const ARITY: usize, T> {
    pub persistent: Persistent<T>,
    pub query_time: Vec<QueryTime<T>>,
}

impl<T: Copy> QueryTime<T> {
    /// Every array is empty and both epochs are zero.
    pub open spec fn is_empty(&self) -> bool {
        &&& self.timestamp@.len() == 0
        &&& self.f_delta@.len() == 0
        &&& self.h_b@.len() == 0
        &&& self.h_s@.len() == 0
        &&& self.seed_owner@.len() == 0
        &&& self.seed_owner_epoch@.len() == 0
        &&& self.seed_weight@.len() == 0
        &&& self.seed_weight_epoch@.len() == 0
        &&& self.old_seed_seen@.len() == 0
        &&& self.old_seed_seen_epoch == 0
        &&& self.tree_update_current@.len() == 0
        &&& self.tree_update_next@.len() == 0
        &&& self.tree_update_seen@.len() == 0
        &&& self.tree_update_seen_epoch == 0
    }

    /// Empties every array and resets both epochs.
    pub fn clear(&mut self)
        ensures
            final(self).is_empty(),
    {
        self.timestamp.clear();
        self.f_delta.clear();
        self.h_b.clear();
        self.h_s.clear();
        self.seed_owner.clear();
        self.seed_owner_epoch.clear();
        self.seed_weight.clear();
        self.seed_weight_epoch.clear();
        self.old_seed_seen.clear();
        self.old_seed_seen_epoch = 0;
        self.tree_update_current.clear();
        self.tree_update_next.clear();
        self.tree_update_seen.clear();
        self.tree_update_seen_epoch = 0;
    }

    /// Cuts every per-position array back to `new_len` entries; the work
    /// lists and the epochs are left alone.
    pub fn truncate(&mut self, new_len: usize)
        ensures
            truncated(old(self).timestamp@, final(self).timestamp@, new_len as nat),
            truncated(old(self).f_delta@, final(self).f_delta@, new_len as nat),
            truncated(old(self).h_b@, final(self).h_b@, new_len as nat),
            truncated(old(self).h_s@, final(self).h_s@, new_len as nat),
            truncated(old(self).seed_owner@, final(self).seed_owner@, new_len as nat),
            truncated(old(self).seed_owner_epoch@, final(self).seed_owner_epoch@, new_len as nat),
            truncated(old(self).seed_weight@, final(self).seed_weight@, new_len as nat),
            truncated(old(self).seed_weight_epoch@, final(self).seed_weight_epoch@, new_len as nat),
            truncated(old(self).old_seed_seen@, final(self).old_seed_seen@, new_len as nat),
            truncated(old(self).tree_update_seen@, final(self).tree_update_seen@, new_len as nat),
            final(self).old_seed_seen_epoch == old(self).old_seed_seen_epoch,
            final(self).tree_update_current@ == old(self).tree_update_current@,
            final(self).tree_update_next@ == old(self).tree_update_next@,
            final(self).tree_update_seen_epoch == old(self).tree_update_seen_epoch,
    {
        self.timestamp.truncate(new_len);
        self.f_delta.truncate(new_len);
        self.h_b.truncate(new_len);
        self.h_s.truncate(new_len);
        self.seed_owner.truncate(new_len);
        self.seed_owner_epoch.truncate(new_len);
        self.seed_weight.truncate(new_len);
        self.seed_weight_epoch.truncate(new_len);
        self.old_seed_seen.truncate(new_len);
        self.tree_update_seen.truncate(new_len);
    }

    /// Sets every per-position array to `new_len` entries; new entries are
    /// zero, `zero` for the scalar arrays and the root for seed owners.
    pub fn resize(&mut self, new_len: usize, zero: T)
        ensures
            resized(old(self).timestamp@, final(self).timestamp@, new_len as nat, 0usize),
            resized(old(self).f_delta@, final(self).f_delta@, new_len as nat, zero),
            resized(old(self).h_b@, final(self).h_b@, new_len as nat, zero),
            resized(old(self).h_s@, final(self).h_s@, new_len as nat, zero),
            resized(old(self).seed_owner@, final(self).seed_owner@, new_len as nat, TreeIndex(0)),
            resized(old(self).seed_owner_epoch@, final(self).seed_owner_epoch@, new_len as nat, 0usize),
            resized(old(self).seed_weight@, final(self).seed_weight@, new_len as nat, zero),
            resized(old(self).seed_weight_epoch@, final(self).seed_weight_epoch@, new_len as nat, 0usize),
            resized(old(self).old_seed_seen@, final(self).old_seed_seen@, new_len as nat, 0usize),
            resized(old(self).tree_update_seen@, final(self).tree_update_seen@, new_len as nat, 0usize),
            final(self).old_seed_seen_epoch == old(self).old_seed_seen_epoch,
            final(self).tree_update_current@ == old(self).tree_update_current@,
            final(self).tree_update_next@ == old(self).tree_update_next@,
            final(self).tree_update_seen_epoch == old(self).tree_update_seen_epoch,
    {
        resize_with_value(&mut self.timestamp, new_len, 0);
        resize_with_value(&mut self.f_delta, new_len, zero);
        resize_with_value(&mut self.h_b, new_len, zero);
        resize_with_value(&mut self.h_s, new_len, zero);
        resize_with_value(&mut self.seed_owner, new_len, TreeIndex(0));
        resize_with_value(&mut self.seed_owner_epoch, new_len, 0);
        resize_with_value(&mut self.seed_weight, new_len, zero);
        resize_with_value(&mut self.seed_weight_epoch, new_len, 0);
        resize_with_value(&mut self.old_seed_seen, new_len, 0);
        resize_with_value(&mut self.tree_update_seen, new_len, 0);
    }
}

/// `seeds` lists without repeats exactly the positions that `seen` marks
/// with `epoch`.
pub open spec fn collected(seen: Seq<usize>, epoch: usize, seeds: Seq<TreeIndex>) -> bool {
    &&& seeds.no_duplicates()
    &&& forall|i: int| 0 <= i < seeds.len() ==> (#[trigger] seeds[i]).0 < seen.len()
    &&& forall|i: int| 0 <= i < seen.len() ==> (#[trigger] seen[i] == epoch <==> seeds.contains(TreeIndex(i as usize)))
}

impl<T: Copy> QueryTime<T> {
    /// Seed that owns position `node_idx` in the sampling round stamped
    /// `timestamp`: the owner recorded in this round, or `x_star_idx` when
    /// none was recorded in it.
    pub fn get_seed_idx(&self, node_idx: TreeIndex, timestamp: usize, x_star_idx: TreeIndex) -> (res: TreeIndex)
        requires
            node_idx.0 < self.seed_owner@.len(),
            node_idx.0 < self.seed_owner_epoch@.len(),
        ensures
            res == if self.seed_owner_epoch@[node_idx.0 as int] == timestamp {
                self.seed_owner@[node_idx.0 as int]
            } else {
                x_star_idx
            },
    {
        if self.seed_owner_epoch[node_idx.0] == timestamp {
            self.seed_owner[node_idx.0]
        } else {
            x_star_idx
        }
    }

    /// Records `seed_idx` as the owner of `node_idx` in the round stamped
    /// `timestamp`.
    pub fn set_seed_idx(&mut self, node_idx: TreeIndex, seed_idx: TreeIndex, timestamp: usize)
        requires
            node_idx.0 < old(self).seed_owner@.len(),
            node_idx.0 < old(self).seed_owner_epoch@.len(),
        ensures
            final(self).seed_owner@ == old(self).seed_owner@.update(node_idx.0 as int, seed_idx),
            final(self).seed_owner_epoch@ == old(self).seed_owner_epoch@.update(node_idx.0 as int, timestamp),
            final(self).old_seed_seen@ == old(self).old_seed_seen@,
            final(self).old_seed_seen_epoch == old(self).old_seed_seen_epoch,
            final(self).seed_weight@ == old(self).seed_weight@,
            final(self).seed_weight_epoch@ == old(self).seed_weight_epoch@,
            final(self).timestamp@ == old(self).timestamp@,
    {
        self.seed_owner.set(node_idx.0, seed_idx);
        self.seed_owner_epoch.set(node_idx.0, timestamp);
    }

    /// Starts a new round of old-seed marks and returns its epoch: the next
    /// epoch, or 1 after clearing every mark when the epochs run out. When
    /// no mark lies above the current epoch, no mark equals the new one.
    pub fn next_old_seed_seen_epoch(&mut self) -> (res: usize)
        ensures
            final(self).old_seed_seen_epoch == res,
            res > 0,
            old(self).old_seed_seen_epoch < usize::MAX ==> res == old(self).old_seed_seen_epoch + 1
                && final(self).old_seed_seen@ == old(self).old_seed_seen@,
            old(self).old_seed_seen_epoch == usize::MAX ==> res == 1 && final(self).old_seed_seen@ =~= Seq::new(
                old(self).old_seed_seen@.len(),
                |i: int| 0usize,
            ),
            (forall|i: int|
                0 <= i < old(self).old_seed_seen@.len() ==> #[trigger] old(self).old_seed_seen@[i]
                    <= old(self).old_seed_seen_epoch) ==> collected(final(self).old_seed_seen@, res, Seq::empty()),
            final(self).seed_owner@ == old(self).seed_owner@,
            final(self).seed_owner_epoch@ == old(self).seed_owner_epoch@,
            final(self).timestamp@ == old(self).timestamp@,
    {
        if self.old_seed_seen_epoch < usize::MAX {
            self.old_seed_seen_epoch = self.old_seed_seen_epoch + 1;
        } else {
            let mut i: usize = 0;
            while i < self.old_seed_seen.len()
                invariant
                    i <= self.old_seed_seen@.len(),
                    self.old_seed_seen@.len() == old(self).old_seed_seen@.len(),
                    self.seed_owner@ == old(self).seed_owner@,
                    self.seed_owner_epoch@ == old(self).seed_owner_epoch@,
                    self.timestamp@ == old(self).timestamp@,
                    forall|j: int| 0 <= j < i ==> #[trigger] self.old_seed_seen@[j] == 0,
                decreases self.old_seed_seen@.len() - i,
            {
                self.old_seed_seen.set(i, 0);
                i += 1;
            }
            self.old_seed_seen_epoch = 1;
        }
        self.old_seed_seen_epoch
    }

    /// Appends `old_seed_idx` to `old_seeds` unless it is already marked
    /// with `seen_epoch`, and marks it.
    pub fn push_old_seed_once(&mut self, old_seed_idx: TreeIndex, seen_epoch: usize, old_seeds: &mut Vec<TreeIndex>)
        requires
            old_seed_idx.0 < old(self).old_seed_seen@.len(),
        ensures
            old(self).old_seed_seen@[old_seed_idx.0 as int] == seen_epoch ==> final(self).old_seed_seen@
                == old(self).old_seed_seen@ && final(old_seeds)@ == old(old_seeds)@,
            old(self).old_seed_seen@[old_seed_idx.0 as int] != seen_epoch ==> final(self).old_seed_seen@
                == old(self).old_seed_seen@.update(old_seed_idx.0 as int, seen_epoch) && final(old_seeds)@
                == old(old_seeds)@.push(old_seed_idx),
            collected(old(self).old_seed_seen@, seen_epoch, old(old_seeds)@) ==> collected(
                final(self).old_seed_seen@,
                seen_epoch,
                final(old_seeds)@,
            ),
            final(self).old_seed_seen_epoch == old(self).old_seed_seen_epoch,
            final(self).seed_owner@ == old(self).seed_owner@,
            final(self).seed_owner_epoch@ == old(self).seed_owner_epoch@,
    {
        if self.old_seed_seen[old_seed_idx.0] == seen_epoch {
            return;
        }
        let ghost seen0 = self.old_seed_seen@;
        let ghost seeds0 = old_seeds@;
        self.old_seed_seen.set(old_seed_idx.0, seen_epoch);
        old_seeds.push(old_seed_idx);
        proof {
            if collected(seen0, seen_epoch, seeds0) {
                let seen1 = self.old_seed_seen@;
                let seeds1 = old_seeds@;
                assert(!seeds0.contains(old_seed_idx)) by {
                    assert(seen0[old_seed_idx.0 as int] != seen_epoch);
                    assert(TreeIndex(old_seed_idx.0 as int as usize) == old_seed_idx);
                }
                assert forall|a: int, b: int| 0 <= a < seeds1.len() && 0 <= b < seeds1.len() && a != b implies seeds1[a]
                    != seeds1[b] by {
                    if a == seeds0.len() {
                        assert(seeds0.contains(seeds1[b]));
                    } else if b == seeds0.len() {
                        assert(seeds0.contains(seeds1[a]));
                    }
                }
                assert forall|i: int| 0 <= i < seen1.len() implies (#[trigger] seen1[i] == seen_epoch
                    <==> seeds1.contains(TreeIndex(i as usize))) by {
                    assert(i < self.old_seed_seen.len());
                    assert((i as usize) as int == i);
                    if i == old_seed_idx.0 {
                        assert(seeds1[seeds0.len() as int] == TreeIndex(i as usize));
                    } else {
                        if seeds1.contains(TreeIndex(i as usize)) {
                            let k = choose|k: int| 0 <= k < seeds1.len() && seeds1[k] == TreeIndex(i as usize);
                            assert(seeds1[k].0 == i);
                            assert(k < seeds0.len());
                            assert(seeds0.contains(TreeIndex(i as usize)));
                        }
                        if seeds0.contains(TreeIndex(i as usize)) {
                            let k = choose|k: int| 0 <= k < seeds0.len() && seeds0[k] == TreeIndex(i as usize);
                            assert(seeds1[k] == TreeIndex(i as usize));
                        }
                    }
                }
            }
        }
    }
}

impl<T: Copy> Default for QueryTime<T> {
    /// Scratch data with every array empty.
    fn default() -> (res: Self)
        ensures
            res.is_empty(),
    {
        QueryTime {
            timestamp: Vec::new(),
            f_delta: Vec::new(),
            h_b: Vec::new(),
            h_s: Vec::new(),
            seed_owner: Vec::new(),
            seed_owner_epoch: Vec::new(),
            seed_weight: Vec::new(),
            seed_weight_epoch: Vec::new(),
            old_seed_seen: Vec::new(),
            old_seed_seen_epoch: 0,
            tree_update_current: Vec::new(),
            tree_update_next: Vec::new(),
            tree_update_seen: Vec::new(),
            tree_update_seen_epoch: 0,
        }
    }
}


/// Why a query cannot start.
#[derive(Debug, Clone, Copy, PartialEq, Eq, Structural)]
pub enum QuerySetupError {
    /// The tree holds no position.
    NoData,
    /// The coreset size is zero.
    ZeroCoresetSize,
    /// The number of sampling seeds is zero.
    ZeroSamplingSeeds,
    /// The number of trials is zero.
    ZeroTrials,
    /// One oracle is needed per trial.
    OracleCount { expected: usize, got: usize },
    /// One scratch workspace is needed per trial.
    WorkspaceCount { expected: usize, got: usize },
    /// Some trial's scratch arrays do not have one entry per tree position.
    StaleScratch { expected: usize },
    /// The query counter is at its largest value.
    TimestampOverflow,
}

/// The scratch arrays of one trial that a query reads have `len` entries.
pub open spec fn scratch_fits<T>(q: QueryTime<T>, len: nat) -> bool {
    &&& q.timestamp@.len() == len
    &&& q.f_delta@.len() == len
    &&& q.h_b@.len() == len
    &&& q.h_s@.len() == len
}

/// `new` is the scratch of one trial `old` with every per-position array
/// set to `len` entries, new entries zero, and everything else kept.
pub open spec fn scratch_resized<T>(old: QueryTime<T>, new: QueryTime<T>, len: nat, zero: T) -> bool {
    &&& resized(old.timestamp@, new.timestamp@, len, 0usize)
    &&& resized(old.f_delta@, new.f_delta@, len, zero)
    &&& resized(old.h_b@, new.h_b@, len, zero)
    &&& resized(old.h_s@, new.h_s@, len, zero)
    &&& resized(old.seed_owner@, new.seed_owner@, len, TreeIndex(0))
    &&& resized(old.seed_owner_epoch@, new.seed_owner_epoch@, len, 0usize)
    &&& resized(old.seed_weight@, new.seed_weight@, len, zero)
    &&& resized(old.seed_weight_epoch@, new.seed_weight_epoch@, len, 0usize)
    &&& resized(old.old_seed_seen@, new.old_seed_seen@, len, 0usize)
    &&& resized(old.tree_update_seen@, new.tree_update_seen@, len, 0usize)
    &&& new.old_seed_seen_epoch == old.old_seed_seen_epoch
    &&& new.tree_update_current@ == old.tree_update_current@
    &&& new.tree_update_next@ == old.tree_update_next@
    &&& new.tree_update_seen_epoch == old.tree_update_seen_epoch
}

/// A tree with positions, non-zero settings, one oracle and one scratch
/// workspace per trial.
pub open spec fn query_counts_ok(
    tree_len: nat,
    coreset_size: usize,
    sampling_seeds: usize,
    num_trials: usize,
    oracle_count: usize,
    workspaces: nat,
) -> bool {
    &&& tree_len > 0
    &&& coreset_size > 0
    &&& sampling_seeds > 0
    &&& num_trials > 0
    &&& oracle_count == num_trials
    &&& workspaces == num_trials
}

/// What the checks before a query give, in the order in which they run:
/// the first failing check names the error, and when all pass the query
/// counter moves on by one.
pub open spec fn query_setup_outcome(
    tree_len: nat,
    coreset_size: usize,
    sampling_seeds: usize,
    num_trials: usize,
    oracle_count: usize,
    workspaces: nat,
    stale: bool,
    timestamp: usize,
) -> Result<usize, QuerySetupError> {
    if tree_len == 0 {
        Err(QuerySetupError::NoData)
    } else if coreset_size == 0 {
        Err(QuerySetupError::ZeroCoresetSize)
    } else if sampling_seeds == 0 {
        Err(QuerySetupError::ZeroSamplingSeeds)
    } else if num_trials == 0 {
        Err(QuerySetupError::ZeroTrials)
    } else if oracle_count != num_trials {
        Err(QuerySetupError::OracleCount { expected: num_trials, got: oracle_count })
    } else if workspaces != num_trials {
        Err(QuerySetupError::WorkspaceCount { expected: num_trials, got: workspaces as usize })
    } else if stale {
        Err(QuerySetupError::StaleScratch { expected: tree_len as usize })
    } else if timestamp == usize::MAX {
        Err(QuerySetupError::TimestampOverflow)
    } else {
        Ok((timestamp + 1) as usize)
    }
}

impl<const ARITY: usize, T: Copy> TreeData<ARITY, T> {
    /// Checks that a query can run on this tree and returns the query
    /// counter after `timestamp`. When the scratch is resized at query time,
    /// every trial's scratch is first brought to the tree's length (once the
    /// counts are right); otherwise a trial whose scratch has another length
    /// is refused.
    pub fn prepare_query(
        &mut self,
        coreset_size: usize,
        sampling_seeds: usize,
        num_trials: usize,
        oracle_count: usize,
        resize: ResizeQueryInfo,
        timestamp: usize,
        zero: T,
    ) -> (res: Result<usize, QuerySetupError>)
        ensures
            ({
                let n = old(self).persistent.size@.len();
                let qt = old(self).query_time@;
                res == query_setup_outcome(
                    n,
                    coreset_size,
                    sampling_seeds,
                    num_trials,
                    oracle_count,
                    qt.len(),
                    resize == ResizeQueryInfo::Updates && exists|t: int|
                        0 <= t < qt.len() && !scratch_fits(#[trigger] qt[t], n),
                    timestamp,
                )
            }),
            final(self).persistent == old(self).persistent,
            final(self).query_time@.len() == old(self).query_time@.len(),
            resize == ResizeQueryInfo::Query && query_counts_ok(
                old(self).persistent.size@.len(),
                coreset_size,
                sampling_seeds,
                num_trials,
                oracle_count,
                old(self).query_time@.len(),
            ) ==> forall|t: int|
                0 <= t < final(self).query_time@.len() ==> scratch_resized(
                    old(self).query_time@[t],
                    #[trigger] final(self).query_time@[t],
                    old(self).persistent.size@.len(),
                    zero,
                ),
            !(resize == ResizeQueryInfo::Query && query_counts_ok(
                old(self).persistent.size@.len(),
                coreset_size,
                sampling_seeds,
                num_trials,
                oracle_count,
                old(self).query_time@.len(),
            )) ==> final(self).query_time@ == old(self).query_time@,
    {
        let tree_len = self.persistent.size.len();
        if tree_len == 0 {
            return Err(QuerySetupError::NoData);
        }
        if coreset_size == 0 {
            return Err(QuerySetupError::ZeroCoresetSize);
        }
        if sampling_seeds == 0 {
            return Err(QuerySetupError::ZeroSamplingSeeds);
        }
        if num_trials == 0 {
            return Err(QuerySetupError::ZeroTrials);
        }
        if oracle_count != num_trials {
            return Err(QuerySetupError::OracleCount { expected: num_trials, got: oracle_count });
        }
        if self.query_time.len() != num_trials {
            return Err(QuerySetupError::WorkspaceCount { expected: num_trials, got: self.query_time.len() });
        }
        match resize {
            ResizeQueryInfo::Query => {
                let mut t: usize = 0;
                while t < self.query_time.len()
                    invariant
                        t <= self.query_time@.len() == old(self).query_time@.len(),
                        self.persistent == old(self).persistent,
                        tree_len == self.persistent.size@.len(),
                        forall|j: int|
                            0 <= j < t ==> scratch_resized(
                                old(self).query_time@[j],
                                #[trigger] self.query_time@[j],
                                tree_len as nat,
                                zero,
                            ),
                        forall|j: int| t <= j < self.query_time@.len() ==> #[trigger] self.query_time@[j]
                            == old(self).query_time@[j],
                    decreases old(self).query_time@.len() - t,
                {
                    self.query_time[t].resize(tree_len, zero);
                    t = t + 1;
                }
            },
            ResizeQueryInfo::Updates => {
                let mut t: usize = 0;
                while t < self.query_time.len()
                    invariant
                        t <= self.query_time@.len(),
                        self.query_time@ == old(self).query_time@,
                        self.persistent == old(self).persistent,
                        resize == ResizeQueryInfo::Updates,
                        tree_len == old(self).persistent.size@.len(),
                        tree_len > 0 && coreset_size > 0 && sampling_seeds > 0 && num_trials > 0,
                        oracle_count == num_trials && self.query_time@.len() == num_trials,
                        forall|j: int| 0 <= j < t ==> scratch_fits(#[trigger] self.query_time@[j], tree_len as nat),
                    decreases self.query_time@.len() - t,
                {
                    let q = &self.query_time[t];
                    if q.timestamp.len() != tree_len || q.f_delta.len() != tree_len || q.h_b.len() != tree_len
                        || q.h_s.len() != tree_len {
                        assert(!scratch_fits(self.query_time@[t as int], tree_len as nat));
                        return Err(QuerySetupError::StaleScratch { expected: tree_len });
                    }
                    t = t + 1;
                }
            },
        }
        if timestamp == usize::MAX {
            return Err(QuerySetupError::TimestampOverflow);
        }
        Ok(timestamp + 1)
    }
}

} // verus!
