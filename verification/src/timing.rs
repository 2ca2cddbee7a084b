use vstd::prelude::*;

use crate::elapsed::Elapsed;

verus! {

/// Per-kind call, row and time totals of the neighbourhood oracle of the in-memory index.
#[derive(Debug, Clone, Copy)]
pub struct InMemoryOracleTiming {
    pub graph_calls: usize,
    pub graph_sources: usize,
    pub graph_edges: usize,
    pub graph_time: Elapsed,
    pub intersecting_calls: usize,
    pub intersecting_sources: usize,
    pub intersecting_targets: usize,
    pub intersecting_edges: usize,
    pub intersecting_time: Elapsed,
    pub coreset_calls: usize,
    pub coreset_sources: usize,
    pub coreset_edges: usize,
    pub coreset_time: Elapsed,
}

impl InMemoryOracleTiming {
    /// Every field of `self + other` fits its type.
    pub open spec fn add_fits(self, other: Self) -> bool {
        &&& self.graph_calls + other.graph_calls <= usize::MAX
        &&& self.graph_sources + other.graph_sources <= usize::MAX
        &&& self.graph_edges + other.graph_edges <= usize::MAX
        &&& self.graph_time.sum_fits(other.graph_time)
        &&& self.intersecting_calls + other.intersecting_calls <= usize::MAX
        &&& self.intersecting_sources + other.intersecting_sources <= usize::MAX
        &&& self.intersecting_targets + other.intersecting_targets <= usize::MAX
        &&& self.intersecting_edges + other.intersecting_edges <= usize::MAX
        &&& self.intersecting_time.sum_fits(other.intersecting_time)
        &&& self.coreset_calls + other.coreset_calls <= usize::MAX
        &&& self.coreset_sources + other.coreset_sources <= usize::MAX
        &&& self.coreset_edges + other.coreset_edges <= usize::MAX
        &&& self.coreset_time.sum_fits(other.coreset_time)
    }

    /// Every field of `self` is the sum of the same fields of `a` and `b`.
    pub open spec fn is_sum(self, a: Self, b: Self) -> bool {
        &&& self.graph_calls == a.graph_calls + b.graph_calls
        &&& self.graph_sources == a.graph_sources + b.graph_sources
        &&& self.graph_edges == a.graph_edges + b.graph_edges
        &&& self.graph_time.total_nanos() == a.graph_time.total_nanos() + b.graph_time.total_nanos()
        &&& self.intersecting_calls == a.intersecting_calls + b.intersecting_calls
        &&& self.intersecting_sources == a.intersecting_sources + b.intersecting_sources
        &&& self.intersecting_targets == a.intersecting_targets + b.intersecting_targets
        &&& self.intersecting_edges == a.intersecting_edges + b.intersecting_edges
        &&& self.intersecting_time.total_nanos() == a.intersecting_time.total_nanos() + b.intersecting_time.total_nanos()
        &&& self.coreset_calls == a.coreset_calls + b.coreset_calls
        &&& self.coreset_sources == a.coreset_sources + b.coreset_sources
        &&& self.coreset_edges == a.coreset_edges + b.coreset_edges
        &&& self.coreset_time.total_nanos() == a.coreset_time.total_nanos() + b.coreset_time.total_nanos()
    }

    /// Every span and count is zero.
    pub open spec fn is_zero(self) -> bool {
        &&& self.graph_calls == 0
        &&& self.graph_sources == 0
        &&& self.graph_edges == 0
        &&& self.graph_time.total_nanos() == 0
        &&& self.intersecting_calls == 0
        &&& self.intersecting_sources == 0
        &&& self.intersecting_targets == 0
        &&& self.intersecting_edges == 0
        &&& self.intersecting_time.total_nanos() == 0
        &&& self.coreset_calls == 0
        &&& self.coreset_sources == 0
        &&& self.coreset_edges == 0
        &&& self.coreset_time.total_nanos() == 0
    }

    /// Adds every span and count of `other` to the same field of `self`.
    pub fn add(&mut self, other: Self)
        requires
            old(self).add_fits(other),
        ensures
            final(self).is_sum(*old(self), other),
    {
        self.graph_calls = self.graph_calls + other.graph_calls;
        self.graph_sources = self.graph_sources + other.graph_sources;
        self.graph_edges = self.graph_edges + other.graph_edges;
        self.graph_time = self.graph_time.add(other.graph_time);
        self.intersecting_calls = self.intersecting_calls + other.intersecting_calls;
        self.intersecting_sources = self.intersecting_sources + other.intersecting_sources;
        self.intersecting_targets = self.intersecting_targets + other.intersecting_targets;
        self.intersecting_edges = self.intersecting_edges + other.intersecting_edges;
        self.intersecting_time = self.intersecting_time.add(other.intersecting_time);
        self.coreset_calls = self.coreset_calls + other.coreset_calls;
        self.coreset_sources = self.coreset_sources + other.coreset_sources;
        self.coreset_edges = self.coreset_edges + other.coreset_edges;
        self.coreset_time = self.coreset_time.add(other.coreset_time);
    }

    /// Time spent in all three kinds of oracle call.
    pub fn total_time(self) -> (res: Elapsed)
        requires
            self.graph_time.total_nanos() + self.intersecting_time.total_nanos()
                + self.coreset_time.total_nanos() < (u64::MAX as int + 1) * 1_000_000_000,
        ensures
            res.total_nanos() == self.graph_time.total_nanos() + self.intersecting_time.total_nanos()
                + self.coreset_time.total_nanos(),
    {
        let partial = self.graph_time.add(self.intersecting_time);
        partial.add(self.coreset_time)
    }
}

impl Default for InMemoryOracleTiming {
    fn default() -> (res: Self)
        ensures
            res.is_zero(),
    {
        InMemoryOracleTiming {
            graph_calls: 0,
            graph_sources: 0,
            graph_edges: 0,
            graph_time: Elapsed::zero(),
            intersecting_calls: 0,
            intersecting_sources: 0,
            intersecting_targets: 0,
            intersecting_edges: 0,
            intersecting_time: Elapsed::zero(),
            coreset_calls: 0,
            coreset_sources: 0,
            coreset_edges: 0,
            coreset_time: Elapsed::zero(),
        }
    }
}

/// Time and counts spent labelling the full graph from the coreset centres.
#[derive(Debug, Clone, Copy)]
pub struct FullGraphLabelTiming {
    pub total: Elapsed,
    pub setup: Elapsed,
    pub degree_lookup: Elapsed,
    pub coreset_lookup: Elapsed,
    pub coreset_row_collect: Elapsed,
    pub center_stats: Elapsed,
    pub query_lookup: Elapsed,
    pub query_row_collect: Elapsed,
    pub target_info: Elapsed,
    pub label_nodes: Elapsed,
    pub labelled_nodes: usize,
    pub coreset_nodes: usize,
    pub degree_nodes: usize,
    pub coreset_lookup_edges: usize,
    pub query_lookup_edges: usize,
}

impl FullGraphLabelTiming {
    /// Every field of `self + other` fits its type.
    pub open spec fn add_fits(self, other: Self) -> bool {
        &&& self.total.sum_fits(other.total)
        &&& self.setup.sum_fits(other.setup)
        &&& self.degree_lookup.sum_fits(other.degree_lookup)
        &&& self.coreset_lookup.sum_fits(other.coreset_lookup)
        &&& self.coreset_row_collect.sum_fits(other.coreset_row_collect)
        &&& self.center_stats.sum_fits(other.center_stats)
        &&& self.query_lookup.sum_fits(other.query_lookup)
        &&& self.query_row_collect.sum_fits(other.query_row_collect)
        &&& self.target_info.sum_fits(other.target_info)
        &&& self.label_nodes.sum_fits(other.label_nodes)
        &&& self.labelled_nodes + other.labelled_nodes <= usize::MAX
        &&& self.coreset_nodes + other.coreset_nodes <= usize::MAX
        &&& self.degree_nodes + other.degree_nodes <= usize::MAX
        &&& self.coreset_lookup_edges + other.coreset_lookup_edges <= usize::MAX
        &&& self.query_lookup_edges + other.query_lookup_edges <= usize::MAX
    }

    /// Every field of `self` is the sum of the same fields of `a` and `b`.
    pub open spec fn is_sum(self, a: Self, b: Self) -> bool {
        &&& self.total.total_nanos() == a.total.total_nanos() + b.total.total_nanos()
        &&& self.setup.total_nanos() == a.setup.total_nanos() + b.setup.total_nanos()
        &&& self.degree_lookup.total_nanos() == a.degree_lookup.total_nanos() + b.degree_lookup.total_nanos()
        &&& self.coreset_lookup.total_nanos() == a.coreset_lookup.total_nanos() + b.coreset_lookup.total_nanos()
        &&& self.coreset_row_collect.total_nanos() == a.coreset_row_collect.total_nanos() + b.coreset_row_collect.total_nanos()
        &&& self.center_stats.total_nanos() == a.center_stats.total_nanos() + b.center_stats.total_nanos()
        &&& self.query_lookup.total_nanos() == a.query_lookup.total_nanos() + b.query_lookup.total_nanos()
        &&& self.query_row_collect.total_nanos() == a.query_row_collect.total_nanos() + b.query_row_collect.total_nanos()
        &&& self.target_info.total_nanos() == a.target_info.total_nanos() + b.target_info.total_nanos()
        &&& self.label_nodes.total_nanos() == a.label_nodes.total_nanos() + b.label_nodes.total_nanos()
        &&& self.labelled_nodes == a.labelled_nodes + b.labelled_nodes
        &&& self.coreset_nodes == a.coreset_nodes + b.coreset_nodes
        &&& self.degree_nodes == a.degree_nodes + b.degree_nodes
        &&& self.coreset_lookup_edges == a.coreset_lookup_edges + b.coreset_lookup_edges
        &&& self.query_lookup_edges == a.query_lookup_edges + b.query_lookup_edges
    }

    /// Every span and count is zero.
    pub open spec fn is_zero(self) -> bool {
        &&& self.total.total_nanos() == 0
        &&& self.setup.total_nanos() == 0
        &&& self.degree_lookup.total_nanos() == 0
        &&& self.coreset_lookup.total_nanos() == 0
        &&& self.coreset_row_collect.total_nanos() == 0
        &&& self.center_stats.total_nanos() == 0
        &&& self.query_lookup.total_nanos() == 0
        &&& self.query_row_collect.total_nanos() == 0
        &&& self.target_info.total_nanos() == 0
        &&& self.label_nodes.total_nanos() == 0
        &&& self.labelled_nodes == 0
        &&& self.coreset_nodes == 0
        &&& self.degree_nodes == 0
        &&& self.coreset_lookup_edges == 0
        &&& self.query_lookup_edges == 0
    }

    /// Adds every span and count of `other` to the same field of `self`.
    pub fn add(&mut self, other: Self)
        requires
            old(self).add_fits(other),
        ensures
            final(self).is_sum(*old(self), other),
    {
        self.total = self.total.add(other.total);
        self.setup = self.setup.add(other.setup);
        self.degree_lookup = self.degree_lookup.add(other.degree_lookup);
        self.coreset_lookup = self.coreset_lookup.add(other.coreset_lookup);
        self.coreset_row_collect = self.coreset_row_collect.add(other.coreset_row_collect);
        self.center_stats = self.center_stats.add(other.center_stats);
        self.query_lookup = self.query_lookup.add(other.query_lookup);
        self.query_row_collect = self.query_row_collect.add(other.query_row_collect);
        self.target_info = self.target_info.add(other.target_info);
        self.label_nodes = self.label_nodes.add(other.label_nodes);
        self.labelled_nodes = self.labelled_nodes + other.labelled_nodes;
        self.coreset_nodes = self.coreset_nodes + other.coreset_nodes;
        self.degree_nodes = self.degree_nodes + other.degree_nodes;
        self.coreset_lookup_edges = self.coreset_lookup_edges + other.coreset_lookup_edges;
        self.query_lookup_edges = self.query_lookup_edges + other.query_lookup_edges;
    }
}

impl Default for FullGraphLabelTiming {
    fn default() -> (res: Self)
        ensures
            res.is_zero(),
    {
        FullGraphLabelTiming {
            total: Elapsed::zero(),
            setup: Elapsed::zero(),
            degree_lookup: Elapsed::zero(),
            coreset_lookup: Elapsed::zero(),
            coreset_row_collect: Elapsed::zero(),
            center_stats: Elapsed::zero(),
            query_lookup: Elapsed::zero(),
            query_row_collect: Elapsed::zero(),
            target_info: Elapsed::zero(),
            label_nodes: Elapsed::zero(),
            labelled_nodes: 0,
            coreset_nodes: 0,
            degree_nodes: 0,
            coreset_lookup_edges: 0,
            query_lookup_edges: 0,
        }
    }
}

/// Time and counts spent extracting one coreset.
#[derive(Debug, Clone, Copy)]
pub struct CoresetExtractionTiming {
    pub setup: Elapsed,
    pub initial_repairs: Elapsed,
    pub seed_sampling: Elapsed,
    pub seed_repairs: Elapsed,
    pub total_contribution: Elapsed,
    pub smoothed_sampling: Elapsed,
    pub deduplication: Elapsed,
    pub initial_repair_calls: usize,
    pub seed_repair_calls: usize,
    pub seed_samples: usize,
    pub smoothed_samples: usize,
    pub dedup_unique_nodes: usize,
    pub repair_calls: usize,
    pub repair_point_seed_move: Elapsed,
    pub repair_point_f_delta: Elapsed,
    pub repair_point_lookup: Elapsed,
    pub repair_neighbour_scan: Elapsed,
    pub repair_neighbour_lookup: Elapsed,
    pub repair_neighbour_compare: Elapsed,
    pub repair_neighbour_f_delta_write: Elapsed,
    pub repair_neighbour_seed_move: Elapsed,
    pub repair_neighbour_f_delta_recompute: Elapsed,
    pub repair_new_seed_h_update: Elapsed,
    pub repair_new_seed_h_write: Elapsed,
    pub repair_new_seed_h_recompute: Elapsed,
    pub repair_old_seed_prepare: Elapsed,
    pub repair_old_seed_lookup: Elapsed,
    pub repair_old_seed_rescale: Elapsed,
    pub repair_old_seed_h_recompute: Elapsed,
    pub repair_neighbours_scanned: usize,
    pub repair_neighbours_improved: usize,
    pub repair_new_seed_h_update_nodes: usize,
    pub repair_old_seed_count: usize,
    pub repair_old_seed_neighbours_scanned: usize,
    pub repair_old_seed_neighbours_rescaled: usize,
    pub repair_old_seed_h_update_nodes: usize,
}

impl CoresetExtractionTiming {
    /// Every field of `self + other` fits its type.
    pub open spec fn add_fits(self, other: Self) -> bool {
        &&& self.setup.sum_fits(other.setup)
        &&& self.initial_repairs.sum_fits(other.initial_repairs)
        &&& self.seed_sampling.sum_fits(other.seed_sampling)
        &&& self.seed_repairs.sum_fits(other.seed_repairs)
        &&& self.total_contribution.sum_fits(other.total_contribution)
        &&& self.smoothed_sampling.sum_fits(other.smoothed_sampling)
        &&& self.deduplication.sum_fits(other.deduplication)
        &&& self.initial_repair_calls + other.initial_repair_calls <= usize::MAX
        &&& self.seed_repair_calls + other.seed_repair_calls <= usize::MAX
        &&& self.seed_samples + other.seed_samples <= usize::MAX
        &&& self.smoothed_samples + other.smoothed_samples <= usize::MAX
        &&& self.dedup_unique_nodes + other.dedup_unique_nodes <= usize::MAX
        &&& self.repair_calls + other.repair_calls <= usize::MAX
        &&& self.repair_point_seed_move.sum_fits(other.repair_point_seed_move)
        &&& self.repair_point_f_delta.sum_fits(other.repair_point_f_delta)
        &&& self.repair_point_lookup.sum_fits(other.repair_point_lookup)
        &&& self.repair_neighbour_scan.sum_fits(other.repair_neighbour_scan)
        &&& self.repair_neighbour_lookup.sum_fits(other.repair_neighbour_lookup)
        &&& self.repair_neighbour_compare.sum_fits(other.repair_neighbour_compare)
        &&& self.repair_neighbour_f_delta_write.sum_fits(other.repair_neighbour_f_delta_write)
        &&& self.repair_neighbour_seed_move.sum_fits(other.repair_neighbour_seed_move)
        &&& self.repair_neighbour_f_delta_recompute.sum_fits(other.repair_neighbour_f_delta_recompute)
        &&& self.repair_new_seed_h_update.sum_fits(other.repair_new_seed_h_update)
        &&& self.repair_new_seed_h_write.sum_fits(other.repair_new_seed_h_write)
        &&& self.repair_new_seed_h_recompute.sum_fits(other.repair_new_seed_h_recompute)
        &&& self.repair_old_seed_prepare.sum_fits(other.repair_old_seed_prepare)
        &&& self.repair_old_seed_lookup.sum_fits(other.repair_old_seed_lookup)
        &&& self.repair_old_seed_rescale.sum_fits(other.repair_old_seed_rescale)
        &&& self.repair_old_seed_h_recompute.sum_fits(other.repair_old_seed_h_recompute)
        &&& self.repair_neighbours_scanned + other.repair_neighbours_scanned <= usize::MAX
        &&& self.repair_neighbours_improved + other.repair_neighbours_improved <= usize::MAX
        &&& self.repair_new_seed_h_update_nodes + other.repair_new_seed_h_update_nodes <= usize::MAX
        &&& self.repair_old_seed_count + other.repair_old_seed_count <= usize::MAX
        &&& self.repair_old_seed_neighbours_scanned + other.repair_old_seed_neighbours_scanned <= usize::MAX
        &&& self.repair_old_seed_neighbours_rescaled + other.repair_old_seed_neighbours_rescaled <= usize::MAX
        &&& self.repair_old_seed_h_update_nodes + other.repair_old_seed_h_update_nodes <= usize::MAX
    }

    /// Every field of `self` is the sum of the same fields of `a` and `b`.
    pub open spec fn is_sum(self, a: Self, b: Self) -> bool {
        &&& self.setup.total_nanos() == a.setup.total_nanos() + b.setup.total_nanos()
        &&& self.initial_repairs.total_nanos() == a.initial_repairs.total_nanos() + b.initial_repairs.total_nanos()
        &&& self.seed_sampling.total_nanos() == a.seed_sampling.total_nanos() + b.seed_sampling.total_nanos()
        &&& self.seed_repairs.total_nanos() == a.seed_repairs.total_nanos() + b.seed_repairs.total_nanos()
        &&& self.total_contribution.total_nanos() == a.total_contribution.total_nanos() + b.total_contribution.total_nanos()
        &&& self.smoothed_sampling.total_nanos() == a.smoothed_sampling.total_nanos() + b.smoothed_sampling.total_nanos()
        &&& self.deduplication.total_nanos() == a.deduplication.total_nanos() + b.deduplication.total_nanos()
        &&& self.initial_repair_calls == a.initial_repair_calls + b.initial_repair_calls
        &&& self.seed_repair_calls == a.seed_repair_calls + b.seed_repair_calls
        &&& self.seed_samples == a.seed_samples + b.seed_samples
        &&& self.smoothed_samples == a.smoothed_samples + b.smoothed_samples
        &&& self.dedup_unique_nodes == a.dedup_unique_nodes + b.dedup_unique_nodes
        &&& self.repair_calls == a.repair_calls + b.repair_calls
        &&& self.repair_point_seed_move.total_nanos() == a.repair_point_seed_move.total_nanos() + b.repair_point_seed_move.total_nanos()
        &&& self.repair_point_f_delta.total_nanos() == a.repair_point_f_delta.total_nanos() + b.repair_point_f_delta.total_nanos()
        &&& self.repair_point_lookup.total_nanos() == a.repair_point_lookup.total_nanos() + b.repair_point_lookup.total_nanos()
        &&& self.repair_neighbour_scan.total_nanos() == a.repair_neighbour_scan.total_nanos() + b.repair_neighbour_scan.total_nanos()
        &&& self.repair_neighbour_lookup.total_nanos() == a.repair_neighbour_lookup.total_nanos() + b.repair_neighbour_lookup.total_nanos()
        &&& self.repair_neighbour_compare.total_nanos() == a.repair_neighbour_compare.total_nanos() + b.repair_neighbour_compare.total_nanos()
        &&& self.repair_neighbour_f_delta_write.total_nanos() == a.repair_neighbour_f_delta_write.total_nanos() + b.repair_neighbour_f_delta_write.total_nanos()
        &&& self.repair_neighbour_seed_move.total_nanos() == a.repair_neighbour_seed_move.total_nanos() + b.repair_neighbour_seed_move.total_nanos()
        &&& self.repair_neighbour_f_delta_recompute.total_nanos() == a.repair_neighbour_f_delta_recompute.total_nanos() + b.repair_neighbour_f_delta_recompute.total_nanos()
        &&& self.repair_new_seed_h_update.total_nanos() == a.repair_new_seed_h_update.total_nanos() + b.repair_new_seed_h_update.total_nanos()
        &&& self.repair_new_seed_h_write.total_nanos() == a.repair_new_seed_h_write.total_nanos() + b.repair_new_seed_h_write.total_nanos()
        &&& self.repair_new_seed_h_recompute.total_nanos() == a.repair_new_seed_h_recompute.total_nanos() + b.repair_new_seed_h_recompute.total_nanos()
        &&& self.repair_old_seed_prepare.total_nanos() == a.repair_old_seed_prepare.total_nanos() + b.repair_old_seed_prepare.total_nanos()
        &&& self.repair_old_seed_lookup.total_nanos() == a.repair_old_seed_lookup.total_nanos() + b.repair_old_seed_lookup.total_nanos()
        &&& self.repair_old_seed_rescale.total_nanos() == a.repair_old_seed_rescale.total_nanos() + b.repair_old_seed_rescale.total_nanos()
        &&& self.repair_old_seed_h_recompute.total_nanos() == a.repair_old_seed_h_recompute.total_nanos() + b.repair_old_seed_h_recompute.total_nanos()
        &&& self.repair_neighbours_scanned == a.repair_neighbours_scanned + b.repair_neighbours_scanned
        &&& self.repair_neighbours_improved == a.repair_neighbours_improved + b.repair_neighbours_improved
        &&& self.repair_new_seed_h_update_nodes == a.repair_new_seed_h_update_nodes + b.repair_new_seed_h_update_nodes
        &&& self.repair_old_seed_count == a.repair_old_seed_count + b.repair_old_seed_count
        &&& self.repair_old_seed_neighbours_scanned == a.repair_old_seed_neighbours_scanned + b.repair_old_seed_neighbours_scanned
        &&& self.repair_old_seed_neighbours_rescaled == a.repair_old_seed_neighbours_rescaled + b.repair_old_seed_neighbours_rescaled
        &&& self.repair_old_seed_h_update_nodes == a.repair_old_seed_h_update_nodes + b.repair_old_seed_h_update_nodes
    }

    /// Every span and count is zero.
    pub open spec fn is_zero(self) -> bool {
        &&& self.setup.total_nanos() == 0
        &&& self.initial_repairs.total_nanos() == 0
        &&& self.seed_sampling.total_nanos() == 0
        &&& self.seed_repairs.total_nanos() == 0
        &&& self.total_contribution.total_nanos() == 0
        &&& self.smoothed_sampling.total_nanos() == 0
        &&& self.deduplication.total_nanos() == 0
        &&& self.initial_repair_calls == 0
        &&& self.seed_repair_calls == 0
        &&& self.seed_samples == 0
        &&& self.smoothed_samples == 0
        &&& self.dedup_unique_nodes == 0
        &&& self.repair_calls == 0
        &&& self.repair_point_seed_move.total_nanos() == 0
        &&& self.repair_point_f_delta.total_nanos() == 0
        &&& self.repair_point_lookup.total_nanos() == 0
        &&& self.repair_neighbour_scan.total_nanos() == 0
        &&& self.repair_neighbour_lookup.total_nanos() == 0
        &&& self.repair_neighbour_compare.total_nanos() == 0
        &&& self.repair_neighbour_f_delta_write.total_nanos() == 0
        &&& self.repair_neighbour_seed_move.total_nanos() == 0
        &&& self.repair_neighbour_f_delta_recompute.total_nanos() == 0
        &&& self.repair_new_seed_h_update.total_nanos() == 0
        &&& self.repair_new_seed_h_write.total_nanos() == 0
        &&& self.repair_new_seed_h_recompute.total_nanos() == 0
        &&& self.repair_old_seed_prepare.total_nanos() == 0
        &&& self.repair_old_seed_lookup.total_nanos() == 0
        &&& self.repair_old_seed_rescale.total_nanos() == 0
        &&& self.repair_old_seed_h_recompute.total_nanos() == 0
        &&& self.repair_neighbours_scanned == 0
        &&& self.repair_neighbours_improved == 0
        &&& self.repair_new_seed_h_update_nodes == 0
        &&& self.repair_old_seed_count == 0
        &&& self.repair_old_seed_neighbours_scanned == 0
        &&& self.repair_old_seed_neighbours_rescaled == 0
        &&& self.repair_old_seed_h_update_nodes == 0
    }

    /// Adds every span and count of `other` to the same field of `self`.
    pub fn add(&mut self, other: Self)
        requires
            old(self).add_fits(other),
        ensures
            final(self).is_sum(*old(self), other),
    {
        self.setup = self.setup.add(other.setup);
        self.initial_repairs = self.initial_repairs.add(other.initial_repairs);
        self.seed_sampling = self.seed_sampling.add(other.seed_sampling);
        self.seed_repairs = self.seed_repairs.add(other.seed_repairs);
        self.total_contribution = self.total_contribution.add(other.total_contribution);
        self.smoothed_sampling = self.smoothed_sampling.add(other.smoothed_sampling);
        self.deduplication = self.deduplication.add(other.deduplication);
        self.initial_repair_calls = self.initial_repair_calls + other.initial_repair_calls;
        self.seed_repair_calls = self.seed_repair_calls + other.seed_repair_calls;
        self.seed_samples = self.seed_samples + other.seed_samples;
        self.smoothed_samples = self.smoothed_samples + other.smoothed_samples;
        self.dedup_unique_nodes = self.dedup_unique_nodes + other.dedup_unique_nodes;
        self.repair_calls = self.repair_calls + other.repair_calls;
        self.repair_point_seed_move = self.repair_point_seed_move.add(other.repair_point_seed_move);
        self.repair_point_f_delta = self.repair_point_f_delta.add(other.repair_point_f_delta);
        self.repair_point_lookup = self.repair_point_lookup.add(other.repair_point_lookup);
        self.repair_neighbour_scan = self.repair_neighbour_scan.add(other.repair_neighbour_scan);
        self.repair_neighbour_lookup = self.repair_neighbour_lookup.add(other.repair_neighbour_lookup);
        self.repair_neighbour_compare = self.repair_neighbour_compare.add(other.repair_neighbour_compare);
        self.repair_neighbour_f_delta_write = self.repair_neighbour_f_delta_write.add(other.repair_neighbour_f_delta_write);
        self.repair_neighbour_seed_move = self.repair_neighbour_seed_move.add(other.repair_neighbour_seed_move);
        self.repair_neighbour_f_delta_recompute = self.repair_neighbour_f_delta_recompute.add(other.repair_neighbour_f_delta_recompute);
        self.repair_new_seed_h_update = self.repair_new_seed_h_update.add(other.repair_new_seed_h_update);
        self.repair_new_seed_h_write = self.repair_new_seed_h_write.add(other.repair_new_seed_h_write);
        self.repair_new_seed_h_recompute = self.repair_new_seed_h_recompute.add(other.repair_new_seed_h_recompute);
        self.repair_old_seed_prepare = self.repair_old_seed_prepare.add(other.repair_old_seed_prepare);
        self.repair_old_seed_lookup = self.repair_old_seed_lookup.add(other.repair_old_seed_lookup);
        self.repair_old_seed_rescale = self.repair_old_seed_rescale.add(other.repair_old_seed_rescale);
        self.repair_old_seed_h_recompute = self.repair_old_seed_h_recompute.add(other.repair_old_seed_h_recompute);
        self.repair_neighbours_scanned = self.repair_neighbours_scanned + other.repair_neighbours_scanned;
        self.repair_neighbours_improved = self.repair_neighbours_improved + other.repair_neighbours_improved;
        self.repair_new_seed_h_update_nodes = self.repair_new_seed_h_update_nodes + other.repair_new_seed_h_update_nodes;
        self.repair_old_seed_count = self.repair_old_seed_count + other.repair_old_seed_count;
        self.repair_old_seed_neighbours_scanned = self.repair_old_seed_neighbours_scanned + other.repair_old_seed_neighbours_scanned;
        self.repair_old_seed_neighbours_rescaled = self.repair_old_seed_neighbours_rescaled + other.repair_old_seed_neighbours_rescaled;
        self.repair_old_seed_h_update_nodes = self.repair_old_seed_h_update_nodes + other.repair_old_seed_h_update_nodes;
    }

    /// Time spent in repairs: the initial repairs and the seed repairs.
    pub fn repair_wall(self) -> (res: Elapsed)
        requires
            self.initial_repairs.sum_fits(self.seed_repairs),
        ensures
            res.total_nanos() == self.initial_repairs.total_nanos()
                + self.seed_repairs.total_nanos(),
    {
        self.initial_repairs.add(self.seed_repairs)
    }
}

impl Default for CoresetExtractionTiming {
    fn default() -> (res: Self)
        ensures
            res.is_zero(),
    {
        CoresetExtractionTiming {
            setup: Elapsed::zero(),
            initial_repairs: Elapsed::zero(),
            seed_sampling: Elapsed::zero(),
            seed_repairs: Elapsed::zero(),
            total_contribution: Elapsed::zero(),
            smoothed_sampling: Elapsed::zero(),
            deduplication: Elapsed::zero(),
            initial_repair_calls: 0,
            seed_repair_calls: 0,
            seed_samples: 0,
            smoothed_samples: 0,
            dedup_unique_nodes: 0,
            repair_calls: 0,
            repair_point_seed_move: Elapsed::zero(),
            repair_point_f_delta: Elapsed::zero(),
            repair_point_lookup: Elapsed::zero(),
            repair_neighbour_scan: Elapsed::zero(),
            repair_neighbour_lookup: Elapsed::zero(),
            repair_neighbour_compare: Elapsed::zero(),
            repair_neighbour_f_delta_write: Elapsed::zero(),
            repair_neighbour_seed_move: Elapsed::zero(),
            repair_neighbour_f_delta_recompute: Elapsed::zero(),
            repair_new_seed_h_update: Elapsed::zero(),
            repair_new_seed_h_write: Elapsed::zero(),
            repair_new_seed_h_recompute: Elapsed::zero(),
            repair_old_seed_prepare: Elapsed::zero(),
            repair_old_seed_lookup: Elapsed::zero(),
            repair_old_seed_rescale: Elapsed::zero(),
            repair_old_seed_h_recompute: Elapsed::zero(),
            repair_neighbours_scanned: 0,
            repair_neighbours_improved: 0,
            repair_new_seed_h_update_nodes: 0,
            repair_old_seed_count: 0,
            repair_old_seed_neighbours_scanned: 0,
            repair_old_seed_neighbours_rescaled: 0,
            repair_old_seed_h_update_nodes: 0,
        }
    }
}

/// Time spent in one query trial, by phase.
#[derive(Debug, Clone, Copy)]
pub struct QueryTrialTiming {
    pub total: Elapsed,
    pub extract_coreset: Elapsed,
    pub extract_coreset_breakdown: CoresetExtractionTiming,
    pub build_coreset_graph: Elapsed,
    pub cluster_coreset: Elapsed,
    pub label_partition: Elapsed,
    pub label_breakdown: FullGraphLabelTiming,
}

impl Default for QueryTrialTiming {
    fn default() -> (res: Self)
        ensures
            res.total.total_nanos() == 0,
            res.extract_coreset.total_nanos() == 0,
            res.extract_coreset_breakdown.is_zero(),
            res.build_coreset_graph.total_nanos() == 0,
            res.cluster_coreset.total_nanos() == 0,
            res.label_partition.total_nanos() == 0,
            res.label_breakdown.is_zero(),
    {
        QueryTrialTiming {
            total: Elapsed::zero(),
            extract_coreset: Elapsed::zero(),
            extract_coreset_breakdown: CoresetExtractionTiming::default(),
            build_coreset_graph: Elapsed::zero(),
            cluster_coreset: Elapsed::zero(),
            label_partition: Elapsed::zero(),
            label_breakdown: FullGraphLabelTiming::default(),
        }
    }
}

/// Time spent in one query, with the timing of each of its trials.
#[derive(Debug, Clone)]
pub struct QueryTiming {
    pub total: Elapsed,
    pub setup: Elapsed,
    pub output: Elapsed,
    pub trials: Vec<QueryTrialTiming>,
}

impl Default for QueryTiming {
    fn default() -> (res: Self)
        ensures
            res.total.total_nanos() == 0,
            res.setup.total_nanos() == 0,
            res.output.total_nanos() == 0,
            res.trials@.len() == 0,
    {
        QueryTiming {
            total: Elapsed::zero(),
            setup: Elapsed::zero(),
            output: Elapsed::zero(),
            trials: Vec::new(),
        }
    }
}

} // verus!
