use vstd::prelude::*;

verus! {

/// Query for complete graph rows: parameter `nodes` lists the sources in
/// row order; each reply row has columns `row_index` and `neighbours`, a list
/// of `{node, weight}` maps.
pub const GRAPH_NEIGHBOURHOODS_QUERY: &'static str = r#"
WITH $nodes AS nodes
UNWIND range(0, size(nodes) - 1) AS row_index
WITH row_index, nodes[row_index] AS source_id
MATCH (source:RavenNode {id: source_id})
OPTIONAL MATCH (source)-[edge:RAVEN_EDGE]-(target:RavenNode)
WITH row_index,
     collect(
         CASE
             WHEN target IS NULL THEN null
             ELSE {node: target.id, weight: edge.weight}
         END
     ) AS neighbours
RETURN row_index, [entry IN neighbours WHERE entry IS NOT NULL] AS neighbours
ORDER BY row_index
"#;

/// Query for graph rows filtered to a target set: parameters `sources` (row
/// order) and `target_lookup`, a map from `toString(node_id)` to `true`.
pub const GRAPH_NEIGHBOURHOODS_INTERSECTING_QUERY: &'static str = r#"
WITH $sources AS sources, $target_lookup AS target_lookup
UNWIND range(0, size(sources) - 1) AS row_index
WITH row_index, sources[row_index] AS source_id, target_lookup
MATCH (source:RavenNode {id: source_id})
OPTIONAL MATCH (source)-[edge:RAVEN_EDGE]-(target:RavenNode)
WITH row_index,
     collect(
         CASE
             WHEN target IS NOT NULL AND target_lookup[toString(target.id)] IS NOT NULL
             THEN {node: target.id, weight: edge.weight}
             ELSE null
         END
     ) AS neighbours
RETURN row_index, [entry IN neighbours WHERE entry IS NOT NULL] AS neighbours
ORDER BY row_index
"#;

/// Query for coreset-induced rows: parameters `nodes` (the whole coreset, in
/// row order) and `node_lookup`, a map from `toString(node_id)` to `true`.
pub const CORESET_NEIGHBOURHOODS_QUERY: &'static str = r#"
WITH $nodes AS nodes, $node_lookup AS node_lookup
UNWIND range(0, size(nodes) - 1) AS row_index
WITH row_index, nodes[row_index] AS source_id, node_lookup
MATCH (source:RavenNode {id: source_id})
OPTIONAL MATCH (source)-[edge:RAVEN_EDGE]-(target:RavenNode)
WITH row_index,
     collect(
         CASE
             WHEN target IS NOT NULL AND node_lookup[toString(target.id)] IS NOT NULL
             THEN {node: target.id, weight: edge.weight}
             ELSE null
         END
     ) AS neighbours
RETURN row_index, [entry IN neighbours WHERE entry IS NOT NULL] AS neighbours
ORDER BY row_index
"#;

/// Cypher queries used by the Memgraph backend.
#[derive(Debug, Clone, PartialEq, Eq)]
pub struct MemgraphQueries {
    pub graph_neighbourhoods: String,
    pub graph_neighbourhoods_intersecting: String,
    pub coreset_neighbourhoods: String,
}

impl Default for MemgraphQueries {
    fn default() -> (res: Self)
        ensures
            res.graph_neighbourhoods@ == GRAPH_NEIGHBOURHOODS_QUERY@,
            res.graph_neighbourhoods_intersecting@ == GRAPH_NEIGHBOURHOODS_INTERSECTING_QUERY@,
            res.coreset_neighbourhoods@ == CORESET_NEIGHBOURHOODS_QUERY@,
    {
        MemgraphQueries {
            graph_neighbourhoods: GRAPH_NEIGHBOURHOODS_QUERY.to_string(),
            graph_neighbourhoods_intersecting: GRAPH_NEIGHBOURHOODS_INTERSECTING_QUERY.to_string(),
            coreset_neighbourhoods: CORESET_NEIGHBOURHOODS_QUERY.to_string(),
        }
    }
}

/// Whether coreset rows are filtered locally after fetching complete rows,
/// or by the database query.
#[derive(Debug, Clone, Copy, PartialEq, Eq, Structural)]
pub enum MemgraphFilterStrategy {
    FullRowsThenFilterLocally,
    PushDownToCypher,
}

impl Default for MemgraphFilterStrategy {
    fn default() -> (res: Self)
        ensures
            res == MemgraphFilterStrategy::FullRowsThenFilterLocally,
    {
        MemgraphFilterStrategy::FullRowsThenFilterLocally
    }
}

/// Size and lifetime of the cache of fetched rows.
#[derive(Debug, Clone, Copy, PartialEq, Eq)]
pub struct MemgraphCacheConfig {
    pub max_capacity: u64,
    pub time_to_live: Option<std::time::Duration>,
}

impl Default for MemgraphCacheConfig {
    fn default() -> (res: Self)
        ensures
            res.max_capacity == 100_000,
            res.time_to_live is None,
    {
        MemgraphCacheConfig { max_capacity: 100_000, time_to_live: None }
    }
}

/// Identifier of one queryable snapshot of a remote graph.
#[derive(Debug, Clone, Copy, PartialEq, Eq, Structural, Hash)]
pub struct SnapshotId(pub u64);

/// Node operations that describe one queryable remote snapshot: `None` marks
/// a node that is absent from the snapshot.
#[derive(Debug, Clone)]
pub struct RemoteSnapshotNodeOps<V, W> {
    pub snapshot: SnapshotId,
    pub node_ops: Vec<(V, Option<W>)>,
}

impl<V, W> RemoteSnapshotNodeOps<V, W> {
    pub fn new(snapshot: SnapshotId, node_ops: Vec<(V, Option<W>)>) -> (res: Self)
        ensures
            res.snapshot == snapshot,
            res.node_ops@ == node_ops@,
    {
        RemoteSnapshotNodeOps { snapshot, node_ops }
    }

    pub fn node_ops(&self) -> (res: &[(V, Option<W>)])
        ensures
            res@ == self.node_ops@,
    {
        self.node_ops.as_slice()
    }

    pub fn into_node_ops(self) -> (res: Vec<(V, Option<W>)>)
        ensures
            res@ == self.node_ops@,
    {
        self.node_ops
    }
}

} // verus!
