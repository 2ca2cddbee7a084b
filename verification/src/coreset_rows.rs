use vstd::prelude::*;

use crate::ids::{NodeIdentity, TreeIndex};

verus! {

/// A visit of a coreset neighbourhood lookup that cannot be placed in the
/// coreset rows.
#[derive(Debug, Clone, Copy, PartialEq, Eq, Structural)]
pub enum CoresetRowError {
    /// The visit names a row at or past the number of coreset rows.
    RowOutOfRange { row: usize, rows: usize },
    /// The visit names a target at or past the number of coreset nodes.
    TargetOutOfRange { target: usize, targets: usize },
    /// The visit comes back to a row below the row of the visit before it.
    RowOrder { row: usize, after: usize },
}

/// Coreset neighbourhoods as flat rows: row `i` holds the entries from
/// `offsets[i]` up to `offsets[i + 1]`, once with the neighbour itself
/// (`data`) and once with the neighbour's coreset position (`index_data`).
pub struct CoresetRows<W> {
    pub data: Vec<(NodeIdentity, W)>,
    pub offsets: Vec<usize>,
    pub index_data: Vec<(usize, W)>,
}

/// Number of visits whose row lies below `r`.
pub open spec fn rows_below<W>(visits: Seq<(usize, usize, NodeIdentity, W)>, r: int) -> nat
    decreases visits.len(),
{
    if visits.len() == 0 {
        0
    } else {
        rows_below(visits.drop_last(), r) + if visits.last().0 < r {
            1nat
        } else {
            0nat
        }
    }
}

/// Visit `j` fits the rows: its row and target lie below `n`, and its row is
/// not below the row of the visit before it.
pub open spec fn visit_fits<W>(visits: Seq<(usize, usize, NodeIdentity, W)>, n: int, j: int) -> bool {
    &&& visits[j].0 < n
    &&& visits[j].1 < n
    &&& j > 0 ==> visits[j - 1].0 <= visits[j].0
}

/// The first `k` visits all fit the rows.
pub open spec fn visits_fit<W>(visits: Seq<(usize, usize, NodeIdentity, W)>, n: int, k: int) -> bool {
    forall|j: int| 0 <= j < k ==> #[trigger] visit_fits(visits, n, j)
}

/// The error reported for visit `k`, the first one that does not fit.
pub open spec fn misfit_error<W>(
    visits: Seq<(usize, usize, NodeIdentity, W)>,
    n: usize,
    k: int,
) -> CoresetRowError {
    if visits[k].0 >= n {
        CoresetRowError::RowOutOfRange { row: visits[k].0, rows: n }
    } else if visits[k].1 >= n {
        CoresetRowError::TargetOutOfRange { target: visits[k].1, targets: n }
    } else {
        CoresetRowError::RowOrder { row: visits[k].0, after: visits[k - 1].0 }
    }
}

proof fn lemma_rows_below_bounds<W>(visits: Seq<(usize, usize, NodeIdentity, W)>, r: int)
    ensures
        rows_below(visits, r) <= visits.len(),
        (forall|j: int| 0 <= j < visits.len() ==> #[trigger] visits[j].0 < r) ==> rows_below(
            visits,
            r,
        ) == visits.len(),
        (forall|j: int| 0 <= j < visits.len() ==> #[trigger] visits[j].0 >= r) ==> rows_below(
            visits,
            r,
        ) == 0,
    decreases visits.len(),
{
    if visits.len() > 0 {
        let rest = visits.drop_last();
        lemma_rows_below_bounds(rest, r);
        assert forall|j: int| 0 <= j < rest.len() implies #[trigger] rest[j] == visits[j] by {}
        if forall|j: int| 0 <= j < visits.len() ==> #[trigger] visits[j].0 < r {
            assert forall|j: int| 0 <= j < rest.len() implies #[trigger] rest[j].0 < r by {
                assert(rest[j] == visits[j]);
            }
            assert(visits[visits.len() - 1].0 < r);
        }
        if forall|j: int| 0 <= j < visits.len() ==> #[trigger] visits[j].0 >= r {
            assert forall|j: int| 0 <= j < rest.len() implies #[trigger] rest[j].0 >= r by {
                assert(rest[j] == visits[j]);
            }
            assert(visits[visits.len() - 1].0 >= r);
        }
    }
}

/// Places the visits of a coreset neighbourhood lookup, given as
/// `(row, target, neighbour, weight)` in the order they came, into `n` flat
/// rows. Rows never visited stay empty. The first visit that names a row or
/// target at or past `n`, or a row below the one before it, is reported.
pub fn assemble_coreset_rows<W: Copy>(n: usize, visits: &[(usize, usize, NodeIdentity, W)]) -> (res:
    Result<CoresetRows<W>, CoresetRowError>)
    requires
        n < usize::MAX,
    ensures
        res is Ok <==> visits_fit(visits@, n as int, visits@.len() as int),
        res matches Err(e) ==> exists|k: int|
            0 <= k < visits@.len() && visits_fit(visits@, n as int, k) && !visit_fits(
                visits@,
                n as int,
                k,
            ) && e == misfit_error(visits@, n, k),
        res matches Ok(rows) ==> {
            &&& rows.data@.len() == visits@.len()
            &&& rows.index_data@.len() == visits@.len()
            &&& forall|j: int|
                0 <= j < visits@.len() ==> #[trigger] rows.data@[j] == (visits@[j].2, visits@[j].3)
                    && rows.index_data@[j] == (visits@[j].1, visits@[j].3)
            &&& rows.offsets@.len() == n + 1
            &&& forall|r: int| 0 <= r <= n ==> #[trigger] rows.offsets@[r] == rows_below(visits@, r)
        },
{
    let mut data: Vec<(NodeIdentity, W)> = Vec::new();
    let mut index_data: Vec<(usize, W)> = Vec::new();
    let mut offsets: Vec<usize> = Vec::new();
    offsets.push(0);
    let mut current_row: usize = 0;
    let mut k: usize = 0;
    while k < visits.len()
        invariant
            k <= visits.len(),
            n < usize::MAX,
            current_row < n || (k == 0 && current_row == 0),
            k > 0 ==> current_row == visits@[k - 1].0,
            k == 0 ==> current_row == 0,
            visits_fit(visits@, n as int, k as int),
            data@.len() == k,
            index_data@.len() == k,
            forall|j: int|
                0 <= j < k ==> #[trigger] data@[j] == (visits@[j].2, visits@[j].3)
                    && index_data@[j] == (visits@[j].1, visits@[j].3),
            offsets@.len() == current_row + 1,
            forall|r: int|
                0 <= r <= current_row ==> #[trigger] offsets@[r] == rows_below(
                    visits@.subrange(0, k as int),
                    r,
                ),
        decreases visits.len() - k,
    {
        let (row, target, node, weight) = visits[k];
        if row >= n {
            proof {
                assert(!visit_fits(visits@, n as int, k as int));
            }
            return Err(CoresetRowError::RowOutOfRange { row, rows: n });
        }
        if target >= n {
            proof {
                assert(!visit_fits(visits@, n as int, k as int));
            }
            return Err(CoresetRowError::TargetOutOfRange { target, targets: n });
        }
        if row < current_row {
            proof {
                assert(!visit_fits(visits@, n as int, k as int));
            }
            return Err(CoresetRowError::RowOrder { row, after: current_row });
        }
        let ghost prefix = visits@.subrange(0, k as int);
        let ghost start_row = current_row;
        proof {
            assert forall|j: int| 0 <= j < prefix.len() implies #[trigger] prefix[j].0
                <= current_row by {
                if k > 0 {
                    assert forall|a: int, b: int| 0 <= a <= b < k implies visits@[a].0
                        <= visits@[b].0 by {
                        lemma_rows_nondecreasing(visits@, n as int, a, b);
                    }
                    assert(prefix[j] == visits@[j]);
                }
            }
        }
        while current_row < row
            invariant
                start_row <= current_row <= row,
                row < n,
                k < visits.len(),
                n < usize::MAX,
                data@.len() == k,
                prefix == visits@.subrange(0, k as int),
                forall|j: int| 0 <= j < prefix.len() ==> #[trigger] prefix[j].0 <= start_row,
                offsets@.len() == current_row + 1,
                forall|r: int|
                    0 <= r <= current_row ==> #[trigger] offsets@[r] == rows_below(prefix, r),
            decreases row - current_row,
        {
            offsets.push(data.len());
            current_row += 1;
            proof {
                assert forall|j: int| 0 <= j < prefix.len() implies #[trigger] prefix[j].0
                    < current_row by {}
                lemma_rows_below_bounds(prefix, current_row as int);
            }
        }
        data.push((node, weight));
        index_data.push((target, weight));
        proof {
            let next = visits@.subrange(0, k + 1);
            assert(next.drop_last() =~= prefix);
            assert(next.last() == visits@[k as int]);
            assert(visit_fits(visits@, n as int, k as int));
            assert forall|j: int| 0 <= j < k + 1 implies #[trigger] visit_fits(
                visits@,
                n as int,
                j,
            ) by {}
            assert forall|r: int| 0 <= r <= current_row implies #[trigger] offsets@[r]
                == rows_below(next, r) by {
                assert(rows_below(next, r) == rows_below(prefix, r));
            }
        }
        k += 1;
    }
    let ghost all = visits@.subrange(0, k as int);
    proof {
        assert(all =~= visits@);
        if k > 0 {
            assert forall|j: int| 0 <= j < visits@.len() implies #[trigger] visits@[j].0
                <= current_row by {
                lemma_rows_nondecreasing(visits@, n as int, j, k - 1);
            }
        }
    }
    while offsets.len() < n + 1
        invariant
            current_row < n || (current_row == 0 && visits@.len() == 0),
            n < usize::MAX,
            offsets@.len() <= n + 1,
            offsets@.len() >= current_row + 1,
            data@.len() == visits@.len(),
            forall|r: int| 0 <= r <= current_row ==> #[trigger] offsets@[r] == rows_below(visits@, r),
            forall|r: int|
                current_row < r < offsets@.len() ==> #[trigger] offsets@[r] == visits@.len(),
            forall|j: int| 0 <= j < visits@.len() ==> #[trigger] visits@[j].0 <= current_row,
        decreases n + 1 - offsets.len(),
    {
        offsets.push(data.len());
    }
    proof {
        assert forall|r: int| 0 <= r <= n implies #[trigger] offsets@[r] == rows_below(visits@, r) by {
            if r > current_row {
                lemma_rows_below_bounds(visits@, r);
            }
        }
    }
    Ok(CoresetRows { data, offsets, index_data })
}

/// Rows of fitting visits never decrease.
proof fn lemma_rows_nondecreasing<W>(
    visits: Seq<(usize, usize, NodeIdentity, W)>,
    n: int,
    a: int,
    b: int,
)
    requires
        0 <= a <= b,
        visits_fit(visits, n, b + 1),
        b < visits.len(),
    ensures
        visits[a].0 <= visits[b].0,
    decreases b - a,
{
    if a < b {
        lemma_rows_nondecreasing(visits, n, a, b - 1);
        assert(visit_fits(visits, n, b));
    }
}

/// A coreset of one query trial: its nodes with their tree positions and
/// weights, its labels once clustered, and the cached neighbourhood rows
/// among its nodes as flat data with row offsets.
pub struct Coreset<V, W> {
    pub nodes: Vec<V>,
    pub node_indices: Vec<TreeIndex>,
    pub weights: Vec<W>,
    pub coreset_labels: Option<Vec<usize>>,
    pub coreset_neighbourhood_data: Vec<(V, W)>,
    pub coreset_neighbourhood_offsets: Vec<usize>,
}

impl<V, W> Coreset<V, W> {
    /// The cached rows fit the data: one offset more than there are nodes,
    /// offsets that never decrease within a row, and no row past the data.
    pub open spec fn rows_fit(&self) -> bool {
        let o = self.coreset_neighbourhood_offsets@;
        &&& o.len() == self.nodes@.len() + 1
        &&& forall|i: int|
            0 <= i < self.nodes@.len() ==> #[trigger] o[i] <= o[i + 1] && o[i + 1]
                <= self.coreset_neighbourhood_data@.len()
    }

    /// The cached neighbourhood row of each coreset node, or `None` when the
    /// cached offsets do not fit the nodes and data.
    pub fn cached_coreset_neighbourhood_rows(&self) -> (res: Option<Vec<&[(V, W)]>>)
        ensures
            res is Some <==> self.rows_fit(),
            res matches Some(rows) ==> rows@.len() == self.nodes@.len() && forall|i: int|
                0 <= i < rows@.len() ==> (#[trigger] rows@[i])@ == self.coreset_neighbourhood_data@.subrange(
                    self.coreset_neighbourhood_offsets@[i] as int,
                    self.coreset_neighbourhood_offsets@[i + 1] as int,
                ),
    {
        if self.coreset_neighbourhood_offsets.len() == 0
            || self.coreset_neighbourhood_offsets.len() - 1 != self.nodes.len() {
            return None;
        }
        let mut rows: Vec<&[(V, W)]> = Vec::new();
        let mut idx: usize = 0;
        while idx < self.nodes.len()
            invariant
                idx <= self.nodes@.len(),
                self.coreset_neighbourhood_offsets@.len() == self.nodes@.len() + 1,
                rows@.len() == idx,
                forall|i: int|
                    0 <= i < idx ==> #[trigger] self.coreset_neighbourhood_offsets@[i]
                        <= self.coreset_neighbourhood_offsets@[i + 1]
                        && self.coreset_neighbourhood_offsets@[i + 1]
                        <= self.coreset_neighbourhood_data@.len(),
                forall|i: int|
                    0 <= i < idx ==> (#[trigger] rows@[i])@ == self.coreset_neighbourhood_data@.subrange(
                        self.coreset_neighbourhood_offsets@[i] as int,
                        self.coreset_neighbourhood_offsets@[i + 1] as int,
                    ),
            decreases self.nodes@.len() - idx,
        {
            let start = self.coreset_neighbourhood_offsets[idx];
            let end = self.coreset_neighbourhood_offsets[idx + 1];
            if start > end || end > self.coreset_neighbourhood_data.len() {
                return None;
            }
            let row = &self.coreset_neighbourhood_data[start..end];
            rows.push(row);
            idx += 1;
        }
        Some(rows)
    }
}

} // verus!
