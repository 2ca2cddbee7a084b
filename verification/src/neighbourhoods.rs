use std::collections::HashSet;

use vstd::prelude::*;

use crate::error::MemgraphRowError;

verus! {

broadcast use vstd::std_specs::hash::group_hash_axioms;

/// Row offsets that start at 0, never decrease, and end at `data_len`.
pub open spec fn offsets_well_formed(data_len: nat, offsets: Seq<usize>) -> bool {
    &&& offsets.len() >= 1
    &&& offsets[0] == 0
    &&& offsets.last() == data_len
    &&& forall|i: int| 0 <= i < offsets.len() - 1 ==> #[trigger] offsets[i] <= offsets[i + 1]
}

/// Row `i` of flat rows: the entries from `offsets[i]` up to `offsets[i + 1]`.
pub open spec fn row_of<E>(data: Seq<E>, offsets: Seq<usize>, i: int) -> Seq<E> {
    data.subrange(offsets[i] as int, offsets[i + 1] as int)
}

/// All rows of flat rows, in order.
pub open spec fn rows_of<E>(data: Seq<E>, offsets: Seq<usize>) -> Seq<Seq<E>> {
    Seq::new((offsets.len() - 1) as nat, |i: int| row_of(data, offsets, i))
}

/// The contents of each row, in order.
pub open spec fn rows_view<E>(rows: Seq<Vec<E>>) -> Seq<Seq<E>> {
    Seq::new(rows.len(), |i: int| rows[i]@)
}

/// Concatenation of rows.
pub open spec fn flatten<E>(rows: Seq<Seq<E>>) -> Seq<E>
    decreases rows.len(),
{
    if rows.len() == 0 {
        Seq::empty()
    } else {
        flatten(rows.drop_last()) + rows.last()
    }
}

/// Neighbourhood rows borrowed as one flat data slice plus row offsets: row
/// `i` is `data[offsets[i]..offsets[i + 1]]`.
#[derive(Debug, Clone, Copy)]
pub struct Neighbourhoods<'a, E> {
    data: &'a [E],
    offsets: &'a [usize],
}

impl<'a, E> Neighbourhoods<'a, E> {
    /// Rows over `data` cut at `offsets`.
    pub fn new(data: &'a [E], offsets: &'a [usize]) -> (res: Self)
        ensures
            res.spec_data() == data@,
            res.spec_offsets() == offsets@,
    {
        Neighbourhoods { data, offsets }
    }

    /// The flat entries of all rows.
    pub fn data(&self) -> (res: &'a [E])
        ensures
            res@ == self.spec_data(),
    {
        self.data
    }

    /// The row offsets.
    pub fn offsets(&self) -> (res: &'a [usize])
        ensures
            res@ == self.spec_offsets(),
    {
        self.offsets
    }

    pub closed spec fn spec_data(&self) -> Seq<E> {
        self.data@
    }

    pub closed spec fn spec_offsets(&self) -> Seq<usize> {
        self.offsets@
    }

    /// Number of rows: one less than the number of offsets.
    pub fn len(&self) -> (res: usize)
        ensures
            res == if self.spec_offsets().len() == 0 {
                0
            } else {
                self.spec_offsets().len() - 1
            },
    {
        if self.offsets.len() == 0 {
            0
        } else {
            self.offsets.len() - 1
        }
    }

    /// Whether there are no rows.
    pub fn is_empty(&self) -> (res: bool)
        ensures
            res == (self.spec_offsets().len() <= 1),
    {
        self.len() == 0
    }

    /// Whether the offsets start at 0, never decrease and end at the data length.
    pub fn is_well_formed(&self) -> (res: bool)
        ensures
            res == offsets_well_formed(self.spec_data().len(), self.spec_offsets()),
    {
        if self.offsets.len() == 0 || self.offsets[0] != 0 {
            return false;
        }
        if self.offsets[self.offsets.len() - 1] != self.data.len() {
            return false;
        }
        let mut i: usize = 0;
        let last = self.offsets.len() - 1;
        while i < last
            invariant
                0 < self.offsets@.len(),
                last == self.offsets@.len() - 1,
                i <= last,
                forall|j: int| 0 <= j < i ==> #[trigger] self.offsets@[j] <= self.offsets@[j + 1],
            decreases self.offsets@.len() - i,
        {
            if self.offsets[i] > self.offsets[i + 1] {
                return false;
            }
            i += 1;
        }
        true
    }

    /// Row `index`, or `None` when its offsets are missing, decreasing, or
    /// beyond the data.
    pub fn row(&self, index: usize) -> (res: Option<&'a [E]>)
        ensures
            ({
                let o = self.spec_offsets();
                let ok = index + 1 < o.len() && o[index as int] <= o[index + 1] && o[index + 1]
                    <= self.spec_data().len();
                &&& res is Some <==> ok
                &&& res matches Some(r) ==> r@ == row_of(self.spec_data(), o, index as int)
            }),
    {
        if index >= self.offsets.len() || index + 1 >= self.offsets.len() {
            return None;
        }
        let start = self.offsets[index];
        let end = self.offsets[index + 1];
        if start > end || end > self.data.len() {
            return None;
        }
        Some(&self.data[start..end])
    }

    /// All rows, in order.
    pub fn iter(&self) -> (res: Vec<&'a [E]>)
        requires
            offsets_well_formed(self.spec_data().len(), self.spec_offsets()),
        ensures
            res@.len() == self.spec_offsets().len() - 1,
            forall|i: int|
                0 <= i < res@.len() ==> (#[trigger] res@[i])@ == row_of(
                    self.spec_data(),
                    self.spec_offsets(),
                    i,
                ),
    {
        let n = self.len();
        let mut rows: Vec<&'a [E]> = Vec::new();
        let mut i: usize = 0;
        proof {
            assert forall|j: int| 0 <= j < self.spec_offsets().len() implies #[trigger] self.spec_offsets()[j]
                <= self.spec_data().len() by {
                lemma_offsets_bounded(self.spec_data().len(), self.spec_offsets(), j);
            }
        }
        while i < n
            invariant
                n == self.spec_offsets().len() - 1,
                i <= n,
                self.spec_data() == self.data@,
                self.spec_offsets() == self.offsets@,
                forall|j: int| 0 <= j < self.spec_offsets().len() ==> #[trigger] self.spec_offsets()[j]
                    <= self.spec_data().len(),
                forall|j: int|
                    0 <= j < self.spec_offsets().len() - 1 ==> #[trigger] self.spec_offsets()[j]
                        <= self.spec_offsets()[j + 1],
                rows@.len() == i,
                forall|j: int|
                    0 <= j < i ==> (#[trigger] rows@[j])@ == row_of(
                        self.spec_data(),
                        self.spec_offsets(),
                        j,
                    ),
            decreases n - i,
        {
            let start = self.offsets[i];
            let end = self.offsets[i + 1];
            rows.push(&self.data[start..end]);
            i += 1;
        }
        rows
    }
}

/// Every offset of well-formed offsets lies within the data.
pub proof fn lemma_offsets_bounded(data_len: nat, offsets: Seq<usize>, i: int)
    requires
        offsets_well_formed(data_len, offsets),
        0 <= i < offsets.len(),
    ensures
        offsets[i] <= data_len,
        i + 1 < offsets.len() ==> offsets[i] <= offsets[i + 1],
    decreases offsets.len() - i,
{
    if i + 1 < offsets.len() {
        assert(offsets[i] <= offsets[i + 1]);
        lemma_offsets_bounded(data_len, offsets, i + 1);
    }
}

/// Neighbourhood rows owned as one flat data vector plus row offsets.
#[derive(Debug, Clone)]
pub struct OwnedNeighbourhoods<E> {
    pub data: Vec<E>,
    pub offsets: Vec<usize>,
}

impl<E> OwnedNeighbourhoods<E> {
    /// Borrowed view of the same rows.
    pub fn as_borrowed(&self) -> (res: Neighbourhoods<'_, E>)
        ensures
            res.spec_data() == self.data@,
            res.spec_offsets() == self.offsets@,
    {
        Neighbourhoods::new(self.data.as_slice(), self.offsets.as_slice())
    }

    /// No rows.
    pub fn empty() -> (res: Self)
        ensures
            offsets_well_formed(res.data@.len(), res.offsets@),
            rows_of(res.data@, res.offsets@).len() == 0,
    {
        OwnedNeighbourhoods { data: Vec::new(), offsets: vec![0] }
    }
}

/// One row of a batched neighbourhood reply: the requested source it
/// answers and its entries.
#[derive(Debug, Clone)]
pub struct MemgraphNeighbourhoodRow<E> {
    pub row_index: usize,
    pub neighbours: Vec<E>,
}

impl<E> MemgraphNeighbourhoodRow<E> {
    pub fn new(row_index: usize, neighbours: Vec<E>) -> (res: Self)
        ensures
            res.row_index == row_index,
            res.neighbours@ == neighbours@,
    {
        MemgraphNeighbourhoodRow { row_index, neighbours }
    }
}

/// The first `k` replies answer distinct sources below `row_count`.
pub open spec fn replies_valid<E>(rows: Seq<MemgraphNeighbourhoodRow<E>>, k: int, row_count: int) -> bool {
    &&& forall|j: int| 0 <= j < k ==> (#[trigger] rows[j]).row_index < row_count
    &&& forall|i: int, j: int| 0 <= i < j < k ==> rows[i].row_index != rows[j].row_index
}

/// Some reply answers source `r`.
pub open spec fn answers<E>(rows: Seq<MemgraphNeighbourhoodRow<E>>, r: int) -> bool {
    exists|j: int| 0 <= j < rows.len() && rows[j].row_index == r
}

/// Appends `rows` to flat rows with a matching flat offsets vector.
proof fn lemma_flatten_push<E>(rows: Seq<Seq<E>>, row: Seq<E>)
    ensures
        flatten(rows.push(row)) == flatten(rows) + row,
{
    assert(rows.push(row).drop_last() =~= rows);
}

/// Flat rows built by appending each row in turn have the appended rows as
/// their rows.
proof fn lemma_rows_of_append<E>(data: Seq<E>, offsets: Seq<usize>, row: Seq<E>)
    requires
        offsets_well_formed(data.len(), offsets),
        data.len() + row.len() <= usize::MAX,
    ensures
        offsets_well_formed((data + row).len(), offsets.push((data.len() + row.len()) as usize)),
        rows_of(data + row, offsets.push((data.len() + row.len()) as usize)) == rows_of(
            data,
            offsets,
        ).push(row),
{
    let d2 = data + row;
    let o2 = offsets.push((data.len() + row.len()) as usize);
    assert forall|i: int| 0 <= i < o2.len() - 1 implies #[trigger] o2[i] <= o2[i + 1] by {
        if i < offsets.len() - 1 {
            assert(o2[i] == offsets[i] && o2[i + 1] == offsets[i + 1]);
        } else {
            lemma_offsets_bounded(data.len(), offsets, i);
        }
    }
    assert forall|i: int| 0 <= i < o2.len() - 1 implies #[trigger] rows_of(d2, o2)[i] == rows_of(
        data,
        offsets,
    ).push(row)[i] by {
        if i < offsets.len() - 1 {
            lemma_offsets_bounded(data.len(), offsets, i);
            lemma_offsets_bounded(data.len(), offsets, i + 1);
            assert(row_of(d2, o2, i) =~= row_of(data, offsets, i));
        } else {
            assert(row_of(d2, o2, i) =~= row);
        }
    }
    assert(rows_of(d2, o2) =~= rows_of(data, offsets).push(row));
}

/// Entries of the reply that answers source `r`.
pub open spec fn answer_of<E>(rows: Seq<MemgraphNeighbourhoodRow<E>>, r: int) -> Seq<E> {
    rows[choose|j: int| 0 <= j < rows.len() && rows[j].row_index == r].neighbours@
}

/// Flattened size of all the replies.
pub open spec fn total_entries<E>(rows: Seq<MemgraphNeighbourhoodRow<E>>) -> nat
    decreases rows.len(),
{
    if rows.len() == 0 {
        0
    } else {
        total_entries(rows.drop_last()) + rows.last().neighbours@.len()
    }
}

/// Total length of the rows held in `slots`.
pub open spec fn slot_total<E>(slots: Seq<Option<Vec<E>>>) -> nat
    decreases slots.len(),
{
    if slots.len() == 0 {
        0
    } else {
        slot_total(slots.drop_last()) + match slots.last() {
            Some(v) => v@.len(),
            None => 0,
        }
    }
}

/// Length of the row held in `slot`, if any.
pub open spec fn slot_len<E>(slot: Option<Vec<E>>) -> nat {
    match slot {
        Some(v) => v@.len(),
        None => 0,
    }
}

proof fn lemma_slot_total_none<E>(slots: Seq<Option<Vec<E>>>)
    requires
        forall|x: int| 0 <= x < slots.len() ==> slots[x] is None,
    ensures
        slot_total(slots) == 0,
    decreases slots.len(),
{
    if slots.len() > 0 {
        lemma_slot_total_none(slots.drop_last());
    }
}

proof fn lemma_slot_total_update<E>(slots: Seq<Option<Vec<E>>>, i: int, new: Option<Vec<E>>)
    requires
        0 <= i < slots.len(),
    ensures
        slot_total(slots.update(i, new)) + slot_len(slots[i]) == slot_total(slots) + slot_len(new),
    decreases slots.len(),
{
    let upd = slots.update(i, new);
    if i == slots.len() - 1 {
        assert(upd.drop_last() =~= slots.drop_last());
    } else {
        assert(upd.drop_last() =~= slots.drop_last().update(i, new));
        lemma_slot_total_update(slots.drop_last(), i, new);
    }
}

/// Reassembles batched replies into flat rows in source order: reply rows
/// may arrive in any order, but every source below `row_count` must be
/// answered exactly once.
pub fn pack_neighbourhoods<E>(row_count: usize, rows: Vec<MemgraphNeighbourhoodRow<E>>) -> (res: Result<OwnedNeighbourhoods<E>, MemgraphRowError>)
    requires
        total_entries(rows@) <= usize::MAX,
    ensures
        ({
            let valid = replies_valid(rows@, rows@.len() as int, row_count as int);
            let complete = forall|r: int| 0 <= r < row_count ==> #[trigger] answers(rows@, r);
            &&& res is Ok <==> valid && complete
            &&& res matches Err(e) ==> if valid {
                e == MemgraphRowError::MissingRow
            } else {
                exists|k: int|
                    0 <= k < rows@.len() && replies_valid(rows@, k, row_count as int) && if rows@[k].row_index
                        >= row_count {
                        e == MemgraphRowError::RowIndexOutOfBounds
                    } else {
                        e == MemgraphRowError::DuplicateRow
                    }
            }
            &&& res matches Ok(packed) ==> {
                &&& offsets_well_formed(packed.data@.len(), packed.offsets@)
                &&& rows_of(packed.data@, packed.offsets@) == Seq::new(
                    row_count as nat,
                    |r: int| answer_of(rows@, r),
                )
            }
        }),
{
    let ghost orig = rows@;
    let mut seen: Vec<bool> = Vec::new();
    let mut r: usize = 0;
    while r < row_count
        invariant
            r <= row_count,
            seen@.len() == r,
            forall|x: int| 0 <= x < r ==> !seen@[x],
        decreases row_count - r,
    {
        seen.push(false);
        r += 1;
    }
    let mut k: usize = 0;
    while k < rows.len()
        invariant
            k <= rows@.len(),
            rows@ == orig,
            seen@.len() == row_count,
            replies_valid(orig, k as int, row_count as int),
            forall|x: int|
                0 <= x < row_count ==> (#[trigger] seen@[x] <==> answers(orig.take(k as int), x)),
        decreases rows@.len() - k,
    {
        let index = rows[k].row_index;
        if index >= row_count {
            proof {
                assert(!replies_valid(orig, orig.len() as int, row_count as int));
            }
            return Err(MemgraphRowError::RowIndexOutOfBounds);
        }
        if seen[index] {
            proof {
                let w = choose|w: int|
                    0 <= w < orig.take(k as int).len() && orig.take(k as int)[w].row_index == index;
                assert(orig[w].row_index == orig[k as int].row_index);
                assert(!replies_valid(orig, orig.len() as int, row_count as int));
            }
            return Err(MemgraphRowError::DuplicateRow);
        }
        seen.set(index, true);
        proof {
            let before = orig.take(k as int);
            let after = orig.take(k + 1);
            assert forall|x: int| 0 <= x < row_count implies (#[trigger] seen@[x] <==> answers(after, x)) by {
                if answers(before, x) {
                    let w = choose|w: int| 0 <= w < before.len() && before[w].row_index == x;
                    assert(after[w].row_index == x);
                }
                if x == index {
                    assert(after[k as int].row_index == x);
                }
                if answers(after, x) && x != index {
                    let w = choose|w: int| 0 <= w < after.len() && after[w].row_index == x;
                    assert(before[w].row_index == x);
                }
            }
            assert forall|i: int, j: int| 0 <= i < j < k + 1 implies orig[i].row_index
                != orig[j].row_index by {
                if j == k && orig[i].row_index == orig[j].row_index {
                    assert(before[i].row_index == index);
                    assert(answers(before, index as int));
                }
            }
        }
        k += 1;
    }
    proof {
        assert(orig.take(orig.len() as int) =~= orig);
    }
    let mut r: usize = 0;
    while r < row_count
        invariant
            r <= row_count,
            seen@.len() == row_count,
            forall|x: int| 0 <= x < row_count ==> (#[trigger] seen@[x] <==> answers(orig, x)),
            forall|x: int| 0 <= x < r ==> #[trigger] answers(orig, x),
            rows@ == orig,
            replies_valid(orig, orig.len() as int, row_count as int),
        decreases row_count - r,
    {
        if !seen[r] {
            proof {
                assert(!answers(orig, r as int));
            }
            return Err(MemgraphRowError::MissingRow);
        }
        r += 1;
    }
    let mut by_index: Vec<Option<Vec<E>>> = Vec::new();
    let mut r: usize = 0;
    while r < row_count
        invariant
            r <= row_count,
            by_index@.len() == r,
            forall|x: int| 0 <= x < r ==> by_index@[x] is None,
        decreases row_count - r,
    {
        by_index.push(None);
        r += 1;
    }
    let mut rows = rows;
    let mut k: usize = 0;
    proof {
        assert(orig.take(0) =~= Seq::<MemgraphNeighbourhoodRow<E>>::empty());
        assert forall|x: int| 0 <= x < row_count implies !answers(orig.take(0), x) by {}
        lemma_slot_total_none(by_index@);
    }
    while k < rows.len()
        invariant
            k <= rows@.len() == orig.len(),
            by_index@.len() == row_count,
            replies_valid(orig, orig.len() as int, row_count as int),
            total_entries(orig) <= usize::MAX,
            forall|j: int|
                k <= j < rows@.len() ==> (#[trigger] rows@[j]).row_index == orig[j].row_index
                    && rows@[j].neighbours@ == orig[j].neighbours@,
            forall|x: int|
                0 <= x < row_count ==> match #[trigger] by_index@[x] {
                    Some(v) => answers(orig.take(k as int), x) && v@ == answer_of(orig, x),
                    None => !answers(orig.take(k as int), x),
                },
            slot_total(by_index@) == total_entries(orig.take(k as int)),
        decreases rows@.len() - k,
    {
        let index = rows[k].row_index;
        let ghost before_rows = rows@;
        let ghost before_slots = by_index@;
        let mut neighbours: Vec<E> = Vec::new();
        std::mem::swap(&mut neighbours, &mut rows[k].neighbours);
        proof {
            let prev = orig.take(k as int);
            let next = orig.take(k + 1);
            assert(next.drop_last() =~= prev);
            assert(answers(orig, index as int)) by {
                assert(orig[k as int].row_index == index);
            }
            let c = choose|j: int| 0 <= j < orig.len() && orig[j].row_index == index;
            assert(c == k) by {
                if c != k {
                    assert(orig[c].row_index != orig[k as int].row_index);
                }
            }
            assert(neighbours@ == answer_of(orig, index as int));
            assert(!answers(prev, index as int)) by {
                if answers(prev, index as int) {
                    let w = choose|w: int| 0 <= w < prev.len() && prev[w].row_index == index;
                    assert(orig[w].row_index == orig[k as int].row_index);
                }
            }
            assert(by_index@[index as int] is None);
            lemma_slot_total_update(by_index@, index as int, Some(neighbours));
        }
        by_index.set(index, Some(neighbours));
        proof {
            let prev = orig.take(k as int);
            let next = orig.take(k + 1);
            assert forall|j: int| k + 1 <= j < rows@.len() implies (#[trigger] rows@[j]).row_index
                == orig[j].row_index && rows@[j].neighbours@ == orig[j].neighbours@ by {
                assert(rows@[j] == before_rows[j]);
            }
            assert forall|x: int| 0 <= x < row_count implies match #[trigger] by_index@[x] {
                Some(v) => answers(next, x) && v@ == answer_of(orig, x),
                None => !answers(next, x),
            } by {
                if x == index {
                    assert(next[k as int].row_index == x);
                } else {
                    assert(by_index@[x] == before_slots[x]);
                    if answers(prev, x) {
                        let w = choose|w: int| 0 <= w < prev.len() && prev[w].row_index == x;
                        assert(next[w].row_index == x);
                    }
                    if answers(next, x) {
                        let w = choose|w: int| 0 <= w < next.len() && next[w].row_index == x;
                        assert(prev[w].row_index == x);
                    }
                }
            }
        }
        k += 1;
    }
    proof {
        assert(orig.take(orig.len() as int) =~= orig);
    }
    let mut ordered: Vec<Vec<E>> = Vec::new();
    let mut r: usize = 0;
    while r < row_count
        invariant
            r <= row_count,
            by_index@.len() == row_count,
            forall|x: int|
                r <= x < row_count ==> match #[trigger] by_index@[x] {
                    Some(v) => v@ == answer_of(orig, x),
                    None => false,
                },
            ordered@.len() == r,
            rows_view(ordered@) == Seq::new(r as nat, |x: int| answer_of(orig, x)),
            flatten(rows_view(ordered@)).len() + slot_total(by_index@) == total_entries(orig),
            total_entries(orig) <= usize::MAX,
        decreases row_count - r,
    {
        let ghost before_slots = by_index@;
        let mut slot: Option<Vec<E>> = None;
        proof {
            lemma_slot_total_update(by_index@, r as int, None);
        }
        std::mem::swap(&mut slot, &mut by_index[r]);
        match slot {
            Some(v) => {
                proof {
                    lemma_flatten_push(rows_view(ordered@), v@);
                }
                let ghost before_ordered = ordered@;
                ordered.push(v);
                proof {
                    assert(rows_view(ordered@) =~= rows_view(before_ordered).push(v@));
                    assert(rows_view(ordered@) =~= Seq::new((r + 1) as nat, |x: int| answer_of(orig, x)));
                    assert forall|x: int| r + 1 <= x < row_count implies match #[trigger] by_index@[x] {
                        Some(w) => w@ == answer_of(orig, x),
                        None => false,
                    } by {
                        assert(by_index@[x] == before_slots[x]);
                    }
                }
            },
            None => {
                proof {
                    assert(false);
                }
                return Err(MemgraphRowError::MissingRow);
            },
        }
        r += 1;
    }
    Ok(owned_from_rows(ordered))
}

/// The entries of `row` whose neighbour is in `allowed`, in order.
pub open spec fn keep_allowed<W>(row: Seq<(usize, W)>, allowed: Set<usize>) -> Seq<(usize, W)>
    decreases row.len(),
{
    if row.len() == 0 {
        Seq::empty()
    } else {
        let rest = keep_allowed(row.drop_last(), allowed);
        if allowed.contains(row.last().0) {
            rest.push(row.last())
        } else {
            rest
        }
    }
}

proof fn lemma_keep_allowed_len<W>(row: Seq<(usize, W)>, allowed: Set<usize>)
    ensures
        keep_allowed(row, allowed).len() <= row.len(),
    decreases row.len(),
{
    if row.len() > 0 {
        lemma_keep_allowed_len(row.drop_last(), allowed);
    }
}

/// Rows that are each no longer than the matching row flatten to no more entries.
proof fn lemma_flatten_len_le<E>(a: Seq<Seq<E>>, b: Seq<Seq<E>>)
    requires
        a.len() == b.len(),
        forall|i: int| 0 <= i < a.len() ==> (#[trigger] a[i]).len() <= b[i].len(),
    ensures
        flatten(a).len() <= flatten(b).len(),
    decreases a.len(),
{
    if a.len() > 0 {
        lemma_flatten_len_le(a.drop_last(), b.drop_last());
    }
}

/// Flat rows holding `rows` in order, each cut down to the entries whose
/// neighbour is in `allowed`.
pub fn owned_from_filtered_rows<W: Copy>(rows: Vec<Vec<(usize, W)>>, allowed: &HashSet<usize>) -> (res: OwnedNeighbourhoods<(usize, W)>)
    requires
        flatten(rows_view(rows@)).len() <= usize::MAX,
    ensures
        offsets_well_formed(res.data@.len(), res.offsets@),
        rows_of(res.data@, res.offsets@) == Seq::new(
            rows@.len(),
            |i: int| keep_allowed(rows@[i]@, allowed@),
        ),
{
    let mut filtered: Vec<Vec<(usize, W)>> = Vec::new();
    let mut i: usize = 0;
    while i < rows.len()
        invariant
            i <= rows@.len(),
            filtered@.len() == i,
            forall|t: int| 0 <= t < i ==> (#[trigger] filtered@[t])@ == keep_allowed(rows@[t]@, allowed@),
        decreases rows@.len() - i,
    {
        let mut kept: Vec<(usize, W)> = Vec::new();
        let mut j: usize = 0;
        while j < rows[i].len()
            invariant
                i < rows@.len(),
                j <= rows@[i as int]@.len(),
                kept@ == keep_allowed(rows@[i as int]@.take(j as int), allowed@),
            decreases rows@[i as int]@.len() - j,
        {
            let entry = rows[i][j];
            proof {
                let row = rows@[i as int]@;
                assert(row.take(j + 1).drop_last() =~= row.take(j as int));
                assert(row.take(j + 1).last() == entry);
            }
            if allowed.contains(&entry.0) {
                kept.push(entry);
            }
            j += 1;
        }
        proof {
            assert(rows@[i as int]@.take(j as int) =~= rows@[i as int]@);
        }
        filtered.push(kept);
        i += 1;
    }
    proof {
        let target = Seq::new(rows@.len(), |t: int| keep_allowed(rows@[t]@, allowed@));
        assert(rows_view(filtered@) =~= target);
        assert forall|t: int| 0 <= t < target.len() implies (#[trigger] target[t]).len()
            <= rows_view(rows@)[t].len() by {
            lemma_keep_allowed_len(rows@[t]@, allowed@);
        }
        lemma_flatten_len_le(target, rows_view(rows@));
    }
    owned_from_rows(filtered)
}

/// A prefix of rows never flattens to more entries than all of them.
proof fn lemma_flatten_prefix_len<E>(rows: Seq<Seq<E>>, k: int)
    requires
        0 <= k <= rows.len(),
    ensures
        flatten(rows.take(k)).len() <= flatten(rows).len(),
    decreases rows.len(),
{
    if k < rows.len() {
        assert(rows.drop_last().take(k) =~= rows.take(k));
        lemma_flatten_prefix_len(rows.drop_last(), k);
    } else {
        assert(rows.take(k) =~= rows);
    }
}

/// Flat rows holding `rows` in order.
#[verifier::spinoff_prover]
#[verifier::rlimit(40)]
pub fn owned_from_rows<E>(rows: Vec<Vec<E>>) -> (res: OwnedNeighbourhoods<E>)
    requires
        flatten(rows_view(rows@)).len() <= usize::MAX,
    ensures
        offsets_well_formed(res.data@.len(), res.offsets@),
        rows_of(res.data@, res.offsets@) == rows_view(rows@),
{
    let ghost all = rows_view(rows@);
    let mut rows = rows;
    let mut data: Vec<E> = Vec::new();
    let mut offsets: Vec<usize> = vec![0];
    let mut i: usize = 0;
    proof {
        assert(rows_of(data@, offsets@) =~= all.take(0));
        assert(all.take(0) =~= Seq::<Seq<E>>::empty());
    }
    while i < rows.len()
        invariant
            i <= rows@.len() == all.len(),
            forall|j: int| i <= j < rows@.len() ==> (#[trigger] rows@[j])@ == all[j],
            offsets_well_formed(data@.len(), offsets@),
            rows_of(data@, offsets@) == all.take(i as int),
            data@ == flatten(all.take(i as int)),
            flatten(all).len() <= usize::MAX,
        decreases rows@.len() - i,
    {
        proof {
            lemma_flatten_push(all.take(i as int), all[i as int]);
            assert(all.take(i as int).push(all[i as int]) =~= all.take(i + 1));
            lemma_flatten_prefix_len(all, i + 1);
            lemma_rows_of_append(data@, offsets@, all[i as int]);
        }
        let ghost before = rows@;
        data.append(&mut rows[i]);
        offsets.push(data.len());
        proof {
            assert forall|j: int| i + 1 <= j < rows@.len() implies (#[trigger] rows@[j])@ == all[j] by {
                assert(rows@[j] == before[j]);
            }
        }
        i += 1;
    }
    proof {
        assert(all.take(all.len() as int) =~= all);
    }
    OwnedNeighbourhoods { data, offsets }
}

} // verus!
