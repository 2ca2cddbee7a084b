use vstd::prelude::*;

use crate::grow::resize_with_value;
use crate::ids::NodeIdentity;

verus! {

/// `i` is the first position of `nodes` that holds node index `x`.
pub open spec fn first_occurrence(nodes: Seq<NodeIdentity>, x: nat, i: int) -> bool {
    &&& 0 <= i < nodes.len()
    &&& nodes[i].0 == x
    &&& forall|j: int| 0 <= j < i ==> (#[trigger] nodes[j]).0 != x
}

/// Node index `x` occurs in `nodes`.
pub open spec fn occurs(nodes: Seq<NodeIdentity>, x: nat) -> bool {
    exists|i: int| 0 <= i < nodes.len() && (#[trigger] nodes[i]).0 == x
}

/// The epoch that follows `epoch`; the maximal epoch wraps around to 1.
pub open spec fn next_epoch(epoch: u32) -> u32 {
    if epoch == u32::MAX {
        1
    } else {
        (epoch + 1) as u32
    }
}

/// Epoch-stamped membership table over dense node indices.
///
/// A node is a member of the current set when its slot carries the current
/// epoch, so starting a new set costs no clearing, except when the epoch
/// counter wraps around.
#[derive(Debug)]
pub struct DenseMarker {
    marks: Vec<u32>,
    ordinals: Vec<usize>,
    epoch: u32,
}

impl DenseMarker {
    /// Both tables cover the same indices and no slot carries an epoch
    /// later than the current one.
    pub closed spec fn wf(&self) -> bool {
        &&& self.marks.len() == self.ordinals.len()
        &&& forall|i: int| 0 <= i < self.marks.len() ==> self.marks[i] <= self.epoch
    }

    /// Node index `x` belongs to the current set.
    pub closed spec fn is_marked(&self, x: nat) -> bool {
        x < self.marks.len() && self.marks[x as int] == self.epoch
    }

    /// Position in the last marked batch recorded for node index `x`.
    pub closed spec fn ordinal_of(&self, x: nat) -> nat {
        self.ordinals[x as int] as nat
    }

    pub closed spec fn current_epoch(&self) -> u32 {
        self.epoch
    }

    /// Starts a new current set holding exactly `nodes`, and records for each
    /// of them the position of its first occurrence in `nodes`.
    pub fn mark_all_with_ordinals(&mut self, nodes: &[NodeIdentity])
        requires
            old(self).wf(),
            forall|i: int| 0 <= i < nodes.len() ==> (#[trigger] nodes[i]).0 < usize::MAX,
        ensures
            final(self).wf(),
            final(self).current_epoch() == next_epoch(old(self).current_epoch()),
            forall|x: nat| #[trigger] final(self).is_marked(x) <==> occurs(nodes@, x),
            forall|x: nat|
                #[trigger] final(self).is_marked(x) ==> first_occurrence(
                    nodes@,
                    x,
                    final(self).ordinal_of(x) as int,
                ),
    {
        if self.epoch == u32::MAX {
            let mut k: usize = 0;
            while k < self.marks.len()
                invariant
                    k <= self.marks.len(),
                    self.marks.len() == self.ordinals.len(),
                    forall|i: int| 0 <= i < k ==> self.marks[i] == 0,
                decreases self.marks.len() - k,
            {
                self.marks.set(k, 0);
                k += 1;
            }
            self.epoch = 1;
        } else {
            self.epoch = self.epoch + 1;
        }
        let epoch = self.epoch;
        assert(forall|i: int| 0 <= i < self.marks.len() ==> self.marks[i] < epoch);

        let mut required_len: usize = 0;
        let mut j: usize = 0;
        while j < nodes.len()
            invariant
                j <= nodes.len(),
                forall|i: int| 0 <= i < nodes.len() ==> (#[trigger] nodes[i]).0 < usize::MAX,
                forall|i: int| 0 <= i < j ==> (#[trigger] nodes[i]).0 < required_len,
            decreases nodes.len() - j,
        {
            let index = nodes[j].index();
            if index + 1 > required_len {
                required_len = index + 1;
            }
            j += 1;
        }
        if self.marks.len() < required_len {
            resize_with_value(&mut self.marks, required_len, 0);
        }
        if self.ordinals.len() < required_len {
            resize_with_value(&mut self.ordinals, required_len, 0);
        }

        let mut ordinal: usize = 0;
        while ordinal < nodes.len()
            invariant
                ordinal <= nodes.len(),
                self.epoch == epoch,
                epoch >= 1,
                self.marks.len() == self.ordinals.len(),
                self.marks.len() >= required_len,
                forall|i: int| 0 <= i < nodes.len() ==> (#[trigger] nodes[i]).0 < required_len,
                forall|i: int| 0 <= i < self.marks.len() ==> self.marks[i] <= epoch,
                forall|x: nat|
                    x < self.marks.len() ==> (self.marks[x as int] == epoch <==> exists|i: int|
                        0 <= i < ordinal && (#[trigger] nodes[i]).0 == x),
                forall|x: nat|
                    x < self.marks.len() && self.marks[x as int] == epoch ==> first_occurrence(
                        nodes@,
                        x,
                        self.ordinals[x as int] as int,
                    ) && self.ordinals[x as int] < ordinal,
            decreases nodes.len() - ordinal,
        {
            let index = nodes[ordinal].index();
            if self.marks[index] != epoch {
                proof {
                    assert forall|j: int| 0 <= j < ordinal implies (#[trigger] nodes[j]).0
                        != index by {
                        if nodes[j].0 == index {
                            assert(exists|i: int| 0 <= i < ordinal && (#[trigger] nodes[i]).0 == index);
                        }
                    }
                }
                self.marks.set(index, epoch);
                self.ordinals.set(index, ordinal);
            }
            proof {
                let next = (ordinal + 1) as int;
                assert forall|x: nat| x < self.marks.len() implies (self.marks[x as int] == epoch
                    <==> exists|i: int| 0 <= i < next && (#[trigger] nodes[i]).0 == x) by {
                    if x == index as nat {
                        assert(nodes[ordinal as int].0 == x);
                    }
                }
            }
            ordinal += 1;
        }
        proof {
            assert forall|x: nat| #[trigger] self.is_marked(x) <==> occurs(nodes@, x) by {
                if occurs(nodes@, x) {
                    let i = choose|i: int| 0 <= i < nodes.len() && (#[trigger] nodes[i]).0 == x;
                    assert(nodes[i].0 < required_len);
                }
            }
        }
    }

    /// Starts a new current set holding exactly `nodes`.
    pub fn mark_all(&mut self, nodes: &[NodeIdentity])
        requires
            old(self).wf(),
            forall|i: int| 0 <= i < nodes.len() ==> (#[trigger] nodes[i]).0 < usize::MAX,
        ensures
            final(self).wf(),
            final(self).current_epoch() == next_epoch(old(self).current_epoch()),
            forall|x: nat| #[trigger] final(self).is_marked(x) <==> occurs(nodes@, x),
            forall|x: nat|
                #[trigger] final(self).is_marked(x) ==> first_occurrence(
                    nodes@,
                    x,
                    final(self).ordinal_of(x) as int,
                ),
    {
        self.mark_all_with_ordinals(nodes);
    }

    /// Whether `node` belongs to the current set.
    pub fn contains(&self, node: NodeIdentity) -> (res: bool)
        ensures
            res == self.is_marked(node.0 as nat),
    {
        let index = node.index();
        index < self.marks.len() && self.marks[index] == self.epoch
    }

    /// Position of the first occurrence of `node` in the last marked batch,
    /// or `None` when `node` is not in the current set.
    pub fn ordinal(&self, node: NodeIdentity) -> (res: Option<usize>)
        requires
            self.wf(),
        ensures
            self.is_marked(node.0 as nat) ==> res == Some(self.ordinal_of(node.0 as nat) as usize),
            !self.is_marked(node.0 as nat) ==> res is None,
    {
        let index = node.index();
        if index < self.marks.len() && self.marks[index] == self.epoch {
            Some(self.ordinals[index])
        } else {
            None
        }
    }

    /// The current epoch.
    pub fn epoch(&self) -> (res: u32)
        ensures
            res == self.current_epoch(),
    {
        self.epoch
    }

    /// Moves the epoch counter forward to `epoch`; a later epoch empties the
    /// current set.
    pub fn set_epoch(&mut self, epoch: u32)
        requires
            old(self).wf(),
            old(self).current_epoch() <= epoch,
        ensures
            final(self).wf(),
            final(self).current_epoch() == epoch,
            forall|x: nat|
                #[trigger] final(self).is_marked(x) <==> (epoch == old(self).current_epoch()
                    && old(self).is_marked(x)),
    {
        self.epoch = epoch;
    }
}

impl Default for DenseMarker {
    fn default() -> (res: Self)
        ensures
            res.wf(),
            res.current_epoch() == 0,
            forall|x: nat| !(#[trigger] res.is_marked(x)),
    {
        DenseMarker { marks: Vec::new(), ordinals: Vec::new(), epoch: 0 }
    }
}

} // verus!
