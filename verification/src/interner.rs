use std::collections::HashMap;

use vstd::prelude::*;

use crate::error::InMemoryIndexError;
use crate::ids::NodeIdentity;
use crate::types::PartitionOutput;

verus! {

broadcast use vstd::std_specs::hash::group_hash_axioms;

/// Two-way mapping between external node ids and dense node identities.
/// Identities of released nodes are reused before new ones are minted.
pub struct NodeInterner {
    to_internal: HashMap<usize, NodeIdentity>,
    to_external: Vec<Option<usize>>,
    free: Vec<NodeIdentity>,
}

impl NodeInterner {
    /// The two directions agree, and the free list holds exactly the empty
    /// slots, each once.
    pub closed spec fn wf(&self) -> bool {
        &&& forall|e: usize| #[trigger]
            self.to_internal@.contains_key(e) ==> {
                let id = self.to_internal@[e];
                &&& id.0 < self.to_external@.len()
                &&& self.to_external@[id.0 as int] == Some(e)
            }
        &&& forall|i: int|
            0 <= i < self.to_external@.len() ==> match #[trigger] self.to_external@[i] {
                Some(e) => self.to_internal@.contains_key(e) && self.to_internal@[e] == NodeIdentity(
                    i as usize,
                ),
                None => self.free@.contains(NodeIdentity(i as usize)),
            }
        &&& forall|j: int|
            0 <= j < self.free@.len() ==> (#[trigger] self.free@[j]).0 < self.to_external@.len()
                && self.to_external@[self.free@[j].0 as int] is None
        &&& forall|j: int, k: int| 0 <= j < k < self.free@.len() ==> self.free@[j] != self.free@[k]
    }

    /// Identity assigned to each interned external id.
    pub closed spec fn mapping(&self) -> Map<usize, NodeIdentity> {
        self.to_internal@
    }

    /// Number of identity slots ever minted.
    pub closed spec fn slots(&self) -> nat {
        self.to_external@.len()
    }

    /// Released identities waiting for reuse, the most recent last.
    pub closed spec fn released(&self) -> Seq<NodeIdentity> {
        self.free@
    }

    /// An empty interner.
    pub fn new() -> (res: Self)
        ensures
            res.wf(),
            res.mapping() == Map::<usize, NodeIdentity>::empty(),
            res.slots() == 0,
            res.released().len() == 0,
    {
        NodeInterner { to_internal: HashMap::new(), to_external: Vec::new(), free: Vec::new() }
    }

    /// Distinct external ids never hold the same identity.
    pub proof fn lemma_injective(&self)
        requires
            self.wf(),
        ensures
            forall|a: usize, b: usize|
                #![trigger self.mapping()[a], self.mapping()[b]]
                self.mapping().contains_key(a) && self.mapping().contains_key(b) && self.mapping()[a]
                    == self.mapping()[b] ==> a == b,
    {
        assert forall|a: usize, b: usize|
            #![trigger self.mapping()[a], self.mapping()[b]]
            self.mapping().contains_key(a) && self.mapping().contains_key(b) && self.mapping()[a]
                == self.mapping()[b] implies a == b by {
            assert(self.to_external@[self.to_internal@[a].0 as int] == Some(a));
            assert(self.to_external@[self.to_internal@[b].0 as int] == Some(b));
        }
    }

    /// An empty interner with room reserved for `capacity` nodes.
    pub fn with_capacity(capacity: usize) -> (res: Self)
        ensures
            res.wf(),
            res.mapping() == Map::<usize, NodeIdentity>::empty(),
            res.slots() == 0,
            res.released().len() == 0,
    {
        NodeInterner {
            to_internal: HashMap::with_capacity(capacity),
            to_external: Vec::with_capacity(capacity),
            free: Vec::new(),
        }
    }

    /// Identity of the external id `value`, if it is interned.
    pub fn get(&self, value: &usize) -> (res: Option<NodeIdentity>)
        ensures
            res == self.mapping().get(*value),
    {
        match self.to_internal.get(value) {
            Some(identity) => Some(*identity),
            None => None,
        }
    }

    /// External id that currently holds `identity`, if any.
    pub fn external(&self, identity: NodeIdentity) -> (res: Option<usize>)
        requires
            self.wf(),
        ensures
            res matches Some(e) ==> self.mapping().contains_key(e) && self.mapping()[e]
                == identity,
            res is None ==> forall|e: usize|
                self.mapping().contains_key(e) ==> #[trigger] self.mapping()[e] != identity,
    {
        let index = identity.index();
        if index < self.to_external.len() {
            let slot = self.to_external[index];
            proof {
                assert(self.to_external@[index as int] == slot);
                if slot is None {
                    assert forall|e: usize| self.mapping().contains_key(e) implies #[trigger] self.mapping()[e]
                        != identity by {
                        let id = self.to_internal@[e];
                        assert(self.to_external@[id.0 as int] == Some(e));
                    }
                }
            }
            slot
        } else {
            proof {
                assert forall|e: usize| self.mapping().contains_key(e) implies #[trigger] self.mapping()[e]
                    != identity by {
                    let id = self.to_internal@[e];
                    assert(id.0 < self.to_external@.len());
                }
            }
            None
        }
    }

    /// Some external id holds `identity`.
    pub open spec fn holds(&self, identity: NodeIdentity) -> bool {
        exists|e: usize| #[trigger] self.mapping().contains_key(e) && self.mapping()[e] == identity
    }

    /// External ids of `nodes`, in order, as a partition output is mapped
    /// back to the caller's ids; the first node that no external id holds
    /// is reported.
    pub fn external_nodes(&self, nodes: &[NodeIdentity]) -> (res: Result<Vec<usize>, InMemoryIndexError>)
        requires
            self.wf(),
        ensures
            res is Ok <==> forall|i: int| 0 <= i < nodes@.len() ==> self.holds(#[trigger] nodes@[i]),
            res matches Ok(ids) ==> ids@.len() == nodes@.len() && forall|i: int|
                0 <= i < nodes@.len() ==> self.mapping().contains_key(#[trigger] ids@[i])
                    && self.mapping()[ids@[i]] == nodes@[i],
            res matches Err(err) ==> exists|k: int|
                0 <= k < nodes@.len() && err == InMemoryIndexError::MissingExternalMapping(
                    #[trigger] nodes@[k],
                ) && !self.holds(nodes@[k]) && forall|i: int|
                    0 <= i < k ==> self.holds(#[trigger] nodes@[i]),
    {
        let mut ids: Vec<usize> = Vec::new();
        let mut i: usize = 0;
        while i < nodes.len()
            invariant
                self.wf(),
                i <= nodes.len(),
                ids@.len() == i,
                forall|j: int|
                    0 <= j < i ==> self.mapping().contains_key(#[trigger] ids@[j])
                        && self.mapping()[ids@[j]] == nodes@[j],
            decreases nodes.len() - i,
        {
            match self.external(nodes[i]) {
                Some(e) => {
                    ids.push(e);
                },
                None => {
                    proof {
                        assert forall|j: int| 0 <= j < i implies self.holds(#[trigger] nodes@[j]) by {
                            assert(self.mapping().contains_key(ids@[j]));
                        }
                        assert(!self.holds(nodes@[i as int]));
                    }
                    return Err(InMemoryIndexError::MissingExternalMapping(nodes[i]));
                },
            }
            i += 1;
        }
        proof {
            assert forall|j: int| 0 <= j < nodes@.len() implies self.holds(#[trigger] nodes@[j]) by {
                assert(self.mapping().contains_key(ids@[j]));
            }
        }
        Ok(ids)
    }

    /// Partition output over identities mapped back to external ids: the
    /// node list of a full output is mapped with `external_nodes`, the
    /// trials are kept as they are, and a subset output passes through.
    pub fn map_output<T>(&self, output: PartitionOutput<NodeIdentity, T>) -> (res: Result<
        PartitionOutput<usize, T>,
        InMemoryIndexError,
    >)
        requires
            self.wf(),
        ensures
            match output {
                PartitionOutput::All(nodes, trials) => {
                    &&& res is Ok <==> forall|i: int|
                        0 <= i < nodes@.len() ==> self.holds(#[trigger] nodes@[i])
                    &&& res matches Ok(out) ==> out matches PartitionOutput::All(ids, kept) && kept
                        == trials && ids@.len() == nodes@.len() && forall|i: int|
                        0 <= i < nodes@.len() ==> self.mapping().contains_key(#[trigger] ids@[i])
                            && self.mapping()[ids@[i]] == nodes@[i]
                    &&& res matches Err(err) ==> exists|k: int|
                        0 <= k < nodes@.len() && err == InMemoryIndexError::MissingExternalMapping(
                            #[trigger] nodes@[k],
                        ) && !self.holds(nodes@[k]) && forall|i: int|
                            0 <= i < k ==> self.holds(#[trigger] nodes@[i])
                },
                PartitionOutput::Subset(trials) => res matches Ok(out) && out matches PartitionOutput::Subset(
                    kept,
                ) && kept == trials,
            },
    {
        match output {
            PartitionOutput::All(nodes, trials) => match self.external_nodes(nodes.as_slice()) {
                Ok(ids) => Ok(PartitionOutput::All(ids, trials)),
                Err(err) => Err(err),
            },
            PartitionOutput::Subset(trials) => Ok(PartitionOutput::Subset(trials)),
        }
    }

    /// Identity of `value`, interning it first when needed: a released
    /// identity is reused if there is one, a new one is minted otherwise.
    /// Distinct ids always get distinct identities.
    pub fn intern(&mut self, value: usize) -> (res: NodeIdentity)
        requires
            old(self).wf(),
            old(self).slots() < usize::MAX,
        ensures
            final(self).wf(),
            old(self).mapping().contains_key(value) ==> res == old(self).mapping()[value]
                && final(self).mapping() == old(self).mapping(),
            !old(self).mapping().contains_key(value) ==> {
                &&& final(self).mapping() == old(self).mapping().insert(value, res)
                &&& forall|e: usize|
                    old(self).mapping().contains_key(e) ==> #[trigger] old(self).mapping()[e]
                        != res
            },
            final(self).slots() <= old(self).slots() + 1,
            old(self).mapping().contains_key(value) ==> final(self).released() == old(self).released()
                && final(self).slots() == old(self).slots(),
            !old(self).mapping().contains_key(value) && old(self).released().len() > 0 ==> {
                &&& res == old(self).released().last()
                &&& final(self).released() == old(self).released().drop_last()
                &&& final(self).slots() == old(self).slots()
            },
            !old(self).mapping().contains_key(value) && old(self).released().len() == 0 ==> {
                &&& res == NodeIdentity(old(self).slots() as usize)
                &&& final(self).released().len() == 0
                &&& final(self).slots() == old(self).slots() + 1
            },
    {
        if let Some(identity) = self.get(&value) {
            return identity;
        }
        let ghost old_self = *self;
        let identity = match self.free.pop() {
            Some(identity) => {
                proof {
                    assert(old_self.free@[old_self.free@.len() - 1] == identity);
                }
                identity
            },
            None => {
                let identity = NodeIdentity(self.to_external.len());
                self.to_external.push(None);
                identity
            },
        };
        proof {
            assert forall|e: usize| old_self.mapping().contains_key(e) implies #[trigger] old_self.mapping()[e]
                != identity by {
                let id = old_self.to_internal@[e];
                assert(old_self.to_external@[id.0 as int] == Some(e));
            }
        }
        self.to_external.set(identity.index(), Some(value));
        self.to_internal.insert(value, identity);
        proof {
            let free_old = old_self.free@;
            assert forall|i: int|
                0 <= i < self.to_external@.len() implies match #[trigger] self.to_external@[i] {
                Some(e) => self.to_internal@.contains_key(e) && self.to_internal@[e] == NodeIdentity(
                    i as usize,
                ),
                None => self.free@.contains(NodeIdentity(i as usize)),
            } by {
                if i != identity.0 && i < old_self.to_external@.len() {
                    assert(self.to_external@[i] == old_self.to_external@[i]);
                    if old_self.to_external@[i] is None {
                        assert(old_self.free@.contains(NodeIdentity(i as usize)));
                        let j = choose|j: int|
                            0 <= j < free_old.len() && free_old[j] == NodeIdentity(i as usize);
                        assert(j != free_old.len() - 1 || free_old.len() == 0);
                        assert(self.free@[j] == free_old[j]);
                    } else {
                        let e = old_self.to_external@[i].unwrap();
                        assert(e != value);
                    }
                }
            }
            assert forall|j: int| 0 <= j < self.free@.len() implies (#[trigger] self.free@[j]).0
                < self.to_external@.len() && self.to_external@[self.free@[j].0 as int] is None by {
                assert(self.free@[j] == free_old[j]);
                if free_old.len() > 0 {
                    assert(free_old[j] != free_old[free_old.len() - 1]);
                }
            }
        }
        identity
    }

    /// Forgets the external id that holds `identity` and frees the identity
    /// for reuse; returns that id, or `None` when the identity is not in use.
    pub fn release(&mut self, identity: NodeIdentity) -> (res: Option<usize>)
        requires
            old(self).wf(),
        ensures
            final(self).wf(),
            final(self).slots() == old(self).slots(),
            res matches Some(e) ==> old(self).mapping().contains_key(e) && old(self).mapping()[e]
                == identity && final(self).mapping() == old(self).mapping().remove(e)
                && final(self).released() == old(self).released().push(identity),
            res is None ==> final(self).released() == old(self).released(),
            res is None ==> final(self).mapping() == old(self).mapping() && forall|e: usize|
                old(self).mapping().contains_key(e) ==> #[trigger] old(self).mapping()[e]
                    != identity,
    {
        let ghost old_self = *self;
        let index = identity.index();
        if index >= self.to_external.len() {
            proof {
                assert forall|e: usize| old_self.mapping().contains_key(e) implies #[trigger] old_self.mapping()[e]
                    != identity by {
                    let id = old_self.to_internal@[e];
                    assert(id.0 < old_self.to_external@.len());
                }
            }
            return None;
        }
        let slot = self.to_external[index];
        match slot {
            None => {
                proof {
                    assert forall|e: usize| old_self.mapping().contains_key(e) implies #[trigger] old_self.mapping()[e]
                        != identity by {
                        let id = old_self.to_internal@[e];
                        assert(old_self.to_external@[id.0 as int] == Some(e));
                    }
                }
                None
            },
            Some(external) => {
                self.to_external.set(index, None);
                self.to_internal.remove(&external);
                proof {
                    assert(old_self.to_external@[index as int] == Some(external));
                    assert(!old_self.free@.contains(identity)) by {
                        if old_self.free@.contains(identity) {
                            let j = choose|j: int|
                                0 <= j < old_self.free@.len() && old_self.free@[j] == identity;
                            assert(old_self.to_external@[old_self.free@[j].0 as int] is None);
                        }
                    }
                }
                self.free.push(identity);
                proof {
                    assert forall|e: usize| #[trigger] self.to_internal@.contains_key(e) implies {
                        let id = self.to_internal@[e];
                        &&& id.0 < self.to_external@.len()
                        &&& self.to_external@[id.0 as int] == Some(e)
                    } by {
                        let id = old_self.to_internal@[e];
                        assert(old_self.to_external@[id.0 as int] == Some(e));
                    }
                    assert forall|i: int|
                        0 <= i < self.to_external@.len() implies match #[trigger] self.to_external@[i] {
                        Some(e) => self.to_internal@.contains_key(e) && self.to_internal@[e]
                            == NodeIdentity(i as usize),
                        None => self.free@.contains(NodeIdentity(i as usize)),
                    } by {
                        if i == index {
                            assert(self.free@[self.free@.len() - 1] == identity);
                        } else {
                            assert(self.to_external@[i] == old_self.to_external@[i]);
                            if old_self.to_external@[i] is None {
                                let j = choose|j: int|
                                    0 <= j < old_self.free@.len() && old_self.free@[j] == NodeIdentity(
                                        i as usize,
                                    );
                                assert(self.free@[j] == old_self.free@[j]);
                            } else {
                                let e = old_self.to_external@[i].unwrap();
                                assert(e != external);
                            }
                        }
                    }
                    assert forall|j: int, k: int|
                        0 <= j < k < self.free@.len() implies self.free@[j] != self.free@[k] by {
                        if k == self.free@.len() - 1 {
                            assert(self.free@[j] == old_self.free@[j]);
                        }
                    }
                }
                Some(external)
            },
        }
    }
}

impl Default for NodeInterner {
    fn default() -> (res: Self)
        ensures
            res.wf(),
            res.mapping() == Map::<usize, NodeIdentity>::empty(),
            res.slots() == 0,
            res.released().len() == 0,
    {
        NodeInterner::new()
    }
}

} // verus!
