use vstd::prelude::*;

verus! {

/// Quality function optimised by the community detection.
#[derive(Debug, Clone, Copy, PartialEq, Eq, Structural)]
pub enum QualityType {
    Modularity,
    CPM,
    RBConfiguration,
    RBER,
}

impl Default for QualityType {
    fn default() -> (res: Self)
        ensures
            res == QualityType::Modularity,
    {
        QualityType::Modularity
    }
}

/// Position `i` holds the first occurrence of its label in `labels`.
pub open spec fn is_first(labels: Seq<usize>, i: int) -> bool {
    forall|j: int| 0 <= j < i ==> labels[j] != labels[i]
}

/// Some position of `labels` carries `c`.
pub open spec fn label_used(labels: Seq<usize>, c: int) -> bool {
    exists|i: int| 0 <= i < labels.len() && labels[i] == c
}

/// `relabelled` renames the labels of `labels` to `0..count`, in the order
/// in which they first appear: two positions share a new label exactly when
/// they shared an old one, every new label is used, and labels that appear
/// earlier get smaller numbers.
pub open spec fn is_first_occurrence_relabeling(
    labels: Seq<usize>,
    relabelled: Seq<usize>,
    count: nat,
) -> bool {
    &&& relabelled.len() == labels.len()
    &&& forall|i: int, j: int|
        0 <= i < labels.len() && 0 <= j < labels.len() ==> (relabelled[i] == relabelled[j]
            <==> labels[i] == labels[j])
    &&& forall|i: int| 0 <= i < labels.len() ==> relabelled[i] < count
    &&& forall|c: int| 0 <= c < count ==> #[trigger] label_used(relabelled, c)
    &&& forall|i: int, j: int|
        0 <= i < j < labels.len() && is_first(labels, i) && is_first(labels, j) ==> relabelled[i]
            < relabelled[j]
}

/// Some position below `i` carries `v` in `r`.
pub open spec fn used_before(r: Seq<usize>, i: int, v: int) -> bool {
    exists|j: int| 0 <= j < i && r[j] == v
}

/// Some position below `n` carries `v` in `r`, and the first such position
/// exists.
proof fn lemma_first_position(r: Seq<usize>, v: usize, n: int) -> (f: int)
    requires
        0 <= n <= r.len(),
        exists|k: int| 0 <= k < n && r[k] == v,
    ensures
        0 <= f < n,
        r[f] == v,
        forall|j: int| 0 <= j < f ==> r[j] != v,
    decreases n,
{
    if exists|k: int| 0 <= k < n - 1 && r[k] == v {
        lemma_first_position(r, v, n - 1)
    } else {
        n - 1
    }
}

/// In a first-occurrence relabelling, a position that is first for its
/// label gets the least label not used before it.
proof fn lemma_first_takes_least_unused(labels: Seq<usize>, r: Seq<usize>, count: nat, i: int)
    requires
        is_first_occurrence_relabeling(labels, r, count),
        0 <= i < labels.len(),
        is_first(labels, i),
    ensures
        forall|j: int| 0 <= j < i ==> r[j] != r[i],
        forall|v: int| 0 <= v < r[i] ==> #[trigger] used_before(r, i, v),
{
    assert forall|v: int| 0 <= v < r[i] implies #[trigger] used_before(r, i, v) by {
        assert(label_used(r, v));
        let f = lemma_first_position(r, v as usize, r.len() as int);
        assert(is_first(labels, f)) by {
            assert forall|j: int| 0 <= j < f implies labels[j] != labels[f] by {
                assert(r[j] != r[f]);
            }
        }
        if f > i {
            assert(r[i] < r[f]);
        }
        assert(f != i);
    }
}

/// Two first-occurrence relabellings of the same labels agree: the
/// relabelling is unique.
pub proof fn lemma_relabeling_unique(labels: Seq<usize>, a: Seq<usize>, ca: nat, b: Seq<usize>, cb: nat)
    requires
        is_first_occurrence_relabeling(labels, a, ca),
        is_first_occurrence_relabeling(labels, b, cb),
    ensures
        a == b,
        ca == cb,
{
    lemma_relabeling_agree_below(labels, a, ca, b, cb, labels.len() as int);
    assert(a =~= b);
    if ca < cb {
        assert(label_used(b, ca as int));
    }
    if cb < ca {
        assert(label_used(a, cb as int));
    }
}

proof fn lemma_relabeling_agree_below(labels: Seq<usize>, a: Seq<usize>, ca: nat, b: Seq<usize>, cb: nat, k: int)
    requires
        is_first_occurrence_relabeling(labels, a, ca),
        is_first_occurrence_relabeling(labels, b, cb),
        0 <= k <= labels.len(),
    ensures
        forall|i: int| 0 <= i < k ==> a[i] == b[i],
    decreases k,
{
    if k > 0 {
        lemma_relabeling_agree_below(labels, a, ca, b, cb, k - 1);
        let i = k - 1;
        if is_first(labels, i) {
            lemma_first_takes_least_unused(labels, a, ca, i);
            lemma_first_takes_least_unused(labels, b, cb, i);
            if a[i] < b[i] {
                assert(used_before(b, i, a[i] as int));
                let j = choose|j: int| 0 <= j < i && b[j] == a[i] as int;
                assert(a[j] == b[j]);
            }
            if b[i] < a[i] {
                assert(used_before(a, i, b[i] as int));
                let j = choose|j: int| 0 <= j < i && a[j] == b[i] as int;
                assert(a[j] == b[j]);
            }
        } else {
            let j = choose|j: int| 0 <= j < i && labels[j] == labels[i];
            assert(a[j] == b[j]);
        }
    }
}

/// A first-occurrence relabelling numbers the labels from 0 without gaps:
/// the first node gets 0, a label above 0 appears only after the label one
/// below it, and the relabelled sequence is its own relabelling.
pub proof fn lemma_relabeling_canonical(labels: Seq<usize>, r: Seq<usize>, count: nat)
    requires
        is_first_occurrence_relabeling(labels, r, count),
    ensures
        labels.len() > 0 ==> r[0] == 0,
        labels.len() == 0 <==> count == 0,
        forall|i: int|
            0 <= i < r.len() && r[i] > 0 ==> exists|j: int| 0 <= j < i && #[trigger] r[j] == r[i] - 1,
        is_first_occurrence_relabeling(r, r, count),
{
    if labels.len() > 0 {
        lemma_first_takes_least_unused(labels, r, count, 0);
        assert(r[0] < count);
        if r[0] > 0 {
            assert(used_before(r, 0, 0));
        }
    }
    if count > 0 {
        assert(label_used(r, 0));
    }
    assert forall|i: int| 0 <= i < r.len() && r[i] > 0 implies exists|j: int|
        0 <= j < i && #[trigger] r[j] == r[i] - 1 by {
        let f = lemma_first_position(r, r[i], i + 1);
        assert(is_first(labels, f)) by {
            assert forall|j: int| 0 <= j < f implies labels[j] != labels[f] by {
                assert(r[j] != r[f]);
            }
        }
        lemma_first_takes_least_unused(labels, r, count, f);
        assert(used_before(r, f, r[f] - 1));
        let j = choose|j: int| 0 <= j < f && r[j] == r[f] - 1;
        assert(r[j] == r[i] - 1);
    }
    assert forall|i: int, j: int|
        0 <= i < j < r.len() && is_first(r, i) && is_first(r, j) implies r[i] < r[j] by {
        assert(is_first(labels, i)) by {
            assert forall|k: int| 0 <= k < i implies labels[k] != labels[i] by {
                assert(r[k] != r[i]);
            }
        }
        assert(is_first(labels, j)) by {
            assert forall|k: int| 0 <= k < j implies labels[k] != labels[j] by {
                assert(r[k] != r[j]);
            }
        }
    }
}

/// Renumbering twice gives what renumbering once gives.
pub proof fn lemma_renumber_idempotent(labels: Seq<usize>, once: Seq<usize>, c1: nat, twice: Seq<usize>, c2: nat)
    requires
        is_first_occurrence_relabeling(labels, once, c1),
        is_first_occurrence_relabeling(once, twice, c2),
    ensures
        twice == once,
        c2 == c1,
{
    lemma_relabeling_canonical(labels, once, c1);
    lemma_relabeling_unique(once, twice, c2, once, c1);
}

/// Renames the labels of the first `n` entries of `labels`, all below
/// `bound`, to `0..count` in order of first appearance.
fn relabel_prefix(labels: &Vec<usize>, n: usize, bound: usize) -> (res: (Vec<usize>, usize))
    requires
        n <= labels.len(),
        forall|i: int| 0 <= i < n ==> labels@[i] < bound,
    ensures
        is_first_occurrence_relabeling(labels@.subrange(0, n as int), res.0@, res.1 as nat),
        res.1 <= n,
{
    let ghost old_labels = labels@.subrange(0, n as int);
    let mut mapping: Vec<usize> = Vec::new();
    let mut k: usize = 0;
    while k < bound
        invariant
            k <= bound,
            mapping@.len() == k,
            forall|v: int| 0 <= v < k ==> mapping@[v] == usize::MAX,
        decreases bound - k,
    {
        mapping.push(usize::MAX);
        k += 1;
    }
    let mut relabelled: Vec<usize> = Vec::new();
    let mut next: usize = 0;
    let mut i: usize = 0;
    while i < n
        invariant
            i <= n <= labels.len(),
            old_labels == labels@.subrange(0, n as int),
            forall|t: int| 0 <= t < n ==> labels@[t] < bound,
            mapping@.len() == bound,
            relabelled@.len() == i,
            next <= i,
            forall|v: int|
                0 <= v < bound ==> (#[trigger] mapping@[v] != usize::MAX <==> label_used(
                    labels@.subrange(0, i as int),
                    v,
                )),
            forall|v: int| 0 <= v < bound && mapping@[v] != usize::MAX ==> mapping@[v] < next,
            forall|u: int, v: int|
                0 <= u < bound && 0 <= v < bound && mapping@[u] != usize::MAX && mapping@[u]
                    == mapping@[v] ==> u == v,
            forall|t: int| 0 <= t < i ==> relabelled@[t] == mapping@[labels@[t] as int],
            forall|c: int| 0 <= c < next ==> #[trigger] label_used(relabelled@, c),
            forall|s: int, t: int|
                0 <= s < t < i && is_first(old_labels, s) && is_first(old_labels, t)
                    ==> relabelled@[s] < relabelled@[t],
        decreases n - i,
    {
        let label = labels[i];
        let ghost before = mapping@;
        let ghost rel_before = relabelled@;
        let ghost next_before = next;
        if mapping[label] == usize::MAX {
            mapping.set(label, next);
            next += 1;
        }
        let new_label = mapping[label];
        relabelled.push(new_label);
        proof {
            let i1 = (i + 1) as int;
            let prev = labels@.subrange(0, i as int);
            let cur = labels@.subrange(0, i1);
            assert forall|v: int| 0 <= v < bound implies (#[trigger] mapping@[v] != usize::MAX
                <==> label_used(cur, v)) by {
                if v == label {
                    assert(cur[i as int] == v);
                } else {
                    assert(mapping@[v] == before[v]);
                    if label_used(cur, v) {
                        let t = choose|t: int| 0 <= t < cur.len() && cur[t] == v;
                        assert(prev[t] == v);
                    }
                    if label_used(prev, v) {
                        let t = choose|t: int| 0 <= t < prev.len() && prev[t] == v;
                        assert(cur[t] == v);
                    }
                }
            }
            assert forall|c: int| 0 <= c < next implies #[trigger] label_used(relabelled@, c) by {
                if c == new_label {
                    assert(relabelled@[i as int] == c);
                } else {
                    assert(c < next_before);
                    assert(label_used(rel_before, c));
                    let t = choose|t: int| 0 <= t < rel_before.len() && rel_before[t] == c;
                    assert(relabelled@[t] == c);
                }
            }
            assert forall|t: int| 0 <= t < i1 implies relabelled@[t] == mapping@[labels@[t] as int] by {
                if t < i && before[label as int] == usize::MAX {
                    if labels@[t] == label {
                        assert(prev[t] == label);
                        assert(label_used(prev, label as int));
                    }
                }
            }
            assert forall|s: int, t: int|
                0 <= s < t < i1 && is_first(old_labels, s) && is_first(old_labels, t) implies
                relabelled@[s] < relabelled@[t] by {
                if t == i {
                    assert(old_labels[t] == label);
                    assert forall|w: int| 0 <= w < i implies labels@[w] != label by {
                        assert(old_labels[w] == labels@[w]);
                    }
                    assert(!label_used(prev, label as int));
                    assert(before[label as int] == usize::MAX);
                    assert(prev[s] == labels@[s]);
                    assert(label_used(prev, labels@[s] as int));
                    assert(rel_before[s] == before[labels@[s] as int]);
                    assert(relabelled@[s] < new_label);
                }
            }
        }
        i += 1;
    }
    proof {
        let new = relabelled@;
        assert forall|s: int, t: int|
            0 <= s < n && 0 <= t < n implies (new[s] == new[t] <==> old_labels[s]
            == old_labels[t]) by {
            assert(old_labels[s] == labels@[s]);
            assert(old_labels[t] == labels@[t]);
            assert(label_used(old_labels, labels@[s] as int));
            assert(label_used(old_labels, labels@[t] as int));
        }
        assert forall|t: int| 0 <= t < n implies new[t] < next by {
            assert(old_labels[t] == labels@[t]);
            assert(label_used(old_labels, labels@[t] as int));
        }
    }
    (relabelled, next)
}

/// Assignment of nodes `0..n` to communities.
pub struct Partition {
    membership: Vec<usize>,
    num_communities: usize,
}

impl Partition {
    /// Every node carries a community below the community count.
    pub closed spec fn wf(&self) -> bool {
        forall|i: int| 0 <= i < self.membership@.len() ==> self.membership@[i] < self.num_communities
    }

    /// Community of each node, by position.
    pub closed spec fn labels(&self) -> Seq<usize> {
        self.membership@
    }

    /// Number of communities that labels may refer to.
    pub closed spec fn count(&self) -> nat {
        self.num_communities as nat
    }

    /// Each node in a community of its own.
    pub fn singleton(n: usize) -> (res: Self)
        ensures
            res.wf(),
            res.count() == n,
            res.labels().len() == n,
            forall|i: int| 0 <= i < n ==> res.labels()[i] == i,
    {
        let mut membership: Vec<usize> = Vec::new();
        let mut i: usize = 0;
        while i < n
            invariant
                i <= n,
                membership@.len() == i,
                forall|t: int| 0 <= t < i ==> membership@[t] == t,
            decreases n - i,
        {
            membership.push(i);
            i += 1;
        }
        Partition { membership, num_communities: n }
    }

    /// Takes the given labels as they are; the community count is the
    /// largest label plus one (zero for no nodes).
    pub fn from_membership(membership: Vec<usize>) -> (res: Self)
        requires
            forall|i: int| 0 <= i < membership@.len() ==> membership@[i] < usize::MAX,
        ensures
            res.wf(),
            res.labels() == membership@,
            membership@.len() == 0 ==> res.count() == 0,
            membership@.len() > 0 ==> exists|i: int|
                0 <= i < membership@.len() && res.count() == membership@[i] + 1,
    {
        let mut num_communities: usize = 0;
        let mut i: usize = 0;
        while i < membership.len()
            invariant
                i <= membership@.len(),
                forall|t: int| 0 <= t < membership@.len() ==> membership@[t] < usize::MAX,
                forall|t: int| 0 <= t < i ==> membership@[t] < num_communities,
                i == 0 ==> num_communities == 0,
                i > 0 ==> exists|t: int| 0 <= t < i && num_communities == membership@[t] + 1,
            decreases membership@.len() - i,
        {
            if membership[i] + 1 > num_communities {
                num_communities = membership[i] + 1;
            }
            i += 1;
        }
        Partition { membership, num_communities }
    }

    /// Community of `node`.
    pub fn community_of(&self, node: usize) -> (res: usize)
        requires
            node < self.labels().len(),
        ensures
            res == self.labels()[node as int],
    {
        self.membership[node]
    }

    /// Moves `node` into `community`, growing the community count when needed.
    pub fn move_node(&mut self, node: usize, community: usize)
        requires
            old(self).wf(),
            node < old(self).labels().len(),
            community < usize::MAX,
        ensures
            final(self).wf(),
            final(self).labels() == old(self).labels().update(node as int, community),
            final(self).count() == if community >= old(self).count() {
                community + 1
            } else {
                old(self).count() as int
            },
    {
        self.membership.set(node, community);
        if community >= self.num_communities {
            self.num_communities = community + 1;
        }
    }

    /// Renames the communities to `0..count` in order of first appearance,
    /// dropping empty ones; nodes stay grouped as before.
    pub fn renumber(&mut self)
        requires
            old(self).wf(),
        ensures
            final(self).wf(),
            is_first_occurrence_relabeling(old(self).labels(), final(self).labels(), final(self).count()),
    {
        if self.membership.len() == 0 {
            self.num_communities = 0;
            return;
        }
        let n = self.membership.len();
        let bound = self.num_communities;
        let (relabelled, next) = relabel_prefix(&self.membership, n, bound);
        proof {
            assert(self.membership@.subrange(0, n as int) =~= self.membership@);
        }
        self.membership = relabelled;
        self.num_communities = next;
    }
}

/// Maps each of the first `n` nodes to an aggregate node: one per community
/// of `refined_partition`, numbered in order of first appearance. Returns
/// the mapping and the number of aggregate nodes.
pub fn build_orig_to_agg_mapping(n: usize, refined_partition: &Partition) -> (res: (Vec<usize>, usize))
    requires
        refined_partition.wf(),
        n <= refined_partition.labels().len(),
    ensures
        is_first_occurrence_relabeling(
            refined_partition.labels().subrange(0, n as int),
            res.0@,
            res.1 as nat,
        ),
{
    relabel_prefix(&refined_partition.membership, n, refined_partition.num_communities)
}

} // verus!
