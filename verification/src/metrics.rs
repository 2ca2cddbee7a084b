use std::collections::HashMap;

use vstd::prelude::*;

verus! {

broadcast use vstd::std_specs::hash::group_hash_axioms;

/// Number of entries of `s` equal to `x`.
pub open spec fn count_of<A>(s: Seq<A>, x: A) -> nat
    decreases s.len(),
{
    if s.len() == 0 {
        0
    } else {
        count_of(s.drop_last(), x) + if s.last() == x {
            1nat
        } else {
            0nat
        }
    }
}

/// Number of position pairs `j < k` of `s` whose entries are equal.
pub open spec fn agreeing_pairs<A>(s: Seq<A>) -> nat
    decreases s.len(),
{
    if s.len() == 0 {
        0
    } else {
        agreeing_pairs(s.drop_last()) + count_of(s.drop_last(), s.last())
    }
}

/// The two labellings side by side.
pub open spec fn zip_labels(a: Seq<usize>, b: Seq<usize>) -> Seq<(usize, usize)> {
    Seq::new(a.len(), |i: int| (a[i], b[i]))
}

/// Pair counts of two labellings of the same items, from which the adjusted
/// Rand index is computed: pairs of items grouped together by both
/// labellings, by the first, by the second, and all pairs.
#[derive(Debug, Clone, Copy, PartialEq, Eq, Structural)]
pub struct PairAgreement {
    pub same_both: u128,
    pub same_true: u128,
    pub same_pred: u128,
    pub total_pairs: u128,
}

proof fn lemma_count_bound<A>(s: Seq<A>, x: A)
    ensures
        count_of(s, x) <= s.len(),
    decreases s.len(),
{
    if s.len() > 0 {
        lemma_count_bound(s.drop_last(), x);
    }
}

proof fn lemma_pairs_bound<A>(s: Seq<A>)
    ensures
        agreeing_pairs(s) <= s.len() * s.len(),
    decreases s.len(),
{
    if s.len() > 0 {
        let r = s.drop_last();
        lemma_pairs_bound(r);
        lemma_count_bound(r, s.last());
        assert(r.len() * r.len() + r.len() <= s.len() * s.len()) by (nonlinear_arith)
            requires
                r.len() + 1 == s.len(),
        ;
    }
}

/// Key of a label pair in the joint count table.
spec fn joint_key(t: usize, p: usize) -> int {
    t * 0x1_0000_0000_0000_0000 + p
}

proof fn lemma_joint_key(t1: usize, p1: usize, t2: usize, p2: usize)
    ensures
        0 <= joint_key(t1, p1) <= u128::MAX,
        joint_key(t1, p1) == joint_key(t2, p2) ==> t1 == t2 && p1 == p2,
{
    assert(t1 <= 0xffff_ffff_ffff_ffff && p1 <= 0xffff_ffff_ffff_ffff);
    assert(t2 <= 0xffff_ffff_ffff_ffff && p2 <= 0xffff_ffff_ffff_ffff);
    assert(0 <= joint_key(t1, p1) <= u128::MAX) by (nonlinear_arith)
        requires
            0 <= t1 <= 0xffff_ffff_ffff_ffff,
            0 <= p1 <= 0xffff_ffff_ffff_ffff,
    ;
    if joint_key(t1, p1) == joint_key(t2, p2) {
        assert(t1 == t2 && p1 == p2) by (nonlinear_arith)
            requires
                t1 * 0x1_0000_0000_0000_0000 + p1 == t2 * 0x1_0000_0000_0000_0000 + p2,
                0 <= p1 <= 0xffff_ffff_ffff_ffff,
                0 <= p2 <= 0xffff_ffff_ffff_ffff,
                0 <= t1,
                0 <= t2,
        ;
    }
}

/// Number of earlier occurrences recorded in `counts` for `key`, 0 when absent.
pub open spec fn recorded<K>(counts: Map<K, usize>, key: K) -> nat {
    if counts.contains_key(key) {
        counts[key] as nat
    } else {
        0
    }
}

/// Counts, for two labellings of the same items, the pairs of items that
/// share a label in both, in the first, and in the second, and the number
/// of all pairs.
pub fn pair_agreement(labels_true: &[usize], labels_pred: &[usize]) -> (res: PairAgreement)
    requires
        labels_true@.len() == labels_pred@.len(),
    ensures
        res.same_true == agreeing_pairs(labels_true@),
        res.same_pred == agreeing_pairs(labels_pred@),
        res.same_both == agreeing_pairs(zip_labels(labels_true@, labels_pred@)),
        res.total_pairs == labels_true@.len() * (labels_true@.len() - 1) / 2,
{
    let n = labels_true.len();
    let mut counts_true: HashMap<usize, usize> = HashMap::new();
    let mut counts_pred: HashMap<usize, usize> = HashMap::new();
    let mut counts_both: HashMap<u128, usize> = HashMap::new();
    let mut same_true: u128 = 0;
    let mut same_pred: u128 = 0;
    let mut same_both: u128 = 0;
    let ghost zipped = zip_labels(labels_true@, labels_pred@);
    let mut i: usize = 0;
    while i < n
        invariant
            i <= n,
            n == labels_true@.len(),
            n == labels_pred@.len(),
            zipped == zip_labels(labels_true@, labels_pred@),
            same_true == agreeing_pairs(labels_true@.take(i as int)),
            same_pred == agreeing_pairs(labels_pred@.take(i as int)),
            same_both == agreeing_pairs(zipped.take(i as int)),
            forall|l: usize| #[trigger] recorded(counts_true@, l) == count_of(labels_true@.take(i as int), l),
            forall|l: usize| #[trigger] recorded(counts_pred@, l) == count_of(labels_pred@.take(i as int), l),
            forall|t: usize, p: usize|
                #[trigger] recorded(counts_both@, joint_key(t, p) as u128) == count_of(zipped.take(i as int), (t, p)),
        decreases n - i,
    {
        let t = labels_true[i];
        let p = labels_pred[i];
        let ghost pt = labels_true@.take(i as int);
        let ghost pp = labels_pred@.take(i as int);
        let ghost pz = zipped.take(i as int);
        let ghost old_ct = counts_true@;
        let ghost old_cp = counts_pred@;
        let ghost old_cb = counts_both@;
        proof {
            assert(labels_true@.take(i + 1).drop_last() =~= pt);
            assert(labels_pred@.take(i + 1).drop_last() =~= pp);
            assert(zipped.take(i + 1).drop_last() =~= pz);
            assert(zipped[i as int] == (t, p));
            lemma_count_bound(pt, t);
            lemma_count_bound(pp, p);
            lemma_count_bound(pz, (t, p));
            lemma_pairs_bound(labels_true@.take(i + 1));
            lemma_pairs_bound(labels_pred@.take(i + 1));
            lemma_pairs_bound(zipped.take(i + 1));
            assert(labels_true@.take(i + 1).len() * labels_true@.take(i + 1).len() <= u128::MAX) by (nonlinear_arith)
                requires
                    labels_true@.take(i + 1).len() <= 0xffff_ffff_ffff_ffff,
            ;
            lemma_joint_key(t, p, t, p);
            assert(recorded(counts_true@, t) == count_of(pt, t));
            assert(recorded(counts_pred@, p) == count_of(pp, p));
            assert(recorded(counts_both@, joint_key(t, p) as u128) == count_of(pz, (t, p)));
        }
        let ct: usize = match counts_true.get(&t) {
            Some(c) => *c,
            None => 0,
        };
        let cp: usize = match counts_pred.get(&p) {
            Some(c) => *c,
            None => 0,
        };
        let key: u128 = (t as u128) * 0x1_0000_0000_0000_0000u128 + (p as u128);
        assert(key == joint_key(t, p));
        let cb: usize = match counts_both.get(&key) {
            Some(c) => *c,
            None => 0,
        };
        same_true = same_true + ct as u128;
        same_pred = same_pred + cp as u128;
        same_both = same_both + cb as u128;
        counts_true.insert(t, ct + 1);
        counts_pred.insert(p, cp + 1);
        counts_both.insert(key, cb + 1);
        proof {
            let nt = labels_true@.take(i + 1);
            let np = labels_pred@.take(i + 1);
            let nz = zipped.take(i + 1);
            assert(nt.last() == t);
            assert(np.last() == p);
            assert(nz.last() == (t, p));
            assert forall|l: usize| #[trigger] recorded(counts_true@, l) == count_of(nt, l) by {
                assert(recorded(old_ct, l) == count_of(pt, l));
            }
            assert forall|l: usize| #[trigger] recorded(counts_pred@, l) == count_of(np, l) by {
                assert(recorded(old_cp, l) == count_of(pp, l));
            }
            assert forall|a: usize, b: usize|
                #[trigger] recorded(counts_both@, joint_key(a, b) as u128) == count_of(nz, (a, b)) by {
                lemma_joint_key(a, b, t, p);
                assert(recorded(old_cb, joint_key(a, b) as u128) == count_of(pz, (a, b)));
            }
        }
        i += 1;
    }
    proof {
        assert(labels_true@.take(n as int) =~= labels_true@);
        assert(labels_pred@.take(n as int) =~= labels_pred@);
        assert(zipped.take(n as int) =~= zipped);
        assert(n * n <= u128::MAX) by (nonlinear_arith)
            requires
                n <= 0xffff_ffff_ffff_ffff,
        ;
        if n > 0 {
            assert((n as int) * ((n - 1) as int) <= n * n) by (nonlinear_arith)
                requires
                    n >= 1,
            ;
        }
    }
    let total_pairs: u128 = if n == 0 {
        0
    } else {
        (n as u128) * ((n - 1) as u128) / 2
    };
    proof {
        let len = labels_true@.len();
        assert(len * (len - 1) / 2 == total_pairs) by (nonlinear_arith)
            requires
                len == n,
                n == 0 ==> total_pairs == 0,
                n > 0 ==> total_pairs == n * (n - 1) / 2,
        ;
    }
    PairAgreement { same_both, same_true, same_pred, total_pairs }
}

/// `s` and `r` have the same length and group their positions alike: two
/// positions hold equal entries in `s` exactly when they do in `r`.
pub open spec fn same_grouping<A, B>(s: Seq<A>, r: Seq<B>) -> bool {
    &&& s.len() == r.len()
    &&& forall|i: int, j: int|
        0 <= i < s.len() && 0 <= j < s.len() ==> (#[trigger] s[i] == #[trigger] s[j] <==> r[i] == r[j])
}

proof fn lemma_count_same_grouping<A, B>(s: Seq<A>, r: Seq<B>, k: int, m: int)
    requires
        same_grouping(s, r),
        0 <= k <= s.len(),
        0 <= m < s.len(),
    ensures
        count_of(s.take(k), s[m]) == count_of(r.take(k), r[m]),
    decreases k,
{
    if k > 0 {
        assert(s.take(k).drop_last() =~= s.take(k - 1));
        assert(r.take(k).drop_last() =~= r.take(k - 1));
        assert(s.take(k).last() == s[k - 1]);
        assert(r.take(k).last() == r[k - 1]);
        assert(s[k - 1] == s[m] <==> r[k - 1] == r[m]);
        lemma_count_same_grouping(s, r, k - 1, m);
    }
}

/// Sequences that group their positions alike have the same number of
/// agreeing pairs.
pub proof fn lemma_same_grouping_pairs<A, B>(s: Seq<A>, r: Seq<B>)
    requires
        same_grouping(s, r),
    ensures
        agreeing_pairs(s) == agreeing_pairs(r),
    decreases s.len(),
{
    if s.len() > 0 {
        let n = s.len() as int;
        let s1 = s.drop_last();
        let r1 = r.drop_last();
        assert(same_grouping(s1, r1)) by {
            assert forall|i: int, j: int|
                0 <= i < s1.len() && 0 <= j < s1.len() implies (#[trigger] s1[i] == #[trigger] s1[j]
                <==> r1[i] == r1[j]) by {
                assert(s[i] == s[j] <==> r[i] == r[j]);
            }
        }
        lemma_same_grouping_pairs(s1, r1);
        lemma_count_same_grouping(s, r, n - 1, n - 1);
        assert(s.take(n - 1) =~= s1);
        assert(r.take(n - 1) =~= r1);
    }
}

/// Two identical labellings agree on every pair that either groups
/// together: the joint count equals the count of each.
pub proof fn lemma_identical_labellings(labels: Seq<usize>)
    ensures
        agreeing_pairs(zip_labels(labels, labels)) == agreeing_pairs(labels),
{
    let z = zip_labels(labels, labels);
    assert(same_grouping(z, labels)) by {
        assert forall|i: int, j: int|
            0 <= i < z.len() && 0 <= j < z.len() implies (#[trigger] z[i] == #[trigger] z[j] <==> labels[i]
            == labels[j]) by {}
    }
    lemma_same_grouping_pairs(z, labels);
}

/// Renaming the predicted labels one to one changes none of the pair
/// counts.
pub proof fn lemma_relabelling_keeps_pair_counts(
    labels_true: Seq<usize>,
    labels_pred: Seq<usize>,
    renamed: Seq<usize>,
)
    requires
        labels_true.len() == labels_pred.len(),
        same_grouping(labels_pred, renamed),
    ensures
        agreeing_pairs(renamed) == agreeing_pairs(labels_pred),
        agreeing_pairs(zip_labels(labels_true, renamed)) == agreeing_pairs(
            zip_labels(labels_true, labels_pred),
        ),
{
    lemma_same_grouping_pairs(labels_pred, renamed);
    let a = zip_labels(labels_true, labels_pred);
    let b = zip_labels(labels_true, renamed);
    assert(same_grouping(a, b)) by {
        assert forall|i: int, j: int|
            0 <= i < a.len() && 0 <= j < a.len() implies (#[trigger] a[i] == #[trigger] a[j] <==> b[i]
            == b[j]) by {
            assert(labels_pred[i] == labels_pred[j] <==> renamed[i] == renamed[j]);
        }
    }
    lemma_same_grouping_pairs(a, b);
}

} // verus!
