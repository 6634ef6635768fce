//! The selection pass.
//!
//! A depth-first descent from every root folds ancestor votes into
//! descendant votes and records each leaf whose accumulated vote
//! resolves to `true`, together with the accumulated specificity. A
//! subtree is pruned only when the accumulated vote resolves to a
//! definite `false`; an abstaining accumulator keeps descending and
//! counts as `false` only at a leaf. The selected set is every
//! recorded leaf tied at the minimal specificity: fewer votes were
//! needed to justify the path, so it has priority, and ties fan out on
//! purpose.

use crate::evaluate::{merged, vote, Evaluation};
use crate::tree::{FragmentId, FragmentTree};
use vstd::prelude::*;

verus! {

/// The vote of node `i` as the descent sees it: an `or` secondary
/// branch has its vote forced to the negation of the first sibling
/// group's resolved vote, instead of merging independently.
pub open spec fn or_adjusted<T>(
    t: FragmentTree<T>,
    i: int,
    first: Option<Evaluation>,
) -> Evaluation {
    if t.node(i).or_item && (first matches Some(f) && f.result is Some) {
        merged(t.node(i).evaluation, vote(!first->0.result->0))
    } else {
        t.node(i).evaluation
    }
}

/// The accumulated vote at node `i`: its (possibly or-adjusted) own
/// vote merged with the ancestors' accumulator.
pub open spec fn descend_eval<T>(
    t: FragmentTree<T>,
    i: int,
    acc: Evaluation,
    first: Option<Evaluation>,
) -> Evaluation {
    merged(or_adjusted(t, i, first), acc)
}

/// The leaves recorded under node `i`, whose own accumulated vote is
/// `e`. A subtree is pruned only when the accumulated vote resolves to
/// a definite `false`; an abstaining accumulator descends, since a
/// deeper facet may yet resolve it. A leaf is recorded only under a
/// definite `true`: no-opinion leaves never fire. The children are
/// walked in order, threading the first live sibling's accumulated
/// vote for the benefit of `or` branches.
pub open spec fn collect_from<T>(t: FragmentTree<T>, i: int, e: Evaluation) -> Seq<
    (usize, Evaluation),
>
    decreases t.spec_len() - i, t.node(i).children@.len() + 1,
{
    if i < 0 || i >= t.spec_len() {
        Seq::empty()
    } else if t.node(i).leaf {
        if e.result == Some(true) {
            seq![((i as usize), e)]
        } else {
            Seq::empty()
        }
    } else if e.result == Some(false) {
        Seq::empty()
    } else {
        collect_children(t, i, t.node(i).children@, 0, e, None)
    }
}

/// The leaves recorded under the children `cs[k..]` of node `i`, with
/// accumulator `acc` and first-sibling vote `first`. Children that are
/// missing or dead are skipped without touching the fold state.
pub open spec fn collect_children<T>(
    t: FragmentTree<T>,
    i: int,
    cs: Seq<usize>,
    k: int,
    acc: Evaluation,
    first: Option<Evaluation>,
) -> Seq<(usize, Evaluation)>
    decreases t.spec_len() - i, cs.len() - k,
{
    if i < 0 || i >= t.spec_len() || k < 0 || k >= cs.len() {
        Seq::empty()
    } else {
        let c = cs[k] as int;
        if !(i < c < t.spec_len()) || !t.live(c) {
            collect_children(t, i, cs, k + 1, acc, first)
        } else {
            let e = descend_eval(t, c, acc, first);
            let first2 = if first is None {
                Some(e)
            } else {
                first
            };
            collect_from(t, c, e) + collect_children(t, i, cs, k + 1, acc, first2)
        }
    }
}

/// The leaves recorded by a full descent from every live root at index
/// `i` or beyond, in index order. The accumulator starts as the
/// all-abstain evaluation, so at a root it is simply the root's own
/// vote: each node's vote is merged exactly once on the way down.
pub open spec fn roots_collect<T>(t: FragmentTree<T>, i: int) -> Seq<(usize, Evaluation)>
    decreases t.spec_len() - i,
{
    if i < 0 || i >= t.spec_len() {
        Seq::empty()
    } else {
        let rest = roots_collect(t, i + 1);
        if t.live(i) && t.node(i).root {
            collect_from(t, i, t.node(i).evaluation) + rest
        } else {
            rest
        }
    }
}

/// The minimal specificity among recorded leaves (meaningful when the
/// record is non-empty).
pub open spec fn min_count(s: Seq<(usize, Evaluation)>) -> nat
    decreases s.len(),
{
    if s.len() <= 1 {
        if s.len() == 1 {
            s[0].1.count as nat
        } else {
            0
        }
    } else {
        let m = min_count(s.drop_last());
        if s.last().1.count < m {
            s.last().1.count as nat
        } else {
            m
        }
    }
}

/// The recorded leaves whose specificity is exactly `m`, in record
/// order.
pub open spec fn with_count(s: Seq<(usize, Evaluation)>, m: nat) -> Seq<FragmentId>
    decreases s.len(),
{
    if s.len() == 0 {
        Seq::empty()
    } else {
        with_count(s.drop_last(), m) + (if s.last().1.count == m {
            seq![FragmentId(s.last().0)]
        } else {
            Seq::empty()
        })
    }
}

/// Every leaf recorded under a live node is itself a live leaf whose
/// accumulated vote resolved to `true`: no-opinion leaves never fire.
pub proof fn lemma_collect_from_records<T>(t: FragmentTree<T>, i: int, e: Evaluation)
    requires
        t.live(i),
    ensures
        forall|j: int|
            0 <= j < collect_from(t, i, e).len() ==> {
                let rec = #[trigger] collect_from(t, i, e)[j];
                &&& t.live(rec.0 as int)
                &&& t.node(rec.0 as int).leaf
                &&& rec.1.result == Some(true)
            },
    decreases t.spec_len() - i, t.node(i).children@.len() + 1,
{
    crate::tree::lemma_len_fits(t);
    if 0 <= i < t.spec_len() && !t.node(i).leaf && e.result != Some(false) {
        lemma_collect_children_records(t, i, t.node(i).children@, 0, e, None);
        let whole = collect_from(t, i, e);
        let inner = collect_children(t, i, t.node(i).children@, 0, e, None);
        assert(whole == inner);
        assert forall|j: int|
            0 <= j < whole.len() implies (#[trigger] whole[j]) == inner[j] by {}
    }
}

/// The sibling-fold form of [`lemma_collect_from_records`].
proof fn lemma_collect_children_records<T>(
    t: FragmentTree<T>,
    i: int,
    cs: Seq<usize>,
    k: int,
    acc: Evaluation,
    first: Option<Evaluation>,
)
    requires
        0 <= i < t.spec_len(),
    ensures
        forall|j: int|
            0 <= j < collect_children(t, i, cs, k, acc, first).len() ==> {
                let rec = #[trigger] collect_children(t, i, cs, k, acc, first)[j];
                &&& t.live(rec.0 as int)
                &&& t.node(rec.0 as int).leaf
                &&& rec.1.result == Some(true)
            },
    decreases t.spec_len() - i, cs.len() - k,
{
    if !(k < 0 || k >= cs.len()) {
        let c = cs[k] as int;
        if !(i < c < t.spec_len()) || !t.live(c) {
            lemma_collect_children_records(t, i, cs, k + 1, acc, first);
        } else {
            let e = descend_eval(t, c, acc, first);
            let first2 = if first is None {
                Some(e)
            } else {
                first
            };
            lemma_collect_from_records(t, c, e);
            lemma_collect_children_records(t, i, cs, k + 1, acc, first2);
            let whole = collect_children(t, i, cs, k, acc, first);
            let fromc = collect_from(t, c, e);
            let rest = collect_children(t, i, cs, k + 1, acc, first2);
            assert(whole == fromc + rest);
            assert forall|j: int|
                0 <= j < whole.len() implies (#[trigger] whole[j]) == (if j < fromc.len() {
                fromc[j]
            } else {
                rest[j - fromc.len()]
            }) by {}
        }
    }
}

/// The same, from every root: all recorded leaves are live leaves with
/// an accumulated `true` vote.
pub proof fn lemma_roots_collect_records<T>(t: FragmentTree<T>, i: int)
    ensures
        forall|j: int|
            0 <= j < roots_collect(t, i).len() ==> {
                let rec = #[trigger] roots_collect(t, i)[j];
                &&& t.live(rec.0 as int)
                &&& t.node(rec.0 as int).leaf
                &&& rec.1.result == Some(true)
            },
    decreases t.spec_len() - i,
{
    if !(i < 0 || i >= t.spec_len()) {
        lemma_roots_collect_records(t, i + 1);
        if t.live(i) && t.node(i).root {
            lemma_collect_from_records(t, i, t.node(i).evaluation);
            let whole = roots_collect(t, i);
            let fromr = collect_from(t, i, t.node(i).evaluation);
            let rest = roots_collect(t, i + 1);
            assert(whole == fromr + rest);
            assert forall|j: int|
                0 <= j < whole.len() implies (#[trigger] whole[j]) == (if j < fromr.len() {
                fromr[j]
            } else {
                rest[j - fromr.len()]
            }) by {}
        }
    }
}

/// The minimal recorded specificity really is minimal, and is attained.
pub proof fn lemma_min_count_is_min(s: Seq<(usize, Evaluation)>)
    requires
        s.len() > 0,
    ensures
        forall|j: int| 0 <= j < s.len() ==> min_count(s) <= (#[trigger] s[j]).1.count,
        exists|j: int| 0 <= j < s.len() && (#[trigger] s[j]).1.count == min_count(s),
    decreases s.len(),
{
    if s.len() > 1 {
        lemma_min_count_is_min(s.drop_last());
        assert(forall|j: int| 0 <= j < s.len() - 1 ==> s[j] == s.drop_last()[j]);
        let w = choose|j: int|
            0 <= j < s.drop_last().len() && (#[trigger] s.drop_last()[j]).1.count == min_count(
                s.drop_last(),
            );
        if s.last().1.count < min_count(s.drop_last()) {
            assert(s[s.len() - 1].1.count == min_count(s));
        } else {
            assert(s[w].1.count == min_count(s));
        }
    }
}

/// The recorded leaves at specificity `m`, kept as full records.
pub open spec fn with_count_records(s: Seq<(usize, Evaluation)>, m: nat) -> Seq<
    (usize, Evaluation),
>
    decreases s.len(),
{
    if s.len() == 0 {
        Seq::empty()
    } else {
        with_count_records(s.drop_last(), m) + (if s.last().1.count == m {
            seq![s.last()]
        } else {
            Seq::empty()
        })
    }
}

/// The selected IDs are exactly the IDs of the records kept at
/// specificity `m`, in the same order.
pub proof fn lemma_with_count_pointwise(s: Seq<(usize, Evaluation)>, m: nat)
    ensures
        with_count(s, m).len() == with_count_records(s, m).len(),
        forall|j: int|
            0 <= j < with_count(s, m).len() ==> #[trigger] with_count(s, m)[j] == FragmentId(
                with_count_records(s, m)[j].0,
            ),
    decreases s.len(),
{
    if s.len() > 0 {
        lemma_with_count_pointwise(s.drop_last(), m);
        let pids = with_count(s.drop_last(), m);
        let precs = with_count_records(s.drop_last(), m);
        assert forall|j: int| 0 <= j < with_count(s, m).len() implies #[trigger] with_count(
            s,
            m,
        )[j] == FragmentId(with_count_records(s, m)[j].0) by {
            if j < pids.len() {
                assert(with_count(s, m)[j] == pids[j]);
                assert(with_count_records(s, m)[j] == precs[j]);
            } else {
                assert(s.last().1.count == m);
                assert(with_count(s, m)[j] == FragmentId(s.last().0));
                assert(with_count_records(s, m)[j] == s.last());
            }
        }
    }
}

/// Every record kept at specificity `m` really has specificity `m` and
/// stands in the record list; and every record at specificity `m` is
/// kept — ties all fire.
pub proof fn lemma_with_count_members(s: Seq<(usize, Evaluation)>, m: nat)
    ensures
        forall|j: int|
            #![trigger with_count_records(s, m)[j]]
            0 <= j < with_count_records(s, m).len() ==> (with_count_records(s, m)[j].1.count == m
                && s.contains(with_count_records(s, m)[j])),
        forall|r: int|
            0 <= r < s.len() && (#[trigger] s[r]).1.count == m ==> with_count_records(
                s,
                m,
            ).contains(s[r]),
    decreases s.len(),
{
    if s.len() > 0 {
        lemma_with_count_members(s.drop_last(), m);
        assert(forall|r: int| 0 <= r < s.len() - 1 ==> s[r] == s.drop_last()[r]);
        let prefix = with_count_records(s.drop_last(), m);
        assert forall|j: int|
            #![trigger with_count_records(s, m)[j]]
            0 <= j < with_count_records(s, m).len() implies (with_count_records(s, m)[j].1.count
            == m && s.contains(with_count_records(s, m)[j])) by {
            if j < prefix.len() {
                assert(with_count_records(s, m)[j] == prefix[j]);
                assert(s.drop_last().contains(prefix[j]));
                let r0 = choose|r: int| 0 <= r < s.drop_last().len() && s.drop_last()[r]
                    == prefix[j];
                assert(s[r0] == prefix[j]);
            } else {
                assert(with_count_records(s, m)[j] == s.last());
                assert(s[s.len() - 1] == s.last());
            }
        }
        assert forall|r: int|
            0 <= r < s.len() && (#[trigger] s[r]).1.count == m implies with_count_records(
            s,
            m,
        ).contains(s[r]) by {
            if r < s.len() - 1 {
                assert(with_count_records(s.drop_last(), m).contains(s.drop_last()[r]));
                let j = choose|j: int| 0 <= j < prefix.len() && prefix[j] == s.drop_last()[r];
                assert(with_count_records(s, m)[j] == s[r]);
            } else {
                assert(with_count_records(s, m)[prefix.len() as int] == s[r]);
            }
        }
    }
}

/// If exactly one leaf is recorded, it alone is selected.
pub proof fn lemma_single_record_selected(s: Seq<(usize, Evaluation)>)
    requires
        s.len() == 1,
    ensures
        with_count(s, min_count(s)) =~= seq![FragmentId(s[0].0)],
{
    assert(s.drop_last() =~= Seq::<(usize, Evaluation)>::empty());
    assert(min_count(s) == s[0].1.count as nat);
    assert(s.last() == s[0]);
    assert(with_count(s.drop_last(), min_count(s)) =~= Seq::<FragmentId>::empty());
}

/// The selection law: whatever the tree and its votes, every selected
/// leaf is a live leaf whose accumulated vote resolved `true` at the
/// globally minimal recorded specificity; every recorded leaf tied at
/// that minimum is selected; and a sole recorded leaf is selected
/// alone.
pub proof fn lemma_selection_minimal<T>(t: FragmentTree<T>)
    ensures
        ({
            let records = roots_collect(t, 0);
            let m = min_count(records);
            let chosen = with_count(records, m);
            let kept = with_count_records(records, m);
            &&& (records.len() > 0 ==> forall|j: int|
                0 <= j < records.len() ==> m <= (#[trigger] records[j]).1.count)
            &&& chosen.len() == kept.len()
            &&& (forall|j: int|
                0 <= j < chosen.len() ==> #[trigger] chosen[j] == FragmentId(kept[j].0))
            &&& (forall|j: int|
                #![trigger kept[j]]
                0 <= j < kept.len() ==> (kept[j].1.count == m && records.contains(kept[j])
                    && t.live(kept[j].0 as int) && t.node(kept[j].0 as int).leaf
                    && kept[j].1.result == Some(true)))
            &&& (forall|r: int|
                0 <= r < records.len() && (#[trigger] records[r]).1.count == m ==> kept.contains(
                    records[r],
                ))
            &&& (records.len() == 1 ==> chosen =~= seq![FragmentId(records[0].0)])
        }),
{
    let records = roots_collect(t, 0);
    let m = min_count(records);
    let kept = with_count_records(records, m);
    if records.len() > 0 {
        lemma_min_count_is_min(records);
    }
    lemma_with_count_pointwise(records, m);
    lemma_with_count_members(records, m);
    lemma_roots_collect_records(t, 0);
    assert forall|j: int|
        #![trigger kept[j]]
        0 <= j < kept.len() implies (kept[j].1.count == m && records.contains(kept[j]) && t.live(
        kept[j].0 as int,
    ) && t.node(kept[j].0 as int).leaf && kept[j].1.result == Some(true)) by {
        assert(records.contains(kept[j]));
        let r0 = choose|r: int| 0 <= r < records.len() && records[r] == kept[j];
        assert(records[r0] == kept[j]);
    }
    if records.len() == 1 {
        lemma_single_record_selected(records);
    }
}

/// The transient, tick-scoped set of leaves chosen by the selection
/// pass; recomputed every tick.
#[derive(Debug, Clone, PartialEq, Eq)]
pub struct SelectedFragments(pub Vec<FragmentId>);

impl<T> FragmentTree<T> {
    /// Walk the subtree under live node `i`, whose accumulated vote is
    /// `e`, appending each recorded leaf to `leaves`.
    fn descend_node(&self, i: usize, e: Evaluation, leaves: &mut Vec<(usize, Evaluation)>)
        requires
            self.wf(),
            0 <= i < self.spec_len(),
        ensures
            final(leaves)@ == old(leaves)@ + collect_from(*self, i as int, e),
        decreases self.spec_len() - i,
    {
        if self.nodes[i].leaf {
            let fires = match e.result {
                Some(b) => b,
                None => false,
            };
            if fires {
                leaves.push((i, e));
            }
            assert(leaves@ =~= old(leaves)@ + collect_from(*self, i as int, e));
            return ;
        }
        let pruned = match e.result {
            Some(b) => !b,
            None => false,
        };
        if pruned {
            assert(collect_from(*self, i as int, e) =~= Seq::empty());
            return ;
        }
        let ghost t = *self;
        let ghost cs = self.nodes@[i as int].children@;
        let n = self.nodes[i].children.len();
        let mut first: Option<Evaluation> = None;
        let mut k: usize = 0;
        while k < n
            invariant
                t == *self,
                t.wf(),
                0 <= i < t.spec_len(),
                e.result != Some(false),
                !t.node(i as int).leaf,
                cs == t.node(i as int).children@,
                n == cs.len(),
                0 <= k <= n,
                leaves@ + collect_children(t, i as int, cs, k as int, e, first) == old(leaves)@
                    + collect_children(t, i as int, cs, 0, e, None),
            decreases n - k,
        {
            proof {
                t.lemma_child_pos_inverse(i as int, k as int);
            }
            let c = self.nodes[i].children[k];
            if self.nodes[c].alive {
                let mut ce = self.nodes[c].evaluation;
                if self.nodes[c].or_item {
                    match first {
                        Some(f) => {
                            match f.result {
                                Some(fr) => {
                                    ce = ce.and(Evaluation { result: Some(!fr), count: 1 });
                                },
                                None => {},
                            }
                        },
                        None => {},
                    }
                }
                let ec = ce.and(e);
                proof {
                    assert(ec == descend_eval(t, c as int, e, first));
                }
                self.descend_node(c, ec, leaves);
                if first.is_none() {
                    first = Some(ec);
                }
            }
            k = k + 1;
        }
        proof {
            assert(collect_children(t, i as int, cs, n as int, e, first) =~= Seq::empty());
            assert(leaves@ =~= old(leaves)@ + collect_from(*self, i as int, e));
        }
    }

    /// The selection pass: record every leaf whose accumulated vote
    /// resolves true under some live root, then keep exactly the ones
    /// tied at the globally minimal recorded specificity, in record
    /// order. No recorded leaf means nothing is selected.
    pub fn select_fragments(&self) -> (r: SelectedFragments)
        requires
            self.wf(),
        ensures
            ({
                let records = roots_collect(*self, 0);
                &&& records.len() == 0 ==> r.0@ == Seq::<FragmentId>::empty()
                &&& records.len() > 0 ==> r.0@ == with_count(records, min_count(records))
            }),
    {
        let ghost t = *self;
        let mut leaves: Vec<(usize, Evaluation)> = Vec::new();
        let total = self.nodes.len();
        let mut i: usize = 0;
        while i < total
            invariant
                t == *self,
                t.wf(),
                t.spec_len() == total,
                0 <= i <= total,
                leaves@ + roots_collect(t, i as int) == roots_collect(t, 0),
            decreases total - i,
        {
            if self.nodes[i].alive && self.nodes[i].root {
                let seed = self.nodes[i].evaluation;
                self.descend_node(i, seed, &mut leaves);
            }
            proof {
                assert(leaves@ + roots_collect(t, i + 1) =~= roots_collect(t, 0));
            }
            i = i + 1;
        }
        proof {
            assert(roots_collect(t, total as int) =~= Seq::empty());
            assert(leaves@ =~= roots_collect(t, 0));
        }
        let mut selected: Vec<FragmentId> = Vec::new();
        if leaves.len() == 0 {
            return SelectedFragments(selected);
        }
        let mut m: usize = leaves[0].1.count;
        proof {
            assert(leaves@.take(1).drop_last() =~= Seq::<(usize, Evaluation)>::empty());
            assert(min_count(leaves@.take(1)) == leaves@[0].1.count);
        }
        let cnt = leaves.len();
        let mut k: usize = 1;
        while k < cnt
            invariant
                cnt == leaves@.len(),
                1 <= k <= cnt,
                m == min_count(leaves@.take(k as int)),
            decreases cnt - k,
        {
            proof {
                assert(leaves@.take(k + 1 as int).drop_last() =~= leaves@.take(k as int));
                assert(leaves@.take(k + 1 as int).last() == leaves@[k as int]);
            }
            if leaves[k].1.count < m {
                m = leaves[k].1.count;
            }
            k = k + 1;
        }
        proof {
            assert(leaves@.take(cnt as int) =~= leaves@);
        }
        let mut j: usize = 0;
        while j < cnt
            invariant
                cnt == leaves@.len(),
                0 <= j <= cnt,
                selected@ == with_count(leaves@.take(j as int), m as nat),
            decreases cnt - j,
        {
            proof {
                assert(leaves@.take(j + 1 as int).drop_last() =~= leaves@.take(j as int));
                assert(leaves@.take(j + 1 as int).last() == leaves@[j as int]);
            }
            if leaves[j].1.count == m {
                selected.push(FragmentId(leaves[j].0));
            }
            j = j + 1;
        }
        proof {
            assert(leaves@.take(cnt as int) =~= leaves@);
        }
        SelectedFragments(selected)
    }
}

} // verus!
