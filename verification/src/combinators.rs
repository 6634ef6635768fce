//! The per-tick evaluation passes.
//!
//! Each facet writes its vote into the owning node's evaluation slot via
//! the merge law, independently of every other facet. Facets that need
//! outside input (a custom predicate, an injected index) take it as an
//! argument; the randomized distribution facet draws behind a trusted
//! wrapper. The slots are cleared at the end of each tick.

use crate::evaluate::{abstain, merged, vote, Evaluation};
use crate::facets::valid_weights;
use crate::tree::{Fragment, FragmentId, FragmentTree};
use vstd::prelude::*;

verus! {

/// Whether slot `p` holds a live container with a usable weighted
/// distribution: the weight list is valid and gives one weight per
/// child. A malformed list is a configuration error: the node is
/// skipped and keeps abstaining.
pub open spec fn is_distribution<T>(t: FragmentTree<T>, p: int) -> bool {
    &&& t.live(p)
    &&& (t.node(p).weights matches Some(w) && valid_weights(w@) && w@.len() == t.node(
        p,
    ).children@.len())
}

/// Per-slot postcondition of the distribution pass over `a`, with only
/// the container nodes at indices below `bound` processed; `b` is the
/// store afterwards. Each processed container caches a chosen index —
/// kept while an activation is in flight, freshly sampled (in range,
/// with positive weight) otherwise — and each of its live children
/// merges a vote that is `true` exactly at the chosen position.
pub open spec fn distribution_post_partial<T>(
    a: FragmentTree<T>,
    b: FragmentTree<T>,
    i: int,
    bound: int,
) -> bool {
    let n = a.node(i);
    let p = a.parent_ix(i);
    let voted = n.parent is Some && p < bound && is_distribution(a, p) && n.alive;
    let cached = i < bound && is_distribution(a, i);
    let new_eval = if voted {
        merged(n.evaluation, vote(a.child_pos(i) == b.node(p).dist_index))
    } else {
        n.evaluation
    };
    let new_idx = if cached {
        b.node(i).dist_index
    } else {
        n.dist_index
    };
    &&& b.node(i) == (Fragment { evaluation: new_eval, dist_index: new_idx, ..n })
    &&& (cached ==> (if n.state.active {
        new_idx == n.dist_index
    } else {
        new_idx < n.children@.len() && n.weights->0@[new_idx as int] > 0
    }))
}

/// Per-slot postcondition of the finished distribution pass.
pub open spec fn distribution_post<T>(a: FragmentTree<T>, b: FragmentTree<T>, i: int) -> bool {
    distribution_post_partial(a, b, i, a.spec_len() as int)
}

/// Whether slot `p` holds a live ordered-sequence container.
pub open spec fn is_sequence<T>(t: FragmentTree<T>, p: int) -> bool {
    t.live(p) && t.node(p).sequence
}

/// Whether the child in slot `c` of sequence container `p` may be the
/// next to run: it is live, has no activation in flight, and has not
/// finished more cycles than the container itself.
pub open spec fn seq_eligible<T>(t: FragmentTree<T>, p: int, c: int) -> bool {
    &&& t.live(c)
    &&& t.node(c).state.active_events@.len() == 0
    &&& t.node(c).state.completed <= t.node(p).state.completed
}

/// The vote the sequence facet on `p` casts for its `k`-th child:
/// `true` exactly when the container itself is idle and this is the
/// first eligible child in order; every other child is vetoed. This
/// encodes "run children strictly in order, advance only when the
/// previous one has fully finished, and do not re-select a child
/// mid-flight".
pub open spec fn seq_vote<T>(t: FragmentTree<T>, p: int, k: int) -> bool {
    let cs = t.node(p).children@;
    &&& t.node(p).state.active_events@.len() == 0
    &&& seq_eligible(t, p, cs[k] as int)
    &&& (forall|j: int| 0 <= j < k ==> !seq_eligible(t, p, cs[j] as int))
}

/// What slot `i` looks like after sequence container `p` voted on its
/// children.
pub open spec fn seq_child_post<T>(t: FragmentTree<T>, p: int, i: int) -> Fragment<T> {
    if t.node(i).parent == Some(p as usize) && t.node(i).alive {
        Fragment {
            evaluation: merged(t.node(i).evaluation, vote(seq_vote(t, p, t.child_pos(i)))),
            ..t.node(i)
        }
    } else {
        t.node(i)
    }
}

/// The partially applied form of [`seq_child_post`]: only the children
/// at positions below `k` have been voted on yet.
pub open spec fn seq_child_post_partial<T>(t: FragmentTree<T>, p: int, i: int, k: int) -> Fragment<
    T,
> {
    if t.node(i).parent == Some(p as usize) && t.node(i).alive && t.child_pos(i) < k {
        Fragment {
            evaluation: merged(t.node(i).evaluation, vote(seq_vote(t, p, t.child_pos(i)))),
            ..t.node(i)
        }
    } else {
        t.node(i)
    }
}

/// The sequence vote depends only on liveness, durable state and the
/// children lists, so stores that agree there vote alike.
proof fn lemma_seq_vote_agrees<T>(a: FragmentTree<T>, b: FragmentTree<T>, p: int, k: int)
    requires
        a.wf(),
        a.in_range(p),
        b.nodes@.len() == a.nodes@.len(),
        forall|i: int|
            0 <= i < a.nodes@.len() ==> (#[trigger] b.nodes@[i]).state == a.nodes@[i].state
                && b.nodes@[i].alive == a.nodes@[i].alive && b.nodes@[i].children@
                == a.nodes@[i].children@,
        0 <= k < a.node(p).children@.len(),
    ensures
        seq_vote(b, p, k) == seq_vote(a, p, k),
{
    assert(a.wf_at(p));
    let cs = a.node(p).children@;
    assert forall|j: int| 0 <= j < cs.len() implies (seq_eligible(b, p, cs[j] as int)
        <==> seq_eligible(a, p, cs[j] as int)) by {
        assert(0 <= cs[j] < a.nodes@.len());
    }
    if seq_vote(a, p, k) {
        assert forall|j: int| 0 <= j < k implies !seq_eligible(b, p, cs[j] as int) by {
            assert(!seq_eligible(a, p, cs[j] as int));
        }
        assert(seq_vote(b, p, k));
    }
    if seq_vote(b, p, k) {
        assert forall|j: int| 0 <= j < k implies !seq_eligible(a, p, cs[j] as int) by {
            assert(!seq_eligible(b, p, cs[j] as int));
        }
        assert(seq_vote(a, p, k));
    }
}

/// What slot `i` looks like after the whole sequence pass over `a`,
/// with only the containers at indices below `bound` processed.
pub open spec fn sequence_pass_node_partial<T>(a: FragmentTree<T>, i: int, bound: int) -> Fragment<
    T,
> {
    let n = a.node(i);
    let p = a.parent_ix(i);
    if n.parent is Some && p < bound && is_sequence(a, p) && n.alive {
        Fragment { evaluation: merged(n.evaluation, vote(seq_vote(a, p, a.child_pos(i)))), ..n }
    } else {
        n
    }
}

/// What slot `i` looks like after the finished sequence pass over `a`.
pub open spec fn sequence_pass_node<T>(a: FragmentTree<T>, i: int) -> Fragment<T> {
    sequence_pass_node_partial(a, i, a.spec_len() as int)
}

/// A definite `false` vote survives any further merge, on either side.
pub proof fn lemma_false_vote_is_final(e: Evaluation, other: Evaluation)
    requires
        e.result == Some(false),
    ensures
        merged(e, other).result == Some(false),
        merged(other, e).result == Some(false),
{
}

/// The execution-limit law: once a node's completions have reached its
/// Limit bound, the limit pass leaves a definite `false` in its slot,
/// and no other facet's vote — earlier or later — can turn the node's
/// tick back to `true`.
pub proof fn lemma_limit_exhausted_vetoes<T>(n: Fragment<T>, later: Evaluation)
    requires
        n.alive,
        n.limit matches Some(l) && n.state.completed >= l,
    ensures
        limit_eval(n).result == Some(false),
        merged(limit_eval(n), later).result == Some(false),
        merged(later, limit_eval(n)).result == Some(false),
{
}

/// The sequence-order law, within one tick: a sequence container's
/// `true` vote goes to at most one child — the first, in child order,
/// that is live, has nothing in flight, and has not completed more
/// cycles than the container itself — and only while the container is
/// idle.
pub proof fn lemma_seq_vote_unique<T>(t: FragmentTree<T>, p: int, k1: int, k2: int)
    requires
        0 <= k1 < t.node(p).children@.len(),
        0 <= k2 < t.node(p).children@.len(),
        seq_vote(t, p, k1),
        seq_vote(t, p, k2),
    ensures
        k1 == k2,
{
    if k1 < k2 {
        assert(!seq_eligible(t, p, t.node(p).children@[k1] as int));
    } else if k2 < k1 {
        assert(!seq_eligible(t, p, t.node(p).children@[k2] as int));
    }
}

/// The other half of the sequence-order law: a `true` vote for the
/// `k`-th child says the container is idle, the child is eligible (in
/// particular its completions do not exceed the container's), and
/// every earlier child is not.
pub proof fn lemma_seq_vote_first_eligible<T>(t: FragmentTree<T>, p: int, k: int)
    requires
        0 <= k < t.node(p).children@.len(),
        seq_vote(t, p, k),
    ensures
        t.node(p).state.active_events@.len() == 0,
        seq_eligible(t, p, t.node(p).children@[k] as int),
        t.node(t.node(p).children@[k] as int).state.completed <= t.node(p).state.completed,
        forall|j: int| 0 <= j < k ==> !seq_eligible(t, p, t.node(p).children@[j] as int),
{
}

/// What the unconditional-true facet leaves in a node's slot.
pub open spec fn always_eval<T>(n: Fragment<T>) -> Evaluation {
    if n.alive && n.always {
        merged(n.evaluation, vote(true))
    } else {
        n.evaluation
    }
}

/// What the execution-limit facet leaves in a node's slot: a `false`
/// vote once the node has completed its bounded number of runs.
pub open spec fn limit_eval<T>(n: Fragment<T>) -> Evaluation {
    if n.alive && (n.limit matches Some(l) && n.state.completed >= l) {
        merged(n.evaluation, vote(false))
    } else {
        n.evaluation
    }
}

/// An index-choice container keeps two separate caches, one per
/// facet: `sel` names the Select facet's, `!sel` the Distribution
/// facet's, so a node carrying both facets never clobbers the other's
/// in-flight choice.
pub open spec fn cache_of<T>(n: Fragment<T>, sel: bool) -> usize {
    if sel {
        n.select_index
    } else {
        n.dist_index
    }
}

/// The node `n` with the named cache set to `used`.
pub open spec fn with_cache<T>(n: Fragment<T>, sel: bool, used: usize) -> Fragment<T> {
    if sel {
        Fragment { select_index: used, ..n }
    } else {
        Fragment { dist_index: used, ..n }
    }
}

/// The partially applied form of [`FragmentTree::choice_post`]: only the
/// children at positions below `k` have been voted on yet.
pub open spec fn choice_post_partial<T>(
    t: FragmentTree<T>,
    p: int,
    used: usize,
    sel: bool,
    i: int,
    k: int,
) -> Fragment<T> {
    if i == p {
        with_cache(t.node(i), sel, used)
    } else if t.node(i).parent == Some(p as usize) && t.node(i).alive && t.child_pos(i) < k {
        Fragment {
            evaluation: merged(t.node(i).evaluation, vote(t.child_pos(i) == used)),
            ..t.node(i)
        }
    } else {
        t.node(i)
    }
}

impl<T> FragmentTree<T> {
    /// Reset every node's evaluation slot to the all-abstain value.
    /// Runs at the end of each tick; evaluations never persist.
    pub fn clear_evals(&mut self)
        requires
            old(self).wf(),
        ensures
            final(self).wf(),
            final(self).spec_len() == old(self).spec_len(),
            forall|i: int|
                0 <= i < old(self).spec_len() ==> final(self).node(i) == (Fragment {
                    evaluation: abstain(),
                    ..old(self).node(i)
                }),
    {
        let mut i: usize = 0;
        while i < self.nodes.len()
            invariant
                self.nodes@.len() == old(self).nodes@.len(),
                0 <= i <= self.nodes@.len(),
                forall|j: int|
                    0 <= j < i ==> self.nodes@[j] == (Fragment {
                        evaluation: abstain(),
                        ..old(self).nodes@[j]
                    }),
                forall|j: int| i <= j < self.nodes@.len() ==> self.nodes@[j] == old(self).nodes@[j],
            decreases self.nodes@.len() - i,
        {
            self.nodes[i].evaluation = Evaluation { result: None, count: 0 };
            i = i + 1;
        }
        proof {
            crate::facets::lemma_wf_same_structure(*old(self), *self);
        }
    }

    /// The unconditional-true pass: every live node carrying the Always
    /// facet merges one `true` vote. A false vote from another facet
    /// still vetoes the node.
    pub fn evaluate_always(&mut self)
        requires
            old(self).wf(),
        ensures
            final(self).wf(),
            final(self).spec_len() == old(self).spec_len(),
            forall|i: int|
                0 <= i < old(self).spec_len() ==> final(self).node(i) == (Fragment {
                    evaluation: always_eval(old(self).node(i)),
                    ..old(self).node(i)
                }),
    {
        let mut i: usize = 0;
        while i < self.nodes.len()
            invariant
                self.nodes@.len() == old(self).nodes@.len(),
                0 <= i <= self.nodes@.len(),
                forall|j: int|
                    0 <= j < i ==> self.nodes@[j] == (Fragment {
                        evaluation: always_eval(old(self).nodes@[j]),
                        ..old(self).nodes@[j]
                    }),
                forall|j: int| i <= j < self.nodes@.len() ==> self.nodes@[j] == old(self).nodes@[j],
            decreases self.nodes@.len() - i,
        {
            if self.nodes[i].alive && self.nodes[i].always {
                self.nodes[i].evaluation.merge(Evaluation { result: Some(true), count: 1 });
            }
            i = i + 1;
        }
        proof {
            crate::facets::lemma_wf_same_structure(*old(self), *self);
        }
    }

    /// The execution-limit pass: every live node whose Limit facet is
    /// exhausted (`completed >= n`) merges one `false` vote, vetoing the
    /// node regardless of other facets.
    pub fn evaluate_limits(&mut self)
        requires
            old(self).wf(),
        ensures
            final(self).wf(),
            final(self).spec_len() == old(self).spec_len(),
            forall|i: int|
                0 <= i < old(self).spec_len() ==> final(self).node(i) == (Fragment {
                    evaluation: limit_eval(old(self).node(i)),
                    ..old(self).node(i)
                }),
    {
        let mut i: usize = 0;
        while i < self.nodes.len()
            invariant
                self.nodes@.len() == old(self).nodes@.len(),
                0 <= i <= self.nodes@.len(),
                forall|j: int|
                    0 <= j < i ==> self.nodes@[j] == (Fragment {
                        evaluation: limit_eval(old(self).nodes@[j]),
                        ..old(self).nodes@[j]
                    }),
                forall|j: int| i <= j < self.nodes@.len() ==> self.nodes@[j] == old(self).nodes@[j],
            decreases self.nodes@.len() - i,
        {
            if self.nodes[i].alive {
                let exhausted = match self.nodes[i].limit {
                    Some(l) => self.nodes[i].state.completed >= l,
                    None => false,
                };
                if exhausted {
                    self.nodes[i].evaluation.merge(Evaluation { result: Some(false), count: 1 });
                }
            }
            i = i + 1;
        }
        proof {
            crate::facets::lemma_wf_same_structure(*old(self), *self);
        }
    }

    /// The child index a select or distribution container uses this
    /// tick: while an activation is in flight the cached choice is kept,
    /// for selection stability; otherwise the fresh index is taken.
    pub open spec fn used_index(self, p: int, fresh: usize, sel: bool) -> usize {
        if self.node(p).state.active {
            cache_of(self.node(p), sel)
        } else {
            fresh
        }
    }

    /// What one slot looks like after an index-choice container `p`
    /// voted with index `used`: `p` caches the index (in the facet's
    /// own cache), each live child merges a vote that is `true`
    /// exactly at position `used`, and every other node is untouched.
    pub open spec fn choice_post(self, p: int, used: usize, sel: bool, i: int) -> Fragment<T> {
        if i == p {
            with_cache(self.node(i), sel, used)
        } else if self.node(i).parent == Some(p as usize) && self.node(i).alive {
            Fragment {
                evaluation: merged(self.node(i).evaluation, vote(self.child_pos(i) == used)),
                ..self.node(i)
            }
        } else {
            self.node(i)
        }
    }

    /// The select pass for one node: exactly the child at the injected
    /// index votes `true`, all its live siblings vote `false`. An
    /// out-of-range index makes every child vote `false`. While an
    /// activation is in flight the cached index is reused instead, so
    /// the choice stays stable for the duration of one activation.
    pub fn update_select_item(&mut self, id: FragmentId, index: usize) -> (r: bool)
        requires
            old(self).wf(),
        ensures
            final(self).wf(),
            final(self).spec_len() == old(self).spec_len(),
            r <==> old(self).live(id.0 as int) && old(self).node(id.0 as int).select,
            !r ==> *final(self) == *old(self),
            r ==> forall|i: int|
                0 <= i < old(self).spec_len() ==> final(self).node(i) == old(self).choice_post(
                    id.0 as int,
                    old(self).used_index(id.0 as int, index, true),
                    true,
                    i,
                ),
    {
        if !(id.0 < self.nodes.len() && self.nodes[id.0].alive && self.nodes[id.0].select) {
            return false;
        }
        let used = if self.nodes[id.0].state.active {
            self.nodes[id.0].select_index
        } else {
            index
        };
        self.vote_on_children(id.0, used, true);
        true
    }

    /// Cache `used` on container `p` (in the cache `sel` names) and
    /// merge the index votes into its live children.
    fn vote_on_children(&mut self, p: usize, used: usize, sel: bool)
        requires
            old(self).wf(),
            old(self).live(p as int),
        ensures
            final(self).wf(),
            final(self).spec_len() == old(self).spec_len(),
            forall|i: int|
                0 <= i < old(self).spec_len() ==> final(self).node(i) == old(self).choice_post(
                    p as int,
                    used,
                    sel,
                    i,
                ),
    {
        let ghost oldt = *old(self);
        let total = self.nodes.len();
        proof {
            assert(oldt.spec_len() == total);
        }
        if sel {
            self.nodes[p].select_index = used;
        } else {
            self.nodes[p].dist_index = used;
        }
        let n_children = self.nodes[p].children.len();
        proof {
            assert forall|i: int| 0 <= i < oldt.spec_len() implies self.nodes@[i]
                == choice_post_partial(oldt, p as int, used, sel, i, 0) by {
                if i != p && oldt.node(i).parent == Some(p) && oldt.node(i).alive {
                    oldt.lemma_child_pos_valid(i);
                }
            }
        }
        let mut k: usize = 0;
        while k < n_children
            invariant
                oldt == *old(self),
                oldt.wf(),
                oldt.live(p as int),
                oldt.spec_len() <= usize::MAX,
                self.nodes@.len() == oldt.nodes@.len(),
                p < oldt.nodes@.len(),
                n_children == oldt.node(p as int).children@.len(),
                0 <= k <= n_children,
                self.nodes@[p as int].children@ == oldt.node(p as int).children@,
                forall|i: int|
                    0 <= i < oldt.spec_len() ==> self.nodes@[i] == choice_post_partial(
                        oldt,
                        p as int,
                        used,
                        sel,
                        i,
                        k as int,
                    ),
            decreases n_children - k,
        {
            proof {
                oldt.lemma_child_pos_inverse(p as int, k as int);
            }
            let c = self.nodes[p].children[k];
            proof {
                assert(c == oldt.node(p as int).children@[k as int]);
            }
            if self.nodes[c].alive {
                self.nodes[c].evaluation.merge(
                    Evaluation { result: Some(k == used), count: 1 },
                );
            }
            proof {
                assert forall|i: int| 0 <= i < oldt.spec_len() implies self.nodes@[i]
                    == choice_post_partial(oldt, p as int, used, sel, i, k + 1) by {
                    if i == c as int {
                        assert(oldt.child_pos(i) == k);
                        assert(self.nodes@[i] == choice_post_partial(
                            oldt,
                            p as int,
                            used,
                            sel,
                            i,
                            k + 1,
                        ));
                    } else if i == p {
                        assert(choice_post_partial(oldt, p as int, used, sel, i, k + 1)
                            == choice_post_partial(oldt, p as int, used, sel, i, k as int));
                    } else if oldt.node(i).parent == Some(p) && oldt.node(i).alive {
                        oldt.lemma_child_pos_valid(i);
                        let j = oldt.child_pos(i);
                        assert(0 <= j < n_children);
                        assert(oldt.node(p as int).children@[j] == i as usize);
                        assert(j != k);
                        assert(choice_post_partial(oldt, p as int, used, sel, i, k + 1)
                            == choice_post_partial(oldt, p as int, used, sel, i, k as int));
                    } else {
                        assert(choice_post_partial(oldt, p as int, used, sel, i, k + 1)
                            == choice_post_partial(oldt, p as int, used, sel, i, k as int));
                    }
                }
            }
            k = k + 1;
        }
        proof {
            assert forall|i: int| 0 <= i < oldt.spec_len() implies self.nodes@[i]
                == oldt.choice_post(p as int, used, sel, i) by {
                if i != p && oldt.node(i).parent == Some(p) && oldt.node(i).alive {
                    oldt.lemma_child_pos_valid(i);
                    let j = oldt.child_pos(i);
                    assert(0 <= j < n_children);
                    assert(self.nodes@[i] == choice_post_partial(
                        oldt,
                        p as int,
                        used,
                        sel,
                        i,
                        n_children as int,
                    ));
                    assert(choice_post_partial(oldt, p as int, used, sel, i, n_children as int)
                        == oldt.choice_post(p as int, used, sel, i));
                } else {
                    assert(self.nodes@[i] == choice_post_partial(
                        oldt,
                        p as int,
                        used,
                        sel,
                        i,
                        n_children as int,
                    ));
                    assert(choice_post_partial(oldt, p as int, used, sel, i, n_children as int)
                        == oldt.choice_post(p as int, used, sel, i));
                }
            }
            assert forall|i: int|
                0 <= i < oldt.nodes@.len() implies (#[trigger] self.nodes@[i]).parent
                == oldt.nodes@[i].parent && self.nodes@[i].children@
                == oldt.nodes@[i].children@ by {
                assert(self.nodes@[i] == oldt.choice_post(p as int, used, sel, i));
            }
            crate::facets::lemma_wf_same_structure(oldt, *self);
        }
    }

    /// Merge the ordered-sequence votes of container `p` into its live
    /// children: the first eligible child in order gets `true` when the
    /// container is idle, every other child gets `false`.
    fn seq_vote_children(&mut self, p: usize)
        requires
            old(self).wf(),
            old(self).live(p as int),
        ensures
            final(self).wf(),
            final(self).spec_len() == old(self).spec_len(),
            forall|i: int|
                0 <= i < old(self).spec_len() ==> final(self).node(i) == seq_child_post(
                    *old(self),
                    p as int,
                    i,
                ),
    {
        let ghost oldt = *old(self);
        let total = self.nodes.len();
        proof {
            assert(oldt.spec_len() == total);
        }
        let inactive = self.nodes[p].state.active_events.is_empty();
        let p_completed = self.nodes[p].state.completed;
        let n_children = self.nodes[p].children.len();
        proof {
            assert forall|i: int| 0 <= i < oldt.spec_len() implies self.nodes@[i]
                == seq_child_post_partial(oldt, p as int, i, 0) by {
                if oldt.node(i).parent is Some {
                    assert(oldt.wf_at(i));
                    if oldt.node(i).parent == Some(p) && oldt.node(i).alive {
                        oldt.lemma_child_pos_valid(i);
                    }
                }
            }
        }
        let mut first_selected = false;
        let mut k: usize = 0;
        while k < n_children
            invariant
                oldt == *old(self),
                oldt.wf(),
                oldt.live(p as int),
                oldt.spec_len() <= usize::MAX,
                self.nodes@.len() == oldt.nodes@.len(),
                p < oldt.nodes@.len(),
                n_children == oldt.node(p as int).children@.len(),
                0 <= k <= n_children,
                inactive <==> oldt.node(p as int).state.active_events@.len() == 0,
                p_completed == oldt.node(p as int).state.completed,
                self.nodes@[p as int].children@ == oldt.node(p as int).children@,
                first_selected <==> (inactive && exists|j: int|
                    0 <= j < k && seq_eligible(
                        oldt,
                        p as int,
                        oldt.node(p as int).children@[j] as int,
                    )),
                forall|i: int|
                    0 <= i < oldt.spec_len() ==> self.nodes@[i] == seq_child_post_partial(
                        oldt,
                        p as int,
                        i,
                        k as int,
                    ),
            decreases n_children - k,
        {
            proof {
                oldt.lemma_child_pos_inverse(p as int, k as int);
            }
            let c = self.nodes[p].children[k];
            proof {
                assert(c == oldt.node(p as int).children@[k as int]);
                assert(self.nodes@[c as int] == seq_child_post_partial(
                    oldt,
                    p as int,
                    c as int,
                    k as int,
                ));
            }
            if self.nodes[c].alive {
                let eligible = self.nodes[c].state.active_events.is_empty()
                    && self.nodes[c].state.completed <= p_completed;
                let v = inactive && !first_selected && eligible;
                proof {
                    assert(eligible <==> (oldt.node(c as int).state.active_events@.len() == 0
                        && oldt.node(c as int).state.completed <= oldt.node(
                        p as int,
                    ).state.completed));
                    assert(seq_eligible(oldt, p as int, c as int) <==> eligible);
                    assert(v == seq_vote(oldt, p as int, k as int));
                }
                if v {
                    first_selected = true;
                }
                self.nodes[c].evaluation.merge(Evaluation { result: Some(v), count: 1 });
            }
            proof {
                let bnd = k as int + 1;
                if oldt.node(c as int).alive {
                    assert(inactive && seq_eligible(oldt, p as int, c as int)
                        ==> first_selected) by {
                        if inactive && seq_eligible(oldt, p as int, c as int) {
                            assert(oldt.node(p as int).children@[k as int] as int == c as int);
                        }
                    }
                }
                assert forall|i: int| 0 <= i < oldt.spec_len() implies self.nodes@[i]
                    == seq_child_post_partial(oldt, p as int, i, bnd) by {
                    if i == c as int {
                        assert(oldt.child_pos(i) == k);
                        if oldt.node(i).alive {
                            assert(oldt.node(i).parent == Some(p));
                            assert(self.nodes@[i].evaluation == merged(
                                oldt.node(i).evaluation,
                                vote(seq_vote(oldt, p as int, k as int)),
                            ));
                            assert(self.nodes@[i] == seq_child_post_partial(
                                oldt,
                                p as int,
                                i,
                                bnd,
                            ));
                        } else {
                            assert(self.nodes@[i] == seq_child_post_partial(
                                oldt,
                                p as int,
                                i,
                                bnd,
                            ));
                        }
                    } else if oldt.node(i).parent is Some {
                        assert(oldt.wf_at(i));
                        if oldt.node(i).parent == Some(p) && oldt.node(i).alive {
                            oldt.lemma_child_pos_valid(i);
                            assert(oldt.child_pos(i) != k);
                        }
                        assert(seq_child_post_partial(oldt, p as int, i, k as int)
                            == seq_child_post_partial(oldt, p as int, i, bnd));
                    } else {
                        assert(seq_child_post_partial(oldt, p as int, i, k as int)
                            == seq_child_post_partial(oldt, p as int, i, bnd));
                    }
                }
            }
            k = k + 1;
        }
        proof {
            assert forall|i: int| 0 <= i < oldt.spec_len() implies self.nodes@[i]
                == seq_child_post(oldt, p as int, i) by {
                if oldt.node(i).parent is Some {
                    assert(oldt.wf_at(i));
                    if oldt.node(i).parent == Some(p) && oldt.node(i).alive {
                        oldt.lemma_child_pos_valid(i);
                    }
                }
                assert(seq_child_post_partial(oldt, p as int, i, n_children as int)
                    == seq_child_post(oldt, p as int, i));
            }
            assert forall|i: int|
                0 <= i < oldt.nodes@.len() implies (#[trigger] self.nodes@[i]).parent
                == oldt.nodes@[i].parent && self.nodes@[i].children@
                == oldt.nodes@[i].children@ by {
                assert(self.nodes@[i] == seq_child_post(oldt, p as int, i));
            }
            crate::facets::lemma_wf_same_structure(oldt, *self);
        }
    }

    /// The ordered-sequence pass: every live Sequence container votes
    /// on its children as [`seq_vote`] says.
    pub fn update_sequence_items(&mut self)
        requires
            old(self).wf(),
        ensures
            final(self).wf(),
            final(self).spec_len() == old(self).spec_len(),
            forall|i: int|
                0 <= i < old(self).spec_len() ==> final(self).node(i) == sequence_pass_node(
                    *old(self),
                    i,
                ),
    {
        let ghost oldt = *old(self);
        let total = self.nodes.len();
        let mut p: usize = 0;
        while p < total
            invariant
                oldt == *old(self),
                oldt.wf(),
                oldt.spec_len() == total,
                self.wf(),
                self.nodes@.len() == total,
                0 <= p <= total,
                forall|i: int|
                    0 <= i < total ==> self.nodes@[i] == sequence_pass_node_partial(
                        oldt,
                        i,
                        p as int,
                    ),
            decreases total - p,
        {
            let ghost cur = *self;
            if self.nodes[p].alive && self.nodes[p].sequence {
                self.seq_vote_children(p);
                proof {
                    let bnd = p as int + 1;
                    assert forall|i: int|
                        0 <= i < total implies (#[trigger] cur.nodes@[i]).state
                        == oldt.nodes@[i].state && cur.nodes@[i].alive == oldt.nodes@[i].alive
                        && cur.nodes@[i].children@ == oldt.nodes@[i].children@ by {
                        assert(cur.node(i) == sequence_pass_node_partial(oldt, i, p as int));
                    }
                    assert forall|i: int| 0 <= i < total implies self.nodes@[i]
                        == sequence_pass_node_partial(oldt, i, bnd) by {
                        assert(cur.node(i) == sequence_pass_node_partial(oldt, i, p as int));
                        assert(cur.node(p as int) == sequence_pass_node_partial(
                            oldt,
                            p as int,
                            p as int,
                        ));
                        assert(self.node(i) == seq_child_post(cur, p as int, i));
                        if oldt.node(i).parent == Some(p) && oldt.node(i).alive {
                            assert(oldt.wf_at(i));
                            oldt.lemma_child_pos_valid(i);
                            oldt.lemma_child_pos_agrees(cur, i);
                            assert(seq_vote(cur, p as int, oldt.child_pos(i)) == seq_vote(
                                oldt,
                                p as int,
                                oldt.child_pos(i),
                            )) by {
                                lemma_seq_vote_agrees(oldt, cur, p as int, oldt.child_pos(i));
                            }
                            assert(cur.node(i).evaluation == oldt.node(i).evaluation);
                        }
                    }
                }
            } else {
                proof {
                    let bnd = p as int + 1;
                    assert forall|i: int| 0 <= i < total implies self.nodes@[i]
                        == sequence_pass_node_partial(oldt, i, bnd) by {
                        assert(cur.node(i) == sequence_pass_node_partial(oldt, i, p as int));
                        assert(cur.node(p as int) == sequence_pass_node_partial(
                            oldt,
                            p as int,
                            p as int,
                        ));
                        assert(cur.node(p as int).alive == oldt.node(p as int).alive);
                        assert(cur.node(p as int).sequence == oldt.node(p as int).sequence);
                    }
                }
            }
            p = p + 1;
        }
    }

    /// The randomized-choice pass: every live container holding a
    /// usable distribution chooses one child — the cached choice while
    /// an activation is in flight, a fresh weighted sample otherwise —
    /// and votes `true` on exactly that child, `false` on its live
    /// siblings. Containers with malformed weights are skipped.
    pub fn update_distribution_items(&mut self)
        requires
            old(self).wf(),
        ensures
            final(self).wf(),
            final(self).spec_len() == old(self).spec_len(),
            forall|i: int|
                0 <= i < old(self).spec_len() ==> distribution_post(
                    *old(self),
                    *final(self),
                    i,
                ),
    {
        let ghost oldt = *old(self);
        let total = self.nodes.len();
        let mut p: usize = 0;
        while p < total
            invariant
                oldt == *old(self),
                oldt.wf(),
                oldt.spec_len() == total,
                self.wf(),
                self.nodes@.len() == total,
                0 <= p <= total,
                forall|i: int|
                    0 <= i < total ==> distribution_post_partial(oldt, *self, i, p as int),
            decreases total - p,
        {
            let ghost cur = *self;
            let mut process = false;
            let mut idx: usize = 0;
            if self.nodes[p].alive {
                match &self.nodes[p].weights {
                    Some(w) => {
                        if w.len() == self.nodes[p].children.len() {
                            match crate::facets::check_weights(w) {
                                Some(_) => {
                                    process = true;
                                    idx = if self.nodes[p].state.active {
                                        self.nodes[p].dist_index
                                    } else {
                                        crate::rng::sample_weighted(w)
                                    };
                                },
                                None => {},
                            }
                        }
                    },
                    None => {},
                }
            }
            proof {
                assert(distribution_post_partial(oldt, cur, p as int, p as int));
                assert(cur.node(p as int).alive == oldt.node(p as int).alive);
                assert(cur.node(p as int).weights == oldt.node(p as int).weights);
                assert(cur.node(p as int).children@ == oldt.node(p as int).children@);
                assert(cur.node(p as int).state == oldt.node(p as int).state);
                assert(cur.node(p as int).dist_index == oldt.node(p as int).dist_index);
                assert(process == is_distribution(oldt, p as int));
            }
            if process {
                self.vote_on_children(p, idx, false);
                proof {
                    let bnd = p as int + 1;
                    assert forall|i: int|
                        0 <= i < total implies #[trigger] distribution_post_partial(
                        oldt,
                        *self,
                        i,
                        bnd,
                    ) by {
                        assert(distribution_post_partial(oldt, cur, i, p as int));
                        assert(self.node(i) == cur.choice_post(p as int, idx, false, i));
                        assert(self.node(p as int).dist_index == idx);
                        if oldt.node(i).parent is Some {
                            assert(oldt.wf_at(i));
                            let q = oldt.parent_ix(i);
                            if q == p {
                                if oldt.node(i).alive {
                                    oldt.lemma_child_pos_valid(i);
                                    oldt.lemma_child_pos_agrees(cur, i);
                                }
                            } else {
                                assert(self.node(q) == cur.choice_post(p as int, idx, false, q));
                                assert(self.node(q).dist_index == cur.node(q).dist_index);
                            }
                        }
                        if i != p {
                            assert(self.node(i).dist_index == cur.node(i).dist_index);
                        }
                    }
                }
            } else {
                proof {
                    let bnd = p as int + 1;
                    assert forall|i: int|
                        0 <= i < total implies #[trigger] distribution_post_partial(
                        oldt,
                        *self,
                        i,
                        bnd,
                    ) by {
                        assert(distribution_post_partial(oldt, cur, i, p as int));
                    }
                }
            }
            p = p + 1;
        }
    }

    /// Merge an externally computed vote into one node's slot. This is
    /// how custom predicates and evaluation functions feed the engine:
    /// their outcome for the tick is handed in as a value. Votes for
    /// missing or dead nodes are dropped, so one failing predicate never
    /// touches the rest of the tree.
    pub fn apply_evaluation(&mut self, id: FragmentId, e: Evaluation) -> (r: bool)
        requires
            old(self).wf(),
        ensures
            final(self).wf(),
            final(self).spec_len() == old(self).spec_len(),
            r <==> old(self).live(id.0 as int),
            !r ==> *final(self) == *old(self),
            r ==> final(self).node(id.0 as int) == (Fragment {
                evaluation: merged(old(self).node(id.0 as int).evaluation, e),
                ..old(self).node(id.0 as int)
            }),
            forall|i: int|
                0 <= i < old(self).spec_len() && i != id.0 ==> final(self).node(i) == old(
                    self,
                ).node(i),
    {
        if id.0 < self.nodes.len() && self.nodes[id.0].alive {
            self.nodes[id.0].evaluation.merge(e);
            proof {
                crate::facets::lemma_wf_same_structure(*old(self), *self);
            }
            true
        } else {
            false
        }
    }
}

} // verus!
