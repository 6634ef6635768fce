//! Attaching facets to nodes.
//!
//! A facet tags a node with one combinator behaviour; a node may carry
//! several at once (a leaf may also be rate-limited, for instance).
//! Attaching a facet never changes the tree's structure, so
//! well-formedness is preserved for free.

use crate::tree::{Fragment, FragmentId, FragmentTree, Hooks};
use vstd::prelude::*;

verus! {

/// The total of a weight list, as a mathematical integer.
pub open spec fn sum_weights(w: Seq<u64>) -> int
    decreases w.len(),
{
    if w.len() == 0 {
        0
    } else {
        sum_weights(w.drop_last()) + w.last()
    }
}

/// A weight list a distribution can be built from: non-empty, with at
/// least one positive weight, and with a total that fits the weight type.
/// Anything else is a configuration error and the facet is refused.
pub open spec fn valid_weights(w: Seq<u64>) -> bool {
    &&& w.len() > 0
    &&& exists|i: int| 0 <= i < w.len() && w[i] > 0
    &&& sum_weights(w) <= u64::MAX
}

/// Check a weight list, returning its total when it is valid.
pub fn check_weights(w: &Vec<u64>) -> (r: Option<u64>)
    ensures
        r is Some <==> valid_weights(w@),
        r matches Some(t) ==> t == sum_weights(w@) && t > 0,
{
    if w.len() == 0 {
        return None;
    }
    let mut total: u64 = 0;
    let mut i: usize = 0;
    while i < w.len()
        invariant
            0 <= i <= w@.len(),
            total == sum_weights(w@.take(i as int)),
        decreases w@.len() - i,
    {
        proof {
            assert(w@.take(i + 1 as int).drop_last() =~= w@.take(i as int));
            assert(w@.take(i + 1 as int).last() == w@[i as int]);
        }
        total = match total.checked_add(w[i]) {
            Some(t) => t,
            None => {
                proof {
                    lemma_sum_weights_prefix_bound(w@, i + 1 as int);
                }
                return None;
            },
        };
        i = i + 1;
    }
    proof {
        assert(w@.take(w@.len() as int) =~= w@);
    }
    if total == 0 {
        proof {
            lemma_sum_weights_zero(w@);
        }
        None
    } else {
        proof {
            let j = lemma_sum_weights_positive(w@);
        }
        Some(total)
    }
}

/// Weights are non-negative, so every prefix total is a lower bound of
/// the full total.
proof fn lemma_sum_weights_prefix_bound(w: Seq<u64>, i: int)
    requires
        0 <= i <= w.len(),
    ensures
        sum_weights(w.take(i)) <= sum_weights(w),
    decreases w.len() - i,
{
    if i == w.len() {
        assert(w.take(i) =~= w);
    } else {
        lemma_sum_weights_prefix_bound(w, i + 1);
        assert(w.take(i + 1).drop_last() =~= w.take(i));
    }
}

/// A zero total means every weight is zero.
proof fn lemma_sum_weights_zero(w: Seq<u64>)
    requires
        sum_weights(w) == 0,
    ensures
        forall|i: int| 0 <= i < w.len() ==> w[i] == 0,
    decreases w.len(),
{
    if w.len() > 0 {
        lemma_sum_weights_nonneg(w.drop_last());
        lemma_sum_weights_zero(w.drop_last());
        assert(forall|i: int| 0 <= i < w.len() - 1 ==> w[i] == w.drop_last()[i]);
    }
}

/// A positive total names a positive weight.
proof fn lemma_sum_weights_positive(w: Seq<u64>) -> (j: int)
    requires
        sum_weights(w) > 0,
    ensures
        0 <= j < w.len() && w[j] > 0,
    decreases w.len(),
{
    if w.len() > 0 && w.last() > 0 {
        w.len() - 1
    } else {
        lemma_sum_weights_nonneg(w.drop_last());
        let j = lemma_sum_weights_positive(w.drop_last());
        assert(w[j] == w.drop_last()[j]);
        j
    }
}

/// Totals of non-negative weights are non-negative.
pub proof fn lemma_sum_weights_nonneg(w: Seq<u64>)
    ensures
        sum_weights(w) >= 0,
    decreases w.len(),
{
    if w.len() > 0 {
        lemma_sum_weights_nonneg(w.drop_last());
    }
}

/// A list of `n` unit weights totals `n`.
proof fn lemma_sum_ones(n: nat)
    ensures
        sum_weights(Seq::new(n, |i: int| 1u64)) == n,
    decreases n,
{
    if n > 0 {
        lemma_sum_ones((n - 1) as nat);
        assert(Seq::new(n, |i: int| 1u64).drop_last() =~= Seq::new(
            (n - 1) as nat,
            |i: int| 1u64,
        ));
    }
}

/// Two nodes that agree on everything but the distribution weights.
pub open spec fn same_but_weights<T>(a: Fragment<T>, b: Fragment<T>) -> bool {
    a == Fragment { weights: a.weights, ..b }
}

/// Facet changes leave parent/child structure alone, so they keep the
/// store well-formed.
pub proof fn lemma_wf_same_structure<T>(a: FragmentTree<T>, b: FragmentTree<T>)
    requires
        a.wf(),
        b.nodes@.len() == a.nodes@.len(),
        forall|i: int|
            0 <= i < a.nodes@.len() ==> (#[trigger] b.nodes@[i]).parent == a.nodes@[i].parent
                && b.nodes@[i].children@ == a.nodes@[i].children@,
    ensures
        b.wf(),
{
    assert forall|i: int| 0 <= i < b.nodes@.len() implies #[trigger] b.wf_at(i) by {
        assert(a.wf_at(i));
    }
}

impl<T> FragmentTree<T> {
    /// Whether the handle addresses a live node, as the setters test it.
    pub fn is_live(&self, id: FragmentId) -> (r: bool)
        ensures
            r == self.live(id.0 as int),
    {
        id.0 < self.nodes.len() && self.nodes[id.0].alive
    }

    /// All slots except `i` unchanged, and the store still well-formed
    /// and of the same size.
    pub open spec fn only_node_changed(self, pre: Self, i: int) -> bool {
        &&& self.wf()
        &&& self.spec_len() == pre.spec_len()
        &&& forall|j: int| 0 <= j < pre.spec_len() && j != i ==> self.node(j) == pre.node(j)
    }

    /// Mark a node as a selection root.
    pub fn set_root(&mut self, id: FragmentId) -> (r: bool)
        requires
            old(self).wf(),
        ensures
            final(self).only_node_changed(*old(self), id.0 as int),
            r == old(self).live(id.0 as int),
            r ==> final(self).node(id.0 as int) == (Fragment {
                root: true,
                ..old(self).node(id.0 as int)
            }),
            !r ==> *final(self) == *old(self),
    {
        if id.0 < self.nodes.len() && self.nodes[id.0].alive {
            self.nodes[id.0].root = true;
            proof {
                lemma_wf_same_structure(*old(self), *self);
            }
            true
        } else {
            false
        }
    }

    /// Mark a node as a payload-bearing leaf.
    pub fn set_leaf(&mut self, id: FragmentId, payload: T) -> (r: bool)
        requires
            old(self).wf(),
        ensures
            final(self).only_node_changed(*old(self), id.0 as int),
            r == old(self).live(id.0 as int),
            r ==> final(self).node(id.0 as int) == (Fragment {
                leaf: true,
                payload: Some(payload),
                ..old(self).node(id.0 as int)
            }),
            !r ==> *final(self) == *old(self),
    {
        if id.0 < self.nodes.len() && self.nodes[id.0].alive {
            self.nodes[id.0].leaf = true;
            self.nodes[id.0].payload = Some(payload);
            proof {
                lemma_wf_same_structure(*old(self), *self);
            }
            true
        } else {
            false
        }
    }

    /// Mark a container as an ordered sequence.
    pub fn set_sequence(&mut self, id: FragmentId) -> (r: bool)
        requires
            old(self).wf(),
        ensures
            final(self).only_node_changed(*old(self), id.0 as int),
            r == old(self).live(id.0 as int),
            r ==> final(self).node(id.0 as int) == (Fragment {
                sequence: true,
                ..old(self).node(id.0 as int)
            }),
            !r ==> *final(self) == *old(self),
    {
        if id.0 < self.nodes.len() && self.nodes[id.0].alive {
            self.nodes[id.0].sequence = true;
            proof {
                lemma_wf_same_structure(*old(self), *self);
            }
            true
        } else {
            false
        }
    }

    /// Attach the unconditional-true facet.
    pub fn set_always(&mut self, id: FragmentId) -> (r: bool)
        requires
            old(self).wf(),
        ensures
            final(self).only_node_changed(*old(self), id.0 as int),
            r == old(self).live(id.0 as int),
            r ==> final(self).node(id.0 as int) == (Fragment {
                always: true,
                ..old(self).node(id.0 as int)
            }),
            !r ==> *final(self) == *old(self),
    {
        if id.0 < self.nodes.len() && self.nodes[id.0].alive {
            self.nodes[id.0].always = true;
            proof {
                lemma_wf_same_structure(*old(self), *self);
            }
            true
        } else {
            false
        }
    }

    /// Mark a node as the secondary branch of an `or`.
    pub fn set_or_item(&mut self, id: FragmentId) -> (r: bool)
        requires
            old(self).wf(),
        ensures
            final(self).only_node_changed(*old(self), id.0 as int),
            r == old(self).live(id.0 as int),
            r ==> final(self).node(id.0 as int) == (Fragment {
                or_item: true,
                ..old(self).node(id.0 as int)
            }),
            !r ==> *final(self) == *old(self),
    {
        if id.0 < self.nodes.len() && self.nodes[id.0].alive {
            self.nodes[id.0].or_item = true;
            proof {
                lemma_wf_same_structure(*old(self), *self);
            }
            true
        } else {
            false
        }
    }

    /// Limit the node to `n` completed executions.
    pub fn set_limit(&mut self, id: FragmentId, n: usize) -> (r: bool)
        requires
            old(self).wf(),
        ensures
            final(self).only_node_changed(*old(self), id.0 as int),
            r == old(self).live(id.0 as int),
            r ==> final(self).node(id.0 as int) == (Fragment {
                limit: Some(n),
                ..old(self).node(id.0 as int)
            }),
            !r ==> *final(self) == *old(self),
    {
        if id.0 < self.nodes.len() && self.nodes[id.0].alive {
            self.nodes[id.0].limit = Some(n);
            proof {
                lemma_wf_same_structure(*old(self), *self);
            }
            true
        } else {
            false
        }
    }

    /// Limit the node to one completed execution.
    pub fn set_once(&mut self, id: FragmentId) -> (r: bool)
        requires
            old(self).wf(),
        ensures
            final(self).only_node_changed(*old(self), id.0 as int),
            r == old(self).live(id.0 as int),
            r ==> final(self).node(id.0 as int) == (Fragment {
                limit: Some(1usize),
                ..old(self).node(id.0 as int)
            }),
            !r ==> *final(self) == *old(self),
    {
        self.set_limit(id, 1)
    }

    /// Attach a weighted random choice over the node's children.
    ///
    /// The weight list must be valid and give one weight per child;
    /// otherwise this is a configuration error: the facet is refused and
    /// the node keeps abstaining.
    pub fn set_distribution(&mut self, id: FragmentId, weights: Vec<u64>) -> (r: bool)
        requires
            old(self).wf(),
        ensures
            final(self).only_node_changed(*old(self), id.0 as int),
            r <==> (old(self).live(id.0 as int) && valid_weights(weights@) && weights@.len() == old(
                self,
            ).node(id.0 as int).children@.len()),
            r ==> final(self).node(id.0 as int) == (Fragment {
                weights: Some(weights),
                ..old(self).node(id.0 as int)
            }),
            !r ==> *final(self) == *old(self),
    {
        if id.0 < self.nodes.len() && self.nodes[id.0].alive {
            if weights.len() != self.nodes[id.0].children.len() {
                return false;
            }
            match check_weights(&weights) {
                Some(_) => {
                    self.nodes[id.0].weights = Some(weights);
                    proof {
                        lemma_wf_same_structure(*old(self), *self);
                    }
                    true
                },
                None => false,
            }
        } else {
            false
        }
    }

    /// Attach a uniform random choice over the node's children: a
    /// distribution in which every child weighs the same. Refused on a
    /// childless node, which then keeps abstaining.
    pub fn set_choice(&mut self, id: FragmentId) -> (r: bool)
        requires
            old(self).wf(),
        ensures
            final(self).only_node_changed(*old(self), id.0 as int),
            r <==> (old(self).live(id.0 as int) && old(self).node(id.0 as int).children@.len() > 0),
            r ==> (final(self).node(id.0 as int) matches Fragment { weights: Some(w), .. } && w@
                == Seq::new(old(self).node(id.0 as int).children@.len(), |i: int| 1u64)),
            r ==> same_but_weights(final(self).node(id.0 as int), old(self).node(id.0 as int)),
            !r ==> *final(self) == *old(self),
    {
        if id.0 >= self.nodes.len() || !self.nodes[id.0].alive {
            return false;
        }
        let count = self.nodes[id.0].children.len();
        proof {
            lemma_sum_ones(count as nat);
            if count > 0 {
                assert(Seq::new(count as nat, |k: int| 1u64)[0] == 1u64);
            }
        }
        let mut ones: Vec<u64> = Vec::new();
        let mut i: usize = 0;
        while i < count
            invariant
                0 <= i <= count,
                ones@ =~= Seq::new(i as nat, |k: int| 1u64),
            decreases count - i,
        {
            ones.push(1);
            proof {
                assert(ones@ =~= Seq::new((i + 1) as nat, |k: int| 1u64));
            }
            i = i + 1;
        }
        self.set_distribution(id, ones)
    }

    /// Mark a container as driven by an externally supplied child index.
    pub fn set_select(&mut self, id: FragmentId) -> (r: bool)
        requires
            old(self).wf(),
        ensures
            final(self).only_node_changed(*old(self), id.0 as int),
            r == old(self).live(id.0 as int),
            r ==> final(self).node(id.0 as int) == (Fragment {
                select: true,
                ..old(self).node(id.0 as int)
            }),
            !r ==> *final(self) == *old(self),
    {
        if id.0 < self.nodes.len() && self.nodes[id.0].alive {
            self.nodes[id.0].select = true;
            proof {
                lemma_wf_same_structure(*old(self), *self);
            }
            true
        } else {
            false
        }
    }

    /// Attach a hook that fires while a begin event bubbles up through
    /// this node.
    pub fn insert_begin_up(&mut self, id: FragmentId, tag: u64) -> (r: bool)
        requires
            old(self).wf(),
        ensures
            final(self).only_node_changed(*old(self), id.0 as int),
            r == old(self).live(id.0 as int),
            r ==> final(self).node(id.0 as int) == (Fragment {
                hooks: (Hooks {
                    on_begin_up: final(self).node(id.0 as int).hooks.on_begin_up,
                    ..old(self).node(id.0 as int).hooks
                }),
                ..old(self).node(id.0 as int)
            }),
            r ==> final(self).node(id.0 as int).hooks.on_begin_up@ == old(self).node(
                id.0 as int,
            ).hooks.on_begin_up@.push(tag),
            !r ==> *final(self) == *old(self),
    {
        if id.0 < self.nodes.len() && self.nodes[id.0].alive {
            self.nodes[id.0].hooks.on_begin_up.push(tag);
            proof {
                lemma_wf_same_structure(*old(self), *self);
            }
            true
        } else {
            false
        }
    }

    /// Attach a hook that fires on the downward pass of a begin event.
    pub fn insert_begin_down(&mut self, id: FragmentId, tag: u64) -> (r: bool)
        requires
            old(self).wf(),
        ensures
            final(self).only_node_changed(*old(self), id.0 as int),
            r == old(self).live(id.0 as int),
            r ==> final(self).node(id.0 as int) == (Fragment {
                hooks: (Hooks {
                    on_begin_down: final(self).node(id.0 as int).hooks.on_begin_down,
                    ..old(self).node(id.0 as int).hooks
                }),
                ..old(self).node(id.0 as int)
            }),
            r ==> final(self).node(id.0 as int).hooks.on_begin_down@ == old(self).node(
                id.0 as int,
            ).hooks.on_begin_down@.push(tag),
            !r ==> *final(self) == *old(self),
    {
        if id.0 < self.nodes.len() && self.nodes[id.0].alive {
            self.nodes[id.0].hooks.on_begin_down.push(tag);
            proof {
                lemma_wf_same_structure(*old(self), *self);
            }
            true
        } else {
            false
        }
    }

    /// Attach a hook that fires while an end event bubbles up through
    /// this node.
    pub fn insert_end_up(&mut self, id: FragmentId, tag: u64) -> (r: bool)
        requires
            old(self).wf(),
        ensures
            final(self).only_node_changed(*old(self), id.0 as int),
            r == old(self).live(id.0 as int),
            r ==> final(self).node(id.0 as int) == (Fragment {
                hooks: (Hooks {
                    on_end_up: final(self).node(id.0 as int).hooks.on_end_up,
                    ..old(self).node(id.0 as int).hooks
                }),
                ..old(self).node(id.0 as int)
            }),
            r ==> final(self).node(id.0 as int).hooks.on_end_up@ == old(self).node(
                id.0 as int,
            ).hooks.on_end_up@.push(tag),
            !r ==> *final(self) == *old(self),
    {
        if id.0 < self.nodes.len() && self.nodes[id.0].alive {
            self.nodes[id.0].hooks.on_end_up.push(tag);
            proof {
                lemma_wf_same_structure(*old(self), *self);
            }
            true
        } else {
            false
        }
    }

    /// Attach a hook that fires on the downward pass of an end event.
    pub fn insert_end_down(&mut self, id: FragmentId, tag: u64) -> (r: bool)
        requires
            old(self).wf(),
        ensures
            final(self).only_node_changed(*old(self), id.0 as int),
            r == old(self).live(id.0 as int),
            r ==> final(self).node(id.0 as int) == (Fragment {
                hooks: (Hooks {
                    on_end_down: final(self).node(id.0 as int).hooks.on_end_down,
                    ..old(self).node(id.0 as int).hooks
                }),
                ..old(self).node(id.0 as int)
            }),
            r ==> final(self).node(id.0 as int).hooks.on_end_down@ == old(self).node(
                id.0 as int,
            ).hooks.on_end_down@.push(tag),
            !r ==> *final(self) == *old(self),
    {
        if id.0 < self.nodes.len() && self.nodes[id.0].alive {
            self.nodes[id.0].hooks.on_end_down.push(tag);
            proof {
                lemma_wf_same_structure(*old(self), *self);
            }
            true
        } else {
            false
        }
    }

    /// Attach a hook that fires while an interrupt bubbles up through
    /// this node.
    pub fn insert_interrupt(&mut self, id: FragmentId, tag: u64) -> (r: bool)
        requires
            old(self).wf(),
        ensures
            final(self).only_node_changed(*old(self), id.0 as int),
            r == old(self).live(id.0 as int),
            r ==> final(self).node(id.0 as int) == (Fragment {
                hooks: (Hooks {
                    on_interrupt_up: final(self).node(id.0 as int).hooks.on_interrupt_up,
                    ..old(self).node(id.0 as int).hooks
                }),
                ..old(self).node(id.0 as int)
            }),
            r ==> final(self).node(id.0 as int).hooks.on_interrupt_up@ == old(self).node(
                id.0 as int,
            ).hooks.on_interrupt_up@.push(tag),
            !r ==> *final(self) == *old(self),
    {
        if id.0 < self.nodes.len() && self.nodes[id.0].alive {
            self.nodes[id.0].hooks.on_interrupt_up.push(tag);
            proof {
                lemma_wf_same_structure(*old(self), *self);
            }
            true
        } else {
            false
        }
    }
}

} // verus!
