//! Save and restore of durable per-node state.
//!
//! A subtree's records can be captured into a recursive snapshot and
//! later applied back. Applying tolerates shape drift: a node whose
//! live child count disagrees with the snapshot applies its own record
//! but leaves its children alone (reported, not a fault), so state is
//! restored only as deep as the shapes agree. Capturing and
//! immediately restoring into an identically shaped subtree reproduces
//! the counters exactly.

use crate::state::{state_eq, FragmentState};
use crate::tree::{
    in_subtree, lemma_in_subtree_agrees, lemma_in_subtree_trans, lemma_sibling_subtrees_disjoint,
    same_but_state, Fragment, FragmentId, FragmentTree,
};
use vstd::prelude::*;

verus! {

/// The saved image of one subtree: the node's record, and its
/// children's images in child order.
#[derive(Debug)]
pub struct SavedNode {
    pub state: FragmentState,
    pub children: Vec<SavedNode>,
}

/// A snapshot slot for a subtree that was missing or dead when
/// captured: a default record with no children.
pub open spec fn is_blank_saved(s: SavedNode) -> bool {
    &&& s.state.triggered == 0
    &&& s.state.completed == 0
    &&& s.state.active == false
    &&& s.state.active_events@.len() == 0
    &&& s.children@.len() == 0
}

/// Whether snapshot `s` is a faithful capture of the subtree at `i`:
/// records agree, the child counts agree, live children are captured
/// recursively, and missing or dead children are blank.
pub open spec fn captures<T>(t: FragmentTree<T>, i: int, s: SavedNode) -> bool
    decreases t.spec_len() - i, t.node(i).children@.len() + 1,
{
    if !(0 <= i < t.spec_len()) {
        false
    } else {
        &&& state_eq(s.state, t.node(i).state)
        &&& s.children@.len() == t.node(i).children@.len()
        &&& captures_children(t, i, t.node(i).children@, 0, s.children@)
    }
}

/// The per-child form of [`captures`], from position `k` on.
pub open spec fn captures_children<T>(
    t: FragmentTree<T>,
    i: int,
    cs: Seq<usize>,
    k: int,
    ss: Seq<SavedNode>,
) -> bool
    decreases t.spec_len() - i, cs.len() - k,
{
    if !(0 <= i < t.spec_len()) || k < 0 || k >= cs.len() || ss.len() != cs.len() {
        k >= cs.len() || ss.len() == cs.len()
    } else {
        let c = cs[k] as int;
        &&& (if i < c < t.spec_len() && t.live(c) {
            captures(t, c, ss[k])
        } else {
            is_blank_saved(ss[k])
        })
        &&& captures_children(t, i, cs, k + 1, ss)
    }
}

/// A blank snapshot slot.
fn blank_saved() -> (r: SavedNode)
    ensures
        is_blank_saved(r),
{
    SavedNode { state: FragmentState::default(), children: Vec::new() }
}

impl<T> FragmentTree<T> {
    /// Capture the subtree under a live node into a snapshot.
    fn capture_at(&self, i: usize) -> (r: SavedNode)
        requires
            self.wf(),
            self.live(i as int),
        ensures
            captures(*self, i as int, r),
        decreases self.spec_len() - i,
    {
        let state = self.nodes[i].state.duplicate();
        let n_children = self.nodes[i].children.len();
        let ghost t = *self;
        let ghost cs = self.nodes@[i as int].children@;
        let mut children: Vec<SavedNode> = Vec::new();
        let mut k: usize = 0;
        while k < n_children
            invariant
                t == *self,
                t.wf(),
                t.live(i as int),
                cs == t.node(i as int).children@,
                n_children == cs.len(),
                0 <= k <= n_children,
                children@.len() == k,
                forall|j: int|
                    0 <= j < k ==> {
                        let c = cs[j] as int;
                        if i < c < t.spec_len() && t.live(c) {
                            captures(t, c, #[trigger] children@[j])
                        } else {
                            is_blank_saved(children@[j])
                        }
                    },
            decreases n_children - k,
        {
            proof {
                t.lemma_child_pos_inverse(i as int, k as int);
            }
            let c = self.nodes[i].children[k];
            if self.nodes[c].alive {
                let sub = self.capture_at(c);
                children.push(sub);
            } else {
                children.push(blank_saved());
            }
            k = k + 1;
        }
        let r = SavedNode { state, children };
        proof {
            lemma_captures_children_from_pointwise(t, i as int, cs, r.children@, 0);
        }
        r
    }

    /// Capture the subtree under a node. Missing or dead handles yield
    /// nothing.
    pub fn get_saved_state(&self, id: FragmentId) -> (r: Option<SavedNode>)
        requires
            self.wf(),
        ensures
            r is Some <==> self.live(id.0 as int),
            r matches Some(s) ==> captures(*self, id.0 as int, s),
    {
        if id.0 < self.nodes.len() && self.nodes[id.0].alive {
            Some(self.capture_at(id.0))
        } else {
            None
        }
    }
}

/// Whether a snapshot and a live subtree have the same shape: child
/// counts agree all the way down at live nodes, and missing or dead
/// spots hold blank snapshot slots. Exactly this much must agree for a
/// restore to reproduce the snapshot.
pub open spec fn shape_matches<T>(t: FragmentTree<T>, i: int, s: SavedNode) -> bool
    decreases t.spec_len() - i, t.node(i).children@.len() + 1,
{
    if !(0 <= i < t.spec_len()) || !t.live(i) {
        false
    } else {
        &&& s.children@.len() == t.node(i).children@.len()
        &&& shape_matches_children(t, i, t.node(i).children@, 0, s.children@)
    }
}

/// The per-child form of [`shape_matches`], from position `k` on.
pub open spec fn shape_matches_children<T>(
    t: FragmentTree<T>,
    i: int,
    cs: Seq<usize>,
    k: int,
    ss: Seq<SavedNode>,
) -> bool
    decreases t.spec_len() - i, cs.len() - k,
{
    if !(0 <= i < t.spec_len()) || k < 0 || k >= cs.len() || ss.len() != cs.len() {
        k >= cs.len() || ss.len() == cs.len()
    } else {
        let c = cs[k] as int;
        &&& (if i < c < t.spec_len() && t.live(c) {
            shape_matches(t, c, ss[k])
        } else {
            is_blank_saved(ss[k])
        })
        &&& shape_matches_children(t, i, cs, k + 1, ss)
    }
}

/// A faithful capture of a live subtree matches its shape.
pub proof fn lemma_captures_shape<T>(t: FragmentTree<T>, i: int, s: SavedNode)
    requires
        captures(t, i, s),
        t.live(i),
    ensures
        shape_matches(t, i, s),
    decreases t.spec_len() - i, t.node(i).children@.len() + 1,
{
    lemma_captures_shape_children(t, i, t.node(i).children@, 0, s.children@);
}

/// The per-child form of [`lemma_captures_shape`].
proof fn lemma_captures_shape_children<T>(
    t: FragmentTree<T>,
    i: int,
    cs: Seq<usize>,
    k: int,
    ss: Seq<SavedNode>,
)
    requires
        0 <= i < t.spec_len(),
        captures_children(t, i, cs, k, ss),
    ensures
        shape_matches_children(t, i, cs, k, ss),
    decreases t.spec_len() - i, cs.len() - k,
{
    if !(k < 0 || k >= cs.len() || ss.len() != cs.len()) {
        let c = cs[k] as int;
        if i < c < t.spec_len() && t.live(c) {
            lemma_captures_shape(t, c, ss[k]);
        }
        lemma_captures_shape_children(t, i, cs, k + 1, ss);
    }
}

/// Shape agreement depends only on liveness and the children lists.
pub proof fn lemma_shape_matches_agrees<T>(
    a: FragmentTree<T>,
    b: FragmentTree<T>,
    i: int,
    s: SavedNode,
)
    requires
        b.spec_len() == a.spec_len(),
        forall|m: int|
            0 <= m < a.spec_len() ==> (#[trigger] b.node(m)).children@ == a.node(m).children@
                && b.node(m).alive == a.node(m).alive,
    ensures
        shape_matches(b, i, s) == shape_matches(a, i, s),
    decreases a.spec_len() - i, a.node(i).children@.len() + 1,
{
    if 0 <= i < a.spec_len() && a.live(i) {
        lemma_shape_matches_agrees_children(a, b, i, a.node(i).children@, 0, s.children@);
    }
}

/// The per-child form of [`lemma_shape_matches_agrees`].
proof fn lemma_shape_matches_agrees_children<T>(
    a: FragmentTree<T>,
    b: FragmentTree<T>,
    i: int,
    cs: Seq<usize>,
    k: int,
    ss: Seq<SavedNode>,
)
    requires
        b.spec_len() == a.spec_len(),
        0 <= i < a.spec_len(),
        forall|m: int|
            0 <= m < a.spec_len() ==> (#[trigger] b.node(m)).children@ == a.node(m).children@
                && b.node(m).alive == a.node(m).alive,
    ensures
        shape_matches_children(b, i, cs, k, ss) == shape_matches_children(a, i, cs, k, ss),
    decreases a.spec_len() - i, cs.len() - k,
{
    if !(k < 0 || k >= cs.len() || ss.len() != cs.len()) {
        let c = cs[k] as int;
        if i < c < a.spec_len() && a.live(c) {
            lemma_shape_matches_agrees(a, b, c, ss[k]);
        }
        lemma_shape_matches_agrees_children(a, b, i, cs, k + 1, ss);
    }
}

/// Unrolls shape agreement into one fact per child position.
proof fn lemma_shape_children_pointwise<T>(
    t: FragmentTree<T>,
    i: int,
    cs: Seq<usize>,
    k: int,
    ss: Seq<SavedNode>,
)
    requires
        0 <= i < t.spec_len(),
        ss.len() == cs.len(),
        0 <= k <= cs.len(),
        shape_matches_children(t, i, cs, k, ss),
    ensures
        forall|j: int|
            k <= j < cs.len() ==> {
                let c = (#[trigger] cs[j]) as int;
                if i < c < t.spec_len() && t.live(c) {
                    shape_matches(t, c, ss[j])
                } else {
                    is_blank_saved(ss[j])
                }
            },
    decreases cs.len() - k,
{
    if 0 <= k < cs.len() {
        lemma_shape_children_pointwise(t, i, cs, k + 1, ss);
    }
}

/// A capture reads only its own subtree, so it survives any change
/// outside that subtree (in a well-formed store whose structure is
/// unchanged).
proof fn lemma_captures_stable<T>(
    a: FragmentTree<T>,
    b: FragmentTree<T>,
    i: int,
    s: SavedNode,
)
    requires
        a.wf(),
        captures(a, i, s),
        b.spec_len() == a.spec_len(),
        forall|m: int|
            0 <= m < a.spec_len() ==> (#[trigger] b.node(m)).parent == a.node(m).parent && b.node(
                m,
            ).alive == a.node(m).alive && b.node(m).children@ == a.node(m).children@,
        forall|m: int|
            0 <= m < a.spec_len() && in_subtree(a, i, m) ==> #[trigger] b.node(m) == a.node(m),
    ensures
        captures(b, i, s),
    decreases a.spec_len() - i, a.node(i).children@.len() + 1,
{
    assert(in_subtree(a, i, i));
    assert(b.node(i) == a.node(i));
    lemma_captures_stable_children(a, b, i, a.node(i).children@, 0, s.children@);
}

/// The per-child form of [`lemma_captures_stable`].
proof fn lemma_captures_stable_children<T>(
    a: FragmentTree<T>,
    b: FragmentTree<T>,
    i: int,
    cs: Seq<usize>,
    k: int,
    ss: Seq<SavedNode>,
)
    requires
        a.wf(),
        0 <= i < a.spec_len(),
        cs == a.node(i).children@,
        in_subtree(a, i, i),
        captures_children(a, i, cs, k, ss),
        b.spec_len() == a.spec_len(),
        forall|m: int|
            0 <= m < a.spec_len() ==> (#[trigger] b.node(m)).parent == a.node(m).parent && b.node(
                m,
            ).alive == a.node(m).alive && b.node(m).children@ == a.node(m).children@,
        forall|m: int|
            0 <= m < a.spec_len() && in_subtree(a, i, m) ==> #[trigger] b.node(m) == a.node(m),
    ensures
        captures_children(b, i, cs, k, ss),
    decreases a.spec_len() - i, cs.len() - k,
{
    if !(k < 0 || k >= cs.len() || ss.len() != cs.len()) {
        let c = cs[k] as int;
        if i < c < a.spec_len() && a.live(c) {
            a.lemma_child_pos_inverse(i, k);
            assert(a.node(c).parent == Some(i as usize));
            assert(in_subtree(a, i, c));
            assert forall|m: int|
                0 <= m < a.spec_len() && in_subtree(a, c, m) implies #[trigger] b.node(m)
                == a.node(m) by {
                lemma_in_subtree_trans(a, i, c, m);
            }
            lemma_captures_stable(a, b, c, ss[k]);
            assert(b.node(c) == a.node(c));
        }
        lemma_captures_stable_children(a, b, i, cs, k + 1, ss);
    }
}

impl<T> FragmentTree<T> {
    /// Restore a snapshot into the subtree under `i`. Every reached
    /// node takes the saved record; where the live child count and the
    /// snapshot disagree, that node's own record is still applied but
    /// its children are left alone, and the drift is counted rather
    /// than faulted. Restoring a snapshot into an identically shaped
    /// subtree makes the subtree capture the snapshot again.
    #[verifier::rlimit(60)]
    pub fn apply_saved_state(&mut self, id: FragmentId, s: &SavedNode) -> (mismatches: usize)
        requires
            old(self).wf(),
        ensures
            final(self).wf(),
            final(self).spec_len() == old(self).spec_len(),
            forall|j: int|
                0 <= j < old(self).spec_len() ==> same_but_state(
                    #[trigger] final(self).node(j),
                    old(self).node(j),
                ),
            forall|j: int|
                0 <= j < old(self).spec_len() && !in_subtree(*old(self), id.0 as int, j)
                    ==> #[trigger] final(self).node(j) == old(self).node(j),
            shape_matches(*old(self), id.0 as int, *s) ==> mismatches == 0 && captures(
                *final(self),
                id.0 as int,
                *s,
            ),
            old(self).live(id.0 as int) ==> state_eq(final(self).node(id.0 as int).state, s.state),
            (old(self).live(id.0 as int) && s.children@.len() != old(self).node(
                id.0 as int,
            ).children@.len()) ==> mismatches > 0 && (forall|j: int|
                0 <= j < old(self).spec_len() && j != id.0 ==> #[trigger] final(self).node(j)
                    == old(self).node(j)),
            !old(self).live(id.0 as int) ==> *final(self) == *old(self) && mismatches == 0,
        decreases old(self).spec_len() - id.0,
    {
        let ghost orig = *old(self);
        let i = id.0;
        if i >= self.nodes.len() || !self.nodes[i].alive {
            return 0;
        }
        let dup = s.state.duplicate();
        self.nodes[i].state = dup;
        proof {
            crate::facets::lemma_wf_same_structure(orig, *self);
        }
        let n_children = self.nodes[i].children.len();
        if s.children.len() != n_children {
            proof {
                assert forall|j: int|
                    0 <= j < orig.spec_len() && !in_subtree(orig, i as int, j)
                        implies #[trigger] self.node(j) == orig.node(j) by {
                    assert(in_subtree(orig, i as int, i as int));
                }
            }
            return 1;
        }
        let ghost cs = self.nodes@[i as int].children@;
        let ghost ss = s.children@;
        let ghost t1 = *self;
        let mut total: usize = 0;
        let mut k: usize = 0;
        while k < n_children
            invariant
                orig == *old(self),
                orig.wf(),
                self.wf(),
                self.nodes@.len() == orig.spec_len(),
                i == id.0,
                i < orig.spec_len(),
                orig.node(i as int).alive,
                cs == orig.node(i as int).children@,
                ss == s.children@,
                n_children == cs.len(),
                ss.len() == cs.len(),
                0 <= k <= n_children,
                state_eq(self.node(i as int).state, s.state),
                forall|j: int|
                    0 <= j < orig.spec_len() ==> same_but_state(
                        #[trigger] self.node(j),
                        orig.node(j),
                    ),
                forall|j: int|
                    0 <= j < orig.spec_len() && !in_subtree(orig, i as int, j)
                        ==> #[trigger] self.node(j) == orig.node(j),
                shape_matches(orig, i as int, *s) ==> total == 0 && (forall|j: int|
                    0 <= j < k ==> {
                        let c = (#[trigger] cs[j]) as int;
                        if orig.live(c) {
                            captures(*self, c, ss[j])
                        } else {
                            true
                        }
                    }),
            decreases n_children - k,
        {
            proof {
                orig.lemma_child_pos_inverse(i as int, k as int);
            }
            let c = self.nodes[i].children[k];
            let ghost cur = *self;
            let sub = self.apply_saved_state(FragmentId(c), &s.children[k]);
            total = total.saturating_add(sub);
            proof {
                assert(in_subtree(orig, i as int, c as int));
                assert forall|j: int|
                    0 <= j < orig.spec_len() && !in_subtree(orig, i as int, j)
                        implies #[trigger] self.node(j) == orig.node(j) by {
                    lemma_in_subtree_agrees(orig, cur, c as int, j);
                    if in_subtree(orig, c as int, j) {
                        lemma_in_subtree_trans(orig, i as int, c as int, j);
                    }
                }
                if shape_matches(orig, i as int, *s) {
                    lemma_shape_matches_agrees(orig, cur, i as int, *s);
                    lemma_shape_children_pointwise(orig, i as int, cs, 0, ss);
                    if orig.live(c as int) {
                        assert(shape_matches(orig, c as int, ss[k as int]));
                        lemma_shape_matches_agrees(orig, cur, c as int, ss[k as int]);
                        assert(captures(*self, c as int, ss[k as int]));
                    } else {
                        assert(cur.node(c as int).alive == orig.node(c as int).alive);
                        assert(*self == cur);
                    }
                    assert forall|j: int| 0 <= j < k + 1 implies {
                        let cj = (#[trigger] cs[j]) as int;
                        if orig.live(cj) {
                            captures(*self, cj, ss[j])
                        } else {
                            true
                        }
                    } by {
                        if j < k && orig.live(cs[j] as int) {
                            let cj = cs[j] as int;
                            orig.lemma_child_pos_inverse(i as int, j);
                            assert(captures(cur, cj, ss[j]));
                            assert forall|m: int|
                                0 <= m < cur.spec_len() && in_subtree(cur, cj, m)
                                    implies #[trigger] self.node(m) == cur.node(m) by {
                                lemma_in_subtree_agrees(cur, orig, cj, m);
                                lemma_in_subtree_agrees(orig, cur, c as int, m);
                                if in_subtree(cur, c as int, m) {
                                    lemma_sibling_subtrees_disjoint(
                                        orig,
                                        i as int,
                                        cj,
                                        c as int,
                                        m,
                                    );
                                }
                            }
                            lemma_captures_stable(cur, *self, cj, ss[j]);
                        }
                    }
                }
            }
            k = k + 1;
        }
        proof {
            if shape_matches(orig, i as int, *s) {
                lemma_shape_children_pointwise(orig, i as int, cs, 0, ss);
                assert forall|j: int| 0 <= j < cs.len() implies {
                    let c = (#[trigger] cs[j]) as int;
                    if i < c < self.spec_len() && self.live(c) {
                        captures(*self, c, ss[j])
                    } else {
                        is_blank_saved(ss[j])
                    }
                } by {
                    orig.lemma_child_pos_inverse(i as int, j);
                    let c = cs[j] as int;
                    assert(self.node(c).alive == orig.node(c).alive);
                }
                lemma_captures_children_from_pointwise(*self, i as int, cs, ss, 0);
                assert(self.node(i as int).children@ == cs);
                assert(captures(*self, i as int, *s));
            }
        }
        total
    }
}

/// The round-trip law: when one snapshot captures two subtrees — as
/// after saving a subtree and restoring the snapshot into an
/// identically shaped one — the corresponding roots carry identical
/// counters; and since [`captures`] recurses, the same holds at every
/// corresponding pair of live children all the way down.
pub proof fn lemma_round_trip_counters<T>(
    t1: FragmentTree<T>,
    i1: int,
    t2: FragmentTree<T>,
    i2: int,
    s: SavedNode,
)
    requires
        captures(t1, i1, s),
        captures(t2, i2, s),
    ensures
        t2.node(i2).state.triggered == t1.node(i1).state.triggered,
        t2.node(i2).state.completed == t1.node(i1).state.completed,
        t2.node(i2).children@.len() == t1.node(i1).children@.len(),
{
}

/// Pointwise captured children make the recursive relation.
proof fn lemma_captures_children_from_pointwise<T>(
    t: FragmentTree<T>,
    i: int,
    cs: Seq<usize>,
    ss: Seq<SavedNode>,
    k: int,
)
    requires
        0 <= i < t.spec_len(),
        cs == t.node(i).children@,
        ss.len() == cs.len(),
        0 <= k <= cs.len(),
        forall|j: int|
            0 <= j < cs.len() ==> {
                let c = cs[j] as int;
                if i < c < t.spec_len() && t.live(c) {
                    captures(t, c, #[trigger] ss[j])
                } else {
                    is_blank_saved(ss[j])
                }
            },
    ensures
        captures_children(t, i, cs, k, ss),
    decreases cs.len() - k,
{
    if k < cs.len() {
        lemma_captures_children_from_pointwise(t, i, cs, ss, k + 1);
    }
}

} // verus!
