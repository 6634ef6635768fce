//! The node store: an arena of fragments.
//!
//! Nodes are held in one vector and addressed by index. A node is created
//! under an existing parent (or as a root candidate) and is never
//! reparented, so a parent always has a smaller index than each of its
//! children; this ordering is the well-formedness invariant that makes
//! every tree walk terminate. Destroyed nodes stay in place, marked dead,
//! so indices remain stable.

use crate::evaluate::{abstain, Evaluation};
use crate::state::FragmentState;
use vstd::prelude::*;

verus! {

/// A stable handle to a fragment node for its lifetime.
#[derive(Debug, Clone, Copy, PartialEq, Eq, Hash, Structural)]
pub struct FragmentId(pub usize);

impl FragmentId {
    pub fn new(index: usize) -> (r: Self)
        ensures
            r.0 == index,
    {
        FragmentId(index)
    }

    pub fn index(&self) -> (r: usize)
        ensures
            r == self.0,
    {
        self.0
    }
}

/// The hook tags attached to one node, by stage and direction.
///
/// A tag is an opaque token chosen by the caller; the event propagation
/// passes report, in order, which tags must fire. "Up" hooks run from the
/// leaf towards the root, "down" hooks from the root back towards the leaf.
#[derive(Debug, Clone, PartialEq, Eq)]
pub struct Hooks {
    pub on_begin_up: Vec<u64>,
    pub on_begin_down: Vec<u64>,
    pub on_end_up: Vec<u64>,
    pub on_end_down: Vec<u64>,
    pub on_interrupt_up: Vec<u64>,
}

impl Hooks {
    pub fn empty() -> (r: Self)
        ensures
            r.on_begin_up@ == Seq::<u64>::empty(),
            r.on_begin_down@ == Seq::<u64>::empty(),
            r.on_end_up@ == Seq::<u64>::empty(),
            r.on_end_down@ == Seq::<u64>::empty(),
            r.on_interrupt_up@ == Seq::<u64>::empty(),
    {
        Hooks {
            on_begin_up: Vec::new(),
            on_begin_down: Vec::new(),
            on_end_up: Vec::new(),
            on_end_down: Vec::new(),
            on_interrupt_up: Vec::new(),
        }
    }
}

/// One node of the sequencing tree: its place in the tree, the facets
/// attached to it, its per-tick evaluation slot, and its durable state.
pub struct Fragment<T> {
    /// Index of the parent node, if any.
    pub parent: Option<usize>,
    /// Indices of the children, in order; each is larger than this node's
    /// own index.
    pub children: Vec<usize>,
    /// Cleared when the external owner destroys the node; event
    /// propagation and selection stop gracefully at dead nodes.
    pub alive: bool,
    /// Root facet: selection starts here, and upward propagation stops here.
    pub root: bool,
    /// Leaf facet: the node is a unit of emission and never descends further.
    pub leaf: bool,
    /// The payload a leaf emits.
    pub payload: Option<T>,
    /// Sequence facet: children run strictly in order, and begin/end
    /// events are downgraded to visits unless they come from the first
    /// (resp. last) child.
    pub sequence: bool,
    /// Always facet: one unconditional `true` vote per tick.
    pub always: bool,
    /// Or facet on a secondary branch: during selection its vote is forced
    /// to the negation of the first sibling group's resolved vote.
    pub or_item: bool,
    /// Limit facet: a `false` vote once `completed` reaches the bound.
    pub limit: Option<usize>,
    /// Distribution facet: integer weights for the randomized choice of
    /// one child.
    pub weights: Option<Vec<u64>>,
    /// Select facet: one child is chosen by an externally supplied index.
    pub select: bool,
    /// The chosen child of a Select facet, cached while an activation
    /// is in flight so the injected choice stays stable.
    pub select_index: usize,
    /// The chosen child of a Distribution facet, cached while an
    /// activation is in flight so the sampled choice stays stable.
    pub dist_index: usize,
    /// This tick's merged vote.
    pub evaluation: Evaluation,
    /// The durable execution record.
    pub state: FragmentState,
    /// Hook tags to report during event propagation.
    pub hooks: Hooks,
}

/// Two nodes that agree on everything but the children list.
pub open spec fn same_but_children<T>(a: Fragment<T>, b: Fragment<T>) -> bool {
    a == Fragment { children: a.children, ..b }
}

/// Two nodes that agree on everything but the durable state.
pub open spec fn same_but_state<T>(a: Fragment<T>, b: Fragment<T>) -> bool {
    a == Fragment { state: a.state, ..b }
}

/// An addressable store of fragment nodes.
pub struct FragmentTree<T> {
    pub nodes: Vec<Fragment<T>>,
}

impl<T> FragmentTree<T> {
    /// The number of node slots, dead ones included.
    pub open spec fn spec_len(self) -> nat {
        self.nodes@.len()
    }

    /// Whether `i` addresses a node slot.
    pub open spec fn in_range(self, i: int) -> bool {
        0 <= i < self.nodes@.len()
    }

    /// The node in slot `i`.
    pub open spec fn node(self, i: int) -> Fragment<T> {
        self.nodes@[i]
    }

    /// Whether `i` addresses a live node.
    pub open spec fn live(self, i: int) -> bool {
        self.in_range(i) && self.nodes@[i].alive
    }

    /// Structural well-formedness of slot `i`: the parent stands before
    /// its children, both directions of the link agree, and the children
    /// are listed in strictly increasing index order.
    pub open spec fn wf_at(self, i: int) -> bool {
        let n = self.nodes@[i];
        &&& (n.parent matches Some(p) ==> p < i && self.nodes@[p as int].children@.contains(
            i as usize,
        ))
        &&& (forall|k: int|
            0 <= k < n.children@.len() ==> i < #[trigger] n.children@[k] < self.nodes@.len())
        &&& (forall|k: int|
            0 <= k < n.children@.len() ==> self.nodes@[#[trigger] n.children@[k] as int].parent
                == Some(i as usize))
        &&& (forall|k1: int, k2: int|
            0 <= k1 < k2 < n.children@.len() ==> n.children@[k1] < n.children@[k2])
    }

    /// Structural well-formedness of the whole store. Establishes that
    /// parent/child edges form a forest with parents at smaller indices,
    /// so walks terminate in either direction.
    pub open spec fn wf(self) -> bool {
        forall|i: int| 0 <= i < self.nodes@.len() ==> #[trigger] self.wf_at(i)
    }

    /// The parent index of node `i` (meaningful only when it has one).
    pub open spec fn parent_ix(self, i: int) -> int {
        self.node(i).parent->0 as int
    }

    /// The position of node `i` in its parent's children list
    /// (meaningful only when it has a parent and the store is
    /// well-formed).
    pub open spec fn child_pos(self, i: int) -> int {
        choose|k: int|
            0 <= k < self.node(self.parent_ix(i)).children@.len() && self.node(
                self.parent_ix(i),
            ).children@[k] == i as usize
    }

    /// In a well-formed store, `child_pos` inverts child lookup: the
    /// `k`-th child of `p` is a node whose parent is `p` and whose
    /// position is `k`.
    pub proof fn lemma_child_pos_inverse(self, p: int, k: int)
        requires
            self.wf(),
            self.in_range(p),
            0 <= k < self.node(p).children@.len(),
        ensures
            ({
                let c = self.node(p).children@[k] as int;
                &&& self.in_range(c)
                &&& p < c
                &&& self.node(c).parent == Some(p as usize)
                &&& self.parent_ix(c) == p
                &&& self.child_pos(c) == k
            }),
    {
        assert(self.wf_at(p));
        let cs = self.node(p).children@;
        let c = cs[k] as int;
        assert(self.node(c).parent == Some(p as usize));
        assert(exists|j: int| 0 <= j < cs.len() && cs[j] == c as usize) by {
            assert(cs[k] == c as usize);
        }
        let k2 = self.child_pos(c);
        assert(0 <= k2 < cs.len() && cs[k2] == c as usize);
        if k2 < k {
            assert(cs[k2] < cs[k]);
        } else if k < k2 {
            assert(cs[k] < cs[k2]);
        }
    }

    /// In a well-formed store, a node with a parent really stands in
    /// that parent's children list, at position `child_pos`.
    pub proof fn lemma_child_pos_valid(self, i: int)
        requires
            self.wf(),
            self.in_range(i),
            self.node(i).parent is Some,
        ensures
            ({
                let p = self.parent_ix(i);
                let k = self.child_pos(i);
                &&& self.in_range(p)
                &&& p < i
                &&& 0 <= k < self.node(p).children@.len()
                &&& self.node(p).children@[k] == i as usize
            }),
    {
        assert(self.wf_at(i));
        let p = self.parent_ix(i);
        let cs = self.node(p).children@;
        assert(cs.contains(i as usize));
        assert(exists|k: int| 0 <= k < cs.len() && cs[k] == i as usize) by {
            let j = choose|j: int| 0 <= j < cs.len() && cs[j] == i as usize;
            assert(0 <= j < cs.len() && cs[j] == i as usize);
        }
    }

    /// `child_pos` depends only on the parent link and the parent's
    /// children list, so trees that agree there agree on the position.
    pub proof fn lemma_child_pos_agrees(self, other: Self, i: int)
        requires
            self.wf(),
            self.in_range(i),
            self.node(i).parent is Some,
            other.in_range(i),
            other.node(i).parent == self.node(i).parent,
            other.node(self.parent_ix(i)).children@ == self.node(self.parent_ix(i)).children@,
        ensures
            other.child_pos(i) == self.child_pos(i),
    {
        self.lemma_child_pos_valid(i);
        let p = self.parent_ix(i);
        let cs = self.node(p).children@;
        let ja = self.child_pos(i);
        assert(other.parent_ix(i) == p);
        assert(exists|k: int|
            0 <= k < other.node(p).children@.len() && other.node(p).children@[k]
                == i as usize) by {
            assert(other.node(p).children@[ja] == i as usize);
        }
        let jb = other.child_pos(i);
        assert(0 <= jb < cs.len() && cs[jb] == i as usize);
        assert(self.wf_at(p));
        if ja < jb {
            assert(cs[ja] < cs[jb]);
        } else if jb < ja {
            assert(cs[jb] < cs[ja]);
        }
    }

    /// An empty store.
    pub fn new() -> (r: Self)
        ensures
            r.nodes@.len() == 0,
            r.wf(),
    {
        FragmentTree { nodes: Vec::new() }
    }

    pub fn len(&self) -> (r: usize)
        ensures
            r == self.spec_len(),
    {
        self.nodes.len()
    }

    /// Create a node, as the last child of `parent` or as a parentless
    /// node. Fails (with the store unchanged) when the parent is missing
    /// or dead. The new node starts bare: facets are attached afterwards.
    pub fn create(&mut self, parent: Option<FragmentId>) -> (r: Option<FragmentId>)
        requires
            old(self).wf(),
        ensures
            final(self).wf(),
            match r {
                Some(id) => {
                    &&& id.0 == old(self).spec_len()
                    &&& final(self).spec_len() == old(self).spec_len() + 1
                    &&& is_blank_node(final(self).node(id.0 as int), parent)
                    &&& (match parent {
                        Some(p) => {
                            &&& old(self).live(p.0 as int)
                            &&& final(self).node(p.0 as int).children@ == old(self).node(
                                p.0 as int,
                            ).children@.push(id.0)
                            &&& same_but_children(
                                final(self).node(p.0 as int),
                                old(self).node(p.0 as int),
                            )
                            &&& forall|i: int|
                                0 <= i < old(self).spec_len() && i != p.0 ==> final(self).node(i)
                                    == old(self).node(i)
                        },
                        None => forall|i: int|
                            0 <= i < old(self).spec_len() ==> final(self).node(i) == old(
                                self,
                            ).node(i),
                    })
                },
                None => {
                    &&& *final(self) == *old(self)
                    &&& (parent matches Some(p) && !old(self).live(p.0 as int))
                },
            },
    {
        let id = self.nodes.len();
        match parent {
            Some(p) => {
                if p.0 >= self.nodes.len() || !self.nodes[p.0].alive {
                    return None;
                }
                self.nodes[p.0].children.push(id);
                self.nodes.push(blank_fragment(Some(p.0)));
                proof {
                    let newt = *self;
                    let oldt = *old(self);
                    assert forall|i: int| 0 <= i < newt.nodes@.len() implies #[trigger] newt.wf_at(
                        i,
                    ) by {
                        if i < oldt.nodes@.len() {
                            assert(oldt.wf_at(i));
                            let n = newt.nodes@[i];
                            match n.parent {
                                Some(q) => {
                                    if q == p.0 {
                                        assert(oldt.nodes@[q as int].children@.contains(
                                            i as usize,
                                        ));
                                        let k = choose|k: int|
                                            0 <= k < oldt.nodes@[q as int].children@.len()
                                                && oldt.nodes@[q as int].children@[k] == i as usize;
                                        assert(newt.nodes@[q as int].children@[k] == i as usize);
                                    }
                                },
                                None => {},
                            }
                        } else {
                            assert(i == id);
                            let k = newt.nodes@[p.0 as int].children@.len() - 1;
                            assert(newt.nodes@[p.0 as int].children@[k] == id);
                        }
                    }
                }
                Some(FragmentId(id))
            },
            None => {
                self.nodes.push(blank_fragment(None));
                proof {
                    let newt = *self;
                    let oldt = *old(self);
                    assert forall|i: int| 0 <= i < newt.nodes@.len() implies #[trigger] newt.wf_at(
                        i,
                    ) by {
                        if i < oldt.nodes@.len() {
                            assert(oldt.wf_at(i));
                        }
                    }
                }
                Some(FragmentId(id))
            },
        }
    }

    /// The parent handle of a live node, if it has one.
    pub fn parent_of(&self, id: FragmentId) -> (r: Option<FragmentId>)
        ensures
            match r {
                Some(p) => self.live(id.0 as int) && self.node(id.0 as int).parent == Some(p.0),
                None => !self.live(id.0 as int) || self.node(id.0 as int).parent is None,
            },
    {
        if id.0 < self.nodes.len() && self.nodes[id.0].alive {
            match self.nodes[id.0].parent {
                Some(p) => Some(FragmentId(p)),
                None => None,
            }
        } else {
            None
        }
    }

    /// The ordered child handles of a live node; a missing or dead
    /// handle has none.
    pub fn children_of(&self, id: FragmentId) -> (r: Vec<FragmentId>)
        ensures
            !self.live(id.0 as int) ==> r@.len() == 0,
            self.live(id.0 as int) ==> r@.len() == self.node(id.0 as int).children@.len(),
            self.live(id.0 as int) ==> forall|k: int|
                0 <= k < r@.len() ==> (#[trigger] r@[k]).0 == self.node(
                    id.0 as int,
                ).children@[k],
    {
        let mut out: Vec<FragmentId> = Vec::new();
        if id.0 < self.nodes.len() && self.nodes[id.0].alive {
            let n = self.nodes[id.0].children.len();
            let mut k: usize = 0;
            while k < n
                invariant
                    id.0 < self.nodes@.len(),
                    n == self.node(id.0 as int).children@.len(),
                    0 <= k <= n,
                    out@.len() == k,
                    forall|j: int|
                        0 <= j < k ==> (#[trigger] out@[j]).0 == self.node(
                            id.0 as int,
                        ).children@[j],
                decreases n - k,
            {
                out.push(FragmentId(self.nodes[id.0].children[k]));
                k = k + 1;
            }
        }
        out
    }

    /// The payload a leaf would emit, if the node is live and carries
    /// one.
    pub fn payload_of(&self, id: FragmentId) -> (r: Option<&T>)
        ensures
            match r {
                Some(p) => self.live(id.0 as int) && self.node(id.0 as int).payload == Some(*p),
                None => !self.live(id.0 as int) || self.node(id.0 as int).payload is None,
            },
    {
        if id.0 < self.nodes.len() && self.nodes[id.0].alive {
            self.nodes[id.0].payload.as_ref()
        } else {
            None
        }
    }

    /// Mark a node dead: the external owner has discarded it. In-flight
    /// activations through it are henceforth treated as missed, never a
    /// fault. Unknown handles are tolerated no-ops.
    pub fn destroy(&mut self, id: FragmentId)
        requires
            old(self).wf(),
        ensures
            final(self).wf(),
            final(self).spec_len() == old(self).spec_len(),
            old(self).in_range(id.0 as int) ==> final(self).node(id.0 as int) == (Fragment {
                alive: false,
                ..old(self).node(id.0 as int)
            }),
            forall|i: int|
                0 <= i < old(self).spec_len() && i != id.0 ==> final(self).node(i) == old(
                    self,
                ).node(i),
    {
        if id.0 < self.nodes.len() {
            self.nodes[id.0].alive = false;
            proof {
                assert forall|i: int| 0 <= i < self.nodes@.len() implies #[trigger] self.wf_at(
                    i,
                ) by {
                    assert(old(self).wf_at(i));
                }
            }
        }
    }
}

/// What a freshly created node looks like: bare of facets, abstaining,
/// never triggered.
pub open spec fn is_blank_node<T>(n: Fragment<T>, parent: Option<FragmentId>) -> bool {
    &&& n.parent == (match parent {
        Some(p) => Some(p.0),
        None => None::<usize>,
    })
    &&& n.children@ == Seq::<usize>::empty()
    &&& n.alive
    &&& !n.root
    &&& !n.leaf
    &&& n.payload is None
    &&& !n.sequence
    &&& !n.always
    &&& !n.or_item
    &&& n.limit is None
    &&& n.weights is None
    &&& !n.select
    &&& n.select_index == 0
    &&& n.dist_index == 0
    &&& n.evaluation == abstain()
    &&& n.state.triggered == 0
    &&& n.state.completed == 0
    &&& n.state.active == false
    &&& n.state.active_events@ == Seq::<crate::state::EventId>::empty()
    &&& n.hooks.on_begin_up@ == Seq::<u64>::empty()
    &&& n.hooks.on_begin_down@ == Seq::<u64>::empty()
    &&& n.hooks.on_end_up@ == Seq::<u64>::empty()
    &&& n.hooks.on_end_down@ == Seq::<u64>::empty()
    &&& n.hooks.on_interrupt_up@ == Seq::<u64>::empty()
}

/// Whether node `j` lies in the subtree rooted at `r`: it is `r`
/// itself, or its parent chain reaches `r`.
pub open spec fn in_subtree<T>(t: FragmentTree<T>, r: int, j: int) -> bool
    decreases j,
{
    if j == r {
        true
    } else if j < r || j < 0 {
        false
    } else {
        match t.node(j).parent {
            Some(p) => 0 <= p < j && in_subtree(t, r, p as int),
            None => false,
        }
    }
}

/// Subtree membership depends only on the parent links.
pub proof fn lemma_in_subtree_agrees<T>(a: FragmentTree<T>, b: FragmentTree<T>, r: int, j: int)
    requires
        forall|m: int| 0 <= m < a.spec_len() ==> (#[trigger] b.node(m)).parent == a.node(m).parent,
        b.spec_len() == a.spec_len(),
        j < a.spec_len(),
    ensures
        in_subtree(b, r, j) == in_subtree(a, r, j),
    decreases j,
{
    if j != r && j >= r && j >= 0 {
        match a.node(j).parent {
            Some(p) => {
                if 0 <= p < j {
                    lemma_in_subtree_agrees(a, b, r, p as int);
                }
            },
            None => {},
        }
    }
}

/// Subtree membership is transitive along nesting.
pub proof fn lemma_in_subtree_trans<T>(t: FragmentTree<T>, r: int, m: int, j: int)
    requires
        in_subtree(t, m, j),
        in_subtree(t, r, m),
        r <= m,
    ensures
        in_subtree(t, r, j),
    decreases j,
{
    if j != m {
        match t.node(j).parent {
            Some(p) => {
                if 0 <= p < j {
                    lemma_in_subtree_trans(t, r, m, p as int);
                }
            },
            None => {},
        }
    }
}

/// The subtrees of two distinct children of one node are disjoint.
pub proof fn lemma_sibling_subtrees_disjoint<T>(
    t: FragmentTree<T>,
    i: int,
    c1: int,
    c2: int,
    j: int,
)
    requires
        t.wf(),
        t.in_range(i),
        t.node(c1).parent == Some(i as usize),
        t.node(c2).parent == Some(i as usize),
        t.in_range(c1),
        t.in_range(c2),
        i < c1,
        i < c2,
        c1 != c2,
    ensures
        !(in_subtree(t, c1, j) && in_subtree(t, c2, j)),
    decreases j,
{
    reveal_with_fuel(in_subtree, 3);
    if in_subtree(t, c1, j) && in_subtree(t, c2, j) {
        if j == c1 {
            if c2 < c1 {
                assert(in_subtree(t, c2, c1) == (0 <= i < c1 && in_subtree(t, c2, i)));
                assert(!in_subtree(t, c2, i));
            } else {
                assert(!in_subtree(t, c2, c1));
            }
        } else if j == c2 {
            if c1 < c2 {
                assert(in_subtree(t, c1, c2) == (0 <= i < c2 && in_subtree(t, c1, i)));
                assert(!in_subtree(t, c1, i));
            } else {
                assert(!in_subtree(t, c1, c2));
            }
        } else {
            match t.node(j).parent {
                Some(p) => {
                    if 0 <= p < j {
                        lemma_sibling_subtrees_disjoint(t, i, c1, c2, p as int);
                    }
                },
                None => {},
            }
        }
    }
}

/// A store's slot count fits the index type: the nodes stand in one
/// vector.
pub proof fn lemma_len_fits<T>(t: FragmentTree<T>)
    ensures
        t.nodes@.len() <= usize::MAX,
{
    broadcast use vstd::std_specs::vec::axiom_spec_len;

    assert(vstd::std_specs::vec::spec_vec_len(&t.nodes) == t.nodes@.len());
}

/// A bare node under the given parent index.
fn blank_fragment<T>(parent: Option<usize>) -> (r: Fragment<T>)
    ensures
        is_blank_node(
            r,
            (match parent {
                Some(p) => Some(FragmentId(p)),
                None => None,
            }),
        ),
        r.parent == parent,
{
    Fragment {
        parent,
        children: Vec::new(),
        alive: true,
        root: false,
        leaf: false,
        payload: None,
        sequence: false,
        always: false,
        or_item: false,
        limit: None,
        weights: None,
        select: false,
        select_index: 0,
        dist_index: 0,
        evaluation: Evaluation { result: None, count: 0 },
        state: FragmentState {
            triggered: 0,
            completed: 0,
            active: false,
            active_events: crate::state::ActiveEvents::empty(),
        },
        hooks: Hooks::empty(),
    }
}

} // verus!
