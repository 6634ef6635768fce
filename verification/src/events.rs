//! The begin/end/interrupt event state machine.
//!
//! When a leaf is activated, a begin event is synthesized at the leaf
//! and bubbles upward: a sequence container downgrades it from a start
//! to a visit unless it arrived from the container's first child, in
//! which case the container also counts a new cycle of its own. An end
//! reported by the external consumer collapses back up the same way,
//! with the last child promoting the container's completion; an
//! interrupt abandons the activation without counting it as completed.
//! Every node on the path tracks the event ID in its durable state, and
//! hooks are reported in order: "up" hooks from the leaf towards the
//! root, "down" hooks from the root back towards the leaf. Propagation
//! stops gracefully at the first dead node, and a signal for an ID that
//! is not active is a tolerated no-op.

use crate::state::{bump, bump_counter, EventId};
use crate::tree::{Fragment, FragmentId, FragmentTree};
use vstd::prelude::*;

verus! {

/// The stable identity of one in-flight activation: the leaf it
/// started from and its unique event ID.
#[derive(Debug, Clone, Copy, PartialEq, Eq, Hash, Structural)]
pub struct IdPair {
    pub fragment: FragmentId,
    pub event: EventId,
}

/// What a leaf emits to the external consumer on activation.
#[derive(Debug, Clone)]
pub struct FragmentEvent<Data> {
    pub id: IdPair,
    pub data: Data,
}

/// The consumer's reply for one activation: completion or abandonment.
#[derive(Debug, Clone, Copy, PartialEq, Eq, Structural)]
pub struct FragmentEndEvent {
    pub id: IdPair,
    pub interruption: bool,
}

impl<Data> FragmentEvent<Data> {
    /// The completion reply for this activation.
    pub fn end(&self) -> (r: FragmentEndEvent)
        ensures
            r.id == self.id,
            r.interruption == false,
    {
        FragmentEndEvent { id: self.id, interruption: false }
    }

    /// The abandonment reply for this activation.
    pub fn interrupt(&self) -> (r: FragmentEndEvent)
        ensures
            r.id == self.id,
            r.interruption == true,
    {
        FragmentEndEvent { id: self.id, interruption: true }
    }
}

/// How a begin event reads at one node of the path.
#[derive(Debug, Clone, Copy, PartialEq, Eq, Structural)]
pub enum BeginStage {
    /// The node starts a new cycle of its own.
    Start,
    /// The node is merely on the path of a descendant's activation.
    Visit,
}

/// How an end event reads at one node of the path.
#[derive(Debug, Clone, Copy, PartialEq, Eq, Structural)]
pub enum EndStage {
    /// The node finishes a cycle of its own.
    End,
    /// The node is merely on the path of a descendant's completion.
    Visit,
    /// The activation is abandoned without counting as completed.
    Interrupt,
}

/// The event as a hook sees it: which activation, at which stage.
#[derive(Debug, Clone, Copy, PartialEq, Eq)]
pub struct StageEvent<Stage> {
    pub id: IdPair,
    pub stage: Stage,
}

/// One hook firing reported by begin propagation, in firing order.
#[derive(Debug, Clone, Copy, PartialEq, Eq)]
pub struct BeginHook {
    pub node: FragmentId,
    pub tag: u64,
    pub event: StageEvent<BeginStage>,
    /// Up hooks fire leaf-to-root; down hooks root-to-leaf.
    pub down: bool,
}

/// Which list an end-propagation hook came from.
#[derive(Debug, Clone, Copy, PartialEq, Eq, Structural)]
pub enum EndHookKind {
    Up,
    Down,
    Interrupt,
}

/// One hook firing reported by end propagation, in firing order.
#[derive(Debug, Clone, Copy, PartialEq, Eq)]
pub struct EndHook {
    pub node: FragmentId,
    pub tag: u64,
    pub event: StageEvent<EndStage>,
    pub kind: EndHookKind,
}

/// How a sequence container reinterprets an arriving begin event: a
/// start stays a start only when it arrives from the container's first
/// child; at any other node the stage passes through unchanged.
pub open spec fn begin_stage_at<T>(
    t: FragmentTree<T>,
    i: int,
    child: Option<int>,
    st: BeginStage,
) -> BeginStage {
    if t.node(i).sequence {
        if (child matches Some(c) && t.node(i).children@.len() > 0 && c == t.node(
            i,
        ).children@[0] as int) && st is Start {
            BeginStage::Start
        } else {
            BeginStage::Visit
        }
    } else {
        st
    }
}

/// How a sequence container reinterprets an arriving end event: an end
/// stays an end only when it arrives from the container's last child;
/// interrupts and visits pass a sequence only as visits.
pub open spec fn end_stage_at<T>(
    t: FragmentTree<T>,
    i: int,
    child: Option<int>,
    st: EndStage,
) -> EndStage {
    if t.node(i).sequence {
        if (child matches Some(c) && t.node(i).children@.len() > 0 && c == t.node(
            i,
        ).children@.last() as int) && st is End {
            EndStage::End
        } else {
            EndStage::Visit
        }
    } else {
        st
    }
}

/// The nodes a begin event visits on its way up from node `i`, with
/// the stage it carries at each: the node itself (if live), then its
/// ancestors until a root or a missing link stops the walk.
pub open spec fn begin_visits<T>(
    t: FragmentTree<T>,
    i: int,
    child: Option<int>,
    st: BeginStage,
) -> Seq<(int, BeginStage)>
    decreases i,
{
    if !t.live(i) {
        Seq::empty()
    } else {
        let st2 = begin_stage_at(t, i, child, st);
        seq![(i, st2)] + (if t.node(i).root {
            Seq::empty()
        } else {
            match t.node(i).parent {
                Some(p) => {
                    if 0 <= p < i {
                        begin_visits(t, p as int, Some(i), st2)
                    } else {
                        Seq::empty()
                    }
                },
                None => Seq::empty(),
            }
        })
    }
}

/// The nodes an end event visits on its way up from node `i`, with the
/// stage it carries at each. Beyond the liveness and root checks of a
/// begin, the walk also stops at the first node that does not hold the
/// event ID: a duplicate or late signal dies out silently.
pub open spec fn end_visits<T>(
    t: FragmentTree<T>,
    i: int,
    child: Option<int>,
    st: EndStage,
    ev: EventId,
) -> Seq<(int, EndStage)>
    decreases i,
{
    if !t.live(i) || !t.node(i).state.active_events@.contains(ev) {
        Seq::empty()
    } else {
        let st2 = end_stage_at(t, i, child, st);
        seq![(i, st2)] + (if t.node(i).root {
            Seq::empty()
        } else {
            match t.node(i).parent {
                Some(p) => {
                    if 0 <= p < i {
                        end_visits(t, p as int, Some(i), st2, ev)
                    } else {
                        Seq::empty()
                    }
                },
                None => Seq::empty(),
            }
        })
    }
}

/// The stage a visit list assigns to node `j`, if it visits it at all.
pub open spec fn stage_of<S>(visits: Seq<(int, S)>, j: int) -> Option<S>
    decreases visits.len(),
{
    if visits.len() == 0 {
        None
    } else if visits[0].0 == j {
        Some(visits[0].1)
    } else {
        stage_of(visits.drop_first(), j)
    }
}

/// One reported begin hook.
pub open spec fn begin_hook_of(
    node: usize,
    id: IdPair,
    stage: BeginStage,
    down: bool,
    tag: u64,
) -> BeginHook {
    BeginHook { node: FragmentId(node), tag, event: StageEvent { id, stage }, down }
}

/// A node's begin hooks from one tag list, in list order.
pub open spec fn begin_hook_list(
    tags: Seq<u64>,
    node: usize,
    id: IdPair,
    stage: BeginStage,
    down: bool,
) -> Seq<BeginHook>
    decreases tags.len(),
{
    if tags.len() == 0 {
        Seq::empty()
    } else {
        begin_hook_list(tags.drop_last(), node, id, stage, down).push(
            begin_hook_of(node, id, stage, down, tags.last()),
        )
    }
}

/// The up hooks of node `i` for a begin event at stage `st2`.
pub open spec fn up_begin_hooks<T>(
    t: FragmentTree<T>,
    i: int,
    id: IdPair,
    st2: BeginStage,
) -> Seq<BeginHook> {
    begin_hook_list(t.node(i).hooks.on_begin_up@, i as usize, id, st2, false)
}

/// The down hooks of node `i` for a begin event at stage `st2`.
pub open spec fn down_begin_hooks<T>(
    t: FragmentTree<T>,
    i: int,
    id: IdPair,
    st2: BeginStage,
) -> Seq<BeginHook> {
    begin_hook_list(t.node(i).hooks.on_begin_down@, i as usize, id, st2, true)
}

/// All hooks a begin propagation fires, in order: each visited node's
/// up hooks from the leaf towards the root, then the down hooks back
/// from the root towards the leaf.
pub open spec fn begin_hooks<T>(
    t: FragmentTree<T>,
    visits: Seq<(int, BeginStage)>,
    id: IdPair,
) -> Seq<BeginHook>
    decreases visits.len(),
{
    if visits.len() == 0 {
        Seq::empty()
    } else {
        up_begin_hooks(t, visits[0].0, id, visits[0].1) + begin_hooks(t, visits.drop_first(), id)
            + down_begin_hooks(t, visits[0].0, id, visits[0].1)
    }
}

/// One reported end hook.
pub open spec fn end_hook_of(
    node: usize,
    id: IdPair,
    stage: EndStage,
    kind: EndHookKind,
    tag: u64,
) -> EndHook {
    EndHook { node: FragmentId(node), tag, event: StageEvent { id, stage }, kind }
}

/// A node's end hooks from one tag list, in list order.
pub open spec fn end_hook_list(
    tags: Seq<u64>,
    node: usize,
    id: IdPair,
    stage: EndStage,
    kind: EndHookKind,
) -> Seq<EndHook>
    decreases tags.len(),
{
    if tags.len() == 0 {
        Seq::empty()
    } else {
        end_hook_list(tags.drop_last(), node, id, stage, kind).push(
            end_hook_of(node, id, stage, kind, tags.last()),
        )
    }
}

/// The hooks of node `i` from one end-propagation list.
pub open spec fn end_hooks_of<T>(
    t: FragmentTree<T>,
    i: int,
    id: IdPair,
    st2: EndStage,
    kind: EndHookKind,
) -> Seq<EndHook> {
    end_hook_list(
        (match kind {
            EndHookKind::Up => t.node(i).hooks.on_end_up@,
            EndHookKind::Down => t.node(i).hooks.on_end_down@,
            EndHookKind::Interrupt => t.node(i).hooks.on_interrupt_up@,
        }),
        i as usize,
        id,
        st2,
        kind,
    )
}

/// All hooks an end propagation fires, in order: at each visited node,
/// the end-up hooks, then (for an interrupt) the interrupt hooks, both
/// leaf-to-root; then the down hooks root-to-leaf.
pub open spec fn end_hooks<T>(
    t: FragmentTree<T>,
    visits: Seq<(int, EndStage)>,
    id: IdPair,
) -> Seq<EndHook>
    decreases visits.len(),
{
    if visits.len() == 0 {
        Seq::empty()
    } else {
        end_hooks_of(t, visits[0].0, id, visits[0].1, EndHookKind::Up) + (if visits[0].1
            is Interrupt {
            end_hooks_of(t, visits[0].0, id, visits[0].1, EndHookKind::Interrupt)
        } else {
            Seq::empty()
        }) + end_hooks(t, visits.drop_first(), id) + end_hooks_of(
            t,
            visits[0].0,
            id,
            visits[0].1,
            EndHookKind::Down,
        )
    }
}

/// How one node's record changes when a begin event passes it: a start
/// counts a new cycle, the event ID joins the in-flight set, and the
/// node is active. Nodes off the path are untouched.
pub open spec fn begin_node_rel<T>(
    old_n: Fragment<T>,
    new_n: Fragment<T>,
    st: Option<BeginStage>,
    ev: EventId,
) -> bool {
    match st {
        None => new_n == old_n,
        Some(st2) => {
            &&& new_n == (Fragment { state: new_n.state, ..old_n })
            &&& new_n.state.triggered == (if st2 is Start {
                bump(old_n.state.triggered)
            } else {
                old_n.state.triggered
            })
            &&& new_n.state.completed == old_n.state.completed
            &&& new_n.state.active == true
            &&& new_n.state.active_events@ == old_n.state.active_events@.push(ev)
        },
    }
}

/// How one node's record changes when an end or interrupt passes it:
/// one occurrence of the event ID leaves the in-flight set, an end
/// counts a completed cycle (an interrupt or visit does not), and the
/// node stays active exactly while in-flight activations remain.
pub open spec fn end_node_rel<T>(
    old_n: Fragment<T>,
    new_n: Fragment<T>,
    st: Option<EndStage>,
    ev: EventId,
) -> bool {
    match st {
        None => new_n == old_n,
        Some(st2) => {
            &&& new_n == (Fragment { state: new_n.state, ..old_n })
            &&& new_n.state.triggered == old_n.state.triggered
            &&& new_n.state.completed == (if st2 is End {
                bump(old_n.state.completed)
            } else {
                old_n.state.completed
            })
            &&& new_n.state.active_events@.to_multiset()
                == old_n.state.active_events@.to_multiset().remove(ev)
            &&& new_n.state.active_events@.len() == old_n.state.active_events@.len() - 1
            &&& (forall|e: EventId|
                e != ev ==> (new_n.state.active_events@.contains(e)
                    <==> old_n.state.active_events@.contains(e)))
            &&& (old_n.state.active_events@.to_multiset().count(ev) <= 1
                ==> !new_n.state.active_events@.contains(ev))
            &&& new_n.state.active == (new_n.state.active_events@.len() > 0)
        },
    }
}

/// An optional child handle, as the path specs read it.
pub open spec fn opt_ix(child: Option<usize>) -> Option<int> {
    match child {
        Some(c) => Some(c as int),
        None => None,
    }
}

/// A begin walk from node `i` stays at indices between 0 and `i`, in
/// strictly decreasing order (each step goes to a parent with a
/// smaller index), so no node is visited twice.
pub proof fn lemma_begin_visits_bounds<T>(
    t: FragmentTree<T>,
    i: int,
    child: Option<int>,
    st: BeginStage,
)
    ensures
        forall|k: int|
            0 <= k < begin_visits(t, i, child, st).len() ==> 0 <= (#[trigger] begin_visits(
                t,
                i,
                child,
                st,
            )[k]).0 <= i,
        forall|k1: int, k2: int|
            #![trigger begin_visits(t, i, child, st)[k1], begin_visits(t, i, child, st)[k2]]
            0 <= k1 < k2 < begin_visits(t, i, child, st).len() ==> begin_visits(
                t,
                i,
                child,
                st,
            )[k2].0 < begin_visits(t, i, child, st)[k1].0,
    decreases i,
{
    if t.live(i) {
        let st2 = begin_stage_at(t, i, child, st);
        let visits = begin_visits(t, i, child, st);
        if !t.node(i).root {
            match t.node(i).parent {
                Some(p) => {
                    if 0 <= p < i {
                        lemma_begin_visits_bounds(t, p as int, Some(i), st2);
                        let sub = begin_visits(t, p as int, Some(i), st2);
                        assert(visits == seq![(i, st2)] + sub);
                        assert forall|k: int| 1 <= k < visits.len() implies (
                        #[trigger] visits[k]) == sub[k - 1] by {}
                    } else {
                        assert(visits =~= seq![(i, st2)]);
                    }
                },
                None => {
                    assert(visits =~= seq![(i, st2)]);
                },
            }
        } else {
            assert(visits =~= seq![(i, st2)]);
        }
    }
}

/// An end walk has the same index bounds and strict descent.
pub proof fn lemma_end_visits_bounds<T>(
    t: FragmentTree<T>,
    i: int,
    child: Option<int>,
    st: EndStage,
    ev: EventId,
)
    ensures
        forall|k: int|
            0 <= k < end_visits(t, i, child, st, ev).len() ==> 0 <= (#[trigger] end_visits(
                t,
                i,
                child,
                st,
                ev,
            )[k]).0 <= i,
        forall|k1: int, k2: int|
            #![trigger end_visits(t, i, child, st, ev)[k1], end_visits(t, i, child, st, ev)[k2]]
            0 <= k1 < k2 < end_visits(t, i, child, st, ev).len() ==> end_visits(
                t,
                i,
                child,
                st,
                ev,
            )[k2].0 < end_visits(t, i, child, st, ev)[k1].0,
    decreases i,
{
    if t.live(i) && t.node(i).state.active_events@.contains(ev) {
        let st2 = end_stage_at(t, i, child, st);
        let visits = end_visits(t, i, child, st, ev);
        if !t.node(i).root {
            match t.node(i).parent {
                Some(p) => {
                    if 0 <= p < i {
                        lemma_end_visits_bounds(t, p as int, Some(i), st2, ev);
                        let sub = end_visits(t, p as int, Some(i), st2, ev);
                        assert(visits == seq![(i, st2)] + sub);
                        assert forall|k: int| 1 <= k < visits.len() implies (
                        #[trigger] visits[k]) == sub[k - 1] by {}
                    } else {
                        assert(visits =~= seq![(i, st2)]);
                    }
                },
                None => {
                    assert(visits =~= seq![(i, st2)]);
                },
            }
        } else {
            assert(visits =~= seq![(i, st2)]);
        }
    }
}

/// A visit list whose indices all lie at or below `bound` assigns no
/// stage to a node above `bound`.
pub proof fn lemma_stage_of_above<S>(visits: Seq<(int, S)>, bound: int, j: int)
    requires
        forall|k: int| 0 <= k < visits.len() ==> (#[trigger] visits[k]).0 <= bound,
        j > bound,
    ensures
        stage_of(visits, j) is None,
    decreases visits.len(),
{
    if visits.len() > 0 {
        lemma_stage_of_above(visits.drop_first(), bound, j);
    }
}

/// Walks read only node facets and links at or below the start node,
/// so trees that agree there walk alike.
pub proof fn lemma_begin_visits_agrees<T>(
    a: FragmentTree<T>,
    b: FragmentTree<T>,
    i: int,
    child: Option<int>,
    st: BeginStage,
)
    requires
        b.spec_len() == a.spec_len(),
        forall|j: int| 0 <= j <= i && j < a.spec_len() ==> b.node(j) == a.node(j),
    ensures
        begin_visits(b, i, child, st) == begin_visits(a, i, child, st),
    decreases i,
{
    if a.live(i) {
        let st2 = begin_stage_at(a, i, child, st);
        if !a.node(i).root {
            match a.node(i).parent {
                Some(p) => {
                    if 0 <= p < i {
                        lemma_begin_visits_agrees(a, b, p as int, Some(i), st2);
                    }
                },
                None => {},
            }
        }
    }
}

/// The end walk reads the same fields plus the in-flight sets, all at
/// or below the start node.
pub proof fn lemma_end_visits_agrees<T>(
    a: FragmentTree<T>,
    b: FragmentTree<T>,
    i: int,
    child: Option<int>,
    st: EndStage,
    ev: EventId,
)
    requires
        b.spec_len() == a.spec_len(),
        forall|j: int| 0 <= j <= i && j < a.spec_len() ==> b.node(j) == a.node(j),
    ensures
        end_visits(b, i, child, st, ev) == end_visits(a, i, child, st, ev),
    decreases i,
{
    if a.live(i) && a.node(i).state.active_events@.contains(ev) {
        let st2 = end_stage_at(a, i, child, st);
        if !a.node(i).root {
            match a.node(i).parent {
                Some(p) => {
                    if 0 <= p < i {
                        lemma_end_visits_agrees(a, b, p as int, Some(i), st2, ev);
                    }
                },
                None => {},
            }
        }
    }
}

/// Hook reports read only the visited nodes' hook lists, so trees that
/// agree on the visited nodes report alike.
pub proof fn lemma_begin_hooks_agrees<T>(
    a: FragmentTree<T>,
    b: FragmentTree<T>,
    visits: Seq<(int, BeginStage)>,
    id: IdPair,
)
    requires
        forall|k: int|
            0 <= k < visits.len() ==> b.node((#[trigger] visits[k]).0) == a.node(visits[k].0),
    ensures
        begin_hooks(b, visits, id) == begin_hooks(a, visits, id),
    decreases visits.len(),
{
    if visits.len() > 0 {
        assert(forall|k: int|
            0 <= k < visits.drop_first().len() ==> (#[trigger] visits.drop_first()[k])
                == visits[k + 1]);
        lemma_begin_hooks_agrees(a, b, visits.drop_first(), id);
    }
}

/// The end form of [`lemma_begin_hooks_agrees`].
pub proof fn lemma_end_hooks_agrees<T>(
    a: FragmentTree<T>,
    b: FragmentTree<T>,
    visits: Seq<(int, EndStage)>,
    id: IdPair,
)
    requires
        forall|k: int|
            0 <= k < visits.len() ==> b.node((#[trigger] visits[k]).0) == a.node(visits[k].0),
    ensures
        end_hooks(b, visits, id) == end_hooks(a, visits, id),
    decreases visits.len(),
{
    if visits.len() > 0 {
        assert(forall|k: int|
            0 <= k < visits.drop_first().len() ==> (#[trigger] visits.drop_first()[k])
                == visits[k + 1]);
        lemma_end_hooks_agrees(a, b, visits.drop_first(), id);
    }
}

/// Append a node's begin hooks from one tag list.
fn push_begin_hooks(
    hooks: &mut Vec<BeginHook>,
    node: usize,
    tags: &Vec<u64>,
    id: IdPair,
    stage: BeginStage,
    down: bool,
)
    ensures
        final(hooks)@ == old(hooks)@ + begin_hook_list(tags@, node, id, stage, down),
{
    let mut k: usize = 0;
    while k < tags.len()
        invariant
            0 <= k <= tags@.len(),
            hooks@ == old(hooks)@ + begin_hook_list(tags@.take(k as int), node, id, stage, down),
        decreases tags@.len() - k,
    {
        proof {
            assert(tags@.take(k + 1 as int).drop_last() =~= tags@.take(k as int));
            assert(tags@.take(k + 1 as int).last() == tags@[k as int]);
        }
        hooks.push(
            BeginHook {
                node: FragmentId(node),
                tag: tags[k],
                event: StageEvent { id, stage },
                down,
            },
        );
        k = k + 1;
    }
    proof {
        assert(tags@.take(tags@.len() as int) =~= tags@);
    }
}

/// Append a node's end hooks from one tag list.
fn push_end_hooks(
    hooks: &mut Vec<EndHook>,
    node: usize,
    tags: &Vec<u64>,
    id: IdPair,
    stage: EndStage,
    kind: EndHookKind,
)
    ensures
        final(hooks)@ == old(hooks)@ + end_hook_list(tags@, node, id, stage, kind),
{
    let mut k: usize = 0;
    while k < tags.len()
        invariant
            0 <= k <= tags@.len(),
            hooks@ == old(hooks)@ + end_hook_list(tags@.take(k as int), node, id, stage, kind),
        decreases tags@.len() - k,
    {
        proof {
            assert(tags@.take(k + 1 as int).drop_last() =~= tags@.take(k as int));
            assert(tags@.take(k + 1 as int).last() == tags@[k as int]);
        }
        hooks.push(
            EndHook { node: FragmentId(node), tag: tags[k], event: StageEvent { id, stage }, kind },
        );
        k = k + 1;
    }
    proof {
        assert(tags@.take(tags@.len() as int) =~= tags@);
    }
}

impl<T> FragmentTree<T> {
    /// Bubble a begin event from node `i` up towards its root,
    /// appending the fired hooks in order.
    #[verifier::rlimit(30)]
    fn begin_at(
        &mut self,
        i: usize,
        child: Option<usize>,
        id: IdPair,
        st: BeginStage,
        hooks: &mut Vec<BeginHook>,
    )
        requires
            old(self).wf(),
        ensures
            final(self).wf(),
            final(self).spec_len() == old(self).spec_len(),
            final(hooks)@ == old(hooks)@ + begin_hooks(
                *old(self),
                begin_visits(*old(self), i as int, opt_ix(child), st),
                id,
            ),
            forall|j: int|
                0 <= j < old(self).spec_len() ==> begin_node_rel(
                    old(self).node(j),
                    final(self).node(j),
                    stage_of(begin_visits(*old(self), i as int, opt_ix(child), st), j),
                    id.event,
                ),
        decreases i,
    {
        let ghost orig = *old(self);
        let ghost visits = begin_visits(orig, i as int, opt_ix(child), st);
        if i >= self.nodes.len() || !self.nodes[i].alive {
            proof {
                assert(visits =~= Seq::<(int, BeginStage)>::empty());
                assert(begin_hooks(orig, visits, id) =~= Seq::<BeginHook>::empty());
                assert(hooks@ =~= old(hooks)@ + begin_hooks(orig, visits, id));
            }
            return ;
        }
        let st2 = if self.nodes[i].sequence {
            let is_first = match child {
                Some(c) => self.nodes[i].children.len() > 0 && self.nodes[i].children[0] == c,
                None => false,
            };
            let is_start = match st {
                BeginStage::Start => true,
                BeginStage::Visit => false,
            };
            if is_first && is_start {
                BeginStage::Start
            } else {
                BeginStage::Visit
            }
        } else {
            st
        };
        proof {
            assert(st2 == begin_stage_at(orig, i as int, opt_ix(child), st));
        }
        let ghost h0 = hooks@;
        push_begin_hooks(hooks, i, &self.nodes[i].hooks.on_begin_up, id, st2, false);
        proof {
            assert(hooks@ == h0 + up_begin_hooks(orig, i as int, id, st2));
        }
        let ghost h1 = hooks@;
        let start_here = match st2 {
            BeginStage::Start => true,
            BeginStage::Visit => false,
        };
        if start_here {
            let tcur = self.nodes[i].state.triggered;
            self.nodes[i].state.triggered = bump_counter(tcur);
        }
        self.nodes[i].state.active = true;
        self.nodes[i].state.active_events.insert(id.event);
        proof {
            crate::facets::lemma_wf_same_structure(orig, *self);
        }
        let ghost mid = *self;
        let ghost subvisits = begin_visits(orig, orig.parent_ix(i as int), Some(i as int), st2);
        let is_root = self.nodes[i].root;
        let parent = self.nodes[i].parent;
        if !is_root {
            match parent {
                Some(p) => {
                    proof {
                        assert(orig.wf_at(i as int));
                    }
                    self.begin_at(p, Some(i), id, st2, hooks);
                    proof {
                        lemma_begin_visits_agrees(
                            orig,
                            mid,
                            p as int,
                            Some(i as int),
                            st2,
                        );
                        lemma_begin_visits_bounds(orig, p as int, Some(i as int), st2);
                        lemma_begin_hooks_agrees(orig, mid, subvisits, id);
                        lemma_stage_of_above(subvisits, p as int, i as int);
                        assert(begin_node_rel(
                            mid.node(i as int),
                            self.node(i as int),
                            stage_of(begin_visits(mid, p as int, Some(i as int), st2), i as int),
                            id.event,
                        ));
                        assert(begin_visits(mid, p as int, Some(i as int), st2) == subvisits);
                        assert(stage_of(subvisits, i as int) is None);
                        assert(self.node(i as int) == mid.node(i as int));
                    }
                },
                None => {},
            }
        }
        let ghost h2 = hooks@;
        proof {
            let walked: Seq<(int, BeginStage)> = (if is_root || parent is None || !(
            orig.parent_ix(i as int) < i) {
                Seq::empty()
            } else {
                subvisits
            });
            assert(h2 == h1 + begin_hooks(orig, walked, id));
        }
        push_begin_hooks(hooks, i, &self.nodes[i].hooks.on_begin_down, id, st2, true);
        proof {
            assert(hooks@ == h2 + down_begin_hooks(orig, i as int, id, st2));
            let walked: Seq<(int, BeginStage)> = (if is_root || parent is None || !(
            orig.parent_ix(i as int) < i) {
                Seq::empty()
            } else {
                subvisits
            });
            assert(visits == seq![(i as int, st2)] + walked);
            assert(visits.drop_first() =~= walked);
            assert(begin_hooks(orig, visits, id) == up_begin_hooks(orig, i as int, id, st2)
                + begin_hooks(orig, walked, id) + down_begin_hooks(orig, i as int, id, st2));
            if is_root || parent is None {
                assert(begin_hooks(orig, walked, id) =~= Seq::<BeginHook>::empty());
            }
            assert(hooks@ =~= old(hooks)@ + begin_hooks(orig, visits, id));
            lemma_begin_visits_bounds(orig, i as int, opt_ix(child), st);
            assert forall|j: int| 0 <= j < orig.spec_len() implies begin_node_rel(
                orig.node(j),
                self.node(j),
                stage_of(visits, j),
                id.event,
            ) by {
                if j == i {
                    lemma_stage_of_above(walked, i as int - 1, j);
                    assert(stage_of(visits, j) == Some(st2));
                    assert(begin_node_rel(
                        orig.node(j),
                        mid.node(j),
                        Some(st2),
                        id.event,
                    ));
                    assert(stage_of(walked, j) is None);
                } else {
                    assert(stage_of(visits, j) == stage_of(walked, j));
                    assert(mid.node(j) == orig.node(j));
                }
            }
        }
    }
}

/// Composes the per-node effects of an end walk: the start node's own
/// update followed by the walk over its ancestors gives exactly the
/// per-node relation of the whole walk.
proof fn lemma_end_compose_rel<T>(
    orig: FragmentTree<T>,
    mid: FragmentTree<T>,
    fin: FragmentTree<T>,
    i: int,
    child: Option<int>,
    st: EndStage,
    ev: EventId,
)
    requires
        orig.wf(),
        orig.live(i),
        orig.node(i).state.active_events@.contains(ev),
        mid.spec_len() == orig.spec_len(),
        fin.spec_len() == orig.spec_len(),
        end_node_rel(orig.node(i), mid.node(i), Some(end_stage_at(orig, i, child, st)), ev),
        forall|j: int| 0 <= j < orig.spec_len() && j != i ==> mid.node(j) == orig.node(j),
        ({
            let st2 = end_stage_at(orig, i, child, st);
            if orig.node(i).root || orig.node(i).parent is None {
                fin == mid
            } else {
                let p = orig.parent_ix(i);
                &&& 0 <= p < i
                &&& forall|j: int|
                    0 <= j < orig.spec_len() ==> end_node_rel(
                        mid.node(j),
                        fin.node(j),
                        stage_of(end_visits(mid, p, Some(i), st2, ev), j),
                        ev,
                    )
            }
        }),
    ensures
        forall|j: int|
            0 <= j < orig.spec_len() ==> end_node_rel(
                orig.node(j),
                fin.node(j),
                stage_of(end_visits(orig, i, child, st, ev), j),
                ev,
            ),
{
    let st2 = end_stage_at(orig, i, child, st);
    let visits = end_visits(orig, i, child, st, ev);
    if orig.node(i).root || orig.node(i).parent is None {
        let walked = Seq::<(int, EndStage)>::empty();
        assert(visits == seq![(i, st2)] + walked);
        assert forall|j: int| 0 <= j < orig.spec_len() implies end_node_rel(
            orig.node(j),
            fin.node(j),
            stage_of(visits, j),
            ev,
        ) by {
            if j == i {
                assert(stage_of(visits, j) == Some(st2));
            } else {
                assert(visits.drop_first() =~= walked);
                assert(stage_of(visits, j) == stage_of(walked, j));
            }
        }
    } else {
        let p = orig.parent_ix(i);
        let walked = end_visits(orig, p, Some(i), st2, ev);
        assert forall|j: int| 0 <= j <= p && j < orig.spec_len() implies mid.node(j) == orig.node(
            j,
        ) by {}
        lemma_end_visits_agrees(orig, mid, p, Some(i), st2, ev);
        lemma_end_visits_bounds(orig, p, Some(i), st2, ev);
        lemma_stage_of_above(walked, p, i);
        assert(visits == seq![(i, st2)] + walked);
        assert forall|j: int| 0 <= j < orig.spec_len() implies end_node_rel(
            orig.node(j),
            fin.node(j),
            stage_of(visits, j),
            ev,
        ) by {
            assert(end_node_rel(
                mid.node(j),
                fin.node(j),
                stage_of(end_visits(mid, p, Some(i), st2, ev), j),
                ev,
            ));
            assert(end_visits(mid, p, Some(i), st2, ev) == walked);
            if j == i {
                assert(stage_of(visits, j) == Some(st2));
                assert(stage_of(walked, j) is None);
                assert(fin.node(j) == mid.node(j));
            } else {
                assert(visits.drop_first() =~= walked);
                assert(stage_of(visits, j) == stage_of(walked, j));
                assert(mid.node(j) == orig.node(j));
            }
        }
    }
}

impl<T> FragmentTree<T> {
    /// Apply an end-stage update to one node's durable record: drop
    /// one occurrence of the event ID, count a completed cycle on an
    /// end, and stay active exactly while activations remain in
    /// flight.
    fn end_update_node(&mut self, i: usize, st2: EndStage, ev: EventId)
        requires
            old(self).wf(),
            i < old(self).spec_len(),
            old(self).node(i as int).alive,
            old(self).node(i as int).state.active_events@.contains(ev),
        ensures
            final(self).wf(),
            final(self).spec_len() == old(self).spec_len(),
            end_node_rel(old(self).node(i as int), final(self).node(i as int), Some(st2), ev),
            forall|j: int|
                0 <= j < old(self).spec_len() && j != i ==> final(self).node(j) == old(self).node(
                    j,
                ),
    {
        let _removed = self.nodes[i].state.active_events.remove(ev);
        let ending = match st2 {
            EndStage::End => true,
            _ => false,
        };
        if ending {
            let ccur = self.nodes[i].state.completed;
            self.nodes[i].state.completed = bump_counter(ccur);
        }
        let still = self.nodes[i].state.active_events.len();
        self.nodes[i].state.active = still > 0;
        proof {
            crate::facets::lemma_wf_same_structure(*old(self), *self);
        }
    }

    /// Bubble an end or interrupt from node `i` up towards its root,
    /// appending the fired hooks in order. The walk dies out at the
    /// first node that does not hold the event ID.
    #[verifier::rlimit(100)]
    fn end_at(
        &mut self,
        i: usize,
        child: Option<usize>,
        id: IdPair,
        st: EndStage,
        hooks: &mut Vec<EndHook>,
    )
        requires
            old(self).wf(),
        ensures
            final(self).wf(),
            final(self).spec_len() == old(self).spec_len(),
            final(hooks)@ == old(hooks)@ + end_hooks(
                *old(self),
                end_visits(*old(self), i as int, opt_ix(child), st, id.event),
                id,
            ),
            forall|j: int|
                0 <= j < old(self).spec_len() ==> end_node_rel(
                    old(self).node(j),
                    final(self).node(j),
                    stage_of(end_visits(*old(self), i as int, opt_ix(child), st, id.event), j),
                    id.event,
                ),
            end_visits(*old(self), i as int, opt_ix(child), st, id.event).len() == 0
                ==> *final(self) == *old(self),
        decreases i,
    {
        let ghost orig = *old(self);
        let ghost visits = end_visits(orig, i as int, opt_ix(child), st, id.event);
        if i >= self.nodes.len() || !self.nodes[i].alive {
            proof {
                assert(visits =~= Seq::<(int, EndStage)>::empty());
                assert(end_hooks(orig, visits, id) =~= Seq::<EndHook>::empty());
                assert(hooks@ =~= old(hooks)@ + end_hooks(orig, visits, id));
            }
            return ;
        }
        if !self.nodes[i].state.active_events.contains(id.event) {
            proof {
                assert(visits =~= Seq::<(int, EndStage)>::empty());
                assert(end_hooks(orig, visits, id) =~= Seq::<EndHook>::empty());
                assert(hooks@ =~= old(hooks)@ + end_hooks(orig, visits, id));
            }
            return ;
        }
        let st2 = if self.nodes[i].sequence {
            let is_last = match child {
                Some(c) => {
                    let n = self.nodes[i].children.len();
                    n > 0 && self.nodes[i].children[n - 1] == c
                },
                None => false,
            };
            let is_end = match st {
                EndStage::End => true,
                _ => false,
            };
            if is_last && is_end {
                EndStage::End
            } else {
                EndStage::Visit
            }
        } else {
            st
        };
        proof {
            assert(st2 == end_stage_at(orig, i as int, opt_ix(child), st));
        }
        let ghost h0 = hooks@;
        push_end_hooks(hooks, i, &self.nodes[i].hooks.on_end_up, id, st2, EndHookKind::Up);
        proof {
            assert(hooks@ == h0 + end_hooks_of(orig, i as int, id, st2, EndHookKind::Up));
        }
        let interrupting = match st2 {
            EndStage::Interrupt => true,
            _ => false,
        };
        if interrupting {
            push_end_hooks(
                hooks,
                i,
                &self.nodes[i].hooks.on_interrupt_up,
                id,
                st2,
                EndHookKind::Interrupt,
            );
        }
        let ghost h1 = hooks@;
        proof {
            assert(h1 =~= h0 + end_hooks_of(orig, i as int, id, st2, EndHookKind::Up) + (
            if st2 is Interrupt {
                end_hooks_of(orig, i as int, id, st2, EndHookKind::Interrupt)
            } else {
                Seq::<EndHook>::empty()
            }));
        }
        self.end_update_node(i, st2, id.event);
        let ghost mid = *self;
        let ghost subvisits = end_visits(
            orig,
            orig.parent_ix(i as int),
            Some(i as int),
            st2,
            id.event,
        );
        let is_root = self.nodes[i].root;
        let parent = self.nodes[i].parent;
        if !is_root {
            match parent {
                Some(p) => {
                    proof {
                        assert(orig.wf_at(i as int));
                        assert forall|j: int|
                            0 <= j <= p as int && j < orig.spec_len() implies mid.node(j)
                            == orig.node(j) by {}
                    }
                    self.end_at(p, Some(i), id, st2, hooks);
                    proof {
                        lemma_end_visits_agrees(orig, mid, p as int, Some(i as int), st2, id.event);
                        lemma_end_visits_bounds(orig, p as int, Some(i as int), st2, id.event);
                        lemma_end_hooks_agrees(orig, mid, subvisits, id);
                        lemma_stage_of_above(subvisits, p as int, i as int);
                        assert(end_node_rel(
                            mid.node(i as int),
                            self.node(i as int),
                            stage_of(
                                end_visits(mid, p as int, Some(i as int), st2, id.event),
                                i as int,
                            ),
                            id.event,
                        ));
                        assert(end_visits(mid, p as int, Some(i as int), st2, id.event)
                            == subvisits);
                        assert(stage_of(subvisits, i as int) is None);
                        assert(self.node(i as int) == mid.node(i as int));
                    }
                },
                None => {},
            }
        }
        let ghost h2 = hooks@;
        proof {
            let walked: Seq<(int, EndStage)> = (if is_root || parent is None || !(orig.parent_ix(
                i as int,
            ) < i) {
                Seq::empty()
            } else {
                subvisits
            });
            assert(h2 == h1 + end_hooks(orig, walked, id));
        }
        push_end_hooks(hooks, i, &self.nodes[i].hooks.on_end_down, id, st2, EndHookKind::Down);
        proof {
            let walked: Seq<(int, EndStage)> = (if is_root || parent is None || !(orig.parent_ix(
                i as int,
            ) < i) {
                Seq::empty()
            } else {
                subvisits
            });
            assert(hooks@ =~= old(hooks)@ + end_hooks(orig, visits, id)) by {
                assert(hooks@ == h2 + end_hooks_of(orig, i as int, id, st2, EndHookKind::Down));
                assert(visits == seq![(i as int, st2)] + walked);
                assert(visits.drop_first() =~= walked);
                assert(end_hooks(orig, visits, id) == end_hooks_of(
                    orig,
                    i as int,
                    id,
                    st2,
                    EndHookKind::Up,
                ) + (if st2 is Interrupt {
                    end_hooks_of(orig, i as int, id, st2, EndHookKind::Interrupt)
                } else {
                    Seq::<EndHook>::empty()
                }) + end_hooks(orig, walked, id) + end_hooks_of(
                    orig,
                    i as int,
                    id,
                    st2,
                    EndHookKind::Down,
                ));
                if is_root || parent is None {
                    assert(end_hooks(orig, walked, id) =~= Seq::<EndHook>::empty());
                }
            }
            if is_root || parent is None {
                assert(*self == mid);
            }
            lemma_end_compose_rel(orig, mid, *self, i as int, opt_ix(child), st, id.event);
        }
    }

    /// Activate a leaf: synthesize a fresh activation instance with a
    /// random event ID and bubble its begin event from the leaf to its
    /// root. Returns the new activation identity and the fired hooks,
    /// in order.
    pub fn begin(&mut self, leaf: FragmentId) -> (r: (IdPair, Vec<BeginHook>))
        requires
            old(self).wf(),
        ensures
            final(self).wf(),
            final(self).spec_len() == old(self).spec_len(),
            r.0.fragment == leaf,
            r.1@ == begin_hooks(
                *old(self),
                begin_visits(*old(self), leaf.0 as int, None, BeginStage::Start),
                r.0,
            ),
            forall|j: int|
                0 <= j < old(self).spec_len() ==> begin_node_rel(
                    old(self).node(j),
                    final(self).node(j),
                    stage_of(
                        begin_visits(*old(self), leaf.0 as int, None, BeginStage::Start),
                        j,
                    ),
                    r.0.event,
                ),
    {
        let id = IdPair { fragment: leaf, event: EventId::new() };
        let hooks = self.begin_with(id);
        (id, hooks)
    }

    /// Bubble a begin event for a caller-supplied activation identity:
    /// the whole deterministic part of an activation.
    pub fn begin_with(&mut self, id: IdPair) -> (hooks: Vec<BeginHook>)
        requires
            old(self).wf(),
        ensures
            final(self).wf(),
            final(self).spec_len() == old(self).spec_len(),
            hooks@ == begin_hooks(
                *old(self),
                begin_visits(*old(self), id.fragment.0 as int, None, BeginStage::Start),
                id,
            ),
            forall|j: int|
                0 <= j < old(self).spec_len() ==> begin_node_rel(
                    old(self).node(j),
                    final(self).node(j),
                    stage_of(
                        begin_visits(*old(self), id.fragment.0 as int, None, BeginStage::Start),
                        j,
                    ),
                    id.event,
                ),
    {
        let mut hooks: Vec<BeginHook> = Vec::new();
        self.begin_at(id.fragment.0, None, id, BeginStage::Start, &mut hooks);
        hooks
    }

    /// The external consumer reports an activation as completed: the
    /// end event collapses from the leaf up its path. A signal for an
    /// activation that is not in flight is a tolerated no-op.
    pub fn end(&mut self, id: IdPair) -> (hooks: Vec<EndHook>)
        requires
            old(self).wf(),
        ensures
            final(self).wf(),
            final(self).spec_len() == old(self).spec_len(),
            hooks@ == end_hooks(
                *old(self),
                end_visits(*old(self), id.fragment.0 as int, None, EndStage::End, id.event),
                id,
            ),
            forall|j: int|
                0 <= j < old(self).spec_len() ==> end_node_rel(
                    old(self).node(j),
                    final(self).node(j),
                    stage_of(
                        end_visits(
                            *old(self),
                            id.fragment.0 as int,
                            None,
                            EndStage::End,
                            id.event,
                        ),
                        j,
                    ),
                    id.event,
                ),
            end_visits(*old(self), id.fragment.0 as int, None, EndStage::End, id.event).len() == 0
                ==> *final(self) == *old(self) && hooks@ == Seq::<EndHook>::empty(),
    {
        let mut hooks: Vec<EndHook> = Vec::new();
        self.end_at(id.fragment.0, None, id, EndStage::End, &mut hooks);
        hooks
    }

    /// The external consumer abandons an activation: like an end, but
    /// no node counts the cycle as completed, and the interrupt hooks
    /// fire bottom-to-top along the path.
    pub fn interrupt(&mut self, id: IdPair) -> (hooks: Vec<EndHook>)
        requires
            old(self).wf(),
        ensures
            final(self).wf(),
            final(self).spec_len() == old(self).spec_len(),
            hooks@ == end_hooks(
                *old(self),
                end_visits(
                    *old(self),
                    id.fragment.0 as int,
                    None,
                    EndStage::Interrupt,
                    id.event,
                ),
                id,
            ),
            forall|j: int|
                0 <= j < old(self).spec_len() ==> end_node_rel(
                    old(self).node(j),
                    final(self).node(j),
                    stage_of(
                        end_visits(
                            *old(self),
                            id.fragment.0 as int,
                            None,
                            EndStage::Interrupt,
                            id.event,
                        ),
                        j,
                    ),
                    id.event,
                ),
            end_visits(
                *old(self),
                id.fragment.0 as int,
                None,
                EndStage::Interrupt,
                id.event,
            ).len() == 0 ==> *final(self) == *old(self) && hooks@ == Seq::<EndHook>::empty(),
    {
        let mut hooks: Vec<EndHook> = Vec::new();
        self.end_at(id.fragment.0, None, id, EndStage::Interrupt, &mut hooks);
        hooks
    }

    /// Dispatch a consumer reply to the matching terminal signal.
    pub fn respond(&mut self, reply: FragmentEndEvent) -> (hooks: Vec<EndHook>)
        requires
            old(self).wf(),
        ensures
            final(self).wf(),
            final(self).spec_len() == old(self).spec_len(),
            !reply.interruption ==> hooks@ == end_hooks(
                *old(self),
                end_visits(
                    *old(self),
                    reply.id.fragment.0 as int,
                    None,
                    EndStage::End,
                    reply.id.event,
                ),
                reply.id,
            ),
            reply.interruption ==> hooks@ == end_hooks(
                *old(self),
                end_visits(
                    *old(self),
                    reply.id.fragment.0 as int,
                    None,
                    EndStage::Interrupt,
                    reply.id.event,
                ),
                reply.id,
            ),
            !reply.interruption ==> forall|j: int|
                0 <= j < old(self).spec_len() ==> end_node_rel(
                    old(self).node(j),
                    final(self).node(j),
                    stage_of(
                        end_visits(
                            *old(self),
                            reply.id.fragment.0 as int,
                            None,
                            EndStage::End,
                            reply.id.event,
                        ),
                        j,
                    ),
                    reply.id.event,
                ),
            reply.interruption ==> forall|j: int|
                0 <= j < old(self).spec_len() ==> end_node_rel(
                    old(self).node(j),
                    final(self).node(j),
                    stage_of(
                        end_visits(
                            *old(self),
                            reply.id.fragment.0 as int,
                            None,
                            EndStage::Interrupt,
                            reply.id.event,
                        ),
                        j,
                    ),
                    reply.id.event,
                ),
    {
        if reply.interruption {
            self.interrupt(reply.id)
        } else {
            self.end(reply.id)
        }
    }
}

/// After a terminal signal, the event ID is gone from every node the
/// signal reached, and every node off the path is untouched — given
/// that no node held a duplicate of the ID, which the engine never
/// produces.
pub proof fn lemma_end_clears_path<T>(
    orig: FragmentTree<T>,
    fin: FragmentTree<T>,
    visits: Seq<(int, EndStage)>,
    ev: EventId,
)
    requires
        fin.spec_len() == orig.spec_len(),
        forall|j: int|
            0 <= j < orig.spec_len() ==> end_node_rel(
                orig.node(j),
                fin.node(j),
                stage_of(visits, j),
                ev,
            ),
        forall|j: int|
            0 <= j < orig.spec_len() ==> (#[trigger] orig.node(
                j,
            )).state.active_events@.to_multiset().count(ev) <= 1,
    ensures
        forall|j: int|
            0 <= j < orig.spec_len() && stage_of(visits, j) is Some ==> !(#[trigger] fin.node(
                j,
            )).state.active_events@.contains(ev),
        forall|j: int|
            0 <= j < orig.spec_len() && stage_of(visits, j) is None ==> #[trigger] fin.node(j)
                == orig.node(j),
{
    assert forall|j: int| 0 <= j < orig.spec_len() && stage_of(visits, j) is Some implies !(
    #[trigger] fin.node(j)).state.active_events@.contains(ev) by {
        assert(end_node_rel(orig.node(j), fin.node(j), stage_of(visits, j), ev));
    }
    assert forall|j: int|
        0 <= j < orig.spec_len() && stage_of(visits, j) is None implies #[trigger] fin.node(j)
        == orig.node(j) by {
        assert(end_node_rel(orig.node(j), fin.node(j), stage_of(visits, j), ev));
    }
}

/// The at-most-once law: every begin for an activation identity is
/// matched by at most one terminal end or interrupt. After one
/// terminal signal has run — whether it was consumed or died out — a
/// repeat of the signal for the same identity walks an empty path, so
/// it changes nothing and fires no hooks; and wherever the first
/// signal reached, the event ID is no longer held.
pub proof fn lemma_terminal_at_most_once<T>(
    orig: FragmentTree<T>,
    fin: FragmentTree<T>,
    id: IdPair,
    st: EndStage,
    st_again: EndStage,
)
    requires
        fin.spec_len() == orig.spec_len(),
        forall|j: int|
            0 <= j < orig.spec_len() ==> end_node_rel(
                orig.node(j),
                fin.node(j),
                stage_of(
                    end_visits(orig, id.fragment.0 as int, None, st, id.event),
                    j,
                ),
                id.event,
            ),
        forall|j: int|
            0 <= j < orig.spec_len() ==> (#[trigger] orig.node(
                j,
            )).state.active_events@.to_multiset().count(id.event) <= 1,
    ensures
        end_visits(fin, id.fragment.0 as int, None, st_again, id.event).len() == 0,
        forall|j: int|
            0 <= j < orig.spec_len() && stage_of(
                end_visits(orig, id.fragment.0 as int, None, st, id.event),
                j,
            ) is Some ==> !(#[trigger] fin.node(j)).state.active_events@.contains(id.event),
{
    let leaf = id.fragment.0 as int;
    let visits = end_visits(orig, leaf, None, st, id.event);
    lemma_end_clears_path(orig, fin, visits, id.event);
    if 0 <= leaf < orig.spec_len() {
        if orig.live(leaf) && orig.node(leaf).state.active_events@.contains(id.event) {
            assert(visits[0].0 == leaf);
            assert(stage_of(visits, leaf) is Some);
            assert(!fin.node(leaf).state.active_events@.contains(id.event));
        } else {
            assert(stage_of(visits, leaf) is None) by {
                assert(visits =~= Seq::<(int, EndStage)>::empty());
            }
            assert(fin.node(leaf) == orig.node(leaf));
        }
    }
}

} // verus!
