//! Durable per-node execution state.
//!
//! A node's [`FragmentState`] survives across ticks: how often the node was
//! triggered and completed, and which activation instances are currently
//! passing through it. Everything else about a node is recomputed per tick.

use vstd::prelude::*;
use vstd::seq_lib::group_to_multiset_ensures;

verus! {

broadcast use group_to_multiset_ensures;

/// A unique ID generated for every emitted event.
#[derive(Debug, Clone, Copy, PartialEq, Eq, Hash, Structural)]
pub struct EventId(pub u64);

/// The activation instances currently passing through a node, by event ID.
///
/// Semantically a small multiset; stored as the list of IDs in insertion
/// order.
#[derive(Debug, Clone, PartialEq, Eq)]
pub struct ActiveEvents(Vec<EventId>);

impl View for ActiveEvents {
    type V = Seq<EventId>;

    closed spec fn view(&self) -> Seq<EventId> {
        self.0@
    }
}

impl ActiveEvents {
    pub fn new(events: Vec<EventId>) -> (r: Self)
        ensures
            r@ == events@,
    {
        ActiveEvents(events)
    }

    pub fn empty() -> (r: Self)
        ensures
            r@ == Seq::<EventId>::empty(),
    {
        ActiveEvents(Vec::new())
    }

    pub fn is_empty(&self) -> (r: bool)
        ensures
            r <==> self@.len() == 0,
    {
        self.0.len() == 0
    }

    pub fn len(&self) -> (r: usize)
        ensures
            r == self@.len(),
    {
        self.0.len()
    }

    /// Whether `id` is among the active events.
    pub fn contains(&self, id: EventId) -> (r: bool)
        ensures
            r <==> self@.contains(id),
    {
        let mut i: usize = 0;
        while i < self.0.len()
            invariant
                0 <= i <= self@.len(),
                forall|j: int| 0 <= j < i ==> self@[j] != id,
            decreases self@.len() - i,
        {
            if self.0[i] == id {
                return true;
            }
            i = i + 1;
        }
        false
    }

    /// Record an activation instance.
    pub fn insert(&mut self, id: EventId)
        ensures
            final(self)@ == old(self)@.push(id),
    {
        self.0.push(id);
    }

    /// A fresh copy of the ID list.
    pub fn duplicate(&self) -> (r: Self)
        ensures
            r@ == self@,
    {
        let mut out: Vec<EventId> = Vec::new();
        let mut i: usize = 0;
        while i < self.0.len()
            invariant
                0 <= i <= self@.len(),
                out@ == self@.take(i as int),
            decreases self@.len() - i,
        {
            proof {
                assert(self@.take(i + 1 as int) =~= self@.take(i as int).push(self@[i as int]));
            }
            out.push(self.0[i]);
            i = i + 1;
        }
        proof {
            assert(self@.take(self@.len() as int) =~= self@);
        }
        ActiveEvents(out)
    }

    /// Remove one occurrence of an ID by value.
    ///
    /// If the ID existed in the set and was removed, this returns true.
    /// A missing ID is a tolerated no-op.
    pub fn remove(&mut self, id: EventId) -> (r: bool)
        ensures
            r <==> old(self)@.contains(id),
            !r ==> final(self)@ == old(self)@,
            r ==> final(self)@.to_multiset() == old(self)@.to_multiset().remove(id),
            r ==> final(self)@.len() == old(self)@.len() - 1,
            forall|e: EventId| e != id ==> (final(self)@.contains(e) <==> old(self)@.contains(e)),
            old(self)@.to_multiset().count(id) <= 1 ==> !final(self)@.contains(id),
    {
        let ghost oldv = self@;
        let mut i: usize = 0;
        while i < self.0.len()
            invariant
                0 <= i <= self@.len(),
                oldv == old(self)@,
                self@ == oldv,
                forall|j: int| 0 <= j < i ==> self@[j] != id,
            decreases self@.len() - i,
        {
            if self.0[i] == id {
                proof {
                    assert(oldv[i as int] == id);
                    assert(oldv.contains(id));
                }
                self.0.remove(i);
                proof {
                    assert(self@ == oldv.remove(i as int));
                    assert(oldv.remove(i as int).to_multiset() == oldv.to_multiset().remove(id));
                    assert forall|e: EventId| e != id implies (self@.contains(e) <==> oldv.contains(
                        e,
                    )) by {
                        assert(self@.to_multiset().count(e) == oldv.to_multiset().count(e));
                    }
                    if oldv.to_multiset().count(id) <= 1 {
                        assert(self@.to_multiset().count(id) == 0);
                    }
                }
                return true;
            }
            i = i + 1;
        }
        false
    }
}

impl Default for ActiveEvents {
    /// No activation instances.
    fn default() -> (r: Self)
        ensures
            r@ == Seq::<EventId>::empty(),
    {
        ActiveEvents(Vec::new())
    }
}

/// The durable execution record of one node.
#[derive(Debug, Clone, PartialEq, Eq)]
pub struct FragmentState {
    /// How many activation cycles this node has started.
    pub triggered: usize,
    /// How many activation cycles this node has finished.
    pub completed: usize,
    /// Whether an activation instance is currently passing through the node.
    pub active: bool,
    /// The IDs of the in-flight activation instances.
    pub active_events: ActiveEvents,
}

/// A node is active exactly when an activation instance is passing
/// through it. Fresh states satisfy this, and the event propagation
/// passes preserve it.
pub open spec fn event_consistent(s: FragmentState) -> bool {
    s.active <==> s.active_events@.len() > 0
}

impl Default for FragmentState {
    /// Never triggered, never completed, no in-flight activation.
    fn default() -> (r: Self)
        ensures
            r.triggered == 0,
            r.completed == 0,
            r.active == false,
            r.active_events@ == Seq::<EventId>::empty(),
    {
        FragmentState {
            triggered: 0,
            completed: 0,
            active: false,
            active_events: ActiveEvents::empty(),
        }
    }
}

/// Two records that hold the same data (down to the view of the
/// in-flight set).
pub open spec fn state_eq(a: FragmentState, b: FragmentState) -> bool {
    &&& a.triggered == b.triggered
    &&& a.completed == b.completed
    &&& a.active == b.active
    &&& a.active_events@ == b.active_events@
}

impl FragmentState {
    /// A fresh copy of the record.
    pub fn duplicate(&self) -> (r: Self)
        ensures
            state_eq(r, *self),
    {
        FragmentState {
            triggered: self.triggered,
            completed: self.completed,
            active: self.active,
            active_events: self.active_events.duplicate(),
        }
    }
}

/// Counter increment that is total: the (unreachable in practice)
/// ceiling is kept rather than wrapped.
pub open spec fn bump(n: usize) -> usize {
    if n + 1 > usize::MAX {
        usize::MAX
    } else {
        (n + 1) as usize
    }
}

/// Increment a cycle counter, stopping at the ceiling.
pub fn bump_counter(n: usize) -> (r: usize)
    ensures
        r == bump(n),
{
    if n == usize::MAX {
        n
    } else {
        n + 1
    }
}

} // verus!
