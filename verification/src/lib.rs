//! A hierarchical event-sequencing engine.
//!
//! A tree of fragments (nodes) represents branching, conditional, ordered,
//! or randomized units of content. Each tick, facets attached to the nodes
//! vote on their eligibility, a top-down selection picks the most specific
//! eligible leaves, and begin/end/interrupt events are propagated along the
//! path from each activated leaf to its root, updating per-node counters.

use vstd::prelude::*;

pub mod combinators;
pub mod evaluate;
pub mod events;
pub mod facets;
pub mod rng;
pub mod save;
pub mod select;
pub mod state;
pub mod tree;

verus! {

/// Shorthand for `Send + Sync + 'static`
pub trait Threaded: Send + Sync + 'static {

}

impl<T: Send + Sync + 'static> Threaded for T {

}

} // verus!
