//! Boolean-or-abstain votes and their merge law.
//!
//! Each facet attached to a node writes one vote into the node's
//! [`Evaluation`] slot per tick. `result == None` means "abstain";
//! `Some(b)` is a definite vote. Merging two definite votes ANDs the
//! booleans and adds the specificity counts; an abstain leaves the
//! other side unchanged. The count doubles as a tie-break cost during
//! selection: more merged votes mean a more specific path.

use vstd::prelude::*;

verus! {

/// A node's boolean-or-abstain opinion on its own eligibility this tick,
/// together with the number of votes merged into it (its specificity).
#[derive(Debug, Clone, Copy, PartialEq, Eq, Structural)]
pub struct Evaluation {
    pub result: Option<bool>,
    pub count: usize,
}

/// Saturating addition on specificity counts, so that the merge law is
/// total (and stays associative and commutative at the ceiling).
pub open spec fn sat_add(a: usize, b: usize) -> usize {
    if a + b > usize::MAX {
        usize::MAX
    } else {
        (a + b) as usize
    }
}

/// The merge law: two definite votes AND their booleans and add their
/// counts; an abstain yields the other side's vote unchanged; two
/// abstains yield the left side.
pub open spec fn merged(a: Evaluation, b: Evaluation) -> Evaluation {
    match (a.result, b.result) {
        (Some(x), Some(y)) => Evaluation { result: Some(x && y), count: sat_add(a.count, b.count) },
        (None, Some(_)) => b,
        _ => a,
    }
}

/// The all-abstain evaluation: no opinion, no votes counted.
pub open spec fn abstain() -> Evaluation {
    Evaluation { result: None, count: 0 }
}

/// A single definite vote.
pub open spec fn vote(b: bool) -> Evaluation {
    Evaluation { result: Some(b), count: 1 }
}

impl Evaluation {
    /// Merge another vote into this slot.
    pub fn merge(&mut self, other: Evaluation)
        ensures
            *final(self) == merged(*old(self), other),
    {
        *self = self.and(other);
    }

    /// The merge of two votes, as a value.
    pub fn and(self, rhs: Evaluation) -> (r: Evaluation)
        ensures
            r == merged(self, rhs),
    {
        match (self.result, rhs.result) {
            (Some(a), Some(b)) => Evaluation {
                result: Some(a && b),
                count: self.count.saturating_add(rhs.count),
            },
            (None, Some(_)) => rhs,
            _ => self,
        }
    }
}

impl Default for Evaluation {
    /// The default slot is the all-abstain evaluation.
    fn default() -> (r: Self)
        ensures
            r == abstain(),
    {
        Evaluation { result: None, count: 0 }
    }
}

/// Merging is associative, for every pair of votes or abstains.
pub proof fn lemma_merge_associative(a: Evaluation, b: Evaluation, c: Evaluation)
    ensures
        merged(merged(a, b), c) == merged(a, merged(b, c)),
{
}

/// Merging is commutative whenever at least one side holds a definite
/// vote or the counts agree. (Two abstains with different counts keep
/// the left count, so those are left out.)
pub proof fn lemma_merge_commutative(a: Evaluation, b: Evaluation)
    requires
        a.result is Some || b.result is Some || a.count == b.count,
    ensures
        merged(a, b) == merged(b, a),
{
}

/// Merging any value with the all-abstain evaluation leaves it
/// unchanged. On the left, an abstain also disappears against any
/// definite vote or against another count-0 abstain. (Merging the
/// all-abstain with an abstain that carries a nonzero count keeps
/// the zero count, so that pair is left out.)
pub proof fn lemma_merge_abstain_identity(a: Evaluation)
    ensures
        merged(a, abstain()) == a,
        a.result is Some || a.count == 0 ==> merged(abstain(), a) == a,
{
}

/// A value whose vote can be written into an [`Evaluation`] slot.
pub trait Evaluate {
    /// The evaluation this value stands for.
    spec fn spec_evaluate(&self) -> Evaluation;

    /// Turn this value into an evaluation.
    fn evaluate(&self) -> (e: Evaluation)
        ensures
            e == self.spec_evaluate(),
    ;
}

impl Evaluate for bool {
    open spec fn spec_evaluate(&self) -> Evaluation {
        Evaluation { result: Some(*self), count: 1 }
    }

    fn evaluate(&self) -> (e: Evaluation) {
        Evaluation { result: Some(*self), count: 1 }
    }
}

impl Evaluate for Evaluation {
    open spec fn spec_evaluate(&self) -> Evaluation {
        *self
    }

    fn evaluate(&self) -> (e: Evaluation) {
        *self
    }
}

/// Whether every vote in a sequence of booleans is `true`.
pub open spec fn all_true(s: Seq<bool>) -> bool {
    forall|i: int| 0 <= i < s.len() ==> s[i]
}

impl<const N: usize> Evaluate for [bool; N] {
    /// An empty array abstains; otherwise the votes are ANDed, and the
    /// count records how many votes were given.
    open spec fn spec_evaluate(&self) -> Evaluation {
        Evaluation {
            result: if N == 0 {
                None
            } else {
                Some(all_true(self@))
            },
            count: N,
        }
    }

    fn evaluate(&self) -> (e: Evaluation) {
        let mut all: bool = true;
        let mut i: usize = 0;
        while i < N
            invariant
                0 <= i <= N,
                self@.len() == N,
                all == all_true(self@.subrange(0, i as int)),
            decreases N - i,
        {
            let ghost prev = self@.subrange(0, i as int);
            let ghost cur = self@.subrange(0, i + 1 as int);
            if !self[i] {
                all = false;
            }
            proof {
                assert(cur =~= prev.push(self@[i as int]));
                assert(cur[i as int] == self@[i as int]);
                if !all_true(prev) {
                    let j = choose|j: int| 0 <= j < prev.len() && !prev[j];
                    assert(!cur[j]);
                }
            }
            i = i + 1;
        }
        proof {
            assert(self@.subrange(0, self@.len() as int) =~= self@);
        }
        Evaluation {
            result: if N == 0 {
                None
            } else {
                Some(all)
            },
            count: N,
        }
    }
}

impl Evaluate for Vec<bool> {
    /// An empty list abstains; otherwise the votes are ANDed, and the
    /// count records how many votes were given.
    open spec fn spec_evaluate(&self) -> Evaluation {
        Evaluation {
            result: if self@.len() == 0 {
                None
            } else {
                Some(all_true(self@))
            },
            count: self@.len() as usize,
        }
    }

    fn evaluate(&self) -> (e: Evaluation) {
        let mut all: bool = true;
        let mut i: usize = 0;
        while i < self.len()
            invariant
                0 <= i <= self@.len(),
                all == all_true(self@.subrange(0, i as int)),
            decreases self@.len() - i,
        {
            let ghost prev = self@.subrange(0, i as int);
            let ghost cur = self@.subrange(0, i + 1 as int);
            if !self[i] {
                all = false;
            }
            proof {
                assert(cur =~= prev.push(self@[i as int]));
                assert(cur[i as int] == self@[i as int]);
                if !all_true(prev) {
                    let j = choose|j: int| 0 <= j < prev.len() && !prev[j];
                    assert(!cur[j]);
                }
            }
            i = i + 1;
        }
        proof {
            assert(self@.subrange(0, self@.len() as int) =~= self@);
        }
        Evaluation {
            result: if self.len() == 0 {
                None
            } else {
                Some(all)
            },
            count: self.len(),
        }
    }
}

} // verus!
