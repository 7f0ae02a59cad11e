//! The decision latches of a user.
//!
//! A user's decision rests on a utility that each message moves; whether the
//! utility is positive after an update is the *inner* decision. A
//! `DecisionAny` reports the inner decision of every update; a `DecisionOnce`
//! reports it only the first time it is positive, and never again.

use vstd::prelude::*;

verus! {

/// A decision that holds whenever the inner decision of the last update held.
#[derive(Clone, Copy, Debug)]
pub struct DecisionAny {
    decided: bool,
}

/// A decision that holds on the first update whose inner decision holds, and
/// on no update after it.
#[derive(Clone, Copy, Debug)]
pub struct DecisionOnce {
    decided: bool,
    done: bool,
}

/// The latch state `(decided, done)` after one update with inner decision
/// `inner` from the state `(_, done)`.
pub open spec fn once_step(done: bool, inner: bool) -> (bool, bool) {
    if !done {
        (inner, inner)
    } else {
        (false, true)
    }
}

/// The latch state `(decided, done)` after updates with the inner decisions
/// `inner`, from a fresh latch.
pub open spec fn once_run(inner: Seq<bool>) -> (bool, bool)
    decreases inner.len(),
{
    if inner.len() == 0 {
        (false, false)
    } else {
        once_step(once_run(inner.drop_last()).1, inner.last())
    }
}

impl DecisionAny {
    /// Whether the decision holds.
    pub closed spec fn view(&self) -> bool {
        self.decided
    }

    /// A decision that does not hold yet.
    pub fn new() -> (d: Self)
        ensures
            !d.view(),
    {
        DecisionAny { decided: false }
    }

    /// Records an update whose inner decision is `inner_decided`.
    pub fn update(&mut self, inner_decided: bool)
        ensures
            final(self).view() == inner_decided,
    {
        self.decided = inner_decided;
    }

    /// Whether the decision holds.
    pub fn decided(&self) -> (b: bool)
        ensures
            b == self.view(),
    {
        self.decided
    }
}

impl DecisionOnce {
    /// The pair `(decided, done)`: whether the decision holds now, and whether
    /// it has held on some update.
    pub closed spec fn view(&self) -> (bool, bool) {
        (self.decided, self.done)
    }

    /// A decision that has never held.
    pub fn new() -> (d: Self)
        ensures
            d.view() == (false, false),
    {
        DecisionOnce { decided: false, done: false }
    }

    /// Records an update whose inner decision is `inner_decided`: the decision
    /// holds if this is the first update whose inner decision holds.
    pub fn update(&mut self, inner_decided: bool)
        ensures
            final(self).view() == once_step(old(self).view().1, inner_decided),
    {
        if !self.done {
            self.decided = inner_decided;
            if self.decided {
                self.done = true;
            }
        } else {
            self.decided = false;
        }
    }

    /// Whether the decision holds.
    pub fn decided(&self) -> (b: bool)
        ensures
            b == self.view().0,
    {
        self.decided
    }
}

/// A `DecisionOnce` fires exactly once: after a run of updates it holds if and
/// only if the last inner decision held and no earlier one did, and it has
/// held at some point if and only if some inner decision held.
pub proof fn lemma_decision_once_fires_once(inner: Seq<bool>)
    ensures
        once_run(inner).0 <==> (inner.len() > 0 && inner.last() && forall|k: int|
            0 <= k < inner.len() - 1 ==> !#[trigger] inner[k]),
        once_run(inner).1 <==> exists|k: int| 0 <= k < inner.len() && #[trigger] inner[k],
    decreases inner.len(),
{
    if inner.len() > 0 {
        let prev = inner.drop_last();
        lemma_decision_once_fires_once(prev);
        assert forall|k: int| 0 <= k < prev.len() implies #[trigger] prev[k] == inner[k] by {}
        if once_run(prev).1 {
            let k = choose|k: int| 0 <= k < prev.len() && #[trigger] prev[k];
            assert(inner[k]);
        } else {
            assert forall|k: int| 0 <= k < inner.len() - 1 implies !#[trigger] inner[k] by {
                assert(prev[k] == inner[k]);
            }
        }
        if inner.last() {
            assert(inner[inner.len() - 1]);
        }
        if exists|k: int| 0 <= k < inner.len() && #[trigger] inner[k] {
            let k = choose|k: int| 0 <= k < inner.len() && #[trigger] inner[k];
            if k < inner.len() - 1 {
                assert(prev[k]);
            }
        }
    }
}

/// Over any run of updates a `DecisionOnce` holds after at most one of them:
/// it never holds after two different prefixes of the run.
pub proof fn lemma_decision_once_holds_at_most_once(inner: Seq<bool>, i: int, j: int)
    requires
        0 <= i < j <= inner.len(),
    ensures
        !(once_run(inner.take(i)).0 && once_run(inner.take(j)).0),
{
    let a = inner.take(i);
    let b = inner.take(j);
    lemma_decision_once_fires_once(a);
    lemma_decision_once_fires_once(b);
    if once_run(a).0 && once_run(b).0 {
        assert(a.last() == b[i - 1]);
        assert(!b[i - 1]);
    }
}

} // verus!
