//! The lifecycle of nodes, paths and edges.

use vstd::prelude::*;

verus! {

/// Lifecycle of anything that can be visited (node, path, edge).
///
/// Priority, from high to low: `Visited`, `Active`, `Available`, `Inactive`. Once
/// `Visited`, an entity may only become `Active` again (a revisit, which
/// [`crate::LevelMapPolicy`] can forbid).
#[derive(Clone, Copy, Debug, PartialEq, Eq, Hash, Structural)]
pub enum LocationState {
    Inactive,
    Available,
    Active,
    Visited,
}

impl Default for LocationState {
    fn default() -> (state: Self)
        ensures
            state == LocationState::Inactive,
    {
        LocationState::Inactive
    }
}

impl LocationState {
    /// The priority of a state.
    pub open spec fn rank(self) -> int {
        match self {
            LocationState::Inactive => 0,
            LocationState::Available => 1,
            LocationState::Active => 2,
            LocationState::Visited => 3,
        }
    }

    /// A state may be kept, may give way to one of higher priority, and may go from
    /// `Visited` back to `Active`.
    pub open spec fn may_become(self, to: LocationState) -> bool {
        ||| self.rank() <= to.rank()
        ||| (self == LocationState::Visited && to == LocationState::Active)
    }

    /// Whether the transition is allowed.
    pub fn can_transition(from: LocationState, to: LocationState) -> (r: bool)
        ensures
            r == from.may_become(to),
    {
        match (from, to) {
            (LocationState::Inactive, _) => true,
            (LocationState::Available, LocationState::Inactive) => false,
            (LocationState::Available, _) => true,
            (LocationState::Active, LocationState::Active) => true,
            (LocationState::Active, LocationState::Visited) => true,
            (LocationState::Active, _) => false,
            (LocationState::Visited, LocationState::Active) => true,
            (LocationState::Visited, LocationState::Visited) => true,
            (LocationState::Visited, _) => false,
        }
    }

    /// Whether writing `to` is a promotion: a transition that changes the state.
    pub fn is_promotion(from: LocationState, to: LocationState) -> (r: bool)
        ensures
            r == (from != to && from.may_become(to)),
    {
        match (from, to) {
            (LocationState::Visited, LocationState::Active) => true,
            (LocationState::Visited, _) => false,
            (LocationState::Active, LocationState::Visited) => true,
            (LocationState::Active, _) => false,
            (LocationState::Available, LocationState::Active) => true,
            (LocationState::Available, LocationState::Visited) => true,
            (LocationState::Available, _) => false,
            (LocationState::Inactive, LocationState::Inactive) => false,
            (LocationState::Inactive, _) => true,
        }
    }
}

/// The only way down the priorities is from `Visited` to `Active`.
pub proof fn law_only_a_revisit_steps_down(from: LocationState, to: LocationState)
    requires
        from.may_become(to),
        to.rank() < from.rank(),
    ensures
        from == LocationState::Visited,
        to == LocationState::Active,
{
}

/// Which transitions are allowed: to the same state, from `Inactive` to any, from
/// `Available` to what is higher, from `Active` to `Visited`, and back.
pub proof fn law_transitions(from: LocationState, to: LocationState)
    ensures
        from.may_become(to) <==> match (from, to) {
            (LocationState::Inactive, _) => true,
            (LocationState::Available, next) => next != LocationState::Inactive,
            (LocationState::Active, next) | (LocationState::Visited, next) => next
                == LocationState::Active || next == LocationState::Visited,
        },
{
}

} // verus!
