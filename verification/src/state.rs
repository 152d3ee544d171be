//! A strictly ordered, one-directional progression through three named states.

use vstd::prelude::*;

verus! {

/// The states of the linear protocol, in their declared order.
#[derive(Clone, Copy, Debug, PartialEq, Eq, Structural)]
pub enum State {
    Initial,
    Intermediate,
    Final,
}

/// Raised when asked to advance past the terminal state.
#[derive(Clone, Copy, Debug, PartialEq, Eq, Structural)]
pub enum TransitionError {
    InvalidTransition,
}

/// The unique declared successor of each state; the terminal state has none.
pub open spec fn successor(s: State) -> Option<State> {
    match s {
        State::Initial => Some(State::Intermediate),
        State::Intermediate => Some(State::Final),
        State::Final => None,
    }
}

/// Advances a state to its unique declared successor.
///
/// The only legal edges are Initial to Intermediate and Intermediate to
/// Final; advancing past Final fails with `InvalidTransition`.
pub fn transition(current: State) -> (r: Result<State, TransitionError>)
    ensures
        r == (match successor(current) {
            Some(next) => Ok::<State, TransitionError>(next),
            None => Err::<State, TransitionError>(TransitionError::InvalidTransition),
        }),
        current == State::Initial ==> r == Ok::<State, TransitionError>(State::Intermediate),
        current == State::Intermediate ==> r == Ok::<State, TransitionError>(State::Final),
        current == State::Final ==> r == Err::<State, TransitionError>(
            TransitionError::InvalidTransition,
        ),
{
    match current {
        State::Initial => Ok(State::Intermediate),
        State::Intermediate => Ok(State::Final),
        State::Final => Err(TransitionError::InvalidTransition),
    }
}

} // verus!
