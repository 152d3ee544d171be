use libraries_rust::state::{transition, State, TransitionError};

#[test]
fn initial_advances_to_intermediate() {
    assert_eq!(transition(State::Initial), Ok(State::Intermediate));
}

#[test]
fn intermediate_advances_to_final() {
    assert_eq!(transition(State::Intermediate), Ok(State::Final));
}

#[test]
fn terminal_state_has_no_successor() {
    assert_eq!(
        transition(State::Final),
        Err(TransitionError::InvalidTransition)
    );
}

#[test]
fn two_transitions_reach_the_terminal_state() {
    let initial = State::Initial;
    let intermediate = transition(initial).unwrap();
    let final_state = transition(intermediate).unwrap();
    assert_eq!(final_state, State::Final);
}
