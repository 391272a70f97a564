use crate::move_::Depart;
use crate::rule::{Result, Rule};
use crate::state::State;
use vstd::prelude::*;

verus! {

/// A train leaves a full station where no group waits rather than waits.
pub open spec fn waiting_spec(a: Depart, state: &State) -> Result {
    if state.s_capacity@[a.from as int] == 0 && state.s_passengers@[a.from as int]@.len() == 0 {
        Result::Decided(true)
    } else {
        Result::Abstain
    }
}

/// Of two departures, the one towards the station with more room wins.
pub open spec fn depart_spec(a: Depart, b: Depart, state: &State) -> Result {
    Result::Decided(state.s_capacity@[a.to as int] > state.s_capacity@[b.to as int])
}

pub fn waiting(a: &Depart, state: &State) -> (r: Result)
    requires
        a.from < state.s_capacity@.len(),
        a.from < state.s_passengers@.len(),
    ensures
        r == waiting_spec(*a, state),
{
    if state.s_capacity[a.from] == 0 && state.s_passengers[a.from].len() == 0 {
        Result::Decided(true)
    } else {
        Result::Abstain
    }
}

pub fn depart(a: &Depart, b: &Depart, state: &State) -> (r: Result)
    requires
        a.to < state.s_capacity@.len(),
        b.to < state.s_capacity@.len(),
    ensures
        r == depart_spec(*a, *b, state),
{
    Result::Decided(state.s_capacity[a.to] > state.s_capacity[b.to])
}

/// Depart from full stations without waiting groups, towards the station
/// with the most room.
pub fn rules() -> (r: Vec<Rule>)
    ensures
        r@ == seq![Rule::FreeUpSpaceWaiting, Rule::FreeUpSpaceDepart],
{
    vec![Rule::FreeUpSpaceWaiting, Rule::FreeUpSpaceDepart]
}

} // verus!
