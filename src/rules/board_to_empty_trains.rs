use crate::model::Model;
use crate::move_::Board;
use crate::rule::{Result, Rule};
use crate::state::State;
use vstd::prelude::*;

verus! {

/// Boarding a train with no group aboard is preferred.
pub open spec fn rule_spec(a: Board, state: &State, model: &Model) -> Result {
    if state.t_capacity@[a.t_id as int] == model.trains@[a.t_id as int].capacity {
        Result::Decided(true)
    } else {
        Result::Abstain
    }
}

pub fn rule(a: &Board, state: &State, model: &Model) -> (r: Result)
    requires
        model.wf(),
        state.inv(model),
        a.t_id < model.n_trains(),
    ensures
        r == rule_spec(*a, state, model),
{
    if state.t_capacity[a.t_id] == model.trains[a.t_id].capacity {
        Result::Decided(true)
    } else {
        Result::Abstain
    }
}

/// Fill empty trains.
pub fn rules() -> (r: Vec<Rule>)
    ensures
        r@ == seq![Rule::BoardToEmptyDepart, Rule::BoardToEmptyWaiting],
{
    vec![Rule::BoardToEmptyDepart, Rule::BoardToEmptyWaiting]
}

} // verus!
