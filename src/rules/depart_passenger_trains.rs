use crate::model::Model;
use crate::move_::Depart;
use crate::rule::{Result, Rule};
use crate::state::State;
use vstd::prelude::*;

verus! {

/// A train with a group aboard departs rather than waits.
pub open spec fn rule_spec(a: Depart, state: &State, model: &Model) -> Result {
    if state.t_capacity@[a.t_id as int] < model.trains@[a.t_id as int].capacity {
        Result::Decided(true)
    } else {
        Result::Abstain
    }
}

pub fn rule(a: &Depart, state: &State, model: &Model) -> (r: Result)
    requires
        model.wf(),
        state.inv(model),
        a.t_id < model.n_trains(),
    ensures
        r == rule_spec(*a, state, model),
{
    if state.t_capacity[a.t_id] < model.trains[a.t_id].capacity {
        Result::Decided(true)
    } else {
        Result::Abstain
    }
}

/// Trains with passengers should depart.
pub fn rules() -> (r: Vec<Rule>)
    ensures
        r@ == seq![Rule::DepartPassengerTrains],
{
    vec![Rule::DepartPassengerTrains]
}

} // verus!
