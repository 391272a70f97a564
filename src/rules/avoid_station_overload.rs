use crate::model::Model;
use crate::move_::{Depart, Start};
use crate::rule::{Result, Rule};
use crate::state::State;
use crate::types::Time;
use vstd::prelude::*;

verus! {

/// When the train of `a` reaches its destination, if it departs now.
pub open spec fn arrival_time(a: Depart, state: &State, model: &Model) -> int {
    let x = state.t + model.travel_time(a.t_id, a.c_id);
    if x > usize::MAX {
        usize::MAX as int
    } else {
        x
    }
}

/// A departure loses to waiting when its destination would be overloaded
/// on arrival, once the trains now heading there have arrived too.
pub open spec fn depart_spec(a: Depart, state: &State, model: &Model) -> Result {
    let estimate = state.s_capacity@[a.to as int] - state.arrivals_by(arrival_time(a, state, model), a.to, model);
    if estimate - 1 < 0 {
        Result::Decided(false)
    } else {
        Result::Abstain
    }
}

/// A start loses to waiting when its station has no room left by the end of
/// the horizon.
pub open spec fn start_spec(a: Start, state: &State, model: &Model) -> Result {
    if state.s_capacity@[a.s_id as int] - state.arrivals_by(model.t_max as int, a.s_id, model) <= 0 {
        Result::Decided(false)
    } else {
        Result::Abstain
    }
}

pub fn depart(a: &Depart, state: &State, model: &Model) -> (r: Result)
    requires
        model.wf(),
        state.inv(model),
        a.t_id < model.n_trains(),
        a.c_id < model.n_connections(),
        a.to < model.n_stations(),
    ensures
        r == depart_spec(*a, state, model),
{
    let travel = model.train_arrival(a.t_id, a.c_id);
    let at: Time = if (state.t as u128) + (travel as u128) > usize::MAX as u128 {
        usize::MAX
    } else {
        state.t + travel as usize
    };
    let estimate = state.est_s_cap(at, a.to, model);
    if estimate - 1 < 0 {
        Result::Decided(false)
    } else {
        Result::Abstain
    }
}

pub fn start(a: &Start, state: &State, model: &Model) -> (r: Result)
    requires
        model.wf(),
        state.inv(model),
        a.s_id < model.n_stations(),
    ensures
        r == start_spec(*a, state, model),
{
    if state.est_s_cap(model.t_max, a.s_id, model) <= 0 {
        Result::Decided(false)
    } else {
        Result::Abstain
    }
}

/// Avoid station overload.
pub fn rules() -> (r: Vec<Rule>)
    ensures
        r@ == seq![Rule::AvoidOverloadDepart, Rule::AvoidOverloadStart],
{
    vec![Rule::AvoidOverloadDepart, Rule::AvoidOverloadStart]
}

} // verus!
