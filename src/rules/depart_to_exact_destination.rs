use crate::model::Model;
use crate::move_::Depart;
use crate::rule::{Result, Rule};
use crate::state::State;
use crate::station::Id as SId;
use crate::train::Id as TId;
use crate::types::id_sets;
use vstd::prelude::*;

verus! {

/// Station `to` is the destination of a group aboard train `t`.
pub open spec fn serves(t: TId, to: SId, state: &State, model: &Model) -> bool {
    let aboard = state.t_passengers@[t as int]@;
    exists|k: int|
        0 <= k < aboard.len() && model.dist(to, model.passengers@[(#[trigger] aboard[k]) as int].destination) == 0
}

/// A departure to the destination of a group aboard wins.
pub open spec fn rule_spec(a: Depart, b: Depart, state: &State, model: &Model) -> Result {
    if serves(a.t_id, a.to, state, model) {
        Result::Decided(true)
    } else if serves(b.t_id, b.to, state, model) {
        Result::Decided(false)
    } else {
        Result::Abstain
    }
}

fn serving(t: TId, to: SId, state: &State, model: &Model) -> (r: bool)
    requires
        model.wf(),
        state.inv(model),
        t < model.n_trains(),
        to < model.n_stations(),
    ensures
        r == serves(t, to, state, model),
{
    let aboard = &state.t_passengers[t];
    let mut k: usize = 0;
    while k < aboard.len()
        invariant
            model.wf(),
            state.inv(model),
            t < model.n_trains(),
            to < model.n_stations(),
            *aboard == state.t_passengers@[t as int],
            0 <= k <= aboard@.len(),
            forall|j: int|
                0 <= j < k ==> model.dist(to, model.passengers@[(#[trigger] aboard@[j]) as int].destination) != 0,
        decreases aboard@.len() - k,
    {
        let p_id = aboard[k];
        proof {
            assert(id_sets(state.t_passengers@)[t as int].contains(p_id));
        }
        if model.distance(to, model.passengers[p_id].destination) == 0 {
            return true;
        }
        k = k + 1;
    }
    false
}

pub fn rule(a: &Depart, b: &Depart, state: &State, model: &Model) -> (r: Result)
    requires
        model.wf(),
        state.inv(model),
        a.t_id < model.n_trains(),
        a.to < model.n_stations(),
        b.t_id < model.n_trains(),
        b.to < model.n_stations(),
    ensures
        r == rule_spec(*a, *b, state, model),
{
    if serving(a.t_id, a.to, state, model) {
        Result::Decided(true)
    } else if serving(b.t_id, b.to, state, model) {
        Result::Decided(false)
    } else {
        Result::Abstain
    }
}

/// A train should depart to the exact destination of a group aboard.
pub fn rules() -> (r: Vec<Rule>)
    ensures
        r@ == seq![Rule::DepartToExactDestination],
{
    vec![Rule::DepartToExactDestination]
}

} // verus!
