use crate::model::Model;
use crate::move_::Board;
use crate::rule::{Result, Rule};
use crate::state::State;
use vstd::prelude::*;

verus! {

/// Boarding a group that shares its destination with a group aboard is
/// preferred to waiting.
pub open spec fn rule_spec(a: Board, state: &State, model: &Model) -> Result {
    let aboard = state.t_passengers@[a.t_id as int]@;
    if exists|k: int|
        0 <= k < aboard.len() && model.passengers@[(#[trigger] aboard[k]) as int].destination
            == model.passengers@[a.p_id as int].destination {
        Result::Decided(true)
    } else {
        Result::Abstain
    }
}

pub fn rule(a: &Board, state: &State, model: &Model) -> (r: Result)
    requires
        model.wf(),
        state.inv(model),
        a.t_id < model.n_trains(),
        a.p_id < model.n_passengers(),
    ensures
        r == rule_spec(*a, state, model),
{
    let aboard = &state.t_passengers[a.t_id];
    let destination = model.passengers[a.p_id].destination;
    let mut k: usize = 0;
    while k < aboard.len()
        invariant
            model.wf(),
            state.inv(model),
            a.t_id < model.n_trains(),
            *aboard == state.t_passengers@[a.t_id as int],
            destination == model.passengers@[a.p_id as int].destination,
            0 <= k <= aboard@.len(),
            forall|j: int|
                0 <= j < k ==> model.passengers@[(#[trigger] aboard@[j]) as int].destination != destination,
        decreases aboard@.len() - k,
    {
        let p_id = aboard[k];
        proof {
            assert(crate::types::id_sets(state.t_passengers@)[a.t_id as int].contains(p_id));
        }
        if model.passengers[p_id].destination == destination {
            return Result::Decided(true);
        }
        k = k + 1;
    }
    Result::Abstain
}

/// Board groups that travel to the same destination together.
pub fn rules() -> (r: Vec<Rule>)
    ensures
        r@ == seq![Rule::BoardByDestination],
{
    vec![Rule::BoardByDestination]
}

} // verus!
