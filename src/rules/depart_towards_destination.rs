use crate::model::Model;
use crate::move_::Depart;
use crate::passenger::Id as PId;
use crate::rule::{Result, Rule};
use crate::rules::capped;
use crate::state::State;
use crate::station::Id as SId;
use crate::train::Id as TId;
use crate::types::id_sets;
use vstd::prelude::*;

verus! {

/// The total shortest distance from `to` to the destinations of `ids`.
pub open spec fn distance_sum(ids: Seq<PId>, to: SId, model: &Model) -> int
    decreases ids.len(),
{
    if ids.len() == 0 {
        0
    } else {
        distance_sum(ids.drop_last(), to, model) + model.dist(to, model.passengers@[ids.last() as int].destination)
    }
}

/// Of two departures of trains with groups aboard, the one whose groups are
/// in total nearer their destinations wins.
pub open spec fn rule_spec(a: Depart, b: Depart, state: &State, model: &Model) -> Result {
    let aboard_a = state.t_passengers@[a.t_id as int]@;
    let aboard_b = state.t_passengers@[b.t_id as int]@;
    if aboard_a.len() == 0 || aboard_b.len() == 0 {
        Result::Abstain
    } else {
        Result::Decided(capped(distance_sum(aboard_a, a.to, model)) < capped(distance_sum(aboard_b, b.to, model)))
    }
}

/// The distance sum for the groups aboard train `t`, capped at `u64::MAX`.
fn aboard_distance(t: TId, to: SId, state: &State, model: &Model) -> (r: u64)
    requires
        model.wf(),
        state.inv(model),
        t < model.n_trains(),
        to < model.n_stations(),
    ensures
        r == capped(distance_sum(state.t_passengers@[t as int]@, to, model)),
{
    let aboard = &state.t_passengers[t];
    let mut total: u64 = 0;
    let mut k: usize = 0;
    while k < aboard.len()
        invariant
            model.wf(),
            state.inv(model),
            t < model.n_trains(),
            to < model.n_stations(),
            *aboard == state.t_passengers@[t as int],
            0 <= k <= aboard@.len(),
            total == capped(distance_sum(aboard@.subrange(0, k as int), to, model)),
            distance_sum(aboard@.subrange(0, k as int), to, model) >= 0,
        decreases aboard@.len() - k,
    {
        let p_id = aboard[k];
        proof {
            assert(id_sets(state.t_passengers@)[t as int].contains(p_id));
            assert(aboard@.subrange(0, k + 1).drop_last() =~= aboard@.subrange(0, k as int));
        }
        total = total.saturating_add(model.distance(to, model.passengers[p_id].destination));
        k = k + 1;
    }
    proof {
        assert(aboard@.subrange(0, aboard@.len() as int) =~= aboard@);
    }
    total
}

pub fn rule(a: &Depart, b: &Depart, state: &State, model: &Model) -> (r: Result)
    requires
        model.wf(),
        state.inv(model),
        a.t_id < model.n_trains(),
        a.to < model.n_stations(),
        b.t_id < model.n_trains(),
        b.to < model.n_stations(),
    ensures
        r == rule_spec(*a, *b, state, model),
{
    if state.t_passengers[a.t_id].len() == 0 || state.t_passengers[b.t_id].len() == 0 {
        return Result::Abstain;
    }
    let a_distance = aboard_distance(a.t_id, a.to, state, model);
    let b_distance = aboard_distance(b.t_id, b.to, state, model);
    Result::Decided(a_distance < b_distance)
}

/// A train should depart towards the destinations of its groups.
pub fn rules() -> (r: Vec<Rule>)
    ensures
        r@ == seq![Rule::DepartTowardsDestination],
{
    vec![Rule::DepartTowardsDestination]
}

} // verus!
