use crate::model::Model;
use crate::move_::Start;
use crate::passenger::Id as PId;
use crate::rule::{Result, Rule};
use crate::rules::capped;
use crate::state::State;
use crate::types::{id_sets, Capacity};
use vstd::prelude::*;

verus! {

/// The total required arrival time of the groups of `ids` that fit in `room`.
pub open spec fn arrival_sum(ids: Seq<PId>, room: int, model: &Model) -> int
    decreases ids.len(),
{
    if ids.len() == 0 {
        0
    } else {
        arrival_sum(ids.drop_last(), room, model) + if model.size(ids.last() as int) <= room {
            model.passengers@[ids.last() as int].arrival as int
        } else {
            0
        }
    }
}

/// A start at a station where a group waits that fits the train wins over
/// waiting.
pub open spec fn waiting_spec(a: Start, state: &State, model: &Model) -> Result {
    let waiting = state.s_passengers@[a.s_id as int]@;
    if exists|k: int|
        0 <= k < waiting.len() && model.size(#[trigger] waiting[k] as int) <= state.t_capacity@[a.t_id as int] {
        Result::Decided(true)
    } else {
        Result::Abstain
    }
}

/// Of two starts, the one at a station where a group waits that fits its
/// train wins; when both or neither have one, the station whose fitting
/// groups are due earlier in total wins.
pub open spec fn start_spec(a: Start, b: Start, state: &State, model: &Model) -> Result {
    let fits_a = waiting_spec(a, state, model) is Decided;
    let fits_b = waiting_spec(b, state, model) is Decided;
    if fits_a && !fits_b {
        Result::Decided(true)
    } else if !fits_a && fits_b {
        Result::Decided(false)
    } else {
        Result::Decided(
            capped(arrival_sum(state.s_passengers@[a.s_id as int]@, state.t_capacity@[a.t_id as int] as int, model))
                < capped(arrival_sum(state.s_passengers@[b.s_id as int]@, state.t_capacity@[b.t_id as int] as int, model)),
        )
    }
}

pub fn waiting(a: &Start, state: &State, model: &Model) -> (r: Result)
    requires
        model.wf(),
        state.inv(model),
        a.t_id < model.n_trains(),
        a.s_id < model.n_stations(),
    ensures
        r == waiting_spec(*a, state, model),
{
    let ids = &state.s_passengers[a.s_id];
    let room = state.t_capacity[a.t_id];
    let mut k: usize = 0;
    while k < ids.len()
        invariant
            model.wf(),
            state.inv(model),
            a.s_id < model.n_stations(),
            *ids == state.s_passengers@[a.s_id as int],
            room == state.t_capacity@[a.t_id as int],
            0 <= k <= ids@.len(),
            forall|j: int| 0 <= j < k ==> model.size(#[trigger] ids@[j] as int) > room,
        decreases ids@.len() - k,
    {
        let p_id = ids[k];
        proof {
            assert(id_sets(state.s_passengers@)[a.s_id as int].contains(p_id));
        }
        if model.passengers[p_id].size <= room {
            return Result::Decided(true);
        }
        k = k + 1;
    }
    Result::Abstain
}

/// The arrival sum of the groups waiting at the start station of `a` that
/// fit its train, capped at `u64::MAX`.
fn start_arrivals(a: &Start, state: &State, model: &Model) -> (r: u64)
    requires
        model.wf(),
        state.inv(model),
        a.t_id < model.n_trains(),
        a.s_id < model.n_stations(),
    ensures
        r == capped(arrival_sum(state.s_passengers@[a.s_id as int]@, state.t_capacity@[a.t_id as int] as int, model)),
{
    let ids = &state.s_passengers[a.s_id];
    let room: Capacity = state.t_capacity[a.t_id];
    let mut total: u64 = 0;
    let mut k: usize = 0;
    while k < ids.len()
        invariant
            model.wf(),
            state.inv(model),
            a.s_id < model.n_stations(),
            *ids == state.s_passengers@[a.s_id as int],
            room == state.t_capacity@[a.t_id as int],
            0 <= k <= ids@.len(),
            total == capped(arrival_sum(ids@.subrange(0, k as int), room as int, model)),
            arrival_sum(ids@.subrange(0, k as int), room as int, model) >= 0,
        decreases ids@.len() - k,
    {
        let p_id = ids[k];
        proof {
            assert(id_sets(state.s_passengers@)[a.s_id as int].contains(p_id));
            assert(ids@.subrange(0, k + 1).drop_last() =~= ids@.subrange(0, k as int));
        }
        if model.passengers[p_id].size <= room {
            total = total.saturating_add(model.passengers[p_id].arrival as u64);
        }
        k = k + 1;
    }
    proof {
        assert(ids@.subrange(0, ids@.len() as int) =~= ids@);
    }
    total
}

pub fn start(a: &Start, b: &Start, state: &State, model: &Model) -> (r: Result)
    requires
        model.wf(),
        state.inv(model),
        a.t_id < model.n_trains(),
        a.s_id < model.n_stations(),
        b.t_id < model.n_trains(),
        b.s_id < model.n_stations(),
    ensures
        r == start_spec(*a, *b, state, model),
{
    let fits_a = waiting(a, state, model).is_some();
    let fits_b = waiting(b, state, model).is_some();
    if fits_a && !fits_b {
        return Result::Decided(true);
    }
    if !fits_a && fits_b {
        return Result::Decided(false);
    }
    let a_sum = start_arrivals(a, state, model);
    let b_sum = start_arrivals(b, state, model);
    Result::Decided(a_sum < b_sum)
}

/// Choose where a train starts: at a station with a group that fits, the
/// earlier due the better.
pub fn rules() -> (r: Vec<Rule>)
    ensures
        r@ == seq![Rule::ChooseStartWaiting, Rule::ChooseStartStart],
{
    vec![Rule::ChooseStartWaiting, Rule::ChooseStartStart]
}

} // verus!
