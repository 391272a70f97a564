use crate::model::Model;
use crate::move_::Board;
use crate::passenger::Id as PId;
use crate::rule::{Result, Rule};
use crate::state::State;
use crate::station::Id as SId;
use crate::types::id_sets;
use vstd::prelude::*;

verus! {

/// The path of the group boarding in `a` passes the destination of group
/// `q`, or the path of `q` from the same station passes the destination of
/// the boarding group.
pub open spec fn overlaps(a: Board, q: PId, model: &Model) -> bool {
    let a_des = model.passengers@[a.p_id as int].destination;
    let b_des = model.passengers@[q as int].destination;
    model.paths@[a.s_id as int]@[a_des as int].path@.contains(b_des)
        || model.paths@[a.s_id as int]@[b_des as int].path@.contains(a_des)
}

/// Boarding a group whose path overlaps that of a group aboard is preferred.
pub open spec fn rule_spec(a: Board, state: &State, model: &Model) -> Result {
    let aboard = state.t_passengers@[a.t_id as int]@;
    if exists|k: int| 0 <= k < aboard.len() && overlaps(a, #[trigger] aboard[k], model) {
        Result::Decided(true)
    } else {
        Result::Abstain
    }
}

/// Whether station `x` lies on `path`.
fn passes(path: &Vec<SId>, x: SId) -> (r: bool)
    ensures
        r == path@.contains(x),
{
    let mut i: usize = 0;
    while i < path.len()
        invariant
            0 <= i <= path@.len(),
            forall|j: int| 0 <= j < i ==> path@[j] != x,
        decreases path@.len() - i,
    {
        if path[i] == x {
            return true;
        }
        i = i + 1;
    }
    false
}

pub fn rule(a: &Board, state: &State, model: &Model) -> (r: Result)
    requires
        model.wf(),
        state.inv(model),
        a.t_id < model.n_trains(),
        a.p_id < model.n_passengers(),
        a.s_id < model.n_stations(),
    ensures
        r == rule_spec(*a, state, model),
{
    let aboard = &state.t_passengers[a.t_id];
    let a_des = model.passengers[a.p_id].destination;
    let path_a = &model.paths[a.s_id][a_des].path;
    let mut k: usize = 0;
    while k < aboard.len()
        invariant
            model.wf(),
            state.inv(model),
            a.t_id < model.n_trains(),
            a.p_id < model.n_passengers(),
            a.s_id < model.n_stations(),
            *aboard == state.t_passengers@[a.t_id as int],
            a_des == model.passengers@[a.p_id as int].destination,
            *path_a == model.paths@[a.s_id as int]@[a_des as int].path,
            0 <= k <= aboard@.len(),
            forall|j: int| 0 <= j < k ==> !overlaps(*a, #[trigger] aboard@[j], model),
        decreases aboard@.len() - k,
    {
        let p_id = aboard[k];
        proof {
            assert(id_sets(state.t_passengers@)[a.t_id as int].contains(p_id));
        }
        let b_des = model.passengers[p_id].destination;
        if passes(path_a, b_des) {
            return Result::Decided(true);
        }
        if passes(&model.paths[a.s_id][b_des].path, a_des) {
            return Result::Decided(true);
        }
        k = k + 1;
    }
    Result::Abstain
}

/// Board groups that travel the same way together.
pub fn rules() -> (r: Vec<Rule>)
    ensures
        r@ == seq![Rule::BoardByTravelPathDepart, Rule::BoardByTravelPathWaiting],
{
    vec![Rule::BoardByTravelPathDepart, Rule::BoardByTravelPathWaiting]
}

} // verus!
