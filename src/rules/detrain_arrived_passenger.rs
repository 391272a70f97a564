use crate::model::Model;
use crate::move_::Detrain;
use crate::rule::{Result, Rule};
use vstd::prelude::*;

verus! {

/// Leaving the train at the group's destination is preferred.
pub open spec fn arrival_spec(a: Detrain, model: &Model) -> Result {
    if a.s_id == model.passengers@[a.p_id as int].destination {
        Result::Decided(true)
    } else {
        Result::Abstain
    }
}

pub fn arrival(a: &Detrain, model: &Model) -> (r: Result)
    requires
        a.p_id < model.n_passengers(),
    ensures
        r == arrival_spec(*a, model),
{
    if a.s_id == model.passengers[a.p_id].destination {
        Result::Decided(true)
    } else {
        Result::Abstain
    }
}

/// Groups leave their train when it stands at their destination.
pub fn rules() -> (r: Vec<Rule>)
    ensures
        r@ == seq![Rule::ArrivalBeforeBoard, Rule::ArrivalBeforeDepart, Rule::ArrivalBeforeWaiting],
{
    vec![Rule::ArrivalBeforeBoard, Rule::ArrivalBeforeDepart, Rule::ArrivalBeforeWaiting]
}

} // verus!
