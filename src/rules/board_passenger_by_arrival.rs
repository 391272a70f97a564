use crate::model::Model;
use crate::move_::Board;
use crate::rule::{Result, Rule};
use vstd::prelude::*;

verus! {

/// Of two boardings, the group due earlier goes first.
pub open spec fn rule_spec(a: Board, b: Board, model: &Model) -> Result {
    Result::Decided(model.passengers@[a.p_id as int].arrival < model.passengers@[b.p_id as int].arrival)
}

pub fn rule(a: &Board, b: &Board, model: &Model) -> (r: Result)
    requires
        a.p_id < model.n_passengers(),
        b.p_id < model.n_passengers(),
    ensures
        r == rule_spec(*a, *b, model),
{
    Result::Decided(model.passengers[a.p_id].arrival < model.passengers[b.p_id].arrival)
}

/// Groups with an early required arrival board first.
pub fn rules() -> (r: Vec<Rule>)
    ensures
        r@ == seq![Rule::BoardByArrival],
{
    vec![Rule::BoardByArrival]
}

} // verus!
