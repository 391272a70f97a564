pub mod avoid_station_overload;
pub mod board_by_destination;
pub mod board_by_travel_path;
pub mod board_passenger_by_arrival;
pub mod board_to_empty_trains;
pub mod choose_train_starts;
pub mod depart_passenger_trains;
pub mod depart_to_exact_destination;
pub mod depart_towards_destination;
pub mod detrain_arrived_passenger;
pub mod free_up_space;

use crate::rule::Rule;
use vstd::prelude::*;

verus! {

/// The rule catalog, highest precedence first.
pub open spec fn catalog() -> Seq<Rule> {
    seq![
        Rule::AvoidOverloadDepart,
        Rule::AvoidOverloadStart,
        Rule::ArrivalBeforeBoard,
        Rule::ArrivalBeforeDepart,
        Rule::ArrivalBeforeWaiting,
        Rule::BoardByArrival,
        Rule::BoardByDestination,
        Rule::BoardByTravelPathDepart,
        Rule::BoardByTravelPathWaiting,
        Rule::BoardToEmptyDepart,
        Rule::BoardToEmptyWaiting,
        Rule::DepartToExactDestination,
        Rule::DepartTowardsDestination,
        Rule::DepartPassengerTrains,
        Rule::FreeUpSpaceWaiting,
        Rule::FreeUpSpaceDepart,
        Rule::ChooseStartWaiting,
        Rule::ChooseStartStart,
    ]
}

/// The rules of every comparator group, in order of precedence.
pub fn get_rules() -> (r: Vec<Rule>)
    ensures
        r@ == catalog(),
{
    let mut r: Vec<Rule> = Vec::new();
    r.append(&mut avoid_station_overload::rules());
    r.append(&mut detrain_arrived_passenger::rules());
    r.append(&mut board_passenger_by_arrival::rules());
    r.append(&mut board_by_destination::rules());
    r.append(&mut board_by_travel_path::rules());
    r.append(&mut board_to_empty_trains::rules());
    r.append(&mut depart_to_exact_destination::rules());
    r.append(&mut depart_towards_destination::rules());
    r.append(&mut depart_passenger_trains::rules());
    r.append(&mut free_up_space::rules());
    r.append(&mut choose_train_starts::rules());
    assert(r@ =~= catalog());
    r
}

/// `x` capped at the largest `u64`.
pub open spec fn capped(x: int) -> int {
    if x > u64::MAX {
        u64::MAX as int
    } else {
        x
    }
}

} // verus!
