use rstrain::connection::Connection;
use rstrain::model::Model;
use rstrain::move_::{Board, Depart, Detrain, Move, NoMove, Start};
use rstrain::passenger::{Location as PLocation, Passenger};
use rstrain::rules::get_rules;
use rstrain::state::State;
use rstrain::station::Station;
use rstrain::tabu::TabuGeneticSearch;
use rstrain::train::{Location as TLocation, StartStation, Train};
use std::collections::HashSet;

fn station(name: &str, capacity: i16) -> Station {
    Station { name: name.to_string(), capacity }
}

fn connection(name: &str, a: usize, b: usize, distance: u64, capacity: i16) -> Connection {
    Connection { name: name.to_string(), distance, capacity, a, b }
}

fn train(name: &str, start: StartStation, speed: u64, capacity: i16) -> Train {
    Train { name: name.to_string(), start, speed, capacity }
}

fn group(name: &str, start: usize, destination: usize, size: i16, arrival: usize) -> Passenger {
    Passenger { name: name.to_string(), start, destination, size, arrival }
}

/// Two stations, one connection, two trains at station 0 and two groups
/// bound for station 1.
fn two_station_model() -> Model {
    Model::new(
        vec![station("S0", 5), station("S1", 5)],
        vec![connection("L0", 0, 1, 2, 3)],
        vec![
            train("T0", StartStation::Station(0), 1, 1),
            train("T1", StartStation::Station(0), 1, 1),
        ],
        vec![group("G0", 0, 1, 1, 4), group("G1", 0, 1, 1, 4)],
        get_rules(),
    )
}

fn sets(v: &Vec<Vec<usize>>) -> Vec<HashSet<usize>> {
    v.iter().map(|s| s.iter().copied().collect()).collect()
}

fn assert_same(a: &State, b: &State) {
    assert_eq!(a.t, b.t);
    assert_eq!(a.s_capacity, b.s_capacity);
    assert_eq!(a.c_capacity, b.c_capacity);
    assert_eq!(a.t_capacity, b.t_capacity);
    assert_eq!(a.t_location, b.t_location);
    assert_eq!(a.p_location, b.p_location);
    assert_eq!(sets(&a.t_passengers), sets(&b.t_passengers));
    assert_eq!(sets(&a.s_passengers), sets(&b.s_passengers));
    let arrived_a: HashSet<usize> = a.p_arrived.iter().copied().collect();
    let arrived_b: HashSet<usize> = b.p_arrived.iter().copied().collect();
    assert_eq!(arrived_a, arrived_b);
    assert_eq!(a.p_delays, b.p_delays);
    assert_eq!(a.moves, b.moves);
}

#[test]
fn initial_state_places_trains_and_groups() {
    let model = two_station_model();
    let state = model.initial_state();
    assert_eq!(state.t, 0);
    assert_eq!(state.s_capacity, vec![3, 5]);
    assert_eq!(state.c_capacity, vec![3]);
    assert_eq!(state.t_capacity, vec![1, 1]);
    assert_eq!(state.t_location, vec![TLocation::Station(0), TLocation::Station(0)]);
    assert_eq!(state.p_location, vec![PLocation::Station(0), PLocation::Station(0)]);
    assert_eq!(state.s_passengers, vec![vec![0, 1], vec![]]);
    assert_eq!(state.p_delays, vec![12, 12]);
    assert_eq!(model.t_max, 12);
    assert_eq!(model.max_arrival, 4);
}

#[test]
fn push_then_pop_restores_each_move_kind() {
    let model = two_station_model();
    let mut state = model.initial_state();
    state.next(&model);
    let before = state.clone();

    let board = Move::Board(Board { t_id: 0, p_id: 0, s_id: 0 });
    state.push(board, &model);
    assert_eq!(state.t_capacity[0], 0);
    assert_eq!(state.p_location[0], PLocation::Train(0));
    assert_eq!(state.t_passengers[0], vec![0]);
    assert_eq!(state.s_passengers[0], vec![1]);
    assert_eq!(state.pop(&model), Some(board));
    assert_same(&state, &before);

    let depart = Move::Depart(Depart { t_id: 1, from: 0, to: 1, c_id: 0 });
    state.push(depart, &model);
    assert_eq!(state.s_capacity, vec![4, 5]);
    assert_eq!(state.c_capacity, vec![2]);
    assert_eq!(state.t_location[1], TLocation::Connection(0, 1, 1));
    assert_eq!(state.pop(&model), Some(depart));
    assert_same(&state, &before);

    state.push(board, &model);
    let boarded = state.clone();
    let detrain = Move::Detrain(Detrain { t_id: 0, p_id: 0, s_id: 0 });
    state.push(detrain, &model);
    assert_eq!(state.p_location[0], PLocation::Station(0));
    assert!(state.s_passengers[0].contains(&0));
    assert_eq!(state.pop(&model), Some(detrain));
    assert_same(&state, &boarded);
    assert_eq!(state.pop(&model), Some(board));
    assert_same(&state, &before);
    assert_eq!(state.pop(&model), None);
}

#[test]
fn push_then_pop_restores_arrival_and_start() {
    let model = Model::new(
        vec![station("A", 2), station("B", 2)],
        vec![connection("L", 0, 1, 1, 1)],
        vec![train("T", StartStation::Any, 1, 3)],
        vec![group("G", 0, 1, 2, 1)],
        get_rules(),
    );
    let mut state = model.initial_state();
    assert_eq!(state.t_location[0], TLocation::Nothing);
    let fresh = state.clone();
    let start = Move::Start(Start { t_id: 0, s_id: 0 });
    state.push(start, &model);
    assert_eq!(state.s_capacity, vec![1, 2]);
    assert_eq!(state.pop(&model), Some(start));
    assert_same(&state, &fresh);

    state.push(start, &model);
    state.next(&model);
    state.push(Move::Board(Board { t_id: 0, p_id: 0, s_id: 0 }), &model);
    state.next(&model);
    state.push(Move::Depart(Depart { t_id: 0, from: 0, to: 1, c_id: 0 }), &model);
    state.next(&model);
    assert_eq!(state.t_location[0], TLocation::Station(1));
    assert_eq!(state.s_capacity, vec![2, 1]);
    assert_eq!(state.c_capacity, vec![1]);
    let before = state.clone();
    let arrive = Move::Detrain(Detrain { t_id: 0, p_id: 0, s_id: 1 });
    state.push(arrive, &model);
    assert_eq!(state.p_location[0], PLocation::Arrived);
    assert_eq!(state.p_arrived, vec![0]);
    assert_eq!(state.p_delays[0], 2);
    assert_eq!(state.t_capacity[0], 3);
    state.pop(&model);
    assert_same(&state, &before);
    assert_eq!(state.p_delays[0], 3);
}

#[test]
fn capacities_are_conserved_along_pushes() {
    let model = two_station_model();
    let mut state = model.initial_state();
    state.next(&model);
    state.push(Move::Board(Board { t_id: 0, p_id: 0, s_id: 0 }), &model);
    state.push(Move::Board(Board { t_id: 1, p_id: 1, s_id: 0 }), &model);
    state.push(Move::Depart(Depart { t_id: 0, from: 0, to: 1, c_id: 0 }), &model);
    for s_id in 0..2 {
        let at = state.t_location.iter().filter(|l| **l == TLocation::Station(s_id)).count() as i16;
        assert_eq!(state.s_capacity[s_id] + at, model.stations[s_id].capacity);
    }
    let on = state.t_location.iter().filter(|l| matches!(l, TLocation::Connection(0, _, _))).count() as i16;
    assert_eq!(state.c_capacity[0] + on, model.connections[0].capacity);
    for t_id in 0..2 {
        let load: i16 = (0..2)
            .filter(|p| state.p_location[*p] == PLocation::Train(t_id))
            .map(|p| model.passengers[p].size)
            .sum();
        assert_eq!(state.t_capacity[t_id] + load, model.trains[t_id].capacity);
    }
    state.next(&model);
    state.next(&model);
    assert_eq!(state.t_location[0], TLocation::Station(1));
    assert_eq!(state.s_capacity, vec![4, 4]);
    assert_eq!(state.c_capacity, vec![3]);
}

#[test]
fn moves_offered_by_location() {
    let model = two_station_model();
    let mut state = model.initial_state();
    assert!(state.get_moves(0, &model).is_empty());
    state.next(&model);
    let moves = state.get_moves(0, &model);
    assert_eq!(moves.len(), 3);
    assert!(moves.contains(&Move::Board(Board { t_id: 0, p_id: 0, s_id: 0 })));
    assert!(moves.contains(&Move::Board(Board { t_id: 0, p_id: 1, s_id: 0 })));
    assert!(moves.contains(&Move::Depart(Depart { t_id: 0, from: 0, to: 1, c_id: 0 })));
    state.push(Move::Depart(Depart { t_id: 0, from: 0, to: 1, c_id: 0 }), &model);
    assert!(state.get_moves(0, &model).is_empty());
    assert_eq!(
        state.train_starts(1),
        vec![Move::Start(Start { t_id: 1, s_id: 0 }), Move::Start(Start { t_id: 1, s_id: 1 })]
    );
}

#[test]
fn full_train_cannot_board() {
    let model = two_station_model();
    let mut state = model.initial_state();
    state.next(&model);
    state.push(Move::Board(Board { t_id: 0, p_id: 0, s_id: 0 }), &model);
    let moves = state.get_moves(0, &model);
    assert!(!moves.iter().any(|m| matches!(m, Move::Board(_))));
    assert!(moves.contains(&Move::Detrain(Detrain { t_id: 0, p_id: 0, s_id: 0 })));
}

#[test]
fn overload_is_detected() {
    let model = two_station_model();
    let mut state = model.initial_state();
    assert!(!state.has_station_overload());
    assert!(state.is_legal());
    state.s_capacity[1] = -1;
    assert!(state.has_station_overload());
    assert!(!state.is_legal());
}

#[test]
fn arrivals_are_estimated_from_travel_progress() {
    let model = Model::new(
        vec![station("A", 4), station("B", 4)],
        vec![connection("L", 0, 1, 5, 2)],
        vec![train("T", StartStation::Station(0), 2, 1)],
        vec![group("G", 0, 1, 1, 6)],
        get_rules(),
    );
    assert_eq!(model.train_arrival(0, 0), 3);
    let mut state = model.initial_state();
    state.next(&model);
    state.push(Move::Depart(Depart { t_id: 0, from: 0, to: 1, c_id: 0 }), &model);
    assert_eq!(state.est_s_arrivals(3, 1, &model), 0);
    assert_eq!(state.est_s_arrivals(4, 1, &model), 1);
    assert_eq!(state.est_s_arrivals(4, 0, &model), 0);
    assert_eq!(state.est_s_cap(4, 1, &model), 3);
    state.next(&model);
    state.next(&model);
    assert!(matches!(state.t_location[0], TLocation::Connection(..)));
    state.next(&model);
    assert_eq!(state.t_location[0], TLocation::Station(1));
    assert_eq!(state.moves, vec![]);
}

#[test]
fn moves_are_found_by_train_and_group() {
    let model = two_station_model();
    let mut state = model.initial_state();
    state.next(&model);
    let board = Move::Board(Board { t_id: 1, p_id: 0, s_id: 0 });
    state.push(board, &model);
    state.push(Move::Depart(Depart { t_id: 0, from: 0, to: 1, c_id: 0 }), &model);
    assert_eq!(state.train_move(1), Some(&board));
    assert_eq!(state.passenger_move(0), Some(&board));
    assert_eq!(state.passenger_move(1), None);
    assert!(matches!(state.train_move(0), Some(Move::Depart(_))));
    state.push(Move::NoMove(NoMove()), &model);
    assert_eq!(state.moves.len(), 3);
}

#[test]
fn end_to_end_two_groups_arrive_without_delay() {
    let model = two_station_model();
    let mut search = TabuGeneticSearch::new(10_000, 1000, false);
    let (solution, _millis) = search.search(&model);
    assert!(solution.is_legal());
    assert_eq!(solution.fitness(), 0);
    assert_eq!(solution.arrived_passengers().len(), 2);
    assert_eq!(solution.delays(), vec![0, 0]);
    assert!(search.checked_moves > 0);
}

#[test]
fn fitness_sums_positive_delays_of_last_state() {
    let model = two_station_model();
    let mut solution = rstrain::solution::Solution::new();
    assert_eq!(solution.fitness(), i32::MAX);
    assert!(!solution.is_legal());
    let mut state = model.initial_state();
    state.p_delays = vec![3, -2];
    solution.0.push(state.clone());
    state.p_delays = vec![5, 4];
    solution.0.push(state);
    assert_eq!(solution.fitness(), 9);
    assert_eq!(solution.delays(), vec![5, 4]);
    assert!(solution.is_legal());
}

#[test]
fn locations_name_their_next_station() {
    assert_eq!(TLocation::Connection(0, 3, 1).next_station(), Some(3));
    assert_eq!(TLocation::Station(2).next_station(), Some(2));
    assert_eq!(TLocation::Nothing.next_station(), None);
    assert_eq!(StartStation::Station(4).to_location(), TLocation::Station(4));
    assert_eq!(StartStation::Any.to_location(), TLocation::Nothing);
}

#[test]
fn pick_keeps_the_first_rule_preferred_candidate() {
    let model = two_station_model();
    let mut state = model.initial_state();
    state.next(&model);
    let view = state.snapshot();
    let order = vec![
        Move::Depart(Depart { t_id: 0, from: 0, to: 1, c_id: 0 }),
        Move::Board(Board { t_id: 0, p_id: 1, s_id: 0 }),
        Move::Board(Board { t_id: 0, p_id: 0, s_id: 0 }),
    ];
    let mut search = TabuGeneticSearch::new(1000, 10, false);
    let before = state.clone();
    let chosen = search.pick(&mut state, &view, 0, &order, &model);
    assert_eq!(chosen, Move::Board(Board { t_id: 0, p_id: 1, s_id: 0 }));
    assert_same(&state, &before);
    assert_eq!(search.checked_moves, 3);
}

#[test]
fn rewind_restarts_from_a_cut_point() {
    let model = two_station_model();
    let mut solution = rstrain::solution::Solution::new();
    let mut state = model.initial_state();
    solution.0.push(state.snapshot());
    state.next(&model);
    state.push(Move::Depart(Depart { t_id: 0, from: 0, to: 1, c_id: 0 }), &model);
    solution.0.push(state.snapshot());
    state.next(&model);
    solution.0.push(state.snapshot());
    let resumed = rstrain::tabu::rewind(&mut solution, 2, &model);
    assert_eq!(solution.0.len(), 2);
    assert_eq!(resumed.t, 2);
    assert!(resumed.moves.is_empty());
    assert_eq!(resumed.t_location[0], TLocation::Connection(0, 1, 1));
    let fresh = rstrain::tabu::rewind(&mut solution, 0, &model);
    assert!(solution.0.is_empty());
    assert_eq!(fresh.t, 0);
    assert_eq!(fresh.t_location, vec![TLocation::Station(0), TLocation::Station(0)]);
}

#[test]
fn total_delay_caps_and_ignores_early_arrivals() {
    assert_eq!(rstrain::solution::total_delay(&vec![3, -2, 4]), 7);
    assert_eq!(rstrain::solution::total_delay(&vec![i32::MAX, 5]), i32::MAX);
    assert_eq!(rstrain::solution::total_delay(&vec![]), 0);
}
