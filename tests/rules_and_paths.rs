use rstrain::connection::Connection;
use rstrain::model::Model;
use rstrain::move_::{Board, Depart, Detrain, Move, NoMove, Start};
use rstrain::passenger::Passenger;
use rstrain::rule::{Result, Rule};
use rstrain::rules::get_rules;
use rstrain::station::Station;
use rstrain::tabu::TabuGeneticSearch;
use rstrain::train::{StartStation, Train};

fn station(name: &str, capacity: i16) -> Station {
    Station { name: name.to_string(), capacity }
}

fn connection(name: &str, a: usize, b: usize, distance: u64, capacity: i16) -> Connection {
    Connection { name: name.to_string(), distance, capacity, a, b }
}

fn train(name: &str, start: StartStation, capacity: i16) -> Train {
    Train { name: name.to_string(), start, speed: 1, capacity }
}

fn group(name: &str, start: usize, destination: usize, size: i16, arrival: usize) -> Passenger {
    Passenger { name: name.to_string(), start, destination, size, arrival }
}

/// Four stations in a ring: 0-1 (1), 1-2 (1), 2-3 (5), 3-0 (1).
fn ring() -> Model {
    Model::new(
        vec![station("A", 3), station("B", 3), station("C", 3), station("D", 3)],
        vec![
            connection("AB", 0, 1, 1, 1),
            connection("BC", 1, 2, 1, 1),
            connection("CD", 2, 3, 5, 1),
            connection("DA", 3, 0, 1, 1),
        ],
        vec![train("T0", StartStation::Station(0), 4), train("T1", StartStation::Station(0), 4)],
        vec![group("G0", 0, 2, 1, 5), group("G1", 0, 3, 2, 3), group("G2", 0, 2, 1, 9)],
        get_rules(),
    )
}

fn joined(model: &Model, x: usize, y: usize) -> bool {
    model.connections.iter().any(|c| (c.a == x && c.b == y) || (c.a == y && c.b == x))
}

#[test]
fn ring_shortest_paths() {
    let model = ring();
    assert_eq!(model.distance(0, 2), 2);
    assert_eq!(model.distance(2, 0), 2);
    assert_eq!(model.distance(1, 3), 2);
    assert_eq!(model.distance(2, 3), 3);
    assert_eq!(model.distance(3, 3), 0);
    assert_eq!(model.paths[0][2].path, vec![0, 1, 2]);
    assert_eq!(model.paths[2][0].path, vec![2, 1, 0]);
    assert_eq!(model.paths[3][1].path, vec![3, 0, 1]);
    assert_eq!(model.paths[1][3].path, vec![1, 0, 3]);
    assert!(model.paths[1][1].path.is_empty());
    for a in 0..4 {
        for b in 0..4 {
            let path = &model.paths[a][b].path;
            if a == b {
                continue;
            }
            assert_eq!(path[0], a);
            assert_eq!(*path.last().unwrap(), b);
            for w in path.windows(2) {
                assert!(joined(&model, w[0], w[1]));
            }
        }
    }
}

#[test]
fn station_connections_and_destinations() {
    let model = ring();
    assert_eq!(model.station_connections[0], vec![0, 3]);
    assert_eq!(model.station_connections[2], vec![1, 2]);
    assert_eq!(model.get_destination(0, 3), 3);
    assert_eq!(model.get_destination(3, 3), 0);
    assert_eq!(model.used_trains, 2);
    assert_eq!(model.max_arrival, 9);
    assert_eq!(model.t_max, 27);
}

#[test]
fn bench_model_is_a_line() {
    let model = Model::new_for_bench();
    assert_eq!(model.stations.len(), 10);
    assert_eq!(model.distance(0, 9), 18);
    assert_eq!(model.paths[0][3].path, vec![0, 1, 2, 3]);
    assert_eq!(model.stations[4].name, "S4");
    let state = model.initial_state();
    assert_eq!(state.s_capacity, vec![2; 10]);
}

#[test]
fn rule_catalog_order() {
    let rules = get_rules();
    assert_eq!(rules.len(), 18);
    assert_eq!(rules[0], Rule::AvoidOverloadDepart);
    assert_eq!(rules[2], Rule::ArrivalBeforeBoard);
    assert_eq!(rules[17], Rule::ChooseStartStart);
}

#[test]
fn result_helpers() {
    assert!(Result::Decided(false).is_some());
    assert!(Result::Abstain.is_none());
    assert_eq!(Result::Decided(true).not(), Result::Decided(false));
    assert_eq!(Result::Abstain.not(), Result::Abstain);
}

#[test]
fn comparator_is_antisymmetric_across_kinds() {
    let model = ring();
    let mut state = model.initial_state();
    state.next(&model);
    let board = Move::Board(Board { t_id: 0, p_id: 0, s_id: 0 });
    let depart = Move::Depart(Depart { t_id: 0, from: 0, to: 1, c_id: 0 });
    let wait = Move::NoMove(NoMove());
    assert!(board.is_gt(&depart, &state, &model));
    assert!(!depart.is_gt(&board, &state, &model));
    assert!(board.is_gt(&wait, &state, &model));
    assert!(!wait.is_gt(&board, &state, &model));
    let rule = Rule::BoardToEmptyDepart;
    assert_eq!(rule.is_gt(&board, &depart, &state, &model), Result::Decided(true));
    assert_eq!(rule.is_gt(&depart, &board, &state, &model), Result::Decided(false));
    assert_eq!(rule.is_gt(&board, &wait, &state, &model), Result::Abstain);
}

#[test]
fn earlier_arrival_boards_first() {
    let model = ring();
    let mut state = model.initial_state();
    state.next(&model);
    let early = Move::Board(Board { t_id: 0, p_id: 1, s_id: 0 });
    let late = Move::Board(Board { t_id: 0, p_id: 2, s_id: 0 });
    assert!(early.is_gt(&late, &state, &model));
    assert!(!late.is_gt(&early, &state, &model));
}

#[test]
fn arrival_at_destination_beats_boarding_and_departing() {
    let model = ring();
    let mut state = model.initial_state();
    state.next(&model);
    state.push(Move::Board(Board { t_id: 0, p_id: 0, s_id: 0 }), &model);
    state.push(Move::Depart(Depart { t_id: 0, from: 0, to: 1, c_id: 0 }), &model);
    state.next(&model);
    state.push(Move::Depart(Depart { t_id: 0, from: 1, to: 2, c_id: 1 }), &model);
    state.next(&model);
    let arrive = Move::Detrain(Detrain { t_id: 0, p_id: 0, s_id: 2 });
    let onwards = Move::Depart(Depart { t_id: 0, from: 2, to: 3, c_id: 2 });
    let wait = Move::NoMove(NoMove());
    assert!(arrive.is_gt(&onwards, &state, &model));
    assert!(!onwards.is_gt(&arrive, &state, &model));
    assert!(arrive.is_gt(&wait, &state, &model));
    let board = Move::Board(Board { t_id: 1, p_id: 1, s_id: 0 });
    assert!(arrive.is_gt(&board, &state, &model));
    assert!(!board.is_gt(&arrive, &state, &model));
}

#[test]
fn departure_to_a_destination_wins() {
    let model = ring();
    let mut state = model.initial_state();
    state.next(&model);
    state.push(Move::Board(Board { t_id: 0, p_id: 1, s_id: 0 }), &model);
    let to_d = Move::Depart(Depart { t_id: 0, from: 0, to: 3, c_id: 3 });
    let to_b = Move::Depart(Depart { t_id: 0, from: 0, to: 1, c_id: 0 });
    assert!(to_d.is_gt(&to_b, &state, &model));
    assert!(!to_b.is_gt(&to_d, &state, &model));
}

#[test]
fn start_prefers_station_with_fitting_groups() {
    let model = Model::new(
        vec![station("A", 3), station("B", 3)],
        vec![connection("AB", 0, 1, 1, 1)],
        vec![train("T", StartStation::Any, 1)],
        vec![group("G", 1, 0, 1, 4)],
        get_rules(),
    );
    let state = model.initial_state();
    let at_a = Move::Start(Start { t_id: 0, s_id: 0 });
    let at_b = Move::Start(Start { t_id: 0, s_id: 1 });
    let wait = Move::NoMove(NoMove());
    assert!(at_b.is_gt(&wait, &state, &model));
    assert!(!at_a.is_gt(&wait, &state, &model));
    assert!(at_b.is_gt(&at_a, &state, &model));
    assert!(!at_a.is_gt(&at_b, &state, &model));
}

#[test]
fn tabu_set_is_bounded_and_evicts_oldest() {
    let mut search = TabuGeneticSearch::new(1000, 3, false);
    assert_eq!(search.tabu_count(), 0);
    for fp in 1..=5u32 {
        search.remember(fp);
        assert!(search.tabu_count() <= 3);
    }
    assert_eq!(search.tabu_count(), 3);
    assert!(!search.is_tabu(1));
    assert!(!search.is_tabu(2));
    assert!(search.is_tabu(3));
    assert!(search.is_tabu(4));
    assert!(search.is_tabu(5));
    search.remember(3);
    search.remember(6);
    assert!(search.is_tabu(3));
    assert!(!search.is_tabu(4));
    assert!(search.is_tabu(6));
    assert_eq!(search.tabu_count(), 3);
}

#[test]
fn empty_tabu_set_keeps_nothing() {
    let mut search = TabuGeneticSearch::new(1000, 0, false);
    search.remember(7);
    assert_eq!(search.tabu_count(), 0);
    assert!(!search.is_tabu(7));
}

#[test]
fn start_tie_breaks_on_earlier_arrivals() {
    let model = Model::new(
        vec![station("A", 3), station("B", 3)],
        vec![connection("AB", 0, 1, 1, 1)],
        vec![train("T", StartStation::Any, 1)],
        vec![group("G0", 0, 1, 1, 9), group("G1", 1, 0, 1, 4)],
        get_rules(),
    );
    let state = model.initial_state();
    let at_a = Move::Start(Start { t_id: 0, s_id: 0 });
    let at_b = Move::Start(Start { t_id: 0, s_id: 1 });
    assert!(at_b.is_gt(&at_a, &state, &model));
    assert!(!at_a.is_gt(&at_b, &state, &model));
}

#[test]
fn departure_that_would_overload_loses_to_waiting() {
    let model = Model::new(
        vec![station("A", 2), station("B", 1)],
        vec![connection("AB", 0, 1, 1, 2)],
        vec![train("T0", StartStation::Station(0), 1), train("T1", StartStation::Station(1), 1)],
        vec![group("G", 0, 1, 1, 4)],
        get_rules(),
    );
    let mut state = model.initial_state();
    state.next(&model);
    let depart = Move::Depart(Depart { t_id: 0, from: 0, to: 1, c_id: 0 });
    let wait = Move::NoMove(NoMove());
    assert_eq!(Rule::AvoidOverloadDepart.is_gt(&depart, &wait, &state, &model), Result::Decided(false));
    assert!(!depart.is_gt(&wait, &state, &model));
}
