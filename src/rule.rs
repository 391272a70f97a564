use crate::model::Model;
use crate::move_::Move;
use crate::rules::{
    board_by_destination, board_by_travel_path, board_passenger_by_arrival, board_to_empty_trains,
    choose_train_starts, depart_passenger_trains, depart_to_exact_destination, depart_towards_destination,
    detrain_arrived_passenger, free_up_space, avoid_station_overload,
};
use crate::state::State;
use vstd::prelude::*;

verus! {

/// The opinion of one comparator on an ordered pair of moves.
#[derive(Clone, Copy, Debug, PartialEq, Eq, Structural)]
pub enum Result {
    /// The first move is (or is not) preferable to the second.
    Decided(bool),
    /// The comparator has no opinion on this pair.
    Abstain,
}

impl Result {
    pub fn is_some(&self) -> (r: bool)
        ensures
            r == (*self is Decided),
    {
        match self {
            Result::Abstain => false,
            _ => true,
        }
    }

    pub fn is_none(&self) -> (r: bool)
        ensures
            r == (*self is Abstain),
    {
        !self.is_some()
    }

    /// The opinion on the pair taken the other way round.
    pub fn not(self) -> (r: Result)
        ensures
            r == self.negated(),
    {
        match self {
            Result::Decided(b) => Result::Decided(!b),
            Result::Abstain => Result::Abstain,
        }
    }

    pub open spec fn negated(self) -> Result {
        match self {
            Result::Decided(b) => Result::Decided(!b),
            Result::Abstain => Result::Abstain,
        }
    }
}

/// The kind of a move, without its data.
#[derive(Clone, Copy, Debug, PartialEq, Eq, Structural)]
pub enum MoveKind {
    Board,
    Detrain,
    Depart,
    Start,
    NoMove,
}

pub open spec fn kind_of(m: Move) -> MoveKind {
    match m {
        Move::Board(_) => MoveKind::Board,
        Move::Detrain(_) => MoveKind::Detrain,
        Move::Depart(_) => MoveKind::Depart,
        Move::Start(_) => MoveKind::Start,
        Move::NoMove(_) => MoveKind::NoMove,
    }
}

fn kind(m: &Move) -> (r: MoveKind)
    ensures
        r == kind_of(*m),
{
    match m {
        Move::Board(_) => MoveKind::Board,
        Move::Detrain(_) => MoveKind::Detrain,
        Move::Depart(_) => MoveKind::Depart,
        Move::Start(_) => MoveKind::Start,
        Move::NoMove(_) => MoveKind::NoMove,
    }
}

/// The ids in move `m` name entities of the model.
pub open spec fn valid_move(m: Move, model: &Model) -> bool {
    match m {
        Move::Board(b) => b.t_id < model.n_trains() && b.p_id < model.n_passengers() && b.s_id
            < model.n_stations(),
        Move::Detrain(d) => d.t_id < model.n_trains() && d.p_id < model.n_passengers() && d.s_id
            < model.n_stations(),
        Move::Depart(d) => d.t_id < model.n_trains() && d.from < model.n_stations() && d.to
            < model.n_stations() && d.c_id < model.n_connections(),
        Move::Start(st) => st.t_id < model.n_trains() && st.s_id < model.n_stations(),
        Move::NoMove(_) => true,
    }
}

/// One comparator of the rule catalog. Each handles one ordered pair of move
/// kinds; a comparator of two different kinds also answers the reversed pair,
/// with the negated opinion.
#[derive(Clone, Copy, Debug, PartialEq, Eq, Structural)]
pub enum Rule {
    /// A departure that would overload its destination loses to waiting.
    AvoidOverloadDepart,
    /// A start at a station without room loses to waiting.
    AvoidOverloadStart,
    /// Boarding loses to a group leaving its train at its destination.
    ArrivalBeforeBoard,
    /// A group leaving its train at its destination wins over a departure.
    ArrivalBeforeDepart,
    /// A group leaving its train at its destination wins over waiting.
    ArrivalBeforeWaiting,
    /// The group with the earlier required arrival boards first.
    BoardByArrival,
    /// Boarding a group that shares a destination with one aboard wins over waiting.
    BoardByDestination,
    /// Boarding a group whose path overlaps that of one aboard wins over a departure.
    BoardByTravelPathDepart,
    /// Boarding a group whose path overlaps that of one aboard wins over waiting.
    BoardByTravelPathWaiting,
    /// Boarding an empty train wins over a departure.
    BoardToEmptyDepart,
    /// Boarding an empty train wins over waiting.
    BoardToEmptyWaiting,
    /// A departure to the destination of a group aboard wins.
    DepartToExactDestination,
    /// The departure with the nearer destinations of the groups aboard wins.
    DepartTowardsDestination,
    /// A train with groups aboard departs rather than waits.
    DepartPassengerTrains,
    /// A train leaves a full station without waiting groups rather than waits.
    FreeUpSpaceWaiting,
    /// The departure towards the station with more room wins.
    FreeUpSpaceDepart,
    /// A start at a station with a group that fits wins over waiting.
    ChooseStartWaiting,
    /// The start at the station whose fitting groups are due earlier wins.
    ChooseStartStart,
}

impl Rule {
    /// The ordered pair of move kinds this comparator handles.
    pub open spec fn kinds(self) -> (MoveKind, MoveKind) {
        match self {
            Rule::AvoidOverloadDepart => (MoveKind::Depart, MoveKind::NoMove),
            Rule::AvoidOverloadStart => (MoveKind::Start, MoveKind::NoMove),
            Rule::ArrivalBeforeBoard => (MoveKind::Board, MoveKind::Detrain),
            Rule::ArrivalBeforeDepart => (MoveKind::Detrain, MoveKind::Depart),
            Rule::ArrivalBeforeWaiting => (MoveKind::Detrain, MoveKind::NoMove),
            Rule::BoardByArrival => (MoveKind::Board, MoveKind::Board),
            Rule::BoardByDestination => (MoveKind::Board, MoveKind::NoMove),
            Rule::BoardByTravelPathDepart => (MoveKind::Board, MoveKind::Depart),
            Rule::BoardByTravelPathWaiting => (MoveKind::Board, MoveKind::NoMove),
            Rule::BoardToEmptyDepart => (MoveKind::Board, MoveKind::Depart),
            Rule::BoardToEmptyWaiting => (MoveKind::Board, MoveKind::NoMove),
            Rule::DepartToExactDestination => (MoveKind::Depart, MoveKind::Depart),
            Rule::DepartTowardsDestination => (MoveKind::Depart, MoveKind::Depart),
            Rule::DepartPassengerTrains => (MoveKind::Depart, MoveKind::NoMove),
            Rule::FreeUpSpaceWaiting => (MoveKind::Depart, MoveKind::NoMove),
            Rule::FreeUpSpaceDepart => (MoveKind::Depart, MoveKind::Depart),
            Rule::ChooseStartWaiting => (MoveKind::Start, MoveKind::NoMove),
            Rule::ChooseStartStart => (MoveKind::Start, MoveKind::Start),
        }
    }

    fn kinds_of(&self) -> (r: (MoveKind, MoveKind))
        ensures
            r == self.kinds(),
    {
        match self {
            Rule::AvoidOverloadDepart => (MoveKind::Depart, MoveKind::NoMove),
            Rule::AvoidOverloadStart => (MoveKind::Start, MoveKind::NoMove),
            Rule::ArrivalBeforeBoard => (MoveKind::Board, MoveKind::Detrain),
            Rule::ArrivalBeforeDepart => (MoveKind::Detrain, MoveKind::Depart),
            Rule::ArrivalBeforeWaiting => (MoveKind::Detrain, MoveKind::NoMove),
            Rule::BoardByArrival => (MoveKind::Board, MoveKind::Board),
            Rule::BoardByDestination => (MoveKind::Board, MoveKind::NoMove),
            Rule::BoardByTravelPathDepart => (MoveKind::Board, MoveKind::Depart),
            Rule::BoardByTravelPathWaiting => (MoveKind::Board, MoveKind::NoMove),
            Rule::BoardToEmptyDepart => (MoveKind::Board, MoveKind::Depart),
            Rule::BoardToEmptyWaiting => (MoveKind::Board, MoveKind::NoMove),
            Rule::DepartToExactDestination => (MoveKind::Depart, MoveKind::Depart),
            Rule::DepartTowardsDestination => (MoveKind::Depart, MoveKind::Depart),
            Rule::DepartPassengerTrains => (MoveKind::Depart, MoveKind::NoMove),
            Rule::FreeUpSpaceWaiting => (MoveKind::Depart, MoveKind::NoMove),
            Rule::FreeUpSpaceDepart => (MoveKind::Depart, MoveKind::Depart),
            Rule::ChooseStartWaiting => (MoveKind::Start, MoveKind::NoMove),
            Rule::ChooseStartStart => (MoveKind::Start, MoveKind::Start),
        }
    }

    /// The opinion on `a` against `b`, whose kinds are those of `kinds()`.
    pub open spec fn judgement(self, a: Move, b: Move, state: &State, model: &Model) -> Result {
        match (self, a, b) {
            (Rule::AvoidOverloadDepart, Move::Depart(x), _) => avoid_station_overload::depart_spec(x, state, model),
            (Rule::AvoidOverloadStart, Move::Start(x), _) => avoid_station_overload::start_spec(x, state, model),
            (Rule::ArrivalBeforeBoard, _, Move::Detrain(y)) => detrain_arrived_passenger::arrival_spec(y, model).negated(),
            (Rule::ArrivalBeforeDepart, Move::Detrain(x), _) => detrain_arrived_passenger::arrival_spec(x, model),
            (Rule::ArrivalBeforeWaiting, Move::Detrain(x), _) => detrain_arrived_passenger::arrival_spec(x, model),
            (Rule::BoardByArrival, Move::Board(x), Move::Board(y)) => board_passenger_by_arrival::rule_spec(x, y, model),
            (Rule::BoardByDestination, Move::Board(x), _) => board_by_destination::rule_spec(x, state, model),
            (Rule::BoardByTravelPathDepart, Move::Board(x), _) => board_by_travel_path::rule_spec(x, state, model),
            (Rule::BoardByTravelPathWaiting, Move::Board(x), _) => board_by_travel_path::rule_spec(x, state, model),
            (Rule::BoardToEmptyDepart, Move::Board(x), _) => board_to_empty_trains::rule_spec(x, state, model),
            (Rule::BoardToEmptyWaiting, Move::Board(x), _) => board_to_empty_trains::rule_spec(x, state, model),
            (Rule::DepartToExactDestination, Move::Depart(x), Move::Depart(y)) => depart_to_exact_destination::rule_spec(x, y, state, model),
            (Rule::DepartTowardsDestination, Move::Depart(x), Move::Depart(y)) => depart_towards_destination::rule_spec(x, y, state, model),
            (Rule::DepartPassengerTrains, Move::Depart(x), _) => depart_passenger_trains::rule_spec(x, state, model),
            (Rule::FreeUpSpaceWaiting, Move::Depart(x), _) => free_up_space::waiting_spec(x, state),
            (Rule::FreeUpSpaceDepart, Move::Depart(x), Move::Depart(y)) => free_up_space::depart_spec(x, y, state),
            (Rule::ChooseStartWaiting, Move::Start(x), _) => choose_train_starts::waiting_spec(x, state, model),
            (Rule::ChooseStartStart, Move::Start(x), Move::Start(y)) => choose_train_starts::start_spec(x, y, state, model),
            _ => Result::Abstain,
        }
    }

    fn judge(&self, a: &Move, b: &Move, state: &State, model: &Model) -> (r: Result)
        requires
            model.wf(),
            state.inv(model),
            valid_move(*a, model),
            valid_move(*b, model),
        ensures
            r == self.judgement(*a, *b, state, model),
    {
        match (self, a, b) {
            (Rule::AvoidOverloadDepart, Move::Depart(x), _) => avoid_station_overload::depart(x, state, model),
            (Rule::AvoidOverloadStart, Move::Start(x), _) => avoid_station_overload::start(x, state, model),
            (Rule::ArrivalBeforeBoard, _, Move::Detrain(y)) => detrain_arrived_passenger::arrival(y, model).not(),
            (Rule::ArrivalBeforeDepart, Move::Detrain(x), _) => detrain_arrived_passenger::arrival(x, model),
            (Rule::ArrivalBeforeWaiting, Move::Detrain(x), _) => detrain_arrived_passenger::arrival(x, model),
            (Rule::BoardByArrival, Move::Board(x), Move::Board(y)) => board_passenger_by_arrival::rule(x, y, model),
            (Rule::BoardByDestination, Move::Board(x), _) => board_by_destination::rule(x, state, model),
            (Rule::BoardByTravelPathDepart, Move::Board(x), _) => board_by_travel_path::rule(x, state, model),
            (Rule::BoardByTravelPathWaiting, Move::Board(x), _) => board_by_travel_path::rule(x, state, model),
            (Rule::BoardToEmptyDepart, Move::Board(x), _) => board_to_empty_trains::rule(x, state, model),
            (Rule::BoardToEmptyWaiting, Move::Board(x), _) => board_to_empty_trains::rule(x, state, model),
            (Rule::DepartToExactDestination, Move::Depart(x), Move::Depart(y)) => depart_to_exact_destination::rule(x, y, state, model),
            (Rule::DepartTowardsDestination, Move::Depart(x), Move::Depart(y)) => depart_towards_destination::rule(x, y, state, model),
            (Rule::DepartPassengerTrains, Move::Depart(x), _) => depart_passenger_trains::rule(x, state, model),
            (Rule::FreeUpSpaceWaiting, Move::Depart(x), _) => free_up_space::waiting(x, state),
            (Rule::FreeUpSpaceDepart, Move::Depart(x), Move::Depart(y)) => free_up_space::depart(x, y, state),
            (Rule::ChooseStartWaiting, Move::Start(x), _) => choose_train_starts::waiting(x, state, model),
            (Rule::ChooseStartStart, Move::Start(x), Move::Start(y)) => choose_train_starts::start(x, y, state, model),
            _ => Result::Abstain,
        }
    }

    /// The opinion of this comparator on `a` against `b`: its judgement when
    /// the kinds match in order, the negated judgement on the reversed pair
    /// when they match the other way round, and no opinion otherwise.
    pub open spec fn opinion(self, a: Move, b: Move, state: &State, model: &Model) -> Result {
        let (ka, kb) = self.kinds();
        if kind_of(a) == ka && kind_of(b) == kb {
            self.judgement(a, b, state, model)
        } else if ka != kb && kind_of(a) == kb && kind_of(b) == ka {
            self.judgement(b, a, state, model).negated()
        } else {
            Result::Abstain
        }
    }

    /// The opinion of this comparator on `a` against `b`.
    pub fn is_gt(&self, a: &Move, b: &Move, state: &State, model: &Model) -> (r: Result)
        requires
            model.wf(),
            state.inv(model),
            valid_move(*a, model),
            valid_move(*b, model),
        ensures
            r == self.opinion(*a, *b, state, model),
    {
        let (ka, kb) = self.kinds_of();
        let (ma, mb) = (kind(a), kind(b));
        if ma == ka && mb == kb {
            self.judge(a, b, state, model)
        } else if ka != kb && ma == kb && mb == ka {
            self.judge(b, a, state, model).not()
        } else {
            Result::Abstain
        }
    }
}

/// The first opinion of the comparators `rules`, in order.
pub open spec fn verdict(rules: Seq<Rule>, a: Move, b: Move, state: &State, model: &Model) -> Result
    decreases rules.len(),
{
    if rules.len() == 0 {
        Result::Abstain
    } else {
        match rules[0].opinion(a, b, state, model) {
            Result::Decided(x) => Result::Decided(x),
            Result::Abstain => verdict(rules.skip(1), a, b, state, model),
        }
    }
}

/// `a` is preferable to `b` under the comparators `rules`: the first one
/// with an opinion says so.
pub open spec fn prefers(rules: Seq<Rule>, a: Move, b: Move, state: &State, model: &Model) -> bool {
    verdict(rules, a, b, state, model) == Result::Decided(true)
}

impl Move {
    /// Whether this move is preferable to `m` under the rules of the model.
    pub fn is_gt(&self, m: &Move, state: &State, model: &Model) -> (r: bool)
        requires
            model.wf(),
            state.inv(model),
            valid_move(*self, model),
            valid_move(*m, model),
        ensures
            r == prefers(model.rules@, *self, *m, state, model),
    {
        let mut i: usize = 0;
        proof {
            assert(model.rules@.skip(0) =~= model.rules@);
        }
        while i < model.rules.len()
            invariant
                model.wf(),
                state.inv(model),
                valid_move(*self, model),
                valid_move(*m, model),
                0 <= i <= model.rules@.len(),
                verdict(model.rules@, *self, *m, state, model) == verdict(
                    model.rules@.skip(i as int),
                    *self,
                    *m,
                    state,
                    model,
                ),
            decreases model.rules@.len() - i,
        {
            let ghost rest = model.rules@.skip(i as int);
            proof {
                assert(rest[0] == model.rules@[i as int]);
                assert(rest.skip(1) =~= model.rules@.skip(i + 1));
            }
            let opinion = model.rules[i].is_gt(self, m, state, model);
            if let Result::Decided(result) = opinion {
                return result;
            }
            i = i + 1;
        }
        false
    }
}

/// Reversing the pair negates every opinion on moves of different kinds.
pub proof fn lemma_opinion_reverses(rule: Rule, a: Move, b: Move, state: &State, model: &Model)
    requires
        kind_of(a) != kind_of(b),
    ensures
        rule.opinion(b, a, state, model) == rule.opinion(a, b, state, model).negated(),
{
}

/// On moves of different kinds the effective order is antisymmetric: when
/// some comparator has an opinion, `a` is preferable to `b` exactly when `b`
/// is not preferable to `a`.
pub proof fn lemma_is_gt_antisymmetric(rules: Seq<Rule>, a: Move, b: Move, state: &State, model: &Model)
    requires
        kind_of(a) != kind_of(b),
        verdict(rules, a, b, state, model) is Decided,
    ensures
        prefers(rules, a, b, state, model) == !prefers(rules, b, a, state, model),
        verdict(rules, b, a, state, model) == verdict(rules, a, b, state, model).negated(),
    decreases rules.len(),
{
    lemma_opinion_reverses(rules[0], a, b, state, model);
    if rules[0].opinion(a, b, state, model) is Abstain {
        lemma_is_gt_antisymmetric(rules.skip(1), a, b, state, model);
    }
}

} // verus!
