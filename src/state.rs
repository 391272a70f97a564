use crate::connection::Id as CId;
use crate::model::Model;
use crate::move_::{Board, Depart, Detrain, Move, Start};
use crate::passenger::{Id as PId, Location as PLocation};
use crate::station::Id as SId;
use crate::sums::{lemma_sum_change, lemma_sum_count_bounds, lemma_sum_ge_term, sum_to};
use crate::train::{Id as TId, Location as TLocation};
use crate::types::{all_unique, id_insert, id_remove, id_sets, Capacity, IdSet, Time, TimeDiff, MAX_TIME, MAX_TRAINS};
use vstd::prelude::*;

verus! {

/// The simulation at one point in time.
#[derive(Clone, Debug)]
pub struct State {
    /// The time of the state.
    pub t: Time,
    /// Remaining capacity of each station.
    pub s_capacity: Vec<Capacity>,
    /// Remaining capacity of each connection.
    pub c_capacity: Vec<Capacity>,
    /// Remaining capacity of each train.
    pub t_capacity: Vec<Capacity>,
    /// Location of each train.
    pub t_location: Vec<TLocation>,
    /// Location of each passenger group.
    pub p_location: Vec<PLocation>,
    /// For each train, the groups aboard.
    pub t_passengers: Vec<IdSet>,
    /// For each station, the groups waiting there.
    pub s_passengers: Vec<IdSet>,
    /// The groups that have arrived.
    pub p_arrived: IdSet,
    /// For each group, its delay; `t_max` of the model while it has not arrived.
    pub p_delays: Vec<TimeDiff>,
    /// The moves applied at this point in time, in order.
    pub moves: Vec<Move>,
}

impl State {
    /// One for each train standing at station `s`.
    pub open spec fn station_term(&self, s: SId) -> spec_fn(int) -> int {
        standing_term(self.t_location@, s)
    }

    /// One for each train travelling on connection `c`.
    pub open spec fn connection_term(&self, c: CId) -> spec_fn(int) -> int {
        |i: int|
            match self.t_location@[i] {
                TLocation::Connection(c2, _, _) => if c2 == c { 1int } else { 0int },
                _ => 0int,
            }
    }

    /// The size of each group aboard train `t`.
    pub open spec fn load_term(&self, t: TId, model: &Model) -> spec_fn(int) -> int {
        |i: int| if self.p_location@[i] == PLocation::Train(t) { model.size(i) } else { 0int }
    }

    /// The number of trains standing at station `s`.
    pub open spec fn trains_at(&self, s: SId) -> int {
        sum_to(self.t_location@.len(), self.station_term(s))
    }

    /// The number of trains travelling on connection `c`.
    pub open spec fn trains_on(&self, c: CId) -> int {
        sum_to(self.t_location@.len(), self.connection_term(c))
    }

    /// The total size of the groups aboard train `t`.
    pub open spec fn load(&self, t: TId, model: &Model) -> int {
        sum_to(self.p_location@.len(), self.load_term(t, model))
    }

    /// Each per-entity vector has one entry per entity of the model.
    pub open spec fn shape(&self, model: &Model) -> bool {
        &&& self.s_capacity@.len() == model.n_stations()
        &&& self.c_capacity@.len() == model.n_connections()
        &&& self.t_capacity@.len() == model.n_trains()
        &&& self.t_location@.len() == model.n_trains()
        &&& self.t_passengers@.len() == model.n_trains()
        &&& self.s_passengers@.len() == model.n_stations()
        &&& self.p_location@.len() == model.n_passengers()
        &&& self.p_delays@.len() == model.n_passengers()
    }

    /// Every location names entities of the model.
    pub open spec fn locations_wf(&self, model: &Model) -> bool {
        &&& forall|t: int|
            0 <= t < model.n_trains() ==> match #[trigger] self.t_location@[t] {
                TLocation::Station(s) => s < model.n_stations(),
                TLocation::Connection(c, s, t0) => c < model.n_connections() && s < model.n_stations()
                    && t0 <= self.t,
                TLocation::Nothing => true,
            }
        &&& forall|p: int|
            0 <= p < model.n_passengers() ==> match #[trigger] self.p_location@[p] {
                PLocation::Station(s) => s < model.n_stations(),
                PLocation::Train(t) => t < model.n_trains(),
                PLocation::Arrived => true,
            }
    }

    /// The index vectors hold no id twice.
    pub open spec fn ids_unique(&self) -> bool {
        &&& all_unique(self.s_passengers@)
        &&& all_unique(self.t_passengers@)
        &&& self.p_arrived@.no_duplicates()
    }

    /// Each group is in exactly the index that its location names.
    pub open spec fn indexes_wf(&self, model: &Model) -> bool {
        &&& self.ids_unique()
        &&& forall|s: SId, p: PId|
            s < model.n_stations() ==> (#[trigger] id_sets(self.s_passengers@)[s as int].contains(p) <==> (p
                < model.n_passengers() && self.p_location@[p as int] == PLocation::Station(s)))
        &&& forall|t: TId, p: PId|
            t < model.n_trains() ==> (#[trigger] id_sets(self.t_passengers@)[t as int].contains(p) <==> (p
                < model.n_passengers() && self.p_location@[p as int] == PLocation::Train(t)))
        &&& forall|p: PId|
            #[trigger] self.p_arrived@.to_set().contains(p) <==> (p < model.n_passengers()
                && self.p_location@[p as int] == PLocation::Arrived)
    }

    /// A group that has not arrived carries the sentinel delay.
    pub open spec fn delays_wf(&self, model: &Model) -> bool {
        forall|p: int|
            0 <= p < model.n_passengers() && self.p_location@[p] != PLocation::Arrived
                ==> #[trigger] self.p_delays@[p] == model.t_max as int
    }

    /// Remaining capacity plus occupancy is the capacity of the model, for
    /// every station, connection and train. A train in transit occupies its
    /// connection and no station.
    pub open spec fn conserves(&self, model: &Model) -> bool {
        &&& forall|s: SId|
            s < model.n_stations() ==> #[trigger] self.s_capacity@[s as int] + self.trains_at(s)
                == model.stations@[s as int].capacity
        &&& forall|c: CId|
            c < model.n_connections() ==> #[trigger] self.c_capacity@[c as int] + self.trains_on(c)
                == model.connections@[c as int].capacity
        &&& forall|t: TId|
            t < model.n_trains() ==> #[trigger] self.t_capacity@[t as int] + self.load(t, model)
                == model.trains@[t as int].capacity
    }

    /// The state invariant.
    pub open spec fn inv(&self, model: &Model) -> bool {
        &&& self.shape(model)
        &&& self.t <= model.t_max + 1
        &&& self.locations_wf(model)
        &&& self.indexes_wf(model)
        &&& self.delays_wf(model)
        &&& self.conserves(model)
    }

    /// Move `m` is one that `get_moves` offers in this state.
    pub open spec fn legal(&self, m: Move, model: &Model) -> bool {
        match m {
            Move::Board(b) => {
                &&& b.t_id < model.n_trains()
                &&& b.p_id < model.n_passengers()
                &&& b.s_id < model.n_stations()
                &&& self.t_location@[b.t_id as int] == TLocation::Station(b.s_id)
                &&& self.p_location@[b.p_id as int] == PLocation::Station(b.s_id)
                &&& model.size(b.p_id as int) <= self.t_capacity@[b.t_id as int]
            },
            Move::Detrain(d) => {
                &&& d.t_id < model.n_trains()
                &&& d.p_id < model.n_passengers()
                &&& d.s_id < model.n_stations()
                &&& self.t_location@[d.t_id as int] == TLocation::Station(d.s_id)
                &&& self.p_location@[d.p_id as int] == PLocation::Train(d.t_id)
            },
            Move::Depart(d) => {
                &&& d.t_id < model.n_trains()
                &&& d.from < model.n_stations()
                &&& d.c_id < model.n_connections()
                &&& model.touches(d.c_id, d.from)
                &&& d.to == model.destination(d.from, d.c_id)
                &&& self.t_location@[d.t_id as int] == TLocation::Station(d.from)
                &&& self.c_capacity@[d.c_id as int] > 0
            },
            Move::Start(st) => {
                &&& st.t_id < model.n_trains()
                &&& st.s_id < model.n_stations()
                &&& self.t_location@[st.t_id as int] == TLocation::Nothing
                &&& self.s_capacity@[st.s_id as int] > 0
            },
            Move::NoMove(_) => true,
        }
    }

    /// The delay of group `p` if it arrives now.
    pub open spec fn delay_now(&self, p: PId, model: &Model) -> TimeDiff {
        (self.t as int - model.passengers@[p as int].arrival as int) as TimeDiff
    }

    /// `new` is this state with move `m` applied.
    pub open spec fn pushed(self, new: State, m: Move, model: &Model) -> bool {
        let ts = id_sets(self.t_passengers@);
        let ss = id_sets(self.s_passengers@);
        let arrived = self.p_arrived@.to_set();
        &&& new.t == self.t
        &&& new.moves@ == self.moves@.push(m)
        &&& match m {
            Move::Board(b) => {
                &&& new.s_capacity@ == self.s_capacity@
                &&& new.c_capacity@ == self.c_capacity@
                &&& new.t_capacity@ == self.t_capacity@.update(
                    b.t_id as int,
                    (self.t_capacity@[b.t_id as int] - model.size(b.p_id as int)) as Capacity,
                )
                &&& new.t_location@ == self.t_location@
                &&& new.p_location@ == self.p_location@.update(b.p_id as int, PLocation::Train(b.t_id))
                &&& id_sets(new.t_passengers@) == ts.update(b.t_id as int, ts[b.t_id as int].insert(b.p_id))
                &&& id_sets(new.s_passengers@) == ss.update(b.s_id as int, ss[b.s_id as int].remove(b.p_id))
                &&& new.p_arrived@.to_set() == arrived
                &&& new.p_delays@ == self.p_delays@
            },
            Move::Detrain(d) => {
                let arrives = d.s_id == model.passengers@[d.p_id as int].destination;
                &&& new.s_capacity@ == self.s_capacity@
                &&& new.c_capacity@ == self.c_capacity@
                &&& new.t_capacity@ == self.t_capacity@.update(
                    d.t_id as int,
                    (self.t_capacity@[d.t_id as int] + model.size(d.p_id as int)) as Capacity,
                )
                &&& new.t_location@ == self.t_location@
                &&& id_sets(new.t_passengers@) == ts.update(d.t_id as int, ts[d.t_id as int].remove(d.p_id))
                &&& arrives ==> {
                    &&& new.p_location@ == self.p_location@.update(d.p_id as int, PLocation::Arrived)
                    &&& id_sets(new.s_passengers@) == ss
                    &&& new.p_arrived@.to_set() == arrived.insert(d.p_id)
                    &&& new.p_delays@ == self.p_delays@.update(d.p_id as int, self.delay_now(d.p_id, model))
                }
                &&& !arrives ==> {
                    &&& new.p_location@ == self.p_location@.update(d.p_id as int, PLocation::Station(d.s_id))
                    &&& id_sets(new.s_passengers@) == ss.update(d.s_id as int, ss[d.s_id as int].insert(d.p_id))
                    &&& new.p_arrived@.to_set() == arrived
                    &&& new.p_delays@ == self.p_delays@
                }
            },
            Move::Depart(d) => {
                &&& new.s_capacity@ == self.s_capacity@.update(
                    d.from as int,
                    (self.s_capacity@[d.from as int] + 1) as Capacity,
                )
                &&& new.c_capacity@ == self.c_capacity@.update(
                    d.c_id as int,
                    (self.c_capacity@[d.c_id as int] - 1) as Capacity,
                )
                &&& new.t_capacity@ == self.t_capacity@
                &&& new.t_location@ == self.t_location@.update(
                    d.t_id as int,
                    TLocation::Connection(d.c_id, d.to, self.t),
                )
                &&& new.p_location@ == self.p_location@
                &&& id_sets(new.t_passengers@) == ts
                &&& id_sets(new.s_passengers@) == ss
                &&& new.p_arrived@.to_set() == arrived
                &&& new.p_delays@ == self.p_delays@
            },
            Move::Start(st) => {
                &&& new.s_capacity@ == self.s_capacity@.update(
                    st.s_id as int,
                    (self.s_capacity@[st.s_id as int] - 1) as Capacity,
                )
                &&& new.c_capacity@ == self.c_capacity@
                &&& new.t_capacity@ == self.t_capacity@
                &&& new.t_location@ == self.t_location@.update(st.t_id as int, TLocation::Station(st.s_id))
                &&& new.p_location@ == self.p_location@
                &&& id_sets(new.t_passengers@) == ts
                &&& id_sets(new.s_passengers@) == ss
                &&& new.p_arrived@.to_set() == arrived
                &&& new.p_delays@ == self.p_delays@
            },
            Move::NoMove(_) => {
                &&& new.s_capacity@ == self.s_capacity@
                &&& new.c_capacity@ == self.c_capacity@
                &&& new.t_capacity@ == self.t_capacity@
                &&& new.t_location@ == self.t_location@
                &&& new.p_location@ == self.p_location@
                &&& id_sets(new.t_passengers@) == ts
                &&& id_sets(new.s_passengers@) == ss
                &&& new.p_arrived@.to_set() == arrived
                &&& new.p_delays@ == self.p_delays@
            },
        }
    }

    /// `new` is this state with its last move undone.
    pub open spec fn popped(self, new: State, model: &Model) -> bool {
        let m = self.moves@.last();
        let ts = id_sets(self.t_passengers@);
        let ss = id_sets(self.s_passengers@);
        let arrived = self.p_arrived@.to_set();
        &&& new.t == self.t
        &&& new.moves@ == self.moves@.drop_last()
        &&& match m {
            Move::Board(b) => {
                &&& new.s_capacity@ == self.s_capacity@
                &&& new.c_capacity@ == self.c_capacity@
                &&& new.t_capacity@ == self.t_capacity@.update(
                    b.t_id as int,
                    (self.t_capacity@[b.t_id as int] + model.size(b.p_id as int)) as Capacity,
                )
                &&& new.t_location@ == self.t_location@
                &&& new.p_location@ == self.p_location@.update(b.p_id as int, PLocation::Station(b.s_id))
                &&& id_sets(new.t_passengers@) == ts.update(b.t_id as int, ts[b.t_id as int].remove(b.p_id))
                &&& id_sets(new.s_passengers@) == ss.update(b.s_id as int, ss[b.s_id as int].insert(b.p_id))
                &&& new.p_arrived@.to_set() == arrived
                &&& new.p_delays@ == self.p_delays@
            },
            Move::Detrain(d) => {
                let arrives = d.s_id == model.passengers@[d.p_id as int].destination;
                &&& new.s_capacity@ == self.s_capacity@
                &&& new.c_capacity@ == self.c_capacity@
                &&& new.t_capacity@ == self.t_capacity@.update(
                    d.t_id as int,
                    (self.t_capacity@[d.t_id as int] - model.size(d.p_id as int)) as Capacity,
                )
                &&& new.t_location@ == self.t_location@
                &&& new.p_location@ == self.p_location@.update(d.p_id as int, PLocation::Train(d.t_id))
                &&& id_sets(new.t_passengers@) == ts.update(d.t_id as int, ts[d.t_id as int].insert(d.p_id))
                &&& arrives ==> {
                    &&& id_sets(new.s_passengers@) == ss
                    &&& new.p_arrived@.to_set() == arrived.remove(d.p_id)
                    &&& new.p_delays@ == self.p_delays@.update(d.p_id as int, model.t_max as TimeDiff)
                }
                &&& !arrives ==> {
                    &&& id_sets(new.s_passengers@) == ss.update(d.s_id as int, ss[d.s_id as int].remove(d.p_id))
                    &&& new.p_arrived@.to_set() == arrived
                    &&& new.p_delays@ == self.p_delays@
                }
            },
            Move::Depart(d) => {
                &&& new.s_capacity@ == self.s_capacity@.update(
                    d.from as int,
                    (self.s_capacity@[d.from as int] - 1) as Capacity,
                )
                &&& new.c_capacity@ == self.c_capacity@.update(
                    d.c_id as int,
                    (self.c_capacity@[d.c_id as int] + 1) as Capacity,
                )
                &&& new.t_capacity@ == self.t_capacity@
                &&& new.t_location@ == self.t_location@.update(d.t_id as int, TLocation::Station(d.from))
                &&& new.p_location@ == self.p_location@
                &&& id_sets(new.t_passengers@) == ts
                &&& id_sets(new.s_passengers@) == ss
                &&& new.p_arrived@.to_set() == arrived
                &&& new.p_delays@ == self.p_delays@
            },
            Move::Start(st) => {
                &&& new.s_capacity@ == self.s_capacity@.update(
                    st.s_id as int,
                    (self.s_capacity@[st.s_id as int] + 1) as Capacity,
                )
                &&& new.c_capacity@ == self.c_capacity@
                &&& new.t_capacity@ == self.t_capacity@
                &&& new.t_location@ == self.t_location@.update(st.t_id as int, TLocation::Nothing)
                &&& new.p_location@ == self.p_location@
                &&& id_sets(new.t_passengers@) == ts
                &&& id_sets(new.s_passengers@) == ss
                &&& new.p_arrived@.to_set() == arrived
                &&& new.p_delays@ == self.p_delays@
            },
            Move::NoMove(_) => {
                &&& new.s_capacity@ == self.s_capacity@
                &&& new.c_capacity@ == self.c_capacity@
                &&& new.t_capacity@ == self.t_capacity@
                &&& new.t_location@ == self.t_location@
                &&& new.p_location@ == self.p_location@
                &&& id_sets(new.t_passengers@) == ts
                &&& id_sets(new.s_passengers@) == ss
                &&& new.p_arrived@.to_set() == arrived
                &&& new.p_delays@ == self.p_delays@
            },
        }
    }

    /// The last move can be undone without leaving the vectors or the
    /// integer types.
    pub open spec fn pop_safe(&self, model: &Model) -> bool {
        self.moves@.len() > 0 ==> match self.moves@.last() {
            Move::Board(b) => {
                &&& b.t_id < self.t_capacity@.len()
                &&& b.t_id < self.t_passengers@.len()
                &&& b.p_id < model.n_passengers()
                &&& b.p_id < self.p_location@.len()
                &&& b.s_id < self.s_passengers@.len()
                &&& self.t_capacity@[b.t_id as int] + model.size(b.p_id as int) <= i16::MAX
            },
            Move::Detrain(d) => {
                &&& d.t_id < self.t_capacity@.len()
                &&& d.t_id < self.t_passengers@.len()
                &&& d.p_id < model.n_passengers()
                &&& d.p_id < self.p_location@.len()
                &&& d.p_id < self.p_delays@.len()
                &&& d.s_id < self.s_passengers@.len()
                &&& self.t_capacity@[d.t_id as int] - model.size(d.p_id as int) >= i16::MIN
                &&& model.t_max <= MAX_TIME
            },
            Move::Depart(d) => {
                &&& d.t_id < self.t_location@.len()
                &&& d.from < self.s_capacity@.len()
                &&& d.c_id < self.c_capacity@.len()
                &&& self.s_capacity@[d.from as int] - 1 >= i16::MIN
                &&& self.c_capacity@[d.c_id as int] + 1 <= i16::MAX
            },
            Move::Start(st) => {
                &&& st.t_id < self.t_location@.len()
                &&& st.s_id < self.s_capacity@.len()
                &&& self.s_capacity@[st.s_id as int] + 1 <= i16::MAX
            },
            Move::NoMove(_) => true,
        }
    }

    /// The two states agree on every field, the indexes compared as sets.
    pub open spec fn same(self, other: State) -> bool {
        &&& self.t == other.t
        &&& self.s_capacity@ == other.s_capacity@
        &&& self.c_capacity@ == other.c_capacity@
        &&& self.t_capacity@ == other.t_capacity@
        &&& self.t_location@ == other.t_location@
        &&& self.p_location@ == other.p_location@
        &&& id_sets(self.t_passengers@) == id_sets(other.t_passengers@)
        &&& id_sets(self.s_passengers@) == id_sets(other.s_passengers@)
        &&& self.p_arrived@.to_set() == other.p_arrived@.to_set()
        &&& self.p_delays@ == other.p_delays@
        &&& self.moves@ == other.moves@
    }
}

impl State {
    /// Applies move `m` to the state and records it.
    pub fn push(&mut self, m: Move, model: &Model)
        requires
            model.wf(),
            old(self).inv(model),
            old(self).legal(m, model),
        ensures
            old(self).pushed(*final(self), m, model),
            final(self).inv(model),
            final(self).pop_safe(model),
    {
        let ghost prev = *self;
        proof {
            lemma_push_bounds(prev, m, model);
        }
        self.moves.push(m);
        match m {
            Move::Board(b) => {
                self.t_capacity[b.t_id] = self.t_capacity[b.t_id] - model.passengers[b.p_id].size;
                self.p_location[b.p_id] = PLocation::Train(b.t_id);
                id_insert(&mut self.t_passengers[b.t_id], b.p_id);
                id_remove(&mut self.s_passengers[b.s_id], b.p_id);
                proof {
                    let ts = id_sets(prev.t_passengers@);
                    let ss = id_sets(prev.s_passengers@);
                    assert(id_sets(self.t_passengers@) =~= ts.update(b.t_id as int, ts[b.t_id as int].insert(b.p_id)));
                    assert(id_sets(self.s_passengers@) =~= ss.update(b.s_id as int, ss[b.s_id as int].remove(b.p_id)));
                }
            },
            Move::Detrain(d) => {
                self.t_capacity[d.t_id] = self.t_capacity[d.t_id] + model.passengers[d.p_id].size;
                id_remove(&mut self.t_passengers[d.t_id], d.p_id);
                if d.s_id == model.passengers[d.p_id].destination {
                    self.p_location[d.p_id] = PLocation::Arrived;
                    id_insert(&mut self.p_arrived, d.p_id);
                    self.p_delays[d.p_id] = self.t as TimeDiff - model.passengers[d.p_id].arrival as TimeDiff;
                    proof {
                        assert(id_sets(self.s_passengers@) =~= id_sets(prev.s_passengers@));
                    }
                } else {
                    self.p_location[d.p_id] = PLocation::Station(d.s_id);
                    id_insert(&mut self.s_passengers[d.s_id], d.p_id);
                    proof {
                        let ss = id_sets(prev.s_passengers@);
                        assert(id_sets(self.s_passengers@) =~= ss.update(d.s_id as int, ss[d.s_id as int].insert(d.p_id)));
                    }
                }
                proof {
                    let ts = id_sets(prev.t_passengers@);
                    assert(id_sets(self.t_passengers@) =~= ts.update(d.t_id as int, ts[d.t_id as int].remove(d.p_id)));
                }
            },
            Move::Depart(d) => {
                self.t_location[d.t_id] = TLocation::Connection(d.c_id, d.to, self.t);
                self.s_capacity[d.from] = self.s_capacity[d.from] + 1;
                self.c_capacity[d.c_id] = self.c_capacity[d.c_id] - 1;
            },
            Move::Start(st) => {
                self.s_capacity[st.s_id] = self.s_capacity[st.s_id] - 1;
                self.t_location[st.t_id] = TLocation::Station(st.s_id);
            },
            Move::NoMove(_) => {},
        }
        proof {
            lemma_push_inv(prev, *self, m, model);
        }
    }

    /// Removes the last move and undoes its effect; `None` when no move was
    /// applied at this point in time.
    pub fn pop(&mut self, model: &Model) -> (r: Option<Move>)
        requires
            model.wf(),
            old(self).pop_safe(model),
        ensures
            old(self).moves@.len() == 0 ==> r is None && *final(self) == *old(self),
            old(self).moves@.len() > 0 ==> r == Some(old(self).moves@.last()) && old(self).popped(
                *final(self),
                model,
            ),
            old(self).ids_unique() ==> final(self).ids_unique(),
    {
        let ghost prev = *self;
        if self.moves.len() == 0 {
            return Option::None;
        }
        match self.moves.pop() {
            Option::None => Option::None,
            Option::Some(m) => {
                proof {
                    assert(m == prev.moves@.last());
                }
                match m {
                    Move::Board(b) => {
                        proof {
                            assert(model.passengers@[b.p_id as int].size >= 0);
                        }
                        self.t_capacity[b.t_id] = self.t_capacity[b.t_id] + model.passengers[b.p_id].size;
                        self.p_location[b.p_id] = PLocation::Station(b.s_id);
                        id_remove(&mut self.t_passengers[b.t_id], b.p_id);
                        id_insert(&mut self.s_passengers[b.s_id], b.p_id);
                        proof {
                            let ts = id_sets(prev.t_passengers@);
                            let ss = id_sets(prev.s_passengers@);
                            assert(id_sets(self.t_passengers@) =~= ts.update(b.t_id as int, ts[b.t_id as int].remove(b.p_id)));
                            assert(id_sets(self.s_passengers@) =~= ss.update(b.s_id as int, ss[b.s_id as int].insert(b.p_id)));
                        }
                    },
                    Move::Detrain(d) => {
                        proof {
                            assert(model.passengers@[d.p_id as int].size >= 0);
                        }
                        self.t_capacity[d.t_id] = self.t_capacity[d.t_id] - model.passengers[d.p_id].size;
                        self.p_location[d.p_id] = PLocation::Train(d.t_id);
                        id_insert(&mut self.t_passengers[d.t_id], d.p_id);
                        if d.s_id == model.passengers[d.p_id].destination {
                            id_remove(&mut self.p_arrived, d.p_id);
                            self.p_delays[d.p_id] = model.t_max as TimeDiff;
                            proof {
                                assert(id_sets(self.s_passengers@) =~= id_sets(prev.s_passengers@));
                            }
                        } else {
                            id_remove(&mut self.s_passengers[d.s_id], d.p_id);
                            proof {
                                let ss = id_sets(prev.s_passengers@);
                                assert(id_sets(self.s_passengers@) =~= ss.update(d.s_id as int, ss[d.s_id as int].remove(d.p_id)));
                            }
                        }
                        proof {
                            let ts = id_sets(prev.t_passengers@);
                            assert(id_sets(self.t_passengers@) =~= ts.update(d.t_id as int, ts[d.t_id as int].insert(d.p_id)));
                        }
                    },
                    Move::Depart(d) => {
                        self.t_location[d.t_id] = TLocation::Station(d.from);
                        self.s_capacity[d.from] = self.s_capacity[d.from] - 1;
                        self.c_capacity[d.c_id] = self.c_capacity[d.c_id] + 1;
                    },
                    Move::Start(st) => {
                        self.s_capacity[st.s_id] = self.s_capacity[st.s_id] + 1;
                        self.t_location[st.t_id] = TLocation::Nothing;
                    },
                    Move::NoMove(_) => {},
                }
                proof {
                    if prev.ids_unique() {
                        assert forall|i: int| 0 <= i < self.t_passengers@.len() implies (#[trigger] self.t_passengers@[i])@.no_duplicates() by {
                            assert(prev.t_passengers@[i]@.no_duplicates());
                        }
                        assert forall|i: int| 0 <= i < self.s_passengers@.len() implies (#[trigger] self.s_passengers@[i])@.no_duplicates() by {
                            assert(prev.s_passengers@[i]@.no_duplicates());
                        }
                    }
                }
                Option::Some(m)
            },
        }
    }
}

/// One for each train of `locations` standing at station `s`.
pub open spec fn standing_term(locations: Seq<TLocation>, s: SId) -> spec_fn(int) -> int {
    |i: int| if locations[i] == TLocation::Station(s) { 1int } else { 0int }
}

/// Whether a group with location in `locations` waits at station `s`.
pub open spec fn waiting_at(locations: Seq<PLocation>, s: SId) -> spec_fn(PId) -> bool {
    |p: PId| locations[p as int] == PLocation::Station(s)
}

/// The train that performs move `m`, if any.
pub open spec fn mover(m: Move) -> Option<TId> {
    match m {
        Move::Board(b) => Some(b.t_id),
        Move::Detrain(d) => Some(d.t_id),
        Move::Depart(d) => Some(d.t_id),
        Move::Start(st) => Some(st.t_id),
        Move::NoMove(_) => None,
    }
}

/// The passenger group that move `m` moves, if any.
pub open spec fn moved_group(m: Move) -> Option<PId> {
    match m {
        Move::Board(b) => Some(b.p_id),
        Move::Detrain(d) => Some(d.p_id),
        _ => None,
    }
}

impl State {
    /// Move `m` is one of the moves that train `t_id` can make now.
    pub open spec fn offers(&self, t_id: TId, m: Move, model: &Model) -> bool {
        match self.t_location@[t_id as int] {
            TLocation::Nothing => match m {
                Move::Start(st) => st.t_id == t_id && st.s_id < model.n_stations()
                    && self.s_capacity@[st.s_id as int] > 0,
                _ => false,
            },
            TLocation::Station(s) => self.t > 0 && match m {
                Move::Board(b) => b.t_id == t_id && b.s_id == s && b.p_id < model.n_passengers()
                    && self.p_location@[b.p_id as int] == PLocation::Station(s)
                    && model.size(b.p_id as int) <= self.t_capacity@[t_id as int],
                Move::Detrain(d) => d.t_id == t_id && d.s_id == s && d.p_id < model.n_passengers()
                    && self.p_location@[d.p_id as int] == PLocation::Train(t_id),
                Move::Depart(d) => d.t_id == t_id && d.from == s && d.c_id < model.n_connections()
                    && model.touches(d.c_id, s) && d.to == model.destination(s, d.c_id)
                    && self.c_capacity@[d.c_id as int] > 0,
                _ => false,
            },
            TLocation::Connection(..) => false,
        }
    }

    /// Train `i` has covered its connection by time `now`.
    pub open spec fn has_arrived(&self, i: int, now: int, model: &Model) -> bool {
        match self.t_location@[i] {
            TLocation::Connection(c, _, t0) => t0 <= now && (now - t0) * (model.trains@[i].speed as int)
                >= model.connections@[c as int].distance as int,
            _ => false,
        }
    }

    /// One for each train that, by time `now`, has covered its connection
    /// towards station `s`.
    pub open spec fn arrival_term(&self, now: int, s: SId, model: &Model) -> spec_fn(int) -> int {
        |i: int|
            if self.has_arrived(i, now, model) && self.t_location@[i]->Connection_1 == s {
                1int
            } else {
                0int
            }
    }

    /// The number of trains in transit towards `s` that have arrived by `now`.
    pub open spec fn arrivals_by(&self, now: int, s: SId, model: &Model) -> int {
        sum_to(self.t_location@.len(), self.arrival_term(now, s, model))
    }

    /// No station is over its capacity.
    pub open spec fn legal_capacities(&self) -> bool {
        forall|s: int| 0 <= s < self.s_capacity@.len() ==> #[trigger] self.s_capacity@[s] >= 0
    }

    /// Whether no station is over its capacity.
    pub fn is_legal(&self) -> (r: bool)
        ensures
            r == self.legal_capacities(),
    {
        let mut i: usize = 0;
        while i < self.s_capacity.len()
            invariant
                0 <= i <= self.s_capacity@.len(),
                forall|s: int| 0 <= s < i ==> #[trigger] self.s_capacity@[s] >= 0,
            decreases self.s_capacity@.len() - i,
        {
            if self.s_capacity[i] < 0 {
                return false;
            }
            i = i + 1;
        }
        true
    }

    /// Whether some station is over its capacity.
    pub fn has_station_overload(&self) -> (r: bool)
        ensures
            r == !self.legal_capacities(),
    {
        !self.is_legal()
    }

    /// The number of trains in transit towards station `s_id` that will have
    /// arrived by time `t`.
    pub fn est_s_arrivals(&self, t: Time, s_id: SId, model: &Model) -> (r: Capacity)
        requires
            model.wf(),
            self.inv(model),
        ensures
            r == self.arrivals_by(t as int, s_id, model),
    {
        let mut count: Capacity = 0;
        let mut i: usize = 0;
        while i < self.t_location.len()
            invariant
                model.wf(),
                self.inv(model),
                0 <= i <= self.t_location@.len(),
                count == sum_to(i as nat, self.arrival_term(t as int, s_id, model)),
                count <= i,
            decreases self.t_location@.len() - i,
        {
            let ghost term = self.arrival_term(t as int, s_id, model);
            match self.t_location[i] {
                TLocation::Connection(c_id, to, t_start) => {
                    if to == s_id && t_start <= t {
                        let elapsed = (t - t_start) as u128;
                        let speed = model.trains[i].speed as u128;
                        proof {
                            assert(elapsed * speed <= 0xffff_ffff_ffff_ffff_ffff_ffff_ffff_ffffu128) by (nonlinear_arith)
                                requires
                                    elapsed <= 0xffff_ffff_ffff_ffffu128,
                                    speed <= 0xffff_ffff_ffff_ffffu128,
                            ;
                        }
                        if elapsed * speed >= model.connections[c_id].distance as u128 {
                            count = count + 1;
                        }
                    }
                },
                _ => {},
            }
            i = i + 1;
        }
        count
    }

    /// The capacity that station `s_id` is estimated to have left at time `t`,
    /// once the trains now heading there have arrived.
    pub fn est_s_cap(&self, t: Time, s_id: SId, model: &Model) -> (r: Capacity)
        requires
            model.wf(),
            self.inv(model),
            s_id < model.n_stations(),
        ensures
            r == self.s_capacity@[s_id as int] - self.arrivals_by(t as int, s_id, model),
            r >= -2 * (MAX_TRAINS as int),
    {
        let arrivals = self.est_s_arrivals(t, s_id, model);
        proof {
            lemma_sum_count_bounds(self.t_location@.len(), self.station_term(s_id));
            lemma_sum_count_bounds(self.t_location@.len(), self.arrival_term(t as int, s_id, model));
            assert(model.stations@[s_id as int].capacity >= 0);
        }
        self.s_capacity[s_id] - arrivals
    }
}

impl State {
    /// Where train `i` stands after time has advanced to `now`.
    pub open spec fn location_at(&self, i: int, now: int, model: &Model) -> TLocation {
        if self.has_arrived(i, now, model) {
            TLocation::Station(self.t_location@[i]->Connection_1)
        } else {
            self.t_location@[i]
        }
    }

    /// Advances time by one: clears the moves and lets every train that has
    /// covered its connection arrive at its destination station.
    pub fn next(&mut self, model: &Model)
        requires
            model.wf(),
            old(self).inv(model),
            old(self).t <= model.t_max,
        ensures
            final(self).inv(model),
            final(self).t == old(self).t + 1,
            final(self).moves@.len() == 0,
            forall|i: int|
                0 <= i < model.n_trains() ==> #[trigger] final(self).t_location@[i] == old(self).location_at(
                    i,
                    old(self).t + 1,
                    model,
                ),
            final(self).p_location@ == old(self).p_location@,
            final(self).t_capacity@ == old(self).t_capacity@,
            final(self).t_passengers@ == old(self).t_passengers@,
            final(self).s_passengers@ == old(self).s_passengers@,
            final(self).p_arrived@ == old(self).p_arrived@,
            final(self).p_delays@ == old(self).p_delays@,
    {
        let ghost start = *self;
        self.t = self.t + 1;
        self.moves = Vec::new();
        proof {
            lemma_same_trains(start, *self);
            lemma_same_loads(start, *self, model);
        }
        let mut i: usize = 0;
        while i < self.t_location.len()
            invariant
                model.wf(),
                self.inv(model),
                self.t == start.t + 1,
                self.moves@.len() == 0,
                0 <= i <= self.t_location@.len(),
                self.t_location@.len() == start.t_location@.len(),
                forall|j: int| 0 <= j < i ==> #[trigger] self.t_location@[j] == start.location_at(j, self.t as int, model),
                forall|j: int| i <= j < self.t_location@.len() ==> #[trigger] self.t_location@[j] == start.t_location@[j],
                self.p_location@ == start.p_location@,
                self.t_capacity@ == start.t_capacity@,
                self.t_passengers@ == start.t_passengers@,
                self.s_passengers@ == start.s_passengers@,
                self.p_arrived@ == start.p_arrived@,
                self.p_delays@ == start.p_delays@,
            decreases self.t_location@.len() - i,
        {
            match self.t_location[i] {
                TLocation::Connection(c_id, s_id, t_start) => {
                    let elapsed = (self.t - t_start) as u128;
                    let speed = model.trains[i].speed as u128;
                    proof {
                        assert(elapsed * speed <= 0xffff_ffff_ffff_ffff_ffff_ffff_ffff_ffffu128) by (nonlinear_arith)
                            requires
                                elapsed <= 0xffff_ffff_ffff_ffffu128,
                                speed <= 0xffff_ffff_ffff_ffffu128,
                        ;
                    }
                    if elapsed * speed >= model.connections[c_id].distance as u128 {
                        let ghost before = *self;
                        proof {
                            lemma_sum_count_bounds(self.t_location@.len(), self.station_term(s_id));
                            assert(model.stations@[s_id as int].capacity >= 0);
                            assert forall|k: int| 0 <= k < self.t_location@.len() implies #[trigger] self.connection_term(c_id)(k) >= 0 by {}
                            lemma_sum_ge_term(self.t_location@.len(), self.connection_term(c_id), i as int);
                        }
                        self.t_location[i] = TLocation::Station(s_id);
                        self.s_capacity[s_id] = self.s_capacity[s_id] - 1;
                        self.c_capacity[c_id] = self.c_capacity[c_id] + 1;
                        proof {
                            lemma_counts_after_move(before, *self, i as int);
                            lemma_same_loads(before, *self, model);
                        }
                    }
                },
                _ => {},
            }
            i = i + 1;
        }
    }
}

impl State {
    /// Every move of `r` is one that train `t_id` can make now.
    pub open spec fn all_offered(&self, t_id: TId, r: Seq<Move>, model: &Model) -> bool {
        forall|k: int| 0 <= k < r.len() ==> self.offers(t_id, #[trigger] r[k], model)
    }

    /// The moves that train `t_id` can make now.
    pub fn get_moves(&self, t_id: TId, model: &Model) -> (r: Vec<Move>)
        requires
            model.wf(),
            self.inv(model),
            t_id < model.n_trains(),
        ensures
            self.all_offered(t_id, r@, model),
            forall|m: Move| self.offers(t_id, m, model) ==> r@.contains(m),
            r@.no_duplicates(),
            self.t_location@[t_id as int] == TLocation::Nothing ==> forall|j: int, k: int|
                0 <= j < k < r@.len() ==> (#[trigger] r@[j])->Start_0.s_id < (#[trigger] r@[k])->Start_0.s_id,
    {
        let mut moves: Vec<Move> = Vec::new();
        match self.t_location[t_id] {
            TLocation::Nothing => {
                moves = self.train_starts(t_id);
            },
            TLocation::Station(s_id) => {
                if self.t > 0 {
                    let mut boards = self.boardings(t_id, s_id, model);
                    let mut detrains = self.detrains(t_id, s_id, model);
                    let mut departs = self.departments(t_id, s_id, model);
                    let ghost (b, d, e) = (boards@, detrains@, departs@);
                    moves.append(&mut boards);
                    moves.append(&mut detrains);
                    moves.append(&mut departs);
                    proof {
                        assert(moves@ == b + d + e);
                        assert forall|m: Move| self.offers(t_id, m, model) implies moves@.contains(m) by {
                            match m {
                                Move::Board(_) => {
                                    assert(b.contains(m));
                                    let k = choose|k: int| 0 <= k < b.len() && b[k] == m;
                                    assert(moves@[k] == m);
                                },
                                Move::Detrain(_) => {
                                    assert(d.contains(m));
                                    let k = choose|k: int| 0 <= k < d.len() && d[k] == m;
                                    assert(moves@[b.len() + k] == m);
                                },
                                Move::Depart(_) => {
                                    assert(e.contains(m));
                                    let k = choose|k: int| 0 <= k < e.len() && e[k] == m;
                                    assert(moves@[b.len() + d.len() + k] == m);
                                },
                                _ => {},
                            }
                        }
                        assert forall|x: int, y: int| 0 <= x < moves@.len() && 0 <= y < moves@.len() && x != y implies moves@[x] != moves@[y] by {
                            if x < b.len() && y < b.len() {
                                assert(b[x] != b[y]);
                            } else if x >= b.len() && x < b.len() + d.len() && y >= b.len() && y < b.len() + d.len() {
                                assert(d[x - b.len()] != d[y - b.len()]);
                            } else if x >= b.len() + d.len() && y >= b.len() + d.len() {
                                assert(e[x - b.len() - d.len()] != e[y - b.len() - d.len()]);
                            } else {
                                let kx = if x < b.len() { 0int } else if x < b.len() + d.len() { 1int } else { 2int };
                                if x < b.len() { assert(moves@[x] == b[x]); assert(b[x] is Board); }
                                else if x < b.len() + d.len() { assert(moves@[x] == d[x - b.len()]); assert(d[x - b.len()] is Detrain); }
                                else { assert(moves@[x] == e[x - b.len() - d.len()]); assert(e[x - b.len() - d.len()] is Depart); }
                                if y < b.len() { assert(moves@[y] == b[y]); assert(b[y] is Board); }
                                else if y < b.len() + d.len() { assert(moves@[y] == d[y - b.len()]); assert(d[y - b.len()] is Detrain); }
                                else { assert(moves@[y] == e[y - b.len() - d.len()]); assert(e[y - b.len() - d.len()] is Depart); }
                            }
                        }
                        assert forall|k: int| 0 <= k < moves@.len() implies self.offers(t_id, #[trigger] moves@[k], model) by {
                            if k < b.len() {
                                assert(moves@[k] == b[k]);
                            } else if k < b.len() + d.len() {
                                assert(moves@[k] == d[k - b.len()]);
                            } else {
                                assert(moves@[k] == e[k - b.len() - d.len()]);
                            }
                        }
                    }
                }
            },
            _ => {},
        }
        moves
    }

    /// Board moves onto train `t_id` at station `s_id`, one for each waiting
    /// group that fits.
    fn boardings(&self, t_id: TId, s_id: SId, model: &Model) -> (r: Vec<Move>)
        requires
            model.wf(),
            self.inv(model),
            t_id < model.n_trains(),
            s_id < model.n_stations(),
            self.t_location@[t_id as int] == TLocation::Station(s_id),
            self.t > 0,
        ensures
            self.all_offered(t_id, r@, model),
            forall|m: Move| self.offers(t_id, m, model) && m is Board ==> r@.contains(m),
            forall|k: int| 0 <= k < r@.len() ==> #[trigger] r@[k] is Board,
            r@.no_duplicates(),
    {
        let ids = &self.s_passengers[s_id];
        let mut r: Vec<Move> = Vec::new();
        let mut i: usize = 0;
        while i < ids.len()
            invariant
                model.wf(),
                self.inv(model),
                t_id < model.n_trains(),
                s_id < model.n_stations(),
                self.t_location@[t_id as int] == TLocation::Station(s_id),
                self.t > 0,
                *ids == self.s_passengers@[s_id as int],
                0 <= i <= ids@.len(),
                self.all_offered(t_id, r@, model),
                forall|j: int|
                    0 <= j < i && model.size(ids@[j] as int) <= self.t_capacity@[t_id as int] ==> r@.contains(
                        Move::Board(Board { t_id, p_id: #[trigger] ids@[j], s_id }),
                    ),
                ids@.no_duplicates(),
                forall|k: int|
                    0 <= k < r@.len() ==> exists|j: int|
                        0 <= j < i && #[trigger] r@[k] == Move::Board(Board { t_id, p_id: ids@[j], s_id }),
                r@.no_duplicates(),
            decreases ids@.len() - i,
        {
            let p_id = ids[i];
            proof {
                assert(id_sets(self.s_passengers@)[s_id as int].contains(p_id));
            }
            if model.passengers[p_id].size <= self.t_capacity[t_id] {
                let m = Move::Board(Board { t_id, p_id, s_id });
                let ghost before = r@;
                proof {
                    assert forall|k: int| 0 <= k < before.len() implies before[k] != m by {
                        let j = choose|j: int| 0 <= j < i && #[trigger] before[k] == Move::Board(Board { t_id, p_id: ids@[j], s_id });
                        assert(ids@[j] != ids@[i as int]);
                    }
                }
                r.push(m);
                proof {
                    assert(r@[before.len() as int] == m);
                    assert forall|k: int| 0 <= k < r@.len() implies exists|j: int|
                        0 <= j < i + 1 && #[trigger] r@[k] == Move::Board(Board { t_id, p_id: ids@[j], s_id }) by {
                        if k < before.len() {
                            let j = choose|j: int| 0 <= j < i && #[trigger] before[k] == Move::Board(Board { t_id, p_id: ids@[j], s_id });
                            assert(r@[k] == before[k]);
                        } else {
                            assert(r@[k] == Move::Board(Board { t_id, p_id: ids@[i as int], s_id }));
                        }
                    }
                    assert forall|j: int|
                        0 <= j <= i && model.size(ids@[j] as int) <= self.t_capacity@[t_id as int] implies r@.contains(
                        Move::Board(Board { t_id, p_id: #[trigger] ids@[j], s_id }),
                    ) by {
                        if j < i {
                            let x = Move::Board(Board { t_id, p_id: ids@[j], s_id });
                            let k = choose|k: int| 0 <= k < before.len() && before[k] == x;
                            assert(r@[k] == x);
                        }
                    }
                }
            }
            i = i + 1;
        }
        proof {
            assert forall|k: int| 0 <= k < r@.len() implies #[trigger] r@[k] is Board by {
                let j = choose|j: int| 0 <= j < ids@.len() && #[trigger] r@[k] == Move::Board(Board { t_id, p_id: ids@[j], s_id });
            }
            assert forall|m: Move| self.offers(t_id, m, model) && m is Board implies r@.contains(m) by {
                let p = m->Board_0.p_id;
                assert(id_sets(self.s_passengers@)[s_id as int].contains(p));
                let j = choose|j: int| 0 <= j < ids@.len() && ids@[j] == p;
            }
        }
        r
    }

    /// Detrain moves from train `t_id` at station `s_id`, one for each group
    /// aboard.
    fn detrains(&self, t_id: TId, s_id: SId, model: &Model) -> (r: Vec<Move>)
        requires
            model.wf(),
            self.inv(model),
            t_id < model.n_trains(),
            s_id < model.n_stations(),
            self.t_location@[t_id as int] == TLocation::Station(s_id),
            self.t > 0,
        ensures
            self.all_offered(t_id, r@, model),
            forall|m: Move| self.offers(t_id, m, model) && m is Detrain ==> r@.contains(m),
            forall|k: int| 0 <= k < r@.len() ==> #[trigger] r@[k] is Detrain,
            r@.no_duplicates(),
    {
        let ids = &self.t_passengers[t_id];
        let mut r: Vec<Move> = Vec::new();
        let mut i: usize = 0;
        while i < ids.len()
            invariant
                model.wf(),
                self.inv(model),
                t_id < model.n_trains(),
                s_id < model.n_stations(),
                self.t_location@[t_id as int] == TLocation::Station(s_id),
                self.t > 0,
                *ids == self.t_passengers@[t_id as int],
                0 <= i <= ids@.len(),
                r@.len() == i,
                forall|j: int| 0 <= j < i ==> r@[j] == Move::Detrain(Detrain { t_id, p_id: #[trigger] ids@[j], s_id }),
            decreases ids@.len() - i,
        {
            let p_id = ids[i];
            r.push(Move::Detrain(Detrain { t_id, p_id, s_id }));
            i = i + 1;
        }
        proof {
            assert forall|k: int| 0 <= k < r@.len() implies self.offers(t_id, #[trigger] r@[k], model) by {
                assert(id_sets(self.t_passengers@)[t_id as int].contains(ids@[k]));
            }
            assert(ids@.no_duplicates());
            assert forall|k: int| 0 <= k < r@.len() implies #[trigger] r@[k] is Detrain by {
                assert(r@[k] == Move::Detrain(Detrain { t_id, p_id: ids@[k], s_id }));
            }
            assert forall|a: int, b: int| 0 <= a < r@.len() && 0 <= b < r@.len() && a != b implies r@[a] != r@[b] by {
                assert(r@[a] == Move::Detrain(Detrain { t_id, p_id: ids@[a], s_id }));
                assert(r@[b] == Move::Detrain(Detrain { t_id, p_id: ids@[b], s_id }));
                assert(ids@[a] != ids@[b]);
            }
            assert forall|m: Move| self.offers(t_id, m, model) && m is Detrain implies r@.contains(m) by {
                let p = m->Detrain_0.p_id;
                assert(id_sets(self.t_passengers@)[t_id as int].contains(p));
                let j = choose|j: int| 0 <= j < ids@.len() && ids@[j] == p;
                assert(r@[j] == m);
            }
        }
        r
    }

    /// Depart moves of train `t_id` from station `s_id`, one for each
    /// connection of the station with room left.
    fn departments(&self, t_id: TId, s_id: SId, model: &Model) -> (r: Vec<Move>)
        requires
            model.wf(),
            self.inv(model),
            t_id < model.n_trains(),
            s_id < model.n_stations(),
            self.t_location@[t_id as int] == TLocation::Station(s_id),
            self.t > 0,
        ensures
            self.all_offered(t_id, r@, model),
            forall|m: Move| self.offers(t_id, m, model) && m is Depart ==> r@.contains(m),
            forall|k: int| 0 <= k < r@.len() ==> #[trigger] r@[k] is Depart,
            r@.no_duplicates(),
    {
        let ids = &model.station_connections[s_id];
        proof {
            assert forall|a: int, b: int| 0 <= a < ids@.len() && 0 <= b < ids@.len() && a != b implies ids@[a] != ids@[b] by {
                if a < b {
                    assert(ids@[a] < ids@[b]);
                } else {
                    assert(ids@[b] < ids@[a]);
                }
            }
        }
        let mut r: Vec<Move> = Vec::new();
        let mut i: usize = 0;
        while i < ids.len()
            invariant
                model.wf(),
                self.inv(model),
                t_id < model.n_trains(),
                s_id < model.n_stations(),
                self.t_location@[t_id as int] == TLocation::Station(s_id),
                self.t > 0,
                *ids == model.station_connections@[s_id as int],
                0 <= i <= ids@.len(),
                self.all_offered(t_id, r@, model),
                forall|j: int|
                    0 <= j < i && self.c_capacity@[ids@[j] as int] > 0 ==> r@.contains(
                        Move::Depart(Depart { t_id, from: s_id, to: model.destination(s_id, #[trigger] ids@[j]), c_id: ids@[j] }),
                    ),
                ids@.no_duplicates(),
                forall|k: int|
                    0 <= k < r@.len() ==> exists|j: int|
                        0 <= j < i && #[trigger] r@[k] == Move::Depart(Depart { t_id, from: s_id, to: model.destination(s_id, ids@[j]), c_id: ids@[j] }),
                r@.no_duplicates(),
            decreases ids@.len() - i,
        {
            let c_id = ids[i];
            proof {
                assert(model.station_connections@[s_id as int]@.contains(c_id));
            }
            if self.c_capacity[c_id] > 0 {
                let m = Move::Depart(Depart { t_id, from: s_id, to: model.get_destination(s_id, c_id), c_id });
                let ghost before = r@;
                proof {
                    assert forall|k: int| 0 <= k < before.len() implies before[k] != m by {
                        let j = choose|j: int| 0 <= j < i && #[trigger] before[k] == Move::Depart(Depart { t_id, from: s_id, to: model.destination(s_id, ids@[j]), c_id: ids@[j] });
                        assert(ids@[j] != ids@[i as int]);
                    }
                }
                r.push(m);
                proof {
                    assert(r@[before.len() as int] == m);
                    assert forall|k: int| 0 <= k < r@.len() implies exists|j: int|
                        0 <= j < i + 1 && #[trigger] r@[k] == Move::Depart(Depart { t_id, from: s_id, to: model.destination(s_id, ids@[j]), c_id: ids@[j] }) by {
                        if k < before.len() {
                            let j = choose|j: int| 0 <= j < i && #[trigger] before[k] == Move::Depart(Depart { t_id, from: s_id, to: model.destination(s_id, ids@[j]), c_id: ids@[j] });
                            assert(r@[k] == before[k]);
                        } else {
                            assert(r@[k] == Move::Depart(Depart { t_id, from: s_id, to: model.destination(s_id, ids@[i as int]), c_id: ids@[i as int] }));
                        }
                    }
                    assert forall|j: int|
                        0 <= j <= i && self.c_capacity@[ids@[j] as int] > 0 implies r@.contains(
                        Move::Depart(Depart { t_id, from: s_id, to: model.destination(s_id, #[trigger] ids@[j]), c_id: ids@[j] }),
                    ) by {
                        if j < i {
                            let x = Move::Depart(Depart { t_id, from: s_id, to: model.destination(s_id, ids@[j]), c_id: ids@[j] });
                            let k = choose|k: int| 0 <= k < before.len() && before[k] == x;
                            assert(r@[k] == x);
                        }
                    }
                }
            }
            i = i + 1;
        }
        proof {
            assert forall|k: int| 0 <= k < r@.len() implies #[trigger] r@[k] is Depart by {
                let j = choose|j: int| 0 <= j < ids@.len() && #[trigger] r@[k] == Move::Depart(Depart { t_id, from: s_id, to: model.destination(s_id, ids@[j]), c_id: ids@[j] });
            }
            assert forall|m: Move| self.offers(t_id, m, model) && m is Depart implies r@.contains(m) by {
                let c = m->Depart_0.c_id;
                assert(model.station_connections@[s_id as int]@.contains(c));
                let j = choose|j: int| 0 <= j < ids@.len() && ids@[j] == c;
            }
        }
        r
    }

    /// Start moves of train `t_id`, one for each station with room left, in
    /// station order.
    pub fn train_starts(&self, t_id: TId) -> (r: Vec<Move>)
        ensures
            forall|k: int|
                0 <= k < r@.len() ==> #[trigger] r@[k] is Start && r@[k]->Start_0.t_id == t_id
                    && r@[k]->Start_0.s_id < self.s_capacity@.len()
                    && self.s_capacity@[r@[k]->Start_0.s_id as int] > 0,
            forall|s: SId|
                s < self.s_capacity@.len() && self.s_capacity@[s as int] > 0 ==> r@.contains(
                    Move::Start(Start { t_id, s_id: s }),
                ),
            forall|j: int, k: int| 0 <= j < k < r@.len() ==> (#[trigger] r@[j])->Start_0.s_id < (#[trigger] r@[k])->Start_0.s_id,
    {
        let mut r: Vec<Move> = Vec::new();
        let mut s_id: usize = 0;
        while s_id < self.s_capacity.len()
            invariant
                0 <= s_id <= self.s_capacity@.len(),
                forall|k: int|
                    0 <= k < r@.len() ==> #[trigger] r@[k] is Start && r@[k]->Start_0.t_id == t_id
                        && r@[k]->Start_0.s_id < self.s_capacity@.len()
                        && self.s_capacity@[r@[k]->Start_0.s_id as int] > 0,
                forall|s: SId|
                    s < s_id && #[trigger] self.s_capacity@[s as int] > 0 ==> r@.contains(
                        Move::Start(Start { t_id, s_id: s }),
                    ),
                forall|j: int, k: int| 0 <= j < k < r@.len() ==> (#[trigger] r@[j])->Start_0.s_id < (#[trigger] r@[k])->Start_0.s_id,
                forall|k: int| 0 <= k < r@.len() ==> (#[trigger] r@[k])->Start_0.s_id < s_id,
            decreases self.s_capacity@.len() - s_id,
        {
            if self.s_capacity[s_id] > 0 {
                let m = Move::Start(Start { t_id, s_id });
                let ghost before = r@;
                r.push(m);
                proof {
                    assert(r@[before.len() as int] == m);
                    assert forall|s: SId|
                        s <= s_id && #[trigger] self.s_capacity@[s as int] > 0 implies r@.contains(
                        Move::Start(Start { t_id, s_id: s }),
                    ) by {
                        if s < s_id {
                            let x = Move::Start(Start { t_id, s_id: s });
                            let k = choose|k: int| 0 <= k < before.len() && before[k] == x;
                            assert(r@[k] == x);
                        }
                    }
                }
            }
            s_id = s_id + 1;
        }
        r
    }
}

impl State {
    /// The first move of this point in time that train `t_id` performs.
    pub fn train_move(&self, t_id: TId) -> (r: Option<&Move>)
        ensures
            match r {
                Option::None => forall|k: int| 0 <= k < self.moves@.len() ==> mover(#[trigger] self.moves@[k]) != Some(t_id),
                Option::Some(m) => exists|k: int|
                    0 <= k < self.moves@.len() && self.moves@[k] == *m && mover(*m) == Some(t_id) && forall|j: int|
                        0 <= j < k ==> mover(#[trigger] self.moves@[j]) != Some(t_id),
            },
    {
        let mut k: usize = 0;
        while k < self.moves.len()
            invariant
                0 <= k <= self.moves@.len(),
                forall|j: int| 0 <= j < k ==> mover(#[trigger] self.moves@[j]) != Some(t_id),
            decreases self.moves@.len() - k,
        {
            let found = match &self.moves[k] {
                Move::Board(b) => b.t_id == t_id,
                Move::Detrain(d) => d.t_id == t_id,
                Move::Depart(d) => d.t_id == t_id,
                Move::Start(st) => st.t_id == t_id,
                Move::NoMove(_) => false,
            };
            if found {
                return Option::Some(&self.moves[k]);
            }
            k = k + 1;
        }
        Option::None
    }

    /// The first move of this point in time that moves passenger group `p_id`.
    pub fn passenger_move(&self, p_id: PId) -> (r: Option<&Move>)
        ensures
            match r {
                Option::None => forall|k: int| 0 <= k < self.moves@.len() ==> moved_group(#[trigger] self.moves@[k]) != Some(p_id),
                Option::Some(m) => exists|k: int|
                    0 <= k < self.moves@.len() && self.moves@[k] == *m && moved_group(*m) == Some(p_id) && forall|j: int|
                        0 <= j < k ==> moved_group(#[trigger] self.moves@[j]) != Some(p_id),
            },
    {
        let mut k: usize = 0;
        while k < self.moves.len()
            invariant
                0 <= k <= self.moves@.len(),
                forall|j: int| 0 <= j < k ==> moved_group(#[trigger] self.moves@[j]) != Some(p_id),
            decreases self.moves@.len() - k,
        {
            let found = match &self.moves[k] {
                Move::Board(b) => b.p_id == p_id,
                Move::Detrain(d) => d.p_id == p_id,
                _ => false,
            };
            if found {
                return Option::Some(&self.moves[k]);
            }
            k = k + 1;
        }
        Option::None
    }

    /// Builds a state at time `t` from its capacities and locations. Each
    /// group located at a station is indexed there, in id order; the train
    /// indexes and the arrived set start empty and no move is recorded.
    pub fn new(
        t: Time,
        s_capacity: Vec<Capacity>,
        c_capacity: Vec<Capacity>,
        t_capacity: Vec<Capacity>,
        t_location: Vec<TLocation>,
        p_location: Vec<PLocation>,
        p_delays: Vec<TimeDiff>,
    ) -> (r: State)
        ensures
            r.t == t,
            r.s_capacity == s_capacity,
            r.c_capacity == c_capacity,
            r.t_capacity == t_capacity,
            r.t_location == t_location,
            r.p_location == p_location,
            r.p_delays == p_delays,
            r.moves@.len() == 0,
            r.p_arrived@.len() == 0,
            r.t_passengers@.len() == t_location@.len(),
            forall|i: int| 0 <= i < t_location@.len() ==> (#[trigger] r.t_passengers@[i])@.len() == 0,
            r.s_passengers@.len() == s_capacity@.len(),
            forall|s: int|
                0 <= s < s_capacity@.len() ==> (#[trigger] r.s_passengers@[s])@ == Seq::new(
                    p_location@.len(),
                    |p: int| p as PId,
                ).filter(waiting_at(p_location@, s as SId)),
            r.ids_unique(),
    {
        let mut s_passengers: Vec<IdSet> = Vec::new();
        let mut s_id: usize = 0;
        while s_id < s_capacity.len()
            invariant
                0 <= s_id <= s_capacity@.len(),
                s_passengers@.len() == s_id,
                forall|s: int|
                    0 <= s < s_id ==> (#[trigger] s_passengers@[s])@ == Seq::new(
                        p_location@.len(),
                        |p: int| p as PId,
                    ).filter(waiting_at(p_location@, s as SId)),
                forall|s: int| 0 <= s < s_id ==> (#[trigger] s_passengers@[s])@.no_duplicates(),
            decreases s_capacity@.len() - s_id,
        {
            let ghost all = Seq::new(p_location@.len(), |p: int| p as PId);
            let ghost here = waiting_at(p_location@, s_id);
            let mut ids: IdSet = Vec::new();
            let mut p_id: usize = 0;
            while p_id < p_location.len()
                invariant
                    0 <= p_id <= p_location@.len(),
                    all == Seq::new(p_location@.len(), |p: int| p as PId),
                    here == waiting_at(p_location@, s_id),
                    ids@ == all.subrange(0, p_id as int).filter(here),
                    forall|k: int| 0 <= k < ids@.len() ==> #[trigger] ids@[k] < p_id,
                    ids@.no_duplicates(),
                decreases p_location@.len() - p_id,
            {
                proof {
                    assert(all[p_id as int] == p_id);
                    assert(all.subrange(0, p_id + 1) =~= all.subrange(0, p_id as int).push(p_id));
                    all.subrange(0, p_id as int).lemma_filter_push(p_id, here);
                    assert(here(p_id) == (p_location@[p_id as int] == PLocation::Station(s_id)));
                }
                if p_location[p_id] == PLocation::Station(s_id) {
                    ids.push(p_id);
                }
                p_id = p_id + 1;
            }
            proof {
                assert(all.subrange(0, p_location@.len() as int) =~= all);
            }
            s_passengers.push(ids);
            s_id = s_id + 1;
        }
        let mut t_passengers: Vec<IdSet> = Vec::new();
        let mut i: usize = 0;
        while i < t_location.len()
            invariant
                0 <= i <= t_location@.len(),
                t_passengers@.len() == i,
                forall|j: int| 0 <= j < i ==> (#[trigger] t_passengers@[j])@.len() == 0,
            decreases t_location@.len() - i,
        {
            t_passengers.push(Vec::new());
            i = i + 1;
        }
        State {
            t,
            s_capacity,
            c_capacity,
            t_capacity,
            t_location,
            p_location,
            t_passengers,
            s_passengers,
            p_arrived: Vec::new(),
            p_delays,
            moves: Vec::new(),
        }
    }
}

/// A move that a train can make is legal to apply.
pub proof fn lemma_offered_is_legal(s: State, t_id: TId, m: Move, model: &Model)
    requires
        model.wf(),
        s.inv(model),
        t_id < model.n_trains(),
        s.offers(t_id, m, model),
    ensures
        s.legal(m, model),
{
}

/// A copy of `v`.
pub fn copy_vec<T: Copy>(v: &Vec<T>) -> (r: Vec<T>)
    ensures
        r@ == v@,
{
    let mut r: Vec<T> = Vec::new();
    let mut i: usize = 0;
    while i < v.len()
        invariant
            0 <= i <= v@.len(),
            r@ == v@.subrange(0, i as int),
        decreases v@.len() - i,
    {
        r.push(v[i]);
        i = i + 1;
        proof {
            assert(r@ =~= v@.subrange(0, i as int));
        }
    }
    proof {
        assert(r@ =~= v@);
    }
    r
}

/// A copy of each set of `v`.
fn copy_sets(v: &Vec<IdSet>) -> (r: Vec<IdSet>)
    ensures
        r@.len() == v@.len(),
        forall|i: int| 0 <= i < v@.len() ==> (#[trigger] r@[i])@ == v@[i]@,
{
    let mut r: Vec<IdSet> = Vec::new();
    let mut i: usize = 0;
    while i < v.len()
        invariant
            0 <= i <= v@.len(),
            r@.len() == i,
            forall|j: int| 0 <= j < i ==> (#[trigger] r@[j])@ == v@[j]@,
        decreases v@.len() - i,
    {
        r.push(copy_vec(&v[i]));
        i = i + 1;
    }
    r
}

impl State {
    /// Every field holds the same values as in `other`, in the same order.
    pub open spec fn mirrors(self, other: State) -> bool {
        &&& self.t == other.t
        &&& self.s_capacity@ == other.s_capacity@
        &&& self.c_capacity@ == other.c_capacity@
        &&& self.t_capacity@ == other.t_capacity@
        &&& self.t_location@ == other.t_location@
        &&& self.p_location@ == other.p_location@
        &&& self.t_passengers@.len() == other.t_passengers@.len()
        &&& forall|i: int| 0 <= i < self.t_passengers@.len() ==> (#[trigger] self.t_passengers@[i])@ == other.t_passengers@[i]@
        &&& self.s_passengers@.len() == other.s_passengers@.len()
        &&& forall|i: int| 0 <= i < self.s_passengers@.len() ==> (#[trigger] self.s_passengers@[i])@ == other.s_passengers@[i]@
        &&& self.p_arrived@ == other.p_arrived@
        &&& self.p_delays@ == other.p_delays@
        &&& self.moves@ == other.moves@
    }

    /// A copy of the state.
    pub fn snapshot(&self) -> (r: State)
        ensures
            r.mirrors(*self),
    {
        State {
            t: self.t,
            s_capacity: copy_vec(&self.s_capacity),
            c_capacity: copy_vec(&self.c_capacity),
            t_capacity: copy_vec(&self.t_capacity),
            t_location: copy_vec(&self.t_location),
            p_location: copy_vec(&self.p_location),
            t_passengers: copy_sets(&self.t_passengers),
            s_passengers: copy_sets(&self.s_passengers),
            p_arrived: copy_vec(&self.p_arrived),
            p_delays: copy_vec(&self.p_delays),
            moves: copy_vec(&self.moves),
        }
    }
}

/// A copy of a state keeps the invariant.
pub proof fn lemma_mirror_inv(s: State, copy: State, model: &Model)
    requires
        s.inv(model),
        copy.mirrors(s),
    ensures
        copy.inv(model),
{
    assert(id_sets(copy.t_passengers@) =~= id_sets(s.t_passengers@));
    assert(id_sets(copy.s_passengers@) =~= id_sets(s.s_passengers@));
    assert(copy.same(s));
    assert forall|i: int| 0 <= i < copy.t_passengers@.len() implies (#[trigger] copy.t_passengers@[i])@.no_duplicates() by {
        assert(s.t_passengers@[i]@.no_duplicates());
    }
    assert forall|i: int| 0 <= i < copy.s_passengers@.len() implies (#[trigger] copy.s_passengers@[i])@.no_duplicates() by {
        assert(s.s_passengers@[i]@.no_duplicates());
    }
    lemma_same_inv(s, copy, model);
}

/// The arithmetic of applying a legal move stays within the integer types.
proof fn lemma_push_bounds(s: State, m: Move, model: &Model)
    requires
        model.wf(),
        s.inv(model),
        s.legal(m, model),
    ensures
        match m {
            Move::Board(b) => 0 <= model.size(b.p_id as int) <= s.t_capacity@[b.t_id as int],
            Move::Detrain(d) => {
                &&& 0 <= model.size(d.p_id as int)
                &&& s.t_capacity@[d.t_id as int] + model.size(d.p_id as int) <= i16::MAX
                &&& model.passengers@[d.p_id as int].arrival <= model.t_max
            },
            Move::Depart(d) => s.s_capacity@[d.from as int] + 1 <= i16::MAX,
            _ => true,
        },
{
    match m {
        Move::Board(b) => {
            assert(model.passengers@[b.p_id as int].size >= 0);
        },
        Move::Detrain(d) => {
            assert(model.passengers@[d.p_id as int].size >= 0);
            assert forall|i: int| 0 <= i < s.p_location@.len() implies #[trigger] s.load_term(d.t_id, model)(i) >= 0 by {
                if s.p_location@[i] == PLocation::Train(d.t_id) {
                    assert(model.passengers@[i].size >= 0);
                }
            }
            lemma_sum_ge_term(s.p_location@.len(), s.load_term(d.t_id, model), d.p_id as int);
        },
        Move::Depart(d) => {
            assert forall|i: int| 0 <= i < s.t_location@.len() implies #[trigger] s.station_term(d.from)(i) >= 0 by {}
            lemma_sum_ge_term(s.t_location@.len(), s.station_term(d.from), d.t_id as int);
        },
        _ => {},
    }
}

/// Undoing a move right after applying it gives back the state: every
/// capacity, location, delay and move, and each index as a set of ids.
pub proof fn lemma_pop_inverts_push(s: State, m: Move, pushed: State, restored: State, model: &Model)
    requires
        model.wf(),
        s.inv(model),
        s.legal(m, model),
        s.pushed(pushed, m, model),
        pushed.popped(restored, model),
    ensures
        restored.same(s),
{
    lemma_push_bounds(s, m, model);
    assert(pushed.moves@.last() == m);
    assert(restored.moves@ =~= s.moves@);
    let ts = id_sets(s.t_passengers@);
    let ss = id_sets(s.s_passengers@);
    match m {
        Move::Board(b) => {
            assert(!ts[b.t_id as int].contains(b.p_id));
            assert(ss[b.s_id as int].contains(b.p_id));
            assert(ts[b.t_id as int].insert(b.p_id).remove(b.p_id) =~= ts[b.t_id as int]);
            assert(ss[b.s_id as int].remove(b.p_id).insert(b.p_id) =~= ss[b.s_id as int]);
            assert(restored.t_capacity@ =~= s.t_capacity@);
            assert(restored.p_location@ =~= s.p_location@);
            assert(id_sets(restored.t_passengers@) =~= ts);
            assert(id_sets(restored.s_passengers@) =~= ss);
        },
        Move::Detrain(d) => {
            assert(ts[d.t_id as int].contains(d.p_id));
            assert(ts[d.t_id as int].remove(d.p_id).insert(d.p_id) =~= ts[d.t_id as int]);
            assert(restored.t_capacity@ =~= s.t_capacity@);
            assert(restored.p_location@ =~= s.p_location@);
            assert(id_sets(restored.t_passengers@) =~= ts);
            if d.s_id == model.passengers@[d.p_id as int].destination {
                assert(!s.p_arrived@.to_set().contains(d.p_id));
                assert(s.p_arrived@.to_set().insert(d.p_id).remove(d.p_id) =~= s.p_arrived@.to_set());
                assert(restored.p_delays@ =~= s.p_delays@);
            } else {
                assert(!ss[d.s_id as int].contains(d.p_id));
                assert(ss[d.s_id as int].insert(d.p_id).remove(d.p_id) =~= ss[d.s_id as int]);
                assert(id_sets(restored.s_passengers@) =~= ss);
            }
        },
        Move::Depart(d) => {
            assert(restored.s_capacity@ =~= s.s_capacity@);
            assert(restored.c_capacity@ =~= s.c_capacity@);
            assert(restored.t_location@ =~= s.t_location@);
        },
        Move::Start(st) => {
            assert(restored.s_capacity@ =~= s.s_capacity@);
            assert(restored.t_location@ =~= s.t_location@);
        },
        Move::NoMove(_) => {},
    }
}

/// A state that agrees with one that keeps the invariant keeps it too.
pub proof fn lemma_same_inv(s: State, other: State, model: &Model)
    requires
        s.inv(model),
        other.same(s),
        other.ids_unique(),
    ensures
        other.inv(model),
{
    lemma_same_trains(s, other);
    lemma_same_loads(s, other, model);
    assert(id_sets(s.t_passengers@).len() == s.t_passengers@.len());
    assert(id_sets(s.s_passengers@).len() == s.s_passengers@.len());
    assert(id_sets(other.t_passengers@).len() == other.t_passengers@.len());
    assert(id_sets(other.s_passengers@).len() == other.s_passengers@.len());
}

/// Sums over the trains agree when the train locations do.
proof fn lemma_same_trains(a: State, b: State)
    requires
        a.t_location@ == b.t_location@,
    ensures
        forall|s: SId| #[trigger] a.trains_at(s) == b.trains_at(s),
        forall|c: CId| #[trigger] a.trains_on(c) == b.trains_on(c),
{
    assert forall|s: SId| #[trigger] a.trains_at(s) == b.trains_at(s) by {
        crate::sums::lemma_sum_ext(a.t_location@.len(), a.station_term(s), b.station_term(s));
    }
    assert forall|c: CId| #[trigger] a.trains_on(c) == b.trains_on(c) by {
        crate::sums::lemma_sum_ext(a.t_location@.len(), a.connection_term(c), b.connection_term(c));
    }
}

/// Loads agree when the passenger locations do.
proof fn lemma_same_loads(a: State, b: State, model: &Model)
    requires
        a.p_location@ == b.p_location@,
    ensures
        forall|t: TId| #[trigger] a.load(t, model) == b.load(t, model),
{
    assert forall|t: TId| #[trigger] a.load(t, model) == b.load(t, model) by {
        crate::sums::lemma_sum_ext(a.p_location@.len(), a.load_term(t, model), b.load_term(t, model));
    }
}

/// Moving one passenger group changes only the loads of the trains it
/// leaves or enters.
proof fn lemma_loads_after_move(a: State, b: State, p: int, model: &Model)
    requires
        0 <= p < a.p_location@.len(),
        b.p_location@ == a.p_location@.update(p, b.p_location@[p]),
    ensures
        forall|t: TId|
            #[trigger] b.load(t, model) == a.load(t, model) - a.load_term(t, model)(p) + b.load_term(
                t,
                model,
            )(p),
{
    assert forall|t: TId|
        #[trigger] b.load(t, model) == a.load(t, model) - a.load_term(t, model)(p) + b.load_term(
            t,
            model,
        )(p) by {
        lemma_sum_change(a.p_location@.len(), a.load_term(t, model), b.load_term(t, model), p);
    }
}

/// Moving one train changes only the counts of the places it leaves or
/// enters.
proof fn lemma_counts_after_move(a: State, b: State, i: int)
    requires
        0 <= i < a.t_location@.len(),
        b.t_location@ == a.t_location@.update(i, b.t_location@[i]),
    ensures
        forall|s: SId|
            #[trigger] b.trains_at(s) == a.trains_at(s) - a.station_term(s)(i) + b.station_term(s)(i),
        forall|c: CId|
            #[trigger] b.trains_on(c) == a.trains_on(c) - a.connection_term(c)(i) + b.connection_term(
                c,
            )(i),
{
    assert forall|s: SId|
        #[trigger] b.trains_at(s) == a.trains_at(s) - a.station_term(s)(i) + b.station_term(s)(i) by {
        lemma_sum_change(a.t_location@.len(), a.station_term(s), b.station_term(s), i);
    }
    assert forall|c: CId|
        #[trigger] b.trains_on(c) == a.trains_on(c) - a.connection_term(c)(i) + b.connection_term(c)(
            i,
        ) by {
        lemma_sum_change(a.t_location@.len(), a.connection_term(c), b.connection_term(c), i);
    }
}

/// Applying a legal move keeps the state invariant, and the move can then be
/// undone.
pub proof fn lemma_push_inv(s: State, w: State, m: Move, model: &Model)
    requires
        model.wf(),
        s.inv(model),
        s.legal(m, model),
        s.pushed(w, m, model),
        w.ids_unique(),
    ensures
        w.inv(model),
        w.pop_safe(model),
{
    match m {
        Move::Board(b) => {
            lemma_same_trains(s, w);
            lemma_loads_after_move(s, w, b.p_id as int, model);
            assert(model.passengers@[b.p_id as int].size >= 0);
            assert(w.t_capacity@[b.t_id as int] == s.t_capacity@[b.t_id as int] - model.size(b.p_id as int));
            assert(id_sets(w.t_passengers@).len() == w.t_passengers@.len());
            assert(id_sets(w.s_passengers@).len() == w.s_passengers@.len());
        },
        Move::Detrain(d) => {
            assert forall|i: int| 0 <= i < s.p_location@.len() implies #[trigger] s.load_term(d.t_id, model)(i) >= 0 by {
                if s.p_location@[i] == PLocation::Train(d.t_id) {
                    assert(model.passengers@[i].size >= 0);
                }
            }
            lemma_sum_ge_term(s.p_location@.len(), s.load_term(d.t_id, model), d.p_id as int);
            lemma_same_trains(s, w);
            lemma_loads_after_move(s, w, d.p_id as int, model);
            assert(id_sets(w.t_passengers@).len() == w.t_passengers@.len());
            assert(id_sets(w.s_passengers@).len() == w.s_passengers@.len());
        },
        Move::Depart(d) => {
            assert forall|i: int| 0 <= i < s.t_location@.len() implies #[trigger] s.station_term(d.from)(i) >= 0 by {}
            lemma_sum_ge_term(s.t_location@.len(), s.station_term(d.from), d.t_id as int);
            lemma_same_loads(s, w, model);
            lemma_counts_after_move(s, w, d.t_id as int);
            assert(id_sets(w.t_passengers@).len() == w.t_passengers@.len());
            assert(id_sets(w.s_passengers@).len() == w.s_passengers@.len());
        },
        Move::Start(st) => {
            lemma_same_loads(s, w, model);
            lemma_counts_after_move(s, w, st.t_id as int);
            assert(id_sets(w.t_passengers@).len() == w.t_passengers@.len());
            assert(id_sets(w.s_passengers@).len() == w.s_passengers@.len());
        },
        Move::NoMove(_) => {
            lemma_same_trains(s, w);
            lemma_same_loads(s, w, model);
            assert(id_sets(w.t_passengers@).len() == w.t_passengers@.len());
            assert(id_sets(w.s_passengers@).len() == w.s_passengers@.len());
        },
    }
}

/// Capacity conservation: along any sequence of legal moves applied to a
/// state that keeps the invariant, every state keeps it, so for every
/// station, connection and train the remaining capacity plus what occupies it
/// (trains standing at the station, trains on the connection, the sizes of
/// the groups aboard) equals its capacity in the model.
pub proof fn lemma_capacity_conservation(states: Seq<State>, moves: Seq<Move>, model: &Model)
    requires
        model.wf(),
        states.len() == moves.len() + 1,
        states[0].inv(model),
        forall|i: int|
            0 <= i < moves.len() ==> (#[trigger] states[i]).legal(moves[i], model) && states[i].pushed(
                states[i + 1],
                moves[i],
                model,
            ) && states[i + 1].ids_unique(),
    ensures
        forall|i: int| 0 <= i < states.len() ==> (#[trigger] states[i]).inv(model) && states[i].conserves(model),
    decreases moves.len(),
{
    if moves.len() > 0 {
        let n = moves.len() - 1;
        assert forall|i: int| 0 <= i < n implies (#[trigger] states.subrange(0, n + 1)[i]).legal(
            moves.subrange(0, n)[i],
            model,
        ) && states.subrange(0, n + 1)[i].pushed(states.subrange(0, n + 1)[i + 1], moves.subrange(0, n)[i], model)
            && states.subrange(0, n + 1)[i + 1].ids_unique() by {
            assert(states[i].legal(moves[i], model));
        }
        lemma_capacity_conservation(states.subrange(0, n + 1), moves.subrange(0, n), model);
        assert(states.subrange(0, n + 1)[n].inv(model));
        assert(states[n].legal(moves[n], model));
        lemma_push_inv(states[n], states[n + 1], moves[n], model);
        assert forall|i: int| 0 <= i < states.len() implies (#[trigger] states[i]).inv(model) && states[i].conserves(model) by {
            if i <= n {
                assert(states.subrange(0, n + 1)[i] == states[i]);
            }
        }
    }
}

/// The total size of the groups listed in `ids`.
pub open spec fn index_load(ids: Seq<PId>, model: &Model) -> int
    decreases ids.len(),
{
    if ids.len() == 0 {
        0
    } else {
        index_load(ids.drop_last(), model) + model.size(ids.last() as int)
    }
}

/// The size of each group listed in `ids`, by group id.
pub open spec fn listed_term(ids: Seq<PId>, model: &Model) -> spec_fn(int) -> int {
    |i: int| if exists|k: int| 0 <= k < ids.len() && #[trigger] ids[k] as int == i { model.size(i) } else { 0int }
}

/// Summing over a list without repetitions equals summing over the ids it
/// lists.
proof fn lemma_index_load(ids: Seq<PId>, n: nat, model: &Model)
    requires
        ids.no_duplicates(),
        forall|k: int| 0 <= k < ids.len() ==> (#[trigger] ids[k]) < n,
    ensures
        index_load(ids, model) == sum_to(n, listed_term(ids, model)),
    decreases ids.len(),
{
    if ids.len() == 0 {
        assert forall|i: int| 0 <= i < n implies #[trigger] listed_term(ids, model)(i) == 0 by {}
        crate::sums::lemma_sum_zero(n, listed_term(ids, model));
    } else {
        let rest = ids.drop_last();
        let last = ids.last();
        assert forall|k: int| 0 <= k < rest.len() implies (#[trigger] rest[k]) < n by {
            assert(rest[k] == ids[k]);
        }
        assert(rest.no_duplicates()) by {
            assert forall|a: int, b: int| 0 <= a < rest.len() && 0 <= b < rest.len() && a != b implies rest[a] != rest[b] by {
                assert(rest[a] == ids[a] && rest[b] == ids[b]);
            }
        }
        lemma_index_load(rest, n, model);
        assert forall|i: int| 0 <= i < n && i != last as int implies #[trigger] listed_term(rest, model)(i) == listed_term(ids, model)(i) by {
            if exists|k: int| 0 <= k < ids.len() && #[trigger] ids[k] as int == i {
                let k = choose|k: int| 0 <= k < ids.len() && #[trigger] ids[k] as int == i;
                assert(k < rest.len());
                assert(rest[k] as int == i);
            }
            if exists|k: int| 0 <= k < rest.len() && #[trigger] rest[k] as int == i {
                let k = choose|k: int| 0 <= k < rest.len() && #[trigger] rest[k] as int == i;
                assert(ids[k] as int == i);
            }
        }
        assert(listed_term(ids, model)(last as int) == model.size(last as int)) by {
            assert(ids[ids.len() - 1] as int == last as int);
        }
        assert(listed_term(rest, model)(last as int) == 0) by {
            if exists|k: int| 0 <= k < rest.len() && #[trigger] rest[k] as int == last as int {
                let k = choose|k: int| 0 <= k < rest.len() && #[trigger] rest[k] as int == last as int;
                assert(ids[k] == ids[ids.len() - 1]);
            }
        }
        lemma_sum_change(n, listed_term(rest, model), listed_term(ids, model), last as int);
    }
}

/// Capacity conservation for trains, over the train's own index: in a state
/// that keeps the invariant, the remaining capacity of each train plus the
/// sizes of the groups its index lists equals its capacity.
pub proof fn lemma_train_index_conservation(s: State, t: TId, model: &Model)
    requires
        model.wf(),
        s.inv(model),
        t < model.n_trains(),
        model.n_passengers() <= usize::MAX,
    ensures
        s.t_capacity@[t as int] + index_load(s.t_passengers@[t as int]@, model) == model.trains@[t as int].capacity,
{
    let ids = s.t_passengers@[t as int]@;
    let n = model.n_passengers();
    assert(ids.no_duplicates());
    assert forall|k: int| 0 <= k < ids.len() implies (#[trigger] ids[k]) < n by {
        assert(id_sets(s.t_passengers@)[t as int].contains(ids[k]));
    }
    lemma_index_load(ids, n, model);
    assert forall|i: int| 0 <= i < n implies #[trigger] listed_term(ids, model)(i) == s.load_term(t, model)(i) by {
        let p = i as PId;
        assert(p as int == i);
        if exists|k: int| 0 <= k < ids.len() && #[trigger] ids[k] as int == i {
            let k = choose|k: int| 0 <= k < ids.len() && #[trigger] ids[k] as int == i;
            assert(id_sets(s.t_passengers@)[t as int].contains(ids[k]));
        }
        if s.p_location@[i] == PLocation::Train(t) {
            assert(id_sets(s.t_passengers@)[t as int].contains(p));
            let k = choose|k: int| 0 <= k < ids.len() && ids[k] == p;
            assert(ids[k] as int == i);
        }
    }
    crate::sums::lemma_sum_ext(n, listed_term(ids, model), s.load_term(t, model));
}

} // verus!
