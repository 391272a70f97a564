use crate::connection::{Connection, Connections, Distance, Id as CId};
use crate::passenger::Passenger;
use crate::passenger::Location as PLocation;
use crate::rule::Rule;
use crate::state::{standing_term, waiting_at, State};
use crate::sums::{lemma_sum_change, lemma_sum_count_bounds, lemma_sum_ext, lemma_sum_nonneg, lemma_sum_ones, lemma_sum_zero, sum_to};
use crate::station::{Id as SId, Station};
use crate::train::{Id as TId, Location as TLocation, StartStation, Train};
use crate::types::{id_sets, Capacity, Time, TimeDiff, MAX_TIME, MAX_TRAINS};
use vstd::prelude::*;

verus! {

/// Some connection of `conns` joins stations `x` and `y`.
pub open spec fn joined(conns: Seq<Connection>, x: SId, y: SId) -> bool {
    exists|c: int|
        0 <= c < conns.len() && ((#[trigger] conns[c]).a == x && conns[c].b == y || conns[c].a == y
            && conns[c].b == x)
}

/// `path` is a walk over stations below `n`, along `conns`, ending at `b`.
pub open spec fn is_walk(conns: Seq<Connection>, n: nat, path: Seq<SId>, b: SId) -> bool {
    &&& path.len() > 0
    &&& path.last() == b
    &&& forall|i: int| 0 <= i < path.len() ==> (#[trigger] path[i]) < n
    &&& forall|i: int| 0 <= i < path.len() - 1 ==> joined(conns, #[trigger] path[i], path[i + 1])
}

/// The connection ends lie below `n`.
pub open spec fn ends_below(conns: Seq<Connection>, n: nat) -> bool {
    forall|c: int| 0 <= c < conns.len() ==> (#[trigger] conns[c]).a < n && conns[c].b < n
}

/// `adjacency[s]` lists exactly the connections of `conns` that touch `s`,
/// each once, in ascending order.
pub open spec fn lists_touching(conns: Seq<Connection>, adjacency: Seq<Vec<CId>>, n: nat) -> bool {
    &&& adjacency.len() == n
    &&& forall|s: int, i: int, j: int|
        0 <= s < n && 0 <= i < j < adjacency[s]@.len() ==> #[trigger] adjacency[s]@[i] < #[trigger] adjacency[s]@[j]
    &&& forall|s: int, c: CId|
        0 <= s < n ==> (#[trigger] adjacency[s]@.contains(c) <==> (c < conns.len() && (conns[c as int].a
            == s as SId || conns[c as int].b == s as SId)))
}

/// Every recorded predecessor is a station joined to its successor.
pub open spec fn tree_edges(conns: Seq<Connection>, n: nat, parent: Seq<Option<SId>>) -> bool {
    forall|w: int|
        0 <= w < parent.len() && (#[trigger] parent[w]) is Some ==> parent[w]->0 < n && joined(
            conns,
            parent[w]->0,
            w as SId,
        )
}

/// Stations, connections, trains and passenger groups refer to each other by
/// valid ids, have non-negative capacities and sizes, trains move, and the
/// number of trains keeps capacities within their integer type.
pub open spec fn valid_entities(
    stations: Seq<Station>,
    connections: Seq<Connection>,
    trains: Seq<Train>,
    passengers: Seq<Passenger>,
) -> bool {
    &&& trains.len() <= MAX_TRAINS
    &&& forall|s: int| 0 <= s < stations.len() ==> (#[trigger] stations[s]).capacity >= 0
    &&& ends_below(connections, stations.len())
    &&& forall|c: int| 0 <= c < connections.len() ==> (#[trigger] connections[c]).capacity >= 0
    &&& forall|t: int|
        0 <= t < trains.len() ==> (#[trigger] trains[t]).capacity >= 0 && trains[t].speed > 0
            && match trains[t].start {
            StartStation::Station(s) => s < stations.len(),
            StartStation::Any => true,
        }
    &&& forall|p: int|
        0 <= p < passengers.len() ==> (#[trigger] passengers[p]).start < stations.len()
            && passengers[p].destination < stations.len() && passengers[p].size >= 0
}

/// A shortest path between two stations and its total distance.
#[derive(Clone, Debug)]
pub struct Path {
    /// The stations of the path, from the first to the last.
    pub path: Vec<SId>,
    /// The total distance of the path; `Distance::MAX` when the last station
    /// cannot be reached from the first.
    pub distance: Distance,
}

/// The static network: stations, connections, trains and passenger groups,
/// with what is derived from them once.
pub struct Model {
    pub stations: Vec<Station>,
    pub connections: Connections,
    pub trains: Vec<Train>,
    pub passengers: Vec<Passenger>,
    /// For each station, the ids of the connections that touch it.
    pub station_connections: Vec<Vec<CId>>,
    /// `paths[a][b]` is the shortest path from station `a` to station `b`.
    pub paths: Vec<Vec<Path>>,
    /// The latest required arrival time of all passenger groups.
    pub max_arrival: Time,
    /// The search horizon.
    pub t_max: Time,
    /// The comparators that order moves, by precedence.
    pub rules: Vec<Rule>,
    /// The number of trains that the search moves (the first ones).
    pub used_trains: usize,
}

impl Model {
    pub open spec fn n_stations(&self) -> nat {
        self.stations@.len()
    }

    pub open spec fn n_connections(&self) -> nat {
        self.connections@.len()
    }

    pub open spec fn n_trains(&self) -> nat {
        self.trains@.len()
    }

    pub open spec fn n_passengers(&self) -> nat {
        self.passengers@.len()
    }

    /// The size of passenger group `p`.
    pub open spec fn size(&self, p: int) -> int {
        self.passengers@[p].size as int
    }

    /// The other end of connection `c`, seen from station `s`.
    pub open spec fn destination(&self, s: SId, c: CId) -> SId {
        if self.connections@[c as int].a == s {
            self.connections@[c as int].b
        } else {
            self.connections@[c as int].a
        }
    }

    /// Connection `c` touches station `s`.
    pub open spec fn touches(&self, c: CId, s: SId) -> bool {
        self.connections@[c as int].a == s || self.connections@[c as int].b == s
    }

    /// Some connection joins stations `x` and `y`.
    pub open spec fn adjacent(&self, x: SId, y: SId) -> bool {
        joined(self.connections@, x, y)
    }

    /// `path` is a walk along connections that ends at `b`.
    pub open spec fn is_walk_to(&self, path: Seq<SId>, b: SId) -> bool {
        is_walk(self.connections@, self.n_stations(), path, b)
    }

    /// The path table covers every ordered pair of stations.
    pub open spec fn paths_wf(&self) -> bool {
        &&& self.paths@.len() == self.n_stations()
        &&& forall|a: int| 0 <= a < self.n_stations() ==> (#[trigger] self.paths@[a])@.len() == self.n_stations()
        &&& forall|a: int|
            0 <= a < self.n_stations() ==> (#[trigger] self.paths@[a])@[a].path@.len() == 0
                && self.paths@[a]@[a].distance == 0
        &&& forall|a: int, b: int|
            0 <= a < self.n_stations() && 0 <= b < self.n_stations() && a != b ==> self.is_walk_to(
                (#[trigger] self.paths@[a]@[b]).path@,
                b as SId,
            )
        &&& forall|a: int, b: int|
            0 <= a < self.n_stations() && 0 <= b < self.n_stations() && a != b && (#[trigger] self.paths@[a]@[b]).distance
                < Distance::MAX ==> self.paths@[a]@[b].path@[0] == a
        &&& forall|a: int| 0 <= a < self.n_stations() ==> no_shortcut(self.connections@, row_distances((#[trigger] self.paths@[a])@))
        &&& forall|a: int, b: int|
            0 <= a < self.n_stations() && 0 <= b < self.n_stations() ==> mirrored(#[trigger] self.paths@[a]@[b], self.paths@[b]@[a])
        &&& forall|a: int, b: int|
            0 <= a < self.n_stations() && 0 <= b < self.n_stations() && (#[trigger] self.paths@[a]@[b]).distance
                < Distance::MAX ==> walk_cost(self.connections@, self.paths@[a]@[b].path@, self.paths@[a]@[b].distance as int)
    }

    /// The fixed data is consistent and within the machine limits.
    pub open spec fn entities_wf(&self) -> bool {
        &&& valid_entities(self.stations@, self.connections@, self.trains@, self.passengers@)
        &&& forall|p: int| 0 <= p < self.n_passengers() ==> (#[trigger] self.passengers@[p]).arrival <= self.max_arrival
    }

    /// The station adjacency lists list exactly the touching connections.
    pub open spec fn adjacency_wf(&self) -> bool {
        lists_touching(self.connections@, self.station_connections@, self.n_stations())
    }

    /// The model is well formed.
    pub open spec fn wf(&self) -> bool {
        &&& self.entities_wf()
        &&& self.adjacency_wf()
        &&& self.paths_wf()
        &&& self.max_arrival <= self.t_max <= MAX_TIME
        &&& self.used_trains <= self.n_trains()
    }

    /// Builds the model and what is derived from it: the connections of each
    /// station, the shortest path table, the latest required arrival and a
    /// search horizon of three times that.
    pub fn new(
        stations: Vec<Station>,
        connections: Connections,
        trains: Vec<Train>,
        passengers: Vec<Passenger>,
        rules: Vec<Rule>,
    ) -> (r: Model)
        requires
            valid_entities(stations@, connections@, trains@, passengers@),
            passengers@.len() > 0,
            forall|p: int| 0 <= p < passengers@.len() ==> 3 * (#[trigger] passengers@[p]).arrival <= MAX_TIME,
        ensures
            r.wf(),
            r.stations == stations,
            r.connections == connections,
            r.trains == trains,
            r.passengers == passengers,
            r.rules == rules,
            exists|p: int| 0 <= p < passengers@.len() && r.max_arrival == (#[trigger] passengers@[p]).arrival,
            r.t_max == 3 * r.max_arrival,
            r.used_trains == trains@.len(),
    {
        let mut max_arrival: Time = passengers[0].arrival;
        let mut p: usize = 1;
        while p < passengers.len()
            invariant
                1 <= p <= passengers@.len(),
                forall|q: int| 0 <= q < p ==> (#[trigger] passengers@[q]).arrival <= max_arrival,
                exists|q: int| 0 <= q < p && max_arrival == (#[trigger] passengers@[q]).arrival,
            decreases passengers@.len() - p,
        {
            if passengers[p].arrival > max_arrival {
                max_arrival = passengers[p].arrival;
            }
            p = p + 1;
        }
        let n = stations.len();
        let mut station_connections: Vec<Vec<CId>> = Vec::new();
        let mut s: usize = 0;
        while s < n
            invariant
                0 <= s <= n,
                n == stations@.len(),
                station_connections@.len() == s,
                forall|x: int| 0 <= x < s ==> (#[trigger] station_connections@[x])@.len() == 0,
            decreases n - s,
        {
            station_connections.push(Vec::new());
            s = s + 1;
        }
        let mut c: usize = 0;
        while c < connections.len()
            invariant
                0 <= c <= connections@.len(),
                n == stations@.len(),
                ends_below(connections@, n as nat),
                station_connections@.len() == n,
                forall|x: int, e: CId|
                    0 <= x < n ==> (#[trigger] station_connections@[x]@.contains(e) <==> (e < c && (
                    connections@[e as int].a == x as SId || connections@[e as int].b == x as SId))),
                forall|x: int, i: int, j: int|
                    0 <= x < n && 0 <= i < j < station_connections@[x]@.len() ==> #[trigger] station_connections@[x]@[i]
                        < #[trigger] station_connections@[x]@[j],
            decreases connections@.len() - c,
        {
            let a = connections[c].a;
            let b = connections[c].b;
            let ghost before = station_connections@;
            station_connections[a].push(c);
            let ghost middle = station_connections@;
            if b != a {
                station_connections[b].push(c);
            }
            proof {
                assert forall|x: int, i: int, j: int|
                    0 <= x < n && 0 <= i < j < station_connections@[x]@.len() implies #[trigger] station_connections@[x]@[i]
                        < #[trigger] station_connections@[x]@[j] by {
                    if j == station_connections@[x]@.len() - 1 && (x == a as int || x == b as int) {
                        assert(station_connections@[x]@[j] == c);
                        assert(station_connections@[x]@[i] == before[x]@[i]);
                        assert(before[x]@.contains(before[x]@[i]));
                    } else {
                        assert(station_connections@[x]@[i] == before[x]@[i]);
                        assert(station_connections@[x]@[j] == before[x]@[j]);
                    }
                }
                assert forall|x: int, e: CId|
                    0 <= x < n implies (#[trigger] station_connections@[x]@.contains(e) <==> (e < c + 1 && (
                    connections@[e as int].a == x as SId || connections@[e as int].b == x as SId))) by {
                    let old_has = before[x]@.contains(e);
                    if x == a as int {
                        assert(station_connections@[x]@ == before[x]@.push(c));
                    } else if x == b as int {
                        assert(station_connections@[x]@ == before[x]@.push(c));
                    } else {
                        assert(station_connections@[x]@ == before[x]@);
                    }
                    if station_connections@[x]@.contains(e) && e != c {
                        let k = choose|k: int| 0 <= k < station_connections@[x]@.len() && station_connections@[x]@[k] == e;
                        assert(k < before[x]@.len());
                        assert(before[x]@[k] == e);
                    }
                    if old_has {
                        let k = choose|k: int| 0 <= k < before[x]@.len() && before[x]@[k] == e;
                        assert(station_connections@[x]@[k] == e);
                    }
                    if e == c && (x == a as int || x == b as int) {
                        assert(station_connections@[x]@[before[x]@.len() as int] == c);
                    }
                }
            }
            c = c + 1;
        }
        let paths = shortest_paths(n, &connections, &station_connections);
        let used_trains = trains.len();
        Model {
            stations,
            connections,
            trains,
            passengers,
            station_connections,
            paths,
            max_arrival,
            t_max: max_arrival * 3,
            rules,
            used_trains,
        }
    }

    /// The state at time zero: trains with a fixed start stand there and use
    /// up its capacity, the others are not placed yet; every group waits at
    /// its start station with the sentinel delay.
    pub fn initial_state(&self) -> (r: State)
        requires
            self.wf(),
        ensures
            r.inv(self),
            r.t == 0,
            r.moves@.len() == 0,
            forall|i: int|
                0 <= i < self.n_trains() ==> #[trigger] r.t_location@[i] == self.trains@[i].start.location()
                    && r.t_capacity@[i] == self.trains@[i].capacity,
            forall|c: int| 0 <= c < self.n_connections() ==> #[trigger] r.c_capacity@[c] == self.connections@[c].capacity,
            forall|p: int|
                0 <= p < self.n_passengers() ==> #[trigger] r.p_location@[p] == PLocation::Station(
                    self.passengers@[p].start,
                ),
    {
        let n = self.stations.len();
        let mut s_capacity: Vec<Capacity> = Vec::new();
        let mut s: usize = 0;
        while s < n
            invariant
                0 <= s <= n,
                n == self.n_stations(),
                s_capacity@.len() == s,
                forall|x: int| 0 <= x < s ==> #[trigger] s_capacity@[x] == self.stations@[x].capacity,
            decreases n - s,
        {
            s_capacity.push(self.stations[s].capacity);
            s = s + 1;
        }
        let mut t_capacity: Vec<Capacity> = Vec::new();
        let mut t_location: Vec<TLocation> = Vec::new();
        let mut i: usize = 0;
        while i < self.trains.len()
            invariant
                self.wf(),
                0 <= i <= self.n_trains(),
                n == self.n_stations(),
                s_capacity@.len() == n,
                t_capacity@.len() == i,
                t_location@.len() == i,
                forall|j: int|
                    0 <= j < i ==> #[trigger] t_location@[j] == self.trains@[j].start.location()
                        && t_capacity@[j] == self.trains@[j].capacity,
                forall|x: int|
                    0 <= x < n ==> #[trigger] s_capacity@[x] == self.stations@[x].capacity - sum_to(
                        i as nat,
                        standing_term(t_location@, x as SId),
                    ),
            decreases self.n_trains() - i,
        {
            let loc = self.trains[i].start.to_location();
            let ghost before = t_location@;
            let ghost caps = s_capacity@;
            match self.trains[i].start {
                StartStation::Station(s_id) => {
                    proof {
                        assert(self.stations@[s_id as int].capacity >= 0);
                        lemma_sum_count_bounds(i as nat, standing_term(before, s_id));
                    }
                    s_capacity.set(s_id, s_capacity[s_id] - 1);
                },
                StartStation::Any => {},
            }
            t_capacity.push(self.trains[i].capacity);
            t_location.push(loc);
            proof {
                assert forall|x: int|
                    0 <= x < n implies #[trigger] s_capacity@[x] == self.stations@[x].capacity - sum_to(
                    (i + 1) as nat,
                    standing_term(t_location@, x as SId),
                ) by {
                    lemma_sum_ext(i as nat, standing_term(before, x as SId), standing_term(t_location@, x as SId));
                }
            }
            i = i + 1;
        }
        let mut c_capacity: Vec<Capacity> = Vec::new();
        let mut c: usize = 0;
        while c < self.connections.len()
            invariant
                0 <= c <= self.n_connections(),
                c_capacity@.len() == c,
                forall|x: int| 0 <= x < c ==> #[trigger] c_capacity@[x] == self.connections@[x].capacity,
            decreases self.n_connections() - c,
        {
            c_capacity.push(self.connections[c].capacity);
            c = c + 1;
        }
        let mut p_location: Vec<PLocation> = Vec::new();
        let mut p_delays: Vec<TimeDiff> = Vec::new();
        let mut p: usize = 0;
        while p < self.passengers.len()
            invariant
                self.wf(),
                0 <= p <= self.n_passengers(),
                p_location@.len() == p,
                p_delays@.len() == p,
                forall|x: int|
                    0 <= x < p ==> #[trigger] p_location@[x] == PLocation::Station(self.passengers@[x].start)
                        && p_delays@[x] == self.t_max as int,
            decreases self.n_passengers() - p,
        {
            p_location.push(PLocation::Station(self.passengers[p].start));
            p_delays.push(self.t_max as TimeDiff);
            p = p + 1;
        }
        let r = State::new(0, s_capacity, c_capacity, t_capacity, t_location, p_location, p_delays);
        proof {
            let all = Seq::new(r.p_location@.len(), |q: int| q as usize);
            assert forall|x: SId, q: usize| x < self.n_stations() implies (#[trigger] id_sets(r.s_passengers@)[x as int].contains(q) <==> (q
                < self.n_passengers() && r.p_location@[q as int] == PLocation::Station(x))) by {
                let pred = waiting_at(r.p_location@, x);
                if q < self.n_passengers() && r.p_location@[q as int] == PLocation::Station(x) {
                    assert(all[q as int] == q);
                    all.lemma_filter_contains(pred, q as int);
                }
                if r.s_passengers@[x as int]@.contains(q) {
                    all.lemma_filter_contains_rev(pred, q);
                    let k = choose|k: int| 0 <= k < all.len() && all[k] == q;
                    assert(all[k] == k);
                    all.filter_lemma(pred);
                }
            }
            assert forall|x: SId| x < self.n_stations() implies #[trigger] r.s_capacity@[x as int] + r.trains_at(x)
                == self.stations@[x as int].capacity by {
                lemma_sum_ext(r.t_location@.len(), standing_term(r.t_location@, x), r.station_term(x));
            }
            assert forall|x: CId| x < self.n_connections() implies #[trigger] r.c_capacity@[x as int] + r.trains_on(x)
                == self.connections@[x as int].capacity by {
                assert forall|j: int| 0 <= j < r.t_location@.len() implies #[trigger] r.connection_term(x)(j) == 0 by {
                    assert(r.t_location@[j] == self.trains@[j].start.location());
                }
                lemma_sum_zero(r.t_location@.len(), r.connection_term(x));
            }
            assert forall|x: TId| x < self.n_trains() implies #[trigger] r.t_capacity@[x as int] + r.load(x, self)
                == self.trains@[x as int].capacity by {
                assert forall|j: int| 0 <= j < r.p_location@.len() implies #[trigger] r.load_term(x, self)(j) == 0 by {
                    assert(r.p_location@[j] == PLocation::Station(self.passengers@[j].start));
                }
                lemma_sum_zero(r.p_location@.len(), r.load_term(x, self));
                assert(r.t_location@[x as int] == self.trains@[x as int].start.location());
            }
            assert(r.indexes_wf(self));
        }
        r
    }

    /// A line of ten stations joined by nine connections, a train at each
    /// station and a group at each station but the last, bound for the next.
    pub fn new_for_bench() -> (r: Model)
        ensures
            r.wf(),
            r.n_stations() == 10,
            r.n_connections() == 9,
            r.n_trains() == 10,
            r.n_passengers() == 9,
    {
        let mut stations: Vec<Station> = Vec::new();
        let mut trains: Vec<Train> = Vec::new();
        let mut i: usize = 0;
        while i < 10
            invariant
                0 <= i <= 10,
                stations@.len() == i,
                trains@.len() == i,
                forall|s: int| 0 <= s < i ==> (#[trigger] stations@[s]).capacity == 3,
                forall|t: int|
                    0 <= t < i ==> (#[trigger] trains@[t]).capacity == 10 && trains@[t].speed == 1
                        && trains@[t].start == StartStation::Station(t as SId),
            decreases 10 - i,
        {
            stations.push(Station { name: numbered("S", i), capacity: 3 });
            trains.push(Train { name: numbered("T", i), start: StartStation::Station(i), speed: 1, capacity: 10 });
            i = i + 1;
        }
        let mut passengers: Vec<Passenger> = Vec::new();
        let mut connections: Vec<Connection> = Vec::new();
        let mut j: usize = 0;
        while j < 9
            invariant
                0 <= j <= 9,
                passengers@.len() == j,
                connections@.len() == j,
                forall|p: int|
                    0 <= p < j ==> (#[trigger] passengers@[p]).start == p && passengers@[p].destination == p + 1
                        && passengers@[p].size == 2 && passengers@[p].arrival == 10,
                forall|c: int|
                    0 <= c < j ==> (#[trigger] connections@[c]).a == c && connections@[c].b == c + 1
                        && connections@[c].capacity == 3 && connections@[c].distance == 2,
            decreases 9 - j,
        {
            passengers.push(Passenger { name: numbered("P", j), start: j, destination: j + 1, size: 2, arrival: 10 });
            connections.push(Connection { name: numbered("L", j), distance: 2, capacity: 3, a: j, b: j + 1 });
            j = j + 1;
        }
        Model::new(stations, connections, trains, passengers, crate::rules::get_rules())
    }

    /// Raises the search horizon to `t_max` when that is later.
    pub fn raise_t_max(&mut self, t_max: Time)
        requires
            old(self).wf(),
            t_max <= MAX_TIME,
        ensures
            final(self).wf(),
            final(self).t_max == if t_max > old(self).t_max { t_max } else { old(self).t_max },
            final(self).stations == old(self).stations,
            final(self).connections == old(self).connections,
            final(self).trains == old(self).trains,
            final(self).passengers == old(self).passengers,
            final(self).station_connections == old(self).station_connections,
            final(self).paths == old(self).paths,
            final(self).max_arrival == old(self).max_arrival,
            final(self).rules == old(self).rules,
            final(self).used_trains == old(self).used_trains,
    {
        if t_max > self.t_max {
            self.t_max = t_max;
        }
    }

    /// The time a train needs to travel along a connection, rounded up.
    pub fn train_arrival(&self, t_id: TId, c_id: CId) -> (r: u64)
        requires
            self.wf(),
            t_id < self.n_trains(),
            c_id < self.n_connections(),
        ensures
            r == self.travel_time(t_id, c_id),
    {
        let d = self.connections[c_id].distance;
        let v = self.trains[t_id].speed;
        let q = d / v;
        if d % v == 0 {
            q
        } else {
            assert(q < 0xffff_ffff_ffff_ffffu64) by (nonlinear_arith)
                requires
                    q == d / v,
                    v > 0,
                    d % v != 0,
            ;
            q + 1
        }
    }

    /// `ceil(distance / speed)` for train `t` on connection `c`.
    pub open spec fn travel_time(&self, t: TId, c: CId) -> int {
        let d = self.connections@[c as int].distance as int;
        let v = self.trains@[t as int].speed as int;
        if d % v == 0 {
            d / v
        } else {
            d / v + 1
        }
    }

    /// The other end of connection `c`, seen from station `s`.
    pub fn get_destination(&self, s: SId, c: CId) -> (r: SId)
        requires
            c < self.n_connections(),
        ensures
            r == self.destination(s, c),
    {
        if self.connections[c].a == s {
            self.connections[c].b
        } else {
            self.connections[c].a
        }
    }

    /// The shortest distance from station `a` to station `b`.
    pub fn distance(&self, a: SId, b: SId) -> (r: Distance)
        requires
            self.wf(),
            a < self.n_stations(),
            b < self.n_stations(),
        ensures
            r == self.dist(a, b),
    {
        self.paths[a][b].distance
    }

    pub open spec fn dist(&self, a: SId, b: SId) -> Distance {
        self.paths@[a as int]@[b as int].distance
    }
}

/// `x + y`, capped at the largest distance.
pub open spec fn capped_sum(x: Distance, y: Distance) -> int {
    if x + y > Distance::MAX {
        Distance::MAX as int
    } else {
        x + y
    }
}

/// No connection of `conns` leads to a station more cheaply than `distance`
/// says: the distances admit no shortcut.
pub open spec fn no_shortcut(conns: Seq<Connection>, distance: Seq<Distance>) -> bool {
    forall|c: CId|
        c < conns.len() ==> distance[(#[trigger] conns[c as int]).b as int] <= capped_sum(
            distance[conns[c as int].a as int],
            conns[c as int].distance,
        ) && distance[conns[c as int].a as int] <= capped_sum(distance[conns[c as int].b as int], conns[c as int].distance)
}

/// Every connection touching a settled station has been relaxed from it.
pub open spec fn relaxed_from(conns: Seq<Connection>, distance: Seq<Distance>, x: int) -> bool {
    forall|c: CId|
        c < conns.len() && (#[trigger] conns[c as int]).a as int == x ==> distance[conns[c as int].b as int]
            <= capped_sum(distance[x], conns[c as int].distance)
}

/// As `relaxed_from`, for connections whose second end is `x`.
pub open spec fn relaxed_to(conns: Seq<Connection>, distance: Seq<Distance>, x: int) -> bool {
    forall|c: CId|
        c < conns.len() && (#[trigger] conns[c as int]).b as int == x ==> distance[conns[c as int].a as int]
            <= capped_sum(distance[x], conns[c as int].distance)
}

/// Connection `conn` joins stations `x` and `y`.
pub open spec fn joins(conn: Connection, x: SId, y: SId) -> bool {
    conn.a == x && conn.b == y || conn.a == y && conn.b == x
}

/// `d` is the total distance of `path` along connections of `conns`
/// joining its consecutive stations.
pub open spec fn walk_cost(conns: Seq<Connection>, path: Seq<SId>, d: int) -> bool
    decreases path.len(),
{
    if path.len() <= 1 {
        d == 0
    } else {
        exists|c: CId|
            c < conns.len() && joins(#[trigger] conns[c as int], path[path.len() - 2], path[path.len() - 1])
                && walk_cost(conns, path.drop_last(), d - conns[c as int].distance)
    }
}

/// Each station with a predecessor is as far as its predecessor plus the
/// connection `via` names between them.
pub open spec fn tight(conns: Seq<Connection>, distance: Seq<Distance>, parent: Seq<Option<SId>>, via: Seq<CId>) -> bool {
    &&& via.len() == parent.len()
    &&& forall|w: int|
        0 <= w < parent.len() && (#[trigger] parent[w]) is Some ==> via[w] < conns.len() && joins(
            conns[via[w] as int],
            parent[w]->0,
            w as SId,
        ) && distance[w] == distance[parent[w]->0 as int] + conns[via[w] as int].distance
}

/// Paths `p` and `q` join the same two stations in opposite directions: the
/// same distance, and, when that is finite, the stations in reverse order.
pub open spec fn mirrored(p: Path, q: Path) -> bool {
    &&& p.distance == q.distance
    &&& p.distance < Distance::MAX ==> p.path@ == q.path@.reverse()
}

/// The distances of a row of the path table.
pub open spec fn row_distances(row: Seq<Path>) -> Seq<Distance> {
    Seq::new(row.len(), |b: int| row[b].distance)
}

/// One for each station not yet settled.
pub open spec fn open_term(settled: Seq<bool>) -> spec_fn(int) -> int {
    |i: int| if settled[i] { 0int } else { 1int }
}

/// The predecessors form a tree rooted at `start`: `rank` numbers the
/// settled stations (negative for the others) in the order they were
/// settled, every predecessor was settled before its successor and is
/// reached, and every reached station but `start` has a predecessor.
pub open spec fn rooted(
    n: nat,
    start: SId,
    distance: Seq<Distance>,
    parent: Seq<Option<SId>>,
    rank: Seq<int>,
) -> bool {
    &&& distance.len() == n
    &&& parent.len() == n
    &&& rank.len() == n
    &&& forall|w: int| 0 <= w < n ==> #[trigger] rank[w] < n
    &&& forall|w: int|
        0 <= w < n && (#[trigger] parent[w]) is Some ==> parent[w]->0 < n && rank[parent[w]->0 as int] >= 0
            && (rank[w] >= 0 ==> rank[parent[w]->0 as int] < rank[w]) && distance[parent[w]->0 as int] < Distance::MAX
    &&& forall|w: int|
        0 <= w < n && #[trigger] distance[w] < Distance::MAX ==> w == start as int || parent[w] is Some
}

/// Lowering distances other than that of `x` keeps the connections of `x`
/// relaxed.
proof fn lemma_lower_keeps_relaxed(conns: Seq<Connection>, before: Seq<Distance>, after: Seq<Distance>, x: int)
    requires
        before.len() == after.len(),
        0 <= x < before.len(),
        after[x] == before[x],
        forall|i: int| 0 <= i < before.len() ==> #[trigger] after[i] <= before[i],
        forall|c: int| 0 <= c < conns.len() ==> (#[trigger] conns[c]).a < before.len() && conns[c].b < before.len(),
        relaxed_from(conns, before, x),
        relaxed_to(conns, before, x),
    ensures
        relaxed_from(conns, after, x),
        relaxed_to(conns, after, x),
{
    assert forall|c: CId|
        c < conns.len() && (#[trigger] conns[c as int]).a as int == x implies after[conns[c as int].b as int]
        <= capped_sum(after[x], conns[c as int].distance) by {
        assert(after[conns[c as int].b as int] <= before[conns[c as int].b as int]);
    }
    assert forall|c: CId|
        c < conns.len() && (#[trigger] conns[c as int]).b as int == x implies after[conns[c as int].a as int]
        <= capped_sum(after[x], conns[c as int].distance) by {
        assert(after[conns[c as int].a as int] <= before[conns[c as int].a as int]);
    }
}

/// The search state of Dijkstra's algorithm between two settlements.
pub open spec fn dijkstra_inv(
    n: nat,
    start: SId,
    conns: Seq<Connection>,
    distance: Seq<Distance>,
    parent: Seq<Option<SId>>,
    in_tree: Seq<bool>,
    rank: Seq<int>,
    round: int,
) -> bool {
    &&& start < n
    &&& ends_below(conns, n)
    &&& distance.len() == n
    &&& parent.len() == n
    &&& in_tree.len() == n
    &&& distance[start as int] == 0
    &&& tree_edges(conns, n, parent)
    &&& 0 <= round <= n
    &&& rooted(n, start, distance, parent, rank)
    &&& forall|w: int| 0 <= w < n ==> (#[trigger] in_tree[w] <==> rank[w] >= 0)
    &&& forall|w: int| 0 <= w < n ==> #[trigger] rank[w] < round
    &&& forall|x: int, y: int|
        0 <= x < n && 0 <= y < n && rank[x] >= 0 && rank[y] < 0 ==> #[trigger] distance[x] <= #[trigger] distance[y]
}

/// Relaxes every connection of the newly settled station `v`.
#[verifier::rlimit(100)]
#[verifier::spinoff_prover]
fn relax(
    n: usize,
    connections: &Vec<Connection>,
    station_connections: &Vec<Vec<CId>>,
    start: SId,
    v: SId,
    distance: &mut Vec<Distance>,
    parent: &mut Vec<Option<SId>>,
    in_tree: &Vec<bool>,
    Ghost(rank): Ghost<Seq<int>>,
    Ghost(round): Ghost<int>,
    Ghost(via): Ghost<Seq<CId>>,
) -> (r: Ghost<Seq<CId>>)
    requires
        v < n,
        tight(connections@, old(distance)@, old(parent)@, via),
        lists_touching(connections@, station_connections@, n as nat),
        dijkstra_inv(n as nat, start, connections@, old(distance)@, old(parent)@, in_tree@, rank, round),
        rank[v as int] >= 0,
        old(distance)@[v as int] < Distance::MAX,
        forall|x: int| 0 <= x < n && #[trigger] rank[x] >= 0 ==> old(distance)@[x] <= old(distance)@[v as int],
        forall|x: int|
            0 <= x < n && #[trigger] rank[x] >= 0 && x != v as int ==> relaxed_from(connections@, old(distance)@, x)
                && relaxed_to(connections@, old(distance)@, x),
    ensures
        dijkstra_inv(n as nat, start, connections@, final(distance)@, final(parent)@, in_tree@, rank, round),
        forall|x: int|
            0 <= x < n && #[trigger] rank[x] >= 0 ==> relaxed_from(connections@, final(distance)@, x)
                && relaxed_to(connections@, final(distance)@, x),
        tight(connections@, final(distance)@, final(parent)@, r@),
{
    let ghost initial = distance@;
    let ghost mut via_now = via;
    let edges = &station_connections[v];
    let mut e: usize = 0;
    while e < edges.len()
        invariant
            v < n,
            lists_touching(connections@, station_connections@, n as nat),
            *edges == station_connections@[v as int],
            dijkstra_inv(n as nat, start, connections@, distance@, parent@, in_tree@, rank, round),
            tight(connections@, distance@, parent@, via_now),
            rank[v as int] >= 0,
            distance@[v as int] == initial[v as int],
            distance@[v as int] < Distance::MAX,
            initial.len() == n,
            forall|i: int| 0 <= i < n ==> #[trigger] distance@[i] <= initial[i],
            forall|i: int| 0 <= i < n && rank[i] >= 0 ==> #[trigger] distance@[i] == initial[i],
            forall|x: int| 0 <= x < n && #[trigger] rank[x] >= 0 ==> distance@[x] <= distance@[v as int],
            forall|x: int|
                0 <= x < n && #[trigger] rank[x] >= 0 && x != v as int ==> relaxed_from(connections@, initial, x)
                    && relaxed_to(connections@, initial, x),
            forall|j: int|
                0 <= j < e ==> {
                    let c = (#[trigger] edges@[j]) as int;
                    &&& (connections@[c].a == v ==> distance@[connections@[c].b as int] <= capped_sum(
                        distance@[v as int],
                        connections@[c].distance,
                    ))
                    &&& (connections@[c].b == v ==> distance@[connections@[c].a as int] <= capped_sum(
                        distance@[v as int],
                        connections@[c].distance,
                    ))
                },
            0 <= e <= edges@.len(),
        decreases edges@.len() - e,
    {
        let c_id = edges[e];
        proof {
            assert(station_connections@[v as int]@.contains(c_id));
        }
        let w = if connections[c_id].a == v { connections[c_id].b } else { connections[c_id].a };
        let d = distance[v].saturating_add(connections[c_id].distance);
        let ghost before = distance@;
        if !in_tree[w] && d < distance[w] {
            let ghost dist_before = distance@;
            let ghost parent_before = parent@;
            distance.set(w, d);
            parent.set(w, Option::Some(v));
            proof {
                via_now = via_now.update(w as int, c_id);
                assert forall|x: int|
                    0 <= x < parent@.len() && (#[trigger] parent@[x]) is Some implies via_now[x] < connections@.len()
                        && joins(connections@[via_now[x] as int], parent@[x]->0, x as SId) && distance@[x]
                        == distance@[parent@[x]->0 as int] + connections@[via_now[x] as int].distance by {
                    if x != w as int {
                        assert(parent_before[x] is Some);
                        assert(rank[parent_before[x]->0 as int] >= 0);
                    }
                }
                assert(joined(connections@, v, w));
                assert forall|x: int|
                    0 <= x < parent@.len() && (#[trigger] parent@[x]) is Some implies parent@[x]->0 < n && joined(
                        connections@,
                        parent@[x]->0,
                        x as SId,
                    ) by {
                    if x != w as int {
                    }
                }
            }
        }
        proof {
            let c = c_id as int;
            if connections@[c].a == v && connections@[c].b == v {
            } else if connections@[c].a == v {
                if in_tree@[w as int] {
                    assert(distance@[w as int] <= distance@[v as int]);
                }
            } else {
                if in_tree@[w as int] {
                    assert(distance@[w as int] <= distance@[v as int]);
                }
            }
            assert forall|j: int|
                0 <= j < e + 1 implies {
                    let c = (#[trigger] edges@[j]) as int;
                    &&& (connections@[c].a == v ==> distance@[connections@[c].b as int] <= capped_sum(
                        distance@[v as int],
                        connections@[c].distance,
                    ))
                    &&& (connections@[c].b == v ==> distance@[connections@[c].a as int] <= capped_sum(
                        distance@[v as int],
                        connections@[c].distance,
                    ))
                } by {
                if j < e {
                    let c = edges@[j] as int;
                    assert(station_connections@[v as int]@.contains(edges@[j]));
                    assert(connections@[c].a < n && connections@[c].b < n);
                    assert(distance@[connections@[c].b as int] <= before[connections@[c].b as int]);
                    assert(distance@[connections@[c].a as int] <= before[connections@[c].a as int]);
                }
            }
        }
        e = e + 1;
    }
    proof {
        assert forall|x: int|
            0 <= x < n && #[trigger] rank[x] >= 0 implies relaxed_from(connections@, distance@, x) && relaxed_to(
            connections@,
            distance@,
            x,
        ) by {
            if x == v as int {
                assert forall|c: CId|
                    c < connections@.len() && (#[trigger] connections@[c as int]).a as int == x implies distance@[connections@[c as int].b as int]
                    <= capped_sum(distance@[x], connections@[c as int].distance) by {
                    assert(station_connections@[v as int]@.contains(c));
                    let j = choose|j: int| 0 <= j < edges@.len() && edges@[j] == c;
                    assert(edges@[j] == c);
                }
                assert forall|c: CId|
                    c < connections@.len() && (#[trigger] connections@[c as int]).b as int == x implies distance@[connections@[c as int].a as int]
                    <= capped_sum(distance@[x], connections@[c as int].distance) by {
                    assert(station_connections@[v as int]@.contains(c));
                    let j = choose|j: int| 0 <= j < edges@.len() && edges@[j] == c;
                    assert(edges@[j] == c);
                }
            } else {
                lemma_lower_keeps_relaxed(connections@, initial, distance@, x);
            }
        }
    }
    Ghost(via_now)
}

/// The cheapest distances from `start` over the connections, and for each
/// reached station the station it was reached from (Dijkstra's algorithm).
fn shortest_tree(
    n: usize,
    connections: &Vec<Connection>,
    station_connections: &Vec<Vec<CId>>,
    start: SId,
) -> (r: (Vec<Distance>, Vec<Option<SId>>, Ghost<Seq<int>>, Ghost<Seq<CId>>))
    requires
        start < n,
        ends_below(connections@, n as nat),
        lists_touching(connections@, station_connections@, n as nat),
    ensures
        tight(connections@, r.0@, r.1@, r.3@),
        r.0@.len() == n,
        r.1@.len() == n,
        r.0@[start as int] == 0,
        tree_edges(connections@, n as nat, r.1@),
        rooted(n as nat, start, r.0@, r.1@, r.2@),
        forall|w: int| 0 <= w < n && #[trigger] r.0@[w] < Distance::MAX ==> r.2@[w] >= 0,
        no_shortcut(connections@, r.0@),
{
    let mut distance: Vec<Distance> = Vec::new();
    let mut parent: Vec<Option<SId>> = Vec::new();
    let mut in_tree: Vec<bool> = Vec::new();
    let mut i: usize = 0;
    while i < n
        invariant
            0 <= i <= n,
            distance@.len() == i,
            parent@.len() == i,
            in_tree@.len() == i,
            forall|w: int| 0 <= w < i ==> (#[trigger] parent@[w]) is None && !in_tree@[w],
            forall|w: int| 0 <= w < i && w != start ==> #[trigger] distance@[w] == Distance::MAX,
            start < i ==> distance@[start as int] == 0,
        decreases n - i,
    {
        distance.push(if i == start { 0 } else { Distance::MAX });
        parent.push(Option::None);
        in_tree.push(false);
        i = i + 1;
    }
    let ghost mut rank: Seq<int> = Seq::new(n as nat, |w: int| -1int);
    let ghost mut round: int = 0;
    let ghost mut via: Seq<CId> = Seq::new(n as nat, |w: int| 0usize);
    proof {
        assert forall|w: int| 0 <= w < n implies #[trigger] rank[w] == -1 && !in_tree@[w] by {
            assert(parent@[w] is None);
        }
        assert forall|w: int| 0 <= w < n implies #[trigger] open_term(in_tree@)(w) == 1 by {
            assert(parent@[w] is None);
        }
        lemma_sum_ones(n as nat, open_term(in_tree@));
    }
    loop
        invariant
            lists_touching(connections@, station_connections@, n as nat),
            dijkstra_inv(n as nat, start, connections@, distance@, parent@, in_tree@, rank, round),
            tight(connections@, distance@, parent@, via),
            sum_to(n as nat, open_term(in_tree@)) + round == n,
            forall|x: int|
                0 <= x < n && #[trigger] rank[x] >= 0 ==> relaxed_from(connections@, distance@, x) && relaxed_to(
                    connections@,
                    distance@,
                    x,
                ),
        ensures
            dijkstra_inv(n as nat, start, connections@, distance@, parent@, in_tree@, rank, round),
            tight(connections@, distance@, parent@, via),
            forall|x: int|
                0 <= x < n && #[trigger] rank[x] >= 0 ==> relaxed_from(connections@, distance@, x) && relaxed_to(
                    connections@,
                    distance@,
                    x,
                ),
            forall|w: int| 0 <= w < n && #[trigger] distance@[w] < Distance::MAX ==> rank[w] >= 0,
        decreases sum_to(n as nat, open_term(in_tree@)),
    {
        let mut next: Option<SId> = Option::None;
        let mut best: Distance = Distance::MAX;
        let mut k: usize = 0;
        while k < n
            invariant
                distance@.len() == n,
                in_tree@.len() == n,
                0 <= k <= n,
                next is Some ==> next->0 < n && !in_tree@[next->0 as int] && distance@[next->0 as int] == best,
                next is None ==> best == Distance::MAX,
                next is Some ==> best < Distance::MAX,
                forall|j: int| 0 <= j < k && !in_tree@[j] ==> best <= #[trigger] distance@[j],
            decreases n - k,
        {
            if !in_tree[k] && distance[k] < best {
                best = distance[k];
                next = Option::Some(k);
            }
            k = k + 1;
        }
        match next {
            Option::None => {
                break;
            },
            Option::Some(v) => {
                proof {
                    lemma_sum_change(n as nat, open_term(in_tree@), open_term(in_tree@.update(v as int, true)), v as int);
                    lemma_sum_nonneg(n as nat, open_term(in_tree@.update(v as int, true)));
                    assert forall|x: int| 0 <= x < n && #[trigger] rank[x] >= 0 implies distance@[x] <= distance@[v as int] by {
                        assert(rank[v as int] < 0);
                    }
                    rank = rank.update(v as int, round);
                    round = round + 1;
                    assert forall|x: int, y: int|
                        0 <= x < n && 0 <= y < n && rank[x] >= 0 && rank[y] < 0 implies #[trigger] distance@[x]
                        <= #[trigger] distance@[y] by {
                        if x == v as int {
                            assert(!in_tree@[y]);
                        }
                    }
                }
                in_tree.set(v, true);
                let via_next = relax(
                    n,
                    connections,
                    station_connections,
                    start,
                    v,
                    &mut distance,
                    &mut parent,
                    &in_tree,
                    Ghost(rank),
                    Ghost(round),
                    Ghost(via),
                );
                proof {
                    via = via_next@;
                }
            },
        }
    }
    proof {
        assert forall|c: CId| c < connections@.len() implies distance@[(#[trigger] connections@[c as int]).b as int] <= capped_sum(
            distance@[connections@[c as int].a as int],
            connections@[c as int].distance,
        ) && distance@[connections@[c as int].a as int] <= capped_sum(distance@[connections@[c as int].b as int], connections@[c as int].distance) by {
            let x = connections@[c as int].a as int;
            let y = connections@[c as int].b as int;
            assert(x < n && y < n);
            if rank[x] < 0 {
                assert(distance@[x] == Distance::MAX);
            }
            if rank[y] < 0 {
                assert(distance@[y] == Distance::MAX);
            }
        }
    }
    (distance, parent, Ghost(rank), Ghost(via))
}

/// The walk from the root of the tree `parent` to `dest`, following at most
/// `n` predecessors; it starts at `start` when `dest` was reached.
fn walk_to(
    n: usize,
    connections: &Vec<Connection>,
    distance: &Vec<Distance>,
    parent: &Vec<Option<SId>>,
    Ghost(rank): Ghost<Seq<int>>,
    Ghost(via): Ghost<Seq<CId>>,
    start: SId,
    dest: SId,
) -> (r: Vec<SId>)
    requires
        dest < n,
        start < n,
        distance@[start as int] == 0,
        tight(connections@, distance@, parent@, via),
        tree_edges(connections@, n as nat, parent@),
        rooted(n as nat, start, distance@, parent@, rank),
        forall|w: int| 0 <= w < n && #[trigger] distance@[w] < Distance::MAX ==> rank[w] >= 0,
    ensures
        is_walk(connections@, n as nat, r@, dest),
        distance@[dest as int] < Distance::MAX ==> r@[0] == start,
        distance@[dest as int] < Distance::MAX ==> walk_cost(connections@, r@, distance@[dest as int] as int),
{
    let mut back: Vec<SId> = Vec::new();
    back.push(dest);
    let mut v = dest;
    let mut steps: usize = 0;
    let ghost reached = distance@[dest as int] < Distance::MAX;
    while steps < n
        invariant
            v < n,
            start < n,
            parent@.len() == n,
            tree_edges(connections@, n as nat, parent@),
            rooted(n as nat, start, distance@, parent@, rank),
            forall|w: int| 0 <= w < n && #[trigger] distance@[w] < Distance::MAX ==> rank[w] >= 0,
            reached == (distance@[dest as int] < Distance::MAX),
            reached ==> distance@[v as int] < Distance::MAX && rank[v as int] + steps <= rank[dest as int],
            back@.len() > 0,
            back@[0] == dest,
            back@.last() == v,
            forall|i: int| 0 <= i < back@.len() ==> (#[trigger] back@[i]) < n,
            forall|i: int| 0 <= i < back@.len() - 1 ==> joined(connections@, back@[i + 1], #[trigger] back@[i]),
            forall|i: int| 0 <= i < back@.len() - 1 ==> parent@[(#[trigger] back@[i]) as int] == Some(back@[i + 1]),
        ensures
            forall|i: int| 0 <= i < back@.len() - 1 ==> parent@[(#[trigger] back@[i]) as int] == Some(back@[i + 1]),
            back@.len() > 0,
            back@[0] == dest,
            back@.last() == v,
            forall|i: int| 0 <= i < back@.len() ==> (#[trigger] back@[i]) < n,
            forall|i: int| 0 <= i < back@.len() - 1 ==> joined(connections@, back@[i + 1], #[trigger] back@[i]),
            reached ==> v == start,
        decreases n - steps,
    {
        match parent[v] {
            Option::None => {
                proof {
                    if reached {
                        assert(distance@[v as int] < Distance::MAX);
                    }
                }
                break;
            },
            Option::Some(u) => {
                back.push(u);
                v = u;
            },
        }
        steps = steps + 1;
        proof {
            if reached {
                assert(rank[v as int] >= 0);
            }
        }
    }
    let mut path: Vec<SId> = Vec::new();
    let mut j: usize = back.len();
    while j > 0
        invariant
            0 <= j <= back@.len(),
            back@.len() > 0,
            back@[0] == dest,
            path@.len() == back@.len() - j,
            forall|i: int| 0 <= i < path@.len() ==> #[trigger] path@[i] == back@[back@.len() - 1 - i],
        decreases j,
    {
        j = j - 1;
        path.push(back[j]);
    }
    proof {
        assert forall|i: int| 0 <= i < path@.len() - 1 implies joined(connections@, #[trigger] path@[i], path@[i + 1]) by {
            let k = back@.len() - 2 - i;
            assert(path@[i] == back@[k + 1]);
            assert(path@[i + 1] == back@[k]);
        }
        assert(path@[path@.len() - 1] == back@[0]);
        assert(path@[0] == back@[back@.len() - 1]);
        if reached {
            assert forall|j: int| 0 < j < path@.len() implies parent@[(#[trigger] path@[j]) as int] == Some(path@[j - 1]) by {
                let i = back@.len() - 1 - j;
                assert(path@[j] == back@[i]);
                assert(path@[j - 1] == back@[i + 1]);
            }
            lemma_walk_cost_prefix(connections@, distance@, parent@, via, path@, path@.len() as int);
            assert(path@.subrange(0, path@.len() as int) =~= path@);
        }
    }
    path
}

/// Following recorded predecessors from a root at distance zero, every
/// prefix of `path` costs the distance of its last station.
proof fn lemma_walk_cost_prefix(
    conns: Seq<Connection>,
    distance: Seq<Distance>,
    parent: Seq<Option<SId>>,
    via: Seq<CId>,
    path: Seq<SId>,
    k: int,
)
    requires
        1 <= k <= path.len(),
        tight(conns, distance, parent, via),
        forall|i: int| 0 <= i < path.len() ==> (#[trigger] path[i]) < parent.len(),
        distance[path[0] as int] == 0,
        forall|j: int| 0 < j < path.len() ==> parent[(#[trigger] path[j]) as int] == Some(path[j - 1]),
    ensures
        walk_cost(conns, path.subrange(0, k), distance[path[k - 1] as int] as int),
    decreases k,
{
    if k > 1 {
        lemma_walk_cost_prefix(conns, distance, parent, via, path, k - 1);
        let sub = path.subrange(0, k);
        assert(sub.drop_last() =~= path.subrange(0, k - 1));
        let w = path[k - 1];
        assert(parent[w as int] == Some(path[k - 2]));
        let c = via[w as int];
        assert(joins(conns[c as int], sub[sub.len() - 2], sub[sub.len() - 1]));
        assert(walk_cost(conns, sub.drop_last(), distance[w as int] - conns[c as int].distance));
    }
}

/// The shortest path table: `r[a][b]` for every ordered pair of stations,
/// with an empty path of distance zero from each station to itself.
/// Rows `0..a` of a path table over `n` stations are complete: each has an
/// entry per station, an empty path of distance zero to its own station,
/// walks to the others, starting at the row's station when reachable and as
/// long as the distance says, and distances that admit no shortcut.
#[verifier::opaque]
pub open spec fn rows_ok(conns: Seq<Connection>, n: nat, table: Seq<Vec<Path>>, a: int) -> bool {
    &&& forall|x: int| 0 <= x < a ==> (#[trigger] table[x])@.len() == n
    &&& forall|x: int| 0 <= x < a ==> (#[trigger] table[x])@[x].path@.len() == 0 && table[x]@[x].distance == 0
    &&& forall|x: int, y: int|
        0 <= x < a && 0 <= y < n && x != y ==> is_walk(conns, n, (#[trigger] table[x]@[y]).path@, y as SId)
    &&& forall|x: int, y: int|
        0 <= x < a && 0 <= y < n && x != y && (#[trigger] table[x]@[y]).distance < Distance::MAX ==> table[x]@[y].path@[0]
            == x
    &&& forall|x: int| 0 <= x < a ==> no_shortcut(conns, row_distances((#[trigger] table[x])@))
    &&& forall|x: int, y: int|
        0 <= x < a && 0 <= y < n && (#[trigger] table[x]@[y]).distance < Distance::MAX ==> walk_cost(
            conns,
            table[x]@[y].path@,
            table[x]@[y].distance as int,
        )
}

/// The entry from `b` back to `a` can be the reverse of the entry from `b`
/// to `a`: when that is finite it is as long as the distance from `a`;
/// otherwise `b` cannot be reached from `a` either.
proof fn lemma_reverse_entry(
    conns: Seq<Connection>,
    n: nat,
    table: Seq<Vec<Path>>,
    a: usize,
    b: usize,
    distance: Seq<Distance>,
    path: Seq<SId>,
)
    requires
        b < a < n,
        table.len() == a,
        rows_ok(conns, n, table, a as int),
        ends_below(conns, n),
        no_shortcut(conns, distance),
        distance.len() == n,
        distance[a as int] == 0,
        is_walk(conns, n, path, b),
        distance[b as int] < Distance::MAX ==> path[0] == a && walk_cost(conns, path, distance[b as int] as int),
    ensures
        table[b as int]@[a as int].distance < Distance::MAX ==> {
            let back = table[b as int]@[a as int].path@.reverse();
            &&& distance[b as int] == table[b as int]@[a as int].distance
            &&& is_walk(conns, n, back, b)
            &&& back[0] == a
            &&& walk_cost(conns, back, distance[b as int] as int)
        },
        table[b as int]@[a as int].distance == Distance::MAX ==> distance[b as int] == Distance::MAX,
        table[b as int]@.len() == n,
{
    reveal(rows_ok);
    let rb = row_distances(table[b as int]@);
    assert(rb[b as int] == 0);
    assert(rb[a as int] == table[b as int]@[a as int].distance);
    if distance[b as int] < Distance::MAX {
        lemma_walk_reverse(conns, n, path, a, b);
        lemma_walk_cost_reverse(conns, path, distance[b as int] as int);
        lemma_no_shortcut_bound(conns, rb, n, b, path.reverse(), distance[b as int] as int);
    }
    if table[b as int]@[a as int].distance < Distance::MAX {
        let p_ba = table[b as int]@[a as int].path@;
        let d_ba = table[b as int]@[a as int].distance as int;
        lemma_walk_reverse(conns, n, p_ba, b, a);
        lemma_walk_cost_reverse(conns, p_ba, d_ba);
        lemma_no_shortcut_bound(conns, distance, n, a, p_ba.reverse(), d_ba);
    }
}

/// Row `a` of the path table, given the rows before it: paths back to the
/// earlier stations are the reverses of theirs when those reach `a`.
#[verifier::rlimit(100)]
#[verifier::spinoff_prover]
fn build_row(n: usize, connections: &Vec<Connection>, station_connections: &Vec<Vec<CId>>, table: &Vec<Vec<Path>>, a: usize) -> (row: Vec<Path>)
    requires
        a < n,
        ends_below(connections@, n as nat),
        lists_touching(connections@, station_connections@, n as nat),
        table@.len() == a,
        rows_ok(connections@, n as nat, table@, a as int),
    ensures
        row@.len() == n,
        row@[a as int].path@.len() == 0 && row@[a as int].distance == 0,
        forall|y: int| 0 <= y < n && y != a ==> is_walk(connections@, n as nat, (#[trigger] row@[y]).path@, y as SId),
        forall|y: int| 0 <= y < n && y != a && (#[trigger] row@[y]).distance < Distance::MAX ==> row@[y].path@[0] == a,
        no_shortcut(connections@, row_distances(row@)),
        forall|y: int|
            0 <= y < n && (#[trigger] row@[y]).distance < Distance::MAX ==> walk_cost(
                connections@,
                row@[y].path@,
                row@[y].distance as int,
            ),
        forall|y: int| 0 <= y < a ==> mirrored(#[trigger] row@[y], table@[y]@[a as int]),
{
        let (distance, parent, rank, via) = shortest_tree(n, connections, station_connections, a);
        let mut row: Vec<Path> = Vec::new();
        let mut b: usize = 0;
        while b < n
            invariant
                0 <= a < n,
                0 <= b <= n,
                distance@.len() == n,
                parent@.len() == n,
                tree_edges(connections@, n as nat, parent@),
                rooted(n as nat, a, distance@, parent@, rank@),
                forall|w: int| 0 <= w < n && #[trigger] distance@[w] < Distance::MAX ==> rank@[w] >= 0,
                row@.len() == b,
                lists_touching(connections@, station_connections@, n as nat),
                b > a ==> row@[a as int].path@.len() == 0 && row@[a as int].distance == 0,
                forall|y: int| 0 <= y < b && y != a ==> is_walk(connections@, n as nat, (#[trigger] row@[y]).path@, y as SId),
                forall|y: int|
                    0 <= y < b && y != a && (#[trigger] row@[y]).distance < Distance::MAX ==> row@[y].path@[0] == a,
                forall|y: int| 0 <= y < b ==> (#[trigger] row@[y]).distance == distance@[y],
                distance@[a as int] == 0,
                tight(connections@, distance@, parent@, via@),
                forall|y: int|
                    0 <= y < b && (#[trigger] row@[y]).distance < Distance::MAX ==> walk_cost(
                        connections@,
                        row@[y].path@,
                        row@[y].distance as int,
                    ),
                no_shortcut(connections@, distance@),
                ends_below(connections@, n as nat),
                table@.len() == a,
                rows_ok(connections@, n as nat, table@, a as int),
                forall|y: int| 0 <= y < b && y < a ==> mirrored(#[trigger] row@[y], table@[y]@[a as int]),
            decreases n - b,
        {
            if b == a {
                row.push(Path { path: Vec::new(), distance: 0 });
            } else {
                let path = walk_to(n, connections, &distance, &parent, rank, via, a, b);
                proof {
                    if b < a {
                        lemma_reverse_entry(connections@, n as nat, table@, a, b, distance@, path@);
                    }
                }
                if b < a && table[b][a].distance < Distance::MAX {
                    let back = reversed(&table[b][a].path);
                    row.push(Path { path: back, distance: distance[b] });
                } else {
                    row.push(Path { path, distance: distance[b] });
                }
            }
            b = b + 1;
        }
        proof {
            assert(row_distances(row@) =~= distance@);
        }
        row
}

#[verifier::rlimit(100)]
#[verifier::spinoff_prover]
fn shortest_paths(n: usize, connections: &Vec<Connection>, station_connections: &Vec<Vec<CId>>) -> (r: Vec<Vec<Path>>)
    requires
        ends_below(connections@, n as nat),
        lists_touching(connections@, station_connections@, n as nat),
    ensures
        r@.len() == n,
        forall|a: int| 0 <= a < n ==> (#[trigger] r@[a])@.len() == n,
        forall|a: int| 0 <= a < n ==> (#[trigger] r@[a])@[a].path@.len() == 0 && r@[a]@[a].distance == 0,
        forall|a: int, b: int|
            0 <= a < n && 0 <= b < n && a != b ==> is_walk(connections@, n as nat, (#[trigger] r@[a]@[b]).path@, b as SId),
        forall|a: int, b: int|
            0 <= a < n && 0 <= b < n && a != b && (#[trigger] r@[a]@[b]).distance < Distance::MAX ==> r@[a]@[b].path@[0]
                == a,
        forall|a: int| 0 <= a < n ==> no_shortcut(connections@, row_distances((#[trigger] r@[a])@)),
        forall|a: int, b: int|
            0 <= a < n && 0 <= b < n && (#[trigger] r@[a]@[b]).distance < Distance::MAX ==> walk_cost(
                connections@,
                r@[a]@[b].path@,
                r@[a]@[b].distance as int,
            ),
        forall|a: int, b: int| 0 <= a < n && 0 <= b < n ==> mirrored(#[trigger] r@[a]@[b], r@[b]@[a]),
{
    let mut table: Vec<Vec<Path>> = Vec::new();
    let mut a: usize = 0;
    proof {
        reveal(rows_ok);
    }
    while a < n
        invariant
            0 <= a <= n,
            ends_below(connections@, n as nat),
            lists_touching(connections@, station_connections@, n as nat),
            table@.len() == a,
            rows_ok(connections@, n as nat, table@, a as int),
            forall|x: int, y: int| 0 <= x < a && 0 <= y < a ==> mirrored(#[trigger] table@[x]@[y], table@[y]@[x]),
        decreases n - a,
    {
        let row = build_row(n, connections, station_connections, &table, a);
        let ghost old_table = table@;
        table.push(row);
        proof {
            reveal(rows_ok);
            assert(table@[a as int] == row);
            assert forall|x: int| 0 <= x < a implies #[trigger] table@[x] == old_table[x] by {}
            assert(rows_ok(connections@, n as nat, table@, a + 1));
            assert forall|x: int, y: int| 0 <= x < a + 1 && 0 <= y < a + 1 implies mirrored(#[trigger] table@[x]@[y], table@[y]@[x]) by {
                if x < a && y < a {
                    assert(mirrored(old_table[x]@[y], old_table[y]@[x]));
                    assert(table@[x] == old_table[x] && table@[y] == old_table[y]);
                } else if x == a && y == a {
                    assert(table@[x] == row);
                    assert(row@[a as int].path@.reverse() =~= row@[a as int].path@);
                } else if x == a {
                    assert(table@[x] == row && table@[y] == old_table[y]);
                    assert(mirrored(row@[y], old_table[y]@[a as int]));
                } else {
                    assert(table@[y] == row && table@[x] == old_table[x]);
                    assert(mirrored(row@[x], old_table[x]@[a as int]));
                    assert(old_table[x]@[a as int].path@.reverse().reverse() =~= old_table[x]@[a as int].path@);
                }
            }
        }
        a = a + 1;
    }
    proof {
        reveal(rows_ok);
    }
    table
}

/// Relies on `format!`: the prefix followed by the decimal digits of `i`.
#[verifier::external_body]
fn numbered(prefix: &str, i: usize) -> (r: String) {
    format!("{}{}", prefix, i)
}

/// The path table holds shortest distances: no walk from station `a` along
/// the connections costs less than the distance the table gives from `a` to
/// the walk's last station.
pub proof fn lemma_paths_are_shortest(model: &Model, a: SId, walk: Seq<SId>, cost: int)
    requires
        model.wf(),
        a < model.n_stations(),
        walk.len() > 0,
        walk[0] == a,
        forall|i: int| 0 <= i < walk.len() ==> (#[trigger] walk[i]) < model.n_stations(),
        walk_cost(model.connections@, walk, cost),
    ensures
        model.dist(a, walk.last()) <= cost,
    decreases walk.len(),
{
    let conns = model.connections@;
    if walk.len() > 1 {
        let n = walk.len();
        let c = choose|c: CId|
            c < conns.len() && joins(#[trigger] conns[c as int], walk[n - 2], walk[n - 1]) && walk_cost(
                conns,
                walk.drop_last(),
                cost - conns[c as int].distance,
            );
        let prev = walk.drop_last();
        assert(prev[0] == a);
        assert forall|i: int| 0 <= i < prev.len() implies (#[trigger] prev[i]) < model.n_stations() by {
            assert(prev[i] == walk[i]);
        }
        lemma_paths_are_shortest(model, a, prev, cost - conns[c as int].distance);
        let row = row_distances(model.paths@[a as int]@);
        assert(no_shortcut(conns, row));
        assert(row[conns[c as int].b as int] <= capped_sum(row[conns[c as int].a as int], conns[c as int].distance));
        assert(row[conns[c as int].a as int] <= capped_sum(row[conns[c as int].b as int], conns[c as int].distance));
        assert(prev.last() == walk[n - 2]);
    } else {
        assert(walk.last() == a);
    }
}

/// Putting a station joined to the first one in front of a walk adds the
/// length of the joining connection.
proof fn lemma_walk_cost_prepend(conns: Seq<Connection>, x: SId, p: Seq<SId>, d: int, c: CId)
    requires
        p.len() > 0,
        walk_cost(conns, p, d),
        c < conns.len(),
        joins(conns[c as int], x, p[0]),
    ensures
        walk_cost(conns, seq![x] + p, d + conns[c as int].distance),
    decreases p.len(),
{
    let q = seq![x] + p;
    if p.len() == 1 {
        assert(q.drop_last() =~= seq![x]);
        assert(q[q.len() - 2] == x && q[q.len() - 1] == p[0]);
        assert(joins(conns[c as int], q[q.len() - 2], q[q.len() - 1]));
        assert(walk_cost(conns, q.drop_last(), d + conns[c as int].distance - conns[c as int].distance));
    } else {
        let c1 = choose|c1: CId|
            c1 < conns.len() && joins(#[trigger] conns[c1 as int], p[p.len() - 2], p[p.len() - 1]) && walk_cost(
                conns,
                p.drop_last(),
                d - conns[c1 as int].distance,
            );
        lemma_walk_cost_prepend(conns, x, p.drop_last(), d - conns[c1 as int].distance, c);
        assert(q.drop_last() =~= seq![x] + p.drop_last());
        assert(q[q.len() - 2] == p[p.len() - 2] && q[q.len() - 1] == p[p.len() - 1]);
        assert(joins(conns[c1 as int], q[q.len() - 2], q[q.len() - 1]));
    }
}

/// A walk taken backwards has the same length.
proof fn lemma_walk_cost_reverse(conns: Seq<Connection>, p: Seq<SId>, d: int)
    requires
        walk_cost(conns, p, d),
    ensures
        walk_cost(conns, p.reverse(), d),
    decreases p.len(),
{
    if p.len() <= 1 {
        assert(p.reverse().len() == p.len());
    } else {
        let q = p.drop_last();
        let y = p.last();
        let c = choose|c: CId|
            c < conns.len() && joins(#[trigger] conns[c as int], p[p.len() - 2], p[p.len() - 1]) && walk_cost(
                conns,
                q,
                d - conns[c as int].distance,
            );
        lemma_walk_cost_reverse(conns, q, d - conns[c as int].distance);
        assert(q.reverse()[0] == q[q.len() - 1]);
        assert(joins(conns[c as int], y, q.reverse()[0]));
        lemma_walk_cost_prepend(conns, y, q.reverse(), d - conns[c as int].distance, c);
        assert(p.reverse() =~= seq![y] + q.reverse());
    }
}

/// Distances that admit no shortcut and are zero at `start` are at most
/// the length of any walk from `start`.
proof fn lemma_no_shortcut_bound(conns: Seq<Connection>, dist: Seq<Distance>, n: nat, start: SId, walk: Seq<SId>, cost: int)
    requires
        no_shortcut(conns, dist),
        dist.len() == n,
        ends_below(conns, n),
        start < n,
        dist[start as int] == 0,
        walk.len() > 0,
        walk[0] == start,
        walk_cost(conns, walk, cost),
    ensures
        dist[walk.last() as int] <= cost,
    decreases walk.len(),
{
    if walk.len() > 1 {
        let m = walk.len();
        let c = choose|c: CId|
            c < conns.len() && joins(#[trigger] conns[c as int], walk[m - 2], walk[m - 1]) && walk_cost(
                conns,
                walk.drop_last(),
                cost - conns[c as int].distance,
            );
        let prev = walk.drop_last();
        assert(prev[0] == start);
        lemma_no_shortcut_bound(conns, dist, n, start, prev, cost - conns[c as int].distance);
        assert(conns[c as int].a < n && conns[c as int].b < n);
        assert(prev.last() == walk[m - 2]);
    }
}

/// A walk taken backwards is a walk to its first station.
proof fn lemma_walk_reverse(conns: Seq<Connection>, n: nat, p: Seq<SId>, a: SId, b: SId)
    requires
        is_walk(conns, n, p, b),
        p[0] == a,
    ensures
        is_walk(conns, n, p.reverse(), a),
        p.reverse()[0] == b,
{
    let r = p.reverse();
    assert forall|i: int| 0 <= i < r.len() implies (#[trigger] r[i]) < n by {
        assert(r[i] == p[p.len() - 1 - i]);
    }
    assert forall|i: int| 0 <= i < r.len() - 1 implies joined(conns, #[trigger] r[i], r[i + 1]) by {
        let k = p.len() - 2 - i;
        assert(r[i] == p[k + 1] && r[i + 1] == p[k]);
        assert(joined(conns, p[k], p[k + 1]));
        let c = choose|c: int|
            0 <= c < conns.len() && ((#[trigger] conns[c]).a == p[k] && conns[c].b == p[k + 1] || conns[c].a == p[k + 1]
                && conns[c].b == p[k]);
        assert(0 <= c < conns.len() && (conns[c].a == r[i] && conns[c].b == r[i + 1] || conns[c].a == r[i + 1]
            && conns[c].b == r[i]));
    }
}

/// The stations of `v` in the opposite order.
fn reversed(v: &Vec<SId>) -> (r: Vec<SId>)
    ensures
        r@ == v@.reverse(),
{
    let mut r: Vec<SId> = Vec::new();
    let mut j: usize = v.len();
    while j > 0
        invariant
            0 <= j <= v@.len(),
            r@.len() == v@.len() - j,
            forall|i: int| 0 <= i < r@.len() ==> #[trigger] r@[i] == v@[v@.len() - 1 - i],
        decreases j,
    {
        j = j - 1;
        r.push(v[j]);
    }
    proof {
        assert(r@ =~= v@.reverse());
    }
    r
}

} // verus!
