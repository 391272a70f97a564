use crate::model::Model;
use crate::move_::{Move, NoMove};
use crate::passenger::Location as PLocation;
use crate::rule::{prefers, valid_move};
use crate::solution::Solution;
use crate::state::{lemma_mirror_inv, lemma_offered_is_legal, lemma_pop_inverts_push, lemma_same_inv, State};
use crate::train::{Id as TId, Location as TLocation};
use crate::types::TimeDiff;
use fxhash::{FxBuildHasher, FxHasher};
use linked_hash_set::LinkedHashSet;
use rand::seq::SliceRandom;
use rand::Rng;
use std::hash::BuildHasherDefault;
use std::time::Instant;
use vstd::prelude::*;

verus! {

#[verifier::external_type_specification]
#[verifier::external_body]
pub struct ExFxHasher(FxHasher);

#[verifier::external_type_specification]
#[verifier::external_body]
#[verifier::reject_recursive_types(H)]
pub struct ExBuildHasherDefault<H>(BuildHasherDefault<H>);

#[verifier::external_type_specification]
#[verifier::external_body]
#[verifier::reject_recursive_types(T)]
#[verifier::reject_recursive_types(S)]
pub struct ExLinkedHashSet<T, S>(LinkedHashSet<T, S>);

#[verifier::external_type_specification]
#[verifier::external_body]
pub struct ExInstant(Instant);

/// The set of recently visited state fingerprints, oldest first.
pub type TabuSet = LinkedHashSet<u32, FxBuildHasher>;

/// The fingerprints in a tabu set, from the oldest to the newest insertion.
pub uninterp spec fn tabu_entries(set: LinkedHashSet<u32, FxBuildHasher>) -> Seq<u32>;

/// Whether a value differs from `v`.
pub open spec fn other_than(v: u32) -> spec_fn(u32) -> bool {
    |x: u32| x != v
}

/// The Fx hash of a state's time, train and group locations and moves.
pub uninterp spec fn fx_fingerprint(t: usize, trains: Seq<TLocation>, groups: Seq<PLocation>, moves: Seq<Move>) -> u32;

/// Relies on `LinkedHashSet::default`: a new set is empty.
#[verifier::external_body]
fn tabu_new() -> (r: TabuSet)
    ensures
        tabu_entries(r) == Seq::<u32>::empty(),
{
    LinkedHashSet::default()
}

/// Relies on `LinkedHashSet::contains`: membership in the set.
#[verifier::external_body]
fn tabu_contains(set: &TabuSet, v: u32) -> (r: bool)
    ensures
        r == tabu_entries(*set).contains(v),
{
    set.contains(&v)
}

/// Relies on `LinkedHashSet::len`: the number of entries.
#[verifier::external_body]
fn tabu_len(set: &TabuSet) -> (r: usize)
    ensures
        r == tabu_entries(*set).len(),
{
    set.len()
}

/// Relies on `LinkedHashSet::insert`: a new value goes to the end of the
/// order; a present one is moved there; `true` when the value was new.
#[verifier::external_body]
fn tabu_insert(set: &mut TabuSet, v: u32) -> (r: bool)
    ensures
        r == !tabu_entries(*old(set)).contains(v),
        r ==> tabu_entries(*final(set)) == tabu_entries(*old(set)).push(v),
        !r ==> tabu_entries(*final(set)) == tabu_entries(*old(set)).filter(other_than(v)).push(v),
        !r ==> tabu_entries(*final(set)).len() == tabu_entries(*old(set)).len(),
{
    set.insert(v)
}

/// Relies on `LinkedHashSet::pop_front`: removes and returns the oldest entry.
#[verifier::external_body]
fn tabu_pop_front(set: &mut TabuSet) -> (r: Option<u32>)
    ensures
        tabu_entries(*old(set)).len() == 0 ==> r is None && tabu_entries(*final(set)) == tabu_entries(*old(set)),
        tabu_entries(*old(set)).len() > 0 ==> r == Some(tabu_entries(*old(set))[0]) && tabu_entries(*final(set))
            == tabu_entries(*old(set)).subrange(1, tabu_entries(*old(set)).len() as int),
{
    set.pop_front()
}

/// Relies on `fxhash::hash32` over the time, the train and group locations
/// and the moves of the state; capacities are left out.
#[verifier::external_body]
fn fingerprint(state: &State) -> (r: u32)
    ensures
        r == fx_fingerprint(state.t, state.t_location@, state.p_location@, state.moves@),
{
    fxhash::hash32(&(state.t, &state.t_location, &state.p_location, &state.moves))
}

/// Relies on `SliceRandom::shuffle` with the thread-local generator: the
/// moves come back in some order.
#[verifier::external_body]
fn shuffle_moves(moves: &mut Vec<Move>)
    ensures
        final(moves)@.to_multiset() == old(moves)@.to_multiset(),
{
    moves.shuffle(&mut rand::thread_rng())
}

/// Relies on `Rng::gen_range` with the thread-local generator: an index below `n`.
#[verifier::external_body]
fn random_index(n: usize) -> (r: usize)
    requires
        n > 0,
    ensures
        r < n,
{
    rand::thread_rng().gen_range(0..n)
}

/// Relies on `Instant::now`: the current instant.
#[verifier::external_body]
fn clock_now() -> (r: Instant) {
    Instant::now()
}

/// Relies on `Instant::elapsed`: the milliseconds since `start`.
#[verifier::external_body]
fn millis_since(origin: &Instant) -> (r: u128) {
    origin.elapsed().as_millis()
}

/// Where the trains stand once move `m` is applied to `s`.
pub open spec fn trains_after(s: State, m: Move) -> Seq<TLocation> {
    match m {
        Move::Depart(d) => s.t_location@.update(d.t_id as int, TLocation::Connection(d.c_id, d.to, s.t)),
        Move::Start(st) => s.t_location@.update(st.t_id as int, TLocation::Station(st.s_id)),
        _ => s.t_location@,
    }
}

/// Where the passenger groups are once move `m` is applied to `s`.
pub open spec fn groups_after(s: State, m: Move, model: &Model) -> Seq<PLocation> {
    match m {
        Move::Board(b) => s.p_location@.update(b.p_id as int, PLocation::Train(b.t_id)),
        Move::Detrain(d) => s.p_location@.update(
            d.p_id as int,
            if d.s_id == model.passengers@[d.p_id as int].destination {
                PLocation::Arrived
            } else {
                PLocation::Station(d.s_id)
            },
        ),
        _ => s.p_location@,
    }
}

/// The fingerprint of the state that move `m` leads to from `s`.
pub open spec fn fingerprint_after(s: State, m: Move, model: &Model) -> u32 {
    fx_fingerprint(s.t, trains_after(s, m), groups_after(s, m, model), s.moves@.push(m))
}

/// The tabu entries after recording `fp` in a set of size `cap`.
pub open spec fn remembered(entries: Seq<u32>, fp: u32, cap: usize) -> Seq<u32> {
    if entries.contains(fp) {
        entries.filter(other_than(fp)).push(fp)
    } else if entries.len() < cap {
        entries.push(fp)
    } else {
        entries.push(fp).subrange(1, entries.len() + 1 as int)
    }
}

/// Train `t` can make move `m` in `s`, the rules judging on `view` prefer it
/// to waiting, and the state it leads to is not in `tabu`.
pub open spec fn worth_taking(s: State, view: State, tabu: Seq<u32>, t: TId, m: Move, model: &Model) -> bool {
    &&& s.offers(t, m, model)
    &&& prefers(model.rules@, m, Move::NoMove(NoMove()), &view, model)
    &&& !tabu.contains(fingerprint_after(s, m, model))
}

/// The move kept after judging the candidates of `order` in turn: a
/// candidate replaces the move kept so far when the rules, judging on
/// `view`, prefer it to that move and to waiting, and the state it leads to
/// from `s` is not in `tabu`. Nothing is kept at first.
pub open spec fn scan(s: State, view: State, tabu: Seq<u32>, order: Seq<Move>, model: &Model) -> Move
    decreases order.len(),
{
    if order.len() == 0 {
        Move::NoMove(NoMove())
    } else {
        let best = scan(s, view, tabu, order.drop_last(), model);
        let m = order.last();
        if prefers(model.rules@, m, best, &view, model) && prefers(model.rules@, m, Move::NoMove(NoMove()), &view, model)
            && !tabu.contains(fingerprint_after(s, m, model)) {
            m
        } else {
            best
        }
    }
}

/// The turn of train `t`: starting in `before`, the train judges the moves it
/// can make, each once, in the order `order`, with the rules judging on
/// `view`, a copy of `before`, and the tabu entries `tabu`. When `scan` keeps
/// a move, it is applied and its state remembered; otherwise no move is worth
/// taking and nothing changes but the order inside the indexes.
pub open spec fn turn(
    before: State,
    view: State,
    order: Seq<Move>,
    tabu: Seq<u32>,
    after: State,
    tabu_after: Seq<u32>,
    t: TId,
    cap: usize,
    model: &Model,
) -> bool {
    let m = scan(before, view, tabu, order, model);
    &&& view.mirrors(before)
    &&& order.no_duplicates()
    &&& forall|x: Move| #[trigger] order.contains(x) <==> before.offers(t, x, model)
    &&& m is NoMove ==> after.same(before) && tabu_after == tabu && forall|x: Move|
        !#[trigger] worth_taking(before, view, tabu, t, x, model)
    &&& !(m is NoMove) ==> worth_taking(before, view, tabu, t, m, model) && before.pushed(after, m, model)
        && tabu_after == remembered(tabu, fingerprint_after(before, m, model), cap)
}

/// The turns of the trains below `n`: `befores[t]` is the state when train
/// `t`'s turn starts, `views[t]` the copy the rules judge on, `orders[t]` the
/// order in which its moves are judged, and `tabus[t]` the tabu entries then.
pub open spec fn neighbour_trail(
    befores: Seq<State>,
    views: Seq<State>,
    orders: Seq<Seq<Move>>,
    tabus: Seq<Seq<u32>>,
    n: int,
    cap: usize,
    model: &Model,
) -> bool {
    &&& befores.len() == n + 1
    &&& views.len() == n
    &&& orders.len() == n
    &&& tabus.len() == n + 1
    &&& forall|t: int|
        0 <= t < n ==> #[trigger] turn(
            befores[t],
            views[t],
            orders[t],
            tabus[t],
            befores[t + 1],
            tabus[t + 1],
            t as TId,
            cap,
            model,
        )
}

/// The fingerprint of a state reached by move `m` is the one `fingerprint_after` names.
proof fn lemma_pushed_fingerprint(s: State, w: State, m: Move, model: &Model)
    requires
        s.pushed(w, m, model),
    ensures
        w.t == s.t,
        w.t_location@ == trains_after(s, m),
        w.p_location@ == groups_after(s, m, model),
        w.moves@ == s.moves@.push(m),
{
}

/// A search stops after this many rebuilds in a row without improvement.
pub const STOP_AT_NO_IMPROVEMENTS: i32 = 25000;

/// Tabu search over schedules, with random rewinding for diversification.
pub struct TabuGeneticSearch {
    /// Fingerprints of recently visited states; the oldest leave first once
    /// there are more than `tabu_size`.
    tabu: TabuSet,
    /// The time budget of a search, in milliseconds.
    max_millis: u128,
    /// The most fingerprints the tabu set keeps.
    tabu_size: usize,
    /// Whether to record the best total delay after each step.
    track_fitness: bool,
    /// The best total delay seen after each step, when tracked.
    pub fitness: Vec<TimeDiff>,
    /// The number of candidate moves compared.
    pub checked_moves: usize,
    /// For each finished build attempt: whether no station was overloaded,
    /// and the total delay of the schedule built.
    attempts: Ghost<Seq<(bool, int)>>,
    /// Whether the last search stopped on its time budget or for lack of
    /// improvement.
    halted: Ghost<bool>,
    /// The elapsed milliseconds measured when the last search ran out of time.
    observed: Ghost<u128>,
    /// When fitness is tracked: the total delay of the schedule under
    /// construction after each step.
    steps: Ghost<Seq<int>>,
}

/// Outcome `a` beats `b`: `a` overloaded no station, and `b` did or has more
/// delay.
pub open spec fn strictly_better(a: (bool, int), b: (bool, int)) -> bool {
    a.0 && (!b.0 || a.1 < b.1)
}

/// Attempt `j` beats every earlier attempt from index `first` on.
pub open spec fn improves(attempts: Seq<(bool, int)>, first: int, j: int) -> bool {
    forall|i: int| first <= i < j ==> strictly_better(attempts[j], #[trigger] attempts[i])
}

/// The last `n` attempts, all from index `first` on, improved on none before.
pub open spec fn stalled(attempts: Seq<(bool, int)>, first: int, n: int) -> bool {
    &&& first <= attempts.len() - n
    &&& forall|j: int| attempts.len() - n <= j < attempts.len() ==> !#[trigger] improves(attempts, first, j)
}

/// The least of `values`, or `TimeDiff::MAX` when there are none.
pub open spec fn running_min(values: Seq<int>) -> int
    decreases values.len(),
{
    if values.len() == 0 {
        i32::MAX as int
    } else {
        let m = running_min(values.drop_last());
        if values.last() < m {
            values.last()
        } else {
            m
        }
    }
}

/// Outcome `a` of a build attempt is at least as good as `b`: an attempt
/// that overloaded a station is infinitely bad, and among the others less
/// total delay is better.
pub open spec fn at_least_as_good(a: (bool, int), b: (bool, int)) -> bool {
    b.0 ==> a.0 && a.1 <= b.1
}

/// A move that a train can make names entities of the model.
proof fn lemma_offered_valid(s: State, t_id: TId, m: Move, model: &Model)
    requires
        model.wf(),
        s.inv(model),
        t_id < model.n_trains(),
        s.offers(t_id, m, model),
    ensures
        valid_move(m, model),
{
    if let Move::Depart(d) = m {
        assert(model.connections@[d.c_id as int].a < model.n_stations());
    }
}

impl TabuGeneticSearch {
    /// The tabu set holds at most `tabu_size` fingerprints.
    pub open spec fn wf(&self) -> bool {
        self.entries().len() <= self.capacity()
    }

    /// The fingerprints in the tabu set, oldest first.
    pub closed spec fn entries(&self) -> Seq<u32> {
        tabu_entries(self.tabu)
    }

    /// The most fingerprints the tabu set keeps.
    pub closed spec fn capacity(&self) -> usize {
        self.tabu_size
    }

    /// The outcomes of the build attempts so far.
    pub closed spec fn attempts(&self) -> Seq<(bool, int)> {
        self.attempts@
    }

    /// Whether the last search stopped on its time budget or for lack of
    /// improvement.
    pub closed spec fn halted(&self) -> bool {
        self.halted@
    }

    /// The elapsed milliseconds measured when the last search ran out of time.
    pub closed spec fn observed(&self) -> u128 {
        self.observed@
    }

    /// The total delay of the schedule under construction after each
    /// tracked step.
    pub closed spec fn steps(&self) -> Seq<int> {
        self.steps@
    }

    /// The time budget, in milliseconds.
    pub closed spec fn budget(&self) -> u128 {
        self.max_millis
    }

    /// Whether the best total delay is recorded after each step.
    pub closed spec fn tracks(&self) -> bool {
        self.track_fitness
    }

    /// The best total delays recorded so far.
    pub closed spec fn recorded(&self) -> Seq<TimeDiff> {
        self.fitness@
    }

    /// The number of candidate moves compared so far.
    pub closed spec fn compared(&self) -> usize {
        self.checked_moves
    }

    /// A search with the given time budget and tabu set size.
    pub fn new(max_millis: u128, tabu_size: usize, track_fitness: bool) -> (r: TabuGeneticSearch)
        ensures
            r.wf(),
            r.entries().len() == 0,
            r.capacity() == tabu_size,
            r.budget() == max_millis,
            r.tracks() == track_fitness,
            r.recorded().len() == 0,
            r.compared() == 0,
            r.attempts().len() == 0,
    {
        TabuGeneticSearch {
            tabu: tabu_new(),
            fitness: Vec::new(),
            max_millis,
            tabu_size,
            track_fitness,
            checked_moves: 0,
            attempts: Ghost(Seq::empty()),
            halted: Ghost(false),
            observed: Ghost(0),
            steps: Ghost(Seq::empty()),
        }
    }

    /// Whether fingerprint `fp` is in the tabu set.
    pub fn is_tabu(&self, fp: u32) -> (r: bool)
        ensures
            r == self.entries().contains(fp),
    {
        tabu_contains(&self.tabu, fp)
    }

    /// The number of fingerprints in the tabu set.
    pub fn tabu_count(&self) -> (r: usize)
        ensures
            r == self.entries().len(),
    {
        tabu_len(&self.tabu)
    }

    /// Records fingerprint `fp` as the newest entry of the tabu set, evicting
    /// the oldest entry when the set would grow beyond its size.
    pub fn remember(&mut self, fp: u32)
        requires
            old(self).wf(),
        ensures
            final(self).wf(),
            final(self).entries().len() <= final(self).capacity(),
            final(self).capacity() == old(self).capacity(),
            final(self).budget() == old(self).budget(),
            final(self).tracks() == old(self).tracks(),
            final(self).recorded() == old(self).recorded(),
            final(self).compared() == old(self).compared(),
            final(self).entries() == remembered(old(self).entries(), fp, old(self).capacity()),
            final(self).attempts() == old(self).attempts(),
            final(self).halted() == old(self).halted(),
            final(self).steps() == old(self).steps(),
            final(self).observed() == old(self).observed(),
    {
        let ghost before = self.entries();
        tabu_insert(&mut self.tabu, fp);
        let ghost inserted = self.entries();
        if tabu_len(&self.tabu) > self.tabu_size {
            tabu_pop_front(&mut self.tabu);
            proof {
                assert(!before.contains(fp));
                assert(self.entries() =~= before.push(fp).subrange(1, before.len() + 1 as int));
            }
        }
    }

    /// Records the fingerprint of `state` in the tabu set.
    fn add_to_tabu_list(&mut self, state: &State)
        requires
            old(self).wf(),
        ensures
            final(self).wf(),
            final(self).entries() == remembered(
                old(self).entries(),
                fx_fingerprint(state.t, state.t_location@, state.p_location@, state.moves@),
                old(self).capacity(),
            ),
            final(self).attempts() == old(self).attempts(),
            final(self).halted() == old(self).halted(),
            final(self).steps() == old(self).steps(),
            final(self).observed() == old(self).observed(),
            final(self).capacity() == old(self).capacity(),
            final(self).budget() == old(self).budget(),
            final(self).tracks() == old(self).tracks(),
            final(self).recorded() == old(self).recorded(),
            final(self).compared() == old(self).compared(),
    {
        let fp = fingerprint(state);
        self.remember(fp);
    }

    /// Judges the moves of `order`, which train `t_id` can make in `state`, in
    /// turn and returns the one `scan` keeps: each candidate is applied
    /// tentatively to compute the fingerprint of the state it leads to, then
    /// undone. The rules judge on `view`, a copy of `state`.
    #[verifier::rlimit(100)]
    #[verifier::spinoff_prover]
    pub fn pick(&mut self, state: &mut State, view: &State, t_id: TId, order: &Vec<Move>, model: &Model) -> (r: Move)
        requires
            model.wf(),
            old(state).inv(model),
            view.mirrors(*old(state)),
            t_id < model.n_trains(),
            forall|j: int| 0 <= j < order@.len() ==> old(state).offers(t_id, #[trigger] order@[j], model),
            old(self).wf(),
        ensures
            r == scan(*old(state), *view, old(self).entries(), order@, model),
            r is NoMove ==> forall|j: int|
                0 <= j < order@.len() ==> !#[trigger] worth_taking(*old(state), *view, old(self).entries(), t_id, order@[j], model),
            !(r is NoMove) ==> worth_taking(*old(state), *view, old(self).entries(), t_id, r, model),
            final(state).inv(model),
            final(state).same(*old(state)),
            final(self).wf(),
            final(self).entries() == old(self).entries(),
            final(self).capacity() == old(self).capacity(),
            final(self).budget() == old(self).budget(),
            final(self).tracks() == old(self).tracks(),
            final(self).recorded() == old(self).recorded(),
            final(self).compared() >= old(self).compared(),
            final(self).attempts() == old(self).attempts(),
            final(self).halted() == old(self).halted(),
            final(self).steps() == old(self).steps(),
            final(self).observed() == old(self).observed(),
    {
        let move_none = Move::NoMove(NoMove());
        let ghost base = *state;
        let ghost tabu = self.entries();
        proof {
            lemma_mirror_inv(base, *view, model);
        }
        let mut best_move = move_none;
        let mut k: usize = 0;
        while k < order.len()
            invariant
                model.wf(),
                base.inv(model),
                view.inv(model),
                view.mirrors(base),
                state.inv(model),
                state.same(base),
                t_id < model.n_trains(),
                forall|j: int| 0 <= j < order@.len() ==> base.offers(t_id, #[trigger] order@[j], model),
                best_move == scan(base, *view, tabu, order@.subrange(0, k as int), model),
                best_move == move_none ==> forall|j: int|
                    0 <= j < k ==> !#[trigger] worth_taking(base, *view, tabu, t_id, order@[j], model),
                best_move != move_none ==> worth_taking(base, *view, tabu, t_id, best_move, model),
                move_none == Move::NoMove(NoMove()),
                self.wf(),
                self.entries() == tabu,
                self.capacity() == old(self).capacity(),
                self.budget() == old(self).budget(),
                self.tracks() == old(self).tracks(),
                self.recorded() == old(self).recorded(),
                self.compared() >= old(self).compared(),
                self.attempts() == old(self).attempts(),
                self.halted() == old(self).halted(),
                self.steps() == old(self).steps(),
                self.observed() == old(self).observed(),
                0 <= k <= order@.len(),
            decreases order@.len() - k,
        {
            let m = order[k];
            if self.checked_moves < usize::MAX {
                self.checked_moves = self.checked_moves + 1;
            }
            proof {
                assert(order@.subrange(0, k + 1).drop_last() =~= order@.subrange(0, k as int));
                assert(order@.subrange(0, k + 1).last() == m);
                assert(base.offers(t_id, order@[k as int], model));
                assert(state.offers(t_id, m, model));
                lemma_offered_valid(*state, t_id, m, model);
                if best_move != move_none {
                    assert(state.offers(t_id, best_move, model));
                    lemma_offered_valid(*state, t_id, best_move, model);
                }
                lemma_offered_is_legal(*state, t_id, m, model);
            }
            if !m.is_gt(&best_move, view, model) || !m.is_gt(&move_none, view, model) {
                k = k + 1;
                continue;
            }
            let ghost before = *state;
            state.push(m, model);
            let fp = fingerprint(state);
            proof {
                lemma_pushed_fingerprint(before, *state, m, model);
                assert(trains_after(before, m) == trains_after(base, m));
                assert(groups_after(before, m, model) == groups_after(base, m, model));
                assert(fp == fingerprint_after(base, m, model));
            }
            if !tabu_contains(&self.tabu, fp) {
                best_move = m;
            }
            let ghost pushed = *state;
            let _ = state.pop(model);
            proof {
                lemma_pop_inverts_push(before, m, pushed, *state, model);
                lemma_same_inv(before, *state, model);
            }
            k = k + 1;
        }
        proof {
            assert(order@.subrange(0, order@.len() as int) =~= order@);
        }
        best_move
    }

    /// Lets every used train, in train order, make a move that the rules
    /// prefer to waiting and whose resulting state is not tabu, and records
    /// the states reached. Each train judges its candidates in a random order.
    fn find_neighbour(&mut self, state: &mut State, model: &Model)
        requires
            model.wf(),
            old(state).inv(model),
            old(self).wf(),
        ensures
            final(state).inv(model),
            final(state).t == old(state).t,
            exists|befores: Seq<State>, views: Seq<State>, orders: Seq<Seq<Move>>, tabus: Seq<Seq<u32>>|
                #[trigger] neighbour_trail(befores, views, orders, tabus, model.used_trains as int, old(self).capacity(), model)
                    && befores[0] == *old(state) && befores[model.used_trains as int] == *final(state)
                    && tabus[0] == old(self).entries() && tabus[model.used_trains as int] == final(self).entries(),
            final(self).wf(),
            final(self).capacity() == old(self).capacity(),
            final(self).budget() == old(self).budget(),
            final(self).tracks() == old(self).tracks(),
            final(self).recorded() == old(self).recorded(),
            final(self).compared() >= old(self).compared(),
            final(self).attempts() == old(self).attempts(),
            final(self).halted() == old(self).halted(),
            final(self).steps() == old(self).steps(),
            final(self).observed() == old(self).observed(),
    {
        let move_none = Move::NoMove(NoMove());
        let ghost t0 = state.t;
        let ghost cap = self.capacity();
        let ghost mut befores: Seq<State> = seq![*state];
        let ghost mut views: Seq<State> = Seq::empty();
        let ghost mut orders: Seq<Seq<Move>> = Seq::empty();
        let ghost mut tabus: Seq<Seq<u32>> = seq![self.entries()];
        let mut t_id: usize = 0;
        while t_id < model.used_trains
            invariant
                model.wf(),
                state.inv(model),
                state.t == t0,
                model.used_trains <= model.n_trains(),
                t_id <= model.used_trains,
                self.wf(),
                self.capacity() == cap,
                cap == old(self).capacity(),
                self.budget() == old(self).budget(),
                self.tracks() == old(self).tracks(),
                self.recorded() == old(self).recorded(),
                self.compared() >= old(self).compared(),
                self.attempts() == old(self).attempts(),
                self.halted() == old(self).halted(),
                self.steps() == old(self).steps(),
                self.observed() == old(self).observed(),
                move_none == Move::NoMove(NoMove()),
                neighbour_trail(befores, views, orders, tabus, t_id as int, cap, model),
                befores[0] == *old(state),
                befores[t_id as int] == *state,
                tabus[0] == old(self).entries(),
                tabus[t_id as int] == self.entries(),
            decreases model.used_trains - t_id,
        {
            let ghost base = *state;
            let ghost tabu = self.entries();
            let mut moves = state.get_moves(t_id, model);
            if moves.len() == 0 {
                proof {
                    assert forall|m: Move| !#[trigger] worth_taking(base, base, tabu, t_id, m, model) by {
                        if base.offers(t_id, m, model) {
                            assert(moves@.contains(m));
                        }
                    }
                    assert(base.same(base));
                    let no_order = Seq::<Move>::empty();
                    assert forall|x: Move| #[trigger] no_order.contains(x) <==> base.offers(t_id, x, model) by {
                        if base.offers(t_id, x, model) {
                            assert(moves@.contains(x));
                        }
                    }
                    assert(turn(base, base, no_order, tabu, base, tabu, t_id, cap, model));
                    let nb = befores.push(base);
                    let nv = views.push(base);
                    let no = orders.push(no_order);
                    let nt = tabus.push(tabu);
                    assert forall|t: int| 0 <= t < t_id + 1 implies #[trigger] turn(nb[t], nv[t], no[t], nt[t], nb[t + 1], nt[t + 1], t as TId, cap, model) by {
                        if t < t_id {
                            assert(turn(befores[t], views[t], orders[t], tabus[t], befores[t + 1], tabus[t + 1], t as TId, cap, model));
                        }
                    }
                    befores = nb;
                    views = nv;
                    orders = no;
                    tabus = nt;
                }
                t_id = t_id + 1;
                continue;
            }
            let ghost generated = moves@;
            shuffle_moves(&mut moves);
            let view = state.snapshot();
            proof {
                broadcast use vstd::seq_lib::group_to_multiset_ensures;

                lemma_mirror_inv(base, view, model);
                assert forall|k: int| 0 <= k < moves@.len() implies base.offers(t_id, #[trigger] moves@[k], model) by {
                    assert(moves@.to_multiset().count(moves@[k]) > 0);
                    assert(generated.contains(moves@[k]));
                }
                assert forall|m: Move| base.offers(t_id, m, model) implies moves@.contains(m) by {
                    assert(generated.contains(m));
                    assert(generated.to_multiset().count(m) > 0);
                }
            }
            proof {
                assert(moves@.no_duplicates()) by {
                    assert forall|x: int, y: int| 0 <= x < moves@.len() && 0 <= y < moves@.len() && x != y implies moves@[x] != moves@[y] by {
                        if moves@[x] == moves@[y] {
                            let mm = moves@[x];
                            assert(moves@.remove(x).to_multiset() =~= moves@.to_multiset().remove(mm));
                            assert(moves@.to_multiset().count(mm) >= 2) by {
                                let rest = moves@.remove(x);
                                assert(rest.contains(mm)) by {
                                    if y < x {
                                        assert(rest[y] == mm);
                                    } else {
                                        assert(rest[y - 1] == mm);
                                    }
                                }
                                assert(rest.to_multiset().count(mm) > 0);
                            }
                            assert(generated.to_multiset().count(mm) >= 2);
                            assert(generated.no_duplicates());
                            generated.lemma_multiset_has_no_duplicates();
                        }
                    }
                }
            }
            let best_move = self.pick(state, &view, t_id, &moves, model);
            if best_move != move_none {
                proof {
                    assert(state.offers(t_id, best_move, model));
                    lemma_offered_is_legal(*state, t_id, best_move, model);
                }
                let ghost current = *state;
                state.push(best_move, model);
                proof {
                    lemma_pushed_fingerprint(current, *state, best_move, model);
                    assert(base.pushed(*state, best_move, model));
                    assert(trains_after(current, best_move) == trains_after(base, best_move));
                    assert(groups_after(current, best_move, model) == groups_after(base, best_move, model));
                }
                self.add_to_tabu_list(state);
                proof {
                    assert(turn(base, view, moves@, tabu, *state, self.entries(), t_id, cap, model));
                }
            } else {
                proof {
                    assert forall|m: Move| !#[trigger] worth_taking(base, view, tabu, t_id, m, model) by {
                        if base.offers(t_id, m, model) {
                            assert(moves@.contains(m));
                            let j = choose|j: int| 0 <= j < moves@.len() && moves@[j] == m;
                            assert(!worth_taking(base, view, tabu, t_id, moves@[j], model));
                        }
                    }
                    assert(turn(base, view, moves@, tabu, *state, self.entries(), t_id, cap, model));
                }
            }
            proof {
                let nb = befores.push(*state);
                let nv = views.push(view);
                let no = orders.push(moves@);
                let nt = tabus.push(self.entries());
                assert(nb[t_id as int] == base);
                assert forall|t: int| 0 <= t < t_id + 1 implies #[trigger] turn(nb[t], nv[t], no[t], nt[t], nb[t + 1], nt[t + 1], t as TId, cap, model) by {
                    if t < t_id {
                        assert(turn(befores[t], views[t], orders[t], tabus[t], befores[t + 1], tabus[t + 1], t as TId, cap, model));
                    }
                }
                befores = nb;
                views = nv;
                orders = no;
                tabus = nt;
            }
            t_id = t_id + 1;
        }
        proof {
            assert(neighbour_trail(befores, views, orders, tabus, model.used_trains as int, cap, model));
        }
    }

    /// Builds schedules until the time budget is spent, a schedule without
    /// delay and overload is found, or the search stops improving. Each
    /// attempt builds forward from a random point of the best schedule so
    /// far; the best attempt is kept, an attempt that overloaded a station
    /// counting as infinitely bad. Returns the best schedule and the
    /// milliseconds spent.
    pub fn search(&mut self, model: &Model) -> (r: (Solution, u128))
        requires
            model.wf(),
            old(self).wf(),
        ensures
            r.0.wf(model),
            r.0.0@.len() > 0,
            final(self).wf(),
            final(self).capacity() == old(self).capacity(),
            final(self).compared() >= old(self).compared(),
            final(self).attempts().len() > old(self).attempts().len(),
            final(self).attempts().subrange(0, old(self).attempts().len() as int) == old(self).attempts(),
            exists|i: int|
                old(self).attempts().len() <= i < final(self).attempts().len() && (#[trigger] final(self).attempts()[i]).1
                    == r.0.total_delay() && (forall|j: int|
                    old(self).attempts().len() <= j < final(self).attempts().len() ==> at_least_as_good(
                        final(self).attempts()[i],
                        #[trigger] final(self).attempts()[j],
                    )) && (!final(self).halted() ==> final(self).attempts()[i].0 && r.0.total_delay() == 0),
            forall|j: int|
                old(self).attempts().len() <= j < final(self).attempts().len() - 1 ==> !((#[trigger] final(self).attempts()[j]).0
                    && final(self).attempts()[j].1 == 0),
            final(self).halted() ==> stalled(
                final(self).attempts(),
                old(self).attempts().len() as int,
                STOP_AT_NO_IMPROVEMENTS + 1,
            ) || final(self).budget() < final(self).observed(),
            final(self).recorded().subrange(0, old(self).recorded().len() as int) == old(self).recorded(),
            final(self).steps().subrange(0, old(self).steps().len() as int) == old(self).steps(),
            final(self).recorded().len() - old(self).recorded().len() == final(self).steps().len() - old(self).steps().len(),
            forall|k: int|
                0 <= k < final(self).recorded().len() - old(self).recorded().len() ==> #[trigger] final(self).recorded()[old(self).recorded().len() + k] == running_min(
                    final(self).steps().subrange(old(self).steps().len() as int, old(self).steps().len() + k + 1),
                ),
    {
        let start_time = clock_now();
        let ghost first = self.attempts().len() as int;
        let ghost first_recorded = self.recorded();
        let ghost first_steps = self.steps();
        self.halted = Ghost(false);
        let mut solution = Solution::new();
        let mut best_solution = Solution::new();
        let mut best_ok = false;
        let ghost mut best_index: int = 0;
        let mut min_delay: TimeDiff = TimeDiff::MAX;
        let mut state = model.initial_state();
        let mut no_improvements: i32 = 0;
        let mut best_fitness = best_solution.fitness();
        while best_solution.0.len() == 0 || !best_ok || best_fitness > 0
            invariant_except_break
                solution.wf(model),
                state.inv(model),
                state.t == solution.0@.len(),
                state.t <= model.t_max,
                0 <= no_improvements <= STOP_AT_NO_IMPROVEMENTS,
                !self.halted(),
            invariant
                model.wf(),
                self.wf(),
                self.capacity() == old(self).capacity(),
                self.compared() >= old(self).compared(),
                self.tracks() == old(self).tracks(),
                self.budget() == old(self).budget(),
                best_solution.wf(model),
                best_fitness == best_solution.total_delay(),
                best_fitness >= 0,
                first == old(self).attempts().len(),
                self.attempts().subrange(0, first) == old(self).attempts(),
                first <= self.attempts().len(),
                best_solution.0@.len() > 0 ==> first <= best_index < self.attempts().len() && self.attempts()[best_index]
                    == (best_ok, best_fitness as int) && forall|j: int|
                    first <= j < self.attempts().len() ==> at_least_as_good(
                        self.attempts()[best_index],
                        #[trigger] self.attempts()[j],
                    ),
                best_solution.0@.len() == 0 ==> self.attempts().len() == first,
                forall|j: int|
                    first <= j < self.attempts().len() - 1 ==> !((#[trigger] self.attempts()[j]).0 && self.attempts()[j].1 == 0),
                self.attempts().len() > first && self.attempts().last().0 && self.attempts().last().1 == 0 ==> best_ok
                    && best_fitness == 0,
                first <= self.attempts().len() - no_improvements,
                forall|j: int|
                    self.attempts().len() - no_improvements <= j < self.attempts().len() ==> !#[trigger] improves(
                        self.attempts(),
                        first,
                        j,
                    ),
                self.halted() ==> stalled(self.attempts(), first, STOP_AT_NO_IMPROVEMENTS + 1) || self.budget()
                    < self.observed(),
                first_recorded == old(self).recorded(),
                first_steps == old(self).steps(),
                first_recorded.len() <= self.recorded().len(),
                first_steps.len() <= self.steps().len(),
                self.recorded().subrange(0, first_recorded.len() as int) == first_recorded,
                self.steps().subrange(0, first_steps.len() as int) == first_steps,
                self.recorded().len() - first_recorded.len() == self.steps().len() - first_steps.len(),
                forall|k: int|
                    0 <= k < self.recorded().len() - first_recorded.len() ==> #[trigger] self.recorded()[first_recorded.len() + k]
                        == running_min(self.steps().subrange(first_steps.len() as int, first_steps.len() + k + 1)),
                min_delay == running_min(self.steps().subrange(first_steps.len() as int, self.steps().len() as int)),
            ensures
                best_solution.0@.len() > 0,
                !self.halted() ==> best_ok && best_fitness == 0,
            decreases if best_solution.0@.len() == 0 { 1int } else { 0int }, if best_ok { 0int } else { 1int }, best_fitness, STOP_AT_NO_IMPROVEMENTS - no_improvements,
        {
            let mut overloaded = false;
            let ghost attempts_before = self.attempts();
            let ghost observed_before = self.observed();
            while state.t <= model.t_max
                invariant
                    model.wf(),
                    self.wf(),
                    self.capacity() == old(self).capacity(),
                    self.compared() >= old(self).compared(),
                    self.tracks() == old(self).tracks(),
                    self.budget() == old(self).budget(),
                    self.attempts() == attempts_before,
                    self.observed() == observed_before,
                    self.halted() == false,
                    state.inv(model),
                    solution.wf(model),
                    state.t == solution.0@.len(),
                    state.t <= model.t_max || solution.0@.len() > 0,
                    first_recorded.len() <= self.recorded().len(),
                    first_steps.len() <= self.steps().len(),
                    self.recorded().subrange(0, first_recorded.len() as int) == first_recorded,
                    self.steps().subrange(0, first_steps.len() as int) == first_steps,
                    self.recorded().len() - first_recorded.len() == self.steps().len() - first_steps.len(),
                    forall|k: int|
                        0 <= k < self.recorded().len() - first_recorded.len() ==> #[trigger] self.recorded()[first_recorded.len() + k]
                            == running_min(self.steps().subrange(first_steps.len() as int, first_steps.len() + k + 1)),
                    min_delay == running_min(self.steps().subrange(first_steps.len() as int, self.steps().len() as int)),
                ensures
                    solution.0@.len() > 0,
                decreases model.t_max + 1 - state.t,
            {
                self.find_neighbour(&mut state, model);
                let copy = state.snapshot();
                proof {
                    lemma_mirror_inv(state, copy, model);
                }
                solution.0.push(copy);
                if self.track_fitness {
                    let f = solution.fitness();
                    let ghost rec_before = self.fitness@;
                    let ghost steps_before = self.steps@;
                    proof {
                        self.steps = Ghost(steps_before.push(f as int));
                        let sub = self.steps@.subrange(first_steps.len() as int, self.steps@.len() as int);
                        assert(sub.drop_last() =~= steps_before.subrange(first_steps.len() as int, steps_before.len() as int));
                    }
                    if f < min_delay {
                        min_delay = f;
                    }
                    self.fitness.push(min_delay);
                    proof {
                        assert(self.recorded() == rec_before.push(min_delay));
                        assert(self.recorded().subrange(0, first_recorded.len() as int) =~= rec_before.subrange(0, first_recorded.len() as int));
                        assert(self.steps().subrange(0, first_steps.len() as int) =~= steps_before.subrange(0, first_steps.len() as int));
                        assert forall|k: int|
                            0 <= k < self.recorded().len() - first_recorded.len() implies #[trigger] self.recorded()[first_recorded.len() + k]
                                == running_min(self.steps().subrange(first_steps.len() as int, first_steps.len() + k + 1)) by {
                            if k < rec_before.len() - first_recorded.len() {
                                assert(self.recorded()[first_recorded.len() + k] == rec_before[first_recorded.len() + k]);
                                assert(self.steps().subrange(first_steps.len() as int, first_steps.len() + k + 1)
                                    =~= steps_before.subrange(first_steps.len() as int, first_steps.len() + k + 1));
                            } else {
                                assert(self.steps().subrange(first_steps.len() as int, first_steps.len() + k + 1)
                                    =~= self.steps().subrange(first_steps.len() as int, self.steps().len() as int));
                            }
                        }
                    }
                }
                state.next(model);
                if !state.is_legal() {
                    overloaded = true;
                    break;
                }
                if state.p_arrived.len() == model.passengers.len() {
                    break;
                }
            }
            let ok = !overloaded;
            let fitness = solution.fitness();
            let ghost attempt_index = self.attempts().len() as int;
            let ghost prior = self.attempts();
            proof {
                self.attempts = Ghost(prior.push((ok, fitness as int)));
                assert(self.attempts().subrange(0, first) =~= prior.subrange(0, first));
            }
            if best_solution.0.len() == 0 || (ok && !best_ok) || (ok && best_ok && fitness < best_fitness) {
                best_solution = solution.snapshot(model);
                best_fitness = fitness;
                best_ok = ok;
                no_improvements = 0;
                proof {
                    best_index = attempt_index;
                }
            } else {
                solution = best_solution.snapshot(model);
                no_improvements = no_improvements + 1;
                proof {
                    assert(!strictly_better(self.attempts()[attempt_index], self.attempts()[best_index]));
                    assert(!improves(self.attempts(), first, attempt_index));
                    assert forall|j: int|
                        self.attempts().len() - no_improvements <= j < self.attempts().len() implies !#[trigger] improves(
                            self.attempts(),
                            first,
                            j,
                        ) by {
                        if j < attempt_index {
                            assert(!improves(prior, first, j));
                            let i = choose|i: int| first <= i < j && !strictly_better(prior[j], #[trigger] prior[i]);
                            assert(self.attempts()[i] == prior[i]);
                        }
                    }
                }
            }
            if no_improvements > STOP_AT_NO_IMPROVEMENTS {
                self.halted = Ghost(true);
                break;
            }
            let start: usize = if solution.0.len() == 0 {
                0
            } else {
                random_index(solution.0.len())
            };
            state = rewind(&mut solution, start, model);
            let elapsed = millis_since(&start_time);
            if self.max_millis < elapsed {
                self.observed = Ghost(elapsed);
                self.halted = Ghost(true);
                break;
            }
        }
        proof {
            assert(self.attempts()[best_index].1 == best_solution.total_delay());
            assert(self.attempts().len() > old(self).attempts().len());
        }
        (best_solution, millis_since(&start_time))
    }
}

/// Cuts `solution` back to its first `start` states and returns the state to
/// build on: the initial state of the model for `start == 0`, otherwise
/// the state at time `start - 1` advanced to time `start`.
pub fn rewind(solution: &mut Solution, start: usize, model: &Model) -> (r: State)
    requires
        model.wf(),
        old(solution).wf(model),
        start < old(solution).0@.len() || start == 0,
    ensures
        final(solution).0@ == old(solution).0@.subrange(0, start as int),
        final(solution).wf(model),
        r.inv(model),
        r.t == start,
        r.t <= model.t_max,
        r.moves@.len() == 0,
        start == 0 ==> forall|i: int|
            0 <= i < model.n_trains() ==> #[trigger] r.t_location@[i] == model.trains@[i].start.location()
                && r.t_capacity@[i] == model.trains@[i].capacity,
        start == 0 ==> forall|p: int|
            0 <= p < model.n_passengers() ==> #[trigger] r.p_location@[p] == PLocation::Station(model.passengers@[p].start),
        start > 0 ==> {
            let last = old(solution).0@[start - 1];
            &&& forall|i: int| 0 <= i < model.n_trains() ==> #[trigger] r.t_location@[i] == last.location_at(i, start as int, model)
            &&& r.p_location@ == last.p_location@
            &&& r.t_capacity@ == last.t_capacity@
            &&& r.p_delays@ == last.p_delays@
            &&& r.t_passengers@.len() == last.t_passengers@.len()
        },
{
    let state = if start == 0 {
        model.initial_state()
    } else {
        proof {
            assert(solution.0@[solution.0@.len() - 1].t <= model.t_max);
        }
        let mut copy = solution.0[start - 1].snapshot();
        proof {
            lemma_mirror_inv(solution.0@[start - 1], copy, model);
        }
        copy.next(model);
        copy
    };
    solution.0.truncate(start);
    state
}

} // verus!
