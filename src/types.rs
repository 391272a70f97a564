use vstd::prelude::*;

verus! {

/// Index of a station, connection, train or passenger group.
pub type Id = usize;

/// Remaining room of a station, connection or train; may go negative.
pub type Capacity = i16;

/// A discrete point in simulated time.
pub type Time = usize;

/// A signed difference of two points in time (a delay).
pub type TimeDiff = i32;

/// A set of ids, kept as a vector without repetitions in insertion order.
pub type IdSet = Vec<Id>;

/// Upper bound on the number of trains, so that station and connection
/// capacities stay within their integer type while trains move around.
pub const MAX_TRAINS: usize = 8192;

/// Upper bound on the search horizon, so that every delay fits a `TimeDiff`.
pub const MAX_TIME: usize = 0x3fff_ffff;

/// The ids of each set in a vector of sets.
pub open spec fn id_sets(v: Seq<IdSet>) -> Seq<Set<Id>> {
    Seq::new(v.len(), |i: int| v[i]@.to_set())
}

/// Every set in the vector is kept without repetitions.
pub open spec fn all_unique(v: Seq<IdSet>) -> bool {
    forall|i: int| 0 <= i < v.len() ==> (#[trigger] v[i])@.no_duplicates()
}

/// Adds `id` to `set` unless it is there already.
pub fn id_insert(set: &mut IdSet, id: Id)
    ensures
        final(set)@.to_set() == old(set)@.to_set().insert(id),
        old(set)@.no_duplicates() ==> final(set)@.no_duplicates(),
        old(set)@.contains(id) ==> final(set)@ == old(set)@,
        !old(set)@.contains(id) ==> final(set)@ == old(set)@.push(id),
{
    let mut i: usize = 0;
    while i < set.len()
        invariant
            0 <= i <= set@.len(),
            forall|j: int| 0 <= j < i ==> set@[j] != id,
        decreases set@.len() - i,
    {
        if set[i] == id {
            proof {
                assert(set@.to_set().insert(id) =~= set@.to_set());
            }
            return;
        }
        i = i + 1;
    }
    let ghost before = set@;
    set.push(id);
    proof {
        assert forall|y: Id| set@.to_set().contains(y) <==> before.to_set().insert(id).contains(y) by {
            if set@.contains(y) {
                let j = choose|j: int| 0 <= j < set@.len() && set@[j] == y;
                if j < before.len() {
                    assert(before[j] == y);
                }
            }
            if before.contains(y) {
                let j = choose|j: int| 0 <= j < before.len() && before[j] == y;
                assert(set@[j] == y);
            }
            if y == id {
                assert(set@[before.len() as int] == y);
            }
        }
        assert(set@.to_set() =~= before.to_set().insert(id));
        if before.no_duplicates() {
            assert forall|a: int, b: int| 0 <= a < set@.len() && 0 <= b < set@.len() && a != b implies set@[a] != set@[b] by {
                if a < before.len() {
                    assert(set@[a] == before[a]);
                }
                if b < before.len() {
                    assert(set@[b] == before[b]);
                }
            }
        }
    }
}

/// Removes `id` from `set`, keeping the order of the rest.
pub fn id_remove(set: &mut IdSet, id: Id)
    ensures
        final(set)@.to_set() == old(set)@.to_set().remove(id),
        old(set)@.no_duplicates() ==> final(set)@.no_duplicates(),
{
    let mut kept: IdSet = Vec::new();
    let mut i: usize = 0;
    while i < set.len()
        invariant
            0 <= i <= set@.len(),
            forall|x: Id|
                kept@.contains(x) <==> (x != id && exists|j: int| 0 <= j < i && #[trigger] set@[j] == x),
            set@.no_duplicates() ==> kept@.no_duplicates(),
        decreases set@.len() - i,
    {
        let x = set[i];
        if x != id {
            proof {
                if set@.no_duplicates() && kept@.contains(x) {
                    let j = choose|j: int| 0 <= j < i && #[trigger] set@[j] == x;
                    assert(set@[j] == set@[i as int]);
                }
            }
            let ghost before = kept@;
            kept.push(x);
            proof {
                assert forall|y: Id| kept@.contains(y) <==> (before.contains(y) || y == x) by {
                    if kept@.contains(y) {
                        let j = choose|j: int| 0 <= j < kept@.len() && kept@[j] == y;
                        if j < before.len() {
                            assert(before[j] == y);
                        }
                    }
                    if before.contains(y) {
                        let j = choose|j: int| 0 <= j < before.len() && before[j] == y;
                        assert(kept@[j] == y);
                    }
                    if y == x {
                        assert(kept@[before.len() as int] == y);
                    }
                }
                assert forall|y: Id|
                    kept@.contains(y) <==> (y != id && exists|j: int| 0 <= j < i + 1 && #[trigger] set@[j] == y) by {
                    if y != id && exists|j: int| 0 <= j < i + 1 && #[trigger] set@[j] == y {
                        let j = choose|j: int| 0 <= j < i + 1 && #[trigger] set@[j] == y;
                        if j < i {
                            assert(before.contains(y));
                        }
                    }
                    if before.contains(y) {
                        let j = choose|j: int| 0 <= j < i && #[trigger] set@[j] == y;
                        assert(set@[j] == y);
                    }
                    if y == x {
                        assert(set@[i as int] == y);
                    }
                }
            }
        } else {
            proof {
                assert forall|y: Id|
                    kept@.contains(y) <==> (y != id && exists|j: int| 0 <= j < i + 1 && #[trigger] set@[j] == y) by {
                    if y != id && exists|j: int| 0 <= j < i + 1 && #[trigger] set@[j] == y {
                        let j = choose|j: int| 0 <= j < i + 1 && #[trigger] set@[j] == y;
                        assert(j < i);
                    }
                    if kept@.contains(y) {
                        let j = choose|j: int| 0 <= j < i && #[trigger] set@[j] == y;
                        assert(set@[j] == y);
                    }
                }
            }
        }
        i = i + 1;
    }
    proof {
        assert forall|y: Id| kept@.to_set().contains(y) <==> set@.to_set().remove(id).contains(y) by {
            if set@.contains(y) && y != id {
                let j = choose|j: int| 0 <= j < set@.len() && set@[j] == y;
                assert(set@[j] == y);
            }
        }
        assert(kept@.to_set() =~= set@.to_set().remove(id));
    }
    *set = kept;
}

} // verus!
