use crate::model::Model;
use crate::state::{copy_vec, State};
use crate::types::{IdSet, TimeDiff};
use vstd::prelude::*;

verus! {

/// The sum of the positive values of `delays`.
pub open spec fn positive_sum(delays: Seq<TimeDiff>) -> int
    decreases delays.len(),
{
    if delays.len() == 0 {
        0
    } else {
        positive_sum(delays.drop_last()) + if delays.last() > 0 {
            delays.last() as int
        } else {
            0
        }
    }
}

/// A schedule: the state at each point in time, from time zero.
#[derive(Clone, Debug)]
pub struct Solution(pub Vec<State>);

impl Solution {
    /// An empty schedule.
    pub fn new() -> (r: Solution)
        ensures
            r.0@.len() == 0,
    {
        Solution(Vec::new())
    }

    /// Each state keeps the invariant, stands at its own index in time, and
    /// lies within the horizon.
    pub open spec fn wf(&self, model: &Model) -> bool {
        forall|k: int|
            0 <= k < self.0@.len() ==> (#[trigger] self.0@[k]).inv(model) && self.0@[k].t == k
                && self.0@[k].t <= model.t_max
    }

    /// The total delay of the last state, capped at `TimeDiff::MAX`; an empty
    /// schedule counts as `TimeDiff::MAX`.
    pub open spec fn total_delay(&self) -> int {
        if self.0@.len() == 0 {
            i32::MAX as int
        } else {
            let sum = positive_sum(self.0@.last().p_delays@);
            if sum > i32::MAX {
                i32::MAX as int
            } else {
                sum
            }
        }
    }

    /// The groups that have arrived in the last state.
    pub fn arrived_passengers(&self) -> (r: &IdSet)
        requires
            self.0@.len() > 0,
        ensures
            *r == self.0@.last().p_arrived,
    {
        &self.0[self.0.len() - 1].p_arrived
    }

    /// The delay of each group in the last state.
    pub fn delays(&self) -> (r: Vec<TimeDiff>)
        requires
            self.0@.len() > 0,
        ensures
            r@ == self.0@.last().p_delays@,
    {
        copy_vec(&self.0[self.0.len() - 1].p_delays)
    }

    /// Whether the schedule has a last state and no station is overloaded in it.
    pub fn is_legal(&self) -> (r: bool)
        ensures
            r == (self.0@.len() > 0 && self.0@.last().legal_capacities()),
    {
        let len = self.0.len();
        if len == 0 {
            false
        } else {
            self.0[len - 1].is_legal()
        }
    }

    /// The total delay of the schedule: the sum of the positive delays of
    /// the last state.
    pub fn fitness(&self) -> (r: TimeDiff)
        ensures
            r == self.total_delay(),
            r >= 0,
    {
        let len = self.0.len();
        if len == 0 {
            return TimeDiff::MAX;
        }
        total_delay(&self.0[len - 1].p_delays)
    }

    /// A copy of the schedule.
    pub fn snapshot(&self, model: &Model) -> (r: Solution)
        requires
            self.wf(model),
        ensures
            r.wf(model),
            r.0@.len() == self.0@.len(),
            forall|k: int| 0 <= k < self.0@.len() ==> (#[trigger] r.0@[k]).mirrors(self.0@[k]),
    {
        let mut states: Vec<State> = Vec::new();
        let mut k: usize = 0;
        while k < self.0.len()
            invariant
                self.wf(model),
                0 <= k <= self.0@.len(),
                states@.len() == k,
                forall|j: int| 0 <= j < k ==> (#[trigger] states@[j]).mirrors(self.0@[j]),
                forall|j: int| 0 <= j < k ==> (#[trigger] states@[j]).inv(model),
            decreases self.0@.len() - k,
        {
            let copy = self.0[k].snapshot();
            proof {
                crate::state::lemma_mirror_inv(self.0@[k as int], copy, model);
            }
            states.push(copy);
            k = k + 1;
        }
        Solution(states)
    }
}

/// The sum of the positive values of `delays`, capped at `TimeDiff::MAX`.
pub fn total_delay(delays: &Vec<TimeDiff>) -> (r: TimeDiff)
    ensures
        r == if positive_sum(delays@) > i32::MAX {
            i32::MAX as int
        } else {
            positive_sum(delays@)
        },
        r >= 0,
{
    let mut total: TimeDiff = 0;
    let mut i: usize = 0;
    while i < delays.len()
        invariant
            0 <= i <= delays@.len(),
            positive_sum(delays@.subrange(0, i as int)) >= 0,
            total == if positive_sum(delays@.subrange(0, i as int)) > i32::MAX {
                i32::MAX as int
            } else {
                positive_sum(delays@.subrange(0, i as int))
            },
        decreases delays@.len() - i,
    {
        proof {
            assert(delays@.subrange(0, i + 1).drop_last() =~= delays@.subrange(0, i as int));
        }
        if delays[i] > 0 {
            if total as i64 + delays[i] as i64 > TimeDiff::MAX as i64 {
                total = TimeDiff::MAX;
            } else {
                total = total + delays[i];
            }
        }
        i = i + 1;
    }
    proof {
        assert(delays@.subrange(0, delays@.len() as int) =~= delays@);
    }
    total
}

} // verus!
