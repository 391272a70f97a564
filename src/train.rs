use crate::connection::Id as CId;
use crate::station::Id as SId;
use crate::types;
use vstd::prelude::*;

verus! {

pub type Id = types::Id;

/// Distance covered per time unit, in the unit of connection distances.
pub type Speed = u64;

pub type Capacity = types::Capacity;

/// Where a train starts: at a given station, or wherever the search puts it.
#[derive(Clone, Copy, Debug, PartialEq, Eq, Structural)]
pub enum StartStation {
    Any,
    Station(SId),
}

impl StartStation {
    /// The location a train has before its first move.
    pub fn to_location(&self) -> (r: Location)
        ensures
            r == self.location(),
    {
        match self {
            StartStation::Station(s_id) => Location::Station(*s_id),
            StartStation::Any => Location::Nothing,
        }
    }

    pub open spec fn location(self) -> Location {
        match self {
            StartStation::Station(s_id) => Location::Station(s_id),
            StartStation::Any => Location::Nothing,
        }
    }
}

/// Where a train is.
#[derive(Clone, Copy, Debug, Hash, PartialEq, Eq, Structural)]
pub enum Location {
    /// On connection `.0`, heading to station `.1`, having left at time `.2`.
    Connection(CId, SId, types::Time),
    Station(SId),
    Nothing,
}

impl Location {
    /// The station the train is at or heading to.
    pub fn next_station(&self) -> (r: Option<SId>)
        ensures
            r == match *self {
                Location::Connection(_, s_id, _) => Some(s_id),
                Location::Station(s_id) => Some(s_id),
                Location::Nothing => None::<SId>,
            },
    {
        match self {
            Location::Connection(_, s_id, _) => Some(*s_id),
            Location::Station(s_id) => Some(*s_id),
            Location::Nothing => None,
        }
    }
}

/// A train and its fixed properties.
#[derive(Clone, Debug)]
pub struct Train {
    pub name: String,
    pub start: StartStation,
    pub speed: Speed,
    pub capacity: Capacity,
}

/// The kind of a train location, without its data.
#[derive(Clone, Copy, Debug, PartialEq, Eq, Structural)]
pub enum LocationType {
    Nothing,
    Station,
    Connection,
}

} // verus!
