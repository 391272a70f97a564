use crate::station::Id as SId;
use crate::train::Id as TId;
use crate::types;
use vstd::prelude::*;

verus! {

pub type Id = types::Id;

pub type Capacity = types::Capacity;

pub type GroupSize = Capacity;

pub type ArrivalTime = types::Time;

/// Where a passenger group is.
#[derive(Clone, Copy, Debug, Hash, PartialEq, Eq, Structural)]
pub enum Location {
    Arrived,
    Train(TId),
    Station(SId),
}

/// A passenger group travelling from `start` to `destination` as one unit.
#[derive(Clone, Debug)]
pub struct Passenger {
    pub name: String,
    pub start: SId,
    pub destination: SId,
    pub size: GroupSize,
    /// The time by which the group should have arrived.
    pub arrival: ArrivalTime,
}

/// The kind of a passenger location, without its data.
#[derive(Clone, Copy, Debug, PartialEq, Eq, Structural)]
pub enum LocationType {
    Nothing,
    Station,
    Train,
    Arrived,
}

} // verus!
