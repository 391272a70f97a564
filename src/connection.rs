use crate::station::Id as SId;
use crate::types;
use vstd::prelude::*;

verus! {

pub type Id = types::Id;

pub type Name = String;

/// Length of a connection, in a fixed unit shared with train speeds.
pub type Distance = u64;

pub type Connections = Vec<Connection>;

/// An undirected connection between station `a` and station `b`.
#[derive(Clone, Debug)]
pub struct Connection {
    /// The name of the connection.
    pub name: Name,
    /// The length of the connection.
    pub distance: Distance,
    /// How many trains may travel on the connection at the same time.
    pub capacity: types::Capacity,
    pub a: SId,
    pub b: SId,
}

} // verus!
