use crate::types;
use vstd::prelude::*;

verus! {

pub type Id = types::Id;

pub type Capacity = types::Capacity;

/// A station: trains and waiting passenger groups share its capacity.
#[derive(Clone, Debug)]
pub struct Station {
    pub name: String,
    pub capacity: Capacity,
}

} // verus!
