use crate::connection::Id as CId;
use crate::passenger::Id as PId;
use crate::station::Id as SId;
use crate::train::Id as TId;
use vstd::prelude::*;

verus! {

/// Marks the types of atomic moves.
pub trait MoveTr {}

/// Passenger group `p_id` boards train `t_id` at station `s_id`.
#[derive(Clone, Copy, Debug, Hash, PartialEq, Eq, Structural)]
pub struct Board {
    pub t_id: TId,
    pub p_id: PId,
    pub s_id: SId,
}

impl MoveTr for Board {}

/// Passenger group `p_id` leaves train `t_id` at station `s_id`.
#[derive(Clone, Copy, Debug, Hash, PartialEq, Eq, Structural)]
pub struct Detrain {
    pub t_id: TId,
    pub p_id: PId,
    pub s_id: SId,
}

impl MoveTr for Detrain {}

/// Train `t_id` leaves station `from` on connection `c_id` towards `to`.
#[derive(Clone, Copy, Debug, Hash, PartialEq, Eq, Structural)]
pub struct Depart {
    pub t_id: TId,
    pub from: SId,
    pub to: SId,
    pub c_id: CId,
}

impl MoveTr for Depart {}

/// Train `t_id`, not yet placed, is placed at station `s_id`.
#[derive(Clone, Copy, Debug, Hash, PartialEq, Eq, Structural)]
pub struct Start {
    pub t_id: TId,
    pub s_id: SId,
}

impl MoveTr for Start {}

/// No move.
#[derive(Clone, Copy, Debug, Hash, PartialEq, Eq, Structural)]
pub struct NoMove();

impl MoveTr for NoMove {}

/// One of the atomic actions of a train or passenger group.
#[derive(Clone, Copy, Debug, Hash, PartialEq, Eq, Structural)]
pub enum Move {
    Board(Board),
    Detrain(Detrain),
    Depart(Depart),
    Start(Start),
    NoMove(NoMove),
}

} // verus!
