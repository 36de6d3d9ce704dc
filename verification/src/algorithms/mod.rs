//! The move-choosing strategies and how one is picked by its id.

pub mod greedy;
pub mod expectimax;

use vstd::prelude::*;
use crate::board::Board;
use crate::tables::Tables;

verus! {

/// A move-choosing strategy.
#[derive(Clone, Copy, Debug, PartialEq, Eq, Structural)]
pub enum AlgorithmId {
    Expectimax,
    Greedy,
}

/// The strategy an id selects: 1 is greedy, every other id expectimax.
pub open spec fn algorithm_of(id: int) -> AlgorithmId {
    if id == 1 {
        AlgorithmId::Greedy
    } else {
        AlgorithmId::Expectimax
    }
}

/// The id of a strategy: 0 for expectimax, 1 for greedy.
pub open spec fn id_of(algorithm: AlgorithmId) -> int {
    match algorithm {
        AlgorithmId::Expectimax => 0,
        AlgorithmId::Greedy => 1,
    }
}

impl AlgorithmId {
    /// The strategy an id selects (see `algorithm_of`).
    pub fn from_i32(id: i32) -> (a: Self)
        ensures
            a == algorithm_of(id as int),
    {
        match id {
            0 => Self::Expectimax,
            1 => Self::Greedy,
            _ => Self::Expectimax,
        }
    }

    /// The id of a strategy (see `id_of`).
    pub fn as_i32(self) -> (id: i32)
        ensures
            id == id_of(self),
    {
        match self {
            Self::Expectimax => 0,
            Self::Greedy => 1,
        }
    }
}

/// What a strategy reports with its move: the move (-1 for none), the search
/// depth, the nodes it looked at and its cache hits.
#[derive(Clone, Copy, Debug)]
pub struct MoveResult {
    pub algorithm: AlgorithmId,
    pub move_id: i32,
    pub depth: i32,
    pub nodes: u64,
    pub cache_hits: u32,
}

/// The id of the strategy that an id selects: 1 stays 1, every other id becomes 0.
pub fn normalize_algorithm_id(id: i32) -> (n: i32)
    ensures
        n == id_of(algorithm_of(id as int)),
        n == if id == 1 { 1int } else { 0int },
{
    AlgorithmId::from_i32(id).as_i32()
}

/// Chooses a move with the given strategy. The expectimax search works in
/// floating point and is run by the caller: for it this returns `None`.
pub fn choose_move_with_algorithm(tables: &Tables, algorithm: AlgorithmId, board: Board) -> (r: Option<MoveResult>)
    requires
        tables.wf(),
    ensures
        algorithm == AlgorithmId::Expectimax ==> r is None,
        algorithm == AlgorithmId::Greedy ==> r is Some && greedy::is_greedy_choice(r->Some_0, board),
{
    match algorithm {
        AlgorithmId::Expectimax => None,
        AlgorithmId::Greedy => Some(greedy::choose_move(tables, board)),
    }
}

} // verus!
