//! The engine's settings and the statistics of its last move: which strategy
//! is selected, how large the expectimax transposition table may be, and what
//! the last search reported.

use vstd::prelude::*;
use crate::board::Board;
use crate::tables::Tables;
use crate::algorithms::{AlgorithmId, MoveResult, algorithm_of, id_of, choose_move_with_algorithm, normalize_algorithm_id};
use crate::algorithms::greedy::is_greedy_choice;
use crate::algorithms::expectimax::{DEFAULT_TRANS_TABLE_CAPACITY, MIN_TRANS_TABLE_CAPACITY, MAX_TRANS_TABLE_CAPACITY, clamp_trans_table_capacity};

verus! {

/// The id that an id normalizes to: 1 (greedy) stays, every other id is 0 (expectimax).
pub open spec fn normalized_id(id: int) -> int {
    id_of(algorithm_of(id))
}

/// A capacity kept within the allowed range.
pub open spec fn clamped_capacity(capacity: int) -> int {
    if capacity < MIN_TRANS_TABLE_CAPACITY {
        MIN_TRANS_TABLE_CAPACITY as int
    } else if capacity > MAX_TRANS_TABLE_CAPACITY {
        MAX_TRANS_TABLE_CAPACITY as int
    } else {
        capacity
    }
}

/// The selected strategy, the transposition table capacity and what the last
/// recorded move reported.
pub struct Engine {
    pub current_algorithm: i32,
    pub last_algorithm: i32,
    pub last_nodes: u64,
    pub last_cache_hits: u32,
    pub last_depth: i32,
    pub trans_table_capacity: usize,
}

impl Engine {
    /// Expectimax selected, the default capacity, nothing recorded yet.
    pub fn new() -> (e: Self)
        ensures
            e.current_algorithm == 0,
            e.last_algorithm == 0,
            e.last_nodes == 0,
            e.last_cache_hits == 0,
            e.last_depth == 0,
            e.trans_table_capacity == DEFAULT_TRANS_TABLE_CAPACITY,
    {
        Engine {
            current_algorithm: 0,
            last_algorithm: 0,
            last_nodes: 0,
            last_cache_hits: 0,
            last_depth: 0,
            trans_table_capacity: DEFAULT_TRANS_TABLE_CAPACITY,
        }
    }

    /// Selects the strategy that `id` names and returns its normalized id.
    pub fn set_algorithm(&mut self, id: i32) -> (n: i32)
        ensures
            n == normalized_id(id as int),
            final(self).current_algorithm == n,
            final(self).last_algorithm == old(self).last_algorithm,
            final(self).last_nodes == old(self).last_nodes,
            final(self).last_cache_hits == old(self).last_cache_hits,
            final(self).last_depth == old(self).last_depth,
            final(self).trans_table_capacity == old(self).trans_table_capacity,
    {
        let normalized = normalize_algorithm_id(id);
        self.current_algorithm = normalized;
        normalized
    }

    /// The normalized id of the selected strategy.
    pub fn current_algorithm(&self) -> (n: i32)
        ensures
            n == normalized_id(self.current_algorithm as int),
    {
        normalize_algorithm_id(self.current_algorithm)
    }

    /// The id of the strategy that made the last recorded move.
    pub fn last_algorithm(&self) -> (n: i32)
        ensures
            n == self.last_algorithm,
    {
        self.last_algorithm
    }

    /// The nodes the last recorded search looked at.
    pub fn last_nodes(&self) -> (n: u64)
        ensures
            n == self.last_nodes,
    {
        self.last_nodes
    }

    /// The cache hits of the last recorded search.
    pub fn last_cache_hits(&self) -> (n: u32)
        ensures
            n == self.last_cache_hits,
    {
        self.last_cache_hits
    }

    /// The depth of the last recorded search.
    pub fn last_depth(&self) -> (n: i32)
        ensures
            n == self.last_depth,
    {
        self.last_depth
    }

    /// Keeps what a search reported as the statistics of the last move.
    pub fn record_result(&mut self, result: MoveResult)
        ensures
            final(self).last_algorithm == id_of(result.algorithm),
            final(self).last_nodes == result.nodes,
            final(self).last_cache_hits == result.cache_hits,
            final(self).last_depth == result.depth,
            final(self).current_algorithm == old(self).current_algorithm,
            final(self).trans_table_capacity == old(self).trans_table_capacity,
    {
        self.last_algorithm = result.algorithm.as_i32();
        self.last_nodes = result.nodes;
        self.last_cache_hits = result.cache_hits;
        self.last_depth = result.depth;
    }

    /// Sets the transposition table capacity, kept within the allowed range.
    pub fn set_trans_table_capacity(&mut self, capacity: usize)
        ensures
            final(self).trans_table_capacity == clamped_capacity(capacity as int),
            final(self).current_algorithm == old(self).current_algorithm,
            final(self).last_algorithm == old(self).last_algorithm,
            final(self).last_nodes == old(self).last_nodes,
            final(self).last_cache_hits == old(self).last_cache_hits,
            final(self).last_depth == old(self).last_depth,
    {
        self.trans_table_capacity = clamp_trans_table_capacity(capacity);
    }

    /// The transposition table capacity.
    pub fn trans_table_capacity(&self) -> (c: usize)
        ensures
            c == self.trans_table_capacity,
    {
        self.trans_table_capacity
    }

    /// Chooses a move with the selected strategy and records its statistics.
    /// The expectimax search works in floating point and is run by the
    /// caller, which then records its result: for it this returns `None` and
    /// changes nothing.
    pub fn choose_move(&mut self, tables: &Tables, board: Board) -> (m: Option<i32>)
        requires
            tables.wf(),
        ensures
            algorithm_of(old(self).current_algorithm as int) == AlgorithmId::Expectimax ==> m is None
                && *final(self) == *old(self),
            algorithm_of(old(self).current_algorithm as int) == AlgorithmId::Greedy ==> m is Some
                && exists|res: MoveResult| #[trigger] is_greedy_choice(res, board)
                    && m == Some(res.move_id)
                    && final(self).last_algorithm == id_of(AlgorithmId::Greedy)
                    && final(self).last_nodes == res.nodes
                    && final(self).last_cache_hits == res.cache_hits
                    && final(self).last_depth == res.depth,
            final(self).current_algorithm == old(self).current_algorithm,
            final(self).trans_table_capacity == old(self).trans_table_capacity,
    {
        let algorithm = AlgorithmId::from_i32(self.current_algorithm());
        match choose_move_with_algorithm(tables, algorithm, board) {
            Some(result) => {
                self.record_result(result);
                Some(result.move_id)
            },
            None => None,
        }
    }
}

/// Normalizing is idempotent: the id that selecting a strategy returns is the
/// one the engine reports as selected afterwards.
pub proof fn lemma_set_then_current(id: int)
    ensures
        normalized_id(normalized_id(id)) == normalized_id(id),
        normalized_id(id) == 0 || normalized_id(id) == 1,
{
}

/// A strategy's id selects that strategy again.
pub proof fn lemma_algorithm_id_round_trip(a: AlgorithmId)
    ensures
        algorithm_of(id_of(a)) == a,
        normalized_id(id_of(a)) == id_of(a),
{
}

} // verus!
