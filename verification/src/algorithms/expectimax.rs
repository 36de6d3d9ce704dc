//! The integer parts of the expectimax search: how large its transposition
//! table may be, and how deep it searches a board.

use vstd::prelude::*;
use crate::board::{Board, count_distinct_tiles, num_distinct_tiles};

verus! {

pub const DEFAULT_TRANS_TABLE_CAPACITY: usize = 1048576;

pub const MIN_TRANS_TABLE_CAPACITY: usize = 4096;

pub const MAX_TRANS_TABLE_CAPACITY: usize = 1048576;

/// A requested transposition table capacity, kept within the allowed range.
pub fn clamp_trans_table_capacity(capacity: usize) -> (c: usize)
    ensures
        c == if capacity < MIN_TRANS_TABLE_CAPACITY {
            MIN_TRANS_TABLE_CAPACITY
        } else if capacity > MAX_TRANS_TABLE_CAPACITY {
            MAX_TRANS_TABLE_CAPACITY
        } else {
            capacity
        },
{
    capacity.max(MIN_TRANS_TABLE_CAPACITY).min(MAX_TRANS_TABLE_CAPACITY)
}

/// How deep the search goes on a board: two less than the number of
/// distinct tiles, and at least 3.
pub fn depth_limit(board: Board) -> (d: i32)
    ensures
        d == if num_distinct_tiles(board) - 2 > 3 { num_distinct_tiles(board) - 2 } else { 3 },
{
    3i32.max(count_distinct_tiles(board) - 2)
}

} // verus!
