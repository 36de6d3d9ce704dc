//! Tile statistics of a board: how many tiles of each rank, and the sum of
//! the tile values.

use vstd::prelude::*;
use vstd::arithmetic::power2::{pow2, lemma2_to64, lemma_pow2_strictly_increases};
use crate::board::{Board, cell, shifted_by, lemma_shifted_step, lemma_shifted_ends, lemma_cell_bound};

verus! {

/// The value of a tile of rank `r` (0 for an empty cell).
pub open spec fn tile_value(r: u64) -> int {
    if r == 0 {
        0
    } else {
        pow2(r as nat) as int
    }
}

/// Sum of the tile values of the first `n` cells.
pub open spec fn cells_sum(b: u64, n: nat) -> int
    decreases n,
{
    if n == 0 {
        0
    } else {
        cells_sum(b, (n - 1) as nat) + tile_value(cell(b, n - 1))
    }
}

/// Sum of the tile values on a board.
pub open spec fn board_sum(b: u64) -> int {
    cells_sum(b, 16)
}

/// Number of cells among the first `n` that hold rank `r`.
pub open spec fn rank_count(b: u64, r: int, n: nat) -> nat
    decreases n,
{
    if n == 0 {
        0
    } else {
        rank_count(b, r, (n - 1) as nat) + if cell(b, n - 1) == r { 1nat } else { 0nat }
    }
}

/// Number of tiles of rank `r` on a board.
pub open spec fn count_of(b: u64, r: int) -> nat {
    rank_count(b, r, 16)
}

/// Sum over the ranks `1..n` of count times tile value.
pub open spec fn counts_sum(counts: Seq<u8>, n: nat) -> int
    decreases n,
{
    if n <= 1 {
        0
    } else {
        counts_sum(counts, (n - 1) as nat) + counts[n - 1] * pow2((n - 1) as nat)
    }
}

/// Sum of `counts[start..end]`.
pub open spec fn range_sum(counts: Seq<u8>, start: int, end: int) -> int
    decreases end - start,
{
    if end <= start {
        0
    } else {
        range_sum(counts, start, end - 1) + counts[end - 1]
    }
}

pub proof fn lemma_pow2_bound(r: u64)
    requires
        r < 16,
    ensures
        1 <= pow2(r as nat) <= 32768,
{
    lemma2_to64();
    if r < 15 {
        lemma_pow2_strictly_increases(r as nat, 15);
    }
    vstd::arithmetic::power2::lemma_pow2_pos(r as nat);
}

proof fn lemma_i32_shl(r: u32)
    by (bit_vector)
    requires
        r < 16,
    ensures
        (1i32 << r) == (1u32 << r) as i32,
        (1u32 << r) <= 32768,
{
}

/// `1 << r` for a rank, as an `i32`, is `2^r`.
pub proof fn lemma_shl_pow2(r: u32)
    requires
        r < 16,
    ensures
        (1i32 << r) == pow2(r as nat),
        (1u32 << r) == pow2(r as nat),
        1 <= pow2(r as nat) <= 32768,
{
    lemma_i32_shl(r);
    lemma_pow2_bound(r as u64);
    vstd::bits::lemma_u32_shl_is_mul(1, r);
}

/// Adds up the values of the tiles on the board.
pub fn get_board_sum(board: Board) -> (sum: i32)
    ensures
        sum == board_sum(board),
        0 <= sum <= 524288,
{
    let ghost b0 = board;
    let mut board = board;
    let mut sum = 0i32;
    let mut k = 0usize;
    proof {
        lemma_shifted_ends(board, b0, 0);
    }
    while k < 16
        invariant
            k <= 16,
            shifted_by(board, b0, k as int),
            sum == cells_sum(b0, k as nat),
            0 <= sum <= k * 32768,
        decreases 16 - k,
    {
        proof {
            lemma_shifted_step(board, b0, k as int);
        }
        let rank = (board & 0xf) as u32;
        if rank > 0 {
            proof {
                lemma_shl_pow2(rank);
            }
            sum += 1i32 << rank;
        }
        board >>= 4;
        k += 1;
    }
    sum
}

/// Counts the tiles of each rank (index 0 counts the empty cells).
pub fn tile_counts(board: Board) -> (counts: [u8; 16])
    ensures
        forall|r: int| 0 <= r < 16 ==> #[trigger] counts@[r] == count_of(board, r),
{
    let ghost b0 = board;
    let mut board = board;
    let mut counts = [0u8; 16];
    let mut k = 0usize;
    proof {
        lemma_shifted_ends(board, b0, 0);
    }
    while k < 16
        invariant
            k <= 16,
            shifted_by(board, b0, k as int),
            forall|r: int| 0 <= r < 16 ==> #[trigger] counts@[r] == rank_count(b0, r, k as nat),
            forall|r: int| 0 <= r < 16 ==> #[trigger] counts@[r] <= k,
        decreases 16 - k,
    {
        proof {
            lemma_shifted_step(board, b0, k as int);
        }
        let idx = (board & 0xf) as usize;
        counts[idx] += 1;
        board >>= 4;
        k += 1;
    }
    counts
}

/// The sum of the tile values, computed from the counts of each rank.
pub fn board_sum_from_counts(counts: [u8; 16]) -> (sum: i32)
    ensures
        sum == counts_sum(counts@, 16),
        sum >= 0,
{
    let mut sum = 0i32;
    let mut rank = 1usize;
    while rank < 16
        invariant
            1 <= rank <= 16,
            sum == counts_sum(counts@, rank as nat),
            0 <= sum <= 8355840 * (rank - 1),
        decreases 16 - rank,
    {
        proof {
            lemma_shl_pow2(rank as u32);
        }
        let c = counts[rank] as i32;
        let p = 1i32 << rank;
        proof {
            assert(0 <= c * p <= 8355840) by (nonlinear_arith)
                requires
                    0 <= c <= 255,
                    1 <= p <= 32768,
            ;
            assert(8355840 * (rank - 1) + 8355840 == 8355840 * rank);
            assert(8355840 * rank <= 8355840 * 15);
        }
        sum += c * p;
        rank += 1;
    }
    sum
}

/// Sum of `counts[start..end]`.
pub fn sum_counts(counts: &[u8; 16], start: usize, end: usize) -> (s: u16)
    requires
        start <= end <= 16,
    ensures
        s == range_sum(counts@, start as int, end as int),
        s <= (end - start) * 255,
{
    let mut s = 0u16;
    let mut i = start;
    while i < end
        invariant
            start <= i <= end <= 16,
            s == range_sum(counts@, start as int, i as int),
            s <= (i - start) * 255,
        decreases end - i,
    {
        s += counts[i] as u16;
        i += 1;
    }
    s
}

/// The largest of `counts[start..end]`, 0 for an empty range.
pub fn max_counts(counts: &[u8; 16], start: usize, end: usize) -> (m: u8)
    requires
        start <= end <= 16,
    ensures
        forall|i: int| start <= i < end ==> #[trigger] counts@[i] <= m,
        start < end ==> exists|i: int| start <= i < end && #[trigger] counts@[i] == m,
        start == end ==> m == 0,
{
    let mut m = 0u8;
    let mut i = start;
    while i < end
        invariant
            start <= i <= end <= 16,
            forall|t: int| start <= t < i ==> #[trigger] counts@[t] <= m,
            start < i ==> exists|t: int| start <= t < i && #[trigger] counts@[t] == m,
            start == i ==> m == 0,
        decreases end - i,
    {
        if counts[i] > m || i == start {
            m = counts[i];
        }
        i += 1;
    }
    m
}


/// Sum over the ranks `1..m` of the number of the first `n` cells holding the
/// rank times its tile value.
spec fn rank_weighted(b: u64, n: nat, m: nat) -> int
    decreases m,
{
    if m <= 1 {
        0
    } else {
        rank_weighted(b, n, (m - 1) as nat) + rank_count(b, m - 1, n) * pow2((m - 1) as nat)
    }
}

/// Sum over the ranks `1..m` of the tile value of the ranks equal to `c`.
spec fn indicator_sum(c: u64, m: nat) -> int
    decreases m,
{
    if m <= 1 {
        0
    } else {
        indicator_sum(c, (m - 1) as nat) + if c == m - 1 { pow2((m - 1) as nat) as int } else { 0 }
    }
}

proof fn lemma_indicator_sum(c: u64, m: nat)
    ensures
        indicator_sum(c, m) == if 1 <= c < m { pow2(c as nat) as int } else { 0 },
    decreases m,
{
    if m > 1 {
        lemma_indicator_sum(c, (m - 1) as nat);
    }
}

proof fn lemma_weighted_step(b: u64, n: nat, m: nat)
    ensures
        rank_weighted(b, n + 1, m) == rank_weighted(b, n, m) + indicator_sum(cell(b, n as int), m),
    decreases m,
{
    if m > 1 {
        lemma_weighted_step(b, n, (m - 1) as nat);
        let r = m - 1;
        assert(rank_count(b, r, n + 1) == rank_count(b, r, n) + if cell(b, n as int) == r { 1nat } else { 0nat });
        if cell(b, n as int) == r {
            assert(rank_count(b, r, n + 1) * pow2(r as nat) == rank_count(b, r, n) * pow2(r as nat) + pow2(r as nat)) by (nonlinear_arith)
                requires rank_count(b, r, n + 1) == rank_count(b, r, n) + 1;
        }
    }
}

proof fn lemma_weighted_cells(b: u64, n: nat)
    requires
        n <= 16,
    ensures
        rank_weighted(b, n, 16) == cells_sum(b, n),
    decreases n,
{
    if n == 0 {
        assert forall|m: nat| m <= 16 implies rank_weighted(b, 0, m) == 0 by {
            lemma_weighted_zero(b, m);
        }
    } else {
        lemma_weighted_cells(b, (n - 1) as nat);
        lemma_weighted_step(b, (n - 1) as nat, 16);
        lemma_indicator_sum(cell(b, n - 1), 16);
        lemma_cell_bound(b, n - 1);
    }
}

proof fn lemma_weighted_zero(b: u64, m: nat)
    ensures
        rank_weighted(b, 0, m) == 0,
    decreases m,
{
    if m > 1 {
        lemma_weighted_zero(b, (m - 1) as nat);
        assert(rank_count(b, m - 1, 0) == 0);
        assert(rank_count(b, m - 1, 0) * pow2((m - 1) as nat) == 0);
    }
}

proof fn lemma_counts_weighted(counts: Seq<u8>, b: u64, m: nat)
    requires
        m <= 16,
        counts.len() == 16,
        forall|r: int| 0 <= r < 16 ==> #[trigger] counts[r] == count_of(b, r),
    ensures
        counts_sum(counts, m) == rank_weighted(b, 16, m),
    decreases m,
{
    if m > 1 {
        lemma_counts_weighted(counts, b, (m - 1) as nat);
        assert(counts[m - 1] == count_of(b, m - 1));
    }
}

/// The tile sum from the tile counts is the board's tile sum: weighting each
/// rank's count by its tile value adds up the tiles one by one.
pub proof fn lemma_sum_from_counts(b: u64, counts: Seq<u8>)
    requires
        counts.len() == 16,
        forall|r: int| 0 <= r < 16 ==> #[trigger] counts[r] == count_of(b, r),
    ensures
        counts_sum(counts, 16) == board_sum(b),
{
    lemma_counts_weighted(counts, b, 16);
    lemma_weighted_cells(b, 16);
}

/// A rank occurs on at most `n` of the first `n` cells.
pub proof fn lemma_rank_count_bound(b: u64, r: int, n: nat)
    ensures
        rank_count(b, r, n) <= n,
    decreases n,
{
    if n > 0 {
        lemma_rank_count_bound(b, r, (n - 1) as nat);
    }
}

/// Tile values add up to no less than zero.
pub proof fn lemma_cells_sum_nonneg(b: u64, n: nat)
    ensures
        cells_sum(b, n) >= 0,
    decreases n,
{
    if n > 0 {
        lemma_cells_sum_nonneg(b, (n - 1) as nat);
        if cell(b, n - 1) != 0 {
            vstd::arithmetic::power2::lemma_pow2_pos(cell(b, n - 1) as nat);
        }
    }
}

} // verus!
