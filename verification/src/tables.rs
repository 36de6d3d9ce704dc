//! The move tables: for each of the 65536 rows, what a move towards either
//! end does to it, as an xor mask, laid out as a row (left, right) or as a
//! column (up, down); and the tile points of each row.

use vstd::prelude::*;
use vstd::arithmetic::power2::pow2;
use crate::board::{Board, Row, ROW_MASK, cell, row_cell, in_first_col, reverse_row, unpack_col, transpose, is_reversed_row, is_transposed, row_of, lemma_row_cell_xor, lemma_cell_xor, lemma_reversed_exists, lemma_reversed_facts, lemma_field_bounds, lemma_cell_bound, lemma_xor_cancel, lemma_insert_row, lemma_insert_col, lemma_row_of, lemma_all_ones, lemma_row_of_small, lemma_board_ext};
use crate::line::{slide, slide_line, ranks_ok, lemma_slide_shape, compact, merges_top, line_value, lemma_slide_keeps_value};

verus! {

/// The cells of a row, front (cell 0) first.
pub open spec fn row_line(row: u16) -> Seq<u32> {
    seq![row_cell(row, 0) as u32, row_cell(row, 1) as u32, row_cell(row, 2) as u32, row_cell(row, 3) as u32]
}

/// A line of four read back to front.
pub open spec fn rev_line(s: Seq<u32>) -> Seq<u32> {
    seq![s[3], s[2], s[1], s[0]]
}

/// The cells of a row after a move towards cell 0.
pub open spec fn slid_left(row: u16) -> Seq<u32> {
    slide(row_line(row))
}

/// The cells of a row after a move towards cell 3.
pub open spec fn slid_right(row: u16) -> Seq<u32> {
    rev_line(slide(rev_line(row_line(row))))
}

/// `entry` is the xor mask taking `row` to the cells `res`.
pub open spec fn row_entry_ok(entry: u16, row: u16, res: Seq<u32>) -> bool {
    forall|i: int| 0 <= i < 4 ==> #[trigger] row_cell(entry, i) as u32 == (row_cell(row, i) as u32) ^ res[i]
}

/// `entry` is the xor mask, laid down column 0, taking `row` (read down the column) to `res`.
pub open spec fn col_entry_ok(entry: u64, row: u16, res: Seq<u32>) -> bool {
    &&& forall|i: int| 0 <= i < 4 ==> #[trigger] cell(entry, 4 * i) as u32 == (row_cell(row, i) as u32) ^ res[i]
    &&& in_first_col(entry)
}

/// Points of one tile: merging two tiles of rank `r - 1` into a tile of rank
/// `r` scores `2^r`, and a tile of rank `r` took `r - 1` such merges to build.
pub open spec fn rank_points(r: u32) -> int {
    if r >= 2 {
        (r - 1) * pow2(r as nat)
    } else {
        0
    }
}

/// Points of the four tiles of a row.
pub open spec fn row_points(row: u16) -> int {
    rank_points(row_cell(row, 0) as u32) + rank_points(row_cell(row, 1) as u32) + rank_points(
        row_cell(row, 2) as u32,
    ) + rank_points(row_cell(row, 3) as u32)
}

pub struct Tables {
    pub row_left: Vec<u16>,
    pub row_right: Vec<u16>,
    pub col_up: Vec<u64>,
    pub col_down: Vec<u64>,
    pub score: Vec<u32>,
}

impl Tables {
    /// Every entry holds what its row calls for.
    pub open spec fn wf(&self) -> bool {
        &&& self.row_left@.len() == 65536
        &&& self.row_right@.len() == 65536
        &&& self.col_up@.len() == 65536
        &&& self.col_down@.len() == 65536
        &&& self.score@.len() == 65536
        &&& forall|r: int| 0 <= r < 65536 ==> row_entry_ok(#[trigger] self.row_left@[r], r as u16, slid_left(r as u16))
        &&& forall|r: int| 0 <= r < 65536 ==> row_entry_ok(#[trigger] self.row_right@[r], r as u16, slid_right(r as u16))
        &&& forall|r: int| 0 <= r < 65536 ==> col_entry_ok(#[trigger] self.col_up@[r], r as u16, slid_left(r as u16))
        &&& forall|r: int| 0 <= r < 65536 ==> col_entry_ok(#[trigger] self.col_down@[r], r as u16, slid_right(r as u16))
        &&& forall|r: int| 0 <= r < 65536 ==> #[trigger] self.score@[r] == row_points(r as u16)
    }
}

fn filled_u16(n: usize) -> (v: Vec<u16>)
    ensures
        v@.len() == n,
{
    let mut v = Vec::new();
    while v.len() < n
        invariant
            v@.len() <= n,
        decreases n - v@.len(),
    {
        v.push(0);
    }
    v
}

fn filled_u64(n: usize) -> (v: Vec<u64>)
    ensures
        v@.len() == n,
{
    let mut v = Vec::new();
    while v.len() < n
        invariant
            v@.len() <= n,
        decreases n - v@.len(),
    {
        v.push(0);
    }
    v
}

fn filled_u32(n: usize) -> (v: Vec<u32>)
    ensures
        v@.len() == n,
{
    let mut v = Vec::new();
    while v.len() < n
        invariant
            v@.len() <= n,
        decreases n - v@.len(),
    {
        v.push(0);
    }
    v
}

proof fn lemma_pack_bits(l0: u32, l1: u32, l2: u32, l3: u32, r: u16)
    by (bit_vector)
    requires
        l0 < 16,
        l1 < 16,
        l2 < 16,
        l3 < 16,
        r == ((l0 << 0u32) | (l1 << 4u32) | (l2 << 8u32) | (l3 << 12u32)) as u16,
    ensures
        ((r >> 0u16) & 0xf) as u32 == l0,
        ((r >> 4u16) & 0xf) as u32 == l1,
        ((r >> 8u16) & 0xf) as u32 == l2,
        ((r >> 12u16) & 0xf) as u32 == l3,
{
}

/// Points of the first `k` cells of a line.
pub open spec fn line_points(s: Seq<u32>, k: nat) -> int
    decreases k,
{
    if k == 0 {
        0
    } else {
        line_points(s, (k - 1) as nat) + rank_points(s[k - 1])
    }
}

/// The points of a row's tiles, added up in 32 bits.
fn row_score_of(line: [u32; 4]) -> (s: u32)
    requires
        ranks_ok(line@),
    ensures
        s == line_points(line@, 4),
{
    let mut row_score = 0u32;
    let mut k = 0usize;
    while k < 4
        invariant
            0 <= k <= 4,
            ranks_ok(line@),
            row_score == line_points(line@, k as nat),
            row_score <= 458752 * k,
        decreases 4 - k,
    {
        let rank = line[k];
        if rank >= 2 {
            proof {
                vstd::arithmetic::power2::lemma2_to64();
                assert(pow2(rank as nat) <= 32768) by {
                    if rank < 15 {
                        vstd::arithmetic::power2::lemma_pow2_strictly_increases(rank as nat, 15);
                    }
                }
                vstd::bits::lemma_u32_shl_is_mul(1, rank);
                assert((1u32 << rank) == pow2(rank as nat));
                assert((rank - 1) * (1u32 << rank) <= 14 * 32768) by (nonlinear_arith)
                    requires
                        2 <= rank < 16,
                        (1u32 << rank) <= 32768,
                ;
            }
            let points = (rank - 1) * (1u32 << rank);
            assert(points <= 458752);
            assert(row_score <= 3 * 458752);
            row_score += points;
        }
        k += 1;
    }
    row_score
}

proof fn lemma_line_bits(row: usize, r16: u16, l0: u32, l1: u32, l2: u32, l3: u32)
    by (bit_vector)
    requires
        row < 65536,
        r16 == row as u16,
        l0 == ((row >> 0usize) & 0xf) as u32,
        l1 == ((row >> 4usize) & 0xf) as u32,
        l2 == ((row >> 8usize) & 0xf) as u32,
        l3 == ((row >> 12usize) & 0xf) as u32,
    ensures
        l0 == ((r16 >> 0u16) & 0xf) as u32,
        l1 == ((r16 >> 4u16) & 0xf) as u32,
        l2 == ((r16 >> 8u16) & 0xf) as u32,
        l3 == ((r16 >> 12u16) & 0xf) as u32,
        l0 < 16 && l1 < 16 && l2 < 16 && l3 < 16,
{
}

proof fn lemma_xor_casts(a: u16, b: u16)
    by (bit_vector)
    ensures
        ((a as u64) ^ (b as u64)) as u32 == (a as u32) ^ (b as u32),
        ((a as u64) ^ (b as u64)) < 16 <== a < 16 && b < 16,
{
}

/// What one row contributes to each table.
struct TableRow {
    left: u16,
    right_index: u16,
    right: u16,
    up: u64,
    down: u64,
    score: u32,
}

fn table_row(row: usize) -> (t: TableRow)
    requires
        row < 65536,
    ensures
        row_entry_ok(t.left, row as u16, slid_left(row as u16)),
        col_entry_ok(t.up, row as u16, slid_left(row as u16)),
        t.score == row_points(row as u16),
        is_reversed_row(t.right_index, row as u16),
        row_entry_ok(t.right, t.right_index, slid_right(t.right_index)),
        col_entry_ok(t.down, t.right_index, slid_right(t.right_index)),
{
    let line = [
        ((row >> 0) & 0xf) as u32,
        ((row >> 4) & 0xf) as u32,
        ((row >> 8) & 0xf) as u32,
        ((row >> 12) & 0xf) as u32,
    ];
    let r16 = row as Row;
    proof {
        lemma_line_bits(row, r16, line[0], line[1], line[2], line[3]);
        assert(line@ =~= row_line(r16));
        assert(ranks_ok(line@));
    }
    let row_score = row_score_of(line);
    let out = slide_line(line);
    let result = ((out[0] << 0) | (out[1] << 4) | (out[2] << 8) | (out[3] << 12)) as Row;
    proof {
        lemma_pack_bits(out[0], out[1], out[2], out[3], result);
        assert forall|i: int| 0 <= i < 4 implies #[trigger] row_cell(result, i) as u32 == out@[i] by {
            if i == 0 {} else if i == 1 {} else if i == 2 {} else {}
        }
        assert(row_line(result) =~= out@);
    }
    let rev_result = reverse_row(result);
    let rev_row = reverse_row(r16);
    let left = r16 ^ result;
    let right = rev_row ^ rev_result;
    let u_row = unpack_col(r16);
    let u_result = unpack_col(result);
    let u_rev_row = unpack_col(rev_row);
    let u_rev_result = unpack_col(rev_result);
    let up = u_row ^ u_result;
    let down = u_rev_row ^ u_rev_result;
    proof {
        assert(row_score == row_points(r16)) by {
            assert(line_points(line@, 0) == 0);
            assert(line_points(line@, 1) == rank_points(line[0]));
            assert(line_points(line@, 2) == rank_points(line[0]) + rank_points(line[1]));
            assert(line_points(line@, 3) == rank_points(line[0]) + rank_points(line[1]) + rank_points(line[2]));
            assert(line_points(line@, 4) == rank_points(line[0]) + rank_points(line[1]) + rank_points(line[2]) + rank_points(line[3]));
        }
        assert forall|i: int| 0 <= i < 4 implies #[trigger] row_cell(left, i) as u32 == (row_cell(r16, i) as u32) ^ slid_left(r16)[i] by {
            lemma_row_cell_xor(r16, result, i);
        }
        // The reversed row slides to the reversed result.
        assert(row_line(rev_row) =~= rev_line(row_line(r16)));
        assert(rev_line(rev_line(row_line(r16))) =~= row_line(r16));
        assert(row_line(rev_result) =~= rev_line(out@));
        assert(slid_right(rev_row) == rev_line(out@));
        assert forall|i: int| 0 <= i < 4 implies #[trigger] row_cell(right, i) as u32 == (row_cell(rev_row, i) as u32) ^ slid_right(rev_row)[i] by {
            lemma_row_cell_xor(rev_row, rev_result, i);
        }
        assert forall|i: int| 0 <= i < 4 implies #[trigger] cell(up, 4 * i) as u32 == (row_cell(r16, i) as u32) ^ slid_left(r16)[i] by {
            lemma_cell_xor(u_row, u_result, 4 * i);
            lemma_xor_casts(row_cell(r16, i), row_cell(result, i));
        }
        assert forall|p: int| 0 <= p < 16 && p % 4 != 0 implies #[trigger] cell(up, p) == 0 by {
            lemma_cell_xor(u_row, u_result, p);
        }
        assert forall|i: int| 0 <= i < 4 implies #[trigger] cell(down, 4 * i) as u32 == (row_cell(rev_row, i) as u32) ^ slid_right(rev_row)[i] by {
            lemma_cell_xor(u_rev_row, u_rev_result, 4 * i);
            lemma_xor_casts(row_cell(rev_row, i), row_cell(rev_result, i));
        }
        assert forall|p: int| 0 <= p < 16 && p % 4 != 0 implies #[trigger] cell(down, p) == 0 by {
            lemma_cell_xor(u_rev_row, u_rev_result, p);
        }
    }
    TableRow { left, right_index: rev_row, right, up, down, score: row_score }
}

/// The tables every move and score lookup reads: built once by the caller
/// and handed to each function that needs them.
pub fn init_tables() -> (t: Tables)
    ensures
        t.wf(),
{
    build_tables()
}

/// Builds the move tables and the row points.
pub fn build_tables() -> (t: Tables)
    ensures
        t.wf(),
{
    let mut row_left = filled_u16(65536);
    let mut row_right = filled_u16(65536);
    let mut col_up = filled_u64(65536);
    let mut col_down = filled_u64(65536);
    let mut score = filled_u32(65536);
    let mut row = 0usize;
    while row < 65536
        invariant
            row <= 65536,
            row_left@.len() == 65536,
            row_right@.len() == 65536,
            col_up@.len() == 65536,
            col_down@.len() == 65536,
            score@.len() == 65536,
            forall|r: int| 0 <= r < row ==> row_entry_ok(#[trigger] row_left@[r], r as u16, slid_left(r as u16)),
            forall|r: int| 0 <= r < row ==> col_entry_ok(#[trigger] col_up@[r], r as u16, slid_left(r as u16)),
            forall|r: int| 0 <= r < row ==> #[trigger] score@[r] == row_points(r as u16),
            forall|r: int, x: u16| 0 <= r < row && #[trigger] is_reversed_row(x, r as u16) ==> {
                &&& row_entry_ok(row_right@[x as int], x, slid_right(x))
                &&& col_entry_ok(col_down@[x as int], x, slid_right(x))
            },
        decreases 65536 - row,
    {
        let t = table_row(row);
        row_left.set(row, t.left);
        col_up.set(row, t.up);
        score.set(row, t.score);
        row_right.set(t.right_index as usize, t.right);
        col_down.set(t.right_index as usize, t.down);
        proof {
            lemma_reversed_facts(t.right_index, row as u16);
            assert forall|r: int, x: u16| 0 <= r < row + 1 && #[trigger] is_reversed_row(x, r as u16) implies {
                &&& row_entry_ok(row_right@[x as int], x, slid_right(x))
                &&& col_entry_ok(col_down@[x as int], x, slid_right(x))
            } by {
                if r < row {
                    if x == t.right_index {
                        assert(r as u16 == row as u16);
                        assert(false);
                    }
                } else {
                    assert(x == t.right_index);
                }
            }
        }
        row += 1;
    }
    proof {
        assert forall|r: int| 0 <= r < 65536 implies row_entry_ok(#[trigger] row_right@[r], r as u16, slid_right(r as u16))
            && col_entry_ok(col_down@[r], r as u16, slid_right(r as u16)) by {
            lemma_reversed_exists(r as u16);
            let rr = choose|rr: u16| #[trigger] is_reversed_row(rr, r as u16);
            lemma_reversed_facts(rr, r as u16);
            assert(is_reversed_row(r as u16, rr as int as u16));
        }
        assert forall|r: int| 0 <= r < 65536 implies col_entry_ok(#[trigger] col_down@[r], r as u16, slid_right(r as u16)) by {
            assert(row_entry_ok(row_right@[r], r as u16, slid_right(r as u16))
                && col_entry_ok(col_down@[r], r as u16, slid_right(r as u16)));
        }
    }
    Tables { row_left, row_right, col_up, col_down, score }
}

/// Cell `i` of line `k` of a board seen from direction `dir`: the line's cell 0
/// is the one the tiles move towards. Directions: 0 up (lines are columns,
/// read top down), 1 down (columns read bottom up), 2 left (rows read left to
/// right), 3 right (rows read right to left).
pub open spec fn line_cell_index(dir: int, k: int, i: int) -> int {
    if dir == 0 {
        4 * i + k
    } else if dir == 1 {
        4 * (3 - i) + k
    } else if dir == 2 {
        4 * k + i
    } else {
        4 * k + 3 - i
    }
}

/// Line `k` of a board seen from direction `dir`.
pub open spec fn board_line(b: u64, dir: int, k: int) -> Seq<u32> {
    seq![
        cell(b, line_cell_index(dir, k, 0)) as u32,
        cell(b, line_cell_index(dir, k, 1)) as u32,
        cell(b, line_cell_index(dir, k, 2)) as u32,
        cell(b, line_cell_index(dir, k, 3)) as u32,
    ]
}

/// `r` is `b` after a move in direction `dir`: every line, seen from that
/// direction, has slid towards its front.
pub open spec fn is_move_result(r: u64, b: u64, dir: int) -> bool {
    forall|k: int, i: int|
        0 <= k < 4 && 0 <= i < 4 ==> #[trigger] cell(r, line_cell_index(dir, k, i)) as u32 == slide(
            board_line(b, dir, k),
        )[i]
}

/// A move in an unknown direction yields a board with every cell at rank 15.
pub open spec fn is_invalid_move_result(r: u64) -> bool {
    r == 0xffff_ffff_ffff_ffffu64
}

proof fn lemma_rows_applied(board: u64, e: Seq<u16>, ret: u64, dir: int)
    requires
        dir == 2 || dir == 3,
        e.len() == 4,
        ret == (((board ^ ((e[0] as u64) << 0u64)) ^ ((e[1] as u64) << 16u64)) ^ ((e[2] as u64) << 32u64)) ^ ((e[3] as u64) << 48u64),
        forall|k: int| 0 <= k < 4 ==> row_entry_ok(#[trigger] e[k], row_of(board, k), if dir == 2 { slid_left(row_of(board, k)) } else { slid_right(row_of(board, k)) }),
    ensures
        is_move_result(ret, board, dir),
{
    let r1 = board ^ ((e[0] as u64) << 0u64);
    let r2 = r1 ^ ((e[1] as u64) << 16u64);
    let r3 = r2 ^ ((e[2] as u64) << 32u64);
    assert forall|k: int, i: int| 0 <= k < 4 && 0 <= i < 4 implies #[trigger] cell(ret, line_cell_index(dir, k, i)) as u32 == slide(board_line(board, dir, k))[i] by {
        let p = line_cell_index(dir, k, i);
        let j = p - 4 * k;
        lemma_insert_row(board, e[0], 0, p);
        lemma_insert_row(r1, e[1], 1, p);
        lemma_insert_row(r2, e[2], 2, p);
        lemma_insert_row(r3, e[3], 3, p);
        assert(cell(ret, p) == cell(board, p) ^ (row_cell(e[k], j) as u64));
        let row = row_of(board, k);
        assert forall|t: int| 0 <= t < 4 implies #[trigger] row_cell(row, t) as u64 == cell(board, 4 * k + t) by {
            lemma_row_of(board, k, t);
        }
        lemma_cell_bound(board, p);
        lemma_row_cell_xor(e[k], e[k], j);
        assert(row_entry_ok(e[k], row, if dir == 2 { slid_left(row) } else { slid_right(row) }));
        if dir == 2 {
            assert(board_line(board, dir, k) =~= row_line(row));
            lemma_xor_cancel(cell(board, p), row_cell(e[k], j) as u64, slid_left(row)[j]);
        } else {
            assert(board_line(board, dir, k) =~= rev_line(row_line(row)));
            lemma_slide_shape(rev_line(row_line(row)));
            assert(slid_right(row)[j] == slide(board_line(board, dir, k))[i]);
            lemma_xor_cancel(cell(board, p), row_cell(e[k], j) as u64, slid_right(row)[j]);
        }
    }
}

proof fn lemma_cols_applied(board: u64, t: u64, e: Seq<u64>, ret: u64, dir: int)
    requires
        dir == 0 || dir == 1,
        is_transposed(t, board),
        e.len() == 4,
        ret == (((board ^ (e[0] << 0u64)) ^ (e[1] << 4u64)) ^ (e[2] << 8u64)) ^ (e[3] << 12u64),
        forall|k: int| 0 <= k < 4 ==> col_entry_ok(#[trigger] e[k], row_of(t, k), if dir == 0 { slid_left(row_of(t, k)) } else { slid_right(row_of(t, k)) }),
    ensures
        is_move_result(ret, board, dir),
{
    let r1 = board ^ (e[0] << 0u64);
    let r2 = r1 ^ (e[1] << 4u64);
    let r3 = r2 ^ (e[2] << 8u64);
    assert forall|k: int, i: int| 0 <= k < 4 && 0 <= i < 4 implies #[trigger] cell(ret, line_cell_index(dir, k, i)) as u32 == slide(board_line(board, dir, k))[i] by {
        let p = line_cell_index(dir, k, i);
        let j = (p - k) / 4;
        assert(p % 4 == k);
        assert(col_entry_ok(e[0], row_of(t, 0), if dir == 0 { slid_left(row_of(t, 0)) } else { slid_right(row_of(t, 0)) }));
        assert(col_entry_ok(e[1], row_of(t, 1), if dir == 0 { slid_left(row_of(t, 1)) } else { slid_right(row_of(t, 1)) }));
        assert(col_entry_ok(e[2], row_of(t, 2), if dir == 0 { slid_left(row_of(t, 2)) } else { slid_right(row_of(t, 2)) }));
        assert(col_entry_ok(e[3], row_of(t, 3), if dir == 0 { slid_left(row_of(t, 3)) } else { slid_right(row_of(t, 3)) }));
        lemma_insert_col(board, e[0], 0, p);
        lemma_insert_col(r1, e[1], 1, p);
        lemma_insert_col(r2, e[2], 2, p);
        lemma_insert_col(r3, e[3], 3, p);
        assert(cell(ret, p) == cell(board, p) ^ cell(e[k], 4 * j));
        let row = row_of(t, k);
        assert forall|m: int| 0 <= m < 4 implies #[trigger] row_cell(row, m) as u64 == cell(board, 4 * m + k) by {
            lemma_row_of(t, k, m);
            assert(cell(t, 4 * k + m) == cell(board, 4 * m + k));
        }
        lemma_cell_bound(board, p);
        lemma_cell_bound(e[k], 4 * j);
        if dir == 0 {
            assert(board_line(board, dir, k) =~= row_line(row));
            lemma_xor_cancel(cell(board, p), cell(e[k], 4 * j), slid_left(row)[j]);
        } else {
            assert(board_line(board, dir, k) =~= rev_line(row_line(row)));
            lemma_slide_shape(rev_line(row_line(row)));
            assert(slid_right(row)[j] == slide(board_line(board, dir, k))[i]);
            lemma_xor_cancel(cell(board, p), cell(e[k], 4 * j), slid_right(row)[j]);
        }
    }
}

/// The index of row `k` of a board in a table.
fn row_index(board: Board, k: u64) -> (i: usize)
    requires
        k < 4,
    ensures
        i < 65536,
        i as u16 == row_of(board, k as int),
        i == (board >> (16 * k)) & ROW_MASK,
{
    proof {
        lemma_field_bounds(board, k as int);
    }
    ((board >> (16 * k)) & ROW_MASK) as usize
}

/// Moves the tiles up.
pub fn execute_move_0(tables: &Tables, board: Board) -> (r: Board)
    requires
        tables.wf(),
    ensures
        is_move_result(r, board, 0),
{
    let mut ret = board;
    let t = transpose(board);
    let e0 = tables.col_up[row_index(t, 0)];
    let e1 = tables.col_up[row_index(t, 1)];
    let e2 = tables.col_up[row_index(t, 2)];
    let e3 = tables.col_up[row_index(t, 3)];
    ret ^= e0 << 0;
    ret ^= e1 << 4;
    ret ^= e2 << 8;
    ret ^= e3 << 12;
    proof {
        lemma_cols_applied(board, t, seq![e0, e1, e2, e3], ret, 0);
    }
    ret
}

/// Moves the tiles down.
pub fn execute_move_1(tables: &Tables, board: Board) -> (r: Board)
    requires
        tables.wf(),
    ensures
        is_move_result(r, board, 1),
{
    let mut ret = board;
    let t = transpose(board);
    let e0 = tables.col_down[row_index(t, 0)];
    let e1 = tables.col_down[row_index(t, 1)];
    let e2 = tables.col_down[row_index(t, 2)];
    let e3 = tables.col_down[row_index(t, 3)];
    ret ^= e0 << 0;
    ret ^= e1 << 4;
    ret ^= e2 << 8;
    ret ^= e3 << 12;
    proof {
        lemma_cols_applied(board, t, seq![e0, e1, e2, e3], ret, 1);
    }
    ret
}

/// Moves the tiles left.
pub fn execute_move_2(tables: &Tables, board: Board) -> (r: Board)
    requires
        tables.wf(),
    ensures
        is_move_result(r, board, 2),
{
    let mut ret = board;
    let e0 = tables.row_left[row_index(board, 0)];
    let e1 = tables.row_left[row_index(board, 1)];
    let e2 = tables.row_left[row_index(board, 2)];
    let e3 = tables.row_left[row_index(board, 3)];
    ret ^= (e0 as Board) << 0;
    ret ^= (e1 as Board) << 16;
    ret ^= (e2 as Board) << 32;
    ret ^= (e3 as Board) << 48;
    proof {
        lemma_rows_applied(board, seq![e0, e1, e2, e3], ret, 2);
    }
    ret
}

/// Moves the tiles right.
pub fn execute_move_3(tables: &Tables, board: Board) -> (r: Board)
    requires
        tables.wf(),
    ensures
        is_move_result(r, board, 3),
{
    let mut ret = board;
    let e0 = tables.row_right[row_index(board, 0)];
    let e1 = tables.row_right[row_index(board, 1)];
    let e2 = tables.row_right[row_index(board, 2)];
    let e3 = tables.row_right[row_index(board, 3)];
    ret ^= (e0 as Board) << 0;
    ret ^= (e1 as Board) << 16;
    ret ^= (e2 as Board) << 32;
    ret ^= (e3 as Board) << 48;
    proof {
        lemma_rows_applied(board, seq![e0, e1, e2, e3], ret, 3);
    }
    ret
}

/// Moves the tiles in direction `move_id` (0 up, 1 down, 2 left, 3 right);
/// any other id yields the board with all bits set.
pub fn execute_move(tables: &Tables, move_id: i32, board: Board) -> (r: Board)
    requires
        tables.wf(),
    ensures
        0 <= move_id < 4 ==> is_move_result(r, board, move_id as int),
        !(0 <= move_id < 4) ==> is_invalid_move_result(r),
{
    match move_id {
        0 => execute_move_0(tables, board),
        1 => execute_move_1(tables, board),
        2 => execute_move_2(tables, board),
        3 => execute_move_3(tables, board),
        _ => {
            proof {
                lemma_all_ones();
            }
            !0
        },
    }
}

/// Points of the tiles in the first `n` cells of a board.
pub open spec fn cells_points(b: u64, n: nat) -> int
    decreases n,
{
    if n == 0 {
        0
    } else {
        cells_points(b, (n - 1) as nat) + rank_points(cell(b, n - 1) as u32)
    }
}

/// Points of all the tiles of a board: what merging them from 2s has scored.
pub open spec fn board_points(b: u64) -> int {
    cells_points(b, 16)
}

proof fn lemma_rank_points_bound(r: u32)
    requires
        r < 16,
    ensures
        0 <= rank_points(r) <= 14 * 32768,
{
    if r >= 2 {
        vstd::arithmetic::power2::lemma2_to64();
        assert(pow2(r as nat) <= 32768) by {
            if r < 15 {
                vstd::arithmetic::power2::lemma_pow2_strictly_increases(r as nat, 15);
            }
        }
        assert((r - 1) * pow2(r as nat) <= 14 * 32768) by (nonlinear_arith)
            requires
                2 <= r < 16,
                pow2(r as nat) <= 32768,
        ;
    }
}

proof fn lemma_row_points_of(b: u64, k: int)
    requires
        0 <= k < 4,
    ensures
        row_points(row_of(b, k)) == cells_points(b, (4 * k + 4) as nat) - cells_points(b, (4 * k) as nat),
        0 <= row_points(row_of(b, k)) <= 4 * 14 * 32768,
{
    let row = row_of(b, k);
    lemma_row_of(b, k, 0);
    lemma_row_of(b, k, 1);
    lemma_row_of(b, k, 2);
    lemma_row_of(b, k, 3);
    lemma_row_cell_xor(row, row, 0);
    lemma_row_cell_xor(row, row, 1);
    lemma_row_cell_xor(row, row, 2);
    lemma_row_cell_xor(row, row, 3);
    lemma_rank_points_bound(row_cell(row, 0) as u32);
    lemma_rank_points_bound(row_cell(row, 1) as u32);
    lemma_rank_points_bound(row_cell(row, 2) as u32);
    lemma_rank_points_bound(row_cell(row, 3) as u32);
    assert(cells_points(b, (4 * k + 1) as nat) == cells_points(b, (4 * k) as nat) + rank_points(cell(b, 4 * k) as u32));
    assert(cells_points(b, (4 * k + 2) as nat) == cells_points(b, (4 * k + 1) as nat) + rank_points(cell(b, 4 * k + 1) as u32));
    assert(cells_points(b, (4 * k + 3) as nat) == cells_points(b, (4 * k + 2) as nat) + rank_points(cell(b, 4 * k + 2) as u32));
    assert(cells_points(b, (4 * k + 4) as nat) == cells_points(b, (4 * k + 3) as nat) + rank_points(cell(b, 4 * k + 3) as u32));
}

/// Adds up the table entries of the four rows of a board.
pub fn score_helper(board: Board, table: &Vec<u32>) -> (s: u32)
    requires
        table@.len() == 65536,
        forall|r: int| 0 <= r < 65536 ==> #[trigger] table@[r] <= 4 * 14 * 32768,
    ensures
        s == table@[row_of(board, 0) as int] + table@[row_of(board, 1) as int] + table@[row_of(
            board,
            2,
        ) as int] + table@[row_of(board, 3) as int],
{
    let a = table[row_index(board, 0)];
    let b = table[row_index(board, 1)];
    let c = table[row_index(board, 2)];
    let d = table[row_index(board, 3)];
    a + b + c + d
}

/// The points of all the tiles on a board, read from the row table.
pub fn score_board(tables: &Tables, board: Board) -> (s: u32)
    requires
        tables.wf(),
    ensures
        s == board_points(board),
{
    proof {
        assert forall|r: int| 0 <= r < 65536 implies #[trigger] tables.score@[r] <= 4 * 14 * 32768 by {
            lemma_row_points_of(r as u64, 0);
            assert(row_of(r as u64, 0) == r as u16) by {
                lemma_row_of_small(r as u64);
            }
        }
        lemma_row_points_of(board, 0);
        lemma_row_points_of(board, 1);
        lemma_row_points_of(board, 2);
        lemma_row_points_of(board, 3);
        assert(cells_points(board, 0) == 0);
    }
    score_helper(board, &tables.score)
}

/// The direction opposite to `dir` (up and down, left and right).
pub open spec fn opposite_dir(dir: int) -> int {
    if dir == 0 {
        1
    } else if dir == 1 {
        0
    } else if dir == 2 {
        3
    } else {
        2
    }
}

/// Each cell lies on a line of each direction.
pub proof fn lemma_cell_on_line(dir: int, p: int)
    requires
        0 <= dir < 4,
        0 <= p < 16,
    ensures
        exists|k: int, i: int| 0 <= k < 4 && 0 <= i < 4 && #[trigger] line_cell_index(dir, k, i) == p,
{
    let r = p / 4;
    let c = p % 4;
    if dir == 0 {
        assert(line_cell_index(dir, c, r) == p);
    } else if dir == 1 {
        assert(line_cell_index(dir, c, 3 - r) == p);
    } else if dir == 2 {
        assert(line_cell_index(dir, r, c) == p);
    } else {
        assert(line_cell_index(dir, r, 3 - c) == p);
    }
}

/// A move has one result: two boards that are both the result of the same
/// move on the same board are equal.
pub proof fn lemma_move_result_unique(r1: u64, r2: u64, b: u64, dir: int)
    requires
        0 <= dir < 4,
        is_move_result(r1, b, dir),
        is_move_result(r2, b, dir),
    ensures
        r1 == r2,
{
    assert forall|p: int| 0 <= p < 16 implies #[trigger] cell(r1, p) == cell(r2, p) by {
        lemma_cell_on_line(dir, p);
        let (k, i) = choose|k: int, i: int| 0 <= k < 4 && 0 <= i < 4 && #[trigger] line_cell_index(dir, k, i) == p;
        assert(cell(r1, line_cell_index(dir, k, i)) as u32 == slide(board_line(b, dir, k))[i]);
        assert(cell(r2, line_cell_index(dir, k, i)) as u32 == slide(board_line(b, dir, k))[i]);
        lemma_cell_bound(r1, p);
        lemma_cell_bound(r2, p);
    }
    lemma_board_ext(r1, r2);
}

/// Turning a board a half turn turns its lines: line `k` seen from `dir` is
/// line `3 - k` of the unturned board seen from the opposite direction.
pub proof fn lemma_half_turn_lines(b: u64, rb: u64)
    requires
        forall|p: int| 0 <= p < 16 ==> #[trigger] cell(rb, p) == cell(b, 15 - p),
    ensures
        forall|dir: int, k: int| 0 <= dir < 4 && 0 <= k < 4 ==> #[trigger] board_line(rb, dir, k) == board_line(b, opposite_dir(dir), 3 - k),
{
    assert forall|dir: int, k: int| 0 <= dir < 4 && 0 <= k < 4 implies #[trigger] board_line(rb, dir, k) == board_line(b, opposite_dir(dir), 3 - k) by {
        assert forall|t: int| 0 <= t < 4 implies line_cell_index(dir, k, t) == 15 - line_cell_index(opposite_dir(dir), 3 - k, t) by {}
        assert(cell(rb, line_cell_index(dir, k, 0)) == cell(b, 15 - line_cell_index(dir, k, 0)));
        assert(cell(rb, line_cell_index(dir, k, 1)) == cell(b, 15 - line_cell_index(dir, k, 1)));
        assert(cell(rb, line_cell_index(dir, k, 2)) == cell(b, 15 - line_cell_index(dir, k, 2)));
        assert(cell(rb, line_cell_index(dir, k, 3)) == cell(b, 15 - line_cell_index(dir, k, 3)));
        assert(board_line(rb, dir, k) =~= board_line(b, opposite_dir(dir), 3 - k));
    }
}

/// Moves commute with the half turn: turning the board, moving in a
/// direction and turning back is the move in the opposite direction.
pub proof fn lemma_move_half_turn(b: u64, rb: u64, x: u64, r: u64, dir: int)
    requires
        0 <= dir < 4,
        forall|p: int| 0 <= p < 16 ==> #[trigger] cell(rb, p) == cell(b, 15 - p),
        is_move_result(x, rb, dir),
        forall|p: int| 0 <= p < 16 ==> #[trigger] cell(r, p) == cell(x, 15 - p),
    ensures
        is_move_result(r, b, opposite_dir(dir)),
{
    let od = opposite_dir(dir);
    assert forall|k: int, i: int| 0 <= k < 4 && 0 <= i < 4 implies #[trigger] cell(r, line_cell_index(od, k, i)) as u32 == slide(board_line(b, od, k))[i] by {
        assert(line_cell_index(od, k, i) == 15 - line_cell_index(dir, 3 - k, i));
        assert forall|t: int| 0 <= t < 4 implies line_cell_index(od, k, t) == 15 - line_cell_index(dir, 3 - k, t) by {}
        assert(board_line(b, od, k) =~= board_line(rb, dir, 3 - k)) by {
            assert(cell(rb, line_cell_index(dir, 3 - k, 0)) == cell(b, 15 - line_cell_index(dir, 3 - k, 0)));
            assert(cell(rb, line_cell_index(dir, 3 - k, 1)) == cell(b, 15 - line_cell_index(dir, 3 - k, 1)));
            assert(cell(rb, line_cell_index(dir, 3 - k, 2)) == cell(b, 15 - line_cell_index(dir, 3 - k, 2)));
            assert(cell(rb, line_cell_index(dir, 3 - k, 3)) == cell(b, 15 - line_cell_index(dir, 3 - k, 3)));
        }
        assert(cell(x, line_cell_index(dir, 3 - k, i)) as u32 == slide(board_line(rb, dir, 3 - k))[i]);
    }
}


/// Moves commute with the transpose: transposing the board, moving left
/// (or right) and transposing back is the move up (or down).
pub proof fn lemma_move_transpose(b: u64, t: u64, x: u64, r: u64, dir: int)
    requires
        dir == 2 || dir == 3,
        is_transposed(t, b),
        is_move_result(x, t, dir),
        is_transposed(r, x),
    ensures
        is_move_result(r, b, dir - 2),
{
    let vd = dir - 2;
    assert forall|k: int, i: int| 0 <= k < 4 && 0 <= i < 4 implies #[trigger] cell(r, line_cell_index(vd, k, i)) as u32 == slide(board_line(b, vd, k))[i] by {
        assert forall|m: int| 0 <= m < 4 implies #[trigger] cell(t, line_cell_index(dir, k, m)) == cell(b, line_cell_index(vd, k, m)) by {
            if dir == 2 {
                assert(cell(t, 4 * k + m) == cell(b, 4 * m + k));
            } else {
                assert(cell(t, 4 * k + (3 - m)) == cell(b, 4 * (3 - m) + k));
            }
        }
        assert(board_line(t, dir, k) =~= board_line(b, vd, k));
        assert(cell(x, line_cell_index(dir, k, i)) as u32 == slide(board_line(t, dir, k))[i]);
        if dir == 2 {
            assert(cell(r, 4 * i + k) == cell(x, 4 * k + i));
        } else {
            assert(cell(r, 4 * (3 - i) + k) == cell(x, 4 * k + (3 - i)));
        }
    }
}

/// A move keeps the total tile value of every line it moves along, unless
/// two tiles of rank 15 merge on that line.
pub proof fn lemma_move_keeps_line_values(r: u64, b: u64, dir: int)
    requires
        0 <= dir < 4,
        is_move_result(r, b, dir),
    ensures
        forall|k: int| 0 <= k < 4 && !merges_top(compact(board_line(b, dir, k)))
            ==> #[trigger] line_value(board_line(r, dir, k)) == line_value(board_line(b, dir, k)),
{
    assert forall|k: int| 0 <= k < 4 && !merges_top(compact(board_line(b, dir, k)))
        implies #[trigger] line_value(board_line(r, dir, k)) == line_value(board_line(b, dir, k)) by {
        let l = board_line(b, dir, k);
        assert(ranks_ok(l)) by {
            lemma_cell_bound(b, line_cell_index(dir, k, 0));
            lemma_cell_bound(b, line_cell_index(dir, k, 1));
            lemma_cell_bound(b, line_cell_index(dir, k, 2));
            lemma_cell_bound(b, line_cell_index(dir, k, 3));
        }
        lemma_slide_shape(l);
        assert(cell(r, line_cell_index(dir, k, 0)) as u32 == slide(l)[0]);
        assert(cell(r, line_cell_index(dir, k, 1)) as u32 == slide(l)[1]);
        assert(cell(r, line_cell_index(dir, k, 2)) as u32 == slide(l)[2]);
        assert(cell(r, line_cell_index(dir, k, 3)) as u32 == slide(l)[3]);
        assert(board_line(r, dir, k) =~= slide(l));
        lemma_slide_keeps_value(l);
    }
}

} // verus!
