//! The packed board: sixteen 4-bit tile ranks in a `u64`, row-major, the
//! first row in the lowest 16 bits. A rank `r > 0` stands for the tile `2^r`;
//! rank 0 is an empty cell.

use vstd::prelude::*;

verus! {

pub type Board = u64;

pub type Row = u16;

pub const ROW_MASK: Board = 0xffff;

/// The rank held by cell `p` (0..16) of a board; cell `4 * r + c` is row `r`, column `c`.
pub open spec fn cell(board: u64, p: int) -> u64 {
    (board >> ((4 * p) as u64)) & 0xf
}

/// The rank held by cell `i` (0..4) of a packed row.
pub open spec fn row_cell(row: u16, i: int) -> u16 {
    (row >> ((4 * i) as u16)) & 0xf
}

/// Two boards are equal when all their cells are.
pub proof fn lemma_board_ext(a: u64, b: u64)
    requires
        forall|p: int| 0 <= p < 16 ==> #[trigger] cell(a, p) == cell(b, p),
    ensures
        a == b,
{
    assert(cell(a, 0) == cell(b, 0));
    assert(cell(a, 1) == cell(b, 1));
    assert(cell(a, 2) == cell(b, 2));
    assert(cell(a, 3) == cell(b, 3));
    assert(cell(a, 4) == cell(b, 4));
    assert(cell(a, 5) == cell(b, 5));
    assert(cell(a, 6) == cell(b, 6));
    assert(cell(a, 7) == cell(b, 7));
    assert(cell(a, 8) == cell(b, 8));
    assert(cell(a, 9) == cell(b, 9));
    assert(cell(a, 10) == cell(b, 10));
    assert(cell(a, 11) == cell(b, 11));
    assert(cell(a, 12) == cell(b, 12));
    assert(cell(a, 13) == cell(b, 13));
    assert(cell(a, 14) == cell(b, 14));
    assert(cell(a, 15) == cell(b, 15));
    lemma_board_ext_bits(a, b);
}

proof fn lemma_board_ext_bits(a: u64, b: u64)
    by (bit_vector)
    requires
        (a >> 0u64) & 0xf == (b >> 0u64) & 0xf,
        (a >> 4u64) & 0xf == (b >> 4u64) & 0xf,
        (a >> 8u64) & 0xf == (b >> 8u64) & 0xf,
        (a >> 12u64) & 0xf == (b >> 12u64) & 0xf,
        (a >> 16u64) & 0xf == (b >> 16u64) & 0xf,
        (a >> 20u64) & 0xf == (b >> 20u64) & 0xf,
        (a >> 24u64) & 0xf == (b >> 24u64) & 0xf,
        (a >> 28u64) & 0xf == (b >> 28u64) & 0xf,
        (a >> 32u64) & 0xf == (b >> 32u64) & 0xf,
        (a >> 36u64) & 0xf == (b >> 36u64) & 0xf,
        (a >> 40u64) & 0xf == (b >> 40u64) & 0xf,
        (a >> 44u64) & 0xf == (b >> 44u64) & 0xf,
        (a >> 48u64) & 0xf == (b >> 48u64) & 0xf,
        (a >> 52u64) & 0xf == (b >> 52u64) & 0xf,
        (a >> 56u64) & 0xf == (b >> 56u64) & 0xf,
        (a >> 60u64) & 0xf == (b >> 60u64) & 0xf,
    ensures
        a == b,
{
}

/// Two rows are equal when all their cells are.
pub proof fn lemma_row_ext(a: u16, b: u16)
    requires
        forall|i: int| 0 <= i < 4 ==> #[trigger] row_cell(a, i) == row_cell(b, i),
    ensures
        a == b,
{
    assert(row_cell(a, 0) == row_cell(b, 0));
    assert(row_cell(a, 1) == row_cell(b, 1));
    assert(row_cell(a, 2) == row_cell(b, 2));
    assert(row_cell(a, 3) == row_cell(b, 3));
    lemma_row_ext_bits(a, b);
}

proof fn lemma_row_ext_bits(a: u16, b: u16)
    by (bit_vector)
    requires
        (a >> 0u16) & 0xf == (b >> 0u16) & 0xf,
        (a >> 4u16) & 0xf == (b >> 4u16) & 0xf,
        (a >> 8u16) & 0xf == (b >> 8u16) & 0xf,
        (a >> 12u16) & 0xf == (b >> 12u16) & 0xf,
    ensures
        a == b,
{
}

proof fn lemma_reverse_row_bits(row: u16, r: u16)
    by (bit_vector)
    requires
        r == ((row >> 12) & 0x000f) | ((row >> 4) & 0x00f0) | ((row << 4) & 0x0f00) | ((row << 12)
            & 0xf000),
    ensures
        (r >> 0u16) & 0xf == (row >> 12u16) & 0xf,
        (r >> 4u16) & 0xf == (row >> 8u16) & 0xf,
        (r >> 8u16) & 0xf == (row >> 4u16) & 0xf,
        (r >> 12u16) & 0xf == (row >> 0u16) & 0xf,
{
}

/// `r` holds the cells of `row` in reverse order.
pub open spec fn is_reversed_row(r: u16, row: u16) -> bool {
    forall|i: int| 0 <= i < 4 ==> #[trigger] row_cell(r, i) == row_cell(row, 3 - i)
}

/// Reverses the order of the four cells of a row.
pub fn reverse_row(row: Row) -> (r: Row)
    ensures
        is_reversed_row(r, row),
{
    let r = ((row >> 12) & 0x000f) | ((row >> 4) & 0x00f0) | ((row << 4) & 0x0f00) | ((row << 12)
        & 0xf000);
    proof {
        lemma_reverse_row_bits(row, r);
        assert forall|i: int| 0 <= i < 4 implies #[trigger] row_cell(r, i) == row_cell(row, 3 - i) by {
            if i == 0 {
            } else if i == 1 {
            } else if i == 2 {
            } else {
            }
        }
    }
    r
}

/// Reversing a row twice gives the row back.
pub proof fn lemma_reverse_row_involution(row: u16, r: u16, rr: u16)
    requires
        is_reversed_row(r, row),
        is_reversed_row(rr, r),
    ensures
        rr == row,
{
    assert forall|i: int| 0 <= i < 4 implies #[trigger] row_cell(rr, i) == row_cell(row, i) by {
        assert(row_cell(rr, i) == row_cell(r, 3 - i));
        assert(row_cell(r, 3 - i) == row_cell(row, 3 - (3 - i)));
    }
    lemma_row_ext(rr, row);
}


/// `b` holds the cells of `row` down column 0 (cell `i` of the row in row `i`), all else empty.
pub open spec fn is_unpacked_col(b: u64, row: u16) -> bool {
    &&& forall|i: int| 0 <= i < 4 ==> #[trigger] cell(b, 4 * i) == row_cell(row, i) as u64
    &&& forall|p: int| 0 <= p < 16 && p % 4 != 0 ==> #[trigger] cell(b, p) == 0
}

proof fn lemma_unpack_col_bits(row: u16, x: u64, b: u64)
    by (bit_vector)
    requires
        x == row as u64,
        b == (x & 0x000f) | ((x & 0x00f0) << 12) | ((x & 0x0f00) << 24) | ((x & 0xf000) << 36),
    ensures
        (b >> 0u64) & 0xf == ((row >> 0u16) & 0xf) as u64,
        (b >> 16u64) & 0xf == ((row >> 4u16) & 0xf) as u64,
        (b >> 32u64) & 0xf == ((row >> 8u16) & 0xf) as u64,
        (b >> 48u64) & 0xf == ((row >> 12u16) & 0xf) as u64,
        (b >> 4u64) & 0xf == 0,
        (b >> 8u64) & 0xf == 0,
        (b >> 12u64) & 0xf == 0,
        (b >> 20u64) & 0xf == 0,
        (b >> 24u64) & 0xf == 0,
        (b >> 28u64) & 0xf == 0,
        (b >> 36u64) & 0xf == 0,
        (b >> 40u64) & 0xf == 0,
        (b >> 44u64) & 0xf == 0,
        (b >> 52u64) & 0xf == 0,
        (b >> 56u64) & 0xf == 0,
        (b >> 60u64) & 0xf == 0,
{
}

/// Lays the four cells of a row down column 0 of an otherwise empty board.
pub fn unpack_col(row: Row) -> (b: Board)
    ensures
        is_unpacked_col(b, row),
{
    let x = row as Board;
    let b = (x & 0x000f) | ((x & 0x00f0) << 12) | ((x & 0x0f00) << 24) | ((x & 0xf000) << 36);
    proof {
        lemma_unpack_col_bits(row, x, b);
        assert forall|i: int| 0 <= i < 4 implies #[trigger] cell(b, 4 * i) == row_cell(row, i) as u64 by {
            if i == 0 {
            } else if i == 1 {
            } else if i == 2 {
            } else {
            }
        }
        assert forall|p: int| 0 <= p < 16 && p % 4 != 0 implies #[trigger] cell(b, p) == 0 by {
            if p == 1 {
            } else if p == 2 {
            } else if p == 3 {
            } else if p == 5 {
            } else if p == 6 {
            } else if p == 7 {
            } else if p == 9 {
            } else if p == 10 {
            } else if p == 11 {
            } else if p == 13 {
            } else if p == 14 {
            } else {
            }
        }
    }
    b
}

/// `t` is `b` mirrored along its main diagonal: row `r`, column `c` of `t` is row `c`, column `r` of `b`.
pub open spec fn is_transposed(t: u64, b: u64) -> bool {
    forall|r: int, c: int| 0 <= r < 4 && 0 <= c < 4 ==> #[trigger] cell(t, 4 * r + c) == cell(b, 4 * c + r)
}

proof fn lemma_transpose_bits(x: u64, a: u64, t: u64)
    by (bit_vector)
    requires
        a == (x & 0xF0F00F0FF0F00F0F) | ((x & 0x0000F0F00000F0F0) << 12) | ((x & 0x0F0F00000F0F0000) >> 12),
        t == (a & 0xFF00FF0000FF00FF) | ((a & 0x00FF00FF00000000) >> 24) | ((a & 0x00000000FF00FF00) << 24),
    ensures
        (t >> 0u64) & 0xf == (x >> 0u64) & 0xf,
        (t >> 4u64) & 0xf == (x >> 16u64) & 0xf,
        (t >> 8u64) & 0xf == (x >> 32u64) & 0xf,
        (t >> 12u64) & 0xf == (x >> 48u64) & 0xf,
        (t >> 16u64) & 0xf == (x >> 4u64) & 0xf,
        (t >> 20u64) & 0xf == (x >> 20u64) & 0xf,
        (t >> 24u64) & 0xf == (x >> 36u64) & 0xf,
        (t >> 28u64) & 0xf == (x >> 52u64) & 0xf,
        (t >> 32u64) & 0xf == (x >> 8u64) & 0xf,
        (t >> 36u64) & 0xf == (x >> 24u64) & 0xf,
        (t >> 40u64) & 0xf == (x >> 40u64) & 0xf,
        (t >> 44u64) & 0xf == (x >> 56u64) & 0xf,
        (t >> 48u64) & 0xf == (x >> 12u64) & 0xf,
        (t >> 52u64) & 0xf == (x >> 28u64) & 0xf,
        (t >> 56u64) & 0xf == (x >> 44u64) & 0xf,
        (t >> 60u64) & 0xf == (x >> 60u64) & 0xf,
{
}

/// Mirrors a board along its main diagonal (rows become columns).
pub fn transpose(x: Board) -> (t: Board)
    ensures
        is_transposed(t, x),
{
    let a1 = x & 0xF0F00F0FF0F00F0F;
    let a2 = x & 0x0000F0F00000F0F0;
    let a3 = x & 0x0F0F00000F0F0000;
    let a = a1 | (a2 << 12) | (a3 >> 12);
    let b1 = a & 0xFF00FF0000FF00FF;
    let b2 = a & 0x00FF00FF00000000;
    let b3 = a & 0x00000000FF00FF00;
    let t = b1 | (b2 >> 24) | (b3 << 24);
    proof {
        lemma_transpose_bits(x, a, t);
        assert forall|r: int, c: int| 0 <= r < 4 && 0 <= c < 4 implies #[trigger] cell(t, 4 * r + c)
            == cell(x, 4 * c + r) by {
            if r == 0 {
                if c == 0 {} else if c == 1 {} else if c == 2 {} else {}
            } else if r == 1 {
                if c == 0 {} else if c == 1 {} else if c == 2 {} else {}
            } else if r == 2 {
                if c == 0 {} else if c == 1 {} else if c == 2 {} else {}
            } else {
                if c == 0 {} else if c == 1 {} else if c == 2 {} else {}
            }
        }
    }
    t
}

/// Transposing twice gives the board back.
pub proof fn lemma_transpose_involution(b: u64, t: u64, tt: u64)
    requires
        is_transposed(t, b),
        is_transposed(tt, t),
    ensures
        tt == b,
{
    assert forall|p: int| 0 <= p < 16 implies #[trigger] cell(tt, p) == cell(b, p) by {
        let r = p / 4;
        let c = p % 4;
        assert(p == 4 * r + c);
        assert(cell(tt, 4 * r + c) == cell(t, 4 * c + r));
        assert(cell(t, 4 * c + r) == cell(b, 4 * r + c));
    }
    lemma_board_ext(tt, b);
}


/// Number of empty cells among the first `n` cells of a board.
pub open spec fn empty_upto(board: u64, n: nat) -> nat
    decreases n,
{
    if n == 0 {
        0
    } else {
        empty_upto(board, (n - 1) as nat) + if cell(board, n - 1) == 0 { 1nat } else { 0nat }
    }
}

/// Number of empty cells of a board.
pub open spec fn num_empty(board: u64) -> nat {
    empty_upto(board, 16)
}

proof fn lemma_count_empty_no_overflow(x3: u64, x4: u64, x5: u64, x6: u64)
    by (bit_vector)
    requires
        x3 == x3 & 0x1111111111111111,
    ensures
        x3 + (x3 >> 32) <= u64::MAX,
        x4 == x3 + (x3 >> 32) ==> x4 + (x4 >> 16) <= u64::MAX,
        x4 == x3 + (x3 >> 32) && x5 == x4 + (x4 >> 16) ==> x5 + (x5 >> 8) <= u64::MAX,
        x4 == x3 + (x3 >> 32) && x5 == x4 + (x4 >> 16) && x6 == x5 + (x5 >> 8) ==> x6 + (x6 >> 4)
            <= u64::MAX,
{
}

proof fn lemma_count_empty_bits(x: u64, x1: u64, x2: u64, x3: u64, x4: u64, x5: u64, x6: u64, x7: u64)
    by (bit_vector)
    requires
        x1 == x | ((x >> 2) & 0x3333333333333333),
        x2 == x1 | (x1 >> 1),
        x3 == !x2 & 0x1111111111111111,
        x4 == x3 + (x3 >> 32),
        x5 == x4 + (x4 >> 16),
        x6 == x5 + (x5 >> 8),
        x7 == x6 + (x6 >> 4),
    ensures
        x7 & 0xf == ((if (x >> 0u64) & 0xf == 0 { 1u64 } else { 0u64 }) + (if (x >> 4u64) & 0xf == 0 { 1u64 } else { 0u64 }) + (if (x >> 8u64) & 0xf == 0 { 1u64 } else { 0u64 }) + (if (x >> 12u64) & 0xf == 0 { 1u64 } else { 0u64 }) + (if (x >> 16u64) & 0xf == 0 { 1u64 } else { 0u64 }) + (if (x >> 20u64) & 0xf == 0 { 1u64 } else { 0u64 }) + (if (x >> 24u64) & 0xf == 0 { 1u64 } else { 0u64 }) + (if (x >> 28u64) & 0xf == 0 { 1u64 } else { 0u64 }) + (if (x >> 32u64) & 0xf == 0 { 1u64 } else { 0u64 }) + (if (x >> 36u64) & 0xf == 0 { 1u64 } else { 0u64 }) + (if (x >> 40u64) & 0xf == 0 { 1u64 } else { 0u64 }) + (if (x >> 44u64) & 0xf == 0 { 1u64 } else { 0u64 }) + (if (x >> 48u64) & 0xf == 0 { 1u64 } else { 0u64 }) + (if (x >> 52u64) & 0xf == 0 { 1u64 } else { 0u64 }) + (if (x >> 56u64) & 0xf == 0 { 1u64 } else { 0u64 }) + (if (x >> 60u64) & 0xf == 0 { 1u64 } else { 0u64 })) % 16,
{
}

#[verifier::spinoff_prover]
#[verifier::rlimit(40)]
proof fn lemma_num_empty_terms(x: u64)
    ensures
        num_empty(x) == (if cell(x, 0) == 0 { 1int } else { 0int }) + (if cell(x, 1) == 0 { 1int } else { 0int }) + (if cell(x, 2) == 0 { 1int } else { 0int }) + (if cell(x, 3) == 0 { 1int } else { 0int }) + (if cell(x, 4) == 0 { 1int } else { 0int }) + (if cell(x, 5) == 0 { 1int } else { 0int }) + (if cell(x, 6) == 0 { 1int } else { 0int }) + (if cell(x, 7) == 0 { 1int } else { 0int }) + (if cell(x, 8) == 0 { 1int } else { 0int }) + (if cell(x, 9) == 0 { 1int } else { 0int }) + (if cell(x, 10) == 0 { 1int } else { 0int }) + (if cell(x, 11) == 0 { 1int } else { 0int }) + (if cell(x, 12) == 0 { 1int } else { 0int }) + (if cell(x, 13) == 0 { 1int } else { 0int }) + (if cell(x, 14) == 0 { 1int } else { 0int }) + (if cell(x, 15) == 0 { 1int } else { 0int }),
{
    assert(empty_upto(x, 1) == empty_upto(x, 0) + if cell(x, 0) == 0 { 1nat } else { 0nat });
    assert(empty_upto(x, 2) == empty_upto(x, 1) + if cell(x, 1) == 0 { 1nat } else { 0nat });
    assert(empty_upto(x, 3) == empty_upto(x, 2) + if cell(x, 2) == 0 { 1nat } else { 0nat });
    assert(empty_upto(x, 4) == empty_upto(x, 3) + if cell(x, 3) == 0 { 1nat } else { 0nat });
    assert(empty_upto(x, 5) == empty_upto(x, 4) + if cell(x, 4) == 0 { 1nat } else { 0nat });
    assert(empty_upto(x, 6) == empty_upto(x, 5) + if cell(x, 5) == 0 { 1nat } else { 0nat });
    assert(empty_upto(x, 7) == empty_upto(x, 6) + if cell(x, 6) == 0 { 1nat } else { 0nat });
    assert(empty_upto(x, 8) == empty_upto(x, 7) + if cell(x, 7) == 0 { 1nat } else { 0nat });
    assert(empty_upto(x, 9) == empty_upto(x, 8) + if cell(x, 8) == 0 { 1nat } else { 0nat });
    assert(empty_upto(x, 10) == empty_upto(x, 9) + if cell(x, 9) == 0 { 1nat } else { 0nat });
    assert(empty_upto(x, 11) == empty_upto(x, 10) + if cell(x, 10) == 0 { 1nat } else { 0nat });
    assert(empty_upto(x, 12) == empty_upto(x, 11) + if cell(x, 11) == 0 { 1nat } else { 0nat });
    assert(empty_upto(x, 13) == empty_upto(x, 12) + if cell(x, 12) == 0 { 1nat } else { 0nat });
    assert(empty_upto(x, 14) == empty_upto(x, 13) + if cell(x, 13) == 0 { 1nat } else { 0nat });
    assert(empty_upto(x, 15) == empty_upto(x, 14) + if cell(x, 14) == 0 { 1nat } else { 0nat });
    assert(empty_upto(x, 16) == empty_upto(x, 15) + if cell(x, 15) == 0 { 1nat } else { 0nat });
}

/// Counts the empty cells of a board, modulo 16: a board with no tile at all gives 0.

pub fn count_empty(x: Board) -> (n: i32)
    ensures
        n == num_empty(x) % 16,
{
    let x1 = x | ((x >> 2) & 0x3333333333333333);
    let x2 = x1 | (x1 >> 1);
    let x3 = !x2 & 0x1111111111111111;
    proof {
        assert(x3 == x3 & 0x1111111111111111) by (bit_vector)
            requires
                x3 == !x2 & 0x1111111111111111,
        ;
        lemma_count_empty_no_overflow(x3, (x3 + (x3 >> 32)) as u64, 0, 0);
    }
    let x4 = x3 + (x3 >> 32);
    proof {
        lemma_count_empty_no_overflow(x3, x4, (x4 + (x4 >> 16)) as u64, 0);
    }
    let x5 = x4 + (x4 >> 16);
    proof {
        lemma_count_empty_no_overflow(x3, x4, x5, (x5 + (x5 >> 8)) as u64);
    }
    let x6 = x5 + (x5 >> 8);
    let x7 = x6 + (x6 >> 4);
    proof {
        lemma_count_empty_bits(x, x1, x2, x3, x4, x5, x6, x7);
        lemma_num_empty_terms(x);
    }
    (x7 & 0xf) as i32
}


/// Whether rank `r` occurs in some cell of the board.
pub open spec fn has_rank(board: u64, r: int) -> bool {
    exists|p: int| 0 <= p < 16 && #[trigger] cell(board, p) == r
}

/// Number of ranks `1..=n` that occur on the board.
pub open spec fn distinct_upto(board: u64, n: nat) -> nat
    decreases n,
{
    if n == 0 {
        0
    } else {
        distinct_upto(board, (n - 1) as nat) + if has_rank(board, n as int) { 1nat } else { 0nat }
    }
}

/// Number of distinct tiles (non-empty ranks) on the board.
pub open spec fn num_distinct_tiles(board: u64) -> nat {
    distinct_upto(board, 15)
}

/// Bit `i` of a 16-bit set.
pub open spec fn bit16(x: u16, i: int) -> u16 {
    (x >> (i as u16)) & 1
}

/// Number of set bits among the first `n` bits.
pub open spec fn bits_upto(x: u16, n: nat) -> nat
    decreases n,
{
    if n == 0 {
        0
    } else {
        bits_upto(x, (n - 1) as nat) + bit16(x, n - 1) as nat
    }
}

#[verifier::spinoff_prover]
#[verifier::rlimit(40)]
proof fn lemma_bits_terms(x: u16)
    ensures
        bits_upto(x, 16) == bit16(x, 0) as int + bit16(x, 1) as int + bit16(x, 2) as int + bit16(x, 3) as int + bit16(x, 4) as int + bit16(x, 5) as int + bit16(x, 6) as int + bit16(x, 7) as int + bit16(x, 8) as int + bit16(x, 9) as int + bit16(x, 10) as int + bit16(x, 11) as int + bit16(x, 12) as int + bit16(x, 13) as int + bit16(x, 14) as int + bit16(x, 15) as int,
{
    assert(bits_upto(x, 1) == bits_upto(x, 0) + bit16(x, 0));
    assert(bits_upto(x, 2) == bits_upto(x, 1) + bit16(x, 1));
    assert(bits_upto(x, 3) == bits_upto(x, 2) + bit16(x, 2));
    assert(bits_upto(x, 4) == bits_upto(x, 3) + bit16(x, 3));
    assert(bits_upto(x, 5) == bits_upto(x, 4) + bit16(x, 4));
    assert(bits_upto(x, 6) == bits_upto(x, 5) + bit16(x, 5));
    assert(bits_upto(x, 7) == bits_upto(x, 6) + bit16(x, 6));
    assert(bits_upto(x, 8) == bits_upto(x, 7) + bit16(x, 7));
    assert(bits_upto(x, 9) == bits_upto(x, 8) + bit16(x, 8));
    assert(bits_upto(x, 10) == bits_upto(x, 9) + bit16(x, 9));
    assert(bits_upto(x, 11) == bits_upto(x, 10) + bit16(x, 10));
    assert(bits_upto(x, 12) == bits_upto(x, 11) + bit16(x, 11));
    assert(bits_upto(x, 13) == bits_upto(x, 12) + bit16(x, 12));
    assert(bits_upto(x, 14) == bits_upto(x, 13) + bit16(x, 13));
    assert(bits_upto(x, 15) == bits_upto(x, 14) + bit16(x, 14));
    assert(bits_upto(x, 16) == bits_upto(x, 15) + bit16(x, 15));
}

proof fn lemma_clear_lowest_bit_terms(x: u16)
    by (bit_vector)
    requires
        x != 0,
    ensures
        ((((x & ((x - 1) as u16)) >> 0u16) & 1) + (((x & ((x - 1) as u16)) >> 1u16) & 1) + (((x & ((x - 1) as u16)) >> 2u16) & 1) + (((x & ((x - 1) as u16)) >> 3u16) & 1) + (((x & ((x - 1) as u16)) >> 4u16) & 1) + (((x & ((x - 1) as u16)) >> 5u16) & 1) + (((x & ((x - 1) as u16)) >> 6u16) & 1) + (((x & ((x - 1) as u16)) >> 7u16) & 1) + (((x & ((x - 1) as u16)) >> 8u16) & 1) + (((x & ((x - 1) as u16)) >> 9u16) & 1) + (((x & ((x - 1) as u16)) >> 10u16) & 1) + (((x & ((x - 1) as u16)) >> 11u16) & 1) + (((x & ((x - 1) as u16)) >> 12u16) & 1) + (((x & ((x - 1) as u16)) >> 13u16) & 1) + (((x & ((x - 1) as u16)) >> 14u16) & 1) + (((x & ((x - 1) as u16)) >> 15u16) & 1)) + 1 == ((x >> 0u16) & 1) + ((x >> 1u16) & 1) + ((x >> 2u16) & 1) + ((x >> 3u16) & 1) + ((x >> 4u16) & 1) + ((x >> 5u16) & 1) + ((x >> 6u16) & 1) + ((x >> 7u16) & 1) + ((x >> 8u16) & 1) + ((x >> 9u16) & 1) + ((x >> 10u16) & 1) + ((x >> 11u16) & 1) + ((x >> 12u16) & 1) + ((x >> 13u16) & 1) + ((x >> 14u16) & 1) + ((x >> 15u16) & 1),
{
}

proof fn lemma_clear_lowest_bit(x: u16)
    requires
        x != 0,
    ensures
        bits_upto(x & ((x - 1) as u16), 16) + 1 == bits_upto(x, 16),
{
    lemma_bits_terms(x);
    lemma_bits_terms(x & ((x - 1) as u16));
    lemma_clear_lowest_bit_terms(x);
}

proof fn lemma_bits_zero(x: u16)
    requires
        x == 0,
    ensures
        bits_upto(x, 16) == 0,
{
    lemma_bits_terms(x);
    assert(((x >> 0u16) & 1) + ((x >> 1u16) & 1) + ((x >> 2u16) & 1) + ((x >> 3u16) & 1) + ((x >> 4u16) & 1) + ((x >> 5u16) & 1) + ((x >> 6u16) & 1) + ((x >> 7u16) & 1) + ((x >> 8u16) & 1) + ((x >> 9u16) & 1) + ((x >> 10u16) & 1) + ((x >> 11u16) & 1) + ((x >> 12u16) & 1) + ((x >> 13u16) & 1) + ((x >> 14u16) & 1) + ((x >> 15u16) & 1) == 0) by (bit_vector)
        requires
            x == 0,
    ;
}

proof fn lemma_set_bit(set: u16, v: u16, r: u16)
    by (bit_vector)
    requires
        v < 16,
        r < 16,
    ensures
        ((set | (1u16 << v)) >> r) & 1 == 1 <==> ((set >> r) & 1 == 1 || r == v),
        ((set | (1u16 << v)) >> r) & 1 <= 1,
        (set >> r) & 1 <= 1,
        r < 15 ==> ((set >> 1u16) >> r) & 1 == (set >> ((r + 1) as u16)) & 1,
        ((set >> 1u16) >> 15u16) & 1 == 0,
        (0u16 >> r) & 1 == 0,
{
}

pub proof fn lemma_shift_cells(b: u64, q: u64)
    by (bit_vector)
    requires
        q < 16,
    ensures
        q < 15 ==> ((b >> 4u64) >> ((4 * q) as u64)) & 0xf == (b >> ((4 * q + 4) as u64)) & 0xf,
        q == 15 ==> ((b >> 4u64) >> ((4 * q) as u64)) & 0xf == 0,
        b == 0 ==> (b >> ((4 * q) as u64)) & 0xf == 0,
        (b >> 0u64) & 0xf == b & 0xf,
{
}

pub proof fn lemma_shift_board(b: u64)
    ensures
        forall|p: int| 0 <= p < 15 ==> #[trigger] cell(b >> 4u64, p) == cell(b, p + 1),
        cell(b >> 4u64, 15) == 0,
{
    assert forall|p: int| 0 <= p < 15 implies #[trigger] cell(b >> 4u64, p) == cell(b, p + 1) by {
        lemma_shift_cells(b, p as u64);
    }
    lemma_shift_cells(b, 15);
}

pub proof fn lemma_zero_cells(b: u64)
    requires
        b == 0,
    ensures
        forall|p: int| 0 <= p < 16 ==> #[trigger] cell(b, p) == 0,
{
    assert forall|p: int| 0 <= p < 16 implies #[trigger] cell(b, p) == 0 by {
        lemma_shift_cells(b, p as u64);
    }
}

proof fn lemma_bits_count_ranks(set: u16, board: u64, n: nat)
    requires
        n <= 15,
        forall|i: int| 0 <= i < 15 ==> (#[trigger] bit16(set, i) == 1 <==> has_rank(board, i + 1)),
        forall|i: int| 0 <= i < 16 ==> #[trigger] bit16(set, i) <= 1,
    ensures
        bits_upto(set, n) == distinct_upto(board, n),
    decreases n,
{
    if n > 0 {
        lemma_bits_count_ranks(set, board, (n - 1) as nat);
        assert(bit16(set, n - 1) == 1 <==> has_rank(board, n as int));
    }
}

/// Counts the distinct tiles (ranks other than empty) on a board.
pub fn count_distinct_tiles(board: Board) -> (count: i32)
    ensures
        count == num_distinct_tiles(board),
{
    let ghost x = board;
    let mut board = board;
    let mut bitset = 0u16;
    let ghost mut k: int = 0;
    proof {
        assert forall|r: u16| r < 16 implies (((bitset >> r) & 1 == 1) <==> exists|p: int|
            0 <= p < k && #[trigger] cell(x, p) == r as u64) by {
            lemma_set_bit(0, 0, r);
        }
    }
    while board != 0
        invariant
            0 <= k <= 16,
            forall|p: int| 0 <= p < 16 - k ==> #[trigger] cell(board, p) == cell(x, p + k),
            forall|p: int| 16 - k <= p < 16 ==> #[trigger] cell(board, p) == 0,
            forall|r: u16| r < 16 ==> (((bitset >> r) & 1 == 1) <==> exists|p: int|
                0 <= p < k && #[trigger] cell(x, p) == r as u64),
        decreases 16 - k,
    {
        proof {
            if k == 16 {
                lemma_zero_cells(0);
                lemma_board_ext(board, 0);
            }
        }
        let v = board & 0xf;
        proof {
            lemma_shift_cells(board, 0);
            assert(v == cell(board, 0));
            assert(v < 16) by (bit_vector)
                requires
                    v == board & 0xf,
            ;
        }
        let ghost old_set = bitset;
        let ghost old_board = board;
        bitset |= 1 << v;
        board >>= 4;
        proof {
            lemma_shift_board(old_board);
            assert forall|r: u16| r < 16 implies (((bitset >> r) & 1 == 1) <==> exists|p: int|
                0 <= p < k + 1 && #[trigger] cell(x, p) == r as u64) by {
                lemma_set_bit(old_set, v as u16, r);
                if exists|p: int| 0 <= p < k + 1 && #[trigger] cell(x, p) == r as u64 {
                    let p = choose|p: int| 0 <= p < k + 1 && #[trigger] cell(x, p) == r as u64;
                    if p < k {
                    } else {
                        assert(cell(x, k) == cell(old_board, 0));
                    }
                }
                if r == v as u16 {
                    assert(cell(x, k) == cell(old_board, 0));
                }
            }
            k = k + 1;
        }
    }
    proof {
        lemma_zero_cells(board);
        assert forall|i: int| 0 <= i < 15 implies (#[trigger] bit16(bitset >> 1u16, i) == 1 <==> has_rank(x, i + 1)) by {
            lemma_set_bit(bitset, 0, i as u16);
            assert(bit16(bitset >> 1u16, i) == (bitset >> ((i + 1) as u16)) & 1);
            if has_rank(x, i + 1) {
                let p = choose|p: int| 0 <= p < 16 && #[trigger] cell(x, p) == i + 1;
                if p >= k {
                    assert(cell(board, p - k) == cell(x, p));
                }
                assert(cell(x, p) == (i + 1) as u16 as u64);
            }
            if (bitset >> ((i + 1) as u16)) & 1 == 1 {
                let p = choose|p: int| 0 <= p < k && #[trigger] cell(x, p) == (i + 1) as u16 as u64;
                assert(cell(x, p) == i + 1);
            }
        }
        assert forall|i: int| 0 <= i < 16 implies #[trigger] bit16(bitset >> 1u16, i) <= 1 by {
            lemma_set_bit(bitset >> 1u16, 0, i as u16);
        }
        assert(bit16(bitset >> 1u16, 15) == 0) by {
            lemma_set_bit(bitset, 0, 0);
        }
        lemma_bits_count_ranks(bitset >> 1u16, x, 15);
        assert(bits_upto(bitset >> 1u16, 16) == bits_upto(bitset >> 1u16, 15));
        lemma_distinct_upto_bound(x, 15);
    }
    bitset >>= 1;

    let mut count = 0i32;
    while bitset != 0
        invariant
            count + bits_upto(bitset, 16) == num_distinct_tiles(x),
            num_distinct_tiles(x) <= 15,
        decreases bits_upto(bitset, 16),
    {
        proof {
            lemma_clear_lowest_bit(bitset);
        }
        bitset &= bitset - 1;
        count += 1;
    }
    proof {
        lemma_bits_zero(bitset);
    }
    count
}

proof fn lemma_distinct_upto_bound(board: u64, n: nat)
    ensures
        distinct_upto(board, n) <= n,
    decreases n,
{
    if n > 0 {
        lemma_distinct_upto_bound(board, (n - 1) as nat);
    }
}


proof fn lemma_cell_xor_bits(a: u64, b: u64, q: u64)
    by (bit_vector)
    requires
        q < 16,
    ensures
        ((a ^ b) >> ((4 * q) as u64)) & 0xf == ((a >> ((4 * q) as u64)) & 0xf) ^ ((b >> ((4 * q)
            as u64)) & 0xf),
        (a >> ((4 * q) as u64)) & 0xf == 0 && (b >> ((4 * q) as u64)) & 0xf == 0 ==> ((a ^ b) >> ((4
            * q) as u64)) & 0xf == 0,
{
}

/// The cells of `a ^ b` are the cell-wise xors.
pub proof fn lemma_cell_xor(a: u64, b: u64, p: int)
    requires
        0 <= p < 16,
    ensures
        cell(a ^ b, p) == cell(a, p) ^ cell(b, p),
        cell(a, p) == 0 && cell(b, p) == 0 ==> cell(a ^ b, p) == 0,
{
    lemma_cell_xor_bits(a, b, p as u64);
}

proof fn lemma_row_cell_xor_bits(a: u16, b: u16, q: u16)
    by (bit_vector)
    requires
        q < 4,
    ensures
        ((a ^ b) >> ((4 * q) as u16)) & 0xf == ((a >> ((4 * q) as u16)) & 0xf) ^ ((b >> ((4 * q)
            as u16)) & 0xf),
        (((a >> ((4 * q) as u16)) & 0xf) as u32) ^ (((b >> ((4 * q) as u16)) & 0xf) as u32) == (((a
            >> ((4 * q) as u16)) & 0xf) ^ ((b >> ((4 * q) as u16)) & 0xf)) as u32,
        (a >> ((4 * q) as u16)) & 0xf < 16,
{
}

/// The cells of `a ^ b` are the cell-wise xors.
pub proof fn lemma_row_cell_xor(a: u16, b: u16, i: int)
    requires
        0 <= i < 4,
    ensures
        row_cell(a ^ b, i) == row_cell(a, i) ^ row_cell(b, i),
        (row_cell(a, i) as u32) ^ (row_cell(b, i) as u32) == (row_cell(a, i) ^ row_cell(b, i)) as u32,
        row_cell(a, i) < 16,
{
    lemma_row_cell_xor_bits(a, b, i as u16);
}

/// Row `k` (0..4) of a board, as a packed row.
pub open spec fn row_of(board: u64, k: int) -> u16 {
    ((board >> ((16 * k) as u64)) & 0xffff) as u16
}

proof fn lemma_row_of_bits(b: u64, k: u64, i: u64)
    by (bit_vector)
    requires
        k < 4,
        i < 4,
    ensures
        (((((b >> ((16 * k) as u64)) & 0xffff) as u16) >> ((4 * i) as u16)) & 0xf) as u64 == (b >> ((
        4 * (4 * k + i)) as u64)) & 0xf,
{
}

/// Cell `i` of row `k` is cell `4 * k + i` of the board.
pub proof fn lemma_row_of(b: u64, k: int, i: int)
    requires
        0 <= k < 4,
        0 <= i < 4,
    ensures
        row_cell(row_of(b, k), i) as u64 == cell(b, 4 * k + i),
{
    lemma_row_of_bits(b, k as u64, i as u64);
}

proof fn lemma_insert_row_bits(b: u64, e: u16, k: u64, q: u64)
    by (bit_vector)
    requires
        k < 4,
        q < 16,
    ensures
        4 * k <= q < 4 * k + 4 ==> ((b ^ ((e as u64) << ((16 * k) as u64))) >> ((4 * q) as u64)) & 0xf
            == ((b >> ((4 * q) as u64)) & 0xf) ^ (((e >> ((4 * (q - 4 * k)) as u16)) & 0xf) as u64),
        !(4 * k <= q < 4 * k + 4) ==> ((b ^ ((e as u64) << ((16 * k) as u64))) >> ((4 * q) as u64))
            & 0xf == (b >> ((4 * q) as u64)) & 0xf,
{
}

/// Xor-ing a row into row `k` of a board changes the cells of row `k` only.
pub proof fn lemma_insert_row(b: u64, e: u16, k: int, p: int)
    requires
        0 <= k < 4,
        0 <= p < 16,
    ensures
        4 * k <= p < 4 * k + 4 ==> cell(b ^ ((e as u64) << ((16 * k) as u64)), p) == cell(b, p) ^ (
        row_cell(e, p - 4 * k) as u64),
        !(4 * k <= p < 4 * k + 4) ==> cell(b ^ ((e as u64) << ((16 * k) as u64)), p) == cell(b, p),
{
    lemma_insert_row_bits(b, e, k as u64, p as u64);
}

proof fn lemma_insert_col_bits(b: u64, c: u64, k: u64, q: u64)
    by (bit_vector)
    requires
        k < 4,
        q < 16,
        c & 0xfff0fff0fff0fff0 == 0,
    ensures
        q % 4 == k ==> ((b ^ (c << ((4 * k) as u64))) >> ((4 * q) as u64)) & 0xf == ((b >> ((4 * q)
            as u64)) & 0xf) ^ ((c >> ((4 * (q - k)) as u64)) & 0xf),
        q % 4 != k ==> ((b ^ (c << ((4 * k) as u64))) >> ((4 * q) as u64)) & 0xf == (b >> ((4 * q)
            as u64)) & 0xf,
{
}

proof fn lemma_col_shape_bits(c: u64)
    by (bit_vector)
    requires
        (c >> 4u64) & 0xf == 0,
        (c >> 8u64) & 0xf == 0,
        (c >> 12u64) & 0xf == 0,
        (c >> 20u64) & 0xf == 0,
        (c >> 24u64) & 0xf == 0,
        (c >> 28u64) & 0xf == 0,
        (c >> 36u64) & 0xf == 0,
        (c >> 40u64) & 0xf == 0,
        (c >> 44u64) & 0xf == 0,
        (c >> 52u64) & 0xf == 0,
        (c >> 56u64) & 0xf == 0,
        (c >> 60u64) & 0xf == 0,
    ensures
        c & 0xfff0fff0fff0fff0 == 0,
{
}

/// A board whose tiles are all in column 0.
pub open spec fn in_first_col(c: u64) -> bool {
    forall|p: int| 0 <= p < 16 && p % 4 != 0 ==> #[trigger] cell(c, p) == 0
}

/// Xor-ing a column-0 board shifted to column `k` changes the cells of column `k` only.
pub proof fn lemma_insert_col(b: u64, c: u64, k: int, p: int)
    requires
        0 <= k < 4,
        0 <= p < 16,
        in_first_col(c),
    ensures
        p % 4 == k ==> cell(b ^ (c << ((4 * k) as u64)), p) == cell(b, p) ^ cell(c, p - k),
        p % 4 != k ==> cell(b ^ (c << ((4 * k) as u64)), p) == cell(b, p),
{
    assert(cell(c, 1) == 0);
    assert(cell(c, 2) == 0);
    assert(cell(c, 3) == 0);
    assert(cell(c, 5) == 0);
    assert(cell(c, 6) == 0);
    assert(cell(c, 7) == 0);
    assert(cell(c, 9) == 0);
    assert(cell(c, 10) == 0);
    assert(cell(c, 11) == 0);
    assert(cell(c, 13) == 0);
    assert(cell(c, 14) == 0);
    assert(cell(c, 15) == 0);
    lemma_col_shape_bits(c);
    lemma_insert_col_bits(b, c, k as u64, p as u64);
}


/// Every row has a reversal.
pub proof fn lemma_reversed_exists(row: u16)
    ensures
        exists|r: u16| #[trigger] is_reversed_row(r, row),
{
    let r = ((row >> 12) & 0x000f) | ((row >> 4) & 0x00f0) | ((row << 4) & 0x0f00) | ((row << 12)
        & 0xf000);
    lemma_reverse_row_bits(row, r);
    assert forall|i: int| 0 <= i < 4 implies #[trigger] row_cell(r, i) == row_cell(row, 3 - i) by {
        if i == 0 {
        } else if i == 1 {
        } else if i == 2 {
        } else {
        }
    }
    assert(is_reversed_row(r, row));
}

/// Reversal is symmetric and determines the row.
pub proof fn lemma_reversed_facts(r: u16, row: u16)
    requires
        is_reversed_row(r, row),
    ensures
        is_reversed_row(row, r),
        forall|other: u16| is_reversed_row(r, other) ==> other == row,
        forall|other: u16| is_reversed_row(other, row) ==> other == r,
{
    assert forall|i: int| 0 <= i < 4 implies #[trigger] row_cell(row, i) == row_cell(r, 3 - i) by {
        assert(row_cell(r, 3 - i) == row_cell(row, 3 - (3 - i)));
    }
    assert forall|other: u16| is_reversed_row(r, other) implies other == row by {
        assert forall|i: int| 0 <= i < 4 implies #[trigger] row_cell(other, i) == row_cell(row, i) by {
            assert(row_cell(r, 3 - i) == row_cell(other, 3 - (3 - i)));
            assert(row_cell(r, 3 - i) == row_cell(row, 3 - (3 - i)));
        }
        lemma_row_ext(other, row);
    }
    assert forall|other: u16| is_reversed_row(other, row) implies other == r by {
        assert forall|i: int| 0 <= i < 4 implies #[trigger] row_cell(other, i) == row_cell(r, i) by {
            assert(row_cell(other, i) == row_cell(row, 3 - i));
        }
        lemma_row_ext(other, r);
    }
}


proof fn lemma_row_field_bits(b: u64, k: u64)
    by (bit_vector)
    requires
        k < 4,
    ensures
        (b >> ((16 * k) as u64)) & 0xffff < 65536,
        (b >> ((4 * k) as u64)) & 0xf < 16,
{
}

/// Row fields and cells are in range.
pub proof fn lemma_field_bounds(b: u64, k: int)
    requires
        0 <= k < 4,
    ensures
        (b >> ((16 * k) as u64)) & 0xffff < 65536,
        cell(b, k) < 16,
{
    lemma_row_field_bits(b, k as u64);
}

proof fn lemma_cell_bound_bits(b: u64, q: u64)
    by (bit_vector)
    requires
        q < 16,
    ensures
        (b >> ((4 * q) as u64)) & 0xf < 16,
{
}

/// Every cell holds a rank below 16.
pub proof fn lemma_cell_bound(b: u64, p: int)
    requires
        0 <= p < 16,
    ensures
        cell(b, p) < 16,
{
    lemma_cell_bound_bits(b, p as u64);
}

/// Xor-ing a cell with `cell ^ s` leaves `s`.
pub proof fn lemma_xor_cancel(a: u64, b: u64, s: u32)
    by (bit_vector)
    requires
        a < 16,
        b < 16,
        b as u32 == (a as u32) ^ s,
    ensures
        (a ^ b) as u32 == s,
{
}


/// The board with every bit set.
pub proof fn lemma_all_ones()
    by (bit_vector)
    ensures
        !0u64 == 0xffff_ffff_ffff_ffffu64,
{
}


/// A value below 65536 is its own row 0.
pub proof fn lemma_row_of_small(x: u64)
    by (bit_vector)
    requires
        x < 65536,
    ensures
        ((x >> 0u64) & 0xffff) as u16 == x as u16,
{
}


/// `board` is `b0` shifted down by `k` cells: cell `p` of `board` is cell `p + k` of `b0`.
pub open spec fn shifted_by(board: u64, b0: u64, k: int) -> bool {
    &&& 0 <= k <= 16
    &&& forall|p: int| 0 <= p < 16 - k ==> #[trigger] cell(board, p) == cell(b0, p + k)
    &&& forall|p: int| 16 - k <= p < 16 ==> #[trigger] cell(board, p) == 0
}

/// One step of a cell-by-cell scan: the low cell is cell `k` of the unshifted board.
pub proof fn lemma_shifted_step(board: u64, b0: u64, k: int)
    requires
        shifted_by(board, b0, k),
        k < 16,
    ensures
        shifted_by(board >> 4u64, b0, k + 1),
        board & 0xf == cell(b0, k),
        board & 0xf < 16,
{
    lemma_shift_board(board);
    lemma_shift_cells(board, 0);
    lemma_cell_bound(board, 0);
}

/// A board is its own zero-step shift; a full shift is empty.
pub proof fn lemma_shifted_ends(board: u64, b0: u64, k: int)
    ensures
        shifted_by(b0, b0, 0),
        shifted_by(board, b0, 16) ==> board == 0,
{
    if shifted_by(board, b0, 16) {
        lemma_zero_cells(0);
        lemma_board_ext(board, 0);
    }
}


proof fn lemma_push_cell_bits(out: u64, v: u64, q: u64)
    by (bit_vector)
    requires
        v < 16,
        q < 16,
    ensures
        q == 0 ==> ((((out << 4u64) | v) >> ((4 * q) as u64)) & 0xf) == v,
        q > 0 ==> ((((out << 4u64) | v) >> ((4 * q) as u64)) & 0xf) == (out >> ((4 * (q - 1)) as u64))
            & 0xf,
{
}

/// Shifting a board up one cell and putting `v` in cell 0.
pub proof fn lemma_push_cell(out: u64, v: u64)
    requires
        v < 16,
    ensures
        cell((out << 4u64) | v, 0) == v,
        forall|p: int| 1 <= p < 16 ==> #[trigger] cell((out << 4u64) | v, p) == cell(out, p - 1),
{
    lemma_push_cell_bits(out, v, 0);
    assert forall|p: int| 1 <= p < 16 implies #[trigger] cell((out << 4u64) | v, p) == cell(out, p - 1) by {
        lemma_push_cell_bits(out, v, p as u64);
    }
}

proof fn lemma_set_cell_bits(out: u64, v: u64, pos: u64, q: u64)
    by (bit_vector)
    requires
        v < 16,
        pos < 16,
        q < 16,
        (out >> ((4 * pos) as u64)) & 0xf == 0,
    ensures
        q == pos ==> ((out | (v << ((4 * pos) as u64))) >> ((4 * q) as u64)) & 0xf == v,
        q != pos ==> ((out | (v << ((4 * pos) as u64))) >> ((4 * q) as u64)) & 0xf == (out >> ((4
            * q) as u64)) & 0xf,
{
}

/// Or-ing a rank into an empty cell sets that cell only.
pub proof fn lemma_set_cell(out: u64, v: u64, pos: int)
    requires
        v < 16,
        0 <= pos < 16,
        cell(out, pos) == 0,
    ensures
        forall|p: int| 0 <= p < 16 ==> #[trigger] cell(out | (v << ((4 * pos) as u64)), p) == if p == pos { v } else { cell(out, p) },
{
    assert forall|p: int| 0 <= p < 16 implies #[trigger] cell(out | (v << ((4 * pos) as u64)), p) == if p == pos { v } else { cell(out, p) } by {
        lemma_set_cell_bits(out, v, pos as u64, p as u64);
    }
}


proof fn lemma_all_ones_cells_bits(q: u64)
    by (bit_vector)
    requires
        q < 16,
    ensures
        (0xffff_ffff_ffff_ffffu64 >> ((4 * q) as u64)) & 0xf == 15,
{
}

/// Every cell of the board with all bits set holds rank 15.
pub proof fn lemma_all_ones_cells()
    ensures
        forall|p: int| 0 <= p < 16 ==> #[trigger] cell(0xffff_ffff_ffff_ffffu64, p) == 15,
{
    assert forall|p: int| 0 <= p < 16 implies #[trigger] cell(0xffff_ffff_ffff_ffffu64, p) == 15 by {
        lemma_all_ones_cells_bits(p as u64);
    }
}

} // verus!
