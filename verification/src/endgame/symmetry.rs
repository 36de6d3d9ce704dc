//! The eight symmetries of the square board (rotations and mirror images),
//! as cell permutations of the packed board.

use vstd::prelude::*;
use crate::board::{Board, cell, lemma_board_ext, shifted_by, lemma_shifted_step, lemma_shifted_ends, lemma_push_cell, lemma_zero_cells};

use crate::endgame::stats::{count_of, rank_count};

verus! {

/// The cell of the source board that lands on row `r`, column `c` under
/// symmetry `kind`: 0 identity, 1 rotation to the left, 2 half turn,
/// 3 rotation to the right, 4 left-right mirror, 5 up-down mirror,
/// 6 mirror in the main diagonal, 7 mirror in the anti-diagonal.
pub open spec fn sym_source(kind: int, r: int, c: int) -> int {
    if kind == 0 {
        4 * r + c
    } else if kind == 1 {
        4 * c + (3 - r)
    } else if kind == 2 {
        4 * (3 - r) + (3 - c)
    } else if kind == 3 {
        4 * (3 - c) + r
    } else if kind == 4 {
        4 * r + (3 - c)
    } else if kind == 5 {
        4 * (3 - r) + c
    } else if kind == 6 {
        4 * c + r
    } else {
        4 * (3 - c) + (3 - r)
    }
}

/// `res` is `b` under symmetry `kind`.
pub open spec fn is_symmetry(res: u64, b: u64, kind: int) -> bool {
    forall|r: int, c: int| 0 <= r < 4 && 0 <= c < 4 ==> #[trigger] cell(res, 4 * r + c) == cell(b, sym_source(kind, r, c))
}

spec fn lr_bits(b: u64) -> u64 {
            let x = ((b & 0xff00_ff00_ff00_ff00) >> 8) | ((b & 0x00ff_00ff_00ff_00ff) << 8);
            ((x & 0xf0f0_f0f0_f0f0_f0f0) >> 4) | ((x & 0x0f0f_0f0f_0f0f_0f0f) << 4)
}

spec fn ud_bits(b: u64) -> u64 {
            let x = ((b & 0xffff_ffff_0000_0000) >> 32) | ((b & 0x0000_0000_ffff_ffff) << 32);
            ((x & 0xffff_0000_ffff_0000) >> 16) | ((x & 0x0000_ffff_0000_ffff) << 16)
}

spec fn ul_bits(b: u64) -> u64 {
            let x = (b & 0xff00_ff00_00ff_00ff) | ((b & 0x00ff_00ff_0000_0000) >> 24) | ((b
                & 0x0000_0000_ff00_ff00) << 24);
            (x & 0xf0f0_0f0f_f0f0_0f0f) | ((x & 0x0f0f_0000_0f0f_0000) >> 12) | ((x
                & 0x0000_f0f0_0000_f0f0) << 12)
}

spec fn ur_bits(b: u64) -> u64 {
            let x = (b & 0x0f0f_f0f0_0f0f_f0f0) | ((b & 0xf0f0_0000_f0f0_0000) >> 20) | ((b
                & 0x0000_0f0f_0000_0f0f) << 20);
            (x & 0x00ff_00ff_ff00_ff00) | ((x & 0xff00_ff00_0000_0000) >> 40) | ((x
                & 0x0000_0000_00ff_00ff) << 40)
}

spec fn rl_bits(b: u64) -> u64 {
            let x = ((b & 0xff00_ff00_0000_0000) >> 32) | ((b & 0x00ff_00ff_0000_0000) << 8) | ((b
                & 0x0000_0000_ff00_ff00) >> 8) | ((b & 0x0000_0000_00ff_00ff) << 32);
            ((x & 0xf0f0_0000_f0f0_0000) >> 16) | ((x & 0x0f0f_0000_0f0f_0000) << 4) | ((x
                & 0x0000_f0f0_0000_f0f0) >> 4) | ((x & 0x0000_0f0f_0000_0f0f) << 16)
}

spec fn rr_bits(b: u64) -> u64 {
            let x = ((b & 0xff00_ff00_0000_0000) >> 8) | ((b & 0x00ff_00ff_0000_0000) >> 32) | ((b
                & 0x0000_0000_ff00_ff00) << 32) | ((b & 0x0000_0000_00ff_00ff) << 8);
            ((x & 0xf0f0_0000_f0f0_0000) >> 4) | ((x & 0x0f0f_0000_0f0f_0000) >> 16) | ((x
                & 0x0000_f0f0_0000_f0f0) << 16) | ((x & 0x0000_0f0f_0000_0f0f) << 4)
}

proof fn lemma_symmetry_bits(b: u64, lr: u64, ud: u64, ul: u64, ur: u64, rl: u64, rr: u64)
    by (bit_vector)
    requires
        lr == lr_bits(b),
        ud == ud_bits(b),
        ul == ul_bits(b),
        ur == ur_bits(b),
        rl == rl_bits(b),
        rr == rr_bits(b),
    ensures
        (lr >> 0u64) & 0xf == (b >> 12u64) & 0xf,
        (lr >> 4u64) & 0xf == (b >> 8u64) & 0xf,
        (lr >> 8u64) & 0xf == (b >> 4u64) & 0xf,
        (lr >> 12u64) & 0xf == (b >> 0u64) & 0xf,
        (lr >> 16u64) & 0xf == (b >> 28u64) & 0xf,
        (lr >> 20u64) & 0xf == (b >> 24u64) & 0xf,
        (lr >> 24u64) & 0xf == (b >> 20u64) & 0xf,
        (lr >> 28u64) & 0xf == (b >> 16u64) & 0xf,
        (lr >> 32u64) & 0xf == (b >> 44u64) & 0xf,
        (lr >> 36u64) & 0xf == (b >> 40u64) & 0xf,
        (lr >> 40u64) & 0xf == (b >> 36u64) & 0xf,
        (lr >> 44u64) & 0xf == (b >> 32u64) & 0xf,
        (lr >> 48u64) & 0xf == (b >> 60u64) & 0xf,
        (lr >> 52u64) & 0xf == (b >> 56u64) & 0xf,
        (lr >> 56u64) & 0xf == (b >> 52u64) & 0xf,
        (lr >> 60u64) & 0xf == (b >> 48u64) & 0xf,
        (ud >> 0u64) & 0xf == (b >> 48u64) & 0xf,
        (ud >> 4u64) & 0xf == (b >> 52u64) & 0xf,
        (ud >> 8u64) & 0xf == (b >> 56u64) & 0xf,
        (ud >> 12u64) & 0xf == (b >> 60u64) & 0xf,
        (ud >> 16u64) & 0xf == (b >> 32u64) & 0xf,
        (ud >> 20u64) & 0xf == (b >> 36u64) & 0xf,
        (ud >> 24u64) & 0xf == (b >> 40u64) & 0xf,
        (ud >> 28u64) & 0xf == (b >> 44u64) & 0xf,
        (ud >> 32u64) & 0xf == (b >> 16u64) & 0xf,
        (ud >> 36u64) & 0xf == (b >> 20u64) & 0xf,
        (ud >> 40u64) & 0xf == (b >> 24u64) & 0xf,
        (ud >> 44u64) & 0xf == (b >> 28u64) & 0xf,
        (ud >> 48u64) & 0xf == (b >> 0u64) & 0xf,
        (ud >> 52u64) & 0xf == (b >> 4u64) & 0xf,
        (ud >> 56u64) & 0xf == (b >> 8u64) & 0xf,
        (ud >> 60u64) & 0xf == (b >> 12u64) & 0xf,
        (ul >> 0u64) & 0xf == (b >> 0u64) & 0xf,
        (ul >> 4u64) & 0xf == (b >> 16u64) & 0xf,
        (ul >> 8u64) & 0xf == (b >> 32u64) & 0xf,
        (ul >> 12u64) & 0xf == (b >> 48u64) & 0xf,
        (ul >> 16u64) & 0xf == (b >> 4u64) & 0xf,
        (ul >> 20u64) & 0xf == (b >> 20u64) & 0xf,
        (ul >> 24u64) & 0xf == (b >> 36u64) & 0xf,
        (ul >> 28u64) & 0xf == (b >> 52u64) & 0xf,
        (ul >> 32u64) & 0xf == (b >> 8u64) & 0xf,
        (ul >> 36u64) & 0xf == (b >> 24u64) & 0xf,
        (ul >> 40u64) & 0xf == (b >> 40u64) & 0xf,
        (ul >> 44u64) & 0xf == (b >> 56u64) & 0xf,
        (ul >> 48u64) & 0xf == (b >> 12u64) & 0xf,
        (ul >> 52u64) & 0xf == (b >> 28u64) & 0xf,
        (ul >> 56u64) & 0xf == (b >> 44u64) & 0xf,
        (ul >> 60u64) & 0xf == (b >> 60u64) & 0xf,
        (ur >> 0u64) & 0xf == (b >> 60u64) & 0xf,
        (ur >> 4u64) & 0xf == (b >> 44u64) & 0xf,
        (ur >> 8u64) & 0xf == (b >> 28u64) & 0xf,
        (ur >> 12u64) & 0xf == (b >> 12u64) & 0xf,
        (ur >> 16u64) & 0xf == (b >> 56u64) & 0xf,
        (ur >> 20u64) & 0xf == (b >> 40u64) & 0xf,
        (ur >> 24u64) & 0xf == (b >> 24u64) & 0xf,
        (ur >> 28u64) & 0xf == (b >> 8u64) & 0xf,
        (ur >> 32u64) & 0xf == (b >> 52u64) & 0xf,
        (ur >> 36u64) & 0xf == (b >> 36u64) & 0xf,
        (ur >> 40u64) & 0xf == (b >> 20u64) & 0xf,
        (ur >> 44u64) & 0xf == (b >> 4u64) & 0xf,
        (ur >> 48u64) & 0xf == (b >> 48u64) & 0xf,
        (ur >> 52u64) & 0xf == (b >> 32u64) & 0xf,
        (ur >> 56u64) & 0xf == (b >> 16u64) & 0xf,
        (ur >> 60u64) & 0xf == (b >> 0u64) & 0xf,
        (rl >> 0u64) & 0xf == (b >> 12u64) & 0xf,
        (rl >> 4u64) & 0xf == (b >> 28u64) & 0xf,
        (rl >> 8u64) & 0xf == (b >> 44u64) & 0xf,
        (rl >> 12u64) & 0xf == (b >> 60u64) & 0xf,
        (rl >> 16u64) & 0xf == (b >> 8u64) & 0xf,
        (rl >> 20u64) & 0xf == (b >> 24u64) & 0xf,
        (rl >> 24u64) & 0xf == (b >> 40u64) & 0xf,
        (rl >> 28u64) & 0xf == (b >> 56u64) & 0xf,
        (rl >> 32u64) & 0xf == (b >> 4u64) & 0xf,
        (rl >> 36u64) & 0xf == (b >> 20u64) & 0xf,
        (rl >> 40u64) & 0xf == (b >> 36u64) & 0xf,
        (rl >> 44u64) & 0xf == (b >> 52u64) & 0xf,
        (rl >> 48u64) & 0xf == (b >> 0u64) & 0xf,
        (rl >> 52u64) & 0xf == (b >> 16u64) & 0xf,
        (rl >> 56u64) & 0xf == (b >> 32u64) & 0xf,
        (rl >> 60u64) & 0xf == (b >> 48u64) & 0xf,
        (rr >> 0u64) & 0xf == (b >> 48u64) & 0xf,
        (rr >> 4u64) & 0xf == (b >> 32u64) & 0xf,
        (rr >> 8u64) & 0xf == (b >> 16u64) & 0xf,
        (rr >> 12u64) & 0xf == (b >> 0u64) & 0xf,
        (rr >> 16u64) & 0xf == (b >> 52u64) & 0xf,
        (rr >> 20u64) & 0xf == (b >> 36u64) & 0xf,
        (rr >> 24u64) & 0xf == (b >> 20u64) & 0xf,
        (rr >> 28u64) & 0xf == (b >> 4u64) & 0xf,
        (rr >> 32u64) & 0xf == (b >> 56u64) & 0xf,
        (rr >> 36u64) & 0xf == (b >> 40u64) & 0xf,
        (rr >> 40u64) & 0xf == (b >> 24u64) & 0xf,
        (rr >> 44u64) & 0xf == (b >> 8u64) & 0xf,
        (rr >> 48u64) & 0xf == (b >> 60u64) & 0xf,
        (rr >> 52u64) & 0xf == (b >> 44u64) & 0xf,
        (rr >> 56u64) & 0xf == (b >> 28u64) & 0xf,
        (rr >> 60u64) & 0xf == (b >> 12u64) & 0xf,
{
}

proof fn lemma_symmetries(b: u64)
    ensures
        is_symmetry(lr_bits(b), b, 4),
        is_symmetry(ud_bits(b), b, 5),
        is_symmetry(ul_bits(b), b, 6),
        is_symmetry(ur_bits(b), b, 7),
        is_symmetry(rl_bits(b), b, 1),
        is_symmetry(rr_bits(b), b, 3),
{
    lemma_symmetry_bits(b, lr_bits(b), ud_bits(b), ul_bits(b), ur_bits(b), rl_bits(b), rr_bits(b));
    assert forall|r: int, c: int| 0 <= r < 4 && 0 <= c < 4 implies {
        &&& #[trigger] cell(lr_bits(b), 4 * r + c) == cell(b, sym_source(4, r, c))
        &&& cell(ud_bits(b), 4 * r + c) == cell(b, sym_source(5, r, c))
        &&& cell(ul_bits(b), 4 * r + c) == cell(b, sym_source(6, r, c))
        &&& cell(ur_bits(b), 4 * r + c) == cell(b, sym_source(7, r, c))
        &&& cell(rl_bits(b), 4 * r + c) == cell(b, sym_source(1, r, c))
        &&& cell(rr_bits(b), 4 * r + c) == cell(b, sym_source(3, r, c))
    } by {
        if r == 0 {
            if c == 0 {} else if c == 1 {} else if c == 2 {} else {}
        } else if r == 1 {
            if c == 0 {} else if c == 1 {} else if c == 2 {} else {}
        } else if r == 2 {
            if c == 0 {} else if c == 1 {} else if c == 2 {} else {}
    } else {
            if c == 0 {} else if c == 1 {} else if c == 2 {} else {}
        }
    }
}

/// Every board has an image under each symmetry.
pub proof fn lemma_has_image(b: u64, kind: int)
    requires
        0 <= kind < 8,
    ensures
        exists|x: u64| is_symmetry(x, b, kind),
{
    lemma_symmetries(b);
    if kind == 0 {
        assert(is_symmetry(b, b, 0));
    } else if kind == 2 {
        let l = rl_bits(b);
        let ll = rl_bits(l);
        lemma_symmetries(l);
        lemma_two_quarter_turns(b, l, ll);
    } else if kind == 1 {
        assert(is_symmetry(rl_bits(b), b, 1));
    } else if kind == 3 {
        assert(is_symmetry(rr_bits(b), b, 3));
    } else if kind == 4 {
        assert(is_symmetry(lr_bits(b), b, 4));
    } else if kind == 5 {
        assert(is_symmetry(ud_bits(b), b, 5));
    } else if kind == 6 {
        assert(is_symmetry(ul_bits(b), b, 6));
    } else {
        assert(is_symmetry(ur_bits(b), b, 7));
    }
}

/// Mirrors the board left to right.
pub fn reverse_lr(board: Board) -> (r: Board)
    ensures
        is_symmetry(r, board, 4),
{
    let mut board = board;
    let ghost b0 = board;
    board = ((board & 0xff00_ff00_ff00_ff00) >> 8) | ((board & 0x00ff_00ff_00ff_00ff) << 8);
    let r = ((board & 0xf0f0_f0f0_f0f0_f0f0) >> 4) | ((board & 0x0f0f_0f0f_0f0f_0f0f) << 4);
    proof {
        lemma_symmetries(b0);
    }
    r
}

/// Mirrors the board top to bottom.
pub fn reverse_ud(board: Board) -> (r: Board)
    ensures
        is_symmetry(r, board, 5),
{
    let mut board = board;
    let ghost b0 = board;
    board = ((board & 0xffff_ffff_0000_0000) >> 32) | ((board & 0x0000_0000_ffff_ffff) << 32);
    let r = ((board & 0xffff_0000_ffff_0000) >> 16) | ((board & 0x0000_ffff_0000_ffff) << 16);
    proof {
        lemma_symmetries(b0);
    }
    r
}

/// Mirrors the board in its main diagonal.
pub fn reverse_ul(board: Board) -> (r: Board)
    ensures
        is_symmetry(r, board, 6),
{
    let mut board = board;
    let ghost b0 = board;
    board = (board & 0xff00_ff00_00ff_00ff) | ((board & 0x00ff_00ff_0000_0000) >> 24) | ((board
        & 0x0000_0000_ff00_ff00) << 24);
    let r = (board & 0xf0f0_0f0f_f0f0_0f0f) | ((board & 0x0f0f_0000_0f0f_0000) >> 12) | ((board
        & 0x0000_f0f0_0000_f0f0) << 12);
    proof {
        lemma_symmetries(b0);
    }
    r
}

/// Mirrors the board in its anti-diagonal.
pub fn reverse_ur(board: Board) -> (r: Board)
    ensures
        is_symmetry(r, board, 7),
{
    let mut board = board;
    let ghost b0 = board;
    board = (board & 0x0f0f_f0f0_0f0f_f0f0) | ((board & 0xf0f0_0000_f0f0_0000) >> 20) | ((board
        & 0x0000_0f0f_0000_0f0f) << 20);
    let r = (board & 0x00ff_00ff_ff00_ff00) | ((board & 0xff00_ff00_0000_0000) >> 40) | ((board
        & 0x0000_0000_00ff_00ff) << 40);
    proof {
        lemma_symmetries(b0);
    }
    r
}

/// Turns the board a half turn.
pub fn rotate180(board: Board) -> (r: Board)
    ensures
        is_symmetry(r, board, 2),
{
    let ud = reverse_ud(board);
    let r = reverse_lr(ud);
    proof {
        assert forall|i: int, c: int| 0 <= i < 4 && 0 <= c < 4 implies #[trigger] cell(r, 4 * i + c) == cell(board, sym_source(2, i, c)) by {
            assert(cell(r, 4 * i + c) == cell(ud, 4 * i + (3 - c)));
            assert(cell(ud, 4 * i + (3 - c)) == cell(board, 4 * (3 - i) + (3 - c)));
        }
    }
    r
}

/// Turns the board a quarter turn to the left.
pub fn rotate_l(board: Board) -> (r: Board)
    ensures
        is_symmetry(r, board, 1),
{
    let mut board = board;
    let ghost b0 = board;
    board = ((board & 0xff00_ff00_0000_0000) >> 32) | ((board & 0x00ff_00ff_0000_0000) << 8) | ((
    board & 0x0000_0000_ff00_ff00) >> 8) | ((board & 0x0000_0000_00ff_00ff) << 32);
    let r = ((board & 0xf0f0_0000_f0f0_0000) >> 16) | ((board & 0x0f0f_0000_0f0f_0000) << 4) | ((
    board & 0x0000_f0f0_0000_f0f0) >> 4) | ((board & 0x0000_0f0f_0000_0f0f) << 16);
    proof {
        lemma_symmetries(b0);
    }
    r
}

/// Turns the board a quarter turn to the right.
pub fn rotate_r(board: Board) -> (r: Board)
    ensures
        is_symmetry(r, board, 3),
{
    let mut board = board;
    let ghost b0 = board;
    board = ((board & 0xff00_ff00_0000_0000) >> 8) | ((board & 0x00ff_00ff_0000_0000) >> 32) | ((
    board & 0x0000_0000_ff00_ff00) << 32) | ((board & 0x0000_0000_00ff_00ff) << 8);
    let r = ((board & 0xf0f0_0000_f0f0_0000) >> 4) | ((board & 0x0f0f_0000_0f0f_0000) >> 16) | ((
    board & 0x0000_f0f0_0000_f0f0) << 16) | ((board & 0x0000_0f0f_0000_0f0f) << 4);
    proof {
        lemma_symmetries(b0);
    }
    r
}

/// The smaller of a board and its mirror image in the main diagonal.
pub fn canonical_diagonal(board: Board) -> (r: Board)
    ensures
        exists|m: u64| is_symmetry(m, board, 6) && r == if board <= m { board } else { m },
{
    let m = reverse_ul(board);
    if board <= m { board } else { m }
}

/// The board under each of the eight symmetries, in the order of `sym_source`.
pub fn symmetries(board: Board) -> (s: [Board; 8])
    ensures
        forall|k: int| 0 <= k < 8 ==> is_symmetry(#[trigger] s@[k], board, k),
{
    let s = [
        board,
        rotate_l(board),
        rotate180(board),
        rotate_r(board),
        reverse_lr(board),
        reverse_ud(board),
        reverse_ul(board),
        reverse_ur(board),
    ];
    proof {
        assert(is_symmetry(board, board, 0));
        assert forall|k: int| 0 <= k < 8 implies is_symmetry(#[trigger] s@[k], board, k) by {
            if k == 0 {} else if k == 1 {} else if k == 2 {} else if k == 3 {} else if k == 4 {} else if k == 5 {} else if k == 6 {} else {}
        }
    }
    s
}

/// Reverses the order of the sixteen cells (cell `p` goes to cell `15 - p`),
/// which turns the board a half turn.
pub fn reverse_nibbles(board: Board) -> (r: Board)
    ensures
        forall|p: int| 0 <= p < 16 ==> #[trigger] cell(r, p) == cell(board, 15 - p),
        is_symmetry(r, board, 2),
{
    let ghost b0 = board;
    let mut board = board;
    let mut out = 0u64;
    let mut k = 0usize;
    proof {
        lemma_shifted_ends(board, b0, 0);
        lemma_zero_cells(out);
    }
    while k < 16
        invariant
            k <= 16,
            shifted_by(board, b0, k as int),
            forall|p: int| 0 <= p < k ==> #[trigger] cell(out, p) == cell(b0, k - 1 - p),
            forall|p: int| k <= p < 16 ==> #[trigger] cell(out, p) == 0,
        decreases 16 - k,
    {
        proof {
            lemma_shifted_step(board, b0, k as int);
            lemma_push_cell(out, board & 0xf);
        }
        out = (out << 4) | (board & 0xf);
        board >>= 4;
        k += 1;
    }
    proof {
        assert forall|r: int, c: int| 0 <= r < 4 && 0 <= c < 4 implies #[trigger] cell(out, 4 * r + c) == cell(b0, sym_source(2, r, c)) by {
            assert(cell(out, 4 * r + c) == cell(b0, 15 - (4 * r + c)));
        }
    }
    out
}


/// The symmetry that undoes symmetry `kind`: the two rotations undo each
/// other, every other symmetry undoes itself.
pub open spec fn inverse_kind(kind: int) -> int {
    if kind == 1 {
        3
    } else if kind == 3 {
        1
    } else {
        kind
    }
}

/// Applying a symmetry and then its inverse gives the board back: a rotation
/// to the left is undone by one to the right, each mirror and the half turn
/// by itself.
#[verifier::spinoff_prover]
pub proof fn lemma_symmetry_inverse(b: u64, x: u64, y: u64, kind: int)
    requires
        0 <= kind < 8,
        is_symmetry(x, b, kind),
        is_symmetry(y, x, inverse_kind(kind)),
    ensures
        y == b,
{
    assert forall|p: int| 0 <= p < 16 implies #[trigger] cell(y, p) == cell(b, p) by {
        let r = p / 4;
        let c = p % 4;
        assert(p == 4 * r + c);
        let q = sym_source(inverse_kind(kind), r, c);
        let r2 = q / 4;
        let c2 = q % 4;
        assert(q == 4 * r2 + c2 && 0 <= r2 < 4 && 0 <= c2 < 4);
        assert(cell(y, 4 * r + c) == cell(x, q));
        assert(cell(x, 4 * r2 + c2) == cell(b, sym_source(kind, r2, c2)));
        assert(sym_source(kind, r2, c2) == p);
    }
    lemma_board_ext(y, b);
}

/// A symmetry of a board is one board: two results of the same symmetry on
/// the same board are equal.
pub proof fn lemma_symmetry_unique(b: u64, x: u64, y: u64, kind: int)
    requires
        is_symmetry(x, b, kind),
        is_symmetry(y, b, kind),
    ensures
        x == y,
{
    assert forall|p: int| 0 <= p < 16 implies #[trigger] cell(x, p) == cell(y, p) by {
        let r = p / 4;
        let c = p % 4;
        assert(p == 4 * r + c);
        assert(cell(x, 4 * r + c) == cell(b, sym_source(kind, r, c)));
        assert(cell(y, 4 * r + c) == cell(b, sym_source(kind, r, c)));
    }
    lemma_board_ext(x, y);
}

/// The half turn is two quarter turns: rotating left twice turns the board half way.
pub proof fn lemma_two_quarter_turns(b: u64, x: u64, y: u64)
    requires
        is_symmetry(x, b, 1),
        is_symmetry(y, x, 1),
    ensures
        is_symmetry(y, b, 2),
{
    assert forall|r: int, c: int| 0 <= r < 4 && 0 <= c < 4 implies #[trigger] cell(y, 4 * r + c) == cell(b, sym_source(2, r, c)) by {
        assert(cell(y, 4 * r + c) == cell(x, 4 * c + (3 - r)));
        assert(cell(x, 4 * c + (3 - r)) == cell(b, 4 * (3 - r) + (3 - c)));
    }
}

/// The symmetry that applying `k` and then `j` makes (in the numbering of
/// `sym_source`).
pub open spec fn compose_kind(j: int, k: int) -> int {
    let t: Seq<Seq<int>> = seq![
        seq![0int, 1, 2, 3, 4, 5, 6, 7],
        seq![1int, 2, 3, 0, 6, 7, 5, 4],
        seq![2int, 3, 0, 1, 5, 4, 7, 6],
        seq![3int, 0, 1, 2, 7, 6, 4, 5],
        seq![4int, 7, 5, 6, 0, 2, 3, 1],
        seq![5int, 6, 4, 7, 2, 0, 1, 3],
        seq![6int, 4, 7, 5, 1, 3, 0, 2],
        seq![7int, 5, 6, 4, 3, 1, 2, 0],
    ];
    t[j][k]
}

/// The row of the source cell of row `r`, column `c` under symmetry `kind`
/// (see `sym_source`).
pub open spec fn src_row(kind: int, r: int, c: int) -> int {
    if kind == 0 || kind == 4 {
        r
    } else if kind == 1 || kind == 6 {
        c
    } else if kind == 2 || kind == 5 {
        3 - r
    } else {
        3 - c
    }
}

/// The column of that source cell.
pub open spec fn src_col(kind: int, r: int, c: int) -> int {
    if kind == 0 || kind == 5 {
        c
    } else if kind == 1 || kind == 7 {
        3 - r
    } else if kind == 2 || kind == 4 {
        3 - c
    } else {
        r
    }
}

proof fn lemma_compose_index(j: int, k: int, r: int, c: int)
    requires
        0 <= j < 8,
        0 <= k < 8,
    ensures
        sym_source(k, src_row(j, r, c), src_col(j, r, c)) == sym_source(compose_kind(j, k), r, c),
{
    if j == 0 {
        if k == 0 {
        } else if k == 1 {
        } else if k == 2 {
        } else if k == 3 {
        } else if k == 4 {
        } else if k == 5 {
        } else if k == 6 {
        } else {
        }
    } else if j == 1 {
        if k == 0 {
        } else if k == 1 {
        } else if k == 2 {
        } else if k == 3 {
        } else if k == 4 {
        } else if k == 5 {
        } else if k == 6 {
        } else {
        }
    } else if j == 2 {
        if k == 0 {
        } else if k == 1 {
        } else if k == 2 {
        } else if k == 3 {
        } else if k == 4 {
        } else if k == 5 {
        } else if k == 6 {
        } else {
        }
    } else if j == 3 {
        if k == 0 {
        } else if k == 1 {
        } else if k == 2 {
        } else if k == 3 {
        } else if k == 4 {
        } else if k == 5 {
        } else if k == 6 {
        } else {
        }
    } else if j == 4 {
        if k == 0 {
        } else if k == 1 {
        } else if k == 2 {
        } else if k == 3 {
        } else if k == 4 {
        } else if k == 5 {
        } else if k == 6 {
        } else {
        }
    } else if j == 5 {
        if k == 0 {
        } else if k == 1 {
        } else if k == 2 {
        } else if k == 3 {
        } else if k == 4 {
        } else if k == 5 {
        } else if k == 6 {
        } else {
        }
    } else if j == 6 {
        if k == 0 {
        } else if k == 1 {
        } else if k == 2 {
        } else if k == 3 {
        } else if k == 4 {
        } else if k == 5 {
        } else if k == 6 {
        } else {
        }
    } else {
        if k == 0 {
        } else if k == 1 {
        } else if k == 2 {
        } else if k == 3 {
        } else if k == 4 {
        } else if k == 5 {
        } else if k == 6 {
        } else {
        }
    }
}

/// Symmetries compose: the image under `j` of the image under `k` is the
/// image under `compose_kind(j, k)`.
pub proof fn lemma_symmetry_compose(b: u64, x: u64, y: u64, j: int, k: int)
    requires
        0 <= j < 8,
        0 <= k < 8,
        is_symmetry(x, b, k),
        is_symmetry(y, x, j),
    ensures
        is_symmetry(y, b, compose_kind(j, k)),
{
    assert forall|r: int, c: int| 0 <= r < 4 && 0 <= c < 4 implies #[trigger] cell(y, 4 * r + c) == cell(b, sym_source(compose_kind(j, k), r, c)) by {
        let rr = src_row(j, r, c);
        let cc = src_col(j, r, c);
        assert(sym_source(j, r, c) == 4 * rr + cc);
        assert(cell(x, 4 * rr + cc) == cell(b, sym_source(k, rr, cc)));
        lemma_compose_index(j, k, r, c);
    }
}

/// The eight images of any image of a board are the board's eight images,
/// each once: composing with a symmetry permutes the symmetries, on either side.
pub proof fn lemma_compose_permutes(k: int)
    requires
        0 <= k < 8,
    ensures
        forall|j: int| 0 <= j < 8 ==> 0 <= #[trigger] compose_kind(j, k) < 8,
        forall|j1: int, j2: int| 0 <= j1 < 8 && 0 <= j2 < 8 && #[trigger] compose_kind(j1, k) == #[trigger] compose_kind(j2, k)
            ==> j1 == j2,
        forall|j1: int, j2: int| 0 <= j1 < 8 && 0 <= j2 < 8 && #[trigger] compose_kind(k, j1) == #[trigger] compose_kind(k, j2)
            ==> j1 == j2,
{
}

/// The cells of a board, in order.
pub open spec fn cells_seq(b: u64) -> Seq<u64> {
    Seq::new(16, |p: int| cell(b, p))
}

/// 1 when the value is `rank`, else 0.
#[verifier::opaque]
pub open spec fn hit(v: u64, rank: int) -> int {
    if v == rank { 1 } else { 0 }
}

/// How many of sixteen values equal `rank`.
pub open spec fn rank_hits(s: Seq<u64>, rank: int) -> int {
    hit(s[0], rank) + hit(s[1], rank) + hit(s[2], rank) + hit(s[3], rank) + hit(s[4], rank) + hit(s[5], rank) + hit(s[6], rank) + hit(s[7], rank) + hit(s[8], rank) + hit(s[9], rank) + hit(s[10], rank) + hit(s[11], rank) + hit(s[12], rank) + hit(s[13], rank) + hit(s[14], rank) + hit(s[15], rank)
}

/// The number of tiles of a rank, cell by cell.
proof fn lemma_count_cells(b: u64, rank: int)
    ensures
        count_of(b, rank) == rank_hits(cells_seq(b), rank),
{
    reveal(hit);
    reveal_with_fuel(rank_count, 17);
}

/// Values rearranged as symmetry 0 rearranges the cells hold as many of each rank.
proof fn lemma_hits_permuted_0(xs: Seq<u64>, bs: Seq<u64>, rank: int)
    requires
        xs[0] == bs[0],
        xs[1] == bs[1],
        xs[2] == bs[2],
        xs[3] == bs[3],
        xs[4] == bs[4],
        xs[5] == bs[5],
        xs[6] == bs[6],
        xs[7] == bs[7],
        xs[8] == bs[8],
        xs[9] == bs[9],
        xs[10] == bs[10],
        xs[11] == bs[11],
        xs[12] == bs[12],
        xs[13] == bs[13],
        xs[14] == bs[14],
        xs[15] == bs[15],
    ensures
        rank_hits(xs, rank) == rank_hits(bs, rank),
{
}

/// Values rearranged as symmetry 1 rearranges the cells hold as many of each rank.
proof fn lemma_hits_permuted_1(xs: Seq<u64>, bs: Seq<u64>, rank: int)
    requires
        xs[0] == bs[3],
        xs[1] == bs[7],
        xs[2] == bs[11],
        xs[3] == bs[15],
        xs[4] == bs[2],
        xs[5] == bs[6],
        xs[6] == bs[10],
        xs[7] == bs[14],
        xs[8] == bs[1],
        xs[9] == bs[5],
        xs[10] == bs[9],
        xs[11] == bs[13],
        xs[12] == bs[0],
        xs[13] == bs[4],
        xs[14] == bs[8],
        xs[15] == bs[12],
    ensures
        rank_hits(xs, rank) == rank_hits(bs, rank),
{
}

/// Values rearranged as symmetry 2 rearranges the cells hold as many of each rank.
proof fn lemma_hits_permuted_2(xs: Seq<u64>, bs: Seq<u64>, rank: int)
    requires
        xs[0] == bs[15],
        xs[1] == bs[14],
        xs[2] == bs[13],
        xs[3] == bs[12],
        xs[4] == bs[11],
        xs[5] == bs[10],
        xs[6] == bs[9],
        xs[7] == bs[8],
        xs[8] == bs[7],
        xs[9] == bs[6],
        xs[10] == bs[5],
        xs[11] == bs[4],
        xs[12] == bs[3],
        xs[13] == bs[2],
        xs[14] == bs[1],
        xs[15] == bs[0],
    ensures
        rank_hits(xs, rank) == rank_hits(bs, rank),
{
}

/// Values rearranged as symmetry 3 rearranges the cells hold as many of each rank.
proof fn lemma_hits_permuted_3(xs: Seq<u64>, bs: Seq<u64>, rank: int)
    requires
        xs[0] == bs[12],
        xs[1] == bs[8],
        xs[2] == bs[4],
        xs[3] == bs[0],
        xs[4] == bs[13],
        xs[5] == bs[9],
        xs[6] == bs[5],
        xs[7] == bs[1],
        xs[8] == bs[14],
        xs[9] == bs[10],
        xs[10] == bs[6],
        xs[11] == bs[2],
        xs[12] == bs[15],
        xs[13] == bs[11],
        xs[14] == bs[7],
        xs[15] == bs[3],
    ensures
        rank_hits(xs, rank) == rank_hits(bs, rank),
{
}

/// Values rearranged as symmetry 4 rearranges the cells hold as many of each rank.
proof fn lemma_hits_permuted_4(xs: Seq<u64>, bs: Seq<u64>, rank: int)
    requires
        xs[0] == bs[3],
        xs[1] == bs[2],
        xs[2] == bs[1],
        xs[3] == bs[0],
        xs[4] == bs[7],
        xs[5] == bs[6],
        xs[6] == bs[5],
        xs[7] == bs[4],
        xs[8] == bs[11],
        xs[9] == bs[10],
        xs[10] == bs[9],
        xs[11] == bs[8],
        xs[12] == bs[15],
        xs[13] == bs[14],
        xs[14] == bs[13],
        xs[15] == bs[12],
    ensures
        rank_hits(xs, rank) == rank_hits(bs, rank),
{
}

/// Values rearranged as symmetry 5 rearranges the cells hold as many of each rank.
proof fn lemma_hits_permuted_5(xs: Seq<u64>, bs: Seq<u64>, rank: int)
    requires
        xs[0] == bs[12],
        xs[1] == bs[13],
        xs[2] == bs[14],
        xs[3] == bs[15],
        xs[4] == bs[8],
        xs[5] == bs[9],
        xs[6] == bs[10],
        xs[7] == bs[11],
        xs[8] == bs[4],
        xs[9] == bs[5],
        xs[10] == bs[6],
        xs[11] == bs[7],
        xs[12] == bs[0],
        xs[13] == bs[1],
        xs[14] == bs[2],
        xs[15] == bs[3],
    ensures
        rank_hits(xs, rank) == rank_hits(bs, rank),
{
}

/// Values rearranged as symmetry 6 rearranges the cells hold as many of each rank.
proof fn lemma_hits_permuted_6(xs: Seq<u64>, bs: Seq<u64>, rank: int)
    requires
        xs[0] == bs[0],
        xs[1] == bs[4],
        xs[2] == bs[8],
        xs[3] == bs[12],
        xs[4] == bs[1],
        xs[5] == bs[5],
        xs[6] == bs[9],
        xs[7] == bs[13],
        xs[8] == bs[2],
        xs[9] == bs[6],
        xs[10] == bs[10],
        xs[11] == bs[14],
        xs[12] == bs[3],
        xs[13] == bs[7],
        xs[14] == bs[11],
        xs[15] == bs[15],
    ensures
        rank_hits(xs, rank) == rank_hits(bs, rank),
{
}

/// Values rearranged as symmetry 7 rearranges the cells hold as many of each rank.
proof fn lemma_hits_permuted_7(xs: Seq<u64>, bs: Seq<u64>, rank: int)
    requires
        xs[0] == bs[15],
        xs[1] == bs[11],
        xs[2] == bs[7],
        xs[3] == bs[3],
        xs[4] == bs[14],
        xs[5] == bs[10],
        xs[6] == bs[6],
        xs[7] == bs[2],
        xs[8] == bs[13],
        xs[9] == bs[9],
        xs[10] == bs[5],
        xs[11] == bs[1],
        xs[12] == bs[12],
        xs[13] == bs[8],
        xs[14] == bs[4],
        xs[15] == bs[0],
    ensures
        rank_hits(xs, rank) == rank_hits(bs, rank),
{
}

/// A symmetry keeps the number of tiles of each rank.
pub proof fn lemma_symmetry_keeps_counts(b: u64, x: u64, kind: int, rank: int)
    requires
        0 <= kind < 8,
        is_symmetry(x, b, kind),
    ensures
        count_of(x, rank) == count_of(b, rank),
{
    lemma_count_cells(b, rank);
    lemma_count_cells(x, rank);
    let xs = cells_seq(x);
    let bs = cells_seq(b);
    assert forall|p: int| 0 <= p < 16 implies #[trigger] xs[p] == bs[sym_source(kind, p / 4, p % 4)] by {
        assert(p == 4 * (p / 4) + p % 4);
        assert(cell(x, 4 * (p / 4) + p % 4) == cell(b, sym_source(kind, p / 4, p % 4)));
    }
    if kind == 0 {
        assert(xs[0] == bs[0]);
        assert(xs[1] == bs[1]);
        assert(xs[2] == bs[2]);
        assert(xs[3] == bs[3]);
        assert(xs[4] == bs[4]);
        assert(xs[5] == bs[5]);
        assert(xs[6] == bs[6]);
        assert(xs[7] == bs[7]);
        assert(xs[8] == bs[8]);
        assert(xs[9] == bs[9]);
        assert(xs[10] == bs[10]);
        assert(xs[11] == bs[11]);
        assert(xs[12] == bs[12]);
        assert(xs[13] == bs[13]);
        assert(xs[14] == bs[14]);
        assert(xs[15] == bs[15]);
        lemma_hits_permuted_0(xs, bs, rank);
    } else if kind == 1 {
        assert(xs[0] == bs[3]);
        assert(xs[1] == bs[7]);
        assert(xs[2] == bs[11]);
        assert(xs[3] == bs[15]);
        assert(xs[4] == bs[2]);
        assert(xs[5] == bs[6]);
        assert(xs[6] == bs[10]);
        assert(xs[7] == bs[14]);
        assert(xs[8] == bs[1]);
        assert(xs[9] == bs[5]);
        assert(xs[10] == bs[9]);
        assert(xs[11] == bs[13]);
        assert(xs[12] == bs[0]);
        assert(xs[13] == bs[4]);
        assert(xs[14] == bs[8]);
        assert(xs[15] == bs[12]);
        lemma_hits_permuted_1(xs, bs, rank);
    } else if kind == 2 {
        assert(xs[0] == bs[15]);
        assert(xs[1] == bs[14]);
        assert(xs[2] == bs[13]);
        assert(xs[3] == bs[12]);
        assert(xs[4] == bs[11]);
        assert(xs[5] == bs[10]);
        assert(xs[6] == bs[9]);
        assert(xs[7] == bs[8]);
        assert(xs[8] == bs[7]);
        assert(xs[9] == bs[6]);
        assert(xs[10] == bs[5]);
        assert(xs[11] == bs[4]);
        assert(xs[12] == bs[3]);
        assert(xs[13] == bs[2]);
        assert(xs[14] == bs[1]);
        assert(xs[15] == bs[0]);
        lemma_hits_permuted_2(xs, bs, rank);
    } else if kind == 3 {
        assert(xs[0] == bs[12]);
        assert(xs[1] == bs[8]);
        assert(xs[2] == bs[4]);
        assert(xs[3] == bs[0]);
        assert(xs[4] == bs[13]);
        assert(xs[5] == bs[9]);
        assert(xs[6] == bs[5]);
        assert(xs[7] == bs[1]);
        assert(xs[8] == bs[14]);
        assert(xs[9] == bs[10]);
        assert(xs[10] == bs[6]);
        assert(xs[11] == bs[2]);
        assert(xs[12] == bs[15]);
        assert(xs[13] == bs[11]);
        assert(xs[14] == bs[7]);
        assert(xs[15] == bs[3]);
        lemma_hits_permuted_3(xs, bs, rank);
    } else if kind == 4 {
        assert(xs[0] == bs[3]);
        assert(xs[1] == bs[2]);
        assert(xs[2] == bs[1]);
        assert(xs[3] == bs[0]);
        assert(xs[4] == bs[7]);
        assert(xs[5] == bs[6]);
        assert(xs[6] == bs[5]);
        assert(xs[7] == bs[4]);
        assert(xs[8] == bs[11]);
        assert(xs[9] == bs[10]);
        assert(xs[10] == bs[9]);
        assert(xs[11] == bs[8]);
        assert(xs[12] == bs[15]);
        assert(xs[13] == bs[14]);
        assert(xs[14] == bs[13]);
        assert(xs[15] == bs[12]);
        lemma_hits_permuted_4(xs, bs, rank);
    } else if kind == 5 {
        assert(xs[0] == bs[12]);
        assert(xs[1] == bs[13]);
        assert(xs[2] == bs[14]);
        assert(xs[3] == bs[15]);
        assert(xs[4] == bs[8]);
        assert(xs[5] == bs[9]);
        assert(xs[6] == bs[10]);
        assert(xs[7] == bs[11]);
        assert(xs[8] == bs[4]);
        assert(xs[9] == bs[5]);
        assert(xs[10] == bs[6]);
        assert(xs[11] == bs[7]);
        assert(xs[12] == bs[0]);
        assert(xs[13] == bs[1]);
        assert(xs[14] == bs[2]);
        assert(xs[15] == bs[3]);
        lemma_hits_permuted_5(xs, bs, rank);
    } else if kind == 6 {
        assert(xs[0] == bs[0]);
        assert(xs[1] == bs[4]);
        assert(xs[2] == bs[8]);
        assert(xs[3] == bs[12]);
        assert(xs[4] == bs[1]);
        assert(xs[5] == bs[5]);
        assert(xs[6] == bs[9]);
        assert(xs[7] == bs[13]);
        assert(xs[8] == bs[2]);
        assert(xs[9] == bs[6]);
        assert(xs[10] == bs[10]);
        assert(xs[11] == bs[14]);
        assert(xs[12] == bs[3]);
        assert(xs[13] == bs[7]);
        assert(xs[14] == bs[11]);
        assert(xs[15] == bs[15]);
        lemma_hits_permuted_6(xs, bs, rank);
    } else {
        assert(xs[0] == bs[15]);
        assert(xs[1] == bs[11]);
        assert(xs[2] == bs[7]);
        assert(xs[3] == bs[3]);
        assert(xs[4] == bs[14]);
        assert(xs[5] == bs[10]);
        assert(xs[6] == bs[6]);
        assert(xs[7] == bs[2]);
        assert(xs[8] == bs[13]);
        assert(xs[9] == bs[9]);
        assert(xs[10] == bs[5]);
        assert(xs[11] == bs[1]);
        assert(xs[12] == bs[12]);
        assert(xs[13] == bs[8]);
        assert(xs[14] == bs[4]);
        assert(xs[15] == bs[0]);
        lemma_hits_permuted_7(xs, bs, rank);
    }
}

} // verus!
