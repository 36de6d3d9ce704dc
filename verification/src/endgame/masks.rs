//! Tile patterns of the endgame engine: masks of cells that must all hold
//! rank 15 (the placeholder for a large tile), the corner pattern scores,
//! and the masking of large tiles.

use vstd::prelude::*;
use crate::board::{Board, cell, shifted_by, lemma_shifted_step, lemma_shifted_ends, lemma_set_cell, lemma_zero_cells, lemma_cell_bound};

verus! {

pub const M6_NEG600: [Board; 8] = [0xf000fff0ff, 0xff0fff000f000000, 0xff0fff0000000f, 0xf0000000fff0ff00, 0xf0ff00ff00f00000, 0xf00000fff00ff, 0xff00fff00000f000, 0xf00ff00ff0f];

pub const M6_NEG500: [Board; 8] = [0xf0000000ff0fff00, 0xfff0ff0000000f, 0xf0000000fff0ff, 0xff0fff0000000f00, 0xff00ff0f0000f000, 0xf0ff00ff000000f0, 0xf000000ff00ff0f, 0xf0000f0ff00ff];

pub const M6_NEG1600: [Board; 8] = [0xf00000fff0ff, 0xff0fff00000f0000, 0xff00ff00000f0f, 0xf0f00000ff00ff00, 0xf0ff00fff0000000, 0xf0f000000ff00ff, 0xff00ff000000f0f0, 0xfff00ff0f];

pub const M6_NEG2400: [Board; 8] = [0xff0fff0f, 0xf0fff0ff00000000, 0xff000000ff00ff, 0xff00ff000000ff00, 0xff0fff0f00000000, 0xff00ff000000ff, 0xff000000ff00ff00, 0xf0fff0ff];

pub const M6_POS600: [Board; 8] = [0xffff0ff, 0xff0ffff000000000, 0xff00ff00f0000f, 0xf0000f00ff00ff00, 0xf0ff0fff00000000, 0xf00f000ff00ff, 0xff00ff000f00f000, 0xfff0ff0f];

pub const M4_POS3000: [Board; 8] = [0xff00f00f, 0xff00f00000000f, 0xfff00f, 0xff000f000000f000, 0xf00000000f00ff00, 0xf00f00ff00000000, 0xf00fff0000000000, 0xf000000f000ff];

pub const M4_POS800: [Board; 8] = [0xf000f000f00f, 0xf000ff00f, 0xfff000000000f000, 0xf00000000000fff0, 0xf00f000f000f0000, 0xf00ff000f0000000, 0xf000000000fff, 0xfff00000000000f];

pub const M4_POS1600: [Board; 8] = [0xff000000f000f000, 0xf000f000000ff, 0xf000f0ff, 0xff0f000f00000000, 0xf000f0000000ff00, 0xf0fff00000000000, 0xfff0f, 0xff0000000f000f];

pub const M3_POS3000: [Board; 4] = [0xf00000000f00f, 0xf00f00000000000f, 0xf00000000000f00f, 0xf00f00000000f000];

pub const M3_POS2000: [Board; 8] = [0xf0000000000f00f, 0xf000000000f00f, 0xf0000000000ff000, 0xf000000f0000f000, 0xf00f0000000000f0, 0xf00f000000000f00, 0xf0000f000000f, 0xff0000000000f];

pub const M3_POS1000: [Board; 8] = [0xff00f, 0xf000f00f, 0xf00000000000ff00, 0xff0000000000f000, 0xf00ff00000000000, 0xf00f000f00000000, 0xff00000000000f, 0xf0000000000ff];

pub const MASKS_23: [Board; 8] = [0xff00fff0, 0xfff00ff00000000, 0xf00ff00ff, 0xff00ff00f0000000, 0xfff0ff0000000000, 0xff00ff000f0000, 0xf000ff00ff00, 0xff0fff];

pub const MASKS_22: [Board; 4] = [0xff00ff0000000000, 0xff00ff00000000, 0xff00ff00, 0xff00ff];

pub const MASKS_21: [Board; 4] = [0xff00f00000000000, 0xff000f00000000, 0xf000ff00, 0xf00ff];

pub const MASKS_20: [Board; 8] = [0xff00, 0xff000000000000, 0xf000f, 0xf000f00000000000, 0xff00000000000000, 0xf000f00000000, 0xf000f000, 0xff];

/// Whether every bit set in `mask` is set in `board`.
pub open spec fn covers(board: u64, mask: u64) -> bool {
    board & mask == mask
}

/// The first mask that `board` covers, 0 when there is none.
pub open spec fn first_covered(masks: Seq<u64>, board: u64) -> u64
    decreases masks.len(),
{
    if masks.len() == 0 {
        0
    } else if covers(board, masks[0]) {
        masks[0]
    } else {
        first_covered(masks.drop_first(), board)
    }
}

/// Whether `board` covers one of the masks.
pub open spec fn covers_any(masks: Seq<u64>, board: u64) -> bool {
    exists|i: int| 0 <= i < masks.len() && covers(board, #[trigger] masks[i])
}

proof fn lemma_first_covered_skip(masks: Seq<u64>, board: u64, i: int)
    requires
        0 <= i <= masks.len(),
        forall|t: int| 0 <= t < i ==> !covers(board, #[trigger] masks[t]),
    ensures
        first_covered(masks, board) == first_covered(masks.skip(i), board),
    decreases i,
{
    if i > 0 {
        assert(!covers(board, masks[0]));
        assert(masks.drop_first().skip(i - 1) =~= masks.skip(i));
        lemma_first_covered_skip(masks.drop_first(), board, i - 1);
    } else {
        assert(masks.skip(0) =~= masks);
    }
}

/// The first of the masks that the board covers, 0 when none is.
pub fn first_matching_mask(board: Board, masks: &[Board]) -> (m: Board)
    ensures
        m == first_covered(masks@, board),
{
    let mut i = 0usize;
    while i < masks.len()
        invariant
            0 <= i <= masks@.len(),
            forall|t: int| 0 <= t < i ==> !covers(board, #[trigger] masks@[t]),
        decreases masks@.len() - i,
    {
        if (board & masks[i]) == masks[i] {
            proof {
                lemma_first_covered_skip(masks@, board, i as int);
            }
            return masks[i];
        }
        i += 1;
    }
    proof {
        lemma_first_covered_skip(masks@, board, i as int);
    }
    0
}

/// Whether the board covers one of the masks.
pub fn any_mask(board: Board, masks: &[Board]) -> (found: bool)
    ensures
        found == covers_any(masks@, board),
{
    let mut i = 0usize;
    while i < masks.len()
        invariant
            0 <= i <= masks@.len(),
            forall|t: int| 0 <= t < i ==> !covers(board, #[trigger] masks@[t]),
        decreases masks@.len() - i,
    {
        if (board & masks[i]) == masks[i] {
            return true;
        }
        i += 1;
    }
    false
}

/// The first pattern of two by three large tiles (rank 15) that the board holds.
pub fn get_23_mask(board: Board) -> (m: Board)
    ensures
        m == first_covered(MASKS_23@, board),
{
    first_matching_mask(board, &MASKS_23)
}

/// The first two by two block of large tiles in a corner that the board holds.
pub fn get_22_mask(board: Board) -> (m: Board)
    ensures
        m == first_covered(MASKS_22@, board),
{
    first_matching_mask(board, &MASKS_22)
}

/// The first corner pattern of two plus one large tiles that the board holds.
pub fn get_21_mask(board: Board) -> (m: Board)
    ensures
        m == first_covered(MASKS_21@, board),
{
    first_matching_mask(board, &MASKS_21)
}

/// The first pair of large tiles along a corner that the board holds.
pub fn get_20_mask(board: Board) -> (m: Board)
    ensures
        m == first_covered(MASKS_20@, board),
{
    first_matching_mask(board, &MASKS_20)
}

/// The corner adjustment of the evaluation for boards with `masked_count`
/// large tiles, by the first pattern list (in a fixed order) that the board
/// matches.
pub open spec fn corner_penalty(board: u64, masked_count: int) -> int {
    if masked_count == 6 && covers_any(M6_NEG600@, board) {
        -600
    } else if masked_count == 6 && covers_any(M6_NEG500@, board) {
        -500
    } else if masked_count == 6 && covers_any(M6_NEG1600@, board) {
        -1600
    } else if masked_count == 6 && covers_any(M6_NEG2400@, board) {
        -2400
    } else if masked_count == 6 && covers_any(M6_POS600@, board) {
        600
    } else if masked_count == 4 && covers_any(M4_POS3000@, board) {
        3000
    } else if masked_count == 4 && covers_any(M4_POS800@, board) {
        800
    } else if masked_count == 4 && covers_any(M4_POS1600@, board) {
        1600
    } else if (masked_count == 3 || masked_count == 4) && covers_any(M3_POS3000@, board) {
        3000
    } else if (masked_count == 3 || masked_count == 4) && covers_any(M3_POS2000@, board) {
        2000
    } else if masked_count == 3 && covers_any(M3_POS1000@, board) {
        1000
    } else {
        0
    }
}

/// The corner adjustment for a board with `masked_count` large tiles.
pub fn check_corner_penalty(board: Board, masked_count: i32) -> (p: i32)
    ensures
        p == corner_penalty(board, masked_count as int),
{
    if masked_count == 6 {
        if any_mask(board, &M6_NEG600) {
            return -600;
        }
        if any_mask(board, &M6_NEG500) {
            return -500;
        }
        if any_mask(board, &M6_NEG1600) {
            return -1600;
        }
        if any_mask(board, &M6_NEG2400) {
            return -2400;
        }
        if any_mask(board, &M6_POS600) {
            return 600;
        }
    }
    if masked_count == 4 {
        if any_mask(board, &M4_POS3000) {
            return 3000;
        }
        if any_mask(board, &M4_POS800) {
            return 800;
        }
        if any_mask(board, &M4_POS1600) {
            return 1600;
        }
    }
    if masked_count == 3 || masked_count == 4 {
        if any_mask(board, &M3_POS3000) {
            return 3000;
        }
        if any_mask(board, &M3_POS2000) {
            return 2000;
        }
    }
    if masked_count == 3 && any_mask(board, &M3_POS1000) {
        return 1000;
    }
    0
}

proof fn lemma_empty_mask_bits(board: u64, x: u64, r: u64)
    by (bit_vector)
    requires
        x == {
            let x1 = board | (board >> 1);
            x1 | (x1 >> 2)
        },
        r == (!x) & 0x1111_1111_1111_1111,
    ensures
        (r >> 0u64) & 0xf == if (board >> 0u64) & 0xf == 0 { 1u64 } else { 0u64 },
        (r >> 4u64) & 0xf == if (board >> 4u64) & 0xf == 0 { 1u64 } else { 0u64 },
        (r >> 8u64) & 0xf == if (board >> 8u64) & 0xf == 0 { 1u64 } else { 0u64 },
        (r >> 12u64) & 0xf == if (board >> 12u64) & 0xf == 0 { 1u64 } else { 0u64 },
        (r >> 16u64) & 0xf == if (board >> 16u64) & 0xf == 0 { 1u64 } else { 0u64 },
        (r >> 20u64) & 0xf == if (board >> 20u64) & 0xf == 0 { 1u64 } else { 0u64 },
        (r >> 24u64) & 0xf == if (board >> 24u64) & 0xf == 0 { 1u64 } else { 0u64 },
        (r >> 28u64) & 0xf == if (board >> 28u64) & 0xf == 0 { 1u64 } else { 0u64 },
        (r >> 32u64) & 0xf == if (board >> 32u64) & 0xf == 0 { 1u64 } else { 0u64 },
        (r >> 36u64) & 0xf == if (board >> 36u64) & 0xf == 0 { 1u64 } else { 0u64 },
        (r >> 40u64) & 0xf == if (board >> 40u64) & 0xf == 0 { 1u64 } else { 0u64 },
        (r >> 44u64) & 0xf == if (board >> 44u64) & 0xf == 0 { 1u64 } else { 0u64 },
        (r >> 48u64) & 0xf == if (board >> 48u64) & 0xf == 0 { 1u64 } else { 0u64 },
        (r >> 52u64) & 0xf == if (board >> 52u64) & 0xf == 0 { 1u64 } else { 0u64 },
        (r >> 56u64) & 0xf == if (board >> 56u64) & 0xf == 0 { 1u64 } else { 0u64 },
        (r >> 60u64) & 0xf == if (board >> 60u64) & 0xf == 0 { 1u64 } else { 0u64 },
{
}

/// Marks the empty cells: cell `p` of the result is 1 when cell `p` of the
/// board is empty, 0 otherwise.
pub fn empty_cell_mask(board: Board) -> (m: Board)
    ensures
        forall|p: int| 0 <= p < 16 ==> #[trigger] cell(m, p) == if cell(board, p) == 0 { 1u64 } else { 0u64 },
{
    let mut x = board | (board >> 1);
    x |= x >> 2;
    let m = (!x) & 0x1111_1111_1111_1111;
    proof {
        lemma_empty_mask_bits(board, x, m);
        assert forall|p: int| 0 <= p < 16 implies #[trigger] cell(m, p) == if cell(board, p) == 0 { 1u64 } else { 0u64 } by {
            if p == 0 {} else if p == 1 {} else if p == 2 {} else if p == 3 {} else if p == 4 {} else if p == 5 {} else if p == 6 {} else if p == 7 {}
            else if p == 8 {} else if p == 9 {} else if p == 10 {} else if p == 11 {} else if p == 12 {} else if p == 13 {} else if p == 14 {} else {}
        }
    }
    m
}

/// The value written for cell `p`: `mask` in place of a tile of rank
/// `threshold` or more, else the tile's rank.
pub open spec fn masked_cell(board: u64, threshold: u8, mask: u8, p: int) -> u8 {
    if cell(board, p) >= threshold { mask } else { cell(board, p) as u8 }
}

/// The values of the first `n` cells, each shifted to its cell's place and
/// or-ed together (a `mask` of 16 or more spills into the next cells).
pub open spec fn masked_upto(board: u64, threshold: u8, mask: u8, n: int) -> u64
    decreases n,
{
    if n <= 0 {
        0
    } else {
        masked_upto(board, threshold, mask, n - 1) | ((masked_cell(board, threshold, mask, n - 1) as u64) << ((4 * (n - 1)) as u64))
    }
}

/// Replaces every tile of rank `threshold` or more by rank `mask`.
pub fn mask_large_tiles(board: Board, threshold: u8, mask: u8) -> (r: Board)
    ensures
        r == masked_upto(board, threshold, mask, 16),
        mask < 16 ==> forall|p: int| 0 <= p < 16 ==> #[trigger] cell(r, p) == if cell(board, p) >= threshold {
            mask as u64
        } else {
            cell(board, p)
        },
{
    let ghost b0 = board;
    let mut board = board;
    let mut out = 0u64;
    let mut pos = 0u64;
    proof {
        lemma_shifted_ends(board, b0, 0);
        lemma_zero_cells(out);
    }
    while pos < 16
        invariant
            pos <= 16,
            shifted_by(board, b0, pos as int),
            mask < 16 ==> forall|p: int| 0 <= p < pos ==> #[trigger] cell(out, p) == if cell(b0, p) >= threshold {
                mask as u64
            } else {
                cell(b0, p)
            },
            mask < 16 ==> forall|p: int| pos <= p < 16 ==> #[trigger] cell(out, p) == 0,
            out == masked_upto(b0, threshold, mask, pos as int),
        decreases 16 - pos,
    {
        proof {
            lemma_shifted_step(board, b0, pos as int);
        }
        let mut value = (board & 0xf) as u8;
        if value >= threshold {
            value = mask;
        }
        proof {
            if mask < 16 {
                lemma_set_cell(out, value as u64, pos as int);
            }
            lemma_cell_bound(b0, pos as int);
            assert(value == masked_cell(b0, threshold, mask, pos as int));
        }
        out |= (value as u64) << (pos * 4);
        board >>= 4;
        pos += 1;
    }
    out
}

/// The cells of a masked board: every tile of rank `threshold` or more reads
/// `mask`, every other cell is unchanged.
pub proof fn lemma_masked_cells(board: u64, threshold: u8, mask: u8, n: int)
    requires
        mask < 16,
        0 <= n <= 16,
    ensures
        forall|p: int| 0 <= p < n ==> #[trigger] cell(masked_upto(board, threshold, mask, n), p) == if cell(board, p)
            >= threshold {
            mask as u64
        } else {
            cell(board, p)
        },
        forall|p: int| n <= p < 16 ==> #[trigger] cell(masked_upto(board, threshold, mask, n), p) == 0,
    decreases n,
{
    if n == 0 {
        lemma_zero_cells(0u64);
    } else {
        lemma_masked_cells(board, threshold, mask, n - 1);
        let prev = masked_upto(board, threshold, mask, n - 1);
        let v = masked_cell(board, threshold, mask, n - 1);
        lemma_cell_bound(board, n - 1);
        lemma_set_cell(prev, v as u64, n - 1);
    }
}

} // verus!
