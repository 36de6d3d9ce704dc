//! Whether a board is a "mess": its large tiles (rank 8 or more, worth more
//! than 128) are not laid out in one of the shapes the endgame search
//! expects. Positions are bit sets over the sixteen cells.

use vstd::prelude::*;
use crate::board::{Board, cell, shifted_by, lemma_shifted_step, lemma_shifted_ends, lemma_cell_bound};
use crate::endgame::rules::trem;

verus! {

/// The allowed positions of six large tiles.
pub const MESS_ALLOWED_6: [u32; 4] = [0x3f, 0xcf, 0xf300, 0xfc00];

/// The allowed positions of four large tiles.
pub const MESS_ALLOWED_4: [u32; 24] = [
    0xf, 0x1111, 0xf000, 0x8888, 0x17, 0x3110, 0xe800, 0x88c, 0x113, 0x7100, 0xc880, 0x8e,
    0x33, 0x3300, 0xcc00, 0xcc, 0x1b, 0x1013, 0x8d, 0x808c, 0x3101, 0xb100, 0xc808, 0xd800,
];

/// The allowed positions of three large tiles.
pub const MESS_ALLOWED_3: [u32; 20] = [
    0x7, 0xe, 0x888, 0x8880, 0xe000, 0x7000, 0x1110, 0x111, 0xb, 0xd, 0x8088, 0x8808,
    0xd000, 0xb000, 0x1101, 0x1011, 0x13, 0x8c, 0xc800, 0x3100,
];

/// The three cells at each corner.
pub const CORNER_SHAPES: [[usize; 3]; 4] = [[0, 1, 4], [3, 2, 7], [12, 8, 13], [15, 11, 14]];

/// The bit set of a list of positions.
pub open spec fn pos_bits(values: Seq<usize>) -> u32
    decreases values.len(),
{
    if values.len() == 0 {
        0
    } else {
        pos_bits(values.drop_last()) | (1u32 << (values.last() as u32))
    }
}

/// The bit set of a list of positions (see `pos_bits`).
pub fn bits(values: &[usize]) -> (out: u32)
    requires
        forall|i: int| 0 <= i < values@.len() ==> #[trigger] values@[i] < 32,
    ensures
        out == pos_bits(values@),
{
    let mut out = 0u32;
    let mut i = 0usize;
    while i < values.len()
        invariant
            i <= values@.len(),
            forall|t: int| 0 <= t < values@.len() ==> #[trigger] values@[t] < 32,
            out == pos_bits(values@.take(i as int)),
        decreases values@.len() - i,
    {
        proof {
            assert(values@.take(i + 1).drop_last() =~= values@.take(i as int));
        }
        out |= 1u32 << (values[i] as u32);
        i += 1;
    }
    proof {
        assert(values@.take(i as int) =~= values@);
    }
    out
}

/// The bit set of the cells of a list of tiles (value, cell).
pub open spec fn tile_bits(tiles: Seq<(i32, usize)>) -> u32
    decreases tiles.len(),
{
    if tiles.len() == 0 {
        0
    } else {
        tile_bits(tiles.drop_last()) | (1u32 << (tiles.last().1 as u32))
    }
}

/// Whether the cells of the first `count` tiles, as a bit set, are one of
/// the allowed sets.
pub fn positions_allowed(tiles: &[(i32, usize)], count: usize, allowed: &[u32]) -> (r: bool)
    requires
        count <= tiles@.len(),
        forall|i: int| 0 <= i < count ==> #[trigger] tiles@[i].1 < 32,
    ensures
        r == allowed@.contains(tile_bits(tiles@.take(count as int))),
{
    let mut mask = 0u32;
    let mut i = 0usize;
    while i < count
        invariant
            i <= count <= tiles@.len(),
            forall|t: int| 0 <= t < count ==> #[trigger] tiles@[t].1 < 32,
            mask == tile_bits(tiles@.take(i as int)),
        decreases count - i,
    {
        proof {
            assert(tiles@.take(i + 1).drop_last() =~= tiles@.take(i as int));
        }
        mask |= 1u32 << (tiles[i].1 as u32);
        i += 1;
    }
    let mut j = 0usize;
    while j < allowed.len()
        invariant
            j <= allowed@.len(),
            mask == tile_bits(tiles@.take(count as int)),
            forall|t: int| 0 <= t < j ==> #[trigger] allowed@[t] != mask,
        decreases allowed@.len() - j,
    {
        if allowed[j] == mask {
            proof {
                assert(allowed@[j as int] == mask);
            }
            return true;
        }
        j += 1;
    }
    false
}

/// The value of a tile of rank `r`: 0 for an empty cell, else 2^r.
pub open spec fn rank_value(r: u64) -> i32 {
    if r == 0 { 0 } else { 1i32 << (r as u32) }
}

/// The large tiles (rank 8 or more) among the first `n` cells, in cell
/// order, each as its value and cell.
pub open spec fn large_tiles_upto(board: u64, n: int) -> Seq<(i32, usize)>
    decreases n,
{
    if n <= 0 {
        seq![]
    } else if cell(board, n - 1) >= 8 {
        large_tiles_upto(board, n - 1).push((rank_value(cell(board, n - 1)), (n - 1) as usize))
    } else {
        large_tiles_upto(board, n - 1)
    }
}

/// The large tiles of a board, in cell order.
pub open spec fn large_tiles(board: u64) -> Seq<(i32, usize)> {
    large_tiles_upto(board, 16)
}

/// Whether a set of cells holds all three cells of corner `s`.
pub open spec fn shape_covered(m: u32, s: int) -> bool {
    forall|j: int| 0 <= j < 3 ==> #[trigger] (m & (1u32 << (CORNER_SHAPES@[s]@[j] as u32))) != 0
}

/// Whether a set of cells holds all three cells of some corner.
pub open spec fn covers_corner_shape(m: u32) -> bool {
    exists|s: int| 0 <= s < 4 && #[trigger] shape_covered(m, s)
}

/// The mess rule. Never when the board sum is within 12 of a multiple of
/// 512 (or negative), nor with fewer than three large tiles. Six or four
/// large tiles are a mess when their cells are not an allowed set; three
/// when they are distinct and their cells are not an allowed set; any other
/// number when they cover no corner's three cells.
pub open spec fn is_mess_spec(board: u64, board_sum: int) -> bool {
    let t = large_tiles(board);
    let m = tile_bits(t);
    if trem(board_sum, 512) < 12 {
        false
    } else if t.len() < 3 {
        false
    } else if t.len() == 6 {
        !MESS_ALLOWED_6@.contains(m)
    } else if t.len() == 4 {
        !MESS_ALLOWED_4@.contains(m)
    } else if t.len() == 3 {
        if t[0].0 == t[1].0 || t[1].0 == t[2].0 || t[0].0 == t[2].0 {
            false
        } else {
            !MESS_ALLOWED_3@.contains(m)
        }
    } else {
        !covers_corner_shape(m)
    }
}

proof fn lemma_large_tiles_cells(board: u64, n: int)
    requires
        0 <= n <= 16,
    ensures
        large_tiles_upto(board, n).len() <= n,
        forall|i: int| 0 <= i < large_tiles_upto(board, n).len() ==> #[trigger] large_tiles_upto(board, n)[i].1 < n,
    decreases n,
{
    if n > 0 {
        lemma_large_tiles_cells(board, n - 1);
    }
}

/// Classifies a board as a mess (see `is_mess_spec`).
pub fn is_mess(board: Board, board_sum: i32) -> (r: bool)
    ensures
        r == is_mess_spec(board, board_sum as int),
{
    if board_sum % 512 < 12 {
        return false;
    }
    let ghost b0 = board;
    let mut tiles: Vec<(i32, usize)> = Vec::new();
    let mut tmp = board;
    let mut idx = 0usize;
    proof {
        lemma_shifted_ends(tmp, b0, 0);
    }
    while idx < 16
        invariant
            idx <= 16,
            shifted_by(tmp, b0, idx as int),
            tiles@ == large_tiles_upto(b0, idx as int),
        decreases 16 - idx,
    {
        proof {
            lemma_shifted_step(tmp, b0, idx as int);
            lemma_cell_bound(b0, idx as int);
        }
        let rank = (tmp & 0xf) as u32;
        let value: i32 = if rank == 0 { 0 } else { 1i32 << rank };
        if rank >= 8 {
            tiles.push((value, idx));
        }
        tmp >>= 4;
        idx += 1;
    }
    proof {
        lemma_large_tiles_cells(b0, 16);
        assert(tiles@.take(tiles@.len() as int) =~= tiles@);
    }
    let large = tiles.len();
    if large < 3 {
        return false;
    }
    if large == 6 {
        return !positions_allowed(tiles.as_slice(), 6, &MESS_ALLOWED_6);
    }
    if large == 4 {
        return !positions_allowed(tiles.as_slice(), 4, &MESS_ALLOWED_4);
    }
    if large == 3 {
        if tiles[0].0 == tiles[1].0 || tiles[1].0 == tiles[2].0 || tiles[0].0 == tiles[2].0 {
            return false;
        }
        return !positions_allowed(tiles.as_slice(), 3, &MESS_ALLOWED_3);
    }
    let mut pos_mask = 0u32;
    let mut i = 0usize;
    while i < large
        invariant
            i <= large == tiles@.len() <= 16,
            tiles@ == large_tiles(b0),
            forall|t: int| 0 <= t < tiles@.len() ==> #[trigger] tiles@[t].1 < 16,
            pos_mask == tile_bits(tiles@.take(i as int)),
        decreases large - i,
    {
        proof {
            assert(tiles@.take(i + 1).drop_last() =~= tiles@.take(i as int));
        }
        pos_mask |= 1u32 << (tiles[i].1 as u32);
        i += 1;
    }
    let mut s = 0usize;
    while s < 4
        invariant
            s <= 4,
            pos_mask == tile_bits(tiles@),
            tiles@ == large_tiles(b0),
            b0 == board,
            trem(board_sum as int, 512) >= 12,
            large == tiles@.len(),
            large >= 3 && large != 3 && large != 4 && large != 6,
            forall|t: int| 0 <= t < s ==> !#[trigger] shape_covered(pos_mask, t),
        decreases 4 - s,
    {
        let shape = CORNER_SHAPES[s];
        let mut all = true;
        let mut j = 0usize;
        while j < 3
            invariant
                j <= 3,
                s < 4,
                shape == CORNER_SHAPES@[s as int],
                all <==> forall|t: int| 0 <= t < j ==> #[trigger] (pos_mask & (1u32 << (CORNER_SHAPES@[s as int]@[t] as u32))) != 0,
            decreases 3 - j,
        {
            proof {
                assert(shape@[j as int] < 16) by {
                    assert(CORNER_SHAPES@[s as int]@[j as int] < 16);
                }
            }
            if pos_mask & (1u32 << (shape[j] as u32)) == 0 {
                all = false;
            }
            j += 1;
        }
        if all {
            proof {
                assert(shape_covered(pos_mask, s as int));
                assert(covers_corner_shape(tile_bits(large_tiles(board))));
            }
            return false;
        }
        s += 1;
    }
    true
}

} // verus!
