//! Moves in the endgame engine's own numbering: the engine works on the
//! board turned a half turn, and numbers its moves 1 to 4 (0 is no move).

use vstd::prelude::*;
use crate::board::{Board, cell, lemma_all_ones_cells, lemma_board_ext, lemma_cell_bound};
use crate::tables::{
    Tables,
    execute_move,
    is_move_result,
    is_invalid_move_result,
    lemma_move_half_turn,
    lemma_move_result_unique,
    opposite_dir,
    line_cell_index,
    lemma_move_keeps_line_values,
    board_line,
};
use crate::endgame::symmetry::{reverse_nibbles, is_symmetry, sym_source};
use crate::line::{slide, compact, merges_top, line_value, rank_value};
use crate::endgame::stats::{board_sum, cells_sum, tile_value};

verus! {

/// The direction (0 up, 1 down, 2 left, 3 right) that engine move `m`
/// makes on the board as the engine sees it (turned a half turn).
pub open spec fn api_move(m: int) -> int {
    if m == 1 {
        2
    } else if m == 2 {
        3
    } else if m == 3 {
        0
    } else if m == 4 {
        1
    } else {
        -1
    }
}

/// The direction that engine move `m` makes on the board itself.
pub open spec fn internal_dir(m: int) -> int {
    opposite_dir(api_move(m))
}

/// Whether engine move `m` changes the board: for an unknown move, whether
/// the board differs from the board with all bits set.
pub open spec fn internal_move_legal(b: u64, m: int) -> bool {
    if 1 <= m <= 4 {
        !is_move_result(b, b, internal_dir(m))
    } else {
        !is_invalid_move_result(b)
    }
}

/// The first engine move that changes the board, 0 when none does.
pub open spec fn first_legal_move(b: u64) -> int {
    if internal_move_legal(b, 1) {
        1
    } else if internal_move_legal(b, 2) {
        2
    } else if internal_move_legal(b, 3) {
        3
    } else if internal_move_legal(b, 4) {
        4
    } else {
        0
    }
}

/// `m` if it is an engine move that changes the board, else the first engine
/// move that does, else 0.
pub open spec fn legalized_move(b: u64, m: int) -> int {
    if 1 <= m <= 4 && internal_move_legal(b, m) {
        m
    } else {
        first_legal_move(b)
    }
}

/// A legalized move changes the board, and it is 0 only when no engine move
/// does: the engine never plays a move that leaves the board as it is.
pub proof fn lemma_legalized_move_is_legal(b: u64, m: int)
    ensures
        legalized_move(b, m) != 0 ==> 1 <= legalized_move(b, m) <= 4 && internal_move_legal(b, legalized_move(b, m)),
        legalized_move(b, m) == 0 ==> forall|k: int| 1 <= k <= 4 ==> !#[trigger] internal_move_legal(b, k),
{
}

/// The direction id (0 up, 1 down, 2 left, 3 right) of an engine move; -1
/// for an unknown one.
pub fn internal_to_api_move(internal_move: usize) -> (r: i32)
    ensures
        r == api_move(internal_move as int),
{
    match internal_move {
        1 => 2,
        2 => 3,
        3 => 0,
        4 => 1,
        _ => -1,
    }
}

/// Makes engine move `internal_move` on a board given in the engine's
/// orientation; an unknown move yields the board with all bits set.
pub fn execute_internal_move(tables: &Tables, board: Board, internal_move: usize) -> (r: Board)
    requires
        tables.wf(),
    ensures
        1 <= internal_move <= 4 ==> is_move_result(r, board, internal_dir(internal_move as int)),
        !(1 <= internal_move <= 4) ==> is_invalid_move_result(r),
{
    let local = reverse_nibbles(board);
    let moved = execute_move(tables, internal_to_api_move(internal_move), local);
    let r = reverse_nibbles(moved);
    proof {
        if 1 <= internal_move <= 4 {
            lemma_move_half_turn(board, local, moved, r, api_move(internal_move as int));
        } else {
            lemma_all_ones_cells();
            assert forall|p: int| 0 <= p < 16 implies #[trigger] cell(r, p) == cell(0xffff_ffff_ffff_ffffu64, p) by {
                assert(cell(r, p) == cell(moved, 15 - p));
            }
            lemma_board_ext(r, 0xffff_ffff_ffff_ffffu64);
        }
    }
    r
}

/// Whether engine move `internal_move` changes the board.
pub fn legal_internal_move(tables: &Tables, board: Board, internal_move: usize) -> (legal: bool)
    requires
        tables.wf(),
    ensures
        legal == internal_move_legal(board, internal_move as int),
{
    let moved = execute_internal_move(tables, board, internal_move);
    proof {
        if 1 <= internal_move <= 4 && moved != board && is_move_result(board, board, internal_dir(internal_move as int)) {
            lemma_move_result_unique(moved, board, board, internal_dir(internal_move as int));
        }
    }
    moved != board
}

/// `internal_move` if it is an engine move that changes the board, else the
/// first engine move that does, else 0.
pub fn legalize_internal_move(tables: &Tables, board: Board, internal_move: usize) -> (m: usize)
    requires
        tables.wf(),
    ensures
        m == legalized_move(board, internal_move as int),
{
    if 1 <= internal_move && internal_move <= 4 && legal_internal_move(tables, board, internal_move) {
        return internal_move;
    }
    let mut candidate = 1usize;
    while candidate <= 4
        invariant
            1 <= candidate <= 5,
            tables.wf(),
            forall|c: int| 1 <= c < candidate ==> !#[trigger] internal_move_legal(board, c),
            !(1 <= internal_move <= 4 && internal_move_legal(board, internal_move as int)),
        decreases 5 - candidate,
    {
        if legal_internal_move(tables, board, candidate) {
            return candidate;
        }
        candidate += 1;
    }
    0
}

/// For each symmetry (in the order of `symmetries`), the engine move on the
/// board itself that each engine move on its image stands for.
pub const MAP_MOVE: [[usize; 5]; 8] = [
    [0, 1, 2, 3, 4],
    [0, 3, 4, 2, 1],
    [0, 2, 1, 4, 3],
    [0, 4, 3, 1, 2],
    [0, 2, 1, 3, 4],
    [0, 1, 2, 4, 3],
    [0, 3, 4, 1, 2],
    [0, 4, 3, 2, 1],
];

/// The entries of `MAP_MOVE`.
pub open spec fn map_move(kind: int, m: int) -> int {
    let t: Seq<Seq<int>> = seq![
        seq![0int, 1, 2, 3, 4],
        seq![0int, 3, 4, 2, 1],
        seq![0int, 2, 1, 4, 3],
        seq![0int, 4, 3, 1, 2],
        seq![0int, 2, 1, 3, 4],
        seq![0int, 1, 2, 4, 3],
        seq![0int, 3, 4, 1, 2],
        seq![0int, 4, 3, 2, 1],
    ];
    t[kind][m]
}

/// The engine move on the board that engine move `found` on its image under
/// symmetry `sym_idx` stands for (0 stays 0).
pub fn board_move_for(sym_idx: usize, found: usize) -> (m: usize)
    requires
        sym_idx < 8,
        found < 5,
    ensures
        m == map_move(sym_idx as int, found as int),
{
    proof {
        assert(MAP_MOVE[0]@ =~= seq![0usize, 1, 2, 3, 4]);
        assert(MAP_MOVE[1]@ =~= seq![0usize, 3, 4, 2, 1]);
        assert(MAP_MOVE[2]@ =~= seq![0usize, 2, 1, 4, 3]);
        assert(MAP_MOVE[3]@ =~= seq![0usize, 4, 3, 1, 2]);
        assert(MAP_MOVE[4]@ =~= seq![0usize, 2, 1, 3, 4]);
        assert(MAP_MOVE[5]@ =~= seq![0usize, 1, 2, 4, 3]);
        assert(MAP_MOVE[6]@ =~= seq![0usize, 3, 4, 1, 2]);
        assert(MAP_MOVE[7]@ =~= seq![0usize, 4, 3, 2, 1]);
    }
    MAP_MOVE[sym_idx][found]
}

/// Whether the lines of a symmetric image, moved by engine move `m`, run in
/// the reverse order of the board's lines for the mapped move.
pub open spec fn flips_lines(kind: int, m: int) -> bool {
    kind == 2 || kind == 7 || ((kind == 1 || kind == 5) && m <= 2) || ((kind == 3 || kind == 4) && m >= 3)
}

/// The board's line, for the mapped move, that line `q` of the image is.
pub open spec fn mapped_line(kind: int, m: int, q: int) -> int {
    if flips_lines(kind, m) {
        3 - q
    } else {
        q
    }
}

/// Under a symmetry, the cells of line `q` of the image moved by `m` come,
/// in order, from the cells of the board's mapped line for the mapped move.
proof fn lemma_line_images(kind: int, m: int, q: int, i: int)
    requires
        0 <= kind < 8,
        1 <= m <= 4,
        0 <= q < 4,
        0 <= i < 4,
    ensures
        ({
            let p = line_cell_index(internal_dir(m), q, i);
            sym_source(kind, p / 4, p % 4) == line_cell_index(internal_dir(map_move(kind, m)), mapped_line(kind, m, q), i)
        }),
{
    let p = line_cell_index(internal_dir(m), q, i);
    let d = internal_dir(m);
    if d == 0 {
        assert(p / 4 == i && p % 4 == q);
    } else if d == 1 {
        assert(p / 4 == 3 - i && p % 4 == q);
    } else if d == 2 {
        assert(p / 4 == q && p % 4 == i);
    } else {
        assert(p / 4 == q && p % 4 == 3 - i);
    }
}

/// Moves commute with the symmetries: moving an image of the board by an
/// engine move gives the same image of the board moved by the mapped move
/// (`MAP_MOVE`), so a move chosen on an image is played as the mapped move.
pub proof fn lemma_move_through_symmetry(b: u64, s: u64, x: u64, y: u64, kind: int, m: int)
    requires
        0 <= kind < 8,
        1 <= m <= 4,
        is_symmetry(s, b, kind),
        is_move_result(x, s, internal_dir(m)),
        is_move_result(y, b, internal_dir(map_move(kind, m))),
    ensures
        is_symmetry(x, y, kind),
{
    let d = internal_dir(m);
    let d2 = internal_dir(map_move(kind, m));
    assert forall|q: int| 0 <= q < 4 implies #[trigger] board_line(s, d, q) == board_line(b, d2, mapped_line(kind, m, q)) by {
        assert forall|i: int| 0 <= i < 4 implies cell(s, line_cell_index(d, q, i)) == cell(b, line_cell_index(d2, mapped_line(kind, m, q), i)) by {
            lemma_line_images(kind, m, q, i);
            let p = line_cell_index(d, q, i);
            assert(p == 4 * (p / 4) + p % 4);
            assert(cell(s, 4 * (p / 4) + p % 4) == cell(b, sym_source(kind, p / 4, p % 4)));
        }
        assert(board_line(s, d, q) =~= board_line(b, d2, mapped_line(kind, m, q)));
    }
    assert forall|r: int, c: int| 0 <= r < 4 && 0 <= c < 4 implies #[trigger] cell(x, 4 * r + c) == cell(y, sym_source(kind, r, c)) by {
        let (q, i) = if d == 0 {
            (c, r)
        } else if d == 1 {
            (c, 3 - r)
        } else if d == 2 {
            (r, c)
        } else {
            (r, 3 - c)
        };
        assert(line_cell_index(d, q, i) == 4 * r + c);
        lemma_line_images(kind, m, q, i);
        assert(cell(x, line_cell_index(d, q, i)) as u32 == slide(board_line(s, d, q))[i]);
        assert(cell(y, line_cell_index(d2, mapped_line(kind, m, q), i)) as u32 == slide(board_line(b, d2, mapped_line(kind, m, q)))[i]);
        lemma_cell_bound(x, 4 * r + c);
        lemma_cell_bound(y, sym_source(kind, r, c));
    }
}

/// Moves commute with mirroring the rows: mirroring each row, moving left
/// (or right) and mirroring back is the move right (or left).
pub proof fn lemma_move_mirror_rows(b: u64, mb: u64, x: u64, r: u64, dir: int)
    requires
        dir == 2 || dir == 3,
        is_symmetry(mb, b, 4),
        is_move_result(x, mb, dir),
        is_symmetry(r, x, 4),
    ensures
        is_move_result(r, b, 5 - dir),
{
    let od = 5 - dir;
    assert forall|k: int, i: int| 0 <= k < 4 && 0 <= i < 4 implies #[trigger] cell(r, line_cell_index(od, k, i)) as u32
        == slide(board_line(b, od, k))[i] by {
        assert forall|m: int| 0 <= m < 4 implies #[trigger] cell(mb, line_cell_index(dir, k, m)) == cell(b, line_cell_index(od, k, m)) by {
            if dir == 2 {
                assert(cell(mb, 4 * k + m) == cell(b, sym_source(4, k, m)));
            } else {
                assert(cell(mb, 4 * k + (3 - m)) == cell(b, sym_source(4, k, 3 - m)));
            }
        }
        assert(board_line(mb, dir, k) =~= board_line(b, od, k));
        assert(cell(x, line_cell_index(dir, k, i)) as u32 == slide(board_line(mb, dir, k))[i]);
        if dir == 2 {
            assert(cell(r, 4 * k + (3 - i)) == cell(x, sym_source(4, k, 3 - i)));
        } else {
            assert(cell(r, 4 * k + i) == cell(x, sym_source(4, k, i)));
        }
    }
}

/// The engine's moves are the moves of the board turned a half turn: turning
/// the board and the result of engine move `m` a half turn gives the board
/// and the result of the move in direction `api_move(m)`.
pub proof fn lemma_internal_move_half_turn(b: u64, r: u64, hb: u64, hr: u64, m: int)
    requires
        1 <= m <= 4,
        is_move_result(r, b, internal_dir(m)),
        forall|p: int| 0 <= p < 16 ==> #[trigger] cell(hb, p) == cell(b, 15 - p),
        forall|p: int| 0 <= p < 16 ==> #[trigger] cell(hr, p) == cell(r, 15 - p),
    ensures
        is_move_result(hr, hb, api_move(m)),
{
    assert forall|p: int| 0 <= p < 16 implies #[trigger] cell(b, p) == cell(hb, 15 - p) by {
        assert(cell(hb, 15 - p) == cell(b, 15 - (15 - p)));
    }
    lemma_move_half_turn(hb, b, r, hr, internal_dir(m));
}

/// The tile values of a board, added line by line in any direction.
pub proof fn lemma_board_sum_by_lines(x: u64, dir: int)
    requires
        0 <= dir < 4,
    ensures
        board_sum(x) == line_value(board_line(x, dir, 0)) + line_value(board_line(x, dir, 1)) + line_value(
            board_line(x, dir, 2),
        ) + line_value(board_line(x, dir, 3)),
{
    assert forall|p: int| 0 <= p < 16 implies #[trigger] tile_value(cell(x, p)) == rank_value(cell(x, p) as u32) by {
        lemma_cell_bound(x, p);
    }
    reveal_with_fuel(cells_sum, 17);
    reveal_with_fuel(line_value, 5);
    assert forall|k: int| 0 <= k < 4 implies #[trigger] line_value(board_line(x, dir, k)) == tile_value(cell(x, line_cell_index(dir, k, 0)))
        + tile_value(cell(x, line_cell_index(dir, k, 1))) + tile_value(cell(x, line_cell_index(dir, k, 2))) + tile_value(
        cell(x, line_cell_index(dir, k, 3)),
    ) by {
        let l = board_line(x, dir, k);
        assert(l.drop_first() =~= seq![l[1], l[2], l[3]]);
        assert(l.drop_first().drop_first() =~= seq![l[2], l[3]]);
        assert(l.drop_first().drop_first().drop_first() =~= seq![l[3]]);
        assert(l.drop_first().drop_first().drop_first().drop_first() =~= Seq::<u32>::empty());
    }
}

/// A line without a tile of rank 15 never merges two of them.
proof fn lemma_no_top_merge(s: Seq<u32>)
    requires
        forall|i: int| 0 <= i < s.len() ==> #[trigger] s[i] < 15,
    ensures
        forall|i: int| 0 <= i < compact(s).len() ==> #[trigger] compact(s)[i] < 15,
        !merges_top(compact(s)),
    decreases s.len(),
{
    if s.len() > 0 {
        lemma_no_top_merge(s.drop_first());
        assert(s.drop_first()[0] == s[1] || s.len() == 1);
    }
    lemma_no_merge_below(compact(s));
}

proof fn lemma_no_merge_below(s: Seq<u32>)
    requires
        forall|i: int| 0 <= i < s.len() ==> #[trigger] s[i] < 15,
    ensures
        !merges_top(s),
    decreases s.len(),
{
    if s.len() >= 2 {
        if s[0] == s[1] {
            let t = s.subrange(2, s.len() as int);
            assert forall|i: int| 0 <= i < t.len() implies #[trigger] t[i] < 15 by {
                assert(t[i] == s[i + 2]);
            }
            lemma_no_merge_below(t);
        } else {
            let t = s.drop_first();
            assert forall|i: int| 0 <= i < t.len() implies #[trigger] t[i] < 15 by {
                assert(t[i] == s[i + 1]);
            }
            lemma_no_merge_below(t);
        }
    }
}

/// A move keeps the board's sum when no tile has rank 15 (two of which would
/// merge into one of the same rank).
pub proof fn lemma_move_keeps_board_sum(r: u64, b: u64, dir: int)
    requires
        0 <= dir < 4,
        is_move_result(r, b, dir),
        forall|p: int| 0 <= p < 16 ==> #[trigger] cell(b, p) < 15,
    ensures
        board_sum(r) == board_sum(b),
{
    assert forall|k: int| 0 <= k < 4 implies !merges_top(compact(#[trigger] board_line(b, dir, k))) by {
        let l = board_line(b, dir, k);
        assert forall|i: int| 0 <= i < l.len() implies #[trigger] l[i] < 15 by {
            assert(cell(b, line_cell_index(dir, k, i)) < 15);
        }
        lemma_no_top_merge(l);
    }
    lemma_move_keeps_line_values(r, b, dir);
    lemma_board_sum_by_lines(r, dir);
    lemma_board_sum_by_lines(b, dir);
    assert(line_value(board_line(r, dir, 0)) == line_value(board_line(b, dir, 0)));
    assert(line_value(board_line(r, dir, 1)) == line_value(board_line(b, dir, 1)));
    assert(line_value(board_line(r, dir, 2)) == line_value(board_line(b, dir, 2)));
    assert(line_value(board_line(r, dir, 3)) == line_value(board_line(b, dir, 3)));
}

} // verus!
