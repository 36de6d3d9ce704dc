//! The endgame engine's search player: its evaluation of a board (rows and
//! columns scored from a table, with a few rows raised by the position),
//! the masking of large tiles before a search, and the one-move search.

use vstd::prelude::*;
use vstd::arithmetic::power2::pow2;
use crate::board::{Board, cell, row_of, row_cell, lemma_field_bounds, is_reversed_row};
use crate::tables::{Tables, is_move_result, lemma_move_result_unique};
use crate::endgame::cache::{SearchCache, MAX_CACHE_BUCKETS};
use crate::endgame::eval::{
    ScorePair, EvalOverride, eval_tables, default_eval_overrides, override_rows, row_eval, row_weights, rev4,
    target_bonus, target_bonus_of, dynamic_target_bonuses, dynamic_bonuses_of, lemma_row_weights_eval_bound, holds_row_evaluations,
};
use crate::endgame::masks::{
    MASKS_20, MASKS_21, MASKS_22, MASKS_23, first_covered, get_20_mask, get_21_mask, get_22_mask, get_23_mask, check_corner_penalty,
    corner_penalty, mask_large_tiles, masked_upto, lemma_masked_cells,
};
use crate::endgame::stats::{
    count_of, counts_sum, range_sum, tile_counts, board_sum_from_counts, sum_counts, board_sum, lemma_sum_from_counts,
    lemma_rank_count_bound, lemma_cells_sum_nonneg,
};
use crate::endgame::rules::{trem, large_tiles_of, large_tile_count, is_5tiler_spec, is_5tiler};
use crate::endgame::symmetry::{is_symmetry, reverse_ul, lemma_symmetry_unique, lemma_symmetry_inverse, lemma_has_image};
use crate::endgame::moves::{internal_dir, execute_internal_move};
use crate::endgame::eval::{move_points, move_score, processed_score, process_score};

verus! {

/// The board mirrored in its main diagonal: its rows are the board's columns.
pub open spec fn diag_mirror(b: u64) -> u64 {
    choose|t: u64| is_symmetry(t, b, 6)
}

pub proof fn lemma_diag_mirror(b: u64, t: u64)
    requires
        is_symmetry(t, b, 6),
    ensures
        diag_mirror(b) == t,
{
    let m = diag_mirror(b);
    assert(is_symmetry(m, b, 6));
    lemma_symmetry_unique(b, m, t, 6);
}

/// One override applied to a row's score pair: it replaces the front-to-back
/// score of its row and the back-to-front score of its reversed row.
pub open spec fn override_step(pair: ScorePair, o: EvalOverride, row: int) -> ScorePair {
    ScorePair {
        d1: if o.index == row { o.score } else { pair.d1 },
        d2: if o.index2 == row { o.score } else { pair.d2 },
    }
}

/// A row's score pair after the first `n` overrides, in order.
pub open spec fn overridden_upto(pair: ScorePair, ovs: Seq<EvalOverride>, row: int, n: int) -> ScorePair
    decreases n,
{
    if n <= 0 {
        pair
    } else {
        override_step(overridden_upto(pair, ovs, row, n - 1), ovs[n - 1], row)
    }
}

/// The score pair of a row: the table's, with the overrides applied.
pub open spec fn score_pair_of(table: Seq<ScorePair>, ovs: Seq<EvalOverride>, row: int) -> ScorePair {
    overridden_upto(table[row], ovs, row, 8)
}

/// The sums of the front-to-back and back-to-front scores of the first `n` rows of a board.
pub open spec fn rows_partial(table: Seq<ScorePair>, ovs: Seq<EvalOverride>, b: u64, n: int) -> (int, int)
    decreases n,
{
    if n <= 0 {
        (0, 0)
    } else {
        let p = rows_partial(table, ovs, b, n - 1);
        let q = score_pair_of(table, ovs, row_of(b, n - 1) as int);
        (p.0 + q.d1, p.1 + q.d2)
    }
}

/// The sums of the front-to-back and back-to-front scores of the four rows of a board.
pub open spec fn rows_scores(table: Seq<ScorePair>, ovs: Seq<EvalOverride>, b: u64) -> (int, int) {
    rows_partial(table, ovs, b, 4)
}

/// The evaluation of a board: the better way round of its rows plus the
/// better way round of its columns, less the corner adjustment when the
/// corner check is on.
pub open spec fn board_eval(table: Seq<ScorePair>, ovs: Seq<EvalOverride>, do_check: int, masked_count: int, b: u64) -> int {
    let x = rows_scores(table, ovs, b);
    let y = rows_scores(table, ovs, diag_mirror(b));
    (if x.0 >= x.1 { x.0 } else { x.1 }) + (if y.0 >= y.1 { y.0 } else { y.1 }) - if do_check != 0 {
        corner_penalty(b, masked_count)
    } else {
        0
    }
}

/// Without the corner check the evaluation of a board is that of its mirror
/// in the main diagonal: the mirror's rows are the board's columns and its
/// columns the board's rows.
pub proof fn lemma_eval_mirror_symmetric(table: Seq<ScorePair>, ovs: Seq<EvalOverride>, masked_count: int, b: u64)
    ensures
        board_eval(table, ovs, 0, masked_count, diag_mirror(b)) == board_eval(table, ovs, 0, masked_count, b),
{
    lemma_has_image(b, 6);
    let m = diag_mirror(b);
    lemma_has_image(m, 6);
    let mm = diag_mirror(m);
    lemma_symmetry_inverse(b, m, mm, 6);
}

/// The bonus that override `i` gets: the first three when `flag3`, the last
/// five by the first of `flag1`, `flag2`, `flag4` that holds (half of the
/// first bonus for `flag4`); nothing unless `apply`.
pub open spec fn override_bonus(i: int, apply: bool, flag1: bool, flag2: bool, flag3: bool, flag4: bool) -> int {
    let index = override_rows()[i].0 as int;
    if !apply {
        0
    } else if i < 3 {
        if flag3 { target_bonus_of(index) } else { 0 }
    } else if flag1 {
        dynamic_bonuses_of(index).0
    } else if flag2 {
        dynamic_bonuses_of(index).1
    } else if flag4 {
        dynamic_bonuses_of(index).0 / 2
    } else {
        0
    }
}

/// The overrides for a board and flags: each override row at its own
/// evaluation plus its bonus, the bonuses applying when the board holds a
/// two by two block of large tiles in a corner.
pub open spec fn overrides_for(ovs: Seq<EvalOverride>, board: u64, flag1: bool, flag2: bool, flag3: bool, flag4: bool) -> bool {
    let apply = first_covered(MASKS_22@, board) > 0;
    &&& ovs.len() == 8
    &&& forall|i: int| 0 <= i < 8 ==> (#[trigger] ovs[i]).index == override_rows()[i].0
        && ovs[i].index2 == override_rows()[i].1
        && ovs[i].score == row_eval(row_weights(override_rows()[i].0 as u16)) + override_bonus(i, apply, flag1, flag2, flag3, flag4)
}

/// Each override's second row is its first read backwards.
proof fn lemma_override_rows_reversed()
    by (bit_vector)
    ensures
        (0xff87u16 >> 0u16) & 0xf == (0x78ffu16 >> 12u16) & 0xf,
        (0xff87u16 >> 4u16) & 0xf == (0x78ffu16 >> 8u16) & 0xf,
        (0xff87u16 >> 8u16) & 0xf == (0x78ffu16 >> 4u16) & 0xf,
        (0xff87u16 >> 12u16) & 0xf == (0x78ffu16 >> 0u16) & 0xf,
        (0xfff7u16 >> 0u16) & 0xf == (0x7fffu16 >> 12u16) & 0xf,
        (0xfff7u16 >> 4u16) & 0xf == (0x7fffu16 >> 8u16) & 0xf,
        (0xfff7u16 >> 8u16) & 0xf == (0x7fffu16 >> 4u16) & 0xf,
        (0xfff7u16 >> 12u16) & 0xf == (0x7fffu16 >> 0u16) & 0xf,
        (0xfff8u16 >> 0u16) & 0xf == (0x8fffu16 >> 12u16) & 0xf,
        (0xfff8u16 >> 4u16) & 0xf == (0x8fffu16 >> 8u16) & 0xf,
        (0xfff8u16 >> 8u16) & 0xf == (0x8fffu16 >> 4u16) & 0xf,
        (0xfff8u16 >> 12u16) & 0xf == (0x8fffu16 >> 0u16) & 0xf,
        (0xfff2u16 >> 0u16) & 0xf == (0x2fffu16 >> 12u16) & 0xf,
        (0xfff2u16 >> 4u16) & 0xf == (0x2fffu16 >> 8u16) & 0xf,
        (0xfff2u16 >> 8u16) & 0xf == (0x2fffu16 >> 4u16) & 0xf,
        (0xfff2u16 >> 12u16) & 0xf == (0x2fffu16 >> 0u16) & 0xf,
        (0xfff3u16 >> 0u16) & 0xf == (0x3fffu16 >> 12u16) & 0xf,
        (0xfff3u16 >> 4u16) & 0xf == (0x3fffu16 >> 8u16) & 0xf,
        (0xfff3u16 >> 8u16) & 0xf == (0x3fffu16 >> 4u16) & 0xf,
        (0xfff3u16 >> 12u16) & 0xf == (0x3fffu16 >> 0u16) & 0xf,
        (0xfff4u16 >> 0u16) & 0xf == (0x4fffu16 >> 12u16) & 0xf,
        (0xfff4u16 >> 4u16) & 0xf == (0x4fffu16 >> 8u16) & 0xf,
        (0xfff4u16 >> 8u16) & 0xf == (0x4fffu16 >> 4u16) & 0xf,
        (0xfff4u16 >> 12u16) & 0xf == (0x4fffu16 >> 0u16) & 0xf,
        (0xfff5u16 >> 0u16) & 0xf == (0x5fffu16 >> 12u16) & 0xf,
        (0xfff5u16 >> 4u16) & 0xf == (0x5fffu16 >> 8u16) & 0xf,
        (0xfff5u16 >> 8u16) & 0xf == (0x5fffu16 >> 4u16) & 0xf,
        (0xfff5u16 >> 12u16) & 0xf == (0x5fffu16 >> 0u16) & 0xf,
        (0xfff6u16 >> 0u16) & 0xf == (0x6fffu16 >> 12u16) & 0xf,
        (0xfff6u16 >> 4u16) & 0xf == (0x6fffu16 >> 8u16) & 0xf,
        (0xfff6u16 >> 8u16) & 0xf == (0x6fffu16 >> 4u16) & 0xf,
        (0xfff6u16 >> 12u16) & 0xf == (0x6fffu16 >> 0u16) & 0xf,
{
}

/// The scores a player reads after the overrides for a board and flags: each
/// override row scores, front to back, its evaluation plus its bonus, and its
/// reversed row scores the same back to front.
pub proof fn lemma_override_scores(p: AiPlayer, board: u64, flag1: bool, flag2: bool, flag3: bool, flag4: bool, i: int)
    requires
        p.wf(),
        overrides_for(p.eval_overrides@, board, flag1, flag2, flag3, flag4),
        0 <= i < 8,
    ensures
        is_reversed_row(override_rows()[i].1 as u16, override_rows()[i].0 as u16),
        score_pair_of(p.table@, p.eval_overrides@, override_rows()[i].0 as int).d1 == row_eval(
            row_weights(override_rows()[i].0 as u16),
        ) + override_bonus(i, first_covered(MASKS_22@, board) > 0, flag1, flag2, flag3, flag4),
        score_pair_of(p.table@, p.eval_overrides@, override_rows()[i].1 as int).d2 == score_pair_of(
            p.table@,
            p.eval_overrides@,
            override_rows()[i].0 as int,
        ).d1,
{
    let ovs = p.eval_overrides@;
    reveal_with_fuel(overridden_upto, 9);
    let rows = override_rows();
    assert forall|j: int| 0 <= j < 8 implies #[trigger] ovs[j].index == rows[j].0 && ovs[j].index2 == rows[j].1 by {}
    let a = rows[i].0 as u16;
    let r = rows[i].1 as u16;
    lemma_override_rows_reversed();
    assert forall|k: int| 0 <= k < 4 implies #[trigger] row_cell(r, k) == row_cell(a, 3 - k) by {
        if k == 0 {
            assert(row_cell(r, 0) == (r >> 0u16) & 0xf && row_cell(a, 3) == (a >> 12u16) & 0xf);
        } else if k == 1 {
            assert(row_cell(r, 1) == (r >> 4u16) & 0xf && row_cell(a, 2) == (a >> 8u16) & 0xf);
        } else if k == 2 {
            assert(row_cell(r, 2) == (r >> 8u16) & 0xf && row_cell(a, 1) == (a >> 4u16) & 0xf);
        } else {
            assert(row_cell(r, 3) == (r >> 12u16) & 0xf && row_cell(a, 0) == (a >> 0u16) & 0xf);
        }
    }
}

/// Rows that no override names keep the table's scores: the row evaluated
/// front to back and back to front.
pub proof fn lemma_plain_scores(p: AiPlayer, board: u64, flag1: bool, flag2: bool, flag3: bool, flag4: bool, row: int)
    requires
        p.wf(),
        overrides_for(p.eval_overrides@, board, flag1, flag2, flag3, flag4),
        0 <= row < 65536,
    ensures
        (forall|j: int| 0 <= j < 8 ==> #[trigger] override_rows()[j].0 != row) ==> score_pair_of(
            p.table@,
            p.eval_overrides@,
            row,
        ).d1 == row_eval(row_weights(row as u16)) as i16,
        (forall|j: int| 0 <= j < 8 ==> #[trigger] override_rows()[j].1 != row) ==> score_pair_of(
            p.table@,
            p.eval_overrides@,
            row,
        ).d2 == row_eval(rev4(row_weights(row as u16))) as i16,
{
    let ovs = p.eval_overrides@;
    reveal_with_fuel(overridden_upto, 9);
    let rows = override_rows();
    assert forall|j: int| 0 <= j < 8 implies #[trigger] ovs[j].index == rows[j].0 && ovs[j].index2 == rows[j].1 by {}
    assert(p.table@[row].d1 == row_eval(row_weights(row as u16)) as i16);
}

/// With the corner check on, a board evaluates to its evaluation with the
/// check off less its corner adjustment.
pub proof fn lemma_corner_check_subtracts(
    table: Seq<ScorePair>,
    ovs: Seq<EvalOverride>,
    do_check: int,
    masked_count: int,
    b: u64,
)
    requires
        do_check != 0,
    ensures
        board_eval(table, ovs, do_check, masked_count, b) + corner_penalty(b, masked_count) == board_eval(
            table,
            ovs,
            0,
            masked_count,
            b,
        ),
{
}

/// When no rank from 512 to 16384 holds two tiles and the board sum modulo
/// 1024 lies between 512 and 1000, the board searched after masking has every
/// tile of 512 or more replaced by rank 15 and every smaller cell unchanged.
pub proof fn lemma_mask_from_512(p: AiPlayer, q: AiPlayer, r: u64)
    requires
        mask_applied(p, q, r),
        forall|k: int| 9 <= k < 15 ==> #[trigger] count_of(p.board, k) <= 1,
        512 <= board_sum(p.board) % 1024 <= 1000,
    ensures
        forall|pos: int| 0 <= pos < 16 ==> #[trigger] cell(r, pos) == if cell(p.board, pos) >= 9 {
            15
        } else {
            cell(p.board, pos)
        },
{
    let b = p.board;
    let c = counts_of(b);
    assert forall|k: int| 0 <= k < 16 implies #[trigger] c[k] == count_of(b, k) by {
        lemma_rank_count_bound(b, k, 16);
    }
    assert(distinct_above_256(c));
    lemma_sum_from_counts(b, c);
    lemma_cells_sum_nonneg(b, 16);
    let bs = counts_sum(c, 16);
    assert(trem(bs, 1024) == board_sum(b) % 1024);
    assert(mask_threshold(c, bs) == 9);
    lemma_masked_cells(b, 9, 15, 16);
}

/// The board after a move in direction `dir`.
pub open spec fn move_result(b: u64, dir: int) -> u64 {
    choose|r: u64| is_move_result(r, b, dir)
}

pub proof fn lemma_move_result(b: u64, dir: int, r: u64)
    requires
        0 <= dir < 4,
        is_move_result(r, b, dir),
    ensures
        move_result(b, dir) == r,
{
    let m = move_result(b, dir);
    assert(is_move_result(m, b, dir));
    lemma_move_result_unique(m, r, b, dir);
}

/// The best, over the first `n` engine moves that change the board, of the
/// evaluation after the move plus what the move's merges are worth; the
/// negated dead score when none changes it.
pub open spec fn search0_upto(
    table: Seq<ScorePair>,
    ovs: Seq<EvalOverride>,
    do_check: int,
    masked_count: int,
    dead_score: int,
    b: u64,
    n: int,
) -> int
    decreases n,
{
    if n <= 0 {
        -dead_score
    } else {
        let prev = search0_upto(table, ovs, do_check, masked_count, dead_score, b, n - 1);
        let d = internal_dir(n);
        let moved = move_result(b, d);
        if moved != b {
            let v = board_eval(table, ovs, do_check, masked_count, moved)
                + processed_score(move_points(b, d) as u32);
            if prev >= v { prev } else { v }
        } else {
            prev
        }
    }
}

/// The number of tiles of each rank of a board.
pub open spec fn counts_of(b: u64) -> Seq<u8> {
    Seq::new(16, |r: int| count_of(b, r) as u8)
}

/// The search's evaluation threshold: lower with prune on, lower still with
/// more than four large tiles.
pub open spec fn threshold_for(large: int, prune: int) -> int {
    if large > 4 {
        if prune == 0 { 5600 } else { 2400 }
    } else if prune == 0 {
        8400
    } else {
        3200
    }
}

/// Whether no rank from 9 to 14 holds two tiles.
pub open spec fn distinct_above_256(c: Seq<u8>) -> bool {
    forall|r: int| 9 <= r < 15 ==> #[trigger] c[r] <= 1
}

/// The score of a dead position, by the number of tiles above 128 and 256
/// and how close the board sum is to a multiple of 1024.
pub open spec fn dead_score_for(c: Seq<u8>, bs: int) -> int {
    let g128 = range_sum(c, 8, 16);
    let g256 = range_sum(c, 9, 16);
    let rem = trem(bs, 1024);
    if g128 <= 4 {
        262144
    } else if rem < 8 || rem > 1008 {
        131072
    } else if g128 == 5 {
        131072
    } else if g256 > 5 && distinct_above_256(c) {
        if g128 == 8 && (c[7] == 1 || c[6] >= 1) {
            4096
        } else if g256 >= 6 && 960 < rem {
            32768
        } else {
            48000
        }
    } else {
        65536
    }
}

/// The rank from which tiles are masked (replaced by rank 15) before a search.
pub open spec fn mask_threshold(c: Seq<u8>, bs: int) -> u8 {
    let rem = trem(bs, 1024);
    let part1 = (rem >= 48 || (rem > 12 && counts_sum(c, 9) == rem)) && rem <= 512 && c[9] == 0;
    let part2 = rem >= 512 || rem < 6;
    if part1 || part2 {
        if rem > 1000 { 11 } else { 9 }
    } else {
        12
    }
}

/// The number of cells among the first `n` whose rank has its three low bits set (7 or 15).
pub open spec fn full_cells_upto(b: u64, n: int) -> int
    decreases n,
{
    if n <= 0 {
        0
    } else {
        full_cells_upto(b, n - 1) + if cell(b, n - 1) & 7 == 7 { 1int } else { 0 }
    }
}

/// The largest rank, from `r` down, at or above which the board holds at
/// least `mc` tiles; 0 when there is none.
pub open spec fn min_masked_from(c: Seq<u8>, mc: int, r: int) -> int
    decreases r + 1,
{
    if r < 0 {
        0
    } else if range_sum(c, r, 16) >= mc {
        r
    } else {
        min_masked_from(c, mc, r - 1)
    }
}

/// The smallest masked tile: the largest rank at or above which the board
/// holds `mc` tiles, 0 when nothing is masked.
pub open spec fn min_masked_tile(c: Seq<u8>, mc: int) -> int {
    if mc > 0 { min_masked_from(c, mc, 15) } else { 0 }
}

/// The four bonus flags of the override rows.
pub open spec fn mask_flags(c: Seq<u8>, bs: int, mc: int) -> (bool, bool, bool, bool) {
    let g512 = range_sum(c, 10, 16);
    let flag1 = g512 == 5 && (c[9] == 1 || c[8] > 0) && trem(bs, 512) < 72;
    let flag2 = ((g512 == 6 || (g512 == 5 && c[9] == 1)) && trem(bs, 1024) < 72) || (g512 == 5 && c[9] == 0 && (c[8] == 1
        || c[7] > 0) && trem(bs, 256) < 72);
    let flag3 = g512 >= 4 && mc >= 5 && trem(bs, 256) > 132 && trem(bs, 256) < 234;
    let flag4 = g512 == 4 && c[9] == 1 && c[10] == 1 && trem(bs, 256) < 60;
    (flag1, flag2, flag3, flag4)
}

/// The tiles the search must keep in place: a pattern of the masked board's
/// large tiles, picked by the number of masked tiles, the smallest of them,
/// the large tile count and the board sum.
pub open spec fn fixed_mask_for(cb: u64, c: Seq<u8>, bs: int, mc: int, large: int, do_check: int, prune: int) -> u64 {
    let m23 = first_covered(MASKS_23@, cb);
    let m22 = first_covered(MASKS_22@, cb);
    let m21 = first_covered(MASKS_21@, cb);
    let m20 = first_covered(MASKS_20@, cb);
    let mmt = min_masked_tile(c, mc);
    let g512 = range_sum(c, 10, 16);
    if mc >= 5 && c[0] >= 3 {
        m22 | m21
    } else if (mmt == 12 && mc == 4) || (mmt == 11 && mc == 5) || (mmt == 10 && mc == 6) {
        m23 | m22
    } else if mc >= 5 && (large > 5 || (trem(bs, 256) > 48 && trem(bs, 256) < 224) || is_5tiler_spec(bs, c)) {
        m23 | m22
    } else if do_check != 0 || (prune == 0 && (large > 2 || large == 0)) || ((trem(bs, 256) > 246 || trem(bs, 256) < 24)
        && ((large < 5 && large > 2) || large == 0)) || c[7] > 1 || (c[6] > 1 && c[7] == 1) {
        0
    } else if mc >= 4 {
        m22 | m21
    } else if mc == 3 && g512 == 3 && trem(bs, 1024) > 24 {
        m21 | m20
    } else if mc >= 2 && g512 == 2 && trem(bs, 512) > 16 {
        m20
    } else {
        0
    }
}

/// What preparing a search does to a player (see `AiPlayer::apply_dynamic_mask`):
/// `q` is `p` after it, and `r` the board to search.
pub open spec fn mask_applied(p: AiPlayer, q: AiPlayer, r: u64) -> bool {
    let c = counts_of(p.board);
    let bs = counts_sum(c, 16);
    let large = large_tiles_of(c, 8);
    let cb = masked_upto(p.board, mask_threshold(c, bs), 15, 16);
    let mc = full_cells_upto(cb, 16);
    let f = mask_flags(c, bs, mc);
    &&& q.board_sum == bs
    &&& q.threshold == threshold_for(large, p.prune as int)
    &&& q.dead_score == dead_score_for(c, bs)
    &&& !distinct_above_256(c) ==> r == p.board && q == (AiPlayer {
        board_sum: q.board_sum,
        threshold: q.threshold,
        dead_score: q.dead_score,
        fixed_mask: 0,
        ..p
    })
    &&& distinct_above_256(c) ==> {
        &&& r == cb
        &&& q.masked_count == mc
        &&& overrides_for(q.eval_overrides@, cb, f.0, f.1, f.2, f.3)
        &&& q.fixed_mask == fixed_mask_for(cb, c, bs, mc, large, p.do_check as int, p.prune as int)
        &&& q == (AiPlayer {
            board_sum: q.board_sum,
            threshold: q.threshold,
            dead_score: q.dead_score,
            masked_count: q.masked_count,
            eval_overrides: q.eval_overrides,
            fixed_mask: q.fixed_mask,
            ..p
        })
    }
}

/// The search player: the position being searched, the search's settings and
/// counters, the row score table with its overrides, and the search cache.
pub struct AiPlayer {
    pub stop_search: bool,
    pub max_d: i32,
    pub max_layer: i32,
    pub best_operation: usize,
    pub board: Board,
    pub board_sum: i32,
    pub node: u64,
    pub cache_hits: u32,
    pub spawn_weight_4: i32,
    pub spawn_weight_2: i32,
    pub do_check: i32,
    pub masked_count: i32,
    pub fixed_mask: Board,
    pub prune: i32,
    pub initial_eval_score: i32,
    pub threshold: i32,
    pub dead_score: i32,
    pub top_scores: [i32; 4],
    pub eval_overrides: [EvalOverride; 8],
    pub cache: SearchCache,
    pub node_budget: u64,
    pub table: Vec<ScorePair>,
}

impl AiPlayer {
    /// The score table holds every row's evaluation, the overrides stay
    /// within the evaluation's range, and the cache is well formed.
    pub open spec fn wf(&self) -> bool {
        &&& holds_row_evaluations(self.table@)
        &&& self.cache.wf()
        &&& 0 < self.dead_score <= 262144
        &&& 0 <= self.spawn_weight_2 <= 65536
        &&& 0 <= self.spawn_weight_4 <= 65536
        &&& self.max_d >= -1_000_000
        &&& -1_000_000 <= self.initial_eval_score <= 1_000_000
        &&& -1_000_000 <= self.threshold <= 1_000_000
        &&& 0 <= self.masked_count <= 16
        &&& self.best_operation <= 4
        &&& forall|i: int| 0 <= i < 8 ==> -5000 <= (#[trigger] self.eval_overrides@[i]).score <= 5000
    }

    /// A player with the default settings: depth 3, max layer 5, threshold
    /// 4000, dead score 131072, spawn weights 58983 (a 2) and 6553 (a 4), the
    /// default overrides, an empty cache and no node budget.
    pub fn new() -> (p: Self)
        ensures
            p.wf(),
            p.stop_search == false,
            p.max_d == 3,
            p.max_layer == 5,
            p.best_operation == 0,
            p.board == 0,
            p.board_sum == 0,
            p.node == 0,
            p.cache_hits == 0,
            p.spawn_weight_4 == 6553,
            p.spawn_weight_2 == 58983,
            p.do_check == 0,
            p.masked_count == 0,
            p.fixed_mask == 0,
            p.prune == 0,
            p.initial_eval_score == 0,
            p.threshold == 4000,
            p.dead_score == 131072,
            forall|i: int| 0 <= i < 4 ==> #[trigger] p.top_scores@[i] == -131072,
            overrides_for(p.eval_overrides@, 0, false, false, false, false),
            p.node_budget == u64::MAX,
            p.cache.buckets == MAX_CACHE_BUCKETS,
            forall|i: int| 0 <= i < p.cache.entries@.len() ==> #[trigger] p.cache.entries@[i] == 0,
            forall|r: int| 0 <= r < 65536 ==> #[trigger] p.table@[r].d1 == row_eval(row_weights(r as u16)) as i16
                && p.table@[r].d2 == row_eval(rev4(row_weights(r as u16))) as i16,
    {
        let eval_overrides = default_eval_overrides();
        proof {
            assert forall|i: int| 0 <= i < 8 implies -5000 <= (#[trigger] eval_overrides@[i]).score <= 5000 by {
                lemma_row_weights_eval_bound(override_rows()[i].0 as u16);
            }
            assert forall|i: int| 0 <= i < 8 implies (#[trigger] eval_overrides@[i]).score
                == row_eval(row_weights(override_rows()[i].0 as u16)) + override_bonus(i, false, false, false, false, false) by {
                lemma_row_weights_eval_bound(override_rows()[i].0 as u16);
            }
        }
        AiPlayer {
            stop_search: false,
            max_d: 3,
            max_layer: 5,
            best_operation: 0,
            board: 0,
            board_sum: 0,
            node: 0,
            cache_hits: 0,
            spawn_weight_4: 6553,
            spawn_weight_2: 58983,
            do_check: 0,
            masked_count: 0,
            fixed_mask: 0,
            prune: 0,
            initial_eval_score: 0,
            threshold: 4000,
            dead_score: 131072,
            top_scores: [-131072; 4],
            eval_overrides,
            cache: SearchCache::new(),
            node_budget: u64::MAX,
            table: eval_tables(),
        }
    }

    /// Starts on a new board: no best move yet, counters at zero.
    pub fn reset_board(&mut self, board: Board)
        requires
            old(self).wf(),
        ensures
            final(self).wf(),
            *final(self) == (AiPlayer { best_operation: 0, board, node: 0, cache_hits: 0, ..*old(self) }),
    {
        self.best_operation = 0;
        self.board = board;
        self.node = 0;
        self.cache_hits = 0;
    }

    /// Empties the cache's buckets in use.
    pub fn clear_cache(&mut self)
        requires
            old(self).wf(),
        ensures
            final(self).wf(),
            final(self).cache.buckets == old(self).cache.buckets,
            forall|i: int| 0 <= i < old(self).cache.buckets * 8 ==> #[trigger] final(self).cache.entries@[i] == 0,
            forall|i: int| old(self).cache.buckets * 8 <= i < old(self).cache.entries@.len() ==> #[trigger] final(self).cache.entries@[i] == old(self).cache.entries@[i],
            *final(self) == (AiPlayer { cache: final(self).cache, ..*old(self) }),
    {
        self.cache.clear();
    }

    /// The score pair of a row (see `score_pair_of`).
    pub fn score_pair(&self, row: usize) -> (pair: ScorePair)
        requires
            self.wf(),
            row < 65536,
        ensures
            pair == score_pair_of(self.table@, self.eval_overrides@, row as int),
    {
        let mut pair = self.table[row];
        let mut i = 0usize;
        while i < 8
            invariant
                self.wf(),
                row < 65536,
                i <= 8,
                pair == overridden_upto(self.table@[row as int], self.eval_overrides@, row as int, i as int),
            decreases 8 - i,
        {
            let override_entry = self.eval_overrides[i];
            if override_entry.index == row {
                pair.d1 = override_entry.score;
            }
            if override_entry.index2 == row {
                pair.d2 = override_entry.score;
            }
            i += 1;
        }
        pair
    }

    /// The corner adjustment for a board with the player's count of masked tiles.
    pub fn check_corner(&self, board: Board) -> (p: i32)
        ensures
            p == corner_penalty(board, self.masked_count as int),
    {
        check_corner_penalty(board, self.masked_count)
    }

    /// Evaluates a board (see `board_eval`).
    pub fn evaluate(&self, board: Board) -> (r: i32)
        requires
            self.wf(),
        ensures
            r == board_eval(self.table@, self.eval_overrides@, self.do_check as int, self.masked_count as int, board),
            -270000 <= r <= 270000,
    {
        let transposed = reverse_ul(board);
        proof {
            lemma_diag_mirror(board, transposed);
        }
        let mut sum_x1 = 0i32;
        let mut sum_x2 = 0i32;
        let mut sum_y1 = 0i32;
        let mut sum_y2 = 0i32;
        let mut i = 0u64;
        while i < 4
            invariant
                self.wf(),
                i <= 4,
                transposed == diag_mirror(board),
                (sum_x1 as int, sum_x2 as int) == rows_partial(self.table@, self.eval_overrides@, board, i as int),
                (sum_y1 as int, sum_y2 as int) == rows_partial(self.table@, self.eval_overrides@, transposed, i as int),
                -32768 * i <= sum_x1 <= 32767 * i,
                -32768 * i <= sum_x2 <= 32767 * i,
                -32768 * i <= sum_y1 <= 32767 * i,
                -32768 * i <= sum_y2 <= 32767 * i,
            decreases 4 - i,
        {
            proof {
                lemma_field_bounds(board, i as int);
                lemma_field_bounds(transposed, i as int);
            }
            let l1 = ((board >> (16 * i)) & 0xffff) as usize;
            let l2 = ((transposed >> (16 * i)) & 0xffff) as usize;
            assert(l1 as int == row_of(board, i as int) as int);
            assert(l2 as int == row_of(transposed, i as int) as int);
            let px = self.score_pair(l1);
            sum_x1 += px.d1 as i32;
            sum_x2 += px.d2 as i32;
            let py = self.score_pair(l2);
            sum_y1 += py.d1 as i32;
            sum_y2 += py.d2 as i32;
            i += 1;
        }
        let mut result = sum_x1.max(sum_x2) + sum_y1.max(sum_y2);
        if self.do_check != 0 {
            result -= self.check_corner(board);
        }
        result
    }

    /// Raises the override rows' scores by their bonuses (see `overrides_for`).
    pub fn update_specific_scores(&mut self, board: Board, flag1: bool, flag2: bool, flag3: bool, flag4: bool)
        requires
            old(self).wf(),
        ensures
            final(self).wf(),
            overrides_for(final(self).eval_overrides@, board, flag1, flag2, flag3, flag4),
            *final(self) == (AiPlayer { eval_overrides: final(self).eval_overrides, ..*old(self) }),
    {
        let apply_bonus = get_22_mask(board) > 0;
        let mut overrides = default_eval_overrides();
        let ghost apply = first_covered(MASKS_22@, board) > 0;
        assert(apply_bonus == apply);
        proof {
            assert forall|t: int| 0 <= t < 8 implies (#[trigger] overrides@[t]).score == row_eval(row_weights(override_rows()[t].0 as u16)) by {
                lemma_row_weights_eval_bound(override_rows()[t].0 as u16);
            }
        }
        let mut i = 0usize;
        while i < 8
            invariant
                i <= 8,
                apply_bonus == apply,
                apply == (first_covered(MASKS_22@, board) > 0),
                forall|t: int| 0 <= t < 8 ==> (#[trigger] overrides@[t]).index == override_rows()[t].0
                    && overrides@[t].index2 == override_rows()[t].1,
                forall|t: int| 0 <= t < i ==> (#[trigger] overrides@[t]).score
                    == row_eval(row_weights(override_rows()[t].0 as u16)) + override_bonus(t, apply, flag1, flag2, flag3, flag4),
                forall|t: int| i <= t < 8 ==> (#[trigger] overrides@[t]).score == row_eval(row_weights(override_rows()[t].0 as u16)),
            decreases 8 - i,
        {
            let target = overrides[i];
            proof {
                lemma_row_weights_eval_bound(override_rows()[i as int].0 as u16);
            }
            let mut score = target.score;
            if i < 3 {
                if apply_bonus && flag3 {
                    score = score + target_bonus(target.index);
                }
            } else if apply_bonus {
                let (bonus_f1, bonus_f2) = dynamic_target_bonuses(target.index);
                if flag1 {
                    score = score + bonus_f1;
                } else if flag2 {
                    score = score + bonus_f2;
                } else if flag4 {
                    proof {
                        lemma_half_shift(bonus_f1);
                    }
                    score = score + (bonus_f1 >> 1);
                }
            }
            overrides[i] = EvalOverride { index: target.index, index2: target.index2, score };
            i += 1;
        }
        proof {
            assert forall|t: int| 0 <= t < 8 implies -5000 <= (#[trigger] overrides@[t]).score <= 5000 by {
                lemma_row_weights_eval_bound(override_rows()[t].0 as u16);
            }
        }
        self.eval_overrides = overrides;
    }

    /// Prepares a search of the player's board: sets the board sum, the
    /// evaluation threshold and the dead score from the tile counts; when no
    /// rank from 9 to 14 holds two tiles, masks the large tiles, counts them,
    /// raises the override rows and picks the tiles the search must keep in
    /// place. Returns the board to search.
    #[verifier::spinoff_prover]
    pub fn apply_dynamic_mask(&mut self) -> (r: Board)
        requires
            old(self).wf(),
        ensures
            final(self).wf(),
            mask_applied(*old(self), *final(self), r),
            final(self).board_sum >= 0,
    {
        let counts = tile_counts(self.board);
        let ghost c = counts_of(self.board);
        proof {
            assert(counts@ =~= c);
        }
        self.board_sum = board_sum_from_counts(counts);
        self.fixed_mask = 0;
        let distinct_gt_256 = distinct_gt_256(&counts);
        let large_tiles = large_tile_count(8, &counts);
        self.threshold = threshold_of(large_tiles, self.prune);
        self.dead_score = dead_score_of(&counts, self.board_sum);
        if !distinct_gt_256 {
            return self.board;
        }
        let current_board = mask_large_tiles(self.board, masking_threshold(&counts, self.board_sum), 0xf);
        self.masked_count = full_cell_count(current_board);
        let (flag1, flag2, flag3, flag4) = flags_of(&counts, self.board_sum, self.masked_count);
        self.update_specific_scores(current_board, flag1, flag2, flag3, flag4);
        self.fixed_mask = fixed_mask_of(current_board, &counts, self.board_sum, self.masked_count, large_tiles, self.do_check, self.prune);
        current_board
    }

    /// The search at depth zero: the best of the moves' evaluations (see
    /// `search0_upto`), counting four nodes.
    pub fn search0(&mut self, tables: &Tables, board: Board) -> (best: i32)
        requires
            old(self).wf(),
            tables.wf(),
        ensures
            best == search0_upto(old(self).table@, old(self).eval_overrides@, old(self).do_check as int,
                old(self).masked_count as int, old(self).dead_score as int, board, 4),
            -270000 <= best <= 273001,
            *final(self) == (AiPlayer { node: old(self).node.saturating_add(4), ..*old(self) }),
    {
        self.node = self.node.saturating_add(4);
        let mut best = -self.dead_score;
        let mut internal_move = 1usize;
        while internal_move <= 4
            invariant
                self.wf(),
                tables.wf(),
                1 <= internal_move <= 5,
                best == search0_upto(self.table@, self.eval_overrides@, self.do_check as int, self.masked_count as int,
                    self.dead_score as int, board, internal_move - 1),
                -270000 <= best <= 273001,
            decreases 5 - internal_move,
        {
            let moved = execute_internal_move(tables, board, internal_move);
            proof {
                lemma_move_result(board, internal_dir(internal_move as int), moved);
            }
            if moved != board {
                let score = move_score(board, internal_move);
                let v = self.evaluate(moved) + process_score(score);
                best = best.max(v);
            }
            internal_move += 1;
        }
        best
    }
}

proof fn lemma_half_shift(b: i16)
    by (bit_vector)
    requires
        0 <= b <= 100,
    ensures
        b >> 1 == b / 2,
{
}

proof fn lemma_range_sum_front(c: Seq<u8>, r: int, e: int)
    requires
        r < e,
    ensures
        range_sum(c, r, e) == c[r] + range_sum(c, r + 1, e),
    decreases e - r,
{
    if r + 1 < e {
        lemma_range_sum_front(c, r, e - 1);
        assert(range_sum(c, r, e) == range_sum(c, r, e - 1) + c[e - 1]);
        assert(range_sum(c, r + 1, e) == range_sum(c, r + 1, e - 1) + c[e - 1]);
    } else {
        assert(range_sum(c, r, e) == range_sum(c, r, r) + c[r]);
        assert(range_sum(c, r, r) == 0);
        assert(range_sum(c, r + 1, e) == 0);
    }
}

proof fn lemma_full_cell_bit(cb: u64, x: u64, p: u64)
    by (bit_vector)
    requires
        p < 16,
        x == cb & (cb >> 1u64) & (cb >> 2u64) & 0x1111_1111_1111_1111u64,
    ensures
        (x >> (4 * p)) & 1 == if (cb >> (4 * p)) & 0xf & 7 == 7 { 1u64 } else { 0u64 },
{
}

/// The number of cells whose rank has its three low bits set (see `full_cells_upto`).
fn full_cell_count(cb: Board) -> (n: i32)
    ensures
        n == full_cells_upto(cb, 16),
        0 <= n <= 16,
{
    let x = cb & (cb >> 1) & (cb >> 2) & 0x1111_1111_1111_1111;
    let mut n = 0i32;
    let mut p = 0u64;
    while p < 16
        invariant
            p <= 16,
            x == cb & (cb >> 1u64) & (cb >> 2u64) & 0x1111_1111_1111_1111u64,
            n == full_cells_upto(cb, p as int),
            0 <= n <= p,
        decreases 16 - p,
    {
        proof {
            lemma_full_cell_bit(cb, x, p);
        }
        n += ((x >> (4 * p)) & 1) as i32;
        p += 1;
    }
    n
}

/// The sum of the values of the tiles of ranks 1 to 8.
fn small_tiles_sum(counts: &[u8; 16]) -> (s: i32)
    ensures
        s == counts_sum(counts@, 9),
        0 <= s <= 522240,
{
    let mut s = 0i32;
    let mut rank = 1usize;
    while rank < 9
        invariant
            1 <= rank <= 9,
            s == counts_sum(counts@, rank as nat),
            0 <= s <= 65280 * (rank - 1),
        decreases 9 - rank,
    {
        proof {
            crate::endgame::stats::lemma_shl_pow2(rank as u32);
            vstd::arithmetic::power2::lemma_pow2_strictly_increases(rank as nat, 9);
            vstd::arithmetic::power2::lemma2_to64();
            assert(0 <= counts@[rank as int] * pow2(rank as nat) <= 65280) by (nonlinear_arith)
                requires 0 <= counts@[rank as int] <= 255, 0 <= pow2(rank as nat) <= 256;
        }
        s += (counts[rank] as i32) * (1i32 << (rank as u32));
        rank += 1;
    }
    s
}

/// Whether no rank from 9 to 14 holds two tiles.
fn distinct_gt_256(counts: &[u8; 16]) -> (d: bool)
    ensures
        d == distinct_above_256(counts@),
{
    let mut rank = 9usize;
    while rank < 15
        invariant
            9 <= rank <= 15,
            forall|r: int| 9 <= r < rank ==> #[trigger] counts@[r] <= 1,
        decreases 15 - rank,
    {
        if counts[rank] > 1 {
            return false;
        }
        rank += 1;
    }
    true
}

/// The smallest masked tile (see `min_masked_tile`), for `mc > 0`.
fn min_masked(counts: &[u8; 16], mc: i32) -> (r: u8)
    requires
        mc > 0,
    ensures
        r == min_masked_from(counts@, mc as int, 15),
{
    let mut accumulated = 0i32;
    let mut rank = 16usize;
    while rank > 0
        invariant
            rank <= 16,
            accumulated == range_sum(counts@, rank as int, 16),
            0 <= accumulated <= 255 * (16 - rank),
            min_masked_from(counts@, mc as int, 15) == min_masked_from(counts@, mc as int, rank - 1),
        decreases rank,
    {
        rank -= 1;
        proof {
            lemma_range_sum_front(counts@, rank as int, 16);
        }
        accumulated += counts[rank] as i32;
        if accumulated >= mc {
            return rank as u8;
        }
    }
    0
}

/// The search's evaluation threshold (see `threshold_for`).
fn threshold_of(large_tiles: i32, prune: i32) -> (t: i32)
    ensures
        t == threshold_for(large_tiles as int, prune as int),
{
    if large_tiles > 4 {
        if prune == 0 {
            5600
        } else {
            2400
        }
    } else if prune == 0 {
        8400
    } else {
        3200
    }
}

/// The score of a dead position (see `dead_score_for`).
fn dead_score_of(counts: &[u8; 16], board_sum: i32) -> (d: i32)
    ensures
        d == dead_score_for(counts@, board_sum as int),
        0 < d <= 262144,
{
    let count_gt_128 = sum_counts(counts, 8, 16) as i32;
    let count_gt_256 = sum_counts(counts, 9, 16) as i32;
    let distinct_gt_256 = distinct_gt_256(counts);
    if count_gt_128 <= 4 {
        262144
    } else if board_sum % 1024 < 8 || board_sum % 1024 > 1008 {
        131072
    } else if count_gt_128 == 5 {
        131072
    } else if count_gt_256 > 5 && distinct_gt_256 {
        if count_gt_128 == 8 && (counts[7] == 1 || counts[6] >= 1) {
            4096
        } else if count_gt_256 >= 6 && 960 < board_sum % 1024 {
            32768
        } else {
            48000
        }
    } else {
        65536
    }
}

/// The rank from which tiles are masked (see `mask_threshold`).
fn masking_threshold(counts: &[u8; 16], board_sum: i32) -> (t: u8)
    ensures
        t == mask_threshold(counts@, board_sum as int),
{
    let small_tiles_sum = small_tiles_sum(counts);
    let rem = board_sum % 1024;
    let cond_a_part1 = (rem >= 48 || (rem > 12 && small_tiles_sum == rem)) && rem <= 512 && counts[9] == 0;
    let cond_a_part2 = rem >= 512 || rem < 6;
    if cond_a_part1 || cond_a_part2 {
        if rem > 1000 {
            11
        } else {
            9
        }
    } else {
        12
    }
}

/// The four bonus flags of the override rows (see `mask_flags`).
fn flags_of(counts: &[u8; 16], board_sum: i32, masked_count: i32) -> (f: (bool, bool, bool, bool))
    ensures
        f == mask_flags(counts@, board_sum as int, masked_count as int),
{
    let count_gt_512 = sum_counts(counts, 10, 16) as i32;
    let flag1 = count_gt_512 == 5 && (counts[9] == 1 || counts[8] > 0) && board_sum % 512 < 72;
    let flag2 = ((count_gt_512 == 6 || (count_gt_512 == 5 && counts[9] == 1)) && board_sum % 1024 < 72) || (count_gt_512
        == 5 && counts[9] == 0 && (counts[8] == 1 || counts[7] > 0) && board_sum % 256 < 72);
    let flag3 = count_gt_512 >= 4 && masked_count >= 5 && board_sum % 256 > 132 && board_sum % 256 < 234;
    let flag4 = count_gt_512 == 4 && counts[9] == 1 && counts[10] == 1 && board_sum % 256 < 60;
    (flag1, flag2, flag3, flag4)
}

/// The tiles the search must keep in place (see `fixed_mask_for`).
#[verifier::spinoff_prover]
fn fixed_mask_of(
    current_board: Board,
    counts: &[u8; 16],
    board_sum: i32,
    masked_count: i32,
    large_tiles: i32,
    do_check: i32,
    prune: i32,
) -> (m: Board)
    ensures
        m == fixed_mask_for(current_board, counts@, board_sum as int, masked_count as int, large_tiles as int, do_check as int, prune as int),
{
    let mut min_masked_tile = 0u8;
    if masked_count > 0 {
        min_masked_tile = min_masked(counts, masked_count);
    }
    let count_gt_512 = sum_counts(counts, 10, 16) as i32;
    if masked_count >= 5 && counts[0] >= 3 {
        get_22_mask(current_board) | get_21_mask(current_board)
    } else if (min_masked_tile == 12 && masked_count == 4) || (min_masked_tile == 11 && masked_count == 5) || (
    min_masked_tile == 10 && masked_count == 6) {
        get_23_mask(current_board) | get_22_mask(current_board)
    } else if masked_count >= 5 && (large_tiles > 5 || (board_sum % 256 > 48 && board_sum % 256 < 224) || is_5tiler(
        board_sum,
        counts,
    )) {
        get_23_mask(current_board) | get_22_mask(current_board)
    } else if do_check != 0 || (prune == 0 && (large_tiles > 2 || large_tiles == 0)) || ((board_sum % 256 > 246
        || board_sum % 256 < 24) && ((large_tiles < 5 && large_tiles > 2) || large_tiles == 0)) || counts[7] > 1 || (
    counts[6] > 1 && counts[7] == 1) {
        0
    } else if masked_count >= 4 {
        get_22_mask(current_board) | get_21_mask(current_board)
    } else if masked_count == 3 && count_gt_512 == 3 && board_sum % 1024 > 24 {
        get_21_mask(current_board) | get_20_mask(current_board)
    } else if masked_count >= 2 && count_gt_512 == 2 && board_sum % 512 > 16 {
        get_20_mask(current_board)
    } else {
        0
    }
}

} // verus!
