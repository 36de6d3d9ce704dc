//! The endgame engine's decisions for one move, apart from the tablebase
//! rates and the time budget: which tablebase threshold a board is probed at,
//! how the search is tuned (corner check, pruning), which depths it runs,
//! and which searched moves are close enough to the best.

use vstd::prelude::*;
use crate::board::Board;
use crate::endgame::stats::{range_sum, sum_counts, max_counts};
use crate::endgame::rules::{trem, is_5tiler, is_5tiler_spec, tiles_all_set, tiles_all_set_spec, danbianhuichuan_patch};
use crate::endgame::mess::{is_mess, is_mess_spec};

verus! {

/// Every rank in `s..e` holds at most `k` tiles.
pub open spec fn all_at_most(c: Seq<u8>, s: int, e: int, k: int) -> bool {
    forall|i: int| s <= i < e ==> #[trigger] c[i] <= k
}

/// Some rank in `s..e` holds more than `k` tiles.
pub open spec fn some_above(c: Seq<u8>, s: int, e: int, k: int) -> bool {
    exists|i: int| s <= i < e && #[trigger] c[i] > k
}

/// The ranks in `s..e` hold tiles, at most one each.
pub open spec fn max_is_one(c: Seq<u8>, s: int, e: int) -> bool {
    all_at_most(c, s, e, 1) && some_above(c, s, e, 0)
}

/// The rank above which tiles are masked when probing the tablebase; 0 when
/// the board is not probed. Six distinct tiles of 1024 and more, of 512 and
/// more, of 256 and more, or of 128 and more, with the board sum in a fitting
/// range, select 10 (or 8), 9, 8 and 7.
pub open spec fn probe_threshold_spec(c: Seq<u8>, bs: int) -> int {
    if range_sum(c, 10, 15) == 6 && max_is_one(c, 10, 15) {
        if !(trem(bs, 1024) < 480 && c[9] == 1) {
            if trem(bs, 1024) > 96 {
                10
            } else if trem(bs, 1024) > 60 {
                8
            } else {
                0
            }
        } else {
            0
        }
    } else if range_sum(c, 9, 15) == 6 && max_is_one(c, 9, 15) {
        if !(trem(bs, 512) < 240 && c[8] == 1) { 9 } else { 0 }
    } else if range_sum(c, 8, 15) == 6 && max_is_one(c, 8, 15) && trem(bs, 256) < 240 {
        if !(trem(bs, 256) < 120 && c[7] == 1) && !(range_sum(c, 10, 16) == 5 && c[9] == 0 && trem(bs, 256) < 64) {
            8
        } else {
            0
        }
    } else if range_sum(c, 7, 15) == 6 && max_is_one(c, 7, 15) && 20 < trem(bs, 128) && trem(bs, 128) < 120 && c[7] == 1
        && !(trem(bs, 128) < 60 && c[6] == 1) {
        7
    } else {
        0
    }
}

proof fn lemma_max_counts(c: Seq<u8>, s: int, e: int, m: int)
    requires
        s < e,
        forall|i: int| s <= i < e ==> #[trigger] c[i] <= m,
        exists|i: int| s <= i < e && #[trigger] c[i] == m,
    ensures
        (m == 1) == max_is_one(c, s, e),
        (m > 1) == some_above(c, s, e, 1),
{
    let w = choose|i: int| s <= i < e && #[trigger] c[i] == m;
    if max_is_one(c, s, e) {
        let j = choose|i: int| s <= i < e && #[trigger] c[i] > 0;
        assert(c[j] <= m);
        assert(c[w] <= 1);
    }
    if some_above(c, s, e, 1) {
        let j = choose|i: int| s <= i < e && #[trigger] c[i] > 1;
        assert(c[j] <= m);
    }
    if m == 1 {
        assert(c[w] > 0);
    }
    if m > 1 {
        assert(c[w] > 1);
    }
}

/// The threshold the board is probed at (see `probe_threshold_spec`).
pub fn probe_threshold(counts: &[u8; 16], board_sum: i32) -> (t: u8)
    ensures
        t == probe_threshold_spec(counts@, board_sum as int),
{
    let c10_15 = sum_counts(counts, 10, 15);
    let c9_15 = sum_counts(counts, 9, 15);
    let c8_15 = sum_counts(counts, 8, 15);
    let c7_15 = sum_counts(counts, 7, 15);
    let m10 = max_counts(counts, 10, 15);
    let m9 = max_counts(counts, 9, 15);
    let m8 = max_counts(counts, 8, 15);
    let m7 = max_counts(counts, 7, 15);
    proof {
        lemma_max_counts(counts@, 10, 15, m10 as int);
        lemma_max_counts(counts@, 9, 15, m9 as int);
        lemma_max_counts(counts@, 8, 15, m8 as int);
        lemma_max_counts(counts@, 7, 15, m7 as int);
    }
    let mut threshold = 0u8;
    if c10_15 == 6 && m10 == 1 {
        if !((board_sum % 1024) < 480 && counts[9] == 1) {
            if board_sum % 1024 > 96 {
                threshold = 10;
            } else if board_sum % 1024 > 60 {
                threshold = 8;
            }
        }
    } else if c9_15 == 6 && m9 == 1 {
        if !((board_sum % 512) < 240 && counts[8] == 1) {
            threshold = 9;
        }
    } else if c8_15 == 6 && m8 == 1 && (board_sum % 256) < 240 {
        if !((board_sum % 256) < 120 && counts[7] == 1) && !(sum_counts(counts, 10, 16) == 5 && counts[9] == 0 && (
        board_sum % 256) < 64) {
            threshold = 8;
        }
    } else if c7_15 == 6 && m7 == 1 && 20 < (board_sum % 128) && (board_sum % 128) < 120 && counts[7] == 1 && !((
    board_sum % 128) < 60 && counts[6] == 1) {
        threshold = 7;
    }
    threshold
}

/// Whether a board whose probe found no move is probed again the 4-4-1 way
/// at `threshold` (9, then 8): its tiles from rank `threshold - 1` up number
/// seven, none below 32768 twice, and the board sum modulo 256 is under 240
/// (for 9), modulo 128 under 120 (for 8).
pub open spec fn retry_441_spec(c: Seq<u8>, bs: int, threshold: int) -> bool {
    if threshold == 9 {
        range_sum(c, 8, 15) + c[15] == 7 && max_is_one(c, 8, 15) && trem(bs, 256) < 240
    } else {
        range_sum(c, 7, 15) + c[15] == 7 && max_is_one(c, 7, 15) && trem(bs, 128) < 120
    }
}

/// Whether the board is probed again the 4-4-1 way at `threshold` (see
/// `retry_441_spec`).
pub fn retry_441(counts: &[u8; 16], board_sum: i32, threshold: u8) -> (r: bool)
    requires
        threshold == 8 || threshold == 9,
    ensures
        r == retry_441_spec(counts@, board_sum as int, threshold as int),
{
    if threshold == 9 {
        let m = max_counts(counts, 8, 15);
        proof {
            lemma_max_counts(counts@, 8, 15, m as int);
        }
        sum_counts(counts, 8, 15) + counts[15] as u16 == 7 && m == 1 && (board_sum % 256) < 240
    } else {
        let m = max_counts(counts, 7, 15);
        proof {
            lemma_max_counts(counts@, 7, 15, m as int);
        }
        sum_counts(counts, 7, 15) + counts[15] as u16 == 7 && m == 1 && (board_sum % 128) < 120
    }
}

/// How the endgame search of one move is run: the tile statistics it was
/// tuned by, the corner check and pruning switches, and the depths to search
/// with the rule (0 to 6) by which the time budget is set.
#[derive(Clone, Copy)]
pub struct StepPlan {
    pub big_nums: i32,
    pub is_not_merging: bool,
    pub is_mess: bool,
    pub is_5tiler: bool,
    pub do_check: i32,
    pub prune: i32,
    pub time_rule: u8,
    pub initial_depth: i32,
    pub max_depth: i32,
}

/// No rank from 8 to 14 holds two tiles and no merge of the tiles below
/// them is near.
pub open spec fn not_merging_spec(c: Seq<u8>, bs: int) -> bool {
    max_is_one(c, 8, 15) && !(c[7] > 1 && c[8] == 1) && !(c[6] > 1 && c[7] == 1 && c[8] == 1 && trem(bs, 1024) < 96)
}

/// Pruning is on for a non-merging board unless one of the ranks just below
/// the large tiles holds two tiles near the end of a cycle of the board sum,
/// or the board is a mess; it is off again for a mess, an evil probe, a
/// board with all tiles set or a sparse endgame, unless it is a five-tile
/// endgame.
pub open spec fn prune_spec(board: u64, c: Seq<u8>, bs: int, is_evil: bool) -> int {
    let nm = not_merging_spec(c, bs);
    let mess = nm && is_mess_spec(board, bs);
    let big = range_sum(c, 8, 16);
    let cond1 = !(40 < trem(bs, 512) && trem(bs, 512) < 500) && some_above(c, 7, 9, 1) && big > 2;
    let cond2 = !(32 < trem(bs, 256) && trem(bs, 256) < 250) && some_above(c, 6, 8, 1) && big > 4;
    let cond3 = !(24 < trem(bs, 128) && trem(bs, 128) < 126) && some_above(c, 5, 7, 1) && big > 4;
    let p1 = if nm && !(cond1 || cond2 || cond3 || mess) { 1int } else { 0 };
    let sparse = max_is_one(c, 6, 16) && range_sum(c, 6, 16) >= 9;
    if (mess || is_evil || tiles_all_set_spec(c) || sparse) && !is_5tiler_spec(bs, c) {
        0
    } else {
        p1
    }
}

/// The depths to search and the time rule: a mess or a five-tile endgame
/// from 5 to 24 (rule 0); an open board with few large tiles to 3 (rule 1);
/// a board with few large tiles to 4 or 5 (rule 1); else by the board sum
/// near the end of the game (rules 2 and 3), by the ranks just below the
/// large tiles (rules 4 to 6), deeper by one with pruning on, and at most 10
/// with few tiles of 512 and more.
pub open spec fn schedule_spec(c: Seq<u8>, bs: int, nm: bool, mess: bool, five: bool, prune: int) -> (int, int, int) {
    let big = range_sum(c, 8, 16);
    if mess || five {
        (0, 5, 24)
    } else if c[0] > 4 && big < 2 && nm {
        (1, 3, 3)
    } else if ((big <= 3 && 32 < trem(bs, 256) && trem(bs, 256) < 248 && nm) || big < 3) && !(trem(bs, 256) < 72 && c[6] > 0) {
        let d = if c[7] == 0 { 4int } else { 5 };
        (1, d, d)
    } else {
        let (rule, initial, max): (int, int, int) = if 65380 < bs && bs <= 65500 {
            (2, if (65540 - bs) / 2 < 33 { (65540 - bs) / 2 } else { 33 }, 60)
        } else if 65260 < bs && bs <= 65380 {
            (3, 20, 60)
        } else if c[7] > 1 || (trem(bs, 512) < 20 && range_sum(c, 8, 16) > 4) {
            (4, 4, 32)
        } else if nm && range_sum(c, 7, 16) > 5 {
            (5, 4, 48)
        } else {
            (6, 4, 24)
        };
        (rule, initial + prune, if !mess && range_sum(c, 9, 16) <= 3 { 10 } else { max })
    }
}

/// Plans the search of one move (see `not_merging_spec`, `prune_spec` and
/// `schedule_spec`); `is_evil` is whether the tablebase probe found the
/// position hopeless. The corner check is on for a mess with three to six
/// large tiles.
pub fn plan_step(board: Board, counts: &[u8; 16], board_sum: i32, is_evil: bool) -> (plan: StepPlan)
    ensures
        plan.big_nums == range_sum(counts@, 8, 16),
        plan.is_not_merging == not_merging_spec(counts@, board_sum as int),
        plan.is_mess == (not_merging_spec(counts@, board_sum as int) && is_mess_spec(board, board_sum as int)),
        plan.is_5tiler == is_5tiler_spec(board_sum as int, counts@),
        plan.do_check == if plan.is_mess && 3 <= plan.big_nums <= 6 { plan.big_nums as int } else { 0 },
        plan.prune == prune_spec(board, counts@, board_sum as int, is_evil),
        (plan.time_rule as int, plan.initial_depth as int, plan.max_depth as int) == schedule_spec(
            counts@,
            board_sum as int,
            plan.is_not_merging,
            plan.is_mess,
            plan.is_5tiler,
            plan.prune as int,
        ),
{
    let big_nums = sum_counts(counts, 8, 16) as i32;
    let m8 = max_counts(counts, 8, 15);
    let m79 = max_counts(counts, 7, 9);
    let m68 = max_counts(counts, 6, 8);
    let m57 = max_counts(counts, 5, 7);
    let m616 = max_counts(counts, 6, 16);
    proof {
        lemma_max_counts(counts@, 8, 15, m8 as int);
        lemma_max_counts(counts@, 7, 9, m79 as int);
        lemma_max_counts(counts@, 6, 8, m68 as int);
        lemma_max_counts(counts@, 5, 7, m57 as int);
        lemma_max_counts(counts@, 6, 16, m616 as int);
    }
    let is_not_merging = m8 == 1 && !(counts[7] > 1 && counts[8] == 1) && !(counts[6] > 1 && counts[7] == 1 && counts[8] == 1
        && board_sum % 1024 < 96);
    let is_mess = is_not_merging && is_mess(board, board_sum);
    let is_5tiler = is_5tiler(board_sum, counts);
    let do_check = if is_mess && 3 <= big_nums && big_nums <= 6 {
        big_nums
    } else {
        0
    };
    let mut prune = 0i32;
    if is_not_merging {
        let cond1 = !(40 < board_sum % 512 && board_sum % 512 < 500) && m79 > 1 && big_nums > 2;
        let cond2 = !(32 < board_sum % 256 && board_sum % 256 < 250) && m68 > 1 && big_nums > 4;
        let cond3 = !(24 < board_sum % 128 && board_sum % 128 < 126) && m57 > 1 && big_nums > 4;
        if !(cond1 || cond2 || cond3 || is_mess) {
            prune = 1;
        }
    }
    let is_sparse_endgame = m616 == 1 && sum_counts(counts, 6, 16) >= 9;
    if (is_mess || is_evil || tiles_all_set(counts) || is_sparse_endgame) && !is_5tiler {
        prune = 0;
    }
    if danbianhuichuan_patch(board, board_sum) {
        prune = 1;
    }
    let empty_slots = counts[0] as i32;
    let (time_rule, initial_depth, max_depth) = if is_mess || is_5tiler {
        (0u8, 5i32, 24i32)
    } else if empty_slots > 4 && big_nums < 2 && is_not_merging {
        (1, 3, 3)
    } else if ((big_nums <= 3 && 32 < board_sum % 256 && board_sum % 256 < 248 && is_not_merging) || big_nums < 3) && !(
    board_sum % 256 < 72 && counts[6] > 0) {
        let depth = if counts[7] == 0 {
            4
        } else {
            5
        };
        (1, depth, depth)
    } else {
        let (rule, mut initial, mut max) = if 65380 < board_sum && board_sum <= 65500 {
            (2u8, ((65540 - board_sum) / 2).min(33), 60i32)
        } else if 65260 < board_sum && board_sum <= 65380 {
            (3, 20, 60)
        } else if counts[7] > 1 || (board_sum % 512 < 20 && sum_counts(counts, 8, 16) > 4) {
            (4, 4, 32)
        } else if is_not_merging && sum_counts(counts, 7, 16) > 5 {
            (5, 4, 48)
        } else {
            (6, 4, 24)
        };
        initial += prune;
        if !is_mess && sum_counts(counts, 9, 16) <= 3 {
            max = 10;
        }
        (rule, initial, max)
    };
    StepPlan { big_nums, is_not_merging, is_mess, is_5tiler, do_check, prune, time_rule, initial_depth, max_depth }
}

/// How a tablebase move is checked by search: the pruning switch and depth
/// of the first search, the depths of the deeper search, and whether the win
/// rates after the two candidate moves are compared at the end.
#[derive(Clone, Copy)]
pub struct ValidationPlan {
    pub prune: i32,
    pub depth: i32,
    pub min_depth: i32,
    pub max_depth: i32,
    pub compare_after_moves: bool,
}

/// The plan for checking a move of a table of type `table_type` found at
/// `threshold`: pruning when the board sum modulo 256 lies strictly between
/// 48 and 234, with a first search to depth 8 (else 6); the deeper search
/// from depth 24 to 48 for type 1256 tables, else from 6 to 10; the win rates
/// after the moves compared unless the threshold is 8, the type 512 and the
/// board sum modulo 256 under 96.
pub fn validation_plan(board_sum: i32, table_type: u32, threshold: u8) -> (p: ValidationPlan)
    ensures
        p.prune == if 48 < trem(board_sum as int, 256) < 234 { 1int } else { 0 },
        p.depth == if p.prune != 0 { 8int } else { 6 },
        p.min_depth == if table_type == 1256 { 24int } else { 6 },
        p.max_depth == if table_type == 1256 { 48int } else { 10 },
        p.compare_after_moves == !(threshold == 8 && table_type == 512 && trem(board_sum as int, 256) < 96),
{
    let prune = if 48 < board_sum % 256 && board_sum % 256 < 234 {
        1
    } else {
        0
    };
    ValidationPlan {
        prune,
        depth: if prune != 0 { 8 } else { 6 },
        min_depth: if table_type == 1256 { 24 } else { 6 },
        max_depth: if table_type == 1256 { 48 } else { 10 },
        compare_after_moves: !(threshold == 8 && table_type == 512 && board_sum % 256 < 96),
    }
}

/// A best move's score below this gives the next depths more time.
pub const SCORE_CRITICAL: i32 = -30_000;

/// With every move's score below this, deeper searches are not tried.
pub const SCORE_HOPELESS: i32 = -100_000;

/// What a search at one depth tells the deepening: whether the best move's
/// score (0 without a best move) is below `SCORE_CRITICAL`, and whether every
/// move's score is below `SCORE_HOPELESS`.
pub fn depth_verdict(best_op: usize, scores: [i32; 4]) -> (r: (bool, bool))
    ensures
        r.0 == ((if 1 <= best_op <= 4 { scores@[best_op - 1] as int } else { 0 }) < SCORE_CRITICAL),
        r.1 == forall|i: int| 0 <= i < 4 ==> #[trigger] scores@[i] < SCORE_HOPELESS,
{
    let best_score = if 1 <= best_op && best_op <= 4 {
        scores[best_op - 1]
    } else {
        0
    };
    let hopeless = scores[0] < SCORE_HOPELESS && scores[1] < SCORE_HOPELESS && scores[2] < SCORE_HOPELESS && scores[3]
        < SCORE_HOPELESS;
    (best_score < SCORE_CRITICAL, hopeless)
}

/// The node budget of a search to `depth` at time scale `scale` (1, 4, 8 or
/// 16 as the time limit grows): 20000 nodes per level (at least one level)
/// times the scale, saturating, kept between 30000 and 3000000.
pub open spec fn node_budget_spec(depth: int, scale: int) -> int {
    let base = 20000 * if depth >= 1 { depth } else { 1 };
    let scaled = if base * scale > u64::MAX { u64::MAX as int } else { base * scale };
    if scaled < 30000 {
        30000
    } else if scaled > 3000000 {
        3000000
    } else {
        scaled
    }
}

/// The node budget of a search (see `node_budget_spec`).
pub fn node_budget_for(depth: i32, scale: u64) -> (n: u64)
    ensures
        n == node_budget_spec(depth as int, scale as int),
{
    let levels: u64 = if depth > 1 { depth as u64 } else { 1 };
    let base = 20_000 * levels;
    let scaled = match base.checked_mul(scale) {
        Some(v) => v,
        None => u64::MAX,
    };
    if scaled < 30_000 {
        30_000
    } else if scaled > 3_000_000 {
        3_000_000
    } else {
        scaled
    }
}

/// Whether the searched score of `move_id` is close enough to the best: within
/// 16 (24 when `wide`) of it with the third best above 2400, within 24 (36)
/// with the third best above 2800, or within 8 (12).
pub open spec fn close_to_best_spec(sorted: Seq<i32>, target: int, wide: bool) -> bool {
    let (a, b, c) = if wide { (24int, 36int, 12int) } else { (16int, 24int, 8int) };
    (target >= sorted[0] - a && sorted[2] > 2400) || (target >= sorted[0] - b && sorted[2] > 2800) || target >= sorted[0] - c
}

/// Whether the tablebase's move scores close enough to the best of the
/// searched scores (see `close_to_best_spec`, over the scores sorted best first).
pub fn close_to_best(sorted: [i32; 4], target: i32, wide: bool) -> (r: bool)
    requires
        sorted@[0] - (if wide { 24int } else { 16 }) >= i32::MIN,
        (target >= sorted@[0] - (if wide { 24int } else { 16 }) && sorted@[2] > 2400) || sorted@[0] - (if wide { 36int } else { 24 })
            >= i32::MIN,
    ensures
        r == close_to_best_spec(sorted@, target as int, wide),
{
    let (a, b, c) = if wide {
        (24i32, 36i32, 12i32)
    } else {
        (16, 24, 8)
    };
    (target >= sorted[0] - a && sorted[2] > 2400) || (target >= sorted[0] - b && sorted[2] > 2800) || target >= sorted[0] - c
}

} // verus!
