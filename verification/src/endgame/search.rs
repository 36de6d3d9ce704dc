//! The endgame player's search: moves maximize, tile spawns average (a 2
//! and a 4 on each empty cell, by the spawn weights), with a node budget, a
//! cut-off on spawned tiles, pruning by the evaluation and the fixed tiles,
//! and the search cache. A result of `None` reports an arithmetic overflow.

use vstd::prelude::*;
use vstd::std_specs::bits::{u32_leading_zeros, axiom_u32_leading_zeros};
use crate::board::{Board, cell, num_empty, empty_upto};
use crate::tables::Tables;
use crate::endgame::cache::{board_bucket, lookup_result, updated_entries, is_pow2, MAX_CACHE_BUCKETS};
use crate::endgame::eval::{ScorePair, EvalOverride, move_points, move_score, processed_score, process_score, tdiv};
use crate::endgame::moves::{internal_dir, execute_internal_move};
use crate::endgame::player::{AiPlayer, board_eval, move_result, search0_upto, lemma_move_result, mask_applied};

verus! {

/// What the search reads and never changes.
pub struct SearchContext {
    pub max_d: i32,
    pub max_layer: i32,
    pub fixed_mask: u64,
    pub initial_eval_score: i32,
    pub threshold: i32,
    pub dead_score: i32,
    pub masked_count: i32,
    pub do_check: i32,
    pub spawn_weight_2: i32,
    pub spawn_weight_4: i32,
    pub node_budget: u64,
    pub table: Seq<ScorePair>,
    pub overrides: Seq<EvalOverride>,
    pub cache_mask: u64,
}

/// What the search changes.
pub struct SearchState {
    pub node: u64,
    pub stop: bool,
    pub entries: Seq<u64>,
    pub cache_hits: u32,
    pub best_operation: usize,
    pub top_scores: Seq<i32>,
}

pub open spec fn context_of(p: AiPlayer) -> SearchContext {
    SearchContext {
        max_d: p.max_d,
        max_layer: p.max_layer,
        fixed_mask: p.fixed_mask,
        initial_eval_score: p.initial_eval_score,
        threshold: p.threshold,
        dead_score: p.dead_score,
        masked_count: p.masked_count,
        do_check: p.do_check,
        spawn_weight_2: p.spawn_weight_2,
        spawn_weight_4: p.spawn_weight_4,
        node_budget: p.node_budget,
        table: p.table@,
        overrides: p.eval_overrides@,
        cache_mask: p.cache.mask,
    }
}

pub open spec fn state_of(p: AiPlayer) -> SearchState {
    SearchState {
        node: p.node,
        stop: p.stop_search,
        entries: p.cache.entries@,
        cache_hits: p.cache_hits,
        best_operation: p.best_operation,
        top_scores: p.top_scores@,
    }
}

/// The fields the search neither reads nor changes.
pub open spec fn rest_same(a: AiPlayer, b: AiPlayer) -> bool {
    &&& a.board == b.board
    &&& a.board_sum == b.board_sum
    &&& a.prune == b.prune
    &&& a.cache.buckets == b.cache.buckets
}

/// The nodes left in the budget.
pub open spec fn budget_left(c: SearchContext, s: SearchState) -> int {
    if s.node < c.node_budget { c.node_budget - s.node } else { 0 }
}

pub open spec fn eval_in(c: SearchContext, b: u64) -> int {
    board_eval(c.table, c.overrides, c.do_check as int, c.masked_count as int, b)
}

pub open spec fn fits_i32(x: int) -> bool {
    i32::MIN <= x <= i32::MAX
}

pub open spec fn fits_u64(x: int) -> bool {
    0 <= x <= u64::MAX
}

pub open spec fn min_i(a: int, b: int) -> int {
    if a <= b { a } else { b }
}

pub open spec fn max_i(a: int, b: int) -> int {
    if a >= b { a } else { b }
}

/// The spawn node: one more node; at the budget, stop. Shallow in the
/// search, cut off past the spawn limit (with the evaluation) and when a
/// fixed tile moved or the evaluation fell too far (as dead). A full board
/// passes to the move node; otherwise the search depth is capped on a board
/// with many empty cells, the cache answers if it can, else each empty cell
/// is tried with a 4 and a 2 and the weighted average is recorded.
pub open spec fn branch_spec(c: SearchContext, s: SearchState, b: u64, depth: int, inc: int) -> (Option<(i32, u64)>, SearchState)
    decreases budget_left(c, s), 0int, 0int,
{
    let s1 = SearchState { node: s.node.saturating_add(1), ..s };
    if s1.node >= c.node_budget {
        (Some((0i32, 1u64)), SearchState { stop: true, ..s1 })
    } else if depth < c.max_d - 2 && inc > c.max_layer {
        (Some((eval_in(c, b) as i32, 1u64)), s1)
    } else if depth < c.max_d - 2 && (b & c.fixed_mask) != c.fixed_mask {
        (Some(((-c.dead_score) as i32, 1u64)), s1)
    } else if depth < c.max_d - 2 && eval_in(c, b) < c.initial_eval_score - c.threshold {
        (Some(((-c.dead_score) as i32, 1u64)), s1)
    } else if num_empty(b) == 0 {
        let (r, s2) = ai_spec(c, s1, b, depth - 1, inc);
        if r is Some && fits_u64(1 + r->Some_0.1) {
            (Some((r->Some_0.0, (1 + r->Some_0.1) as u64)), s2)
        } else {
            (None, s2)
        }
    } else {
        let slots = num_empty(b) as int;
        let eff = if slots > 5 && c.masked_count < 4 {
            min_i(depth, 3)
        } else if slots > 4 && c.masked_count < 4 {
            min_i(depth, 4)
        } else {
            depth
        };
        let bucket = board_bucket(b, c.cache_mask) as int;
        let hit = lookup_result(s1.entries, bucket, b, eff);
        if hit is Some {
            if s1.cache_hits + 1 > u32::MAX {
                (None, s1)
            } else {
                (Some((hit->Some_0, 2u64)), SearchState { cache_hits: (s1.cache_hits + 1) as u32, ..s1 })
            }
        } else {
            cells_finish(c, b, eff, slots, bucket, cells_spec(c, s1, b, eff, inc, 0, 0, 1))
        }
    }
}

/// A spawn node's result from its cells: the average over the empty cells,
/// recorded in the cache.
pub open spec fn cells_finish(c: SearchContext, b: u64, eff: int, slots: int, bucket: int, res: (Option<(int, u64)>, SearchState)) -> (
    Option<(i32, u64)>,
    SearchState,
) {
    let (r, s2) = res;
    if r is Some {
        let score = tdiv(r->Some_0.0, slots) as i32;
        if score + 524288 > i32::MAX {
            (None, s2)
        } else {
            (
                Some((score, r->Some_0.1)),
                SearchState { entries: updated_entries(s2.entries, bucket, b, eff, score, c.dead_score as int, r->Some_0.1), ..s2 },
            )
        }
    } else {
        (None, s2)
    }
}

/// An empty cell of a spawn node: the move node after a 4 spawns there,
/// then after a 2.
pub open spec fn spawn_spec(c: SearchContext, s: SearchState, b: u64, eff: int, inc: int, p: int) -> (
    Option<(i32, u64, i32, u64)>,
    SearchState,
)
    decreases budget_left(c, s), 4int, 0int,
{
    if inc + 2 > i32::MAX {
        (None, s)
    } else {
        let (r4, s4) = ai_spec(c, s, b | (2u64 << ((4 * p) as u64)), eff - 1, inc + 2);
        if r4 is None || s4.node < s.node {
            (None, s4)
        } else {
            let (r2, s2) = ai_spec(c, s4, b | (1u64 << ((4 * p) as u64)), eff - 1, inc + 1);
            if r2 is None {
                (None, s2)
            } else {
                (Some((r4->Some_0.0, r4->Some_0.1, r2->Some_0.0, r2->Some_0.1)), s2)
            }
        }
    }
}

/// The empty cells from `p` on of a spawn node: a 4 then a 2 spawned on each,
/// adding the weighted score to `local`, until the search stops.
pub open spec fn cells_spec(c: SearchContext, s: SearchState, b: u64, eff: int, inc: int, p: int, local: int, out: u64) -> (
    Option<(int, u64)>,
    SearchState,
)
    decreases budget_left(c, s), 5int, 16 - p,
{
    if p >= 16 || p < 0 {
        (Some((local, out)), s)
    } else if cell(b, p) != 0 {
        cells_spec(c, s, b, eff, inc, p + 1, local, out)
    } else {
        let (r, s2) = spawn_spec(c, s, b, eff, inc, p);
        if r is None || !fits_u64(r->Some_0.1 + r->Some_0.3) || !fits_u64(out + r->Some_0.1 + r->Some_0.3) {
            (None, s2)
        } else {
            let v = r->Some_0;
            let local2 = local + ((((v.2 as int) * c.spawn_weight_2 + (v.0 as int) * c.spawn_weight_4) as i64) >> 16u64);
            let out2 = (out + v.1 + v.3) as u64;
            if s2.stop {
                (Some((local2, out2)), s2)
            } else if s2.node < s.node {
                (None, s2)
            } else {
                cells_spec(c, s2, b, eff, inc, p + 1, local2, out2)
            }
        }
    }
}

/// The move node: nothing once stopped; at depth zero the one-move search;
/// else the best over the moves of the spawn node after each.
pub open spec fn ai_spec(c: SearchContext, s: SearchState, b: u64, depth: int, inc: int) -> (Option<(i32, u64)>, SearchState)
    decreases budget_left(c, s), 3int, 0int,
{
    if s.stop {
        (Some((0i32, 1u64)), s)
    } else if depth <= 0 {
        (
            Some(
                (
                    search0_upto(c.table, c.overrides, c.do_check as int, c.masked_count as int, c.dead_score as int, b, 4) as i32,
                    1u64,
                ),
            ),
            SearchState { node: s.node.saturating_add(4), ..s },
        )
    } else {
        moves_spec(c, s, b, depth, inc, 1, -c.dead_score, 1)
    }
}

/// The moves from `m` on of a move node. A move that changes the board is
/// searched by its spawn node, deeper for a move that merges between 250 and
/// 2000 points; its score adds what the merges are worth (and 1 near the
/// root). At the root the best move and every move's score are recorded.
pub open spec fn moves_spec(c: SearchContext, s: SearchState, b: u64, depth: int, inc: int, m: int, best: int, out: u64) -> (
    Option<(i32, u64)>,
    SearchState,
)
    decreases budget_left(c, s), 2int, 5 - m,
{
    if m > 4 || m < 1 {
        (Some((best as i32, out)), s)
    } else {
        let d = internal_dir(m);
        let moved = move_result(b, d);
        if moved == b {
            moves_spec(c, s, b, depth, inc, m + 1, best, out)
        } else {
            let score = move_points(b, d);
            let cur = if depth < c.max_d - 2 && score > 250 && score < 2000 {
                min_i(u32_leading_zeros(score as u32) - 16, max_i(depth, 2))
            } else {
                depth
            };
            let (r, s2) = branch_spec(c, s, moved, cur, inc);
            let t0 = r->Some_0.0 + processed_score(score as u32);
            let temp = if depth >= c.max_d - 2 { t0 + 1 } else { t0 };
            if r is None || !fits_u64(out + r->Some_0.1) || !fits_i32(t0) || !fits_i32(temp) {
                (None, s2)
            } else {
                let better = temp > best;
                let best2 = if better { temp } else { best };
                let s3 = SearchState {
                    best_operation: if better && depth == c.max_d { m as usize } else { s2.best_operation },
                    top_scores: if depth == c.max_d { s2.top_scores.update(m - 1, temp as i32) } else { s2.top_scores },
                    ..s2
                };
                let out2 = (out + r->Some_0.1) as u64;
                if s3.stop {
                    (Some((best2 as i32, out2)), s3)
                } else if s3.node < s.node {
                    (None, s3)
                } else {
                    moves_spec(c, s3, b, depth, inc, m + 1, best2, out2)
                }
            }
        }
    }
}

/// A board with an empty cell among its first `n` has one.
proof fn lemma_empty_cell_exists(b: u64, n: nat)
    requires
        n <= 16,
        empty_upto(b, n) > 0,
    ensures
        exists|q: int| 0 <= q < n && #[trigger] cell(b, q) == 0,
    decreases n,
{
    if cell(b, n - 1) != 0 {
        lemma_empty_cell_exists(b, (n - 1) as nat);
        let q = choose|q: int| 0 <= q < n - 1 && #[trigger] cell(b, q) == 0;
        assert(cell(b, q) == 0);
    } else {
        assert(cell(b, n - 1) == 0);
    }
}

/// A move node's moves count at least the nodes counted before them.
proof fn lemma_moves_nodes(c: SearchContext, s: SearchState, b: u64, depth: int, inc: int, m: int, best: int, out: u64)
    ensures
        moves_spec(c, s, b, depth, inc, m, best, out).0 is Some ==> moves_spec(c, s, b, depth, inc, m, best, out).0->Some_0.1
            >= out,
    decreases budget_left(c, s), 5 - m,
{
    if 1 <= m <= 4 {
        let d = internal_dir(m);
        let moved = move_result(b, d);
        if moved == b {
            lemma_moves_nodes(c, s, b, depth, inc, m + 1, best, out);
        } else {
            let score = move_points(b, d);
            let cur = if depth < c.max_d - 2 && score > 250 && score < 2000 {
                min_i(u32_leading_zeros(score as u32) - 16, max_i(depth, 2))
            } else {
                depth
            };
            let (r, s2) = branch_spec(c, s, moved, cur, inc);
            let t0 = r->Some_0.0 + processed_score(score as u32);
            let temp = if depth >= c.max_d - 2 { t0 + 1 } else { t0 };
            if !(r is None || !fits_u64(out + r->Some_0.1) || !fits_i32(t0) || !fits_i32(temp)) {
                let better = temp > best;
                let best2 = if better { temp } else { best };
                let s3 = SearchState {
                    best_operation: if better && depth == c.max_d { m as usize } else { s2.best_operation },
                    top_scores: if depth == c.max_d { s2.top_scores.update(m - 1, temp as i32) } else { s2.top_scores },
                    ..s2
                };
                let out2 = (out + r->Some_0.1) as u64;
                if !s3.stop && s3.node >= s.node {
                    lemma_moves_nodes(c, s3, b, depth, inc, m + 1, best2, out2);
                }
            }
        }
    }
}

/// A move node that gives a result counts at least itself.
proof fn lemma_move_node_counts(c: SearchContext, s: SearchState, b: u64, depth: int, inc: int)
    ensures
        ai_spec(c, s, b, depth, inc).0 is Some ==> ai_spec(c, s, b, depth, inc).0->Some_0.1 >= 1,
{
    lemma_moves_nodes(c, s, b, depth, inc, 1, -c.dead_score, 1);
}

/// A searched empty cell counts at least the two move nodes after its spawns.
proof fn lemma_spawn_counts(c: SearchContext, s: SearchState, b: u64, eff: int, inc: int, p: int)
    ensures
        spawn_spec(c, s, b, eff, inc, p).0 is Some ==> spawn_spec(c, s, b, eff, inc, p).0->Some_0.1 >= 1
            && spawn_spec(c, s, b, eff, inc, p).0->Some_0.3 >= 1,
{
    if inc + 2 <= i32::MAX {
        let (r4, s4) = ai_spec(c, s, b | (2u64 << ((4 * p) as u64)), eff - 1, inc + 2);
        lemma_move_node_counts(c, s, b | (2u64 << ((4 * p) as u64)), eff - 1, inc + 2);
        lemma_move_node_counts(c, s4, b | (1u64 << ((4 * p) as u64)), eff - 1, inc + 1);
    }
}

/// The cells of a spawn node count at least the nodes counted before them,
/// and two more when an empty cell is left.
proof fn lemma_cells_nodes(c: SearchContext, s: SearchState, b: u64, eff: int, inc: int, p: int, local: int, out: u64)
    requires
        0 <= p,
    ensures
        cells_spec(c, s, b, eff, inc, p, local, out).0 is Some ==> cells_spec(c, s, b, eff, inc, p, local, out).0->Some_0.1
            >= out,
        cells_spec(c, s, b, eff, inc, p, local, out).0 is Some && (exists|q: int| p <= q < 16 && #[trigger] cell(b, q) == 0)
            ==> cells_spec(c, s, b, eff, inc, p, local, out).0->Some_0.1 >= out + 2,
    decreases budget_left(c, s), 16 - p,
{
    if p < 16 {
        if cell(b, p) != 0 {
            lemma_cells_nodes(c, s, b, eff, inc, p + 1, local, out);
            if exists|q: int| p <= q < 16 && #[trigger] cell(b, q) == 0 {
                let q = choose|q: int| p <= q < 16 && #[trigger] cell(b, q) == 0;
                assert(q != p);
                assert(p + 1 <= q < 16 && cell(b, q) == 0);
            }
        } else {
            let (r, s2) = spawn_spec(c, s, b, eff, inc, p);
            lemma_spawn_counts(c, s, b, eff, inc, p);
            if !(r is None || !fits_u64(r->Some_0.1 + r->Some_0.3) || !fits_u64(out + r->Some_0.1 + r->Some_0.3)) {
                let v = r->Some_0;
                let local2 = local + ((((v.2 as int) * c.spawn_weight_2 + (v.0 as int) * c.spawn_weight_4) as i64) >> 16u64);
                let out2 = (out + v.1 + v.3) as u64;
                if !s2.stop && s2.node >= s.node {
                    lemma_cells_nodes(c, s2, b, eff, inc, p + 1, local2, out2);
                }
            }
        }
    }
}

/// Below the top two plies, a spawn node that the node budget does not stop
/// and that is within the spawn limit is cut off (one node, scored dead)
/// exactly when the board lacks one of the fixed tiles or its evaluation
/// falls too far below the search's initial evaluation; otherwise it is
/// searched on and counts more than itself.
pub proof fn lemma_spawn_node_cut_off(c: SearchContext, s: SearchState, b: u64, depth: int, inc: int)
    requires
        s.node + 1 < c.node_budget,
        depth < c.max_d - 2,
        inc <= c.max_layer,
    ensures
        ((b & c.fixed_mask) != c.fixed_mask || eval_in(c, b) < c.initial_eval_score - c.threshold) ==> branch_spec(
            c,
            s,
            b,
            depth,
            inc,
        ) == (Some(((-c.dead_score) as i32, 1u64)), SearchState { node: (s.node + 1) as u64, ..s }),
        ((b & c.fixed_mask) == c.fixed_mask && eval_in(c, b) >= c.initial_eval_score - c.threshold) ==> (branch_spec(
            c,
            s,
            b,
            depth,
            inc,
        ).0 is None || branch_spec(c, s, b, depth, inc).0->Some_0.1 >= 2),
{
    let s1 = SearchState { node: s.node.saturating_add(1), ..s };
    assert(s1.node == s.node + 1);
    if (b & c.fixed_mask) == c.fixed_mask && eval_in(c, b) >= c.initial_eval_score - c.threshold {
        if num_empty(b) == 0 {
            lemma_move_node_counts(c, s1, b, depth - 1, inc);
        } else {
            let slots = num_empty(b) as int;
            let eff = if slots > 5 && c.masked_count < 4 {
                min_i(depth, 3)
            } else if slots > 4 && c.masked_count < 4 {
                min_i(depth, 4)
            } else {
                depth
            };
            lemma_empty_cell_exists(b, 16);
            lemma_cells_nodes(c, s1, b, eff, inc, 0, 0, 1);
        }
    }
}

/// The number of empty cells (see `num_empty`).
fn empty_cells(board: Board) -> (n: u32)
    ensures
        n == num_empty(board),
        n <= 16,
{
    let mut n = 0u32;
    let mut p = 0u64;
    while p < 16
        invariant
            p <= 16,
            n == empty_upto(board, p as nat),
            n <= p,
        decreases 16 - p,
    {
        if (board >> (4 * p)) & 0xf == 0 {
            n += 1;
        }
        p += 1;
    }
    n
}

impl AiPlayer {
    /// A move node of the search (see `ai_spec`).
    #[verifier::spinoff_prover]
    #[verifier::rlimit(80)]
    pub fn search_ai_player(&mut self, tables: &Tables, board: Board, depth: i32, sum_increment: i32) -> (r: Option<(i32, u64)>)
        requires
            old(self).wf(),
            tables.wf(),
            depth >= -17,
        ensures
            final(self).wf(),
            context_of(*final(self)) == context_of(*old(self)),
            rest_same(*final(self), *old(self)),
            final(self).node >= old(self).node,
            (r, state_of(*final(self))) == ai_spec(context_of(*old(self)), state_of(*old(self)), board, depth as int, sum_increment as int),
        decreases budget_left(context_of(*old(self)), state_of(*old(self))), 3int, 0int,
    {
        if self.stop_search {
            return Some((0, 1));
        }
        if depth <= 0 {
            let v = self.search0(tables, board);
            return Some((v, 1));
        }
        let ghost c = context_of(*self);
        let ghost s0 = state_of(*self);
        let ghost p0 = *self;
        let mut best = -self.dead_score;
        let mut out_nodes = 1u64;
        let mut internal_move = 1usize;
        while internal_move <= 4
            invariant
                self.wf(),
                tables.wf(),
                context_of(*self) == c,
                rest_same(*self, p0),
                self.node >= s0.node,
                1 <= internal_move <= 5,
                depth >= 1,
                c == context_of(p0),
                s0 == state_of(p0),
                p0 == *old(self),
                !s0.stop,
                budget_left(c, state_of(*self)) <= budget_left(c, s0),
                moves_spec(c, s0, board, depth as int, sum_increment as int, 1, -c.dead_score, 1)
                    == moves_spec(c, state_of(*self), board, depth as int, sum_increment as int, internal_move as int, best as int, out_nodes),
            decreases 5 - internal_move,
        {
            let ghost sc = state_of(*self);
            let moved = execute_internal_move(tables, board, internal_move);
            proof {
                lemma_move_result(board, internal_dir(internal_move as int), moved);
            }
            if moved == board {
                internal_move += 1;
                continue;
            }
            let score = move_score(board, internal_move);
            let mut current_depth = depth;
            if depth < self.max_d - 2 && score > 250 && score < 2000 {
                proof {
                    axiom_u32_leading_zeros(score);
                }
                let min_depth = score.leading_zeros() as i32 - 16;
                current_depth = min_depth.min(current_depth.max(2));
            }
            let res = self.search_branch(tables, moved, current_depth, sum_increment);
            let (branch_score, branch_nodes) = match res {
                Some(v) => v,
                None => {
                    return None;
                },
            };
            out_nodes = match out_nodes.checked_add(branch_nodes) {
                Some(n) => n,
                None => {
                    return None;
                },
            };
            let t0 = match branch_score.checked_add(process_score(score)) {
                Some(t) => t,
                None => {
                    return None;
                },
            };
            let temp = if depth >= self.max_d - 2 {
                match t0.checked_add(1) {
                    Some(t) => t,
                    None => {
                        return None;
                    },
                }
            } else {
                t0
            };
            if temp > best {
                best = temp;
                if depth == self.max_d {
                    self.best_operation = internal_move;
                }
            }
            if depth == self.max_d {
                self.top_scores.set(internal_move - 1, temp);
            }
            if self.stop_search {
                return Some((best, out_nodes));
            }
            internal_move += 1;
        }
        Some((best, out_nodes))
    }

    /// A spawn node of the search (see `branch_spec`).
    #[verifier::spinoff_prover]
    #[verifier::rlimit(80)]
    pub fn search_branch(&mut self, tables: &Tables, board: Board, depth: i32, sum_increment: i32) -> (r: Option<(i32, u64)>)
        requires
            old(self).wf(),
            tables.wf(),
            depth >= -16,
        ensures
            final(self).wf(),
            context_of(*final(self)) == context_of(*old(self)),
            rest_same(*final(self), *old(self)),
            final(self).node >= old(self).node,
            (r, state_of(*final(self))) == branch_spec(context_of(*old(self)), state_of(*old(self)), board, depth as int, sum_increment as int),
        decreases budget_left(context_of(*old(self)), state_of(*old(self))), 0int, 0int,
    {
        let ghost c = context_of(*self);
        let ghost p0 = *self;
        self.node = self.node.saturating_add(1);
        if self.node >= self.node_budget {
            self.stop_search = true;
            return Some((0, 1));
        }
        if depth < self.max_d - 2 {
            let current_eval = self.evaluate(board);
            if sum_increment > self.max_layer {
                return Some((current_eval, 1));
            }
            if (board & self.fixed_mask) != self.fixed_mask {
                return Some((-self.dead_score, 1));
            }
            if current_eval < self.initial_eval_score - self.threshold {
                return Some((-self.dead_score, 1));
            }
        }
        let empty_slots = empty_cells(board);
        if empty_slots == 0 {
            let res = self.search_ai_player(tables, board, depth - 1, sum_increment);
            return match res {
                Some((score, child_nodes)) => match child_nodes.checked_add(1) {
                    Some(n) => Some((score, n)),
                    None => None,
                },
                None => None,
            };
        }
        let mut effective_depth = depth;
        if empty_slots > 5 && self.masked_count < 4 {
            effective_depth = effective_depth.min(3);
        } else if empty_slots > 4 && self.masked_count < 4 {
            effective_depth = effective_depth.min(4);
        }
        let cache_idx = self.cache.hash(board);
        if let Some(cached) = self.cache.lookup(cache_idx, board, effective_depth) {
            self.cache_hits = match self.cache_hits.checked_add(1) {
                Some(h) => h,
                None => {
                    return None;
                },
            };
            return Some((cached, 2));
        }
        let ghost s1 = state_of(*self);
        assert(branch_spec(c, state_of(p0), board, depth as int, sum_increment as int) == cells_finish(
            c,
            board,
            effective_depth as int,
            empty_slots as int,
            cache_idx as int,
            cells_spec(c, s1, board, effective_depth as int, sum_increment as int, 0, 0, 1),
        ));
        let res = self.spawn_cells(tables, board, effective_depth, sum_increment);
        let (local, out_nodes) = match res {
            Some(v) => v,
            None => {
                return None;
            },
        };
        let score = (local / (empty_slots as i64)) as i32;
        if score > i32::MAX - 524288 {
            return None;
        }
        self.cache.update(cache_idx, board, effective_depth, score, self.dead_score, out_nodes);
        Some((score, out_nodes))
    }

    /// The empty cells of a spawn node, after its node is counted (see `cells_spec`).
    #[verifier::spinoff_prover]
    #[verifier::rlimit(80)]
    fn spawn_cells(&mut self, tables: &Tables, board: Board, effective_depth: i32, sum_increment: i32) -> (r: Option<(i64, u64)>)
        requires
            old(self).wf(),
            tables.wf(),
            effective_depth >= -16,
        ensures
            final(self).wf(),
            context_of(*final(self)) == context_of(*old(self)),
            rest_same(*final(self), *old(self)),
            final(self).node >= old(self).node,
            ({
                let res = cells_spec(context_of(*old(self)), state_of(*old(self)), board, effective_depth as int, sum_increment as int, 0, 0, 1);
                &&& state_of(*final(self)) == res.1
                &&& r is None <==> res.0 is None
                &&& r is Some ==> res.0->Some_0 == (r->Some_0.0 as int, r->Some_0.1)
                &&& r is Some ==> -0x20_0000_0000 <= r->Some_0.0 <= 0x20_0000_0000
            }),
        decreases budget_left(context_of(*old(self)), state_of(*old(self))), 6int, 0int,
    {
        let ghost c = context_of(*self);
        let ghost s1 = state_of(*self);
        let ghost p0 = *self;
        let mut local = 0i64;
        let mut out_nodes = 1u64;
        let mut p = 0usize;
        while p < 16
            invariant
                self.wf(),
                tables.wf(),
                context_of(*self) == c,
                rest_same(*self, p0),
                c == context_of(p0),
                s1 == state_of(p0),
                p0 == *old(self),
                self.node >= s1.node,
                budget_left(c, state_of(*self)) <= budget_left(c, s1),
                effective_depth >= -16,
                p <= 16,
                -0x2_0000_0000 * p <= local <= 0x2_0000_0000 * p,
                cells_spec(c, s1, board, effective_depth as int, sum_increment as int, 0, 0, 1)
                    == cells_spec(c, state_of(*self), board, effective_depth as int, sum_increment as int, p as int, local as int, out_nodes),
            decreases 16 - p,
        {
            if (board >> (4 * p as u64)) & 0xf != 0 {
                p += 1;
                continue;
            }
            let res = self.spawn_cell(tables, board, p, effective_depth, sum_increment);
            let (score4, nodes4, score2, nodes2) = match res {
                Some(v) => v,
                None => {
                    return None;
                },
            };
            let added = match nodes4.checked_add(nodes2) {
                Some(n) => n,
                None => {
                    return None;
                },
            };
            out_nodes = match out_nodes.checked_add(added) {
                Some(n) => n,
                None => {
                    return None;
                },
            };
            let term = weighted_term(score2, score4, self.spawn_weight_2, self.spawn_weight_4);
            local += term;
            p += 1;
            if self.stop_search {
                return Some((local, out_nodes));
            }
        }
        Some((local, out_nodes))
    }

    /// An empty cell of a spawn node (see `spawn_spec`).
    #[verifier::spinoff_prover]
    #[verifier::rlimit(80)]
    fn spawn_cell(&mut self, tables: &Tables, board: Board, p: usize, effective_depth: i32, sum_increment: i32) -> (r: Option<(i32, u64, i32, u64)>)
        requires
            old(self).wf(),
            tables.wf(),
            p < 16,
            effective_depth >= -16,
        ensures
            final(self).wf(),
            context_of(*final(self)) == context_of(*old(self)),
            rest_same(*final(self), *old(self)),
            final(self).node >= old(self).node,
            (r, state_of(*final(self))) == spawn_spec(context_of(*old(self)), state_of(*old(self)), board, effective_depth as int, sum_increment as int, p as int),
        decreases budget_left(context_of(*old(self)), state_of(*old(self))), 4int, 0int,
    {
        if sum_increment > i32::MAX - 2 {
            return None;
        }
        let t4 = board | (2u64 << (4 * p as u64));
        let res4 = self.search_ai_player(tables, t4, effective_depth - 1, sum_increment + 2);
        let (score4, nodes4) = match res4 {
            Some(v) => v,
            None => {
                return None;
            },
        };
        let t2 = board | (1u64 << (4 * p as u64));
        let res2 = self.search_ai_player(tables, t2, effective_depth - 1, sum_increment + 1);
        match res2 {
            Some((score2, nodes2)) => Some((score4, nodes4, score2, nodes2)),
            None => None,
        }
    }
}

/// The buckets the cache uses for a search of depth `depth`.
/// `entries` with the ways of the first `buckets` buckets emptied.
pub open spec fn emptied(entries: Seq<u64>, buckets: int) -> Seq<u64> {
    Seq::new(entries.len(), |i: int| if i < buckets * 8 { 0u64 } else { entries[i] })
}

/// `q` is `p` as a search starts: the depth, spawn limit and node budget (at
/// least 1024) taken, the counters, best move and stop flag cleared, each
/// move's score set to minus the dead score, the first `buckets_for(depth)`
/// buckets of the cache emptied and put in use, and the board's evaluation
/// recorded.
pub open spec fn search_setup(p: AiPlayer, q: AiPlayer, depth: int, node_budget: u64, max_layer: i32) -> bool {
    &&& q == (AiPlayer {
        stop_search: false,
        max_d: depth as i32,
        max_layer: max_layer,
        best_operation: 0,
        node_budget: if node_budget > 1024 { node_budget } else { 1024 },
        initial_eval_score: board_eval(p.table@, p.eval_overrides@, p.do_check as int, p.masked_count as int, p.board) as i32,
        node: 0,
        cache_hits: 0,
        top_scores: q.top_scores,
        cache: q.cache,
        ..p
    })
    &&& forall|i: int| 0 <= i < 4 ==> #[trigger] q.top_scores@[i] == -p.dead_score
    &&& q.cache.buckets == buckets_for(depth)
    &&& q.cache.mask == q.cache.buckets - 1
    &&& q.cache.entries@ == emptied(p.cache.entries@, buckets_for(depth))
}

/// `q` is `p` after a search of `board` to `p`'s depth: the counters, cache,
/// stop flag, best move and move scores are those the search leaves, and
/// nothing else changed.
pub open spec fn search_run(p: AiPlayer, q: AiPlayer, board: u64) -> bool {
    &&& context_of(q) == context_of(p)
    &&& rest_same(q, p)
    &&& state_of(q) == ai_spec(context_of(p), state_of(p), board, p.max_d as int, 0).1
}

/// Whether the search of `board` from `p` ends without an overflow.
pub open spec fn search_ok(p: AiPlayer, board: u64) -> bool {
    ai_spec(context_of(p), state_of(p), board, p.max_d as int, 0).0 is Some
}

/// Whether a search with fixed tiles must be done again without them: tiles
/// were fixed, a best move was found, and its score is below both -2000 and
/// minus a quarter of the dead score, or, with fewer than five masked tiles,
/// below 480 per masked tile while the board's sum modulo 512 is under 160.
pub open spec fn retry_needed(q: AiPlayer) -> bool {
    let best = q.top_scores@[q.best_operation - 1] as int;
    &&& q.fixed_mask != 0
    &&& q.best_operation > 0
    &&& (best < min_i(-2000, -(q.dead_score / 4)) || (q.masked_count < 5 && best < 480 * q.masked_count
        && q.board_sum % 512 < 160))
}

/// `q` is `p` made ready to search again without fixed tiles: no tile fixed
/// or masked, the pruning threshold at least 6000, and the cache's buckets in
/// use emptied.
pub open spec fn retry_setup(p: AiPlayer, q: AiPlayer) -> bool {
    &&& q == (AiPlayer {
        fixed_mask: 0,
        masked_count: 0,
        threshold: if p.threshold >= 6000 { p.threshold } else { 6000 },
        cache: q.cache,
        ..p
    })
    &&& q.cache.buckets == p.cache.buckets
    &&& q.cache.mask == p.cache.mask
    &&& q.cache.entries@ == emptied(p.cache.entries@, p.cache.buckets as int)
}

/// The steps of a started search from `p` that ends in `q` with result `ok`:
/// `q0` is the player set up, `q1` the player with the large tiles masked
/// (giving the board `r` to search), `q2` the player after that search; when
/// the search ended and must be redone without fixed tiles, `q3` is the player
/// set up for it and `q` the player after searching its unmasked board.
pub open spec fn search_chain(
    p: AiPlayer,
    depth: int,
    node_budget: u64,
    max_layer: i32,
    q0: AiPlayer,
    q1: AiPlayer,
    r: u64,
    q2: AiPlayer,
    q3: AiPlayer,
    q: AiPlayer,
    ok: bool,
) -> bool {
    &&& search_setup(p, q0, depth, node_budget, max_layer)
    &&& mask_applied(q0, q1, r)
    &&& search_run(q1, q2, r)
    &&& if search_ok(q1, r) && retry_needed(q2) {
        &&& retry_setup(q2, q3)
        &&& search_run(q3, q, q3.board)
        &&& ok == search_ok(q3, q3.board)
    } else {
        &&& search_run(q1, q, r)
        &&& ok == search_ok(q1, r)
    }
}

/// A started search that is not redone follows its chain.
proof fn lemma_chain_direct(
    p: AiPlayer,
    depth: int,
    node_budget: u64,
    max_layer: i32,
    q0: AiPlayer,
    q1: AiPlayer,
    r: u64,
    q2: AiPlayer,
    q: AiPlayer,
    ok: bool,
)
    requires
        search_setup(p, q0, depth, node_budget, max_layer),
        mask_applied(q0, q1, r),
        search_run(q1, q2, r),
        search_run(q1, q, r),
        ok == search_ok(q1, r),
        !(search_ok(q1, r) && retry_needed(q2)),
    ensures
        search_chain(p, depth, node_budget, max_layer, q0, q1, r, q2, q2, q, ok),
{
}

/// A started search that is redone without fixed tiles follows its chain.
proof fn lemma_chain_retry(
    p: AiPlayer,
    depth: int,
    node_budget: u64,
    max_layer: i32,
    q0: AiPlayer,
    q1: AiPlayer,
    r: u64,
    q2: AiPlayer,
    q3: AiPlayer,
    q: AiPlayer,
    ok: bool,
)
    requires
        search_setup(p, q0, depth, node_budget, max_layer),
        mask_applied(q0, q1, r),
        search_run(q1, q2, r),
        search_ok(q1, r),
        retry_needed(q2),
        retry_setup(q2, q3),
        search_run(q3, q, q3.board),
        ok == search_ok(q3, q3.board),
    ensures
        search_chain(p, depth, node_budget, max_layer, q0, q1, r, q2, q3, q, ok),
{
}

pub open spec fn buckets_for(depth: int) -> int {
    if depth < 3 {
        4096
    } else if depth < 4 {
        16384
    } else if depth < 5 {
        65536
    } else if depth < 7 {
        262144
    } else {
        MAX_CACHE_BUCKETS as int
    }
}

impl AiPlayer {
    /// Searches the player's board to depth `depth` with a node budget (at
    /// least 1024) and a spawn limit `max_layer`: sets up the search (cache
    /// size by depth, the initial evaluation, counters, the dead scores of
    /// the four moves), masks the large tiles (see `apply_dynamic_mask`) and
    /// searches the masked board from the root. When fixed tiles were kept
    /// and the best move scored poorly (below the larger of -2000 and a
    /// quarter of the negated dead score, or, with fewer than five masked
    /// tiles, below 480 per masked tile while the board sum is less than 160
    /// past a multiple of 512), searches the board again without them, with
    /// the threshold raised to 6000.
    /// Returns `false` when a search overflowed.
    #[verifier::spinoff_prover]
    #[verifier::rlimit(80)]
    #[verifier::spinoff_prover]
    pub fn start_search(&mut self, tables: &Tables, depth: i32, node_budget: u64, max_layer: i32) -> (ok: bool)
        requires
            old(self).wf(),
            tables.wf(),
            depth >= -16,
        ensures
            final(self).wf(),
            final(self).max_d == depth,
            final(self).max_layer == max_layer,
            final(self).node_budget == if node_budget > 1024 { node_budget } else { 1024 },
            final(self).board == old(self).board,
            final(self).initial_eval_score == board_eval(old(self).table@, old(self).eval_overrides@, old(self).do_check as int,
                old(self).masked_count as int, old(self).board),
            final(self).cache.buckets == buckets_for(depth as int),
            final(self).best_operation <= 4,
            exists|q0: AiPlayer, q1: AiPlayer, r: u64, q2: AiPlayer, q3: AiPlayer|
                #[trigger] search_chain(*old(self), depth as int, node_budget, max_layer, q0, q1, r, q2, q3, *final(self), ok),
    {
        self.stop_search = false;
        self.best_operation = 0;
        self.max_d = depth;
        self.max_layer = max_layer;
        self.node_budget = node_budget.max(1024);
        let buckets = if depth < 3 {
            4096
        } else if depth < 4 {
            16384
        } else if depth < 5 {
            65536
        } else if depth < 7 {
            262144
        } else {
            MAX_CACHE_BUCKETS
        };
        assert(is_pow2(buckets as int)) by {
            reveal_with_fuel(is_pow2, 21);
        }
        self.cache.reset(buckets);
        self.initial_eval_score = self.evaluate(self.board);
        self.node = 0;
        self.cache_hits = 0;
        self.top_scores = [-self.dead_score; 4];
        let ghost q0 = *self;
        proof {
            assert(self.cache.entries@ =~= emptied(old(self).cache.entries@, buckets_for(depth as int)));
        }
        let masked_board = self.apply_dynamic_mask();
        let ghost q1 = *self;
        let first = self.search_ai_player(tables, masked_board, self.max_d, 0);
        let ghost q2 = *self;
        if first.is_none() {
            proof {
                lemma_chain_direct(*old(self), depth as int, node_budget, max_layer, q0, q1, masked_board, q2, *self, false);
            }
            return false;
        }
        if self.fixed_mask != 0 && self.best_operation > 0 {
            let best_score = self.top_scores[self.best_operation - 1];
            proof {
                lemma_shr2_nonneg(self.dead_score);
            }
            let score_floor = (-2000i32).min(-(self.dead_score >> 2));
            if best_score < score_floor || (self.masked_count < 5 && best_score < 480 * self.masked_count && self.board_sum % 512
                < 160) {
                assert(retry_needed(q2));
                self.fixed_mask = 0;
                self.masked_count = 0;
                self.threshold = self.threshold.max(6000);
                self.cache.clear();
                let ghost q3 = *self;
                proof {
                    assert(self.cache.entries@ =~= emptied(q2.cache.entries@, q2.cache.buckets as int));
                }
                let second = self.search_ai_player(tables, self.board, self.max_d, 0);
                proof {
                    lemma_chain_retry(*old(self), depth as int, node_budget, max_layer, q0, q1, masked_board, q2, q3, *self,
                        second.is_some());
                }
                return second.is_some();
            }
        }
        proof {
            lemma_chain_direct(*old(self), depth as int, node_budget, max_layer, q0, q1, masked_board, q2, *self, true);
        }
        true
    }
}

/// The spawn-weighted average of the scores after a 2 and after a 4, in
/// 16-bit fixed point, rounded down.
fn weighted_term(score2: i32, score4: i32, w2: i32, w4: i32) -> (t: i64)
    requires
        0 <= w2 <= 65536,
        0 <= w4 <= 65536,
    ensures
        t == ((((score2 as int) * w2 + (score4 as int) * w4) as i64) >> 16u64),
        -0x2_0000_0000 <= t <= 0x2_0000_0000,
{
    assert(-0x8000_0000_0000 <= (score2 as int) * (w2 as int) <= 0x8000_0000_0000) by (nonlinear_arith)
        requires -0x8000_0000 <= score2 <= 0x7fff_ffff, 0 <= w2 <= 65536;
    assert(-0x8000_0000_0000 <= (score4 as int) * (w4 as int) <= 0x8000_0000_0000) by (nonlinear_arith)
        requires -0x8000_0000 <= score4 <= 0x7fff_ffff, 0 <= w4 <= 65536;
    let a = (score2 as i64) * (w2 as i64);
    let b = (score4 as i64) * (w4 as i64);
    let x = a + b;
    proof {
        lemma_shr16_bound(x);
    }
    x >> 16
}

proof fn lemma_shr16_bound(x: i64)
    by (bit_vector)
    requires
        -0x1_0000_0000_0000 <= x <= 0x1_0000_0000_0000,
    ensures
        -0x2_0000_0000 <= (x >> 16u64) <= 0x2_0000_0000,
{
}

proof fn lemma_shr2_nonneg(x: i32)
    by (bit_vector)
    requires
        x >= 0,
    ensures
        0 <= (x >> 2u32) <= x,
        (x >> 2u32) == x / 4,
{
}

} // verus!
