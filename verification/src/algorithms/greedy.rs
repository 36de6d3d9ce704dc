//! The greedy strategy: make the move whose resulting board scores best by a
//! static heuristic (ties broken by the points the move merges, then by the
//! direction order up, down, left, right).
//!
//! The heuristic is a sum of terms that are whole or half points; it is kept
//! here as a whole number of half points, so that every comparison is exact.

use vstd::prelude::*;
use vstd::arithmetic::power2::pow2;
use crate::board::{Board, cell, count_empty, num_empty, shifted_by, lemma_shifted_step, lemma_shifted_ends, lemma_cell_bound};
use crate::tables::{Tables, execute_move, score_board, board_points, is_move_result, lemma_move_result_unique};
use super::{AlgorithmId, MoveResult};
use crate::endgame::symmetry::{is_symmetry, sym_source, inverse_kind, lemma_has_image, lemma_symmetry_inverse};

verus! {

pub const EMPTY_WEIGHT: i64 = 1200;

pub const MERGE_WEIGHT: i64 = 850;

pub const ROUGHNESS_WEIGHT: i64 = 18;

pub const CORNER_MAX_WEIGHT: i64 = 2500;

/// The four snake orders of the cells, each from a corner.
pub const SNAKES: [[usize; 16]; 4] = [
    [0, 1, 2, 3, 7, 6, 5, 4, 8, 9, 10, 11, 15, 14, 13, 12],
    [3, 2, 1, 0, 4, 5, 6, 7, 11, 10, 9, 8, 12, 13, 14, 15],
    [12, 13, 14, 15, 11, 10, 9, 8, 4, 5, 6, 7, 3, 2, 1, 0],
    [15, 14, 13, 12, 8, 9, 10, 11, 7, 6, 5, 4, 0, 1, 2, 3],
];

pub const CORNERS: [usize; 4] = [0, 3, 12, 15];

/// The sum of `f(0) .. f(n - 1)`.
pub open spec fn sum_to(f: spec_fn(int) -> int, n: int) -> int
    decreases n,
{
    if n <= 0 {
        0
    } else {
        sum_to(f, n - 1) + f(n - 1)
    }
}

/// The snake score of a board along snake `s`: the ranks along the snake
/// weighted 2^15, 2^14, ... 2^0.
pub open spec fn snake_score(b: u64, s: int) -> int {
    sum_to(|i: int| cell(b, SNAKES@[s]@[i] as int) * pow2((15 - i) as nat), 16)
}

/// The best snake score.
pub open spec fn best_snake(b: u64) -> int {
    let a = snake_score(b, 0);
    let c = snake_score(b, 1);
    let d = snake_score(b, 2);
    let e = snake_score(b, 3);
    let m1 = if a >= c { a } else { c };
    let m2 = if m1 >= d { m1 } else { d };
    if m2 >= e { m2 } else { e }
}

/// Equal non-empty neighbours of cell `p` (to the right and below).
pub open spec fn cell_merges(b: u64, p: int) -> int {
    let r = cell(b, p);
    if r == 0 {
        0
    } else {
        (if p % 4 < 3 && cell(b, p + 1) == r { 1int } else { 0 }) + (if p / 4 < 3 && cell(b, p + 4) == r { 1int } else { 0 })
    }
}

pub open spec fn abs_diff(a: int, b: int) -> int {
    if a >= b {
        a - b
    } else {
        b - a
    }
}

/// How far a non-empty cell `p` is in rank from its right and lower neighbours.
pub open spec fn cell_roughness(b: u64, p: int) -> int {
    let r = cell(b, p);
    if r == 0 {
        0
    } else {
        (if p % 4 < 3 { abs_diff(r as int, cell(b, p + 1) as int) } else { 0 }) + (if p / 4 < 3 { abs_diff(r as int, cell(b, p + 4) as int) } else { 0 })
    }
}

/// The largest rank among the first `n` cells (0 when `n` is 0).
pub open spec fn max_rank_upto(b: u64, n: int) -> int
    decreases n,
{
    if n <= 0 {
        0
    } else {
        let m = max_rank_upto(b, n - 1);
        if cell(b, n - 1) as int > m { cell(b, n - 1) as int } else { m }
    }
}

/// The bonus for the largest tile sitting in a corner.
pub open spec fn corner_bonus(b: u64) -> int {
    let m = max_rank_upto(b, 16);
    if m != 0 && (cell(b, 0) == m || cell(b, 3) == m || cell(b, 12) == m || cell(b, 15) == m) {
        2500 * m
    } else {
        0
    }
}

/// The greedy heuristic of a board, in half points: two and a half times
/// the best snake score, plus 1200 per empty cell (counted modulo 16), 850
/// per pair of equal neighbours and the corner bonus, less 18 per rank of
/// roughness.
pub open spec fn greedy_heuristic(b: u64) -> int {
    5 * best_snake(b) + 2 * (1200 * (num_empty(b) % 16) + 850 * sum_to(|p: int| cell_merges(b, p), 16)
        - 18 * sum_to(|p: int| cell_roughness(b, p), 16) + corner_bonus(b))
}

/// The ranks of the sixteen cells.
pub fn ranks(board: Board) -> (r: [u8; 16])
    ensures
        forall|p: int| 0 <= p < 16 ==> #[trigger] r@[p] as u64 == cell(board, p),
{
    let ghost b0 = board;
    let mut board = board;
    let mut ranks = [0u8; 16];
    let mut k = 0usize;
    proof {
        lemma_shifted_ends(board, b0, 0);
    }
    while k < 16
        invariant
            k <= 16,
            shifted_by(board, b0, k as int),
            forall|p: int| 0 <= p < k ==> #[trigger] ranks@[p] as u64 == cell(b0, p),
        decreases 16 - k,
    {
        proof {
            lemma_shifted_step(board, b0, k as int);
        }
        ranks[k] = (board & 0xf) as u8;
        board >>= 4;
        k += 1;
    }
    ranks
}

/// The ranks of a board, as read by `ranks`.
pub open spec fn ranks_of(r: Seq<u8>, b: u64) -> bool {
    r.len() == 16 && forall|p: int| 0 <= p < 16 ==> #[trigger] r[p] as u64 == cell(b, p)
}

proof fn lemma_snakes()
    ensures
        forall|s: int, i: int| 0 <= s < 4 && 0 <= i < 16 ==> #[trigger] SNAKES@[s]@[i] < 16,
{
    assert(SNAKES@[0]@ =~= seq![0usize, 1, 2, 3, 7, 6, 5, 4, 8, 9, 10, 11, 15, 14, 13, 12]);
    assert(SNAKES@[1]@ =~= seq![3usize, 2, 1, 0, 4, 5, 6, 7, 11, 10, 9, 8, 12, 13, 14, 15]);
    assert(SNAKES@[2]@ =~= seq![12usize, 13, 14, 15, 11, 10, 9, 8, 4, 5, 6, 7, 3, 2, 1, 0]);
    assert(SNAKES@[3]@ =~= seq![15usize, 14, 13, 12, 8, 9, 10, 11, 7, 6, 5, 4, 0, 1, 2, 3]);
}

/// Five times the best snake score (two and a half times it, in half points).
fn best_snake_score(ranks: &[u8; 16], Ghost(b): Ghost<u64>) -> (s: i64)
    requires
        ranks_of(ranks@, b),
    ensures
        s == 5 * best_snake(b),
        0 <= s <= 5 * 15 * 65536,
{
    proof {
        lemma_snakes();
    }
    let mut best = i64::MIN;
    let mut k = 0usize;
    while k < 4
        invariant
            k <= 4,
            ranks_of(ranks@, b),
            forall|s: int, i: int| 0 <= s < 4 && 0 <= i < 16 ==> #[trigger] SNAKES@[s]@[i] < 16,
            k == 0 ==> best == i64::MIN,
            k == 1 ==> best == snake_score(b, 0),
            k == 2 ==> best == if snake_score(b, 0) >= snake_score(b, 1) { snake_score(b, 0) } else { snake_score(b, 1) },
            k == 3 ==> best == {
                let m1 = if snake_score(b, 0) >= snake_score(b, 1) { snake_score(b, 0) } else { snake_score(b, 1) };
                if m1 >= snake_score(b, 2) { m1 } else { snake_score(b, 2) }
            },
            k == 4 ==> best == best_snake(b),
            k > 0 ==> 0 <= best <= 15 * 65536,
        decreases 4 - k,
    {
        let snake = SNAKES[k];
        let mut weight = 1i64 << 15;
        let mut score = 0i64;
        let mut i = 0usize;
        proof {
            lemma_i64_shifts(0);
            vstd::arithmetic::power2::lemma2_to64();
        }
        while i < 16
            invariant
                i <= 16,
                k < 4,
                snake == SNAKES@[k as int],
                ranks_of(ranks@, b),
                forall|s: int, j: int| 0 <= s < 4 && 0 <= j < 16 ==> #[trigger] SNAKES@[s]@[j] < 16,
                weight == pow2((16 - i) as nat) / 2,
                score == sum_to(|j: int| cell(b, SNAKES@[k as int]@[j] as int) * pow2((15 - j) as nat), i as int),
                0 <= score <= 15 * (65536 - 2 * weight),
            decreases 16 - i,
        {
            let idx = snake[i];
            proof {
                lemma_cell_bound(b, idx as int);
                vstd::arithmetic::power2::lemma_pow2_unfold((16 - i) as nat);
                vstd::arithmetic::power2::lemma_pow2_pos((15 - i) as nat);
                assert(weight == pow2((15 - i) as nat));
                lemma_weight_bound(i as int, weight as int);
                assert(ranks[idx as int] as i64 * weight <= 15 * weight) by (nonlinear_arith)
                    requires
                        ranks[idx as int] < 16,
                        weight >= 0,
                ;
            }
            score += ranks[idx] as i64 * weight;
            proof {
                lemma_i64_shifts(weight);
            }
            weight >>= 1;
            proof {
                assert(weight == pow2((15 - i) as nat) / 2);
            }
            i += 1;
        }
        best = if best >= score { best } else { score };
        k += 1;
    }
    best * 5
}

proof fn lemma_i64_shifts(w: i64)
    by (bit_vector)
    ensures
        1i64 << 15 == 32768,
        w >= 0 ==> w >> 1 == w / 2,
{
}

proof fn lemma_weight_bound(i: int, w: int)
    requires
        0 <= i < 16,
        w == pow2((15 - i) as nat),
    ensures
        1 <= w <= 32768,
{
    vstd::arithmetic::power2::lemma2_to64();
    if i > 0 {
        vstd::arithmetic::power2::lemma_pow2_strictly_increases((15 - i) as nat, 15);
    }
    vstd::arithmetic::power2::lemma_pow2_pos((15 - i) as nat);
}

/// Number of pairs of equal non-empty neighbours.
fn merge_opportunities(ranks: &[u8; 16], Ghost(b): Ghost<u64>) -> (m: i64)
    requires
        ranks_of(ranks@, b),
    ensures
        m == sum_to(|p: int| cell_merges(b, p), 16),
        0 <= m <= 32,
{
    let mut merges = 0i64;
    let mut y = 0usize;
    while y < 4
        invariant
            y <= 4,
            ranks_of(ranks@, b),
            merges == sum_to(|p: int| cell_merges(b, p), 4 * y),
            0 <= merges <= 2 * 4 * y,
        decreases 4 - y,
    {
        let mut x = 0usize;
        while x < 4
            invariant
                x <= 4,
                y < 4,
                ranks_of(ranks@, b),
                merges == sum_to(|p: int| cell_merges(b, p), 4 * y + x),
                0 <= merges <= 2 * (4 * y + x),
            decreases 4 - x,
        {
            let p = y * 4 + x;
            let rank = ranks[p];
            let mut add = 0i64;
            if rank != 0 {
                if x < 3 && ranks[p + 1] == rank {
                    add += 1;
                }
                if y < 3 && ranks[p + 4] == rank {
                    add += 1;
                }
            }
            proof {
                assert((p as int) % 4 == x && (p as int) / 4 == y);
                assert(add == cell_merges(b, p as int));
            }
            merges += add;
            x += 1;
        }
        y += 1;
    }
    merges
}

/// Total rank difference between non-empty cells and their right and lower neighbours.
fn roughness(ranks: &[u8; 16], Ghost(b): Ghost<u64>) -> (r: i64)
    requires
        ranks_of(ranks@, b),
    ensures
        r == sum_to(|p: int| cell_roughness(b, p), 16),
        0 <= r <= 16 * 30,
{
    let mut roughness = 0i64;
    let mut y = 0usize;
    while y < 4
        invariant
            y <= 4,
            ranks_of(ranks@, b),
            roughness == sum_to(|p: int| cell_roughness(b, p), 4 * y),
            0 <= roughness <= 30 * 4 * y,
        decreases 4 - y,
    {
        let mut x = 0usize;
        while x < 4
            invariant
                x <= 4,
                y < 4,
                ranks_of(ranks@, b),
                roughness == sum_to(|p: int| cell_roughness(b, p), 4 * y + x),
                0 <= roughness <= 30 * (4 * y + x),
            decreases 4 - x,
        {
            let p = y * 4 + x;
            let rank = ranks[p];
            proof {
                lemma_cell_bound(b, p as int);
                if x < 3 {
                    lemma_cell_bound(b, p as int + 1);
                }
                if y < 3 {
                    lemma_cell_bound(b, p as int + 4);
                }
            }
            let mut add = 0i64;
            if rank != 0 {
                if x < 3 {
                    let other = ranks[p + 1];
                    add += (if rank >= other { rank - other } else { other - rank }) as i64;
                }
                if y < 3 {
                    let other = ranks[p + 4];
                    add += (if rank >= other { rank - other } else { other - rank }) as i64;
                }
            }
            proof {
                assert((p as int) % 4 == x && (p as int) / 4 == y);
                assert(add == cell_roughness(b, p as int));
            }
            roughness += add;
            x += 1;
        }
        y += 1;
    }
    roughness
}

/// The largest rank among the sixteen cells.
fn max_of_ranks(ranks: &[u8; 16], Ghost(b): Ghost<u64>) -> (m: u8)
    requires
        ranks_of(ranks@, b),
    ensures
        m == max_rank_upto(b, 16),
        m < 16,
{
    let mut m = 0u8;
    let mut i = 0usize;
    while i < 16
        invariant
            i <= 16,
            ranks_of(ranks@, b),
            m == max_rank_upto(b, i as int),
            m < 16,
        decreases 16 - i,
    {
        proof {
            lemma_cell_bound(b, i as int);
        }
        if ranks[i] > m {
            m = ranks[i];
        }
        i += 1;
    }
    m
}

/// The bonus for the largest tile sitting in a corner (see `corner_bonus`).
fn corner_max_bonus(ranks: &[u8; 16], max_rank: u8, Ghost(b): Ghost<u64>) -> (c: i64)
    requires
        ranks_of(ranks@, b),
        max_rank == max_rank_upto(b, 16),
        max_rank < 16,
    ensures
        c == corner_bonus(b),
        0 <= c <= 2500 * 15,
{
    if max_rank == 0 {
        return 0;
    }
    let mut found = false;
    let mut i = 0usize;
    while i < 4
        invariant
            i <= 4,
            ranks_of(ranks@, b),
            CORNERS@ =~= seq![0usize, 3, 12, 15],
            found == exists|j: int| 0 <= j < i && ranks@[CORNERS@[j] as int] == max_rank,
        decreases 4 - i,
    {
        if ranks[CORNERS[i]] == max_rank {
            found = true;
        }
        i += 1;
    }
    proof {
        assert(found == (cell(b, 0) == max_rank || cell(b, 3) == max_rank || cell(b, 12) == max_rank || cell(b, 15) == max_rank)) by {
            if found {
                let j = choose|j: int| 0 <= j < 4 && ranks@[CORNERS@[j] as int] == max_rank;
                assert(j == 0 || j == 1 || j == 2 || j == 3);
            }
            assert(ranks@[CORNERS@[0] as int] == ranks@[0]);
            assert(ranks@[CORNERS@[1] as int] == ranks@[3]);
            assert(ranks@[CORNERS@[2] as int] == ranks@[12]);
            assert(ranks@[CORNERS@[3] as int] == ranks@[15]);
        }
    }
    if !found {
        return 0;
    }
    CORNER_MAX_WEIGHT * max_rank as i64
}

/// The greedy heuristic of a board, in half points (see `greedy_heuristic`).
pub fn score_greedy_board(board: Board) -> (h: i64)
    ensures
        h == greedy_heuristic(board),
{
    let ranks = ranks(board);
    proof {
        assert(ranks_of(ranks@, board));
    }
    let max_rank = max_of_ranks(&ranks, Ghost(board));
    let empty = count_empty(board) as i64;
    let snake = best_snake_score(&ranks, Ghost(board));
    let merges = merge_opportunities(&ranks, Ghost(board));
    let rough = roughness(&ranks, Ghost(board));
    let corner = corner_max_bonus(&ranks, max_rank, Ghost(board));
    snake + 2 * (EMPTY_WEIGHT * empty + MERGE_WEIGHT * merges - ROUGHNESS_WEIGHT * rough + corner)
}

/// A move the greedy strategy considers: its heuristic (in half points) and
/// the points its merges score.
#[derive(Clone, Copy, Debug)]
pub struct Candidate {
    pub move_id: i32,
    pub heuristic: i64,
    pub merge_gain: i64,
}

/// Whether `candidate` beats `best`: a higher heuristic, or the same
/// heuristic and a higher merge gain.
pub open spec fn better(candidate: Candidate, best: Candidate) -> bool {
    candidate.heuristic > best.heuristic || (candidate.heuristic == best.heuristic
        && candidate.merge_gain > best.merge_gain)
}

/// Whether `candidate` beats `best` (see `better`).
pub fn is_better(candidate: Candidate, best: Candidate) -> (r: bool)
    ensures
        r == better(candidate, best),
{
    candidate.heuristic > best.heuristic || (candidate.heuristic == best.heuristic
        && candidate.merge_gain > best.merge_gain)
}

/// Whether the move in direction `dir` changes the board.
pub open spec fn legal(b: u64, dir: int) -> bool {
    !is_move_result(b, b, dir)
}

/// Number of the directions `0..n` whose move changes the board.
pub open spec fn legal_count(b: u64, n: int) -> int
    decreases n,
{
    if n <= 0 {
        0
    } else {
        legal_count(b, n - 1) + if legal(b, n - 1) { 1int } else { 0 }
    }
}

/// The candidate for the move that takes board `b` to `r`.
pub open spec fn candidate_of(b: u64, r: u64, dir: int) -> Candidate {
    Candidate { move_id: dir as i32, heuristic: greedy_heuristic(r) as i64, merge_gain: (board_points(r) - board_points(b)) as i64 }
}

/// `res` is the greedy choice on `b`: among the moves that change the board,
/// the first (in direction order) whose candidate no other beats; -1 when no
/// move changes the board; the number of such moves as the node count.
pub open spec fn is_greedy_choice(res: MoveResult, b: u64) -> bool {
    &&& res.algorithm == AlgorithmId::Greedy
    &&& res.depth == 1
    &&& res.cache_hits == 0
    &&& res.nodes == legal_count(b, 4)
    &&& (res.move_id == -1 <==> legal_count(b, 4) == 0)
    &&& res.move_id != -1 ==> {
        &&& 0 <= res.move_id < 4
        &&& legal(b, res.move_id as int)
        &&& forall|d: int, r: u64, rm: u64|
            0 <= d < 4 && legal(b, d) && #[trigger] is_move_result(r, b, d) && #[trigger] is_move_result(rm, b, res.move_id as int)
                ==> !better(candidate_of(b, r, d), candidate_of(b, rm, res.move_id as int))
                && (d < res.move_id ==> better(candidate_of(b, rm, res.move_id as int), candidate_of(b, r, d)))
    }
}

proof fn lemma_legal_count_bound(b: u64, n: int)
    ensures
        0 <= legal_count(b, n) <= if n < 0 { 0 } else { n },
    decreases n,
{
    if n > 0 {
        lemma_legal_count_bound(b, n - 1);
    }
}

/// After the moves `0..n` were looked at: `best` is the first of them that
/// changes the board and that none beats (`None` when none changes it), and
/// `best_board` is what it makes of the board.
#[verifier::opaque]
pub open spec fn greedy_progress(b: u64, n: int, best: Option<Candidate>, best_board: u64) -> bool {
    &&& (best is None <==> legal_count(b, n) == 0)
    &&& best is Some ==> {
        let c = best->Some_0;
        &&& 0 <= c.move_id < n
        &&& legal(b, c.move_id as int)
        &&& is_move_result(best_board, b, c.move_id as int)
        &&& c == candidate_of(b, best_board, c.move_id as int)
        &&& forall|d: int, r: u64|
            0 <= d < n && legal(b, d) && #[trigger] is_move_result(r, b, d) ==> !better(candidate_of(b, r, d), c)
                && (d < c.move_id ==> better(c, candidate_of(b, r, d)))
    }
}

proof fn lemma_progress_start(b: u64)
    ensures
        greedy_progress(b, 0, None, 0),
{
    reveal(greedy_progress);
}

proof fn lemma_progress_skip(b: u64, n: int, best: Option<Candidate>, bb: u64)
    requires
        0 <= n < 4,
        greedy_progress(b, n, best, bb),
        is_move_result(b, b, n),
    ensures
        greedy_progress(b, n + 1, best, bb),
{
    reveal(greedy_progress);
    assert(!legal(b, n));
}

proof fn lemma_progress_add(b: u64, n: int, best: Option<Candidate>, bb: u64, nb: u64, cand: Candidate, take: bool)
    requires
        0 <= n < 4,
        greedy_progress(b, n, best, bb),
        is_move_result(nb, b, n),
        nb != b,
        cand == candidate_of(b, nb, n),
        take == (best is None || better(cand, best->Some_0)),
    ensures
        legal(b, n),
        take ==> greedy_progress(b, n + 1, Some(cand), nb),
        !take ==> greedy_progress(b, n + 1, best, bb),
{
    reveal(greedy_progress);
    if is_move_result(b, b, n) {
        lemma_move_result_unique(nb, b, b, n);
    }
    assert forall|r: u64| #[trigger] is_move_result(r, b, n) implies r == nb by {
        lemma_move_result_unique(r, nb, b, n);
    }
    assert(legal(b, n));
    assert(legal_count(b, n + 1) == legal_count(b, n) + 1);
    lemma_legal_count_bound(b, n);
    if take {
        assert(cand.move_id as int == n);
        assert forall|d: int, r: u64|
            0 <= d < n + 1 && legal(b, d) && #[trigger] is_move_result(r, b, d) implies !better(candidate_of(b, r, d), cand)
                && (d < cand.move_id ==> better(cand, candidate_of(b, r, d))) by {
            if d == n {
                assert(r == nb);
            } else {
                lemma_legal_count_pos(b, d, n);
                let c0 = best->Some_0;
                assert(!better(candidate_of(b, r, d), c0));
            }
        }
    } else {
        let c0 = best->Some_0;
        assert forall|d: int, r: u64|
            0 <= d < n + 1 && legal(b, d) && #[trigger] is_move_result(r, b, d) implies !better(candidate_of(b, r, d), c0)
                && (d < c0.move_id ==> better(c0, candidate_of(b, r, d))) by {
            if d == n {
                assert(r == nb);
            }
        }
    }
}

proof fn lemma_legal_count_pos(b: u64, d: int, n: int)
    requires
        0 <= d < n,
        legal(b, d),
    ensures
        legal_count(b, n) > 0,
    decreases n,
{
    lemma_legal_count_bound(b, n - 1);
    if d < n - 1 {
        lemma_legal_count_pos(b, d, n - 1);
    }
}

proof fn lemma_progress_done(b: u64, best: Option<Candidate>, bb: u64, res: MoveResult)
    requires
        greedy_progress(b, 4, best, bb),
        res.algorithm == AlgorithmId::Greedy,
        res.depth == 1,
        res.cache_hits == 0,
        res.nodes == legal_count(b, 4),
        res.move_id == match best {
            Some(c) => c.move_id,
            None => -1i32,
        },
    ensures
        is_greedy_choice(res, b),
{
    reveal(greedy_progress);
    if best is Some {
        let c = best->Some_0;
        assert forall|d: int, r: u64, rm: u64|
            0 <= d < 4 && legal(b, d) && #[trigger] is_move_result(r, b, d) && #[trigger] is_move_result(rm, b, res.move_id as int)
                implies !better(candidate_of(b, r, d), candidate_of(b, rm, res.move_id as int))
                && (d < res.move_id ==> better(candidate_of(b, rm, res.move_id as int), candidate_of(b, r, d))) by {
            lemma_move_result_unique(rm, bb, b, c.move_id as int);
        }
    }
}

/// Chooses the greedy move (see `is_greedy_choice`).
pub fn choose_move(tables: &Tables, board: Board) -> (res: MoveResult)
    requires
        tables.wf(),
    ensures
        is_greedy_choice(res, board),
{
    let base_score = score_board(tables, board) as i64;
    let mut best: Option<Candidate> = None;
    let ghost mut best_board: u64 = 0;
    let mut nodes = 0u64;
    let mut move_id = 0i32;
    proof {
        lemma_progress_start(board);
    }
    while move_id < 4
        invariant
            tables.wf(),
            0 <= move_id <= 4,
            base_score == board_points(board),
            0 <= base_score <= 0xffff_ffff,
            nodes == legal_count(board, move_id as int),
            greedy_progress(board, move_id as int, best, best_board),
        decreases 4 - move_id,
    {
        let new_board = execute_move(tables, move_id, board);
        if new_board == board {
            proof {
                lemma_progress_skip(board, move_id as int, best, best_board);
            }
            move_id += 1;
            continue;
        }
        proof {
            lemma_legal_count_bound(board, move_id as int);
        }
        let heuristic = score_greedy_board(new_board);
        let points = score_board(tables, new_board) as i64;
        let candidate = Candidate { move_id, heuristic, merge_gain: points - base_score };
        let take = match best {
            None => true,
            Some(b) => is_better(candidate, b),
        };
        proof {
            lemma_progress_add(board, move_id as int, best, best_board, new_board, candidate, take);
        }
        nodes += 1;
        if take {
            best = Some(candidate);
            proof {
                best_board = new_board;
            }
        }
        move_id += 1;
    }
    let res = MoveResult {
        algorithm: AlgorithmId::Greedy,
        move_id: match best {
            Some(c) => c.move_id,
            None => -1,
        },
        depth: 1,
        nodes,
        cache_hits: 0,
    };
    proof {
        lemma_progress_done(board, best, best_board, res);
    }
    res
}

/// The largest rank among the first `n` cells is at least each of them and,
/// unless it is 0, one of them.
proof fn lemma_max_rank_facts(b: u64, n: int)
    requires
        0 <= n <= 16,
    ensures
        max_rank_upto(b, n) >= 0,
        forall|p: int| 0 <= p < n ==> cell(b, p) <= #[trigger] max_rank_upto(b, n),
        max_rank_upto(b, n) == 0 || exists|p: int| 0 <= p < n && cell(b, p) == #[trigger] max_rank_upto(b, n),
    decreases n,
{
    if n > 0 {
        lemma_max_rank_facts(b, n - 1);
        let m = max_rank_upto(b, n - 1);
        if cell(b, n - 1) as int <= m && m != 0 {
            let w = choose|p: int| 0 <= p < n - 1 && cell(b, p) == max_rank_upto(b, n - 1);
            assert(cell(b, w) == max_rank_upto(b, n));
        }
    }
}

/// Every cell of an image is a cell of the board.
proof fn lemma_image_cells(b: u64, x: u64, kind: int)
    requires
        0 <= kind < 8,
        is_symmetry(x, b, kind),
    ensures
        forall|p: int| 0 <= p < 16 ==> #[trigger] cell(x, p) == cell(b, sym_source(kind, p / 4, p % 4)),
        forall|p: int| 0 <= p < 16 ==> 0 <= #[trigger] sym_source(kind, p / 4, p % 4) < 16,
{
    assert forall|p: int| 0 <= p < 16 implies #[trigger] cell(x, p) == cell(b, sym_source(kind, p / 4, p % 4)) by {
        assert(p == 4 * (p / 4) + p % 4);
        assert(cell(x, 4 * (p / 4) + p % 4) == cell(b, sym_source(kind, p / 4, p % 4)));
    }
}

/// The largest rank of an image is that of the board.
proof fn lemma_max_rank_at_most(b: u64, x: u64, kind: int)
    requires
        0 <= kind < 8,
        is_symmetry(x, b, kind),
    ensures
        max_rank_upto(x, 16) <= max_rank_upto(b, 16),
{
    lemma_image_cells(b, x, kind);
    lemma_max_rank_facts(b, 16);
    lemma_max_rank_facts(x, 16);
    if max_rank_upto(x, 16) != 0 {
        let w = choose|p: int| 0 <= p < 16 && cell(x, p) == max_rank_upto(x, 16);
        let q = sym_source(kind, w / 4, w % 4);
        assert(cell(b, q) <= max_rank_upto(b, 16));
    }
}

/// An image's corners hold what some corners of the board hold.
proof fn lemma_corners_of_image(b: u64, x: u64, kind: int, m: int)
    requires
        0 <= kind < 8,
        is_symmetry(x, b, kind),
        cell(x, 0) == m || cell(x, 3) == m || cell(x, 12) == m || cell(x, 15) == m,
    ensures
        cell(b, 0) == m || cell(b, 3) == m || cell(b, 12) == m || cell(b, 15) == m,
{
    lemma_image_cells(b, x, kind);
    assert(cell(x, 0) == cell(b, sym_source(kind, 0, 0)));
    assert(cell(x, 3) == cell(b, sym_source(kind, 0, 3)));
    assert(cell(x, 12) == cell(b, sym_source(kind, 3, 0)));
    assert(cell(x, 15) == cell(b, sym_source(kind, 3, 3)));
}

/// The corner bonus does not depend on how the board is turned or mirrored:
/// the largest tile earns it in any of the four corners.
pub proof fn lemma_corner_bonus_symmetric(b: u64, x: u64, kind: int)
    requires
        0 <= kind < 8,
        is_symmetry(x, b, kind),
    ensures
        corner_bonus(x) == corner_bonus(b),
{
    lemma_has_image(x, inverse_kind(kind));
    let y = choose|y: u64| is_symmetry(y, x, inverse_kind(kind));
    lemma_symmetry_inverse(b, x, y, kind);
    assert(0 <= inverse_kind(kind) < 8);
    lemma_max_rank_at_most(b, x, kind);
    lemma_max_rank_at_most(x, b, inverse_kind(kind));
    let m = max_rank_upto(b, 16);
    if cell(x, 0) == m || cell(x, 3) == m || cell(x, 12) == m || cell(x, 15) == m {
        lemma_corners_of_image(b, x, kind, m);
    }
    if cell(b, 0) == m || cell(b, 3) == m || cell(b, 12) == m || cell(b, 15) == m {
        lemma_corners_of_image(x, b, inverse_kind(kind), m);
    }
}

/// A largest tile in a corner earns 2500 per rank; a board whose largest
/// rank is on no corner earns nothing.
pub proof fn lemma_corner_bonus_amount(b: u64, corner: int)
    requires
        corner == 0 || corner == 3 || corner == 12 || corner == 15,
    ensures
        cell(b, corner) > 0 && (forall|p: int| 0 <= p < 16 ==> #[trigger] cell(b, p) <= cell(b, corner)) ==> corner_bonus(b)
            == 2500 * cell(b, corner),
        (forall|p: int| p == 0 || p == 3 || p == 12 || p == 15 ==> exists|q: int| 0 <= q < 16 && #[trigger] cell(b, p)
            < #[trigger] cell(b, q)) ==> corner_bonus(b) == 0,
{
    lemma_max_rank_facts(b, 16);
    let m = max_rank_upto(b, 16);
    if cell(b, corner) > 0 && (forall|p: int| 0 <= p < 16 ==> #[trigger] cell(b, p) <= cell(b, corner)) {
        assert(cell(b, corner) <= m);
        let w = choose|p: int| 0 <= p < 16 && cell(b, p) == #[trigger] max_rank_upto(b, 16);
        assert(cell(b, w) <= cell(b, corner));
    }
    if forall|p: int| p == 0 || p == 3 || p == 12 || p == 15 ==> exists|q: int| 0 <= q < 16 && #[trigger] cell(b, p)
        < #[trigger] cell(b, q) {
        if m != 0 {
            assert forall|p: int| p == 0 || p == 3 || p == 12 || p == 15 implies cell(b, p) != m by {
                let q = choose|q: int| 0 <= q < 16 && #[trigger] cell(b, p) < #[trigger] cell(b, q);
                assert(cell(b, q) <= m);
            }
        }
    }
}

} // verus!
