//! The endgame engine's evaluation of a board: each row and each column is
//! scored from the weights of its tiles, and a move is scored by what its
//! merges are worth.

use vstd::prelude::*;
use vstd::arithmetic::power2::pow2;
use crate::board::{Board, cell, row_cell, lemma_cell_bound, is_reversed_row};
use crate::line::{compact, lemma_compact_take, lemma_compact_len};
use crate::tables::{board_line, lemma_half_turn_lines};
use crate::endgame::symmetry::reverse_nibbles;
use crate::endgame::moves::{api_move, internal_dir};
use crate::endgame::stats::lemma_shl_pow2;

verus! {

/// The weight of a tile of each rank in the row evaluation.
pub const TILE_WEIGHT_MAP: [i32; 16] = [0, 2, 4, 8, 16, 32, 64, 128, 248, 388, 488, 518, 519, 519, 519, 520];

/// Division rounding towards zero, as Rust's integer `/` does.
pub open spec fn tdiv(a: int, b: int) -> int {
    if a >= 0 {
        a / b
    } else {
        -((-a) / b)
    }
}

pub open spec fn max_int(a: int, b: int) -> int {
    if a >= b {
        a
    } else {
        b
    }
}

pub open spec fn min_int(a: int, b: int) -> int {
    if a <= b {
        a
    } else {
        b
    }
}

/// What the pair of neighbours `x`, `x + 1` adds to the row's shape score.
pub open spec fn pair_term(line: Seq<int>, x: int) -> int {
    if line[x] < line[x + 1] {
        if line[x] > 400 {
            2 * line[x] + (line[x + 1] - line[x]) * x
        } else if line[x] > 300 && x == 1 && line[0] > line[1] {
            2 * line[x]
        } else {
            -8 * (line[x + 1] - line[x]) - 3 * line[x + 1] - if x < 2 && line[x + 2] < line[x + 1]
                && line[x + 1] > 30 {
                max_int(80, line[x + 1])
            } else {
                0
            }
        }
    } else if x < 2 {
        line[x + 1] + line[x]
    } else {
        (line[x + 1] + line[x]) / 2
    }
}

/// The shape score of a row: the first weight, the three neighbour pairs,
/// and a bonus for a descending row with a small last tile.
pub open spec fn shape_score(line: Seq<int>) -> int {
    line[0] + pair_term(line, 0) + pair_term(line, 1) + pair_term(line, 2) + if line[0] > 400
        && line[1] > 300 && line[2] > 200 && line[2] > line[3] && line[3] < 300 {
        line[3] / 4
    } else {
        0
    }
}

/// The corner score of a row: strongly negative when an end of the row is
/// small, else what its ends and middle are worth.
pub open spec fn end_score(line: Seq<int>) -> int {
    if min_int(line[0], line[3]) < 32 {
        -16384
    } else if (line[0] < line[1] && line[0] < 400) || (line[3] < line[2] && line[3] < 400) {
        -(max_int(line[1], line[2]) * 10)
    } else {
        (line[0] * 18 + line[3] * 18) / 10 + max_int(line[1], line[2]) * 3 / 2 + min_int(
            160,
            min_int(line[1], line[2]),
        ) * 5 / 2 - if min_int(line[1], line[2]) < 8 {
            60int
        } else {
            0int
        }
    }
}

/// Number of zero weights in a row.
pub open spec fn zero_count(line: Seq<int>) -> int {
    (if line[0] == 0 { 1int } else { 0 }) + (if line[1] == 0 { 1int } else { 0 }) + (if line[2] == 0 {
        1int
    } else {
        0
    }) + (if line[3] == 0 { 1int } else { 0 })
}

/// The evaluation of a row of tile weights: the better of its shape and
/// corner scores, a quarter of it, less 4 when a large first tile stands
/// before next to nothing.
pub open spec fn row_eval(line: Seq<int>) -> int {
    let sum_123 = line[1] + line[2] + line[3];
    let penalty = if line[0] > 100 && ((zero_count(line) > 1 && sum_123 < 32) || sum_123 < 12) {
        4int
    } else {
        0
    };
    tdiv(max_int(end_score(line), shape_score(line)), 4) - penalty
}

/// Weights are small enough for the evaluation to stay within 32 bits.
pub open spec fn weights_ok(line: Seq<i32>) -> bool {
    forall|i: int| 0 <= i < 4 ==> 0 <= #[trigger] line[i] <= 65536
}

pub open spec fn as_ints(line: Seq<i32>) -> Seq<int> {
    seq![line[0] as int, line[1] as int, line[2] as int, line[3] as int]
}

proof fn lemma_shifts(x: i32)
    by (bit_vector)
    requires
        0 <= x <= 0x10000,
    ensures
        x << 1 == 2 * x,
        x << 3 == 8 * x,
        x >> 2 == x / 4,
{
}

/// Scores a row of tile weights (see `row_eval`).
#[verifier::spinoff_prover]
#[verifier::rlimit(60)]
pub fn diffs_evaluation_func(line: [i32; 4]) -> (r: i32)
    requires
        weights_ok(line@),
    ensures
        r == row_eval(as_ints(line@)),
{
    let ghost l = as_ints(line@);
    let mut score_dpdf = line[0];
    let mut x = 0usize;
    while x < 3
        invariant
            weights_ok(line@),
            l == as_ints(line@),
            x <= 3,
            score_dpdf == l[0] + (if x > 0 { pair_term(l, 0) } else { 0 }) + (if x > 1 { pair_term(l, 1) } else { 0 }) + (if x > 2 { pair_term(l, 2) } else { 0 }),
            -0x100000 * x <= score_dpdf - l[0] <= 0x100000 * x,
        decreases 3 - x,
    {
        proof {
            lemma_shifts(line[x as int]);
            lemma_shifts(line[x as int + 1]);
        }
        if line[x] < line[x + 1] {
            if line[x] > 400 {
                proof {
                    assert(0 <= (line[x as int + 1] - line[x as int]) * (x as int) <= 0x10000 * 2) by (nonlinear_arith)
                        requires
                            0 <= line[x as int + 1] - line[x as int] <= 0x10000,
                            0 <= x <= 2,
                    ;
                }
                score_dpdf += (line[x] << 1) + (line[x + 1] - line[x]) * x as i32;
            } else if line[x] > 300 && x == 1 && line[0] > line[1] {
                score_dpdf += line[x] << 1;
            } else {
                proof {
                    lemma_shifts((line[x as int + 1] - line[x as int]) as i32);
                }
                score_dpdf -= (line[x + 1] - line[x]) << 3;
                score_dpdf -= line[x + 1] * 3;
                if x < 2 && line[x + 2] < line[x + 1] && line[x + 1] > 30 {
                    score_dpdf -= 80.max(line[x + 1]);
                }
            }
        } else if x < 2 {
            score_dpdf += line[x + 1] + line[x];
        } else {
            score_dpdf += (line[x + 1] + line[x]) / 2;
        }
        x += 1;
    }
    if line[0] > 400 && line[1] > 300 && line[2] > 200 && line[2] > line[3] && line[3] < 300 {
        proof {
            lemma_shifts(line[3]);
        }
        score_dpdf += line[3] >> 2;
    }

    let min_03 = line[0].min(line[3]);
    let mut score_t = if min_03 < 32 {
        -16384
    } else if (line[0] < line[1] && line[0] < 400) || (line[3] < line[2] && line[3] < 400) {
        -(line[1].max(line[2]) * 10)
    } else {
        let mut score = (line[0] * 18 + line[3] * 18) / 10 + line[1].max(line[2]) * 3 / 2 + 160.min(
            line[1].min(line[2]),
        ) * 5 / 2;
        if line[1].min(line[2]) < 8 {
            score -= 60;
        }
        score
    };
    let mut zero_count = 0usize;
    let mut i = 0usize;
    while i < 4
        invariant
            i <= 4,
            zero_count == (if i > 0 && line[0] == 0 { 1int } else { 0 }) + (if i > 1 && line[1] == 0 { 1int } else { 0 }) + (if i > 2 && line[2] == 0 { 1int } else { 0 }) + (if i > 3 && line[3] == 0 { 1int } else { 0 }),
        decreases 4 - i,
    {
        if line[i] == 0 {
            zero_count += 1;
        }
        i += 1;
    }
    let sum_123 = line[1] + line[2] + line[3];
    let penalty = if line[0] > 100 && ((zero_count > 1 && sum_123 < 32) || sum_123 < 12) { 4 } else { 0 };
    score_t = score_t.max(score_dpdf);
    score_t / 4 - penalty
}

/// The weights of the four tiles of a row.
pub open spec fn row_weights(row: u16) -> Seq<int> {
    seq![
        TILE_WEIGHT_MAP@[row_cell(row, 0) as int] as int,
        TILE_WEIGHT_MAP@[row_cell(row, 1) as int] as int,
        TILE_WEIGHT_MAP@[row_cell(row, 2) as int] as int,
        TILE_WEIGHT_MAP@[row_cell(row, 3) as int] as int,
    ]
}

/// A line read back to front.
pub open spec fn rev4(s: Seq<int>) -> Seq<int> {
    seq![s[3], s[2], s[1], s[0]]
}

proof fn lemma_rank_bits(row: usize, i: usize)
    by (bit_vector)
    requires
        i < 4,
    ensures
        (row >> (i * 4)) & 0xf == ((((row as u16) >> ((4 * i) as u16)) & 0xf) as usize),
        (row >> (i * 4)) & 0xf < 16,
{
}

proof fn lemma_weights_ok(r: int)
    requires
        0 <= r < 16,
    ensures
        0 <= TILE_WEIGHT_MAP@[r] <= 520,
{
    assert(TILE_WEIGHT_MAP@ =~= seq![0i32, 2, 4, 8, 16, 32, 64, 128, 248, 388, 488, 518, 519, 519, 519, 520]);
}

/// The evaluation of a row and of the same row read backwards.
#[derive(Clone, Copy)]
pub struct ScorePair {
    pub d1: i16,
    pub d2: i16,
}

/// The weights of a row's tiles, front to back and back to front.
fn row_lines(row: usize) -> (r: ([i32; 4], [i32; 4]))
    ensures
        weights_ok(r.0@),
        weights_ok(r.1@),
        as_ints(r.0@) == row_weights(row as u16),
        as_ints(r.1@) == rev4(row_weights(row as u16)),
{
    let mut line = [0i32; 4];
    let mut line_rev = [0i32; 4];
    let mut i = 0usize;
    while i < 4
        invariant
            i <= 4,
            forall|t: int| 0 <= t < i ==> #[trigger] line@[t] == TILE_WEIGHT_MAP@[row_cell(row as u16, t) as int],
            forall|t: int| 0 <= t < i ==> #[trigger] line_rev@[3 - t] == TILE_WEIGHT_MAP@[row_cell(row as u16, t) as int],
            forall|t: int| 0 <= t < 4 ==> 0 <= #[trigger] line@[t] <= 520,
            forall|t: int| 0 <= t < 4 ==> 0 <= #[trigger] line_rev@[t] <= 520,
        decreases 4 - i,
    {
        proof {
            lemma_rank_bits(row, i);
        }
        let rank = (row >> (i * 4)) & 0xf;
        proof {
            lemma_weights_ok(rank as int);
        }
        let weight = TILE_WEIGHT_MAP[rank];
        line[i] = weight;
        line_rev[3 - i] = weight;
        i += 1;
    }
    proof {
        assert(line@[0] == TILE_WEIGHT_MAP@[row_cell(row as u16, 0) as int]);
        assert(line@[1] == TILE_WEIGHT_MAP@[row_cell(row as u16, 1) as int]);
        assert(line@[2] == TILE_WEIGHT_MAP@[row_cell(row as u16, 2) as int]);
        assert(line@[3] == TILE_WEIGHT_MAP@[row_cell(row as u16, 3) as int]);
        assert(line_rev@[3 - 0] == TILE_WEIGHT_MAP@[row_cell(row as u16, 0) as int]);
        assert(line_rev@[3 - 1] == TILE_WEIGHT_MAP@[row_cell(row as u16, 1) as int]);
        assert(line_rev@[3 - 2] == TILE_WEIGHT_MAP@[row_cell(row as u16, 2) as int]);
        assert(line_rev@[3 - 3] == TILE_WEIGHT_MAP@[row_cell(row as u16, 3) as int]);
        assert(as_ints(line@) =~= row_weights(row as u16));
        assert(as_ints(line_rev@) =~= rev4(row_weights(row as u16)));
    }
    (line, line_rev)
}

/// `t` holds every row's evaluations: front to back (`d1`) and back to
/// front (`d2`).
pub open spec fn holds_row_evaluations(t: Seq<ScorePair>) -> bool {
    &&& t.len() == 65536
    &&& forall|r: int| 0 <= r < 65536 ==> (#[trigger] t[r]).d1 == row_eval(row_weights(r as u16)) as i16
        && t[r].d2 == row_eval(rev4(row_weights(r as u16))) as i16
}

/// A row's back-to-front evaluation is the front-to-back evaluation of the
/// reversed row.
pub proof fn lemma_reversed_row_pair(t: Seq<ScorePair>, row: u16, rr: u16)
    requires
        holds_row_evaluations(t),
        is_reversed_row(rr, row),
    ensures
        t[row as int].d2 == t[rr as int].d1,
{
    assert(row_cell(rr, 0) == row_cell(row, 3));
    assert(row_cell(rr, 1) == row_cell(row, 2));
    assert(row_cell(rr, 2) == row_cell(row, 1));
    assert(row_cell(rr, 3) == row_cell(row, 0));
    assert(row_weights(rr) =~= rev4(row_weights(row)));
    assert((row as int) as u16 == row);
    assert((rr as int) as u16 == rr);
    let a = t[row as int];
    let b = t[rr as int];
}

/// The row evaluations are one table: two tables that hold them are equal.
pub proof fn lemma_row_evaluations_unique(t1: Seq<ScorePair>, t2: Seq<ScorePair>)
    requires
        holds_row_evaluations(t1),
        holds_row_evaluations(t2),
    ensures
        t1 == t2,
{
    assert forall|r: int| 0 <= r < 65536 implies #[trigger] t1[r] == t2[r] by {
        let a = t1[r];
        let b = t2[r];
        assert(a.d1 == b.d1 && a.d2 == b.d2);
    }
    assert(t1 =~= t2);
}

/// The evaluations of every row, front to back (`d1`) and back to front (`d2`).
pub fn eval_tables() -> (t: Vec<ScorePair>)
    ensures
        t@.len() == 65536,
        holds_row_evaluations(t@),
{
    let mut tables: Vec<ScorePair> = Vec::new();
    let mut row = 0usize;
    while row < 65536
        invariant
            row <= 65536,
            tables@.len() == row,
            forall|r: int| 0 <= r < row ==> #[trigger] tables@[r].d1 == row_eval(row_weights(r as u16)) as i16
                && tables@[r].d2 == row_eval(rev4(row_weights(r as u16))) as i16,
        decreases 65536 - row,
    {
        let (line, line_rev) = row_lines(row);
        let d1 = diffs_evaluation_func(line) as i16;
        let d2 = diffs_evaluation_func(line_rev) as i16;
        tables.push(ScorePair { d1, d2 });
        row += 1;
    }
    tables
}

/// The evaluation of a row, front to back.
pub fn row_score(row: usize) -> (s: i16)
    ensures
        s == row_eval(row_weights(row as u16)) as i16,
{
    let (line, _) = row_lines(row);
    diffs_evaluation_func(line) as i16
}

/// A row whose evaluation the search can raise, with the row read backwards.
#[derive(Clone, Copy)]
pub struct EvalOverride {
    pub index: usize,
    pub index2: usize,
    pub score: i16,
}

/// An override of row `index` (and of `index2`, its reading backwards) by the row's own evaluation.
pub fn eval_override(index: usize, index2: usize) -> (o: EvalOverride)
    ensures
        o.index == index,
        o.index2 == index2,
        o.score == row_eval(row_weights(index as u16)) as i16,
{
    EvalOverride { index, index2, score: row_score(index) }
}

/// The rows whose evaluation the search can raise, each with its reverse.
pub open spec fn override_rows() -> Seq<(usize, usize)> {
    seq![
        (0x78ff, 0xff87),
        (0x7fff, 0xfff7),
        (0x8fff, 0xfff8),
        (0x2fff, 0xfff2),
        (0x3fff, 0xfff3),
        (0x4fff, 0xfff4),
        (0x5fff, 0xfff5),
        (0x6fff, 0xfff6),
    ]
}

/// The overrides before any bonus: each row at its own evaluation.
#[verifier::spinoff_prover]
pub fn default_eval_overrides() -> (o: [EvalOverride; 8])
    ensures
        forall|i: int| 0 <= i < 8 ==> (#[trigger] o@[i]).index == override_rows()[i].0
            && o@[i].index2 == override_rows()[i].1
            && o@[i].score == row_eval(row_weights(override_rows()[i].0 as u16)) as i16,
{
    [
        eval_override(0x78ff, 0xff87),
        eval_override(0x7fff, 0xfff7),
        eval_override(0x8fff, 0xfff8),
        eval_override(0x2fff, 0xfff2),
        eval_override(0x3fff, 0xfff3),
        eval_override(0x4fff, 0xfff4),
        eval_override(0x5fff, 0xfff5),
        eval_override(0x6fff, 0xfff6),
    ]
}

/// The bonus for the large-tile rows of the first three overrides.
pub open spec fn target_bonus_of(index: int) -> int {
    if index == 0x78ff {
        300
    } else if index == 0x7fff {
        320
    } else if index == 0x8fff {
        360
    } else {
        0
    }
}

/// The bonus for one of the first three override rows.
pub fn target_bonus(index: usize) -> (b: i16)
    ensures
        b == target_bonus_of(index as int),
{
    match index {
        0x78ff => 300,
        0x7fff => 320,
        0x8fff => 360,
        _ => 0,
    }
}

/// The two alternative bonuses for the last five override rows.
pub open spec fn dynamic_bonuses_of(index: int) -> (int, int) {
    if index == 0x2fff {
        (4, -4)
    } else if index == 0x3fff {
        (12, -10)
    } else if index == 0x4fff {
        (18, -16)
    } else if index == 0x5fff {
        (24, -20)
    } else if index == 0x6fff {
        (25, -8)
    } else {
        (0, 0)
    }
}

/// The two alternative bonuses for one of the last five override rows.
pub fn dynamic_target_bonuses(index: usize) -> (b: (i16, i16))
    ensures
        b.0 == dynamic_bonuses_of(index as int).0,
        b.1 == dynamic_bonuses_of(index as int).1,
{
    match index {
        0x2fff => (4, -4),
        0x3fff => (12, -10),
        0x4fff => (18, -16),
        0x5fff => (24, -20),
        0x6fff => (25, -8),
        _ => (0, 0),
    }
}

/// What a move's merge points add to its score: small merges count little,
/// large ones a lot, capped at 3000. A points total of 2^31 or more reads as
/// negative and counts 0.
pub open spec fn processed_score(score: u32) -> int {
    let s = score as i32 as int;
    if s < 0 {
        0
    } else if s < 200 {
        max_int(0, s / 4 - 10)
    } else if s < 500 {
        s / 2 - 12
    } else if s < 1000 {
        s / 2 + 144
    } else if s < 2000 {
        s + 600
    } else {
        3000
    }
}

proof fn lemma_i32_shr(s: i32)
    by (bit_vector)
    ensures
        s >= 0 ==> s >> 2 == s / 4,
        s >= 0 ==> s >> 1 == s / 2,
        s < 0 ==> s >> 2 < 0,
        s >> 2 >= -536870912,
{
}

/// What a move's merge points add to its score (see `processed_score`).
pub fn process_score(score: u32) -> (r: i32)
    ensures
        r == processed_score(score),
{
    let s = score as i32;
    proof {
        lemma_i32_shr(s);
    }
    if s < 200 {
        0.max((s >> 2) - 10)
    } else if s < 500 {
        (s >> 1) - 12
    } else if s < 1000 {
        (s >> 1) + 144
    } else if s < 2000 {
        s + 600
    } else {
        3000
    }
}

/// The points that merging a gap-free line scores: each pair of equal
/// neighbours, front to back, below rank 15, scores the merged tile's value.
pub open spec fn merge_points(s: Seq<u32>) -> int
    decreases s.len(),
{
    if s.len() < 2 {
        0
    } else if s[0] == s[1] && s[0] != 15 {
        pow2((s[0] + 1) as nat) + merge_points(s.subrange(2, s.len() as int))
    } else {
        merge_points(s.drop_first())
    }
}

/// A line of ranks as 32-bit values.
pub open spec fn wide(line: Seq<u8>) -> Seq<u32> {
    line.map_values(|v: u8| v as u32)
}

/// The merge points of a line of four ranks.
pub open spec fn line_merge_points(line: Seq<u32>) -> int {
    merge_points(compact(line))
}

proof fn lemma_merge_points_bound(s: Seq<u32>)
    requires
        forall|i: int| 0 <= i < s.len() ==> #[trigger] s[i] < 16,
    ensures
        0 <= merge_points(s) <= s.len() * 32768,
    decreases s.len(),
{
    if s.len() >= 2 {
        if s[0] == s[1] && s[0] != 15 {
            lemma_shl_pow2((s[0] + 1) as u32);
            lemma_merge_points_bound(s.subrange(2, s.len() as int));
        } else {
            lemma_merge_points_bound(s.drop_first());
        }
    }
}

/// The points that merging a line of four ranks scores (see `merge_points`).
pub fn merge_line_score(line: [u8; 4]) -> (score: u32)
    requires
        forall|i: int| 0 <= i < 4 ==> #[trigger] line@[i] < 16,
    ensures
        score == line_merge_points(wide(line@)),
{
    let ghost w = wide(line@);
    let mut non_zero = [0u8; 4];
    let mut n = 0usize;
    let mut k = 0usize;
    while k < 4
        invariant
            k <= 4,
            n <= k,
            w == wide(line@),
            forall|i: int| 0 <= i < 4 ==> #[trigger] line@[i] < 16,
            forall|i: int| 0 <= i < 4 ==> #[trigger] non_zero@[i] < 16,
            wide(non_zero@).take(n as int) == compact(w.take(k as int)),
        decreases 4 - k,
    {
        proof {
            lemma_compact_take(w, k as int);
        }
        let rank = line[k];
        if rank != 0 {
            non_zero[n] = rank;
            n += 1;
        }
        proof {
            assert(wide(non_zero@).take(n as int) =~= compact(w.take(k as int + 1)));
        }
        k += 1;
    }
    let ghost nz = wide(non_zero@).take(n as int);
    proof {
        assert(w.take(4) =~= w);
    }
    let mut score = 0u32;
    let mut i = 0usize;
    proof {
        assert(nz.subrange(0, n as int) =~= nz);
    }
    while i < n
        invariant
            n <= 4,
            i <= n + 1,
            nz == wide(non_zero@).take(n as int),
            forall|t: int| 0 <= t < 4 ==> #[trigger] non_zero@[t] < 16,
            i <= n ==> score + merge_points(nz.subrange(i as int, n as int)) == merge_points(nz),
            i > n ==> score == merge_points(nz),
            score <= i * 32768,
        decreases n + 1 - i,
    {
        let ghost rest = nz.subrange(i as int, n as int);
        if i + 1 < n && non_zero[i] == non_zero[i + 1] && non_zero[i] != 0xf {
            proof {
                lemma_shl_pow2((non_zero[i as int] + 1) as u32);
                assert(rest.subrange(2, rest.len() as int) =~= nz.subrange(i as int + 2, n as int));
                assert(merge_points(rest) == pow2((rest[0] + 1) as nat) + merge_points(rest.subrange(2, rest.len() as int)));
            }
            score += 1u32 << (non_zero[i] + 1);
            i += 2;
            proof {
                if i > n {
                    assert(nz.subrange(i as int - 2 + 2, n as int).len() == 0);
                }
            }
        } else {
            proof {
                if i + 1 < n {
                    assert(rest.drop_first() =~= nz.subrange(i as int + 1, n as int));
                } else {
                    assert(rest.len() < 2);
                    assert(nz.subrange(i as int + 1, n as int).len() == 0);
                }
            }
            i += 1;
        }
    }
    proof {
        if i == n {
            assert(nz.subrange(i as int, n as int).len() == 0);
        }
        assert(nz == compact(w));
    }
    score
}

/// The merge points of a move in direction `dir`: those of its four lines.
pub open spec fn move_points(b: u64, dir: int) -> int {
    line_merge_points(board_line(b, dir, 0)) + line_merge_points(board_line(b, dir, 1))
        + line_merge_points(board_line(b, dir, 2)) + line_merge_points(board_line(b, dir, 3))
}

/// The merge points of engine move `internal_move` (0 for an unknown move).
pub fn move_score(board: Board, internal_move: usize) -> (score: u32)
    ensures
        score == if 1 <= internal_move <= 4 { move_points(board, internal_dir(internal_move as int)) } else { 0 },
{
    let local = reverse_nibbles(board);
    proof {
        lemma_half_turn_lines(board, local);
    }
    if internal_move == 1 || internal_move == 2 {
        let mut score = 0u32;
        let mut r = 0u64;
        while r < 4
            invariant
                r <= 4,
                internal_move == 1 || internal_move == 2,
                score == (if r > 0 { line_merge_points(board_line(local, api_move(internal_move as int), 0)) } else { 0 })
                    + (if r > 1 { line_merge_points(board_line(local, api_move(internal_move as int), 1)) } else { 0 })
                    + (if r > 2 { line_merge_points(board_line(local, api_move(internal_move as int), 2)) } else { 0 })
                    + (if r > 3 { line_merge_points(board_line(local, api_move(internal_move as int), 3)) } else { 0 }),
                score <= r * 131072,
            decreases 4 - r,
        {
            let mut line = [0u8; 4];
            let mut c = 0u64;
            while c < 4
                invariant
                    c <= 4,
                    r < 4,
                    forall|t: int| 0 <= t < c ==> #[trigger] line@[t] as u64 == cell(local, 4 * r + t),
                    forall|t: int| 0 <= t < 4 ==> #[trigger] line@[t] < 16,
                decreases 4 - c,
            {
                proof {
                    lemma_cell_bound(local, (r * 4 + c) as int);
                }
                line[c as usize] = ((local >> ((r * 4 + c) * 4)) & 0xf) as u8;
                c += 1;
            }
            if internal_move == 2 {
                line = [line[3], line[2], line[1], line[0]];
            }
            proof {
                assert(wide(line@) =~= board_line(local, api_move(internal_move as int), r as int));
            }
            let s = merge_line_score(line);
            proof {
                lemma_line_points_bound(wide(line@));
            }
            score += s;
            r += 1;
        }
        score
    } else if internal_move == 3 || internal_move == 4 {
        let mut score = 0u32;
        let mut c = 0u64;
        while c < 4
            invariant
                c <= 4,
                internal_move == 3 || internal_move == 4,
                score == (if c > 0 { line_merge_points(board_line(local, api_move(internal_move as int), 0)) } else { 0 })
                    + (if c > 1 { line_merge_points(board_line(local, api_move(internal_move as int), 1)) } else { 0 })
                    + (if c > 2 { line_merge_points(board_line(local, api_move(internal_move as int), 2)) } else { 0 })
                    + (if c > 3 { line_merge_points(board_line(local, api_move(internal_move as int), 3)) } else { 0 }),
                score <= c * 131072,
            decreases 4 - c,
        {
            let mut line = [0u8; 4];
            let mut r = 0u64;
            while r < 4
                invariant
                    r <= 4,
                    c < 4,
                    forall|t: int| 0 <= t < r ==> #[trigger] line@[t] as u64 == cell(local, 4 * t + c),
                    forall|t: int| 0 <= t < 4 ==> #[trigger] line@[t] < 16,
                decreases 4 - r,
            {
                proof {
                    lemma_cell_bound(local, (r * 4 + c) as int);
                }
                line[r as usize] = ((local >> ((r * 4 + c) * 4)) & 0xf) as u8;
                r += 1;
            }
            if internal_move == 4 {
                line = [line[3], line[2], line[1], line[0]];
            }
            proof {
                assert(wide(line@) =~= board_line(local, api_move(internal_move as int), c as int));
            }
            let s = merge_line_score(line);
            proof {
                lemma_line_points_bound(wide(line@));
            }
            score += s;
            c += 1;
        }
        score
    } else {
        0
    }
}

proof fn lemma_line_points_bound(line: Seq<u32>)
    requires
        line.len() == 4,
        forall|i: int| 0 <= i < 4 ==> #[trigger] line[i] < 16,
    ensures
        0 <= line_merge_points(line) <= 131072,
{
    crate::line::lemma_compact_len(line);
    assert(forall|i: int| 0 <= i < compact(line).len() ==> #[trigger] compact(line)[i] < 16) by {
        crate::line::lemma_compact_len(line);
    }
    lemma_merge_points_bound(compact(line));
}


proof fn lemma_row_cell_small(row: u16, i: u16)
    by (bit_vector)
    requires
        i < 4,
    ensures
        (row >> ((4 * i) as u16)) & 0xf < 16,
{
}

/// A row of weights between 0 and 520 evaluates between -4100 and 1722.
pub proof fn lemma_row_eval_bound(line: Seq<int>)
    requires
        line.len() == 4,
        forall|i: int| 0 <= i < 4 ==> 0 <= #[trigger] line[i] <= 520,
    ensures
        -4100 <= row_eval(line) <= 1722,
{
    assert(0 <= line[0] <= 520 && 0 <= line[1] <= 520 && 0 <= line[2] <= 520 && 0 <= line[3] <= 520);
    assert(-6240 <= pair_term(line, 0) <= 2080);
    assert(-6240 <= pair_term(line, 1) <= 2080);
    assert(-6240 <= pair_term(line, 2) <= 2080);
    assert(-16384 <= end_score(line) <= 3052);
    assert(shape_score(line) <= 6890);
}

/// Every row's evaluation, either way round, lies between -4100 and 1722.
pub proof fn lemma_row_weights_eval_bound(row: u16)
    ensures
        -4100 <= row_eval(row_weights(row)) <= 1722,
        -4100 <= row_eval(rev4(row_weights(row))) <= 1722,
{
    lemma_row_cell_small(row, 0);
    lemma_row_cell_small(row, 1);
    lemma_row_cell_small(row, 2);
    lemma_row_cell_small(row, 3);
    lemma_weights_ok(row_cell(row, 0) as int);
    lemma_weights_ok(row_cell(row, 1) as int);
    lemma_weights_ok(row_cell(row, 2) as int);
    lemma_weights_ok(row_cell(row, 3) as int);
    let w = row_weights(row);
    assert forall|i: int| 0 <= i < 4 implies 0 <= #[trigger] w[i] <= 520 by {}
    lemma_row_eval_bound(w);
    let rw = rev4(w);
    assert forall|i: int| 0 <= i < 4 implies 0 <= #[trigger] rw[i] <= 520 by {
        assert(rw[i] == w[3 - i]);
    }
    lemma_row_eval_bound(rw);
}

} // verus!
