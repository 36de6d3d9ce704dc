//! The endgame engine's board classifications and small selection rules.

use vstd::prelude::*;
use crate::endgame::stats::{range_sum, sum_counts};

verus! {

/// The remainder of Rust's integer `%` (with the sign of the dividend).
pub open spec fn trem(a: int, b: int) -> int {
    if a >= 0 {
        a % b
    } else {
        -((-a) % b)
    }
}

/// The first rank from `i` on (below 16) with no tile; `i` itself when
/// `i >= 16`, 16 when every rank from `i` on has a tile.
pub open spec fn first_absent_from(counts: Seq<u8>, i: int) -> int
    decreases 16 - i,
{
    if i >= 16 {
        i
    } else if counts[i] == 0 {
        i
    } else {
        first_absent_from(counts, i + 1)
    }
}

/// Whether some rank in `from..15` holds exactly two tiles.
pub open spec fn has_pair_from(counts: Seq<u8>, from: int) -> bool {
    exists|t: int| from <= t < 15 && #[trigger] counts[t] == 2
}

/// The number of tiles above the first absent rank from `start` on; 0 when
/// some rank up there (below 15) holds two tiles.
pub open spec fn large_tiles_of(counts: Seq<u8>, start: int) -> int {
    let z = first_absent_from(counts, start);
    if has_pair_from(counts, z + 1) {
        0
    } else {
        range_sum(counts, z + 1, 16)
    }
}

/// Counts the tiles above the first rank, from `start` on, that has no tile
/// (see `large_tiles_of`).
pub fn large_tile_count(start: usize, counts: &[u8; 16]) -> (n: i32)
    requires
        start < usize::MAX,
    ensures
        n == large_tiles_of(counts@, start as int),
{
    let mut i = start;
    while i < 16 && counts[i] != 0
        invariant
            start <= i,
            i < usize::MAX,
            first_absent_from(counts@, start as int) == first_absent_from(counts@, i as int),
        decreases 16 - i,
    {
        i += 1;
    }
    let ghost z = i as int;
    let mut sum = 0i32;
    i += 1;
    while i < 16
        invariant
            z + 1 <= i,
            z == first_absent_from(counts@, start as int),
            i > 16 ==> i == z + 1,
            forall|t: int| z + 1 <= t < i && t < 15 ==> #[trigger] counts@[t] != 2,
            sum == range_sum(counts@, z + 1, i as int),
            z >= 0,
            0 <= sum <= (i - z - 1) * 255,
        decreases 16 - i,
    {
        if counts[i] == 2 && i < 15 {
            return 0;
        }
        sum += counts[i] as i32;
        i += 1;
    }
    proof {
        if i == 16 || i == z + 1 {
        }
        assert(!has_pair_from(counts@, z + 1));
    }
    sum
}

/// The five-tile endgame: a board sum just below 65536, or four tiles of
/// rank 11 or more and none of rank 10; with the sum near a multiple of 1024.
pub open spec fn is_5tiler_spec(board_sum: int, counts: Seq<u8>) -> bool {
    let sum_range = board_sum > 62000 && board_sum < 65520;
    let counts_cond = range_sum(counts, 11, 16) == 4 && counts[10] == 0;
    let rem = trem(board_sum, 1024);
    (sum_range || counts_cond) && (rem < 24 || rem > 996)
}

/// Whether the board is a five-tile endgame (see `is_5tiler_spec`).
pub fn is_5tiler(board_sum: i32, counts: &[u8; 16]) -> (r: bool)
    ensures
        r == is_5tiler_spec(board_sum as int, counts@),
{
    let sum_range = board_sum > 62000 && board_sum < 65520;
    let counts_cond = sum_counts(counts, 11, 16) == 4 && counts[10] == 0;
    let rem = board_sum % 1024;
    (sum_range || counts_cond) && (rem < 24 || rem > 996)
}

/// The largest rank in `3..n` holding more than one tile; 0 when none does.
pub open spec fn last_dup_upto(counts: Seq<u8>, n: int) -> int
    decreases n,
{
    if n <= 3 {
        0
    } else if counts[n - 1] > 1 {
        n - 1
    } else {
        last_dup_upto(counts, n - 1)
    }
}

/// The first rank from `i` on, below 15, with no tile (15 if none).
pub open spec fn first_absent_below15(counts: Seq<u8>, i: int) -> int
    decreases 15 - i,
{
    if i >= 15 {
        i
    } else if counts[i] == 0 {
        i
    } else {
        first_absent_below15(counts, i + 1)
    }
}

/// Whether the large tiles are all set: above the largest duplicated rank
/// (3..15), the unbroken run of present ranks ends above rank 9, with fewer
/// than five tiles from there on (counting one more), unless that count plus
/// the run's end is below 14 and the duplicated rank is below 6.
pub open spec fn tiles_all_set_spec(counts: Seq<u8>) -> bool {
    let last_dup = last_dup_upto(counts, 15);
    if last_dup == 0 {
        false
    } else {
        let i = first_absent_below15(counts, last_dup + 1);
        let final_big_tiles = range_sum(counts, i, 16) + 1;
        final_big_tiles < 5 && i > 9 && !(final_big_tiles + i < 14 && last_dup < 6)
    }
}

/// Whether the large tiles are all set (see `tiles_all_set_spec`).
pub fn tiles_all_set(counts: &[u8; 16]) -> (r: bool)
    ensures
        r == tiles_all_set_spec(counts@),
{
    let mut last_dup = 0usize;
    let mut rank = 3usize;
    while rank < 15
        invariant
            3 <= rank <= 15,
            last_dup == last_dup_upto(counts@, rank as int),
            last_dup < rank,
        decreases 15 - rank,
    {
        if counts[rank] > 1 {
            last_dup = rank;
        }
        rank += 1;
    }
    if last_dup == 0 {
        return false;
    }
    let mut i = last_dup + 1;
    while i < 15 && counts[i] != 0
        invariant
            last_dup + 1 <= i <= 15,
            last_dup < 15,
            first_absent_below15(counts@, last_dup + 1) == first_absent_below15(counts@, i as int),
        decreases 15 - i,
    {
        i += 1;
    }
    let final_big_tiles = sum_counts(counts, i, 16) + 1;
    final_big_tiles < 5 && i > 9 && !(final_big_tiles + (i as u16) < 14 && last_dup < 6)
}

/// The tablebase tables to probe for a threshold rank and board sum.
pub open spec fn table_types_spec(threshold: int, board_sum: int) -> (u32, u32) {
    if threshold == 10 && trem(board_sum, 1024) < 128 {
        (256, 512)
    } else if threshold > 8 && (trem(board_sum, 256) > 128 || trem(board_sum, 512) < 72) {
        (512, 0)
    } else if threshold > 8 {
        (512, 256)
    } else if (threshold == 8 && trem(board_sum, 256) > 60) || (threshold == 7 && trem(board_sum, 128) > 60) {
        (256, 512)
    } else {
        (256, 0)
    }
}

/// The tablebase tables to probe (see `table_types_spec`).
pub fn table_types_for(threshold: u8, board_sum: i32) -> (t: [u32; 2])
    ensures
        t@[0] == table_types_spec(threshold as int, board_sum as int).0,
        t@[1] == table_types_spec(threshold as int, board_sum as int).1,
{
    if threshold == 10 && (board_sum % 1024) < 128 {
        [256, 512]
    } else if threshold > 8 && ((board_sum % 256) > 128 || (board_sum % 512) < 72) {
        [512, 0]
    } else if threshold > 8 {
        [512, 256]
    } else if (threshold == 8 && (board_sum % 256) > 60) || (threshold == 7 && (board_sum % 128) > 60) {
        [256, 512]
    } else {
        [256, 0]
    }
}

/// The index of the first largest value.
pub fn argmax_i32(values: [i32; 4]) -> (best_idx: usize)
    ensures
        best_idx < 4,
        forall|i: int| 0 <= i < 4 ==> #[trigger] values@[i] <= values@[best_idx as int],
        forall|i: int| 0 <= i < best_idx ==> #[trigger] values@[i] < values@[best_idx as int],
{
    let mut best_idx = 0usize;
    let mut best = values[0];
    let mut idx = 1usize;
    while idx < 4
        invariant
            1 <= idx <= 4,
            best_idx < idx,
            best == values@[best_idx as int],
            forall|i: int| 0 <= i < idx ==> #[trigger] values@[i] <= best,
            forall|i: int| 0 <= i < best_idx ==> #[trigger] values@[i] < best,
        decreases 4 - idx,
    {
        let value = values[idx];
        if value > best {
            best = value;
            best_idx = idx;
        }
        idx += 1;
    }
    best_idx
}

proof fn lemma_swap_multiset(s: Seq<i32>, i: int, j: int)
    requires
        0 <= i < s.len(),
        0 <= j < s.len(),
    ensures
        s.update(i, s[j]).update(j, s[i]).to_multiset() =~= s.to_multiset(),
{
    broadcast use vstd::seq_lib::to_multiset_update, vstd::seq_lib::to_multiset_contains, vstd::multiset::group_multiset_axioms;
    let t = s.update(i, s[j]);
    if i == j {
        assert(s.update(i, s[j]).update(j, s[i]) =~= s);
    } else {
        let m = s.to_multiset();
        assert(s.contains(s[i]));
        assert(m.count(s[i]) > 0);
        assert(t.to_multiset() == m.insert(s[j]).remove(s[i]));
        assert(t[j] == s[j]);
        assert(t.update(j, s[i]).to_multiset() == t.to_multiset().insert(s[i]).remove(s[j]));
        assert(m.insert(s[j]).remove(s[i]).insert(s[i]).remove(s[j]) =~= m);
    }
}

/// Orders two entries, larger first.
fn order_pair(values: &mut [i32; 4], i: usize, j: usize)
    requires
        i < 4,
        j < 4,
    ensures
        final(values)@.to_multiset() =~= old(values)@.to_multiset(),
        final(values)@[i as int] >= final(values)@[j as int],
        i != j ==> final(values)@[i as int] == if old(values)@[i as int] >= old(values)@[j as int] { old(values)@[i as int] } else { old(values)@[j as int] },
        i != j ==> final(values)@[j as int] == if old(values)@[i as int] >= old(values)@[j as int] { old(values)@[j as int] } else { old(values)@[i as int] },
        forall|k: int| 0 <= k < 4 && k != i && k != j ==> #[trigger] final(values)@[k] == old(values)@[k],
{
    if values[i] < values[j] {
        let a = values[i];
        let b = values[j];
        proof {
            lemma_swap_multiset(values@, i as int, j as int);
        }
        values[i] = b;
        values[j] = a;
    }
}

/// The values in decreasing order.
pub fn sorted_desc(values: [i32; 4]) -> (s: [i32; 4])
    ensures
        forall|i: int, j: int| 0 <= i <= j < 4 ==> #[trigger] s@[i] >= #[trigger] s@[j],
        s@.to_multiset() =~= values@.to_multiset(),
{
    let mut values = values;
    order_pair(&mut values, 0, 1);
    order_pair(&mut values, 2, 3);
    order_pair(&mut values, 0, 2);
    order_pair(&mut values, 1, 3);
    order_pair(&mut values, 1, 2);
    values
}

/// A special-case rule that is switched off: it never applies.
pub fn danbianhuichuan_patch(_board: u64, _board_sum: i32) -> (r: bool)
    ensures
        !r,
{
    false
}

} // verus!
