//! What one move does to one line of four cells: the tiles slide towards
//! the front, and two equal neighbours (after sliding) merge into one tile of
//! the next rank. Rank 15 is the largest a cell can hold: two 15s merge into
//! a 15.

use vstd::prelude::*;
use vstd::arithmetic::power2::{pow2, lemma_pow2_unfold};

verus! {

/// The rank of the tile that two tiles of rank `r` merge into.
pub open spec fn merged_rank(r: u32) -> u32 {
    if r >= 15 {
        15
    } else {
        (r + 1) as u32
    }
}

/// The non-empty cells of a line, in order.
pub open spec fn compact(s: Seq<u32>) -> Seq<u32>
    decreases s.len(),
{
    if s.len() == 0 {
        s
    } else if s[0] == 0 {
        compact(s.drop_first())
    } else {
        seq![s[0]] + compact(s.drop_first())
    }
}

/// Merges, front to back, each pair of equal neighbours of a gap-free line.
pub open spec fn merge_pairs(s: Seq<u32>) -> Seq<u32>
    decreases s.len(),
{
    if s.len() < 2 {
        s
    } else if s[0] == s[1] {
        seq![merged_rank(s[0])] + merge_pairs(s.subrange(2, s.len() as int))
    } else {
        seq![s[0]] + merge_pairs(s.drop_first())
    }
}

/// `n` empty cells.
pub open spec fn empties(n: int) -> Seq<u32> {
    Seq::new(n as nat, |i: int| 0u32)
}

/// The line after a move towards its front: the merged tiles, then empty cells.
pub open spec fn slide(s: Seq<u32>) -> Seq<u32> {
    let m = merge_pairs(compact(s));
    m + empties(s.len() - m.len())
}

/// Every cell holds a rank (0..16).
pub open spec fn ranks_ok(s: Seq<u32>) -> bool {
    forall|i: int| 0 <= i < s.len() ==> #[trigger] s[i] < 16
}

pub proof fn lemma_compact_len(s: Seq<u32>)
    ensures
        compact(s).len() <= s.len(),
        ranks_ok(s) ==> ranks_ok(compact(s)),
    decreases s.len(),
{
    if s.len() > 0 {
        lemma_compact_len(s.drop_first());
        if ranks_ok(s) {
            assert(ranks_ok(s.drop_first()));
        }
    }
}

pub proof fn lemma_merge_pairs_len(s: Seq<u32>)
    ensures
        merge_pairs(s).len() <= s.len(),
        ranks_ok(s) ==> ranks_ok(merge_pairs(s)),
    decreases s.len(),
{
    if s.len() >= 2 {
        if s[0] == s[1] {
            lemma_merge_pairs_len(s.subrange(2, s.len() as int));
            if ranks_ok(s) {
                assert(ranks_ok(s.subrange(2, s.len() as int)));
            }
        } else {
            lemma_merge_pairs_len(s.drop_first());
            if ranks_ok(s) {
                assert(ranks_ok(s.drop_first()));
            }
        }
    }
}

/// A slid line keeps its length and holds ranks.
pub proof fn lemma_slide_shape(s: Seq<u32>)
    ensures
        slide(s).len() == s.len(),
        ranks_ok(s) ==> ranks_ok(slide(s)),
{
    lemma_compact_len(s);
    lemma_merge_pairs_len(compact(s));
    let m = merge_pairs(compact(s));
    if ranks_ok(s) {
        assert forall|i: int| 0 <= i < slide(s).len() implies #[trigger] slide(s)[i] < 16 by {
            if i < m.len() {
                assert(slide(s)[i] == m[i]);
            } else {
                assert(slide(s)[i] == 0);
            }
        }
    }
}

/// Empty cells from `a` up to `b` do not change what is compacted from `a` on.
proof fn lemma_compact_skip_zeros(s: Seq<u32>, a: int, b: int)
    requires
        0 <= a <= b <= s.len(),
        forall|t: int| a <= t < b ==> s[t] == 0,
    ensures
        compact(s.skip(a)) == compact(s.skip(b)),
    decreases b - a,
{
    if a < b {
        assert(s.skip(a).drop_first() =~= s.skip(a + 1));
        lemma_compact_skip_zeros(s, a + 1, b);
    }
}

/// A non-empty cell at `a` is the first one compacted from `a` on.
proof fn lemma_compact_skip_tile(s: Seq<u32>, a: int)
    requires
        0 <= a < s.len(),
        s[a] != 0,
    ensures
        compact(s.skip(a)) == seq![s[a]] + compact(s.skip(a + 1)),
{
    assert(s.skip(a).drop_first() =~= s.skip(a + 1));
}

proof fn lemma_pad_cons(x: u32, m: Seq<u32>, n: int)
    requires
        m.len() + 1 <= n,
    ensures
        (seq![x] + m) + empties(n - (m.len() + 1)) == seq![x] + (m + empties((n - 1) - m.len())),
{
    assert((seq![x] + m) + empties(n - (m.len() + 1)) =~= seq![x] + (m + empties((n - 1) - m.len())));
}

/// One step of the sliding loop at position `i`, with `j` the next non-empty
/// cell after `i`: the three ways the loop body can go keep the line's
/// result unchanged.
proof fn lemma_slide_step(line: Seq<u32>, i: int, j: int)
    requires
        0 <= i < j < line.len(),
        forall|t: int| i < t < j ==> line[t] == 0,
        line[j] != 0,
    ensures
        line[i] == 0 ==> slide(line.skip(i)) == slide(line.update(i, line[j]).update(j, 0).skip(i)),
        line[i] != 0 && line[i] == line[j] ==> slide(line.skip(i)) == seq![merged_rank(line[i])]
            + slide(line.update(i, merged_rank(line[i])).update(j, 0).skip(i + 1)),
        line[i] != 0 && line[i] != line[j] ==> slide(line.skip(i)) == seq![line[i]] + slide(
            line.skip(i + 1),
        ),
{
    let n = line.len() - i;
    let rest = compact(line.skip(j + 1));
    lemma_compact_skip_zeros(line, i + 1, j);
    lemma_compact_skip_tile(line, j);
    assert(compact(line.skip(i + 1)) == seq![line[j]] + rest);
    lemma_compact_len(line.skip(j + 1));
    lemma_merge_pairs_len(rest);
    if line[i] == 0 {
        let l2 = line.update(i, line[j]).update(j, 0);
        lemma_compact_skip_zeros(line, i, j);
        lemma_compact_skip_tile(l2, i);
        lemma_compact_skip_zeros(l2, i + 1, j + 1);
        assert(l2.skip(j + 1) =~= line.skip(j + 1));
        assert(compact(l2.skip(i)) == compact(line.skip(i)));
        assert(l2.skip(i).len() == line.skip(i).len());
    } else if line[i] == line[j] {
        let a = line[i];
        let l2 = line.update(i, merged_rank(a)).update(j, 0);
        lemma_compact_skip_tile(line, i);
        let c = compact(line.skip(i));
        assert(c == seq![a] + (seq![a] + rest));
        assert(c.subrange(2, c.len() as int) =~= rest);
        assert(merge_pairs(c) == seq![merged_rank(a)] + merge_pairs(rest));
        lemma_compact_skip_zeros(l2, i + 1, j + 1);
        assert(l2.skip(j + 1) =~= line.skip(j + 1));
        assert(compact(l2.skip(i + 1)) == rest);
        lemma_pad_cons(merged_rank(a), merge_pairs(rest), n);
    } else {
        let a = line[i];
        lemma_compact_skip_tile(line, i);
        let c = compact(line.skip(i));
        let c1 = compact(line.skip(i + 1));
        assert(c == seq![a] + c1);
        assert(c.drop_first() =~= c1);
        assert(merge_pairs(c) == seq![a] + merge_pairs(c1));
        lemma_compact_len(line.skip(i + 1));
        lemma_merge_pairs_len(c1);
        lemma_pad_cons(a, merge_pairs(c1), n);
    }
}

/// A line whose cells after the front are all empty does not change.
proof fn lemma_slide_front_only(line: Seq<u32>, i: int)
    requires
        0 <= i < line.len(),
        forall|t: int| i < t < line.len() ==> line[t] == 0,
    ensures
        slide(line.skip(i)) == line.skip(i),
{
    lemma_compact_skip_zeros(line, i + 1, line.len() as int);
    assert(line.skip(line.len() as int) =~= Seq::<u32>::empty());
    assert(compact(line.skip(line.len() as int)) == Seq::<u32>::empty());
    if line[i] == 0 {
        lemma_compact_skip_zeros(line, i, line.len() as int);
        assert(slide(line.skip(i)) =~= line.skip(i));
    } else {
        lemma_compact_skip_tile(line, i);
        assert(compact(line.skip(i)) =~= seq![line[i]]);
        assert(slide(line.skip(i)) =~= line.skip(i));
    }
}

/// Compacting a concatenation compacts each part.
pub proof fn lemma_compact_concat(a: Seq<u32>, b: Seq<u32>)
    ensures
        compact(a + b) == compact(a) + compact(b),
    decreases a.len(),
{
    if a.len() == 0 {
        assert(a + b =~= b);
        assert(compact(a) + compact(b) =~= compact(b));
    } else {
        assert((a + b).drop_first() =~= a.drop_first() + b);
        lemma_compact_concat(a.drop_first(), b);
        if a[0] != 0 {
            assert(seq![a[0]] + (compact(a.drop_first()) + compact(b)) =~= (seq![a[0]] + compact(a.drop_first())) + compact(b));
        }
    }
}

/// Compacting one more cell of a line.
pub proof fn lemma_compact_take(s: Seq<u32>, k: int)
    requires
        0 <= k < s.len(),
    ensures
        compact(s.take(k + 1)) == compact(s.take(k)) + if s[k] != 0 { seq![s[k]] } else { Seq::<u32>::empty() },
{
    assert(s.take(k + 1) =~= s.take(k) + seq![s[k]]);
    lemma_compact_concat(s.take(k), seq![s[k]]);
    assert(seq![s[k]].drop_first() =~= Seq::<u32>::empty());
    assert(compact(Seq::<u32>::empty()) == Seq::<u32>::empty());
    if s[k] != 0 {
        assert(compact(seq![s[k]]) =~= seq![s[k]]);
    } else {
        assert(compact(seq![s[k]]) =~= Seq::<u32>::empty());
    }
}

/// Slides a line of four ranks towards its front (index 0).
pub fn slide_line(line: [u32; 4]) -> (out: [u32; 4])
    requires
        ranks_ok(line@),
    ensures
        out@ == slide(line@),
        ranks_ok(out@),
{
    let ghost target = slide(line@);
    let mut line = line;
    let mut i = 0isize;
    proof {
        assert(line@.take(0) + line@.skip(0) =~= line@);
        assert(line@.skip(0) =~= line@);
        assert(target == line@.take(0) + slide(line@.skip(0)));
    }
    while i < 3
        invariant_except_break
            0 <= i <= 3,
            ranks_ok(line@),
            target == line@.take(i as int) + slide(line@.skip(i as int)),
        ensures
            ranks_ok(line@),
            line@ == target || (i == 3 && target == line@.take(3) + slide(line@.skip(3))),
        decreases 2 * (3 - i) + if line[i as int] == 0 { 1int } else { 0int },
    {
        let idx = i as usize;
        let mut j = idx + 1;
        while j < 4 && line[j] == 0
            invariant
                idx < j <= 4,
                idx < 3,
                forall|t: int| idx < t < j ==> line@[t] == 0,
            decreases 4 - j,
        {
            j += 1;
        }
        if j == 4 {
            proof {
                lemma_slide_front_only(line@, idx as int);
                assert(line@.take(idx as int) + line@.skip(idx as int) =~= line@);
            }
            break;
        }
        let ghost before = line@;
        proof {
            lemma_slide_step(before, idx as int, j as int);
        }
        if line[idx] == 0 {
            line[idx] = line[j];
            line[j] = 0;
            i -= 1;
            proof {
                assert(line@ == before.update(idx as int, before[j as int]).update(j as int, 0));
                assert(line@.take(idx as int) =~= before.take(idx as int));
            }
        } else if line[idx] == line[j] {
            if line[idx] != 0xf {
                line[idx] += 1;
            }
            line[j] = 0;
            proof {
                assert(line@ == before.update(idx as int, merged_rank(before[idx as int])).update(
                    j as int,
                    0,
                ));
                assert(line@.take(idx as int + 1) =~= before.take(idx as int) + seq![
                    merged_rank(before[idx as int]),
                ]);
            }
        } else {
            proof {
                assert(line@.take(idx as int + 1) =~= before.take(idx as int) + seq![
                    before[idx as int],
                ]);
            }
        }
        i += 1;
        proof {
            assert(ranks_ok(line@));
        }
    }
    proof {
        if line@ != target {
            lemma_slide_front_only(line@, 3);
            assert(line@.take(3) + line@.skip(3) =~= line@);
        }
    }
    line
}

/// The value of a tile of rank `r`: 2^r, nothing for an empty cell.
pub open spec fn rank_value(r: u32) -> int {
    if r == 0 { 0 } else { pow2(r as nat) as int }
}

/// The total value of a line's tiles.
pub open spec fn line_value(s: Seq<u32>) -> int
    decreases s.len(),
{
    if s.len() == 0 {
        0
    } else {
        rank_value(s[0]) + line_value(s.drop_first())
    }
}

/// Whether merging a gap-free line merges two tiles of rank 15 (which make
/// one tile of rank 15, not of twice the value).
pub open spec fn merges_top(s: Seq<u32>) -> bool
    decreases s.len(),
{
    if s.len() < 2 {
        false
    } else if s[0] == s[1] {
        s[0] >= 15 || merges_top(s.subrange(2, s.len() as int))
    } else {
        merges_top(s.drop_first())
    }
}

proof fn lemma_line_value_concat(a: Seq<u32>, b: Seq<u32>)
    ensures
        line_value(a + b) == line_value(a) + line_value(b),
    decreases a.len(),
{
    if a.len() > 0 {
        assert((a + b).drop_first() =~= a.drop_first() + b);
        lemma_line_value_concat(a.drop_first(), b);
    } else {
        assert(a + b =~= b);
    }
}

proof fn lemma_line_value_empties(n: int)
    requires
        n >= 0,
    ensures
        line_value(empties(n)) == 0,
    decreases n,
{
    if n > 0 {
        assert(empties(n).drop_first() =~= empties(n - 1));
        lemma_line_value_empties(n - 1);
    }
}

proof fn lemma_compact_value(s: Seq<u32>)
    ensures
        line_value(compact(s)) == line_value(s),
        forall|i: int| 0 <= i < compact(s).len() ==> #[trigger] compact(s)[i] != 0,
    decreases s.len(),
{
    if s.len() > 0 {
        lemma_compact_value(s.drop_first());
        if s[0] != 0 {
            lemma_line_value_concat(seq![s[0]], compact(s.drop_first()));
            assert(seq![s[0]].drop_first() =~= Seq::<u32>::empty());
            assert(line_value(seq![s[0]]) == rank_value(s[0]) + line_value(Seq::<u32>::empty()));
            assert(compact(s) == seq![s[0]] + compact(s.drop_first()));
            assert forall|i: int| 0 <= i < compact(s).len() implies #[trigger] compact(s)[i] != 0 by {
                if i > 0 {
                    assert(compact(s)[i] == compact(s.drop_first())[i - 1]);
                }
            }
        }
    }
}

proof fn lemma_merge_pairs_value(t: Seq<u32>)
    requires
        ranks_ok(t),
        forall|i: int| 0 <= i < t.len() ==> #[trigger] t[i] != 0,
        !merges_top(t),
    ensures
        line_value(merge_pairs(t)) == line_value(t),
    decreases t.len(),
{
    if t.len() >= 2 {
        let rest2 = t.subrange(2, t.len() as int);
        let rest1 = t.drop_first();
        if t[0] == t[1] {
            assert(ranks_ok(rest2));
            assert forall|i: int| 0 <= i < rest2.len() implies #[trigger] rest2[i] != 0 by {
                assert(rest2[i] == t[i + 2]);
            }
            lemma_merge_pairs_value(rest2);
            lemma_line_value_concat(seq![merged_rank(t[0])], merge_pairs(rest2));
            assert(seq![merged_rank(t[0])].drop_first() =~= Seq::<u32>::empty());
            assert(line_value(seq![merged_rank(t[0])]) == rank_value(merged_rank(t[0])) + line_value(Seq::<u32>::empty()));
            assert(rest1.drop_first() =~= rest2);
            assert(line_value(t) == rank_value(t[0]) + line_value(rest1));
            assert(line_value(rest1) == rank_value(rest1[0]) + line_value(rest1.drop_first()));
            lemma_pow2_unfold((t[0] + 1) as nat);
            assert(merged_rank(t[0]) == t[0] + 1);
            assert(merge_pairs(t) == seq![merged_rank(t[0])] + merge_pairs(rest2));
        } else {
            assert(ranks_ok(rest1));
            assert forall|i: int| 0 <= i < rest1.len() implies #[trigger] rest1[i] != 0 by {
                assert(rest1[i] == t[i + 1]);
            }
            lemma_merge_pairs_value(rest1);
            lemma_line_value_concat(seq![t[0]], merge_pairs(rest1));
            assert(seq![t[0]].drop_first() =~= Seq::<u32>::empty());
            assert(line_value(seq![t[0]]) == rank_value(t[0]) + line_value(Seq::<u32>::empty()));
            assert(merge_pairs(t) == seq![t[0]] + merge_pairs(rest1));
        }
    }
}

/// A move keeps the total value of the tiles of each line: sliding moves
/// tiles and merging turns two equal tiles into one of twice the value,
/// unless two tiles of rank 15 merge.
pub proof fn lemma_slide_keeps_value(s: Seq<u32>)
    requires
        ranks_ok(s),
        !merges_top(compact(s)),
    ensures
        line_value(slide(s)) == line_value(s),
{
    lemma_compact_value(s);
    lemma_compact_len(s);
    lemma_merge_pairs_value(compact(s));
    lemma_merge_pairs_len(compact(s));
    let m = merge_pairs(compact(s));
    lemma_line_value_concat(m, empties(s.len() - m.len()));
    lemma_line_value_empties(s.len() - m.len());
}

} // verus!
