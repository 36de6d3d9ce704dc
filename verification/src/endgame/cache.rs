//! The endgame search cache: a set-associative table of 64-bit entries,
//! eight ways per bucket. An entry packs a 32-bit board signature (bits
//! 32..64), a 20-bit score offset by 2^19 (bits 12..32), a 6-bit search
//! depth (bits 6..12) and a 6-bit effort, the base-2 logarithm of the
//! subtree size (bits 0..6). A zero entry is an empty way.

use vstd::prelude::*;
use vstd::std_specs::bits::{u64_leading_zeros, axiom_u64_leading_zeros};
use crate::board::Board;

verus! {

pub const MAX_CACHE_BUCKETS: usize = 524288;

pub const CACHE_WAYS: usize = 8;

/// The signature field of an entry.
pub open spec fn entry_sig(e: u64) -> u32 {
    (e >> 32u64) as u32
}

/// The depth field of an entry.
pub open spec fn entry_depth(e: u64) -> int {
    ((e >> 6u64) & 0x3f) as int
}

/// The score held by an entry.
pub open spec fn entry_score(e: u64) -> int {
    ((e >> 12u64) & 0xfffff) as int - 524288
}

/// The effort field of an entry.
pub open spec fn entry_effort(e: u64) -> u64 {
    e & 0x3f
}

/// Whether a way holds an entry for the signature.
pub open spec fn way_matches(e: u64, sig: u32) -> bool {
    e != 0 && entry_sig(e) == sig
}

/// The first way, from `i` on, that holds the signature; -1 if none does.
pub open spec fn first_match_from(ways: Seq<u64>, sig: u32, i: int) -> int
    decreases ways.len() - i,
{
    if i >= ways.len() || i < 0 {
        -1
    } else if way_matches(ways[i], sig) {
        i
    } else {
        first_match_from(ways, sig, i + 1)
    }
}

/// The first way, from `i` on, that holds the signature with a depth of at
/// least `depth`; -1 if none does.
pub open spec fn first_hit_from(ways: Seq<u64>, sig: u32, depth: int, i: int) -> int
    decreases ways.len() - i,
{
    if i >= ways.len() || i < 0 {
        -1
    } else if way_matches(ways[i], sig) && entry_depth(ways[i]) >= depth {
        i
    } else {
        first_hit_from(ways, sig, depth, i + 1)
    }
}

/// The last empty way among the first `n`; -1 if none is empty.
pub open spec fn last_empty(ways: Seq<u64>, n: int) -> int
    decreases n,
{
    if n <= 0 {
        -1
    } else if ways[n - 1] == 0 {
        n - 1
    } else {
        last_empty(ways, n - 1)
    }
}

/// The first way of least effort among the first `n` (`n >= 1`).
pub open spec fn least_effort(ways: Seq<u64>, n: int) -> int
    decreases n,
{
    if n <= 1 {
        0
    } else {
        let j = least_effort(ways, n - 1);
        if entry_effort(ways[n - 1]) < entry_effort(ways[j]) {
            n - 1
        } else {
            j
        }
    }
}

/// The way a new signature goes into: the last empty way if there is one,
/// else the first way of least effort.
pub open spec fn replace_target(ways: Seq<u64>, n: int) -> int {
    if last_empty(ways, n) >= 0 {
        last_empty(ways, n)
    } else {
        least_effort(ways, n)
    }
}

/// The ways of bucket `bucket` of an entry table.
pub open spec fn bucket_ways(entries: Seq<u64>, bucket: int) -> Seq<u64> {
    entries.subrange(bucket * 8, bucket * 8 + 8)
}

/// The signature of a board.
pub open spec fn board_signature(board: u64) -> u32 {
    (vstd::wrapping::u64_specs::wrapping_add(
        vstd::wrapping::u64_specs::wrapping_mul(board ^ (board >> 31u64), 0x1a7d_af1b),
        board,
    ) >> 21u64) as u32
}

/// The bucket of a board for a bucket mask.
pub open spec fn board_bucket(board: u64, mask: u64) -> u64 {
    (vstd::wrapping::u64_specs::wrapping_add(
        vstd::wrapping::u64_specs::wrapping_mul(board ^ (board >> 27u64), 0x1a85_ec53),
        board,
    ) >> 23u64) & mask
}

/// The entry packing a signature, score, depth and effort.
#[verifier::opaque]
pub open spec fn packed_entry(sig: u32, score: i32, depth: int, effort: u64) -> u64 {
    ((sig as u64) << 32u64) | (((((score + 524288) as i32) as u64) & 0xfffff) << 12u64) | ((
    depth as u64) << 6u64) | effort
}

/// What a lookup of a board in a bucket finds: the score of the first way
/// holding the board's signature at a depth of at least `depth`, if any.
pub open spec fn lookup_result(entries: Seq<u64>, bucket: int, board: u64, depth: int) -> Option<i32> {
    let ways = bucket_ways(entries, bucket);
    let w = first_hit_from(ways, board_signature(board), depth, 0);
    if w < 0 { None } else { Some(entry_score(ways[w]) as i32) }
}

/// The depth a score is recorded with: 63 for a score at or below
/// `-dead_score + 32`, else the search depth.
pub open spec fn recorded_depth(depth: int, score: int, dead_score: int) -> int {
    if score <= -dead_score + 32 { 63 } else { depth }
}

/// The depth field a recorded depth is packed into: kept between 0 and 63.
pub open spec fn packed_depth(d: int) -> int {
    if d < 0 { 0 } else if d > 63 { 63 } else { d }
}

/// The entry that records a score for a board.
pub open spec fn new_cache_entry(board: u64, depth: int, score: i32, dead_score: int, subtree_nodes: u64) -> u64 {
    let nodes: u64 = if subtree_nodes > 1 { subtree_nodes } else { 1 };
    packed_entry(
        board_signature(board),
        score,
        packed_depth(recorded_depth(depth, score as int, dead_score)),
        (63 - u64_leading_zeros(nodes)) as u64,
    )
}

/// The entry table after recording a score for a board in a bucket: a way
/// holding the board's signature is replaced only by a deeper search; else
/// the new entry goes into the last empty way, or the first way of least effort.
pub open spec fn updated_entries(entries: Seq<u64>, bucket: int, board: u64, depth: int, score: i32, dead_score: int, subtree_nodes: u64) -> Seq<u64> {
    let start = bucket * 8;
    let ways = bucket_ways(entries, bucket);
    let sig = board_signature(board);
    let d = recorded_depth(depth, score as int, dead_score);
    let new_entry = new_cache_entry(board, depth, score, dead_score, subtree_nodes);
    let w = first_match_from(ways, sig, 0);
    if w >= 0 {
        if d > entry_depth(ways[w]) {
            entries.update(start + w, new_entry)
        } else {
            entries
        }
    } else {
        entries.update(start + replace_target(ways, 8), new_entry)
    }
}

/// Whether `n` is a power of two.
pub open spec fn is_pow2(n: int) -> bool
    decreases n,
{
    if n <= 0 {
        false
    } else if n == 1 {
        true
    } else {
        n % 2 == 0 && is_pow2(n / 2)
    }
}

pub struct SearchCache {
    pub entries: Vec<u64>,
    pub buckets: usize,
    pub mask: u64,
}

impl SearchCache {
    /// The table has its fixed size, and the bucket count in use is a power
    /// of two, at most the table's, with the matching mask.
    pub open spec fn wf(&self) -> bool {
        &&& self.entries@.len() == MAX_CACHE_BUCKETS * CACHE_WAYS
        &&& 1 <= self.buckets <= MAX_CACHE_BUCKETS
        &&& is_pow2(self.buckets as int)
        &&& self.mask == self.buckets - 1
    }

    /// An empty cache using all its buckets.
    pub fn new() -> (c: Self)
        ensures
            c.wf(),
            c.buckets == MAX_CACHE_BUCKETS,
            forall|i: int| 0 <= i < c.entries@.len() ==> #[trigger] c.entries@[i] == 0,
            forall|i: int, board: u64, depth: int| 0 <= i < c.buckets ==> #[trigger] lookup_result(c.entries@, i, board, depth) is None,
    {
        let mut entries = Vec::new();
        while entries.len() < MAX_CACHE_BUCKETS * CACHE_WAYS
            invariant
                entries@.len() <= MAX_CACHE_BUCKETS * CACHE_WAYS,
                forall|i: int| 0 <= i < entries@.len() ==> #[trigger] entries@[i] == 0,
            decreases MAX_CACHE_BUCKETS * CACHE_WAYS - entries@.len(),
        {
            entries.push(0);
        }
        proof {
            lemma_pow2_19();
        }
        let c = Self { entries, buckets: MAX_CACHE_BUCKETS, mask: (MAX_CACHE_BUCKETS - 1) as u64 };
        proof {
            assert forall|i: int, board: u64, depth: int| 0 <= i < c.buckets implies #[trigger] lookup_result(c.entries@, i, board, depth) is None by {
                lemma_empty_bucket_misses(c.entries@, i, board, depth);
            }
        }
        c
    }

    /// Empties the ways of the buckets in use.
    pub fn clear(&mut self)
        requires
            old(self).wf(),
        ensures
            final(self).wf(),
            final(self).buckets == old(self).buckets,
            final(self).mask == old(self).mask,
            final(self).entries@.len() == old(self).entries@.len(),
            forall|i: int| 0 <= i < old(self).buckets * 8 ==> #[trigger] final(self).entries@[i] == 0,
            forall|i: int| old(self).buckets * 8 <= i < old(self).entries@.len() ==> #[trigger] final(self).entries@[i] == old(self).entries@[i],
            forall|i: int, board: u64, depth: int| 0 <= i < final(self).buckets ==> #[trigger] lookup_result(final(self).entries@, i, board, depth) is None,
    {
        let n = self.buckets * CACHE_WAYS;
        let mut i = 0usize;
        while i < n
            invariant
                n == self.buckets * 8,
                self.wf(),
                self.buckets == old(self).buckets,
                self.mask == old(self).mask,
                i <= n,
                self.entries@.len() == old(self).entries@.len(),
                forall|t: int| 0 <= t < i ==> #[trigger] self.entries@[t] == 0,
                forall|t: int| i <= t < self.entries@.len() ==> #[trigger] self.entries@[t] == old(self).entries@[t],
            decreases n - i,
        {
            self.entries.set(i, 0);
            i += 1;
        }
        proof {
            assert forall|k: int, board: u64, depth: int| 0 <= k < self.buckets implies #[trigger] lookup_result(self.entries@, k, board, depth) is None by {
                lemma_empty_bucket_misses(self.entries@, k, board, depth);
            }
        }
    }

    /// Uses `buckets` buckets, rounded up to a power of two and kept between
    /// 1 and the table's size, and empties them.
    pub fn reset(&mut self, buckets: usize)
        requires
            old(self).wf(),
        ensures
            final(self).wf(),
            final(self).buckets >= if buckets < 1 { 1 } else if buckets > MAX_CACHE_BUCKETS { MAX_CACHE_BUCKETS as int } else { buckets as int },
            final(self).buckets == 1 || final(self).buckets / 2 < if buckets < 1 { 1 } else if buckets > MAX_CACHE_BUCKETS { MAX_CACHE_BUCKETS as int } else { buckets as int },
            is_pow2(buckets as int) && buckets <= MAX_CACHE_BUCKETS ==> final(self).buckets == buckets,
            final(self).entries@.len() == old(self).entries@.len(),
            forall|i: int| 0 <= i < final(self).buckets * 8 ==> #[trigger] final(self).entries@[i] == 0,
            forall|i: int| final(self).buckets * 8 <= i < old(self).entries@.len() ==> #[trigger] final(self).entries@[i] == old(self).entries@[i],
            forall|i: int, board: u64, depth: int| 0 <= i < final(self).buckets ==> #[trigger] lookup_result(final(self).entries@, i, board, depth) is None,
    {
        let target = if buckets < MAX_CACHE_BUCKETS { buckets } else { MAX_CACHE_BUCKETS };
        let target = if target > 1 { target } else { 1 };
        let mut p = 1usize;
        proof {
            lemma_pow2_19();
        }
        while p < target
            invariant
                1 <= target <= MAX_CACHE_BUCKETS,
                1 <= p <= MAX_CACHE_BUCKETS,
                is_pow2(p as int),
                p == 1 || p / 2 < target,
            decreases MAX_CACHE_BUCKETS - p,
        {
            proof {
                lemma_pow2_below_max(p as int);
            }
            p = p * 2;
            proof {
                assert((p as int) / 2 == p / 2);
                assert(is_pow2(p as int)) by {
                    assert((p as int) % 2 == 0);
                }
            }
        }
        proof {
            if is_pow2(buckets as int) && buckets <= MAX_CACHE_BUCKETS && p > buckets {
                lemma_pow2_double_le(buckets as int, p as int);
            }
        }
        self.buckets = p;
        self.mask = (p - 1) as u64;
        self.clear();
    }

    /// The bucket of a board.
    pub fn hash(&self, board: Board) -> (b: usize)
        requires
            self.wf(),
        ensures
            b == board_bucket(board, self.mask),
            b < self.buckets,
    {
        let h = ((board ^ (board >> 27)).wrapping_mul(0x1a85_ec53).wrapping_add(board) >> 23) & self.mask;
        proof {
            lemma_and_le(((board ^ (board >> 27u64)).wrapping_mul(0x1a85_ec53).wrapping_add(board) >> 23u64), self.mask);
        }
        h as usize
    }

    /// The score cached for a board in a bucket, from the first way holding the
    /// board's signature at a depth of at least `depth`.
    pub fn lookup(&self, bucket_idx: usize, board: Board, depth: i32) -> (r: Option<i32>)
        requires
            self.wf(),
            bucket_idx < MAX_CACHE_BUCKETS,
        ensures
            r == lookup_result(self.entries@, bucket_idx as int, board, depth as int),
    {
        let ghost ways = bucket_ways(self.entries@, bucket_idx as int);
        let sig = Self::signature(board);
        let start = bucket_idx * CACHE_WAYS;
        let mut i = 0usize;
        while i < CACHE_WAYS
            invariant
                self.wf(),
                start == bucket_idx * 8,
                bucket_idx < MAX_CACHE_BUCKETS,
                ways == bucket_ways(self.entries@, bucket_idx as int),
                sig == board_signature(board),
                i <= 8,
                first_hit_from(ways, sig, depth as int, 0) == first_hit_from(ways, sig, depth as int, i as int),
            decreases 8 - i,
        {
            let entry = self.entries[start + i];
            assert(entry == ways[i as int]);
            if entry == 0 || (entry >> 32) as u32 != sig {
                i += 1;
                continue;
            }
            proof {
                lemma_and_le(entry >> 6u64, 0x3f);
                lemma_and_le(entry >> 12u64, 0xfffff);
            }
            let cached_depth = ((entry >> 6) & 0x3f) as i32;
            if cached_depth >= depth {
                return Some(((entry >> 12) & 0xfffff) as i32 - 524288);
            }
            i += 1;
        }
        None
    }

    /// Records a score for a board in a bucket. A score at or below
    /// `-dead_score + 32` is recorded as searched to depth 63. If a way holds
    /// the board's signature, it is replaced only by a deeper search; else the
    /// new entry goes into the last empty way, or into the first way of least
    /// effort.
    #[verifier::spinoff_prover]
    #[verifier::rlimit(40)]
    pub fn update(
        &mut self,
        bucket_idx: usize,
        board: Board,
        depth: i32,
        score: i32,
        dead_score: i32,
        subtree_nodes: u64,
    )
        requires
            old(self).wf(),
            bucket_idx < MAX_CACHE_BUCKETS,
            dead_score > i32::MIN,
            -dead_score + 32 <= i32::MAX,
            score + 524288 <= i32::MAX,
        ensures
            final(self).wf(),
            final(self).buckets == old(self).buckets,
            final(self).mask == old(self).mask,
            final(self).entries@ == updated_entries(old(self).entries@, bucket_idx as int, board, depth as int, score, dead_score as int, subtree_nodes),
    {
        let ghost ways = bucket_ways(self.entries@, bucket_idx as int);
        let ghost old_depth = depth;
        let mut depth = depth;
        if score <= -dead_score + 32 {
            depth = 63;
        }
        let sig = Self::signature(board);
        let pack_depth = depth.max(0).min(63) as u64;
        let nodes = subtree_nodes.max(1);
        proof {
            axiom_u64_leading_zeros(nodes);
        }
        let pack_effort = 63 - nodes.leading_zeros() as u64;
        let pack_score = ((score + 524288) as u64) & 0xfffff;
        proof {
            lemma_and_le((score + 524288) as u64, 0xfffff);
        }
        let new_entry = ((sig as u64) << 32) | (pack_score << 12) | (pack_depth << 6) | pack_effort;
        let ghost d: int = if score <= -dead_score + 32 { 63 } else { old_depth as int };
        let ghost pd: int = if d < 0 { 0 } else if d > 63 { 63 } else { d };
        let ghost nodes_spec: u64 = if subtree_nodes > 1 { subtree_nodes } else { 1 };
        assert(new_entry == packed_entry(sig, score, pd, (63 - u64_leading_zeros(nodes_spec)) as u64)) by {
            reveal(packed_entry);
        }
        assert(depth == d);
        let start = bucket_idx * CACHE_WAYS;
        let (found, replace) = self.scan_ways(bucket_idx, sig);
        if found < CACHE_WAYS {
            let entry = self.entries[start + found];
            proof {
                lemma_and_le(entry >> 6u64, 0x3f);
            }
            if depth > ((entry >> 6) & 0x3f) as i32 {
                self.entries.set(start + found, new_entry);
            }
            return;
        }
        assert(first_match_from(ways, sig, 0) < 0);
        assert(replace == replace_target(ways, 8));
        self.entries.set(start + replace, new_entry);
        assert(self.entries@ == old(self).entries@.update(start + replace_target(ways, 8), new_entry));
    }

    /// The scan of a bucket's ways that `update` makes: the first way holding
    /// the signature (8 if none does), and the way a new signature would go into.
    fn scan_ways(&self, bucket_idx: usize, sig: u32) -> (r: (usize, usize))
        requires
            self.wf(),
            bucket_idx < MAX_CACHE_BUCKETS,
        ensures
            ({
                let ways = bucket_ways(self.entries@, bucket_idx as int);
                let w = first_match_from(ways, sig, 0);
                &&& w >= 0 ==> r.0 == w && w < 8
                &&& w < 0 ==> r.0 == 8 && r.1 == replace_target(ways, 8)
                &&& r.1 < 8
            }),
    {
        let ghost ways = bucket_ways(self.entries@, bucket_idx as int);
        let start = bucket_idx * CACHE_WAYS;
        let mut replace = start;
        let mut idx = start;
        while idx < start + CACHE_WAYS
            invariant
                self.wf(),
                start == bucket_idx * 8,
                bucket_idx < MAX_CACHE_BUCKETS,
                ways == bucket_ways(self.entries@, bucket_idx as int),
                start <= idx <= start + 8,
                start <= replace < start + 8,
                first_match_from(ways, sig, 0) == first_match_from(ways, sig, idx - start),
                idx == start ==> replace == start,
                idx > start ==> replace - start == replace_target(ways, idx - start),
            decreases start + 8 - idx,
        {
            let entry = self.entries[idx];
            assert(entry == ways[idx - start]);
            proof {
                lemma_target_step(ways, idx - start, replace - start);
            }
            if entry == 0 {
                replace = idx;
                idx += 1;
                continue;
            }
            if (entry >> 32) as u32 == sig {
                return (idx - start, replace - start);
            }
            if (entry & 0x3f) < (self.entries[replace] & 0x3f) {
                replace = idx;
            }
            idx += 1;
        }
        (CACHE_WAYS, replace - start)
    }

    /// The 32-bit signature of a board.
    pub fn signature(board: Board) -> (s: u32)
        ensures
            s == board_signature(board),
    {
        ((board ^ (board >> 31)).wrapping_mul(0x1a7d_af1b).wrapping_add(board) >> 21) as u32
    }
}

pub proof fn lemma_and_le(x: u64, m: u64)
    by (bit_vector)
    ensures
        x & m <= m,
        0u64 & 0x3f == 0,
{
}

proof fn lemma_pack_bits(sig: u64, s: u64, d: u64, e: u64, entry: u64)
    by (bit_vector)
    requires
        sig < 0x1_0000_0000,
        s <= 0xfffff,
        d <= 63,
        e <= 63,
        entry == (sig << 32u64) | (s << 12u64) | (d << 6u64) | e,
    ensures
        (entry >> 32u64) == sig,
        (entry >> 12u64) & 0xfffff == s,
        (entry >> 6u64) & 0x3f == d,
        entry & 0x3f == e,
{
}

proof fn lemma_score_field(x: i32)
    by (bit_vector)
    requires
        0 <= x < 0x100000,
    ensures
        ((x as u64) & 0xfffff) == x as u64,
{
}

proof fn lemma_last_empty_is_empty(ways: Seq<u64>, n: int)
    requires
        last_empty(ways, n) >= 0,
    ensures
        0 <= last_empty(ways, n) < n,
        ways[last_empty(ways, n)] == 0,
    decreases n,
{
    if n > 0 && ways[n - 1] != 0 {
        lemma_last_empty_is_empty(ways, n - 1);
    }
}

proof fn lemma_target_step(ways: Seq<u64>, i: int, r: int)
    requires
        0 <= i < ways.len(),
        0 <= r < ways.len(),
        i == 0 ==> r == 0,
        i > 0 ==> r == replace_target(ways, i),
    ensures
        ways[i] == 0 ==> replace_target(ways, i + 1) == i,
        ways[i] != 0 ==> replace_target(ways, i + 1) == if entry_effort(ways[i]) < entry_effort(ways[r]) { i } else { r },
{
    lemma_and_le(0, 0);
    if ways[i] != 0 {
        assert(last_empty(ways, i + 1) == last_empty(ways, i));
        if i == 0 {
            assert(last_empty(ways, 0) == -1);
            assert(least_effort(ways, 1) == 0);
        } else if last_empty(ways, i) >= 0 {
            lemma_last_empty_is_empty(ways, i);
            assert(entry_effort(ways[r]) == 0);
        } else {
            assert(least_effort(ways, i + 1) == if entry_effort(ways[i]) < entry_effort(ways[least_effort(ways, i)]) { i } else { least_effort(ways, i) });
        }
    }
}

proof fn lemma_pow2_19()
    ensures
        is_pow2(MAX_CACHE_BUCKETS as int),
        is_pow2(1),
{
    reveal_with_fuel(is_pow2, 21);
}

proof fn lemma_pow2_below_max(p: int)
    requires
        is_pow2(p),
        1 <= p < MAX_CACHE_BUCKETS,
    ensures
        2 * p <= MAX_CACHE_BUCKETS,
{
    lemma_pow2_19();
    lemma_pow2_double_le(p, MAX_CACHE_BUCKETS as int);
}

/// A power of two below another is at most half of it.
proof fn lemma_pow2_double_le(p: int, b: int)
    requires
        is_pow2(p),
        is_pow2(b),
        p < b,
    ensures
        2 * p <= b,
    decreases p,
{
    if p > 1 {
        lemma_pow2_double_le(p / 2, b / 2);
    }
}


/// Before the first way that holds a signature no way holds it; with none, no way does.
proof fn lemma_first_match_facts(ways: Seq<u64>, sig: u32, j: int)
    requires
        0 <= j,
    ensures
        first_match_from(ways, sig, j) >= 0 ==> j <= first_match_from(ways, sig, j) < ways.len()
            && way_matches(ways[first_match_from(ways, sig, j)], sig),
        forall|i: int| j <= i < ways.len() && (first_match_from(ways, sig, j) < 0 || i < first_match_from(ways, sig, j))
            ==> !way_matches(#[trigger] ways[i], sig),
    decreases ways.len() - j,
{
    if j < ways.len() && !way_matches(ways[j], sig) {
        lemma_first_match_facts(ways, sig, j + 1);
    }
}

/// The first hit is a way that holds the signature deep enough when no way before it holds the signature.
proof fn lemma_first_hit_at(ways: Seq<u64>, sig: u32, q: int, j: int, w: int)
    requires
        0 <= j <= w < ways.len(),
        forall|i: int| j <= i < w ==> !way_matches(#[trigger] ways[i], sig),
        way_matches(ways[w], sig),
        entry_depth(ways[w]) >= q,
    ensures
        first_hit_from(ways, sig, q, j) == w,
    decreases w - j,
{
    if j < w {
        lemma_first_hit_at(ways, sig, q, j + 1, w);
    }
}

/// The fields of a packed entry are the values packed.
proof fn lemma_packed_fields(sig: u32, score: i32, d: int, effort: u64)
    requires
        -524288 <= score < 524288,
        0 <= d <= 63,
        effort <= 63,
    ensures
        entry_sig(packed_entry(sig, score, d, effort)) == sig,
        entry_depth(packed_entry(sig, score, d, effort)) == d,
        entry_score(packed_entry(sig, score, d, effort)) == score,
        entry_effort(packed_entry(sig, score, d, effort)) == effort,
        packed_entry(sig, score, d, effort) == 0 ==> sig == 0 && score == -524288 && d == 0 && effort == 0,
{
    reveal(packed_entry);
    let x: i32 = (score + 524288) as i32;
    lemma_score_field(x);
    let s: u64 = (x as u64) & 0xfffff;
    let e = packed_entry(sig, score, d, effort);
    lemma_pack_bits(sig as u64, s, d as u64, effort, e);
    if e == 0 {
        assert((0u64 >> 32u64) == 0 && (0u64 >> 12u64) & 0xfffff == 0 && (0u64 >> 6u64) & 0x3f == 0 && 0u64 & 0x3f == 0) by (bit_vector);
    }
}

/// The effort of a subtree of one node is 0, of a larger one positive.
proof fn lemma_effort_zero(nodes: u64)
    requires
        nodes >= 1,
    ensures
        63 - u64_leading_zeros(nodes) == 0 ==> nodes == 1,
        0 <= 63 - u64_leading_zeros(nodes) <= 63,
{
    axiom_u64_leading_zeros(nodes);
    if nodes >= 2 {
        axiom_u64_leading_zeros(nodes / 2);
        reveal(u64_leading_zeros);
        assert(u64_leading_zeros(nodes) == u64_leading_zeros(nodes / 2) - 1);
    }
}

/// A recorded score is found again. After a score is recorded for a board in
/// a bucket (unless a way already held the board from a search at least as
/// deep), a lookup of the board in that bucket at any depth up to the one
/// recorded gives the score back; lookups in the other buckets are unchanged.
pub proof fn lemma_update_then_lookup(
    entries: Seq<u64>,
    bucket: int,
    board: u64,
    depth: int,
    score: i32,
    dead_score: int,
    subtree_nodes: u64,
    q: int,
)
    requires
        entries.len() == MAX_CACHE_BUCKETS * CACHE_WAYS,
        0 <= bucket < MAX_CACHE_BUCKETS,
        -524288 <= score < 524288,
        q <= packed_depth(recorded_depth(depth, score as int, dead_score)),
        ({
            let ways = bucket_ways(entries, bucket);
            let w = first_match_from(ways, board_signature(board), 0);
            w < 0 || recorded_depth(depth, score as int, dead_score) > entry_depth(ways[w])
        }),
        !(board_signature(board) == 0 && score == -524288 && packed_depth(recorded_depth(depth, score as int, dead_score)) == 0
            && subtree_nodes <= 1),
    ensures
        lookup_result(updated_entries(entries, bucket, board, depth, score, dead_score, subtree_nodes), bucket, board, q)
            == Some(score),
        forall|b2: int| 0 <= b2 < MAX_CACHE_BUCKETS && b2 != bucket ==> #[trigger] bucket_ways(
            updated_entries(entries, bucket, board, depth, score, dead_score, subtree_nodes), b2) == bucket_ways(entries, b2),
{
    let ways = bucket_ways(entries, bucket);
    let sig = board_signature(board);
    let d = recorded_depth(depth, score as int, dead_score);
    let pd = packed_depth(d);
    let nodes: u64 = if subtree_nodes > 1 { subtree_nodes } else { 1 };
    let effort = (63 - u64_leading_zeros(nodes)) as u64;
    lemma_effort_zero(nodes);
    let e = new_cache_entry(board, depth, score, dead_score, subtree_nodes);
    lemma_packed_fields(sig, score, pd, effort);
    assert(e != 0);
    let m = first_match_from(ways, sig, 0);
    lemma_first_match_facts(ways, sig, 0);
    let w = if m >= 0 { m } else { replace_target(ways, 8) };
    if m < 0 {
        lemma_replace_target_bound(ways);
    }
    let new_entries = updated_entries(entries, bucket, board, depth, score, dead_score, subtree_nodes);
    assert(new_entries == entries.update(bucket * 8 + w, e));
    let nw = bucket_ways(new_entries, bucket);
    assert(nw =~= ways.update(w, e));
    assert forall|i: int| 0 <= i < w implies !way_matches(#[trigger] nw[i], sig) by {
        assert(nw[i] == ways[i]);
    }
    lemma_first_hit_at(nw, sig, q, 0, w);
    assert forall|b2: int| 0 <= b2 < MAX_CACHE_BUCKETS && b2 != bucket implies #[trigger] bucket_ways(new_entries, b2) == bucket_ways(entries, b2) by {
        assert(bucket_ways(new_entries, b2) =~= bucket_ways(entries, b2));
    }
}

/// No way from `j` on that holds the signature deep enough: no hit.
proof fn lemma_no_hit_from(ways: Seq<u64>, sig: u32, q: int, j: int)
    requires
        0 <= j,
        forall|i: int| j <= i < ways.len() ==> !(way_matches(#[trigger] ways[i], sig) && entry_depth(ways[i]) >= q),
    ensures
        first_hit_from(ways, sig, q, j) == -1,
    decreases ways.len() - j,
{
    if j < ways.len() {
        lemma_no_hit_from(ways, sig, q, j + 1);
    }
}

/// A recorded score is not found deeper than it was recorded. When no way of
/// the bucket held the board, after its score is recorded a lookup of the
/// board in that bucket at a depth above the recorded one finds nothing.
pub proof fn lemma_update_then_deeper_lookup(
    entries: Seq<u64>,
    bucket: int,
    board: u64,
    depth: int,
    score: i32,
    dead_score: int,
    subtree_nodes: u64,
    q: int,
)
    requires
        entries.len() == MAX_CACHE_BUCKETS * CACHE_WAYS,
        0 <= bucket < MAX_CACHE_BUCKETS,
        -524288 <= score < 524288,
        q > packed_depth(recorded_depth(depth, score as int, dead_score)),
        first_match_from(bucket_ways(entries, bucket), board_signature(board), 0) < 0,
    ensures
        lookup_result(updated_entries(entries, bucket, board, depth, score, dead_score, subtree_nodes), bucket, board, q)
            is None,
{
    let ways = bucket_ways(entries, bucket);
    let sig = board_signature(board);
    let d = recorded_depth(depth, score as int, dead_score);
    let pd = packed_depth(d);
    let nodes: u64 = if subtree_nodes > 1 { subtree_nodes } else { 1 };
    let effort = (63 - u64_leading_zeros(nodes)) as u64;
    lemma_effort_zero(nodes);
    let e = new_cache_entry(board, depth, score, dead_score, subtree_nodes);
    lemma_packed_fields(sig, score, pd, effort);
    lemma_first_match_facts(ways, sig, 0);
    let w = replace_target(ways, 8);
    lemma_replace_target_bound(ways);
    let new_entries = updated_entries(entries, bucket, board, depth, score, dead_score, subtree_nodes);
    assert(new_entries == entries.update(bucket * 8 + w, e));
    let nw = bucket_ways(new_entries, bucket);
    assert(nw =~= ways.update(w, e));
    assert forall|i: int| 0 <= i < nw.len() implies !(way_matches(#[trigger] nw[i], sig) && entry_depth(nw[i]) >= q) by {
        if i != w {
            assert(nw[i] == ways[i]);
        }
    }
    lemma_no_hit_from(nw, sig, q, 0);
}

/// An empty bucket answers no lookup.
pub proof fn lemma_empty_bucket_misses(entries: Seq<u64>, bucket: int, board: u64, depth: int)
    requires
        0 <= bucket,
        bucket * 8 + 8 <= entries.len(),
        forall|i: int| bucket * 8 <= i < bucket * 8 + 8 ==> #[trigger] entries[i] == 0,
    ensures
        lookup_result(entries, bucket, board, depth) is None,
{
    let ways = bucket_ways(entries, bucket);
    assert forall|i: int| 0 <= i < ways.len() implies !(way_matches(#[trigger] ways[i], board_signature(board))
        && entry_depth(ways[i]) >= depth) by {
        assert(ways[i] == entries[bucket * 8 + i]);
    }
    lemma_no_hit_from(ways, board_signature(board), depth, 0);
}

/// The way a new signature goes into is one of the bucket's eight.
proof fn lemma_replace_target_bound(ways: Seq<u64>)
    requires
        ways.len() == 8,
    ensures
        0 <= replace_target(ways, 8) < 8,
{
    lemma_least_effort_bound(ways, 8);
    if last_empty(ways, 8) >= 0 {
        lemma_last_empty_is_empty(ways, 8);
    }
}

proof fn lemma_least_effort_bound(ways: Seq<u64>, n: int)
    requires
        n >= 1,
    ensures
        0 <= least_effort(ways, n) < n,
    decreases n,
{
    if n > 1 {
        lemma_least_effort_bound(ways, n - 1);
    }
}

} // verus!
