//! Tablebase lookups for the four engine moves of a board: the table of the
//! requested type, the layer and the compressed key each move asks for, and
//! the 16-bit rate the table holds for it. Turning a stored rate into a win
//! rate (a 32-bit float between the table's bounds) is left to the caller.

use vstd::prelude::*;
use crate::board::Board;
use crate::tables::Tables;
use crate::endgame::moves::{internal_dir, execute_internal_move};
use crate::endgame::player::{move_result, lemma_move_result, diag_mirror, lemma_diag_mirror};
use crate::endgame::stats::{board_sum, get_board_sum};
use crate::endgame::symmetry::{canonical_diagonal, is_symmetry, reverse_lr, lemma_symmetry_unique, lemma_symmetry_inverse, lemma_has_image};
use crate::endgame::masks::{mask_large_tiles, masked_upto};
use crate::endgame::rules::trem;
use crate::endgame::format::{compress_board, compressed_value};
use crate::endgame::eval::tdiv;
use crate::endgame::tablebase::{
    Tablebase,
    Table,
    TableSpec,
    layer_in_blob,
    perfect_hash_lookup,
    query_perfect_hash,
    DIAGONAL_CANONICAL_FLAG,
};

verus! {

/// The one board whose first move is known to win without a lookup.
pub const FIXED_RATE_BOARD: u64 = 0x0124_1256_7fff_8fff;

/// What the tablebase gives the four engine moves of a board.
pub enum MoveRates {
    /// The board is `FIXED_RATE_BOARD`: its first move wins at a fixed rate.
    Fixed,
    /// No table has the requested type.
    NoTable,
    /// The index of the first table of the type, the stored rate each move
    /// found (indexed by engine move minus one), and how many lookups were
    /// made.
    Found { table: usize, rates: [Option<u16>; 4], queries: u64 },
}

/// The board and table type a probe of a masked board uses instead, for a
/// board sum just under 65536: above 65280 and under 65436, the tiles of rank
/// 8 and up masked as 15 and type 1256; above 65000 and under 65280, those of
/// rank 9 and up masked as 8 and type 512; `None` otherwise.
pub fn l3_override(masked_board: Board, board_sum: i32) -> (r: Option<(Board, u32)>)
    ensures
        65280 < board_sum < 65436 ==> r == Some((masked_upto(masked_board, 8, 15, 16), 1256u32)),
        65000 < board_sum < 65280 ==> r == Some((masked_upto(masked_board, 9, 8, 16), 512u32)),
        !(65000 < board_sum < 65436) || board_sum == 65280 ==> r is None,
{
    if 65280 < board_sum && board_sum < 65436 {
        Some((mask_large_tiles(masked_board, 8, 0xf), 1256))
    } else if 65000 < board_sum && board_sum < 65280 {
        Some((mask_large_tiles(masked_board, 9, 0x8), 512))
    } else {
        None
    }
}

/// The board mirrored left to right.
pub open spec fn lr_mirror(b: u64) -> u64 {
    choose|t: u64| is_symmetry(t, b, 4)
}

/// The board the 4-4-128 table is asked about, for a board sum above 63000
/// whose remainder modulo 512 lies strictly between 390 and 480: with the
/// tiles of rank 7 and up masked as 15, when that fills the two rows of
/// bits 0 to 31, the upper two rows of its left-right mirror over the fixed
/// rows 0x7fff_8fff; `None` otherwise.
pub fn board_44_128(masked_board: Board, board_sum: i32) -> (r: Option<Board>)
    ensures
        ({
            let remask = masked_upto(masked_board, 7, 15, 16);
            &&& r is Some <==> 390 < trem(board_sum as int, 512) < 480 && board_sum > 63000 && remask & 0xffff_ffff
                == 0xffff_ffff
            &&& r is Some ==> r->Some_0 == (lr_mirror(remask) & 0xffff_ffff_0000_0000) + 0x7fff_8fff
        }),
{
    if 390 < (board_sum % 512) && (board_sum % 512) < 480 && board_sum > 63000 {
        let remask = mask_large_tiles(masked_board, 7, 0xf);
        if (remask & 0xffff_ffff) != 0xffff_ffff {
            return None;
        }
        let mirrored = reverse_lr(remask);
        proof {
            lemma_lr_mirror(remask, mirrored);
            lemma_high_half_room(mirrored);
        }
        Some((mirrored & 0xffff_ffff_0000_0000) + 0x7fff_8fff)
    } else {
        None
    }
}

proof fn lemma_lr_mirror(b: u64, t: u64)
    requires
        is_symmetry(t, b, 4),
    ensures
        lr_mirror(b) == t,
{
    let m = lr_mirror(b);
    assert(is_symmetry(m, b, 4));
    lemma_symmetry_unique(b, m, t, 4);
}

proof fn lemma_high_half_room(x: u64)
    by (bit_vector)
    ensures
        (x & 0xffff_ffff_0000_0000) + 0x7fff_8fff <= u64::MAX,
{
}

/// The index of the first table at or after `i` with type `table_type`, or
/// -1 when there is none.
pub open spec fn first_table_from(specs: Seq<TableSpec>, table_type: u32, i: int) -> int
    decreases specs.len() - i,
{
    if i < 0 || i >= specs.len() {
        -1
    } else if specs[i].table_type == table_type {
        i
    } else {
        first_table_from(specs, table_type, i + 1)
    }
}

/// The board a table is asked about: when the table is keyed by the
/// diagonal-canonical form, the smaller of the board and its mirror.
pub open spec fn query_board(t: TableSpec, b: u64) -> u64 {
    if t.flags & DIAGONAL_CANONICAL_FLAG != 0 {
        if b <= diag_mirror(b) {
            b
        } else {
            diag_mirror(b)
        }
    } else {
        b
    }
}

/// A diagonal-canonical table is asked about a board and its mirror in the
/// main diagonal in the same form, so both find the same entries; and that
/// form is its own form.
pub proof fn lemma_query_board_mirror(t: TableSpec, b: u64)
    requires
        t.flags & DIAGONAL_CANONICAL_FLAG != 0,
    ensures
        query_board(t, diag_mirror(b)) == query_board(t, b),
        query_board(t, query_board(t, b)) == query_board(t, b),
{
    lemma_has_image(b, 6);
    let m = diag_mirror(b);
    lemma_has_image(m, 6);
    lemma_symmetry_inverse(b, m, diag_mirror(m), 6);
}

/// The compressed key of a board (see `compress_board`).
pub open spec fn board_key(b: u64) -> u32 {
    (compressed_value(b, 10) % 0x1_0000_0000) as u32
}

/// The lookup for engine move `m` of `target` in table `t`. `None` where the
/// 32-bit arithmetic overflows: the moved board's sum (modulo 32768) less
/// the table's first sum, or the key's signature sum. Otherwise whether a
/// lookup is made (the move changes the board and the key is not zero) and
/// what it finds, in the layer of half that difference.
#[verifier::opaque]
pub open spec fn move_lookup(blob: Seq<u8>, t: TableSpec, target: u64, m: int) -> Option<(bool, Option<u16>)> {
    let post = move_result(target, internal_dir(m));
    let diff = board_sum(post) % 32768 - t.initial_sum;
    let key = board_key(query_board(t, post));
    if post == target {
        Some((false, None))
    } else if diff < i32::MIN || diff > i32::MAX {
        None
    } else if key == 0 {
        Some((false, None))
    } else if key + (key >> 8u32) + (key >> 16u32) + (key >> 24u32) > u32::MAX {
        None
    } else {
        Some((true, perfect_hash_lookup(blob, t.layers, key, tdiv(diff, 2) as i32)))
    }
}

/// Whether the lookup for one of the first `n` engine moves overflows.
pub open spec fn any_overflow(blob: Seq<u8>, t: TableSpec, target: u64, n: int) -> bool
    decreases n,
{
    if n <= 0 {
        false
    } else {
        any_overflow(blob, t, target, n - 1) || move_lookup(blob, t, target, n) is None
    }
}

/// How many of the first `n` engine moves make a lookup.
pub open spec fn lookups_made(blob: Seq<u8>, t: TableSpec, target: u64, n: int) -> int
    decreases n,
{
    if n <= 0 {
        0
    } else {
        lookups_made(blob, t, target, n - 1) + if move_lookup(blob, t, target, n) is Some && move_lookup(
            blob,
            t,
            target,
            n,
        )->Some_0.0 {
            1int
        } else {
            0int
        }
    }
}

/// An overflow for one move is an overflow for the four.
proof fn lemma_overflow_stays(blob: Seq<u8>, t: TableSpec, target: u64, n: int)
    requires
        1 <= n <= 4,
        move_lookup(blob, t, target, n) is None,
    ensures
        any_overflow(blob, t, target, 4),
{
    if n < 4 {
        lemma_overflow_stays_up(blob, t, target, n, 4);
    }
}

proof fn lemma_overflow_stays_up(blob: Seq<u8>, t: TableSpec, target: u64, n: int, k: int)
    requires
        1 <= n <= k,
        any_overflow(blob, t, target, n) || move_lookup(blob, t, target, n) is None,
    ensures
        any_overflow(blob, t, target, k),
    decreases k - n,
{
    if n < k {
        lemma_overflow_stays_up(blob, t, target, n + 1, k);
    }
}

/// `r` holds, for table `ti`, the rate each engine move's lookup found and
/// the number of lookups made.
pub open spec fn found_rates(blob: Seq<u8>, t: TableSpec, target: u64, ti: int, r: MoveRates) -> bool {
    &&& r is Found
    &&& r->table == ti
    &&& r->queries == lookups_made(blob, t, target, 4)
    &&& forall|k: int| 0 <= k < 4 ==> #[trigger] r->rates@[k] == move_lookup(blob, t, target, k + 1)->Some_0.1
}

/// The lookup for engine move `m` of `target_board` in `table` (see
/// `move_lookup`).
fn lookup_move(tables: &Tables, tablebase: &Tablebase, table: &Table, target_board: Board, m: usize) -> (r: Option<(bool, Option<u16>)>)
    requires
        tables.wf(),
        1 <= m <= 4,
        forall|l: int| 0 <= l < table.layers@.len() ==> layer_in_blob(tablebase.blob@.len() as int, #[trigger] table.layers@[l]),
    ensures
        r == move_lookup(tablebase.blob@, table.spec(), target_board, m as int),
{
    reveal(move_lookup);
    let post = execute_internal_move(tables, target_board, m);
    proof {
        lemma_move_result(target_board, internal_dir(m as int), post);
    }
    if post == target_board {
        return Some((false, None));
    }
    let sum = get_board_sum(post) % 32768;
    let diff = sum as i64 - table.initial_sum as i64;
    if diff < i32::MIN as i64 || diff > i32::MAX as i64 {
        return None;
    }
    let layer = (diff as i32) / 2;
    let query = if table.flags & DIAGONAL_CANONICAL_FLAG != 0 {
        let c = canonical_diagonal(post);
        proof {
            let w = choose|w: u64| is_symmetry(w, post, 6) && c == if post <= w { post } else { w };
            lemma_diag_mirror(post, w);
        }
        c
    } else {
        post
    };
    let key = compress_board(query);
    if key == 0 {
        return Some((false, None));
    }
    if key as u64 + (key >> 8) as u64 + (key >> 16) as u64 + (key >> 24) as u64 > u32::MAX as u64 {
        return None;
    }
    Some((true, query_perfect_hash(tablebase, table, key, layer)))
}

/// What the first table of type `table_type` holds for the four engine moves
/// of `target_board`: a fixed answer for `FIXED_RATE_BOARD`, none without
/// such a table, else the rate each move's lookup finds. `None` exactly when
/// a lookup's arithmetic overflows (see `move_lookup`).
pub fn move_rates(tables: &Tables, tablebase: &Tablebase, target_board: Board, table_type: u32) -> (r: Option<MoveRates>)
    requires
        tables.wf(),
        tablebase.wf(),
    ensures
        target_board == FIXED_RATE_BOARD ==> r == Some(MoveRates::Fixed),
        target_board != FIXED_RATE_BOARD && first_table_from(tablebase.specs(), table_type, 0) < 0 ==> r == Some(
            MoveRates::NoTable,
        ),
        target_board != FIXED_RATE_BOARD && first_table_from(tablebase.specs(), table_type, 0) >= 0 ==> {
            let ti = first_table_from(tablebase.specs(), table_type, 0);
            let t = tablebase.specs()[ti];
            &&& r is None <==> any_overflow(tablebase.blob@, t, target_board, 4)
            &&& r is Some ==> found_rates(tablebase.blob@, t, target_board, ti, r->Some_0)
        },
{
    if target_board == FIXED_RATE_BOARD {
        return Some(MoveRates::Fixed);
    }
    let ghost specs = tablebase.specs();
    let mut ti = 0usize;
    while ti < tablebase.tables.len() && tablebase.tables[ti].table_type != table_type
        invariant
            ti <= tablebase.tables@.len(),
            specs == tablebase.specs(),
            first_table_from(specs, table_type, 0) == first_table_from(specs, table_type, ti as int),
        decreases tablebase.tables@.len() - ti,
    {
        ti += 1;
    }
    if ti == tablebase.tables.len() {
        return Some(MoveRates::NoTable);
    }
    let table = &tablebase.tables[ti];
    let ghost t = table.spec();
    let ghost blob = tablebase.blob@;
    assert(specs[ti as int] == t);
    assert(first_table_from(specs, table_type, 0) == ti);
    let mut rates: [Option<u16>; 4] = [None, None, None, None];
    let mut queries = 0u64;
    let mut m = 1usize;
    while m <= 4
        invariant
            1 <= m <= 5,
            tables.wf(),
            tablebase.wf(),
            t == table.spec(),
            blob == tablebase.blob@,
            ti < tablebase.tables@.len(),
            *table == tablebase.tables@[ti as int],
            target_board != FIXED_RATE_BOARD,
            first_table_from(specs, table_type, 0) == ti,
            specs == tablebase.specs(),
            specs[ti as int] == t,
            !any_overflow(blob, t, target_board, m - 1),
            queries == lookups_made(blob, t, target_board, m - 1),
            queries < m,
            forall|k: int| 0 <= k < m - 1 ==> #[trigger] rates@[k] == move_lookup(blob, t, target_board, k + 1)->Some_0.1,
            forall|k: int| m - 1 <= k < 4 ==> #[trigger] rates@[k] == None::<u16>,
        decreases 5 - m,
    {
        let found = match lookup_move(tables, tablebase, table, target_board, m) {
            Some(f) => f,
            None => {
                proof {
                    lemma_overflow_stays(blob, t, target_board, m as int);
                }
                return None;
            },
        };
        if found.0 {
            queries += 1;
        }
        rates[m - 1] = found.1;
        m += 1;
    }
    Some(MoveRates::Found { table: ti, rates, queries })
}

} // verus!
