use play2048_ai::board::Board;
use play2048_ai::endgame::cache::{SearchCache, CACHE_WAYS};
use play2048_ai::endgame::eval::{diffs_evaluation_func, merge_line_score, move_score, process_score, row_score};
use play2048_ai::endgame::format::{checked_range, compress_board, mix32, read_array, read_i32, read_u16_at, read_u32};
use play2048_ai::endgame::masks::{empty_cell_mask, mask_large_tiles};
use play2048_ai::endgame::mess::{bits, is_mess, positions_allowed, MESS_ALLOWED_3, MESS_ALLOWED_4, MESS_ALLOWED_6};
use play2048_ai::endgame::moves::{execute_internal_move, internal_to_api_move, legalize_internal_move};
use play2048_ai::endgame::rules::{argmax_i32, is_5tiler, large_tile_count, sorted_desc, table_types_for};
use play2048_ai::endgame::stats::{board_sum_from_counts, get_board_sum, max_counts, sum_counts, tile_counts};
use play2048_ai::endgame::symmetry::{
    canonical_diagonal, reverse_lr, reverse_nibbles, reverse_ud, reverse_ul, reverse_ur, rotate180, rotate_l, rotate_r,
    symmetries,
};
use play2048_ai::tables::{execute_move, init_tables};

fn board_from_ranks(ranks: [[u64; 4]; 4]) -> Board {
    let mut board = 0;
    let mut shift = 0;
    for row in ranks {
        for rank in row {
            board |= rank << shift;
            shift += 4;
        }
    }
    board
}

#[test]
fn cache_packs_effort_and_replaces_lowest_effort_entry() {
    let mut cache = SearchCache::new();
    cache.reset(1);
    for board in 1..=8 {
        cache.update(0, board, 3, board as i32, 131072, 1 << (board + 3));
    }

    let start = 0;
    assert!(cache.entries[start..start + CACHE_WAYS]
        .iter()
        .any(|entry| (entry & 0x3f) == 4));

    cache.update(0, 99, 3, 99, 131072, 1 << 20);
    assert!(cache.entries[start..start + CACHE_WAYS]
        .iter()
        .any(|entry| (entry & 0x3f) == 20));
    assert!(!cache.entries[start..start + CACHE_WAYS]
        .iter()
        .any(|entry| (entry & 0x3f) == 4));
}

#[test]
fn cache_gives_back_a_recorded_score() {
    let mut cache = SearchCache::new();
    cache.reset(4096);
    let board = 0x0123_4567_89ab_cdef;
    let bucket = cache.hash(board);
    assert!(bucket < 4096);
    assert_eq!(cache.lookup(bucket, board, 0), None);
    cache.update(bucket, board, 5, -1234, 131072, 1000);
    assert_eq!(cache.lookup(bucket, board, 5), Some(-1234));
    assert_eq!(cache.lookup(bucket, board, 3), Some(-1234));
    assert_eq!(cache.lookup(bucket, board, 6), None);
}

#[test]
fn cache_keeps_the_deeper_entry() {
    let mut cache = SearchCache::new();
    cache.reset(16);
    let board = 0x1111_2222_3333_4444;
    let bucket = cache.hash(board);
    cache.update(bucket, board, 7, 500, 131072, 10);
    cache.update(bucket, board, 4, 900, 131072, 10);
    assert_eq!(cache.lookup(bucket, board, 4), Some(500));
    cache.update(bucket, board, 9, 900, 131072, 10);
    assert_eq!(cache.lookup(bucket, board, 9), Some(900));
}

#[test]
fn cache_records_dead_scores_at_full_depth() {
    let mut cache = SearchCache::new();
    cache.reset(1);
    cache.update(0, 42, 2, -131072, 131072, 1);
    assert_eq!(cache.lookup(0, 42, 63), Some(-131072));
    cache.clear();
    assert_eq!(cache.lookup(0, 42, 0), None);
}

#[test]
fn rotations_undo_each_other() {
    let board = 0xfedc_ba98_7654_3210;
    assert_eq!(rotate_r(rotate_l(board)), board);
    assert_eq!(rotate_l(rotate_r(board)), board);
    assert_eq!(rotate_l(rotate_l(board)), rotate180(board));
    assert_eq!(rotate180(board), reverse_nibbles(board));
    for mirror in [reverse_lr, reverse_ud, reverse_ul, reverse_ur, rotate180] {
        assert_eq!(mirror(mirror(board)), board);
    }
}

#[test]
fn rotate_left_moves_the_top_row_to_the_left_column() {
    let board = board_from_ranks([[1, 2, 3, 4], [0, 0, 0, 0], [0, 0, 0, 0], [0, 0, 0, 0]]);
    assert_eq!(
        rotate_l(board),
        board_from_ranks([[4, 0, 0, 0], [3, 0, 0, 0], [2, 0, 0, 0], [1, 0, 0, 0]])
    );
    assert_eq!(
        reverse_lr(board),
        board_from_ranks([[4, 3, 2, 1], [0, 0, 0, 0], [0, 0, 0, 0], [0, 0, 0, 0]])
    );
}

#[test]
fn symmetries_lists_the_eight_images() {
    let board = 0x0123_4567_89ab_cdef;
    let s = symmetries(board);
    assert_eq!(s[0], board);
    assert_eq!(s[1], rotate_l(board));
    assert_eq!(s[2], rotate180(board));
    assert_eq!(s[3], rotate_r(board));
    assert_eq!(s[4], reverse_lr(board));
    assert_eq!(s[5], reverse_ud(board));
    assert_eq!(s[6], reverse_ul(board));
    assert_eq!(s[7], reverse_ur(board));
    let c = canonical_diagonal(board);
    assert_eq!(c, board.min(reverse_ul(board)));
}

#[test]
fn board_sum_from_counts_matches_direct_sum() {
    for board in [0u64, 0xfedc_ba98_7654_3210, 0x1111_2222_0000_ffff, 0x0000_1234_5678_9abc] {
        assert_eq!(board_sum_from_counts(tile_counts(board)), get_board_sum(board));
    }
    assert_eq!(get_board_sum(0xfedc_ba98_7654_3210), 65534);
    assert_eq!(get_board_sum(0), 0);
    let counts = tile_counts(0x1111_2222_0000_ffff);
    assert_eq!(counts[0], 4);
    assert_eq!(counts[1], 4);
    assert_eq!(counts[2], 4);
    assert_eq!(counts[15], 4);
    assert_eq!(sum_counts(&counts, 1, 16), 12);
    assert_eq!(max_counts(&counts, 3, 15), 0);
    assert_eq!(max_counts(&counts, 0, 16), 4);
}

#[test]
fn reads_little_endian_values_and_reports_errors() {
    let bytes = [0x78u8, 0x56, 0x34, 0x12, 0xff, 0xff, 0xff, 0xff, 0x01];
    let mut pos = 0usize;
    assert_eq!(read_u32(&bytes, &mut pos), Ok(0x1234_5678));
    assert_eq!(pos, 4);
    assert_eq!(read_i32(&bytes, &mut pos), Ok(-1));
    assert_eq!(pos, 8);
    assert_eq!(read_u32(&bytes, &mut pos), Err("truncated tablebase"));
    assert_eq!(pos, 8);
    let mut far = usize::MAX - 1;
    assert_eq!(read_array(&bytes, &mut far), Err("tablebase offset overflow"));
    assert_eq!(far, usize::MAX - 1);
    let mut start = 1usize;
    assert_eq!(read_array(&bytes, &mut start), Ok([0x56, 0x34, 0x12, 0xff]));
    assert_eq!(read_u16_at(&bytes, 0), Some(0x5678));
    assert_eq!(read_u16_at(&bytes, 8), None);
    assert_eq!(checked_range(&bytes, 5, 4), Ok(()));
    assert_eq!(checked_range(&bytes, 6, 4), Err("tablebase range out of bounds"));
    assert_eq!(checked_range(&bytes, 1, usize::MAX), Err("tablebase range overflow"));
}

#[test]
fn compresses_and_mixes() {
    assert_eq!(compress_board(0xfedc_ba98_7654_3210), 2188272446);
    assert_eq!(compress_board(0x0000_1234_5678_9abc), 74736);
    assert_eq!(compress_board(0), 0);
    assert_eq!(mix32(0), 0);
    assert_eq!(mix32(1), 0x606d_18a8);
    assert_eq!(mix32(0xdead_beef), 0x168e_73ae);
    assert_eq!(mix32(0x1234_5678), 0xfaaa_5f4f);
}

#[test]
fn row_evaluation_values() {
    assert_eq!(row_score(0x78ff), 637);
    assert_eq!(row_score(0x2fff), 715);
    assert_eq!(row_score(0x0000), 0);
    assert_eq!(row_score(0x1234), 13);
    assert_eq!(row_score(0x4321), -48);
    assert_eq!(diffs_evaluation_func([520, 519, 0, 0]), 519);
    assert_eq!(diffs_evaluation_func([128, 64, 32, 16]), 110);
}

#[test]
fn merge_scores() {
    assert_eq!(merge_line_score([1, 1, 2, 2]), 12);
    assert_eq!(merge_line_score([15, 15, 0, 0]), 0);
    assert_eq!(merge_line_score([3, 0, 3, 3]), 16);
    let board = board_from_ranks([[1, 1, 2, 2], [3, 3, 4, 4], [5, 5, 6, 6], [7, 0, 0, 0]]);
    assert_eq!(move_score(board, 1), 252);
    assert_eq!(move_score(board, 2), 252);
    assert_eq!(move_score(board, 3), 0);
    assert_eq!(move_score(board, 4), 0);
    assert_eq!(move_score(board, 0), 0);
}

#[test]
fn process_score_bands() {
    let cases = [
        (0, 0),
        (40, 0),
        (199, 39),
        (200, 88),
        (499, 237),
        (500, 394),
        (999, 643),
        (1000, 1600),
        (1999, 2599),
        (2000, 3000),
        (100000, 3000),
    ];
    for (score, expected) in cases {
        assert_eq!(process_score(score), expected);
    }
}

#[test]
fn direction_mapping_is_stable() {
    assert_eq!(internal_to_api_move(1), 2);
    assert_eq!(internal_to_api_move(2), 3);
    assert_eq!(internal_to_api_move(3), 0);
    assert_eq!(internal_to_api_move(4), 1);
    assert_eq!(internal_to_api_move(0), -1);
    assert_eq!(internal_to_api_move(5), -1);
}

#[test]
fn internal_moves_work_on_the_turned_board() {
    let tables = init_tables();
    let board = board_from_ranks([[1, 0, 1, 2], [0, 0, 2, 2], [3, 0, 0, 3], [1, 2, 3, 4]]);
    assert_eq!(execute_internal_move(&tables, board, 1), execute_move(&tables, 3, board));
    assert_eq!(execute_internal_move(&tables, board, 2), execute_move(&tables, 2, board));
    assert_eq!(execute_internal_move(&tables, board, 3), execute_move(&tables, 1, board));
    assert_eq!(execute_internal_move(&tables, board, 4), execute_move(&tables, 0, board));
    assert_eq!(execute_internal_move(&tables, board, 9), u64::MAX);
    let locked = board_from_ranks([[1, 2, 3, 4], [5, 6, 7, 8], [9, 10, 11, 12], [13, 14, 15, 1]]);
    assert_eq!(legalize_internal_move(&tables, locked, 1), 0);
    assert_eq!(legalize_internal_move(&tables, board, 1), 1);
    assert_eq!(legalize_internal_move(&tables, board, 7), 1);
}

#[test]
fn rule_helpers() {
    assert_eq!(argmax_i32([1, 5, 5, 2]), 1);
    assert_eq!(argmax_i32([-3, -1, -2, -9]), 1);
    assert_eq!(argmax_i32([7, 7, 7, 7]), 0);
    assert_eq!(sorted_desc([3, 1, 4, 1]), [4, 3, 1, 1]);
    assert_eq!(table_types_for(10, 100), [256, 512]);
    assert_eq!(table_types_for(9, 200), [512, 0]);
    assert_eq!(table_types_for(9, 100), [512, 256]);
    assert_eq!(table_types_for(8, 61), [256, 512]);
    assert_eq!(table_types_for(7, 61), [256, 512]);
    assert_eq!(table_types_for(7, 10), [256, 0]);
    let mut counts = [0u8; 16];
    counts[8] = 1;
    counts[9] = 1;
    counts[11] = 1;
    assert_eq!(large_tile_count(8, &counts), 1);
    counts[12] = 2;
    assert_eq!(large_tile_count(8, &counts), 0);
    let none = [0u8; 16];
    assert!(is_5tiler(63488, &none));
    assert!(is_5tiler(63500, &none));
    assert!(!is_5tiler(63600, &none));
    assert!(!is_5tiler(1000, &none));
}

#[test]
fn mask_helpers() {
    assert_eq!(mask_large_tiles(0xfedc_ba98_7654_3210, 8, 0xf), 0xffff_ffff_7654_3210);
    assert_eq!(mask_large_tiles(0x1234, 2, 0), 0x1000);
    assert_eq!(empty_cell_mask(0x0000_1234_5678_9abc), 0x1111_0000_0000_0000);
    assert_eq!(empty_cell_mask(0), 0x1111_1111_1111_1111);
}

#[test]
fn mess_rule_cases() {
    let three_in_a_row = board_from_ranks([[10, 9, 8, 0], [0, 0, 0, 0], [0, 0, 0, 0], [0, 0, 0, 0]]);
    assert!(!is_mess(three_in_a_row, 100));
    let scattered = board_from_ranks([[10, 0, 8, 0], [0, 9, 0, 0], [0, 0, 0, 0], [0, 0, 0, 0]]);
    assert!(is_mess(scattered, 100));
    assert!(!is_mess(scattered, 5));
    assert!(!is_mess(scattered, -100));
    let with_equal = board_from_ranks([[10, 0, 10, 0], [0, 9, 0, 0], [0, 0, 0, 0], [0, 0, 0, 0]]);
    assert!(!is_mess(with_equal, 100));
    assert!(!is_mess(board_from_ranks([[11, 10, 9, 8], [0, 0, 0, 0], [0, 0, 0, 0], [0, 0, 0, 0]]), 100));
    assert!(!is_mess(board_from_ranks([[11, 10, 9, 0], [8, 0, 0, 0], [0, 0, 0, 0], [0, 0, 0, 0]]), 100));
    assert!(is_mess(board_from_ranks([[11, 10, 9, 0], [0, 8, 0, 0], [0, 0, 0, 0], [0, 0, 0, 0]]), 100));
    assert!(!is_mess(board_from_ranks([[11, 10, 9, 0], [8, 12, 0, 0], [0, 0, 0, 0], [0, 0, 0, 0]]), 100));
    assert!(is_mess(board_from_ranks([[0, 10, 9, 11], [8, 12, 0, 0], [0, 0, 0, 0], [0, 0, 0, 0]]), 100));
    assert!(!is_mess(board_from_ranks([[13, 12, 11, 10], [0, 0, 9, 8], [0, 0, 0, 0], [0, 0, 0, 0]]), 100));
    assert!(is_mess(board_from_ranks([[13, 12, 11, 10], [9, 0, 0, 8], [0, 0, 0, 0], [0, 0, 0, 0]]), 100));
    assert!(is_mess(board_from_ranks([[10, 9, 0, 0], [0, 0, 0, 0], [0, 0, 0, 0], [0, 0, 0, 8]]), 100));
}

#[test]
fn position_sets() {
    assert_eq!(bits(&[0, 1, 2, 3, 4, 5]), MESS_ALLOWED_6[0]);
    assert_eq!(bits(&[3, 7, 11, 15]), MESS_ALLOWED_4[3]);
    assert_eq!(bits(&[8, 12, 13]), MESS_ALLOWED_3[19]);
    assert_eq!(bits(&[]), 0);
    let tiles = [(1024, 0usize), (512, 1), (256, 2), (0, 9)];
    assert!(positions_allowed(&tiles, 3, &MESS_ALLOWED_3));
    assert!(!positions_allowed(&tiles, 4, &MESS_ALLOWED_4));
}
