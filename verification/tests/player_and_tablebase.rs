use play2048_ai::board::Board;
use play2048_ai::endgame::eval::{move_score, process_score, row_score};
use play2048_ai::endgame::moves::execute_internal_move;
use play2048_ai::endgame::player::AiPlayer;
use play2048_ai::endgame::symmetry::reverse_ul;
use play2048_ai::endgame::tablebase::{parse_tablebase, query_perfect_hash};
use play2048_ai::tables::init_tables;

fn board_from_ranks(ranks: [[u64; 4]; 4]) -> Board {
    let mut board = 0;
    let mut shift = 0;
    for row in ranks {
        for rank in row {
            board |= rank << shift;
            shift += 4;
        }
    }
    board
}

#[test]
fn dynamic_eval_overrides_match_cpp_targets() {
    let board_with_corner = 0xff00_ff00_0000_0000;
    let board_without_corner = 0;
    let mut ai = AiPlayer::new();

    ai.update_specific_scores(board_without_corner, true, true, true, true);
    assert_eq!(ai.score_pair(0x78ff).d1, row_score(0x78ff));
    assert_eq!(ai.score_pair(0xff87).d2, row_score(0x78ff));
    assert_eq!(ai.score_pair(0x2fff).d1, row_score(0x2fff));
    assert_eq!(ai.score_pair(0xfff2).d2, row_score(0x2fff));

    ai.update_specific_scores(board_with_corner, false, false, true, false);
    assert_eq!(ai.score_pair(0x78ff).d1, row_score(0x78ff) + 300);
    assert_eq!(ai.score_pair(0xff87).d2, row_score(0x78ff) + 300);
    assert_eq!(ai.score_pair(0x7fff).d1, row_score(0x7fff) + 320);
    assert_eq!(ai.score_pair(0x8fff).d1, row_score(0x8fff) + 360);

    ai.update_specific_scores(board_with_corner, true, false, false, false);
    assert_eq!(ai.score_pair(0x2fff).d1, row_score(0x2fff) + 4);
    assert_eq!(ai.score_pair(0xfff2).d2, row_score(0x2fff) + 4);
    assert_eq!(ai.score_pair(0x6fff).d1, row_score(0x6fff) + 25);

    ai.update_specific_scores(board_with_corner, false, true, false, false);
    assert_eq!(ai.score_pair(0x3fff).d1, row_score(0x3fff) - 10);
    assert_eq!(ai.score_pair(0xfff3).d2, row_score(0x3fff) - 10);
    assert_eq!(ai.score_pair(0x6fff).d1, row_score(0x6fff) - 8);

    ai.update_specific_scores(board_with_corner, false, false, false, true);
    assert_eq!(ai.score_pair(0x4fff).d1, row_score(0x4fff) + 9);
    assert_eq!(ai.score_pair(0xfff4).d2, row_score(0x4fff) + 9);
    assert_eq!(ai.score_pair(0x5fff).d1, row_score(0x5fff) + 12);
}

#[test]
fn player_evaluates_rows_and_columns() {
    let ai = AiPlayer::new();
    assert_eq!(ai.evaluate(0), 0);
    assert_eq!(ai.evaluate(0x0000_1234_5678_9abc), 2181);
    assert_eq!(ai.evaluate(0xfedc_ba98_7654_3210), 3540);
    assert_eq!(ai.score_pair(0x1234).d1, row_score(0x1234));
}

#[test]
fn evaluation_is_the_same_for_the_diagonal_mirror() {
    let ai = AiPlayer::new();
    for board in [0x0000_1234_5678_9abcu64, 0xfedc_ba98_7654_3210, 0x1020_0304_0506_7089] {
        assert_eq!(ai.evaluate(board), ai.evaluate(reverse_ul(board)));
    }
}

#[test]
fn player_search0_takes_the_best_move() {
    let tables = init_tables();
    let mut ai = AiPlayer::new();
    let locked = board_from_ranks([[1, 2, 3, 4], [5, 6, 7, 8], [9, 10, 11, 12], [13, 14, 15, 1]]);
    assert_eq!(ai.search0(&tables, locked), -131072);
    assert_eq!(ai.node, 4);

    let board = board_from_ranks([[1, 1, 2, 2], [3, 3, 4, 4], [5, 5, 6, 6], [7, 0, 0, 0]]);
    let mut expected = -131072;
    for m in 1..=4 {
        let moved = execute_internal_move(&tables, board, m);
        if moved != board {
            expected = expected.max(ai.evaluate(moved) + process_score(move_score(board, m)));
        }
    }
    assert_eq!(ai.search0(&tables, board), expected);
    assert_eq!(ai.node, 8);
}

#[test]
fn player_reset_and_mask() {
    let mut ai = AiPlayer::new();
    ai.node = 77;
    ai.reset_board(0x0000_1234_5678_9abc);
    assert_eq!(ai.node, 0);
    assert_eq!(ai.best_operation, 0);
    assert_eq!(ai.board, 0x0000_1234_5678_9abc);
    let searched = ai.apply_dynamic_mask();
    assert_eq!(ai.board_sum, 8190);
    // No rank from 9 to 14 is doubled; the sum is 1022 past a multiple of
    // 1024, so ranks 11 and up are masked to 15. Cells of rank 7 or 15 count
    // as masked.
    assert_eq!(searched, 0x0000_1234_5678_9aff);
    assert_eq!(ai.masked_count, 3);
    assert_eq!(ai.dead_score, 131072);
    assert_eq!(ai.threshold, 8400);

    let doubled = board_from_ranks([[10, 10, 0, 0], [0, 0, 0, 0], [0, 0, 0, 0], [0, 0, 0, 0]]);
    ai.reset_board(doubled);
    assert_eq!(ai.apply_dynamic_mask(), doubled);
    assert_eq!(ai.fixed_mask, 0);
}

fn le(v: u32) -> [u8; 4] {
    v.to_le_bytes()
}

fn sample_file(seed_len: u32, blob: &[u8]) -> Vec<u8> {
    let mut bytes = b"P8ETB001".to_vec();
    bytes.extend_from_slice(&le(1));
    for field in [256, 1, (-4i32) as u32, 0x3f00_0000, 0x3f80_0000, 1] {
        bytes.extend_from_slice(&le(field));
    }
    for field in [1, 1, 0, seed_len, 2, 1, 3, 1] {
        bytes.extend_from_slice(&le(field));
    }
    bytes.extend_from_slice(blob);
    bytes
}

#[test]
fn bad_magic_is_rejected() {
    assert_eq!(parse_tablebase(b"badmagic").err(), Some("bad tablebase magic"));
    assert_eq!(parse_tablebase(b"P8ETB00").err(), Some("bad tablebase magic"));
    assert_eq!(parse_tablebase(b"P8ETB002\x00\x00\x00\x00").err(), Some("bad tablebase magic"));
}

#[test]
fn parses_a_small_tablebase() {
    let bytes = sample_file(1, &[7, 0, 0x0a, 0x34, 0x12]);
    let tb = parse_tablebase(&bytes).ok().unwrap();
    assert_eq!(tb.tables.len(), 1);
    let table = &tb.tables[0];
    assert_eq!(table.table_type, 256);
    assert_eq!(table.initial_sum, -4);
    assert_eq!(table.lower_bits, 0x3f00_0000);
    assert_eq!(table.upper_bits, 0x3f80_0000);
    assert_eq!(table.flags, 1);
    assert_eq!(table.layers.len(), 1);
    assert_eq!(table.layers[0].sig_offset, 2);
    assert_eq!(tb.blob, &[7, 0, 0x0a, 0x34, 0x12]);

    // The signature byte of 0x01020304 is 0x0a, so the entry's rate comes back.
    assert_eq!(query_perfect_hash(&tb, table, 0x0102_0304, 0), Some(0x1234));
    assert_eq!(query_perfect_hash(&tb, table, 0x0102_0305, 0), None);
    assert_eq!(query_perfect_hash(&tb, table, 0x0102_0304, 1), None);
    assert_eq!(query_perfect_hash(&tb, table, 0x0102_0304, -1), None);
}

#[test]
fn reports_tablebase_format_errors() {
    let good = sample_file(1, &[7, 0, 0x0a, 0x34, 0x12]);
    assert_eq!(parse_tablebase(&good[..20]).err(), Some("truncated tablebase"));
    assert_eq!(parse_tablebase(&good[..50]).err(), Some("truncated tablebase"));
    let bad_lengths = sample_file(2, &[7, 0, 0x0a, 0x34, 0x12]);
    assert_eq!(parse_tablebase(&bad_lengths).err(), Some("bad tablebase layer lengths"));
    let short_blob = sample_file(1, &[7, 0, 0x0a, 0x34]);
    assert_eq!(parse_tablebase(&short_blob).err(), Some("tablebase range out of bounds"));
    let mut empty = b"P8ETB001".to_vec();
    empty.extend_from_slice(&le(0));
    let tb = parse_tablebase(&empty).ok().unwrap();
    assert_eq!(tb.tables.len(), 0);
    assert_eq!(tb.blob.len(), 0);
}

fn run_search(board: Board, depth: i32, budget: u64) -> (Option<(i32, u64)>, AiPlayer) {
    let tables = init_tables();
    let mut ai = AiPlayer::new();
    ai.cache.reset(4096);
    ai.max_d = depth;
    ai.node_budget = budget;
    ai.initial_eval_score = ai.evaluate(board);
    let r = ai.search_ai_player(&tables, board, depth, 0);
    (r, ai)
}

#[test]
fn search_from_the_root_matches_expected_values() {
    let (r, ai) = run_search(board_from_ranks([[1, 2, 3, 4], [0, 1, 0, 2], [0, 0, 1, 0], [0, 0, 0, 0]]), 3, 20000);
    assert_eq!(r, Some((13, 6487)));
    assert_eq!(ai.best_operation, 1);
    assert_eq!(ai.top_scores, [13, -131072, -131072, -131072]);
    assert_eq!(ai.node, 20060);
    assert_eq!(ai.cache_hits, 576);
    assert!(ai.stop_search);

    let (r, ai) = run_search(0x0000_1234_5678_9abc, 4, 5000);
    assert_eq!(r, Some((-23601, 3279)));
    assert_eq!(ai.best_operation, 3);
    assert_eq!(ai.top_scores, [-131072, -131072, -23601, -131072]);
    assert_eq!(ai.node, 3991);
    assert_eq!(ai.cache_hits, 249);
    assert!(!ai.stop_search);

    let pairs = board_from_ranks([[1, 1, 2, 2], [3, 3, 4, 4], [5, 5, 6, 6], [7, 0, 0, 0]]);
    let (r, ai) = run_search(pairs, 3, 500);
    assert_eq!(r, Some((115, 141)));
    assert_eq!(ai.best_operation, 1);
    assert_eq!(ai.node, 514);
    assert!(ai.stop_search);

    let (r, ai) = run_search(pairs, 2, 100000);
    assert_eq!(r, Some((518, 1187)));
    assert_eq!(ai.best_operation, 1);
    assert_eq!(ai.top_scores, [518, 405, 51, -131072]);
    assert_eq!(ai.node, 3825);
    assert_eq!(ai.cache_hits, 79);
}

#[test]
fn search_stops_once_stopped() {
    let tables = init_tables();
    let mut ai = AiPlayer::new();
    ai.stop_search = true;
    assert_eq!(ai.search_ai_player(&tables, 0x1234, 3, 0), Some((0, 1)));
    assert_eq!(ai.node, 0);
}

#[test]
fn start_search_sets_up_and_searches() {
    let tables = init_tables();
    let mut ai = AiPlayer::new();
    let board = board_from_ranks([[1, 2, 3, 4], [0, 1, 0, 2], [0, 0, 1, 0], [0, 0, 0, 0]]);
    ai.reset_board(board);
    assert!(ai.start_search(&tables, 3, 10, 6));
    assert_eq!(ai.max_d, 3);
    assert_eq!(ai.max_layer, 6);
    assert_eq!(ai.node_budget, 1024);
    assert_eq!(ai.cache.buckets, 16384);
    assert!((1..=4).contains(&ai.best_operation));
    assert!(ai.node > 0);
}
