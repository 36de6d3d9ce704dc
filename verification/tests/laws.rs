use play2048_ai::board::{reverse_row, transpose, Board};
use play2048_ai::endgame::cache::SearchCache;
use play2048_ai::endgame::eval::eval_tables;
use play2048_ai::endgame::moves::{execute_internal_move, internal_to_api_move};
use play2048_ai::endgame::player::AiPlayer;
use play2048_ai::endgame::stats::{get_board_sum, tile_counts};
use play2048_ai::endgame::symmetry::{reverse_lr, reverse_nibbles, symmetries};
use play2048_ai::tables::{execute_move, init_tables};

const BOARDS: [Board; 5] = [
    0x0123_4567_89ab_cdef,
    0x1120_0300_1002_0011,
    0x0000_0000_1111_2222,
    0x2210_0122_3003_1111,
    0x0000_0001_0000_0000,
];

#[test]
fn a_fresh_or_reset_cache_finds_nothing() {
    let mut cache = SearchCache::new();
    for board in BOARDS {
        let bucket = cache.hash(board);
        assert_eq!(cache.lookup(bucket, board, 0), None);
    }
    cache.update(cache.hash(BOARDS[0]), BOARDS[0], 4, 77, 131072, 100);
    cache.reset(256);
    for board in BOARDS {
        let bucket = cache.hash(board);
        assert_eq!(cache.lookup(bucket, board, 0), None);
    }
}

#[test]
fn a_recorded_score_is_not_found_deeper() {
    let mut cache = SearchCache::new();
    cache.reset(64);
    let board = BOARDS[3];
    let bucket = cache.hash(board);
    cache.update(bucket, board, 6, 321, 131072, 50);
    for depth in 0..=6 {
        assert_eq!(cache.lookup(bucket, board, depth), Some(321));
    }
    for depth in 7..=63 {
        assert_eq!(cache.lookup(bucket, board, depth), None);
    }
}

#[test]
fn a_row_read_backwards_scores_as_its_reverse() {
    let t = eval_tables();
    for row in [0x0000u16, 0x1234, 0x78ff, 0xfff7, 0x9a01, 0xffff, 0x0102] {
        assert_eq!(t[row as usize].d2, t[reverse_row(row) as usize].d1);
    }
}

fn mirror_rows(board: Board) -> Board {
    let mut out = 0;
    for k in 0..4 {
        out |= (reverse_row(((board >> (16 * k)) & 0xffff) as u16) as u64) << (16 * k);
    }
    out
}

#[test]
fn moves_relate_through_transpose_and_mirror() {
    let tables = init_tables();
    for board in BOARDS {
        assert_eq!(execute_move(&tables, 0, board), transpose(execute_move(&tables, 2, transpose(board))));
        assert_eq!(execute_move(&tables, 1, board), transpose(execute_move(&tables, 3, transpose(board))));
        assert_eq!(execute_move(&tables, 3, board), mirror_rows(execute_move(&tables, 2, mirror_rows(board))));
        assert_eq!(mirror_rows(board), reverse_lr(board));
        assert_eq!(execute_move(&tables, 4, board), u64::MAX);
        assert_eq!(execute_move(&tables, -1, board), u64::MAX);
    }
}

#[test]
fn moves_keep_the_board_sum_without_top_tiles() {
    let tables = init_tables();
    for board in BOARDS {
        for m in 0..4 {
            assert_eq!(get_board_sum(execute_move(&tables, m, board)), get_board_sum(board));
        }
    }
    // Two 32768 tiles merge into one 32768 tile.
    let top: Board = 0x0000_0000_0000_00ff;
    assert_eq!(get_board_sum(execute_move(&tables, 2, top)), 32768);
    assert_eq!(get_board_sum(top), 65536);
}

#[test]
fn engine_moves_are_moves_of_the_half_turned_board() {
    let tables = init_tables();
    for board in BOARDS {
        for m in 1..=4 {
            let r = execute_internal_move(&tables, board, m);
            assert_eq!(reverse_nibbles(r), execute_move(&tables, internal_to_api_move(m), reverse_nibbles(board)));
            assert_eq!(r, execute_move(&tables, [3, 2, 1, 0][m - 1], board));
        }
        assert_eq!(execute_internal_move(&tables, board, 0), u64::MAX);
    }
}

#[test]
fn symmetries_keep_counts_and_form_a_group() {
    for board in BOARDS {
        let images = symmetries(board);
        for image in images {
            assert_eq!(tile_counts(image), tile_counts(board));
            let mut again = symmetries(image).to_vec();
            let mut all = images.to_vec();
            again.sort();
            all.sort();
            assert_eq!(again, all);
        }
    }
}

#[test]
fn a_new_player_reads_the_row_evaluations() {
    let ai = AiPlayer::new();
    let t = eval_tables();
    for row in [0x0000usize, 0x1234, 0x9a01, 0xffff, 0xff87] {
        assert_eq!(ai.score_pair(row).d1, t[row].d1);
    }
    for row in [0x0000usize, 0x1234, 0x9a01, 0xffff, 0x78ff] {
        assert_eq!(ai.score_pair(row).d2, t[row].d2);
    }
}
