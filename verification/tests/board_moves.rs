use play2048_ai::board::{count_distinct_tiles, count_empty, reverse_row, transpose, unpack_col, Board};
use play2048_ai::endgame::stats::get_board_sum;
use play2048_ai::endgame::symmetry::reverse_nibbles;
use play2048_ai::line::slide_line;
use play2048_ai::tables::{execute_move, init_tables, score_board};

fn board_from_ranks(ranks: [[u64; 4]; 4]) -> Board {
    let mut board = 0;
    let mut shift = 0;
    for row in ranks {
        for rank in row {
            board |= rank << shift;
            shift += 4;
        }
    }
    board
}

fn sample_boards() -> [Board; 6] {
    [
        board_from_ranks([[1, 2, 3, 4], [0, 1, 0, 2], [0, 0, 1, 0], [0, 0, 0, 0]]),
        board_from_ranks([[4, 3, 2, 1], [3, 2, 1, 0], [2, 1, 0, 0], [1, 0, 0, 0]]),
        board_from_ranks([[8, 7, 6, 5], [7, 6, 5, 4], [6, 5, 4, 3], [0, 0, 1, 2]]),
        board_from_ranks([[11, 10, 9, 8], [7, 6, 5, 4], [3, 2, 1, 0], [0, 0, 0, 0]]),
        board_from_ranks([[1, 1, 2, 2], [3, 3, 4, 4], [5, 5, 6, 6], [7, 0, 0, 0]]),
        board_from_ranks([[12, 11, 10, 9], [8, 7, 6, 5], [4, 3, 2, 1], [0, 0, 0, 0]]),
    ]
}

#[test]
fn reverses_rows() {
    assert_eq!(reverse_row(0x1234), 0x4321);
    assert_eq!(reverse_row(0x0f10), 0x01f0);
}

#[test]
fn transposes_board() {
    let board = 0xfedc_ba98_7654_3210;
    assert_eq!(transpose(transpose(board)), board);
}

#[test]
fn counts_empty_tiles() {
    assert_eq!(count_empty(0x1111_1111_1111_1111), 0);
    assert_eq!(count_empty(0x0000_0000_0000_0001), 15);
}

#[test]
fn executes_left_and_right_moves() {
    let tables = init_tables();
    let board = board_from_ranks([[1, 0, 1, 2], [0, 0, 2, 2], [3, 0, 0, 3], [1, 2, 3, 4]]);
    let left = execute_move(&tables, 2, board);
    let right = execute_move(&tables, 3, board);

    assert_eq!(
        left,
        board_from_ranks([[2, 2, 0, 0], [3, 0, 0, 0], [4, 0, 0, 0], [1, 2, 3, 4]])
    );
    assert_eq!(
        right,
        board_from_ranks([[0, 0, 2, 2], [0, 0, 0, 3], [0, 0, 0, 4], [1, 2, 3, 4]])
    );
}

#[test]
fn executes_up_and_down_moves() {
    let tables = init_tables();
    let board = board_from_ranks([[1, 0, 0, 1], [1, 2, 0, 0], [0, 2, 3, 1], [0, 0, 3, 1]]);

    assert_eq!(
        execute_move(&tables, 0, board),
        board_from_ranks([[2, 3, 4, 2], [0, 0, 0, 1], [0, 0, 0, 0], [0, 0, 0, 0]])
    );
    assert_eq!(
        execute_move(&tables, 1, board),
        board_from_ranks([[0, 0, 0, 0], [0, 0, 0, 0], [0, 0, 0, 1], [2, 3, 4, 2]])
    );
}

#[test]
fn reverse_row_twice_is_identity() {
    for row in [0u16, 0x1234, 0xffff, 0x0f0f, 0xa5c3] {
        assert_eq!(reverse_row(reverse_row(row)), row);
    }
}

#[test]
fn transpose_moves_cells_across_the_diagonal() {
    let board = board_from_ranks([[1, 2, 3, 4], [5, 6, 7, 8], [9, 10, 11, 12], [13, 14, 15, 0]]);
    assert_eq!(
        transpose(board),
        board_from_ranks([[1, 5, 9, 13], [2, 6, 10, 14], [3, 7, 11, 15], [4, 8, 12, 0]])
    );
}

#[test]
fn unpack_col_spreads_a_row_down_the_first_column() {
    assert_eq!(unpack_col(0x4321), board_from_ranks([[1, 0, 0, 0], [2, 0, 0, 0], [3, 0, 0, 0], [4, 0, 0, 0]]));
}

#[test]
fn count_empty_wraps_on_an_empty_board() {
    assert_eq!(count_empty(0), 0);
    assert_eq!(count_empty(0xf000_0000_0000_0000), 15);
    assert_eq!(count_empty(0x0000_0000_ffff_ffff), 8);
}

#[test]
fn counts_distinct_nonzero_ranks() {
    assert_eq!(count_distinct_tiles(0), 0);
    assert_eq!(count_distinct_tiles(0x1111_1111_1111_1111), 1);
    assert_eq!(count_distinct_tiles(0xfedc_ba98_7654_3210), 15);
    assert_eq!(count_distinct_tiles(board_from_ranks([[1, 2, 3, 4], [0, 1, 0, 2], [0, 0, 1, 0], [0, 0, 0, 0]])), 4);
}

#[test]
fn merging_two_top_tiles_keeps_rank_fifteen() {
    assert_eq!(slide_line([15, 15, 0, 0]), [15, 0, 0, 0]);
    assert_eq!(slide_line([1, 1, 1, 1]), [2, 2, 0, 0]);
    assert_eq!(slide_line([0, 2, 0, 2]), [3, 0, 0, 0]);
    assert_eq!(slide_line([2, 2, 2, 0]), [3, 2, 0, 0]);
}

#[test]
fn unknown_move_gives_all_ones() {
    let tables = init_tables();
    assert_eq!(execute_move(&tables, 4, 0x1234), u64::MAX);
    assert_eq!(execute_move(&tables, -1, 0x1234), u64::MAX);
}

#[test]
fn vertical_moves_are_transposed_horizontal_moves() {
    let tables = init_tables();
    for board in sample_boards() {
        assert_eq!(
            execute_move(&tables, 0, board),
            transpose(execute_move(&tables, 2, transpose(board)))
        );
        assert_eq!(
            execute_move(&tables, 1, board),
            transpose(execute_move(&tables, 3, transpose(board)))
        );
    }
}

#[test]
fn moves_commute_with_the_half_turn() {
    let tables = init_tables();
    for board in sample_boards() {
        let turned = reverse_nibbles(board);
        assert_eq!(reverse_nibbles(execute_move(&tables, 2, turned)), execute_move(&tables, 3, board));
        assert_eq!(reverse_nibbles(execute_move(&tables, 0, turned)), execute_move(&tables, 1, board));
    }
}

#[test]
fn score_board_sums_merge_points() {
    let tables = init_tables();
    // A tile of rank r >= 2 is worth (r - 1) * 2^r points.
    assert_eq!(score_board(&tables, 0), 0);
    assert_eq!(score_board(&tables, 0x1), 0);
    assert_eq!(score_board(&tables, 0x2), 4);
    assert_eq!(score_board(&tables, 0x3200), 16 + 4);
    assert_eq!(score_board(&tables, 0xb000_0000_0000_0000), 10 * 2048);
}

#[test]
fn moves_keep_the_tile_sum() {
    let tables = init_tables();
    for board in sample_boards() {
        for move_id in 0..4 {
            assert_eq!(get_board_sum(execute_move(&tables, move_id, board)), get_board_sum(board));
        }
    }
    // Two tiles of rank 15 merge into one: the sum drops by 32768.
    let tops = board_from_ranks([[15, 15, 0, 0], [0, 0, 0, 0], [0, 0, 0, 0], [0, 0, 0, 0]]);
    assert_eq!(get_board_sum(tops), 65536);
    assert_eq!(get_board_sum(execute_move(&tables, 2, tops)), 32768);
}
