use play2048_ai::algorithms::expectimax::{clamp_trans_table_capacity, depth_limit, DEFAULT_TRANS_TABLE_CAPACITY};
use play2048_ai::algorithms::greedy::{is_better, score_greedy_board, Candidate};
use play2048_ai::algorithms::{choose_move_with_algorithm, normalize_algorithm_id, AlgorithmId, MoveResult};
use play2048_ai::board::Board;
use play2048_ai::engine::Engine;
use play2048_ai::tables::{execute_move, init_tables};

fn board_from_ranks(ranks: [[u64; 4]; 4]) -> Board {
    let mut board = 0;
    let mut shift = 0;
    for row in ranks {
        for rank in row {
            board |= rank << shift;
            shift += 4;
        }
    }
    board
}

fn sample_boards() -> [Board; 6] {
    [
        board_from_ranks([[1, 2, 3, 4], [0, 1, 0, 2], [0, 0, 1, 0], [0, 0, 0, 0]]),
        board_from_ranks([[4, 3, 2, 1], [3, 2, 1, 0], [2, 1, 0, 0], [1, 0, 0, 0]]),
        board_from_ranks([[8, 7, 6, 5], [7, 6, 5, 4], [6, 5, 4, 3], [0, 0, 1, 2]]),
        board_from_ranks([[11, 10, 9, 8], [7, 6, 5, 4], [3, 2, 1, 0], [0, 0, 0, 0]]),
        board_from_ranks([[1, 1, 2, 2], [3, 3, 4, 4], [5, 5, 6, 6], [7, 0, 0, 0]]),
        board_from_ranks([[12, 11, 10, 9], [8, 7, 6, 5], [4, 3, 2, 1], [0, 0, 0, 0]]),
    ]
}

fn greedy(board: Board) -> MoveResult {
    let tables = init_tables();
    choose_move_with_algorithm(&tables, AlgorithmId::Greedy, board).unwrap()
}

#[test]
fn algorithm_selection_defaults_to_expectimax() {
    let mut engine = Engine::new();
    assert_eq!(
        engine.set_algorithm(AlgorithmId::Expectimax.as_i32()),
        AlgorithmId::Expectimax.as_i32()
    );
    assert_eq!(engine.current_algorithm(), AlgorithmId::Expectimax.as_i32());
    assert_eq!(engine.set_algorithm(1), AlgorithmId::Greedy.as_i32());
    assert_eq!(engine.current_algorithm(), AlgorithmId::Greedy.as_i32());
    assert_eq!(engine.set_algorithm(2), AlgorithmId::Expectimax.as_i32());
    assert_eq!(engine.current_algorithm(), AlgorithmId::Expectimax.as_i32());
    assert_eq!(engine.set_algorithm(12345), AlgorithmId::Expectimax.as_i32());
    assert_eq!(engine.current_algorithm(), AlgorithmId::Expectimax.as_i32());
}

#[test]
fn dispatch_records_greedy_algorithm() {
    let tables = init_tables();

    for board in sample_boards() {
        let result = choose_move_with_algorithm(&tables, AlgorithmId::Greedy, board).unwrap();

        assert_eq!(result.algorithm.as_i32(), AlgorithmId::Greedy.as_i32());
        assert_eq!(result.depth, 1);
        assert_eq!(result.cache_hits, 0);
    }
}

#[test]
fn greedy_chooses_legal_move_or_no_move() {
    let tables = init_tables();

    for board in sample_boards() {
        let result = choose_move_with_algorithm(&tables, AlgorithmId::Greedy, board).unwrap();

        assert!((0..4).contains(&result.move_id));
        assert_ne!(execute_move(&tables, result.move_id, board), board);
        assert!(result.nodes <= 4);
    }

    let locked =
        board_from_ranks([[1, 2, 3, 4], [5, 6, 7, 8], [9, 10, 11, 12], [13, 14, 15, 1]]);
    let result = choose_move_with_algorithm(&tables, AlgorithmId::Greedy, locked).unwrap();

    assert_eq!(result.move_id, -1);
    assert_eq!(result.nodes, 0);
}

// The heuristic is kept in half points: 84 half points are 42 points.
#[test]
fn tie_break_prefers_higher_merge_gain() {
    let candidate = Candidate {
        move_id: 1,
        heuristic: 84,
        merge_gain: 8,
    };
    let best = Candidate {
        move_id: 0,
        heuristic: 84,
        merge_gain: 4,
    };

    assert!(is_better(candidate, best));
}

#[test]
fn final_tie_keeps_existing_direction_order() {
    let candidate = Candidate {
        move_id: 1,
        heuristic: 84,
        merge_gain: 4,
    };
    let best = Candidate {
        move_id: 0,
        heuristic: 84,
        merge_gain: 4,
    };

    assert!(!is_better(candidate, best));
}

#[test]
fn higher_heuristic_wins_whatever_the_merge_gain() {
    let candidate = Candidate { move_id: 3, heuristic: 85, merge_gain: 0 };
    let best = Candidate { move_id: 0, heuristic: 84, merge_gain: 1000 };
    assert!(is_better(candidate, best));
    assert!(!is_better(best, candidate));
}

#[test]
fn dispatch_leaves_expectimax_to_the_caller() {
    let tables = init_tables();
    for board in sample_boards() {
        assert!(choose_move_with_algorithm(&tables, AlgorithmId::Expectimax, board).is_none());
    }
}

#[test]
fn greedy_heuristic_in_half_points() {
    let board = board_from_ranks([[1, 2, 3, 4], [0, 1, 0, 2], [0, 0, 1, 0], [0, 0, 0, 0]]);
    assert_eq!(score_greedy_board(board), 1052544);
    assert_eq!(score_greedy_board(0), 0);
}

#[test]
fn greedy_prefers_the_move_with_the_best_heuristic() {
    let tables = init_tables();
    for board in sample_boards() {
        let result = greedy(board);
        let chosen = execute_move(&tables, result.move_id, board);
        for move_id in 0..4 {
            let moved = execute_move(&tables, move_id, board);
            if moved != board {
                assert!(score_greedy_board(moved) <= score_greedy_board(chosen));
            }
        }
    }
}

#[test]
fn normalize_keeps_only_greedy() {
    assert_eq!(normalize_algorithm_id(0), 0);
    assert_eq!(normalize_algorithm_id(1), 1);
    assert_eq!(normalize_algorithm_id(-7), 0);
    assert_eq!(normalize_algorithm_id(i32::MAX), 0);
    assert_eq!(AlgorithmId::from_i32(1).as_i32(), 1);
    assert_eq!(AlgorithmId::from_i32(99).as_i32(), 0);
}

#[test]
fn engine_records_last_result() {
    let mut engine = Engine::new();
    assert_eq!(engine.last_algorithm(), 0);
    assert_eq!(engine.last_nodes(), 0);
    engine.record_result(MoveResult {
        algorithm: AlgorithmId::Greedy,
        move_id: 2,
        depth: 1,
        nodes: 3,
        cache_hits: 0,
    });
    assert_eq!(engine.last_algorithm(), 1);
    assert_eq!(engine.last_depth(), 1);
    assert_eq!(engine.last_nodes(), 3);
    assert_eq!(engine.last_cache_hits(), 0);
    assert_eq!(engine.current_algorithm(), 0);
}

#[test]
fn engine_choose_move_runs_greedy_and_records_it() {
    let tables = init_tables();
    let mut engine = Engine::new();
    let board = sample_boards()[0];
    assert_eq!(engine.choose_move(&tables, board), None);
    assert_eq!(engine.last_nodes(), 0);

    engine.set_algorithm(1);
    for board in sample_boards() {
        let expected = greedy(board);
        let move_id = engine.choose_move(&tables, board);
        assert_eq!(move_id, Some(expected.move_id));
        assert_eq!(engine.last_algorithm(), AlgorithmId::Greedy.as_i32());
        assert_eq!(engine.last_depth(), expected.depth);
        assert_eq!(engine.last_nodes(), expected.nodes);
        assert_eq!(engine.last_cache_hits(), expected.cache_hits);
    }
}

#[test]
fn trans_table_capacity_is_clamped() {
    let mut engine = Engine::new();
    assert_eq!(engine.trans_table_capacity(), DEFAULT_TRANS_TABLE_CAPACITY);
    engine.set_trans_table_capacity(10);
    assert_eq!(engine.trans_table_capacity(), 4096);
    engine.set_trans_table_capacity(usize::MAX);
    assert_eq!(engine.trans_table_capacity(), 1 << 20);
    engine.set_trans_table_capacity(5000);
    assert_eq!(engine.trans_table_capacity(), 5000);
    assert_eq!(clamp_trans_table_capacity(4096), 4096);
}

#[test]
fn search_depth_follows_distinct_tiles() {
    assert_eq!(depth_limit(0), 3);
    assert_eq!(depth_limit(0xfedc_ba98_7654_3210), 13);
    assert_eq!(depth_limit(board_from_ranks([[1, 2, 3, 4], [5, 0, 0, 0], [0, 0, 0, 0], [0, 0, 0, 0]])), 3);
    assert_eq!(depth_limit(board_from_ranks([[1, 2, 3, 4], [5, 6, 0, 0], [0, 0, 0, 0], [0, 0, 0, 0]])), 4);
}
