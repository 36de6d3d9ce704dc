use play2048_ai::board::Board;
use play2048_ai::endgame::stats::{board_sum_from_counts, tile_counts};
use play2048_ai::endgame::step::{close_to_best, depth_verdict, node_budget_for, plan_step, probe_threshold, validation_plan};

fn board_from_ranks(ranks: [[u64; 4]; 4]) -> Board {
    let mut board = 0;
    let mut shift = 0;
    for row in ranks {
        for rank in row {
            board |= rank << shift;
            shift += 4;
        }
    }
    board
}

fn check(board: Board, expected_sum: i32, threshold: u8, expected: (i32, bool, bool, bool, i32, i32, u8, i32, i32)) {
    let counts = tile_counts(board);
    let board_sum = board_sum_from_counts(counts);
    assert_eq!(board_sum, expected_sum);
    assert_eq!(probe_threshold(&counts, board_sum), threshold);
    let plan = plan_step(board, &counts, board_sum, false);
    assert_eq!(
        (
            plan.big_nums,
            plan.is_not_merging,
            plan.is_mess,
            plan.is_5tiler,
            plan.do_check,
            plan.prune,
            plan.time_rule,
            plan.initial_depth,
            plan.max_depth
        ),
        expected
    );
    assert_eq!(plan_step(board, &counts, board_sum, true).prune, 0);
}

#[test]
fn plans_endgame_steps() {
    check(0x0000_1234_5678_9abc, 8190, 0, (5, true, false, false, 0, 1, 5, 5, 48));
    check(
        board_from_ranks([[13, 12, 11, 10], [9, 8, 0, 0], [1, 2, 0, 0], [0, 0, 0, 0]]),
        16134,
        8,
        (6, true, false, false, 0, 1, 5, 5, 48),
    );
    check(
        board_from_ranks([[14, 13, 12, 11], [10, 9, 0, 0], [3, 2, 0, 0], [0, 0, 1, 0]]),
        32270,
        9,
        (6, true, false, false, 0, 1, 4, 5, 32),
    );
    check(
        board_from_ranks([[15, 14, 13, 12], [11, 10, 9, 8], [7, 7, 6, 5], [4, 3, 2, 1]]),
        65662,
        0,
        (8, false, false, false, 0, 0, 4, 4, 32),
    );
    check(
        board_from_ranks([[10, 0, 8, 0], [0, 9, 0, 0], [0, 0, 0, 0], [0, 0, 0, 1]]),
        1794,
        0,
        (3, true, true, false, 3, 0, 0, 5, 24),
    );
    check(0xfedc_ba98_7654_3210, 65534, 9, (8, true, false, false, 0, 0, 5, 4, 48));
}

#[test]
fn close_to_best_margins() {
    let sorted = [3000, 2900, 2500, 100];
    assert!(close_to_best(sorted, 2984, false));
    assert!(!close_to_best(sorted, 2983, false));
    assert!(close_to_best(sorted, 2976, true));
    let high = [3000, 2950, 2900, 100];
    assert!(close_to_best(high, 2976, false));
    assert!(!close_to_best(high, 2975, false));
    let low = [3000, 10, 0, -5];
    assert!(close_to_best(low, 2992, false));
    assert!(!close_to_best(low, 2991, false));
    assert!(close_to_best(low, 2988, true));
}

#[test]
fn node_budget_grows_with_depth_and_time_within_bounds() {
    assert_eq!(node_budget_for(3, 1), 60_000);
    assert_eq!(node_budget_for(2, 4), 160_000);
    assert_eq!(node_budget_for(1, 1), 30_000);
    assert_eq!(node_budget_for(-5, 16), 320_000);
    assert_eq!(node_budget_for(200, 16), 3_000_000);
    assert_eq!(node_budget_for(i32::MAX, u64::MAX), 3_000_000);
}

#[test]
fn depth_verdict_flags_critical_and_hopeless_scores() {
    assert_eq!(depth_verdict(2, [5, -30_001, 7, 8]), (true, false));
    assert_eq!(depth_verdict(2, [5, -30_000, 7, 8]), (false, false));
    assert_eq!(depth_verdict(0, [-200_000; 4]), (false, true));
    assert_eq!(depth_verdict(4, [-200_000, -200_000, -200_000, -100_000]), (true, false));
    assert_eq!(depth_verdict(1, [-200_000, -200_000, -200_000, -100_000]), (true, false));
    assert_eq!(depth_verdict(5, [-200_000, 1, 1, 1]), (false, false));
    assert_eq!(depth_verdict(4, [-200_000, -200_000, -200_000, -100_001]), (true, true));
}

#[test]
fn validation_plan_follows_the_board_sum_and_table() {
    let p = validation_plan(65536 + 100, 512, 9);
    assert_eq!((p.prune, p.depth, p.min_depth, p.max_depth, p.compare_after_moves), (1, 8, 6, 10, true));
    let p = validation_plan(65536 + 48, 1256, 8);
    assert_eq!((p.prune, p.depth, p.min_depth, p.max_depth, p.compare_after_moves), (0, 6, 24, 48, true));
    let p = validation_plan(65536 + 95, 512, 8);
    assert_eq!((p.prune, p.depth, p.compare_after_moves), (1, 8, false));
    let p = validation_plan(65536 + 234, 512, 8);
    assert_eq!((p.prune, p.depth, p.compare_after_moves), (0, 6, true));
}
