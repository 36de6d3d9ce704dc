use play2048_ai::board::Board;
use play2048_ai::endgame::format::compress_board;
use play2048_ai::endgame::moves::{board_move_for, execute_internal_move, legalize_internal_move};
use play2048_ai::endgame::symmetry::{canonical_diagonal, reverse_ul, symmetries};
use play2048_ai::endgame::probe::{board_44_128, l3_override, move_rates, MoveRates, FIXED_RATE_BOARD};
use play2048_ai::endgame::stats::get_board_sum;
use play2048_ai::endgame::step::retry_441;
use play2048_ai::endgame::tablebase::{parse_tablebase, query_perfect_hash};
use play2048_ai::tables::init_tables;

fn le(v: u32) -> [u8; 4] {
    v.to_le_bytes()
}

/// A file with one table of type 512 whose single layer holds one entry:
/// seed 0, signature `sig`, rate 0x8000.
fn one_entry_file(initial_sum: i32, sig: u8) -> Vec<u8> {
    let mut bytes = b"P8ETB001".to_vec();
    bytes.extend_from_slice(&le(1));
    for field in [512, 1, initial_sum as u32, 0, 0x3f80_0000, 0] {
        bytes.extend_from_slice(&le(field));
    }
    for field in [1, 1, 0, 1, 2, 1, 3, 1] {
        bytes.extend_from_slice(&le(field));
    }
    bytes.extend_from_slice(&[0, 0, sig, 0x00, 0x80]);
    bytes
}

fn signature(key: u32) -> u8 {
    (key.wrapping_add(key >> 8).wrapping_add(key >> 16).wrapping_add(key >> 24) & 0xff) as u8
}

#[test]
fn the_fixed_board_needs_no_table() {
    let tables = init_tables();
    let bytes = one_entry_file(0, 0);
    let tb = parse_tablebase(&bytes).ok().unwrap();
    assert!(matches!(move_rates(&tables, &tb, FIXED_RATE_BOARD, 512), Some(MoveRates::Fixed)));
    assert!(matches!(move_rates(&tables, &tb, 0x1234, 256), Some(MoveRates::NoTable)));
}

#[test]
fn each_move_looks_up_its_own_key() {
    let tables = init_tables();
    // Tiles on the cells the key reads: cell 3 holds a 2 and cell 15 a 4.
    let target: Board = 0x2000_0000_0000_1000;
    // The table's first layer is the one of the board's sum, 6.
    let moved = (1..=4)
        .map(|m| execute_internal_move(&tables, target, m))
        .find(|post| *post != target && compress_board(*post) != 0)
        .unwrap();
    let sig = signature(compress_board(moved));
    let bytes = one_entry_file(6, sig);
    let tb = parse_tablebase(&bytes).ok().unwrap();
    let Some(MoveRates::Found { table, rates, queries }) = move_rates(&tables, &tb, target, 512) else {
        panic!("expected lookups");
    };
    assert_eq!(table, 0);
    let mut expected_queries = 0;
    for m in 1..=4 {
        let post = execute_internal_move(&tables, target, m);
        let expected = if post == target || compress_board(post) == 0 {
            None
        } else {
            expected_queries += 1;
            let layer = ((get_board_sum(post) % 32768) - 6) / 2;
            query_perfect_hash(&tb, &tb.tables[0], compress_board(post), layer)
        };
        assert_eq!(rates[m - 1], expected);
    }
    assert_eq!(queries, expected_queries);
    assert!(queries > 0);
    assert!(rates.iter().any(|r| *r == Some(0x8000)));
}

#[test]
fn a_layer_index_out_of_range_finds_nothing() {
    let tables = init_tables();
    let target: Board = 0x2000_0000_0000_1000;
    let bytes = one_entry_file(-100, 0);
    let tb = parse_tablebase(&bytes).ok().unwrap();
    let Some(MoveRates::Found { rates, .. }) = move_rates(&tables, &tb, target, 512) else {
        panic!("expected lookups");
    };
    assert_eq!(rates, [None; 4]);
}

#[test]
fn a_layer_difference_that_overflows_is_reported() {
    let tables = init_tables();
    let target: Board = 0x2000_0000_0000_1000;
    let bytes = one_entry_file(i32::MIN, 0);
    let tb = parse_tablebase(&bytes).ok().unwrap();
    assert!(move_rates(&tables, &tb, target, 512).is_none());
}

#[test]
fn boards_near_65536_use_their_own_table() {
    let board: Board = 0x0000_0000_0000_a009;
    assert_eq!(l3_override(board, 65300), Some((0x0000_0000_0000_f00f, 1256)));
    assert_eq!(l3_override(board, 65100), Some((0x0000_0000_0000_8008, 512)));
    assert_eq!(l3_override(board, 65280), None);
    assert_eq!(l3_override(board, 65436), None);
    assert_eq!(l3_override(board, 65000), None);
}

#[test]
fn the_44_128_board_mirrors_the_upper_rows() {
    let masked: Board = 0x0123_0456_7777_7777;
    assert_eq!(board_44_128(masked, 63888), Some(0x3210_6540_7fff_8fff));
    // The lower rows are not all large tiles.
    assert_eq!(board_44_128(0x0123_0456_7777_7776, 63888), None);
    // The sum is out of range.
    assert_eq!(board_44_128(masked, 63888 - 100), None);
    assert_eq!(board_44_128(masked, 400), None);
}

#[test]
fn a_441_retry_needs_seven_distinct_large_tiles() {
    let mut counts = [0u8; 16];
    for c in counts.iter_mut().take(15).skip(8) {
        *c = 1;
    }
    assert!(retry_441(&counts, 32512, 9));
    assert!(!retry_441(&counts, 32512 + 250, 9));
    counts[8] = 2;
    assert!(!retry_441(&counts, 32512, 9));
    let mut counts = [0u8; 16];
    for c in counts.iter_mut().take(13).skip(7) {
        *c = 1;
    }
    counts[15] = 1;
    assert!(retry_441(&counts, 8064 + 32768, 8));
    assert!(!retry_441(&counts, 8064 + 32768 + 120, 8));
}

#[test]
fn moves_on_an_image_are_the_mapped_moves_on_the_board() {
    let tables = init_tables();
    assert_eq!(board_move_for(0, 3), 3);
    assert_eq!(board_move_for(1, 1), 3);
    assert_eq!(board_move_for(7, 4), 1);
    assert_eq!(board_move_for(5, 0), 0);
    for board in [0x0123_4567_89ab_cdefu64, 0x1120_0300_1002_0011, 0x0000_0000_1111_2222] {
        let images = symmetries(board);
        for (kind, image) in images.iter().enumerate() {
            for m in 1..=4 {
                let on_image = execute_internal_move(&tables, *image, m);
                let on_board = execute_internal_move(&tables, board, board_move_for(kind, m));
                assert_eq!(on_image, symmetries(on_board)[kind]);
            }
        }
    }
}

#[test]
fn a_legalized_move_changes_the_board_or_none_does() {
    let tables = init_tables();
    let stuck: Board = 0x1212_2121_1212_2121;
    for m in 0..=5 {
        assert_eq!(legalize_internal_move(&tables, stuck, m), 0);
    }
    for board in [0x0000_0000_0000_0001u64, 0x1000_0000_0000_0000, 0x1212_2121_1212_2111, 0x0123_4567_89ab_cdef] {
        for m in 0..=5 {
            let chosen = legalize_internal_move(&tables, board, m);
            assert!((1..=4).contains(&chosen));
            assert_ne!(execute_internal_move(&tables, board, chosen), board);
        }
    }
}

#[test]
fn a_board_and_its_diagonal_mirror_share_a_key() {
    for board in [0x0123_4567_89ab_cdefu64, 0x1120_0300_1002_0011, 0xf000_0000_0000_0001] {
        assert_eq!(canonical_diagonal(board), canonical_diagonal(reverse_ul(board)));
        assert_eq!(canonical_diagonal(canonical_diagonal(board)), canonical_diagonal(board));
    }
}
