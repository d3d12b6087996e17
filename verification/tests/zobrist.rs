//! Zobrist keys and position hashes.

use igo::zobrist::{build_table, hash_board, stone};
use igo::{Board, Color, Point};

#[test]
fn table_entries_are_distinct() {
    let mut seen = std::collections::HashSet::new();
    for entry in build_table().iter() {
        assert!(seen.insert(entry[0]), "duplicate zobrist value");
        assert!(seen.insert(entry[1]), "duplicate zobrist value");
    }
}

#[test]
fn xor_is_self_inverse() {
    let h = stone(42, Color::Black);
    assert_eq!(h ^ h, 0);
    assert_ne!(stone(42, Color::Black), stone(42, Color::White));
    assert_ne!(stone(42, Color::Black), stone(43, Color::Black));
}

#[test]
fn incremental_matches_full_hash() {
    let mut board = Board::new(19);
    let mut h = 0u64;
    for (v, color) in [(0, Color::Black), (20, Color::White), (360, Color::Black)] {
        board.set(v, Point::Stone(color));
        h ^= stone(v, color);
    }
    assert_eq!(h, hash_board(&board));

    board.set(20, Point::Empty);
    h ^= stone(20, Color::White);
    assert_eq!(h, hash_board(&board));
}

#[test]
fn keys_follow_the_splitmix_stream() {
    // The first draw of SplitMix64 from the seed is black's key for point 0,
    // the second white's; every key lies beyond the last point is 0.
    let table = build_table();
    assert_eq!(table[0][0], stone(0, Color::Black));
    assert_eq!(table[0][1], stone(0, Color::White));
    assert_eq!(table[624][1], stone(624, Color::White));
    assert_eq!(stone(625, Color::Black), 0);
    assert_eq!(stone(9999, Color::White), 0);
}
