//! Numbers and values as records write and read them, and the words of
//! every refusal.

use std::collections::HashSet;

use igo::sgf::{self, SgfError};
use igo::komi::read_hundredths;
use igo::text::{push_decimal, push_hundredths, read_u32, trimmed, up_to_colon};
use igo::{Board, Color, Game, Move, MoveError, Point};

fn hundredths(v: i64) -> String {
    let mut s = String::new();
    push_hundredths(&mut s, v);
    s
}

#[test]
fn hundredths_print_like_floats() {
    assert_eq!(hundredths(750), "7.5");
    assert_eq!(hundredths(650), "6.5");
    assert_eq!(hundredths(0), "0");
    assert_eq!(hundredths(700), "7");
    assert_eq!(hundredths(-50), "-0.5");
    assert_eq!(hundredths(1225), "12.25");
    assert_eq!(hundredths(5), "0.05");
    assert_eq!(hundredths(-1000), "-10");
}

#[test]
fn decimals_are_written_in_full() {
    let mut s = "x".to_string();
    push_decimal(&mut s, 0);
    push_decimal(&mut s, 19);
    push_decimal(&mut s, u64::MAX);
    assert_eq!(s, format!("x019{}", u64::MAX));
}

#[test]
fn komi_values_read_back() {
    assert_eq!(read_hundredths(b"7.5"), Some(750));
    assert_eq!(read_hundredths(b"-0.5"), Some(-50));
    assert_eq!(read_hundredths(b"+6"), Some(600));
    assert_eq!(read_hundredths(b".25"), Some(25));
    assert_eq!(read_hundredths(b"5."), Some(500));
    assert_eq!(read_hundredths(b"0.125"), Some(12));
    assert_eq!(read_hundredths(b""), None);
    assert_eq!(read_hundredths(b"."), None);
    assert_eq!(read_hundredths(b"seven"), None);
    assert_eq!(read_hundredths(b"7.5x"), None);
    for v in [-100_000, -751, -1, 0, 1, 10, 99, 750, 123_456] {
        assert_eq!(read_hundredths(hundredths(v).as_bytes()), Some(v as i32));
    }
}

#[test]
fn every_komi_an_i32_of_hundredths_holds_reads_back() {
    for v in [i32::MIN, i32::MIN + 1, -1_500_000_000, 1_500_000_000, i32::MAX - 1, i32::MAX] {
        assert_eq!(read_hundredths(hundredths(v as i64).as_bytes()), Some(v));
    }
    assert_eq!(read_hundredths(b"15000000"), Some(1_500_000_000));
    assert_eq!(read_hundredths(b"21474836.47"), Some(i32::MAX));
    assert_eq!(read_hundredths(b"21474836.48"), None);
    assert_eq!(read_hundredths(b"-21474836.48"), Some(i32::MIN));
    assert_eq!(read_hundredths(b"-21474836.49"), None);
    assert_eq!(read_hundredths(b"99999999999999999999"), None);
}

#[test]
fn komi_may_carry_an_exponent() {
    assert_eq!(read_hundredths(b"1e1"), Some(1000));
    assert_eq!(read_hundredths(b"7.5E0"), Some(750));
    assert_eq!(read_hundredths(b"75e-1"), Some(750));
    assert_eq!(read_hundredths(b"-2.5e+2"), Some(-25000));
    assert_eq!(read_hundredths(b"1.e-2"), Some(1));
    assert_eq!(read_hundredths(b".5e1"), Some(500));
    assert_eq!(read_hundredths(b"123456789e-10"), Some(1));
    assert_eq!(read_hundredths(b"1e-3"), Some(0));
    assert_eq!(read_hundredths(b"1e999999999999999999999999"), None);
    assert_eq!(read_hundredths(b"0e999999999999999999999999"), Some(0));
    assert_eq!(read_hundredths(b"5e-999999999999999999999999"), Some(0));
    assert_eq!(read_hundredths(b"1e"), None);
    assert_eq!(read_hundredths(b"1e+"), None);
    assert_eq!(read_hundredths(b"e5"), None);
    assert_eq!(read_hundredths(b"1e5x"), None);
    assert_eq!(read_hundredths(b"inf"), None);
    assert_eq!(read_hundredths(b"nan"), None);
}

#[test]
fn sizes_read_as_unsigned_numbers() {
    assert_eq!(read_u32(b"19"), Some(19));
    assert_eq!(read_u32(b"+9"), Some(9));
    assert_eq!(read_u32(b"4294967295"), Some(u32::MAX));
    assert_eq!(read_u32(b"4294967296"), None);
    assert_eq!(read_u32(b"-1"), None);
    assert_eq!(read_u32(b""), None);
    assert_eq!(trimmed(b"  19 \t"), b"19".to_vec());
    assert_eq!(up_to_colon(b"19:13"), b"19".to_vec());
    assert_eq!(up_to_colon(b"19"), b"19".to_vec());
}

#[test]
fn a_size_beyond_the_range_is_refused_with_its_number() {
    assert_eq!(sgf::parse("(;SZ[26])"), Err(SgfError::BadSize(26)));
    assert_eq!(sgf::parse("(;SZ[1])"), Err(SgfError::BadSize(1)));
    assert_eq!(
        SgfError::BadSize(26).message(),
        "board size 26 is not supported"
    );
    // A size that is not a number counts as 19; the part after a colon is
    // ignored.
    assert_eq!(sgf::parse("(;SZ[big])").unwrap().size, 19);
    assert_eq!(sgf::parse("(;SZ[ 13 :9])").unwrap().size, 13);
}

#[test]
fn a_value_left_open_is_refused() {
    assert_eq!(sgf::parse("(;B[pd"), Err(SgfError::UnexpectedEnd));
    assert_eq!(sgf::parse("(;C[\\"), Err(SgfError::UnexpectedEnd));
    assert_eq!(
        SgfError::UnexpectedEnd.message(),
        "unexpected end of input"
    );
}

#[test]
fn text_without_a_tree_is_refused() {
    assert_eq!(sgf::parse(";B[pd]"), Err(SgfError::NoGameTree));
    assert_eq!(sgf::parse(""), Err(SgfError::NoGameTree));
    assert_eq!(SgfError::NoGameTree.message(), "no game tree found");
}

#[test]
fn an_unreadable_komi_falls_back_to_the_default() {
    let record = sgf::parse("(;KM[lots])").unwrap();
    assert_eq!(record.komi, igo::DEFAULT_KOMI);
    let record = sgf::parse("(;KM[ -3.25 ])").unwrap();
    assert_eq!(record.komi, -325);
    assert_eq!(sgf::parse("(;KM[inf])").unwrap().komi, igo::DEFAULT_KOMI);
    assert_eq!(sgf::parse("(;KM[6.5e0])").unwrap().komi, 650);
}

#[test]
fn a_large_komi_survives_export_and_replay() {
    for komi in [1_500_000_000, i32::MAX, i32::MIN, -1_234_567_891] {
        let mut game = Game::new(9, komi);
        game.play(Color::Black, Move::Play { vertex: 40 }).unwrap();
        game.play(Color::White, Move::Pass).unwrap();
        let text = sgf::to_sgf(&game);
        let record = sgf::parse(&text).unwrap();
        assert_eq!(record.komi, komi, "{text}");
        let (replayed, failure) = sgf::replay(&record);
        assert_eq!(failure, None);
        assert_eq!(replayed.komi(), komi);
        assert_eq!(sgf::to_sgf(&replayed), text, "export is stable");
    }
    let game = Game::new(9, 1_500_000_000);
    assert!(sgf::to_sgf(&game).contains("KM[15000000]"));
}

#[test]
fn a_game_clones_into_an_equal_game() {
    let mut game = Game::new(9, 650);
    game.play(Color::Black, Move::Play { vertex: 10 }).unwrap();
    let mut copy = game.clone();
    assert_eq!(sgf::to_sgf(&copy), sgf::to_sgf(&game));
    copy.play(Color::White, Move::Play { vertex: 11 }).unwrap();
    assert_eq!(game.move_number(), 1);
    assert_eq!(copy.move_number(), 2);
    assert_eq!(copy.board().get(11), Point::Stone(Color::White));
    assert_eq!(game.board().get(11), Point::Empty);
}

#[test]
fn every_refusal_has_its_words() {
    let cases = [
        (MoveError::NotPlaying, "the game is not in progress"),
        (MoveError::WrongTurn, "it is not your turn"),
        (MoveError::OffBoard, "that point is not on the board"),
        (MoveError::Occupied, "that point is already occupied"),
        (MoveError::Suicide, "that move is suicide"),
        (
            MoveError::Superko,
            "that move repeats a previous position (ko)",
        ),
    ];
    for (e, words) in cases {
        assert_eq!(e.message(), words);
    }
}

#[test]
fn a_counted_result_names_winner_and_margin() {
    let mut game = Game::new(5, 50);
    game.play(Color::Black, Move::Play { vertex: 12 }).unwrap();
    game.play(Color::White, Move::Pass).unwrap();
    game.play(Color::Black, Move::Pass).unwrap();
    let score = game.finish_with_dead(&HashSet::new()).unwrap();
    assert_eq!(score.black_stones + score.black_territory, 25);
    assert_eq!(score.margin(), 2450);
    assert!(sgf::to_sgf(&game).contains("RE[B+24.5]"));
}

#[test]
fn every_point_is_counted_once() {
    let mut board = Board::new(9);
    for v in [0u16, 1, 9, 40, 41, 80] {
        board.set(v, Point::Stone(Color::Black));
    }
    for v in [4u16, 13, 22, 70] {
        board.set(v, Point::Stone(Color::White));
    }
    let dead: HashSet<u16> = [40u16].into_iter().collect();
    let s = igo::score::area_score(&board, &dead, 0);
    assert_eq!(
        s.black_stones + s.black_territory + s.white_stones + s.white_territory + s.dame,
        81
    );
    let owners = igo::score::ownership(&board, &dead);
    assert_eq!(owners.len(), 81);
    assert_eq!(owners[0], 1);
    assert_eq!(owners[4], 2);
}
