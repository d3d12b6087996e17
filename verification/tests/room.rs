//! Room rules driven request by request, without a network in between.

use igo::protocol::{ClientMsg, Seats, ServerMsg};
use igo::room::{name_for_display, valid_room_id, RoomState};
use igo::{Color, GameResult, Move, Phase, Vertex, DEFAULT_KOMI};

fn at(row: u16, col: u16) -> Vertex {
    row * 19 + col
}

fn room() -> RoomState {
    RoomState::new(19, DEFAULT_KOMI)
}

fn join(r: &mut RoomState, conn: u64, token: &str, name: &str) -> Seats {
    r.join(conn, token.to_string(), name.to_string())
        .expect("a valid token")
}

fn claim(r: &mut RoomState, conn: u64, color: Color) -> Result<Vec<ServerMsg>, String> {
    r.apply(conn, ClientMsg::ClaimSeat { color })
}

fn play(r: &mut RoomState, conn: u64, move_number: usize, vertex: Vertex) -> Result<Vec<ServerMsg>, String> {
    r.apply(
        conn,
        ClientMsg::Play {
            move_number,
            mv: Move::Play { vertex },
        },
    )
}

fn pass(r: &mut RoomState, conn: u64, move_number: usize) -> Result<Vec<ServerMsg>, String> {
    r.apply(
        conn,
        ClientMsg::Play {
            move_number,
            mv: Move::Pass,
        },
    )
}

fn seats_of(msgs: &[ServerMsg]) -> Seats {
    match msgs {
        [ServerMsg::Seats { seats }] => seats.clone(),
        other => panic!("expected one seats message, got {other:?}"),
    }
}

fn seats(black: Option<&str>, white: Option<&str>) -> Seats {
    Seats {
        black: black.map(str::to_string),
        white: white.map(str::to_string),
    }
}

/// Black on conn 1 as "Black", white on conn 2 as "White", both seated.
fn seated() -> RoomState {
    let mut r = room();
    join(&mut r, 1, "tok-b", "Black");
    join(&mut r, 2, "tok-w", "White");
    claim(&mut r, 1, Color::Black).unwrap();
    let s = seats_of(&claim(&mut r, 2, Color::White).unwrap());
    assert_eq!(s, seats(Some("Black"), Some("White")));
    r
}

fn reason(r: Result<Vec<ServerMsg>, String>) -> String {
    r.expect_err("the request should be refused")
}

#[test]
fn a_room_is_created_by_the_first_visitor() {
    let mut r = room();
    assert_eq!(join(&mut r, 1, "tok-a", "Ada"), seats(None, None));
    join(&mut r, 2, "tok-b", "Bo");
    let s = seats_of(&claim(&mut r, 2, Color::Black).unwrap());
    assert_eq!(s, seats(Some("Bo"), None));
    assert_eq!(r.connections(), 2);
}

#[test]
fn two_players_claim_opposite_seats_and_play() {
    let mut r = seated();
    assert!(play(&mut r, 1, 0, at(3, 3)).unwrap().is_empty());
    let snap = r.snapshot_for(&"tok-w".to_string());
    assert_eq!(snap.to_play, Color::White);
    assert_eq!(snap.you, Some(Color::White));
    match r.history_since(0) {
        Some(ServerMsg::History { start, moves, to_play, .. }) => {
            assert_eq!(start, 0);
            assert_eq!(moves.len(), 1);
            assert_eq!(moves[0].color, Color::Black);
            assert_eq!(moves[0].mv, Move::Play { vertex: at(3, 3) });
            assert_eq!(to_play, Color::White);
        }
        other => panic!("{other:?}"),
    }
    play(&mut r, 2, 1, at(15, 15)).unwrap();
    match r.history_since(1) {
        Some(ServerMsg::History { start, moves, to_play, .. }) => {
            assert_eq!(start, 1);
            assert_eq!(moves[0].color, Color::White);
            assert_eq!(to_play, Color::Black);
        }
        other => panic!("{other:?}"),
    }
    assert!(r.history_since(2).is_none());
}

#[test]
fn a_seat_cannot_be_taken_twice() {
    let mut r = room();
    join(&mut r, 1, "tok-1", "First");
    join(&mut r, 2, "tok-2", "Second");
    claim(&mut r, 1, Color::Black).unwrap();
    assert!(reason(claim(&mut r, 2, Color::Black)).contains("taken"));
}

#[test]
fn one_person_cannot_hold_both_seats() {
    let mut r = room();
    join(&mut r, 1, "same-token", "Solo");
    claim(&mut r, 1, Color::Black).unwrap();
    join(&mut r, 2, "same-token", "Solo");
    assert!(reason(claim(&mut r, 2, Color::White)).contains("other colour"));
    assert_eq!(reason(claim(&mut r, 2, Color::Black)), "you already have that seat");
}

#[test]
fn spectators_cannot_move() {
    let mut r = seated();
    join(&mut r, 3, "tok-s", "Watcher");
    assert!(reason(play(&mut r, 3, 0, at(3, 3))).contains("watching"));
    assert_eq!(r.revision(), 0);
}

#[test]
fn moving_out_of_turn_is_refused() {
    let mut r = seated();
    assert!(reason(play(&mut r, 2, 0, at(3, 3))).contains("not your turn"));
}

#[test]
fn a_stale_move_number_is_dropped() {
    let mut r = seated();
    play(&mut r, 1, 0, at(3, 3)).unwrap();
    play(&mut r, 2, 1, at(15, 15)).unwrap();
    assert_eq!(
        reason(play(&mut r, 1, 1, at(9, 9))),
        "stale move: sent at move 1, game is at 2"
    );
}

#[test]
fn an_illegal_move_is_refused_without_closing_the_socket() {
    let mut r = seated();
    play(&mut r, 1, 0, at(3, 3)).unwrap();
    assert!(reason(play(&mut r, 2, 1, at(3, 3))).contains("occupied"));
    play(&mut r, 2, 1, at(15, 15)).unwrap();
    assert_eq!(r.revision(), 2);
}

#[test]
fn captures_are_reported_so_a_client_needs_no_rules() {
    let mut r = seated();
    play(&mut r, 1, 0, at(0, 1)).unwrap();
    play(&mut r, 2, 1, at(0, 0)).unwrap();
    play(&mut r, 1, 2, at(1, 0)).unwrap();
    match r.history_since(2) {
        Some(ServerMsg::History { moves, captures, .. }) => {
            assert_eq!(moves[0].captured, vec![at(0, 0)]);
            assert_eq!(captures, [1, 0]);
        }
        other => panic!("{other:?}"),
    }
}

#[test]
fn ko_is_refused_by_the_server() {
    let mut r = seated();
    let sequence = [
        at(1, 1),
        at(1, 2),
        at(2, 0),
        at(2, 3),
        at(2, 2),
        at(3, 2),
        at(3, 1),
        at(10, 10),
        at(12, 12),
    ];
    let mut n = 0;
    for vertex in sequence {
        let conn = if n % 2 == 0 { 1 } else { 2 };
        play(&mut r, conn, n, vertex).unwrap();
        n += 1;
    }
    play(&mut r, 2, n, at(2, 1)).unwrap();
    n += 1;
    assert!(reason(play(&mut r, 1, n, at(2, 2))).contains("ko"));
}

#[test]
fn reconnecting_with_the_same_token_restores_the_seat() {
    let mut r = seated();
    play(&mut r, 1, 0, at(3, 3)).unwrap();
    assert_eq!(r.leave(1), Some(1));
    assert_eq!(r.leave(1), None);
    join(&mut r, 7, "tok-b", "Black");
    let token = "tok-b".to_string();
    assert_eq!(r.seat_of(&token), Some(Color::Black));
    let snap = r.snapshot_for(&token);
    assert_eq!(snap.you, Some(Color::Black));
    assert_eq!(snap.move_number, 1);
    assert_eq!(snap.to_play, Color::White);
    assert_eq!(snap.seats.black.as_deref(), Some("Black"));
    assert_eq!(snap.board[at(3, 3) as usize], 1);
    assert_eq!(snap.connections, 2);
}

#[test]
fn a_different_token_does_not_inherit_a_seat() {
    let mut r = room();
    join(&mut r, 1, "tok-b", "Black");
    claim(&mut r, 1, Color::Black).unwrap();
    r.leave(1);
    join(&mut r, 2, "tok-x", "Impostor");
    assert!(reason(play(&mut r, 2, 0, at(3, 3))).contains("watching"));
}

fn dead_of(msg: &ServerMsg) -> (Vec<Vertex>, Vec<Color>) {
    match msg {
        ServerMsg::Dead {
            vertices, accepted, ..
        } => (vertices.clone(), accepted.clone()),
        other => panic!("expected a dead message, got {other:?}"),
    }
}

#[test]
fn two_passes_enter_scoring_and_agreement_ends_the_game() {
    let mut r = seated();
    play(&mut r, 1, 0, at(3, 3)).unwrap();
    play(&mut r, 2, 1, at(15, 15)).unwrap();
    assert!(pass(&mut r, 1, 2).unwrap().is_empty());
    let msgs = pass(&mut r, 2, 3).unwrap();
    assert_eq!(msgs.len(), 1);
    assert_eq!(dead_of(&msgs[0]), (vec![], vec![]));

    let msgs = r.apply(1, ClientMsg::AcceptScore).unwrap();
    assert_eq!(msgs.len(), 1, "one is not enough");
    assert_eq!(dead_of(&msgs[0]).1, vec![Color::Black]);

    let msgs = r.apply(2, ClientMsg::AcceptScore).unwrap();
    assert_eq!(msgs.len(), 2);
    assert_eq!(dead_of(&msgs[0]).1, vec![Color::Black, Color::White]);
    match &msgs[1] {
        ServerMsg::PhaseChanged {
            phase:
                Phase::Finished {
                    result: GameResult::Counted { score, winner },
                },
        } => {
            assert_eq!(score.black_stones, 1);
            assert_eq!(score.white_stones, 1);
            assert_eq!(*winner, Some(Color::White));
        }
        other => panic!("counted out rather than resigned: {other:?}"),
    }
}

#[test]
fn marking_stones_dead_clears_previous_agreement() {
    let mut r = seated();
    play(&mut r, 1, 0, at(3, 3)).unwrap();
    pass(&mut r, 2, 1).unwrap();
    pass(&mut r, 1, 2).unwrap();
    let msgs = r.apply(1, ClientMsg::AcceptScore).unwrap();
    assert_eq!(dead_of(&msgs[0]).1, vec![Color::Black]);

    let msgs = r.apply(2, ClientMsg::ToggleDead { vertex: at(3, 3) }).unwrap();
    assert_eq!(dead_of(&msgs[0]), (vec![at(3, 3)], vec![]));
    match &msgs[0] {
        ServerMsg::Dead { score, territory, .. } => {
            assert_eq!(score.black_stones, 0);
            assert_eq!(score.white_territory, 0);
            assert_eq!(territory[at(3, 3) as usize], 0);
        }
        other => panic!("{other:?}"),
    }

    // Toggling again lifts the mark.
    let msgs = r.apply(1, ClientMsg::ToggleDead { vertex: at(3, 3) }).unwrap();
    assert_eq!(dead_of(&msgs[0]), (vec![], vec![]));
}

#[test]
fn marks_cover_the_whole_chain() {
    let mut r = seated();
    play(&mut r, 1, 0, at(3, 3)).unwrap();
    play(&mut r, 2, 1, at(10, 10)).unwrap();
    play(&mut r, 1, 2, at(3, 4)).unwrap();
    pass(&mut r, 2, 3).unwrap();
    pass(&mut r, 1, 4).unwrap();
    let msgs = r.apply(2, ClientMsg::ToggleDead { vertex: at(3, 4) }).unwrap();
    assert_eq!(dead_of(&msgs[0]).0, vec![at(3, 3), at(3, 4)]);
    assert_eq!(
        reason(r.apply(2, ClientMsg::ToggleDead { vertex: at(5, 5) })),
        "there is no stone there"
    );
}

#[test]
fn players_can_resume_play_when_they_disagree() {
    let mut r = seated();
    pass(&mut r, 1, 0).unwrap();
    pass(&mut r, 2, 1).unwrap();
    let msgs = r.apply(1, ClientMsg::ResumePlay).unwrap();
    assert_eq!(msgs.len(), 2);
    assert!(matches!(msgs[0], ServerMsg::PhaseChanged { phase: Phase::Playing }));
    play(&mut r, 1, 2, at(3, 3)).unwrap();
    assert_eq!(r.revision(), 3);
    assert_eq!(
        reason(r.apply(1, ClientMsg::ResumePlay)),
        "the game is not in progress"
    );
}

#[test]
fn a_spectator_cannot_mark_stones() {
    let mut r = seated();
    join(&mut r, 3, "tok-s", "Watcher");
    play(&mut r, 1, 0, at(3, 3)).unwrap();
    pass(&mut r, 2, 1).unwrap();
    pass(&mut r, 1, 2).unwrap();
    assert!(reason(r.apply(3, ClientMsg::ToggleDead { vertex: at(3, 3) })).contains("only the players"));
    assert!(reason(r.apply(3, ClientMsg::AcceptScore)).contains("only the players"));
    assert!(reason(r.apply(3, ClientMsg::ResumePlay)).contains("only the players"));
}

#[test]
fn scoring_requests_outside_scoring_are_refused() {
    let mut r = seated();
    assert_eq!(
        reason(r.apply(1, ClientMsg::ToggleDead { vertex: at(3, 3) })),
        "the game is not being scored"
    );
    assert_eq!(
        reason(r.apply(1, ClientMsg::AcceptScore)),
        "the game is not being scored"
    );
}

#[test]
fn resignation_ends_the_game_immediately() {
    let mut r = seated();
    r.apply(
        1,
        ClientMsg::Play {
            move_number: 0,
            mv: Move::Resign,
        },
    )
    .unwrap();
    let snap = r.snapshot_for(&"tok-w".to_string());
    assert_eq!(
        snap.phase,
        Phase::Finished {
            result: GameResult::Resignation {
                winner: Color::White
            }
        }
    );
}

#[test]
fn a_seat_can_be_released_only_before_the_first_move() {
    let mut r = room();
    join(&mut r, 1, "tok-b", "Black");
    join(&mut r, 2, "tok-w", "White");
    claim(&mut r, 1, Color::Black).unwrap();
    let s = seats_of(&r.apply(1, ClientMsg::ReleaseSeat).unwrap());
    assert_eq!(s, seats(None, None));
    assert_eq!(reason(r.apply(1, ClientMsg::ReleaseSeat)), "you do not have a seat");

    claim(&mut r, 1, Color::Black).unwrap();
    claim(&mut r, 2, Color::White).unwrap();
    play(&mut r, 1, 0, at(3, 3)).unwrap();
    assert!(reason(r.apply(1, ClientMsg::ReleaseSeat)).contains("already started"));
}

#[test]
fn a_connection_must_identify_itself_first() {
    let mut r = room();
    assert_eq!(
        reason(claim(&mut r, 9, Color::Black)),
        "connection has not identified itself"
    );
}

#[test]
fn a_second_hello_renames_the_player() {
    let mut r = room();
    join(&mut r, 1, "tok-b", "Black");
    claim(&mut r, 1, Color::Black).unwrap();
    let msgs = r
        .apply(
            1,
            ClientMsg::Hello {
                token: "tok-b".to_string(),
                name: "Renamed".to_string(),
            },
        )
        .unwrap();
    assert_eq!(seats_of(&msgs), seats(Some("Renamed"), None));
    let why = reason(r.apply(
        1,
        ClientMsg::Hello {
            token: "someone-else".to_string(),
            name: "Nope".to_string(),
        },
    ));
    assert!(why.contains("change identity"));
}

#[test]
fn names_are_trimmed_and_defaulted() {
    let mut r = room();
    join(&mut r, 1, "tok-b", "   ");
    let s = seats_of(&claim(&mut r, 1, Color::Black).unwrap());
    assert_eq!(s, seats(Some("Anonymous"), None));

    let long = "x".repeat(200);
    let msgs = r
        .apply(
            1,
            ClientMsg::Hello {
                token: "tok-b".to_string(),
                name: long,
            },
        )
        .unwrap();
    let s = seats_of(&msgs);
    assert_eq!(s.black.unwrap().chars().count(), 40, "clamped to a sane length");
}

#[test]
fn a_name_is_cut_by_characters_not_bytes() {
    let name: String = "é".repeat(50);
    assert_eq!(name_for_display(&name), "é".repeat(40));
    assert_eq!(name_for_display(&" \t\n".to_string()), "Anonymous");
    assert_eq!(name_for_display(&"".to_string()), "Anonymous");
    assert_eq!(name_for_display(&" Ada ".to_string()), " Ada ");
}

#[test]
fn bad_tokens_are_refused() {
    let mut r = room();
    assert_eq!(
        r.join(1, String::new(), "Ada".to_string()),
        Err("invalid player token".to_string())
    );
    assert!(r.join(1, "t".repeat(65), "Ada".to_string()).is_err());
    assert!(r.join(1, "t".repeat(64), "Ada".to_string()).is_ok());
    assert_eq!(r.connections(), 1);
}

#[test]
fn unknown_rooms_and_bad_ids_are_rejected() {
    assert!(valid_room_id("never-played"));
    assert!(valid_room_id("abc_123"));
    assert!(!valid_room_id("has spaces"));
    assert!(!valid_room_id(""));
    assert!(!valid_room_id(&"x".repeat(64)));
    assert!(valid_room_id(&"x".repeat(32)));
    assert!(!valid_room_id("é"));
}

#[test]
fn sgf_is_downloadable_and_replays() {
    let mut r = seated();
    play(&mut r, 1, 0, at(3, 15)).unwrap();
    play(&mut r, 2, 1, at(15, 3)).unwrap();
    let body = r.sgf();
    assert!(body.contains(";B[pd];W[dp]"), "{body}");
    let record = igo::sgf::parse(&body).expect("our own export parses");
    let (game, failure) = igo::sgf::replay(&record);
    assert_eq!(failure, None);
    assert_eq!(game.move_number(), 2);
}

#[test]
fn claiming_a_seat_tells_that_connection_who_it_is() {
    let mut r = room();
    join(&mut r, 1, "tok-b", "Black");
    join(&mut r, 2, "tok-w", "White");
    let b = "tok-b".to_string();
    let w = "tok-w".to_string();

    claim(&mut r, 1, Color::Black).unwrap();
    assert_eq!(r.seat_change(&b, None), Some(Some(Color::Black)));
    assert_eq!(r.seat_change(&b, Some(Color::Black)), None);
    assert_eq!(r.seat_change(&w, None), None, "white's seat did not change");

    claim(&mut r, 2, Color::White).unwrap();
    assert_eq!(r.seat_change(&w, None), Some(Some(Color::White)));

    // Leaving the seat has to clear it again.
    r.apply(1, ClientMsg::ReleaseSeat).unwrap();
    assert_eq!(r.seat_change(&b, Some(Color::Black)), Some(None));
}

#[test]
fn another_tab_of_the_same_player_learns_its_seat() {
    let mut r = room();
    join(&mut r, 1, "tok-b", "Black");
    join(&mut r, 2, "tok-b", "Black");
    claim(&mut r, 1, Color::Black).unwrap();
    // The second tab had no seat when it joined; it learns the new one.
    assert_eq!(
        r.seat_change(&"tok-b".to_string(), None),
        Some(Some(Color::Black))
    );
}
