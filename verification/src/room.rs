//! The rules of a game room: who sits where, who may move, how the players
//! mark dead stones and agree the score, and what the room tells its
//! clients after each request.

use std::collections::{HashMap, HashSet};

use vstd::prelude::*;
use vstd::string::StringSliceAdditionalSpecFns;

use crate::board::{Color, Point, Vertex};
use crate::game::{
    after_move, capture_room, counted, game_wf, move_error_text, play_error, resumed, Game,
    GameView, MoveError, Phase,
};
use crate::protocol::{ClientMsg, ConnId, PlayerToken, Seats, ServerMsg, Snapshot};
use crate::score::{ownership, ownership_of, score_of};
use crate::text::{decimal, push_char, push_decimal, push_str};

verus! {

broadcast use vstd::std_specs::hash::group_hash_axioms;

pub const MAX_ROOM_ID_LEN: usize = 32;

/// Names are cut to this many characters.
pub const MAX_NAME_LEN: usize = 40;

/// Tokens are at most this many bytes.
pub const MAX_TOKEN_LEN: usize = 64;

// ----------------------------------------------------------------- room ids

/// An ASCII letter or digit, `-` or `_`.
pub open spec fn room_id_byte(b: u8) -> bool {
    (48 <= b <= 57) || (65 <= b <= 90) || (97 <= b <= 122) || b == 45 || b == 95
}

/// A room id is 1 to 32 bytes, each a letter or digit, `-` or `_`.
pub open spec fn room_id_ok(id: Seq<u8>) -> bool {
    &&& 0 < id.len() <= MAX_ROOM_ID_LEN
    &&& forall|i: int| 0 <= i < id.len() ==> room_id_byte(#[trigger] id[i])
}

pub fn valid_room_id(id: &str) -> (r: bool)
    ensures
        r == room_id_ok(id.spec_bytes()),
{
    let b = id.as_bytes();
    if b.len() == 0 || b.len() > MAX_ROOM_ID_LEN {
        return false;
    }
    let mut i: usize = 0;
    while i < b.len()
        invariant
            b@ == id.spec_bytes(),
            0 < b@.len() <= MAX_ROOM_ID_LEN,
            i <= b@.len(),
            forall|k: int| 0 <= k < i ==> room_id_byte(#[trigger] b@[k]),
        decreases b@.len() - i,
    {
        let c = b[i];
        if !((48 <= c && c <= 57) || (65 <= c && c <= 90) || (97 <= c && c <= 122) || c == 45 || c == 95) {
            assert(!room_id_byte(b@[i as int]));
            return false;
        }
        i += 1;
    }
    true
}

// -------------------------------------------------------------------- names

/// Whitespace as `char::is_whitespace` defines it.
pub open spec fn is_white(c: char) -> bool {
    let u = c as u32;
    (9 <= u <= 13) || u == 32 || u == 0x85 || u == 0xA0 || u == 0x1680 || (0x2000 <= u <= 0x200A) || u == 0x2028
        || u == 0x2029 || u == 0x202F || u == 0x205F || u == 0x3000
}

/// A display name: its first 40 characters, or `Anonymous` where those are
/// all whitespace.
pub open spec fn clean_name(n: Seq<char>) -> Seq<char> {
    if all_white(name_prefix(n)) {
        "Anonymous"@
    } else {
        name_prefix(n)
    }
}

/// The first 40 characters of `n`.
pub open spec fn name_prefix(n: Seq<char>) -> Seq<char> {
    if n.len() <= MAX_NAME_LEN {
        n
    } else {
        n.take(MAX_NAME_LEN as int)
    }
}

pub open spec fn all_white(t: Seq<char>) -> bool {
    forall|i: int| 0 <= i < t.len() ==> is_white(#[trigger] t[i])
}

fn white(c: char) -> (r: bool)
    ensures
        r == is_white(c),
{
    let u = c as u32;
    (9 <= u && u <= 13) || u == 32 || u == 0x85 || u == 0xA0 || u == 0x1680 || (0x2000 <= u && u <= 0x200A)
        || u == 0x2028 || u == 0x2029 || u == 0x202F || u == 0x205F || u == 0x3000
}

fn text(s: &str) -> (r: String)
    ensures
        r@ == s@,
{
    let mut out = String::new();
    push_str(&mut out, s);
    assert(out@ =~= s@);
    out
}

fn copy_string(s: &String) -> (r: String)
    ensures
        r@ == s@,
{
    s.clone()
}

/// The name a player will be shown under.
pub fn name_for_display(name: &String) -> (r: String)
    ensures
        r@ == clean_name(name@),
{
    let s = name.as_str();
    let len = s.unicode_len();
    let keep = if len <= MAX_NAME_LEN { len } else { MAX_NAME_LEN };
    let ghost t = name_prefix(name@);
    let mut out = String::new();
    let mut blank = true;
    let mut i: usize = 0;
    while i < keep
        invariant
            s@ == name@,
            keep as int == t.len(),
            t == name_prefix(name@),
            i <= keep,
            out@ == t.take(i as int),
            blank == forall|k: int| 0 <= k < i ==> is_white(#[trigger] t[k]),
        decreases keep - i,
    {
        let c = s.get_char(i);
        assert(c == t[i as int]);
        push_char(&mut out, c);
        if !white(c) {
            blank = false;
        }
        i += 1;
        assert(out@ =~= t.take(i as int));
    }
    assert(t.take(i as int) =~= t);
    assert(blank == forall|k: int| 0 <= k < t.len() ==> is_white(#[trigger] t[k]));
    if blank {
        let r = text("Anonymous");
        assert(clean_name(name@) == "Anonymous"@);
        r
    } else {
        assert(clean_name(name@) == t);
        out
    }
}

/// The first name recorded for `token`.
pub open spec fn lookup(names: Seq<(Seq<char>, Seq<char>)>, token: Seq<char>) -> Option<Seq<char>>
    decreases names.len(),
{
    if names.len() == 0 {
        None
    } else if names[0].0 == token {
        Some(names[0].1)
    } else {
        lookup(names.drop_first(), token)
    }
}

/// Where `token` first occurs.
pub open spec fn position_of(names: Seq<(Seq<char>, Seq<char>)>, token: Seq<char>) -> Option<int>
    decreases names.len(),
{
    if names.len() == 0 {
        None
    } else if names[0].0 == token {
        Some(0)
    } else {
        match position_of(names.drop_first(), token) {
            Some(k) => Some(k + 1),
            None => None,
        }
    }
}

/// The names with `token`'s name replaced by `name`, or added.
pub open spec fn upsert(names: Seq<(Seq<char>, Seq<char>)>, token: Seq<char>, name: Seq<char>) -> Seq<(Seq<char>, Seq<char>)> {
    match position_of(names, token) {
        Some(k) => names.update(k, (token, name)),
        None => names.push((token, name)),
    }
}

// -------------------------------------------------------------------- rooms

/// Who holds a seat: the player's token and display name.
#[verifier::ext_equal]
pub struct Holder {
    pub token: Seq<char>,
    pub name: Seq<char>,
}

/// The state of a room: its game, its two seats, the token behind each open
/// connection, the names players gave, the stones marked dead, and which
/// colours accepted the score.
#[verifier::ext_equal]
pub struct RoomView {
    pub game: GameView,
    pub black: Option<Holder>,
    pub white: Option<Holder>,
    pub conns: Map<ConnId, Seq<char>>,
    pub names: Seq<(Seq<char>, Seq<char>)>,
    pub dead: Set<Vertex>,
    pub accepted_black: bool,
    pub accepted_white: bool,
}

struct SeatHolder {
    token: PlayerToken,
    name: String,
}

pub struct RoomState {
    game: Game,
    black: Option<SeatHolder>,
    white: Option<SeatHolder>,
    conns: HashMap<ConnId, PlayerToken>,
    names: Vec<(PlayerToken, String)>,
    dead: HashSet<Vertex>,
    accepted_black: bool,
    accepted_white: bool,
}

spec fn holder_view(h: Option<SeatHolder>) -> Option<Holder> {
    match h {
        Some(h) => Some(Holder { token: h.token@, name: h.name@ }),
        None => None,
    }
}

pub open spec fn name_pair(e: (PlayerToken, String)) -> (Seq<char>, Seq<char>) {
    (e.0@, e.1@)
}

impl View for RoomState {
    type V = RoomView;

    closed spec fn view(&self) -> RoomView {
        RoomView {
            game: self.game@,
            black: holder_view(self.black),
            white: holder_view(self.white),
            conns: self.conns@.map_values(|t: PlayerToken| t@),
            names: self.names@.map_values(|e: (PlayerToken, String)| name_pair(e)),
            dead: self.dead@,
            accepted_black: self.accepted_black,
            accepted_white: self.accepted_white,
        }
    }
}

/// What every room keeps: a sound game, marks only on the board, and no
/// player in both seats.
pub open spec fn room_wf(r: RoomView) -> bool {
    &&& game_wf(r.game)
    &&& forall|v: Vertex| #[trigger] r.dead.contains(v) ==> (v as int) < r.game.board.points.len()
    &&& match (r.black, r.white) {
        (Some(b), Some(w)) => b.token != w.token,
        _ => true,
    }
    &&& names_distinct(r.names)
}

/// No token has two names recorded.
pub open spec fn names_distinct(names: Seq<(Seq<char>, Seq<char>)>) -> bool {
    forall|i: int, j: int| 0 <= i < j < names.len() ==> #[trigger] names[i].0 != #[trigger] names[j].0
}

/// Recording a name keeps the tokens distinct.
pub proof fn lemma_upsert_distinct(names: Seq<(Seq<char>, Seq<char>)>, token: Seq<char>, name: Seq<char>)
    requires
        names_distinct(names),
    ensures
        names_distinct(upsert(names, token, name)),
        upsert(names, token, name).len() == names.len() + (if position_of(names, token) is None { 1int } else { 0 }),
{
    lemma_position_in_range(names, token);
    lemma_position_none(names, token);
    let u = upsert(names, token, name);
    match position_of(names, token) {
        Some(k) => {
            assert forall|i: int, j: int| 0 <= i < j < u.len() implies #[trigger] u[i].0 != #[trigger] u[j].0 by {
                if i == k {
                    assert(names[j].0 != names[k].0);
                } else if j == k {
                    assert(names[i].0 != names[k].0);
                } else {
                    assert(names[i].0 != names[j].0);
                }
            }
        },
        None => {
            assert forall|i: int, j: int| 0 <= i < j < u.len() implies #[trigger] u[i].0 != #[trigger] u[j].0 by {
                if j == names.len() {
                    assert(names[i].0 != token);
                } else {
                    assert(names[i].0 != names[j].0);
                }
            }
        },
    }
}

proof fn lemma_position_none(names: Seq<(Seq<char>, Seq<char>)>, token: Seq<char>)
    ensures
        position_of(names, token) is None ==> forall|i: int| 0 <= i < names.len() ==> #[trigger] names[i].0 != token,
    decreases names.len(),
{
    if names.len() > 0 {
        lemma_position_none(names.drop_first(), token);
        if position_of(names, token) is None {
            assert forall|i: int| 0 <= i < names.len() implies #[trigger] names[i].0 != token by {
                if i > 0 {
                    assert(names[i] == names.drop_first()[i - 1]);
                }
            }
        }
    }
}

pub open spec fn seat(r: RoomView, c: Color) -> Option<Holder> {
    match c {
        Color::Black => r.black,
        Color::White => r.white,
    }
}

pub open spec fn with_seat(r: RoomView, c: Color, h: Option<Holder>) -> RoomView {
    match c {
        Color::Black => RoomView { black: h, ..r },
        Color::White => RoomView { white: h, ..r },
    }
}

/// The seat `token` holds, black looked at first.
pub open spec fn seat_of_spec(r: RoomView, token: Seq<char>) -> Option<Color> {
    if r.black matches Some(h) && h.token == token {
        Some(Color::Black)
    } else if r.white matches Some(h) && h.token == token {
        Some(Color::White)
    } else {
        None
    }
}

/// The room after `token` names itself `name`: the name is recorded, and
/// shown on the seat the player holds.
pub open spec fn renamed(r: RoomView, token: Seq<char>, name: Seq<char>) -> RoomView {
    let n = clean_name(name);
    let r1 = RoomView { names: upsert(r.names, token, n), ..r };
    match seat_of_spec(r, token) {
        Some(c) => with_seat(r1, c, Some(Holder { token, name: n })),
        None => r1,
    }
}

/// The room after connection `conn` identifies as `token` named `name`.
pub open spec fn joined(r: RoomView, conn: ConnId, token: Seq<char>, name: Seq<char>) -> RoomView {
    renamed(RoomView { conns: r.conns.insert(conn, token), ..r }, token, name)
}

/// The dead marks after toggling a chain: lifted where every stone of it
/// was marked, added otherwise.
pub open spec fn toggled(dead: Set<Vertex>, chain: Seq<int>) -> Set<Vertex> {
    if forall|k: int| 0 <= k < chain.len() ==> dead.contains(#[trigger] chain[k] as Vertex) {
        dead.filter(|v: Vertex| !chain.contains(v as int))
    } else {
        dead.union(Set::new(|v: Vertex| chain.contains(v as int)))
    }
}

/// The room after `c` accepts the score.
pub open spec fn accept(r: RoomView, c: Color) -> RoomView {
    match c {
        Color::Black => RoomView { accepted_black: true, ..r },
        Color::White => RoomView { accepted_white: true, ..r },
    }
}

pub open spec fn stale_text(sent: int, current: int) -> Seq<char> {
    "stale move: sent at move "@ + decimal(sent as nat) + ", game is at "@ + decimal(current as nat)
}

/// What a request does to the room, or why it is refused.
pub open spec fn step(r: RoomView, id: ConnId, msg: ClientMsg) -> Result<RoomView, Seq<char>> {
    if !r.conns.contains_key(id) {
        Err("connection has not identified itself"@)
    } else {
        let token = r.conns[id];
        let board = r.game.board;
        match msg {
            ClientMsg::Hello { token: sent, name } => if sent@ != token {
                Err("cannot change identity on an open connection"@)
            } else {
                Ok(renamed(r, token, name@))
            },
            ClientMsg::ClaimSeat { color } => match seat_of_spec(r, token) {
                Some(held) => Err(
                    if held == color {
                        "you already have that seat"@
                    } else {
                        "you are already playing the other colour"@
                    },
                ),
                None => if seat(r, color) is Some {
                    Err("that seat is taken"@)
                } else {
                    let name = match lookup(r.names, token) {
                        Some(n) => n,
                        None => "Anonymous"@,
                    };
                    Ok(with_seat(r, color, Some(Holder { token, name })))
                },
            },
            ClientMsg::ReleaseSeat => match seat_of_spec(r, token) {
                None => Err("you do not have a seat"@),
                Some(c) => if r.game.history.len() > 0 {
                    Err("the game has already started"@)
                } else {
                    Ok(with_seat(r, c, None))
                },
            },
            ClientMsg::Play { move_number, mv } => match seat_of_spec(r, token) {
                None => Err("you are watching this game, not playing it"@),
                Some(c) => if move_number != r.game.history.len() {
                    Err(stale_text(move_number as int, r.game.history.len() as int))
                } else {
                    match play_error(r.game, c, mv) {
                        Some(e) => Err(move_error_text(e)),
                        None => Ok(RoomView { game: after_move(r.game, c, mv), ..r }),
                    }
                },
            },
            ClientMsg::ToggleDead { vertex } => if r.game.phase != Phase::Scoring {
                Err("the game is not being scored"@)
            } else if seat_of_spec(r, token) is None {
                Err("only the players may mark stones"@)
            } else if !((vertex as int) < board.points.len() && board.points[vertex as int] is Stone) {
                Err("there is no stone there"@)
            } else {
                Ok(
                    RoomView {
                        dead: toggled(r.dead, crate::board::group_list(board, vertex as int)),
                        accepted_black: false,
                        accepted_white: false,
                        ..r
                    },
                )
            },
            ClientMsg::AcceptScore => if r.game.phase != Phase::Scoring {
                Err("the game is not being scored"@)
            } else {
                match seat_of_spec(r, token) {
                    None => Err("only the players may agree the score"@),
                    Some(c) => if r.black is None || r.white is None {
                        Err("both seats must be filled to finish the game"@)
                    } else {
                        let r1 = accept(r, c);
                        if r1.accepted_black && r1.accepted_white {
                            Ok(RoomView { game: counted(r.game, score_of(board, r.dead, r.game.komi)), ..r1 })
                        } else {
                            Ok(r1)
                        }
                    },
                }
            },
            ClientMsg::ResumePlay => match seat_of_spec(r, token) {
                None => Err("only the players may resume the game"@),
                Some(_) => if r.game.phase != Phase::Scoring {
                    Err(move_error_text(MoveError::NotPlaying))
                } else {
                    Ok(
                        RoomView {
                            game: resumed(r.game),
                            dead: Set::empty(),
                            accepted_black: false,
                            accepted_white: false,
                            ..r
                        },
                    )
                },
            },
        }
    }
}

// ----------------------------------------------------------------- messages

pub open spec fn name_opt(o: Option<String>) -> Option<Seq<char>> {
    match o {
        Some(s) => Some(s@),
        None => None,
    }
}

pub open spec fn holder_name(h: Option<Holder>) -> Option<Seq<char>> {
    match h {
        Some(h) => Some(h.name),
        None => None,
    }
}

/// `s` names the seated players of `r`.
pub open spec fn seats_match(s: Seats, r: RoomView) -> bool {
    name_opt(s.black) == holder_name(r.black) && name_opt(s.white) == holder_name(r.white)
}

/// The colours that accepted the score, black first.
pub open spec fn accepted_list(r: RoomView) -> Seq<Color> {
    (if r.accepted_black { seq![Color::Black] } else { Seq::empty() }) + (if r.accepted_white {
        seq![Color::White]
    } else {
        Seq::empty()
    })
}

/// `vs` lists the dead marks of `r` once each in increasing order.
pub open spec fn lists_dead(vs: Seq<Vertex>, r: RoomView) -> bool {
    &&& forall|a: int, b: int| 0 <= a < b < vs.len() ==> vs[a] < vs[b]
    &&& forall|v: Vertex| #[trigger] vs.contains(v) <==> r.dead.contains(v)
}

/// `m` reports the marks, the agreement, the score and the ownership of
/// every point of `r`.
pub open spec fn dead_msg_ok(m: ServerMsg, r: RoomView) -> bool {
    m matches ServerMsg::Dead { vertices, accepted, score, territory } && lists_dead(vertices@, r)
        && accepted@ == accepted_list(r) && score == score_of(r.game.board, r.dead, r.game.komi)
        && territory@ == ownership_of(r.game.board, r.dead)
}

/// `m` carries the moves of `r` from `start` on, with the turn, the
/// captures and the phase they lead to.
pub open spec fn history_msg_ok(m: ServerMsg, r: RoomView, start: int) -> bool {
    m matches ServerMsg::History { start: s, moves, to_play, captures, phase } && s == start
        && moves@.map_values(|a: crate::game::Applied| crate::game::applied_view(a)) == r.game.history.skip(start)
        && to_play == r.game.to_play && captures@ == r.game.captures && phase == r.game.phase
}

pub open spec fn seats_msg_ok(m: ServerMsg, r: RoomView) -> bool {
    m matches ServerMsg::Seats { seats } && seats_match(seats, r)
}

pub open spec fn phase_msg_ok(m: ServerMsg, p: Phase) -> bool {
    m matches ServerMsg::PhaseChanged { phase } && phase == p
}

/// What the room broadcasts after an accepted request, in order.
pub open spec fn broadcasts_ok(msg: ClientMsg, r: RoomView, ms: Seq<ServerMsg>) -> bool {
    match msg {
        ClientMsg::Hello { .. } | ClientMsg::ClaimSeat { .. } | ClientMsg::ReleaseSeat => ms.len() == 1
            && seats_msg_ok(ms[0], r),
        ClientMsg::Play { .. } => if r.game.phase == Phase::Scoring {
            ms.len() == 1 && dead_msg_ok(ms[0], r)
        } else {
            ms.len() == 0
        },
        ClientMsg::ToggleDead { .. } => ms.len() == 1 && dead_msg_ok(ms[0], r),
        ClientMsg::AcceptScore => if r.game.phase is Finished {
            ms.len() == 2 && dead_msg_ok(ms[0], r) && phase_msg_ok(ms[1], r.game.phase)
        } else {
            ms.len() == 1 && dead_msg_ok(ms[0], r)
        },
        ClientMsg::ResumePlay => ms.len() == 2 && phase_msg_ok(ms[0], r.game.phase) && dead_msg_ok(ms[1], r),
    }
}

/// A fresh room.
pub open spec fn fresh_room(size: u8, komi: i32) -> RoomView {
    RoomView {
        game: crate::game::initial(crate::board::empty_board(size as int), Color::Black, komi),
        black: None,
        white: None,
        conns: Map::empty(),
        names: Seq::empty(),
        dead: Set::empty(),
        accepted_black: false,
        accepted_white: false,
    }
}

/// The room after connection `conn` closes; seats stay as they are.
pub open spec fn without_conn(r: RoomView, conn: ConnId) -> RoomView {
    RoomView { conns: r.conns.remove(conn), ..r }
}

/// A token is refused when it is empty or longer than 64 bytes.
pub open spec fn token_ok(token: Seq<char>) -> bool {
    token.len() > 0 && vstd::utf8::encode_utf8(token).len() <= MAX_TOKEN_LEN
}

impl RoomState {
    pub open spec fn wf(&self) -> bool {
        room_wf(self@)
    }

    pub fn new(size: u8, komi: i32) -> (r: RoomState)
        ensures
            r.wf(),
            r@ == fresh_room(size, komi),
    {
        let r = RoomState {
            game: Game::new(size, komi),
            black: None,
            white: None,
            conns: HashMap::new(),
            names: Vec::new(),
            dead: HashSet::new(),
            accepted_black: false,
            accepted_white: false,
        };
        assert(r@.conns =~= Map::empty());
        assert(r@.names =~= Seq::empty());
        assert(r@.dead =~= Set::empty());
        r
    }

    /// The seat `token` holds.
    pub fn seat_of(&self, token: &PlayerToken) -> (r: Option<Color>)
        ensures
            r == seat_of_spec(self@, token@),
    {
        if let Some(h) = &self.black {
            if h.token == *token {
                return Some(Color::Black);
            }
        }
        if let Some(h) = &self.white {
            if h.token == *token {
                return Some(Color::White);
            }
        }
        None
    }

    /// The seat `token` holds now, where that differs from `previous`;
    /// `None` where it is unchanged.
    pub fn seat_change(&self, token: &PlayerToken, previous: Option<Color>) -> (r: Option<Option<Color>>)
        ensures
            r == (if seat_of_spec(self@, token@) != previous {
                Some(seat_of_spec(self@, token@))
            } else {
                None::<Option<Color>>
            }),
    {
        let now = self.seat_of(token);
        let same = match (now, previous) {
            (None, None) => true,
            (Some(a), Some(b)) => a == b,
            _ => false,
        };
        if same {
            None
        } else {
            Some(now)
        }
    }

    fn seats_view(&self) -> (r: Seats)
        ensures
            seats_match(r, self@),
    {
        let black = match &self.black {
            Some(h) => Some(copy_string(&h.name)),
            None => None,
        };
        let white = match &self.white {
            Some(h) => Some(copy_string(&h.name)),
            None => None,
        };
        Seats { black, white }
    }

    fn dead_sorted(&self) -> (r: Vec<Vertex>)
        requires
            self.wf(),
        ensures
            lists_dead(r@, self@),
    {
        let n = self.game.board().len();
        let ghost b = self@.game.board;
        assert(b.size * b.size <= 625) by (nonlinear_arith)
            requires 2 <= b.size <= 25;
        let mut out: Vec<Vertex> = Vec::new();
        let mut v: usize = 0;
        while v < n
            invariant
                self.wf(),
                n == self@.game.board.points.len(),
                n <= 625,
                v <= n,
                forall|a: int, c: int| 0 <= a < c < out@.len() ==> out@[a] < out@[c],
                forall|a: int| 0 <= a < out@.len() ==> (#[trigger] out@[a] as int) < v,
                forall|x: Vertex| #[trigger] out@.contains(x) <==> (self@.dead.contains(x) && (x as int) < v),
            decreases n - v,
        {
            let ghost before = out@;
            let ghost w = v as Vertex;
            assert(w as int == v as int);
            if self.dead.contains(&(v as Vertex)) {
                out.push(v as Vertex);
                assert(out@ == before.push(w));
                assert(out@[before.len() as int] == w);
                assert forall|x: Vertex| #[trigger] out@.contains(x) <==> (self@.dead.contains(x) && (x as int) < v + 1) by {
                    if out@.contains(x) {
                        let k = choose|k: int| 0 <= k < out@.len() && out@[k] == x;
                        if k < before.len() {
                            assert(before[k] == x);
                            assert(before.contains(x));
                        }
                    }
                    if self@.dead.contains(x) && (x as int) < v {
                        assert(before.contains(x));
                        let k = choose|k: int| 0 <= k < before.len() && before[k] == x;
                        assert(out@[k] == x);
                    }
                    if self@.dead.contains(x) && x as int == v {
                        assert(x == w);
                    }
                }
            } else {
                assert(out@ == before);
                assert forall|x: Vertex| #[trigger] out@.contains(x) <==> (self@.dead.contains(x) && (x as int) < v + 1) by {
                    if x as int == v {
                        assert(x == w);
                        if out@.contains(x) {
                            let k = choose|k: int| 0 <= k < out@.len() && out@[k] == x;
                            assert((before[k] as int) < v);
                        }
                    }
                }
            }
            v += 1;
        }
        assert forall|x: Vertex| #[trigger] out@.contains(x) <==> self@.dead.contains(x) by {
            if self@.dead.contains(x) {
                assert((x as int) < n);
            }
        }
        out
    }

    fn accepted_sorted(&self) -> (r: Vec<Color>)
        ensures
            r@ == accepted_list(self@),
    {
        let mut out: Vec<Color> = Vec::new();
        if self.accepted_black {
            out.push(Color::Black);
        }
        if self.accepted_white {
            out.push(Color::White);
        }
        assert(out@ =~= accepted_list(self@));
        out
    }

    fn dead_message(&self) -> (m: ServerMsg)
        requires
            self.wf(),
        ensures
            dead_msg_ok(m, self@),
    {
        ServerMsg::Dead {
            vertices: self.dead_sorted(),
            accepted: self.accepted_sorted(),
            score: self.game.provisional_score(&self.dead),
            territory: ownership(self.game.board(), &self.dead),
        }
    }

    /// The name recorded for `token`.
    fn name_of(&self, token: &PlayerToken) -> (r: Option<String>)
        ensures
            name_opt(r) == lookup(self@.names, token@),
    {
        let ghost names = self@.names;
        let mut i: usize = 0;
        assert(names.skip(0) =~= names);
        while i < self.names.len()
            invariant
                names == self@.names,
                names.len() == self.names@.len(),
                i <= names.len(),
                lookup(names, token@) == lookup(names.skip(i as int), token@),
            decreases names.len() - i,
        {
            assert(names[i as int] == name_pair(self.names@[i as int]));
            assert(names.skip(i as int)[0] == names[i as int]);
            if self.names[i].0 == *token {
                return Some(copy_string(&self.names[i].1));
            }
            assert(names.skip(i as int).drop_first() =~= names.skip(i + 1));
            i += 1;
        }
        None
    }

    /// Where `token`'s name is recorded.
    fn name_slot(&self, token: &PlayerToken) -> (r: Option<usize>)
        ensures
            match r {
                Some(k) => position_of(self@.names, token@) == Some(k as int),
                None => position_of(self@.names, token@) is None,
            },
            position_of(self@.names, token@) matches Some(k) ==> 0 <= k < self@.names.len(),
    {
        let ghost names = self@.names;
        let mut i: usize = 0;
        assert(names.skip(0) =~= names);
        proof {
            lemma_position_in_range(names, token@);
        }
        while i < self.names.len()
            invariant
                names == self@.names,
                names.len() == self.names@.len(),
                i <= names.len(),
                position_of(names, token@) == match position_of(names.skip(i as int), token@) {
                    Some(k) => Some(k + i),
                    None => None,
                },
                position_of(names, token@) matches Some(k) ==> 0 <= k < names.len(),
            decreases names.len() - i,
        {
            assert(names[i as int] == name_pair(self.names@[i as int]));
            assert(names.skip(i as int)[0] == names[i as int]);
            if self.names[i].0 == *token {
                return Some(i);
            }
            assert(names.skip(i as int).drop_first() =~= names.skip(i + 1));
            i += 1;
        }
        None
    }

    /// Records `name` for `token` and shows it on the seat the player holds.
    fn set_name(&mut self, token: &PlayerToken, name: &String)
        requires
            old(self).wf(),
        ensures
            final(self).wf(),
            final(self)@ == renamed(old(self)@, token@, name@),
    {
        let clean = name_for_display(name);
        let ghost names0 = self@.names;
        match self.name_slot(token) {
            Some(k) => {
                self.names.set(k, (copy_string(token), copy_string(&clean)));
            },
            None => {
                self.names.push((copy_string(token), copy_string(&clean)));
            },
        }
        assert(self@.names =~= upsert(names0, token@, clean@));
        proof {
            lemma_upsert_distinct(names0, token@, clean@);
        }
        match self.seat_of(token) {
            Some(Color::Black) => {
                self.black = Some(SeatHolder { token: copy_string(token), name: clean });
            },
            Some(Color::White) => {
                self.white = Some(SeatHolder { token: copy_string(token), name: clean });
            },
            None => {},
        }
        assert(self@ =~= renamed(old(self)@, token@, name@));
    }

    /// Connection `conn` identifies as `token` named `name`.
    pub fn join(&mut self, conn: ConnId, token: PlayerToken, name: String) -> (r: Result<Seats, String>)
        requires
            old(self).wf(),
        ensures
            final(self).wf(),
            match r {
                Ok(s) => {
                    &&& token_ok(token@)
                    &&& final(self)@ == joined(old(self)@, conn, token@, name@)
                    &&& seats_match(s, final(self)@)
                },
                Err(e) => {
                    &&& !token_ok(token@)
                    &&& e@ == "invalid player token"@
                    &&& final(self)@ == old(self)@
                },
            },
    {
        let bytes = token.as_str().as_bytes();
        if token.as_str().is_empty() || bytes.len() > MAX_TOKEN_LEN {
            return Err(text("invalid player token"));
        }
        let ghost r0 = self@;
        self.conns.insert(conn, copy_string(&token));
        assert(self@ =~= RoomView { conns: r0.conns.insert(conn, token@), ..r0 });
        let ghost r1 = self@;
        self.set_name(&token, &name);
        assert(self@ == renamed(r1, token@, name@));
        assert(self@ == joined(r0, conn, token@, name@));
        let s = self.seats_view();
        assert(token_ok(token@));
        Ok(s)
    }

    /// Connection `conn` leaves; returns how many remain when it was known.
    pub fn leave(&mut self, conn: ConnId) -> (r: Option<usize>)
        requires
            old(self).wf(),
        ensures
            final(self).wf(),
            final(self)@ == without_conn(old(self)@, conn),
            r == (if old(self)@.conns.contains_key(conn) {
                Some(final(self)@.conns.len() as usize)
            } else {
                None::<usize>
            }),
    {
        let ghost r0 = self@;
        let departed = self.conns.remove(&conn).is_some();
        assert(self@ =~= RoomView { conns: r0.conns.remove(conn), ..r0 });
        assert(self@.conns.dom() =~= self.conns@.dom());
        if departed {
            Some(self.conns.len())
        } else {
            None
        }
    }

    /// How many connections are open.
    pub fn connections(&self) -> (r: usize)
        ensures
            r == self@.conns.len(),
    {
        assert(self@.conns.dom() =~= self.conns@.dom());
        self.conns.len()
    }

    /// The number of moves played.
    pub fn revision(&self) -> (r: usize)
        ensures
            r == self@.game.history.len(),
    {
        self.game.move_number()
    }

    /// The game's record in SGF.
    pub fn sgf(&self) -> (r: String)
        requires
            self.wf(),
        ensures
            r@ == crate::sgf::sgf_text(self@.game),
    {
        crate::sgf::to_sgf(&self.game)
    }

    /// Everything the client of `token` needs to draw the room.
    pub fn snapshot_for(&self, token: &PlayerToken) -> (s: Snapshot)
        requires
            self.wf(),
        ensures
            s.size as int == self@.game.board.size,
            s.komi == self@.game.komi,
            s.board@ == self@.game.board.points.map_values(|p: Point| crate::board::point_byte(p)),
            s.to_play == self@.game.to_play,
            s.move_number == self@.game.history.len(),
            s.captures@ == self@.game.captures,
            s.phase == self@.game.phase,
            seats_match(s.seats, self@),
            lists_dead(s.dead@, self@),
            s.accepted@ == accepted_list(self@),
            s.you == seat_of_spec(self@, token@),
            s.connections == self@.conns.len(),
    {
        assert(self@.conns.dom() =~= self.conns@.dom());
        Snapshot {
            size: self.game.board().size(),
            komi: self.game.komi(),
            board: self.game.board().as_bytes(),
            to_play: self.game.to_play(),
            move_number: self.game.move_number(),
            captures: self.game.captures(),
            phase: *self.game.phase(),
            seats: self.seats_view(),
            dead: self.dead_sorted(),
            accepted: self.accepted_sorted(),
            you: self.seat_of(token),
            connections: self.conns.len(),
        }
    }

    /// The moves played from `start` on, with the state they lead to;
    /// `None` when there are none.
    pub fn history_since(&self, start: usize) -> (r: Option<ServerMsg>)
        requires
            self.wf(),
        ensures
            match r {
                None => start >= self@.game.history.len(),
                Some(m) => start < self@.game.history.len() && history_msg_ok(m, self@, start as int),
            },
    {
        let log = self.game.history();
        if start >= log.len() {
            return None;
        }
        let mut moves: Vec<crate::game::Applied> = Vec::new();
        let mut k: usize = start;
        let ghost h = self@.game.history;
        while k < log.len()
            invariant
                log@.map_values(|a: crate::game::Applied| crate::game::applied_view(a)) == h,
                start <= k <= log@.len(),
                moves@.map_values(|a: crate::game::Applied| crate::game::applied_view(a)) == h.subrange(start as int, k as int),
            decreases log@.len() - k,
        {
            let a = log[k].clone();
            assert(crate::game::applied_view(log@[k as int]) == h[k as int]);
            assert(crate::game::applied_view(a) == h[k as int]);
            let ghost before = moves@;
            moves.push(a);
            assert(moves@ == before.push(a));
            assert(moves@.map_values(|a: crate::game::Applied| crate::game::applied_view(a)) =~= before.map_values(|a: crate::game::Applied| crate::game::applied_view(a)).push(crate::game::applied_view(a)));
            assert(h.subrange(start as int, k + 1) =~= h.subrange(start as int, k as int).push(h[k as int]));
            k += 1;
            assert(moves@.map_values(|a: crate::game::Applied| crate::game::applied_view(a)) =~= h.subrange(start as int, k as int));
        }
        assert(h.subrange(start as int, k as int) =~= h.skip(start as int));
        Some(ServerMsg::History {
            start,
            moves,
            to_play: self.game.to_play(),
            captures: self.game.captures(),
            phase: *self.game.phase(),
        })
    }

    /// Carries out request `msg` from connection `id`. An accepted request
    /// moves the room to the state `step` gives and returns what to
    /// broadcast; a refused one leaves the room as it was and says why.
    pub fn apply(&mut self, id: ConnId, msg: ClientMsg) -> (r: Result<Vec<ServerMsg>, String>)
        requires
            old(self).wf(),
            capture_room(old(self)@.game),
        ensures
            final(self).wf(),
            match r {
                Ok(ms) => {
                    &&& step(old(self)@, id, msg) == Ok::<RoomView, Seq<char>>(final(self)@)
                    &&& broadcasts_ok(msg, final(self)@, ms@)
                },
                Err(e) => {
                    &&& step(old(self)@, id, msg) == Err::<RoomView, Seq<char>>(e@)
                    &&& final(self)@ == old(self)@
                },
            },
    {
        let token = match self.conns.get(&id) {
            Some(t) => copy_string(t),
            None => {
                return Err(text("connection has not identified itself"));
            },
        };
        assert(self@.conns[id] == token@);
        match msg {
            ClientMsg::Hello { token: sent, name } => {
                if sent != token {
                    return Err(text("cannot change identity on an open connection"));
                }
                self.set_name(&token, &name);
                let mut out: Vec<ServerMsg> = Vec::new();
                out.push(ServerMsg::Seats { seats: self.seats_view() });
                Ok(out)
            },
            ClientMsg::ClaimSeat { color } => self.claim(id, &token, color),
            ClientMsg::ReleaseSeat => self.release(id, &token),
            ClientMsg::Play { move_number, mv } => self.play_move(id, &token, move_number, mv),
            ClientMsg::ToggleDead { vertex } => self.toggle_dead(id, &token, vertex),
            ClientMsg::AcceptScore => self.accept_score(id, &token),
            ClientMsg::ResumePlay => self.resume(id, &token),
        }
    }

    fn claim(&mut self, id: ConnId, token: &PlayerToken, color: Color) -> (r: Result<Vec<ServerMsg>, String>)
        requires
            old(self).wf(),
            old(self)@.conns.contains_key(id),
            old(self)@.conns[id] == token@,
        ensures
            final(self).wf(),
            match r {
                Ok(ms) => {
                    &&& step(old(self)@, id, ClientMsg::ClaimSeat { color }) == Ok::<RoomView, Seq<char>>(final(self)@)
                    &&& ms@.len() == 1
                    &&& seats_msg_ok(ms@[0], final(self)@)
                },
                Err(e) => {
                    &&& step(old(self)@, id, ClientMsg::ClaimSeat { color }) == Err::<RoomView, Seq<char>>(e@)
                    &&& final(self)@ == old(self)@
                },
            },
    {
        match self.seat_of(token) {
            Some(held) => {
                return Err(
                    if held == color {
                        text("you already have that seat")
                    } else {
                        text("you are already playing the other colour")
                    },
                );
            },
            None => {},
        }
        let taken = match color {
            Color::Black => self.black.is_some(),
            Color::White => self.white.is_some(),
        };
        if taken {
            return Err(text("that seat is taken"));
        }
        let name = match self.name_of(token) {
            Some(n) => n,
            None => text("Anonymous"),
        };
        let ghost r0 = self@;
        let holder = SeatHolder { token: copy_string(token), name };
        match color {
            Color::Black => {
                self.black = Some(holder);
            },
            Color::White => {
                self.white = Some(holder);
            },
        }
        assert(self@ =~= with_seat(r0, color, Some(Holder { token: token@, name: holder_name(seat(self@, color))->0 })));
        let mut out: Vec<ServerMsg> = Vec::new();
        out.push(ServerMsg::Seats { seats: self.seats_view() });
        Ok(out)
    }

    fn release(&mut self, id: ConnId, token: &PlayerToken) -> (r: Result<Vec<ServerMsg>, String>)
        requires
            old(self).wf(),
            old(self)@.conns.contains_key(id),
            old(self)@.conns[id] == token@,
        ensures
            final(self).wf(),
            match r {
                Ok(ms) => {
                    &&& step(old(self)@, id, ClientMsg::ReleaseSeat) == Ok::<RoomView, Seq<char>>(final(self)@)
                    &&& ms@.len() == 1
                    &&& seats_msg_ok(ms@[0], final(self)@)
                },
                Err(e) => {
                    &&& step(old(self)@, id, ClientMsg::ReleaseSeat) == Err::<RoomView, Seq<char>>(e@)
                    &&& final(self)@ == old(self)@
                },
            },
    {
        let color = match self.seat_of(token) {
            Some(c) => c,
            None => {
                return Err(text("you do not have a seat"));
            },
        };
        if self.game.move_number() > 0 {
            return Err(text("the game has already started"));
        }
        let ghost r0 = self@;
        match color {
            Color::Black => {
                self.black = None;
            },
            Color::White => {
                self.white = None;
            },
        }
        assert(self@ =~= with_seat(r0, color, None));
        let mut out: Vec<ServerMsg> = Vec::new();
        out.push(ServerMsg::Seats { seats: self.seats_view() });
        Ok(out)
    }

    fn play_move(&mut self, id: ConnId, token: &PlayerToken, move_number: usize, mv: crate::game::Move) -> (r: Result<Vec<ServerMsg>, String>)
        requires
            old(self).wf(),
            capture_room(old(self)@.game),
            old(self)@.conns.contains_key(id),
            old(self)@.conns[id] == token@,
        ensures
            final(self).wf(),
            match r {
                Ok(ms) => {
                    &&& step(old(self)@, id, ClientMsg::Play { move_number, mv }) == Ok::<RoomView, Seq<char>>(final(self)@)
                    &&& broadcasts_ok(ClientMsg::Play { move_number, mv }, final(self)@, ms@)
                },
                Err(e) => {
                    &&& step(old(self)@, id, ClientMsg::Play { move_number, mv }) == Err::<RoomView, Seq<char>>(e@)
                    &&& final(self)@ == old(self)@
                },
            },
    {
        let color = match self.seat_of(token) {
            Some(c) => c,
            None => {
                return Err(text("you are watching this game, not playing it"));
            },
        };
        let current = self.game.move_number();
        if move_number != current {
            let mut why = String::new();
            push_str(&mut why, "stale move: sent at move ");
            push_decimal(&mut why, move_number as u64);
            push_str(&mut why, ", game is at ");
            push_decimal(&mut why, current as u64);
            return Err(why);
        }
        let ghost r0 = self@;
        match self.game.play(color, mv) {
            Ok(_) => {},
            Err(e) => {
                return Err(e.message());
            },
        }
        assert(self@ =~= RoomView { game: after_move(r0.game, color, mv), ..r0 });
        let mut out: Vec<ServerMsg> = Vec::new();
        match self.game.phase() {
            Phase::Scoring => {
                out.push(self.dead_message());
            },
            _ => {},
        }
        Ok(out)
    }

    fn toggle_dead(&mut self, id: ConnId, token: &PlayerToken, vertex: Vertex) -> (r: Result<Vec<ServerMsg>, String>)
        requires
            old(self).wf(),
            old(self)@.conns.contains_key(id),
            old(self)@.conns[id] == token@,
        ensures
            final(self).wf(),
            match r {
                Ok(ms) => {
                    &&& step(old(self)@, id, ClientMsg::ToggleDead { vertex }) == Ok::<RoomView, Seq<char>>(final(self)@)
                    &&& ms@.len() == 1
                    &&& dead_msg_ok(ms@[0], final(self)@)
                },
                Err(e) => {
                    &&& step(old(self)@, id, ClientMsg::ToggleDead { vertex }) == Err::<RoomView, Seq<char>>(e@)
                    &&& final(self)@ == old(self)@
                },
            },
    {
        match self.game.phase() {
            Phase::Scoring => {},
            _ => {
                return Err(text("the game is not being scored"));
            },
        }
        if self.seat_of(token).is_none() {
            return Err(text("only the players may mark stones"));
        }
        let group = match self.game.board().group_at(vertex) {
            Some(g) => g,
            None => {
                return Err(text("there is no stone there"));
            },
        };
        let ghost r0 = self@;
        let ghost board = r0.game.board;
        let ghost chain = crate::board::group_list(board, vertex as int);
        let stones = &group.stones;
        proof {
            crate::rules::lemma_group_list(board, vertex as int);
            assert forall|k: int| 0 <= k < stones@.len() implies chain[k] == stones@[k] as int by {
                assert(stones@.map_values(|x: Vertex| x as int)[k] == stones@[k] as int);
            }
            assert(chain.len() == stones@.len()) by {
                assert(stones@.map_values(|x: Vertex| x as int).len() == stones@.len());
            }
        }
        let mut all_dead = true;
        let mut i: usize = 0;
        while i < stones.len()
            invariant
                i <= stones@.len(),
                self@ == r0,
                all_dead == forall|k: int| 0 <= k < i ==> r0.dead.contains(#[trigger] stones@[k]),
            decreases stones@.len() - i,
        {
            if !self.dead.contains(&stones[i]) {
                all_dead = false;
            }
            i += 1;
        }
        let mut j: usize = 0;
        while j < stones.len()
            invariant
                j <= stones@.len(),
                self@ == (RoomView { dead: self@.dead, ..r0 }),
                forall|v: Vertex| #[trigger] self@.dead.contains(v) <==> (if all_dead {
                    r0.dead.contains(v) && !(exists|k: int| 0 <= k < j && stones@[k] == v)
                } else {
                    r0.dead.contains(v) || (exists|k: int| 0 <= k < j && stones@[k] == v)
                }),
            decreases stones@.len() - j,
        {
            let ghost d0 = self@.dead;
            let ghost r1 = self@;
            let x = stones[j];
            if all_dead {
                self.dead.remove(&x);
            } else {
                self.dead.insert(x);
            }
            assert(self@ =~= RoomView { dead: self@.dead, ..r0 });
            assert forall|v: Vertex| #[trigger] self@.dead.contains(v) <==> (if all_dead {
                r0.dead.contains(v) && !(exists|k: int| 0 <= k < j + 1 && stones@[k] == v)
            } else {
                r0.dead.contains(v) || (exists|k: int| 0 <= k < j + 1 && stones@[k] == v)
            }) by {
                if v == x {
                    assert(stones@[j as int] == v);
                } else {
                    assert(d0.contains(v) == self@.dead.contains(v));
                    if exists|k: int| 0 <= k < j + 1 && stones@[k] == v {
                        let k = choose|k: int| 0 <= k < j + 1 && stones@[k] == v;
                        assert(k < j);
                    }
                }
            }
            j += 1;
        }
        self.accepted_black = false;
        self.accepted_white = false;
        proof {
            let t = toggled(r0.dead, chain);
            assert(all_dead == forall|k: int| 0 <= k < chain.len() ==> r0.dead.contains(#[trigger] chain[k] as Vertex)) by {
                if all_dead {
                    assert forall|k: int| 0 <= k < chain.len() implies r0.dead.contains(#[trigger] chain[k] as Vertex) by {
                        assert(chain[k] as Vertex == stones@[k]);
                    }
                } else {
                    let k = choose|k: int| 0 <= k < stones@.len() && !r0.dead.contains(#[trigger] stones@[k]);
                    assert(chain[k] as Vertex == stones@[k]);
                }
            }
            assert forall|v: Vertex| chain.contains(v as int) <==> (exists|k: int| 0 <= k < stones@.len() && stones@[k] == v) by {
                if chain.contains(v as int) {
                    let k = choose|k: int| 0 <= k < chain.len() && chain[k] == v as int;
                    assert(stones@[k] == v);
                }
                if exists|k: int| 0 <= k < stones@.len() && stones@[k] == v {
                    let k = choose|k: int| 0 <= k < stones@.len() && stones@[k] == v;
                    assert(chain[k] == v as int);
                }
            }
            assert(self@.dead =~= t);
            assert forall|v: Vertex| #[trigger] self@.dead.contains(v) implies (v as int) < board.points.len() by {
                if !r0.dead.contains(v) {
                    assert(chain.contains(v as int));
                }
            }
        }
        let mut out: Vec<ServerMsg> = Vec::new();
        out.push(self.dead_message());
        Ok(out)
    }

    fn accept_score(&mut self, id: ConnId, token: &PlayerToken) -> (r: Result<Vec<ServerMsg>, String>)
        requires
            old(self).wf(),
            old(self)@.conns.contains_key(id),
            old(self)@.conns[id] == token@,
        ensures
            final(self).wf(),
            match r {
                Ok(ms) => {
                    &&& step(old(self)@, id, ClientMsg::AcceptScore) == Ok::<RoomView, Seq<char>>(final(self)@)
                    &&& broadcasts_ok(ClientMsg::AcceptScore, final(self)@, ms@)
                },
                Err(e) => {
                    &&& step(old(self)@, id, ClientMsg::AcceptScore) == Err::<RoomView, Seq<char>>(e@)
                    &&& final(self)@ == old(self)@
                },
            },
    {
        match self.game.phase() {
            Phase::Scoring => {},
            _ => {
                return Err(text("the game is not being scored"));
            },
        }
        let color = match self.seat_of(token) {
            Some(c) => c,
            None => {
                return Err(text("only the players may agree the score"));
            },
        };
        if self.black.is_none() || self.white.is_none() {
            return Err(text("both seats must be filled to finish the game"));
        }
        let ghost r0 = self@;
        match color {
            Color::Black => {
                self.accepted_black = true;
            },
            Color::White => {
                self.accepted_white = true;
            },
        }
        assert(self@ =~= accept(r0, color));
        let mut out: Vec<ServerMsg> = Vec::new();
        if self.accepted_black && self.accepted_white {
            match self.game.finish_with_dead(&self.dead) {
                Ok(_) => {},
                Err(e) => {
                    return Err(e.message());
                },
            }
            assert(self@ =~= RoomView { game: counted(r0.game, score_of(r0.game.board, r0.dead, r0.game.komi)), ..accept(r0, color) });
            out.push(self.dead_message());
            out.push(ServerMsg::PhaseChanged { phase: *self.game.phase() });
        } else {
            out.push(self.dead_message());
        }
        Ok(out)
    }

    fn resume(&mut self, id: ConnId, token: &PlayerToken) -> (r: Result<Vec<ServerMsg>, String>)
        requires
            old(self).wf(),
            old(self)@.conns.contains_key(id),
            old(self)@.conns[id] == token@,
        ensures
            final(self).wf(),
            match r {
                Ok(ms) => {
                    &&& step(old(self)@, id, ClientMsg::ResumePlay) == Ok::<RoomView, Seq<char>>(final(self)@)
                    &&& broadcasts_ok(ClientMsg::ResumePlay, final(self)@, ms@)
                },
                Err(e) => {
                    &&& step(old(self)@, id, ClientMsg::ResumePlay) == Err::<RoomView, Seq<char>>(e@)
                    &&& final(self)@ == old(self)@
                },
            },
    {
        if self.seat_of(token).is_none() {
            return Err(text("only the players may resume the game"));
        }
        let ghost r0 = self@;
        match self.game.resume_play() {
            Ok(()) => {},
            Err(e) => {
                return Err(e.message());
            },
        }
        self.dead.clear();
        self.accepted_black = false;
        self.accepted_white = false;
        assert(self@ =~= RoomView {
            game: resumed(r0.game),
            dead: Set::empty(),
            accepted_black: false,
            accepted_white: false,
            ..r0
        });
        let mut out: Vec<ServerMsg> = Vec::new();
        out.push(ServerMsg::PhaseChanged { phase: *self.game.phase() });
        out.push(self.dead_message());
        Ok(out)
    }
}

proof fn lemma_position_in_range(names: Seq<(Seq<char>, Seq<char>)>, token: Seq<char>)
    ensures
        position_of(names, token) matches Some(k) ==> 0 <= k < names.len() && names[k].0 == token,
    decreases names.len(),
{
    if names.len() > 0 && names[0].0 != token {
        lemma_position_in_range(names.drop_first(), token);
    }
}

// --------------------------------------------------------------------- laws

/// A refused request changes nothing, and only a connection that has said
/// hello may ask anything.
pub proof fn lemma_unknown_connection_refused(r: RoomView, id: ConnId, msg: ClientMsg)
    requires
        !r.conns.contains_key(id),
    ensures
        step(r, id, msg) == Err::<RoomView, Seq<char>>("connection has not identified itself"@),
{
}

/// Only the holder of a seat may move; a spectator's move is refused.
pub proof fn lemma_spectators_cannot_move(r: RoomView, id: ConnId, move_number: usize, mv: crate::game::Move)
    requires
        r.conns.contains_key(id),
        seat_of_spec(r, r.conns[id]) is None,
    ensures
        step(r, id, ClientMsg::Play { move_number, mv }) == Err::<RoomView, Seq<char>>(
            "you are watching this game, not playing it"@,
        ),
{
}

/// An accepted move is made by the colour the mover sits in, at the move
/// number the game is at.
pub proof fn lemma_moves_come_from_the_seat(r: RoomView, id: ConnId, move_number: usize, mv: crate::game::Move)
    requires
        step(r, id, ClientMsg::Play { move_number, mv }) is Ok,
    ensures
        r.conns.contains_key(id),
        seat_of_spec(r, r.conns[id]) matches Some(c) && step(r, id, ClientMsg::Play { move_number, mv })
            == Ok::<RoomView, Seq<char>>(RoomView { game: after_move(r.game, c, mv), ..r }),
        move_number == r.game.history.len(),
{
}

/// A seat can be given up only before the first move.
pub proof fn lemma_release_only_before_first_move(r: RoomView, id: ConnId)
    requires
        step(r, id, ClientMsg::ReleaseSeat) is Ok,
    ensures
        r.game.history.len() == 0,
{
}

/// Changing the dead marks withdraws both players' agreement.
pub proof fn lemma_marking_clears_agreement(r: RoomView, id: ConnId, vertex: Vertex)
    requires
        step(r, id, ClientMsg::ToggleDead { vertex }) is Ok,
    ensures
        step(r, id, ClientMsg::ToggleDead { vertex }) matches Ok(r2) && !r2.accepted_black && !r2.accepted_white
            && r2.game == r.game,
{
}

/// Marking the same chain twice leaves the marks as they were, once the
/// chain was fully marked or fully unmarked to begin with.
pub proof fn lemma_toggle_twice(dead: Set<Vertex>, chain: Seq<int>)
    requires
        (forall|k: int| 0 <= k < chain.len() ==> dead.contains(#[trigger] chain[k] as Vertex)) || (forall|k: int|
            0 <= k < chain.len() ==> !dead.contains(#[trigger] chain[k] as Vertex)),
        forall|k: int| 0 <= k < chain.len() ==> 0 <= #[trigger] chain[k] < 65536,
    ensures
        toggled(toggled(dead, chain), chain) == dead,
{
    let once = toggled(dead, chain);
    if chain.len() == 0 {
        assert(once =~= dead);
        assert(toggled(once, chain) =~= dead);
    } else if forall|k: int| 0 <= k < chain.len() ==> dead.contains(#[trigger] chain[k] as Vertex) {
        assert(!dead.contains(chain[0] as Vertex) == false);
        assert(!once.contains(chain[0] as Vertex));
        assert(!(forall|k: int| 0 <= k < chain.len() ==> once.contains(#[trigger] chain[k] as Vertex)));
        assert forall|v: Vertex| #[trigger] toggled(once, chain).contains(v) <==> dead.contains(v) by {
            if chain.contains(v as int) {
                let k = choose|k: int| 0 <= k < chain.len() && chain[k] == v as int;
                assert(chain[k] as Vertex == v);
            }
        }
        assert(toggled(once, chain) =~= dead);
    } else {
        assert(!dead.contains(chain[0] as Vertex));
        assert forall|k: int| 0 <= k < chain.len() implies once.contains(#[trigger] chain[k] as Vertex) by {
            assert(chain.contains(chain[k]));
            assert((chain[k] as Vertex) as int == chain[k]);
        }
        assert forall|v: Vertex| #[trigger] toggled(once, chain).contains(v) <==> dead.contains(v) by {
            if chain.contains(v as int) {
                let k = choose|k: int| 0 <= k < chain.len() && chain[k] == v as int;
                assert(chain[k] as Vertex == v);
            }
        }
        assert(toggled(once, chain) =~= dead);
    }
}

/// The game ends only when both seated players have agreed; it is then
/// counted with the marks they agreed on.
pub proof fn lemma_agreement_ends_the_game(r: RoomView, id: ConnId)
    requires
        step(r, id, ClientMsg::AcceptScore) is Ok,
    ensures
        r.game.phase == Phase::Scoring,
        r.black is Some && r.white is Some,
        step(r, id, ClientMsg::AcceptScore) matches Ok(r2) && (r2.game.phase is Finished <==> (r2.accepted_black
            && r2.accepted_white)) && (r2.game.phase is Finished ==> r2.game == counted(
            r.game,
            score_of(r.game.board, r.dead, r.game.komi),
        )),
{
}

/// Resuming play forgets the marks and the agreement.
pub proof fn lemma_resume_forgets_marks(r: RoomView, id: ConnId)
    requires
        step(r, id, ClientMsg::ResumePlay) is Ok,
    ensures
        step(r, id, ClientMsg::ResumePlay) matches Ok(r2) && r2.dead.is_empty() && !r2.accepted_black
            && !r2.accepted_white && r2.game == resumed(r.game),
{
}

/// Seats outlive connections: a player who closes a connection and says
/// hello again with the same token sits where it sat.
pub proof fn lemma_reconnect_keeps_seat(r: RoomView, old_conn: ConnId, new_conn: ConnId, token: Seq<char>, name: Seq<char>)
    ensures
        seat_of_spec(joined(without_conn(r, old_conn), new_conn, token, name), token) == seat_of_spec(r, token),
{
}

/// Saying hello never hands out a seat: a token that held none holds none.
pub proof fn lemma_hello_grants_no_seat(r: RoomView, conn: ConnId, token: Seq<char>, name: Seq<char>)
    requires
        seat_of_spec(r, token) is None,
    ensures
        seat_of_spec(joined(r, conn, token, name), token) is None,
        joined(r, conn, token, name).black == r.black,
        joined(r, conn, token, name).white == r.white,
{
}

/// A claimed seat goes to the claimant, and only if it was free and the
/// claimant held no other.
pub proof fn lemma_claim_takes_a_free_seat(r: RoomView, id: ConnId, color: Color)
    requires
        step(r, id, ClientMsg::ClaimSeat { color }) is Ok,
    ensures
        seat(r, color) is None,
        seat_of_spec(r, r.conns[id]) is None,
        step(r, id, ClientMsg::ClaimSeat { color }) matches Ok(r2) && seat_of_spec(r2, r.conns[id]) == Some(color),
{
}

/// Every display name is at most 40 characters and not blank.
pub proof fn lemma_clean_name(n: Seq<char>)
    ensures
        clean_name(n).len() <= MAX_NAME_LEN,
        !all_white(clean_name(n)),
{
    reveal_strlit("Anonymous");
    if all_white(name_prefix(n)) {
        assert(!is_white("Anonymous"@[0]));
    }
}

/// The byte with an ASCII lower-case letter raised to upper case; any
/// other byte as it is.
pub open spec fn upper_byte(b: u8) -> u8 {
    if 97 <= b <= 122 {
        (b - 32) as u8
    } else {
        b
    }
}

/// Room ids take ASCII letters of either case, digits, `-` and `_`: every
/// id of 1 to 32 such bytes is accepted, and every id with any other byte,
/// or of another length, is refused.
pub proof fn lemma_room_id_alphabet(id: Seq<u8>)
    ensures
        (0 < id.len() <= 32 && forall|i: int|
            0 <= i < id.len() ==> ('a' as u8 <= #[trigger] id[i] <= 'z' as u8) || ('A' as u8 <= id[i] <= 'Z' as u8)
                || ('0' as u8 <= id[i] <= '9' as u8) || id[i] == '-' as u8 || id[i] == '_' as u8) <==> room_id_ok(id),
{
}

/// Whether an id is accepted does not depend on the case of its letters.
pub proof fn lemma_room_id_ignores_case(id: Seq<u8>)
    ensures
        room_id_ok(id.map_values(|b: u8| upper_byte(b))) == room_id_ok(id),
{
    let up = id.map_values(|b: u8| upper_byte(b));
    assert forall|i: int| 0 <= i < id.len() implies room_id_byte(#[trigger] up[i]) == room_id_byte(id[i]) by {
        assert(up[i] == upper_byte(id[i]));
    }
    if room_id_ok(up) {
        assert forall|i: int| 0 <= i < id.len() implies room_id_byte(#[trigger] id[i]) by {
            assert(room_id_byte(up[i]));
        }
    }
    if room_id_ok(id) {
        assert forall|i: int| 0 <= i < up.len() implies room_id_byte(#[trigger] up[i]) by {
            assert(room_id_byte(id[i]));
        }
    }
}

} // verus!
