//! Game records in SGF: writing a game out, reading the main line of a
//! record back, and replaying it under the rules.

use vstd::prelude::*;
use vstd::string::StringSliceAdditionalSpecFns;

use crate::board::{color_index, empty_board, Board, BoardView, Color, Point, Vertex};
use crate::game::{
    after_move, capture_room, initial, play_error, score_fits, with_turn, AppliedView, Game,
    GameResult, GameView, Move, MoveError, Phase, DEFAULT_KOMI,
};
use crate::score::{margin_of, Score};
use crate::komi::{parse_hundredths, read_hundredths};
use crate::text::{
    before_colon, decimal, hundredths_text, parse_u32, point_from_bytes,
    push_char, push_decimal, push_hundredths, push_str, read_u32, sgf_point_value,
    trim, trimmed, up_to_colon,
};

verus! {

#[derive(Debug, Clone, Copy, PartialEq, Eq, Structural)]
pub enum SgfError {
    UnexpectedEnd,
    NoGameTree,
    BadSize(u32),
}

/// What each failure to read a record says.
pub open spec fn sgf_error_text(e: SgfError) -> Seq<char> {
    match e {
        SgfError::UnexpectedEnd => "unexpected end of input"@,
        SgfError::NoGameTree => "no game tree found"@,
        SgfError::BadSize(n) => "board size "@ + decimal(n as nat) + " is not supported"@,
    }
}

impl SgfError {
    /// The failure in words.
    pub fn message(&self) -> (r: String)
        ensures
            r@ == sgf_error_text(*self),
    {
        let mut out = String::new();
        match self {
            SgfError::UnexpectedEnd => push_str(&mut out, "unexpected end of input"),
            SgfError::NoGameTree => push_str(&mut out, "no game tree found"),
            SgfError::BadSize(n) => {
                push_str(&mut out, "board size ");
                push_decimal(&mut out, *n as u64);
                push_str(&mut out, " is not supported");
            },
        }
        assert(out@ =~= sgf_error_text(*self));
        out
    }
}

/// The main line of a record: board size, komi in hundredths of a point,
/// setup stones, and the moves in order.
#[derive(Debug, Clone, PartialEq, Eq)]
pub struct SgfGame {
    pub size: u8,
    pub komi: i32,
    pub setup_black: Vec<Vertex>,
    pub setup_white: Vec<Vertex>,
    pub moves: Vec<(Color, Move)>,
}

#[verifier::ext_equal]
pub struct SgfView {
    pub size: u8,
    pub komi: i32,
    pub setup_black: Seq<Vertex>,
    pub setup_white: Seq<Vertex>,
    pub moves: Seq<(Color, Move)>,
}

impl View for SgfGame {
    type V = SgfView;

    open spec fn view(&self) -> SgfView {
        SgfView {
            size: self.size,
            komi: self.komi,
            setup_black: self.setup_black@,
            setup_white: self.setup_white@,
            moves: self.moves@,
        }
    }
}

// ------------------------------------------------------------------ writing

/// `B` or `W`.
pub open spec fn color_letter(c: Color) -> char {
    match c {
        Color::Black => 'B',
        Color::White => 'W',
    }
}

/// The two letters of point `v`: column then row, `a` for 0.
pub open spec fn point_text(size: int, v: int) -> Seq<char> {
    let row = ((v as u16) / (size as u16)) as u8;
    let col = ((v as u16) % (size as u16)) as u8;
    seq![(97 + col) as char, (97 + row) as char]
}

/// The row of `v` fits a letter.
pub open spec fn point_writable(size: int, v: int) -> bool {
    97 + (((v as u16) / (size as u16)) as u8) <= 255
}

/// One move node; a resignation writes nothing.
pub open spec fn move_text(size: int, a: AppliedView) -> Seq<char> {
    match a.mv {
        Move::Play { vertex } => seq![';', color_letter(a.color), '['] + point_text(size, vertex as int) + seq![']'],
        Move::Pass => seq![';', color_letter(a.color), '[', ']'],
        Move::Resign => Seq::empty(),
    }
}

/// The move nodes of `h` in order.
pub open spec fn moves_text(size: int, h: Seq<AppliedView>) -> Seq<char>
    decreases h.len(),
{
    if h.len() == 0 {
        Seq::empty()
    } else {
        moves_text(size, h.drop_last()) + move_text(size, h.last())
    }
}

/// `B+R`, `W+R`, the winner and margin of a counted game, or `0` for a draw.
pub open spec fn result_text(r: GameResult) -> Seq<char> {
    match r {
        GameResult::Resignation { winner: Color::Black } => seq!['B', '+', 'R'],
        GameResult::Resignation { winner: Color::White } => seq!['W', '+', 'R'],
        GameResult::Counted { winner: Some(Color::Black), score } => seq!['B', '+'] + hundredths_text(margin_of(score)),
        GameResult::Counted { winner: Some(Color::White), score } => seq!['W', '+'] + hundredths_text(-margin_of(score)),
        GameResult::Counted { winner: None, .. } => seq!['0'],
    }
}

pub open spec fn sgf_header() -> Seq<char> {
    "(;GM[1]FF[4]CA[UTF-8]AP[igo:0.1.0]RU[Chinese]"@
}

/// The record of `g`: header, size, komi, the result of a finished game,
/// then every move but a resignation.
pub open spec fn sgf_text(g: GameView) -> Seq<char> {
    let size = g.board.size;
    let head = sgf_header() + seq!['S', 'Z', '['] + decimal(size as nat) + seq![']', 'K', 'M', '[']
        + hundredths_text(g.komi as int) + seq![']'];
    let re = match g.phase {
        Phase::Finished { result } => seq!['R', 'E', '['] + result_text(result) + seq![']'],
        _ => Seq::empty(),
    };
    head + re + moves_text(size, g.history) + seq![')']
}

/// The two letters of `v` on `board`.
pub fn vertex_to_sgf(board: &Board, v: Vertex) -> (r: String)
    requires
        board.wf(),
        point_writable(board@.size, v as int),
    ensures
        r@ == point_text(board@.size, v as int),
        (v as int) < board@.points.len() ==> sgf_point_value(board@.size, vstd::utf8::encode_utf8(r@)) == Some(
            v as int,
        ),
{
    let (row, col) = board.coords(v);
    let mut out = String::new();
    assert(col < 25) by {
        vstd::arithmetic::div_mod::lemma_mod_pos_bound(v as int, board@.size);
    }
    push_char(&mut out, (97 + col) as char);
    push_char(&mut out, (97 + row) as char);
    assert(out@ =~= point_text(board@.size, v as int));
    proof {
        if (v as int) < board@.points.len() {
            let pt = point_text(board@.size, v as int);
            crate::record::lemma_point_text(board@.size, v as int);
            vstd::utf8::is_ascii_chars_encode_utf8(pt);
            assert(vstd::utf8::encode_utf8(pt) =~= crate::record::bytes_of(pt));
        }
    }
    out
}

/// The point the value `s` names on a board of side `size`, or `None` for
/// a pass.
pub fn sgf_to_vertex(size: u8, s: &str) -> (r: Option<Vertex>)
    ensures
        r matches Some(v) ==> sgf_point_value(size as int, s.spec_bytes()) == Some(v as int),
        r is None ==> sgf_point_value(size as int, s.spec_bytes()) is None,
{
    point_from_bytes(size, s.as_bytes())
}

fn result_to_sgf(out: &mut String, result: &GameResult)
    requires
        match *result {
            GameResult::Counted { score, .. } => score_fits(score),
            _ => true,
        },
    ensures
        final(out)@ == old(out)@ + result_text(*result),
{
    match result {
        GameResult::Resignation { winner } => match winner {
            Color::Black => {
                push_char(out, 'B');
                push_char(out, '+');
                push_char(out, 'R');
            },
            Color::White => {
                push_char(out, 'W');
                push_char(out, '+');
                push_char(out, 'R');
            },
        },
        GameResult::Counted { winner, score } => match winner {
            Some(Color::Black) => {
                push_char(out, 'B');
                push_char(out, '+');
                push_hundredths(out, score.margin());
            },
            Some(Color::White) => {
                push_char(out, 'W');
                push_char(out, '+');
                push_hundredths(out, -score.margin());
            },
            None => {
                push_char(out, '0');
            },
        },
    }
    assert(final(out)@ =~= old(out)@ + result_text(*result));
}

/// The game's record in SGF.
pub fn to_sgf(game: &Game) -> (r: String)
    requires
        game.wf(),
    ensures
        r@ == sgf_text(game@),
{
    let board = game.board();
    let size = board.size();
    let ghost g = game@;
    let mut out = String::new();
    push_str(&mut out, "(;GM[1]FF[4]CA[UTF-8]AP[igo:0.1.0]RU[Chinese]");
    push_char(&mut out, 'S');
    push_char(&mut out, 'Z');
    push_char(&mut out, '[');
    push_decimal(&mut out, size as u64);
    push_char(&mut out, ']');
    push_char(&mut out, 'K');
    push_char(&mut out, 'M');
    push_char(&mut out, '[');
    push_hundredths(&mut out, game.komi() as i64);
    push_char(&mut out, ']');
    let ghost head = out@;
    match game.phase() {
        Phase::Finished { result } => {
            push_char(&mut out, 'R');
            push_char(&mut out, 'E');
            push_char(&mut out, '[');
            result_to_sgf(&mut out, result);
            push_char(&mut out, ']');
        },
        _ => {},
    }
    let ghost with_re = out@;
    let history = game.history();
    let mut i: usize = 0;
    assert(g.history.take(0) =~= Seq::<AppliedView>::empty());
    assert(with_re + Seq::<char>::empty() =~= with_re);
    while i < history.len()
        invariant
            g == game@,
            crate::game::game_wf(g),
            board@ == g.board,
            size as int == g.board.size,
            history@.map_values(|a: crate::game::Applied| crate::game::applied_view(a)) == g.history,
            i <= history@.len(),
            out@ == with_re + moves_text(g.board.size, g.history.take(i as int)),
        decreases history@.len() - i,
    {
        let a = &history[i];
        let ghost av = g.history[i as int];
        assert(av == crate::game::applied_view(*a));
        let letter = match a.color {
            Color::Black => 'B',
            Color::White => 'W',
        };
        match a.mv {
            Move::Play { vertex } => {
                assert((vertex as int) < g.board.points.len());
                assert(point_writable(g.board.size, vertex as int)) by {
                    assert(g.board.size * g.board.size <= 625) by (nonlinear_arith)
                        requires 2 <= g.board.size <= 25;
                    crate::grid::lemma_div_mod_parts(g.board.size, vertex as int);
                    assert((vertex as u16) as int == vertex as int);
                    assert((g.board.size as u16) as int == g.board.size);
                }
                push_char(&mut out, ';');
                push_char(&mut out, letter);
                push_char(&mut out, '[');
                let p = vertex_to_sgf(board, vertex);
                push_str(&mut out, p.as_str());
                push_char(&mut out, ']');
            },
            Move::Pass => {
                push_char(&mut out, ';');
                push_char(&mut out, letter);
                push_char(&mut out, '[');
                push_char(&mut out, ']');
            },
            Move::Resign => {},
        }
        proof {
            assert(g.history.take(i + 1).drop_last() =~= g.history.take(i as int));
            assert(g.history.take(i + 1).last() == av);
        }
        i += 1;
        assert(out@ =~= with_re + moves_text(g.board.size, g.history.take(i as int)));
    }
    push_char(&mut out, ')');
    assert(g.history.take(i as int) =~= g.history);
    assert(out@ =~= sgf_text(g));
    out
}

// ------------------------------------------------------------------ reading

pub open spec fn is_upper(b: u8) -> bool {
    65 <= b <= 90
}

/// The text of a bracketed value whose first byte is at `i`, and the
/// position after its closing `]`; a backslash takes the next byte as it
/// is. `None` when the input ends first.
pub open spec fn value_at(b: Seq<u8>, i: int) -> Option<(Seq<u8>, int)>
    decreases b.len() - i,
{
    if !(0 <= i < b.len()) {
        None
    } else if b[i] == 92 {
        if i + 1 < b.len() {
            match value_at(b, i + 2) {
                Some((v, k)) => Some((seq![b[i + 1]] + v, k)),
                None => None,
            }
        } else {
            None
        }
    } else if b[i] == 93 {
        Some((Seq::empty(), i + 1))
    } else {
        match value_at(b, i + 1) {
            Some((v, k)) => Some((seq![b[i]] + v, k)),
            None => None,
        }
    }
}

/// The first position from `i` that does not hold whitespace.
pub open spec fn skip_space(b: Seq<u8>, i: int) -> int
    decreases b.len() - i,
{
    if 0 <= i < b.len() && crate::text::is_space(b[i]) {
        skip_space(b, i + 1)
    } else {
        i
    }
}

/// The first position from `i` that does not hold a capital letter.
pub open spec fn ident_end(b: Seq<u8>, i: int) -> int
    decreases b.len() - i,
{
    if 0 <= i < b.len() && is_upper(b[i]) {
        ident_end(b, i + 1)
    } else {
        i
    }
}

pub proof fn lemma_value_at_end(b: Seq<u8>, i: int)
    ensures
        value_at(b, i) matches Some((v, k)) ==> i < k <= b.len(),
    decreases b.len() - i,
{
    if 0 <= i < b.len() {
        if b[i] == 92 {
            if i + 1 < b.len() {
                lemma_value_at_end(b, i + 2);
            }
        } else if b[i] != 93 {
            lemma_value_at_end(b, i + 1);
        }
    }
}

pub proof fn lemma_skip_space(b: Seq<u8>, i: int)
    ensures
        skip_space(b, i) >= i,
        0 <= i <= b.len() ==> skip_space(b, i) <= b.len(),
    decreases b.len() - i,
{
    if 0 <= i < b.len() && crate::text::is_space(b[i]) {
        lemma_skip_space(b, i + 1);
    }
}

pub proof fn lemma_ident_end(b: Seq<u8>, i: int)
    ensures
        ident_end(b, i) >= i,
        0 <= i <= b.len() ==> ident_end(b, i) <= b.len(),
    decreases b.len() - i,
{
    if 0 <= i < b.len() && is_upper(b[i]) {
        lemma_ident_end(b, i + 1);
    }
}

/// The values that follow a property name ending at `i`, appended to
/// `acc`, and the position after the last of them.
pub open spec fn values_at(b: Seq<u8>, i: int, acc: Seq<Seq<u8>>) -> Result<(Seq<Seq<u8>>, int), SgfError>
    decreases b.len() - i,
{
    let k = skip_space(b, i);
    if !(0 <= k < b.len()) || b[k] != 91 {
        Ok((acc, k))
    } else {
        match value_at(b, k + 1) {
            None => Err(SgfError::UnexpectedEnd),
            Some((v, m)) => {
                proof {
                    lemma_skip_space(b, i);
                    lemma_value_at_end(b, k + 1);
                }
                values_at(b, m, acc.push(v))
            },
        }
    }
}

pub proof fn lemma_values_at_end(b: Seq<u8>, i: int, acc: Seq<Seq<u8>>)
    requires
        0 <= i <= b.len(),
    ensures
        values_at(b, i, acc) matches Ok((vals, k)) ==> i <= k <= b.len(),
    decreases b.len() - i,
{
    lemma_skip_space(b, i);
    let k = skip_space(b, i);
    if 0 <= k < b.len() && b[k] == 91 {
        lemma_value_at_end(b, k + 1);
        if let Some((v, m)) = value_at(b, k + 1) {
            lemma_values_at_end(b, m, acc.push(v));
        }
    }
}

/// What reading a record has gathered so far: size, komi, setup properties,
/// moves, and whether a game tree has opened.
#[verifier::ext_equal]
pub struct Scan {
    pub size: u8,
    pub komi: i32,
    pub setup: Seq<(Color, Seq<Seq<u8>>)>,
    pub moves: Seq<(Color, Seq<u8>)>,
    pub saw_tree: bool,
}

pub open spec fn name_is(name: Seq<u8>, a: u8, b: u8) -> bool {
    name == seq![a, b]
}

/// One property of the main line: `SZ` sets the size (the part before a
/// `:` read as a number, 19 if it is not one, an error outside 2..=25),
/// `KM` the komi (read as a decimal float in hundredths of a point; 7.5
/// where it is not one, such as `inf` or `nan`, or where it does not fit an
/// `i32` of hundredths), `AB` and `AW` add setup
/// stones, `B` and `W` add a move (a missing value is a pass); anything
/// else is ignored.
pub open spec fn apply_property(st: Scan, name: Seq<u8>, vals: Seq<Seq<u8>>) -> Result<Scan, SgfError> {
    if name_is(name, 83, 90) {
        if vals.len() == 0 {
            Ok(st)
        } else {
            let n: u32 = match parse_u32(trim(before_colon(vals[0]))) {
                Some(n) => n,
                None => 19,
            };
            if 2 <= n <= 25 {
                Ok(Scan { size: n as u8, ..st })
            } else {
                Err(SgfError::BadSize(n))
            }
        }
    } else if name_is(name, 75, 77) {
        if vals.len() == 0 {
            Ok(st)
        } else {
            Ok(Scan {
                komi: match parse_hundredths(trim(vals[0])) {
                    Some(k) => k,
                    None => DEFAULT_KOMI,
                },
                ..st
            })
        }
    } else if name_is(name, 65, 66) {
        Ok(Scan { setup: st.setup.push((Color::Black, vals)), ..st })
    } else if name_is(name, 65, 87) {
        Ok(Scan { setup: st.setup.push((Color::White, vals)), ..st })
    } else if name == seq![66u8] || name == seq![87u8] {
        let c = if name == seq![66u8] { Color::Black } else { Color::White };
        Ok(Scan { moves: st.moves.push((c, if vals.len() > 0 { vals[0] } else { Seq::empty() })), ..st })
    } else {
        Ok(st)
    }
}

/// Reads from position `i` at nesting `depth`: `(` opens a tree, the `)`
/// that closes the outermost tree ends the reading, separators and other
/// bytes are skipped, and a property is read with its values and applied
/// only outside variations.
pub open spec fn scan(b: Seq<u8>, i: int, depth: int, st: Scan) -> Result<Scan, SgfError>
    decreases b.len() - i,
{
    if !(0 <= i < b.len()) {
        Ok(st)
    } else {
        let c = b[i];
        if c == 40 {
            scan(b, i + 1, depth + 1, Scan { saw_tree: true, ..st })
        } else if c == 41 {
            let d = if depth > 0 { depth - 1 } else { 0 };
            if d == 0 {
                Ok(st)
            } else {
                scan(b, i + 1, d, st)
            }
        } else if c == 59 || c == 32 || c == 9 || c == 13 || c == 10 {
            scan(b, i + 1, depth, st)
        } else if is_upper(c) {
            let j = ident_end(b, i);
            proof {
                lemma_ident_end(b, i + 1);
                lemma_values_at_end(b, j, Seq::empty());
            }
            match values_at(b, j, Seq::empty()) {
                Err(e) => Err(e),
                Ok((vals, k)) => {
                    if depth > 1 {
                        scan(b, k, depth, st)
                    } else {
                        match apply_property(st, b.subrange(i, j), vals) {
                            Err(e) => Err(e),
                            Ok(st2) => scan(b, k, depth, st2),
                        }
                    }
                },
            }
        } else {
            scan(b, i + 1, depth, st)
        }
    }
}

/// The points the values name, skipping passes.
pub open spec fn values_points(size: int, vals: Seq<Seq<u8>>) -> Seq<Vertex>
    decreases vals.len(),
{
    if vals.len() == 0 {
        Seq::empty()
    } else {
        values_points(size, vals.drop_last()) + match sgf_point_value(size, vals.last()) {
            Some(p) => seq![p as Vertex],
            None => Seq::empty(),
        }
    }
}

/// The setup stones of colour `c`, in the order they were listed.
pub open spec fn setup_points(size: int, setup: Seq<(Color, Seq<Seq<u8>>)>, c: Color) -> Seq<Vertex>
    decreases setup.len(),
{
    if setup.len() == 0 {
        Seq::empty()
    } else {
        setup_points(size, setup.drop_last(), c) + if setup.last().0 == c {
            values_points(size, setup.last().1)
        } else {
            Seq::empty()
        }
    }
}

/// A move value: a point, or a pass.
pub open spec fn move_of(size: int, v: Seq<u8>) -> Move {
    match sgf_point_value(size, v) {
        Some(p) => Move::Play { vertex: p as Vertex },
        None => Move::Pass,
    }
}

pub open spec fn start_scan() -> Scan {
    Scan { size: 19, komi: DEFAULT_KOMI, setup: Seq::empty(), moves: Seq::empty(), saw_tree: false }
}

/// The main line of the record in `b`.
pub open spec fn parse_bytes(b: Seq<u8>) -> Result<SgfView, SgfError> {
    match scan(b, 0, 0, start_scan()) {
        Err(e) => Err(e),
        Ok(st) => if !st.saw_tree {
            Err(SgfError::NoGameTree)
        } else {
            Ok(SgfView {
                size: st.size,
                komi: st.komi,
                setup_black: setup_points(st.size as int, st.setup, Color::Black),
                setup_white: setup_points(st.size as int, st.setup, Color::White),
                moves: st.moves.map_values(|m: (Color, Seq<u8>)| (m.0, move_of(st.size as int, m.1))),
            })
        },
    }
}

fn read_value(b: &[u8], i: usize) -> (r: Option<(Vec<u8>, usize)>)
    ensures
        match r {
            Some((v, k)) => value_at(b@, i as int) == Some((v@, k as int)),
            None => value_at(b@, i as int) is None,
        },
{
    let mut acc: Vec<u8> = Vec::new();
    let mut j: usize = i;
    assert(acc@ + Seq::<u8>::empty() =~= acc@);
    loop
        invariant
            i <= j,
            value_at(b@, i as int) == match value_at(b@, j as int) {
                Some((v, k)) => Some((acc@ + v, k)),
                None => None,
            },
        decreases b@.len() - j,
    {
        if j >= b.len() {
            return None;
        }
        let c = b[j];
        if c == 92 {
            if j + 1 < b.len() {
                let ghost old_acc = acc@;
                acc.push(b[j + 1]);
                proof {
                    if let Some((v, k)) = value_at(b@, j + 2) {
                        assert(old_acc + (seq![b@[j + 1]] + v) =~= acc@ + v);
                    }
                }
                j = j + 2;
            } else {
                return None;
            }
        } else if c == 93 {
            assert(acc@ + Seq::<u8>::empty() =~= acc@);
            return Some((acc, j + 1));
        } else {
            let ghost old_acc = acc@;
            acc.push(c);
            proof {
                if let Some((v, k)) = value_at(b@, j + 1) {
                    assert(old_acc + (seq![c] + v) =~= acc@ + v);
                }
            }
            j = j + 1;
        }
    }
}

/// The byte views of `vals`.
pub open spec fn views(vals: Seq<Vec<u8>>) -> Seq<Seq<u8>> {
    vals.map_values(|v: Vec<u8>| v@)
}

fn read_values(b: &[u8], i: usize) -> (r: Result<(Vec<Vec<u8>>, usize), SgfError>)
    requires
        i <= b@.len(),
    ensures
        match r {
            Ok((vals, k)) => values_at(b@, i as int, Seq::empty()) == Ok::<(Seq<Seq<u8>>, int), SgfError>((views(vals@), k as int)),
            Err(e) => values_at(b@, i as int, Seq::empty()) == Err::<(Seq<Seq<u8>>, int), SgfError>(e),
        },
{
    let mut vals: Vec<Vec<u8>> = Vec::new();
    let mut j: usize = i;
    assert(views(vals@) =~= Seq::<Seq<u8>>::empty());
    loop
        invariant
            i <= j <= b@.len(),
            values_at(b@, i as int, Seq::empty()) == values_at(b@, j as int, views(vals@)),
        decreases b@.len() - j,
    {
        let ghost j0 = j;
        while j < b.len() && crate::text::space(b[j])
            invariant
                j0 <= j <= b@.len(),
                skip_space(b@, j0 as int) == skip_space(b@, j as int),
            decreases b@.len() - j,
        {
            j += 1;
        }
        if j >= b.len() || b[j] != 91 {
            return Ok((vals, j));
        }
        match read_value(b, j + 1) {
            None => {
                return Err(SgfError::UnexpectedEnd);
            },
            Some((v, m)) => {
                proof {
                    lemma_value_at_end(b@, j + 1);
                }
                let ghost before = views(vals@);
                vals.push(v);
                assert(views(vals@) =~= before.push(v@));
                j = m;
            },
        }
    }
}

/// A name of two letters `x`, `y` in `b[start..end]`.
fn name2(b: &[u8], start: usize, end: usize, x: u8, y: u8) -> (r: bool)
    requires
        start <= end <= b@.len(),
    ensures
        r == name_is(b@.subrange(start as int, end as int), x, y),
{
    let r = if end - start == 2 {
        b[start] == x && b[start + 1] == y
    } else {
        false
    };
    assert(r ==> b@.subrange(start as int, end as int) =~= seq![x, y]);
    proof {
        if b@.subrange(start as int, end as int) == seq![x, y] {
            assert(b@.subrange(start as int, end as int).len() == 2);
            assert(b@.subrange(start as int, end as int)[0] == x);
            assert(b@.subrange(start as int, end as int)[1] == y);
        }
    }
    r
}

fn name1(b: &[u8], start: usize, end: usize, x: u8) -> (r: bool)
    requires
        start <= end <= b@.len(),
    ensures
        r == (b@.subrange(start as int, end as int) == seq![x]),
{
    let r = if end - start == 1 {
        b[start] == x
    } else {
        false
    };
    assert(r ==> b@.subrange(start as int, end as int) =~= seq![x]);
    proof {
        if b@.subrange(start as int, end as int) == seq![x] {
            assert(b@.subrange(start as int, end as int).len() == 1);
            assert(b@.subrange(start as int, end as int)[0] == x);
        }
    }
    r
}

/// The state of a reading in progress.
struct Reader {
    size: u8,
    komi: i32,
    setup: Vec<(Color, Vec<Vec<u8>>)>,
    moves: Vec<(Color, Vec<u8>)>,
    saw_tree: bool,
}

pub open spec fn setup_view(e: (Color, Vec<Vec<u8>>)) -> (Color, Seq<Seq<u8>>) {
    (e.0, views(e.1@))
}

pub open spec fn move_view(e: (Color, Vec<u8>)) -> (Color, Seq<u8>) {
    (e.0, e.1@)
}

impl View for Reader {
    type V = Scan;

    closed spec fn view(&self) -> Scan {
        Scan {
            size: self.size,
            komi: self.komi,
            setup: self.setup@.map_values(|e: (Color, Vec<Vec<u8>>)| setup_view(e)),
            moves: self.moves@.map_values(|e: (Color, Vec<u8>)| move_view(e)),
            saw_tree: self.saw_tree,
        }
    }
}

impl Reader {
    /// Applies the property named by `b[start..end]` with `values`.
    fn apply(&mut self, b: &[u8], start: usize, end: usize, values: Vec<Vec<u8>>) -> (r: Result<(), SgfError>)
        requires
            start <= end <= b@.len(),
        ensures
            match r {
                Ok(()) => apply_property(old(self)@, b@.subrange(start as int, end as int), views(values@))
                    == Ok::<Scan, SgfError>(final(self)@),
                Err(e) => apply_property(old(self)@, b@.subrange(start as int, end as int), views(values@))
                    == Err::<Scan, SgfError>(e),
            },
    {
        let ghost name = b@.subrange(start as int, end as int);
        let ghost vals = views(values@);
        if name2(b, start, end, 83, 90) {
            if values.len() > 0 {
                assert(vals[0] == values@[0]@);
                let first = up_to_colon(values[0].as_slice());
                let t = trimmed(first.as_slice());
                let n: u32 = match read_u32(t.as_slice()) {
                    Some(n) => n,
                    None => 19,
                };
                if !(2 <= n && n <= 25) {
                    return Err(SgfError::BadSize(n));
                }
                self.size = n as u8;
            }
            assert(self@ =~= apply_property(old(self)@, name, vals).unwrap());
            Ok(())
        } else if name2(b, start, end, 75, 77) {
            if values.len() > 0 {
                assert(vals[0] == values@[0]@);
                let t = trimmed(values[0].as_slice());
                self.komi = match read_hundredths(t.as_slice()) {
                    Some(k) => k,
                    None => DEFAULT_KOMI,
                };
            }
            assert(self@ =~= apply_property(old(self)@, name, vals).unwrap());
            Ok(())
        } else if name2(b, start, end, 65, 66) {
            let e = (Color::Black, values);
            assert(setup_view(e) == (Color::Black, vals));
            self.setup.push(e);
            assert(self@.setup =~= old(self)@.setup.push((Color::Black, vals)));
            assert(self@ =~= apply_property(old(self)@, name, vals).unwrap());
            Ok(())
        } else if name2(b, start, end, 65, 87) {
            let e = (Color::White, values);
            assert(setup_view(e) == (Color::White, vals));
            self.setup.push(e);
            assert(self@.setup =~= old(self)@.setup.push((Color::White, vals)));
            assert(self@ =~= apply_property(old(self)@, name, vals).unwrap());
            Ok(())
        } else if name1(b, start, end, 66) || name1(b, start, end, 87) {
            let color = if name1(b, start, end, 66) {
                Color::Black
            } else {
                Color::White
            };
            let v = if values.len() > 0 {
                assert(vals[0] == values@[0]@);
                clone_bytes(&values[0])
            } else {
                Vec::new()
            };
            let ghost mv = (color, if vals.len() > 0 { vals[0] } else { Seq::empty() });
            assert(v@ =~= mv.1);
            self.moves.push((color, v));
            assert(self@.moves =~= old(self)@.moves.push(mv));
            assert(self@ =~= apply_property(old(self)@, name, vals).unwrap());
            Ok(())
        } else {
            Ok(())
        }
    }
}

/// The main line of the SGF record `input`.
pub fn parse(input: &str) -> (r: Result<SgfGame, SgfError>)
    ensures
        match r {
            Ok(g) => parse_bytes(input.spec_bytes()) == Ok::<SgfView, SgfError>(g@),
            Err(e) => parse_bytes(input.spec_bytes()) == Err::<SgfView, SgfError>(e),
        },
{
    let bytes = input.as_bytes();
    let ghost b = bytes@;
    let mut i: usize = 0;
    let mut depth: usize = 0;
    let mut rd = Reader {
        size: 19,
        komi: DEFAULT_KOMI,
        setup: Vec::new(),
        moves: Vec::new(),
        saw_tree: false,
    };
    assert(rd@ =~= start_scan());
    let ghost final_scan = scan(b, 0, 0, start_scan());
    while i < bytes.len()
        invariant_except_break
            final_scan == scan(b, i as int, depth as int, rd@),
        invariant
            b == bytes@,
            b == input.spec_bytes(),
            i <= b.len(),
            depth <= i,
            final_scan == scan(b, 0, 0, start_scan()),
        ensures
            final_scan == Ok::<Scan, SgfError>(rd@),
        decreases b.len() - i,
    {
        let c = bytes[i];
        if c == 40 {
            depth += 1;
            rd.saw_tree = true;
            i += 1;
            assert(rd@ =~= Scan { saw_tree: true, ..rd@ });
        } else if c == 41 {
            depth = if depth > 0 { depth - 1 } else { 0 };
            i += 1;
            if depth == 0 {
                break;
            }
        } else if c == 59 || c == 32 || c == 9 || c == 13 || c == 10 {
            i += 1;
        } else if 65 <= c && c <= 90 {
            let start = i;
            let end = ident_end_exec(bytes, start);
            let ghost st0 = rd@;
            proof {
                lemma_ident_end(b, start + 1);
                lemma_values_at_end(b, end as int, Seq::empty());
            }
            match read_values(bytes, end) {
                Ok((values, k)) => {
                    i = k;
                    assert(final_scan == if depth > 1 {
                        scan(b, k as int, depth as int, st0)
                    } else {
                        match apply_property(st0, b.subrange(start as int, end as int), views(values@)) {
                            Err(e) => Err(e),
                            Ok(st2) => scan(b, k as int, depth as int, st2),
                        }
                    });
                    if depth <= 1 {
                        match rd.apply(bytes, start, end, values) {
                            Ok(()) => {},
                            Err(e) => {
                                assert(final_scan == Err::<Scan, SgfError>(e));
                                assert(parse_bytes(b) == Err::<SgfView, SgfError>(e));
                                return Err(e);
                            },
                        }
                    }
                },
                Err(e) => {
                    assert(final_scan == Err::<Scan, SgfError>(e));
                    assert(parse_bytes(b) == Err::<SgfView, SgfError>(e));
                    return Err(e);
                },
            }
        } else {
            i += 1;
        }
    }
    if !rd.saw_tree {
        return Err(SgfError::NoGameTree);
    }
    let ghost st = rd@;
    let size = rd.size;
    let mut setup_black: Vec<Vertex> = Vec::new();
    let mut setup_white: Vec<Vertex> = Vec::new();
    let mut k: usize = 0;
    assert(st.setup.take(0) =~= Seq::<(Color, Seq<Seq<u8>>)>::empty());
    while k < rd.setup.len()
        invariant
            st == rd@,
            size == st.size,
            k <= rd.setup@.len(),
            st.setup.len() == rd.setup@.len(),
            setup_black@ == setup_points(size as int, st.setup.take(k as int), Color::Black),
            setup_white@ == setup_points(size as int, st.setup.take(k as int), Color::White),
        decreases rd.setup@.len() - k,
    {
        let entry = &rd.setup[k];
        let ghost ev = st.setup[k as int];
        assert(ev == setup_view(*entry));
        let ghost sb0 = setup_black@;
        let ghost sw0 = setup_white@;
        let mut m: usize = 0;
        assert(ev.1.take(0) =~= Seq::<Seq<u8>>::empty());
        while m < entry.1.len()
            invariant
                ev == setup_view(*entry),
                m <= entry.1@.len(),
                ev.1.len() == entry.1@.len(),
                entry.0 == Color::Black ==> setup_black@ == sb0 + values_points(size as int, ev.1.take(m as int)) && setup_white@ == sw0,
                entry.0 == Color::White ==> setup_white@ == sw0 + values_points(size as int, ev.1.take(m as int)) && setup_black@ == sb0,
            decreases entry.1@.len() - m,
        {
            assert(ev.1[m as int] == entry.1@[m as int]@);
            assert(ev.1.take(m + 1).drop_last() =~= ev.1.take(m as int));
            match point_from_bytes(size, entry.1[m].as_slice()) {
                Some(p) => {
                    match entry.0 {
                        Color::Black => {
                            setup_black.push(p);
                        },
                        Color::White => {
                            setup_white.push(p);
                        },
                    }
                },
                None => {},
            }
            m += 1;
            assert(entry.0 == Color::Black ==> setup_black@ =~= sb0 + values_points(size as int, ev.1.take(m as int)));
            assert(entry.0 == Color::White ==> setup_white@ =~= sw0 + values_points(size as int, ev.1.take(m as int)));
        }
        assert(ev.1.take(m as int) =~= ev.1);
        assert(st.setup.take(k + 1).drop_last() =~= st.setup.take(k as int));
        k += 1;
        assert(setup_black@ =~= setup_points(size as int, st.setup.take(k as int), Color::Black));
        assert(setup_white@ =~= setup_points(size as int, st.setup.take(k as int), Color::White));
    }
    assert(st.setup.take(k as int) =~= st.setup);
    let mut moves: Vec<(Color, Move)> = Vec::new();
    let mut k: usize = 0;
    while k < rd.moves.len()
        invariant
            st == rd@,
            size == st.size,
            k <= rd.moves@.len(),
            st.moves.len() == rd.moves@.len(),
            moves@ =~= st.moves.take(k as int).map_values(|e: (Color, Seq<u8>)| (e.0, move_of(size as int, e.1))),
        decreases rd.moves@.len() - k,
    {
        let entry = &rd.moves[k];
        assert(st.moves[k as int] == move_view(*entry));
        let mv = match point_from_bytes(size, entry.1.as_slice()) {
            Some(p) => Move::Play { vertex: p },
            None => Move::Pass,
        };
        moves.push((entry.0, mv));
        k += 1;
        assert(moves@ =~= st.moves.take(k as int).map_values(|e: (Color, Seq<u8>)| (e.0, move_of(size as int, e.1))));
    }
    assert(st.moves.take(k as int) =~= st.moves);
    let g = SgfGame { size, komi: rd.komi, setup_black, setup_white, moves };
    assert(g@ =~= parse_bytes(b).unwrap());
    Ok(g)
}

fn ident_end_exec(b: &[u8], start: usize) -> (r: usize)
    requires
        start <= b@.len(),
    ensures
        r as int == ident_end(b@, start as int),
        start <= r <= b@.len(),
{
    let mut i = start;
    while i < b.len() && 65 <= b[i] && b[i] <= 90
        invariant
            start <= i <= b@.len(),
            ident_end(b@, start as int) == ident_end(b@, i as int),
        decreases b@.len() - i,
    {
        i += 1;
    }
    i
}

fn clone_bytes(v: &Vec<u8>) -> (r: Vec<u8>)
    ensures
        r@ == v@,
{
    let r = v.clone();
    assert(r@ =~= v@);
    r
}

// ---------------------------------------------------------------- replaying

/// `pts` with `p` put on each listed point that is on the board, in order.
pub open spec fn place_all(pts: Seq<Point>, vs: Seq<Vertex>, p: Point) -> Seq<Point>
    decreases vs.len(),
{
    if vs.len() == 0 {
        pts
    } else {
        let prev = place_all(pts, vs.drop_last(), p);
        let v = vs.last() as int;
        if v < prev.len() {
            prev.update(v, p)
        } else {
            prev
        }
    }
}

/// The board a record starts from: its size with the setup stones on it,
/// black ones first.
pub open spec fn setup_board(rec: SgfView) -> BoardView {
    let b = empty_board(rec.size as int);
    BoardView {
        size: b.size,
        points: place_all(
            place_all(b.points, rec.setup_black, Point::Stone(Color::Black)),
            rec.setup_white,
            Point::Stone(Color::White),
        ),
    }
}

/// White moves first after a handicap, black otherwise.
pub open spec fn first_to_play(rec: SgfView) -> Color {
    if rec.setup_black.len() > rec.setup_white.len() {
        Color::White
    } else {
        Color::Black
    }
}

/// Plays `moves` from position `i` on, each by the colour the record gives
/// it; stops at the first refused move and reports its index.
pub open spec fn replay_run(g: GameView, moves: Seq<(Color, Move)>, i: int) -> (GameView, Option<(int, MoveError)>)
    decreases moves.len() - i,
{
    if !(0 <= i < moves.len()) {
        (g, None)
    } else {
        let c = moves[i].0;
        let mv = moves[i].1;
        let g1 = with_turn(g, c);
        match play_error(g1, c, mv) {
            Some(e) => (g1, Some((i, e))),
            None => replay_run(after_move(g1, c, mv), moves, i + 1),
        }
    }
}

/// The game a record replays to, and the first move the rules refused.
pub open spec fn replay_of(rec: SgfView) -> (GameView, Option<(int, MoveError)>) {
    replay_run(initial(setup_board(rec), first_to_play(rec), rec.komi), rec.moves, 0)
}

fn place_each(board: &mut Board, vs: &Vec<Vertex>, p: Point)
    requires
        old(board).wf(),
    ensures
        final(board).wf(),
        final(board)@.size == old(board)@.size,
        final(board)@.points == place_all(old(board)@.points, vs@, p),
{
    let mut k: usize = 0;
    let ghost start = board@.points;
    assert(vs@.take(0) =~= Seq::<Vertex>::empty());
    while k < vs.len()
        invariant
            board.wf(),
            board@.size == old(board)@.size,
            start == old(board)@.points,
            k <= vs@.len(),
            board@.points == place_all(start, vs@.take(k as int), p),
        decreases vs@.len() - k,
    {
        assert(vs@.take(k + 1).drop_last() =~= vs@.take(k as int));
        board.set(vs[k], p);
        k += 1;
    }
    assert(vs@.take(k as int) =~= vs@);
}

/// Replays a record: the setup stones, then every move by the colour the
/// record gives it. Returns the game and, where the rules refused a move,
/// its index and the reason.
pub fn replay(record: &SgfGame) -> (r: (Game, Option<(usize, MoveError)>))
    requires
        record.moves@.len() + 1250 <= u32::MAX,
    ensures
        r.0.wf(),
        r.0@ == replay_of(record@).0,
        match r.1 {
            Some((i, e)) => replay_of(record@).1 == Some((i as int, e)),
            None => replay_of(record@).1 is None,
        },
{
    let mut board = Board::new(record.size);
    place_each(&mut board, &record.setup_black, Point::Stone(Color::Black));
    place_each(&mut board, &record.setup_white, Point::Stone(Color::White));
    assert(board@ =~= setup_board(record@));
    let first = if record.setup_black.len() > record.setup_white.len() {
        Color::White
    } else {
        Color::Black
    };
    let mut game = Game::from_board(board, first, record.komi);
    let ghost rec = record@;
    let mut i: usize = 0;
    while i < record.moves.len()
        invariant
            rec == record@,
            rec.moves.len() + 1250 <= u32::MAX,
            i <= rec.moves.len(),
            game.wf(),
            game@.history.len() == i,
            replay_of(rec) == replay_run(game@, rec.moves, i as int),
        decreases rec.moves.len() - i,
    {
        let (color, mv) = record.moves[i];
        match game.replay_move(color, mv) {
            Err(e) => {
                return (game, Some((i, e)));
            },
            Ok(_) => {},
        }
        i += 1;
    }
    (game, None)
}

// -------------------------------------------------------------------- laws

/// A record's first mover: after a handicap (more black setup stones than
/// white ones) white moves first, otherwise black. A record with no moves
/// replays to a game with that side to play, and with no refusal.
pub proof fn lemma_handicap_means_white_first(rec: SgfView)
    requires
        rec.moves.len() == 0,
    ensures
        replay_of(rec).1 is None,
        rec.setup_black.len() > rec.setup_white.len() ==> replay_of(rec).0.to_play == Color::White,
        rec.setup_black.len() <= rec.setup_white.len() ==> replay_of(rec).0.to_play == Color::Black,
        replay_of(rec).0.history.len() == 0,
{
}

/// The result of a counted game names the winner and the winner's lead:
/// the winner's total less the loser's, a positive number, so its text
/// never starts with a minus sign.
pub proof fn lemma_result_names_the_lead(s: Score)
    ensures
        crate::score::winner_of(s) == Some(Color::White) ==> {
            let lead = crate::score::white_total_of(s) - crate::score::black_total_of(s);
            &&& lead > 0
            &&& result_text(GameResult::Counted { winner: Some(Color::White), score: s }) == seq!['W', '+']
                + hundredths_text(lead)
            &&& hundredths_text(lead)[0] != '-'
        },
        crate::score::winner_of(s) == Some(Color::Black) ==> {
            let lead = crate::score::black_total_of(s) - crate::score::white_total_of(s);
            &&& lead > 0
            &&& result_text(GameResult::Counted { winner: Some(Color::Black), score: s }) == seq!['B', '+']
                + hundredths_text(lead)
            &&& hundredths_text(lead)[0] != '-'
        },
{
    let w = crate::score::white_total_of(s) - crate::score::black_total_of(s);
    let b = crate::score::black_total_of(s) - crate::score::white_total_of(s);
    crate::record::lemma_decimal((w / 100) as nat);
    crate::record::lemma_decimal((b / 100) as nat);
    if w > 0 {
        assert(hundredths_text(w) == Seq::<char>::empty() + decimal((w / 100) as nat) + crate::record::frac_text(w % 100));
        assert(hundredths_text(w)[0] == decimal((w / 100) as nat)[0]);
    }
    if b > 0 {
        assert(hundredths_text(b) == Seq::<char>::empty() + decimal((b / 100) as nat) + crate::record::frac_text(b % 100));
        assert(hundredths_text(b)[0] == decimal((b / 100) as nat)[0]);
    }
}

} // verus!
