//! A game of go under area scoring and positional superko: turns, passes,
//! resignation, captures, and the scoring phase.

use std::collections::HashSet;

use vstd::prelude::*;

use crate::board::{board_wf, color_index, empty_board, opp, Board, BoardView, Color, Point, Vertex};
use crate::rules::{
    after_stone, captured_by, has_liberty_at, place_and_capture, stone_count, stone_marks,
};
use crate::score::{area_score, lemma_score_covers_board, score_of, winner_of, Score};
use crate::text::push_str;
use crate::zobrist::{hash_board, position_hash};

verus! {

broadcast use vstd::std_specs::hash::group_hash_axioms;

/// 7.5 points, in hundredths of a point.
pub const DEFAULT_KOMI: i32 = 750;

#[derive(Debug, Clone, Copy, PartialEq, Eq, Structural)]
pub enum Move {
    Play { vertex: Vertex },
    Pass,
    Resign,
}

#[derive(Debug, Clone, Copy, PartialEq, Eq, Structural)]
pub enum GameResult {
    Counted { winner: Option<Color>, score: Score },
    Resignation { winner: Color },
}

#[derive(Debug, Clone, Copy, PartialEq, Eq, Structural)]
pub enum Phase {
    Playing,
    Scoring,
    Finished { result: GameResult },
}

/// A move as it was played: its number (from 0), who played it, and the
/// stones it captured.
#[derive(Debug, PartialEq, Eq)]
pub struct Applied {
    pub move_number: usize,
    pub color: Color,
    pub mv: Move,
    pub captured: Vec<Vertex>,
}

impl Clone for Applied {
    fn clone(&self) -> (r: Applied)
        ensures
            applied_view(r) == applied_view(*self),
    {
        let captured = self.captured.clone();
        assert(captured@ =~= self.captured@);
        Applied { move_number: self.move_number, color: self.color, mv: self.mv, captured }
    }
}

#[derive(Debug, Clone, Copy, PartialEq, Eq, Structural)]
pub enum MoveError {
    NotPlaying,
    WrongTurn,
    OffBoard,
    Occupied,
    Suicide,
    Superko,
}

/// What each refusal says.
pub open spec fn move_error_text(e: MoveError) -> Seq<char> {
    match e {
        MoveError::NotPlaying => "the game is not in progress"@,
        MoveError::WrongTurn => "it is not your turn"@,
        MoveError::OffBoard => "that point is not on the board"@,
        MoveError::Occupied => "that point is already occupied"@,
        MoveError::Suicide => "that move is suicide"@,
        MoveError::Superko => "that move repeats a previous position (ko)"@,
    }
}

impl MoveError {
    /// The refusal in words.
    pub fn message(&self) -> (r: String)
        ensures
            r@ == move_error_text(*self),
    {
        let mut out = String::new();
        match self {
            MoveError::NotPlaying => push_str(&mut out, "the game is not in progress"),
            MoveError::WrongTurn => push_str(&mut out, "it is not your turn"),
            MoveError::OffBoard => push_str(&mut out, "that point is not on the board"),
            MoveError::Occupied => push_str(&mut out, "that point is already occupied"),
            MoveError::Suicide => push_str(&mut out, "that move is suicide"),
            MoveError::Superko => push_str(&mut out, "that move repeats a previous position (ko)"),
        }
        assert(out@ =~= move_error_text(*self));
        out
    }
}

/// What an applied move records.
#[verifier::ext_equal]
pub struct AppliedView {
    pub move_number: int,
    pub color: Color,
    pub mv: Move,
    pub captured: Seq<int>,
}

pub open spec fn applied_view(a: Applied) -> AppliedView {
    AppliedView {
        move_number: a.move_number as int,
        color: a.color,
        mv: a.mv,
        captured: a.captured@.map_values(|x: Vertex| x as int),
    }
}

/// The state of a game: the board, whose turn it is, the moves so far, the
/// hashes of every position reached by a stone, the hash of the current
/// position, the stones each colour has captured (black first), the run of
/// passes, the phase and the komi in hundredths of a point.
#[verifier::ext_equal]
pub struct GameView {
    pub board: BoardView,
    pub to_play: Color,
    pub history: Seq<AppliedView>,
    pub positions: Set<u64>,
    pub hash: u64,
    pub captures: Seq<u32>,
    pub passes: int,
    pub phase: Phase,
    pub komi: i32,
}

#[derive(Debug)]
pub struct Game {
    board: Board,
    to_play: Color,
    history: Vec<Applied>,
    position_hashes: HashSet<u64>,
    hash: u64,
    captures: [u32; 2],
    consecutive_passes: u8,
    phase: Phase,
    komi: i32,
}

impl View for Game {
    type V = GameView;

    closed spec fn view(&self) -> GameView {
        GameView {
            board: self.board@,
            to_play: self.to_play,
            history: self.history@.map_values(|a: Applied| applied_view(a)),
            positions: self.position_hashes@,
            hash: self.hash,
            captures: self.captures@,
            passes: self.consecutive_passes as int,
            phase: self.phase,
            komi: self.komi,
        }
    }
}


/// A copy of a set of position hashes: the same hashes, in a new set.
fn copy_positions(s: &HashSet<u64>) -> (r: HashSet<u64>)
    ensures
        r@ == s@,
{
    let mut out: HashSet<u64> = HashSet::new();
    for x in it: s.iter()
        invariant
            forall|y: u64| #[trigger] out@.contains(y) ==> s@.contains(y),
            forall|y: u64| #[trigger] s@.contains(y) ==> out@.contains(y) || exists|k: int|
                it.index() <= k < it.seq().len() && *it.seq()[k] == y,
    {
        let ghost before = out@;
        assert(s@.contains(*x)) by {
            assert(it.seq()[it.index() as int] == x);
        }
        out.insert(*x);
        proof {
            assert forall|y: u64| #[trigger] s@.contains(y) implies out@.contains(y) || exists|k: int|
                it.index() + 1 <= k < it.seq().len() && *it.seq()[k] == y by {
                if !before.contains(y) && y != *x {
                    let k = choose|k: int| it.index() <= k < it.seq().len() && *it.seq()[k] == y;
                    assert(k != it.index());
                }
            }
        }
    }
    assert(out@ =~= s@);
    out
}

impl Clone for Game {
    fn clone(&self) -> (r: Game)
        ensures
            r@ == self@,
    {
        let history = self.history.clone();
        proof {
            assert forall|i: int| 0 <= i < history@.len() implies applied_view(history@[i]) == applied_view(self.history@[i]) by {
                assert(vstd::pervasive::cloned::<Applied>(self.history@[i], history@[i]));
            }
            assert(history@.map_values(|a: Applied| applied_view(a)) =~= self.history@.map_values(|a: Applied| applied_view(a)));
        }
        Game {
            board: self.board.clone(),
            to_play: self.to_play,
            history,
            position_hashes: copy_positions(&self.position_hashes),
            hash: self.hash,
            captures: self.captures,
            consecutive_passes: self.consecutive_passes,
            phase: self.phase,
            komi: self.komi,
        }
    }
}

/// The invariant every game keeps.
pub open spec fn game_wf(g: GameView) -> bool {
    &&& board_wf(g.board)
    &&& g.hash == position_hash(g.board.points)
    &&& g.positions.contains(g.hash)
    &&& g.captures.len() == 2
    &&& 0 <= g.passes <= 2
    &&& g.phase == Phase::Playing ==> g.passes <= 1
    &&& forall|k: int| 0 <= k < g.history.len() ==> #[trigger] g.history[k].move_number == k
    &&& g.captures[0] + g.captures[1] + stone_count(g.board.points) <= 625 + g.history.len()
    &&& forall|k: int|
        0 <= k < g.history.len() && #[trigger] g.history[k].mv is Play ==> (g.history[k].mv->vertex as int) < g.board.points.len()
    &&& g.phase matches Phase::Finished { result: GameResult::Counted { score, .. } } ==> score_fits(score)
}

/// The totals of a counted score fit the counters they are added in.
pub open spec fn score_fits(s: Score) -> bool {
    &&& s.black_stones + s.black_territory <= 625
    &&& s.white_stones + s.white_territory <= 625
}

/// Why a move is refused, if it is: the game must be in play, it must be the
/// mover's turn, and a stone must go on an empty point of the board, leave its
/// own chain a liberty once the captures are lifted, and not bring back a
/// position seen before.
pub open spec fn play_error(g: GameView, color: Color, mv: Move) -> Option<MoveError> {
    if g.phase != Phase::Playing {
        Some(MoveError::NotPlaying)
    } else if color != g.to_play {
        Some(MoveError::WrongTurn)
    } else {
        match mv {
            Move::Play { vertex } => {
                let v = vertex as int;
                if !(v < g.board.points.len()) {
                    Some(MoveError::OffBoard)
                } else if g.board.points[v] != Point::Empty {
                    Some(MoveError::Occupied)
                } else if !has_liberty_at(after_stone(g.board, v, color), v) {
                    Some(MoveError::Suicide)
                } else if g.positions.contains(position_hash(after_stone(g.board, v, color).points)) {
                    Some(MoveError::Superko)
                } else {
                    None
                }
            },
            _ => None,
        }
    }
}

/// The record of an accepted move.
pub open spec fn applied_of(g: GameView, color: Color, mv: Move) -> AppliedView {
    AppliedView {
        move_number: g.history.len() as int,
        color,
        mv,
        captured: match mv {
            Move::Play { vertex } => captured_by(g.board, vertex as int, color),
            _ => Seq::empty(),
        },
    }
}

/// The game after an accepted move.
pub open spec fn after_move(g: GameView, color: Color, mv: Move) -> GameView {
    let history = g.history.push(applied_of(g, color, mv));
    match mv {
        Move::Resign => GameView {
            history,
            phase: Phase::Finished { result: GameResult::Resignation { winner: opp(color) } },
            ..g
        },
        Move::Pass => GameView {
            history,
            passes: g.passes + 1,
            phase: if g.passes + 1 >= 2 { Phase::Scoring } else { g.phase },
            to_play: opp(color),
            ..g
        },
        Move::Play { vertex } => {
            let next = after_stone(g.board, vertex as int, color);
            let h = position_hash(next.points);
            let i = color_index(color);
            GameView {
                board: next,
                hash: h,
                positions: g.positions.insert(h),
                captures: g.captures.update(i, (g.captures[i] + captured_by(g.board, vertex as int, color).len()) as u32),
                passes: 0,
                to_play: opp(color),
                history,
                ..g
            }
        },
    }
}

/// A fresh game on `board` with `to_play` to move.
pub open spec fn initial(b: BoardView, to_play: Color, komi: i32) -> GameView {
    GameView {
        board: b,
        to_play,
        history: Seq::empty(),
        positions: set![position_hash(b.points)],
        hash: position_hash(b.points),
        captures: seq![0u32, 0u32],
        passes: 0,
        phase: Phase::Playing,
        komi,
    }
}

/// `g` with `color` to move.
pub open spec fn with_turn(g: GameView, color: Color) -> GameView {
    GameView { to_play: color, ..g }
}

/// `g` with one more move recorded.
pub open spec fn with_record(g: GameView, a: AppliedView) -> GameView {
    GameView { history: g.history.push(a), ..g }
}

/// `g` finished with the counted score `s`.
pub open spec fn counted(g: GameView, s: Score) -> GameView {
    GameView { phase: Phase::Finished { result: GameResult::Counted { winner: winner_of(s), score: s } }, ..g }
}

/// `g` back in play after the scoring phase.
pub open spec fn resumed(g: GameView) -> GameView {
    GameView { phase: Phase::Playing, passes: 0, ..g }
}

/// Counters stay within `u32` for this many more moves.
pub open spec fn capture_room(g: GameView) -> bool {
    g.history.len() + 1250 <= u32::MAX
}

impl Game {
    pub open spec fn wf(&self) -> bool {
        game_wf(self@)
    }

    pub fn new(size: u8, komi: i32) -> (g: Game)
        ensures
            g.wf(),
            g@ == initial(empty_board(size as int), Color::Black, komi),
    {
        Game::from_board(Board::new(size), Color::Black, komi)
    }

    pub fn from_board(board: Board, to_play: Color, komi: i32) -> (g: Game)
        requires
            board.wf(),
        ensures
            g.wf(),
            g@ == initial(board@, to_play, komi),
    {
        let hash = hash_board(&board);
        let mut position_hashes: HashSet<u64> = HashSet::new();
        position_hashes.insert(hash);
        proof {
            crate::grid::lemma_count_true_bound(stone_marks(board@.points));
            assert(board@.size * board@.size <= 625) by (nonlinear_arith)
                requires 2 <= board@.size <= 25;
        }
        let g = Game {
            board,
            to_play,
            history: Vec::new(),
            position_hashes,
            hash,
            captures: [0, 0],
            consecutive_passes: 0,
            phase: Phase::Playing,
            komi,
        };
        assert(g@.history =~= Seq::empty());
        assert(g@.positions =~= set![hash]);
        assert(g@.captures =~= seq![0u32, 0u32]);
        g
    }

    pub fn board(&self) -> (r: &Board)
        ensures
            r@ == self@.board,
    {
        &self.board
    }

    pub fn to_play(&self) -> (r: Color)
        ensures
            r == self@.to_play,
    {
        self.to_play
    }

    pub fn phase(&self) -> (r: &Phase)
        ensures
            *r == self@.phase,
    {
        &self.phase
    }

    /// Komi in hundredths of a point.
    pub fn komi(&self) -> (r: i32)
        ensures
            r == self@.komi,
    {
        self.komi
    }

    pub fn history(&self) -> (r: &[Applied])
        ensures
            r@.map_values(|a: Applied| applied_view(a)) == self@.history,
    {
        self.history.as_slice()
    }

    pub fn move_number(&self) -> (r: usize)
        ensures
            r == self@.history.len(),
    {
        self.history.len()
    }

    /// Stones captured by black and by white.
    pub fn captures(&self) -> (r: [u32; 2])
        ensures
            r@ == self@.captures,
    {
        self.captures
    }

    pub fn is_finished(&self) -> (r: bool)
        ensures
            r == (self@.phase is Finished),
    {
        match self.phase {
            Phase::Finished { .. } => true,
            _ => false,
        }
    }

    /// Plays `mv` for `color`. A refused move leaves the game unchanged.
    #[verifier::spinoff_prover]
    pub fn play(&mut self, color: Color, mv: Move) -> (r: Result<Applied, MoveError>)
        requires
            old(self).wf(),
            capture_room(old(self)@),
        ensures
            final(self).wf(),
            match r {
                Ok(a) => {
                    &&& play_error(old(self)@, color, mv) is None
                    &&& applied_view(a) == applied_of(old(self)@, color, mv)
                    &&& final(self)@ == after_move(old(self)@, color, mv)
                },
                Err(e) => {
                    &&& play_error(old(self)@, color, mv) == Some(e)
                    &&& final(self)@ == old(self)@
                },
            },
    {
        match self.phase {
            Phase::Playing => {},
            _ => {
                return Err(MoveError::NotPlaying);
            },
        }
        if color != self.to_play {
            return Err(MoveError::WrongTurn);
        }
        match mv {
            Move::Resign => {
                self.phase = Phase::Finished {
                    result: GameResult::Resignation { winner: color.opposite() },
                };
                let a = self.record(color, mv, Vec::new());
                assert(applied_view(a).captured =~= Seq::<int>::empty());
                assert(applied_view(a) =~= applied_of(old(self)@, color, mv));
                assert(self@ =~= after_move(old(self)@, color, mv));
                assert(play_error(old(self)@, color, mv) is None);
                Ok(a)
            },
            Move::Pass => {
                self.consecutive_passes += 1;
                if self.consecutive_passes >= 2 {
                    self.phase = Phase::Scoring;
                }
                self.to_play = color.opposite();
                Ok(self.record(color, mv, Vec::new()))
            },
            Move::Play { vertex } => self.play_stone(color, vertex),
        }
    }

    fn play_stone(&mut self, color: Color, vertex: Vertex) -> (r: Result<Applied, MoveError>)
        requires
            old(self).wf(),
            capture_room(old(self)@),
            old(self)@.phase == Phase::Playing,
            old(self)@.to_play == color,
        ensures
            final(self).wf(),
            match r {
                Ok(a) => {
                    &&& play_error(old(self)@, color, Move::Play { vertex }) is None
                    &&& applied_view(a) == applied_of(old(self)@, color, Move::Play { vertex })
                    &&& final(self)@ == after_move(old(self)@, color, Move::Play { vertex })
                },
                Err(e) => {
                    &&& play_error(old(self)@, color, Move::Play { vertex }) == Some(e)
                    &&& final(self)@ == old(self)@
                },
            },
    {
        if !self.board.contains(vertex) {
            return Err(MoveError::OffBoard);
        }
        if self.board.get(vertex) != Point::Empty {
            return Err(MoveError::Occupied);
        }
        let (next, captured, next_hash) = place_and_capture(&self.board, vertex, color, self.hash);
        if !next.has_liberty(vertex) {
            return Err(MoveError::Suicide);
        }
        if self.position_hashes.contains(&next_hash) {
            return Err(MoveError::Superko);
        }
        let ghost g0 = self@;
        proof {
            crate::grid::lemma_count_true_bound(stone_marks(next@.points));
        }
        self.board = next;
        self.hash = next_hash;
        self.position_hashes.insert(next_hash);
        let i = color.index();
        self.captures[i] = self.captures[i] + captured.len() as u32;
        self.consecutive_passes = 0;
        self.to_play = color.opposite();
        let a = self.record(color, Move::Play { vertex }, captured);
        assert(self@.captures =~= g0.captures.update(color_index(color), (g0.captures[color_index(color)] + captured_by(g0.board, vertex as int, color).len()) as u32));
        Ok(a)
    }

    /// Plays `mv` for `color`, whoever's turn it was: a recorded game
    /// replays with its own order of colours. The turn passes to `color`
    /// even when the move is refused.
    pub fn replay_move(&mut self, color: Color, mv: Move) -> (r: Result<Applied, MoveError>)
        requires
            old(self).wf(),
            capture_room(old(self)@),
        ensures
            final(self).wf(),
            match r {
                Ok(a) => {
                    &&& play_error(with_turn(old(self)@, color), color, mv) is None
                    &&& applied_view(a) == applied_of(with_turn(old(self)@, color), color, mv)
                    &&& final(self)@ == after_move(with_turn(old(self)@, color), color, mv)
                },
                Err(e) => {
                    &&& play_error(with_turn(old(self)@, color), color, mv) == Some(e)
                    &&& final(self)@ == with_turn(old(self)@, color)
                },
            },
    {
        self.to_play = color;
        assert(self@ =~= with_turn(old(self)@, color));
        self.play(color, mv)
    }

    fn record(&mut self, color: Color, mv: Move, captured: Vec<Vertex>) -> (a: Applied)
        ensures
            a.move_number == old(self)@.history.len(),
            a.color == color,
            a.mv == mv,
            a.captured@ == captured@,
            final(self)@ == with_record(old(self)@, applied_view(a)),
    {
        let copy = captured.clone();
        assert(copy@ =~= captured@);
        let a = Applied { move_number: self.history.len(), color, mv, captured };
        let stored = Applied { move_number: self.history.len(), color, mv, captured: copy };
        self.history.push(stored);
        assert(self@.history =~= old(self)@.history.push(applied_view(a)));
        a
    }

    /// Ends the scoring phase with `dead` counted as captured.
    pub fn finish_with_dead(&mut self, dead: &HashSet<Vertex>) -> (r: Result<Score, MoveError>)
        requires
            old(self).wf(),
        ensures
            final(self).wf(),
            match r {
                Ok(s) => {
                    &&& old(self)@.phase == Phase::Scoring
                    &&& s == score_of(old(self)@.board, dead@, old(self)@.komi)
                    &&& final(self)@ == counted(old(self)@, s)
                },
                Err(e) => {
                    &&& old(self)@.phase != Phase::Scoring
                    &&& e == MoveError::NotPlaying
                    &&& final(self)@ == old(self)@
                },
            },
    {
        match self.phase {
            Phase::Scoring => {},
            _ => {
                return Err(MoveError::NotPlaying);
            },
        }
        let score = area_score(&self.board, dead, self.komi);
        proof {
            lemma_score_covers_board(self@.board, dead@, self.komi);
            assert(self@.board.size * self@.board.size <= 625) by (nonlinear_arith)
                requires 2 <= self@.board.size <= 25;
        }
        self.phase = Phase::Finished {
            result: GameResult::Counted { winner: score.winner(), score },
        };
        Ok(score)
    }

    /// The area score if `dead` were agreed now.
    pub fn provisional_score(&self, dead: &HashSet<Vertex>) -> (r: Score)
        requires
            self.wf(),
        ensures
            r == score_of(self@.board, dead@, self@.komi),
    {
        area_score(&self.board, dead, self.komi)
    }

    /// Leaves the scoring phase and goes back to play.
    pub fn resume_play(&mut self) -> (r: Result<(), MoveError>)
        requires
            old(self).wf(),
        ensures
            final(self).wf(),
            match r {
                Ok(()) => {
                    &&& old(self)@.phase == Phase::Scoring
                    &&& final(self)@ == resumed(old(self)@)
                },
                Err(e) => {
                    &&& old(self)@.phase != Phase::Scoring
                    &&& e == MoveError::NotPlaying
                    &&& final(self)@ == old(self)@
                },
            },
    {
        match self.phase {
            Phase::Scoring => {},
            _ => {
                return Err(MoveError::NotPlaying);
            },
        }
        self.phase = Phase::Playing;
        self.consecutive_passes = 0;
        Ok(())
    }
}

} // verus!
