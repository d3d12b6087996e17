//! A verified go engine: board geometry, captures, positional superko,
//! area scoring, SGF records, and the seat and agreement rules of a
//! shared game room.

pub mod board;
pub mod game;
pub mod grid;
pub mod komi;
pub mod room;
pub mod rules;
pub mod score;
pub mod sgf;
pub mod protocol;
pub mod record;
pub mod text;
pub mod zobrist;

pub use board::{Board, Color, Group, Point, Vertex};
pub use game::{Applied, Game, GameResult, Move, MoveError, Phase, DEFAULT_KOMI};
pub use score::Score;
