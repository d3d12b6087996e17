//! The messages a game room exchanges with its clients.

use vstd::prelude::*;

use crate::board::{Color, Vertex};
use crate::game::{Applied, Move, Phase};
use crate::score::Score;

verus! {

/// A connection's number within its room.
pub type ConnId = u64;

/// The secret a player keeps across connections.
pub type PlayerToken = String;

/// The names of the seated players.
#[derive(Debug, Clone, Default, PartialEq)]
pub struct Seats {
    pub black: Option<String>,
    pub white: Option<String>,
}

/// What a client asks of its room.
#[derive(Debug, Clone)]
pub enum ClientMsg {
    Hello { token: PlayerToken, name: String },
    ClaimSeat { color: Color },
    ReleaseSeat,
    Play { move_number: usize, mv: Move },
    ToggleDead { vertex: Vertex },
    AcceptScore,
    ResumePlay,
}

/// What a room tells its clients.
#[derive(Debug, Clone)]
pub enum ServerMsg {
    Identity { conn: ConnId, you: Option<Color> },
    Snapshot(Box<Snapshot>),
    History {
        start: usize,
        moves: Vec<Applied>,
        to_play: Color,
        captures: [u32; 2],
        phase: Phase,
    },
    Seats { seats: Seats },
    Dead { vertices: Vec<Vertex>, accepted: Vec<Color>, score: Score, territory: Vec<u8> },
    PhaseChanged { phase: Phase },
    Presence { connections: usize },
    Rejected { reason: String },
}

/// Everything a client needs to draw the room: the board one byte per
/// point, the game's state, the seats, the marks of the scoring phase, and
/// who the client is. Komi is in hundredths of a point.
#[derive(Debug, Clone)]
pub struct Snapshot {
    pub size: u8,
    pub komi: i32,
    pub board: Vec<u8>,
    pub to_play: Color,
    pub move_number: usize,
    pub captures: [u32; 2],
    pub phase: Phase,
    pub seats: Seats,
    pub dead: Vec<Vertex>,
    pub accepted: Vec<Color>,
    pub you: Option<Color>,
    pub connections: usize,
}

} // verus!
