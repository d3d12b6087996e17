# igo

A minimal go platform with Chinese (area) rules and 7.5 komi. The engine
and the rules of a shared game room are written in Verus and proved
against their specifications; the network server around them is ordinary
Rust.

## Layout

- `src/` — the verified library.
  - `grid.rs`: board geometry, neighbours and connectivity.
  - `board.rs`: points, chains and liberties.
  - `rules.rs`: placing a stone and lifting the chains it captures.
  - `zobrist.rs`: position hashing for the superko rule.
  - `game.rs`: turns, passes, scoring phase, resignation and superko.
  - `score.rs`: area scoring and ownership; komi and totals are kept in
    hundredths of a point.
  - `komi.rs`: reading a komi the way a decimal float is read, exponent
    included.
  - `text.rs`, `sgf.rs`: writing and reading SGF records, and replaying
    them; `record.rs` proves that an exported record reads back and replays
    to the game it came from.
  - `protocol.rs`, `room.rs`: the messages of a room and its rules — seats,
    turns, dead-stone marking and score agreement — as a state machine
    whose every step is specified.
- `app/` — the server: HTTP routes, WebSockets, the table of rooms and the
  JSON form of the protocol.
- `tests/` — the test suite.

## Configuration

The server reads `PORT`, `BOARD_SIZE`, `KOMI`, `EXPIRY_DAYS` and
`STATIC_DIR` from the environment.
