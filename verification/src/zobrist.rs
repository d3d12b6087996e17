//! Zobrist keys: one pseudo-random 64-bit key per (point, colour), taken
//! from a SplitMix64 stream with a fixed seed, so that a position's hash is
//! the xor of the keys of its stones and can be updated one stone at a time.

use vstd::prelude::*;

use vstd::wrapping::u64_specs;

use crate::board::{color_index, Board, Color, Point, Vertex};

verus! {

/// Keys exist for boards of up to 25 x 25 points.
pub const MAX_VERTICES: usize = 625;

/// The seed spells "igo_v2".
pub const SEED: u64 = 0x0069_676F_5F76_32;

pub const GAMMA: u64 = 0x9E37_79B9_7F4A_7C15;

pub const MIX1: u64 = 0xBF58_476D_1CE4_E5B9;

pub const MIX2: u64 = 0x94D0_49BB_1331_11EB;

/// The SplitMix64 output function.
pub open spec fn mix(s: u64) -> u64 {
    let z = u64_specs::wrapping_mul(s ^ (s >> 30u64), MIX1);
    let z = u64_specs::wrapping_mul(z ^ (z >> 27u64), MIX2);
    z ^ (z >> 31u64)
}

/// The generator's state after `k` steps from the seed.
pub open spec fn splitmix_state(k: nat) -> u64
    decreases k,
{
    if k == 0 {
        SEED
    } else {
        u64_specs::wrapping_add(splitmix_state((k - 1) as nat), GAMMA)
    }
}

/// The `k`-th number the generator draws (counting from 0).
pub open spec fn splitmix_out(k: nat) -> u64 {
    mix(splitmix_state(k + 1))
}

/// The key of a `color` stone on `v`: draw `2 v` for black and `2 v + 1`
/// for white; 0 beyond the last point a board can have.
pub open spec fn stone_key(v: int, color: Color) -> u64 {
    if 0 <= v < MAX_VERTICES {
        splitmix_out((2 * v + color_index(color)) as nat)
    } else {
        0
    }
}

/// What point `v` holding `p` adds to a hash.
pub open spec fn point_key(v: int, p: Point) -> u64 {
    match p {
        Point::Stone(c) => stone_key(v, c),
        Point::Empty => 0,
    }
}

/// The xor of the keys of the first `k` points.
pub open spec fn hash_upto(pts: Seq<Point>, k: nat) -> u64
    decreases k,
{
    if k == 0 {
        0
    } else {
        hash_upto(pts, (k - 1) as nat) ^ point_key(k - 1, pts[k - 1])
    }
}

/// The hash of a whole position.
pub open spec fn position_hash(pts: Seq<Point>) -> u64 {
    hash_upto(pts, pts.len())
}

/// One step of the generator: the number drawn and the next state.
fn splitmix64(state: u64) -> (r: (u64, u64))
    ensures
        r.1 == u64_specs::wrapping_add(state, GAMMA),
        r.0 == mix(r.1),
{
    let state = state.wrapping_add(GAMMA);
    let mut z = state;
    z = (z ^ (z >> 30)).wrapping_mul(MIX1);
    z = (z ^ (z >> 27)).wrapping_mul(MIX2);
    (z ^ (z >> 31), state)
}

/// The key table: entry `v` holds the black and the white key of point `v`.
pub fn build_table() -> (table: Vec<[u64; 2]>)
    ensures
        table@.len() == MAX_VERTICES,
        forall|v: int|
            0 <= v < MAX_VERTICES ==> #[trigger] table@[v]@[0] == stone_key(v, Color::Black)
                && table@[v]@[1] == stone_key(v, Color::White),
{
    let mut table: Vec<[u64; 2]> = Vec::new();
    let mut state = SEED;
    let mut i: usize = 0;
    while i < MAX_VERTICES
        invariant
            i <= MAX_VERTICES,
            table@.len() == i,
            state == splitmix_state(2 * i as nat),
            forall|v: int|
                0 <= v < i ==> #[trigger] table@[v]@[0] == stone_key(v, Color::Black)
                    && table@[v]@[1] == stone_key(v, Color::White),
        decreases MAX_VERTICES - i,
    {
        let (black, s) = splitmix64(state);
        state = s;
        let (white, s) = splitmix64(state);
        state = s;
        assert(splitmix_state((2 * i + 1) as nat) == u64_specs::wrapping_add(splitmix_state(2 * i as nat), GAMMA));
        assert(splitmix_state((2 * i + 2) as nat) == u64_specs::wrapping_add(splitmix_state((2 * i + 1) as nat), GAMMA));
        table.push([black, white]);
        i += 1;
    }
    table
}

proof fn lemma_wrapping_add_is_mod(x: u64, y: u64)
    ensures
        u64_specs::wrapping_add(x, y) as int == (x + y) % 0x1_0000_0000_0000_0000,
{
    if x + y > u64::MAX {
        vstd::arithmetic::div_mod::lemma_fundamental_div_mod_converse(x + y, 0x1_0000_0000_0000_0000, 1, x + y - 0x1_0000_0000_0000_0000);
    } else {
        vstd::arithmetic::div_mod::lemma_small_mod((x + y) as nat, 0x1_0000_0000_0000_0000);
    }
}

/// The state after `k` steps in closed form.
proof fn lemma_state_closed_form(k: nat)
    ensures
        splitmix_state(k) as int == (SEED + k * GAMMA) % 0x1_0000_0000_0000_0000,
    decreases k,
{
    let m: int = 0x1_0000_0000_0000_0000;
    if k == 0 {
        vstd::arithmetic::div_mod::lemma_small_mod(SEED as nat, m as nat);
    } else {
        lemma_state_closed_form((k - 1) as nat);
        lemma_wrapping_add_is_mod(splitmix_state((k - 1) as nat), GAMMA);
        let x = SEED + (k - 1) * GAMMA;
        vstd::arithmetic::div_mod::lemma_add_mod_noop(x, GAMMA as int, m);
        vstd::arithmetic::div_mod::lemma_small_mod(GAMMA as nat, m as nat);
        vstd::arithmetic::div_mod::lemma_mod_twice(x, m);
        assert(x + GAMMA == SEED + k * GAMMA) by (nonlinear_arith)
            requires x == SEED + (k - 1) * GAMMA;
    }
}

/// The key of a `color` stone on `v`; 0 for a point beyond the largest
/// board.
pub fn stone(v: Vertex, color: Color) -> (r: u64)
    ensures
        r == stone_key(v as int, color),
{
    if (v as usize) < MAX_VERTICES {
        let k: u64 = 2 * (v as u64) + color.index() as u64;
        let s = SEED.wrapping_add(k.wrapping_mul(GAMMA));
        proof {
            let m: int = 0x1_0000_0000_0000_0000;
            lemma_state_closed_form(k as nat);
            lemma_wrapping_add_is_mod(SEED, u64_specs::wrapping_mul(k, GAMMA));
            vstd::arithmetic::div_mod::lemma_add_mod_noop_right(SEED as int, k * GAMMA, m);
            assert(s == splitmix_state(k as nat));
            assert(splitmix_state((k + 1) as nat) == u64_specs::wrapping_add(splitmix_state(k as nat), GAMMA));
        }
        splitmix64(s).0
    } else {
        0
    }
}

/// The hash of the position on `board`: the xor of the keys of its stones.
pub fn hash_board(board: &Board) -> (h: u64)
    requires
        board.wf(),
    ensures
        h == position_hash(board@.points),
{
    let n = board.len();
    assert(board@.size * board@.size <= 625) by (nonlinear_arith)
        requires 2 <= board@.size <= 25;
    let mut h: u64 = 0;
    let mut v: usize = 0;
    while v < n
        invariant
            n == board@.points.len(),
            n <= 625,
            v <= n,
            h == hash_upto(board@.points, v as nat),
        decreases n - v,
    {
        let p = board.get(v as Vertex);
        if let Point::Stone(c) = p {
            h = h ^ stone(v as Vertex, c);
        } else {
            assert(h ^ 0u64 == h) by (bit_vector);
        }
        v += 1;
    }
    h
}

/// Changing one point changes the hash by the xor of that point's old and
/// new keys; placing or lifting a single stone is a single xor.
pub proof fn lemma_hash_update(pts: Seq<Point>, v: int, p: Point)
    requires
        0 <= v < pts.len(),
    ensures
        position_hash(pts.update(v, p)) == position_hash(pts) ^ (point_key(v, pts[v]) ^ point_key(v, p)),
{
    lemma_hash_upto_update(pts, v, p, pts.len());
}

proof fn lemma_hash_upto_update(pts: Seq<Point>, v: int, p: Point, k: nat)
    requires
        0 <= v < pts.len(),
        k <= pts.len(),
    ensures
        hash_upto(pts.update(v, p), k) == hash_upto(pts, k) ^ (if v < k {
            point_key(v, pts[v]) ^ point_key(v, p)
        } else {
            0u64
        }),
    decreases k,
{
    let upd = pts.update(v, p);
    if k == 0 {
        let a = hash_upto(pts, 0);
        assert(a ^ 0u64 == a) by (bit_vector);
    } else {
        lemma_hash_upto_update(pts, v, p, (k - 1) as nat);
        let a = hash_upto(pts, (k - 1) as nat);
        let o = point_key(v, pts[v]);
        let n = point_key(v, p);
        let x = point_key(k - 1, pts[k - 1]);
        if k - 1 < v {
            assert(upd[k - 1] == pts[k - 1]);
            assert(a ^ 0u64 == a) by (bit_vector);
            assert((a ^ x) ^ 0u64 == a ^ x) by (bit_vector);
        } else if k - 1 == v {
            assert(a ^ 0u64 == a) by (bit_vector);
            assert((a ^ o) ^ (o ^ n) == a ^ n) by (bit_vector);
        } else {
            assert(upd[k - 1] == pts[k - 1]);
            assert((a ^ (o ^ n)) ^ x == (a ^ x) ^ (o ^ n)) by (bit_vector);
        }
    }
}

} // verus!
