//! Area scoring: stones plus surrounded empty regions, with komi for white.
//!
//! Komi and the totals derived from it are counted in hundredths of a point,
//! so 7.5 points of komi is `750`.

use std::collections::HashSet;

use vstd::prelude::*;

use crate::board::{color_index, Board, BoardView, Color, Point, Vertex};
use crate::grid::{
    adjacent, connected, count_true, lemma_connected_facts, lemma_connected_symmetric,
    lemma_connected_trans, lemma_count_true_disjoint, lemma_count_true_ext,
};

verus! {

broadcast use vstd::std_specs::hash::group_hash_axioms;

#[derive(Debug, Clone, Copy, PartialEq, Eq, Structural)]
pub struct Score {
    pub black_stones: u32,
    pub black_territory: u32,
    pub white_stones: u32,
    pub white_territory: u32,
    pub dame: u32,
    /// In hundredths of a point.
    pub komi: i32,
}

/// Black's stones and territory, in hundredths of a point.
pub open spec fn black_total_of(s: Score) -> int {
    100 * (s.black_stones + s.black_territory)
}

/// White's stones, territory and komi, in hundredths of a point.
pub open spec fn white_total_of(s: Score) -> int {
    100 * (s.white_stones + s.white_territory) + s.komi
}

/// Black's lead, in hundredths of a point.
pub open spec fn margin_of(s: Score) -> int {
    black_total_of(s) - white_total_of(s)
}

/// The side with the larger total; `None` for a draw.
pub open spec fn winner_of(s: Score) -> Option<Color> {
    if margin_of(s) > 0 {
        Some(Color::Black)
    } else if margin_of(s) < 0 {
        Some(Color::White)
    } else {
        None
    }
}

impl Score {
    /// Black's total in hundredths of a point.
    pub fn black_total(&self) -> (r: i64)
        requires
            self.black_stones + self.black_territory <= u32::MAX,
        ensures
            r == black_total_of(*self),
    {
        100 * (self.black_stones + self.black_territory) as i64
    }

    /// White's total, komi included, in hundredths of a point.
    pub fn white_total(&self) -> (r: i64)
        requires
            self.white_stones + self.white_territory <= u32::MAX,
        ensures
            r == white_total_of(*self),
    {
        100 * (self.white_stones + self.white_territory) as i64 + self.komi as i64
    }

    /// Black's total minus white's, in hundredths of a point.
    pub fn margin(&self) -> (r: i64)
        requires
            self.black_stones + self.black_territory <= u32::MAX,
            self.white_stones + self.white_territory <= u32::MAX,
        ensures
            r == margin_of(*self),
    {
        self.black_total() - self.white_total()
    }

    pub fn winner(&self) -> (r: Option<Color>)
        requires
            self.black_stones + self.black_territory <= u32::MAX,
            self.white_stones + self.white_territory <= u32::MAX,
        ensures
            r == winner_of(*self),
    {
        let margin = self.margin();
        if margin > 0 {
            Some(Color::Black)
        } else if margin < 0 {
            Some(Color::White)
        } else {
            None
        }
    }
}

/// The position once the stones marked dead are lifted.
pub open spec fn cleared(b: BoardView, dead: Set<Vertex>) -> Seq<Point> {
    Seq::new(
        b.points.len(),
        |i: int|
            if dead.contains(i as Vertex) {
                Point::Empty
            } else {
                b.points[i]
            },
    )
}

/// The region (or chain) of `i` touches a `c` stone.
pub open spec fn borders(size: int, pts: Seq<Point>, i: int, c: Color) -> bool {
    exists|j: int, k: int|
        #![trigger connected(size, pts, i, j), adjacent(size, j, k)]
        connected(size, pts, i, j) && adjacent(size, j, k) && 0 <= k < pts.len() && pts[k] == Point::Stone(c)
}

/// Who owns point `i`: 1 for black, 2 for white, 0 for nobody. A stone
/// belongs to its colour; an empty region belongs to the only colour it
/// touches.
pub open spec fn owner_of(size: int, pts: Seq<Point>, i: int) -> u8 {
    match pts[i] {
        Point::Stone(c) => (color_index(c) + 1) as u8,
        Point::Empty => if borders(size, pts, i, Color::Black) && !borders(size, pts, i, Color::White) {
            1
        } else if borders(size, pts, i, Color::White) && !borders(size, pts, i, Color::Black) {
            2
        } else {
            0
        },
    }
}

/// How many of the first `n` points satisfy `f`.
pub open spec fn count_points(n: nat, f: spec_fn(int) -> bool) -> nat {
    count_true(Seq::new(n, f))
}

/// Owner of every point once the dead stones are lifted.
pub open spec fn ownership_of(b: BoardView, dead: Set<Vertex>) -> Seq<u8> {
    let pts = cleared(b, dead);
    Seq::new(pts.len(), |i: int| owner_of(b.size, pts, i))
}

/// The area score once the dead stones are lifted.
pub open spec fn score_of(b: BoardView, dead: Set<Vertex>, komi: i32) -> Score {
    let pts = cleared(b, dead);
    let n = pts.len();
    Score {
        black_stones: count_points(n, |i: int| pts[i] == Point::Stone(Color::Black)) as u32,
        black_territory: count_points(n, |i: int| pts[i] == Point::Empty && owner_of(b.size, pts, i) == 1)
            as u32,
        white_stones: count_points(n, |i: int| pts[i] == Point::Stone(Color::White)) as u32,
        white_territory: count_points(n, |i: int| pts[i] == Point::Empty && owner_of(b.size, pts, i) == 2)
            as u32,
        dame: count_points(n, |i: int| pts[i] == Point::Empty && owner_of(b.size, pts, i) == 0) as u32,
        komi,
    }
}

/// Every point is counted exactly once: as a black or white stone, as black
/// or white territory, or as dame.
pub proof fn lemma_score_covers_board(b: BoardView, dead: Set<Vertex>, komi: i32)
    requires
        crate::board::board_wf(b),
    ensures
        score_of(b, dead, komi).black_stones + score_of(b, dead, komi).white_stones
            + score_of(b, dead, komi).black_territory + score_of(b, dead, komi).white_territory
            + score_of(b, dead, komi).dame == b.points.len(),
{
    let pts = cleared(b, dead);
    assert(b.size * b.size <= 625) by (nonlinear_arith)
        requires 2 <= b.size <= 25;
    lemma_partition_prefix(b.size, pts, pts.len());
}

proof fn lemma_partition_prefix(size: int, pts: Seq<Point>, v: nat)
    requires
        v <= pts.len(),
    ensures
        count_points(v, |i: int| pts[i] == Point::Stone(Color::Black))
            + count_points(v, |i: int| pts[i] == Point::Stone(Color::White))
            + count_points(v, |i: int| pts[i] == Point::Empty && owner_of(size, pts, i) == 1)
            + count_points(v, |i: int| pts[i] == Point::Empty && owner_of(size, pts, i) == 2)
            + count_points(v, |i: int| pts[i] == Point::Empty && owner_of(size, pts, i) == 0) == v,
    decreases v,
{
    let fbs = |i: int| pts[i] == Point::Stone(Color::Black);
    let fws = |i: int| pts[i] == Point::Stone(Color::White);
    let fbt = |i: int| pts[i] == Point::Empty && owner_of(size, pts, i) == 1;
    let fwt = |i: int| pts[i] == Point::Empty && owner_of(size, pts, i) == 2;
    let fd = |i: int| pts[i] == Point::Empty && owner_of(size, pts, i) == 0;
    if v > 0 {
        let u = (v - 1) as nat;
        lemma_partition_prefix(size, pts, u);
        assert(Seq::new(v, fbs).drop_last() =~= Seq::new(u, fbs));
        assert(Seq::new(v, fws).drop_last() =~= Seq::new(u, fws));
        assert(Seq::new(v, fbt).drop_last() =~= Seq::new(u, fbt));
        assert(Seq::new(v, fwt).drop_last() =~= Seq::new(u, fwt));
        assert(Seq::new(v, fd).drop_last() =~= Seq::new(u, fd));
        assert(count_points(v, fbs) == count_points(u, fbs) + if fbs(u as int) { 1nat } else { 0nat });
        assert(count_points(v, fws) == count_points(u, fws) + if fws(u as int) { 1nat } else { 0nat });
        assert(count_points(v, fbt) == count_points(u, fbt) + if fbt(u as int) { 1nat } else { 0nat });
        assert(count_points(v, fwt) == count_points(u, fwt) + if fwt(u as int) { 1nat } else { 0nat });
        assert(count_points(v, fd) == count_points(u, fd) + if fd(u as int) { 1nat } else { 0nat });
    }
}

/// Area score of `board` with the stones in `dead` counted as captured.
pub fn area_score(board: &Board, dead: &HashSet<Vertex>, komi: i32) -> (r: Score)
    requires
        board.wf(),
    ensures
        r == score_of(board@, dead@, komi),
{
    count(board, dead, komi).0
}

/// Owner of each point (0 nobody, 1 black, 2 white) with the stones in
/// `dead` counted as captured.
pub fn ownership(board: &Board, dead: &HashSet<Vertex>) -> (r: Vec<u8>)
    requires
        board.wf(),
    ensures
        r@ == ownership_of(board@, dead@),
{
    count(board, dead, 0).1
}

/// Connected empty points have the same owner.
proof fn lemma_owner_shared(size: int, pts: Seq<Point>, a: int, b: int)
    requires
        2 <= size,
        pts.len() == size * size,
        connected(size, pts, a, b),
    ensures
        owner_of(size, pts, a) == owner_of(size, pts, b),
{
    lemma_connected_facts(size, pts, a, b);
    lemma_connected_symmetric(size, pts, a, b);
    assert forall|c: Color| borders(size, pts, a, c) == borders(size, pts, b, c) by {
        if borders(size, pts, a, c) {
            let (j, k) = choose|j: int, k: int|
                #![trigger connected(size, pts, a, j), adjacent(size, j, k)]
                connected(size, pts, a, j) && adjacent(size, j, k) && 0 <= k < pts.len() && pts[k] == Point::Stone(c);
            lemma_connected_trans(size, pts, b, a, j);
        }
        if borders(size, pts, b, c) {
            let (j, k) = choose|j: int, k: int|
                #![trigger connected(size, pts, b, j), adjacent(size, j, k)]
                connected(size, pts, b, j) && adjacent(size, j, k) && 0 <= k < pts.len() && pts[k] == Point::Stone(c);
            lemma_connected_trans(size, pts, a, b, j);
        }
    }
}

fn count(board: &Board, dead: &HashSet<Vertex>, komi: i32) -> (r: (Score, Vec<u8>))
    requires
        board.wf(),
    ensures
        r.0 == score_of(board@, dead@, komi),
        r.1@ == ownership_of(board@, dead@),
{
    let ghost pts = cleared(board@, dead@);
    let ghost size = board@.size;
    let n = board.len();
    assert(size * size <= 625) by (nonlinear_arith)
        requires 2 <= size <= 25;
    let mut work = Board::new(board.size());
    let mut v: usize = 0;
    while v < n
        invariant
            board.wf(),
            work.wf(),
            work@.size == size,
            n == board@.points.len(),
            n <= 625,
            v <= n,
            pts == cleared(board@, dead@),
            work@.points.len() == n,
            forall|i: int| 0 <= i < v ==> work@.points[i] == pts[i],
            forall|i: int| v <= i < n ==> work@.points[i] == Point::Empty,
        decreases n - v,
    {
        if !dead.contains(&(v as Vertex)) {
            work.set(v as Vertex, board.get(v as Vertex));
        }
        v += 1;
    }
    assert(work@.points =~= pts);
    let mut owner: Vec<u8> = Vec::new();
    let mut visited: Vec<bool> = Vec::new();
    let mut i: usize = 0;
    while i < n
        invariant
            i <= n,
            n == pts.len(),
            n <= 625,
            work@.points == pts,
            owner@.len() == i,
            visited@ == Seq::new(i as nat, |k: int| false),
            forall|k: int| 0 <= k < i ==> owner@[k] == (match #[trigger] pts[k] {
                Point::Stone(c) => owner_of(size, pts, k),
                Point::Empty => 0u8,
            }),
        decreases n - i,
    {
        match work.get(i as Vertex) {
            Point::Stone(c) => {
                owner.push(c.index() as u8 + 1);
            },
            Point::Empty => {
                owner.push(0);
            },
        }
        visited.push(false);
        i += 1;
    }
    let mut start: usize = 0;
    while start < n
        invariant
            work.wf(),
            work@.size == size,
            work@.points == pts,
            n == pts.len(),
            n <= 625,
            start <= n,
            owner@.len() == n,
            visited@.len() == n,
            forall|k: int| 0 <= k < n && #[trigger] visited@[k] ==> pts[k] == Point::Empty && owner@[k] == owner_of(size, pts, k),
            forall|k: int| 0 <= k < n && (#[trigger] pts[k] is Stone) ==> owner@[k] == owner_of(size, pts, k),
            forall|k: int| 0 <= k < start && pts[k] == Point::Empty ==> #[trigger] visited@[k],
        decreases n - start,
    {
        if !visited[start] && work.get(start as Vertex) == Point::Empty {
            let region = work.flood(start as Vertex);
            let touch_black = work.next_to(&region, Point::Stone(Color::Black));
            let touch_white = work.next_to(&region, Point::Stone(Color::White));
            let by_black = any(&touch_black);
            let by_white = any(&touch_white);
            proof {
                assert(by_black == borders(size, pts, start as int, Color::Black)) by {
                    if by_black {
                        let k = choose|k: int| 0 <= k < touch_black@.len() && touch_black@[k];
                        assert(touch_black@[k]);
                        let j = choose|j: int|
                            #![trigger region@[j], adjacent(size, j, k)]
                            0 <= j < region@.len() && region@[j] && adjacent(size, j, k);
                        assert(connected(size, pts, start as int, j));
                    }
                    if borders(size, pts, start as int, Color::Black) {
                        let (j, k) = choose|j: int, k: int|
                            #![trigger connected(size, pts, start as int, j), adjacent(size, j, k)]
                            connected(size, pts, start as int, j) && adjacent(size, j, k) && 0 <= k < pts.len()
                                && pts[k] == Point::Stone(Color::Black);
                        lemma_connected_facts(size, pts, start as int, j);
                        assert(region@[j]);
                        assert(touch_black@[k]);
                    }
                }
                assert(by_white == borders(size, pts, start as int, Color::White)) by {
                    if by_white {
                        let k = choose|k: int| 0 <= k < touch_white@.len() && touch_white@[k];
                        assert(touch_white@[k]);
                        let j = choose|j: int|
                            #![trigger region@[j], adjacent(size, j, k)]
                            0 <= j < region@.len() && region@[j] && adjacent(size, j, k);
                        assert(connected(size, pts, start as int, j));
                    }
                    if borders(size, pts, start as int, Color::White) {
                        let (j, k) = choose|j: int, k: int|
                            #![trigger connected(size, pts, start as int, j), adjacent(size, j, k)]
                            connected(size, pts, start as int, j) && adjacent(size, j, k) && 0 <= k < pts.len()
                                && pts[k] == Point::Stone(Color::White);
                        lemma_connected_facts(size, pts, start as int, j);
                        assert(region@[j]);
                        assert(touch_white@[k]);
                    }
                }
            }
            let claimed: u8 = if by_black && !by_white {
                1
            } else if by_white && !by_black {
                2
            } else {
                0
            };
            assert(claimed == owner_of(size, pts, start as int));
            let mut j: usize = 0;
            while j < n
                invariant
                    work.wf(),
                    work@.size == size,
                    work@.points == pts,
                    n == pts.len(),
                    start < n,
                    pts[start as int] == Point::Empty,
                    claimed == owner_of(size, pts, start as int),
                    j <= n,
                    region@.len() == n,
                    forall|k: int| 0 <= k < n ==> (region@[k] <==> connected(size, pts, start as int, k)),
                    owner@.len() == n,
                    visited@.len() == n,
                    forall|k: int| 0 <= k < n && #[trigger] visited@[k] ==> pts[k] == Point::Empty && owner@[k] == owner_of(size, pts, k),
                    forall|k: int| 0 <= k < n && (#[trigger] pts[k] is Stone) ==> owner@[k] == owner_of(size, pts, k),
                    forall|k: int| 0 <= k < start && pts[k] == Point::Empty ==> #[trigger] visited@[k],
                    forall|k: int| 0 <= k < j && region@[k] ==> #[trigger] visited@[k],
                decreases n - j,
            {
                if region[j] {
                    proof {
                        lemma_connected_facts(size, pts, start as int, j as int);
                        lemma_owner_shared(size, pts, start as int, j as int);
                    }
                    visited.set(j, true);
                    owner.set(j, claimed);
                }
                j += 1;
            }
            proof {
                crate::grid::lemma_connected_refl(size, pts, start as int);
            }
        }
        start += 1;
    }
    let ghost own = Seq::new(n as nat, |k: int| owner_of(size, pts, k));
    assert(owner@ =~= own) by {
        assert forall|k: int| 0 <= k < n implies owner@[k] == own[k] by {
            if pts[k] is Stone {
            } else {
                assert(visited@[k]);
            }
        }
    }
    let mut black_stones: u32 = 0;
    let mut white_stones: u32 = 0;
    let mut black_territory: u32 = 0;
    let mut white_territory: u32 = 0;
    let mut dame: u32 = 0;
    let ghost fbs = |k: int| pts[k] == Point::Stone(Color::Black);
    let ghost fws = |k: int| pts[k] == Point::Stone(Color::White);
    let ghost fbt = |k: int| pts[k] == Point::Empty && owner_of(size, pts, k) == 1;
    let ghost fwt = |k: int| pts[k] == Point::Empty && owner_of(size, pts, k) == 2;
    let ghost fd = |k: int| pts[k] == Point::Empty && owner_of(size, pts, k) == 0;
    let mut v: usize = 0;
    while v < n
        invariant
            work@.points == pts,
            n == pts.len(),
            n <= 625,
            v <= n,
            owner@ == own,
            own == Seq::new(n as nat, |k: int| owner_of(size, pts, k)),
            fbs == (|k: int| pts[k] == Point::Stone(Color::Black)),
            fws == (|k: int| pts[k] == Point::Stone(Color::White)),
            fbt == (|k: int| pts[k] == Point::Empty && owner_of(size, pts, k) == 1),
            fwt == (|k: int| pts[k] == Point::Empty && owner_of(size, pts, k) == 2),
            fd == (|k: int| pts[k] == Point::Empty && owner_of(size, pts, k) == 0),
            black_stones == count_points(v as nat, fbs),
            white_stones == count_points(v as nat, fws),
            black_territory == count_points(v as nat, fbt),
            white_territory == count_points(v as nat, fwt),
            dame == count_points(v as nat, fd),
            black_stones + white_stones + black_territory + white_territory + dame == v,
        decreases n - v,
    {
        proof {
            assert(Seq::new((v + 1) as nat, fbs).drop_last() =~= Seq::new(v as nat, fbs));
            assert(Seq::new((v + 1) as nat, fws).drop_last() =~= Seq::new(v as nat, fws));
            assert(Seq::new((v + 1) as nat, fbt).drop_last() =~= Seq::new(v as nat, fbt));
            assert(Seq::new((v + 1) as nat, fwt).drop_last() =~= Seq::new(v as nat, fwt));
            assert(Seq::new((v + 1) as nat, fd).drop_last() =~= Seq::new(v as nat, fd));
            assert(count_points((v + 1) as nat, fbs) == count_points(v as nat, fbs) + if fbs(v as int) { 1nat } else { 0nat });
            assert(count_points((v + 1) as nat, fws) == count_points(v as nat, fws) + if fws(v as int) { 1nat } else { 0nat });
            assert(count_points((v + 1) as nat, fbt) == count_points(v as nat, fbt) + if fbt(v as int) { 1nat } else { 0nat });
            assert(count_points((v + 1) as nat, fwt) == count_points(v as nat, fwt) + if fwt(v as int) { 1nat } else { 0nat });
            assert(count_points((v + 1) as nat, fd) == count_points(v as nat, fd) + if fd(v as int) { 1nat } else { 0nat });
        }
        match work.get(v as Vertex) {
            Point::Stone(Color::Black) => {
                black_stones += 1;
            },
            Point::Stone(Color::White) => {
                white_stones += 1;
            },
            Point::Empty => {
                let o = owner[v];
                assert(o == owner_of(size, pts, v as int));
                if o == 1 {
                    black_territory += 1;
                } else if o == 2 {
                    white_territory += 1;
                } else {
                    dame += 1;
                }
            },
        }
        v += 1;
    }
    let score = Score { black_stones, black_territory, white_stones, white_territory, dame, komi };
    (score, owner)
}

/// Whether any entry of `s` is `true`.
fn any(s: &Vec<bool>) -> (r: bool)
    ensures
        r == exists|k: int| 0 <= k < s@.len() && s@[k],
{
    let mut i: usize = 0;
    while i < s.len()
        invariant
            i <= s@.len(),
            forall|k: int| 0 <= k < i ==> !s@[k],
        decreases s@.len() - i,
    {
        if s[i] {
            return true;
        }
        i += 1;
    }
    false
}

} // verus!
