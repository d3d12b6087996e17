//! What a stone does to the board: it is placed, every opposing chain it
//! leaves without a liberty is lifted, and then its own chain must have a
//! liberty.

use vstd::prelude::*;

use crate::board::{
    board_wf, group_list, is_liberty, liberty_count, opp, Board, BoardView, Color, Point, Vertex,
};
use crate::grid::{
    adjacent, connected, count_true, is_path, lemma_closed_holds_connected, lemma_connected_facts,
    lemma_connected_step, lemma_connected_symmetric, lemma_connected_trans, lemma_count_true_update, lemma_nbrs_in_range,
    linked, nbrs, range_seq,
};
use crate::zobrist::{lemma_hash_update, point_key, position_hash, stone};

verus! {

/// The chain that holds `v` has at least one liberty.
pub open spec fn has_liberty_at(b: BoardView, v: int) -> bool {
    exists|i: int| #[trigger] is_liberty(b, v, i)
}

/// The board with a `color` stone on `v`, before anything is captured.
pub open spec fn placed(b: BoardView, v: int, color: Color) -> BoardView {
    BoardView { size: b.size, points: b.points.update(v, Point::Stone(color)) }
}

/// The stones captured by a `color` stone on `v` of the placed board `p`,
/// looking at the first `k` neighbours of `v`: each opposing chain next to
/// `v` that has no liberty, once, in the order its first neighbour comes,
/// each chain in increasing order.
pub open spec fn captured_upto(p: BoardView, v: int, color: Color, k: nat) -> Seq<int>
    decreases k,
{
    if k == 0 {
        Seq::empty()
    } else {
        let prev = captured_upto(p, v, color, (k - 1) as nat);
        let w = nbrs(p.size, v)[k - 1];
        if p.points[w] == Point::Stone(opp(color)) && !has_liberty_at(p, w) && !prev.contains(w) {
            prev + group_list(p, w)
        } else {
            prev
        }
    }
}

/// The stones a `color` stone on `v` of `b` captures.
pub open spec fn captured_by(b: BoardView, v: int, color: Color) -> Seq<int> {
    captured_upto(placed(b, v, color), v, color, nbrs(b.size, v).len())
}

/// `pts` with the points listed in `s` emptied.
pub open spec fn lift(pts: Seq<Point>, s: Seq<int>) -> Seq<Point> {
    Seq::new(pts.len(), |i: int| if s.contains(i) { Point::Empty } else { pts[i] })
}

/// The board after a `color` stone on `v` of `b` and its captures.
pub open spec fn after_stone(b: BoardView, v: int, color: Color) -> BoardView {
    BoardView { size: b.size, points: lift(placed(b, v, color).points, captured_by(b, v, color)) }
}

/// Whether each point holds a stone.
pub open spec fn stone_marks(pts: Seq<Point>) -> Seq<bool> {
    Seq::new(pts.len(), |i: int| pts[i] is Stone)
}

/// The number of stones on the board.
pub open spec fn stone_count(pts: Seq<Point>) -> nat {
    count_true(stone_marks(pts))
}

/// Every stone next to a member of `r` that holds `q` is itself in `r`.
pub open spec fn closed_set(p: BoardView, r: Seq<int>, q: Point) -> bool {
    forall|x: int, y: int|
        #![trigger r.contains(x), adjacent(p.size, x, y)]
        r.contains(x) && adjacent(p.size, x, y) && 0 <= y < p.points.len() && p.points[y] == q ==> r.contains(y)
}

/// Points in increasing order.
pub open spec fn increasing(s: Seq<int>) -> bool {
    forall|a: int, b: int| 0 <= a < b < s.len() ==> s[a] < s[b]
}

/// The members of a chain are exactly the points connected to it, listed
/// once each in increasing order.
pub proof fn lemma_group_list(b: BoardView, v: int)
    ensures
        forall|x: int| #[trigger] group_list(b, v).contains(x) <==> (0 <= x < b.points.len() && connected(b.size, b.points, v, x)),
        increasing(group_list(b, v)),
        group_list(b, v).no_duplicates(),
{
    let pred = |i: int| connected(b.size, b.points, v, i);
    lemma_filter_range(pred, b.points.len());
}

proof fn lemma_filter_range(pred: spec_fn(int) -> bool, n: nat)
    ensures
        forall|x: int| #[trigger] range_seq(n).filter(pred).contains(x) <==> (0 <= x < n && pred(x)),
        increasing(range_seq(n).filter(pred)),
        forall|k: int| 0 <= k < range_seq(n).filter(pred).len() ==> 0 <= #[trigger] range_seq(n).filter(pred)[k] < n,
        range_seq(n).filter(pred).no_duplicates(),
    decreases n,
{
    reveal_with_fuel(Seq::filter, 1);
    let s = range_seq(n).filter(pred);
    if n > 0 {
        let m = (n - 1) as nat;
        lemma_filter_range(pred, m);
        assert(range_seq(n).drop_last() =~= range_seq(m));
        let t = range_seq(m).filter(pred);
        if pred(m as int) {
            assert(s == t.push(m as int));
            assert forall|x: int| #[trigger] s.contains(x) <==> (0 <= x < n && pred(x)) by {
                if x == m as int {
                    assert(s[s.len() - 1] == x);
                }
                if s.contains(x) && x != m as int {
                    let k = choose|k: int| 0 <= k < s.len() && s[k] == x;
                    assert(t[k] == x);
                }
                if 0 <= x < m && pred(x) {
                    assert(t.contains(x));
                    let k = choose|k: int| 0 <= k < t.len() && t[k] == x;
                    assert(s[k] == x);
                }
            }
        } else {
            assert(s == t);
        }
    }
}

/// A chain is closed: every adjacent stone of its colour belongs to it.
pub proof fn lemma_group_closed(p: BoardView, w: int)
    requires
        board_wf(p),
        0 <= w < p.points.len(),
    ensures
        closed_set(p, group_list(p, w), p.points[w]),
{
    lemma_group_list(p, w);
    assert forall|x: int, y: int|
        #![trigger group_list(p, w).contains(x), adjacent(p.size, x, y)]
        group_list(p, w).contains(x) && adjacent(p.size, x, y) && 0 <= y < p.points.len() && p.points[y] == p.points[w]
            implies group_list(p, w).contains(y) by {
        lemma_connected_step(p.size, p.points, w, x, y);
    }
}

/// Two points of one chain see the same chain, with the same liberties.
proof fn lemma_same_chain(b: BoardView, v: int, w: int)
    requires
        board_wf(b),
        connected(b.size, b.points, v, w),
    ensures
        group_list(b, w) == group_list(b, v),
        liberty_count(b, w) == liberty_count(b, v),
        b.points[w] == b.points[v],
{
    lemma_connected_facts(b.size, b.points, v, w);
    lemma_connected_symmetric(b.size, b.points, v, w);
    assert forall|i: int| connected(b.size, b.points, w, i) == connected(b.size, b.points, v, i) by {
        if connected(b.size, b.points, w, i) {
            lemma_connected_trans(b.size, b.points, v, w, i);
        }
        if connected(b.size, b.points, v, i) {
            lemma_connected_trans(b.size, b.points, w, v, i);
        }
    }
    let pw = |i: int| connected(b.size, b.points, w, i);
    let pv = |i: int| connected(b.size, b.points, v, i);
    assert(pw =~= pv);
    assert(group_list(b, w) == group_list(b, v));
    assert forall|i: int| is_liberty(b, w, i) == is_liberty(b, v, i) by {
        if is_liberty(b, w, i) {
            let j = choose|j: int|
                #![trigger connected(b.size, b.points, w, j), adjacent(b.size, j, i)]
                connected(b.size, b.points, w, j) && adjacent(b.size, j, i);
            assert(connected(b.size, b.points, v, j));
        }
        if is_liberty(b, v, i) {
            let j = choose|j: int|
                #![trigger connected(b.size, b.points, v, j), adjacent(b.size, j, i)]
                connected(b.size, b.points, v, j) && adjacent(b.size, j, i);
            assert(connected(b.size, b.points, w, j));
        }
    }
    assert(Seq::new(b.points.len(), |i: int| is_liberty(b, w, i)) =~= Seq::new(
        b.points.len(),
        |i: int| is_liberty(b, v, i),
    ));
}

/// What `Board::group_at` reports is the whole chain and the same for each
/// of its stones: the chain holds the point asked about, every member
/// reports the same chain, colour and liberties, and every stone of that
/// colour next to a member is a member.
pub proof fn lemma_chain_closure(b: BoardView, v: int)
    requires
        board_wf(b),
        0 <= v < b.points.len(),
    ensures
        group_list(b, v).contains(v),
        forall|w: int|
            #[trigger] group_list(b, v).contains(w) ==> group_list(b, w) == group_list(b, v) && liberty_count(b, w)
                == liberty_count(b, v) && b.points[w] == b.points[v],
        forall|w: int, n: int|
            #![trigger group_list(b, v).contains(w), adjacent(b.size, w, n)]
            group_list(b, v).contains(w) && adjacent(b.size, w, n) && 0 <= n < b.points.len() && b.points[n]
                == b.points[v] ==> group_list(b, v).contains(n),
{
    lemma_group_list(b, v);
    crate::grid::lemma_connected_refl(b.size, b.points, v);
    assert forall|w: int| #[trigger] group_list(b, v).contains(w) implies group_list(b, w) == group_list(b, v)
        && liberty_count(b, w) == liberty_count(b, v) && b.points[w] == b.points[v] by {
        lemma_same_chain(b, v, w);
    }
    lemma_group_closed(b, v);
}

/// Lifting whole chains of one colour leaves every other chain of that
/// colour as it was, liberties included.
pub proof fn lemma_untouched_group(p: BoardView, r: Seq<int>, w: int)
    requires
        board_wf(p),
        0 <= w < p.points.len(),
        p.points[w] is Stone,
        forall|x: int| #[trigger] r.contains(x) ==> 0 <= x < p.points.len() && p.points[x] == p.points[w],
        closed_set(p, r, p.points[w]),
        !r.contains(w),
    ensures
        lift(p.points, r)[w] == p.points[w],
        forall|x: int|
            #[trigger] connected(p.size, lift(p.points, r), w, x) <==> connected(p.size, p.points, w, x),
        forall|x: int| connected(p.size, p.points, w, x) ==> !r.contains(x),
        group_list(BoardView { size: p.size, points: lift(p.points, r) }, w) == group_list(p, w),
        has_liberty_at(BoardView { size: p.size, points: lift(p.points, r) }, w) == has_liberty_at(p, w),
{
    let q = p.points[w];
    let nx = lift(p.points, r);
    let nb = BoardView { size: p.size, points: nx };
    let size = p.size;
    assert(nx[w] == q);
    // a point of `r` is never connected to `w`
    assert forall|x: int| connected(size, p.points, w, x) implies !r.contains(x) by {
        if r.contains(x) {
            lemma_connected_symmetric(size, p.points, w, x);
            lemma_closed_holds_connected(size, p.points, x, w, |i: int| r.contains(i));
        }
    }
    assert forall|x: int| #[trigger] connected(size, nx, w, x) <==> connected(size, p.points, w, x) by {
        if connected(size, nx, w, x) {
            let path = choose|path: Seq<int>|
                #[trigger] is_path(size, nx, nx[w], path) && path[0] == w && path.last() == x;
            assert forall|k: int| 0 <= k < path.len() implies 0 <= #[trigger] path[k] < p.points.len() && p.points[path[k]] == q by {
                assert(nx[path[k]] == q);
            }
            assert forall|k: int| 0 <= k < path.len() - 1 implies #[trigger] linked(size, path, k) by {
                assert(linked(size, path, k));
            }
            assert(is_path(size, p.points, p.points[w], path));
        }
        if connected(size, p.points, w, x) {
            let s = |i: int| connected(size, nx, w, i);
            crate::grid::lemma_connected_refl(size, nx, w);
            assert forall|i: int, j: int|
                #![trigger s(i), adjacent(size, i, j)]
                0 <= i < p.points.len() && s(i) && adjacent(size, i, j) && 0 <= j < p.points.len() && p.points[j] == p.points[w]
                    implies s(j) by {
                lemma_connected_facts(size, nx, w, i);
                if r.contains(j) {
                    crate::grid::lemma_adjacent_symmetric(size, i, j);
                    assert(r.contains(i));
                }
                lemma_connected_step(size, nx, w, i, j);
            }
            lemma_closed_holds_connected(size, p.points, w, x, s);
        }
    }
    assert forall|i: int| #[trigger] is_liberty(nb, w, i) implies is_liberty(p, w, i) by {
        let j = choose|j: int|
            #![trigger connected(size, nx, w, j), adjacent(size, j, i)]
            connected(size, nx, w, j) && adjacent(size, j, i);
        lemma_connected_facts(size, nx, w, j);
        assert(connected(size, p.points, w, j));
        lemma_connected_facts(size, p.points, w, j);
        if r.contains(i) {
            crate::grid::lemma_adjacent_symmetric(size, j, i);
            assert(r.contains(j));
            assert(false);
        }
        assert(p.points[i] == Point::Empty);
    }
    assert forall|i: int| #[trigger] is_liberty(p, w, i) implies is_liberty(nb, w, i) by {
        let j = choose|j: int|
            #![trigger connected(size, p.points, w, j), adjacent(size, j, i)]
            connected(size, p.points, w, j) && adjacent(size, j, i);
        assert(connected(size, nx, w, j));
        if r.contains(i) {
            assert(p.points[i] == q);
        }
        assert(nx[i] == Point::Empty);
        assert(adjacent(nb.size, j, i));
        assert(connected(nb.size, nb.points, w, j));
        assert(nb.points[i] == Point::Empty);
        assert(0 <= i < nb.points.len());
    }
    let f1 = |i: int| connected(size, nx, w, i);
    let f2 = |i: int| connected(size, p.points, w, i);
    assert(f1 =~= f2);
    assert(group_list(nb, w) == group_list(p, w));
    if has_liberty_at(p, w) {
        let i = choose|i: int| #[trigger] is_liberty(p, w, i);
        assert(is_liberty(nb, w, i));
    }
    if has_liberty_at(nb, w) {
        let i = choose|i: int| #[trigger] is_liberty(nb, w, i);
        assert(is_liberty(p, w, i));
    }
}

proof fn lemma_contains_push(s: Seq<int>, x: int, i: int)
    ensures
        s.push(x).contains(i) <==> (s.contains(i) || i == x),
{
    if s.push(x).contains(i) && i != x {
        let k = choose|k: int| 0 <= k < s.push(x).len() && s.push(x)[k] == i;
        assert(s[k] == i);
    }
    if s.contains(i) {
        let k = choose|k: int| 0 <= k < s.len() && s[k] == i;
        assert(s.push(x)[k] == i);
    }
    if i == x {
        assert(s.push(x)[s.len() as int] == i);
    }
}

proof fn lemma_contains_concat(a: Seq<int>, b: Seq<int>, i: int)
    ensures
        (a + b).contains(i) <==> (a.contains(i) || b.contains(i)),
{
    if (a + b).contains(i) {
        let k = choose|k: int| 0 <= k < (a + b).len() && (a + b)[k] == i;
        if k < a.len() {
            assert(a[k] == i);
        } else {
            assert(b[k - a.len()] == i);
        }
    }
    if a.contains(i) {
        let k = choose|k: int| 0 <= k < a.len() && a[k] == i;
        assert((a + b)[k] == i);
    }
    if b.contains(i) {
        let k = choose|k: int| 0 <= k < b.len() && b[k] == i;
        assert((a + b)[a.len() + k] == i);
    }
}

/// Places a `color` stone on the empty point `vertex` and lifts every
/// opposing chain next to it that is left without a liberty. Returns the
/// new board, the captured stones and the hash of the new position.
pub(crate) fn place_and_capture(board: &Board, vertex: Vertex, color: Color, hash: u64) -> (r: (
    Board,
    Vec<Vertex>,
    u64,
))
    requires
        board.wf(),
        (vertex as int) < board@.points.len(),
        board@.points[vertex as int] == Point::Empty,
        hash == position_hash(board@.points),
    ensures
        r.0.wf(),
        r.0@ == after_stone(board@, vertex as int, color),
        r.1@.map_values(|x: Vertex| x as int) == captured_by(board@, vertex as int, color),
        r.2 == position_hash(r.0@.points),
        stone_count(r.0@.points) + r.1@.len() == stone_count(board@.points) + 1,
        captured_by(board@, vertex as int, color).no_duplicates(),
        forall|x: int| #[trigger] captured_by(board@, vertex as int, color).contains(x)
            ==> 0 <= x < board@.points.len() && board@.points[x] == Point::Stone(opp(color)),
{
    let ghost b = board@;
    let ghost v = vertex as int;
    let ghost pl = placed(b, v, color);
    let ghost n = b.points.len();
    let foe = color.opposite();
    let mut next = board.clone();
    proof {
        lemma_hash_update(b.points, v, Point::Stone(color));
        let kk = point_key(v, Point::Stone(color));
        assert(0u64 ^ kk == kk) by (bit_vector);
        lemma_count_true_update(stone_marks(b.points), v, true);
        assert(stone_marks(pl.points) =~= stone_marks(b.points).update(v, true));
    }
    next.set(vertex, Point::Stone(color));
    let mut h = hash ^ stone(vertex, color);
    proof {
        lemma_nbrs_in_range(b.size, v);
        assert(b.size * b.size <= 625) by (nonlinear_arith)
            requires 2 <= b.size <= 25;
        assert(next@.points =~= lift(pl.points, Seq::empty()));
    }
    let ns = next.neighbors(vertex);
    let mut captured: Vec<Vertex> = Vec::new();
    let mut k: usize = 0;
    while k < ns.len()
        invariant
            b == board@,
            board_wf(b),
            v == vertex as int,
            pl == placed(b, v, color),
            n == b.points.len(),
            n <= 625,
            0 <= v < n,
            b.points[v] == Point::Empty,
            foe == opp(color),
            next.wf(),
            next@.size == b.size,
            ns@.len() == nbrs(b.size, v).len(),
            forall|q: int| 0 <= q < ns@.len() ==> ns@[q] as int == #[trigger] nbrs(b.size, v)[q],
            forall|q: int| 0 <= q < nbrs(b.size, v).len() ==> 0 <= #[trigger] nbrs(b.size, v)[q] < n,
            !nbrs(b.size, v).contains(v),
            k <= ns@.len(),
            captured@.map_values(|x: Vertex| x as int) == captured_upto(pl, v, color, k as nat),
            next@.points == lift(pl.points, captured_upto(pl, v, color, k as nat)),
            forall|x: int| #[trigger] captured_upto(pl, v, color, k as nat).contains(x)
                ==> 0 <= x < n && pl.points[x] == Point::Stone(foe),
            closed_set(pl, captured_upto(pl, v, color, k as nat), Point::Stone(foe)),
            captured_upto(pl, v, color, k as nat).no_duplicates(),
            h == position_hash(next@.points),
            stone_count(next@.points) + captured@.len() == stone_count(pl.points),
        decreases ns@.len() - k,
    {
        let w = ns[k];
        let ghost cap0 = captured_upto(pl, v, color, k as nat);
        assert(nbrs(b.size, v)[k as int] == w as int);
        assert(w as int != v);
        if next.get(w) == Point::Stone(foe) && !next.has_liberty(w) {
            proof {
                assert(!cap0.contains(w as int));
                assert(pl.points[w as int] == Point::Stone(foe));
                lemma_untouched_group(pl, cap0, w as int);
                lemma_group_list(pl, w as int);
                lemma_group_closed(pl, w as int);
            }
            let ghost gl = group_list(pl, w as int);
            match next.group_at(w) {
                None => {
                    assert(false);
                },
                Some(group) => {
                    assert(group.stones@.map_values(|x: Vertex| x as int) == gl);
                    assert(group.stones@.len() == gl.len());
                    let mut m: usize = 0;
                    while m < group.stones.len()
                        invariant
                            b == board@,
                            board_wf(b),
                            pl == placed(b, v, color),
                            n == b.points.len(),
                            n <= 625,
                            foe == opp(color),
                            next.wf(),
                            next@.size == b.size,
                            group.stones@.map_values(|x: Vertex| x as int) == gl,
                            group.stones@.len() == gl.len(),
                            forall|x: int| #[trigger] gl.contains(x) <==> (0 <= x < n && connected(b.size, pl.points, w as int, x)),
                            gl.no_duplicates(),
                            forall|x: int| connected(b.size, pl.points, w as int, x) ==> !cap0.contains(x),
                            pl.points[w as int] == Point::Stone(foe),
                            forall|x: int| #[trigger] cap0.contains(x) ==> 0 <= x < n && pl.points[x] == Point::Stone(foe),
                            m <= group.stones@.len(),
                            captured@.map_values(|x: Vertex| x as int) == cap0 + gl.take(m as int),
                            next@.points == lift(pl.points, cap0 + gl.take(m as int)),
                            h == position_hash(next@.points),
                            stone_count(next@.points) + captured@.len() == stone_count(pl.points),
                        decreases group.stones@.len() - m,
                    {
                        let s = group.stones[m];
                        let ghost cur = cap0 + gl.take(m as int);
                        proof {
                            assert(gl[m as int] == s as int);
                            assert(gl.contains(s as int));
                            assert(!cap0.contains(s as int));
                            assert(!gl.take(m as int).contains(s as int)) by {
                                if gl.take(m as int).contains(s as int) {
                                    let q = choose|q: int| 0 <= q < m && gl.take(m as int)[q] == s as int;
                                    assert(gl[q] == gl[m as int]);
                                }
                            }
                            lemma_contains_concat(cap0, gl.take(m as int), s as int);
                            lemma_connected_facts(b.size, pl.points, w as int, s as int);
                            assert(next@.points[s as int] == Point::Stone(foe));
                            lemma_hash_update(next@.points, s as int, Point::Empty);
                            let kk = point_key(s as int, Point::Stone(foe));
                            assert(kk ^ 0u64 == kk) by (bit_vector);
                            lemma_count_true_update(stone_marks(next@.points), s as int, false);
                            assert(stone_marks(next@.points.update(s as int, Point::Empty)) =~= stone_marks(next@.points).update(s as int, false));
                            assert(gl.take(m + 1) =~= gl.take(m as int).push(s as int));
                            assert(cap0 + gl.take(m + 1) =~= cur.push(s as int));
                            assert forall|i: int| 0 <= i < n implies #[trigger] next@.points.update(s as int, Point::Empty)[i]
                                == lift(pl.points, cur.push(s as int))[i] by {
                                lemma_contains_push(cur, s as int, i);
                            }
                            assert(next@.points.update(s as int, Point::Empty) =~= lift(pl.points, cur.push(s as int)));
                        }
                        next.set(s, Point::Empty);
                        h = h ^ stone(s, foe);
                        captured.push(s);
                        m += 1;
                    }
                    proof {
                        assert(gl.take(gl.len() as int) =~= gl);
                        let cap1 = cap0 + gl;
                        assert(captured_upto(pl, v, color, (k + 1) as nat) == cap1);
                        assert forall|x: int| #[trigger] cap1.contains(x) implies 0 <= x < n && pl.points[x] == Point::Stone(foe) by {
                            lemma_contains_concat(cap0, gl, x);
                            if gl.contains(x) {
                                lemma_connected_facts(b.size, pl.points, w as int, x);
                            }
                        }
                        assert forall|x: int, y: int|
                            #![trigger cap1.contains(x), adjacent(pl.size, x, y)]
                            cap1.contains(x) && adjacent(pl.size, x, y) && 0 <= y < pl.points.len() && pl.points[y] == Point::Stone(foe)
                                implies cap1.contains(y) by {
                            lemma_contains_concat(cap0, gl, x);
                            lemma_contains_concat(cap0, gl, y);
                            if gl.contains(x) {
                                assert(gl.contains(y));
                            } else {
                                assert(cap0.contains(y));
                            }
                        }
                        assert forall|a: int, c: int| 0 <= a < cap1.len() && 0 <= c < cap1.len() && a != c implies cap1[a] != cap1[c] by {
                            if a < cap0.len() && c >= cap0.len() {
                                assert(gl.contains(cap1[c]));
                                assert(cap0.contains(cap1[a]));
                            } else if c < cap0.len() && a >= cap0.len() {
                                assert(gl.contains(cap1[a]));
                                assert(cap0.contains(cap1[c]));
                            }
                        }
                    }
                },
            }
        } else {
            proof {
                if !cap0.contains(w as int) && pl.points[w as int] == Point::Stone(foe) {
                    lemma_untouched_group(pl, cap0, w as int);
                }
                assert(captured_upto(pl, v, color, (k + 1) as nat) == cap0);
            }
        }
        k += 1;
    }
    (next, captured, h)
}

} // verus!
