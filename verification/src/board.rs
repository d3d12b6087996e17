//! The board: colours, points, chains of stones and their liberties.

use vstd::prelude::*;

use crate::grid::{
    adjacent, connected, count_true, lemma_closed_holds_connected, lemma_connected_facts, lemma_connected_refl, lemma_count_true_prefix,
    lemma_connected_step, lemma_count_true_bound, lemma_count_true_ext, lemma_count_true_update,
    lemma_nbrs_in_range, nbrs, range_seq,
};

verus! {

/// A point of the board, numbered `row * size + col`.
pub type Vertex = u16;

#[derive(Debug, Clone, Copy, PartialEq, Eq, Hash, Structural)]
pub enum Color {
    Black,
    White,
}

/// The other colour.
pub open spec fn opp(c: Color) -> Color {
    match c {
        Color::Black => Color::White,
        Color::White => Color::Black,
    }
}

/// Black is 0, White is 1.
pub open spec fn color_index(c: Color) -> int {
    match c {
        Color::Black => 0,
        Color::White => 1,
    }
}

impl Color {
    pub fn opposite(self) -> (r: Color)
        ensures
            r == opp(self),
    {
        match self {
            Color::Black => Color::White,
            Color::White => Color::Black,
        }
    }

    pub fn index(self) -> (r: usize)
        ensures
            r == color_index(self),
    {
        match self {
            Color::Black => 0,
            Color::White => 1,
        }
    }
}

#[derive(Debug, Clone, Copy, PartialEq, Eq, Hash, Structural)]
pub enum Point {
    Empty,
    Stone(Color),
}

impl Default for Point {
    fn default() -> (p: Point)
        ensures
            p == Point::Empty,
    {
        Point::Empty
    }
}

/// 0 for an empty point, 1 for black, 2 for white.
pub open spec fn point_byte(p: Point) -> u8 {
    match p {
        Point::Empty => 0,
        Point::Stone(Color::Black) => 1,
        Point::Stone(Color::White) => 2,
    }
}

impl Point {
    pub fn as_byte(self) -> (r: u8)
        ensures
            r == point_byte(self),
    {
        match self {
            Point::Empty => 0,
            Point::Stone(Color::Black) => 1,
            Point::Stone(Color::White) => 2,
        }
    }
}

/// A chain of stones: its colour, its points in increasing order, and the
/// number of distinct empty points next to it.
#[derive(Debug, Clone, PartialEq, Eq)]
pub struct Group {
    pub color: Color,
    pub stones: Vec<Vertex>,
    pub liberties: usize,
}

#[derive(Debug, PartialEq, Eq)]
pub struct Board {
    size: u8,
    points: Vec<Point>,
}

/// What a board holds: its side length and the content of each point.
#[verifier::ext_equal]
pub struct BoardView {
    pub size: int,
    pub points: Seq<Point>,
}

impl View for Board {
    type V = BoardView;

    closed spec fn view(&self) -> BoardView {
        BoardView { size: self.size as int, points: self.points@ }
    }
}

impl Clone for Board {
    fn clone(&self) -> (r: Board)
        ensures
            r@ == self@,
    {
        Board { size: self.size, points: self.points.clone() }
    }
}

/// Board sizes run from 2 to 25.
pub open spec fn clamp_size(size: int) -> int {
    if size < 2 {
        2
    } else if size > 25 {
        25
    } else {
        size
    }
}

/// An empty board of side `size`, clamped to 2..=25.
pub open spec fn empty_board(size: int) -> BoardView {
    let s = clamp_size(size);
    BoardView { size: s, points: Seq::new((s * s) as nat, |i: int| Point::Empty) }
}

/// A board of side `size` with one entry per point.
pub open spec fn board_wf(b: BoardView) -> bool {
    &&& 2 <= b.size <= 25
    &&& b.points.len() == b.size * b.size
}

/// The chain (or empty region) that holds `v`: its points in increasing
/// order.
pub open spec fn group_list(b: BoardView, v: int) -> Seq<int> {
    range_seq(b.points.len()).filter(|i: int| connected(b.size, b.points, v, i))
}

/// `i` is an empty point next to the chain that holds `v`.
pub open spec fn is_liberty(b: BoardView, v: int, i: int) -> bool {
    &&& 0 <= i < b.points.len()
    &&& b.points[i] == Point::Empty
    &&& exists|j: int|
        #![trigger connected(b.size, b.points, v, j), adjacent(b.size, j, i)]
        connected(b.size, b.points, v, j) && adjacent(b.size, j, i)
}

/// The number of distinct liberties of the chain that holds `v`.
pub open spec fn liberty_count(b: BoardView, v: int) -> nat {
    count_true(Seq::new(b.points.len(), |i: int| is_liberty(b, v, i)))
}

/// Where `neighbors` can compute every neighbour without leaving `u16`.
pub open spec fn neighbors_fit(size: int, v: int) -> bool {
    !(v == 65535 && v % size + 1 < size)
}

/// `v` is listed in the stack.
pub open spec fn in_stack(s: Seq<u16>, i: int) -> bool {
    exists|k: int| 0 <= k < s.len() && s[k] as int == i
}

impl Board {
    /// Side length clamped to 2..=25, every point empty.
    pub fn new(size: u8) -> (b: Board)
        ensures
            b.wf(),
            b@ == empty_board(size as int),
    {
        let size: u8 = if size < 2 {
            2
        } else if size > 25 {
            25
        } else {
            size
        };
        assert(size * size <= 625) by (nonlinear_arith)
            requires size <= 25;
        let n: usize = size as usize * size as usize;
        let mut points: Vec<Point> = Vec::new();
        let mut i: usize = 0;
        while i < n
            invariant
                i <= n,
                points@ == Seq::new(i as nat, |k: int| Point::Empty),
            decreases n - i,
        {
            points.push(Point::Empty);
            i += 1;
        }
        Board { size, points }
    }

    pub open spec fn wf(&self) -> bool {
        board_wf(self@)
    }

    pub fn size(&self) -> (r: u8)
        ensures
            r as int == self@.size,
    {
        self.size
    }

    pub fn len(&self) -> (r: usize)
        ensures
            r == self@.points.len(),
    {
        self.points.len()
    }

    pub fn is_empty(&self) -> (r: bool)
        ensures
            r == (self@.points.len() == 0),
    {
        self.points.len() == 0
    }

    pub fn contains(&self, v: Vertex) -> (r: bool)
        ensures
            r == ((v as int) < self@.points.len()),
    {
        (v as usize) < self.points.len()
    }

    /// The vertex at `row`, `col`, when both are on the board.
    pub fn vertex(&self, row: u8, col: u8) -> (r: Option<Vertex>)
        ensures
            r == (if (row as int) < self@.size && (col as int) < self@.size {
                Some((row * self@.size + col) as Vertex)
            } else {
                None
            }),
    {
        if row < self.size && col < self.size {
            assert(row * self@.size + col <= 254 * 255 + 254) by (nonlinear_arith)
                requires row < self@.size, col < self@.size, self@.size <= 255;
            Some(row as Vertex * self.size as Vertex + col as Vertex)
        } else {
            None
        }
    }

    /// Row and column of `v`, each cast to `u8`.
    pub fn coords(&self, v: Vertex) -> (r: (u8, u8))
        requires
            self.wf(),
        ensures
            r == ((v / (self@.size as u16)) as u8, (v % (self@.size as u16)) as u8),
    {
        ((v / self.size as Vertex) as u8, (v % self.size as Vertex) as u8)
    }

    /// The content of `v`; a point off the board reads as empty.
    pub fn get(&self, v: Vertex) -> (r: Point)
        ensures
            r == (if (v as int) < self@.points.len() { self@.points[v as int] } else { Point::Empty }),
    {
        if (v as usize) < self.points.len() {
            self.points[v as usize]
        } else {
            Point::Empty
        }
    }

    /// Puts `p` at `v`; a point off the board is ignored.
    pub fn set(&mut self, v: Vertex, p: Point)
        ensures
            final(self)@.size == old(self)@.size,
            final(self)@.points == (if (v as int) < old(self)@.points.len() {
                old(self)@.points.update(v as int, p)
            } else {
                old(self)@.points
            }),
    {
        if (v as usize) < self.points.len() {
            self.points.set(v as usize, p);
        }
    }

    pub fn points(&self) -> (r: &[Point])
        ensures
            r@ == self@.points,
    {
        self.points.as_slice()
    }

    /// One byte per point, as `Point::as_byte` gives it.
    pub fn as_bytes(&self) -> (r: Vec<u8>)
        ensures
            r@ == self@.points.map_values(|p: Point| point_byte(p)),
    {
        let mut out: Vec<u8> = Vec::new();
        let mut i: usize = 0;
        while i < self.points.len()
            invariant
                i <= self.points.len(),
                out@ == self@.points.take(i as int).map_values(|p: Point| point_byte(p)),
            decreases self.points.len() - i,
        {
            out.push(self.points[i].as_byte());
            i += 1;
            assert(self@.points.take(i as int).drop_last() =~= self@.points.take(i - 1));
        }
        assert(self@.points.take(i as int) =~= self@.points);
        out
    }

    /// Every vertex of the board, in increasing order.
    pub fn vertices(&self) -> (r: std::ops::Range<Vertex>)
        requires
            self.wf(),
        ensures
            r.start == 0,
            r.end as int == self@.points.len(),
    {
        assert(self@.size * self@.size <= 625) by (nonlinear_arith)
            requires 2 <= self@.size <= 25;
        0..self.points.len() as Vertex
    }

    /// The neighbours of `v` in the order up, down, left, right.
    pub fn neighbors(&self, v: Vertex) -> (r: Vec<Vertex>)
        requires
            self.wf(),
            neighbors_fit(self@.size, v as int),
        ensures
            r@.len() == nbrs(self@.size, v as int).len(),
            forall|k: int| 0 <= k < r@.len() ==> r@[k] as int == #[trigger] nbrs(self@.size, v as int)[k],
    {
        let size = self.size as Vertex;
        let row = v / size;
        let col = v % size;
        proof {
            vstd::arithmetic::div_mod::lemma_mod_pos_bound(v as int, size as int);
            vstd::arithmetic::div_mod::lemma_div_is_ordered_by_denominator(v as int, 1, size as int);
            vstd::arithmetic::div_mod::lemma_div_basics(v as int);
            if v == 0 {
                vstd::arithmetic::div_mod::lemma_small_mod(0, size as nat);
            }
        }
        let mut buf: Vec<Vertex> = Vec::new();
        if row > 0 {
            assert(v >= size) by {
                vstd::arithmetic::div_mod::lemma_fundamental_div_mod(v as int, size as int);
                assert(size * row >= size) by (nonlinear_arith)
                    requires row >= 1, size > 0;
                vstd::arithmetic::div_mod::lemma_mod_pos_bound(v as int, size as int);
            }
            buf.push(v - size);
        }
        if row < size - 1 {
            assert(v + size < 65536) by {
                vstd::arithmetic::div_mod::lemma_fundamental_div_mod(v as int, size as int);
                vstd::arithmetic::div_mod::lemma_mod_pos_bound(v as int, size as int);
                assert(size * row + size <= size * size) by (nonlinear_arith)
                    requires row + 1 <= size, size > 0;
                assert(size * size <= 625) by (nonlinear_arith)
                    requires size <= 25;
            }
            buf.push(v + size);
        }
        if col > 0 {
            buf.push(v - 1);
        }
        if col + 1 < size {
            buf.push(v + 1);
        }
        buf
    }

    /// The chain that holds `v`, with its points in increasing order and the
    /// number of distinct empty points next to it; `None` where `v` holds no
    /// stone.
    pub fn group_at(&self, v: Vertex) -> (g: Option<Group>)
        requires
            self.wf(),
        ensures
            match g {
                None => !((v as int) < self@.points.len() && self@.points[v as int] is Stone),
                Some(g) => {
                    &&& (v as int) < self@.points.len()
                    &&& self@.points[v as int] == Point::Stone(g.color)
                    &&& g.stones@.map_values(|x: Vertex| x as int) == group_list(self@, v as int)
                    &&& g.liberties == liberty_count(self@, v as int)
                },
            },
    {
        let color = match self.get(v) {
            Point::Stone(c) => c,
            Point::Empty => {
                return None;
            },
        };
        if !self.contains(v) {
            return None;
        }
        let seen = self.flood(v);
        assert(self@.size * self@.size <= 625) by (nonlinear_arith)
            requires 2 <= self@.size <= 25;
        let stones = Self::members(&seen, Ghost(self@), Ghost(v as int));
        let lib = self.next_to(&seen, Point::Empty);
        let ghost b = self@;
        assert forall|i: int| 0 <= i < lib@.len() implies lib@[i] == is_liberty(b, v as int, i) by {
            if lib@[i] {
                let j = choose|j: int| #![trigger seen@[j], adjacent(b.size, j, i)] 0 <= j < seen@.len() && seen@[j] && adjacent(b.size, j, i);
                assert(connected(b.size, b.points, v as int, j));
            }
            if is_liberty(b, v as int, i) {
                let j = choose|j: int|
                    #![trigger connected(b.size, b.points, v as int, j), adjacent(b.size, j, i)]
                    connected(b.size, b.points, v as int, j) && adjacent(b.size, j, i);
                lemma_connected_facts(b.size, b.points, v as int, j);
                assert(seen@[j]);
            }
        }
        let liberties = Self::count(&lib);
        proof {
            lemma_count_true_ext(lib@, Seq::new(b.points.len(), |i: int| is_liberty(b, v as int, i)));
        }
        Some(Group { color, stones, liberties })
    }

    /// Whether the chain that holds `v` has at least one liberty; `false`
    /// where `v` holds no stone.
    pub fn has_liberty(&self, v: Vertex) -> (r: bool)
        requires
            self.wf(),
        ensures
            r == ((v as int) < self@.points.len() && self@.points[v as int] is Stone
                && exists|i: int| #[trigger] is_liberty(self@, v as int, i)),
    {
        match self.get(v) {
            Point::Stone(_) => {},
            Point::Empty => {
                return false;
            },
        }
        let seen = self.flood(v);
        let lib = self.next_to(&seen, Point::Empty);
        let ghost b = self@;
        let n = lib.len();
        let mut i: usize = 0;
        while i < n
            invariant
                n == lib@.len(),
                n == b.points.len(),
                b == self@,
                (v as int) < n && b.points[v as int] is Stone,
                forall|k: int| 0 <= k < i ==> !lib@[k],
                forall|k: int| 0 <= k < lib@.len() ==> #[trigger] lib@[k] == (b.points[k] == Point::Empty && exists|j: int|
                    #![trigger seen@[j], adjacent(b.size, j, k)]
                    0 <= j < seen@.len() && seen@[j] && adjacent(b.size, j, k)),
                forall|k: int| 0 <= k < seen@.len() ==> (seen@[k] <==> connected(b.size, b.points, v as int, k)),
                seen@.len() == n,
            decreases n - i,
        {
            if lib[i] {
                proof {
                    let j = choose|j: int| #![trigger seen@[j], adjacent(b.size, j, i as int)] 0 <= j < seen@.len() && seen@[j] && adjacent(b.size, j, i as int);
                    assert(connected(b.size, b.points, v as int, j));
                    assert(is_liberty(b, v as int, i as int));
                }
                return true;
            }
            i += 1;
        }
        assert forall|k: int| !is_liberty(b, v as int, k) by {
            if is_liberty(b, v as int, k) {
                let j = choose|j: int|
                    #![trigger connected(b.size, b.points, v as int, j), adjacent(b.size, j, k)]
                    connected(b.size, b.points, v as int, j) && adjacent(b.size, j, k);
                lemma_connected_facts(b.size, b.points, v as int, j);
                assert(seen@[j]);
                assert(lib@[k]);
            }
        }
        false
    }

    /// The points marked in `seen`, in increasing order.
    fn members(seen: &Vec<bool>, Ghost(b): Ghost<BoardView>, Ghost(v): Ghost<int>) -> (r: Vec<Vertex>)
        requires
            seen@.len() == b.points.len(),
            b.points.len() <= 625,
            forall|i: int| 0 <= i < seen@.len() ==> (seen@[i] <==> connected(b.size, b.points, v, i)),
        ensures
            r@.map_values(|x: Vertex| x as int) == group_list(b, v),
    {
        let n = seen.len();
        let ghost pred = |i: int| connected(b.size, b.points, v, i);
        let mut out: Vec<Vertex> = Vec::new();
        let mut i: usize = 0;
        while i < n
            invariant
                n == seen@.len(),
                n <= 625,
                i <= n,
                forall|k: int| 0 <= k < seen@.len() ==> (seen@[k] <==> pred(k)),
                out@.map_values(|x: Vertex| x as int) == range_seq(i as nat).filter(pred),
            decreases n - i,
        {
            proof {
                reveal_with_fuel(Seq::filter, 1);
                assert(range_seq((i + 1) as nat).drop_last() =~= range_seq(i as nat));
            }
            if seen[i] {
                out.push(i as Vertex);
                assert(out@.map_values(|x: Vertex| x as int) =~= range_seq(i as nat).filter(pred).push(i as int));
            }
            i += 1;
        }
        out
    }

    /// Marks each point holding `target` next to a point marked in `seen`.
    pub(crate) fn next_to(&self, seen: &Vec<bool>, target: Point) -> (lib: Vec<bool>)
        requires
            self.wf(),
            seen@.len() == self@.points.len(),
        ensures
            lib@.len() == self@.points.len(),
            forall|k: int| 0 <= k < lib@.len() ==> #[trigger] lib@[k] == (self@.points[k] == target && exists|j: int|
                #![trigger seen@[j], adjacent(self@.size, j, k)]
                0 <= j < seen@.len() && seen@[j] && adjacent(self@.size, j, k)),
    {
        let ghost b = self@;
        let n = self.points.len();
        let mut lib: Vec<bool> = Vec::new();
        let mut i: usize = 0;
        while i < n
            invariant
                i <= n,
                lib@ == Seq::new(i as nat, |k: int| false),
            decreases n - i,
        {
            lib.push(false);
            i += 1;
        }
        assert(b.size * b.size <= 625) by (nonlinear_arith)
            requires 2 <= b.size <= 25;
        let mut j: usize = 0;
        while j < n
            invariant
                self.wf(),
                b == self@,
                n == b.points.len(),
                n <= 625,
                j <= n,
                seen@.len() == n,
                lib@.len() == n,
                forall|k: int| 0 <= k < n ==> #[trigger] lib@[k] == (b.points[k] == target && exists|jj: int|
                    #![trigger seen@[jj], adjacent(b.size, jj, k)]
                    0 <= jj < j && seen@[jj] && adjacent(b.size, jj, k)),
            decreases n - j,
        {
            if seen[j] {
                proof {
                    lemma_nbrs_in_range(b.size, j as int);
                }
                let ns = self.neighbors(j as Vertex);
                let mut m: usize = 0;
                while m < ns.len()
                    invariant
                        self.wf(),
                        b == self@,
                        n == b.points.len(),
                        j < n,
                        seen@.len() == n,
                        seen@[j as int],
                        lib@.len() == n,
                        m <= ns@.len(),
                        ns@.len() == nbrs(b.size, j as int).len(),
                        forall|q: int| 0 <= q < ns@.len() ==> ns@[q] as int == #[trigger] nbrs(b.size, j as int)[q],
                        forall|q: int| 0 <= q < nbrs(b.size, j as int).len() ==> 0 <= #[trigger] nbrs(b.size, j as int)[q] < n,
                        forall|k: int| 0 <= k < n ==> #[trigger] lib@[k] == (b.points[k] == target && (
                            (exists|jj: int|
                                #![trigger seen@[jj], adjacent(b.size, jj, k)]
                                0 <= jj < j && seen@[jj] && adjacent(b.size, jj, k))
                            || exists|q: int| 0 <= q < m && #[trigger] nbrs(b.size, j as int)[q] == k)),
                    decreases ns@.len() - m,
                {
                    let w = ns[m];
                    assert(nbrs(b.size, j as int)[m as int] == w as int);
                    if self.points[w as usize] == target {
                        lib.set(w as usize, true);
                    }
                    m += 1;
                }
                assert forall|k: int| 0 <= k < n implies #[trigger] lib@[k] == (b.points[k] == target && exists|jj: int|
                    #![trigger seen@[jj], adjacent(b.size, jj, k)]
                    0 <= jj < j + 1 && seen@[jj] && adjacent(b.size, jj, k)) by {
                    if b.points[k] == target && adjacent(b.size, j as int, k) {
                        let q = choose|q: int| 0 <= q < nbrs(b.size, j as int).len() && nbrs(b.size, j as int)[q] == k;
                        assert(lib@[k]);
                    }
                    if lib@[k] && !(exists|jj: int|
                        #![trigger seen@[jj], adjacent(b.size, jj, k)]
                        0 <= jj < j && seen@[jj] && adjacent(b.size, jj, k)) {
                        let q = choose|q: int| 0 <= q < ns@.len() && #[trigger] nbrs(b.size, j as int)[q] == k;
                        assert(adjacent(b.size, j as int, k));
                    }
                }
            }
            j += 1;
        }
        lib
    }

    /// The number of `true` entries of `s`.
    pub(crate) fn count(s: &Vec<bool>) -> (r: usize)
        ensures
            r == count_true(s@),
    {
        let mut c: usize = 0;
        let mut i: usize = 0;
        while i < s.len()
            invariant
                i <= s@.len(),
                c == count_true(s@.take(i as int)),
                c <= i,
            decreases s@.len() - i,
        {
            proof {
                lemma_count_true_prefix(s@, i as int);
            }
            if s[i] {
                c += 1;
            }
            i += 1;
        }
        assert(s@.take(i as int) =~= s@);
        c
    }

    /// Marks every point connected to `start`.
    pub(crate) fn flood(&self, start: Vertex) -> (seen: Vec<bool>)
        requires
            self.wf(),
            (start as int) < self@.points.len(),
        ensures
            seen@.len() == self@.points.len(),
            forall|i: int|
                0 <= i < seen@.len() ==> (seen@[i] <==> connected(self@.size, self@.points, start as int, i)),
    {
        let ghost size = self@.size;
        let ghost pts = self@.points;
        let n = self.points.len();
        let p = self.points[start as usize];
        let mut seen: Vec<bool> = Vec::new();
        let mut i: usize = 0;
        while i < n
            invariant
                i <= n,
                seen@ == Seq::new(i as nat, |k: int| false),
            decreases n - i,
        {
            seen.push(false);
            i += 1;
        }
        proof {
            assert(count_true(seen@) == 0) by {
                lemma_count_true_ext(seen@, Seq::new(n as nat, |k: int| false));
                lemma_all_false_count(n as nat);
            }
            lemma_count_true_update(seen@, start as int, true);
            lemma_connected_refl(size, pts, start as int);
        }
        seen.set(start as usize, true);
        let mut stack: Vec<Vertex> = Vec::new();
        stack.push(start);
        assert(stack@[0] == start);
        assert(in_stack(stack@, start as int));
        while stack.len() > 0
            invariant
                self.wf(),
                size == self@.size,
                pts == self@.points,
                n == pts.len(),
                (start as int) < n,
                p == pts[start as int],
                seen@.len() == n,
                seen@[start as int],
                forall|k: int| 0 <= k < stack@.len() ==> (#[trigger] stack@[k] as int) < n && seen@[stack@[k] as int],
                stack@.no_duplicates(),
                forall|i: int| 0 <= i < n && #[trigger] seen@[i] ==> connected(size, pts, start as int, i),
                forall|i: int, j: int|
                    #![trigger seen@[i], adjacent(size, i, j)]
                    0 <= i < n && seen@[i] && !in_stack(stack@, i) && adjacent(size, i, j) && 0 <= j < n
                        && pts[j] == p ==> seen@[j],
            decreases n - count_true(seen@), stack.len(),
        {
            let ghost seen_before = seen@;
            proof {
                lemma_count_true_bound(seen@);
            }
            let ghost s0 = stack@;
            let cur = stack.pop().unwrap();
            let ghost rest = stack@;
            assert(s0 == rest.push(cur));
            assert(!in_stack(rest, cur as int)) by {
                if in_stack(rest, cur as int) {
                    let k = choose|k: int| 0 <= k < rest.len() && rest[k] as int == cur as int;
                    assert(s0[k] == s0[rest.len() as int]);
                }
            }
            assert forall|i: int| 0 <= i < n && in_stack(s0, i) && i != cur as int implies in_stack(rest, i) by {
                let k = choose|k: int| 0 <= k < s0.len() && s0[k] as int == i;
                assert(rest[k] == s0[k]);
            }
            proof {
                lemma_nbrs_in_range(size, cur as int);
                assert(size * size <= 625) by (nonlinear_arith)
                    requires 2 <= size <= 25;
            }
            let ns = self.neighbors(cur);
            let mut k: usize = 0;
            while k < ns.len()
                invariant
                    self.wf(),
                    size == self@.size,
                    pts == self@.points,
                    n == pts.len(),
                    (start as int) < n,
                    p == pts[start as int],
                    (cur as int) < n,
                    seen@[cur as int],
                    ns@.len() == nbrs(size, cur as int).len(),
                    forall|m: int| 0 <= m < ns@.len() ==> ns@[m] as int == #[trigger] nbrs(size, cur as int)[m],
                    forall|m: int| 0 <= m < nbrs(size, cur as int).len() ==> 0 <= #[trigger] nbrs(size, cur as int)[m] < n,
                    k <= ns@.len(),
                    seen@.len() == n,
                    seen@[start as int],
                    forall|m: int| 0 <= m < stack@.len() ==> (#[trigger] stack@[m] as int) < n && seen@[stack@[m] as int],
                    stack@.no_duplicates(),
                    !in_stack(stack@, cur as int),
                    forall|i: int| 0 <= i < n && #[trigger] seen@[i] ==> connected(size, pts, start as int, i),
                    forall|i: int| 0 <= i < n && seen_before[i] ==> #[trigger] seen@[i],
                    forall|i: int| 0 <= i < n && in_stack(rest, i) ==> #[trigger] in_stack(stack@, i),
                    forall|i: int|
                        0 <= i < n && #[trigger] in_stack(stack@, i) ==> in_stack(rest, i) || !seen_before[i],
                    forall|m: int| 0 <= m < k && pts[#[trigger] ns@[m] as int] == p ==> seen@[ns@[m] as int],
                    forall|i: int| 0 <= i < n && #[trigger] seen@[i] && !seen_before[i] ==> in_stack(stack@, i),
                    count_true(seen@) >= count_true(seen_before),
                    count_true(seen@) == count_true(seen_before) ==> stack@ == rest,
                decreases ns@.len() - k,
            {
                let w = ns[k];
                let ghost sb = seen@;
                assert(nbrs(size, cur as int)[k as int] == w as int);
                if self.points[w as usize] == p && !seen[w as usize] {
                    proof {
                        lemma_count_true_update(seen@, w as int, true);
                        assert(adjacent(size, cur as int, w as int));
                        lemma_connected_step(size, pts, start as int, cur as int, w as int);
                    }
                    let ghost st = stack@;
                    seen.set(w as usize, true);
                    stack.push(w);
                    assert forall|i: int| 0 <= i < n && #[trigger] in_stack(stack@, i) implies in_stack(rest, i) || !seen_before[i] by {
                        let m = choose|m: int| 0 <= m < stack@.len() && stack@[m] as int == i;
                        if m < st.len() {
                            assert(in_stack(st, i));
                        }
                    }
                    assert forall|i: int| 0 <= i < n && in_stack(rest, i) implies #[trigger] in_stack(stack@, i) by {
                        assert(in_stack(st, i));
                        let m = choose|m: int| 0 <= m < st.len() && st[m] as int == i;
                        assert(stack@[m] == st[m]);
                    }
                    assert(!in_stack(stack@, cur as int)) by {
                        if in_stack(stack@, cur as int) {
                            let m = choose|m: int| 0 <= m < stack@.len() && stack@[m] as int == cur as int;
                            if m < st.len() {
                                assert(in_stack(st, cur as int));
                            }
                        }
                    }
                    assert(in_stack(stack@, w as int)) by {
                        assert(stack@[st.len() as int] == w);
                    }
                    assert forall|i: int| 0 <= i < n && #[trigger] seen@[i] && !seen_before[i] implies in_stack(stack@, i) by {
                        if i != w as int {
                            assert(sb[i]);
                            assert(in_stack(st, i));
                            let m = choose|m: int| 0 <= m < st.len() && st[m] as int == i;
                            assert(stack@[m] == st[m]);
                        }
                    }
                    assert(stack@.no_duplicates()) by {
                        assert forall|a: int, b: int| 0 <= a < stack@.len() && 0 <= b < stack@.len() && a != b implies stack@[a] != stack@[b] by {
                            if a == st.len() as int {
                                assert(seen@[stack@[b] as int]);
                            } else if b == st.len() as int {
                                assert(seen@[stack@[a] as int]);
                            }
                        }
                    }
                }
                assert(pts[w as int] == p ==> seen@[w as int]);
                assert forall|m: int| 0 <= m < k + 1 && pts[#[trigger] ns@[m] as int] == p implies seen@[ns@[m] as int] by {
                    assert(nbrs(size, cur as int)[m] == ns@[m] as int);
                    if m < k {
                        assert(sb[ns@[m] as int]);
                        assert(forall|i: int| 0 <= i < n && sb[i] ==> seen@[i]);
                    } else {
                        assert(ns@[m] == w);
                    }
                }
                k += 1;
            }
            proof {
                lemma_count_true_bound(seen@);
            }
            assert forall|i: int, j: int|
                #![trigger seen@[i], adjacent(size, i, j)]
                0 <= i < n && seen@[i] && !in_stack(stack@, i) && adjacent(size, i, j) && 0 <= j < n
                    && pts[j] == p implies seen@[j] by {
                if i == cur as int {
                    let m = choose|m: int| 0 <= m < nbrs(size, cur as int).len() && nbrs(size, cur as int)[m] == j;
                    assert(pts[ns@[m] as int] == p);
                } else if seen_before[i] {
                    if in_stack(rest, i) {
                        assert(in_stack(stack@, i));
                    }
                    assert(seen_before[j]);
                } else {
                    assert(in_stack(stack@, i));
                }
            }
        }
        assert forall|i: int| 0 <= i < n && connected(size, pts, start as int, i) implies seen@[i] by {
            let s = |x: int| 0 <= x < n && seen@[x];
            assert forall|a: int, b: int|
                #![trigger s(a), adjacent(size, a, b)]
                0 <= a < pts.len() && s(a) && adjacent(size, a, b) && 0 <= b < pts.len() && pts[b] == pts[start as int]
                    implies s(b) by {
                assert(seen@[a]);
                assert(!in_stack(stack@, a));
            }
            lemma_closed_holds_connected(size, pts, start as int, i, s);
        }
        seen
    }
}

proof fn lemma_all_false_count(n: nat)
    ensures
        count_true(Seq::new(n, |k: int| false)) == 0,
    decreases n,
{
    if n > 0 {
        assert(Seq::new(n, |k: int| false).drop_last() =~= Seq::new((n - 1) as nat, |k: int| false));
        lemma_all_false_count((n - 1) as nat);
    }
}

} // verus!
