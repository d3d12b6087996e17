//! Geometry of a square go board and the connectivity facts that the
//! flood fills rely on.
//!
//! A vertex is an index `row * size + col`. Everything here is stated over
//! plain integers and sequences so that boards, scoring and the game rules
//! can share it.

use vstd::prelude::*;

verus! {

/// Row and column of `v`, and the four orthogonal neighbours that lie on the
/// board, in the order up, down, left, right.
pub open spec fn nbrs(size: int, v: int) -> Seq<int> {
    let r = v / size;
    let c = v % size;
    let s0: Seq<int> = if r > 0 { seq![v - size] } else { Seq::empty() };
    let s1 = if r + 1 < size { s0.push(v + size) } else { s0 };
    let s2 = if c > 0 { s1.push(v - 1) } else { s1 };
    if c + 1 < size { s2.push(v + 1) } else { s2 }
}

/// `a` and `b` are orthogonally adjacent points of the board.
pub open spec fn adjacent(size: int, a: int, b: int) -> bool {
    nbrs(size, a).contains(b)
}

pub proof fn lemma_div_mod_parts(size: int, v: int)
    requires
        size > 0,
        0 <= v < size * size,
    ensures
        v == (v / size) * size + v % size,
        0 <= v % size < size,
        0 <= v / size < size,
{
    let q = v / size;
    let m = v % size;
    vstd::arithmetic::div_mod::lemma_fundamental_div_mod(v, size);
    vstd::arithmetic::div_mod::lemma_mod_pos_bound(v, size);
    vstd::arithmetic::div_mod::lemma_div_pos_is_pos(v, size);
    assert(size * q == q * size) by (nonlinear_arith);
    if q >= size {
        assert(q * size >= size * size) by (nonlinear_arith)
            requires q >= size, size > 0;
    }
}

pub proof fn lemma_row_col(size: int, v: int, r: int, c: int)
    requires
        size > 0,
        0 <= c < size,
        v == r * size + c,
    ensures
        v / size == r,
        v % size == c,
{
    vstd::arithmetic::div_mod::lemma_fundamental_div_mod_converse(v, size, r, c);
}

/// The arithmetic facts about a point's four candidate neighbours.
proof fn lemma_nbr_bounds(size: int, v: int)
    requires
        size > 0,
        0 <= v < size * size,
    ensures
        v / size > 0 ==> v - size >= 0 && (v - size) / size == v / size - 1 && (v - size) % size == v % size,
        v / size + 1 < size ==> v + size < size * size && (v + size) / size == v / size + 1 && (v + size) % size == v % size,
        v % size > 0 ==> v - 1 >= 0 && (v - 1) / size == v / size && (v - 1) % size == v % size - 1,
        v % size + 1 < size ==> v + 1 < size * size && (v + 1) / size == v / size && (v + 1) % size == v % size + 1,
{
    lemma_div_mod_parts(size, v);
    let r = v / size;
    let c = v % size;
    assert((r + 1) * size == r * size + size) by (nonlinear_arith);
    assert((r - 1) * size == r * size - size) by (nonlinear_arith);
    if r > 0 {
        assert(r * size >= size) by (nonlinear_arith) requires r >= 1, size > 0;
        lemma_row_col(size, v - size, r - 1, c);
    }
    if r + 1 < size {
        assert((r + 2) * size <= size * size) by (nonlinear_arith) requires r + 2 <= size, size > 0;
        assert((r + 2) * size == r * size + 2 * size) by (nonlinear_arith);
        lemma_row_col(size, v + size, r + 1, c);
    }
    if c > 0 {
        lemma_row_col(size, v - 1, r, c - 1);
    }
    if c + 1 < size {
        assert((r + 1) * size <= size * size) by (nonlinear_arith) requires r + 1 <= size, size > 0;
        lemma_row_col(size, v + 1, r, c + 1);
    }
}

/// Every listed neighbour is a point of the board, and no point is listed
/// twice.
pub proof fn lemma_nbrs_in_range(size: int, v: int)
    requires
        size > 0,
        0 <= v < size * size,
    ensures
        forall|k: int| 0 <= k < nbrs(size, v).len() ==> 0 <= #[trigger] nbrs(size, v)[k] < size * size,
        nbrs(size, v).len() <= 4,
        nbrs(size, v).no_duplicates(),
        !nbrs(size, v).contains(v),
{
    lemma_nbr_bounds(size, v);
    let r = v / size;
    let c = v % size;
    let s0: Seq<int> = if r > 0 { seq![v - size] } else { Seq::empty() };
    let s1 = if r + 1 < size { s0.push(v + size) } else { s0 };
    let s2 = if c > 0 { s1.push(v - 1) } else { s1 };
    let s3 = if c + 1 < size { s2.push(v + 1) } else { s2 };
    assert(s3 == nbrs(size, v));
    assert forall|k: int| 0 <= k < s3.len() implies 0 <= #[trigger] s3[k] < size * size && s3[k] != v by {
        if c + 1 < size && k == s3.len() - 1 {
        } else if c > 0 && k == s2.len() - 1 {
        } else if r + 1 < size && k == s1.len() - 1 {
        } else {
        }
    }
    assert forall|i: int, j: int| 0 <= i < s3.len() && 0 <= j < s3.len() && i != j implies s3[i] != s3[j] by {
        if c + 1 < size && (i == s3.len() - 1 || j == s3.len() - 1) {
        } else if c > 0 && (i == s2.len() - 1 || j == s2.len() - 1) {
        } else {
        }
    }
}

/// The four candidate neighbours, spelled out: `w` is listed exactly when it
/// is one of them and lies on the board.
pub proof fn lemma_nbrs_cases(size: int, v: int, w: int)
    requires
        size > 0,
        0 <= v < size * size,
    ensures
        nbrs(size, v).contains(w) <==> (
            (v / size > 0 && w == v - size)
            || (v / size + 1 < size && w == v + size)
            || (v % size > 0 && w == v - 1)
            || (v % size + 1 < size && w == v + 1)),
{
    lemma_nbr_bounds(size, v);
    let r = v / size;
    let c = v % size;
    let s0: Seq<int> = if r > 0 { seq![v - size] } else { Seq::empty() };
    let s1 = if r + 1 < size { s0.push(v + size) } else { s0 };
    let s2 = if c > 0 { s1.push(v - 1) } else { s1 };
    let s3 = if c + 1 < size { s2.push(v + 1) } else { s2 };
    assert(s3 == nbrs(size, v));
    if s3.contains(w) {
        let k = choose|k: int| 0 <= k < s3.len() && s3[k] == w;
        if c + 1 < size && k == s3.len() - 1 {
        } else if c > 0 && k == s2.len() - 1 {
        } else if r + 1 < size && k == s1.len() - 1 {
        } else {
        }
    }
    if r > 0 && w == v - size {
        assert(s3[0] == w);
    }
    if r + 1 < size && w == v + size {
        assert(s3[s1.len() - 1] == w);
    }
    if c > 0 && w == v - 1 {
        assert(s3[s2.len() - 1] == w);
    }
    if c + 1 < size && w == v + 1 {
        assert(s3[s3.len() - 1] == w);
    }
}

/// Adjacency is symmetric.
pub proof fn lemma_adjacent_symmetric(size: int, a: int, b: int)
    requires
        size > 0,
        0 <= a < size * size,
        adjacent(size, a, b),
    ensures
        adjacent(size, b, a),
{
    lemma_div_mod_parts(size, a);
    lemma_nbr_bounds(size, a);
    lemma_nbrs_cases(size, a, b);
    lemma_nbrs_in_range(size, a);
    assert(0 <= b < size * size);
    lemma_nbrs_cases(size, b, a);
    let r = a / size;
    let c = a % size;
    if r > 0 && b == a - size {
        assert(b / size + 1 < size && a == b + size);
    } else if r + 1 < size && b == a + size {
        assert(b / size > 0 && a == b - size);
    } else if c > 0 && b == a - 1 {
        assert(b % size + 1 < size && a == b + 1);
    } else {
        assert(b % size > 0 && a == b - 1);
    }
}

/// Consecutive points `k` and `k + 1` of `path` are adjacent.
pub open spec fn linked(size: int, path: Seq<int>, k: int) -> bool {
    adjacent(size, path[k], path[k + 1])
}

/// `path` is a walk over adjacent points of the board that all hold `p`.
pub open spec fn is_path<A>(size: int, pts: Seq<A>, p: A, path: Seq<int>) -> bool {
    &&& path.len() > 0
    &&& forall|k: int| 0 <= k < path.len() ==> 0 <= #[trigger] path[k] < pts.len() && pts[path[k]] == p
    &&& forall|k: int| 0 <= k < path.len() - 1 ==> #[trigger] linked(size, path, k)
}

/// `b` can be reached from `a` by steps between adjacent points that all
/// hold what `a` holds: the two points lie in one chain (for stones) or one
/// region (for empty points).
pub open spec fn connected<A>(size: int, pts: Seq<A>, a: int, b: int) -> bool {
    exists|path: Seq<int>|
        #[trigger] is_path(size, pts, pts[a], path) && path[0] == a && path.last() == b
}

pub proof fn lemma_connected_refl<A>(size: int, pts: Seq<A>, a: int)
    requires
        0 <= a < pts.len(),
    ensures
        connected(size, pts, a, a),
{
    let path = seq![a];
    assert(is_path(size, pts, pts[a], path));
}

/// What two connected points have in common.
pub proof fn lemma_connected_facts<A>(size: int, pts: Seq<A>, a: int, b: int)
    requires
        connected(size, pts, a, b),
    ensures
        0 <= a < pts.len(),
        0 <= b < pts.len(),
        pts[b] == pts[a],
{
    let path = choose|path: Seq<int>|
        #[trigger] is_path(size, pts, pts[a], path) && path[0] == a && path.last() == b;
    assert(path[path.len() - 1] == b);
    assert(0 <= path[0] < pts.len());
}

/// A connected point extends by one more adjacent point of the same kind.
pub proof fn lemma_connected_step<A>(size: int, pts: Seq<A>, a: int, b: int, c: int)
    requires
        connected(size, pts, a, b),
        adjacent(size, b, c),
        0 <= c < pts.len(),
        pts[c] == pts[a],
    ensures
        connected(size, pts, a, c),
{
    let path = choose|path: Seq<int>|
        #[trigger] is_path(size, pts, pts[a], path) && path[0] == a && path.last() == b;
    let np = path.push(c);
    assert forall|k: int| 0 <= k < np.len() - 1 implies #[trigger] linked(size, np, k) by {
        if k < path.len() - 1 {
            assert(linked(size, path, k));
        }
    }
    assert(is_path(size, pts, pts[a], np));
    assert(np[0] == a && np.last() == c);
}

/// Any set that holds `a` and is closed under stepping to adjacent points of
/// the same kind holds every point connected to `a`.
pub proof fn lemma_closed_holds_connected<A>(
    size: int,
    pts: Seq<A>,
    a: int,
    b: int,
    s: spec_fn(int) -> bool,
)
    requires
        s(a),
        forall|i: int, j: int|
            #![trigger s(i), adjacent(size, i, j)]
            0 <= i < pts.len() && s(i) && adjacent(size, i, j) && 0 <= j < pts.len() && pts[j] == pts[a]
                ==> s(j),
        connected(size, pts, a, b),
    ensures
        s(b),
{
    let path = choose|path: Seq<int>|
        #[trigger] is_path(size, pts, pts[a], path) && path[0] == a && path.last() == b;
    lemma_path_prefix_in(size, pts, a, path, s, (path.len() - 1) as nat);
}

proof fn lemma_path_prefix_in<A>(
    size: int,
    pts: Seq<A>,
    a: int,
    path: Seq<int>,
    s: spec_fn(int) -> bool,
    k: nat,
)
    requires
        s(a),
        forall|i: int, j: int|
            #![trigger s(i), adjacent(size, i, j)]
            0 <= i < pts.len() && s(i) && adjacent(size, i, j) && 0 <= j < pts.len() && pts[j] == pts[a]
                ==> s(j),
        is_path(size, pts, pts[a], path),
        path[0] == a,
        k < path.len(),
    ensures
        s(path[k as int]),
    decreases k,
{
    if k > 0 {
        lemma_path_prefix_in(size, pts, a, path, s, (k - 1) as nat);
        assert(linked(size, path, k - 1));
        assert(0 <= path[k - 1] < pts.len());
        assert(0 <= path[k as int] < pts.len());
    }
}

/// Connection is symmetric.
pub proof fn lemma_connected_symmetric<A>(size: int, pts: Seq<A>, a: int, b: int)
    requires
        size > 0,
        pts.len() == size * size,
        connected(size, pts, a, b),
    ensures
        connected(size, pts, b, a),
{
    let path = choose|path: Seq<int>|
        #[trigger] is_path(size, pts, pts[a], path) && path[0] == a && path.last() == b;
    lemma_connected_facts(size, pts, a, b);
    let rp = path.reverse();
    assert forall|k: int| 0 <= k < rp.len() - 1 implies #[trigger] linked(size, rp, k) by {
        let m = path.len() - 2 - k;
        assert(linked(size, path, m));
        assert(0 <= path[m] < pts.len());
        lemma_adjacent_symmetric(size, path[m], path[m + 1]);
        assert(rp[k] == path[m + 1]);
        assert(rp[k + 1] == path[m]);
    }
    assert forall|k: int| 0 <= k < rp.len() implies 0 <= #[trigger] rp[k] < pts.len() && pts[rp[k]] == pts[b] by {
        assert(rp[k] == path[path.len() - 1 - k]);
    }
    assert(is_path(size, pts, pts[b], rp));
    assert(rp[0] == b);
    assert(rp.last() == a);
}

/// Connection is transitive.
pub proof fn lemma_connected_trans<A>(size: int, pts: Seq<A>, a: int, b: int, c: int)
    requires
        connected(size, pts, a, b),
        connected(size, pts, b, c),
    ensures
        connected(size, pts, a, c),
{
    lemma_connected_facts(size, pts, a, b);
    let p1 = choose|path: Seq<int>|
        #[trigger] is_path(size, pts, pts[a], path) && path[0] == a && path.last() == b;
    let p2 = choose|path: Seq<int>|
        #[trigger] is_path(size, pts, pts[b], path) && path[0] == b && path.last() == c;
    let p = p1 + p2.drop_first();
    assert forall|k: int| 0 <= k < p.len() - 1 implies #[trigger] linked(size, p, k) by {
        if k < p1.len() - 1 {
            assert(linked(size, p1, k));
        } else if k == p1.len() - 1 {
            if p2.len() > 1 {
                assert(linked(size, p2, 0));
            }
        } else {
            assert(linked(size, p2, k - p1.len() + 1));
        }
    }
    assert forall|k: int| 0 <= k < p.len() implies 0 <= #[trigger] p[k] < pts.len() && pts[p[k]] == pts[a] by {
        if k < p1.len() {
        } else {
            assert(p[k] == p2[k - p1.len() + 1]);
        }
    }
    assert(is_path(size, pts, pts[a], p));
    if p2.len() == 1 {
        assert(p.last() == p1.last());
    } else {
        assert(p.last() == p2.last());
    }
}

/// Number of `true` entries.
pub open spec fn count_true(s: Seq<bool>) -> nat
    decreases s.len(),
{
    if s.len() == 0 {
        0
    } else {
        count_true(s.drop_last()) + if s.last() { 1nat } else { 0nat }
    }
}

pub proof fn lemma_count_true_bound(s: Seq<bool>)
    ensures
        count_true(s) <= s.len(),
    decreases s.len(),
{
    if s.len() > 0 {
        lemma_count_true_bound(s.drop_last());
    }
}

/// Counting a prefix one entry longer.
pub proof fn lemma_count_true_prefix(s: Seq<bool>, i: int)
    requires
        0 <= i < s.len(),
    ensures
        count_true(s.take(i + 1)) == count_true(s.take(i)) + if s[i] { 1nat } else { 0nat },
{
    assert(s.take(i + 1).drop_last() =~= s.take(i));
}

/// Setting one entry changes the count by at most that entry.
pub proof fn lemma_count_true_update(s: Seq<bool>, i: int, b: bool)
    requires
        0 <= i < s.len(),
    ensures
        count_true(s.update(i, b)) + (if s[i] { 1nat } else { 0nat }) == count_true(s) + (if b { 1nat } else { 0nat }),
    decreases s.len(),
{
    if i < s.len() - 1 {
        assert(s.update(i, b).drop_last() =~= s.drop_last().update(i, b));
        lemma_count_true_update(s.drop_last(), i, b);
    } else {
        assert(s.update(i, b).drop_last() =~= s.drop_last());
    }
}

/// Counts of two disjoint selections add up to the count of their union.
pub proof fn lemma_count_true_disjoint(a: Seq<bool>, b: Seq<bool>, u: Seq<bool>)
    requires
        a.len() == b.len(),
        u.len() == a.len(),
        forall|i: int| 0 <= i < a.len() ==> !(a[i] && b[i]),
        forall|i: int| 0 <= i < a.len() ==> u[i] == (a[i] || b[i]),
    ensures
        count_true(u) == count_true(a) + count_true(b),
    decreases a.len(),
{
    if a.len() > 0 {
        lemma_count_true_disjoint(a.drop_last(), b.drop_last(), u.drop_last());
    }
}

/// Counts agree when the entries agree.
pub proof fn lemma_count_true_ext(a: Seq<bool>, b: Seq<bool>)
    requires
        a.len() == b.len(),
        forall|i: int| 0 <= i < a.len() ==> a[i] == b[i],
    ensures
        count_true(a) == count_true(b),
{
    assert(a =~= b);
}

/// The points `0 .. n` in increasing order.
pub open spec fn range_seq(n: nat) -> Seq<int> {
    Seq::new(n, |i: int| i)
}

} // verus!
