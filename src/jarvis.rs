//! Gift wrapping (Jarvis march): from the leftmost point, repeatedly turn to
//! the point that is furthest counter-clockwise.

use vstd::prelude::*;
use vstd::arithmetic::div_mod::{lemma_small_mod, lemma_mod_self_0};
use crate::point::{
    COORD_LIMIT, Orientation, Point, lemma_mul_bounded, orientation, turn, valid_point,
    valid_points,
};

verus! {

/// The first index, among the first `n` of `s`, of a point with the
/// smallest `x`, and among those the smallest `y`.
pub open spec fn leftmost_index(s: Seq<Point>, n: int) -> int
    decreases n,
{
    if n <= 1 {
        0
    } else {
        let l = leftmost_index(s, n - 1);
        if s[n - 1].x < s[l].x || (s[n - 1].x == s[l].x && s[n - 1].y < s[l].y) {
            n - 1
        } else {
            l
        }
    }
}

/// The squared distance between two points.
pub open spec fn dist2(p: Point, q: Point) -> int {
    (q.x - p.x) * (q.x - p.x) + (q.y - p.y) * (q.y - p.y)
}

/// Seen from `p`, the point `r` wraps further than the candidate `q`: it lies
/// right of the line from `p` to `q`, or on it and further away.
pub open spec fn wraps_past(p: Point, r: Point, q: Point) -> bool {
    turn(p, r, q) < 0 || (turn(p, r, q) == 0 && dist2(p, r) > dist2(p, q))
}

/// The candidate left after scanning `s` from index `r` on, starting from
/// candidate `q` and moving to every point that wraps further.
pub open spec fn scan_from(s: Seq<Point>, p: int, q: int, r: int) -> int
    decreases s.len() - r,
{
    if r >= s.len() {
        q
    } else {
        scan_from(s, p, if wraps_past(s[p], s[r], s[q]) { r } else { q }, r + 1)
    }
}

/// The index of the hull vertex that follows `s[p]`.
pub open spec fn next_vertex(s: Seq<Point>, p: int) -> int {
    scan_from(s, p, (p + 1) % (s.len() as int), 0)
}

/// The vertices visited from `s[p]` on, at most `fuel` of them, until the
/// walk comes back to the point `s[start]`.
pub open spec fn wrap_walk(s: Seq<Point>, start: int, p: int, fuel: nat) -> Seq<Point>
    decreases fuel,
{
    if fuel == 0 {
        seq![]
    } else {
        let q = next_vertex(s, p);
        seq![s[p]] + if s[q] == s[start] {
            seq![]
        } else {
            wrap_walk(s, start, q, (fuel - 1) as nat)
        }
    }
}

pub proof fn lemma_leftmost_index(s: Seq<Point>, n: int)
    requires
        1 <= n <= s.len(),
    ensures
        0 <= leftmost_index(s, n) < n,
        forall|i: int| 0 <= i < n ==> s[leftmost_index(s, n)].x <= #[trigger] s[i].x,
        forall|i: int|
            0 <= i < n && #[trigger] s[i].x == s[leftmost_index(s, n)].x ==> s[leftmost_index(
                s,
                n,
            )].y <= s[i].y,
    decreases n,
{
    if n > 1 {
        lemma_leftmost_index(s, n - 1);
    }
}

pub proof fn lemma_scan_from(s: Seq<Point>, p: int, q: int, r: int)
    requires
        0 <= q < s.len(),
        0 <= r,
    ensures
        0 <= scan_from(s, p, q, r) < s.len(),
    decreases s.len() - r,
{
    if r < s.len() {
        lemma_scan_from(s, p, if wraps_past(s[p], s[r], s[q]) { r } else { q }, r + 1);
    }
}

pub proof fn lemma_wrap_walk(s: Seq<Point>, start: int, p: int, fuel: nat)
    requires
        s.len() > 0,
        0 <= p < s.len(),
    ensures
        wrap_walk(s, start, p, fuel).len() <= fuel,
        fuel > 0 ==> wrap_walk(s, start, p, fuel).len() >= 1 && wrap_walk(s, start, p, fuel)[0]
            == s[p],
        forall|i: int|
            0 <= i < wrap_walk(s, start, p, fuel).len() ==> s.contains(
                #[trigger] wrap_walk(s, start, p, fuel)[i],
            ),
    decreases fuel,
{
    if fuel > 0 {
        let q = next_vertex(s, p);
        lemma_scan_from(s, p, (p + 1) % (s.len() as int), 0);
        lemma_wrap_walk(s, start, q, (fuel - 1) as nat);
        let w = wrap_walk(s, start, p, fuel);
        let rest = if s[q] == s[start] {
            seq![]
        } else {
            wrap_walk(s, start, q, (fuel - 1) as nat)
        };
        assert(w == seq![s[p]] + rest);
        assert forall|i: int| 0 <= i < w.len() implies s.contains(#[trigger] w[i]) by {
            if i == 0 {
                assert(s[p] == w[0]);
            } else {
                assert(w[i] == rest[i - 1]);
            }
        }
    }
}

/// No three of the points lie on one line; in particular no two coincide.
pub open spec fn in_general_position(s: Seq<Point>) -> bool {
    forall|i: int, j: int, k: int|
        0 <= i < s.len() && 0 <= j < s.len() && 0 <= k < s.len() && i != j && j != k && i != k
            ==> turn(#[trigger] s[i], #[trigger] s[j], #[trigger] s[k]) != 0
}

/// `p` lies on the directed line from `a` to `b` or to its left.
pub open spec fn left_of(a: Point, b: Point, p: Point) -> bool {
    turn(a, b, p) <= 0
}

/// `p` lies on or left of every edge of the closed polygon `hull`, taken in
/// order and from the last vertex back to the first.
pub open spec fn encloses_ccw(hull: Seq<Point>, p: Point) -> bool {
    forall|i: int|
        0 <= i < hull.len() ==> left_of(#[trigger] hull[i], hull[(i + 1) % (hull.len() as int)], p)
}

/// The walk from `s[p]` comes back to `s[start]` within `fuel` steps.
pub open spec fn wrap_closes(s: Seq<Point>, start: int, p: int, fuel: nat) -> bool
    decreases fuel,
{
    if fuel == 0 {
        false
    } else {
        let q = next_vertex(s, p);
        s[q] == s[start] || wrap_closes(s, start, q, (fuel - 1) as nat)
    }
}

/// Every point lies in the closed half-plane through `s[p]` with inner
/// normal `(nx, ny)`.
pub open spec fn in_half_plane(s: Seq<Point>, p: Point, nx: int, ny: int) -> bool {
    &&& (nx != 0 || ny != 0)
    &&& forall|j: int| 0 <= j < s.len() ==> nx * (#[trigger] s[j].x - p.x) + ny * (s[j].y - p.y) >= 0
}

pub proof fn lemma_scaled_dot(a: int, nx: int, ny: int, x: int, y: int)
    ensures
        a * (nx * x + ny * y) == nx * (a * x) + ny * (a * y),
{
    assert(a * (nx * x + ny * y) == nx * (a * x) + ny * (a * y)) by (nonlinear_arith);
}

pub proof fn lemma_times_sum(k: int, t1: int, t2: int, t3: int)
    ensures
        k * (t1 + t2 + t3) == k * t1 + k * t2 + k * t3,
{
    assert(k * (t1 + t2 + t3) == k * t1 + k * t2 + k * t3) by (nonlinear_arith);
}

/// Seen from `p`, with all points in a half-plane through `p`: if `w` is not
/// right of `p -> q` and `r` is, then `w` is not right of `p -> r` either.
pub proof fn lemma_turn_transitive(p: Point, q: Point, r: Point, w: Point, nx: int, ny: int)
    requires
        nx != 0 || ny != 0,
        nx * (q.x - p.x) + ny * (q.y - p.y) >= 0,
        nx * (r.x - p.x) + ny * (r.y - p.y) >= 0,
        nx * (w.x - p.x) + ny * (w.y - p.y) >= 0,
        turn(p, q, w) <= 0,
        turn(p, q, r) > 0,
        turn(p, q, w) == 0 ==> w == p || w == q,
    ensures
        turn(p, r, w) <= 0,
{
    let (ux, uy) = (q.x - p.x, q.y - p.y);
    let (vx, vy) = (r.x - p.x, r.y - p.y);
    let (wx, wy) = (w.x - p.x, w.y - p.y);
    let a = ux * vy - uy * vx;
    let b = vx * wy - vy * wx;
    let c = wx * uy - wy * ux;
    let nu = nx * ux + ny * uy;
    let nv = nx * vx + ny * vy;
    let nw = nx * wx + ny * wy;
    assert(turn(p, q, r) == -a) by (nonlinear_arith)
        requires
            ux == q.x - p.x,
            uy == q.y - p.y,
            vx == r.x - p.x,
            vy == r.y - p.y,
            a == ux * vy - uy * vx,
    ;
    assert(turn(p, q, w) == c) by (nonlinear_arith)
        requires
            ux == q.x - p.x,
            uy == q.y - p.y,
            wx == w.x - p.x,
            wy == w.y - p.y,
            c == wx * uy - wy * ux,
    ;
    assert(turn(p, r, w) == -b) by (nonlinear_arith)
        requires
            vx == r.x - p.x,
            vy == r.y - p.y,
            wx == w.x - p.x,
            wy == w.y - p.y,
            b == vx * wy - vy * wx,
    ;
    assert(a * wx + b * ux + c * vx == 0) by (nonlinear_arith)
        requires
            a == ux * vy - uy * vx,
            b == vx * wy - vy * wx,
            c == wx * uy - wy * ux,
    ;
    assert(a * wy + b * uy + c * vy == 0) by (nonlinear_arith)
        requires
            a == ux * vy - uy * vx,
            b == vx * wy - vy * wx,
            c == wx * uy - wy * ux,
    ;
    lemma_scaled_dot(a, nx, ny, wx, wy);
    lemma_scaled_dot(b, nx, ny, ux, uy);
    lemma_scaled_dot(c, nx, ny, vx, vy);
    lemma_times_sum(nx, a * wx, b * ux, c * vx);
    lemma_times_sum(ny, a * wy, b * uy, c * vy);
    assert(a * nw + b * nu + c * nv == 0);
    assert(a * nw <= 0) by (nonlinear_arith)
        requires
            a < 0,
            nw >= 0,
    ;
    assert(c * nv <= 0) by (nonlinear_arith)
        requires
            c <= 0,
            nv >= 0,
    ;
    if nu > 0 {
        assert(b >= 0) by (nonlinear_arith)
            requires
                b * nu >= 0,
                nu > 0,
        ;
    } else {
        assert(b * nu == 0) by (nonlinear_arith)
            requires
                nu == 0,
        ;
        assert(nw == 0) by (nonlinear_arith)
            requires
                a * nw == 0,
                a < 0,
        ;
        assert(nx * c == 0 && ny * c == 0) by (nonlinear_arith)
            requires
                nx * ux + ny * uy == 0,
                nx * wx + ny * wy == 0,
                c == wx * uy - wy * ux,
        ;
        assert(c == 0) by (nonlinear_arith)
            requires
                nx * c == 0,
                ny * c == 0,
                nx != 0 || ny != 0,
        ;
        if w == p {
            assert(b == 0) by (nonlinear_arith)
                requires
                    wx == 0,
                    wy == 0,
                    b == vx * wy - vy * wx,
            ;
        } else {
            assert(b == -a) by (nonlinear_arith)
                requires
                    wx == ux,
                    wy == uy,
                    a == ux * vy - uy * vx,
                    b == vx * wy - vy * wx,
            ;
        }
    }
}

pub proof fn lemma_turn_swap(p: Point, q: Point, r: Point)
    ensures
        turn(p, r, q) == -turn(p, q, r),
        turn(p, q, q) == 0,
        turn(p, p, q) == 0,
{
    let (px, py, qx, qy, rx, ry) = (p.x as int, p.y as int, q.x as int, q.y as int, r.x as int, r.y as int);
    assert((ry - py) * (qx - rx) - (rx - px) * (qy - ry) == -((qy - py) * (rx - qx) - (qx - px) * (ry
        - qy))) by (nonlinear_arith);
    assert((qy - py) * (qx - qx) - (qx - px) * (qy - qy) == 0) by (nonlinear_arith);
    assert((py - py) * (qx - px) - (px - px) * (qy - py) == 0) by (nonlinear_arith);
}

/// Two points of a set in general position that differ in index differ.
pub proof fn lemma_distinct(s: Seq<Point>, i: int, j: int)
    requires
        in_general_position(s),
        s.len() >= 3,
        0 <= i < s.len(),
        0 <= j < s.len(),
        i != j,
    ensures
        s[i] != s[j],
{
    let k: int = if i != 0 && j != 0 {
        0
    } else if i != 1 && j != 1 {
        1
    } else {
        2
    };
    assert(turn(s[i], s[j], s[k]) != 0);
    lemma_turn_swap(s[k], s[i], s[j]);
    if s[i] == s[j] {
        lemma_turn_swap(s[i], s[k], s[i]);
    }
}

/// The scan keeps a candidate with every point scanned so far on or left of
/// the line towards it; at the end, every point is.
pub proof fn lemma_scan(s: Seq<Point>, p: int, q: int, r: int, nx: int, ny: int)
    requires
        in_general_position(s),
        s.len() >= 3,
        0 <= p < s.len(),
        0 <= q < s.len(),
        0 <= r <= s.len(),
        s[q] != s[p],
        in_half_plane(s, s[p], nx, ny),
        forall|k: int| 0 <= k < r ==> left_of(s[p], s[q], #[trigger] s[k]),
    ensures
        0 <= scan_from(s, p, q, r) < s.len(),
        s[scan_from(s, p, q, r)] != s[p],
        forall|j: int| 0 <= j < s.len() ==> left_of(s[p], s[scan_from(s, p, q, r)], #[trigger] s[j]),
    decreases s.len() - r,
{
    if r < s.len() {
        lemma_turn_swap(s[p], s[q], s[r]);
        if turn(s[p], s[r], s[q]) == 0 && r != p && r != q {
            assert(p != q);
            assert(turn(s[p], s[r], s[q]) != 0);
        }
        if turn(s[p], s[r], s[q]) == 0 && r == p {
            assert(dist2(s[p], s[r]) == 0);
            assert(dist2(s[p], s[q]) >= 0) by (nonlinear_arith);
        }
        if wraps_past(s[p], s[r], s[q]) {
            lemma_turn_swap(s[p], s[r], s[r]);
            lemma_turn_swap(s[p], s[q], s[p]);
            assert forall|k: int| 0 <= k < r + 1 implies left_of(s[p], s[r], #[trigger] s[k]) by {
                if k < r {
                    assert(left_of(s[p], s[q], s[k]));
                    assert(in_half_plane(s, s[p], nx, ny));
                    assert(nx * (s[q].x - s[p].x) + ny * (s[q].y - s[p].y) >= 0);
                    assert(nx * (s[r].x - s[p].x) + ny * (s[r].y - s[p].y) >= 0);
                    assert(nx * (s[k].x - s[p].x) + ny * (s[k].y - s[p].y) >= 0);
                    if turn(s[p], s[q], s[k]) == 0 && k != p && k != q {
                        assert(p != q);
                        assert(turn(s[p], s[q], s[k]) != 0);
                    }
                    lemma_turn_transitive(s[p], s[q], s[r], s[k], nx, ny);
                }
            }
            lemma_scan(s, p, r, r + 1, nx, ny);
        } else {
            lemma_scan(s, p, q, r + 1, nx, ny);
        }
    }
}

/// From a vertex with every point in a half-plane through it, the next
/// vertex is another point, with every point on or left of the edge to it.
pub proof fn lemma_next_vertex(s: Seq<Point>, p: int, nx: int, ny: int)
    requires
        in_general_position(s),
        s.len() >= 3,
        0 <= p < s.len(),
        in_half_plane(s, s[p], nx, ny),
    ensures
        0 <= next_vertex(s, p) < s.len(),
        s[next_vertex(s, p)] != s[p],
        forall|j: int| 0 <= j < s.len() ==> left_of(s[p], s[next_vertex(s, p)], #[trigger] s[j]),
{
    let n = s.len() as int;
    let q0 = (p + 1) % n;
    assert(0 <= q0 < n && q0 != p) by {
        if p + 1 < n {
            lemma_small_mod((p + 1) as nat, n as nat);
        } else {
            lemma_mod_self_0(n);
        }
    }
    lemma_distinct(s, p, q0);
    lemma_scan(s, p, q0, 0, nx, ny);
}

/// Every edge of the walk has all points on or left of it; so has the edge
/// back to the start, once the walk closes.
pub proof fn lemma_walk_edges(s: Seq<Point>, start: int, p: int, fuel: nat, nx: int, ny: int)
    requires
        in_general_position(s),
        s.len() >= 3,
        0 <= p < s.len(),
        in_half_plane(s, s[p], nx, ny),
    ensures
        forall|i: int, j: int|
            0 <= i < wrap_walk(s, start, p, fuel).len() - 1 && 0 <= j < s.len() ==> left_of(
                #[trigger] wrap_walk(s, start, p, fuel)[i],
                wrap_walk(s, start, p, fuel)[i + 1],
                #[trigger] s[j],
            ),
        wrap_closes(s, start, p, fuel) ==> forall|j: int|
            0 <= j < s.len() ==> left_of(
                wrap_walk(s, start, p, fuel).last(),
                s[start],
                #[trigger] s[j],
            ),
    decreases fuel,
{
    if fuel > 0 {
        let q = next_vertex(s, p);
        lemma_next_vertex(s, p, nx, ny);
        let w = wrap_walk(s, start, p, fuel);
        if s[q] == s[start] {
            assert(w =~= seq![s[p]]);
        } else {
            let (mx, my) = (-(s[q].y - s[p].y), s[q].x - s[p].x);
            assert forall|j: int| 0 <= j < s.len() implies mx * (#[trigger] s[j].x - s[q].x) + my * (
            s[j].y - s[q].y) >= 0 by {
                assert(left_of(s[p], s[q], s[j]));
                assert(mx * (s[j].x - s[q].x) + my * (s[j].y - s[q].y) == -turn(s[p], s[q], s[j]))
                    by (nonlinear_arith)
                    requires
                        mx == -(s[q].y - s[p].y),
                        my == s[q].x - s[p].x,
                ;
            }
            assert(mx != 0 || my != 0);
            let f = (fuel - 1) as nat;
            lemma_walk_edges(s, start, q, f, mx as int, my as int);
            lemma_wrap_walk(s, start, q, f);
            let w2 = wrap_walk(s, start, q, f);
            assert(w == seq![s[p]] + w2);
            assert forall|i: int, j: int|
                0 <= i < w.len() - 1 && 0 <= j < s.len() implies left_of(
                #[trigger] w[i],
                w[i + 1],
                #[trigger] s[j],
            ) by {
                if i == 0 {
                    assert(w[1] == w2[0]);
                } else {
                    assert(w[i] == w2[i - 1] && w[i + 1] == w2[i]);
                    assert(left_of(w2[i - 1], w2[i - 1 + 1], s[j]));
                }
            }
            if wrap_closes(s, start, p, fuel) {
                assert(wrap_closes(s, start, q, f));
                assert(w.last() == w2.last());
            }
        }
    }
}

/// A walk that stops before its fuel runs out has come back to the start.
pub proof fn lemma_short_walk_closes(s: Seq<Point>, start: int, p: int, fuel: nat)
    requires
        s.len() > 0,
        0 <= p < s.len(),
        wrap_walk(s, start, p, fuel).len() < fuel,
    ensures
        wrap_closes(s, start, p, fuel),
    decreases fuel,
{
    let q = next_vertex(s, p);
    lemma_scan_from(s, p, (p + 1) % (s.len() as int), 0);
    if s[q] != s[start] {
        lemma_short_walk_closes(s, start, q, (fuel - 1) as nat);
    }
}

fn distance_squared(p: &Point, q: &Point) -> (d: i128)
    requires
        valid_point(*p),
        valid_point(*q),
    ensures
        d == dist2(*p, *q),
{
    let dx = q.x as i128 - p.x as i128;
    let dy = q.y as i128 - p.y as i128;
    proof {
        lemma_mul_bounded(dx as int, dx as int, 2 * COORD_LIMIT, 2 * COORD_LIMIT);
        lemma_mul_bounded(dy as int, dy as int, 2 * COORD_LIMIT, 2 * COORD_LIMIT);
    }
    dx * dx + dy * dy
}

/// Decides whether `r` wraps further than `q`, seen from `p`.
fn wraps_further(p: &Point, r: &Point, q: &Point) -> (b: bool)
    requires
        valid_point(*p),
        valid_point(*r),
        valid_point(*q),
    ensures
        b == wraps_past(*p, *r, *q),
{
    match orientation(p, r, q) {
        Orientation::Counterclockwise => true,
        Orientation::Colinear => distance_squared(p, r) > distance_squared(p, q),
        Orientation::Clockwise => false,
    }
}

/// For points in general position, the walk from the leftmost point keeps
/// every point on or left of each of its edges, and encloses them all once
/// it closes.
pub proof fn lemma_wrapped_hull(s: Seq<Point>)
    requires
        in_general_position(s),
        s.len() >= 3,
    ensures
        ({
            let l = leftmost_index(s, s.len() as int);
            let h = wrap_walk(s, l, l, s.len());
            &&& forall|i: int, j: int|
                0 <= i < h.len() - 1 && 0 <= j < s.len() ==> left_of(
                    #[trigger] h[i],
                    h[i + 1],
                    #[trigger] s[j],
                )
            &&& wrap_closes(s, l, l, s.len()) ==> forall|j: int|
                0 <= j < s.len() ==> encloses_ccw(h, #[trigger] s[j])
        }),
{
    let n = s.len() as int;
    let l = leftmost_index(s, n);
    lemma_leftmost_index(s, n);
    lemma_wrap_walk(s, l, l, n as nat);
    assert forall|j: int| 0 <= j < n implies 1 * (#[trigger] s[j].x - s[l].x) + 0 * (s[j].y - s[l].y) >= 0 by {}
    lemma_walk_edges(s, l, l, n as nat, 1, 0);
    let h = wrap_walk(s, l, l, n as nat);
    if wrap_closes(s, l, l, n as nat) {
        let m = h.len() as int;
        assert forall|j: int| 0 <= j < n implies encloses_ccw(h, #[trigger] s[j]) by {
            assert forall|i: int| 0 <= i < m implies left_of(#[trigger] h[i], h[(i + 1) % m], s[j]) by {
                if i < m - 1 {
                    lemma_small_mod((i + 1) as nat, m as nat);
                } else {
                    lemma_mod_self_0(m);
                    assert(h[m - 1] == h.last());
                }
            }
        }
    }
}

/// The convex hull of `points` by gift wrapping, counter-clockwise from the
/// leftmost point (the lowest of them). Fewer than three points give an empty
/// hull.
///
/// Each step scans every point and keeps the one that wraps furthest from the
/// current vertex: right of the line to the candidate, or on it and further
/// away, so that points inside an edge are passed over. The walk ends when it
/// comes back to the first vertex, and takes at most one step per point.
pub fn jarvis_march(points: Vec<Point>) -> (hull: Vec<Point>)
    requires
        valid_points(points@),
    ensures
        points@.len() < 3 ==> hull@.len() == 0,
        points@.len() >= 3 ==> {
            let l = leftmost_index(points@, points@.len() as int);
            &&& hull@ == wrap_walk(points@, l, l, points@.len())
            &&& 1 <= hull@.len() <= points@.len()
            &&& hull@[0] == points@[l]
            &&& forall|i: int| 0 <= i < points@.len() ==> hull@[0].x <= #[trigger] points@[i].x
            &&& forall|i: int|
                0 <= i < points@.len() && #[trigger] points@[i].x == hull@[0].x ==> hull@[0].y
                    <= points@[i].y
            &&& hull@.len() < points@.len() ==> wrap_closes(points@, l, l, points@.len())
        },
        forall|i: int| 0 <= i < hull@.len() ==> points@.contains(#[trigger] hull@[i]),
        points@.len() >= 3 && in_general_position(points@) ==> {
            let l = leftmost_index(points@, points@.len() as int);
            &&& forall|i: int, j: int|
                0 <= i < hull@.len() - 1 && 0 <= j < points@.len() ==> left_of(
                    #[trigger] hull@[i],
                    hull@[i + 1],
                    #[trigger] points@[j],
                )
            &&& wrap_closes(points@, l, l, points@.len()) ==> forall|j: int|
                0 <= j < points@.len() ==> encloses_ccw(hull@, #[trigger] points@[j])
        },
{
    let ghost s = points@;
    let n = points.len();
    if n < 3 {
        return Vec::new();
    }
    let mut l: usize = 0;
    let mut i: usize = 1;
    while i < n
        invariant
            n == s.len(),
            s == points@,
            1 <= i <= n,
            l == leftmost_index(s, i as int),
            l < i,
        decreases n - i,
    {
        proof {
            lemma_leftmost_index(s, i as int);
        }
        if points[i].x < points[l].x || (points[i].x == points[l].x && points[i].y < points[l].y) {
            l = i;
        }
        i += 1;
    }
    proof {
        lemma_leftmost_index(s, n as int);
        lemma_wrap_walk(s, l as int, l as int, n as nat);
    }
    let mut hull: Vec<Point> = Vec::new();
    let mut p: usize = l;
    let mut steps: usize = 0;
    let mut done = false;
    while !done && steps < n
        invariant
            n == s.len(),
            s == points@,
            n >= 3,
            valid_points(s),
            l < n,
            p < n,
            steps <= n,
            done ==> hull@ == wrap_walk(s, l as int, l as int, n as nat),
            !done ==> hull@ + wrap_walk(s, l as int, p as int, (n - steps) as nat) == wrap_walk(
                s,
                l as int,
                l as int,
                n as nat,
            ),
        decreases n - steps,
    {
        let ghost old_h = hull@;
        hull.push(points[p]);
        let mut q: usize = (p + 1) % n;
        let mut r: usize = 0;
        while r < n
            invariant
                n == s.len(),
                s == points@,
                valid_points(s),
                p < n,
                q < n,
                r <= n,
                scan_from(s, p as int, q as int, r as int) == next_vertex(s, p as int),
            decreases n - r,
        {
            if wraps_further(&points[p], &points[r], &points[q]) {
                q = r;
            }
            r += 1;
        }
        steps += 1;
        proof {
            let rest = if s[q as int] == s[l as int] {
                seq![]
            } else {
                wrap_walk(s, l as int, q as int, (n - steps) as nat)
            };
            assert(wrap_walk(s, l as int, p as int, (n - steps + 1) as nat) == seq![s[p as int]]
                + rest);
            assert(hull@ + rest =~= old_h + (seq![s[p as int]] + rest));
        }
        if points[q] == points[l] {
            done = true;
            proof {
                assert(hull@ =~= hull@ + Seq::<Point>::empty());
            }
        } else {
            p = q;
        }
    }
    proof {
        if !done {
            assert(steps == n);
            assert(hull@ =~= hull@ + wrap_walk(s, l as int, p as int, 0));
        }
        let li = l as int;
        if hull@.len() < n {
            lemma_short_walk_closes(s, li, li, n as nat);
        }
        if in_general_position(s) {
            lemma_wrapped_hull(s);
        }
    }
    hull
}

} // verus!
