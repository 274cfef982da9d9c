//! The Kirkpatrick–Seidel hull: the upper hull, the lower hull found as the
//! upper hull of the mirrored points, and the two joined into one boundary.

use vstd::prelude::*;
use crate::point::{Point, turn, valid_point, valid_points};
use crate::bridge::{right_of, lemma_turn_alt};
use vstd::arithmetic::div_mod::{lemma_small_mod, lemma_mod_self_0};
use crate::upper::{is_upper_chain, is_left_top, is_right_top, upper_hull, lemma_chain_increasing};

verus! {

/// `p` reflected in the `x` axis.
pub open spec fn mirror(p: Point) -> Point {
    Point { x: p.x, y: (-p.y) as i64 }
}

/// `p` lies on or right of every edge of the closed polygon `hull`, taken
/// in order and from the last vertex back to the first.
pub open spec fn encloses(hull: Seq<Point>, p: Point) -> bool {
    forall|i: int|
        0 <= i < hull.len() ==> right_of(#[trigger] hull[i], hull[(i + 1) % (hull.len() as int)], p)
}

pub proof fn lemma_mirror_turn(a: Point, b: Point, p: Point)
    requires
        valid_point(a),
        valid_point(b),
        valid_point(p),
    ensures
        turn(mirror(a), mirror(b), mirror(p)) == -turn(a, b, p),
        turn(b, a, p) == -turn(a, b, p),
{
    lemma_turn_alt(a, b, p);
    lemma_turn_alt(b, a, p);
    lemma_turn_alt(mirror(a), mirror(b), mirror(p));
    assert(mirror(a).y == -a.y && mirror(b).y == -b.y && mirror(p).y == -p.y);
    let (ax, ay, bx, by, px, py) = (a.x as int, a.y as int, b.x as int, b.y as int, p.x as int, p.y as int);
    assert((-by + ay) * (px - ax) - (-py + ay) * (bx - ax) == -((by - ay) * (px - ax) - (py - ay) * (bx - ax))) by (nonlinear_arith);
    assert((ay - by) * (px - bx) - (py - by) * (ax - bx) == -((by - ay) * (px - ax) - (py - ay) * (bx - ax))) by (nonlinear_arith);
}

/// A vertical edge pointing down lies right of everything left of it.
pub proof fn lemma_edge_down(top: Point, bot: Point, p: Point)
    requires
        top.x == bot.x,
        bot.y <= top.y,
        p.x <= top.x,
    ensures
        right_of(top, bot, p),
{
    assert((bot.y - top.y) * (p.x - bot.x) >= 0) by (nonlinear_arith)
        requires
            bot.y - top.y <= 0,
            p.x - bot.x <= 0,
    ;
}

/// A vertical edge pointing up lies right of everything right of it.
pub proof fn lemma_edge_up(bot: Point, top: Point, p: Point)
    requires
        top.x == bot.x,
        bot.y <= top.y,
        p.x >= top.x,
    ensures
        right_of(bot, top, p),
{
    assert((top.y - bot.y) * (p.x - top.x) >= 0) by (nonlinear_arith)
        requires
            top.y - bot.y >= 0,
            p.x - top.x >= 0,
    ;
}

/// The points reflected in the `x` axis.
fn mirrored(points: &Vec<Point>) -> (r: Vec<Point>)
    requires
        valid_points(points@),
    ensures
        r@.len() == points@.len(),
        forall|i: int| 0 <= i < r@.len() ==> #[trigger] r@[i] == mirror(points@[i]),
        valid_points(r@),
{
    let mut r: Vec<Point> = Vec::new();
    let mut i: usize = 0;
    while i < points.len()
        invariant
            valid_points(points@),
            i <= points@.len(),
            r@.len() == i,
            forall|k: int| 0 <= k < i ==> #[trigger] r@[k] == mirror(points@[k]),
            valid_points(r@),
        decreases points@.len() - i,
    {
        let p = points[i];
        assert(valid_point(points@[i as int]));
        r.push(Point { x: p.x, y: -p.y });
        i += 1;
    }
    r
}

/// The lower hull of `points`, left to right: from the leftmost point (the
/// lowest of them) to the rightmost point (the lowest of them), with every
/// point on or above each edge.
fn lower_hull(points: &Vec<Point>) -> (h: Vec<Point>)
    requires
        valid_points(points@),
        points@.len() >= 1,
    ensures
        is_lower_chain(h@, points@),
{
    let ghost s = points@;
    let neg = mirrored(points);
    let up = upper_hull(&neg);
    let h = mirrored(&up);
    proof {
        let ms = s.map_values(|p: Point| mirror(p));
        assert(neg@ =~= ms);
        assert forall|i: int| 0 <= i < h@.len() implies s.contains(#[trigger] h@[i]) by {
            assert(neg@.contains(up@[i]));
            let k = choose|k: int| 0 <= k < neg@.len() && neg@[k] == up@[i];
            assert(h@[i] == mirror(mirror(s[k])));
            assert(mirror(mirror(s[k])) == s[k]);
        }
        assert forall|i: int, j: int|
            0 <= i < h@.len() - 1 && 0 <= j < s.len() implies right_of(
                h@[i + 1],
                #[trigger] h@[i],
                #[trigger] s[j],
            ) by {
            assert(right_of(up@[i], up@[i + 1], neg@[j]));
            assert(up@[i] == mirror(h@[i]));
            assert(up@[i + 1] == mirror(h@[i + 1]));
            assert(neg@[j] == mirror(s[j]));
            lemma_mirror_turn(h@[i], h@[i + 1], s[j]);
            lemma_mirror_turn(h@[i + 1], h@[i], s[j]);
        }
        assert forall|i: int| 0 <= i < h@.len() - 1 implies #[trigger] h@[i].x < h@[i + 1].x by {
            assert(up@[i].x < up@[i + 1].x);
        }
        assert(mirror(h@[0]) == up@[0]);
        assert(mirror(h@.last()) == up@.last());
        assert forall|j: int| 0 <= j < s.len() implies h@[0].x < #[trigger] s[j].x || (s[j].x
            == h@[0].x && s[j].y >= h@[0].y) by {
            assert(neg@[j] == mirror(s[j]));
            assert(up@[0].x < neg@[j].x || (neg@[j].x == up@[0].x && neg@[j].y <= up@[0].y));
            assert(valid_point(s[j]));
            let k = choose|k: int| 0 <= k < s.len() && s[k] == h@[0];
            assert(valid_point(s[k]));
        }
        assert forall|j: int| 0 <= j < s.len() implies #[trigger] s[j].x < h@.last().x || (s[j].x
            == h@.last().x && s[j].y >= h@.last().y) by {
            assert(neg@[j] == mirror(s[j]));
            assert(neg@[j].x < up@.last().x || (neg@[j].x == up@.last().x && neg@[j].y
                <= up@.last().y));
            assert(valid_point(s[j]));
            assert(s.contains(h@[h@.len() - 1]));
            let k = choose|k: int| 0 <= k < s.len() && s[k] == h@[h@.len() - 1];
            assert(valid_point(s[k]));
        }
    }
    h
}

/// A chain through two distinct points: both of them when their `x`
/// differ, else the one point that the chain's ends pick.
pub proof fn lemma_two_point_chain(s: Seq<Point>, h: Seq<Point>)
    requires
        s.len() == 2,
        s[0] != s[1],
        h.len() >= 1,
        forall|i: int| 0 <= i < h.len() ==> s.contains(#[trigger] h[i]),
        forall|i: int| 0 <= i < h.len() - 1 ==> #[trigger] h[i].x < h[i + 1].x,
        forall|j: int| 0 <= j < s.len() ==> h[0].x <= #[trigger] s[j].x,
        forall|j: int| 0 <= j < s.len() ==> #[trigger] s[j].x <= h.last().x,
    ensures
        s[0].x != s[1].x ==> h.len() == 2 && h[0].x < h[1].x && (h[0] == s[0] || h[0] == s[1]) && (
        h[1] == s[0] || h[1] == s[1]),
        s[0].x == s[1].x ==> h.len() == 1,
{
    assert(s.contains(h[0]));
    assert(s.contains(h.last()));
    if h.len() >= 3 {
        lemma_chain_increasing(h, 0, 1);
        lemma_chain_increasing(h, 1, 2);
        lemma_chain_increasing(h, 0, 2);
        assert(s.contains(h[1]));
        assert(s.contains(h[2]));
        assert(h[0] == s[0] || h[0] == s[1]);
        assert(h[1] == s[0] || h[1] == s[1]);
        assert(h[2] == s[0] || h[2] == s[1]);
    }
    if h.len() == 2 {
        assert(s.contains(h[1]));
        assert(h[0].x < h[1].x);
    }
    if s[0].x != s[1].x {
        assert(h[0].x <= s[0].x && h[0].x <= s[1].x);
        assert(s[0].x <= h.last().x && s[1].x <= h.last().x);
    }
}

/// `h` is a lower chain of `s`: points of `s` in strictly increasing `x`,
/// from the lowest leftmost point to the lowest rightmost point, with every
/// point of `s` on or above the line of each edge.
pub open spec fn is_lower_chain(h: Seq<Point>, s: Seq<Point>) -> bool {
    &&& h.len() >= 1
    &&& forall|i: int| 0 <= i < h.len() ==> s.contains(#[trigger] h[i])
    &&& forall|i: int| 0 <= i < h.len() - 1 ==> #[trigger] h[i].x < h[i + 1].x
    &&& forall|i: int, j: int|
        0 <= i < h.len() - 1 && 0 <= j < s.len() ==> right_of(h[i + 1], #[trigger] h[i], #[trigger] s[j])
    &&& forall|j: int|
        0 <= j < s.len() ==> h[0].x < #[trigger] s[j].x || (s[j].x == h[0].x && s[j].y >= h[0].y)
    &&& forall|j: int|
        0 <= j < s.len() ==> #[trigger] s[j].x < h.last().x || (s[j].x == h.last().x && s[j].y >= h.last().y)
}

/// Where the lower chain's part that is walked back starts: before its last
/// vertex when the upper chain ends there too.
pub open spec fn lower_end(u: Seq<Point>, l: Seq<Point>) -> int {
    if l.last() == u.last() {
        l.len() - 1
    } else {
        l.len() as int
    }
}

/// Where the lower chain's part that is walked back stops: after its first
/// vertex when the upper chain starts there too.
pub open spec fn lower_start(u: Seq<Point>, l: Seq<Point>) -> int {
    if l[0] == u[0] {
        1
    } else {
        0
    }
}

/// The boundary made of the upper chain `u`, then the lower chain `l` walked
/// back, without the vertices that the two chains share at their ends.
pub open spec fn joined(u: Seq<Point>, l: Seq<Point>, h: Seq<Point>) -> bool {
    let e = lower_end(u, l);
    let b = lower_start(u, l);
    let extra = if e > b { e - b } else { 0 };
    &&& h.len() == u.len() + extra
    &&& forall|i: int| 0 <= i < u.len() ==> #[trigger] h[i] == u[i]
    &&& forall|k: int| 0 <= k < extra ==> #[trigger] h[u.len() + k] == l[e - 1 - k]
}

/// The edge from the last vertex of the joined boundary back to its first
/// keeps every point on its right.
pub proof fn lemma_closing_edge(s: Seq<Point>, u: Seq<Point>, l: Seq<Point>, h: Seq<Point>)
    requires
        is_upper_chain(u, s),
        is_left_top(s, u[0]),
        is_right_top(s, u.last()),
        is_lower_chain(l, s),
        joined(u, l, h),
    ensures
        forall|j: int| 0 <= j < s.len() ==> right_of(h.last(), h[0], #[trigger] s[j]),
{
    let nu = u.len() as int;
    let nl = l.len() as int;
    let e = lower_end(u, l);
    let b = lower_start(u, l);
    let k0 = choose|k: int| 0 <= k < s.len() && s[k] == l[0];
    let j0 = choose|k: int| 0 <= k < s.len() && s[k] == u[0];
    let k1 = choose|k: int| 0 <= k < s.len() && s[k] == l[nl - 1];
    let j1 = choose|k: int| 0 <= k < s.len() && s[k] == u[nu - 1];
    assert(l[0].x == u[0].x && l[0].y <= u[0].y);
    assert(l[nl - 1].x == u[nu - 1].x);
    if nu >= 2 {
        lemma_chain_increasing(u, 0, nu - 1);
    }
    if nl >= 2 {
        lemma_chain_increasing(l, 0, nl - 1);
    }
    assert(h[0] == u[0]);
    assert forall|j: int| 0 <= j < s.len() implies right_of(h.last(), h[0], #[trigger] s[j]) by {
        if e > b {
            assert(h.last() == h[nu + (e - b - 1)]);
            assert(h[nu + (e - b - 1)] == l[e - 1 - (e - b - 1)]);
            assert(h.last() == l[b]);
            if b == 0 {
                lemma_edge_up(l[0], u[0], s[j]);
            } else {
                assert(right_of(l[1], l[0], s[j]));
            }
        } else if nu == 1 {
            assert(h.last() == u[0]);
            assert(turn(u[0], u[0], s[j]) == 0);
        } else {
            assert(h.last() == u[nu - 1]);
            assert(e == 1 && b == 1 && nl == 2);
            assert(right_of(l[1], l[0], s[j]));
        }
    }
}

/// The upper chain, then the lower chain walked back, as one boundary that
/// keeps every point on or right of each edge.
#[verifier::rlimit(60)]
fn join_chains(upper: Vec<Point>, lower: &Vec<Point>, pts: Ghost<Seq<Point>>) -> (hull: Vec<Point>)
    requires
        valid_points(pts@),
        is_upper_chain(upper@, pts@),
        is_left_top(pts@, upper@[0]),
        is_right_top(pts@, upper@.last()),
        is_lower_chain(lower@, pts@),
    ensures
        joined(upper@, lower@, hull@),
        forall|i: int| 0 <= i < hull@.len() ==> pts@.contains(#[trigger] hull@[i]),
        forall|j: int| 0 <= j < pts@.len() ==> encloses(hull@, #[trigger] pts@[j]),
{
    let ghost s = pts@;
    let ghost uu = upper@;
    let ghost ll = lower@;
    let nu = upper.len();
    let nl = lower.len();
    let u0 = upper[0];
    let ulast = upper[nu - 1];
    let hi_end = if lower[nl - 1] == ulast {
        nl - 1
    } else {
        nl
    };
    let lo_start: usize = if lower[0] == u0 {
        1
    } else {
        0
    };
    proof {
        let k1 = choose|k: int| 0 <= k < s.len() && s[k] == ll[nl - 1];
        let j1 = choose|k: int| 0 <= k < s.len() && s[k] == ulast;
        assert(ll[nl - 1].x == ulast.x && ll[nl - 1].y <= ulast.y);
    }
    let mut hull = upper;
    let mut t = hi_end;
    while t > lo_start
        invariant
            s == pts@,
            valid_points(s),
            uu.len() == nu,
            ll.len() == nl,
            lower@ == ll,
            is_lower_chain(ll, s),
            nu >= 1,
            uu[0] == u0,
            uu[nu - 1] == ulast,
            hi_end == lower_end(uu, ll),
            lo_start == lower_start(uu, ll),
            t <= hi_end,
            lo_start <= t || t == hi_end,
            ll[nl - 1].x == ulast.x && ll[nl - 1].y <= ulast.y,
            is_right_top(s, ulast),
            hull@.len() == nu + (hi_end - t),
            forall|i: int| 0 <= i < nu ==> #[trigger] hull@[i] == uu[i],
            forall|k: int| 0 <= k < hi_end - t ==> #[trigger] hull@[nu + k] == ll[hi_end - 1 - k],
            hull@.last() == if t == hi_end {
                ulast
            } else {
                ll[t as int]
            },
            forall|i: int| 0 <= i < hull@.len() ==> s.contains(#[trigger] hull@[i]),
            forall|i: int, j: int|
                0 <= i < hull@.len() - 1 && 0 <= j < s.len() ==> right_of(
                    #[trigger] hull@[i],
                    hull@[i + 1],
                    #[trigger] s[j],
                ),
        decreases t,
    {
        let ghost prev = hull@.last();
        let ghost old_h = hull@;
        t -= 1;
        hull.push(lower[t]);
        proof {
            assert forall|j: int| 0 <= j < s.len() implies right_of(prev, ll[t as int], #[trigger] s[j]) by {
                if t + 1 == hi_end && hi_end == nl {
                    lemma_edge_down(ulast, ll[t as int], s[j]);
                } else {
                    assert(right_of(ll[t + 1], ll[t as int], s[j]));
                }
            }
            assert forall|i: int, j: int|
                0 <= i < hull@.len() - 1 && 0 <= j < s.len() implies right_of(
                    #[trigger] hull@[i],
                    hull@[i + 1],
                    #[trigger] s[j],
                ) by {
                if i < old_h.len() - 1 {
                    assert(hull@[i] == old_h[i] && hull@[i + 1] == old_h[i + 1]);
                } else {
                    assert(hull@[i] == prev);
                    assert(right_of(prev, ll[t as int], s[j]));
                }
            }
            assert forall|i: int| 0 <= i < hull@.len() implies s.contains(#[trigger] hull@[i]) by {
                if i < old_h.len() {
                    assert(hull@[i] == old_h[i]);
                }
            }
            assert forall|i: int| 0 <= i < nu implies #[trigger] hull@[i] == uu[i] by {
                assert(hull@[i] == old_h[i]);
            }
            assert forall|k: int| 0 <= k < hi_end - t implies #[trigger] hull@[nu + k] == ll[hi_end - 1 - k] by {
                if k < hi_end - t - 1 {
                    assert(hull@[nu + k] == old_h[nu + k]);
                }
            }
        }
    }
    proof {
        let h = hull@;
        let n = h.len() as int;
        assert(joined(uu, ll, h));
        lemma_closing_edge(s, uu, ll, h);
        assert forall|j: int| 0 <= j < s.len() implies encloses(h, #[trigger] s[j]) by {
            assert forall|i: int| 0 <= i < n implies right_of(#[trigger] h[i], h[(i + 1) % n], s[j]) by {
                if i < n - 1 {
                    lemma_small_mod((i + 1) as nat, n as nat);
                } else {
                    lemma_mod_self_0(n);
                    assert(h[n - 1] == h.last());
                }
            }
        }
    }
    hull
}

/// The joined boundary of the chains of two distinct points holds both.
pub proof fn lemma_two_points_joined(s: Seq<Point>, u: Seq<Point>, l: Seq<Point>, h: Seq<Point>)
    requires
        s.len() == 2,
        s[0] != s[1],
        is_upper_chain(u, s),
        is_left_top(s, u[0]),
        is_right_top(s, u.last()),
        is_lower_chain(l, s),
        joined(u, l, h),
    ensures
        h.len() == 2,
        h.contains(s[0]),
        h.contains(s[1]),
{
    lemma_two_point_chain(s, u);
    lemma_two_point_chain(s, l);
    let nu = u.len() as int;
    if s[0].x != s[1].x {
        assert(u[0] == l[0] && u[1] == l[1]);
        assert(h[0] == u[0] && h[1] == u[1]);
    } else {
        assert(u[0].y >= s[0].y && u[0].y >= s[1].y);
        assert(l[0].y <= s[0].y && l[0].y <= s[1].y);
        assert(l[0] != u[0]);
        assert(h[nu + 0] == l[lower_end(u, l) - 1 - 0]);
        assert(h[0] == u[0] && h[1] == l[0]);
    }
    assert(h.contains(h[0]) && h.contains(h[1]));
}

/// The joined boundary of the chains of coincident points is that point.
pub proof fn lemma_coincident_joined(s: Seq<Point>, u: Seq<Point>, l: Seq<Point>, h: Seq<Point>)
    requires
        s.len() > 0,
        forall|j: int| 0 <= j < s.len() ==> #[trigger] s[j] == s[0],
        is_upper_chain(u, s),
        is_lower_chain(l, s),
        joined(u, l, h),
    ensures
        h == seq![s[0]],
{
    if u.len() >= 2 {
        assert(u[0].x < u[1].x);
        let a = choose|k: int| 0 <= k < s.len() && s[k] == u[0];
        let b = choose|k: int| 0 <= k < s.len() && s[k] == u[1];
    }
    if l.len() >= 2 {
        assert(l[0].x < l[1].x);
        let a = choose|k: int| 0 <= k < s.len() && s[k] == l[0];
        let b = choose|k: int| 0 <= k < s.len() && s[k] == l[1];
    }
    let a = choose|k: int| 0 <= k < s.len() && s[k] == u[0];
    let b = choose|k: int| 0 <= k < s.len() && s[k] == l[0];
    assert(h =~= seq![s[0]]);
}

/// A joined boundary of one vertex comes only from points that all coincide
/// with it.
pub proof fn lemma_single_vertex(s: Seq<Point>, u: Seq<Point>, l: Seq<Point>, h: Seq<Point>)
    requires
        is_upper_chain(u, s),
        is_left_top(s, u[0]),
        is_right_top(s, u.last()),
        is_lower_chain(l, s),
        joined(u, l, h),
        h.len() == 1,
    ensures
        forall|j: int| 0 <= j < s.len() ==> #[trigger] s[j] == h[0],
{
    assert(u.len() == 1);
    assert(h[0] == u[0]);
    assert(u.last() == u[0]);
    if l.len() >= 2 {
        assert(l[0].x < l[1].x);
        let a = choose|k: int| 0 <= k < s.len() && s[k] == l[0];
        let b = choose|k: int| 0 <= k < s.len() && s[k] == l[1];
    }
    assert(l.len() == 1);
    assert(l.last() == l[0]);
    assert(l[0] == u[0]);
    assert forall|j: int| 0 <= j < s.len() implies #[trigger] s[j] == h[0] by {
        assert(u[0].x <= s[j].x);
        assert(s[j].x <= u[0].x);
    }
}

/// The convex hull of `points` by the method of Kirkpatrick and Seidel, in
/// clockwise order from the leftmost point (the highest of them): the upper
/// hull left to right, then the lower hull right to left. A vertex that the
/// two hulls share at either end appears once.
///
/// No points give an empty hull; points that all coincide give that one
/// point; two distinct points give both.
pub fn kirk_patrick_seidel(points: Vec<Point>) -> (hull: Vec<Point>)
    requires
        valid_points(points@),
    ensures
        points@.len() == 0 ==> hull@.len() == 0,
        points@.len() > 0 ==> hull@.len() >= 1 && is_left_top(points@, hull@[0]),
        forall|i: int| 0 <= i < hull@.len() ==> points@.contains(#[trigger] hull@[i]),
        forall|j: int| 0 <= j < points@.len() ==> encloses(hull@, #[trigger] points@[j]),
        points@.len() > 0 && (forall|j: int| 0 <= j < points@.len() ==> #[trigger] points@[j]
            == points@[0]) ==> hull@ == seq![points@[0]],
        points@.len() == 2 && points@[0] != points@[1] ==> hull@.len() == 2 && hull@.contains(
            points@[0],
        ) && hull@.contains(points@[1]),
        hull@.len() == 1 ==> forall|j: int| 0 <= j < points@.len() ==> #[trigger] points@[j]
            == hull@[0],
{
    let ghost s = points@;
    if points.len() == 0 {
        return Vec::new();
    }
    let upper = upper_hull(&points);
    let lower = lower_hull(&points);
    let ghost uu = upper@;
    let ghost ll = lower@;
    let hull = join_chains(upper, &lower, Ghost(points@));
    proof {
        assert(hull@[0] == uu[0]);
        if forall|j: int| 0 <= j < s.len() ==> #[trigger] s[j] == s[0] {
            lemma_coincident_joined(s, uu, ll, hull@);
        }
        if s.len() == 2 && s[0] != s[1] {
            lemma_two_points_joined(s, uu, ll, hull@);
        }
        if hull@.len() == 1 {
            lemma_single_vertex(s, uu, ll, hull@);
        }
    }
    hull
}

} // verus!
