//! The bridge finder: the upper tangent of a point set that crosses a given
//! vertical line, found by prune and search.

use vstd::prelude::*;
use crate::point::{COORD_LIMIT, Point, lemma_mul_bounded, turn, valid_point, valid_points};
use crate::select::{Ranked, select_median};

verus! {

/// The slope `dy / dx` of a segment, with `dx > 0` for every slope that the
/// bridge finder builds.
#[derive(Clone, Copy, Debug, PartialEq, Eq, Structural)]
pub struct Slope {
    pub dy: i64,
    pub dx: i64,
}

impl Ranked for Slope {
    open spec fn rank_le(self, other: Slope) -> bool {
        self.dy * other.dx <= other.dy * self.dx
    }

    fn le(&self, other: &Slope) -> (r: bool) {
        proof {
            let m: int = 0x8000_0000_0000_0000;
            lemma_mul_bounded(self.dy as int, other.dx as int, m, m);
            lemma_mul_bounded(other.dy as int, self.dx as int, m, m);
        }
        (self.dy as i128) * (other.dx as i128) <= (other.dy as i128) * (self.dx as i128)
    }
}

/// `p` lies on the directed line from `a` to `b` or to its right. For
/// `a.x < b.x` that is: on or below the line through `a` and `b`.
pub open spec fn right_of(a: Point, b: Point, p: Point) -> bool {
    turn(a, b, p) >= 0
}

/// The height of `p` above the line of slope `k` through the origin, scaled
/// by `k.dx`.
pub open spec fn height(k: Slope, p: Point) -> int {
    k.dx * p.y - k.dy * p.x
}

/// `c` stands in for `p` once `p` is pruned: `c` is above `p` on the same
/// vertical, or the pair `p`, `c` leans at least as steeply as `k` in the
/// direction of the side that is kept.
pub open spec fn covers(c: Point, p: Point, k: Slope, keep_right: bool) -> bool {
    (c.x == p.x && c.y >= p.y) || (keep_right && p.x < c.x && k.dy * (c.x - p.x) <= (c.y - p.y)
        * k.dx) || (!keep_right && c.x < p.x && (p.y - c.y) * k.dx <= k.dy * (p.x - c.x))
}

pub proof fn lemma_turn_alt(a: Point, b: Point, p: Point)
    ensures
        turn(a, b, p) == (b.y - a.y) * (p.x - a.x) - (p.y - a.y) * (b.x - a.x),
{
    let (ax, ay, bx, by, px, py) = (a.x as int, a.y as int, b.x as int, b.y as int, p.x as int, p.y as int);
    assert((by - ay) * (px - bx) - (bx - ax) * (py - by) == (by - ay) * (px - ax) - (py - ay) * (bx
        - ax)) by (nonlinear_arith);
}

/// Two points of greatest height for slope `k` span a line with every point on
/// or below it.
pub proof fn lemma_support_line(k: Slope, l: Point, r: Point, p: Point)
    requires
        k.dx > 0,
        l.x < r.x,
        height(k, l) == height(k, r),
        height(k, p) <= height(k, l),
    ensures
        right_of(l, r, p),
{
    lemma_turn_alt(l, r, p);
    let a = r.y - l.y;
    let b = p.x - l.x;
    let c = p.y - l.y;
    let d = r.x - l.x;
    let dx = k.dx as int;
    let dy = k.dy as int;
    assert(dx * a == dy * d) by (nonlinear_arith)
        requires
            dx * r.y - dy * r.x == dx * l.y - dy * l.x,
            a == r.y - l.y,
            d == r.x - l.x,
    ;
    assert(dx * c <= dy * b) by (nonlinear_arith)
        requires
            dx * p.y - dy * p.x <= dx * l.y - dy * l.x,
            c == p.y - l.y,
            b == p.x - l.x,
    ;
    assert(dx * (a * b - c * d) == d * (dy * b - dx * c)) by (nonlinear_arith)
        requires
            dx * a == dy * d,
    ;
    assert(d * (dy * b - dx * c) >= 0) by (nonlinear_arith)
        requires
            d > 0,
            dx * c <= dy * b,
    ;
    assert(a * b - c * d >= 0) by (nonlinear_arith)
        requires
            dx > 0,
            dx * (a * b - c * d) >= 0,
    ;
}

/// Where a point `t` of greatest height for `k` lies left of `r` and on or
/// below the line `l`-`r`, that line is no steeper than `k`.
pub proof fn lemma_bridge_not_steeper(k: Slope, l: Point, r: Point, t: Point)
    requires
        k.dx > 0,
        l.x < r.x,
        t.x < r.x,
        right_of(l, r, t),
        height(k, r) <= height(k, t),
    ensures
        k.dx * (r.y - l.y) <= k.dy * (r.x - l.x),
{
    lemma_turn_alt(l, r, t);
    let u = r.x - l.x;
    let w = r.y - l.y;
    let dd = r.x - t.x;
    let dx = k.dx as int;
    let dy = k.dy as int;
    let e = t.y - r.y;
    // u * e <= -w * dd, and dx * e >= -dy * dd
    assert(u * e <= -w * dd) by (nonlinear_arith)
        requires
            w * (t.x - l.x) - (t.y - l.y) * u >= 0,
            u == r.x - l.x,
            w == r.y - l.y,
            dd == r.x - t.x,
            e == t.y - r.y,
    ;
    assert(dx * e >= -dy * dd) by (nonlinear_arith)
        requires
            dx * r.y - dy * r.x <= dx * t.y - dy * t.x,
            e == t.y - r.y,
            dd == r.x - t.x,
    ;
    assert(-u * dy * dd <= -dx * w * dd) by (nonlinear_arith)
        requires
            u * e <= -w * dd,
            dx * e >= -dy * dd,
            u > 0,
            dx > 0,
    ;
    assert(dx * w <= dy * u) by (nonlinear_arith)
        requires
            -u * dy * dd <= -dx * w * dd,
            dd > 0,
    ;
}

/// Where a point `t` of greatest height for `k` lies right of `l` and on or
/// below the line `l`-`r`, that line is at least as steep as `k`.
pub proof fn lemma_bridge_not_flatter(k: Slope, l: Point, r: Point, t: Point)
    requires
        k.dx > 0,
        l.x < r.x,
        l.x < t.x,
        right_of(l, r, t),
        height(k, l) <= height(k, t),
    ensures
        k.dy * (r.x - l.x) <= k.dx * (r.y - l.y),
{
    lemma_turn_alt(l, r, t);
    let u = r.x - l.x;
    let w = r.y - l.y;
    let dd = t.x - l.x;
    let dx = k.dx as int;
    let dy = k.dy as int;
    let e = t.y - l.y;
    assert(e * u <= w * dd);
    assert(dx * e >= dy * dd) by (nonlinear_arith)
        requires
            dx * l.y - dy * l.x <= dx * t.y - dy * t.x,
            e == t.y - l.y,
            dd == t.x - l.x,
    ;
    assert(u * dy * dd <= dx * w * dd) by (nonlinear_arith)
        requires
            e * u <= w * dd,
            dx * e >= dy * dd,
            u > 0,
            dx > 0,
    ;
    assert(dy * u <= dx * w) by (nonlinear_arith)
        requires
            u * dy * dd <= dx * w * dd,
            dd > 0,
    ;
}

/// A covered point lies below any line under which its cover lies, provided
/// the line's slope is on the right side of `k`.
pub proof fn lemma_covered_below(k: Slope, keep_right: bool, l: Point, r: Point, c: Point, p: Point)
    requires
        k.dx > 0,
        l.x < r.x,
        right_of(l, r, c),
        covers(c, p, k, keep_right),
        keep_right ==> k.dx * (r.y - l.y) <= k.dy * (r.x - l.x),
        !keep_right ==> k.dy * (r.x - l.x) <= k.dx * (r.y - l.y),
    ensures
        right_of(l, r, p),
{
    lemma_turn_alt(l, r, c);
    lemma_turn_alt(l, r, p);
    let u = r.x - l.x;
    let w = r.y - l.y;
    let dx = k.dx as int;
    let dy = k.dy as int;
    let tc = w * (c.x - l.x) - (c.y - l.y) * u;
    let tp = w * (p.x - l.x) - (p.y - l.y) * u;
    // tp - tc == u * (c.y - p.y) - w * (c.x - p.x)
    assert(tp - tc == u * (c.y - p.y) - w * (c.x - p.x)) by (nonlinear_arith)
        requires
            tc == w * (c.x - l.x) - (c.y - l.y) * u,
            tp == w * (p.x - l.x) - (p.y - l.y) * u,
    ;
    let gx = c.x - p.x;
    let gy = c.y - p.y;
    assert(tc >= 0);
    if c.x == p.x && c.y >= p.y {
        assert(u * gy - w * gx >= 0) by (nonlinear_arith)
            requires
                u > 0,
                gy >= 0,
                gx == 0,
        ;
    } else if keep_right {
        assert(u * gy - w * gx >= 0) by (nonlinear_arith)
            requires
                gx > 0,
                dy * gx <= gy * dx,
                dx * w <= dy * u,
                u > 0,
                dx > 0,
        ;
    } else {
        assert(u * gy - w * gx >= 0) by (nonlinear_arith)
            requires
                gx < 0,
                (-gy) * dx <= dy * (-gx),
                dy * u <= dx * w,
                u > 0,
                dx > 0,
        ;
    }
}

/// A slope between two valid points that are not on one vertical.
pub open spec fn valid_slope(k: Slope) -> bool {
    0 < k.dx <= 2 * COORD_LIMIT && -2 * COORD_LIMIT <= k.dy <= 2 * COORD_LIMIT
}

/// Some point of `s` lies on or left of the vertical line `x = a`, and some
/// point lies strictly right of it.
pub open spec fn straddles(s: Seq<Point>, a: int) -> bool {
    (exists|i: int| 0 <= i < s.len() && #[trigger] s[i].x <= a) && (exists|j: int|
        0 <= j < s.len() && #[trigger] s[j].x > a)
}

/// `(l, r)` is an upper bridge of `s` over `x = a`: both are points of `s`,
/// `l` on or left of the line, `r` right of it, and no point of `s` lies
/// above the line through them.
pub open spec fn is_bridge(s: Seq<Point>, a: int, l: Point, r: Point) -> bool {
    &&& s.contains(l)
    &&& s.contains(r)
    &&& l.x <= a < r.x
    &&& forall|i: int| 0 <= i < s.len() ==> right_of(l, r, #[trigger] s[i])
}

/// A pair of points ordered by `x`, with the slope between them.
pub open spec fn slope_pair_ok(pr: (Point, Point), k: Slope) -> bool {
    &&& pr.0.x < pr.1.x
    &&& k.dx == pr.1.x - pr.0.x
    &&& k.dy == pr.1.y - pr.0.y
    &&& valid_slope(k)
}

/// How a point of the input is accounted for after pairing: either by a
/// candidate on its vertical that is at least as high, or as one end of a pair.
pub open spec fn tag_ok(
    p: Point,
    tag: (bool, int),
    cands: Seq<Point>,
    pairs: Seq<(Point, Point)>,
) -> bool {
    if tag.0 {
        0 <= tag.1 < cands.len() && cands[tag.1].x == p.x && cands[tag.1].y >= p.y
    } else {
        0 <= tag.1 < pairs.len() && (pairs[tag.1].0 == p || pairs[tag.1].1 == p)
    }
}

pub proof fn lemma_below_vertical(l: Point, r: Point, c: Point, p: Point)
    requires
        l.x < r.x,
        right_of(l, r, c),
        c.x == p.x,
        c.y >= p.y,
    ensures
        right_of(l, r, p),
{
    lemma_turn_alt(l, r, c);
    lemma_turn_alt(l, r, p);
    let u = r.x - l.x;
    assert((p.y - l.y) * u <= (c.y - l.y) * u) by (nonlinear_arith)
        requires
            u > 0,
            p.y <= c.y,
    ;
}

pub proof fn lemma_bridge_ends(l: Point, r: Point)
    ensures
        right_of(l, r, l),
        right_of(l, r, r),
{
    lemma_turn_alt(l, r, l);
    lemma_turn_alt(l, r, r);
    assert((r.y - l.y) * (r.x - l.x) - (r.y - l.y) * (r.x - l.x) == 0);
}

/// The point of greatest height that is furthest towards the kept side
/// covers nothing but itself.
pub proof fn lemma_top_covers_itself(k: Slope, keep_right: bool, c: Point, t: Point)
    requires
        k.dx > 0,
        covers(c, t, k, keep_right),
        height(k, c) <= height(k, t),
        height(k, c) == height(k, t) ==> (if keep_right { c.x <= t.x } else { t.x <= c.x }),
    ensures
        c == t,
{
    let dx = k.dx as int;
    let dy = k.dy as int;
    if c.x == t.x && c.y >= t.y {
        assert(c.y <= t.y) by (nonlinear_arith)
            requires
                dx * c.y - dy * c.x <= dx * t.y - dy * t.x,
                c.x == t.x,
                dx > 0,
        ;
    } else if keep_right {
        assert(height(k, c) >= height(k, t)) by (nonlinear_arith)
            requires
                dy * (c.x - t.x) <= (c.y - t.y) * dx,
                height(k, c) == dx * c.y - dy * c.x,
                height(k, t) == dx * t.y - dy * t.x,
        ;
    } else {
        assert(height(k, c) >= height(k, t)) by (nonlinear_arith)
            requires
                (t.y - c.y) * dx <= dy * (t.x - c.x),
                height(k, c) == dx * c.y - dy * c.x,
                height(k, t) == dx * t.y - dy * t.x,
        ;
    }
}

fn height_of(k: &Slope, p: &Point) -> (h: i128)
    requires
        valid_slope(*k),
        valid_point(*p),
    ensures
        h == height(*k, *p),
{
    proof {
        lemma_mul_bounded(k.dx as int, p.y as int, 2 * COORD_LIMIT, COORD_LIMIT as int);
        lemma_mul_bounded(k.dy as int, p.x as int, 2 * COORD_LIMIT, COORD_LIMIT as int);
    }
    (k.dx as i128) * (p.y as i128) - (k.dy as i128) * (p.x as i128)
}

/// Pairs up consecutive points. The higher point of a vertical pair, and a
/// point left without a partner, become candidates; every other pair is kept
/// with its slope.
fn pair_up(points: &Vec<Point>) -> (res: (
    Vec<Point>,
    Vec<(Point, Point)>,
    Vec<Slope>,
    Ghost<Seq<(bool, int)>>,
))
    requires
        valid_points(points@),
        points@.len() >= 3,
    ensures
        ({
            let (cands, pairs, slopes, tags) = res;
            &&& pairs@.len() == slopes@.len()
            &&& cands@.len() + 2 * pairs@.len() <= points@.len()
            &&& pairs@.len() == 0 ==> cands@.len() < points@.len()
            &&& valid_points(cands@)
            &&& forall|c: int| 0 <= c < cands@.len() ==> points@.contains(#[trigger] cands@[c])
            &&& forall|j: int|
                0 <= j < pairs@.len() ==> slope_pair_ok(#[trigger] pairs@[j], slopes@[j])
                    && points@.contains(pairs@[j].0) && points@.contains(pairs@[j].1)
            &&& tags@.len() == points@.len()
            &&& forall|t: int|
                0 <= t < points@.len() ==> tag_ok(#[trigger] points@[t], tags@[t], cands@, pairs@)
        }),
{
    let n = points.len();
    let mut cands: Vec<Point> = Vec::new();
    let mut pairs: Vec<(Point, Point)> = Vec::new();
    let mut slopes: Vec<Slope> = Vec::new();
    let ghost mut tags: Seq<(bool, int)> = Seq::empty();
    let mut i: usize = 0;
    while i + 1 < n
        invariant
            n == points@.len(),
            n >= 3,
            valid_points(points@),
            i <= n,
            tags.len() == i,
            cands@.len() * 2 + 2 * pairs@.len() == i,
            pairs@.len() == slopes@.len(),
            valid_points(cands@),
            forall|c: int| 0 <= c < cands@.len() ==> points@.contains(#[trigger] cands@[c]),
            forall|j: int|
                0 <= j < pairs@.len() ==> slope_pair_ok(#[trigger] pairs@[j], slopes@[j])
                    && points@.contains(pairs@[j].0) && points@.contains(pairs@[j].1),
            forall|t: int| 0 <= t < i ==> tag_ok(#[trigger] points@[t], tags[t], cands@, pairs@),
        decreases n - i,
    {
        let p = points[i];
        let q = points[i + 1];
        assert(points@.contains(p) && points@.contains(q)) by {
            assert(points@[i as int] == p);
            assert(points@[i + 1] == q);
        }
        assert(valid_point(p) && valid_point(q)) by {
            assert(points@[i as int] == p);
            assert(points@[i + 1] == q);
        }
        let ghost old_cands = cands@;
        let ghost old_pairs = pairs@;
        if p.x == q.x {
            let w = if p.y > q.y {
                p
            } else {
                q
            };
            cands.push(w);
            proof {
                let idx = cands@.len() - 1;
                tags = tags.push((true, idx)).push((true, idx));
                assert forall|t: int| 0 <= t < i + 2 implies tag_ok(
                    #[trigger] points@[t],
                    tags[t],
                    cands@,
                    pairs@,
                ) by {
                    if t < i {
                        assert(tag_ok(points@[t], tags[t], old_cands, pairs@));
                        if tags[t].0 {
                            assert(cands@[tags[t].1] == old_cands[tags[t].1]);
                        }
                    }
                }
                assert forall|c: int| 0 <= c < cands@.len() implies points@.contains(
                    #[trigger] cands@[c],
                ) by {
                    if c < old_cands.len() {
                        assert(cands@[c] == old_cands[c]);
                    }
                }
            }
        } else {
            let (lo, hi) = if p.x < q.x {
                (p, q)
            } else {
                (q, p)
            };
            let k = Slope { dy: hi.y - lo.y, dx: hi.x - lo.x };
            pairs.push((lo, hi));
            slopes.push(k);
            proof {
                let idx = pairs@.len() - 1;
                tags = tags.push((false, idx)).push((false, idx));
                assert forall|t: int| 0 <= t < i + 2 implies tag_ok(
                    #[trigger] points@[t],
                    tags[t],
                    cands@,
                    pairs@,
                ) by {
                    if t < i {
                        assert(tag_ok(points@[t], tags[t], cands@, old_pairs));
                        if !tags[t].0 {
                            assert(pairs@[tags[t].1] == old_pairs[tags[t].1]);
                        }
                    }
                }
            }
        }
        i += 2;
    }
    if i < n {
        let p = points[i];
        assert(points@[i as int] == p);
        let ghost old_cands = cands@;
        cands.push(p);
        proof {
            let idx = cands@.len() - 1;
            tags = tags.push((true, idx));
            assert forall|t: int| 0 <= t < n implies tag_ok(
                #[trigger] points@[t],
                tags[t],
                cands@,
                pairs@,
            ) by {
                if t < i {
                    assert(tag_ok(points@[t], tags[t], old_cands, pairs@));
                    if tags[t].0 {
                        assert(cands@[tags[t].1] == old_cands[tags[t].1]);
                    }
                }
            }
            assert forall|c: int| 0 <= c < cands@.len() implies points@.contains(
                #[trigger] cands@[c],
            ) by {
                if c < old_cands.len() {
                    assert(cands@[c] == old_cands[c]);
                }
            }
        }
    }
    (cands, pairs, slopes, Ghost(tags))
}

/// Indices of the leftmost and the rightmost point of greatest height for `k`.
fn highest(points: &Vec<Point>, k: &Slope) -> (res: (usize, usize))
    requires
        valid_points(points@),
        points@.len() > 0,
        valid_slope(*k),
    ensures
        res.0 < points@.len(),
        res.1 < points@.len(),
        height(*k, points@[res.0 as int]) == height(*k, points@[res.1 as int]),
        forall|t: int|
            0 <= t < points@.len() ==> height(*k, #[trigger] points@[t]) <= height(
                *k,
                points@[res.0 as int],
            ),
        forall|t: int|
            0 <= t < points@.len() && height(*k, #[trigger] points@[t]) == height(
                *k,
                points@[res.0 as int],
            ) ==> points@[res.0 as int].x <= points@[t].x <= points@[res.1 as int].x,
{
    let n = points.len();
    let mut best = height_of(k, &points[0]);
    let mut ki: usize = 0;
    let mut mi: usize = 0;
    let mut t: usize = 1;
    while t < n
        invariant
            n == points@.len(),
            valid_points(points@),
            valid_slope(*k),
            1 <= t <= n,
            ki < t,
            mi < t,
            best == height(*k, points@[ki as int]),
            best == height(*k, points@[mi as int]),
            forall|s: int| 0 <= s < t ==> height(*k, #[trigger] points@[s]) <= best,
            forall|s: int|
                0 <= s < t && height(*k, #[trigger] points@[s]) == best ==> points@[ki as int].x
                    <= points@[s].x <= points@[mi as int].x,
        decreases n - t,
    {
        let h = height_of(k, &points[t]);
        if h > best {
            best = h;
            ki = t;
            mi = t;
        } else if h == best {
            if points[t].x < points[ki].x {
                ki = t;
            }
            if points[t].x > points[mi].x {
                mi = t;
            }
        }
        t += 1;
    }
    (ki, mi)
}

/// Keeps the ends of the pairs that can still be on the bridge: with
/// `keep_right` the right end of every pair, and the left end too where the
/// pair is flatter than `k`; otherwise the left end of every pair, and the
/// right end too where the pair is steeper than `k`.
fn prune(
    pairs: &Vec<(Point, Point)>,
    slopes: &Vec<Slope>,
    k: &Slope,
    keep_right: bool,
    cands: &mut Vec<Point>,
    pool: Ghost<Seq<Point>>,
) -> (wit: Ghost<(Seq<int>, Seq<int>)>)
    requires
        forall|j: int|
            0 <= j < pairs@.len() ==> pool@.contains(#[trigger] pairs@[j].0) && pool@.contains(
                pairs@[j].1,
            ),
        forall|c: int| 0 <= c < old(cands)@.len() ==> pool@.contains(#[trigger] old(cands)@[c]),
        pairs@.len() == slopes@.len(),
        forall|j: int| 0 <= j < pairs@.len() ==> slope_pair_ok(#[trigger] pairs@[j], slopes@[j]),
        slopes@.contains(*k),
    ensures
        final(cands)@.len() + 1 <= old(cands)@.len() + 2 * pairs@.len(),
        old(cands)@.len() <= final(cands)@.len(),
        forall|c: int| 0 <= c < old(cands)@.len() ==> #[trigger] final(cands)@[c] == old(cands)@[c],
        forall|c: int| 0 <= c < final(cands)@.len() ==> pool@.contains(#[trigger] final(cands)@[c]),
        wit@.0.len() == pairs@.len(),
        wit@.1.len() == pairs@.len(),
        forall|j: int|
            0 <= j < pairs@.len() ==> {
                &&& 0 <= #[trigger] wit@.0[j] < final(cands)@.len()
                &&& covers(final(cands)@[wit@.0[j]], pairs@[j].0, *k, keep_right)
                &&& 0 <= wit@.1[j] < final(cands)@.len()
                &&& covers(final(cands)@[wit@.1[j]], pairs@[j].1, *k, keep_right)
            },
{
    let ghost c0 = cands@;
    let ghost j0 = choose|j: int| 0 <= j < slopes@.len() && slopes@[j] == *k;
    let ghost mut lw: Seq<int> = Seq::empty();
    let ghost mut rw: Seq<int> = Seq::empty();
    let mut j: usize = 0;
    while j < pairs.len()
        invariant
            pairs@.len() == slopes@.len(),
            forall|j: int|
                0 <= j < pairs@.len() ==> slope_pair_ok(#[trigger] pairs@[j], slopes@[j]),
            0 <= j0 < slopes@.len(),
            slopes@[j0] == *k,
            c0 == old(cands)@,
            j <= pairs@.len(),
            c0.len() <= cands@.len(),
            cands@.len() + (if j > j0 { 1int } else { 0 }) <= c0.len() + 2 * j,
            forall|c: int| 0 <= c < c0.len() ==> #[trigger] cands@[c] == c0[c],
            forall|j: int|
                0 <= j < pairs@.len() ==> pool@.contains(#[trigger] pairs@[j].0) && pool@.contains(
                    pairs@[j].1,
                ),
            forall|c: int| 0 <= c < cands@.len() ==> pool@.contains(#[trigger] cands@[c]),
            lw.len() == j,
            rw.len() == j,
            forall|i: int|
                0 <= i < j ==> {
                    &&& 0 <= #[trigger] lw[i] < cands@.len()
                    &&& covers(cands@[lw[i]], pairs@[i].0, *k, keep_right)
                    &&& 0 <= rw[i] < cands@.len()
                    &&& covers(cands@[rw[i]], pairs@[i].1, *k, keep_right)
                },
        decreases pairs@.len() - j,
    {
        let (lo, hi) = pairs[j];
        let s = slopes[j];
        assert(pairs@[j as int] == (lo, hi));
        assert(slope_pair_ok(pairs@[j as int], slopes@[j as int]));
        let s_le_k = s.le(k);
        let k_le_s = k.le(&s);
        let ghost before = cands@;
        if keep_right {
            cands.push(hi);
            proof {
                rw = rw.push(cands@.len() - 1);
            }
            if s_le_k && !k_le_s {
                cands.push(lo);
                proof {
                    lw = lw.push(cands@.len() - 1);
                }
            } else {
                proof {
                    lw = lw.push(before.len() as int);
                }
            }
        } else {
            cands.push(lo);
            proof {
                lw = lw.push(cands@.len() - 1);
            }
            if k_le_s && !s_le_k {
                cands.push(hi);
                proof {
                    rw = rw.push(cands@.len() - 1);
                }
            } else {
                proof {
                    rw = rw.push(before.len() as int);
                }
            }
        }
        proof {
            assert forall|c: int| 0 <= c < before.len() implies #[trigger] cands@[c]
                == before[c] by {}
            assert forall|c: int| 0 <= c < cands@.len() implies pool@.contains(
                #[trigger] cands@[c],
            ) by {
                if c < before.len() {
                    assert(cands@[c] == before[c]);
                }
            }
            assert forall|i: int| 0 <= i < j + 1 implies {
                &&& 0 <= #[trigger] lw[i] < cands@.len()
                &&& covers(cands@[lw[i]], pairs@[i].0, *k, keep_right)
                &&& 0 <= rw[i] < cands@.len()
                &&& covers(cands@[rw[i]], pairs@[i].1, *k, keep_right)
            } by {
                if i < j {
                    assert(cands@[lw[i]] == before[lw[i]]);
                    assert(cands@[rw[i]] == before[rw[i]]);
                } else {
                    assert(pairs@[i] == (lo, hi));
                    assert(k.rank_le(s) || s.rank_le(*k));
                }
            }
        }
        j += 1;
    }
    Ghost((lw, rw))
}

/// The candidate that stands in for the input point `p`, given how pairing
/// tagged it and which candidates pruning kept for each pair.
pub open spec fn cover_of(
    tag: (bool, int),
    p: Point,
    pairs: Seq<(Point, Point)>,
    wit: (Seq<int>, Seq<int>),
) -> int {
    if tag.0 {
        tag.1
    } else if pairs[tag.1].0 == p {
        wit.0[tag.1]
    } else {
        wit.1[tag.1]
    }
}

/// Some candidate stands in for `p`.
pub open spec fn has_cover(cands: Seq<Point>, p: Point, k: Slope, keep_right: bool) -> bool {
    exists|c: int| 0 <= c < cands.len() && covers(#[trigger] cands[c], p, k, keep_right)
}

/// Every point of `s` has a candidate that stands in for it.
pub open spec fn all_covered(s: Seq<Point>, cands: Seq<Point>, k: Slope, keep_right: bool) -> bool {
    forall|i: int| 0 <= i < s.len() ==> has_cover(cands, #[trigger] s[i], k, keep_right)
}

/// `t` is a point of `s` of greatest height for `k`, and the furthest such
/// point towards the kept side.
pub open spec fn is_top(s: Seq<Point>, k: Slope, t: Point, keep_right: bool) -> bool {
    &&& s.contains(t)
    &&& forall|i: int| 0 <= i < s.len() ==> height(k, #[trigger] s[i]) <= height(k, t)
    &&& forall|i: int|
        0 <= i < s.len() && height(k, #[trigger] s[i]) == height(k, t) ==> if keep_right {
            s[i].x <= t.x
        } else {
            t.x <= s[i].x
        }
}

pub open spec fn subset_of(cands: Seq<Point>, s: Seq<Point>) -> bool {
    forall|c: int| 0 <= c < cands.len() ==> s.contains(#[trigger] cands[c])
}

/// The points of `s` on the line through `l` and `r` lie between them: the
/// ends are the outermost points on that line.
pub open spec fn outermost(s: Seq<Point>, l: Point, r: Point) -> bool {
    forall|i: int| 0 <= i < s.len() && turn(l, r, #[trigger] s[i]) == 0 ==> l.x <= s[i].x <= r.x
}

/// On a line of slope `k`, the turn towards `p` measures how far `p` lies
/// below the line in height.
pub proof fn lemma_slope_line(k: Slope, l: Point, r: Point, p: Point)
    requires
        k.dx > 0,
        l.x < r.x,
        k.dx * (r.y - l.y) == k.dy * (r.x - l.x),
    ensures
        k.dx * turn(l, r, p) == (r.x - l.x) * (height(k, l) - height(k, p)),
        height(k, l) == height(k, r),
{
    lemma_turn_alt(l, r, p);
    let dx = k.dx as int;
    let dy = k.dy as int;
    let u = r.x - l.x;
    let w = r.y - l.y;
    assert(dx * (w * (p.x - l.x) - (p.y - l.y) * u) == u * ((dx * l.y - dy * l.x) - (dx * p.y - dy
        * p.x))) by (nonlinear_arith)
        requires
            dx * w == dy * u,
    ;
    assert(dx * r.y - dy * r.x == dx * l.y - dy * l.x) by (nonlinear_arith)
        requires
            dx * w == dy * u,
            w == r.y - l.y,
            u == r.x - l.x,
    ;
}

/// A point on the line, covered from above on its vertical, has its cover on
/// the line too.
pub proof fn lemma_on_line_vertical(l: Point, r: Point, c: Point, p: Point)
    requires
        l.x < r.x,
        right_of(l, r, c),
        c.x == p.x,
        c.y >= p.y,
        turn(l, r, p) == 0,
    ensures
        turn(l, r, c) == 0,
{
    lemma_turn_alt(l, r, c);
    lemma_turn_alt(l, r, p);
    let u = r.x - l.x;
    assert((p.y - l.y) * u <= (c.y - l.y) * u) by (nonlinear_arith)
        requires
            u > 0,
            p.y <= c.y,
    ;
}

/// A point on a line flatter (or steeper) than `k` cannot be covered by a
/// pair: only a cover on its own vertical, on the line as well, is left.
pub proof fn lemma_covered_on_line(k: Slope, keep_right: bool, l: Point, r: Point, c: Point, p: Point)
    requires
        k.dx > 0,
        l.x < r.x,
        right_of(l, r, c),
        covers(c, p, k, keep_right),
        turn(l, r, p) == 0,
        keep_right ==> k.dx * (r.y - l.y) < k.dy * (r.x - l.x),
        !keep_right ==> k.dy * (r.x - l.x) < k.dx * (r.y - l.y),
    ensures
        c.x == p.x,
        turn(l, r, c) == 0,
{
    lemma_turn_alt(l, r, c);
    lemma_turn_alt(l, r, p);
    let u = r.x - l.x;
    let w = r.y - l.y;
    let dx = k.dx as int;
    let dy = k.dy as int;
    let tc = w * (c.x - l.x) - (c.y - l.y) * u;
    let tp = w * (p.x - l.x) - (p.y - l.y) * u;
    assert(tp - tc == u * (c.y - p.y) - w * (c.x - p.x)) by (nonlinear_arith)
        requires
            tc == w * (c.x - l.x) - (c.y - l.y) * u,
            tp == w * (p.x - l.x) - (p.y - l.y) * u,
    ;
    let gx = c.x - p.x;
    let gy = c.y - p.y;
    if c.x == p.x && c.y >= p.y {
        lemma_on_line_vertical(l, r, c, p);
    } else if keep_right {
        assert(u * gy - w * gx > 0) by (nonlinear_arith)
            requires
                gx > 0,
                dy * gx <= gy * dx,
                dx * w < dy * u,
                u > 0,
                dx > 0,
        ;
    } else {
        assert(u * gy - w * gx > 0) by (nonlinear_arith)
            requires
                gx < 0,
                (-gy) * dx <= dy * (-gx),
                dy * u < dx * w,
                u > 0,
                dx > 0,
        ;
    }
}

/// After a pruning round, a bridge of the candidates is strictly flatter (or
/// steeper) than `k`: otherwise its far end would be a top point beyond `t`.
pub proof fn lemma_bridge_strictly(
    s: Seq<Point>,
    k: Slope,
    keep_right: bool,
    t: Point,
    a: int,
    l: Point,
    r: Point,
)
    requires
        k.dx > 0,
        l.x <= a < r.x,
        s.contains(l),
        s.contains(r),
        is_top(s, k, t, keep_right),
        keep_right ==> t.x <= a,
        !keep_right ==> t.x > a,
        right_of(l, r, t),
        keep_right ==> k.dx * (r.y - l.y) <= k.dy * (r.x - l.x),
        !keep_right ==> k.dy * (r.x - l.x) <= k.dx * (r.y - l.y),
    ensures
        keep_right ==> k.dx * (r.y - l.y) < k.dy * (r.x - l.x),
        !keep_right ==> k.dy * (r.x - l.x) < k.dx * (r.y - l.y),
{
    if k.dx * (r.y - l.y) == k.dy * (r.x - l.x) {
        lemma_slope_line(k, l, r, t);
        let u = r.x - l.x;
        assert(height(k, l) - height(k, t) >= 0) by (nonlinear_arith)
            requires
                k.dx * turn(l, r, t) == u * (height(k, l) - height(k, t)),
                turn(l, r, t) >= 0,
                u > 0,
                k.dx > 0,
        ;
        let ri = choose|i: int| 0 <= i < s.len() && s[i] == r;
        let li = choose|i: int| 0 <= i < s.len() && s[i] == l;
        assert(height(k, s[ri]) <= height(k, t));
        assert(height(k, s[li]) <= height(k, t));
    }
}

/// After a pruning round the top point survives and the candidates still
/// straddle the line.
pub proof fn lemma_prune_keeps(
    s: Seq<Point>,
    cands: Seq<Point>,
    k: Slope,
    keep_right: bool,
    t: Point,
    a: int,
)
    requires
        k.dx > 0,
        straddles(s, a),
        all_covered(s, cands, k, keep_right),
        subset_of(cands, s),
        is_top(s, k, t, keep_right),
        keep_right ==> t.x <= a,
        !keep_right ==> t.x > a,
    ensures
        cands.contains(t),
        straddles(cands, a),
{
    let ti = choose|i: int| 0 <= i < s.len() && s[i] == t;
    let ct = choose|c: int| 0 <= c < cands.len() && covers(cands[c], s[ti], k, keep_right);
    let c = cands[ct];
    assert(s.contains(c));
    let ci = choose|i: int| 0 <= i < s.len() && s[i] == c;
    assert(height(k, s[ci]) <= height(k, t));
    lemma_top_covers_itself(k, keep_right, c, t);
    let il = choose|i: int| 0 <= i < s.len() && #[trigger] s[i].x <= a;
    let ir = choose|j: int| 0 <= j < s.len() && #[trigger] s[j].x > a;
    let cl = choose|c: int| 0 <= c < cands.len() && covers(cands[c], s[il], k, keep_right);
    let cr = choose|c: int| 0 <= c < cands.len() && covers(cands[c], s[ir], k, keep_right);
    if keep_right {
        assert(cands[cr].x > a);
        assert(cands[ct].x <= a);
    } else {
        assert(cands[cl].x <= a);
        assert(cands[ct].x > a);
    }
}

/// A bridge of the candidates is a bridge of all the points.
pub proof fn lemma_prune_sound(
    s: Seq<Point>,
    cands: Seq<Point>,
    k: Slope,
    keep_right: bool,
    t: Point,
    a: int,
    l: Point,
    r: Point,
)
    requires
        k.dx > 0,
        all_covered(s, cands, k, keep_right),
        subset_of(cands, s),
        is_top(s, k, t, keep_right),
        cands.contains(t),
        keep_right ==> t.x <= a,
        !keep_right ==> t.x > a,
        is_bridge(cands, a, l, r),
        outermost(cands, l, r),
    ensures
        is_bridge(s, a, l, r),
        outermost(s, l, r),
{
    let c0 = choose|c: int| 0 <= c < cands.len() && cands[c] == l;
    let c1 = choose|c: int| 0 <= c < cands.len() && cands[c] == r;
    assert(s.contains(cands[c0]));
    assert(s.contains(cands[c1]));
    let ct = choose|c: int| 0 <= c < cands.len() && cands[c] == t;
    assert(right_of(l, r, cands[ct]));
    if keep_right {
        let ri = choose|i: int| 0 <= i < s.len() && s[i] == r;
        assert(height(k, s[ri]) <= height(k, t));
        lemma_bridge_not_steeper(k, l, r, t);
    } else {
        let li = choose|i: int| 0 <= i < s.len() && s[i] == l;
        assert(height(k, s[li]) <= height(k, t));
        lemma_bridge_not_flatter(k, l, r, t);
    }
    assert forall|i: int| 0 <= i < s.len() implies right_of(l, r, #[trigger] s[i]) by {
        let c = choose|c: int| 0 <= c < cands.len() && covers(cands[c], s[i], k, keep_right);
        assert(right_of(l, r, cands[c]));
        lemma_covered_below(k, keep_right, l, r, cands[c], s[i]);
    }
    lemma_bridge_strictly(s, k, keep_right, t, a, l, r);
    assert forall|i: int| 0 <= i < s.len() && turn(l, r, #[trigger] s[i]) == 0 implies l.x <= s[i].x
        <= r.x by {
        let c = choose|c: int| 0 <= c < cands.len() && covers(cands[c], s[i], k, keep_right);
        assert(right_of(l, r, cands[c]));
        lemma_covered_on_line(k, keep_right, l, r, cands[c], s[i]);
    }
}

/// Where every pair was vertical, a bridge of the candidates is a bridge of
/// all the points, and the candidates straddle the line.
pub proof fn lemma_vertical_round(
    s: Seq<Point>,
    cands: Seq<Point>,
    tags: Seq<(bool, int)>,
    a: int,
)
    requires
        straddles(s, a),
        tags.len() == s.len(),
        forall|i: int|
            0 <= i < s.len() ==> tag_ok(#[trigger] s[i], tags[i], cands, Seq::<(Point, Point)>::empty()),
    ensures
        straddles(cands, a),
        forall|l: Point, r: Point|
            is_bridge(cands, a, l, r) && outermost(cands, l, r) && subset_of(cands, s)
                ==> #[trigger] is_bridge(s, a, l, r) && outermost(s, l, r),
{
    let il = choose|i: int| 0 <= i < s.len() && #[trigger] s[i].x <= a;
    let ir = choose|j: int| 0 <= j < s.len() && #[trigger] s[j].x > a;
    assert(tag_ok(s[il], tags[il], cands, Seq::<(Point, Point)>::empty()));
    assert(tag_ok(s[ir], tags[ir], cands, Seq::<(Point, Point)>::empty()));
    assert(cands[tags[il].1].x <= a);
    assert(cands[tags[ir].1].x > a);
    assert forall|l: Point, r: Point|
        is_bridge(cands, a, l, r) && outermost(cands, l, r) && subset_of(cands, s) implies #[trigger] is_bridge(s, a, l, r)
            && outermost(s, l, r) by {
        let c0 = choose|c: int| 0 <= c < cands.len() && cands[c] == l;
        let c1 = choose|c: int| 0 <= c < cands.len() && cands[c] == r;
        assert(s.contains(cands[c0]));
        assert(s.contains(cands[c1]));
        assert forall|i: int| 0 <= i < s.len() implies right_of(l, r, #[trigger] s[i]) by {
            assert(tag_ok(s[i], tags[i], cands, Seq::<(Point, Point)>::empty()));
            let c = tags[i].1;
            assert(right_of(l, r, cands[c]));
            lemma_below_vertical(l, r, cands[c], s[i]);
        }
        assert forall|i: int| 0 <= i < s.len() && turn(l, r, #[trigger] s[i]) == 0 implies l.x
            <= s[i].x <= r.x by {
            assert(tag_ok(s[i], tags[i], cands, Seq::<(Point, Point)>::empty()));
            let c = tags[i].1;
            assert(right_of(l, r, cands[c]));
            lemma_on_line_vertical(l, r, cands[c], s[i]);
        }
    }
}

/// After pruning, the tags of the pairing and the witnesses of the pruning
/// name a candidate for every input point.
pub proof fn lemma_tags_cover(
    s: Seq<Point>,
    before: Seq<Point>,
    cands: Seq<Point>,
    pairs: Seq<(Point, Point)>,
    tags: Seq<(bool, int)>,
    wit: (Seq<int>, Seq<int>),
    k: Slope,
    keep_right: bool,
)
    requires
        tags.len() == s.len(),
        forall|t: int| 0 <= t < s.len() ==> tag_ok(#[trigger] s[t], tags[t], before, pairs),
        before.len() <= cands.len(),
        forall|c: int| 0 <= c < before.len() ==> #[trigger] cands[c] == before[c],
        wit.0.len() == pairs.len(),
        wit.1.len() == pairs.len(),
        forall|j: int|
            0 <= j < pairs.len() ==> {
                &&& 0 <= #[trigger] wit.0[j] < cands.len()
                &&& covers(cands[wit.0[j]], pairs[j].0, k, keep_right)
                &&& 0 <= wit.1[j] < cands.len()
                &&& covers(cands[wit.1[j]], pairs[j].1, k, keep_right)
            },
    ensures
        all_covered(s, cands, k, keep_right),
{
    assert forall|i: int| 0 <= i < s.len() implies has_cover(cands, #[trigger] s[i], k, keep_right) by {
        assert(tag_ok(s[i], tags[i], before, pairs));
        let c = cover_of(tags[i], s[i], pairs, wit);
        if tags[i].0 {
            assert(cands[tags[i].1] == before[tags[i].1]);
        } else {
            assert(0 <= wit.0[tags[i].1]);
        }
        assert(covers(cands[c], s[i], k, keep_right));
    }
}

/// Two points of greatest height that straddle the line span its bridge.
pub proof fn lemma_support_bridge(s: Seq<Point>, k: Slope, l: Point, r: Point, a: int)
    requires
        k.dx > 0,
        s.contains(l),
        s.contains(r),
        l.x <= a < r.x,
        height(k, l) == height(k, r),
        forall|i: int| 0 <= i < s.len() ==> height(k, #[trigger] s[i]) <= height(k, l),
        forall|i: int|
            0 <= i < s.len() && height(k, #[trigger] s[i]) == height(k, l) ==> l.x <= s[i].x <= r.x,
    ensures
        is_bridge(s, a, l, r),
        outermost(s, l, r),
{
    assert forall|i: int| 0 <= i < s.len() implies right_of(l, r, #[trigger] s[i]) by {
        lemma_support_line(k, l, r, s[i]);
    }
    assert(k.dx * (r.y - l.y) == k.dy * (r.x - l.x)) by (nonlinear_arith)
        requires
            k.dx * r.y - k.dy * r.x == k.dx * l.y - k.dy * l.x,
    ;
    assert forall|i: int| 0 <= i < s.len() && turn(l, r, #[trigger] s[i]) == 0 implies l.x <= s[i].x
        <= r.x by {
        lemma_slope_line(k, l, r, s[i]);
        let u = r.x - l.x;
        assert(height(k, l) - height(k, s[i]) == 0) by (nonlinear_arith)
            requires
                k.dx * turn(l, r, s[i]) == u * (height(k, l) - height(k, s[i])),
                turn(l, r, s[i]) == 0,
                u > 0,
        ;
    }
}

/// Finds the upper bridge of `points` over the vertical line `x = a`: the
/// segment between two of the points, one on or left of the line and one
/// right of it, with no point above it.
///
/// Each round pairs the points up, takes the median slope `k` of the pairs,
/// and finds the points of greatest height for `k`. Either they straddle the
/// line, and span the bridge, or they show on which side the bridge rises
/// less steeply than `k`, and one end of a pair on the far side is dropped.
#[verifier::rlimit(40)]
pub fn bridge(points: &Vec<Point>, a: i64) -> (r: (Point, Point))
    requires
        valid_points(points@),
        straddles(points@, a as int),
    ensures
        is_bridge(points@, a as int, r.0, r.1),
        outermost(points@, r.0, r.1),
    decreases points@.len(),
{
    let ghost s = points@;
    let n = points.len();
    assert(n >= 2) by {
        let il = choose|i: int| 0 <= i < s.len() && #[trigger] s[i].x <= a;
        let ir = choose|j: int| 0 <= j < s.len() && #[trigger] s[j].x > a;
        assert(il != ir);
    }
    if n == 2 {
        let first = points[0];
        let second = points[1];
        proof {
            let il = choose|i: int| 0 <= i < s.len() && #[trigger] s[i].x <= a;
            let ir = choose|j: int| 0 <= j < s.len() && #[trigger] s[j].x > a;
            lemma_bridge_ends(first, second);
            lemma_bridge_ends(second, first);
            assert(s[0] == first && s[1] == second);
            assert(s.contains(first) && s.contains(second));
            assert(first.x != second.x);
        }
        if first.x < second.x {
            return (first, second);
        } else {
            return (second, first);
        }
    }
    let (mut cands, pairs, slopes, tags) = pair_up(points);
    if pairs.len() == 0 {
        proof {
            assert(pairs@ == Seq::<(Point, Point)>::empty());
            lemma_vertical_round(s, cands@, tags@, a as int);
        }
        let r = bridge(&cands, a);
        return r;
    }
    let k = select_median(slopes.as_slice());
    proof {
        let j = choose|j: int| 0 <= j < slopes@.len() && slopes@[j] == k;
        assert(slope_pair_ok(pairs@[j], slopes@[j]));
    }
    let (ki, mi) = highest(points, &k);
    let kp = points[ki];
    let mp = points[mi];
    if kp.x <= a && mp.x > a {
        proof {
            assert(s[ki as int] == kp && s[mi as int] == mp);
            lemma_support_bridge(s, k, kp, mp, a as int);
        }
        return (kp, mp);
    }
    let keep_right = mp.x <= a;
    let ghost c_before = cands@;
    let wit = prune(&pairs, &slopes, &k, keep_right, &mut cands, Ghost(points@));
    let ghost top = if keep_right {
        mp
    } else {
        kp
    };
    proof {
        lemma_tags_cover(s, c_before, cands@, pairs@, tags@, wit@, k, keep_right);
        assert(is_top(s, k, top, keep_right)) by {
            assert(s[ki as int] == kp && s[mi as int] == mp);
        }
        lemma_prune_keeps(s, cands@, k, keep_right, top, a as int);
        assert forall|c: int| 0 <= c < cands@.len() implies valid_point(#[trigger] cands@[c]) by {
            assert(s.contains(cands@[c]));
        }
    }
    let r = bridge(&cands, a);
    proof {
        lemma_prune_sound(s, cands@, k, keep_right, top, a as int, r.0, r.1);
    }
    r
}

} // verus!
