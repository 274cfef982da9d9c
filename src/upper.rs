//! The upper hull by marriage before conquest: split at a median, find the
//! bridge over the split, and recurse on what lies outside the bridge.

use vstd::prelude::*;
use crate::point::{Point, valid_point, valid_points};
use crate::bridge::{bridge, is_bridge, right_of, lemma_turn_alt, lemma_below_vertical};
use crate::select::select_median;

verus! {

/// `h` is an upper chain of `s`: points of `s` in strictly increasing `x`,
/// with every point of `s` on or below the line of each edge.
pub open spec fn is_upper_chain(h: Seq<Point>, s: Seq<Point>) -> bool {
    &&& h.len() >= 1
    &&& forall|i: int| 0 <= i < h.len() ==> s.contains(#[trigger] h[i])
    &&& forall|i: int| 0 <= i < h.len() - 1 ==> #[trigger] h[i].x < h[i + 1].x
    &&& forall|i: int, j: int|
        0 <= i < h.len() - 1 && 0 <= j < s.len() ==> right_of(#[trigger] h[i], h[i + 1], #[trigger] s[j])
}

/// `lo` and `hi` are the only points of `s` on the verticals through them, and
/// every point of `s` lies between those verticals.
pub open spec fn spans(s: Seq<Point>, lo: Point, hi: Point) -> bool {
    &&& s.contains(lo)
    &&& s.contains(hi)
    &&& lo.x < hi.x
    &&& forall|i: int|
        0 <= i < s.len() ==> {
            &&& lo.x <= #[trigger] s[i].x <= hi.x
            &&& s[i].x == lo.x ==> s[i] == lo
            &&& s[i].x == hi.x ==> s[i] == hi
        }
}

/// An edge of the chain left of a bridge stays above every point right of
/// the bridge's left end.
pub proof fn lemma_edge_left_of_bridge(u: Point, v: Point, l: Point, r: Point, p: Point)
    requires
        u.x < v.x,
        u.x < l.x,
        l.x < r.x,
        right_of(u, v, l),
        right_of(l, r, u),
        right_of(l, r, p),
        l.x <= p.x,
    ensures
        right_of(u, v, p),
{
    lemma_turn_alt(u, v, l);
    lemma_turn_alt(l, r, u);
    lemma_turn_alt(l, r, p);
    lemma_turn_alt(u, v, p);
    let du = v.x - u.x;
    let wu = v.y - u.y;
    let dl = r.x - l.x;
    let wl = r.y - l.y;
    let xx = l.x - u.x;
    let yy = l.y - u.y;
    let pp = p.x - l.x;
    let qq = p.y - l.y;
    assert(wu * xx >= yy * du);
    assert(wl * xx <= yy * dl) by (nonlinear_arith)
        requires
            wl * (u.x - l.x) - (u.y - l.y) * dl >= 0,
            xx == l.x - u.x,
            yy == l.y - u.y,
    ;
    assert(wu * dl >= wl * du) by (nonlinear_arith)
        requires
            wu * xx >= yy * du,
            wl * xx <= yy * dl,
            xx > 0,
            du > 0,
            dl > 0,
    ;
    assert(wl * pp >= qq * dl);
    assert(wu * pp >= qq * du) by (nonlinear_arith)
        requires
            wu * dl >= wl * du,
            wl * pp >= qq * dl,
            pp >= 0,
            du > 0,
            dl > 0,
    ;
    assert(wu * (p.x - u.x) - (p.y - u.y) * du >= 0) by (nonlinear_arith)
        requires
            wu * pp >= qq * du,
            wu * xx >= yy * du,
            pp == p.x - l.x,
            qq == p.y - l.y,
            xx == l.x - u.x,
            yy == l.y - u.y,
    ;
}

/// An edge of the chain right of a bridge stays above every point left of
/// the bridge's right end.
pub proof fn lemma_edge_right_of_bridge(u: Point, v: Point, l: Point, r: Point, p: Point)
    requires
        u.x < v.x,
        r.x < v.x,
        l.x < r.x,
        right_of(u, v, r),
        right_of(l, r, v),
        right_of(l, r, p),
        p.x <= r.x,
    ensures
        right_of(u, v, p),
{
    lemma_turn_alt(u, v, r);
    lemma_turn_alt(l, r, v);
    lemma_turn_alt(l, r, p);
    lemma_turn_alt(u, v, p);
    let du = v.x - u.x;
    let wu = v.y - u.y;
    let dl = r.x - l.x;
    let wl = r.y - l.y;
    // measured from r
    let xx = v.x - r.x;
    let yy = v.y - r.y;
    let pp = r.x - p.x;
    let qq = r.y - p.y;
    // v on or below the bridge line, seen from r
    assert(yy * dl <= wl * xx) by (nonlinear_arith)
        requires
            wl * (v.x - l.x) - (v.y - l.y) * dl >= 0,
            xx == v.x - r.x,
            yy == v.y - r.y,
            wl == r.y - l.y,
            dl == r.x - l.x,
    ;
    // r on or below the edge line, seen from v
    assert(yy * du >= wu * xx) by (nonlinear_arith)
        requires
            wu * (r.x - u.x) - (r.y - u.y) * du >= 0,
            xx == v.x - r.x,
            yy == v.y - r.y,
            wu == v.y - u.y,
            du == v.x - u.x,
    ;
    assert(wl * du >= wu * dl) by (nonlinear_arith)
        requires
            yy * dl <= wl * xx,
            yy * du >= wu * xx,
            xx > 0,
            du > 0,
            dl > 0,
    ;
    // p on or below the bridge line, seen from r
    assert(qq * dl >= wl * pp) by (nonlinear_arith)
        requires
            wl * (p.x - l.x) - (p.y - l.y) * dl >= 0,
            pp == r.x - p.x,
            qq == r.y - p.y,
            wl == r.y - l.y,
            dl == r.x - l.x,
    ;
    assert(qq * du >= wu * pp) by (nonlinear_arith)
        requires
            wl * du >= wu * dl,
            qq * dl >= wl * pp,
            pp >= 0,
            du > 0,
            dl > 0,
    ;
    assert(wu * (p.x - u.x) - (p.y - u.y) * du >= 0) by (nonlinear_arith)
        requires
            qq * du >= wu * pp,
            wu * (r.x - u.x) - (r.y - u.y) * du >= 0,
            pp == r.x - p.x,
            qq == r.y - p.y,
    ;
}

pub proof fn lemma_chain_increasing(h: Seq<Point>, i: int, j: int)
    requires
        forall|k: int| 0 <= k < h.len() - 1 ==> #[trigger] h[k].x < h[k + 1].x,
        0 <= i < j < h.len(),
    ensures
        h[i].x < h[j].x,
    decreases j - i,
{
    if j > i + 1 {
        lemma_chain_increasing(h, i, j - 1);
        assert(h[j - 1].x < h[j].x);
    }
}

/// The chain left of a bridge, built from the points left of its left end,
/// is an upper chain of all the points.
pub proof fn lemma_left_chain(s: Seq<Point>, part: Seq<Point>, h: Seq<Point>, a: int, l: Point, r: Point)
    requires
        is_upper_chain(h, part),
        h.last() == l,
        is_bridge(s, a, l, r),
        part.contains(l),
        forall|i: int| 0 <= i < part.len() ==> s.contains(#[trigger] part[i]),
        forall|j: int| 0 <= j < s.len() && #[trigger] s[j].x < l.x ==> part.contains(s[j]),
    ensures
        is_upper_chain(h, s),
{
    assert forall|i: int| 0 <= i < h.len() implies s.contains(#[trigger] h[i]) by {
        let k = choose|k: int| 0 <= k < part.len() && part[k] == h[i];
        assert(s.contains(part[k]));
    }
    assert forall|i: int, j: int|
        0 <= i < h.len() - 1 && 0 <= j < s.len() implies right_of(#[trigger] h[i], h[i + 1], #[trigger] s[j]) by {
        let p = s[j];
        if p.x < l.x {
            assert(part.contains(p));
            let k = choose|k: int| 0 <= k < part.len() && part[k] == p;
            assert(right_of(h[i], h[i + 1], part[k]));
        } else {
            lemma_chain_increasing(h, i, h.len() - 1);
            let kl = choose|k: int| 0 <= k < part.len() && part[k] == l;
            assert(right_of(h[i], h[i + 1], part[kl]));
            assert(s.contains(h[i]));
            let ku = choose|k: int| 0 <= k < s.len() && s[k] == h[i];
            assert(right_of(l, r, s[ku]));
            lemma_edge_left_of_bridge(h[i], h[i + 1], l, r, p);
        }
    }
}

/// The chain right of a bridge, built from the points right of its right
/// end, is an upper chain of all the points.
pub proof fn lemma_right_chain(s: Seq<Point>, part: Seq<Point>, h: Seq<Point>, a: int, l: Point, r: Point)
    requires
        is_upper_chain(h, part),
        h[0] == r,
        is_bridge(s, a, l, r),
        part.contains(r),
        forall|i: int| 0 <= i < part.len() ==> s.contains(#[trigger] part[i]),
        forall|j: int| 0 <= j < s.len() && #[trigger] s[j].x > r.x ==> part.contains(s[j]),
    ensures
        is_upper_chain(h, s),
{
    assert forall|i: int| 0 <= i < h.len() implies s.contains(#[trigger] h[i]) by {
        let k = choose|k: int| 0 <= k < part.len() && part[k] == h[i];
        assert(s.contains(part[k]));
    }
    assert forall|i: int, j: int|
        0 <= i < h.len() - 1 && 0 <= j < s.len() implies right_of(#[trigger] h[i], h[i + 1], #[trigger] s[j]) by {
        let p = s[j];
        if p.x > r.x {
            assert(part.contains(p));
            let k = choose|k: int| 0 <= k < part.len() && part[k] == p;
            assert(right_of(h[i], h[i + 1], part[k]));
        } else {
            lemma_chain_increasing(h, 0, i + 1);
            let kr = choose|k: int| 0 <= k < part.len() && part[k] == r;
            assert(right_of(h[i], h[i + 1], part[kr]));
            assert(s.contains(h[i + 1]));
            let kv = choose|k: int| 0 <= k < s.len() && s[k] == h[i + 1];
            assert(right_of(l, r, s[kv]));
            lemma_edge_right_of_bridge(h[i], h[i + 1], l, r, p);
        }
    }
}

/// Two upper chains joined by a bridge form one upper chain.
pub proof fn lemma_join(s: Seq<Point>, h1: Seq<Point>, h2: Seq<Point>, a: int, l: Point, r: Point)
    requires
        is_upper_chain(h1, s),
        is_upper_chain(h2, s),
        h1.last() == l,
        h2[0] == r,
        is_bridge(s, a, l, r),
    ensures
        is_upper_chain(h1 + h2, s),
{
    let h = h1 + h2;
    let n1 = h1.len() as int;
    assert forall|i: int| 0 <= i < h.len() implies s.contains(#[trigger] h[i]) by {
        if i < n1 {
            assert(h[i] == h1[i]);
        } else {
            assert(h[i] == h2[i - n1]);
        }
    }
    assert forall|i: int| 0 <= i < h.len() - 1 implies #[trigger] h[i].x < h[i + 1].x by {
        if i < n1 - 1 {
            assert(h[i] == h1[i] && h[i + 1] == h1[i + 1]);
        } else if i == n1 - 1 {
            assert(h[i] == l && h[i + 1] == r);
        } else {
            assert(h[i] == h2[i - n1] && h[i + 1] == h2[i - n1 + 1]);
        }
    }
    assert forall|i: int, j: int|
        0 <= i < h.len() - 1 && 0 <= j < s.len() implies right_of(#[trigger] h[i], h[i + 1], #[trigger] s[j]) by {
        if i < n1 - 1 {
            assert(h[i] == h1[i] && h[i + 1] == h1[i + 1]);
            assert(right_of(h1[i], h1[i + 1], s[j]));
        } else if i == n1 - 1 {
            assert(h[i] == l && h[i + 1] == r);
        } else {
            assert(h[i] == h2[i - n1] && h[i + 1] == h2[i - n1 + 1]);
            assert(right_of(h2[i - n1], h2[i - n1 + 1], s[j]));
        }
    }
}

/// `p` lies strictly on the chosen side of the vertical through `pivot`.
pub open spec fn beyond_side(p: Point, pivot: Point, left: bool) -> bool {
    if left {
        p.x < pivot.x
    } else {
        p.x > pivot.x
    }
}

/// `pivot` followed by the points strictly on one side of its vertical.
fn beyond(points: &Vec<Point>, pivot: Point, left: bool) -> (r: Vec<Point>)
    requires
        points@.contains(pivot),
        exists|j: int| 0 <= j < points@.len() && beyond_side(pivot, #[trigger] points@[j], left),
    ensures
        1 <= r@.len() < points@.len(),
        r@[0] == pivot,
        forall|i: int|
            1 <= i < r@.len() ==> points@.contains(#[trigger] r@[i]) && beyond_side(r@[i], pivot, left),
        forall|t: int|
            0 <= t < points@.len() && beyond_side(#[trigger] points@[t], pivot, left) ==> r@.contains(points@[t]),
{
    let ghost ip = choose|i: int| 0 <= i < points@.len() && points@[i] == pivot;
    let ghost io = choose|j: int| 0 <= j < points@.len() && beyond_side(pivot, #[trigger] points@[j], left);
    let n = points.len();
    let mut r: Vec<Point> = Vec::new();
    r.push(pivot);
    let mut i: usize = 0;
    while i < n
        invariant
            n == points@.len(),
            0 <= ip < n,
            0 <= io < n,
            points@[ip] == pivot,
            beyond_side(pivot, points@[io], left),
            i <= n,
            1 <= r@.len(),
            r@[0] == pivot,
            r@.len() + (if ip < i { 1int } else { 0 }) + (if io < i { 1int } else { 0 }) <= 1 + i,
            forall|k: int|
                1 <= k < r@.len() ==> points@.contains(#[trigger] r@[k]) && beyond_side(r@[k], pivot, left),
            forall|t: int|
                0 <= t < i && beyond_side(#[trigger] points@[t], pivot, left) ==> r@.contains(points@[t]),
        decreases n - i,
    {
        let p = points[i];
        let keep = if left {
            p.x < pivot.x
        } else {
            p.x > pivot.x
        };
        if keep {
            let ghost old_r = r@;
            r.push(p);
            proof {
                assert(r@[r@.len() - 1] == p);
                assert forall|t: int|
                    0 <= t < i + 1 && beyond_side(#[trigger] points@[t], pivot, left) implies r@.contains(points@[t]) by {
                    if t < i {
                        let k = choose|k: int| 0 <= k < old_r.len() && old_r[k] == points@[t];
                        assert(r@[k] == points@[t]);
                    }
                }
                assert forall|k: int| 1 <= k < r@.len() implies points@.contains(#[trigger] r@[k])
                    && beyond_side(r@[k], pivot, left) by {
                    if k < old_r.len() {
                        assert(r@[k] == old_r[k]);
                    } else {
                        assert(points@[i as int] == p);
                    }
                }
            }
        }
        i += 1;
    }
    r
}

/// The `x` coordinates of `points`, in order.
fn xs_of(points: &Vec<Point>) -> (xs: Vec<i64>)
    ensures
        xs@.len() == points@.len(),
        forall|i: int| 0 <= i < xs@.len() ==> #[trigger] xs@[i] == points@[i].x,
{
    let mut xs: Vec<i64> = Vec::new();
    let mut i: usize = 0;
    while i < points.len()
        invariant
            i <= points@.len(),
            xs@.len() == i,
            forall|k: int| 0 <= k < i ==> #[trigger] xs@[k] == points@[k].x,
        decreases points@.len() - i,
    {
        xs.push(points[i].x);
        i += 1;
    }
    xs
}

/// The upper chain of `points` from `lo` to `hi`. The points are split at the
/// median `x`, the bridge over the split is found, and the parts outside the
/// bridge are solved the same way.
///
/// Where the median is `hi`'s own `x`, nothing lies right of it, and the split
/// is made at `lo`'s `x` instead.
#[verifier::rlimit(60)]
pub fn connect(lo: Point, hi: Point, points: &Vec<Point>) -> (h: Vec<Point>)
    requires
        valid_points(points@),
        spans(points@, lo, hi),
    ensures
        h@[0] == lo,
        h@.last() == hi,
        is_upper_chain(h@, points@),
    decreases points@.len(),
{
    let ghost s = points@;
    let xs = xs_of(points);
    assert(xs@.len() > 0) by {
        assert(s.contains(lo));
    }
    let m = select_median(xs.as_slice());
    let a = if m < hi.x {
        m
    } else {
        lo.x
    };
    proof {
        let im = choose|i: int| 0 <= i < xs@.len() && xs@[i] == m;
        assert(lo.x <= s[im].x);
        let il = choose|i: int| 0 <= i < s.len() && s[i] == lo;
        let ih = choose|i: int| 0 <= i < s.len() && s[i] == hi;
        assert(s[il].x <= a);
        assert(s[ih].x > a);
    }
    let (left, right) = bridge(points, a);
    let ghost il = choose|i: int| 0 <= i < s.len() && s[i] == left;
    let ghost ir = choose|i: int| 0 <= i < s.len() && s[i] == right;
    let mut h: Vec<Point>;
    if left == lo {
        h = Vec::new();
        h.push(lo);
        proof {
            assert(is_upper_chain(h@, s)) by {
                assert(h@[0] == lo);
            }
        }
    } else {
        let lp = beyond(points, left, true);
        proof {
            assert(beyond_side(left, s[ir], true));
            assert(left.x > lo.x) by {
                assert(lo.x <= s[il].x);
            }
            assert(spans(lp@, lo, left)) by {
                let kl = choose|k: int| 0 <= k < s.len() && s[k] == lo;
                assert(beyond_side(s[kl], left, true));
                assert(lp@.contains(lo));
                assert(lp@.contains(left)) by {
                    assert(lp@[0] == left);
                }
                assert forall|i: int| 0 <= i < lp@.len() implies {
                    &&& lo.x <= #[trigger] lp@[i].x <= left.x
                    &&& lp@[i].x == lo.x ==> lp@[i] == lo
                    &&& lp@[i].x == left.x ==> lp@[i] == left
                } by {
                    if i > 0 {
                        let k = choose|k: int| 0 <= k < s.len() && s[k] == lp@[i];
                        assert(lo.x <= s[k].x);
                    }
                }
            }
            assert forall|i: int| 0 <= i < lp@.len() implies valid_point(#[trigger] lp@[i]) by {
                if i > 0 {
                    let k = choose|k: int| 0 <= k < s.len() && s[k] == lp@[i];
                } else {
                    assert(valid_point(s[il]));
                }
            }
        }
        h = connect(lo, left, &lp);
        proof {
            assert(lp@.contains(left)) by {
                assert(lp@[0] == left);
            }
            assert forall|i: int| 0 <= i < lp@.len() implies s.contains(#[trigger] lp@[i]) by {
                if i == 0 {
                    assert(s[il] == lp@[0]);
                }
            }
            assert forall|j: int| 0 <= j < s.len() && #[trigger] s[j].x < left.x implies lp@.contains(s[j]) by {
                assert(beyond_side(s[j], left, true));
            }
            lemma_left_chain(s, lp@, h@, a as int, left, right);
        }
    }
    let mut h2: Vec<Point>;
    if right == hi {
        h2 = Vec::new();
        h2.push(hi);
        proof {
            assert(is_upper_chain(h2@, s)) by {
                assert(h2@[0] == hi);
            }
        }
    } else {
        let rp = beyond(points, right, false);
        proof {
            assert(beyond_side(right, s[il], false));
            assert(right.x < hi.x) by {
                assert(s[ir].x <= hi.x);
            }
            assert(spans(rp@, right, hi)) by {
                let kh = choose|k: int| 0 <= k < s.len() && s[k] == hi;
                assert(beyond_side(s[kh], right, false));
                assert(rp@.contains(hi));
                assert(rp@.contains(right)) by {
                    assert(rp@[0] == right);
                }
                assert forall|i: int| 0 <= i < rp@.len() implies {
                    &&& right.x <= #[trigger] rp@[i].x <= hi.x
                    &&& rp@[i].x == right.x ==> rp@[i] == right
                    &&& rp@[i].x == hi.x ==> rp@[i] == hi
                } by {
                    if i > 0 {
                        let k = choose|k: int| 0 <= k < s.len() && s[k] == rp@[i];
                        assert(s[k].x <= hi.x);
                    }
                }
            }
            assert forall|i: int| 0 <= i < rp@.len() implies valid_point(#[trigger] rp@[i]) by {
                if i > 0 {
                    let k = choose|k: int| 0 <= k < s.len() && s[k] == rp@[i];
                } else {
                    assert(valid_point(s[ir]));
                }
            }
        }
        h2 = connect(right, hi, &rp);
        proof {
            assert(rp@.contains(right)) by {
                assert(rp@[0] == right);
            }
            assert forall|i: int| 0 <= i < rp@.len() implies s.contains(#[trigger] rp@[i]) by {
                if i == 0 {
                    assert(s[ir] == rp@[0]);
                }
            }
            assert forall|j: int| 0 <= j < s.len() && #[trigger] s[j].x > right.x implies rp@.contains(s[j]) by {
                assert(beyond_side(s[j], right, false));
            }
            lemma_right_chain(s, rp@, h2@, a as int, left, right);
        }
    }
    let ghost h1 = h@;
    let ghost g2 = h2@;
    h.append(&mut h2);
    proof {
        lemma_join(s, h1, g2, a as int, left, right);
        assert(h@ == h1 + g2);
        assert(h@[0] == h1[0]);
        assert(h@.last() == g2.last());
    }
    h
}

/// `p` is the leftmost point of `s`, the highest of them if several share
/// the smallest `x`.
pub open spec fn is_left_top(s: Seq<Point>, p: Point) -> bool {
    &&& s.contains(p)
    &&& forall|i: int|
        0 <= i < s.len() ==> p.x < #[trigger] s[i].x || (s[i].x == p.x && s[i].y <= p.y)
}

/// `p` is the rightmost point of `s`, the highest of them if several share
/// the largest `x`.
pub open spec fn is_right_top(s: Seq<Point>, p: Point) -> bool {
    &&& s.contains(p)
    &&& forall|i: int|
        0 <= i < s.len() ==> #[trigger] s[i].x < p.x || (s[i].x == p.x && s[i].y <= p.y)
}

/// The leftmost and the rightmost point of `points`, the highest of each.
fn extremes(points: &Vec<Point>) -> (r: (Point, Point))
    requires
        points@.len() >= 1,
    ensures
        is_left_top(points@, r.0),
        is_right_top(points@, r.1),
{
    let n = points.len();
    let mut min_point = points[0];
    let mut max_point = points[0];
    let ghost mut imin: int = 0;
    let ghost mut imax: int = 0;
    let mut i: usize = 1;
    while i < n
        invariant
            n == points@.len(),
            1 <= i <= n,
            0 <= imin < n,
            0 <= imax < n,
            points@[imin] == min_point,
            points@[imax] == max_point,
            forall|k: int|
                0 <= k < i ==> min_point.x < #[trigger] points@[k].x || (points@[k].x == min_point.x
                    && points@[k].y <= min_point.y),
            forall|k: int|
                0 <= k < i ==> #[trigger] points@[k].x < max_point.x || (points@[k].x == max_point.x
                    && points@[k].y <= max_point.y),
        decreases n - i,
    {
        let p = points[i];
        if p.x < min_point.x || (p.x == min_point.x && p.y > min_point.y) {
            min_point = p;
            proof {
                imin = i as int;
            }
        }
        if p.x > max_point.x || (p.x == max_point.x && p.y > max_point.y) {
            max_point = p;
            proof {
                imax = i as int;
            }
        }
        i += 1;
    }
    (min_point, max_point)
}

/// The upper hull of `points`, left to right: from the leftmost point (the
/// highest of them) to the rightmost point (the highest of them), with every
/// point on or below each edge.
#[verifier::rlimit(60)]
pub fn upper_hull(points: &Vec<Point>) -> (h: Vec<Point>)
    requires
        valid_points(points@),
        points@.len() >= 1,
    ensures
        is_upper_chain(h@, points@),
        is_left_top(points@, h@[0]),
        is_right_top(points@, h@.last()),
{
    let ghost s = points@;
    let (min_point, max_point) = extremes(points);
    if min_point == max_point {
        let mut h: Vec<Point> = Vec::new();
        h.push(min_point);
        assert(h@[0] == min_point);
        return h;
    }
    assert(min_point.x < max_point.x) by {
        let k = choose|k: int| 0 <= k < s.len() && s[k] == max_point;
        let j = choose|j: int| 0 <= j < s.len() && s[j] == min_point;
    }
    let mut work: Vec<Point> = Vec::new();
    work.push(min_point);
    work.push(max_point);
    let n = points.len();
    let mut i: usize = 0;
    while i < n
        invariant
            n == s.len(),
            s == points@,
            valid_points(s),
            is_left_top(s, min_point),
            is_right_top(s, max_point),
            min_point.x < max_point.x,
            i <= n,
            work@.len() >= 2,
            work@[0] == min_point,
            work@[1] == max_point,
            forall|k: int|
                2 <= k < work@.len() ==> s.contains(#[trigger] work@[k]) && min_point.x < work@[k].x
                    < max_point.x,
            forall|t: int|
                0 <= t < i && min_point.x < #[trigger] s[t].x < max_point.x ==> work@.contains(s[t]),
        decreases n - i,
    {
        let p = points[i];
        if p.x > min_point.x && p.x < max_point.x {
            let ghost old_w = work@;
            work.push(p);
            proof {
                assert forall|t: int|
                    0 <= t < i + 1 && min_point.x < #[trigger] s[t].x < max_point.x implies work@.contains(s[t]) by {
                    if t < i {
                        let k = choose|k: int| 0 <= k < old_w.len() && old_w[k] == s[t];
                        assert(work@[k] == s[t]);
                    } else {
                        assert(work@[work@.len() - 1] == s[t]);
                    }
                }
                assert forall|k: int| 2 <= k < work@.len() implies s.contains(#[trigger] work@[k])
                    && min_point.x < work@[k].x < max_point.x by {
                    if k < old_w.len() {
                        assert(work@[k] == old_w[k]);
                    } else {
                        assert(s[i as int] == p);
                    }
                }
            }
        }
        i += 1;
    }
    proof {
        let w = work@;
        assert(spans(w, min_point, max_point)) by {
            assert(w.contains(min_point)) by {
                assert(w[0] == min_point);
            }
            assert(w.contains(max_point)) by {
                assert(w[1] == max_point);
            }
        }
        assert forall|k: int| 0 <= k < w.len() implies valid_point(#[trigger] w[k]) by {
            if k >= 2 {
                let j = choose|j: int| 0 <= j < s.len() && s[j] == w[k];
            } else if k == 0 {
                let j = choose|j: int| 0 <= j < s.len() && s[j] == min_point;
            } else {
                let j = choose|j: int| 0 <= j < s.len() && s[j] == max_point;
            }
        }
    }
    let h = connect(min_point, max_point, &work);
    proof {
        let w = work@;
        assert(w[0] == min_point && w[1] == max_point);
        assert forall|i: int| 0 <= i < h@.len() implies s.contains(#[trigger] h@[i]) by {
            let k = choose|k: int| 0 <= k < w.len() && w[k] == h@[i];
            if k >= 2 {
                assert(s.contains(w[k]));
            }
        }
        assert forall|i: int, j: int|
            0 <= i < h@.len() - 1 && 0 <= j < s.len() implies right_of(#[trigger] h@[i], h@[i + 1], #[trigger] s[j]) by {
            let p = s[j];
            if min_point.x < p.x < max_point.x {
                let k = choose|k: int| 0 <= k < w.len() && w[k] == p;
                assert(right_of(h@[i], h@[i + 1], w[k]));
            } else if p.x == min_point.x {
                assert(right_of(h@[i], h@[i + 1], w[0]));
                lemma_below_vertical(h@[i], h@[i + 1], min_point, p);
            } else {
                assert(right_of(h@[i], h@[i + 1], w[1]));
                lemma_below_vertical(h@[i], h@[i + 1], max_point, p);
            }
        }
    }
    h
}

} // verus!
