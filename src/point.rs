//! Points and the orientation predicate shared by both hull algorithms.

use vstd::prelude::*;

verus! {

/// Largest absolute value a coordinate may take. Differences of coordinates,
/// and products of two differences, then fit easily in `i128`.
pub const COORD_LIMIT: i64 = 1_000_000_000_000;

/// A point of the plane with integer coordinates.
#[derive(Clone, Copy, Debug, PartialEq, Eq, Structural)]
pub struct Point {
    pub x: i64,
    pub y: i64,
}

impl Point {
    pub fn new(x: i64, y: i64) -> (r: Point)
        ensures
            r.x == x,
            r.y == y,
    {
        Point { x, y }
    }
}

/// Both coordinates lie within `COORD_LIMIT` in absolute value.
pub open spec fn valid_point(p: Point) -> bool {
    -COORD_LIMIT <= p.x <= COORD_LIMIT && -COORD_LIMIT <= p.y <= COORD_LIMIT
}

pub open spec fn valid_points(s: Seq<Point>) -> bool {
    forall|i: int| 0 <= i < s.len() ==> valid_point(#[trigger] s[i])
}

/// The turn value of the path `p -> q -> r`: zero when the three points are
/// collinear, positive for a clockwise turn, negative for a counter-clockwise one.
pub open spec fn turn(p: Point, q: Point, r: Point) -> int {
    (q.y - p.y) * (r.x - q.x) - (q.x - p.x) * (r.y - q.y)
}

/// How the path `p -> q -> r` turns.
#[derive(Clone, Copy, Debug, PartialEq, Eq, Structural)]
pub enum Orientation {
    Clockwise,
    Counterclockwise,
    Colinear,
}

pub open spec fn orientation_of(v: int) -> Orientation {
    if v == 0 {
        Orientation::Colinear
    } else if v > 0 {
        Orientation::Clockwise
    } else {
        Orientation::Counterclockwise
    }
}

pub proof fn lemma_mul_bounded(a: int, b: int, m: int, n: int)
    requires
        -m <= a <= m,
        -n <= b <= n,
    ensures
        -(m * n) <= a * b <= m * n,
{
    assert(-(m * n) <= a * b <= m * n) by (nonlinear_arith)
        requires
            -m <= a <= m,
            -n <= b <= n,
    ;
}

/// The turn value of `p -> q -> r`, computed exactly.
pub fn turn_value(p: &Point, q: &Point, r: &Point) -> (v: i128)
    requires
        valid_point(*p),
        valid_point(*q),
        valid_point(*r),
    ensures
        v == turn(*p, *q, *r),
{
    let a = q.y as i128 - p.y as i128;
    let b = r.x as i128 - q.x as i128;
    let c = q.x as i128 - p.x as i128;
    let d = r.y as i128 - q.y as i128;
    proof {
        lemma_mul_bounded(a as int, b as int, 2 * COORD_LIMIT, 2 * COORD_LIMIT);
        lemma_mul_bounded(c as int, d as int, 2 * COORD_LIMIT, 2 * COORD_LIMIT);
    }
    a * b - c * d
}

/// Classifies the turn of `p -> q -> r`; exact, with no tolerance.
pub fn orientation(p: &Point, q: &Point, r: &Point) -> (o: Orientation)
    requires
        valid_point(*p),
        valid_point(*q),
        valid_point(*r),
    ensures
        o == orientation_of(turn(*p, *q, *r)),
{
    let v = turn_value(p, q, r);
    if v == 0 {
        Orientation::Colinear
    } else if v > 0 {
        Orientation::Clockwise
    } else {
        Orientation::Counterclockwise
    }
}

} // verus!
