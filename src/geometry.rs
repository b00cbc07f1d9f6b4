//! Exact integer geometry used by the instance generator.
use vstd::prelude::*;

verus! {

/// Smallest coordinate a vertex may have.
pub const COORD_MIN: i64 = 0;

/// Largest coordinate a vertex may have.
pub const COORD_MAX: i64 = 1000;

/// A point with integer coordinates.
pub type Point = (i64, i64);

/// A segment given by its two end points.
pub type Segment = (Point, Point);

/// Both coordinates lie in `[COORD_MIN, COORD_MAX]`.
pub open spec fn in_box(p: Point) -> bool {
    COORD_MIN <= p.0 <= COORD_MAX && COORD_MIN <= p.1 <= COORD_MAX
}

/// Squared Euclidean distance between two points.
pub open spec fn dist2(p: Point, q: Point) -> int {
    (p.0 - q.0) * (p.0 - q.0) + (p.1 - q.1) * (p.1 - q.1)
}

/// Squared distance between two points of the coordinate box.
pub fn distance2(p1: Point, p2: Point) -> (r: i64)
    requires
        in_box(p1),
        in_box(p2),
    ensures
        r == dist2(p1, p2),
        0 <= r <= 2000000,
{
    let dx: i64 = p1.0 - p2.0;
    let dy: i64 = p1.1 - p2.1;
    assert(dx * dx <= 1000 * 1000 && dy * dy <= 1000 * 1000) by (nonlinear_arith)
        requires
            -1000 <= dx <= 1000,
            -1000 <= dy <= 1000,
    ;
    assert(0 <= dx * dx && 0 <= dy * dy) by (nonlinear_arith);
    dx * dx + dy * dy
}

/// Orientation value of `r` against the directed line through `p` and `q`
/// (the cross product `pq x pr`, up to sign convention).
pub open spec fn orient(p: Point, q: Point, r: Point) -> int {
    (p.0 - q.0) * (r.1 - p.1) + (p.1 - q.1) * (p.0 - r.0)
}

/// `p` lies in the bounding box of the segment `s`.
pub open spec fn in_bbox(s: Segment, p: Point) -> bool {
    let (a, b) = s;
    &&& (if a.0 <= b.0 { a.0 } else { b.0 }) <= p.0
    &&& p.0 <= (if a.0 <= b.0 { b.0 } else { a.0 })
    &&& (if a.1 <= b.1 { a.1 } else { b.1 }) <= p.1
    &&& p.1 <= (if a.1 <= b.1 { b.1 } else { a.1 })
}

/// The two segments have an end point in common.
pub open spec fn share_end(s: Segment, t: Segment) -> bool {
    s.0 == t.0 || s.0 == t.1 || s.1 == t.0 || s.1 == t.1
}

/// The crossing predicate on two segments.
///
/// When both end points of `t` lie on the line of `s`, the segments cross iff
/// an end point of one lies in the bounding box of the other. Otherwise
/// segments with a common end point do not cross, and the remaining ones cross
/// iff each segment's end points are not strictly on one side of the other's
/// line.
pub open spec fn crosses(s: Segment, t: Segment) -> bool {
    let (p0, p1) = s;
    let (p2, p3) = t;
    if orient(p0, p1, p2) == 0 && orient(p0, p1, p3) == 0 {
        in_bbox(s, p2) || in_bbox(s, p3) || in_bbox(t, p0) || in_bbox(t, p1)
    } else if share_end(s, t) {
        false
    } else {
        orient(p0, p1, p2) * orient(p0, p1, p3) <= 0 && orient(p2, p3, p0) * orient(p2, p3, p1)
            <= 0
    }
}

/// Both end points of the segment lie in the coordinate box.
pub open spec fn seg_in_box(s: Segment) -> bool {
    in_box(s.0) && in_box(s.1)
}

fn orientation(p: Point, q: Point, r: Point) -> (v: i64)
    requires
        in_box(p),
        in_box(q),
        in_box(r),
    ensures
        v == orient(p, q, r),
        -2000000 <= v <= 2000000,
{
    let a: i64 = p.0 - q.0;
    let b: i64 = r.1 - p.1;
    let c: i64 = p.1 - q.1;
    let d: i64 = p.0 - r.0;
    assert(-1000000 <= a * b <= 1000000) by (nonlinear_arith)
        requires
            -1000 <= a <= 1000,
            -1000 <= b <= 1000,
    ;
    assert(-1000000 <= c * d <= 1000000) by (nonlinear_arith)
        requires
            -1000 <= c <= 1000,
            -1000 <= d <= 1000,
    ;
    a * b + c * d
}

fn bbox_contains(s: Segment, p: Point) -> (r: bool)
    ensures
        r == in_bbox(s, p),
{
    let (a, b) = s;
    let lo_x = if a.0 <= b.0 { a.0 } else { b.0 };
    let hi_x = if a.0 <= b.0 { b.0 } else { a.0 };
    let lo_y = if a.1 <= b.1 { a.1 } else { b.1 };
    let hi_y = if a.1 <= b.1 { b.1 } else { a.1 };
    lo_x <= p.0 && p.0 <= hi_x && lo_y <= p.1 && p.1 <= hi_y
}

fn same_point(p: Point, q: Point) -> (r: bool)
    ensures
        r == (p == q),
{
    p.0 == q.0 && p.1 == q.1
}

/// Decides whether two segments of the coordinate box cross.
pub fn is_crossing(l1: &Segment, l2: &Segment) -> (r: bool)
    requires
        seg_in_box(*l1),
        seg_in_box(*l2),
    ensures
        r == crosses(*l1, *l2),
{
    let (p0, p1) = *l1;
    let (p2, p3) = *l2;
    let v0 = orientation(p0, p1, p2);
    let v1 = orientation(p0, p1, p3);
    let v2 = orientation(p2, p3, p0);
    let v3 = orientation(p2, p3, p1);
    if v0 == 0 && v1 == 0 {
        return bbox_contains(*l1, p2) || bbox_contains(*l1, p3) || bbox_contains(*l2, p0)
            || bbox_contains(*l2, p1);
    }
    if same_point(p0, p2) || same_point(p0, p3) || same_point(p1, p2) || same_point(p1, p3) {
        return false;
    }
    assert(-4000000000000 <= v0 * v1 <= 4000000000000) by (nonlinear_arith)
        requires
            -2000000 <= v0 <= 2000000,
            -2000000 <= v1 <= 2000000,
    ;
    assert(-4000000000000 <= v2 * v3 <= 4000000000000) by (nonlinear_arith)
        requires
            -2000000 <= v2 <= 2000000,
            -2000000 <= v3 <= 2000000,
    ;
    v0 * v1 <= 0 && v2 * v3 <= 0
}

/// If `p2` and `p3` both lie on the line through the distinct points `p0` and
/// `p1`, then `p0` and `p1` both lie on the line through `p2` and `p3`.
proof fn lemma_collinear_swap(p0: Point, p1: Point, p2: Point, p3: Point)
    requires
        p0 != p1,
        orient(p0, p1, p2) == 0,
        orient(p0, p1, p3) == 0,
    ensures
        orient(p2, p3, p0) == 0,
        orient(p2, p3, p1) == 0,
{
    let ax = p0.0 - p1.0;
    let ay = p0.1 - p1.1;
    let ux = p2.0 - p0.0;
    let uy = p2.1 - p0.1;
    let wx = p3.0 - p0.0;
    let wy = p3.1 - p0.1;
    let c = wx * uy - wy * ux;
    assert(ax * uy - ay * ux == 0) by (nonlinear_arith)
        requires
            orient(p0, p1, p2) == 0,
            ax == p0.0 - p1.0,
            ay == p0.1 - p1.1,
            ux == p2.0 - p0.0,
            uy == p2.1 - p0.1,
    ;
    assert(ax * wy - ay * wx == 0) by (nonlinear_arith)
        requires
            orient(p0, p1, p3) == 0,
            ax == p0.0 - p1.0,
            ay == p0.1 - p1.1,
            wx == p3.0 - p0.0,
            wy == p3.1 - p0.1,
    ;
    assert(ax * c == 0) by (nonlinear_arith)
        requires
            ax * uy - ay * ux == 0,
            ax * wy - ay * wx == 0,
            c == wx * uy - wy * ux,
    ;
    assert(ay * c == 0) by (nonlinear_arith)
        requires
            ax * uy - ay * ux == 0,
            ax * wy - ay * wx == 0,
            c == wx * uy - wy * ux,
    ;
    assert(c == 0) by (nonlinear_arith)
        requires
            ax * c == 0,
            ay * c == 0,
            ax != 0 || ay != 0,
    ;
    assert(orient(p2, p3, p0) == c) by (nonlinear_arith)
        requires
            ux == p2.0 - p0.0,
            uy == p2.1 - p0.1,
            wx == p3.0 - p0.0,
            wy == p3.1 - p0.1,
            c == wx * uy - wy * ux,
    ;
    assert((ux - wx) * (-ay - uy) + (uy - wy) * (ux + ax) == c + (ax * uy - ay * ux) - (ax * wy
        - ay * wx)) by (nonlinear_arith)
        requires
            c == wx * uy - wy * ux,
    ;
    let f0 = p2.0 - p3.0;
    let f1 = p1.1 - p2.1;
    let f2 = p2.1 - p3.1;
    let f3 = p2.0 - p1.0;
    assert(f0 == ux - wx && f1 == -ay - uy && f2 == uy - wy && f3 == ux + ax);
    assert(orient(p2, p3, p1) == f0 * f1 + f2 * f3);
}

/// For segments whose two end points differ, crossing does not depend on
/// the order in which the segments are given.
pub proof fn lemma_crosses_symmetric(s: Segment, t: Segment)
    requires
        s.0 != s.1,
        t.0 != t.1,
    ensures
        crosses(s, t) == crosses(t, s),
{
    let (p0, p1) = s;
    let (p2, p3) = t;
    if orient(p0, p1, p2) == 0 && orient(p0, p1, p3) == 0 {
        lemma_collinear_swap(p0, p1, p2, p3);
    } else if orient(p2, p3, p0) == 0 && orient(p2, p3, p1) == 0 {
        lemma_collinear_swap(p2, p3, p0, p1);
    }
}

} // verus!
