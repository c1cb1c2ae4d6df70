//! Coastlines: charts, the obstacles made of them, and whether a stretch of
//! water is clear of them.
//!
//! Whether two segments cross is decided on the signs of four cross products,
//! which the caller computes: `cross(p, q, r)` tells on which side of the line
//! through `p` and `q` the point `r` lies.

use vstd::prelude::*;

use crate::scalar::{law_order_is_that_of_values, value, Point, Scalar, INFINITY_BITS};
use crate::simplify::{law_simplified_keeps_order, simplified, simplify};

verus! {

/// Pattern of minus infinity.
pub const MINUS_INFINITY_BITS: u64 = 0xfff0_0000_0000_0000;

/// Pattern of 50: how far, in metres, an obstacle may stray from the charted
/// coastline.
pub const OBSTACLE_TOLERANCE: u64 = 0x4049_0000_0000_0000;

/// Least and greatest east, least and greatest north.
pub type Bounds = (Scalar, Scalar, Scalar, Scalar);

/// The geographic centre that a chart was projected around.
#[derive(Clone, Copy, PartialEq, Eq, Structural, Debug)]
pub struct GeoOrigin {
    pub lat: Scalar,
    pub lon: Scalar,
}

/// One coastline: an island when closed, a stretch of mainland when open.
#[derive(Clone, Debug)]
pub struct ChartPolygon {
    pub name: String,
    pub closed: bool,
    pub points: Vec<Point>,
}

/// Coastlines in the local metre frame.
#[derive(Clone, Debug)]
pub struct Chart {
    pub name: String,
    pub origin: GeoOrigin,
    pub projection: String,
    pub polygons: Vec<ChartPolygon>,
}

/// A simplified coastline with its bounds.
#[derive(Debug)]
pub struct Obstacle {
    pub pts: Vec<Point>,
    pub closed: bool,
    pub bbox: Bounds,
}

/// Bounds that hold nothing.
pub open spec fn no_bounds() -> Bounds {
    (
        Scalar { bits: INFINITY_BITS },
        Scalar { bits: MINUS_INFINITY_BITS },
        Scalar { bits: INFINITY_BITS },
        Scalar { bits: MINUS_INFINITY_BITS },
    )
}

/// The least bounds that hold what `b` holds, and `p`.
pub open spec fn stretched(b: Bounds, p: Point) -> Bounds {
    (b.0.smaller(p.0), b.1.larger(p.0), b.2.smaller(p.1), b.3.larger(p.1))
}

/// The least bounds that hold what `b` holds, and a row of points.
pub open spec fn hull(b: Bounds, pts: Seq<Point>) -> Bounds
    decreases pts.len(),
{
    if pts.len() == 0 {
        b
    } else {
        stretched(hull(b, pts.drop_last()), pts.last())
    }
}

/// Whether bounds hold a point.
pub open spec fn holds(b: Bounds, p: Point) -> bool {
    b.0.at_most(p.0) && p.0.at_most(b.1) && b.2.at_most(p.1) && p.1.at_most(b.3)
}

/// Both coordinates are numbers.
pub open spec fn charted(p: Point) -> bool {
    !p.0.nan() && !p.1.nan()
}

/// Stretch bounds to a point.
pub(crate) fn stretch(b: Bounds, p: Point) -> (r: Bounds)
    ensures
        r == stretched(b, p),
{
    (b.0.min(p.0), b.1.max(p.0), b.2.min(p.1), b.3.max(p.1))
}

fn stretch_all(b: Bounds, pts: &Vec<Point>) -> (r: Bounds)
    ensures
        r == hull(b, pts@),
{
    let n: usize = pts.len();
    let mut r: Bounds = b;
    let mut i: usize = 0;
    assert(pts@.take(0) =~= Seq::<Point>::empty());
    while i < n
        invariant
            n == pts@.len(),
            i <= n,
            r == hull(b, pts@.take(i as int)),
        decreases n - i,
    {
        r = stretch(r, pts[i]);
        assert(pts@.take(i + 1).drop_last() =~= pts@.take(i as int));
        i = i + 1;
    }
    assert(pts@.take(n as int) =~= pts@);
    r
}

/// All points of a chart, coastline by coastline.
pub open spec fn all_points(polygons: Seq<ChartPolygon>) -> Seq<Point>
    decreases polygons.len(),
{
    if polygons.len() == 0 {
        Seq::empty()
    } else {
        all_points(polygons.drop_last()) + polygons.last().points@
    }
}

proof fn lemma_hull_of_two_rows(b: Bounds, p: Seq<Point>, q: Seq<Point>)
    ensures
        hull(b, p + q) == hull(hull(b, p), q),
    decreases q.len(),
{
    if q.len() == 0 {
        assert(p + q =~= p);
    } else {
        assert((p + q).drop_last() =~= p + q.drop_last());
        lemma_hull_of_two_rows(b, p, q.drop_last());
    }
}

impl Chart {
    /// Bounds of all coastlines, if there are any.
    pub fn bbox(&self) -> (r: Option<Bounds>)
        ensures
            r == (if all_points(self.polygons@).len() == 0 {
                None
            } else {
                Some(hull(no_bounds(), all_points(self.polygons@)))
            }),
    {
        let n: usize = self.polygons.len();
        let mut r: Bounds = (
            Scalar { bits: INFINITY_BITS },
            Scalar { bits: MINUS_INFINITY_BITS },
            Scalar { bits: INFINITY_BITS },
            Scalar { bits: MINUS_INFINITY_BITS },
        );
        let mut any: bool = false;
        let mut i: usize = 0;
        while i < n
            invariant
                n == self.polygons@.len(),
                i <= n,
                r == hull(no_bounds(), all_points(self.polygons@.take(i as int))),
                any == (all_points(self.polygons@.take(i as int)).len() > 0),
            decreases n - i,
        {
            proof {
                let done = self.polygons@.take(i as int);
                assert(self.polygons@.take(i + 1).drop_last() =~= done);
                lemma_hull_of_two_rows(
                    no_bounds(),
                    all_points(done),
                    self.polygons@[i as int].points@,
                );
            }
            r = stretch_all(r, &self.polygons[i].points);
            if self.polygons[i].points.len() > 0 {
                any = true;
            }
            i = i + 1;
        }
        assert(self.polygons@.take(n as int) =~= self.polygons@);
        if any {
            Some(r)
        } else {
            None
        }
    }
}

/// Bounds of a row of points, if it has any.
pub fn poly_bbox(pts: &Vec<Point>) -> (r: Option<Bounds>)
    ensures
        r == (if pts@.len() == 0 {
            None
        } else {
            let p = pts@[0];
            Some(hull((p.0, p.0, p.1, p.1), pts@))
        }),
{
    if pts.len() == 0 {
        None
    } else {
        let p: Point = pts[0];
        Some(stretch_all((p.0, p.0, p.1, p.1), pts))
    }
}

impl Obstacle {
    /// An obstacle with the bounds of its points.
    pub fn new(pts: Vec<Point>, closed: bool) -> (r: Obstacle)
        ensures
            r == (Obstacle { pts, closed, bbox: hull(no_bounds(), pts@) }),
    {
        let bbox: Bounds = stretch_all(
            (
                Scalar { bits: INFINITY_BITS },
                Scalar { bits: MINUS_INFINITY_BITS },
                Scalar { bits: INFINITY_BITS },
                Scalar { bits: MINUS_INFINITY_BITS },
            ),
            &pts,
        );
        Obstacle { pts, closed, bbox }
    }
}

/// Bounds of a segment.
pub open spec fn segment_bounds(a: Point, b: Point) -> Bounds {
    (a.0.smaller(b.0), a.0.larger(b.0), a.1.smaller(b.1), a.1.larger(b.1))
}

/// Two bounds have nothing in common.
pub open spec fn apart(s: Bounds, b: Bounds) -> bool {
    s.1.below(b.0) || b.1.below(s.0) || s.3.below(b.2) || b.3.below(s.2)
}

fn bounds_apart(a: Point, b: Point, box_of: Bounds) -> (r: bool)
    ensures
        r == apart(segment_bounds(a, b), box_of),
{
    a.0.max(b.0).lt(box_of.0) || a.0.min(b.0).gt(box_of.1) || a.1.max(b.1).lt(box_of.2) || a.1.min(
        b.1,
    ).gt(box_of.3)
}

/// One quantity lies above zero and the other below it.
pub open spec fn opposite(p: Scalar, q: Scalar) -> bool {
    let zero = Scalar { bits: 0 };
    (zero.below(p) && q.below(zero)) || (p.below(zero) && zero.below(q))
}

/// Two segments cross when each has its ends on both sides of the other. To
/// touch is not to cross.
pub open spec fn crossing(d1: Scalar, d2: Scalar, d3: Scalar, d4: Scalar) -> bool {
    opposite(d1, d2) && opposite(d3, d4)
}

/// The four cross products of the segments from `a` to `b` and from `c` to `d`.
pub open spec fn sides<F: Fn(Point, Point, Point) -> Scalar>(
    cross: F,
    a: Point,
    b: Point,
    c: Point,
    d: Point,
    s: (Scalar, Scalar, Scalar, Scalar),
) -> bool {
    &&& call_ensures(cross, (c, d, a), s.0)
    &&& call_ensures(cross, (c, d, b), s.1)
    &&& call_ensures(cross, (a, b, c), s.2)
    &&& call_ensures(cross, (a, b, d), s.3)
}

/// Whether the segments from `a` to `b` and from `c` to `d` cross is `hit`.
pub open spec fn meet<F: Fn(Point, Point, Point) -> Scalar>(
    cross: F,
    a: Point,
    b: Point,
    c: Point,
    d: Point,
    hit: bool,
) -> bool {
    exists|s: (Scalar, Scalar, Scalar, Scalar)| #[trigger]
        sides(cross, a, b, c, d, s) && hit == crossing(s.0, s.1, s.2, s.3)
}

fn straddles(p: Scalar, q: Scalar) -> (r: bool)
    ensures
        r == opposite(p, q),
{
    let zero: Scalar = Scalar::zero();
    (p.gt(zero) && q.lt(zero)) || (p.lt(zero) && q.gt(zero))
}

/// Whether the segments from `a` to `b` and from `c` to `d` cross.
pub fn segments_intersect<F: Fn(Point, Point, Point) -> Scalar>(
    a: Point,
    b: Point,
    c: Point,
    d: Point,
    cross: &F,
) -> (r: bool)
    requires
        forall|p: Point, q: Point, r: Point| call_requires(*cross, (p, q, r)),
    ensures
        meet(*cross, a, b, c, d, r),
{
    let d1: Scalar = cross(c, d, a);
    let d2: Scalar = cross(c, d, b);
    let d3: Scalar = cross(a, b, c);
    let d4: Scalar = cross(a, b, d);
    assert(sides(*cross, a, b, c, d, (d1, d2, d3, d4)));
    straddles(d1, d2) && straddles(d3, d4)
}

/// Number of edges of a coastline: one less than its points unless it closes.
pub open spec fn edge_count(n: int, closed: bool) -> int {
    if closed {
        n
    } else {
        n - 1
    }
}

/// The end of edge `i` of a coastline of `n` points.
pub open spec fn edge_end(n: int, i: int) -> int {
    if i + 1 == n {
        0
    } else {
        i + 1
    }
}

/// A stretch runs into a coastline: the bounds meet, and some edge is crossed.
pub open spec fn runs_into<F: Fn(Point, Point, Point) -> Scalar>(
    cross: F,
    a: Point,
    b: Point,
    pts: Seq<Point>,
    closed: bool,
    bounds: Bounds,
) -> bool {
    let n = pts.len() as int;
    &&& n >= 2
    &&& !apart(segment_bounds(a, b), bounds)
    &&& exists|i: int|
        0 <= i < edge_count(n, closed) && meet(
            cross,
            a,
            b,
            #[trigger] pts[i],
            pts[edge_end(n, i)],
            true,
        )
}

/// A stretch is clear of a coastline: there is no edge, the bounds are apart,
/// or no edge is crossed.
pub open spec fn clears<F: Fn(Point, Point, Point) -> Scalar>(
    cross: F,
    a: Point,
    b: Point,
    pts: Seq<Point>,
    closed: bool,
    bounds: Bounds,
) -> bool {
    let n = pts.len() as int;
    ||| n < 2
    ||| apart(segment_bounds(a, b), bounds)
    ||| forall|i: int|
        0 <= i < edge_count(n, closed) ==> meet(
            cross,
            a,
            b,
            #[trigger] pts[i],
            pts[edge_end(n, i)],
            false,
        )
}

fn outline_hit<F: Fn(Point, Point, Point) -> Scalar>(
    a: Point,
    b: Point,
    pts: &Vec<Point>,
    closed: bool,
    bounds: Bounds,
    cross: &F,
) -> (r: bool)
    requires
        forall|p: Point, q: Point, r: Point| call_requires(*cross, (p, q, r)),
    ensures
        r ==> runs_into(*cross, a, b, pts@, closed, bounds),
        !r ==> clears(*cross, a, b, pts@, closed, bounds),
{
    let n: usize = pts.len();
    if n < 2 || bounds_apart(a, b, bounds) {
        return false;
    }
    let edges: usize = if closed {
        n
    } else {
        n - 1
    };
    let mut i: usize = 0;
    while i < edges
        invariant
            n == pts@.len(),
            n >= 2,
            edges == edge_count(n as int, closed),
            i <= edges,
            !apart(segment_bounds(a, b), bounds),
            forall|p: Point, q: Point, r: Point| call_requires(*cross, (p, q, r)),
            forall|k: int|
                0 <= k < i ==> meet(
                    *cross,
                    a,
                    b,
                    #[trigger] pts@[k],
                    pts@[edge_end(n as int, k)],
                    false,
                ),
        decreases edges - i,
    {
        let next: usize = if i + 1 == n {
            0
        } else {
            i + 1
        };
        if segments_intersect(a, b, pts[i], pts[next], cross) {
            assert(meet(*cross, a, b, pts@[i as int], pts@[edge_end(n as int, i as int)], true));
            return true;
        }
        i = i + 1;
    }
    false
}

/// The bounds of a coastline with points.
pub open spec fn bounds_of(pts: Seq<Point>) -> Bounds {
    hull((pts[0].0, pts[0].0, pts[0].1, pts[0].1), pts)
}

/// Whether the stretch from `a` to `b` crosses one of the coastlines is `hit`.
pub open spec fn landfall<F: Fn(Point, Point, Point) -> Scalar>(
    cross: F,
    a: Point,
    b: Point,
    polygons: Seq<ChartPolygon>,
    hit: bool,
) -> bool {
    if hit {
        exists|k: int|
            0 <= k < polygons.len() && runs_into(
                cross,
                a,
                b,
                (#[trigger] polygons[k]).points@,
                polygons[k].closed,
                bounds_of(polygons[k].points@),
            )
    } else {
        forall|k: int|
            0 <= k < polygons.len() ==> clears(
                cross,
                a,
                b,
                (#[trigger] polygons[k]).points@,
                polygons[k].closed,
                bounds_of(polygons[k].points@),
            )
    }
}

/// Whether the stretch from `a` to `b` crosses a coastline of the chart.
pub fn segment_hits_land<F: Fn(Point, Point, Point) -> Scalar>(
    a: Point,
    b: Point,
    chart: &Chart,
    cross: &F,
) -> (r: bool)
    requires
        forall|p: Point, q: Point, r: Point| call_requires(*cross, (p, q, r)),
    ensures
        landfall(*cross, a, b, chart.polygons@, r),
{
    let n: usize = chart.polygons.len();
    let mut k: usize = 0;
    while k < n
        invariant
            n == chart.polygons@.len(),
            k <= n,
            forall|p: Point, q: Point, r: Point| call_requires(*cross, (p, q, r)),
            forall|j: int|
                0 <= j < k ==> clears(
                    *cross,
                    a,
                    b,
                    (#[trigger] chart.polygons@[j]).points@,
                    chart.polygons@[j].closed,
                    bounds_of(chart.polygons@[j].points@),
                ),
        decreases n - k,
    {
        let poly: &ChartPolygon = &chart.polygons[k];
        match poly_bbox(&poly.points) {
            Some(bounds) => {
                if outline_hit(a, b, &poly.points, poly.closed, bounds, cross) {
                    return true;
                }
            },
            None => {},
        }
        k = k + 1;
    }
    false
}

/// Whether the stretch from `a` to `b` crosses one of the obstacles.
pub fn path_hits_obstacle<F: Fn(Point, Point, Point) -> Scalar>(
    a: Point,
    b: Point,
    obstacles: &Vec<Obstacle>,
    cross: &F,
) -> (r: bool)
    requires
        forall|p: Point, q: Point, r: Point| call_requires(*cross, (p, q, r)),
    ensures
        obstructed(*cross, a, b, obstacles@, r),
{
    let n: usize = obstacles.len();
    let mut k: usize = 0;
    while k < n
        invariant
            n == obstacles@.len(),
            k <= n,
            forall|p: Point, q: Point, r: Point| call_requires(*cross, (p, q, r)),
            forall|j: int|
                0 <= j < k ==> clears(
                    *cross,
                    a,
                    b,
                    (#[trigger] obstacles@[j]).pts@,
                    obstacles@[j].closed,
                    obstacles@[j].bbox,
                ),
        decreases n - k,
    {
        let ob: &Obstacle = &obstacles[k];
        if outline_hit(a, b, &ob.pts, ob.closed, ob.bbox, cross) {
            return true;
        }
        k = k + 1;
    }
    false
}

/// Whether the stretch from `a` to `b` crosses one of the obstacles is `hit`.
pub open spec fn obstructed<F: Fn(Point, Point, Point) -> Scalar>(
    cross: F,
    a: Point,
    b: Point,
    obstacles: Seq<Obstacle>,
    hit: bool,
) -> bool {
    if hit {
        exists|k: int|
            0 <= k < obstacles.len() && runs_into(
                cross,
                a,
                b,
                (#[trigger] obstacles[k]).pts@,
                obstacles[k].closed,
                obstacles[k].bbox,
            )
    } else {
        forall|k: int|
            0 <= k < obstacles.len() ==> clears(
                cross,
                a,
                b,
                (#[trigger] obstacles[k]).pts@,
                obstacles[k].closed,
                obstacles[k].bbox,
            )
    }
}

/// The obstacle of a coastline: its points thinned to the tolerance, with
/// their bounds.
pub open spec fn obstacle_of<F: Fn(Point, Point, Point) -> Scalar>(
    dist: F,
    poly: ChartPolygon,
    ob: Obstacle,
) -> bool {
    &&& ob.closed == poly.closed
    &&& ob.bbox == hull(no_bounds(), ob.pts@)
    &&& exists|kept: Seq<usize>| #[trigger]
        simplified(poly.points@, dist, Scalar { bits: OBSTACLE_TOLERANCE }, kept) && ob.pts@
            == Seq::new(kept.len(), |k: int| poly.points@[kept[k] as int])
}

/// The obstacles of a row of coastlines: one for each that has an edge, in
/// order.
pub open spec fn obstacles_of<F: Fn(Point, Point, Point) -> Scalar>(
    dist: F,
    polygons: Seq<ChartPolygon>,
    obs: Seq<Obstacle>,
) -> bool
    decreases polygons.len(),
{
    if polygons.len() == 0 {
        obs.len() == 0
    } else if polygons.last().points@.len() < 2 {
        obstacles_of(dist, polygons.drop_last(), obs)
    } else {
        &&& obs.len() > 0
        &&& obstacle_of(dist, polygons.last(), obs.last())
        &&& obstacles_of(dist, polygons.drop_last(), obs.drop_last())
    }
}

/// Turn a chart into obstacles. `dist` gives the distance of a point from the
/// segment between two others.
pub fn build_obstacles<F: Fn(Point, Point, Point) -> Scalar>(chart: &Chart, dist: &F) -> (r: Vec<
    Obstacle,
>)
    requires
        forall|p: Point, a: Point, b: Point| call_requires(*dist, (p, a, b)),
    ensures
        obstacles_of(*dist, chart.polygons@, r@),
{
    let n: usize = chart.polygons.len();
    let mut r: Vec<Obstacle> = Vec::new();
    let mut i: usize = 0;
    while i < n
        invariant
            n == chart.polygons@.len(),
            i <= n,
            forall|p: Point, a: Point, b: Point| call_requires(*dist, (p, a, b)),
            obstacles_of(*dist, chart.polygons@.take(i as int), r@),
        decreases n - i,
    {
        let poly: &ChartPolygon = &chart.polygons[i];
        assert(chart.polygons@.take(i + 1).drop_last() =~= chart.polygons@.take(i as int));
        if poly.points.len() >= 2 {
            let ghost before = r@;
            let pts: Vec<Point> = simplify(
                &poly.points,
                Scalar { bits: OBSTACLE_TOLERANCE },
                dist,
            );
            r.push(Obstacle::new(pts, poly.closed));
            assert(r@.drop_last() =~= before);
        }
        i = i + 1;
    }
    assert(chart.polygons@.take(n as int) =~= chart.polygons@);
    r
}

/// Every obstacle of a chart has an edge, and begins and ends where its
/// coastline does.
pub proof fn law_obstacles_have_edges<F: Fn(Point, Point, Point) -> Scalar>(
    dist: F,
    poly: ChartPolygon,
    ob: Obstacle,
)
    requires
        2 <= poly.points@.len() <= usize::MAX,
        obstacle_of(dist, poly, ob),
    ensures
        ob.pts@.len() >= 2,
        ob.pts@.first() == poly.points@.first(),
        ob.pts@.last() == poly.points@.last(),
{
    let kept = choose|kept: Seq<usize>| #[trigger]
        simplified(poly.points@, dist, Scalar { bits: OBSTACLE_TOLERANCE }, kept) && ob.pts@
            == Seq::new(kept.len(), |k: int| poly.points@[kept[k] as int]);
    law_simplified_keeps_order(poly.points@, dist, Scalar { bits: OBSTACLE_TOLERANCE }, kept);
}

/// Bounds hold every point that they were made of.
pub proof fn law_bounds_hold_their_points(pts: Seq<Point>, i: int)
    requires
        0 <= i < pts.len(),
        forall|k: int| 0 <= k < pts.len() ==> charted(#[trigger] pts[k]),
    ensures
        holds(hull(no_bounds(), pts), pts[i]),
        holds(bounds_of(pts), pts[i]),
{
    lemma_hull_holds(no_bounds(), pts, i);
    let p = pts[0];
    assert(charted(p));
    lemma_hull_holds((p.0, p.0, p.1, p.1), pts, i);
}

pub(crate) proof fn lemma_hull_holds(b: Bounds, pts: Seq<Point>, i: int)
    requires
        0 <= i < pts.len(),
        forall|k: int| 0 <= k < pts.len() ==> charted(#[trigger] pts[k]),
        !b.0.nan() && !b.1.nan() && !b.2.nan() && !b.3.nan(),
    ensures
        ({
            let h = hull(b, pts);
            &&& !h.0.nan() && !h.1.nan() && !h.2.nan() && !h.3.nan()
            &&& holds(h, pts[i])
        }),
    decreases pts.len(),
{
    assert(charted(pts[i]));
    assert(charted(pts.last()));
    let rest = pts.drop_last();
    if i < rest.len() {
        lemma_hull_holds(b, rest, i);
        assert(rest[i] == pts[i]);
    } else if rest.len() > 0 {
        lemma_hull_holds(b, rest, 0);
    }
}

/// Each bound of a row of points is a coordinate of one of them.
pub proof fn law_bounds_are_tight(pts: Seq<Point>)
    requires
        pts.len() > 0,
    ensures
        exists|k: int| 0 <= k < pts.len() && bounds_of(pts).0 == (#[trigger] pts[k]).0,
        exists|k: int| 0 <= k < pts.len() && bounds_of(pts).1 == (#[trigger] pts[k]).0,
        exists|k: int| 0 <= k < pts.len() && bounds_of(pts).2 == (#[trigger] pts[k]).1,
        exists|k: int| 0 <= k < pts.len() && bounds_of(pts).3 == (#[trigger] pts[k]).1,
{
    lemma_hull_is_tight(pts, pts.len() as int);
    assert(pts.take(pts.len() as int) =~= pts);
}

proof fn lemma_hull_is_tight(pts: Seq<Point>, n: int)
    requires
        0 <= n <= pts.len(),
        pts.len() > 0,
    ensures
        ({
            let p = pts[0];
            let h = hull((p.0, p.0, p.1, p.1), pts.take(n));
            &&& exists|k: int| 0 <= k < pts.len() && h.0 == (#[trigger] pts[k]).0
            &&& exists|k: int| 0 <= k < pts.len() && h.1 == (#[trigger] pts[k]).0
            &&& exists|k: int| 0 <= k < pts.len() && h.2 == (#[trigger] pts[k]).1
            &&& exists|k: int| 0 <= k < pts.len() && h.3 == (#[trigger] pts[k]).1
        }),
    decreases n,
{
    if n > 0 {
        lemma_hull_is_tight(pts, n - 1);
        assert(pts.take(n).drop_last() =~= pts.take(n - 1));
        assert(pts.take(n).last() == pts[n - 1]);
    } else {
        assert(pts[0] == pts[0]);
    }
}

/// The start of edge `i` of a closed coastline of `n` points, walked backwards.
pub open spec fn edge_start(n: int, i: int) -> int {
    if i == 0 {
        n - 1
    } else {
        i - 1
    }
}

/// Exactly one of two heights lies above a third.
pub open spec fn spans(a: Point, b: Point, height: Scalar) -> bool {
    height.below(a.1) != height.below(b.1)
}

/// Whether a ray from `p` to the east meets the edge from `a` to `b` is `hit`.
/// `edge_x` tells how far east the edge lies at a height.
pub open spec fn ray_meets<E: Fn(Scalar, Point, Point) -> Scalar>(
    edge_x: E,
    p: Point,
    a: Point,
    b: Point,
    hit: bool,
) -> bool {
    if spans(a, b, p.1) {
        exists|x: Scalar| #[trigger]
            call_ensures(edge_x, (p.1, a, b), x) && hit == p.0.below(x)
    } else {
        !hit
    }
}

/// Whether an odd number of flags is set.
pub open spec fn odd(flags: Seq<bool>) -> bool
    decreases flags.len(),
{
    if flags.len() == 0 {
        false
    } else {
        odd(flags.drop_last()) != flags.last()
    }
}

/// A point lies inside when the ray meets the edges an odd number of times.
pub open spec fn encloses<E: Fn(Scalar, Point, Point) -> Scalar>(
    edge_x: E,
    p: Point,
    pts: Seq<Point>,
    inside: bool,
) -> bool {
    if pts.len() < 3 {
        !inside
    } else {
        exists|hits: Seq<bool>|
            {
                &&& hits.len() == pts.len()
                &&& inside == #[trigger] odd(hits)
                &&& forall|i: int|
                    0 <= i < hits.len() ==> ray_meets(
                        edge_x,
                        p,
                        pts[i],
                        pts[edge_start(pts.len() as int, i)],
                        #[trigger] hits[i],
                    )
            }
    }
}

/// Whether `p` lies inside the closed coastline.
pub fn point_in_polygon<E: Fn(Scalar, Point, Point) -> Scalar>(
    p: Point,
    pts: &Vec<Point>,
    edge_x: &E,
) -> (r: bool)
    requires
        forall|y: Scalar, a: Point, b: Point| call_requires(*edge_x, (y, a, b)),
    ensures
        encloses(*edge_x, p, pts@, r),
{
    let n: usize = pts.len();
    if n < 3 {
        return false;
    }
    let ghost mut hits: Seq<bool> = Seq::empty();
    let mut inside: bool = false;
    let mut j: usize = n - 1;
    let mut i: usize = 0;
    while i < n
        invariant
            n == pts@.len(),
            n >= 3,
            i <= n,
            i < n ==> j == edge_start(n as int, i as int),
            forall|y: Scalar, a: Point, b: Point| call_requires(*edge_x, (y, a, b)),
            hits.len() == i,
            inside == odd(hits),
            forall|k: int|
                0 <= k < hits.len() ==> ray_meets(
                    *edge_x,
                    p,
                    pts@[k],
                    pts@[edge_start(n as int, k)],
                    #[trigger] hits[k],
                ),
        decreases n - i,
    {
        let a: Point = pts[i];
        let b: Point = pts[j];
        let hit: bool = if a.1.gt(p.1) != b.1.gt(p.1) {
            let x: Scalar = edge_x(p.1, a, b);
            assert(call_ensures(*edge_x, (p.1, a, b), x));
            p.0.lt(x)
        } else {
            false
        };
        proof {
            let now = hits.push(hit);
            assert(now.drop_last() =~= hits);
            hits = now;
        }
        if hit {
            inside = !inside;
        }
        j = i;
        i = i + 1;
    }
    inside
}

/// A point that lies above every point of a coastline, or below every one, is
/// not inside it.
pub proof fn law_outside_by_height<E: Fn(Scalar, Point, Point) -> Scalar>(
    edge_x: E,
    p: Point,
    pts: Seq<Point>,
    inside: bool,
)
    requires
        encloses(edge_x, p, pts, inside),
        (forall|i: int| 0 <= i < pts.len() ==> p.1.below((#[trigger] pts[i]).1)) || (forall|i: int|
            0 <= i < pts.len() ==> !p.1.below((#[trigger] pts[i]).1)),
    ensures
        !inside,
{
    if pts.len() >= 3 {
        let hits = choose|hits: Seq<bool>|
            {
                &&& hits.len() == pts.len()
                &&& inside == #[trigger] odd(hits)
                &&& forall|i: int|
                    0 <= i < hits.len() ==> ray_meets(
                        edge_x,
                        p,
                        pts[i],
                        pts[edge_start(pts.len() as int, i)],
                        #[trigger] hits[i],
                    )
            };
        assert forall|i: int| 0 <= i < hits.len() implies !(#[trigger] hits[i]) by {
            let j = edge_start(pts.len() as int, i);
            assert(p.1.below(pts[i].1) == p.1.below(pts[j].1));
        }
        lemma_none_is_even(hits);
    }
}

proof fn lemma_none_is_even(flags: Seq<bool>)
    requires
        forall|i: int| 0 <= i < flags.len() ==> !(#[trigger] flags[i]),
    ensures
        !odd(flags),
    decreases flags.len(),
{
    if flags.len() > 0 {
        lemma_none_is_even(flags.drop_last());
        assert(!flags[flags.len() - 1]);
    }
}

/// Both coordinates are finite numbers.
pub open spec fn finite(p: Point) -> bool {
    p.0.magnitude() < INFINITY_BITS && p.1.magnitude() < INFINITY_BITS
}

/// On which side of the line through `p` and `q` the point `r` lies: the cross
/// product of the exact coordinates.
pub open spec fn true_side(p: Point, q: Point, r: Point) -> int {
    (value(q.0) - value(p.0)) * (value(r.1) - value(p.1)) - (value(q.1) - value(p.1)) * (value(r.0)
        - value(p.0))
}

/// The cross products have the right sign.
pub open spec fn tells_sides<F: Fn(Point, Point, Point) -> Scalar>(cross: F) -> bool {
    forall|p: Point, q: Point, r: Point, s: Scalar|
        finite(p) && finite(q) && finite(r) && #[trigger] call_ensures(cross, (p, q, r), s) ==> {
            &&& (Scalar { bits: 0 }).below(s) <==> true_side(p, q, r) > 0
            &&& s.below(Scalar { bits: 0 }) <==> true_side(p, q, r) < 0
        }
}

/// Cross product of whole numbers.
spec fn side(px: int, py: int, qx: int, qy: int, rx: int, ry: int) -> int {
    (qx - px) * (ry - py) - (qy - py) * (rx - px)
}

/// Where two segments cross, the crossing lies on both of them: its first
/// coordinate, times the same weight, comes out of either.
proof fn lemma_crossing_point(
    ax: int,
    ay: int,
    bx: int,
    by: int,
    cx: int,
    cy: int,
    dx: int,
    dy: int,
)
    ensures
        ({
            let d1 = side(cx, cy, dx, dy, ax, ay);
            let d2 = side(cx, cy, dx, dy, bx, by);
            let d3 = side(ax, ay, bx, by, cx, cy);
            let d4 = side(ax, ay, bx, by, dx, dy);
            &&& bx * d1 - ax * d2 == cx * d4 - dx * d3
            &&& d1 - d2 == d4 - d3
        }),
{
    let d1 = side(cx, cy, dx, dy, ax, ay);
    let d2 = side(cx, cy, dx, dy, bx, by);
    let d3 = side(ax, ay, bx, by, cx, cy);
    let d4 = side(ax, ay, bx, by, dx, dy);
    assert(d1 - d2 == d4 - d3) by (nonlinear_arith)
        requires
            d1 == (dx - cx) * (ay - cy) - (dy - cy) * (ax - cx),
            d2 == (dx - cx) * (by - cy) - (dy - cy) * (bx - cx),
            d3 == (bx - ax) * (cy - ay) - (by - ay) * (cx - ax),
            d4 == (bx - ax) * (dy - ay) - (by - ay) * (dx - ax),
    ;
    let (p, q) = (bx - ax, by - ay);
    let (r, s) = (cx - ax, cy - ay);
    let (u, v) = (dx - ax, dy - ay);
    assert(d1 == v * r - u * s) by (nonlinear_arith)
        requires
            d1 == (dx - cx) * (ay - cy) - (dy - cy) * (ax - cx),
            r == cx - ax,
            s == cy - ay,
            u == dx - ax,
            v == dy - ay,
    ;
    assert(p * (v * r - u * s) == r * (p * v - q * u) - u * (p * s - q * r)) by (nonlinear_arith);
    assert(d3 == p * s - q * r && d4 == p * v - q * u);
    assert(bx * d1 - ax * d2 == ax * (d1 - d2) + p * d1) by (nonlinear_arith)
        requires
            p == bx - ax,
    ;
    assert(cx * d4 - dx * d3 == ax * (d4 - d3) + r * d4 - u * d3) by (nonlinear_arith)
        requires
            r == cx - ax,
            u == dx - ax,
    ;
}

/// Segments of which one lies wholly before the other in the first coordinate
/// do not cross.
proof fn lemma_apart_do_not_cross(
    ax: int,
    ay: int,
    bx: int,
    by: int,
    cx: int,
    cy: int,
    dx: int,
    dy: int,
)
    requires
        ax < cx && ax < dx && bx < cx && bx < dx,
    ensures
        ({
            let d1 = side(cx, cy, dx, dy, ax, ay);
            let d2 = side(cx, cy, dx, dy, bx, by);
            let d3 = side(ax, ay, bx, by, cx, cy);
            let d4 = side(ax, ay, bx, by, dx, dy);
            !(((d1 > 0 && d2 < 0) || (d1 < 0 && d2 > 0)) && ((d3 > 0 && d4 < 0) || (d3 < 0 && d4
                > 0)))
        }),
{
    let d1 = side(cx, cy, dx, dy, ax, ay);
    let d2 = side(cx, cy, dx, dy, bx, by);
    let d3 = side(ax, ay, bx, by, cx, cy);
    let d4 = side(ax, ay, bx, by, dx, dy);
    lemma_crossing_point(ax, ay, bx, by, cx, cy, dx, dy);
    let m: int = if ax < bx {
        bx
    } else {
        ax
    };
    if d1 > 0 && d2 < 0 && d3 < 0 && d4 > 0 {
        assert(bx * d1 - ax * d2 <= m * (d1 - d2)) by (nonlinear_arith)
            requires
                ax <= m,
                bx <= m,
                d1 > 0,
                d2 < 0,
        ;
        assert(cx * d4 - dx * d3 > m * (d4 - d3)) by (nonlinear_arith)
            requires
                m < cx,
                m < dx,
                d4 > 0,
                d3 < 0,
        ;
    }
    if d1 < 0 && d2 > 0 && d3 > 0 && d4 < 0 {
        assert(bx * d1 - ax * d2 >= m * (d1 - d2)) by (nonlinear_arith)
            requires
                ax <= m,
                bx <= m,
                d1 < 0,
                d2 > 0,
        ;
        assert(cx * d4 - dx * d3 < m * (d4 - d3)) by (nonlinear_arith)
            requires
                m < cx,
                m < dx,
                d4 < 0,
                d3 > 0,
        ;
    }
}

/// Turning the plane over turns every cross product around.
proof fn lemma_sides_turn_over(px: int, py: int, qx: int, qy: int, rx: int, ry: int)
    ensures
        side(py, px, qy, qx, ry, rx) == -side(px, py, qx, qy, rx, ry),
{
    assert((qy - py) * (rx - px) - (qx - px) * (ry - py) == -((qx - px) * (ry - py) - (qy - py) * (
    rx - px))) by (nonlinear_arith);
}

/// The segments from `a` to `b` and from `c` to `d` cross: each has its ends on
/// both sides of the other.
pub open spec fn truly_cross(a: Point, b: Point, c: Point, d: Point) -> bool {
    let (d1, d2) = (true_side(c, d, a), true_side(c, d, b));
    let (d3, d4) = (true_side(a, b, c), true_side(a, b, d));
    &&& (d1 > 0 && d2 < 0) || (d1 < 0 && d2 > 0)
    &&& (d3 > 0 && d4 < 0) || (d3 < 0 && d4 > 0)
}

/// A segment crosses none whose ends lie in bounds apart from its own.
proof fn lemma_apart_bounds_do_not_meet(a: Point, b: Point, c: Point, d: Point, bounds: Bounds)
    requires
        finite(a) && finite(b) && finite(c) && finite(d),
        holds(bounds, c) && holds(bounds, d),
        apart(segment_bounds(a, b), bounds),
    ensures
        !truly_cross(a, b, c, d),
{
    let (ax, ay, bx, by) = (value(a.0), value(a.1), value(b.0), value(b.1));
    let (cx, cy, dx, dy) = (value(c.0), value(c.1), value(d.0), value(d.1));
    law_order_is_that_of_values(a.0, c.0);
    law_order_is_that_of_values(a.0, d.0);
    law_order_is_that_of_values(b.0, c.0);
    law_order_is_that_of_values(b.0, d.0);
    law_order_is_that_of_values(c.0, a.0);
    law_order_is_that_of_values(d.0, a.0);
    law_order_is_that_of_values(c.0, b.0);
    law_order_is_that_of_values(d.0, b.0);
    law_order_is_that_of_values(a.1, c.1);
    law_order_is_that_of_values(a.1, d.1);
    law_order_is_that_of_values(b.1, c.1);
    law_order_is_that_of_values(b.1, d.1);
    law_order_is_that_of_values(c.1, a.1);
    law_order_is_that_of_values(d.1, a.1);
    law_order_is_that_of_values(c.1, b.1);
    law_order_is_that_of_values(d.1, b.1);
    let d1 = side(cx, cy, dx, dy, ax, ay);
    let d2 = side(cx, cy, dx, dy, bx, by);
    let d3 = side(ax, ay, bx, by, cx, cy);
    let d4 = side(ax, ay, bx, by, dx, dy);
    assert(d1 == true_side(c, d, a) && d2 == true_side(c, d, b));
    assert(d3 == true_side(a, b, c) && d4 == true_side(a, b, d));
    if ax < cx && ax < dx && bx < cx && bx < dx {
        lemma_apart_do_not_cross(ax, ay, bx, by, cx, cy, dx, dy);
    } else if cx < ax && dx < ax && cx < bx && dx < bx {
        lemma_apart_do_not_cross(cx, cy, dx, dy, ax, ay, bx, by);
    } else {
        lemma_sides_turn_over(cx, cy, dx, dy, ax, ay);
        lemma_sides_turn_over(cx, cy, dx, dy, bx, by);
        lemma_sides_turn_over(ax, ay, bx, by, cx, cy);
        lemma_sides_turn_over(ax, ay, bx, by, dx, dy);
        if ay < cy && ay < dy && by < cy && by < dy {
            lemma_apart_do_not_cross(ay, ax, by, bx, cy, cx, dy, dx);
        } else {
            assert(cy < ay && dy < ay && cy < by && dy < by);
            lemma_apart_do_not_cross(cy, cx, dy, dx, ay, ax, by, bx);
        }
    }
}

/// What the four cross products say of a crossing is so.
proof fn lemma_meeting_is_true<F: Fn(Point, Point, Point) -> Scalar>(
    cross: F,
    a: Point,
    b: Point,
    c: Point,
    d: Point,
    hit: bool,
)
    requires
        tells_sides(cross),
        finite(a) && finite(b) && finite(c) && finite(d),
        meet(cross, a, b, c, d, hit),
    ensures
        hit == truly_cross(a, b, c, d),
{
    let s = choose|s: (Scalar, Scalar, Scalar, Scalar)| #[trigger]
        sides(cross, a, b, c, d, s) && hit == crossing(s.0, s.1, s.2, s.3);
    assert(call_ensures(cross, (c, d, a), s.0));
    assert(call_ensures(cross, (c, d, b), s.1));
    assert(call_ensures(cross, (a, b, c), s.2));
    assert(call_ensures(cross, (a, b, d), s.3));
}

/// Looking at the bounds first hides no crossing: where they are apart, no
/// segment between two points of the coastline is crossed.
pub proof fn law_bounds_hide_no_crossing(a: Point, b: Point, pts: Seq<Point>, i: int, j: int)
    requires
        finite(a) && finite(b),
        forall|k: int| 0 <= k < pts.len() ==> finite(#[trigger] pts[k]),
        0 <= i < pts.len(),
        0 <= j < pts.len(),
        apart(segment_bounds(a, b), bounds_of(pts)) || apart(
            segment_bounds(a, b),
            hull(no_bounds(), pts),
        ),
    ensures
        !truly_cross(a, b, pts[i], pts[j]),
{
    assert forall|k: int| 0 <= k < pts.len() implies charted(#[trigger] pts[k]) by {
        assert(finite(pts[k]));
    }
    law_bounds_hold_their_points(pts, i);
    law_bounds_hold_their_points(pts, j);
    assert(finite(pts[i]) && finite(pts[j]));
    if apart(segment_bounds(a, b), bounds_of(pts)) {
        lemma_apart_bounds_do_not_meet(a, b, pts[i], pts[j], bounds_of(pts));
    } else {
        lemma_apart_bounds_do_not_meet(a, b, pts[i], pts[j], hull(no_bounds(), pts));
    }
}

/// A stretch that is clear of a row of coastlines crosses no edge of any of
/// them, as long as the cross products have the right sign.
pub proof fn law_clear_stretch_crosses_no_edge<F: Fn(Point, Point, Point) -> Scalar>(
    cross: F,
    a: Point,
    b: Point,
    polygons: Seq<ChartPolygon>,
    k: int,
    i: int,
)
    requires
        tells_sides(cross),
        finite(a) && finite(b),
        landfall(cross, a, b, polygons, false),
        0 <= k < polygons.len(),
        polygons[k].points@.len() >= 2,
        forall|j: int|
            0 <= j < polygons[k].points@.len() ==> finite(#[trigger] polygons[k].points@[j]),
        0 <= i < edge_count(polygons[k].points@.len() as int, polygons[k].closed),
    ensures
        !truly_cross(
            a,
            b,
            polygons[k].points@[i],
            polygons[k].points@[edge_end(polygons[k].points@.len() as int, i)],
        ),
{
    let pts = polygons[k].points@;
    let j = edge_end(pts.len() as int, i);
    assert(clears(cross, a, b, pts, polygons[k].closed, bounds_of(pts)));
    assert(finite(pts[i]) && finite(pts[j]));
    if apart(segment_bounds(a, b), bounds_of(pts)) {
        law_bounds_hide_no_crossing(a, b, pts, i, j);
    } else {
        assert(meet(cross, a, b, pts[i], pts[j], false));
        lemma_meeting_is_true(cross, a, b, pts[i], pts[j], false);
    }
}

/// Two segments are said to cross exactly when each has its ends on both sides of
/// the other, as long as the cross products have the right sign.
pub proof fn law_crossing_is_told<F: Fn(Point, Point, Point) -> Scalar>(
    cross: F,
    a: Point,
    b: Point,
    c: Point,
    d: Point,
    hit: bool,
)
    requires
        tells_sides(cross),
        finite(a) && finite(b) && finite(c) && finite(d),
        meet(cross, a, b, c, d, hit),
    ensures
        ({
            let (d1, d2) = (true_side(c, d, a), true_side(c, d, b));
            let (d3, d4) = (true_side(a, b, c), true_side(a, b, d));
            hit <==> ((d1 > 0 && d2 < 0) || (d1 < 0 && d2 > 0)) && ((d3 > 0 && d4 < 0) || (d3 < 0
                && d4 > 0))
        }),
{
    lemma_meeting_is_true(cross, a, b, c, d, hit);
}

/// A coastline has no edge, or a stretch that is clear of it crosses none: not
/// one from a point to the next, and not the closing one where it closes. A
/// stretch that runs into it crosses one of these.
proof fn lemma_outline_is_told<F: Fn(Point, Point, Point) -> Scalar>(
    cross: F,
    a: Point,
    b: Point,
    pts: Seq<Point>,
    closed: bool,
    bounds: Bounds,
)
    requires
        tells_sides(cross),
        finite(a) && finite(b),
        forall|j: int| 0 <= j < pts.len() ==> finite(#[trigger] pts[j]),
        pts.len() > 0 ==> bounds == bounds_of(pts) || bounds == hull(no_bounds(), pts),
    ensures
        clears(cross, a, b, pts, closed, bounds) ==> forall|i: int, j: int|
            0 <= i < pts.len() && 0 <= j < pts.len() && (j == i + 1 || (closed && i == pts.len() - 1
                && j == 0 && pts.len() > 1)) ==> !truly_cross(
                a,
                b,
                #[trigger] pts[i],
                #[trigger] pts[j],
            ),
        runs_into(cross, a, b, pts, closed, bounds) ==> exists|i: int, j: int|
            0 <= i < pts.len() && 0 <= j < pts.len() && (j == i + 1 || (closed && i == pts.len() - 1
                && j == 0)) && truly_cross(a, b, #[trigger] pts[i], #[trigger] pts[j]),
{
    let n = pts.len() as int;
    if clears(cross, a, b, pts, closed, bounds) {
        assert forall|i: int, j: int|
            0 <= i < pts.len() && 0 <= j < pts.len() && (j == i + 1 || (closed && i == pts.len() - 1
                && j == 0 && pts.len() > 1)) implies !truly_cross(
            a,
            b,
            #[trigger] pts[i],
            #[trigger] pts[j],
        ) by {
            assert(finite(pts[i]) && finite(pts[j]));
            if apart(segment_bounds(a, b), bounds) {
                law_bounds_hide_no_crossing(a, b, pts, i, j);
            } else {
                assert(j == edge_end(n, i));
                assert(meet(cross, a, b, pts[i], pts[edge_end(n, i)], false));
                lemma_meeting_is_true(cross, a, b, pts[i], pts[j], false);
            }
        }
    }
    if runs_into(cross, a, b, pts, closed, bounds) {
        let i = choose|i: int|
            0 <= i < edge_count(n, closed) && meet(
                cross,
                a,
                b,
                #[trigger] pts[i],
                pts[edge_end(n, i)],
                true,
            );
        let j = edge_end(n, i);
        assert(finite(pts[i]) && finite(pts[j]));
        lemma_meeting_is_true(cross, a, b, pts[i], pts[j], true);
    }
}

/// A stretch is said to cross the land exactly when it crosses an edge of some
/// coastline: one from a point to the next, or the closing one of a coastline
/// that closes.
pub proof fn law_landfall_is_told<F: Fn(Point, Point, Point) -> Scalar>(
    cross: F,
    a: Point,
    b: Point,
    polygons: Seq<ChartPolygon>,
    hit: bool,
)
    requires
        tells_sides(cross),
        finite(a) && finite(b),
        forall|k: int, j: int|
            0 <= k < polygons.len() && 0 <= j < polygons[k].points@.len() ==> finite(
                #[trigger] polygons[k].points@[j],
            ),
        landfall(cross, a, b, polygons, hit),
    ensures
        !hit ==> forall|k: int, i: int, j: int|
            0 <= k < polygons.len() && 0 <= i < polygons[k].points@.len() && 0 <= j
                < polygons[k].points@.len() && (j == i + 1 || (polygons[k].closed && i
                == polygons[k].points@.len() - 1 && j == 0 && i > 0)) ==> !truly_cross(
                a,
                b,
                #[trigger] polygons[k].points@[i],
                #[trigger] polygons[k].points@[j],
            ),
        hit ==> exists|k: int, i: int, j: int|
            0 <= k < polygons.len() && 0 <= i < polygons[k].points@.len() && 0 <= j
                < polygons[k].points@.len() && (j == i + 1 || (polygons[k].closed && i
                == polygons[k].points@.len() - 1 && j == 0)) && truly_cross(
                a,
                b,
                #[trigger] polygons[k].points@[i],
                #[trigger] polygons[k].points@[j],
            ),
{
    assert forall|k: int| 0 <= k < polygons.len() implies {
        let pts = (#[trigger] polygons[k]).points@;
        forall|j: int| 0 <= j < pts.len() ==> finite(#[trigger] pts[j])
    } by {
        let pts = polygons[k].points@;
        assert forall|j: int| 0 <= j < pts.len() implies finite(#[trigger] pts[j]) by {
            assert(finite(polygons[k].points@[j]));
        }
    }
    if hit {
        let k = choose|k: int|
            0 <= k < polygons.len() && runs_into(
                cross,
                a,
                b,
                (#[trigger] polygons[k]).points@,
                polygons[k].closed,
                bounds_of(polygons[k].points@),
            );
        let pts = polygons[k].points@;
        lemma_outline_is_told(cross, a, b, pts, polygons[k].closed, bounds_of(pts));
        let (i, j) = choose|i: int, j: int|
            0 <= i < pts.len() && 0 <= j < pts.len() && (j == i + 1 || (polygons[k].closed && i
                == pts.len() - 1 && j == 0)) && truly_cross(
                a,
                b,
                #[trigger] pts[i],
                #[trigger] pts[j],
            );
        assert(truly_cross(a, b, polygons[k].points@[i], polygons[k].points@[j]));
    } else {
        assert forall|k: int, i: int, j: int|
            0 <= k < polygons.len() && 0 <= i < polygons[k].points@.len() && 0 <= j
                < polygons[k].points@.len() && (j == i + 1 || (polygons[k].closed && i
                == polygons[k].points@.len() - 1 && j == 0 && i > 0)) implies !truly_cross(
            a,
            b,
            #[trigger] polygons[k].points@[i],
            #[trigger] polygons[k].points@[j],
        ) by {
            let pts = polygons[k].points@;
            assert(clears(cross, a, b, pts, polygons[k].closed, bounds_of(pts)));
            lemma_outline_is_told(cross, a, b, pts, polygons[k].closed, bounds_of(pts));
            assert(!truly_cross(a, b, pts[i], pts[j]));
        }
    }
}

/// A stretch is said to cross an obstacle exactly when it crosses an edge of one,
/// as long as each has the bounds of its points.
pub proof fn law_obstruction_is_told<F: Fn(Point, Point, Point) -> Scalar>(
    cross: F,
    a: Point,
    b: Point,
    obstacles: Seq<Obstacle>,
    hit: bool,
)
    requires
        tells_sides(cross),
        finite(a) && finite(b),
        forall|k: int, j: int|
            0 <= k < obstacles.len() && 0 <= j < obstacles[k].pts@.len() ==> finite(
                #[trigger] obstacles[k].pts@[j],
            ),
        forall|k: int|
            0 <= k < obstacles.len() ==> (#[trigger] obstacles[k]).bbox == hull(
                no_bounds(),
                obstacles[k].pts@,
            ),
        obstructed(cross, a, b, obstacles, hit),
    ensures
        !hit ==> forall|k: int, i: int, j: int|
            0 <= k < obstacles.len() && 0 <= i < obstacles[k].pts@.len() && 0 <= j
                < obstacles[k].pts@.len() && (j == i + 1 || (obstacles[k].closed && i
                == obstacles[k].pts@.len() - 1 && j == 0 && i > 0)) ==> !truly_cross(
                a,
                b,
                #[trigger] obstacles[k].pts@[i],
                #[trigger] obstacles[k].pts@[j],
            ),
        hit ==> exists|k: int, i: int, j: int|
            0 <= k < obstacles.len() && 0 <= i < obstacles[k].pts@.len() && 0 <= j
                < obstacles[k].pts@.len() && (j == i + 1 || (obstacles[k].closed && i
                == obstacles[k].pts@.len() - 1 && j == 0)) && truly_cross(
                a,
                b,
                #[trigger] obstacles[k].pts@[i],
                #[trigger] obstacles[k].pts@[j],
            ),
{
    assert forall|k: int| 0 <= k < obstacles.len() implies {
        let pts = (#[trigger] obstacles[k]).pts@;
        forall|j: int| 0 <= j < pts.len() ==> finite(#[trigger] pts[j])
    } by {
        let pts = obstacles[k].pts@;
        assert forall|j: int| 0 <= j < pts.len() implies finite(#[trigger] pts[j]) by {
            assert(finite(obstacles[k].pts@[j]));
        }
    }
    if hit {
        let k = choose|k: int|
            0 <= k < obstacles.len() && runs_into(
                cross,
                a,
                b,
                (#[trigger] obstacles[k]).pts@,
                obstacles[k].closed,
                obstacles[k].bbox,
            );
        let pts = obstacles[k].pts@;
        lemma_outline_is_told(cross, a, b, pts, obstacles[k].closed, obstacles[k].bbox);
        let (i, j) = choose|i: int, j: int|
            0 <= i < pts.len() && 0 <= j < pts.len() && (j == i + 1 || (obstacles[k].closed && i
                == pts.len() - 1 && j == 0)) && truly_cross(
                a,
                b,
                #[trigger] pts[i],
                #[trigger] pts[j],
            );
        assert(truly_cross(a, b, obstacles[k].pts@[i], obstacles[k].pts@[j]));
    } else {
        assert forall|k: int, i: int, j: int|
            0 <= k < obstacles.len() && 0 <= i < obstacles[k].pts@.len() && 0 <= j
                < obstacles[k].pts@.len() && (j == i + 1 || (obstacles[k].closed && i
                == obstacles[k].pts@.len() - 1 && j == 0 && i > 0)) implies !truly_cross(
            a,
            b,
            #[trigger] obstacles[k].pts@[i],
            #[trigger] obstacles[k].pts@[j],
        ) by {
            let pts = obstacles[k].pts@;
            assert(clears(cross, a, b, pts, obstacles[k].closed, obstacles[k].bbox));
            lemma_outline_is_told(cross, a, b, pts, obstacles[k].closed, obstacles[k].bbox);
            assert(!truly_cross(a, b, pts[i], pts[j]));
        }
    }
}

proof fn lemma_all_points_hold(polygons: Seq<ChartPolygon>, k: int, i: int)
    requires
        0 <= k < polygons.len(),
        0 <= i < polygons[k].points@.len(),
    ensures
        exists|m: int|
            0 <= m < all_points(polygons).len() && #[trigger] all_points(polygons)[m]
                == polygons[k].points@[i],
    decreases polygons.len(),
{
    let rest = polygons.drop_last();
    if k < rest.len() {
        lemma_all_points_hold(rest, k, i);
        let m = choose|m: int|
            0 <= m < all_points(rest).len() && #[trigger] all_points(rest)[m]
                == rest[k].points@[i];
        assert(all_points(polygons)[m] == polygons[k].points@[i]);
    } else {
        let m = all_points(rest).len() + i;
        assert(all_points(polygons)[m] == polygons[k].points@[i]);
    }
}

pub(crate) proof fn lemma_all_points_are_charted(polygons: Seq<ChartPolygon>)
    requires
        forall|k: int, i: int|
            0 <= k < polygons.len() && 0 <= i < polygons[k].points@.len() ==> charted(
                #[trigger] polygons[k].points@[i],
            ),
    ensures
        forall|m: int| 0 <= m < all_points(polygons).len() ==> charted(#[trigger] all_points(polygons)[m]),
    decreases polygons.len(),
{
    if polygons.len() > 0 {
        let rest = polygons.drop_last();
        let last = polygons.len() - 1;
        assert forall|k: int, i: int|
            0 <= k < rest.len() && 0 <= i < rest[k].points@.len() implies charted(
            #[trigger] rest[k].points@[i],
        ) by {
            assert(charted(polygons[k].points@[i]));
        }
        lemma_all_points_are_charted(rest);
        assert forall|m: int| 0 <= m < all_points(polygons).len() implies charted(
            #[trigger] all_points(polygons)[m],
        ) by {
            if m < all_points(rest).len() {
                assert(charted(all_points(rest)[m]));
            } else {
                assert(charted(polygons[last].points@[m - all_points(rest).len()]));
            }
        }
    }
}

/// The bounds of a chart hold every point of every coastline.
pub proof fn law_chart_bounds_hold_every_coastline(polygons: Seq<ChartPolygon>, k: int, i: int)
    requires
        0 <= k < polygons.len(),
        0 <= i < polygons[k].points@.len(),
        forall|k: int, i: int|
            0 <= k < polygons.len() && 0 <= i < polygons[k].points@.len() ==> charted(
                #[trigger] polygons[k].points@[i],
            ),
    ensures
        all_points(polygons).len() > 0,
        ({
            let b = hull(no_bounds(), all_points(polygons));
            let p = polygons[k].points@[i];
            b.0.at_most(p.0) && p.0.at_most(b.1) && b.2.at_most(p.1) && p.1.at_most(b.3)
        }),
{
    lemma_all_points_hold(polygons, k, i);
    lemma_all_points_are_charted(polygons);
    let m = choose|m: int|
        0 <= m < all_points(polygons).len() && #[trigger] all_points(polygons)[m]
            == polygons[k].points@[i];
    law_bounds_hold_their_points(all_points(polygons), m);
}

/// Bounds made from nothing are no wider than their points need: each is a
/// coordinate of one of them, as long as all of them are numbers.
pub proof fn law_bounds_from_nothing_are_tight(pts: Seq<Point>)
    requires
        pts.len() > 0,
        forall|k: int| 0 <= k < pts.len() ==> charted(#[trigger] pts[k]),
    ensures
        ({
            let b = hull(no_bounds(), pts);
            &&& exists|k: int| 0 <= k < pts.len() && b.0.same((#[trigger] pts[k]).0)
            &&& exists|k: int| 0 <= k < pts.len() && b.1.same((#[trigger] pts[k]).0)
            &&& exists|k: int| 0 <= k < pts.len() && b.2.same((#[trigger] pts[k]).1)
            &&& exists|k: int| 0 <= k < pts.len() && b.3.same((#[trigger] pts[k]).1)
        }),
    decreases pts.len(),
{
    let rest = pts.drop_last();
    let end = pts.len() - 1;
    assert(charted(pts[end]));
    assert(pts.last() == pts[end]);
    if rest.len() == 0 {
        let p = pts[end];
        assert(hull(no_bounds(), rest) == no_bounds());
        let b = stretched(no_bounds(), p);
        assert(b.0.same(p.0) && b.1.same(p.0) && b.2.same(p.1) && b.3.same(p.1));
    } else {
        assert forall|k: int| 0 <= k < rest.len() implies charted(#[trigger] rest[k]) by {
            assert(charted(pts[k]));
        }
        law_bounds_from_nothing_are_tight(rest);
        let b = hull(no_bounds(), rest);
        let k0 = choose|k: int| 0 <= k < rest.len() && b.0.same((#[trigger] rest[k]).0);
        let k1 = choose|k: int| 0 <= k < rest.len() && b.1.same((#[trigger] rest[k]).0);
        let k2 = choose|k: int| 0 <= k < rest.len() && b.2.same((#[trigger] rest[k]).1);
        let k3 = choose|k: int| 0 <= k < rest.len() && b.3.same((#[trigger] rest[k]).1);
        assert(rest[k0] == pts[k0] && rest[k1] == pts[k1] && rest[k2] == pts[k2] && rest[k3]
            == pts[k3]);
    }
}

proof fn lemma_one_flag_turns_parity(a: Seq<bool>, b: Seq<bool>, m: int)
    requires
        a.len() == b.len(),
        0 <= m < a.len(),
        forall|i: int| 0 <= i < a.len() ==> (#[trigger] a[i] == b[i] <==> i != m),
    ensures
        odd(a) != odd(b),
    decreases a.len(),
{
    let (x, y) = (a.drop_last(), b.drop_last());
    if m == a.len() - 1 {
        assert(a[a.len() - 1] != b[a.len() - 1]);
        assert(x =~= y) by {
            assert forall|i: int| 0 <= i < x.len() implies x[i] == y[i] by {
                assert(a[i] == b[i]);
            }
        }
    } else {
        assert(a[a.len() - 1] == b[a.len() - 1]);
        assert forall|i: int| 0 <= i < x.len() implies (#[trigger] x[i] == y[i] <==> i != m) by {
            assert(a[i] == b[i] <==> i != m);
        }
        lemma_one_flag_turns_parity(x, y, m);
    }
}

/// Walking from one point to another at the same height turns inside to outside
/// and outside to inside where just one edge of the coastline lies between them.
pub proof fn law_crossing_an_edge_changes_sides<E: Fn(Scalar, Point, Point) -> Scalar>(
    edge_x: E,
    p: Point,
    q: Point,
    pts: Seq<Point>,
    p_inside: bool,
    q_inside: bool,
    m: int,
)
    requires
        pts.len() >= 3,
        encloses(edge_x, p, pts, p_inside),
        encloses(edge_x, q, pts, q_inside),
        p.1 == q.1,
        0 <= m < pts.len(),
        forall|h: Scalar, a: Point, b: Point, x: Scalar, y: Scalar|
            #![trigger call_ensures(edge_x, (h, a, b), x), call_ensures(edge_x, (h, a, b), y)]
            call_ensures(edge_x, (h, a, b), x) && call_ensures(edge_x, (h, a, b), y) ==> x == y,
        forall|i: int, x: Scalar|
            #![trigger pts[i], p.0.below(x)]
            0 <= i < pts.len() && call_ensures(
                edge_x,
                (
                    p.1,
                    pts[i],
                    pts[if i == 0 {
                        pts.len() - 1
                    } else {
                        i - 1
                    }],
                ),
                x,
            ) ==> if i == m {
                p.0.below(x) && !q.0.below(x)
            } else {
                p.0.below(x) == q.0.below(x)
            },
        p.1.below(pts[m].1) != p.1.below(
            pts[if m == 0 {
                pts.len() - 1
            } else {
                m - 1
            }].1,
        ),
    ensures
        p_inside != q_inside,
{
    let n = pts.len() as int;
    let hp = choose|hits: Seq<bool>|
        {
            &&& hits.len() == pts.len()
            &&& p_inside == #[trigger] odd(hits)
            &&& forall|i: int|
                0 <= i < hits.len() ==> ray_meets(
                    edge_x,
                    p,
                    pts[i],
                    pts[edge_start(n, i)],
                    #[trigger] hits[i],
                )
        };
    let hq = choose|hits: Seq<bool>|
        {
            &&& hits.len() == pts.len()
            &&& q_inside == #[trigger] odd(hits)
            &&& forall|i: int|
                0 <= i < hits.len() ==> ray_meets(
                    edge_x,
                    q,
                    pts[i],
                    pts[edge_start(n, i)],
                    #[trigger] hits[i],
                )
        };
    assert forall|i: int| 0 <= i < hp.len() implies (#[trigger] hp[i] == hq[i] <==> i != m) by {
        let b = pts[edge_start(n, i)];
        assert(ray_meets(edge_x, p, pts[i], b, hp[i]));
        assert(ray_meets(edge_x, q, pts[i], b, hq[i]));
        if spans(pts[i], b, p.1) {
            let x = choose|x: Scalar| #[trigger]
                call_ensures(edge_x, (p.1, pts[i], b), x) && hp[i] == p.0.below(x);
            let y = choose|y: Scalar| #[trigger]
                call_ensures(edge_x, (q.1, pts[i], b), y) && hq[i] == q.0.below(y);
            assert(x == y);
            assert(hp[i] == p.0.below(x));
        }
    }
    lemma_one_flag_turns_parity(hp, hq, m);
}

/// A point east of every edge at its height is outside.
pub proof fn law_east_of_every_edge_is_outside<E: Fn(Scalar, Point, Point) -> Scalar>(
    edge_x: E,
    p: Point,
    pts: Seq<Point>,
    inside: bool,
)
    requires
        encloses(edge_x, p, pts, inside),
        forall|a: Point, b: Point, x: Scalar| #[trigger]
            call_ensures(edge_x, (p.1, a, b), x) ==> !p.0.below(x),
    ensures
        !inside,
{
    if pts.len() >= 3 {
        let n = pts.len() as int;
        let hits = choose|hits: Seq<bool>|
            {
                &&& hits.len() == pts.len()
                &&& inside == #[trigger] odd(hits)
                &&& forall|i: int|
                    0 <= i < hits.len() ==> ray_meets(
                        edge_x,
                        p,
                        pts[i],
                        pts[edge_start(n, i)],
                        #[trigger] hits[i],
                    )
            };
        assert forall|i: int| 0 <= i < hits.len() implies !(#[trigger] hits[i]) by {
            assert(ray_meets(edge_x, p, pts[i], pts[edge_start(n, i)], hits[i]));
        }
        lemma_none_is_even(hits);
    }
}

/// Every coastline with an edge becomes an obstacle that is closed where the
/// coastline is, has an edge and the same ends, and holds the bounds of its points.
/// There are no more obstacles than coastlines.
pub proof fn law_every_coastline_is_an_obstacle<F: Fn(Point, Point, Point) -> Scalar>(
    dist: F,
    polygons: Seq<ChartPolygon>,
    obs: Seq<Obstacle>,
    k: int,
)
    requires
        obstacles_of(dist, polygons, obs),
        forall|k: int| 0 <= k < polygons.len() ==> (#[trigger] polygons[k]).points@.len() <= usize::MAX,
        0 <= k < polygons.len(),
        polygons[k].points@.len() >= 2,
    ensures
        exists|m: int|
            {
                &&& 0 <= m < obs.len()
                &&& (#[trigger] obs[m]).closed == polygons[k].closed
                &&& obs[m].bbox == hull(no_bounds(), obs[m].pts@)
                &&& obs[m].pts@.len() >= 2
                &&& obs[m].pts@.first() == polygons[k].points@.first()
                &&& obs[m].pts@.last() == polygons[k].points@.last()
                &&& m <= k
            },
        obs.len() <= polygons.len(),
    decreases polygons.len(),
{
    let rest = polygons.drop_last();
    assert forall|j: int| 0 <= j < rest.len() implies (#[trigger] rest[j]).points@.len()
        <= usize::MAX by {
        assert(polygons[j].points@.len() <= usize::MAX);
    }
    lemma_no_more_obstacles(dist, polygons, obs);
    if polygons.last().points@.len() < 2 {
        law_every_coastline_is_an_obstacle(dist, rest, obs, k);
    } else if k == polygons.len() - 1 {
        let m = obs.len() - 1;
        law_obstacles_have_edges(dist, polygons[k], obs[m]);
    } else {
        law_every_coastline_is_an_obstacle(dist, rest, obs.drop_last(), k);
        let was = obs.drop_last();
        let m = choose|m: int|
            {
                &&& 0 <= m < was.len()
                &&& (#[trigger] was[m]).closed == rest[k].closed
                &&& was[m].bbox == hull(no_bounds(), was[m].pts@)
                &&& was[m].pts@.len() >= 2
                &&& was[m].pts@.first() == rest[k].points@.first()
                &&& was[m].pts@.last() == rest[k].points@.last()
                &&& m <= k
            };
        assert(obs[m] == was[m]);
    }
}

proof fn lemma_no_more_obstacles<F: Fn(Point, Point, Point) -> Scalar>(
    dist: F,
    polygons: Seq<ChartPolygon>,
    obs: Seq<Obstacle>,
)
    requires
        obstacles_of(dist, polygons, obs),
    ensures
        obs.len() <= polygons.len(),
    decreases polygons.len(),
{
    if polygons.len() > 0 {
        if polygons.last().points@.len() < 2 {
            lemma_no_more_obstacles(dist, polygons.drop_last(), obs);
        } else {
            lemma_no_more_obstacles(dist, polygons.drop_last(), obs.drop_last());
        }
    }
}

/// Bounds that are stretched still hold what they held.
pub(crate) proof fn lemma_hull_widens(b: Bounds, pts: Seq<Point>, p: Point)
    requires
        holds(b, p),
        forall|k: int| 0 <= k < pts.len() ==> charted(#[trigger] pts[k]),
    ensures
        holds(hull(b, pts), p),
    decreases pts.len(),
{
    if pts.len() > 0 {
        let rest = pts.drop_last();
        assert forall|k: int| 0 <= k < rest.len() implies charted(#[trigger] rest[k]) by {
            assert(charted(pts[k]));
        }
        lemma_hull_widens(b, rest, p);
        assert(charted(pts[pts.len() - 1]));
    }
}

/// Bounds that are stretched to points within others stay within those.
pub(crate) proof fn lemma_hull_stays_within(b: Bounds, pts: Seq<Point>, c: Bounds)
    requires
        c.0.at_most(b.0) && b.1.at_most(c.1) && c.2.at_most(b.2) && b.3.at_most(c.3),
        forall|k: int| 0 <= k < pts.len() ==> holds(c, #[trigger] pts[k]),
    ensures
        ({
            let h = hull(b, pts);
            c.0.at_most(h.0) && h.1.at_most(c.1) && c.2.at_most(h.2) && h.3.at_most(c.3)
        }),
    decreases pts.len(),
{
    if pts.len() > 0 {
        let rest = pts.drop_last();
        assert forall|k: int| 0 <= k < rest.len() implies holds(c, #[trigger] rest[k]) by {
            assert(holds(c, pts[k]));
        }
        lemma_hull_stays_within(b, rest, c);
        assert(holds(c, pts[pts.len() - 1]));
    }
}

/// Obstacles are thinned to 50 m.
pub proof fn law_obstacles_are_thinned_to_fifty_metres()
    ensures
        OBSTACLE_TOLERANCE == 0x4049_0000_0000_0000,
{
}

} // verus!
