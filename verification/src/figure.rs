//! What the figures show: titles, extents, rings, spokes, curves and outlines.

use vstd::arithmetic::power2::pow2;
use vstd::prelude::*;

use crate::coast::{
    all_points, charted, holds, hull, law_bounds_hold_their_points,
    law_chart_bounds_hold_every_coastline, lemma_hull_holds, lemma_hull_widens, no_bounds, stretch,
    Bounds, Chart, ChartPolygon, MINUS_INFINITY_BITS, OBSTACLE_TOLERANCE,
};
use crate::number::from_whole;
use crate::polar::Sample;
use crate::route::Route;
use crate::scalar::{value, Point, Scalar, INFINITY_BITS, ONE_BITS};
use crate::simplify::{simplified, simplify};

verus! {

/// Pattern of 3: a faster polar has the widest rings.
pub const FAST_POLAR: u64 = 0x4008_0000_0000_0000;

/// Pattern of 0.2: the narrowest rings, in metres per second.
pub const NARROW_RING: u64 = 0x3fc9_9999_9999_999a;

/// Pattern of 0.5: the middle rings.
pub const MIDDLE_RING: u64 = 0x3fe0_0000_0000_0000;

/// Number of colours for the tracks of a fleet.
pub const PALETTE_SIZE: usize = 6;

/// A coastline of more points is thinned before it is shown.
pub const DENSE_OUTLINE: usize = 30;

/// Title of the figure of one boat's track.
pub fn trajectory_title(route: Option<&str>, chart: Option<&str>) -> (r: String)
    ensures
        r@ == (match (route, chart) {
            (Some(a), Some(b)) => a@ + " on "@ + b@,
            (Some(a), None) => "Route: "@ + a@,
            (None, Some(b)) => b@,
            (None, None) => "Trajectory"@,
        }),
{
    match (route, chart) {
        (Some(a), Some(b)) => {
            let mut text: String = a.to_string();
            text.append(" on ");
            text.append(b);
            text
        },
        (Some(a), None) => {
            let mut text: String = "Route: ".to_string();
            text.append(a);
            text
        },
        (None, Some(b)) => b.to_string(),
        (None, None) => "Trajectory".to_string(),
    }
}

/// Title of the figure of a fleet.
pub fn fleet_title(route: &str, chart: Option<&str>) -> (r: String)
    ensures
        r@ == (match chart {
            Some(b) => "Fleet: "@ + route@ + " on "@ + b@,
            None => "Fleet: "@ + route@,
        }),
{
    let mut text: String = "Fleet: ".to_string();
    text.append(route);
    if let Some(b) = chart {
        text.append(" on ");
        text.append(b);
    }
    text
}

/// The points of a route.
pub open spec fn route_points(route: Option<&Route>) -> Seq<Point> {
    match route {
        Some(r) => Seq::new(r.waypoints@.len(), |i: int| (r.waypoints@[i].x, r.waypoints@[i].y)),
        None => Seq::empty(),
    }
}

/// The points of all coastlines.
pub open spec fn chart_points(chart: Option<&Chart>) -> Seq<Point> {
    match chart {
        Some(c) => crate::coast::all_points(c.polygons@),
        None => Seq::empty(),
    }
}

/// The extent of a figure: the bounds of the track, of the route and of the
/// chart together.
pub fn extent(track: &Vec<Point>, route: Option<&Route>, chart: Option<&Chart>) -> (r: Bounds)
    ensures
        r == hull(
            hull(hull(no_bounds(), track@), route_points(route)),
            chart_corners(chart),
        ),
{
    let mut b: Bounds = (
        Scalar { bits: INFINITY_BITS },
        Scalar { bits: MINUS_INFINITY_BITS },
        Scalar { bits: INFINITY_BITS },
        Scalar { bits: MINUS_INFINITY_BITS },
    );
    let n: usize = track.len();
    let mut i: usize = 0;
    assert(track@.take(0) =~= Seq::<Point>::empty());
    while i < n
        invariant
            n == track@.len(),
            i <= n,
            b == hull(no_bounds(), track@.take(i as int)),
        decreases n - i,
    {
        b = stretch(b, track[i]);
        assert(track@.take(i + 1).drop_last() =~= track@.take(i as int));
        i = i + 1;
    }
    assert(track@.take(n as int) =~= track@);
    let ghost sailed_over = b;
    if let Some(r) = route {
        let ghost pts = route_points(route);
        let m: usize = r.waypoints.len();
        let mut k: usize = 0;
        assert(pts.take(0) =~= Seq::<Point>::empty());
        while k < m
            invariant
                m == r.waypoints@.len(),
                k <= m,
                pts == Seq::new(
                    r.waypoints@.len(),
                    |i: int| (r.waypoints@[i].x, r.waypoints@[i].y),
                ),
                b == hull(sailed_over, pts.take(k as int)),
            decreases m - k,
        {
            b = stretch(b, (r.waypoints[k].x, r.waypoints[k].y));
            assert(pts.take(k + 1).drop_last() =~= pts.take(k as int));
            k = k + 1;
        }
        assert(pts.take(m as int) =~= pts);
    }
    let ghost routed = b;
    if let Some(c) = chart {
        if let Some(x) = c.bbox() {
            b = stretch(stretch(b, (x.0, x.2)), (x.1, x.3));
            proof {
                let corners = chart_corners(chart);
                assert(corners.drop_last() =~= seq![(x.0, x.2)]);
                assert(seq![(x.0, x.2)].drop_last() =~= Seq::<Point>::empty());
                assert(hull(routed, Seq::<Point>::empty()) == routed);
                assert(hull(routed, seq![(x.0, x.2)]) == crate::coast::stretched(
                    routed,
                    (x.0, x.2),
                ));
            }
        }
    }
    b
}

/// Two opposite corners of the bounds of a chart, if it has any points.
pub open spec fn chart_corners(chart: Option<&Chart>) -> Seq<Point> {
    let pts = chart_points(chart);
    if pts.len() == 0 {
        Seq::empty()
    } else {
        let h = hull(no_bounds(), pts);
        seq![(h.0, h.2), (h.1, h.3)]
    }
}

/// Whether a coastline is filled: only an island with an inside.
pub fn filled(poly: &ChartPolygon) -> (r: bool)
    ensures
        r == (poly.closed && poly.points@.len() >= 3),
{
    poly.closed && poly.points.len() >= 3
}

/// The colour of the track of boat `i`.
pub fn palette_index(i: usize) -> (r: usize)
    ensures
        r == i % PALETTE_SIZE,
        r < PALETTE_SIZE,
{
    i % PALETTE_SIZE
}

/// The outline of a coastline as it is shown: a dense one is thinned.
pub open spec fn outlined<F: Fn(Point, Point, Point) -> Scalar>(
    dist: F,
    pts: Seq<Point>,
    r: Seq<Point>,
) -> bool {
    if pts.len() > DENSE_OUTLINE {
        exists|kept: Seq<usize>| #[trigger]
            simplified(pts, dist, Scalar { bits: OBSTACLE_TOLERANCE }, kept) && r == Seq::new(
                kept.len(),
                |k: int| pts[kept[k] as int],
            )
    } else {
        r == pts
    }
}

/// The outline of a coastline as it is shown.
pub fn outline<F: Fn(Point, Point, Point) -> Scalar>(pts: &Vec<Point>, dist: &F) -> (r: Vec<Point>)
    requires
        forall|p: Point, a: Point, b: Point| call_requires(*dist, (p, a, b)),
    ensures
        outlined(*dist, pts@, r@),
{
    if pts.len() > DENSE_OUTLINE {
        simplify(pts, Scalar { bits: OBSTACLE_TOLERANCE }, dist)
    } else {
        let n: usize = pts.len();
        let mut r: Vec<Point> = Vec::new();
        let mut i: usize = 0;
        while i < n
            invariant
                n == pts@.len(),
                i <= n,
                r@ =~= pts@.take(i as int),
            decreases n - i,
        {
            r.push(pts[i]);
            i = i + 1;
        }
        assert(pts@.take(n as int) =~= pts@);
        r
    }
}

/// How far apart the rings of a polar are, from its best speed.
pub fn ring_step(max_speed: Scalar) -> (r: Scalar)
    ensures
        r == (if max_speed.at_most(Scalar { bits: ONE_BITS }) {
            Scalar { bits: NARROW_RING }
        } else if max_speed.at_most(Scalar { bits: FAST_POLAR }) {
            Scalar { bits: MIDDLE_RING }
        } else {
            Scalar { bits: ONE_BITS }
        }),
{
    if max_speed.le(Scalar::one()) {
        Scalar { bits: NARROW_RING }
    } else if max_speed.le(Scalar { bits: FAST_POLAR }) {
        Scalar { bits: MIDDLE_RING }
    } else {
        Scalar::one()
    }
}

/// The spokes of a polar, in degrees: every thirty on both sides, but straight
/// ahead and straight astern only once.
pub open spec fn spokes_spec() -> Seq<i32> {
    seq![
        0i32,
        30i32,
        (-30) as i32,
        60i32,
        (-60) as i32,
        90i32,
        (-90) as i32,
        120i32,
        (-120) as i32,
        150i32,
        (-150) as i32,
        180i32,
    ]
}

/// The spokes of a polar, in degrees.
pub fn spokes() -> (r: Vec<i32>)
    ensures
        r@ == spokes_spec(),
{
    let mut r: Vec<i32> = Vec::new();
    let mut twa: i32 = 0;
    r.push(twa);
    twa = 30;
    assert(r@ =~= spokes_spec().take(1));
    while twa < 180
        invariant
            30 <= twa <= 180,
            twa % 30 == 0,
            r@ =~= spokes_spec().take(2 * (twa / 30) - 1),
        decreases 180 - twa,
    {
        r.push(twa);
        r.push(-twa);
        twa = twa + 30;
    }
    r.push(twa);
    assert(r@ =~= spokes_spec());
    r
}

/// A polar drawn on both sides: as sampled, and back again mirrored.
pub open spec fn mirrored_spec(polar: Seq<Sample>) -> Seq<Sample> {
    polar + Seq::new(
        polar.len(),
        |i: int|
            {
                let s = polar[polar.len() - 1 - i];
                (s.0.flipped(), s.1)
            },
    )
}

/// A polar drawn on both sides.
pub fn mirrored(polar: &Vec<Sample>) -> (r: Vec<Sample>)
    ensures
        r@ == mirrored_spec(polar@),
{
    let n: usize = polar.len();
    let mut r: Vec<Sample> = Vec::new();
    let mut i: usize = 0;
    while i < n
        invariant
            n == polar@.len(),
            i <= n,
            r@ =~= polar@.take(i as int),
        decreases n - i,
    {
        r.push(polar[i]);
        i = i + 1;
    }
    assert(r@ =~= polar@);
    let mut k: usize = n;
    while k > 0
        invariant
            n == polar@.len(),
            k <= n,
            r@ =~= mirrored_spec(polar@).take(2 * n - k),
        decreases k,
    {
        k = k - 1;
        r.push((polar[k].0.neg(), polar[k].1));
    }
    assert(r@ =~= mirrored_spec(polar@));
    r
}

/// A boat sails as well on one side as on the other: the curve is the same read
/// backwards, with the angles turned around.
pub proof fn law_curve_is_symmetric(polar: Seq<Sample>, i: int)
    requires
        0 <= i < 2 * polar.len(),
    ensures
        mirrored_spec(polar).len() == 2 * polar.len(),
        ({
            let a = mirrored_spec(polar)[i];
            let b = mirrored_spec(polar)[2 * polar.len() - 1 - i];
            a.0 == b.0.flipped() && a.1 == b.1
        }),
{
}

/// The point of sail at an angle to the true wind, in whole degrees.
pub open spec fn point_of_sail_spec(twa: int) -> Seq<char> {
    if twa <= 50 {
        "close hauled"@
    } else if twa <= 80 {
        "close reach"@
    } else if twa <= 100 {
        "beam reach"@
    } else if twa <= 150 {
        "broad reach"@
    } else {
        "run"@
    }
}

/// The point of sail at an angle to the true wind, in whole degrees.
pub fn point_of_sail(twa: i32) -> (r: &'static str)
    ensures
        r@ == point_of_sail_spec(twa as int),
{
    if twa <= 50 {
        "close hauled"
    } else if twa <= 80 {
        "close reach"
    } else if twa <= 100 {
        "beam reach"
    } else if twa <= 150 {
        "broad reach"
    } else {
        "run"
    }
}

/// The angles at which a polar is measured, in degrees: every fifteen from
/// thirty to dead downwind.
pub fn polar_angles() -> (r: Vec<u32>)
    ensures
        r@ == angles_spec(),
{
    let mut r: Vec<u32> = Vec::new();
    let mut twa: u32 = 30;
    let ghost all = angles_spec();
    while twa <= 180
        invariant
            30 <= twa <= 195,
            twa % 15 == 0,
            all == angles_spec(),
            r@ =~= all.take(twa / 15 - 2),
        decreases 195 - twa,
    {
        r.push(twa);
        twa = twa + 15;
    }
    assert(r@ =~= all);
    r
}

/// Half the width of a gauge on the status screen, in pixels.
pub const GAUGE_CENTRE: i32 = 64;

/// The filled part of a gauge with its zero in the middle: where it begins and
/// how wide it is. Nothing is filled at zero.
pub fn gauge_bar(span: i32) -> (r: Option<(i32, u32)>)
    requires
        -GAUGE_CENTRE <= span <= GAUGE_CENTRE,
    ensures
        r == (if span > 0 {
            Some((GAUGE_CENTRE, span as u32))
        } else if span < 0 {
            Some(((GAUGE_CENTRE + span) as i32, (-span) as u32))
        } else {
            None
        }),
{
    if span > 0 {
        Some((GAUGE_CENTRE, span as u32))
    } else if span < 0 {
        Some((GAUGE_CENTRE + span, (-span) as u32))
    } else {
        None
    }
}

/// Samples of a polar taken at each angle in turn.
pub open spec fn measured_polar<F: Fn(u32) -> Result<Scalar, String>>(
    run: F,
    angles: Seq<u32>,
    samples: Seq<Sample>,
) -> bool {
    &&& samples.len() <= angles.len()
    &&& forall|i: int|
        0 <= i < samples.len() ==> {
            &&& value((#[trigger] samples[i]).0) == angles[i] * pow2(1074)
            &&& !samples[i].0.negative()
            &&& call_ensures(run, (angles[i],), Ok(samples[i].1))
        }
}

/// Measure a polar: `run` gives the steady speed at an angle to the true wind,
/// in degrees. The first run that fails ends it.
pub fn measure_polar<F: Fn(u32) -> Result<Scalar, String>>(run: &F) -> (r: Result<
    Vec<Sample>,
    String,
>)
    requires
        forall|a: u32| call_requires(*run, (a,)),
    ensures
        match r {
            Ok(samples) => samples@.len() == angles_spec().len() && measured_polar(
                *run,
                angles_spec(),
                samples@,
            ),
            Err(e) => failed_polar(*run, angles_spec(), e),
        },
{
    let angles: Vec<u32> = polar_angles();
    let n: usize = angles.len();
    let mut samples: Vec<Sample> = Vec::new();
    let mut i: usize = 0;
    while i < n
        invariant
            n == angles@.len(),
            i <= n,
            angles@ == angles_spec(),
            forall|a: u32| call_requires(*run, (a,)),
            samples@.len() == i,
            measured_polar(*run, angles@, samples@),
        decreases n - i,
    {
        let a: u32 = angles[i];
        match run(a) {
            Ok(speed) => {
                samples.push((from_whole(a as u64), speed));
            },
            Err(e) => {
                let failure: Result<Vec<Sample>, String> = Err(e);
                assert(stopped_at(*run, angles_spec(), samples@, failure->Err_0));
                return failure;
            },
        }
        i = i + 1;
    }
    Ok(samples)
}

/// The angles at which a polar is measured.
pub open spec fn angles_spec() -> Seq<u32> {
    seq![30u32, 45, 60, 75, 90, 105, 120, 135, 150, 165, 180]
}

/// The run behind the samples so far failed with `e`.
pub open spec fn stopped_at<F: Fn(u32) -> Result<Scalar, String>>(
    run: F,
    angles: Seq<u32>,
    samples: Seq<Sample>,
    e: String,
) -> bool {
    &&& samples.len() < angles.len()
    &&& measured_polar(run, angles, samples)
    &&& call_ensures(run, (angles[samples.len() as int],), Err(e))
}

/// A run failed with `e`, and none before it.
pub open spec fn failed_polar<F: Fn(u32) -> Result<Scalar, String>>(
    run: F,
    angles: Seq<u32>,
    e: String,
) -> bool {
    exists|samples: Seq<Sample>| #[trigger] stopped_at(run, angles, samples, e)
}

/// The extent of a figure holds every point of the track, every waypoint of the
/// route and every point of the chart.
pub proof fn law_extent_holds_everything(
    track: Seq<Point>,
    route: Option<&Route>,
    chart: Option<&Chart>,
    p: Point,
)
    requires
        forall|i: int| 0 <= i < track.len() ==> charted(#[trigger] track[i]),
        route is Some ==> forall|i: int|
            0 <= i < route->0.waypoints@.len() ==> !(#[trigger] route->0.waypoints@[i]).x.nan()
                && !route->0.waypoints@[i].y.nan(),
        chart is Some ==> forall|k: int, i: int|
            0 <= k < chart->0.polygons@.len() && 0 <= i < chart->0.polygons@[k].points@.len()
                ==> charted(#[trigger] chart->0.polygons@[k].points@[i]),
        track.contains(p) || (route is Some && exists|i: int|
            0 <= i < route->0.waypoints@.len() && p == (
                (#[trigger] route->0.waypoints@[i]).x,
                route->0.waypoints@[i].y,
            )) || (chart is Some && exists|k: int, i: int|
            0 <= k < chart->0.polygons@.len() && 0 <= i < chart->0.polygons@[k].points@.len() && p
                == #[trigger] chart->0.polygons@[k].points@[i]),
    ensures
        ({
            let b = hull(
                hull(hull(no_bounds(), track), route_points(route)),
                chart_corners(chart),
            );
            b.0.at_most(p.0) && p.0.at_most(b.1) && b.2.at_most(p.1) && p.1.at_most(b.3)
        }),
{
    let b0 = no_bounds();
    let b1 = hull(b0, track);
    let rp = route_points(route);
    let b2 = hull(b1, rp);
    let cc = chart_corners(chart);
    assert forall|i: int| 0 <= i < rp.len() implies charted(#[trigger] rp[i]) by {
        let w = route->0.waypoints@[i];
    }
    lemma_bounds_are_numbers(b0, track);
    lemma_bounds_are_numbers(b1, rp);
    if chart is Some {
        let polygons = chart->0.polygons@;
        let all = all_points(polygons);
        if all.len() > 0 {
            lemma_points_charted(polygons);
            let h = hull(b0, all);
            lemma_bounds_are_numbers(b0, all);
            assert(cc[0] == (h.0, h.2) && cc[1] == (h.1, h.3));
            assert forall|i: int| 0 <= i < cc.len() implies charted(#[trigger] cc[i]) by {}
            lemma_hull_holds(b2, cc, 0);
            lemma_hull_holds(b2, cc, 1);
        }
    }
    if track.contains(p) {
        let i = track.index_of(p);
        lemma_hull_holds(b0, track, i);
        lemma_hull_widens(b1, rp, p);
        lemma_hull_widens(b2, cc, p);
    } else if route is Some && rp.contains(p) {
        let i = rp.index_of(p);
        lemma_hull_holds(b1, rp, i);
        lemma_hull_widens(b2, cc, p);
    } else {
        if route is Some && exists|i: int|
            0 <= i < route->0.waypoints@.len() && p == (
                (#[trigger] route->0.waypoints@[i]).x,
                route->0.waypoints@[i].y,
            ) {
            let i = choose|i: int|
                0 <= i < route->0.waypoints@.len() && p == (
                    (#[trigger] route->0.waypoints@[i]).x,
                    route->0.waypoints@[i].y,
                );
            assert(rp[i] == p);
            assert(false);
        }
        let polygons = chart->0.polygons@;
        let (k, i) = choose|k: int, i: int|
            0 <= k < polygons.len() && 0 <= i < polygons[k].points@.len() && p
                == #[trigger] polygons[k].points@[i];
        law_chart_bounds_hold_every_coastline(polygons, k, i);
    }
}

proof fn lemma_bounds_are_numbers(b: Bounds, pts: Seq<Point>)
    requires
        !b.0.nan() && !b.1.nan() && !b.2.nan() && !b.3.nan(),
        forall|k: int| 0 <= k < pts.len() ==> charted(#[trigger] pts[k]),
    ensures
        ({
            let h = hull(b, pts);
            !h.0.nan() && !h.1.nan() && !h.2.nan() && !h.3.nan()
        }),
{
    if pts.len() > 0 {
        lemma_hull_holds(b, pts, 0);
    }
}

proof fn lemma_points_charted(polygons: Seq<ChartPolygon>)
    requires
        forall|k: int, i: int|
            0 <= k < polygons.len() && 0 <= i < polygons[k].points@.len() ==> charted(
                #[trigger] polygons[k].points@[i],
            ),
    ensures
        forall|m: int| 0 <= m < all_points(polygons).len() ==> charted(#[trigger] all_points(polygons)[m]),
    decreases polygons.len(),
{
    crate::coast::lemma_all_points_are_charted(polygons);
}

/// The curve of a polar on both sides begins with the polar as it was sampled.
pub proof fn law_curve_begins_with_the_polar(polar: Seq<Sample>, i: int)
    requires
        0 <= i < polar.len(),
    ensures
        mirrored_spec(polar)[i] == polar[i],
        mirrored_spec(polar).len() == 2 * polar.len(),
{
}

/// An outline of few points is shown as it is. A dense one is shown with its ends
/// and with fewer points at most, all of them its own.
pub proof fn law_outline_keeps_its_ends<F: Fn(Point, Point, Point) -> Scalar>(
    dist: F,
    pts: Seq<Point>,
    r: Seq<Point>,
)
    requires
        outlined(dist, pts, r),
        0 < pts.len() <= usize::MAX,
    ensures
        pts.len() <= DENSE_OUTLINE ==> r == pts,
        r.len() <= pts.len(),
        r[0] == pts[0],
        r[r.len() - 1] == pts[pts.len() - 1],
        forall|i: int| 0 <= i < r.len() ==> pts.contains(#[trigger] r[i]),
{
    if pts.len() > DENSE_OUTLINE {
        let kept = choose|kept: Seq<usize>| #[trigger]
            simplified(pts, dist, Scalar { bits: OBSTACLE_TOLERANCE }, kept) && r == Seq::new(
                kept.len(),
                |k: int| pts[kept[k] as int],
            );
        crate::simplify::law_simplified_keeps_order(
            pts,
            dist,
            Scalar { bits: OBSTACLE_TOLERANCE },
            kept,
        );
        assert forall|i: int| 0 <= i < r.len() implies pts.contains(#[trigger] r[i]) by {
            assert(pts[kept[i] as int] == r[i]);
        }
    }
}

/// The points of sail follow one another from close to the wind to dead downwind.
pub proof fn law_points_of_sail_follow_the_angle(twa: int)
    ensures
        twa <= 50 ==> point_of_sail_spec(twa) == "close hauled"@,
        50 < twa <= 80 ==> point_of_sail_spec(twa) == "close reach"@,
        80 < twa <= 100 ==> point_of_sail_spec(twa) == "beam reach"@,
        100 < twa <= 150 ==> point_of_sail_spec(twa) == "broad reach"@,
        150 < twa ==> point_of_sail_spec(twa) == "run"@,
{
}

/// A polar is measured every fifteen degrees from thirty to dead downwind.
pub proof fn law_polar_is_measured_every_fifteen_degrees(i: int)
    requires
        0 <= i <= 10,
    ensures
        angles_spec().len() == 11,
        angles_spec()[i] == 30 + 15 * i,
{
}

/// There is a spoke every thirty degrees on both sides, and one straight ahead and
/// one straight astern.
pub proof fn law_spokes_stand_every_thirty_degrees(k: int)
    requires
        1 <= k <= 5,
    ensures
        spokes_spec().len() == 12,
        spokes_spec()[0] == 0,
        spokes_spec()[11] == 180,
        spokes_spec()[2 * k - 1] == 30 * k,
        spokes_spec()[2 * k] == -30 * k,
{
}

/// Each sample of a measured polar is the speed of the run at its own angle.
pub proof fn law_sample_is_the_speed_at_its_angle<F: Fn(u32) -> Result<Scalar, String>>(
    run: F,
    angles: Seq<u32>,
    samples: Seq<Sample>,
    i: int,
)
    requires
        measured_polar(run, angles, samples),
        0 <= i < samples.len(),
    ensures
        samples.len() <= angles.len(),
        value(samples[i].0) == angles[i] * pow2(1074),
        call_ensures(run, (angles[i],), Ok(samples[i].1)),
{
}

/// The rings of a polar are 0.2 m/s apart at the narrowest and 0.5 m/s up to a speed of
/// 3 m/s. There are six colours, a coastline is shown whole up to 30 points, and a gauge
/// has its middle at 64.
pub proof fn law_figures_are_drawn_to_scale()
    ensures
        FAST_POLAR == 0x4008_0000_0000_0000,
        NARROW_RING == 0x3fc9_9999_9999_999a,
        MIDDLE_RING == 0x3fe0_0000_0000_0000,
        PALETTE_SIZE == 6,
        DENSE_OUTLINE == 30,
        GAUGE_CENTRE == 64,
{
}

} // verus!
