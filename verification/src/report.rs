//! What is said of a run once it is over: which waypoints were captured, how
//! close the boat came to the others, whether it went ashore, and which of the
//! recorded states are shown.

use vstd::prelude::*;

use crate::coast::{encloses, point_in_polygon, Chart, ChartPolygon};
use crate::route::{Route, Waypoint};
use crate::scalar::{Point, Scalar, INFINITY_BITS};

verus! {

/// Pattern of 2000: west of it, in metres, lies the island.
pub const ISLAND_EAST_END: u64 = 0x409f_4000_0000_0000;

/// A track is thinned for showing, though never to fewer points than this.
pub const MAX_POINTS_PER_TRACK: usize = 3000;

/// How one waypoint fared.
#[derive(Clone, Copy, Debug)]
pub struct Approach {
    /// The waypoint, by its place in the route.
    pub wp: usize,
    /// Closest distance from where the search began.
    pub closest: Scalar,
    /// The first recorded state inside its circle, if there is one.
    pub hit: Option<usize>,
}

/// The circle inside which a waypoint counts as captured: the acceptance
/// circle, or for a fly-by waypoint the larger of that and the fly-by circle.
pub open spec fn capture_radius(route: Route, wp: Waypoint) -> Scalar {
    if wp.soft {
        route.acceptance_radius.larger(route.fly_by_radius)
    } else {
        route.acceptance_radius
    }
}

/// The distances of a waypoint from the recorded states from `from` up to `n`.
pub open spec fn ranges<F: Fn(usize, usize) -> Scalar>(
    dist: F,
    wp: int,
    from: int,
    n: int,
    d: Seq<Scalar>,
) -> bool {
    &&& d.len() == n - from
    &&& forall|j: int|
        0 <= j < d.len() ==> call_ensures(
            dist,
            (wp as usize, (from + j) as usize),
            #[trigger] d[j],
        )
}

/// The smallest of a row of distances, infinite for an empty one.
pub open spec fn least(d: Seq<Scalar>) -> Scalar
    decreases d.len(),
{
    if d.len() == 0 {
        Scalar { bits: INFINITY_BITS }
    } else {
        least(d.drop_last()).smaller(d.last())
    }
}

/// The first distance of a row that lies below `r` is at `hit`.
pub open spec fn first_below(d: Seq<Scalar>, r: Scalar, hit: Option<int>) -> bool {
    match hit {
        Some(j) => {
            &&& 0 <= j < d.len()
            &&& d[j].below(r)
            &&& forall|i: int| 0 <= i < j ==> !(#[trigger] d[i]).below(r)
        },
        None => forall|i: int| 0 <= i < d.len() ==> !(#[trigger] d[i]).below(r),
    }
}

/// A hit as a place behind `from`.
pub open spec fn behind(hit: Option<usize>, from: int) -> Option<int> {
    match hit {
        Some(i) => Some(i - from),
        None => None,
    }
}

/// How waypoint `wp` fared, looked for from `from` on.
pub open spec fn approached<F: Fn(usize, usize) -> Scalar>(
    dist: F,
    route: Route,
    from: int,
    n: int,
    a: Approach,
) -> bool {
    exists|d: Seq<Scalar>|
        {
            &&& #[trigger] ranges(dist, a.wp as int, from, n, d)
            &&& a.closest == least(d)
            &&& first_below(
                d,
                capture_radius(route, route.waypoints@[a.wp as int]),
                behind(a.hit, from),
            )
        }
}

/// Where the search for the next waypoint begins: where the last captured one
/// was captured.
pub open spec fn scan_start(seen: Seq<Approach>) -> int
    decreases seen.len(),
{
    if seen.len() == 0 {
        0
    } else {
        match seen.last().hit {
            Some(i) => i as int,
            None => scan_start(seen.drop_last()),
        }
    }
}

/// Every waypoint but the start was looked for in turn.
pub open spec fn progressed<F: Fn(usize, usize) -> Scalar>(
    dist: F,
    route: Route,
    n: int,
    seen: Seq<Approach>,
) -> bool {
    forall|k: int| 0 <= k < seen.len() ==> #[trigger] in_turn(dist, route, n, seen, k)
}

/// Entry `k` tells of the waypoint behind it, looked for from where the last
/// captured one before it was captured.
pub open spec fn in_turn<F: Fn(usize, usize) -> Scalar>(
    dist: F,
    route: Route,
    n: int,
    seen: Seq<Approach>,
    k: int,
) -> bool {
    &&& seen[k].wp == k + 1
    &&& approached(dist, route, scan_start(seen.take(k)), n, seen[k])
}

/// Number of waypoints that were captured.
pub open spec fn captured_count(seen: Seq<Approach>) -> int
    decreases seen.len(),
{
    if seen.len() == 0 {
        0
    } else {
        captured_count(seen.drop_last()) + (if seen.last().hit is Some {
            1int
        } else {
            0int
        })
    }
}

/// Look for one waypoint among the recorded states.
fn approach<F: Fn(usize, usize) -> Scalar>(
    route: &Route,
    wp: usize,
    from: usize,
    n: usize,
    dist: &F,
) -> (r: Approach)
    requires
        wp < route.waypoints@.len(),
        from <= n,
        forall|w: usize, i: usize|
            w < route.waypoints@.len() && i < n ==> call_requires(*dist, (w, i)),
    ensures
        r.wp == wp,
        approached(*dist, *route, from as int, n as int, r),
        match r.hit {
            Some(i) => from <= i < n,
            None => true,
        },
{
    let w: Waypoint = route.waypoints[wp];
    let radius: Scalar = if w.soft {
        route.acceptance_radius.max(route.fly_by_radius)
    } else {
        route.acceptance_radius
    };
    let ghost mut d: Seq<Scalar> = Seq::empty();
    let mut closest: Scalar = Scalar { bits: INFINITY_BITS };
    let mut hit: Option<usize> = None;
    let mut i: usize = from;
    while i < n
        invariant
            wp < route.waypoints@.len(),
            from <= i <= n,
            radius == capture_radius(*route, route.waypoints@[wp as int]),
            forall|w: usize, i: usize|
                w < route.waypoints@.len() && i < n ==> call_requires(*dist, (w, i)),
            ranges(*dist, wp as int, from as int, i as int, d),
            closest == least(d),
            first_below(d, radius, behind(hit, from as int)),
            match hit {
                Some(h) => from <= h < i,
                None => true,
            },
        decreases n - i,
    {
        let v: Scalar = dist(wp, i);
        closest = closest.min(v);
        proof {
            let now = d.push(v);
            assert(now.drop_last() =~= d);
            d = now;
        }
        if v.lt(radius) && hit.is_none() {
            hit = Some(i);
        }
        i = i + 1;
    }
    assert(ranges(*dist, wp as int, from as int, n as int, d));
    Approach { wp, closest, hit }
}

/// Look for every waypoint but the start in turn, each from where the last
/// captured one was captured on. `dist` gives the distance of a waypoint from a
/// recorded state, of which there are `n`.
pub fn route_progress<F: Fn(usize, usize) -> Scalar>(route: &Route, n: usize, dist: &F) -> (r: Vec<
    Approach,
>)
    requires
        forall|w: usize, i: usize|
            w < route.waypoints@.len() && i < n ==> call_requires(*dist, (w, i)),
    ensures
        route.waypoints@.len() > 0 ==> r@.len() == route.waypoints@.len() - 1,
        route.waypoints@.len() == 0 ==> r@.len() == 0,
        progressed(*dist, *route, n as int, r@),
{
    let total: usize = route.waypoints.len();
    let mut seen: Vec<Approach> = Vec::new();
    if total == 0 {
        return seen;
    }
    let mut from: usize = 0;
    let mut wp: usize = 1;
    while wp < total
        invariant
            1 <= wp <= total,
            total == route.waypoints@.len(),
            from <= n,
            forall|w: usize, i: usize|
                w < route.waypoints@.len() && i < n ==> call_requires(*dist, (w, i)),
            seen@.len() == wp - 1,
            from == scan_start(seen@),
            progressed(*dist, *route, n as int, seen@),
        decreases total - wp,
    {
        let a: Approach = approach(route, wp, from, n, dist);
        let ghost before = seen@;
        if let Some(i) = a.hit {
            from = i;
        }
        seen.push(a);
        proof {
            assert(seen@.drop_last() =~= before);
            assert forall|k: int| 0 <= k < seen@.len() implies #[trigger] in_turn(
                *dist,
                *route,
                n as int,
                seen@,
                k,
            ) by {
                if k < before.len() {
                    assert(in_turn(*dist, *route, n as int, before, k));
                    assert(seen@[k] == before[k]);
                    assert(seen@.take(k) =~= before.take(k));
                } else {
                    assert(seen@.take(k) =~= before);
                }
            }
        }
        wp = wp + 1;
    }
    seen
}

/// Count the captured waypoints.
pub fn count_captured(seen: &Vec<Approach>) -> (r: usize)
    ensures
        r == captured_count(seen@),
{
    let n: usize = seen.len();
    let mut r: usize = 0;
    let mut i: usize = 0;
    assert(seen@.take(0) =~= Seq::<Approach>::empty());
    while i < n
        invariant
            n == seen@.len(),
            i <= n,
            r <= i,
            r == captured_count(seen@.take(i as int)),
        decreases n - i,
    {
        assert(seen@.take(i + 1).drop_last() =~= seen@.take(i as int));
        if seen[i].hit.is_some() {
            r = r + 1;
        }
        i = i + 1;
    }
    assert(seen@.take(n as int) =~= seen@);
    r
}

/// Waypoints are captured in the order of the route: of two that were
/// captured, the later one was not captured before the earlier one.
pub proof fn law_captures_are_in_order<F: Fn(usize, usize) -> Scalar>(
    dist: F,
    route: Route,
    n: int,
    seen: Seq<Approach>,
    j: int,
    k: int,
)
    requires
        progressed(dist, route, n, seen),
        0 <= j < k < seen.len(),
        seen[j].hit is Some,
        seen[k].hit is Some,
    ensures
        seen[j].hit->0 <= seen[k].hit->0,
{
    lemma_scan_moves_on(dist, route, n, seen, j, k);
    assert(in_turn(dist, route, n, seen, k));
    lemma_hit_is_behind(dist, route, scan_start(seen.take(k)), n, seen[k]);
}

proof fn lemma_scan_moves_on<F: Fn(usize, usize) -> Scalar>(
    dist: F,
    route: Route,
    n: int,
    seen: Seq<Approach>,
    j: int,
    k: int,
)
    requires
        progressed(dist, route, n, seen),
        0 <= j < k <= seen.len(),
        seen[j].hit is Some,
    ensures
        seen[j].hit->0 <= scan_start(seen.take(k)),
    decreases k,
{
    assert(seen.take(k).last() == seen[k - 1]);
    assert(seen.take(k).drop_last() =~= seen.take(k - 1));
    if j < k - 1 {
        lemma_scan_moves_on(dist, route, n, seen, j, k - 1);
        if seen[k - 1].hit is Some {
            assert(in_turn(dist, route, n, seen, k - 1));
            lemma_hit_is_behind(dist, route, scan_start(seen.take(k - 1)), n, seen[k - 1]);
        }
    }
}

proof fn lemma_hit_is_behind<F: Fn(usize, usize) -> Scalar>(
    dist: F,
    route: Route,
    from: int,
    n: int,
    a: Approach,
)
    requires
        approached(dist, route, from, n, a),
        a.hit is Some,
    ensures
        from <= a.hit->0,
{
}

/// The boat came no closer to a waypoint than is reported, and at a captured
/// waypoint it came within its circle.
pub proof fn law_closest_is_closest(d: Seq<Scalar>, r: Scalar, hit: Option<int>)
    requires
        first_below(d, r, hit),
    ensures
        forall|i: int| 0 <= i < d.len() ==> !(#[trigger] d[i]).below(least(d)),
        hit is Some ==> least(d).below(r),
    decreases d.len(),
{
    if d.len() > 0 {
        let rest = d.drop_last();
        let last = d.last();
        let again = if hit is Some && hit->0 < rest.len() {
            hit
        } else {
            None
        };
        assert forall|i: int| 0 <= i < rest.len() implies rest[i] == #[trigger] d[i] by {}
        assert(first_below(rest, r, again)) by {
            if again is Some {
                assert(rest[hit->0] == d[hit->0]);
            }
        }
        law_closest_is_closest(rest, r, again);
        assert(!least(rest).nan()) by {
            lemma_least_is_a_number(rest);
        }
        assert forall|i: int| 0 <= i < d.len() implies !(#[trigger] d[i]).below(least(d)) by {
            if i < rest.len() {
                assert(!rest[i].below(least(rest)));
            }
        }
    }
}

proof fn lemma_least_is_a_number(d: Seq<Scalar>)
    ensures
        !least(d).nan(),
    decreases d.len(),
{
    if d.len() > 0 {
        lemma_least_is_a_number(d.drop_last());
    }
}

/// Whether a place lies inside one of the closed coastlines is `inside`.
pub open spec fn ashore<E: Fn(Scalar, Point, Point) -> Scalar>(
    edge_x: E,
    polygons: Seq<ChartPolygon>,
    p: Point,
    inside: bool,
) -> bool {
    if inside {
        exists|k: int|
            0 <= k < polygons.len() && (#[trigger] polygons[k]).closed && encloses(
                edge_x,
                p,
                polygons[k].points@,
                true,
            )
    } else {
        forall|k: int|
            0 <= k < polygons.len() && (#[trigger] polygons[k]).closed ==> encloses(
                edge_x,
                p,
                polygons[k].points@,
                false,
            )
    }
}

/// Whether a place lies inside one of the closed coastlines of the chart.
pub fn on_land<E: Fn(Scalar, Point, Point) -> Scalar>(p: Point, chart: &Chart, edge_x: &E) -> (r:
    bool)
    requires
        forall|y: Scalar, a: Point, b: Point| call_requires(*edge_x, (y, a, b)),
    ensures
        ashore(*edge_x, chart.polygons@, p, r),
{
    let n: usize = chart.polygons.len();
    let mut k: usize = 0;
    while k < n
        invariant
            n == chart.polygons@.len(),
            k <= n,
            forall|y: Scalar, a: Point, b: Point| call_requires(*edge_x, (y, a, b)),
            forall|j: int|
                0 <= j < k && (#[trigger] chart.polygons@[j]).closed ==> encloses(
                    *edge_x,
                    p,
                    chart.polygons@[j].points@,
                    false,
                ),
        decreases n - k,
    {
        if chart.polygons[k].closed && point_in_polygon(p, &chart.polygons[k].points, edge_x) {
            return true;
        }
        k = k + 1;
    }
    false
}

/// Number of places on land: those by the island, and those elsewhere.
pub open spec fn count_on_land(track: Seq<Point>, land: Seq<bool>) -> (int, int)
    decreases track.len(),
{
    if track.len() == 0 {
        (0, 0)
    } else {
        let c = count_on_land(track.drop_last(), land.drop_last());
        if !land.last() {
            c
        } else if track.last().0.below(Scalar { bits: ISLAND_EAST_END }) {
            (c.0 + 1, c.1)
        } else {
            (c.0, c.1 + 1)
        }
    }
}

/// Count the places of a track that lie on land: those by the island, and those
/// elsewhere.
pub fn land_incursions<E: Fn(Scalar, Point, Point) -> Scalar>(
    track: &Vec<Point>,
    chart: &Chart,
    edge_x: &E,
) -> (r: (usize, usize))
    requires
        forall|y: Scalar, a: Point, b: Point| call_requires(*edge_x, (y, a, b)),
    ensures
        exists|land: Seq<bool>|
            {
                &&& land.len() == track@.len()
                &&& (r.0 as int, r.1 as int) == #[trigger] count_on_land(track@, land)
                &&& forall|i: int|
                    0 <= i < land.len() ==> ashore(
                        *edge_x,
                        chart.polygons@,
                        track@[i],
                        #[trigger] land[i],
                    )
            },
{
    let n: usize = track.len();
    let ghost mut land: Seq<bool> = Seq::empty();
    let mut near: usize = 0;
    let mut elsewhere: usize = 0;
    let mut i: usize = 0;
    assert(track@.take(0) =~= Seq::<Point>::empty());
    while i < n
        invariant
            n == track@.len(),
            i <= n,
            near + elsewhere <= i,
            forall|y: Scalar, a: Point, b: Point| call_requires(*edge_x, (y, a, b)),
            land.len() == i,
            (near as int, elsewhere as int) == count_on_land(track@.take(i as int), land),
            forall|k: int|
                0 <= k < i ==> ashore(*edge_x, chart.polygons@, track@[k], #[trigger] land[k]),
        decreases n - i,
    {
        let here: bool = on_land(track[i], chart, edge_x);
        proof {
            let now = land.push(here);
            assert(now.drop_last() =~= land);
            assert(track@.take(i + 1).drop_last() =~= track@.take(i as int));
            land = now;
        }
        if here {
            if track[i].0.lt(Scalar { bits: ISLAND_EAST_END }) {
                near = near + 1;
            } else {
                elsewhere = elsewhere + 1;
            }
        }
        i = i + 1;
    }
    assert(track@.take(n as int) =~= track@);
    (near, elsewhere)
}

/// A track that is never on land has no incursions, and one that has none was
/// never on land.
pub proof fn law_no_incursion_means_afloat(track: Seq<Point>, land: Seq<bool>)
    requires
        land.len() == track.len(),
    ensures
        ({
            let c = count_on_land(track, land);
            &&& 0 <= c.0 && 0 <= c.1 && c.0 + c.1 <= track.len()
            &&& c.0 + c.1 == 0 <==> forall|i: int| 0 <= i < land.len() ==> !(#[trigger] land[i])
        }),
    decreases track.len(),
{
    if track.len() > 0 {
        law_no_incursion_means_afloat(track.drop_last(), land.drop_last());
        let rest = land.drop_last();
        assert forall|i: int| 0 <= i < rest.len() implies rest[i] == #[trigger] land[i] by {}
        assert(land.last() == land[land.len() - 1]);
        if forall|i: int| 0 <= i < land.len() ==> !(#[trigger] land[i]) {
            assert forall|i: int| 0 <= i < rest.len() implies !(#[trigger] rest[i]) by {
                assert(!land[i]);
            }
        }
        if !land.last() && forall|i: int| 0 <= i < rest.len() ==> !(#[trigger] rest[i]) {
            assert forall|i: int| 0 <= i < land.len() implies !(#[trigger] land[i]) by {
                if i < rest.len() {
                    assert(!rest[i]);
                }
            }
        }
    }
}

/// The recorded state shown as number `k` of `parts` even steps over `n` of
/// them.
pub fn sample_index(k: usize, n: usize, parts: usize) -> (r: usize)
    requires
        n > 0,
        parts > 0,
        k <= parts,
        parts * (n - 1) <= usize::MAX,
    ensures
        r == k * (n - 1) / parts as int,
        r < n,
{
    proof {
        lemma_sample_in_range(k as int, n as int, parts as int);
    }
    k * (n - 1) / parts
}

proof fn lemma_sample_in_range(k: int, n: int, parts: int)
    requires
        n > 0,
        parts > 0,
        0 <= k <= parts,
    ensures
        0 <= k * (n - 1) <= parts * (n - 1),
        0 <= k * (n - 1) / parts <= n - 1,
{
    assert(0 <= k * (n - 1) <= parts * (n - 1)) by (nonlinear_arith)
        requires
            n > 0,
            0 <= k <= parts,
    ;
    let x = k * (n - 1);
    assert(x / parts <= n - 1) by (nonlinear_arith)
        requires
            0 <= x <= parts * (n - 1),
            parts > 0,
            n > 0,
    ;
    assert(0 <= x / parts) by (nonlinear_arith)
        requires
            0 <= x,
            parts > 0,
    ;
}

/// The states that are shown begin with the first one, end with the last one
/// and never go back.
pub proof fn law_samples_span_the_run(j: int, k: int, n: int, parts: int)
    requires
        n > 0,
        parts > 0,
        0 <= j <= k <= parts,
    ensures
        0 * (n - 1) / parts == 0,
        parts * (n - 1) / parts == n - 1,
        j * (n - 1) / parts <= k * (n - 1) / parts,
{
    assert(0 * (n - 1) / parts == 0) by (nonlinear_arith)
        requires
            parts > 0,
    ;
    assert(parts * (n - 1) / parts == n - 1) by (nonlinear_arith)
        requires
            parts > 0,
            n > 0,
    ;
    let x = j * (n - 1);
    let y = k * (n - 1);
    assert(x <= y) by (nonlinear_arith)
        requires
            0 <= j <= k,
            n > 0,
            x == j * (n - 1),
            y == k * (n - 1),
    ;
    vstd::arithmetic::div_mod::lemma_div_is_ordered(x, y, parts);
}

/// The actuator entry that goes with recorded state `i`: there is one less of
/// them, so the last state shares the last entry.
pub fn actuator_index(i: usize, entries: usize) -> (r: usize)
    ensures
        entries == 0 ==> r == 0,
        entries > 0 ==> r == (if i < entries {
            i as int
        } else {
            entries - 1
        }),
{
    if entries == 0 {
        0
    } else if i < entries {
        i
    } else {
        entries - 1
    }
}

/// Where the last third of `n` recorded states begins.
pub fn last_third(n: usize) -> (r: usize)
    ensures
        r == n - n / 3,
        r <= n,
        n >= 3 ==> r < n,
{
    n - n / 3
}

/// How many recorded states apart the shown ones are.
pub open spec fn stride_spec(n: int) -> int {
    if n < 2 * MAX_POINTS_PER_TRACK {
        1
    } else {
        n / MAX_POINTS_PER_TRACK as int
    }
}

/// The recorded states of `n` that are shown: every so many, from the first on.
pub fn decimate(n: usize) -> (r: Vec<usize>)
    ensures
        forall|k: int| 0 <= k < r@.len() ==> #[trigger] r@[k] == k * stride_spec(n as int),
        forall|k: int| 0 <= k < r@.len() ==> #[trigger] r@[k] < n,
        r@.len() * stride_spec(n as int) >= n,
{
    let stride: usize = if n / MAX_POINTS_PER_TRACK > 1 {
        n / MAX_POINTS_PER_TRACK
    } else {
        1
    };
    assert(stride == stride_spec(n as int));
    let mut r: Vec<usize> = Vec::new();
    let mut i: usize = 0;
    proof {
        assert(0 * stride == 0) by (nonlinear_arith);
    }
    while i < n
        invariant
            stride == stride_spec(n as int),
            stride >= 1,
            i == r@.len() * stride,
            forall|k: int| 0 <= k < r@.len() ==> #[trigger] r@[k] == k * stride_spec(n as int),
            forall|k: int| 0 <= k < r@.len() ==> #[trigger] r@[k] < n,
        decreases n - r@.len() * stride,
    {
        let ghost len = r@.len();
        r.push(i);
        proof {
            assert((len + 1) * stride == len * stride + stride) by (nonlinear_arith);
        }
        if n - i <= stride {
            return r;
        }
        i = i + stride;
    }
    r
}

/// A thinned track of `n` states shows `c` of them: all of a short one, and of a
/// long one at least the number asked for and less than twice that.
pub proof fn law_thinned_track_has_enough_points(n: int, c: int)
    requires
        n >= 0,
        c >= 0,
        c * stride_spec(n) >= n,
        c == 0 || (c - 1) * stride_spec(n) < n,
    ensures
        n < 2 * MAX_POINTS_PER_TRACK ==> c == n,
        n >= 2 * MAX_POINTS_PER_TRACK ==> MAX_POINTS_PER_TRACK <= c <= 2 * MAX_POINTS_PER_TRACK,
{
    let s = stride_spec(n);
    let m = MAX_POINTS_PER_TRACK as int;
    if n < 2 * m {
        assert(c * 1 == c);
        assert(c > 0 ==> (c - 1) * 1 == c - 1);
    } else {
        assert(s == n / m && s >= 2);
        assert(s * m <= n < s * m + m) by (nonlinear_arith)
            requires
                s == n / m,
                m == 3000,
        ;
        assert(c >= m) by (nonlinear_arith)
            requires
                c * s >= n,
                n >= s * m,
                s >= 2,
        ;
        assert(c <= 2 * m) by (nonlinear_arith)
            requires
                c == 0 || (c - 1) * s < n,
                n < s * m + m,
                s >= 2,
                m == 3000,
        ;
    }
}

/// When the boat finished, if it did: the last recorded state lies inside the
/// acceptance circle of the destination. `miss` is its distance, unless there
/// is neither state nor destination.
pub fn finish_time_s(miss: Option<Scalar>, acceptance_radius: Scalar, last_t: Option<Scalar>) -> (r:
    Option<Scalar>)
    ensures
        r == (match miss {
            Some(d) => if d.at_most(acceptance_radius) {
                last_t
            } else {
                None
            },
            None => None,
        }),
{
    match miss {
        Some(d) => if d.le(acceptance_radius) {
            last_t
        } else {
            None
        },
        None => None,
    }
}

/// The largest of a row of quantities, and at least zero.
pub open spec fn peak(v: Seq<Scalar>) -> Scalar
    decreases v.len(),
{
    if v.len() == 0 {
        Scalar { bits: 0 }
    } else {
        peak(v.drop_last()).larger(v.last())
    }
}

/// The largest of a row of quantities, and at least zero.
pub fn largest(v: &Vec<Scalar>) -> (r: Scalar)
    ensures
        r == peak(v@),
{
    let n: usize = v.len();
    let mut r: Scalar = Scalar::zero();
    let mut i: usize = 0;
    assert(v@.take(0) =~= Seq::<Scalar>::empty());
    while i < n
        invariant
            n == v@.len(),
            i <= n,
            r == peak(v@.take(i as int)),
        decreases n - i,
    {
        assert(v@.take(i + 1).drop_last() =~= v@.take(i as int));
        r = r.max(v[i]);
        i = i + 1;
    }
    assert(v@.take(n as int) =~= v@);
    r
}

/// No quantity of a row exceeds its peak.
pub proof fn law_peak_is_not_exceeded(v: Seq<Scalar>, i: int)
    requires
        0 <= i < v.len(),
    ensures
        !peak(v).below(v[i]),
        !peak(v).nan(),
        (Scalar { bits: 0 }).at_most(peak(v)),
    decreases v.len(),
{
    let rest = v.drop_last();
    lemma_peak_is_a_number(rest);
    if i < rest.len() {
        law_peak_is_not_exceeded(rest, i);
        assert(rest[i] == v[i]);
    }
    lemma_peak_is_a_number(v);
}

proof fn lemma_peak_is_a_number(v: Seq<Scalar>)
    ensures
        !peak(v).nan(),
        (Scalar { bits: 0 }).at_most(peak(v)),
    decreases v.len(),
{
    if v.len() > 0 {
        lemma_peak_is_a_number(v.drop_last());
    }
}

proof fn lemma_scan_start(seen: Seq<Approach>, m: int)
    requires
        -1 <= m < seen.len(),
        m >= 0 ==> seen[m].hit is Some,
        forall|j: int| m < j < seen.len() ==> (#[trigger] seen[j]).hit is None,
    ensures
        scan_start(seen) == (if m < 0 {
            0
        } else {
            seen[m].hit->0 as int
        }),
    decreases seen.len(),
{
    if seen.len() > 0 && m < seen.len() - 1 {
        let rest = seen.drop_last();
        assert(seen[seen.len() - 1].hit is None);
        assert forall|j: int| m < j < rest.len() implies (#[trigger] rest[j]).hit is None by {
            assert(seen[j].hit is None);
        }
        lemma_scan_start(rest, m);
    }
}

/// Each waypoint is looked for from where the last captured one before it was
/// captured, or from the first state. It is captured in the first state from there
/// on that lies within its circle, the acceptance circle or, for a fly-by waypoint,
/// either circle; it is not captured where no state does. The closest distance is
/// that of one of these states, and none of them lies closer.
pub proof fn law_waypoint_is_captured_in_its_circle<F: Fn(usize, usize) -> Scalar>(
    dist: F,
    route: Route,
    n: int,
    seen: Seq<Approach>,
    k: int,
    m: int,
    from: int,
    d: Seq<Scalar>,
)
    requires
        progressed(dist, route, n, seen),
        0 <= k < seen.len(),
        -1 <= m < k,
        m >= 0 ==> seen[m].hit is Some,
        forall|j: int| m < j < k ==> (#[trigger] seen[j]).hit is None,
        m < 0 ==> from == 0,
        m >= 0 ==> from == seen[m].hit->0,
        d.len() == n,
        0 <= from <= n <= usize::MAX,
        forall|i: int, x: Scalar|
            0 <= i < n && #[trigger] call_ensures(dist, ((k + 1) as usize, i as usize), x) ==> x
                == d[i],
    ensures
        seen[k].wp == k + 1,
        ({
            let w = route.waypoints@[k + 1];
            let inside = |i: int|
                d[i].below(route.acceptance_radius) || (w.soft && d[i].below(route.fly_by_radius));
            &&& match seen[k].hit {
                Some(i) => {
                    &&& from <= i < n
                    &&& inside(i as int)
                    &&& forall|j: int| from <= j < i ==> !#[trigger] inside(j)
                },
                None => forall|j: int| from <= j < n ==> !#[trigger] inside(j),
            }
            &&& forall|j: int| from <= j < n ==> !(#[trigger] d[j]).below(seen[k].closest)
            &&& seen[k].closest == (Scalar { bits: INFINITY_BITS }) || exists|j: int|
                from <= j < n && seen[k].closest == #[trigger] d[j]
        }),
{
    assert(in_turn(dist, route, n, seen, k));
    let before = seen.take(k);
    assert forall|j: int| m < j < before.len() implies (#[trigger] before[j]).hit is None by {
        assert(seen[j].hit is None);
    }
    lemma_scan_start(before, m);
    let radius = capture_radius(route, route.waypoints@[k + 1]);
    let row = choose|row: Seq<Scalar>|
        {
            &&& #[trigger] ranges(dist, seen[k].wp as int, from, n, row)
            &&& seen[k].closest == least(row)
            &&& first_below(row, radius, behind(seen[k].hit, from))
        };
    assert forall|j: int| 0 <= j < row.len() implies #[trigger] row[j] == d[from + j] by {
        assert(call_ensures(dist, (seen[k].wp, (from + j) as usize), row[j]));
    }
    law_closest_is_closest(row, radius, behind(seen[k].hit, from));
    lemma_least_is_one(row);
    let w = route.waypoints@[k + 1];
    let inside = |i: int|
        d[i].below(route.acceptance_radius) || (w.soft && d[i].below(route.fly_by_radius));
    assert forall|j: int| from <= j < n implies inside(j) == (#[trigger] d[j]).below(radius) by {}
    let stop = match seen[k].hit {
        Some(i) => i as int,
        None => n,
    };
    assert forall|j: int| from <= j < stop implies !#[trigger] inside(j) by {
        assert(row[j - from] == d[j]);
        assert(!row[j - from].below(radius));
        assert(inside(j) == d[j].below(radius));
    }
    if seen[k].hit is Some {
        let i = seen[k].hit->0 as int;
        assert(row[i - from] == d[i]);
        assert(inside(i) == d[i].below(radius));
    }
    assert forall|j: int| from <= j < n implies !(#[trigger] d[j]).below(seen[k].closest) by {
        assert(row[j - from] == d[j]);
    }
    if least(row) != (Scalar { bits: INFINITY_BITS }) {
        let j = choose|j: int| 0 <= j < row.len() && least(row) == #[trigger] row[j];
        assert(d[from + j] == least(row));
    }
}

proof fn lemma_least_is_one(d: Seq<Scalar>)
    ensures
        least(d) == (Scalar { bits: INFINITY_BITS }) || exists|j: int|
            0 <= j < d.len() && least(d) == #[trigger] d[j],
    decreases d.len(),
{
    if d.len() > 0 {
        let rest = d.drop_last();
        lemma_least_is_one(rest);
        if least(d) == least(rest) && least(rest) != (Scalar { bits: INFINITY_BITS }) {
            let j = choose|j: int| 0 <= j < rest.len() && least(rest) == #[trigger] rest[j];
            assert(d[j] == least(d));
        } else if least(d) != least(rest) {
            assert(d[d.len() - 1] == least(d));
        }
    }
}

/// Every captured waypoint is counted once.
pub proof fn law_captures_are_counted_once(seen: Seq<Approach>, last: Approach)
    ensures
        captured_count(Seq::empty()) == 0,
        captured_count(seen.push(last)) == captured_count(seen) + (if last.hit is Some {
            1int
        } else {
            0int
        }),
{
    assert(seen.push(last).drop_last() =~= seen);
}

/// Every place on land is counted once: by the island where it lies west of the
/// island's east end, and elsewhere otherwise. A place afloat is not counted.
pub proof fn law_incursions_are_counted_once(
    track: Seq<Point>,
    land: Seq<bool>,
    place: Point,
    ashore_there: bool,
)
    requires
        land.len() == track.len(),
    ensures
        count_on_land(Seq::empty(), Seq::empty()) == (0int, 0int),
        ({
            let c = count_on_land(track, land);
            let d = count_on_land(track.push(place), land.push(ashore_there));
            let west = place.0.below(Scalar { bits: ISLAND_EAST_END });
            &&& d.0 == c.0 + (if ashore_there && west {
                1int
            } else {
                0int
            })
            &&& d.1 == c.1 + (if ashore_there && !west {
                1int
            } else {
                0int
            })
        }),
{
    assert(track.push(place).drop_last() =~= track);
    assert(land.push(ashore_there).drop_last() =~= land);
}

/// A place is on land exactly when it lies inside a coastline that closes; what
/// an open one would hold does not count.
pub proof fn law_only_closed_coastlines_hold_land<E: Fn(Scalar, Point, Point) -> Scalar>(
    edge_x: E,
    polygons: Seq<ChartPolygon>,
    p: Point,
    inside: bool,
)
    requires
        ashore(edge_x, polygons, p, inside),
    ensures
        forall|k: int|
            0 <= k < polygons.len() && (#[trigger] polygons[k]).closed && !encloses(
                edge_x,
                p,
                polygons[k].points@,
                false,
            ) ==> inside,
        (forall|k: int|
            0 <= k < polygons.len() && (#[trigger] polygons[k]).closed ==> !encloses(
                edge_x,
                p,
                polygons[k].points@,
                true,
            )) ==> !inside,
{
}

/// The largest of a row is not below any of it, not below zero, and is one of it or
/// zero.
pub proof fn law_largest_is_one_of_them(v: Seq<Scalar>)
    ensures
        (Scalar { bits: 0 }).at_most(peak(v)),
        forall|i: int| 0 <= i < v.len() ==> !peak(v).below(#[trigger] v[i]),
        peak(v) == (Scalar { bits: 0 }) || exists|i: int|
            0 <= i < v.len() && peak(v) == #[trigger] v[i],
    decreases v.len(),
{
    if v.len() > 0 {
        let rest = v.drop_last();
        law_largest_is_one_of_them(rest);
        assert forall|i: int| 0 <= i < v.len() implies !peak(v).below(#[trigger] v[i]) by {
            if i < rest.len() {
                assert(!peak(rest).below(rest[i]));
            }
        }
        if peak(v) == peak(rest) && peak(rest) != (Scalar { bits: 0 }) {
            let i = choose|i: int| 0 <= i < rest.len() && peak(rest) == #[trigger] rest[i];
            assert(v[i] == peak(v));
        } else if peak(v) != peak(rest) {
            assert(v[v.len() - 1] == peak(v));
        }
    }
}

/// The shown states of a run are one apart in a run of less than twice 3000, and in a
/// longer one as far apart as 3000 of them go.
pub proof fn law_shown_states_are_evenly_apart(n: int)
    requires
        n >= 0,
    ensures
        n < 6000 ==> stride_spec(n) == 1,
        n >= 6000 ==> 3000 * stride_spec(n) <= n < 3000 * (stride_spec(n) + 1),
{
}

/// The island ends 2000 m east, and a track shows 3000 points.
pub proof fn law_report_is_set_as_charted()
    ensures
        ISLAND_EAST_END == 0x409f_4000_0000_0000,
        MAX_POINTS_PER_TRACK == 3000,
{
}

} // verus!
