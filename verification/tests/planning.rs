use sailboat::coast::{
    build_obstacles, point_in_polygon, poly_bbox, segment_hits_land, segments_intersect, Chart,
    ChartPolygon, GeoOrigin, Obstacle,
};
use sailboat::passage::{
    count_gates, densify_legs, draft_passage, foul_margin, gate_threshold, gate_window,
    longest_gated_leg, measure_legs, min_tack, nominal_speed, prepare_passage, tidal_gate_flags,
    timing_speed, Cutter, Drafting, LegTide, CYCLE_SAMPLES,
};
use sailboat::planner::{passage_radius, plan, Node, Pilotage, PlanConfig, PlanResult, Reach};
use sailboat::polar::{Polar, Sample};
use sailboat::route_file::{planned_route_text, RouteText};
use sailboat::scalar::{Point, Scalar};
use sailboat::simplify::{simplify, simplify_idx};
use std::f64::consts::PI;

fn sc(x: f64) -> Scalar {
    Scalar { bits: x.to_bits() }
}

fn fl(s: Scalar) -> f64 {
    f64::from_bits(s.bits)
}

fn cross(p: Point, q: Point, r: Point) -> Scalar {
    let (p1, p2, p3) = ((fl(p.0), fl(p.1)), (fl(q.0), fl(q.1)), (fl(r.0), fl(r.1)));
    sc((p2.0 - p1.0) * (p3.1 - p1.1) - (p2.1 - p1.1) * (p3.0 - p1.0))
}

fn offset(p: Point, a: Point, b: Point) -> Scalar {
    let (p, a, b) = ((fl(p.0), fl(p.1)), (fl(a.0), fl(a.1)), (fl(b.0), fl(b.1)));
    let ab = (b.0 - a.0, b.1 - a.1);
    let len2 = ab.0 * ab.0 + ab.1 * ab.1;
    if len2 < 1e-12 {
        return sc((p.0 - a.0).hypot(p.1 - a.1));
    }
    let t = (((p.0 - a.0) * ab.0 + (p.1 - a.1) * ab.1) / len2).clamp(0.0, 1.0);
    sc((p.0 - a.0 - ab.0 * t).hypot(p.1 - a.1 - ab.1 * t))
}

fn lerp(a: Scalar, p: Sample, q: Sample) -> Scalar {
    let frac = (fl(a) - fl(p.0)) / (fl(q.0) - fl(p.0));
    sc(fl(p.1) + (fl(q.1) - fl(p.1)) * frac)
}

/// An angle beyond a half turn, folded back to it.
fn fold(a: Scalar) -> Scalar {
    let whole = fl(a).rem_euclid(360.0);
    if !whole.is_finite() {
        sc(180.0)
    } else if whole > 180.0 {
        sc(360.0 - whole)
    } else {
        sc(whole)
    }
}

fn extend(so_far: Scalar, a: Point, b: Point) -> Scalar {
    sc(fl(so_far) + (fl(b.0) - fl(a.0)).hypot(fl(b.1) - fl(a.1)))
}

fn twa(cfg: PlanConfig, k: usize) -> Scalar {
    let h = (k as f64) * fl(cfg.heading_step_deg).to_radians();
    let y = (h - fl(cfg.wind_from) + PI).rem_euclid(2.0 * PI) - PI;
    sc(y.abs().to_degrees())
}

fn distance(cfg: PlanConfig, a: Reach) -> Scalar {
    sc((fl(a.x) - fl(cfg.dest.0)).hypot(fl(a.y) - fl(cfg.dest.1)))
}

fn motion(cfg: PlanConfig, n: Node, k: usize, v: Scalar) -> Reach {
    let h = (k as f64) * fl(cfg.heading_step_deg).to_radians();
    let dt = fl(cfg.dt);
    let x = fl(n.place.x) + fl(v) * h.cos() * dt;
    let y = fl(n.place.y) + fl(v) * h.sin() * dt;
    let (sx, sy) = (fl(cfg.start.0), fl(cfg.start.1));
    let (ax, ay) = (fl(cfg.dest.0) - sx, fl(cfg.dest.1) - sy);
    let m = ax.hypot(ay).max(1e-9);
    let (ax, ay) = (ax / m, ay / m);
    let (dx, dy) = (x - sx, y - sy);
    Reach {
        x: sc(x),
        y: sc(y),
        t: sc(fl(n.place.t) + dt),
        along: sc(dx * ax + dy * ay),
        bucket: ((dx * -ay + dy * ax) / fl(cfg.cross_track_bucket_m)).round() as i64,
    }
}

fn flat_polar() -> Polar {
    Polar::new(vec![
        (sc(180.0), sc(1.0)),
        (sc(90.0), sc(1.0)),
        (sc(45.0), sc(1.0)),
        (sc(135.0), sc(1.0)),
    ])
}

fn pt(x: f64, y: f64) -> Point {
    (sc(x), sc(y))
}

fn pilot_with(headings: usize) -> Pilotage<
    fn(PlanConfig, usize) -> Scalar,
    fn(Scalar) -> Scalar,
    fn(Scalar, Sample, Sample) -> Scalar,
    fn(PlanConfig, Reach) -> Scalar,
    fn(PlanConfig, Node, usize, Scalar) -> Reach,
    fn(Point, Point, Point) -> Scalar,
    fn(Point, Point, Point) -> Scalar,
    fn(Scalar, Point, Point) -> Scalar,
> {
    Pilotage { headings, twa, fold, lerp, distance, motion, cross, offset, extend }
}

fn config(dest: Point, heading_step: f64, bucket: f64, max_steps: usize, radius: f64) -> PlanConfig {
    PlanConfig {
        start: pt(0.0, 0.0),
        dest,
        wind_from: sc(0.0),
        start_time: sc(0.0),
        dt: sc(100.0),
        heading_step_deg: sc(heading_step),
        cross_track_bucket_m: sc(bucket),
        max_steps,
        dest_radius: sc(radius),
    }
}

fn chart_of(polygons: Vec<(bool, Vec<Point>)>) -> Chart {
    Chart {
        name: "test".to_string(),
        origin: GeoOrigin { lat: sc(51.0), lon: sc(-4.0) },
        projection: "local".to_string(),
        polygons: polygons
            .into_iter()
            .map(|(closed, points)| ChartPolygon { name: "p".to_string(), closed, points })
            .collect(),
    }
}

#[test]
fn tidal_gate_flags_marks_foul_legs_only() {
    // Both legs run due east; the stream is fair at the first one and foul at
    // the second.
    let stream = |t: f64| 0.6 * (2.0 * PI * t / 400.0 + PI / 2.0).sin();
    let legs = |step: f64| -> Vec<LegTide> {
        [0.0, 200.0]
            .iter()
            .map(|&t| LegTide { length: sc(step), along: vec![sc(stream(t))] })
            .collect()
    };
    let gates = tidal_gate_flags(&legs(100.0), sc(0.05), sc(10.0));
    assert_eq!(gates, vec![false, true, false]);
    let g2 = tidal_gate_flags(&legs(5.0), sc(0.05), sc(50.0));
    assert_eq!(g2, vec![false, false, false]);
}

#[test]
fn a_leg_is_exposed_if_the_stream_is_foul_at_any_time() {
    let cycle = |peak: f64| -> LegTide {
        LegTide {
            length: sc(1000.0),
            along: (0..24).map(|k| sc(peak * (2.0 * PI * (k as f64) / 24.0).sin())).collect(),
        }
    };
    let legs = vec![cycle(0.9), cycle(0.4), cycle(0.0)];
    assert_eq!(tidal_gate_flags(&legs, sc(-0.6), sc(500.0)), vec![true, false, false, false]);
    // A smaller margin adds gates.
    assert_eq!(tidal_gate_flags(&legs, sc(-0.3), sc(500.0)), vec![true, true, false, false]);
}

#[test]
fn derate_scales_all_speeds_and_preserves_no_go() {
    let p = flat_polar().derate(&|v: Scalar| sc(fl(v) * 0.8));
    assert!((fl(p.speed_at(sc(90.0), &fold, &lerp)) - 0.8).abs() < 1e-9);
    assert!((fl(p.speed_at(sc(135.0), &fold, &lerp)) - 0.8).abs() < 1e-9);
    assert_eq!(fl(p.speed_at(sc(30.0), &fold, &lerp)), 0.0);
    let q = flat_polar().derate(&|v: Scalar| sc(fl(v) * 1.0));
    assert!((fl(q.speed_at(sc(90.0), &fold, &lerp)) - 1.0).abs() < 1e-9);
}

#[test]
fn polar_interpolates_and_no_go() {
    let p = flat_polar();
    assert_eq!(fl(p.speed_at(sc(30.0), &fold, &lerp)), 0.0);
    assert!((fl(p.speed_at(sc(90.0), &fold, &lerp)) - 1.0).abs() < 1e-9);
    assert!((fl(p.speed_at(sc(60.0), &fold, &lerp)) - 1.0).abs() < 1e-9);
}

#[test]
fn angles_beyond_dead_downwind_are_folded() {
    let p = Polar::new(vec![(sc(180.0), sc(2.0)), (sc(90.0), sc(1.0))]);
    assert_eq!(fl(p.speed_at(sc(-90.0), &fold, &lerp)), 1.0);
    assert_eq!(fl(p.speed_at(sc(270.0), &fold, &lerp)), 1.0);
    assert_eq!(fl(p.speed_at(sc(-270.0), &fold, &lerp)), 1.0);
    assert_eq!(fl(p.speed_at(sc(180.0), &fold, &lerp)), 2.0);
    assert_eq!(fl(p.speed_at(sc(540.0), &fold, &lerp)), 2.0);
    assert_eq!(fl(p.speed_at(sc(225.0), &fold, &lerp)), 1.5);
    assert_eq!(fl(p.speed_at(sc(350.0), &fold, &lerp)), 0.0);
    assert_eq!(fl(p.speed_at(sc(f64::NAN), &fold, &lerp)), 2.0);
}

#[test]
fn a_derated_boat_is_slower_at_every_angle() {
    let whole = || {
        Polar::new(vec![
            (sc(40.0), sc(1.0)),
            (sc(80.0), sc(3.0)),
            (sc(120.0), sc(2.0)),
            (sc(160.0), sc(1.5)),
        ])
    };
    let p = whole();
    let half = whole().derate(&|v: Scalar| sc(fl(v) * 0.5));
    let same = whole().derate(&|v: Scalar| sc(fl(v) * 1.0));
    for k in -80..80 {
        let a = sc(k as f64 * 5.0);
        let v = p.speed_at(a, &fold, &lerp);
        assert_eq!(fl(half.speed_at(a, &fold, &lerp)), fl(v) * 0.5);
        assert_eq!(same.speed_at(a, &fold, &lerp), v);
    }
}

#[test]
fn polar_takes_the_pair_around_an_angle() {
    let p = Polar::new(vec![
        (sc(120.0), sc(2.0)),
        (sc(40.0), sc(1.0)),
        (sc(80.0), sc(3.0)),
        (sc(160.0), sc(1.5)),
    ]);
    assert_eq!(fl(p.speed_at(sc(60.0), &fold, &lerp)), 2.0);
    assert_eq!(fl(p.speed_at(sc(-60.0), &fold, &lerp)), 2.0);
    assert_eq!(fl(p.speed_at(sc(100.0), &fold, &lerp)), 2.5);
    assert_eq!(fl(p.speed_at(sc(160.0), &fold, &lerp)), 1.5);
    assert_eq!(fl(p.speed_at(sc(900.0), &fold, &lerp)), 1.5);
    assert_eq!(fl(p.max_speed()), 3.0);
    let none = Polar::new(Vec::new());
    assert_eq!(fl(none.speed_at(sc(90.0), &fold, &lerp)), 0.0);
    assert_eq!(fl(none.max_speed()), 0.0);
}

#[test]
fn plans_straight_downwind_no_obstacles() {
    let cfg = config(pt(-1000.0, 0.0), 10.0, 100.0, 50, 120.0);
    let r = plan(&cfg, &flat_polar(), None, &pilot_with(36)).expect("reachable");
    assert!(fl(r.eta_s) <= 1200.0, "eta {}", fl(r.eta_s));
    assert!(fl(r.length_m) < 1300.0, "length {}", fl(r.length_m));
    assert!(r.path.len() >= 2);
    assert_eq!(r.path[0], pt(0.0, 0.0));
    assert_eq!(*r.path.last().unwrap(), pt(-1000.0, 0.0));
    assert_eq!(r.times.len(), r.path.len());
    assert_eq!(fl(r.times[0]), 0.0);
    assert_eq!(*r.times.last().unwrap(), r.eta_s);
}

#[test]
fn plans_upwind_by_tacking() {
    let cfg = config(pt(2000.0, 0.0), 5.0, 200.0, 200, 150.0);
    let r = plan(&cfg, &flat_polar(), None, &pilot_with(72));
    assert!(r.is_some(), "should reach an upwind destination by tacking");
    let r = r.unwrap();
    assert!(fl(r.length_m) > 2000.0, "tacked length {}", fl(r.length_m));
}

#[test]
fn plans_around_land() {
    // A wall across the straight way.
    let chart = chart_of(vec![(false, vec![pt(-437.0, -300.0), pt(-437.0, 300.0)])]);
    let cfg = config(pt(-1000.0, 0.0), 10.0, 100.0, 50, 120.0);
    let r = plan(&cfg, &flat_polar(), Some(&chart), &pilot_with(36)).expect("reachable");
    for w in r.path.windows(2) {
        assert!(!segment_hits_land(w[0], w[1], &chart, &cross));
    }
    assert!(r.path.iter().any(|p| fl(p.1).abs() > 290.0));
    for w in r.times.windows(2) {
        assert!(fl(w[0]) <= fl(w[1]));
    }
}

#[test]
fn plans_do_not_end_across_land() {
    // The destination is within the radius from the start, behind a wall.
    let wall = |h: f64| chart_of(vec![(false, vec![pt(-50.0, -h), pt(-50.0, h)])]);
    let cfg = config(pt(-100.0, 0.0), 10.0, 20.0, 50, 120.0);
    let open = plan(&cfg, &flat_polar(), None, &pilot_with(36)).expect("reachable");
    assert_eq!(open.path, vec![pt(0.0, 0.0), pt(-100.0, 0.0)]);
    let short = wall(40.0);
    let r = plan(&cfg, &flat_polar(), Some(&short), &pilot_with(36)).expect("reachable");
    assert!(r.path.len() > 2, "the wall is sailed around");
    for w in r.path.windows(2) {
        assert!(!segment_hits_land(w[0], w[1], &short, &cross));
    }
    assert!(fl(r.eta_s) > 0.0);
    // Nor from anywhere else that is near enough.
    let ring = chart_of(vec![(
        true,
        vec![pt(-130.0, -30.0), pt(-70.0, -30.0), pt(-70.0, 30.0), pt(-130.0, 30.0)],
    )]);
    assert!(plan(&cfg, &flat_polar(), Some(&ring), &pilot_with(36)).is_none());
}

#[test]
fn plans_give_up() {
    // Out of steps.
    let cfg = config(pt(-1000.0, 0.0), 10.0, 100.0, 3, 120.0);
    assert!(plan(&cfg, &flat_polar(), None, &pilot_with(36)).is_none());
    // Boxed in on all sides.
    let chart = chart_of(vec![(
        true,
        vec![pt(-50.0, -50.0), pt(50.0, -50.0), pt(50.0, 50.0), pt(-50.0, 50.0)],
    )]);
    let cfg = config(pt(-1000.0, 0.0), 10.0, 100.0, 50, 120.0);
    assert!(plan(&cfg, &flat_polar(), Some(&chart), &pilot_with(36)).is_none());
    // A boat that makes no way.
    let still = flat_polar().derate(&|_v: Scalar| sc(0.0));
    assert!(plan(&cfg, &still, None, &pilot_with(36)).is_none());
    // Already there.
    let cfg = config(pt(-10.0, 0.0), 10.0, 100.0, 50, 120.0);
    let r = plan(&cfg, &flat_polar(), None, &pilot_with(36)).unwrap();
    assert_eq!(r.path, vec![pt(0.0, 0.0), pt(-10.0, 0.0)]);
    assert_eq!(fl(r.eta_s), 0.0);
}

#[test]
fn passages_are_planned_with_fixed_steps() {
    let cfg = PlanConfig::for_passage(pt(1.0, 2.0), pt(3.0, 4.0), sc(0.5), sc(7.0), sc(450.0));
    assert_eq!(fl(cfg.dt), 600.0);
    assert_eq!(fl(cfg.heading_step_deg), 5.0);
    assert_eq!(fl(cfg.cross_track_bucket_m), 500.0);
    assert_eq!(cfg.max_steps, 800);
    assert_eq!(cfg.start, pt(1.0, 2.0));
    assert_eq!(cfg.dest, pt(3.0, 4.0));
    assert_eq!(fl(cfg.wind_from), 0.5);
    assert_eq!(fl(cfg.start_time), 7.0);
    assert_eq!(fl(cfg.dest_radius), 450.0);
    assert_eq!(fl(passage_radius(sc(5.0))), 400.0);
    assert_eq!(fl(passage_radius(sc(500.0))), 500.0);
}

#[test]
fn simplifying_keeps_corners() {
    let path: Vec<Point> =
        vec![pt(0.0, 0.0), pt(1.0, 0.1), pt(2.0, -0.1), pt(3.0, 5.0), pt(4.0, 6.0), pt(5.0, 7.0)];
    assert_eq!(simplify_idx(&path, sc(1.0), &offset), vec![0, 2, 3, 5]);
    assert_eq!(simplify_idx(&path, sc(100.0), &offset), vec![0, 5]);
    assert_eq!(
        simplify(&path, sc(1.0), &offset),
        vec![pt(0.0, 0.0), pt(2.0, -0.1), pt(3.0, 5.0), pt(5.0, 7.0)]
    );
    assert_eq!(simplify_idx(&path[..2].to_vec(), sc(1.0), &offset), vec![0, 1]);
    assert_eq!(simplify_idx(&Vec::new(), sc(1.0), &offset), Vec::<usize>::new());
}

#[test]
fn simplifying_drops_only_what_is_close() {
    let path: Vec<Point> =
        (0..200).map(|i| pt(i as f64, 20.0 * (i as f64 * 0.1).sin())).collect();
    let kept = simplify_idx(&path, sc(2.0), &offset);
    assert_eq!(kept[0], 0);
    assert_eq!(*kept.last().unwrap(), 199);
    for w in kept.windows(2) {
        assert!(w[0] < w[1]);
        for i in w[0] + 1..w[1] {
            assert!(fl(offset(path[i], path[w[0]], path[w[1]])) <= 2.0);
        }
    }
    assert!(kept.len() < 60);
    // A larger tolerance keeps fewer points, and none that was dropped before.
    let fewer = simplify_idx(&path, sc(15.0), &offset);
    assert!(fewer.len() < kept.len());
    assert!(fewer.iter().all(|i| kept.contains(i)));
}

#[test]
fn segments_cross_only_properly() {
    let hit = |a, b, c, d| segments_intersect(a, b, c, d, &cross);
    assert!(hit(pt(0.0, 0.0), pt(2.0, 2.0), pt(0.0, 2.0), pt(2.0, 0.0)));
    assert!(!hit(pt(0.0, 0.0), pt(1.0, 1.0), pt(2.0, 2.0), pt(3.0, 3.0)));
    // To touch is not to cross.
    assert!(!hit(pt(0.0, 0.0), pt(1.0, 1.0), pt(1.0, 1.0), pt(2.0, 0.0)));
    assert!(!hit(pt(0.0, 0.0), pt(1.0, 0.0), pt(0.0, 1.0), pt(1.0, 1.0)));
}

#[test]
fn closed_coastlines_have_one_more_edge() {
    let corners = vec![pt(0.0, 0.0), pt(10.0, 0.0), pt(10.0, 10.0), pt(0.0, 10.0)];
    // The closing edge runs along x = 0.
    let a = pt(-1.0, 5.0);
    let b = pt(1.0, 5.0);
    let open = chart_of(vec![(false, corners.clone())]);
    let closed = chart_of(vec![(true, corners)]);
    assert!(!segment_hits_land(a, b, &open, &cross));
    assert!(segment_hits_land(a, b, &closed, &cross));
    assert!(!segment_hits_land(pt(20.0, 5.0), pt(30.0, 5.0), &closed, &cross));
    let stub = chart_of(vec![(true, vec![pt(0.0, 5.0)]), (true, Vec::new())]);
    assert!(!segment_hits_land(a, b, &stub, &cross));
}

#[test]
fn bounds_hold_every_point() {
    let pts = vec![pt(3.0, -1.0), pt(-2.0, 4.0), pt(f64::NAN, 9.0)];
    let b = poly_bbox(&pts).unwrap();
    assert_eq!((fl(b.0), fl(b.1), fl(b.2), fl(b.3)), (-2.0, 3.0, -1.0, 9.0));
    assert_eq!(poly_bbox(&Vec::new()), None);
    let o = Obstacle::new(pts.clone(), true);
    assert_eq!(o.bbox, b);
    let empty = Obstacle::new(Vec::new(), true);
    assert_eq!(fl(empty.bbox.0), f64::INFINITY);
    assert_eq!(fl(empty.bbox.1), f64::NEG_INFINITY);
    let chart = chart_of(vec![(true, pts), (false, vec![pt(100.0, 100.0)])]);
    let c = chart.bbox().unwrap();
    assert_eq!((fl(c.0), fl(c.1), fl(c.2), fl(c.3)), (-2.0, 100.0, -1.0, 100.0));
    assert_eq!(chart_of(vec![(true, Vec::new())]).bbox(), None);
}

#[test]
fn obstacles_are_thinned_coastlines() {
    let line: Vec<Point> = (0..50).map(|i| pt(100.0 * i as f64, 0.0)).collect();
    let chart = chart_of(vec![(false, line), (true, vec![pt(0.0, 0.0)])]);
    let obs = build_obstacles(&chart, &offset);
    assert_eq!(obs.len(), 1);
    assert_eq!(obs[0].pts, vec![pt(0.0, 0.0), pt(4900.0, 0.0)]);
    assert!(!obs[0].closed);
    assert_eq!(fl(obs[0].bbox.1), 4900.0);
}

#[test]
fn points_inside_a_coastline() {
    let edge_x = |y: Scalar, a: Point, b: Point| {
        sc((fl(b.0) - fl(a.0)) * (fl(y) - fl(a.1)) / (fl(b.1) - fl(a.1)) + fl(a.0))
    };
    let square = vec![pt(0.0, 0.0), pt(10.0, 0.0), pt(10.0, 10.0), pt(0.0, 10.0)];
    assert!(point_in_polygon(pt(5.0, 5.0), &square, &edge_x));
    assert!(!point_in_polygon(pt(15.0, 5.0), &square, &edge_x));
    assert!(!point_in_polygon(pt(-5.0, 5.0), &square, &edge_x));
    assert!(!point_in_polygon(pt(5.0, 15.0), &square, &edge_x));
    assert!(!point_in_polygon(pt(5.0, 5.0), &square[..2].to_vec(), &edge_x));
}

fn cutter() -> Cutter<
    fn(Point, Point) -> Scalar,
    fn(Scalar) -> usize,
    fn(Point, Point, usize, usize) -> Point,
    fn(Scalar, Scalar, usize, usize) -> Scalar,
> {
    fn length(a: Point, b: Point) -> Scalar {
        sc((fl(b.0) - fl(a.0)).hypot(fl(b.1) - fl(a.1)))
    }
    fn parts(len: Scalar) -> usize {
        (fl(len) / 5000.0).ceil() as usize
    }
    fn point(a: Point, b: Point, k: usize, n: usize) -> Point {
        let f = k as f64 / n as f64;
        pt(fl(a.0) + (fl(b.0) - fl(a.0)) * f, fl(a.1) + (fl(b.1) - fl(a.1)) * f)
    }
    fn time(a: Scalar, b: Scalar, k: usize, n: usize) -> Scalar {
        sc(fl(a) + (fl(b) - fl(a)) * (k as f64 / n as f64))
    }
    Cutter { length, parts, point, time }
}

#[test]
fn long_legs_are_cut_into_equal_parts() {
    let pts = vec![pt(0.0, 0.0), pt(100.0, 0.0), pt(12100.0, 0.0)];
    let times = vec![sc(0.0), sc(10.0), sc(310.0)];
    let (p, t) = densify_legs(&pts, &times, sc(5000.0), &cutter());
    assert_eq!(p, vec![pt(0.0, 0.0), pt(100.0, 0.0), pt(4100.0, 0.0), pt(8100.0, 0.0), pt(12100.0, 0.0)]);
    assert_eq!(t.iter().map(|&x| fl(x)).collect::<Vec<f64>>(), vec![0.0, 10.0, 110.0, 210.0, 310.0]);
    let (p, t) = densify_legs(&pts[..2].to_vec(), &times[..2].to_vec(), sc(5000.0), &cutter());
    assert_eq!(p, pts[..2].to_vec());
    assert_eq!(t, times[..2].to_vec());
    let (p, t) = densify_legs(&Vec::new(), &Vec::new(), sc(5000.0), &cutter());
    assert!(p.is_empty() && t.is_empty());
}

#[test]
fn passages_are_gated_on_request() {
    let found = PlanResult {
        path: vec![pt(0.0, 0.0), pt(3000.0, 1.0), pt(6000.0, 0.0), pt(6000.0, 2000.0)],
        times: vec![sc(0.0), sc(3000.0), sc(6000.0), sc(8000.0)],
        eta_s: sc(8000.0),
        length_m: sc(8000.0),
    };
    // Foul along the x axis, nothing along the y axis.
    let tide = |a: Point, b: Point, _t: Scalar| -> LegTide {
        let (dx, dy) = (fl(b.0) - fl(a.0), fl(b.1) - fl(a.1));
        let len = dx.hypot(dy);
        LegTide { length: sc(len), along: vec![sc(0.5), sc(-0.9 * dx / len)] }
    };
    let plain = prepare_passage(&found, false, sc(-0.6), &offset, &cutter(), &tide);
    assert_eq!(plain.points, vec![pt(0.0, 0.0), pt(6000.0, 0.0), pt(6000.0, 2000.0)]);
    assert_eq!(plain.gates, vec![false, false, false]);
    assert_eq!(fl(plain.longest_leg), 6000.0);
    let gated = prepare_passage(&found, true, sc(-0.6), &offset, &cutter(), &tide);
    assert_eq!(
        gated.points,
        vec![pt(0.0, 0.0), pt(3000.0, 0.0), pt(6000.0, 0.0), pt(6000.0, 2000.0)]
    );
    assert_eq!(gated.gates, vec![true, true, false, false]);
    assert_eq!(fl(gated.longest_leg), 6000.0);
    assert_eq!(count_gates(&gated.gates), 2);
    let lens = measure_legs(&gated.points, &cutter().length);
    assert_eq!(fl(longest_gated_leg(&lens, &gated.gates)), 3000.0);
    assert_eq!(fl(longest_gated_leg(&lens, &vec![false; 4])), 0.0);
}

#[test]
fn passage_limits() {
    assert_eq!(fl(foul_margin(sc(0.1))), 0.25);
    assert_eq!(fl(foul_margin(sc(0.594))), 0.594);
    assert_eq!(fl(foul_margin(sc(9.0))), 1.2);
    assert_eq!(fl(gate_threshold(sc(0.6))), -0.6);
    assert_eq!(fl(timing_speed(sc(0.05))), 0.1);
    assert_eq!(fl(timing_speed(sc(0.5))), 0.5);
    assert_eq!(fl(min_tack(sc(10.0), sc(30.0))), 30.0);
    assert_eq!(fl(min_tack(sc(600.0), sc(30.0))), 600.0);
    assert_eq!(fl(min_tack(sc(9000.0), sc(30.0))), 1800.0);
    assert_eq!(fl(min_tack(sc(9000.0), sc(2500.0))), 2500.0);
    assert_eq!(fl(gate_window(sc(1.0))), 600.0);
    assert_eq!(fl(gate_window(sc(5000.0))), 5000.0);
    assert_eq!(fl(gate_window(sc(50000.0))), 9000.0);
    let mean = |l: Scalar, t: Scalar| sc(fl(l) / fl(t));
    assert_eq!(fl(nominal_speed(sc(80.0), sc(100.0), &mean)), 0.8);
    assert_eq!(fl(nominal_speed(sc(80.0), sc(0.0), &mean)), 0.6);
}

#[test]
fn passages_are_drafted_from_a_plan() {
    // Two kilometres east and as many north, at half a metre per second.
    let found = PlanResult {
        path: vec![pt(0.0, 0.0), pt(2000.0, 0.0), pt(2000.0, 2000.0)],
        times: vec![sc(0.0), sc(4000.0), sc(8000.0)],
        eta_s: sc(8000.0),
        length_m: sc(4000.0),
    };
    let asked = std::cell::RefCell::new(Vec::new());
    let steps = Drafting {
        offset,
        cut: cutter(),
        tide: |a: Point, b: Point, t: Scalar| {
            asked.borrow_mut().push(fl(t));
            let (dx, dy) = (fl(b.0) - fl(a.0), fl(b.1) - fl(a.1));
            let len = dx.hypot(dy);
            LegTide::survey(sc(len), &|k: usize| {
                let turn = 2.0 * PI * (k as f64) / ((CYCLE_SAMPLES - 1) as f64);
                sc(0.6 * turn.sin() * dx / len)
            })
        },
        mean: |l: Scalar, t: Scalar| sc(fl(l) / fl(t)),
        foul: |v: Scalar| sc(fl(v) * 0.99),
        tack: |len: Scalar, v: Scalar| sc(fl(len) / fl(v) * 0.25),
        window: |len: Scalar| sc(fl(len) * 1.5),
    };
    let d = draft_passage(&found, true, sc(30.0), &steps);
    assert_eq!(fl(d.nominal), 0.5);
    assert_eq!(fl(d.margin), 0.495);
    assert_eq!(d.passage.gates, vec![true, false, false]);
    assert_eq!(d.gates, 1);
    assert_eq!(fl(d.passage.longest_leg), 2000.0);
    assert_eq!(fl(d.min_tack_s), 1000.0);
    assert_eq!(fl(d.window_s), 3000.0);
    assert_eq!(*asked.borrow(), vec![0.0, 4000.0]);
    // Without the tide there are no gates and the least window.
    let plain = draft_passage(&found, false, sc(1200.0), &steps);
    assert_eq!(plain.gates, 0);
    assert_eq!(fl(plain.min_tack_s), 1200.0);
    assert_eq!(fl(plain.window_s), 600.0);
}

#[test]
fn a_leg_is_surveyed_over_the_cycle() {
    assert_eq!(CYCLE_SAMPLES, 49);
    let leg = LegTide::survey(sc(7.0), &|k: usize| sc(k as f64));
    assert_eq!(fl(leg.length), 7.0);
    assert_eq!(leg.along.len(), 49);
    assert!(leg.along.iter().enumerate().all(|(k, v)| fl(*v) == k as f64));
}

fn text_of(gates: Vec<bool>, min_tack_s: f64) -> RouteText {
    RouteText {
        name: "lundy".to_string(),
        acceptance_radius: "50".to_string(),
        close_hauled_angle_deg: "45".to_string(),
        xte_lookahead: "100".to_string(),
        min_tack_duration_s: "30".to_string(),
        gate_open_along_current: "0".to_string(),
        gate_min_fair_window_s: "5000".to_string(),
        wind_direction_deg: "225".to_string(),
        wind_speed: "4".to_string(),
        places: vec![
            ("0.0".to_string(), "0.0".to_string()),
            ("10.5".to_string(), "-3.0".to_string()),
            ("99.0".to_string(), "1.0".to_string()),
        ],
        gates,
        min_tack_s: sc(min_tack_s),
        base_min_tack_s: sc(30.0),
    }
}

#[test]
fn planned_routes_are_written_down() {
    let plain = planned_route_text(&text_of(vec![false, false, false], 30.0));
    let lines: Vec<&str> = plain.lines().collect();
    assert_eq!(lines[0], "name: lundy_planned");
    assert_eq!(lines[1], "acceptance_radius: 50");
    assert_eq!(lines[2], "close_hauled_angle_deg: 45");
    assert_eq!(lines[3], "xte_lookahead: 100");
    assert_eq!(lines[4], "min_tack_duration_s: 30");
    assert_eq!(lines[5], "fly_by_radius: 400.0");
    assert_eq!(lines[7], "wind: { direction_deg: 225, speed: 4 }");
    assert_eq!(lines[8], "waypoints:");
    assert_eq!(lines[9], "  - { x: 0.0, y: 0.0 }");
    assert_eq!(lines[10], "  - { x: 10.5, y: -3.0, soft: true }");
    assert_eq!(lines[11], "  - { x: 99.0, y: 1.0 }");
    assert_eq!(lines[12], "loop: false");
    assert_eq!(lines.len(), 13);

    let gated = planned_route_text(&text_of(vec![true, true], 600.0));
    let lines: Vec<&str> = gated.lines().collect();
    assert!(lines[7].starts_with("# Minimum tack raised for long legs"));
    assert!(lines[8].starts_with("# Tidal gates inserted"));
    assert_eq!(lines[9], "gate_open_along_current: 0");
    assert_eq!(lines[10], "gate_min_fair_window_s: 5000");
    assert_eq!(lines[13], "  - { x: 0.0, y: 0.0, gate: true }");
    assert_eq!(lines[14], "  - { x: 10.5, y: -3.0, soft: true, gate: true }");
    assert_eq!(lines[15], "  - { x: 99.0, y: 1.0 }");
}
