use sailboat::cli::{
    boat_name, scenario_of, solver_of, split_xy, trim, wind_override, Scenario, Solver,
};
use sailboat::coast::{Chart, ChartPolygon, GeoOrigin};
use sailboat::figure::{
    extent, filled, fleet_title, gauge_bar, measure_polar, mirrored, outline, palette_index,
    point_of_sail, polar_angles, ring_step, spokes, trajectory_title,
};
use sailboat::number::{from_whole, unit_fraction, whole};
use sailboat::report::{
    actuator_index, count_captured, decimate, finish_time_s, land_incursions, largest, last_third,
    on_land, route_progress, sample_index,
};
use sailboat::route::{Route, Waypoint, WindOverride};
use sailboat::scalar::{Point, Scalar};
use sailboat::sim::{
    actuator_rates, applied_angles, effective_angle, sail_attack, simulate, slew, Order,
    MAX_RUDDER_SPEED, MAX_SAIL_SPEED,
};
use sailboat::state::{N_STATES, N_STATES_ACTUATED, POS_X, SAIL_STATE, VEL_X, YAW};
use std::f64::consts::PI;

fn sc(x: f64) -> Scalar {
    Scalar { bits: x.to_bits() }
}

fn fl(s: Scalar) -> f64 {
    f64::from_bits(s.bits)
}

fn pt(x: f64, y: f64) -> Point {
    (sc(x), sc(y))
}

fn route_of(waypoints: Vec<(f64, f64, bool)>) -> Route {
    Route {
        name: "r".to_string(),
        acceptance_radius: sc(5.0),
        close_hauled_angle_deg: sc(45.0),
        xte_lookahead: sc(15.0),
        min_tack_duration_s: sc(3.0),
        wind: None,
        gate_open_along_current: sc(0.0),
        gate_lead_time_s: sc(0.0),
        gate_min_fair_window_s: sc(0.0),
        fly_by_radius: sc(20.0),
        waypoints: waypoints
            .into_iter()
            .map(|(x, y, soft)| Waypoint { x: sc(x), y: sc(y), gate: false, soft })
            .collect(),
        loop_route: false,
    }
}

fn chart_of(polygons: Vec<(bool, Vec<Point>)>) -> Chart {
    Chart {
        name: "c".to_string(),
        origin: GeoOrigin { lat: sc(51.0), lon: sc(-4.0) },
        projection: "local".to_string(),
        polygons: polygons
            .into_iter()
            .map(|(closed, points)| ChartPolygon { name: "p".to_string(), closed, points })
            .collect(),
    }
}

fn offset(p: Point, a: Point, b: Point) -> Scalar {
    let (p, a, b) = ((fl(p.0), fl(p.1)), (fl(a.0), fl(a.1)), (fl(b.0), fl(b.1)));
    let ab = (b.0 - a.0, b.1 - a.1);
    let len = ab.0.hypot(ab.1).max(1e-9);
    sc((((p.0 - a.0) * ab.1 - (p.1 - a.1) * ab.0) / len).abs())
}

fn edge_x(y: Scalar, a: Point, b: Point) -> Scalar {
    sc((fl(b.0) - fl(a.0)) * (fl(y) - fl(a.1)) / (fl(b.1) - fl(a.1)) + fl(a.0))
}

#[test]
fn waypoints_are_looked_for_in_turn() {
    // The boat goes out to 30 and back again.
    let track: Vec<f64> = (0..=30).chain((0..30).rev()).map(|i| i as f64).collect();
    let route = route_of(vec![
        (0.0, 0.0, false),
        (30.0, 0.0, false),
        (10.0, 0.0, false),
        (25.0, 0.0, false),
        (0.0, 15.0, true),
    ]);
    let dist = |w: usize, i: usize| {
        let p = &route.waypoints[w];
        sc((track[i] - fl(p.x)).hypot(fl(p.y)))
    };
    let seen = route_progress(&route, track.len(), &dist);
    assert_eq!(seen.len(), 4);
    assert_eq!(seen[0].wp, 1);
    assert_eq!(seen[0].hit, Some(26));
    assert_eq!(fl(seen[0].closest), 0.0);
    // Only on the way back.
    assert_eq!(seen[1].hit, Some(46));
    // Behind the boat by then.
    assert_eq!(seen[2].hit, None);
    assert_eq!(fl(seen[2].closest), 11.0);
    // Caught by the fly-by circle alone.
    assert_eq!(seen[3].hit, Some(47));
    assert_eq!(fl(seen[3].closest), 15.0);
    assert_eq!(count_captured(&seen), 3);
    let none = route_progress(&route_of(vec![]), 5, &dist);
    assert!(none.is_empty());
}

#[test]
fn land_incursions_are_counted_by_region() {
    let square = |x: f64| vec![pt(x, 0.0), pt(x + 10.0, 0.0), pt(x + 10.0, 10.0), pt(x, 10.0)];
    let chart = chart_of(vec![
        (true, square(0.0)),
        (true, square(5.0)),
        (true, square(3000.0)),
        (false, square(100.0)),
    ]);
    let track =
        vec![pt(-5.0, 5.0), pt(7.0, 5.0), pt(3005.0, 5.0), pt(3006.0, 5.0), pt(105.0, 5.0)];
    assert_eq!(land_incursions(&track, &chart, &edge_x), (1, 2));
    assert!(on_land(pt(7.0, 5.0), &chart, &edge_x));
    assert!(!on_land(pt(105.0, 5.0), &chart, &edge_x), "an open coastline has no inside");
    assert_eq!(land_incursions(&Vec::new(), &chart, &edge_x), (0, 0));
}

#[test]
fn samples_span_a_run() {
    let shown: Vec<usize> = (0..=20).map(|k| sample_index(k, 101, 20)).collect();
    assert_eq!(shown[0], 0);
    assert_eq!(shown[20], 100);
    assert_eq!(shown[7], 35);
    assert_eq!(sample_index(3, 8, 10), 2);
    assert_eq!(actuator_index(5, 10), 5);
    assert_eq!(actuator_index(10, 10), 9);
    assert_eq!(actuator_index(3, 0), 0);
    assert_eq!(last_third(9), 6);
    assert_eq!(last_third(10), 7);
    assert_eq!(last_third(2), 2);
}

#[test]
fn long_tracks_are_thinned() {
    assert_eq!(decimate(5), vec![0, 1, 2, 3, 4]);
    assert_eq!(decimate(0), Vec::<usize>::new());
    let d = decimate(9001);
    assert_eq!(d.len(), 3001);
    assert_eq!(d[1], 3);
    assert_eq!(*d.last().unwrap(), 9000);
    assert_eq!(decimate(5999).len(), 5999);
    assert_eq!(decimate(6000).len(), 3000);
}

#[test]
fn finishing_needs_the_circle() {
    assert_eq!(finish_time_s(Some(sc(5.0)), sc(5.0), Some(sc(77.0))), Some(sc(77.0)));
    assert_eq!(finish_time_s(Some(sc(5.1)), sc(5.0), Some(sc(77.0))), None);
    assert_eq!(finish_time_s(None, sc(5.0), Some(sc(77.0))), None);
    assert_eq!(finish_time_s(Some(sc(1.0)), sc(5.0), None), None);
    assert_eq!(fl(largest(&vec![sc(1.0), sc(f64::NAN), sc(3.0), sc(2.0)])), 3.0);
    assert_eq!(fl(largest(&vec![sc(-1.0)])), 0.0);
}

#[test]
fn titles_name_what_is_shown() {
    assert_eq!(trajectory_title(Some("a"), Some("b")), "a on b");
    assert_eq!(trajectory_title(Some("a"), None), "Route: a");
    assert_eq!(trajectory_title(None, Some("b")), "b");
    assert_eq!(trajectory_title(None, None), "Trajectory");
    assert_eq!(fleet_title("a", Some("b")), "Fleet: a on b");
    assert_eq!(fleet_title("a", None), "Fleet: a");
}

#[test]
fn figures_hold_everything() {
    let route = route_of(vec![(0.0, 0.0, false), (50.0, -7.0, false)]);
    let chart = chart_of(vec![(true, vec![pt(-100.0, 3.0), pt(1.0, 400.0)])]);
    let track = vec![pt(2.0, 2.0), pt(60.0, 1.0)];
    let b = extent(&track, Some(&route), Some(&chart));
    assert_eq!((fl(b.0), fl(b.1), fl(b.2), fl(b.3)), (-100.0, 60.0, -7.0, 400.0));
    let b = extent(&track, None, None);
    assert_eq!((fl(b.0), fl(b.1), fl(b.2), fl(b.3)), (2.0, 60.0, 1.0, 2.0));
    assert!(!filled(&chart.polygons[0]));
    let island = chart_of(vec![(true, vec![pt(0.0, 0.0), pt(1.0, 0.0), pt(0.0, 1.0)])]);
    assert!(filled(&island.polygons[0]));
    assert_eq!((palette_index(0), palette_index(5), palette_index(6)), (0, 5, 0));
}

#[test]
fn dense_outlines_are_thinned() {
    let line = |n: usize| -> Vec<Point> { (0..n).map(|i| pt(i as f64, 0.0)).collect() };
    assert_eq!(outline(&line(30), &offset).len(), 30);
    assert_eq!(outline(&line(31), &offset), vec![pt(0.0, 0.0), pt(30.0, 0.0)]);
}

#[test]
fn polars_are_drawn_on_both_sides() {
    assert_eq!(spokes(), vec![0, 30, -30, 60, -60, 90, -90, 120, -120, 150, -150, 180]);
    let m = mirrored(&vec![(sc(30.0), sc(1.0)), (sc(60.0), sc(2.0))]);
    let back: Vec<(f64, f64)> = m.iter().map(|s| (fl(s.0), fl(s.1))).collect();
    assert_eq!(back, vec![(30.0, 1.0), (60.0, 2.0), (-60.0, 2.0), (-30.0, 1.0)]);
    assert_eq!(fl(ring_step(sc(1.0))), 0.2);
    assert_eq!(fl(ring_step(sc(3.0))), 0.5);
    assert_eq!(fl(ring_step(sc(3.1))), 1.0);
    assert_eq!(point_of_sail(50), "close hauled");
    assert_eq!(point_of_sail(80), "close reach");
    assert_eq!(point_of_sail(100), "beam reach");
    assert_eq!(point_of_sail(150), "broad reach");
    assert_eq!(point_of_sail(151), "run");
    assert_eq!(polar_angles(), vec![30, 45, 60, 75, 90, 105, 120, 135, 150, 165, 180]);
    let p = measure_polar(&|a: u32| Ok(sc(a as f64 / 100.0))).unwrap();
    assert_eq!(p.len(), 11);
    assert_eq!((fl(p[2].0), fl(p[2].1)), (60.0, 0.6));
    let failed = measure_polar(&|a: u32| {
        if a < 60 {
            Ok(sc(1.0))
        } else {
            Err(format!("run at {a}"))
        }
    });
    assert_eq!(failed.unwrap_err(), "run at 60");
}

#[test]
fn gauges_fill_from_the_middle() {
    assert_eq!(gauge_bar(0), None);
    assert_eq!(gauge_bar(10), Some((64, 10)));
    assert_eq!(gauge_bar(-10), Some((54, 10)));
}

fn parse_xy(s: &str) -> Result<(f64, f64), String> {
    let (a, b) = split_xy(s)?;
    let x = a.parse().map_err(|_| "bad X".to_string())?;
    let y = b.parse().map_err(|_| "bad Y".to_string())?;
    Ok((x, y))
}

#[test]
fn parses_waypoint_forms() {
    assert_eq!(parse_xy("800,950").unwrap(), (800.0, 950.0));
    assert_eq!(parse_xy(" -12.5 , 7 ").unwrap(), (-12.5, 7.0));
    assert_eq!(parse_xy("3 4").unwrap(), (3.0, 4.0));
    assert!(parse_xy("nope").is_err());
    assert!(parse_xy("1,").is_err());
}

#[test]
fn pairs_split_at_a_comma_first() {
    assert_eq!(split_xy("1 2, 3"), Ok(("1 2", "3")));
    assert_eq!(split_xy("  7\u{3000}8\t"), Ok(("7", "8")));
    assert_eq!(split_xy("nope").unwrap_err(), "expected `X,Y`");
    assert_eq!(split_xy("   ").unwrap_err(), "expected `X,Y`");
    for s in ["", " a", "a ", "\t a b \u{a0}", "\u{2003}x\u{200b}"] {
        assert_eq!(trim(s), s.trim());
        assert_eq!(trim(trim(s)), trim(s));
    }
}

#[test]
fn options_are_read() {
    assert_eq!(scenario_of("route", ""), Ok(Scenario::Route));
    assert_eq!(scenario_of("polar", ""), Ok(Scenario::Polar));
    assert_eq!(scenario_of("plan", ""), Ok(Scenario::Plan));
    assert_eq!(scenario_of("fleet", ""), Ok(Scenario::Fleet));
    assert_eq!(scenario_of("hil", ""), Ok(Scenario::Hil));
    assert_eq!(
        scenario_of("Route", "\"Route\"").unwrap_err(),
        "unknown scenario \"Route\"; supported: route, polar, plan, fleet, hil"
    );
    assert_eq!(solver_of("dopri5", ""), Ok(Solver::Dopri5));
    assert_eq!(solver_of("rk4", ""), Ok(Solver::Rk4));
    assert_eq!(
        solver_of("euler", "\"euler\"").unwrap_err(),
        "unknown --solver \"euler\"; supported: dopri5, rk4"
    );
    let both = wind_override(Some(sc(1.0)), Some(sc(2.0)));
    assert_eq!(both, Ok(Some(WindOverride { direction_deg: sc(1.0), speed: sc(2.0) })));
    assert_eq!(wind_override(None, None), Ok(None));
    let text = "--wind-deg and --wind-speed must be set together";
    assert_eq!(wind_override(Some(sc(1.0)), None).unwrap_err(), text);
    assert_eq!(wind_override(None, Some(sc(1.0))).unwrap_err(), text);
    assert_eq!(boat_name("sim_params_aclass"), "aclass");
    assert_eq!(boat_name("2.5m"), "2.5m");
    assert_eq!(boat_name("sim_params"), "sim_params");
}

#[test]
fn a_run_alternates_control_and_dynamics() {
    let control = |t: Scalar, x: f64| {
        if x >= 3.0 {
            None
        } else {
            Some(Order { rudder: sc(x), sail: sc(-x), ref_heading: t })
        }
    };
    let integrate = |_t: Scalar, x: f64, o: Order| -> Result<f64, String> {
        if fl(o.rudder) < -5.0 {
            Err("went astern".to_string())
        } else {
            Ok(x + 1.0)
        }
    };
    let advance = |t: Scalar| sc(fl(t) + 0.3);
    let run = simulate(0.0, 10, &control, &integrate, &advance).unwrap();
    assert_eq!(run.x, vec![0.0, 1.0, 2.0, 3.0]);
    assert_eq!(run.t.iter().map(|&t| fl(t)).collect::<Vec<f64>>(), vec![0.0, 0.3, 0.6, 0.8999999999999999]);
    assert_eq!(run.rudder, vec![sc(0.0), sc(1.0), sc(2.0)]);
    assert_eq!(run.sail, vec![sc(-0.0), sc(-1.0), sc(-2.0)]);
    assert_eq!(run.ref_heading, vec![sc(0.0), sc(0.3), sc(0.6)]);
    let short = simulate(0.0, 2, &control, &integrate, &advance).unwrap();
    assert_eq!(short.x, vec![0.0, 1.0, 2.0]);
    assert_eq!(simulate(-6.0, 2, &control, &integrate, &advance).unwrap_err(), "went astern");
    assert_eq!(simulate(5.0, 2, &control, &integrate, &advance).unwrap().x, vec![5.0]);
}

#[test]
fn actuators_are_limited() {
    assert_eq!(f64::from_bits(MAX_RUDDER_SPEED), PI / 30.0);
    assert_eq!(f64::from_bits(MAX_SAIL_SPEED), PI / 10.0);
    let state = (sc(1.0), sc(2.0));
    let asked = (sc(3.0), sc(4.0));
    assert_eq!(applied_angles(true, state, asked), state);
    assert_eq!(applied_angles(false, state, asked), asked);
    assert_eq!(actuator_rates(false, sc(9.0), sc(9.0)), (sc(0.0), sc(0.0)));
    assert_eq!(actuator_rates(true, sc(9.0), sc(-9.0)), (sc(PI / 30.0), sc(-PI / 10.0)));
    assert_eq!(actuator_rates(true, sc(0.01), sc(-0.01)), (sc(0.01), sc(-0.01)));
    assert_eq!(slew(sc(0.5), sc(0.1)), sc(0.1));
    assert_eq!(slew(sc(-0.5), sc(0.1)), sc(-0.1));
    assert_eq!(slew(sc(0.05), sc(0.1)), sc(0.05));
    assert_eq!(effective_angle(sc(2.0), sc(2.0 - PI)), sc(2.0 - PI));
    assert_eq!(effective_angle(sc(-2.0), sc(PI - 2.0)), sc(PI - 2.0));
    assert_eq!(effective_angle(sc(1.0), sc(9.0)), sc(1.0));
    assert_eq!(sail_attack(sc(0.3), sc(-0.1)), sc(0.0));
    assert_eq!(sail_attack(sc(0.3), sc(0.1)), sc(0.3));
}

#[test]
fn state_layout() {
    assert_eq!((POS_X, YAW, VEL_X, SAIL_STATE), (0, 5, 6, 13));
    assert_eq!((N_STATES, N_STATES_ACTUATED), (12, 14));
}

#[test]
fn scalars_compare_as_numbers_do() {
    let values = [
        0.0,
        -0.0,
        1.0,
        -1.0,
        5e-324,
        -5e-324,
        1e300,
        -1e300,
        0.1,
        0.30000000000000004,
        f64::INFINITY,
        f64::NEG_INFINITY,
        f64::NAN,
    ];
    for &a in &values {
        for &b in &values {
            let (x, y) = (sc(a), sc(b));
            assert_eq!(x.lt(y), a < b, "{a} < {b}");
            assert_eq!(x.le(y), a <= b, "{a} <= {b}");
            assert_eq!(x.gt(y), a > b, "{a} > {b}");
            assert_eq!(x.ge(y), a >= b, "{a} >= {b}");
            assert_eq!(x.equals(y), a == b, "{a} == {b}");
            if !(a.is_nan() && b.is_nan()) {
                assert!(fl(x.max(y)) == a.max(b), "max of {a} and {b}");
                assert!(fl(x.min(y)) == a.min(b), "min of {a} and {b}");
            }
            if a <= b {
                assert!(fl(sc(0.2).clamp(x, y)) == 0.2_f64.clamp(a, b));
            }
        }
        assert_eq!(sc(a).is_nan(), a.is_nan());
        if !a.is_nan() {
            assert_eq!(fl(sc(a).abs()), a.abs());
            assert_eq!(sc(a).neg(), sc(-a));
        }
    }
}

#[test]
fn whole_numbers_become_scalars_and_back() {
    for n in [0u64, 1, 2, 3, 10, 1000, 4503599627370497, 9007199254740991] {
        assert_eq!(fl(from_whole(n)), n as f64);
        assert_eq!(whole(from_whole(n)), n);
        assert_eq!(fl(unit_fraction(n)), n as f64 / 9007199254740992.0);
    }
    for x in [0.0, 0.5, 0.999, 1.0, 1.5, 2.999, 1e9, 1e18, 1.8e19, 1e20, -3.0, 1e300] {
        assert_eq!(whole(sc(x)), x as u64, "{x}");
    }
    assert_eq!(whole(sc(f64::NAN)), 0);
    assert_eq!(whole(sc(f64::INFINITY)), u64::MAX);
    assert_eq!(whole(sc(f64::NEG_INFINITY)), 0);
}
