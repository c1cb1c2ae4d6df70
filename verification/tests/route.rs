#![allow(dead_code)]

use sailboat::route::{
    default_close_hauled, default_loop, default_min_tack_duration, default_xte_lookahead, GateView,
    Hold, LegFix, Route, RouteFollower, Tack, Tick, Waypoint, GATE_SAMPLES,
};
use sailboat::scalar::Scalar;
use std::f64::consts::PI;

fn sc(x: f64) -> Scalar {
    Scalar { bits: x.to_bits() }
}

fn fl(s: Scalar) -> f64 {
    f64::from_bits(s.bits)
}

fn wrap_pi(x: f64) -> f64 {
    let y = (x + PI).rem_euclid(2.0 * PI) - PI;
    if y == -PI {
        PI
    } else {
        y
    }
}

/// A stream along the x axis that reverses: peak speed, period and phase.
type Stream = Option<(f64, f64, f64)>;

fn foretold(stream: Stream, t: f64) -> Option<(f64, f64)> {
    stream.map(|(peak, period, phase)| (peak * (2.0 * PI * t / period + phase).sin(), 0.0))
}

/// Everything that a tick is measured from.
#[derive(Clone, Copy)]
struct Scene {
    t: f64,
    pos: (f64, f64),
    wind: (f64, f64),
    current: (f64, f64),
    stream: Stream,
}

fn leg_fix(route: &Route, leg: usize, s: &Scene, wind_from: f64, close_hauled: f64) -> LegFix {
    let a = (fl(route.waypoints[leg].x), fl(route.waypoints[leg].y));
    let b = (fl(route.waypoints[leg + 1].x), fl(route.waypoints[leg + 1].y));
    let (dx, dy) = (b.0 - a.0, b.1 - a.1);
    let len = dx.hypot(dy);
    let floor = len.max(1e-9);
    let xte = ((s.pos.0 - a.0) * -dy + (s.pos.1 - a.1) * dx) / len;
    let lookahead = fl(route.lookahead(sc(0.10 * len)));
    let bearing = (b.1 - s.pos.1).atan2(b.0 - s.pos.0);
    LegFix {
        leg,
        distance: sc((b.0 - s.pos.0).hypot(b.1 - s.pos.1)),
        along: sc(((s.pos.0 - a.0) * dx + (s.pos.1 - a.1) * dy) / floor),
        length: sc(floor),
        direct: sc(wrap_pi(dy.atan2(dx) + (-xte).atan2(lookahead))),
        off_wind: sc(wrap_pi(bearing - wind_from)),
        vmg_port: sc(wrap_pi(wind_from + close_hauled - bearing).cos()),
        vmg_starboard: sc(wrap_pi(wind_from - close_hauled - bearing).cos()),
    }
}

fn gate_view(route: &Route, leg: usize, s: &Scene) -> GateView {
    let a = (fl(route.waypoints[leg].x), fl(route.waypoints[leg].y));
    let b = (fl(route.waypoints[leg + 1].x), fl(route.waypoints[leg + 1].y));
    let (dx, dy) = (b.0 - a.0, b.1 - a.1);
    let len = dx.hypot(dy).max(1e-9);
    let along = |c: (f64, f64)| sc((c.0 * dx + c.1 * dy) / len);
    let window = fl(route.fair_window());
    let lead = fl(route.gate_lead_time_s);
    GateView::survey(leg, along(s.current), &|k: usize| {
        let ts = s.t + lead + window * (k as f64) / ((GATE_SAMPLES - 1) as f64);
        foretold(s.stream, ts).map(along)
    })
}

fn hold_at(w: &Waypoint, s: &Scene, wind_from: f64) -> Hold {
    let (dx, dy) = (fl(w.x) - s.pos.0, fl(w.y) - s.pos.1);
    let d = dx.hypot(dy);
    let (ux, uy) = if d > 0.0 { (dx / d, dy / d) } else { (0.0, 0.0) };
    let stem = (-s.current.1 + 0.1 * uy).atan2(-s.current.0 + 0.1 * ux);
    Hold { stem: sc(stem), off_wind: sc(wrap_pi(stem - wind_from)) }
}

fn sight(f: &RouteFollower, s: &Scene) -> Tick {
    let route = f.route();
    let wind_from = wrap_pi(s.wind.1.atan2(s.wind.0) + PI);
    let close_hauled = fl(route.close_hauled_angle_deg).to_radians();
    let (leg, ahead, gate_leg) = f.legs_to_sight();
    Tick {
        t: sc(s.t),
        elapsed: sc(s.t - fl(f.last_tack_change())),
        close_hauled: sc(close_hauled),
        port: sc(wrap_pi(wind_from + close_hauled)),
        starboard: sc(wrap_pi(wind_from - close_hauled)),
        here: leg_fix(route, leg, s, wind_from, close_hauled),
        ahead: leg_fix(route, ahead, s, wind_from, close_hauled),
        departure: gate_view(route, 0, s),
        departure_hold: hold_at(&route.waypoints[0], s, wind_from),
        gate: gate_view(route, gate_leg, s),
        gate_hold: hold_at(&route.waypoints[leg + 1], s, wind_from),
    }
}

fn wind_from_deg(speed: f64, from_deg: f64) -> (f64, f64) {
    let from = from_deg.to_radians();
    (-speed * from.cos(), -speed * from.sin())
}

fn wp(x: f64, y: f64, gate: bool, soft: bool) -> Waypoint {
    Waypoint { x: sc(x), y: sc(y), gate, soft }
}

fn route_of(name: &str, waypoints: Vec<Waypoint>) -> Route {
    Route {
        name: name.to_string(),
        acceptance_radius: sc(5.0),
        close_hauled_angle_deg: sc(45.0),
        xte_lookahead: sc(15.0),
        min_tack_duration_s: sc(3.0),
        wind: None,
        gate_open_along_current: sc(0.0),
        gate_lead_time_s: sc(0.0),
        gate_min_fair_window_s: sc(0.0),
        fly_by_radius: sc(0.0),
        waypoints,
        loop_route: false,
    }
}

fn straight_route(name: &str, ax: f64, ay: f64, bx: f64, by: f64) -> Route {
    route_of(name, vec![wp(ax, ay, false, false), wp(bx, by, false, false)])
}

fn update(f: &mut RouteFollower, s: Scene) -> Option<f64> {
    let tick = sight(f, &s);
    f.update(&tick).map(fl)
}

fn scene(t: f64, x: f64, y: f64, wind: (f64, f64), current: (f64, f64), stream: Stream) -> Scene {
    Scene { t, pos: (x, y), wind, current, stream }
}

#[test]
fn tidal_gate_holds_until_stream_turns_fair() {
    let mut route = straight_route("gated", 0.0, 0.0, 100.0, 0.0);
    route.waypoints.push(wp(200.0, 0.0, false, false));
    route.waypoints[1].gate = true;
    let wind = wind_from_deg(5.0, 90.0);
    let mut rf = RouteFollower::new(route);

    let h = update(&mut rf, scene(0.0, 98.0, 0.0, wind, (-0.6, 0.0), None)).expect("not finished");
    assert!(rf.waiting_at_gate(), "should wait at gate in foul tide");
    assert_eq!(rf.leg_index(), 0, "must not advance past a closed gate");
    assert!(h.abs() < 1e-9, "holds by pointing due east");

    update(&mut rf, scene(100.0, 98.0, 0.0, wind, (0.6, 0.0), None));
    assert!(!rf.waiting_at_gate(), "gate should open on fair tide");
    assert_eq!(rf.leg_index(), 1, "advanced onto the next leg");
}

#[test]
fn tidal_gate_forecast_lead_opens_early() {
    let mut route = straight_route("gated_fc", 0.0, 0.0, 100.0, 0.0);
    route.waypoints.push(wp(200.0, 0.0, false, false));
    route.waypoints[1].gate = true;
    route.gate_lead_time_s = sc(30.0);
    let wind = wind_from_deg(5.0, 90.0);
    let fc: Stream = Some((0.6, 100.0, 0.0));
    let mut rf = RouteFollower::new(route);
    let present = (0.6 * (2.0 * PI * 60.0 / 100.0).sin(), 0.0);
    update(&mut rf, scene(60.0, 98.0, 0.0, wind, present, fc));
    assert!(rf.waiting_at_gate(), "t=60: foul now and at t+30=90 -> hold");

    let present80 = (0.6 * (2.0 * PI * 80.0 / 100.0).sin(), 0.0);
    assert!(present80.0 < 0.0, "sanity: present still foul at t=80");
    update(&mut rf, scene(80.0, 98.0, 0.0, wind, present80, fc));
    assert!(!rf.waiting_at_gate(), "forecast lead opens it early");
    assert_eq!(rf.leg_index(), 1);
}

#[test]
fn tidal_gate_requires_long_enough_fair_window() {
    let mut route = straight_route("gated_win", 0.0, 0.0, 100.0, 0.0);
    route.waypoints.push(wp(200.0, 0.0, false, false));
    route.waypoints[1].gate = true;
    route.gate_min_fair_window_s = sc(40.0);
    let wind = wind_from_deg(5.0, 90.0);
    let fc: Stream = Some((0.6, 100.0, 0.0));

    let mut rf = RouteFollower::new(route);
    update(&mut rf, scene(40.0, 98.0, 0.0, wind, foretold(fc, 40.0).unwrap(), fc));
    assert!(rf.waiting_at_gate(), "short remaining fair window -> hold");
    update(&mut rf, scene(2.0, 98.0, 0.0, wind, foretold(fc, 2.0).unwrap(), fc));
    assert!(!rf.waiting_at_gate(), "full fair window ahead -> open");
    assert_eq!(rf.leg_index(), 1);
}

#[test]
fn departure_gate_holds_at_start_until_fair() {
    let mut route = straight_route("dep", 0.0, 0.0, 100.0, 0.0);
    route.waypoints[0].gate = true;
    let wind = wind_from_deg(5.0, 90.0);

    let mut rf = RouteFollower::new(route);
    update(&mut rf, scene(0.0, 0.0, 0.0, wind, (-0.5, 0.0), None));
    assert!(rf.waiting_at_gate(), "foul tide at start -> hold departure");
    assert_eq!(rf.leg_index(), 0);

    update(&mut rf, scene(10.0, 0.0, 0.0, wind, (0.5, 0.0), None));
    assert!(!rf.waiting_at_gate(), "fair tide -> depart");
    update(&mut rf, scene(20.0, 1.0, 0.0, wind, (0.5, 0.0), None));
    assert_eq!(rf.leg_index(), 0);
}

#[test]
fn fly_by_advances_on_pass_not_circle() {
    let mut route = straight_route("flyby", 0.0, 0.0, 100.0, 0.0);
    route.waypoints.push(wp(200.0, 0.0, false, false));
    route.waypoints[1].soft = true;
    let wind = wind_from_deg(5.0, 90.0);
    let mut rf = RouteFollower::new(route);
    update(&mut rf, scene(0.0, 105.0, 30.0, wind, (0.0, 0.0), None));
    assert_eq!(rf.leg_index(), 1, "soft waypoint advances on along-track pass");

    let mut route2 = straight_route("hard", 0.0, 0.0, 100.0, 0.0);
    route2.waypoints.push(wp(200.0, 0.0, false, false));
    let mut rf2 = RouteFollower::new(route2);
    update(&mut rf2, scene(0.0, 105.0, 30.0, wind, (0.0, 0.0), None));
    assert_eq!(rf2.leg_index(), 0, "hard waypoint needs the acceptance circle");
}

#[test]
fn crosswind_uses_los_plus_xte() {
    let route = straight_route("crosswind", 0.0, 0.0, 100.0, 0.0);
    let mut rf = RouteFollower::new(route);
    let wind = wind_from_deg(5.0, 90.0);
    let h = update(&mut rf, scene(0.0, 50.0, -5.0, wind, (0.0, 0.0), None)).expect("not finished");
    let expected = (5.0_f64).atan2(15.0);
    assert!((h - expected).abs() < 1e-9, "got {} expected {}", h, expected);
    assert_eq!(rf.current_tack(), Tack::Direct);
}

#[test]
fn upwind_latches_a_tack_without_chatter() {
    let route = straight_route("upwind", 0.0, 0.0, 0.0, 100.0);
    let mut rf = RouteFollower::new(route);
    let wind = wind_from_deg(5.0, 90.0);
    let h0 = update(&mut rf, scene(0.0, 0.0, 0.0, wind, (0.0, 0.0), None)).expect("not finished");
    assert!((h0 - 3.0 * PI / 4.0).abs() < 1e-9, "got {}", h0);
    assert_eq!(rf.current_tack(), Tack::Port);
    for step in 1..10 {
        let t = step as f64 * 0.3;
        let h = update(&mut rf, scene(t, 0.0, 0.0, wind, (0.0, 0.0), None)).expect("not finished");
        assert!((h - 3.0 * PI / 4.0).abs() < 1e-9);
        assert_eq!(rf.current_tack(), Tack::Port);
    }
}

#[test]
fn upwind_switches_tack_after_lateral_drift() {
    let route = straight_route("upwind_switch", 0.0, 0.0, 0.0, 200.0);
    let mut rf = RouteFollower::new(route);
    let wind = wind_from_deg(5.0, 90.0);
    update(&mut rf, scene(0.0, 0.0, 0.0, wind, (0.0, 0.0), None));
    assert_eq!(rf.current_tack(), Tack::Port);
    let h = update(&mut rf, scene(10.0, -40.0, 60.0, wind, (0.0, 0.0), None)).expect("not finished");
    assert_eq!(rf.current_tack(), Tack::Starboard);
    assert!((h - PI / 4.0).abs() < 1e-9, "got {}", h);
}

#[test]
fn capture_advances_leg_and_then_finishes() {
    let route = route_of(
        "triangle",
        vec![
            wp(0.0, 0.0, false, false),
            wp(50.0, 0.0, false, false),
            wp(100.0, 0.0, false, false),
        ],
    );
    let mut rf = RouteFollower::new(route);
    let wind = wind_from_deg(5.0, 90.0);
    update(&mut rf, scene(0.0, 0.0, 0.0, wind, (0.0, 0.0), None));
    assert_eq!(rf.leg_index(), 0);
    update(&mut rf, scene(1.0, 48.0, 0.0, wind, (0.0, 0.0), None));
    assert_eq!(rf.leg_index(), 1);
    assert!(!rf.finished());
    let h = update(&mut rf, scene(2.0, 98.0, 0.0, wind, (0.0, 0.0), None));
    assert!(rf.finished());
    assert!(h.is_none());
}

#[test]
fn a_complete_route_stays_complete() {
    let mut rf = RouteFollower::new(straight_route("done", 0.0, 0.0, 10.0, 0.0));
    let wind = wind_from_deg(5.0, 90.0);
    assert!(update(&mut rf, scene(0.0, 9.0, 0.0, wind, (0.0, 0.0), None)).is_none());
    assert!(rf.finished());
    assert_eq!(rf.current_leg(), None);
    assert!(update(&mut rf, scene(1.0, 0.0, 0.0, wind, (0.0, 0.0), None)).is_none());
    assert!(rf.finished());
}

#[test]
fn a_looping_route_starts_over() {
    let mut route = route_of(
        "loop",
        vec![
            wp(0.0, 0.0, false, false),
            wp(50.0, 0.0, false, false),
            wp(100.0, 0.0, false, false),
        ],
    );
    route.loop_route = true;
    let mut rf = RouteFollower::new(route);
    let wind = wind_from_deg(5.0, 90.0);
    update(&mut rf, scene(0.0, 49.0, 0.0, wind, (0.0, 0.0), None));
    assert_eq!(rf.leg_index(), 1);
    assert_eq!(rf.leg_ahead(), Some(0));
    assert!(update(&mut rf, scene(1.0, 99.0, 0.0, wind, (0.0, 0.0), None)).is_some());
    assert_eq!(rf.leg_index(), 0);
    assert!(!rf.finished());
}

#[test]
fn a_tack_is_kept_for_its_shortest_time() {
    let mut rf = RouteFollower::new(straight_route("short", 0.0, 0.0, 0.0, 200.0));
    let wind = wind_from_deg(5.0, 90.0);
    update(&mut rf, scene(0.0, 0.0, 0.0, wind, (0.0, 0.0), None));
    // The other tack gains more, but only two seconds have passed.
    update(&mut rf, scene(2.0, -40.0, 60.0, wind, (0.0, 0.0), None));
    assert_eq!(rf.current_tack(), Tack::Port);
    update(&mut rf, scene(3.0, -40.0, 60.0, wind, (0.0, 0.0), None));
    assert_eq!(rf.current_tack(), Tack::Starboard);
    assert_eq!(fl(rf.last_tack_change()), 3.0);
}

#[test]
fn the_final_waypoint_is_never_held() {
    let mut route = straight_route("final", 0.0, 0.0, 100.0, 0.0);
    route.waypoints[1].gate = true;
    let mut rf = RouteFollower::new(route);
    let wind = wind_from_deg(5.0, 90.0);
    assert!(update(&mut rf, scene(0.0, 98.0, 0.0, wind, (-0.6, 0.0), None)).is_none());
    assert!(rf.finished());
    assert!(!rf.waiting_at_gate());
}

#[test]
fn a_hold_in_the_no_go_cone_points_as_high_as_possible() {
    // The stream runs south and the wind comes from the north, so stemming the
    // stream lies dead to windward.
    let mut route = straight_route("stem", 0.0, 0.0, 0.0, 100.0);
    route.waypoints[0].gate = true;
    let mut rf = RouteFollower::new(route);
    let wind = wind_from_deg(5.0, 90.0);
    let h = update(&mut rf, scene(0.0, 0.0, 0.0, wind, (0.0, -0.6), None)).unwrap();
    assert!(rf.waiting_at_gate());
    assert!((h - 3.0 * PI / 4.0).abs() < 1e-9, "got {}", h);
}

#[test]
fn replacing_the_rest_of_a_route_clears_its_gates() {
    let mut route = straight_route("swap", 0.0, 0.0, 0.0, 100.0);
    route.waypoints[0].gate = true;
    let mut rf = RouteFollower::new(route);
    let wind = wind_from_deg(5.0, 0.0);
    update(&mut rf, scene(0.0, 0.0, 0.0, wind, (0.0, -0.6), None));
    assert!(rf.waiting_at_gate());
    rf.replace_remaining(&vec![(sc(0.0), sc(0.0)), (sc(5.0), sc(50.0)), (sc(0.0), sc(100.0))]);
    assert!(!rf.waiting_at_gate());
    assert_eq!(rf.leg_index(), 0);
    let w = &rf.route().waypoints;
    assert_eq!(w.len(), 3);
    assert_eq!(w[0], wp(0.0, 0.0, false, false));
    assert_eq!(w[1], wp(5.0, 50.0, false, true));
    assert_eq!(w[2], wp(0.0, 100.0, false, false));
    assert_eq!(rf.destination(), (sc(0.0), sc(100.0)));
    assert_eq!(rf.current_leg(), Some((wp(0.0, 0.0, false, false), wp(5.0, 50.0, false, true))));
}

#[test]
fn a_route_without_gates_is_never_waited_on() {
    let mut rf = RouteFollower::new(straight_route("free", 0.0, 0.0, 100.0, 0.0));
    let wind = wind_from_deg(5.0, 90.0);
    for x in [0.0, 40.0, 80.0] {
        update(&mut rf, scene(x, x, 0.0, wind, (-2.0, 0.0), None));
        assert!(!rf.waiting_at_gate());
    }
}

#[test]
fn the_fly_by_circle_is_for_soft_waypoints_only() {
    let wind = wind_from_deg(5.0, 90.0);
    for soft in [true, false] {
        let mut route = straight_route("fly", 0.0, 0.0, 100.0, 0.0);
        route.waypoints.push(wp(200.0, 0.0, false, false));
        route.waypoints[1].soft = soft;
        route.fly_by_radius = sc(20.0);
        let mut rf = RouteFollower::new(route);
        update(&mut rf, scene(0.0, 85.0, 0.0, wind, (0.0, 0.0), None));
        assert_eq!(rf.leg_index(), if soft { 1 } else { 0 });
    }
}

#[test]
fn the_lookahead_grows_with_the_leg_up_to_a_cap() {
    let mut route = straight_route("look", 0.0, 0.0, 1.0, 0.0);
    assert_eq!(fl(route.lookahead(sc(10.0))), 15.0);
    assert_eq!(fl(route.lookahead(sc(500.0))), 500.0);
    assert_eq!(fl(route.lookahead(sc(9000.0))), 3000.0);
    route.xte_lookahead = sc(4000.0);
    assert_eq!(fl(route.lookahead(sc(9000.0))), 4000.0);
}

#[test]
fn a_negative_fair_window_is_none() {
    let mut route = straight_route("window", 0.0, 0.0, 1.0, 0.0);
    route.gate_min_fair_window_s = sc(-7.0);
    assert_eq!(fl(route.fair_window()), 0.0);
    route.gate_min_fair_window_s = sc(40.0);
    assert_eq!(fl(route.fair_window()), 40.0);
}

#[test]
fn a_route_needs_a_leg() {
    let one = route_of("stub", vec![wp(0.0, 0.0, false, false)]);
    assert_eq!(one.check().unwrap_err(), "route stub needs >= 2 waypoints");
    assert!(straight_route("ok", 0.0, 0.0, 1.0, 0.0).check().is_ok());
}

#[test]
fn route_defaults() {
    assert_eq!(fl(default_close_hauled()), 45.0);
    assert_eq!(fl(default_xte_lookahead()), 15.0);
    assert_eq!(fl(default_min_tack_duration()), 3.0);
    assert!(!default_loop());
}

#[test]
fn a_sight_takes_the_legs_at_hand() {
    let mut route = straight_route("legs", 0.0, 0.0, 100.0, 0.0);
    route.waypoints.push(wp(200.0, 0.0, false, false));
    let wind = wind_from_deg(5.0, 90.0);
    let still = (0.0, 0.0);
    let mut rf = RouteFollower::new(route.clone());
    assert_eq!(rf.legs_to_sight(), (0, 1, 1));
    update(&mut rf, scene(0.0, 99.0, 0.0, wind, still, None));
    assert_eq!(rf.legs_to_sight(), (1, 1, 1));
    update(&mut rf, scene(1.0, 199.0, 0.0, wind, still, None));
    assert!(rf.finished());
    assert_eq!(rf.legs_to_sight(), (1, 1, 1));
    // A round route goes back to its first leg.
    route.loop_route = true;
    let mut rf = RouteFollower::new(route);
    update(&mut rf, scene(0.0, 99.0, 0.0, wind, still, None));
    assert_eq!(rf.legs_to_sight(), (1, 0, 1));
}

#[test]
fn a_stream_is_surveyed_over_the_window() {
    let view = GateView::survey(3, sc(0.5), &|k: usize| {
        if k % 2 == 0 {
            Some(sc(k as f64))
        } else {
            None
        }
    });
    assert_eq!(view.leg, 3);
    assert_eq!(fl(view.present), 0.5);
    assert_eq!(view.forecast.len(), GATE_SAMPLES);
    assert_eq!(view.forecast[2], Some(sc(2.0)));
    assert_eq!(view.forecast[3], None);
}
