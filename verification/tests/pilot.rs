#![allow(dead_code)]

use sailboat::autopilot::{
    Command, FixedHeadingAutopilot, Observation, ReplanContext, RouteAutopilot, Senses, WindReading,
};
use sailboat::coast::Obstacle;
use sailboat::helm::{
    crab_heading, next_sail_side, sail_angle, sheet, sheet_by_wind, Controls, HeadingController,
    CRAB_MIN_WATER_SPEED, LIMIT_WIND_SPEED, MAX_CRAB_SINE, MIN_WIND_SPEED_FOR_TRIM, QUARTER_TURN,
    SAIL_SIDE_DEADBAND, SAIL_SIDE_GYBE, STALL_ANGLE,
};
use sailboat::planner::{Node, Pilotage, PlanConfig, Reach};
use sailboat::polar::{Polar, Sample};
use sailboat::route::{
    GateView, Hold, LegFix, Route, RouteFollower, Tick, Waypoint, GATE_SAMPLES,
};
use sailboat::scalar::{sign, Point, Scalar};
use std::cell::RefCell;
use std::f64::consts::PI;

fn sc(x: f64) -> Scalar {
    Scalar { bits: x.to_bits() }
}

fn fl(s: Scalar) -> f64 {
    f64::from_bits(s.bits)
}

fn wrap_pi(x: f64) -> f64 {
    let y = (x + PI).rem_euclid(2.0 * PI) - PI;
    if y == -PI {
        PI
    } else {
        y
    }
}

/// A stream along the x axis that reverses: peak speed, period and phase.
type Stream = Option<(f64, f64, f64)>;

fn foretold(stream: Stream, t: f64) -> Option<(f64, f64)> {
    stream.map(|(peak, period, phase)| (peak * (2.0 * PI * t / period + phase).sin(), 0.0))
}

/// Everything that a tick is measured from.
#[derive(Clone, Copy)]
struct Scene {
    t: f64,
    pos: (f64, f64),
    wind: (f64, f64),
    current: (f64, f64),
    stream: Stream,
}

fn leg_fix(route: &Route, leg: usize, s: &Scene, wind_from: f64, close_hauled: f64) -> LegFix {
    let a = (fl(route.waypoints[leg].x), fl(route.waypoints[leg].y));
    let b = (fl(route.waypoints[leg + 1].x), fl(route.waypoints[leg + 1].y));
    let (dx, dy) = (b.0 - a.0, b.1 - a.1);
    let len = dx.hypot(dy);
    let floor = len.max(1e-9);
    let xte = ((s.pos.0 - a.0) * -dy + (s.pos.1 - a.1) * dx) / len;
    let lookahead = fl(route.lookahead(sc(0.10 * len)));
    let bearing = (b.1 - s.pos.1).atan2(b.0 - s.pos.0);
    LegFix {
        leg,
        distance: sc((b.0 - s.pos.0).hypot(b.1 - s.pos.1)),
        along: sc(((s.pos.0 - a.0) * dx + (s.pos.1 - a.1) * dy) / floor),
        length: sc(floor),
        direct: sc(wrap_pi(dy.atan2(dx) + (-xte).atan2(lookahead))),
        off_wind: sc(wrap_pi(bearing - wind_from)),
        vmg_port: sc(wrap_pi(wind_from + close_hauled - bearing).cos()),
        vmg_starboard: sc(wrap_pi(wind_from - close_hauled - bearing).cos()),
    }
}

fn gate_view(route: &Route, leg: usize, s: &Scene) -> GateView {
    let a = (fl(route.waypoints[leg].x), fl(route.waypoints[leg].y));
    let b = (fl(route.waypoints[leg + 1].x), fl(route.waypoints[leg + 1].y));
    let (dx, dy) = (b.0 - a.0, b.1 - a.1);
    let len = dx.hypot(dy).max(1e-9);
    let along = |c: (f64, f64)| sc((c.0 * dx + c.1 * dy) / len);
    let window = fl(route.fair_window());
    let lead = fl(route.gate_lead_time_s);
    GateView::survey(leg, along(s.current), &|k: usize| {
        let ts = s.t + lead + window * (k as f64) / ((GATE_SAMPLES - 1) as f64);
        foretold(s.stream, ts).map(along)
    })
}

fn hold_at(w: &Waypoint, s: &Scene, wind_from: f64) -> Hold {
    let (dx, dy) = (fl(w.x) - s.pos.0, fl(w.y) - s.pos.1);
    let d = dx.hypot(dy);
    let (ux, uy) = if d > 0.0 { (dx / d, dy / d) } else { (0.0, 0.0) };
    let stem = (-s.current.1 + 0.1 * uy).atan2(-s.current.0 + 0.1 * ux);
    Hold { stem: sc(stem), off_wind: sc(wrap_pi(stem - wind_from)) }
}

fn sight(f: &RouteFollower, s: &Scene) -> Tick {
    let route = f.route();
    let wind_from = wrap_pi(s.wind.1.atan2(s.wind.0) + PI);
    let close_hauled = fl(route.close_hauled_angle_deg).to_radians();
    let (leg, ahead, gate_leg) = f.legs_to_sight();
    Tick {
        t: sc(s.t),
        elapsed: sc(s.t - fl(f.last_tack_change())),
        close_hauled: sc(close_hauled),
        port: sc(wrap_pi(wind_from + close_hauled)),
        starboard: sc(wrap_pi(wind_from - close_hauled)),
        here: leg_fix(route, leg, s, wind_from, close_hauled),
        ahead: leg_fix(route, ahead, s, wind_from, close_hauled),
        departure: gate_view(route, 0, s),
        departure_hold: hold_at(&route.waypoints[0], s, wind_from),
        gate: gate_view(route, gate_leg, s),
        gate_hold: hold_at(&route.waypoints[leg + 1], s, wind_from),
    }
}

fn wind_from_deg(speed: f64, from_deg: f64) -> (f64, f64) {
    let from = from_deg.to_radians();
    (-speed * from.cos(), -speed * from.sin())
}

fn wp(x: f64, y: f64, gate: bool, soft: bool) -> Waypoint {
    Waypoint { x: sc(x), y: sc(y), gate, soft }
}

fn route_of(name: &str, waypoints: Vec<Waypoint>) -> Route {
    Route {
        name: name.to_string(),
        acceptance_radius: sc(5.0),
        close_hauled_angle_deg: sc(45.0),
        xte_lookahead: sc(15.0),
        min_tack_duration_s: sc(3.0),
        wind: None,
        gate_open_along_current: sc(0.0),
        gate_lead_time_s: sc(0.0),
        gate_min_fair_window_s: sc(0.0),
        fly_by_radius: sc(0.0),
        waypoints,
        loop_route: false,
    }
}

fn straight_route(name: &str, ax: f64, ay: f64, bx: f64, by: f64) -> Route {
    route_of(name, vec![wp(ax, ay, false, false), wp(bx, by, false, false)])
}

fn cross(p: Point, q: Point, r: Point) -> Scalar {
    let (p1, p2, p3) = ((fl(p.0), fl(p.1)), (fl(q.0), fl(q.1)), (fl(r.0), fl(r.1)));
    sc((p2.0 - p1.0) * (p3.1 - p1.1) - (p2.1 - p1.1) * (p3.0 - p1.0))
}

fn offset(p: Point, a: Point, b: Point) -> Scalar {
    let (p, a, b) = ((fl(p.0), fl(p.1)), (fl(a.0), fl(a.1)), (fl(b.0), fl(b.1)));
    let ab = (b.0 - a.0, b.1 - a.1);
    let len2 = ab.0 * ab.0 + ab.1 * ab.1;
    if len2 < 1e-12 {
        return sc((p.0 - a.0).hypot(p.1 - a.1));
    }
    let t = (((p.0 - a.0) * ab.0 + (p.1 - a.1) * ab.1) / len2).clamp(0.0, 1.0);
    sc((p.0 - a.0 - ab.0 * t).hypot(p.1 - a.1 - ab.1 * t))
}

fn lerp(a: Scalar, p: Sample, q: Sample) -> Scalar {
    let frac = (fl(a) - fl(p.0)) / (fl(q.0) - fl(p.0));
    sc(fl(p.1) + (fl(q.1) - fl(p.1)) * frac)
}

/// An angle beyond a half turn, folded back to it.
fn fold(a: Scalar) -> Scalar {
    let whole = fl(a).rem_euclid(360.0);
    if !whole.is_finite() {
        sc(180.0)
    } else if whole > 180.0 {
        sc(360.0 - whole)
    } else {
        sc(whole)
    }
}

fn extend(so_far: Scalar, a: Point, b: Point) -> Scalar {
    sc(fl(so_far) + (fl(b.0) - fl(a.0)).hypot(fl(b.1) - fl(a.1)))
}

fn twa(cfg: PlanConfig, k: usize) -> Scalar {
    let h = (k as f64) * fl(cfg.heading_step_deg).to_radians();
    let y = (h - fl(cfg.wind_from) + PI).rem_euclid(2.0 * PI) - PI;
    sc(y.abs().to_degrees())
}

fn distance(cfg: PlanConfig, a: Reach) -> Scalar {
    sc((fl(a.x) - fl(cfg.dest.0)).hypot(fl(a.y) - fl(cfg.dest.1)))
}

fn motion(cfg: PlanConfig, n: Node, k: usize, v: Scalar) -> Reach {
    let h = (k as f64) * fl(cfg.heading_step_deg).to_radians();
    let dt = fl(cfg.dt);
    let x = fl(n.place.x) + fl(v) * h.cos() * dt;
    let y = fl(n.place.y) + fl(v) * h.sin() * dt;
    let (sx, sy) = (fl(cfg.start.0), fl(cfg.start.1));
    let (ax, ay) = (fl(cfg.dest.0) - sx, fl(cfg.dest.1) - sy);
    let m = ax.hypot(ay).max(1e-9);
    let (ax, ay) = (ax / m, ay / m);
    let (dx, dy) = (x - sx, y - sy);
    Reach {
        x: sc(x),
        y: sc(y),
        t: sc(fl(n.place.t) + dt),
        along: sc(dx * ax + dy * ay),
        bucket: ((dx * -ay + dy * ax) / fl(cfg.cross_track_bucket_m)).round() as i64,
    }
}

fn flat_polar() -> Polar {
    Polar::new(vec![
        (sc(180.0), sc(1.0)),
        (sc(90.0), sc(1.0)),
        (sc(45.0), sc(1.0)),
        (sc(135.0), sc(1.0)),
    ])
}

/// What a boat is steered and trimmed by.
#[derive(Clone, Copy)]
struct Motion {
    heading: f64,
    yaw_rate: f64,
    speed: f64,
    roll: f64,
    drift: f64,
    apparent_angle: f64,
    apparent_speed: f64,
    stretching: f64,
}

fn afloat(heading: f64, yaw_rate: f64, speed: f64, roll: f64, drift: f64) -> Motion {
    Motion {
        heading,
        yaw_rate,
        speed,
        roll,
        drift,
        apparent_angle: 0.0,
        apparent_speed: 0.0,
        stretching: 0.961,
    }
}

/// The arithmetic of a tick at double precision.
fn controls(k: HeadingController, m: Motion) -> Controls<
    impl Fn(Scalar, Scalar) -> Scalar,
    impl Fn(Scalar, Scalar, Scalar) -> Scalar,
    impl Fn(Scalar, Scalar, Scalar) -> Scalar,
    impl Fn() -> Scalar,
    impl Fn(Scalar) -> Scalar,
    impl Fn(Scalar) -> Scalar,
> {
    let (kp, ki, kd, factor) = (fl(k.kp), fl(k.ki), fl(k.kd), fl(k.factor));
    let error = move |h: Scalar| {
        let mut e = fl(h) - m.heading;
        while e > PI {
            e -= 2.0 * PI;
        }
        while e < -PI {
            e += 2.0 * PI;
        }
        e
    };
    let gain = move |v: f64| -1.0 / factor / (v * v) / m.roll.cos();
    Controls {
        integrate: move |h: Scalar, s: Scalar| {
            sc(fl(s) + fl(k.sample_time) * (error(h) - m.drift))
        },
        law: move |h: Scalar, v: Scalar, s: Scalar| {
            sc(gain(fl(v)) * (kp * error(h) + ki * fl(s) - kd * m.yaw_rate))
        },
        unwind: move |h: Scalar, v: Scalar, d: Scalar| {
            sc((fl(d) / gain(fl(v)) - (kp * error(h) - kd * m.yaw_rate)) / ki)
        },
        attack: move || {
            let c = m.apparent_angle.cos();
            sc(m.apparent_angle.sin() / (c + 0.4 * c.powi(2)) * m.stretching / 4.0)
        },
        ease: move |a: Scalar| sc(fl(a) * (6.0 / m.apparent_speed).powi(2)),
        open: move |a: Scalar| sc(m.apparent_angle - fl(a)),
        speed: sc(m.speed),
        apparent_angle: sc(m.apparent_angle),
        apparent_speed: sc(m.apparent_speed),
    }
}

/// One control tick at double precision.
fn control(
    c: &mut HeadingController,
    desired: f64,
    heading: f64,
    yaw_rate: f64,
    speed: f64,
    roll: f64,
    drift: f64,
) -> f64 {
    let k = controls(*c, afloat(heading, yaw_rate, speed, roll, drift));
    fl(c.control(sc(desired), sc(speed), &k.integrate, &k.law, &k.unwind))
}

/// The same at single precision.
fn control32(
    c: &mut HeadingController,
    desired: f32,
    heading: f32,
    yaw_rate: f32,
    speed: f32,
    roll: f32,
    drift: f32,
) -> f32 {
    let lo = |s: Scalar| fl(s) as f32;
    let hi = |x: f32| sc(x as f64);
    let error = |h: Scalar| lo(h) - heading;
    let k = *c;
    let (kp, ki, kd, factor) = (lo(k.kp), lo(k.ki), lo(k.kd), lo(k.factor));
    let gain = |v: f32| -1.0 / factor / (v * v) / roll.cos();
    let integrate =
        |h: Scalar, s: Scalar| hi(lo(s) + lo(k.sample_time) * (error(h) - drift));
    let law = |h: Scalar, v: Scalar, s: Scalar| {
        hi(gain(lo(v)) * (kp * error(h) + ki * lo(s) - kd * yaw_rate))
    };
    let unwind = |h: Scalar, v: Scalar, d: Scalar| {
        hi((lo(d) / gain(lo(v)) - (kp * error(h) - kd * yaw_rate)) / ki)
    };
    lo(c.control(hi(desired), hi(speed), &integrate, &law, &unwind))
}

fn trim(wind_angle: f64, wind_speed: f64, stretching: f64, previous: f64) -> f64 {
    let m = Motion {
        apparent_angle: wind_angle,
        apparent_speed: wind_speed,
        stretching,
        ..afloat(0.0, 0.0, 1.0, 0.0, 0.0)
    };
    let k = controls(HeadingController::with_default_gains(sc(1.0), sc(0.3)), m);
    let r = sail_angle(sc(wind_angle), sc(wind_speed), sc(previous), &k.attack, &k.ease, &k.open);
    assert_eq!(k.trim(sc(previous)), r);
    fl(r)
}

fn crab(desired: f64, current: (f64, f64), water_speed: f64) -> f64 {
    let ratio = |c: Scalar| {
        let c = fl(c);
        sc(-(-current.0 * c.sin() + current.1 * c.cos()) / water_speed)
    };
    let turn = |c: Scalar, s: Scalar| sc(fl(c) + fl(s).asin());
    fl(crab_heading(sc(desired), sc(water_speed), &ratio, &turn))
}

#[test]
fn sign_matches_python_semantics() {
    assert_eq!(fl(sign(sc(0.0))), 0.0);
    assert_eq!(fl(sign(sc(3.2))), 1.0);
    assert_eq!(fl(sign(sc(-0.1))), -1.0);
}

#[test]
fn f32_control_tracks_f64() {
    let limit = 15.0_f64.to_radians();
    let mut c64 = HeadingController::from_params(
        sc(0.477),
        sc(0.5),
        sc(0.1),
        sc(0.9),
        sc(0.3),
        sc(0.3),
        sc(limit),
    );
    let hi = |x: f32| sc(x as f64);
    let mut c32 = HeadingController::from_params(
        hi(0.477),
        hi(0.5),
        hi(0.1),
        hi(0.9),
        hi(0.3),
        hi(0.3),
        hi(15.0_f32.to_radians()),
    );
    for _ in 0..5 {
        let r64 = control(&mut c64, 0.5, 0.0, 0.0, 1.5, 0.1, 0.0);
        let r32 = control32(&mut c32, 0.5, 0.0, 0.0, 1.5, 0.1, 0.0);
        assert!((r64 as f32 - r32).abs() < 1e-4, "f64 {} vs f32 {}", r64, r32);
    }
}

#[test]
fn rudder_saturates_and_unwinds() {
    let mut c = HeadingController::with_default_gains(sc(0.477), sc(0.3));
    assert_eq!(fl(c.max_rudder_angle), 15.0 * PI / 180.0);
    assert_eq!(fl(c.speed_adaption), 0.3);
    assert_eq!((fl(c.kp), fl(c.ki), fl(c.kd)), (0.5, 0.1, 0.9));
    let r = control(&mut c, 2.0, 0.0, 0.0, 1.0, 0.0, 0.0);
    assert_eq!(r, -15.0 * PI / 180.0);
    // The integrator now gives just that angle.
    let expected = (r / (-1.0 / 0.477) - 0.5 * 2.0) / 0.1;
    assert!((fl(c.summed_error) - expected).abs() < 1e-12);
    let l = control(&mut c, -2.0, 0.0, 0.0, 1.0, 0.0, 0.0);
    assert_eq!(l, 15.0 * PI / 180.0);
    c.reset();
    assert_eq!(fl(c.summed_error), 0.0);
}

#[test]
fn a_rudder_at_rest_has_no_side_to_be_limited_on() {
    // A limit below zero cuts every angle; an angle of zero keeps its sign.
    let mut c = HeadingController::with_default_gains(sc(1.0), sc(0.3));
    let at_rest = |c: &mut HeadingController| {
        c.control(
            sc(0.0),
            sc(1.0),
            &|_h: Scalar, s: Scalar| s,
            &|_h: Scalar, _v: Scalar, _s: Scalar| sc(0.0),
            &|_h: Scalar, _v: Scalar, d: Scalar| d,
        )
    };
    c.max_rudder_angle = sc(-1.0);
    assert_eq!(fl(at_rest(&mut c)), 0.0);
    c.max_rudder_angle = sc(f64::NEG_INFINITY);
    assert!(fl(at_rest(&mut c)).is_nan());
    assert!(fl(c.summed_error).is_nan());
}

#[test]
fn slow_boats_are_steered_as_if_faster() {
    let mut slow = HeadingController::with_default_gains(sc(40.0), sc(0.3));
    let mut fast = slow;
    let a = control(&mut slow, 0.01, 0.0, 0.0, 0.01, 0.0, 0.0);
    let b = control(&mut fast, 0.01, 0.0, 0.0, 0.3, 0.0, 0.0);
    assert_eq!(a, b);
    // Small enough for the law to hold: -1/40/0.09 * (0.5 * 0.01 + 0.1 * 0.003).
    assert!((a + (0.005 + 0.0003) / 40.0 / 0.09).abs() < 1e-15);
}

#[test]
fn sail_angle_holds_previous_below_threshold() {
    let prev = 0.42_f64;
    assert_eq!(trim(0.0, 0.1, 0.961, prev), prev);
    assert_ne!(trim(0.0, 0.5, 0.961, prev), prev);
}

#[test]
fn low_apparent_wind_holds_previous_trim() {
    let min = f64::from_bits(MIN_WIND_SPEED_FOR_TRIM);
    assert_eq!(min, 0.2);
    let prev = 0.42;
    let got = trim(0.0, min - 0.05, 0.961, prev);
    assert_eq!(got, prev, "guard should hold previous trim at sub-threshold wind");
    let got2 = trim(2.5, 0.0, 0.961, prev);
    assert_eq!(got2, prev);
    let got3 = trim(0.0, min + 0.05, 0.961, prev);
    assert_ne!(got3, prev);
}

#[test]
fn sail_is_cut_at_the_stall_and_eased_in_strong_wind() {
    let stall = 14.0 * PI / 180.0;
    assert_eq!(f64::from_bits(STALL_ANGLE), stall);
    assert_eq!(f64::from_bits(LIMIT_WIND_SPEED), 6.0);
    assert_eq!(f64::from_bits(QUARTER_TURN), PI / 2.0);
    // On a beam reach the best angle of attack is far beyond the stall.
    assert_eq!(trim(1.4, 5.0, 4.0, 0.0), 1.4 - stall);
    assert_eq!(trim(-1.4, 5.0, 4.0, 0.0), 1.4 - stall);
    assert_eq!(trim(1.4, 12.0, 4.0, 0.0), 1.4 - stall * 0.25);
    // Never further out than a quarter turn.
    assert_eq!(trim(3.0, 5.0, 0.961, 0.0), PI / 2.0);
    // Gentle: the formula as it is.
    let a: f64 = 0.2;
    let c = a.cos();
    let best = a.sin() / (c + 0.4 * c.powi(2)) * 0.961 / 4.0;
    assert_eq!(trim(a, 3.0, 0.961, 0.0), a - best);
}

#[test]
fn sail_side_is_kept_near_both_ends() {
    assert_eq!(f64::from_bits(SAIL_SIDE_DEADBAND), 0.44);
    assert_eq!(f64::from_bits(SAIL_SIDE_GYBE), PI - 0.44);
    let port = sc(1.0);
    let starboard = sc(-1.0);
    assert_eq!(next_sail_side(sc(1.0), starboard), port);
    assert_eq!(next_sail_side(sc(-1.0), port), starboard);
    for side in [port, starboard] {
        for a in [0.0, 0.4, -0.44, PI, -PI, 2.8, -2.8] {
            assert_eq!(next_sail_side(sc(a), side), side);
        }
    }
    assert_eq!(fl(sheet(port, sc(0.3))), 0.3);
    assert_eq!(fl(sheet(starboard, sc(0.3))), -0.3);
    assert_eq!(fl(sheet_by_wind(sc(-0.1), sc(0.3))), -0.3);
    assert_eq!(fl(sheet_by_wind(sc(0.1), sc(0.3))), 0.3);
    assert!(fl(sheet_by_wind(sc(f64::NAN), sc(0.3))).is_nan());
}

#[test]
fn crab_heading_cancels_cross_track_current() {
    let max_crab = 40.0 * PI / 180.0;
    assert_eq!(f64::from_bits(MAX_CRAB_SINE), max_crab.sin());
    assert_eq!(f64::from_bits(CRAB_MIN_WATER_SPEED), 0.5);
    let h = crab(0.0, (0.0, 0.5), 1.0);
    assert!((h - (-(0.5_f64).asin())).abs() < 1e-9, "got {}", h);
    let h2 = crab(0.0, (0.7, 0.0), 1.0);
    assert!(h2.abs() < 1e-9, "got {}", h2);
    let h3 = crab(0.0, (0.0, 5.0), 1.0);
    assert!((h3 + max_crab).abs() < 1e-9, "got {}", h3);
    let h4 = crab(0.0, (0.0, 0.5), 0.3);
    assert!(h4.abs() < 1e-9, "got {}", h4);
}

fn observe(t: f64, x: f64, y: f64, heading: f64, surge: f64, current: (f64, f64)) -> Observation {
    Observation {
        t: sc(t),
        pos_x: sc(x),
        pos_y: sc(y),
        heading: sc(heading),
        yaw_rate: sc(0.0),
        roll: sc(0.0),
        vel_x_body: sc(surge),
        vel_y_body: sc(0.0),
        true_wind: WindReading { direction: sc(-PI / 2.0), speed: sc(5.0) },
        current: (sc(current.0), sc(current.1)),
    }
}

/// A tick of the autopilot with everything measured as a boat would.
fn step(ap: &mut RouteAutopilot, obs: &Observation) -> Command {
    let (t, x, y) = (fl(obs.t), fl(obs.pos_x), fl(obs.pos_y));
    let (heading, surge) = (fl(obs.heading), fl(obs.vel_x_body));
    let current = (fl(obs.current.0), fl(obs.current.1));
    let (wind_dir, wind_speed) = (fl(obs.true_wind.direction), fl(obs.true_wind.speed));
    let wind = (wind_speed * wind_dir.cos(), wind_speed * wind_dir.sin());
    let scene = Scene { t, pos: (x, y), wind, current, stream: None };
    let ground = (surge * heading.cos(), surge * heading.sin());
    let water_speed = (ground.0 - current.0).hypot(ground.1 - current.1);
    let apparent = (
        wind.0 * heading.cos() + wind.1 * heading.sin() - surge,
        -wind.0 * heading.sin() + wind.1 * heading.cos(),
    );
    let senses = Senses {
        since: |s: Scalar| sc(t - fl(s)),
        sight: |f: &RouteFollower| sight(f, &scene),
        ahead: ahead_of(x, y),
        deflect: deflected,
        ratio: |c: Scalar| {
            let c = fl(c);
            sc(-(-current.0 * c.sin() + current.1 * c.cos()) / water_speed)
        },
        turn: |c: Scalar, s: Scalar| sc(fl(c) + fl(s).asin()),
        water_speed: sc(water_speed),
    };
    let motion_now = Motion {
        apparent_angle: (-apparent.1).atan2(-apparent.0),
        apparent_speed: apparent.0.hypot(apparent.1),
        ..afloat(heading, 0.0, surge, 0.0, 0.0)
    };
    let pilot = Pilotage { headings: 72, twa, fold, lerp, distance, motion, cross, offset, extend };
    ap.step(obs, &senses, &controls(ap.helm, motion_now), &pilot)
}

fn helm() -> HeadingController {
    HeadingController::with_default_gains(sc(0.477), sc(0.3))
}

fn straight_north_route() -> Route {
    straight_route("test_north", 0.0, 0.0, 0.0, 100.0)
}

fn autopilot(route: Route, crab: bool, obstacles: Vec<Obstacle>) -> RouteAutopilot {
    RouteAutopilot::new(route, helm(), sc(2.0), crab, obstacles)
}

#[test]
fn held_gate_triggers_replan_and_swaps_route() {
    let mut route = straight_north_route();
    route.waypoints = vec![wp(0.0, 0.0, true, false), wp(0.0, 2000.0, false, false)];
    let mut ap = autopilot(route, false, vec![]);
    let polar = Polar::new(vec![
        (sc(45.0), sc(1.0)),
        (sc(90.0), sc(1.0)),
        (sc(135.0), sc(1.0)),
        (sc(180.0), sc(1.0)),
    ]);
    ap.enable_replanning(ReplanContext::new(polar, None, sc(PI / 2.0), sc(0.0), sc(400.0)));
    let o = observe(10.0, 0.0, 0.0, PI / 2.0, 0.5, (0.0, -0.6));
    let cmd = step(&mut ap, &o);
    let wps = &ap.route().waypoints;
    assert!(!wps[0].gate, "no hold should be left after re-routing");
    assert!(wps.len() >= 3, "tacked replan emits intermediate waypoints, got {}", wps.len());
    let last = wps.last().unwrap();
    assert_eq!((fl(last.x), fl(last.y)), (0.0, 2000.0), "destination preserved");
    assert!(!cmd.mission_complete);
    assert!(fl(cmd.rudder_angle).is_finite());
}

#[test]
fn a_short_hold_is_waited_out() {
    let mut route = straight_north_route();
    route.waypoints = vec![wp(0.0, 0.0, true, false), wp(0.0, 2000.0, false, false)];
    let mut ap = autopilot(route, false, vec![]);
    let polar = flat_polar();
    let ctx = ReplanContext::new(polar, None, sc(PI / 2.0), sc(100.0), sc(400.0));
    ap = ap.with_held_gate_replan(ctx);
    for t in [10.0, 60.0, 109.0] {
        step(&mut ap, &observe(t, 0.0, 0.0, PI / 2.0, 0.5, (0.0, -0.6)));
        assert!(ap.follower.waiting_at_gate());
        assert_eq!(ap.replan.as_ref().unwrap().wait_started_t, Some(sc(10.0)));
    }
    // A fair stream ends the wait and forgets it.
    step(&mut ap, &observe(110.0, 0.0, 0.0, PI / 2.0, 0.5, (0.0, 0.6)));
    assert!(!ap.follower.waiting_at_gate());
    assert_eq!(ap.replan.as_ref().unwrap().wait_started_t, None);
    assert_eq!(ap.route().waypoints.len(), 2);
}

#[test]
fn a_plan_that_fails_restarts_the_wait() {
    let mut route = straight_north_route();
    route.waypoints = vec![wp(0.0, 0.0, true, false), wp(0.0, 2000.0, false, false)];
    let mut ap = autopilot(route, false, vec![]);
    // A boat that cannot sail anywhere.
    let still = flat_polar().derate(&|_v: Scalar| sc(0.0));
    ap.enable_replanning(ReplanContext::new(still, None, sc(PI / 2.0), sc(0.0), sc(400.0)));
    step(&mut ap, &observe(10.0, 0.0, 0.0, PI / 2.0, 0.5, (0.0, -0.6)));
    assert!(ap.follower.waiting_at_gate());
    assert_eq!(ap.replan.as_ref().unwrap().wait_started_t, Some(sc(10.0)));
    assert!(ap.route().waypoints[0].gate);
}

#[test]
fn autopilot_signals_mission_complete_when_route_done() {
    let mut ap = autopilot(straight_north_route(), true, vec![]);
    let cmd = step(&mut ap, &observe(0.0, 0.0, 99.0, 0.0, 1.0, (0.0, 0.0)));
    assert!(cmd.mission_complete, "captured final waypoint should end mission");
    assert_eq!(fl(cmd.rudder_angle), 0.0);
    assert_eq!(fl(cmd.sail_angle), 0.0);
}

fn ahead_of(x: f64, y: f64) -> impl Fn(Scalar) -> Point {
    move |h: Scalar| (sc(x + 300.0 * fl(h).cos()), sc(y + 300.0 * fl(h).sin()))
}

fn deflected(h: Scalar, k: usize, port: bool) -> Scalar {
    let d = 10.0_f64.to_radians() * k as f64;
    sc(fl(h) + if port { d } else { -d })
}

#[test]
fn avoid_land_deflects_around_obstacle_and_passes_clear_water() {
    let wall = Obstacle::new(vec![(sc(100.0), sc(-200.0)), (sc(100.0), sc(200.0))], false);
    let ap = autopilot(straight_north_route(), true, vec![wall]);
    let here = (sc(0.0), sc(0.0));
    let ahead = ahead_of(0.0, 0.0);
    assert!(ap.heading_hits_land(here, sc(0.0), &ahead, &cross));
    let d = ap.avoid_land(here, sc(0.0), &ahead, &deflected, &cross);
    assert!((fl(d) - 0.0).abs() > 1e-6, "should deflect off the wall");
    assert!(!ap.heading_hits_land(here, d, &ahead, &cross), "deflected heading must clear");
    // The least turn that clears, to port.
    assert!((fl(d) - 70.0_f64.to_radians()).abs() < 1e-9);
    let clear = sc(PI / 2.0);
    assert!(!ap.heading_hits_land(here, clear, &ahead, &cross));
    assert_eq!(ap.avoid_land(here, clear, &ahead, &deflected, &cross), clear);
}

#[test]
fn avoid_land_is_noop_without_obstacles() {
    let ap = autopilot(straight_north_route(), true, vec![]);
    let here = (sc(0.0), sc(0.0));
    let ahead = ahead_of(0.0, 0.0);
    assert_eq!(ap.avoid_land(here, sc(1.234), &ahead, &deflected, &cross), sc(1.234));
    assert!(!ap.heading_hits_land(here, sc(0.0), &ahead, &cross));
}

#[test]
fn a_boxed_in_boat_holds_its_heading() {
    let ring: Vec<Point> = vec![
        (sc(-50.0), sc(-50.0)),
        (sc(50.0), sc(-50.0)),
        (sc(50.0), sc(50.0)),
        (sc(-50.0), sc(50.0)),
    ];
    let ap = autopilot(straight_north_route(), true, vec![Obstacle::new(ring, true)]);
    let here = (sc(0.0), sc(1.0));
    let ahead = ahead_of(0.0, 1.0);
    assert_eq!(ap.avoid_land(here, sc(0.3), &ahead, &deflected, &cross), sc(0.3));
}

#[test]
fn autopilot_emits_finite_rudder_and_sail() {
    let mut ap = autopilot(straight_north_route(), true, vec![]);
    let cmd = step(&mut ap, &observe(0.0, 0.0, 0.0, 0.0, 1.0, (0.0, 0.0)));
    assert!(fl(cmd.rudder_angle).is_finite());
    assert!(fl(cmd.sail_angle).is_finite());
    assert!(!cmd.mission_complete);
}

#[test]
fn trim_is_renewed_after_its_period() {
    let mut ap = autopilot(straight_north_route(), false, vec![]);
    step(&mut ap, &observe(0.0, 0.0, 0.0, 0.0, 1.0, (0.0, 0.0)));
    let first = ap.last_sail_mag;
    assert_eq!(ap.last_sail_t, Some(sc(0.0)));
    step(&mut ap, &observe(1.9, 0.0, 0.0, 0.5, 1.0, (0.0, 0.0)));
    assert_eq!(ap.last_sail_mag, first);
    step(&mut ap, &observe(2.0, 0.0, 0.0, 0.5, 1.0, (0.0, 0.0)));
    assert_ne!(ap.last_sail_mag, first);
    assert_eq!(ap.last_sail_t, Some(sc(2.0)));
    ap.reset();
    assert_eq!(fl(ap.last_sail_mag), 0.0);
    assert_eq!(ap.last_sail_t, None);
    assert_eq!(fl(ap.sail_side), 1.0);
}

#[test]
fn the_autopilot_steers_with_its_own_controller() {
    let east = || straight_route("east", 0.0, 0.0, 1000.0, 0.0);
    // Far off its heading the rudder is hard over and no further.
    let mut ap = autopilot(east(), false, vec![]);
    let cmd = step(&mut ap, &observe(0.0, 0.0, 0.0, -2.0, 1.0, (0.0, 0.0)));
    assert_eq!(fl(cmd.rudder_angle), -15.0 * PI / 180.0);
    assert_ne!(fl(ap.helm.summed_error), 0.0);
    assert_eq!(HeadingController { summed_error: sc(0.0), ..ap.helm }, helm());
    // The command is the controller's, for the heading that is asked for.
    let mut ap = autopilot(east(), false, vec![]);
    let mut alone = helm();
    for k in 0..5 {
        let t = 0.3 * k as f64;
        let cmd = step(&mut ap, &observe(t, 0.0, 0.0, -0.05, 1.0, (0.0, 0.0)));
        let by_hand = control(&mut alone, 0.0, -0.05, 0.0, 1.0, 0.0, 0.0);
        assert_eq!(fl(cmd.rudder_angle), by_hand);
        assert_eq!(ap.helm, alone);
    }
    // To reset the autopilot empties the integrator.
    assert_ne!(fl(ap.helm.summed_error), 0.0);
    ap.reset();
    assert_eq!(ap.helm, helm());
}

#[test]
fn streams_are_corrected_for_only_when_asked() {
    // Eastward with the wind on the beam, and a stream to the north.
    let asked_heading = |crab: bool| {
        let route = straight_route("east", 0.0, 0.0, 1000.0, 0.0);
        let mut ap = autopilot(route, crab, vec![]);
        let asked = RefCell::new(0.0);
        let obs = observe(0.0, 0.0, 0.0, 0.0, 1.0, (0.0, 0.5));
        let scene = Scene {
            t: 0.0,
            pos: (0.0, 0.0),
            wind: wind_from_deg(5.0, 90.0),
            current: (0.0, 0.5),
            stream: None,
        };
        let senses = Senses {
            since: |s: Scalar| sc(-fl(s)),
            sight: |f: &RouteFollower| sight(f, &scene),
            ahead: ahead_of(0.0, 0.0),
            deflect: deflected,
            ratio: |_c: Scalar| sc(-0.5),
            turn: |c: Scalar, s: Scalar| sc(fl(c) + fl(s).asin()),
            water_speed: sc(1.0),
        };
        let controls = Controls {
            integrate: |_h: Scalar, s: Scalar| s,
            law: |h: Scalar, _v: Scalar, _s: Scalar| {
                *asked.borrow_mut() = fl(h);
                sc(0.0)
            },
            unwind: |_h: Scalar, _v: Scalar, d: Scalar| d,
            attack: || sc(0.0),
            ease: |a: Scalar| a,
            open: |a: Scalar| a,
            speed: sc(1.0),
            apparent_angle: sc(1.0),
            apparent_speed: sc(0.0),
        };
        let pilot =
            Pilotage { headings: 72, twa, fold, lerp, distance, motion, cross, offset, extend };
        ap.step(&obs, &senses, &controls, &pilot);
        let h = *asked.borrow();
        h
    };
    assert_eq!(asked_heading(false), 0.0);
    assert!((asked_heading(true) + 0.5_f64.asin()).abs() < 1e-12);
}

#[test]
fn fixed_heading_is_held() {
    let mut ap = FixedHeadingAutopilot::new(sc(0.7), helm());
    let mut alone = helm();
    let on = |angle: f64| Motion {
        apparent_angle: angle,
        apparent_speed: 3.0,
        ..afloat(0.69, 0.0, 1.0, 0.0, 0.0)
    };
    let cmd = ap.step(&controls(ap.helm, on(-1.4)));
    assert_eq!(fl(cmd.rudder_angle), control(&mut alone, 0.7, 0.69, 0.0, 1.0, 0.0, 0.0));
    assert_eq!(fl(cmd.sail_angle), -trim(-1.4, 3.0, 0.961, 0.0));
    assert!(!cmd.mission_complete);
    assert_eq!(ap.helm, alone);
    let cmd = ap.step(&controls(ap.helm, on(1.4)));
    assert_eq!(fl(cmd.rudder_angle), control(&mut alone, 0.7, 0.69, 0.0, 1.0, 0.0, 0.0));
    assert_eq!(fl(cmd.sail_angle), trim(1.4, 3.0, 0.961, 0.0));
    assert_eq!(fl(ap.target_heading), 0.7);
}
