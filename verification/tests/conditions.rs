use sailboat::conditions::{
    choose_current, choose_override, choose_wind, ConstantWind, CurrentChoice, NoCurrent,
    OrnsteinUhlenbeckWind, Prng, Series, TabulatedCurrent, TabulatedWind, TidalParams, TidalStream,
    TideForecast, TrueWind, WindChoice, WindVariance,
};
use sailboat::route::WindOverride;
use sailboat::scalar::{Point, Scalar};
use std::f64::consts::PI;

const SEMIDIURNAL_PERIOD_S: f64 = 12.42 * 3600.0;

fn sc(x: f64) -> Scalar {
    Scalar { bits: x.to_bits() }
}

fn fl(s: Scalar) -> f64 {
    f64::from_bits(s.bits)
}

fn stream_at(s: TidalStream, t: f64) -> Point {
    let v = fl(s.peak_speed) * (2.0 * PI * t / fl(s.period_s) + fl(s.phase_rad)).sin();
    (sc(v * fl(s.axis_rad).cos()), sc(v * fl(s.axis_rad).sin()))
}

fn series_at(s: &Series, t: f64) -> Point {
    let fraction = |p: Scalar, i: u64| sc(fl(p) - i as f64);
    let lerp = |a: Scalar, b: Scalar, f: Scalar| sc(fl(a) + (fl(b) - fl(a)) * fl(f));
    s.at(sc(t / fl(s.dt_s)), &fraction, &lerp)
}

fn foretold(f: &TideForecast, t: f64) -> Option<(f64, f64)> {
    f.at(&|s: TidalStream| stream_at(s, t), &|s: &Series| series_at(s, t))
        .map(|p| (fl(p.0), fl(p.1)))
}

fn pair(u1: Scalar, u2: Scalar) -> (Scalar, Scalar) {
    let r = (-2.0 * fl(u1).ln()).sqrt();
    let theta = 2.0 * PI * fl(u2);
    (sc(r * theta.cos()), sc(r * theta.sin()))
}

fn wander(dt: Scalar, tau: Scalar, v: Scalar, m: Scalar, s: Scalar, z: Scalar) -> Scalar {
    let (dt, tau) = (fl(dt), fl(tau));
    let scale = (2.0 * dt / tau).sqrt();
    sc(fl(v) + (-(fl(v) - fl(m)) * (dt / tau) + fl(s) * scale * fl(z)))
}

fn vector(speed: Scalar, direction: Scalar) -> (Scalar, Scalar, Scalar) {
    let (v, d) = (fl(speed), fl(direction));
    (sc(v * d.cos()), sc(v * d.sin()), sc(d.to_degrees()))
}

fn blow(w: &mut OrnsteinUhlenbeckWind, dt: f64) -> TrueWind {
    w.sample(sc(dt), &wander, &pair, &vector)
}

#[test]
fn no_current_is_zero() {
    let m = NoCurrent;
    assert_eq!(m.sample(), (sc(0.0), sc(0.0)));
    assert!(foretold(&m.forecaster(), 1234.5).is_none());
}

#[test]
fn tidal_stream_peaks_and_reverses() {
    let p = SEMIDIURNAL_PERIOD_S;
    let m = TidalStream::new(sc(2.0), sc(0.0), sc(p), sc(0.0)).forecaster();
    let (x0, y0) = foretold(&m, 0.0).unwrap();
    assert!(x0.abs() < 1e-9 && y0.abs() < 1e-9);
    let (xq, yq) = foretold(&m, p / 4.0).unwrap();
    assert!((xq - 2.0).abs() < 1e-9, "flood peak {}", xq);
    assert!(yq.abs() < 1e-9);
    let (xe, _) = foretold(&m, 3.0 * p / 4.0).unwrap();
    assert!((xe + 2.0).abs() < 1e-9, "ebb peak {}", xe);
}

#[test]
fn tidal_stream_axis_rotates() {
    let p = SEMIDIURNAL_PERIOD_S;
    let m = TidalStream::new(sc(1.0), sc(PI / 2.0), sc(p), sc(0.0)).forecaster();
    let (x, y) = foretold(&m, p / 4.0).unwrap();
    assert!(x.abs() < 1e-9, "x {}", x);
    assert!((y - 1.0).abs() < 1e-9, "y {}", y);
}

fn series(u: &[f64], v: &[f64], dt: f64) -> Series {
    Series {
        dt_s: sc(dt),
        u_east: u.iter().map(|&x| sc(x)).collect(),
        v_north: v.iter().map(|&x| sc(x)).collect(),
    }
}

#[test]
fn tabulated_current_interpolates_and_clamps() {
    let t = TabulatedCurrent::from_series(series(&[0.0, 1.0, 2.0], &[0.0, 0.0, 0.0], 100.0), "x")
        .unwrap();
    let sample = |at: f64| {
        let p = series_at(&t.series, at);
        (fl(p.0), fl(p.1))
    };
    assert_eq!(sample(0.0), (0.0, 0.0));
    assert_eq!(sample(50.0), (0.5, 0.0));
    assert_eq!(sample(100.0), (1.0, 0.0));
    assert_eq!(sample(150.0), (1.5, 0.0));
    assert_eq!(sample(999.0), (2.0, 0.0));
    assert_eq!(sample(-10.0), (0.0, 0.0));
    assert_eq!(foretold(&t.forecaster(), 150.0), Some((1.5, 0.0)));
}

#[test]
fn series_that_cannot_be_used_are_refused() {
    let text = "tide data a.json must have matching non-empty u/v and dt_s>0";
    for s in [
        series(&[], &[], 1.0),
        series(&[1.0], &[1.0, 2.0], 1.0),
        series(&[1.0], &[1.0], 0.0),
        series(&[1.0], &[1.0], f64::NAN),
    ] {
        assert_eq!(TabulatedCurrent::from_series(s, "a.json").unwrap_err(), text);
    }
    assert_eq!(
        TabulatedWind::from_series(series(&[], &[], 1.0), "b").unwrap_err(),
        "wind data b must have matching non-empty u/v and dt_s>0"
    );
    let w = TabulatedWind::from_series(series(&[3.0], &[4.0], 1.0), "b").unwrap();
    assert_eq!(series_at(&w.series, 77.0), (sc(3.0), sc(4.0)));
}

#[test]
fn constant_wind_does_not_change() {
    let tw = TrueWind { x: sc(3.0), y: sc(4.0), strength: sc(5.0), direction: sc(53.13) };
    let m = ConstantWind::new(tw);
    let a = m.sample();
    let b = m.sample();
    assert_eq!(fl(a.strength), fl(b.strength));
    assert_eq!(fl(a.x), fl(b.x));
    assert_eq!(a, tw);
}

#[test]
fn ou_wind_stays_near_mean_long_term() {
    let mut m = OrnsteinUhlenbeckWind::new(
        sc(5.0),
        sc(0.5),
        sc(0.5),
        sc(5.0_f64.to_radians()),
        sc(30.0),
        0xC0FFEE,
    );
    let dt = 0.3;
    let n = (300.0 / dt) as usize;
    let mut s_sum = 0.0;
    let mut d_sum = 0.0;
    for _ in 0..n {
        let w = blow(&mut m, dt);
        s_sum += fl(w.strength);
        d_sum += fl(w.direction).to_radians();
    }
    let s_avg = s_sum / n as f64;
    let d_avg = d_sum / n as f64;
    assert!((s_avg - 5.0).abs() < 1.0, "speed avg {} drifted from 5.0", s_avg);
    assert!((d_avg - 0.5).abs() < 0.3, "dir avg {} drifted from 0.5", d_avg);
}

#[test]
fn ou_wind_reproducible_under_same_seed() {
    let make = || OrnsteinUhlenbeckWind::new(sc(5.0), sc(0.0), sc(1.0), sc(0.1), sc(10.0), 42);
    let mut a = make();
    let mut b = make();
    for _ in 0..50 {
        let x = blow(&mut a, 0.3);
        let y = blow(&mut b, 0.3);
        assert_eq!(fl(x.strength), fl(y.strength));
        assert_eq!(fl(x.direction), fl(y.direction));
        assert_eq!(fl(x.x), fl(y.x));
    }
}

#[test]
fn winds_made_alike_blow_alike_at_any_times() {
    let make = |seed: u64| {
        OrnsteinUhlenbeckWind::new(sc(5.0), sc(0.3), sc(1.0), sc(0.1), sc(10.0), seed)
    };
    let dts: Vec<f64> = (0..40).map(|k| 0.1 + 0.37 * ((k * 7) % 11) as f64).collect();
    let run = |seed: u64| -> Vec<TrueWind> {
        let mut w = make(seed);
        dts.iter().map(|&dt| blow(&mut w, dt)).collect()
    };
    assert_eq!(run(42), run(42));
    assert_ne!(run(42), run(44));
    for w in run(42) {
        let d = fl(w.direction).to_radians();
        assert!((fl(w.x) - fl(w.strength) * d.cos()).abs() < 1e-9);
        assert!((fl(w.y) - fl(w.strength) * d.sin()).abs() < 1e-9);
    }
    // A longer step moves the wind by more.
    let moved = |dt: f64| (fl(blow(&mut make(42), dt).strength) - 5.0).abs();
    assert!(moved(1.0) > moved(0.1));
}

#[test]
fn wind_speed_never_drops_below_zero() {
    let mut m = OrnsteinUhlenbeckWind::new(sc(0.1), sc(0.0), sc(5.0), sc(0.1), sc(0.0), 7);
    assert_eq!(fl(m.tau()), 1e-3);
    m.correlation_time_s = sc(1.0);
    let mut still = 0;
    for _ in 0..200 {
        let s = fl(blow(&mut m, 0.3).strength);
        assert!(s >= 0.0);
        if s == 0.0 {
            still += 1;
        }
    }
    assert!(still > 10);
}

#[test]
fn generator_follows_its_recurrence() {
    let mut rng = Prng::new(42);
    let mut x: u64 = 42 | 1;
    for _ in 0..20 {
        x ^= x << 13;
        x ^= x >> 7;
        x ^= x << 17;
        assert_eq!(rng.next_u64(), x.wrapping_mul(2685821657736338717));
    }
    let mut rng = Prng::new(42);
    let mut raw = Prng::new(42);
    for _ in 0..20 {
        let u = fl(rng.next_unit());
        let bits = raw.next_u64() >> 11;
        assert_eq!(u, bits as f64 * (1.0 / ((1u64 << 53) as f64)));
    }
}

#[test]
fn normal_samples_come_in_pairs() {
    let mut rng = Prng::new(9);
    let mut raw = Prng::new(9);
    let a = rng.gauss(&pair);
    let b = rng.gauss(&pair);
    let u1 = raw.next_unit();
    let u2 = raw.next_unit();
    assert_eq!((a, b), pair(u1, u2));
    assert_eq!(rng.next_u64(), raw.next_u64());
}

#[test]
fn a_zero_draw_is_drawn_again() {
    // Seeds whose first draw is zero.
    for seed in [4639088549259515973u64, 9282680148457689227, 14959636423618334847] {
        let mut raw = Prng::new(seed);
        assert_eq!(fl(raw.next_unit()), 0.0);
        let u1 = raw.next_unit();
        let u2 = raw.next_unit();
        assert!(fl(u1) > 0.0);
        let mut rng = Prng::new(seed);
        assert_eq!(rng.gauss(&pair), pair(u1, u2).0);
    }
}

#[test]
fn models_are_chosen_by_precedence() {
    let calm = WindVariance {
        speed_sigma: sc(0.0),
        direction_sigma_rad: sc(-0.0),
        correlation_time_s: sc(30.0),
        seed: 1,
    };
    let gusty = WindVariance { speed_sigma: sc(0.5), ..calm };
    assert!(calm.is_disabled());
    assert!(!gusty.is_disabled());
    assert_eq!(choose_wind(true, Some(gusty)), WindChoice::Recorded);
    assert_eq!(choose_wind(false, Some(gusty)), WindChoice::Wandering(gusty));
    assert_eq!(choose_wind(false, Some(calm)), WindChoice::Constant);
    assert_eq!(choose_wind(false, None), WindChoice::Constant);

    let tide = TidalParams {
        peak_speed: sc(1.5),
        axis_rad: sc(0.1),
        period_s: sc(100.0),
        phase_rad: sc(0.2),
    };
    let slack = TidalParams { peak_speed: sc(0.0), ..tide };
    assert_eq!(choose_current(true, Some(tide)), CurrentChoice::Recorded);
    assert_eq!(
        choose_current(false, Some(tide)),
        CurrentChoice::Reversing(TidalStream::new(sc(1.5), sc(0.1), sc(100.0), sc(0.2)))
    );
    assert_eq!(choose_current(false, Some(slack)), CurrentChoice::Still);
    assert_eq!(choose_current(false, None), CurrentChoice::Still);

    let a = WindOverride { direction_deg: sc(1.0), speed: sc(2.0) };
    let b = WindOverride { direction_deg: sc(3.0), speed: sc(4.0) };
    assert_eq!(choose_override(Some(a), Some(b)), Some(a));
    assert_eq!(choose_override(None, Some(b)), Some(b));
    assert_eq!(choose_override(None, None), None);
}
