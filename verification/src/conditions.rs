//! Wind and stream: constant, varying about a mean, or out of a table.

use vstd::arithmetic::div_mod::{lemma_mul_mod_noop_left, lemma_mul_mod_noop_right, lemma_small_mod};
use vstd::arithmetic::power2::pow2;
use vstd::prelude::*;

use crate::number::{from_whole, unit_fraction, whole, whole_spec, WHOLE_LIMIT};
use crate::route::WindOverride;
use crate::scalar::{value, Point, Scalar, INFINITY_BITS};

verus! {

/// Pattern of a thousandth: the shortest correlation time, in seconds.
pub const LEAST_CORRELATION_TIME: u64 = 0x3f50_624d_d2f1_a9fc;

/// Factor that the state of the generator is multiplied by for its output.
pub const MULTIPLIER: u64 = 2685821657736338717;

/// The inverse of that factor.
pub const MULTIPLIER_INVERSE: u64 = 6415128727920758069;

/// World-frame wind: its components, its speed, and the direction that it
/// blows toward in degrees.
#[derive(Clone, Copy, PartialEq, Eq, Structural, Debug)]
pub struct TrueWind {
    pub x: Scalar,
    pub y: Scalar,
    pub strength: Scalar,
    pub direction: Scalar,
}

/// A wind that never changes.
#[derive(Clone, Copy, PartialEq, Eq, Structural, Debug)]
pub struct ConstantWind {
    pub wind: TrueWind,
}

impl ConstantWind {
    /// A wind that never changes.
    pub fn new(wind: TrueWind) -> (r: ConstantWind)
        ensures
            r.wind == wind,
    {
        ConstantWind { wind }
    }

    /// The wind at any time.
    pub fn sample(&self) -> (r: TrueWind)
        ensures
            r == self.wind,
    {
        self.wind
    }
}

/// Still water.
#[derive(Clone, Copy, PartialEq, Eq, Structural, Debug)]
pub struct NoCurrent;

impl NoCurrent {
    /// The stream at any time: none.
    pub fn sample(&self) -> (r: Point)
        ensures
            r.0 == (Scalar { bits: 0 }),
            r.1 == (Scalar { bits: 0 }),
    {
        (Scalar::zero(), Scalar::zero())
    }

    /// What can be foretold of it: nothing that a gate could wait for.
    pub fn forecaster(&self) -> (r: TideForecast)
        ensures
            r == TideForecast::Unknown,
    {
        TideForecast::Unknown
    }
}

/// A reversing stream as it is asked for. At no peak speed the water is still.
#[derive(Clone, Copy, PartialEq, Eq, Structural, Debug)]
pub struct TidalParams {
    pub peak_speed: Scalar,
    pub axis_rad: Scalar,
    pub period_s: Scalar,
    pub phase_rad: Scalar,
}

/// A reversing stream along one axis.
#[derive(Clone, Copy, PartialEq, Eq, Structural, Debug)]
pub struct TidalStream {
    pub peak_speed: Scalar,
    pub axis_rad: Scalar,
    pub period_s: Scalar,
    pub phase_rad: Scalar,
}

impl TidalStream {
    /// A reversing stream along one axis.
    pub fn new(
        peak_speed: Scalar,
        axis_rad: Scalar,
        period_s: Scalar,
        phase_rad: Scalar,
    ) -> (r: TidalStream)
        ensures
            r == (TidalStream { peak_speed, axis_rad, period_s, phase_rad }),
    {
        TidalStream { peak_speed, axis_rad, period_s, phase_rad }
    }

    /// What can be foretold of it: all of it.
    pub fn forecaster(&self) -> (r: TideForecast)
        ensures
            r == TideForecast::Stream(*self),
    {
        TideForecast::Stream(*self)
    }
}

/// A series in time, at even steps from time zero on.
#[derive(Clone, Debug)]
pub struct Series {
    pub dt_s: Scalar,
    pub u_east: Vec<Scalar>,
    pub v_north: Vec<Scalar>,
}

/// What is said of a series that cannot be used. `kind` is what it is a series
/// of, `name` where it came from.
pub open spec fn bad_series_text(kind: Seq<char>, name: Seq<char>) -> Seq<char> {
    kind + " data "@ + name + " must have matching non-empty u/v and dt_s>0"@
}

/// The place of a time in a series of `n` samples, in steps: `steps` held
/// between the first sample and the last.
pub open spec fn place_in(n: int, steps: Scalar, last: Scalar, r: Scalar) -> bool {
    &&& value(last) == (n - 1) * pow2(1074)
    &&& last.magnitude() < INFINITY_BITS
    &&& !last.negative()
    &&& r == steps.limited(Scalar { bits: 0 }, last)
}

/// The series at a place: the last sample from the last one on, and before
/// that what `lerp` makes of the samples on both sides and of the fraction of
/// the step between them.
pub open spec fn series_at<
    F: Fn(Scalar, u64) -> Scalar,
    L: Fn(Scalar, Scalar, Scalar) -> Scalar,
>(u: Seq<Scalar>, v: Seq<Scalar>, place: Scalar, fraction: F, lerp: L, r: Point) -> bool {
    let n = u.len();
    let i = whole_spec(place);
    if i + 1 >= n {
        r.0 == u[n - 1] && r.1 == v[n - 1]
    } else {
        exists|f: Scalar|
            {
                &&& #[trigger] call_ensures(fraction, (place, i as u64), f)
                &&& call_ensures(lerp, (u[i], u[i + 1], f), r.0)
                &&& call_ensures(lerp, (v[i], v[i + 1], f), r.1)
            }
    }
}

impl Series {
    /// Both rows are as long, there is a sample, and time moves on.
    pub open spec fn usable(&self) -> bool {
        &&& self.u_east@.len() > 0
        &&& self.u_east@.len() == self.v_north@.len()
        &&& (Scalar { bits: 0 }).below(self.dt_s)
    }

    /// Refuse a series that cannot be used.
    pub fn check(self, kind: &str, name: &str) -> (r: Result<Series, String>)
        ensures
            match r {
                Ok(s) => self.usable() && s == self,
                Err(text) => !self.usable() && text@ == bad_series_text(kind@, name@),
            },
    {
        if self.u_east.len() > 0 && self.u_east.len() == self.v_north.len() && self.dt_s.gt(
            Scalar::zero(),
        ) {
            Ok(self)
        } else {
            let mut text: String = kind.to_string();
            text.append(" data ");
            text.append(name);
            text.append(" must have matching non-empty u/v and dt_s>0");
            Err(text)
        }
    }

    /// The series at a time that lies `steps` steps from its beginning.
    /// `fraction` takes a whole number of steps off a place, and `lerp` goes a
    /// fraction of the way from one sample to the next. Before and behind the
    /// series its ends are held.
    pub fn at<F: Fn(Scalar, u64) -> Scalar, L: Fn(Scalar, Scalar, Scalar) -> Scalar>(
        &self,
        steps: Scalar,
        fraction: &F,
        lerp: &L,
    ) -> (r: Point)
        requires
            self.usable(),
            self.u_east@.len() <= WHOLE_LIMIT,
            forall|p: Scalar, i: u64| call_requires(*fraction, (p, i)),
            forall|a: Scalar, b: Scalar, f: Scalar| call_requires(*lerp, (a, b, f)),
        ensures
            exists|last: Scalar, place: Scalar|
                {
                    &&& #[trigger] place_in(self.u_east@.len() as int, steps, last, place)
                    &&& series_at(self.u_east@, self.v_north@, place, *fraction, *lerp, r)
                },
    {
        let n: usize = self.u_east.len();
        let last: Scalar = from_whole((n - 1) as u64);
        proof {
            crate::number::law_whole_number_comes_back((n - 1) as u64, last);
        }
        let place: Scalar = steps.clamp(Scalar::zero(), last);
        assert(place_in(n as int, steps, last, place));
        let i: u64 = whole(place);
        if i >= (n - 1) as u64 {
            (self.u_east[n - 1], self.v_north[n - 1])
        } else {
            let f: Scalar = fraction(place, i);
            assert(call_ensures(*fraction, (place, i), f));
            let k: usize = i as usize;
            (
                lerp(self.u_east[k], self.u_east[k + 1], f),
                lerp(self.v_north[k], self.v_north[k + 1], f),
            )
        }
    }
}

/// Before its beginning a series is as at its beginning, and from its last
/// sample on it is that sample.
pub proof fn law_series_is_held_outside<
    F: Fn(Scalar, u64) -> Scalar,
    L: Fn(Scalar, Scalar, Scalar) -> Scalar,
>(
    u: Seq<Scalar>,
    v: Seq<Scalar>,
    steps: Scalar,
    last: Scalar,
    place: Scalar,
    fraction: F,
    lerp: L,
    r: Point,
)
    requires
        0 < u.len() <= WHOLE_LIMIT,
        u.len() == v.len(),
        place_in(u.len() as int, steps, last, place),
        series_at(u, v, place, fraction, lerp, r),
    ensures
        steps.below(Scalar { bits: 0 }) ==> place == (Scalar { bits: 0 }),
        last.below(steps) || steps == last ==> r.0 == u.last() && r.1 == v.last(),
{
    crate::number::law_whole_number_comes_back((u.len() - 1) as u64, last);
    vstd::arithmetic::power2::lemma_pow2_pos(1074);
}

/// A wind out of a table.
#[derive(Debug)]
pub struct TabulatedWind {
    pub series: Series,
}

impl TabulatedWind {
    /// A wind out of a table that can be used. `name` is where it came from.
    pub fn from_series(series: Series, name: &str) -> (r: Result<TabulatedWind, String>)
        ensures
            match r {
                Ok(w) => series.usable() && w.series == series,
                Err(text) => !series.usable() && text@ == bad_series_text("wind"@, name@),
            },
    {
        match series.check("wind", name) {
            Ok(series) => Ok(TabulatedWind { series }),
            Err(text) => Err(text),
        }
    }
}

/// A stream out of a table.
#[derive(Debug)]
pub struct TabulatedCurrent {
    pub series: Series,
}

impl TabulatedCurrent {
    /// A stream out of a table that can be used. `name` is where it came from.
    pub fn from_series(series: Series, name: &str) -> (r: Result<TabulatedCurrent, String>)
        ensures
            match r {
                Ok(c) => series.usable() && c.series == series,
                Err(text) => !series.usable() && text@ == bad_series_text("tide"@, name@),
            },
    {
        match series.check("tide", name) {
            Ok(series) => Ok(TabulatedCurrent { series }),
            Err(text) => Err(text),
        }
    }

    /// What can be foretold of it: the table itself.
    pub fn forecaster(&self) -> (r: TideForecast)
        ensures
            match r {
                TideForecast::Table(s) => {
                    &&& s.dt_s == self.series.dt_s
                    &&& s.u_east@ == self.series.u_east@
                    &&& s.v_north@ == self.series.v_north@
                },
                _ => false,
            },
    {
        TideForecast::Table(
            Series {
                dt_s: self.series.dt_s,
                u_east: copied(&self.series.u_east),
                v_north: copied(&self.series.v_north),
            },
        )
    }
}

fn copied(v: &Vec<Scalar>) -> (r: Vec<Scalar>)
    ensures
        r@ == v@,
{
    let n: usize = v.len();
    let mut r: Vec<Scalar> = Vec::new();
    let mut i: usize = 0;
    while i < n
        invariant
            n == v@.len(),
            i <= n,
            r@ =~= v@.take(i as int),
        decreases n - i,
    {
        r.push(v[i]);
        i = i + 1;
    }
    assert(v@.take(n as int) =~= v@);
    r
}

/// What can be foretold of the stream.
#[derive(Clone, Debug)]
pub enum TideForecast {
    /// Nothing.
    Unknown,
    /// A reversing stream.
    Stream(TidalStream),
    /// A series.
    Table(Series),
}

impl TideForecast {
    /// The stream at a time, unless nothing can be foretold. `stream` computes
    /// a reversing stream, `table` looks a series up.
    pub fn at<S: Fn(TidalStream) -> Point, T: Fn(&Series) -> Point>(
        &self,
        stream: &S,
        table: &T,
    ) -> (r: Option<Point>)
        requires
            forall|s: TidalStream| call_requires(*stream, (s,)),
            forall|s: &Series| call_requires(*table, (s,)),
        ensures
            match *self {
                TideForecast::Unknown => r is None,
                TideForecast::Stream(s) => r is Some && call_ensures(*stream, (s,), r->0),
                TideForecast::Table(s) => r is Some && call_ensures(*table, (&s,), r->0),
            },
    {
        match self {
            TideForecast::Unknown => None,
            TideForecast::Stream(s) => Some(stream(*s)),
            TideForecast::Table(s) => Some(table(s)),
        }
    }
}

/// The next state of the generator.
pub open spec fn scrambled(x: u64) -> u64 {
    let a = x ^ (x << 13);
    let b = a ^ (a >> 7);
    b ^ (b << 17)
}

/// What the generator gives out in a state.
pub open spec fn output(x: u64) -> u64 {
    ((x * MULTIPLIER) % 0x1_0000_0000_0000_0000) as u64
}

/// A uniform draw: the top 53 bits of what is given out.
pub open spec fn draw(x: u64) -> int {
    output(x) as int / 2048
}

/// The generator never gets stuck at zero.
pub proof fn law_generator_never_stalls(x: u64)
    requires
        x != 0,
    ensures
        scrambled(x) != 0,
{
    assert(x != 0 ==> ({
        let a = x ^ (x << 13);
        let b = a ^ (a >> 7);
        b ^ (b << 17)
    }) != 0) by (bit_vector);
}

proof fn lemma_output_tells_the_state(x: u64)
    ensures
        (output(x) * MULTIPLIER_INVERSE) % 0x1_0000_0000_0000_0000 == x,
{
    let m: int = 0x1_0000_0000_0000_0000;
    let a = x as int;
    let p = MULTIPLIER as int;
    let q = MULTIPLIER_INVERSE as int;
    assert(output(x) == (a * p) % m);
    lemma_mul_mod_noop_left(a * p, q, m);
    assert((a * p) * q == a * (p * q)) by (nonlinear_arith);
    lemma_mul_mod_noop_right(a, p * q, m);
    assert((p * q) % m == 1);
    assert(a * 1 == a);
    lemma_small_mod(a as nat, m as nat);
}

proof fn lemma_products_wrap(x: u64)
    ensures
        (x * 2685821657736338717) as u64 == (x * 2685821657736338717) % 0x1_0000_0000_0000_0000,
        (x * 6415128727920758069) as u64 == (x * 6415128727920758069) % 0x1_0000_0000_0000_0000,
{
    assert((x * 2685821657736338717) as u64 == (x * 2685821657736338717)
        % 0x1_0000_0000_0000_0000) by (bit_vector);
    assert((x * 6415128727920758069) as u64 == (x * 6415128727920758069)
        % 0x1_0000_0000_0000_0000) by (bit_vector);
}

/// Two draws in a row are never both zero.
pub proof fn law_zero_is_not_drawn_twice(x: u64)
    requires
        x != 0,
        draw(x) == 0,
    ensures
        draw(scrambled(x)) != 0,
{
    let j = output(x);
    lemma_output_tells_the_state(x);
    assert(j < 2048);
    lemma_products_wrap(j);
    lemma_products_wrap(scrambled(x));
    assert(0 < j < 2048 ==> ({
        let x = (j * 6415128727920758069) as u64;
        let a = x ^ (x << 13);
        let b = a ^ (a >> 7);
        let c = b ^ (b << 17);
        ((c * 2685821657736338717) as u64) >= 2048
    })) by (bit_vector);
}

/// A small reproducible random generator.
#[derive(Clone, Copy, Debug)]
pub struct Prng {
    state: u64,
    cached: Option<Scalar>,
}

/// A draw as a quantity between zero and one.
pub open spec fn is_draw(x: u64, u: Scalar) -> bool {
    &&& value(u) == draw(x) * pow2(1021)
    &&& u.magnitude() < INFINITY_BITS
    &&& !u.negative()
}

/// The state that the first of two draws comes from: the next one, or the one
/// behind it where that gives zero.
pub open spec fn first_draw(x: u64) -> u64 {
    if draw(scrambled(x)) == 0 {
        scrambled(scrambled(x))
    } else {
        scrambled(x)
    }
}

/// One normal sample `z` takes the generator from `a` to `b`: the kept one if
/// there is one, else the first of the pair made of the next two draws.
pub open spec fn gauss_step<P: Fn(Scalar, Scalar) -> (Scalar, Scalar)>(
    a: Prng,
    pair: P,
    b: Prng,
    z: Scalar,
) -> bool {
    match a.kept() {
        Some(k) => z == k && b.state() == a.state() && b.kept() is None,
        None => {
            let s1 = first_draw(a.state());
            &&& b.state() == scrambled(s1)
            &&& b.kept() is Some
            &&& exists|u1: Scalar, u2: Scalar|
                {
                    &&& is_draw(s1, u1)
                    &&& is_draw(scrambled(s1), u2)
                    &&& #[trigger] call_ensures(pair, (u1, u2), (z, b.kept()->0))
                }
        },
    }
}

impl Prng {
    /// The state of the generator.
    pub closed spec fn state(&self) -> u64 {
        self.state
    }

    /// The second of a pair of samples, until it is asked for.
    pub closed spec fn kept(&self) -> Option<Scalar> {
        self.cached
    }

    /// A generator never stands at zero.
    pub open spec fn inv(&self) -> bool {
        self.state() != 0
    }

    /// A generator from a seed.
    pub fn new(seed: u64) -> (r: Prng)
        ensures
            r.inv(),
            r.state() == seed | 1,
            r.kept() is None,
    {
        assert(seed | 1 != 0) by (bit_vector);
        Prng { state: seed | 1, cached: None }
    }

    /// The next 64 random bits.
    pub fn next_u64(&mut self) -> (r: u64)
        requires
            old(self).inv(),
        ensures
            final(self).inv(),
            final(self).state() == scrambled(old(self).state()),
            final(self).kept() == old(self).kept(),
            r == output(final(self).state()),
    {
        proof {
            law_generator_never_stalls(self.state);
        }
        let mut x: u64 = self.state;
        x = x ^ (x << 13);
        x = x ^ (x >> 7);
        x = x ^ (x << 17);
        self.state = x;
        x.wrapping_mul(MULTIPLIER)
    }

    /// The next draw between zero and one.
    pub fn next_unit(&mut self) -> (r: Scalar)
        requires
            old(self).inv(),
        ensures
            final(self).inv(),
            final(self).state() == scrambled(old(self).state()),
            final(self).kept() == old(self).kept(),
            is_draw(final(self).state(), r),
            draw(final(self).state()) > 0 <==> (Scalar { bits: 0 }).below(r),
    {
        let out: u64 = self.next_u64();
        let k: u64 = out / 2048;
        let r: Scalar = unit_fraction(k);
        proof {
            vstd::arithmetic::power2::lemma_pow2_pos(1021);
            assert(k * pow2(1021) > 0 <==> k > 0) by (nonlinear_arith)
                requires
                    pow2(1021) > 0,
                    k >= 0,
            ;
            crate::scalar::law_order_is_that_of_values(Scalar { bits: 0 }, r);
        }
        r
    }

    /// The next sample of the normal distribution. `pair` makes two of two
    /// draws, the first of which is not zero; the second one is kept for the
    /// next time.
    pub fn gauss<P: Fn(Scalar, Scalar) -> (Scalar, Scalar)>(&mut self, pair: &P) -> (r: Scalar)
        requires
            old(self).inv(),
            forall|a: Scalar, b: Scalar|
                (Scalar { bits: 0 }).below(a) ==> call_requires(*pair, (a, b)),
        ensures
            final(self).inv(),
            gauss_step(*old(self), *pair, *final(self), r),
    {
        match self.cached {
            Some(z) => {
                self.cached = None;
                z
            },
            None => {
                let mut u1: Scalar = self.next_unit();
                if !u1.gt(Scalar::zero()) {
                    proof {
                        law_zero_is_not_drawn_twice(self.state);
                    }
                    u1 = self.next_unit();
                }
                let u2: Scalar = self.next_unit();
                let z: (Scalar, Scalar) = pair(u1, u2);
                assert(call_ensures(*pair, (u1, u2), (z.0, z.1)));
                self.cached = Some(z.1);
                z.0
            },
        }
    }
}

/// A wind whose speed and direction wander about a mean.
#[derive(Clone, Copy, Debug)]
pub struct OrnsteinUhlenbeckWind {
    pub mean_speed: Scalar,
    pub mean_direction_rad: Scalar,
    pub speed_sigma: Scalar,
    pub direction_sigma: Scalar,
    pub correlation_time_s: Scalar,
    pub speed: Scalar,
    pub direction: Scalar,
    pub rng: Prng,
}

/// A speed that is not below zero.
pub open spec fn not_below_zero(v: Scalar) -> Scalar {
    if v.below(Scalar { bits: 0 }) {
        Scalar { bits: 0 }
    } else {
        v
    }
}

/// A wind that stands at its mean, with a generator that was seeded and not yet
/// asked.
pub open spec fn at_its_mean(
    w: OrnsteinUhlenbeckWind,
    mean_speed: Scalar,
    mean_direction_rad: Scalar,
    speed_sigma: Scalar,
    direction_sigma: Scalar,
    correlation_time_s: Scalar,
    seed: u64,
) -> bool {
    &&& w == (OrnsteinUhlenbeckWind {
        mean_speed,
        mean_direction_rad,
        speed_sigma,
        direction_sigma,
        correlation_time_s,
        speed: mean_speed,
        direction: mean_direction_rad,
        rng: w.rng,
    })
    &&& w.rng.state() == seed | 1
    &&& w.rng.kept() is None
}

impl OrnsteinUhlenbeckWind {
    /// A wind at its mean.
    pub fn new(
        mean_speed: Scalar,
        mean_direction_rad: Scalar,
        speed_sigma: Scalar,
        direction_sigma: Scalar,
        correlation_time_s: Scalar,
        seed: u64,
    ) -> (r: OrnsteinUhlenbeckWind)
        ensures
            at_its_mean(
                r,
                mean_speed,
                mean_direction_rad,
                speed_sigma,
                direction_sigma,
                correlation_time_s,
                seed,
            ),
            r.rng.inv(),
    {
        OrnsteinUhlenbeckWind {
            mean_speed,
            mean_direction_rad,
            speed_sigma,
            direction_sigma,
            correlation_time_s,
            speed: mean_speed,
            direction: mean_direction_rad,
            rng: Prng::new(seed),
        }
    }

    /// The correlation time, never shorter than the least one.
    pub open spec fn tau_spec(&self) -> Scalar {
        self.correlation_time_s.larger(Scalar { bits: LEAST_CORRELATION_TIME })
    }

    /// The correlation time, never shorter than the least one.
    pub fn tau(&self) -> (r: Scalar)
        ensures
            r == self.tau_spec(),
    {
        self.correlation_time_s.max(Scalar { bits: LEAST_CORRELATION_TIME })
    }

    /// Let the wind wander for `dt` seconds and tell how it blows. `wander` moves
    /// a quantity on from the time, the correlation time, its value, its mean,
    /// its deviation and a normal sample; `pair` makes normal samples; `vector`
    /// turns speed and direction into the two components and degrees.
    pub fn sample<
        W: Fn(Scalar, Scalar, Scalar, Scalar, Scalar, Scalar) -> Scalar,
        P: Fn(Scalar, Scalar) -> (Scalar, Scalar),
        V: Fn(Scalar, Scalar) -> (Scalar, Scalar, Scalar),
    >(&mut self, dt: Scalar, wander: &W, pair: &P, vector: &V) -> (r: TrueWind)
        requires
            old(self).rng.inv(),
            forall|t: Scalar, c: Scalar, v: Scalar, m: Scalar, s: Scalar, z: Scalar|
                call_requires(*wander, (t, c, v, m, s, z)),
            forall|a: Scalar, b: Scalar|
                (Scalar { bits: 0 }).below(a) ==> call_requires(*pair, (a, b)),
            forall|v: Scalar, d: Scalar| call_requires(*vector, (v, d)),
        ensures
            final(self).rng.inv(),
            blown(*old(self), dt, *wander, *pair, *vector, *final(self), r),
    {
        let ghost a = *self;
        let tau: Scalar = self.tau();
        let z1: Scalar = self.rng.gauss(pair);
        let ghost mid = self.rng;
        let v: Scalar = wander(dt, tau, self.speed, self.mean_speed, self.speed_sigma, z1);
        self.speed = if v.lt(Scalar::zero()) {
            Scalar::zero()
        } else {
            v
        };
        let z2: Scalar = self.rng.gauss(pair);
        self.direction = wander(
            dt,
            tau,
            self.direction,
            self.mean_direction_rad,
            self.direction_sigma,
            z2,
        );
        assert(gauss_step(a.rng, *pair, mid, z1));
        assert(gauss_step(mid, *pair, self.rng, z2));
        assert(call_ensures(*wander, (dt, tau, a.speed, a.mean_speed, a.speed_sigma, z1), v));
        let (x, y, degrees): (Scalar, Scalar, Scalar) = vector(self.speed, self.direction);
        assert(call_ensures(*vector, (self.speed, self.direction), (x, y, degrees)));
        TrueWind { x, y, strength: self.speed, direction: degrees }
    }
}

/// The wind wandered for `dt` seconds: speed and direction each moved on with a
/// normal sample of its own, in this order, and the speed is not below zero.
pub open spec fn wandered<
    W: Fn(Scalar, Scalar, Scalar, Scalar, Scalar, Scalar) -> Scalar,
    P: Fn(Scalar, Scalar) -> (Scalar, Scalar),
>(a: OrnsteinUhlenbeckWind, dt: Scalar, wander: W, pair: P, b: OrnsteinUhlenbeckWind) -> bool {
    let tau = a.tau_spec();
    &&& b == (OrnsteinUhlenbeckWind { speed: b.speed, direction: b.direction, rng: b.rng, ..a })
    &&& exists|mid: Prng, z1: Scalar, z2: Scalar, v: Scalar|
        {
            &&& #[trigger] gauss_step(a.rng, pair, mid, z1)
            &&& #[trigger] gauss_step(mid, pair, b.rng, z2)
            &&& #[trigger] call_ensures(
                wander,
                (dt, tau, a.speed, a.mean_speed, a.speed_sigma, z1),
                v,
            )
            &&& b.speed == not_below_zero(v)
            &&& call_ensures(
                wander,
                (dt, tau, a.direction, a.mean_direction_rad, a.direction_sigma, z2),
                b.direction,
            )
        }
}

/// The wind wandered for `dt` seconds and then blows at its speed and in its
/// direction.
pub open spec fn blown<
    W: Fn(Scalar, Scalar, Scalar, Scalar, Scalar, Scalar) -> Scalar,
    P: Fn(Scalar, Scalar) -> (Scalar, Scalar),
    V: Fn(Scalar, Scalar) -> (Scalar, Scalar, Scalar),
>(
    a: OrnsteinUhlenbeckWind,
    dt: Scalar,
    wander: W,
    pair: P,
    vector: V,
    b: OrnsteinUhlenbeckWind,
    w: TrueWind,
) -> bool {
    &&& wandered(a, dt, wander, pair, b)
    &&& w.strength == b.speed
    &&& call_ensures(vector, (b.speed, b.direction), (w.x, w.y, w.direction))
}

/// The wind that blows after each of a row of times, and how it stands before
/// the first of them and after each.
pub open spec fn blown_all<
    W: Fn(Scalar, Scalar, Scalar, Scalar, Scalar, Scalar) -> Scalar,
    P: Fn(Scalar, Scalar) -> (Scalar, Scalar),
    V: Fn(Scalar, Scalar) -> (Scalar, Scalar, Scalar),
>(
    stands: Seq<OrnsteinUhlenbeckWind>,
    dts: Seq<Scalar>,
    wander: W,
    pair: P,
    vector: V,
    winds: Seq<TrueWind>,
) -> bool {
    &&& stands.len() == dts.len() + 1
    &&& winds.len() == dts.len()
    &&& forall|i: int|
        0 <= i < dts.len() ==> blown(
            stands[i],
            dts[i],
            wander,
            pair,
            vector,
            stands[i + 1],
            #[trigger] winds[i],
        )
}

/// The wind never blows at less than zero.
pub proof fn law_wind_speed_is_not_negative<
    W: Fn(Scalar, Scalar, Scalar, Scalar, Scalar, Scalar) -> Scalar,
    P: Fn(Scalar, Scalar) -> (Scalar, Scalar),
    V: Fn(Scalar, Scalar) -> (Scalar, Scalar, Scalar),
>(
    stands: Seq<OrnsteinUhlenbeckWind>,
    dts: Seq<Scalar>,
    wander: W,
    pair: P,
    vector: V,
    winds: Seq<TrueWind>,
)
    requires
        blown_all(stands, dts, wander, pair, vector, winds),
    ensures
        forall|i: int|
            0 <= i < winds.len() ==> !(#[trigger] winds[i]).strength.below(Scalar { bits: 0 }),
{
}

/// A draw has one pattern.
proof fn lemma_draw_is_unique(x: u64, u: Scalar, w: Scalar)
    requires
        is_draw(x, u),
        is_draw(x, w),
    ensures
        u == w,
{
    crate::scalar::law_order_is_that_of_values(u, w);
}

proof fn lemma_gauss_is_reproducible<P: Fn(Scalar, Scalar) -> (Scalar, Scalar)>(
    a: Prng,
    c: Prng,
    pair: P,
    b: Prng,
    d: Prng,
    z: Scalar,
    y: Scalar,
)
    requires
        a.state() == c.state(),
        a.kept() == c.kept(),
        gauss_step(a, pair, b, z),
        gauss_step(c, pair, d, y),
        forall|u: Scalar, v: Scalar, p: (Scalar, Scalar), q: (Scalar, Scalar)|
            #![trigger call_ensures(pair, (u, v), p), call_ensures(pair, (u, v), q)]
            call_ensures(pair, (u, v), p) && call_ensures(pair, (u, v), q) ==> p == q,
    ensures
        z == y,
        b.state() == d.state(),
        b.kept() == d.kept(),
{
    if a.kept() is None {
        let s1 = first_draw(a.state());
        let (u1, u2) = choose|u1: Scalar, u2: Scalar|
            {
                &&& is_draw(s1, u1)
                &&& is_draw(scrambled(s1), u2)
                &&& #[trigger] call_ensures(pair, (u1, u2), (z, b.kept()->0))
            };
        let (w1, w2) = choose|w1: Scalar, w2: Scalar|
            {
                &&& is_draw(s1, w1)
                &&& is_draw(scrambled(s1), w2)
                &&& #[trigger] call_ensures(pair, (w1, w2), (y, d.kept()->0))
            };
        lemma_draw_is_unique(s1, u1, w1);
        lemma_draw_is_unique(scrambled(s1), u2, w2);
        assert(call_ensures(pair, (u1, u2), (y, d.kept()->0)));
    }
}

/// Two winds stand alike, and so do their generators.
pub open spec fn stand_alike(a: OrnsteinUhlenbeckWind, c: OrnsteinUhlenbeckWind) -> bool {
    &&& a == (OrnsteinUhlenbeckWind { rng: a.rng, ..c })
    &&& a.rng.state() == c.rng.state()
    &&& a.rng.kept() == c.rng.kept()
}

/// The arithmetic of a wind gives the same for the same.
pub open spec fn same_for_the_same<
    W: Fn(Scalar, Scalar, Scalar, Scalar, Scalar, Scalar) -> Scalar,
    P: Fn(Scalar, Scalar) -> (Scalar, Scalar),
    V: Fn(Scalar, Scalar) -> (Scalar, Scalar, Scalar),
>(wander: W, pair: P, vector: V) -> bool {
    &&& forall|u: Scalar, v: Scalar, p: (Scalar, Scalar), q: (Scalar, Scalar)|
        #![trigger call_ensures(pair, (u, v), p), call_ensures(pair, (u, v), q)]
        call_ensures(pair, (u, v), p) && call_ensures(pair, (u, v), q) ==> p == q
    &&& forall|
        t: Scalar,
        c: Scalar,
        x: Scalar,
        m: Scalar,
        s: Scalar,
        z: Scalar,
        p: Scalar,
        q: Scalar,
    |
        #![trigger call_ensures(wander, (t, c, x, m, s, z), p), call_ensures(wander, (t, c, x, m, s, z), q)]
        call_ensures(wander, (t, c, x, m, s, z), p) && call_ensures(
            wander,
            (t, c, x, m, s, z),
            q,
        ) ==> p == q
    &&& forall|u: Scalar, v: Scalar, p: (Scalar, Scalar, Scalar), q: (Scalar, Scalar, Scalar)|
        #![trigger call_ensures(vector, (u, v), p), call_ensures(vector, (u, v), q)]
        call_ensures(vector, (u, v), p) && call_ensures(vector, (u, v), q) ==> p == q
}

proof fn lemma_alike_winds_blow_alike<
    W: Fn(Scalar, Scalar, Scalar, Scalar, Scalar, Scalar) -> Scalar,
    P: Fn(Scalar, Scalar) -> (Scalar, Scalar),
    V: Fn(Scalar, Scalar) -> (Scalar, Scalar, Scalar),
>(
    a: OrnsteinUhlenbeckWind,
    c: OrnsteinUhlenbeckWind,
    dt: Scalar,
    wander: W,
    pair: P,
    vector: V,
    b: OrnsteinUhlenbeckWind,
    d: OrnsteinUhlenbeckWind,
    first: TrueWind,
    second: TrueWind,
)
    requires
        stand_alike(a, c),
        same_for_the_same(wander, pair, vector),
        blown(a, dt, wander, pair, vector, b, first),
        blown(c, dt, wander, pair, vector, d, second),
    ensures
        stand_alike(b, d),
        first == second,
{
    let tau = a.tau_spec();
    let (m1, z1, z2, v) = choose|mid: Prng, z1: Scalar, z2: Scalar, v: Scalar|
        {
            &&& #[trigger] gauss_step(a.rng, pair, mid, z1)
            &&& #[trigger] gauss_step(mid, pair, b.rng, z2)
            &&& #[trigger] call_ensures(
                wander,
                (dt, tau, a.speed, a.mean_speed, a.speed_sigma, z1),
                v,
            )
            &&& b.speed == not_below_zero(v)
            &&& call_ensures(
                wander,
                (dt, tau, a.direction, a.mean_direction_rad, a.direction_sigma, z2),
                b.direction,
            )
        };
    let (m2, y1, y2, w) = choose|mid: Prng, z1: Scalar, z2: Scalar, v: Scalar|
        {
            &&& #[trigger] gauss_step(c.rng, pair, mid, z1)
            &&& #[trigger] gauss_step(mid, pair, d.rng, z2)
            &&& #[trigger] call_ensures(
                wander,
                (dt, tau, c.speed, c.mean_speed, c.speed_sigma, z1),
                v,
            )
            &&& d.speed == not_below_zero(v)
            &&& call_ensures(
                wander,
                (dt, tau, c.direction, c.mean_direction_rad, c.direction_sigma, z2),
                d.direction,
            )
        };
    lemma_gauss_is_reproducible(a.rng, c.rng, pair, m1, m2, z1, y1);
    lemma_gauss_is_reproducible(m1, m2, pair, b.rng, d.rng, z2, y2);
    assert(v == w);
    assert((first.x, first.y, first.direction) == (second.x, second.y, second.direction));
}

proof fn lemma_alike_winds_stay_alike<
    W: Fn(Scalar, Scalar, Scalar, Scalar, Scalar, Scalar) -> Scalar,
    P: Fn(Scalar, Scalar) -> (Scalar, Scalar),
    V: Fn(Scalar, Scalar) -> (Scalar, Scalar, Scalar),
>(
    a: Seq<OrnsteinUhlenbeckWind>,
    c: Seq<OrnsteinUhlenbeckWind>,
    dts: Seq<Scalar>,
    wander: W,
    pair: P,
    vector: V,
    first: Seq<TrueWind>,
    second: Seq<TrueWind>,
    n: int,
)
    requires
        same_for_the_same(wander, pair, vector),
        blown_all(a, dts, wander, pair, vector, first),
        blown_all(c, dts, wander, pair, vector, second),
        stand_alike(a[0], c[0]),
        0 <= n <= dts.len(),
    ensures
        stand_alike(a[n], c[n]),
        forall|i: int| 0 <= i < n ==> #[trigger] first[i] == second[i],
    decreases n,
{
    if n > 0 {
        lemma_alike_winds_stay_alike(a, c, dts, wander, pair, vector, first, second, n - 1);
        let one = first[n - 1];
        let other = second[n - 1];
        lemma_alike_winds_blow_alike(
            a[n - 1],
            c[n - 1],
            dts[n - 1],
            wander,
            pair,
            vector,
            a[n],
            c[n],
            one,
            other,
        );
    }
}

/// Two winds made alike, seed and all, and asked at the same row of times blow
/// alike all along, as long as the arithmetic gives the same for the same.
pub proof fn law_wind_is_reproducible<
    W: Fn(Scalar, Scalar, Scalar, Scalar, Scalar, Scalar) -> Scalar,
    P: Fn(Scalar, Scalar) -> (Scalar, Scalar),
    V: Fn(Scalar, Scalar) -> (Scalar, Scalar, Scalar),
>(
    means: (Scalar, Scalar),
    sigmas: (Scalar, Scalar),
    correlation_time_s: Scalar,
    seed: u64,
    a: Seq<OrnsteinUhlenbeckWind>,
    c: Seq<OrnsteinUhlenbeckWind>,
    dts: Seq<Scalar>,
    wander: W,
    pair: P,
    vector: V,
    first: Seq<TrueWind>,
    second: Seq<TrueWind>,
)
    requires
        same_for_the_same(wander, pair, vector),
        blown_all(a, dts, wander, pair, vector, first),
        blown_all(c, dts, wander, pair, vector, second),
        at_its_mean(a[0], means.0, means.1, sigmas.0, sigmas.1, correlation_time_s, seed),
        at_its_mean(c[0], means.0, means.1, sigmas.0, sigmas.1, correlation_time_s, seed),
    ensures
        first == second,
{
    lemma_alike_winds_stay_alike(
        a,
        c,
        dts,
        wander,
        pair,
        vector,
        first,
        second,
        dts.len() as int,
    );
    assert(first =~= second);
}

/// How much the wind varies.
#[derive(Clone, Copy, PartialEq, Eq, Structural, Debug)]
pub struct WindVariance {
    pub speed_sigma: Scalar,
    pub direction_sigma_rad: Scalar,
    pub correlation_time_s: Scalar,
    pub seed: u64,
}

impl WindVariance {
    /// Whether it does not vary at all.
    pub open spec fn disabled(&self) -> bool {
        let zero = Scalar { bits: 0 };
        self.speed_sigma.same(zero) && self.direction_sigma_rad.same(zero)
    }

    /// Whether it does not vary at all.
    pub fn is_disabled(&self) -> (r: bool)
        ensures
            r == self.disabled(),
    {
        self.speed_sigma.equals(Scalar::zero()) && self.direction_sigma_rad.equals(Scalar::zero())
    }
}

/// Which wind a run is sailed in.
#[derive(Clone, Copy, PartialEq, Eq, Structural, Debug)]
pub enum WindChoice {
    /// The recorded series.
    Recorded,
    /// A wind that wanders about its mean.
    Wandering(WindVariance),
    /// A constant wind.
    Constant,
}

/// Which stream a run is sailed in.
#[derive(Clone, Copy, PartialEq, Eq, Structural, Debug)]
pub enum CurrentChoice {
    /// The recorded series.
    Recorded,
    /// A reversing stream.
    Reversing(TidalStream),
    /// Still water.
    Still,
}

/// A recorded wind wins, then one that varies, then a constant one.
pub fn choose_wind(recorded: bool, variance: Option<WindVariance>) -> (r: WindChoice)
    ensures
        recorded ==> r == WindChoice::Recorded,
        !recorded ==> r == (match variance {
            Some(v) => if v.disabled() {
                WindChoice::Constant
            } else {
                WindChoice::Wandering(v)
            },
            None => WindChoice::Constant,
        }),
{
    if recorded {
        return WindChoice::Recorded;
    }
    match variance {
        Some(v) => if v.is_disabled() {
            WindChoice::Constant
        } else {
            WindChoice::Wandering(v)
        },
        None => WindChoice::Constant,
    }
}

/// A recorded stream wins, then a reversing one that runs at all, then still
/// water.
pub fn choose_current(recorded: bool, tide: Option<TidalParams>) -> (r: CurrentChoice)
    ensures
        recorded ==> r == CurrentChoice::Recorded,
        !recorded ==> r == (match tide {
            Some(p) => if p.peak_speed.same(Scalar { bits: 0 }) {
                CurrentChoice::Still
            } else {
                CurrentChoice::Reversing(
                    TidalStream {
                        peak_speed: p.peak_speed,
                        axis_rad: p.axis_rad,
                        period_s: p.period_s,
                        phase_rad: p.phase_rad,
                    },
                )
            },
            None => CurrentChoice::Still,
        }),
{
    if recorded {
        return CurrentChoice::Recorded;
    }
    match tide {
        Some(p) => if p.peak_speed.equals(Scalar::zero()) {
            CurrentChoice::Still
        } else {
            CurrentChoice::Reversing(
                TidalStream::new(p.peak_speed, p.axis_rad, p.period_s, p.phase_rad),
            )
        },
        None => CurrentChoice::Still,
    }
}

/// The wind given on its own wins over the route's.
pub fn choose_override(given: Option<WindOverride>, route: Option<WindOverride>) -> (r: Option<
    WindOverride,
>)
    ensures
        r == (if given is Some {
            given
        } else {
            route
        }),
{
    match given {
        Some(w) => Some(w),
        None => route,
    }
}

/// The state of a generator after `n` draws.
pub open spec fn state_after(x: u64, n: nat) -> u64
    decreases n,
{
    if n == 0 {
        x
    } else {
        scrambled(state_after(x, (n - 1) as nat))
    }
}

/// A generator never stands at zero, however often it is asked.
pub proof fn law_generator_runs_for_ever(seed: u64, n: nat)
    ensures
        state_after(seed | 1, n) != 0,
    decreases n,
{
    assert(seed | 1 != 0) by (bit_vector);
    if n > 0 {
        law_generator_runs_for_ever(seed, (n - 1) as nat);
        law_generator_never_stalls(state_after(seed | 1, (n - 1) as nat));
    }
}

/// A series between two of its samples is what `lerp` makes of these two and of what
/// `fraction` leaves of the place behind the first; before its beginning it is so at
/// place zero.
pub proof fn law_series_is_read_between_its_samples<
    F: Fn(Scalar, u64) -> Scalar,
    L: Fn(Scalar, Scalar, Scalar) -> Scalar,
>(
    u: Seq<Scalar>,
    v: Seq<Scalar>,
    steps: Scalar,
    last: Scalar,
    place: Scalar,
    fraction: F,
    lerp: L,
    r: Point,
    k: int,
    f: Scalar,
)
    requires
        0 <= k < u.len() - 1,
        u.len() <= WHOLE_LIMIT,
        u.len() == v.len(),
        place_in(u.len() as int, steps, last, place),
        series_at(u, v, place, fraction, lerp, r),
        !steps.nan(),
        steps.magnitude() < INFINITY_BITS,
        !steps.negative(),
        k * pow2(1074) <= value(steps) < (k + 1) * pow2(1074),
        forall|x: Scalar| #[trigger] call_ensures(fraction, (steps, k as u64), x) ==> x == f,
    ensures
        place == steps,
        call_ensures(lerp, (u[k], u[k + 1], f), r.0),
        call_ensures(lerp, (v[k], v[k + 1], f), r.1),
{
    let one = pow2(1074) as int;
    let top = u.len() - 1;
    vstd::arithmetic::power2::lemma_pow2_pos(1074);
    assert((k + 1) * one <= top * one) by (nonlinear_arith)
        requires
            k + 1 <= top,
            one > 0,
    ;
    assert(0 <= k * one) by (nonlinear_arith)
        requires
            k >= 0,
            one > 0,
    ;
    crate::scalar::law_order_is_that_of_values(steps, last);
    crate::scalar::law_order_is_that_of_values(steps, Scalar { bits: 0 });
    assert(place == steps);
    crate::number::law_whole_part_is_the_floor(steps, k as u64);
}

/// A series can be used where both its rows are as long, hold a sample, and its step
/// is above zero, and only there.
pub proof fn law_usable_series_moves_on(s: Series)
    ensures
        s.usable() <==> s.u_east@.len() > 0 && s.v_north@.len() == s.u_east@.len() && (Scalar {
            bits: 0,
        }).below(s.dt_s),
{
}

/// The next state of the generator comes of three shifts, thirteen left, seven right
/// and seventeen left, each laid over the state before it. No two states lead to the
/// same one.
pub proof fn law_generator_shifts_three_times(x: u64, y: u64, a: u64, b: u64)
    requires
        a == x ^ (x << 13),
        b == a ^ (a >> 7),
    ensures
        scrambled(x) == b ^ (b << 17),
        scrambled(x) == scrambled(y) ==> x == y,
{
    let c = y ^ (y << 13);
    let d = c ^ (c >> 7);
    assert(b ^ (b << 17) == d ^ (d << 17) ==> b == d) by (bit_vector);
    assert(a ^ (a >> 7) == c ^ (c >> 7) ==> a == c) by (bit_vector);
    assert(x ^ (x << 13) == y ^ (y << 13) ==> x == y) by (bit_vector);
}

/// A draw is the top 53 bits of the state times the multiplier, and it is a quantity
/// not below zero and below one.
pub proof fn law_draw_lies_between_zero_and_one(x: u64, u: Scalar)
    requires
        is_draw(x, u),
    ensures
        draw(x) == (x * 2685821657736338717) % 0x1_0000_0000_0000_0000 / 2048,
        value(u) == draw(x) * pow2(1021),
        0 <= value(u) < pow2(1074),
{
    vstd::arithmetic::power2::lemma_pow2_pos(1021);
    vstd::arithmetic::power2::lemma_pow2_adds(53, 1021);
    vstd::arithmetic::power2::lemma2_to64_rest();
    let q = pow2(1021) as int;
    let d = draw(x);
    assert(0 <= d * q < 0x20_0000_0000_0000 * q) by (nonlinear_arith)
        requires
            0 <= d < 0x20_0000_0000_0000,
            q > 0,
    ;
}

/// Normal samples come two by two. Two samples in a row from a generator that keeps
/// none are the pair made of two draws: the next one that is not zero, and the one
/// behind it. The generator then keeps none again, and has moved on no further.
pub proof fn law_samples_come_in_pairs<P: Fn(Scalar, Scalar) -> (Scalar, Scalar)>(
    a: Prng,
    b: Prng,
    c: Prng,
    pair: P,
    z: Scalar,
    y: Scalar,
) -> (draws: (Scalar, Scalar))
    requires
        a.kept() is None,
        a.state() != 0,
        gauss_step(a, pair, b, z),
        gauss_step(b, pair, c, y),
    ensures
        call_ensures(pair, draws, (z, y)),
        (Scalar { bits: 0 }).below(draws.0),
        c.kept() is None,
        c.state() == b.state(),
        ({
            let s = scrambled(a.state());
            let first = if draw(s) != 0 {
                s
            } else {
                scrambled(s)
            };
            &&& value(draws.0) == draw(first) * pow2(1021)
            &&& value(draws.1) == draw(scrambled(first)) * pow2(1021)
            &&& c.state() == scrambled(first)
        }),
{
    let s1 = first_draw(a.state());
    let (u1, u2) = choose|u1: Scalar, u2: Scalar|
        {
            &&& is_draw(s1, u1)
            &&& is_draw(scrambled(s1), u2)
            &&& #[trigger] call_ensures(pair, (u1, u2), (z, b.kept()->0))
        };
    law_generator_never_stalls(a.state());
    if draw(scrambled(a.state())) == 0 {
        law_zero_is_not_drawn_twice(scrambled(a.state()));
    }
    vstd::arithmetic::power2::lemma_pow2_pos(1021);
    let d = draw(s1);
    let q = pow2(1021) as int;
    assert(d * q > 0) by (nonlinear_arith)
        requires
            d > 0,
            q > 0,
    ;
    crate::scalar::law_order_is_that_of_values(Scalar { bits: 0 }, u1);
    (u1, u2)
}

/// A wind that is asked after some time has had its speed and its direction moved on,
/// each from its own value, mean and deviation with a sample of its own, by the
/// correlation time or the least one, whichever is longer. A speed that would be below
/// zero is zero. What blows is that speed in that direction, and the rest of the wind
/// stays as it was.
pub proof fn law_wind_wanders_about_its_mean<
    W: Fn(Scalar, Scalar, Scalar, Scalar, Scalar, Scalar) -> Scalar,
    P: Fn(Scalar, Scalar) -> (Scalar, Scalar),
    V: Fn(Scalar, Scalar) -> (Scalar, Scalar, Scalar),
>(
    a: OrnsteinUhlenbeckWind,
    dt: Scalar,
    wander: W,
    pair: P,
    vector: V,
    b: OrnsteinUhlenbeckWind,
    w: TrueWind,
    tau: Scalar,
) -> (samples: (Prng, Scalar, Scalar, Scalar))
    requires
        blown(a, dt, wander, pair, vector, b, w),
        !a.correlation_time_s.nan(),
        a.correlation_time_s.below(Scalar { bits: LEAST_CORRELATION_TIME }) ==> tau == (Scalar {
            bits: LEAST_CORRELATION_TIME,
        }),
        !a.correlation_time_s.below(Scalar { bits: LEAST_CORRELATION_TIME }) ==> tau
            == a.correlation_time_s,
    ensures
        gauss_step(a.rng, pair, samples.0, samples.1),
        gauss_step(samples.0, pair, b.rng, samples.2),
        call_ensures(
            wander,
            (dt, tau, a.speed, a.mean_speed, a.speed_sigma, samples.1),
            samples.3,
        ),
        samples.3.below(Scalar { bits: 0 }) ==> b.speed == (Scalar { bits: 0 }),
        !samples.3.below(Scalar { bits: 0 }) ==> b.speed == samples.3,
        call_ensures(
            wander,
            (dt, tau, a.direction, a.mean_direction_rad, a.direction_sigma, samples.2),
            b.direction,
        ),
        w.strength == b.speed,
        call_ensures(vector, (b.speed, b.direction), (w.x, w.y, w.direction)),
        b.mean_speed == a.mean_speed,
        b.mean_direction_rad == a.mean_direction_rad,
        b.speed_sigma == a.speed_sigma,
        b.direction_sigma == a.direction_sigma,
        b.correlation_time_s == a.correlation_time_s,
{
    assert(a.tau_spec() == tau);
    let (mid, z1, z2, v) = choose|mid: Prng, z1: Scalar, z2: Scalar, v: Scalar|
        {
            &&& #[trigger] gauss_step(a.rng, pair, mid, z1)
            &&& #[trigger] gauss_step(mid, pair, b.rng, z2)
            &&& #[trigger] call_ensures(
                wander,
                (dt, tau, a.speed, a.mean_speed, a.speed_sigma, z1),
                v,
            )
            &&& b.speed == not_below_zero(v)
            &&& call_ensures(
                wander,
                (dt, tau, a.direction, a.mean_direction_rad, a.direction_sigma, z2),
                b.direction,
            )
        };
    (mid, z1, z2, v)
}

/// A wind starts at its mean, in speed and in direction, and with what it was given.
pub proof fn law_wind_starts_at_its_mean(
    w: OrnsteinUhlenbeckWind,
    means: (Scalar, Scalar),
    sigmas: (Scalar, Scalar),
    correlation_time_s: Scalar,
    seed: u64,
)
    requires
        at_its_mean(w, means.0, means.1, sigmas.0, sigmas.1, correlation_time_s, seed),
    ensures
        w.speed == means.0,
        w.mean_speed == means.0,
        w.direction == means.1,
        w.mean_direction_rad == means.1,
        w.speed_sigma == sigmas.0,
        w.direction_sigma == sigmas.1,
        w.correlation_time_s == correlation_time_s,
        w.rng.state() == seed | 1,
{
}

/// A wind varies where its speed or its direction does.
pub proof fn law_wind_varies_in_speed_or_direction(v: WindVariance)
    ensures
        !v.disabled() <==> !v.speed_sigma.same(Scalar { bits: 0 }) || !v.direction_sigma_rad.same(
            Scalar { bits: 0 },
        ),
{
}

/// A wind is correlated for a thousandth of a second at least.
pub proof fn law_wind_is_correlated_for_a_thousandth()
    ensures
        LEAST_CORRELATION_TIME == 0x3f50_624d_d2f1_a9fc,
{
}

} // verus!
