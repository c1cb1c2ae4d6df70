//! Rudder and sail: the heading controller and the sail trim.
//!
//! The arithmetic of the control law is handed in; what is decided here is
//! when it is limited, and what is remembered.

use vstd::prelude::*;

use crate::scalar::{Scalar, INFINITY_BITS, ONE_BITS};

verus! {

/// Pattern of 0.5: the default proportional gain.
pub const DEFAULT_KP: u64 = 0x3fe0_0000_0000_0000;

/// Pattern of 0.1: the default integral gain.
pub const DEFAULT_KI: u64 = 0x3fb9_9999_9999_999a;

/// Pattern of 0.9: the default derivative gain.
pub const DEFAULT_KD: u64 = 0x3fec_cccc_cccc_cccd;

/// Pattern of 0.3: below this speed the control law is computed as if the boat
/// went this fast.
pub const DEFAULT_SPEED_ADAPTION: u64 = 0x3fd3_3333_3333_3333;

/// Pattern of fifteen degrees in radians: the default rudder limit.
pub const DEFAULT_RUDDER_LIMIT: u64 = 0x3fd0_c152_382d_7365;

/// A pattern that encodes no number.
pub const NOT_A_NUMBER: u64 = 0x7ff8_0000_0000_0000;

/// Pattern of 0.2: below this apparent wind the trim is held.
pub const MIN_WIND_SPEED_FOR_TRIM: u64 = 0x3fc9_9999_9999_999a;

/// Pattern of 6: above this apparent wind the sail is eased.
pub const LIMIT_WIND_SPEED: u64 = 0x4018_0000_0000_0000;

/// Pattern of fourteen degrees in radians: the sail stalls beyond it.
pub const STALL_ANGLE: u64 = 0x3fcf_46bb_9c10_9324;

/// Pattern of a quarter turn in radians.
pub const QUARTER_TURN: u64 = 0x3ff9_21fb_5444_2d18;

/// Pattern of 0.44: half of the band, in radians, in which the sail keeps its
/// side.
pub const SAIL_SIDE_DEADBAND: u64 = 0x3fdc_28f5_c28f_5c29;

/// Pattern of half a turn less the band.
pub const SAIL_SIDE_GYBE: u64 = 0x4005_9cdc_9bf2_4193;

/// Pattern of 0.5: below this speed through the water the course is not
/// corrected for the stream.
pub const CRAB_MIN_WATER_SPEED: u64 = 0x3fe0_0000_0000_0000;

/// Pattern of the sine of forty degrees, the largest correction for the stream.
pub const MAX_CRAB_SINE: u64 = 0x3fe4_91b7_523c_161c;

/// Heading controller with a limited rudder and an integrator that does not
/// wind up past the limit.
#[derive(Clone, Copy, PartialEq, Eq, Structural, Debug)]
pub struct HeadingController {
    pub sample_time: Scalar,
    pub speed_adaption: Scalar,
    pub max_rudder_angle: Scalar,
    pub factor: Scalar,
    pub kp: Scalar,
    pub ki: Scalar,
    pub kd: Scalar,
    pub summed_error: Scalar,
}

/// The speed that the control law is computed with.
pub open spec fn effective_speed(speed: Scalar, speed_adaption: Scalar) -> Scalar {
    if speed.below(speed_adaption) {
        speed_adaption
    } else {
        speed
    }
}

/// The product of the sign of `v` and a quantity. What is not a number has the
/// sign of what is below zero. No sign at all leaves zero of a finite quantity,
/// and no number of any other.
pub open spec fn with_sign(v: Scalar, quantity: Scalar) -> Scalar {
    if (Scalar { bits: 0 }).below(v) {
        quantity
    } else if !v.same(Scalar { bits: 0 }) {
        quantity.flipped()
    } else if quantity.magnitude() >= INFINITY_BITS {
        Scalar { bits: NOT_A_NUMBER }
    } else if quantity.negative() {
        (Scalar { bits: 0 }).flipped()
    } else {
        Scalar { bits: 0 }
    }
}

fn signed(v: Scalar, quantity: Scalar) -> (r: Scalar)
    ensures
        r == with_sign(v, quantity),
{
    if v.gt(Scalar::zero()) {
        quantity
    } else if !v.equals(Scalar::zero()) {
        quantity.neg()
    } else if quantity.abs().bits >= INFINITY_BITS {
        Scalar { bits: NOT_A_NUMBER }
    } else if quantity.bits >= 0x8000_0000_0000_0000 {
        Scalar::zero().neg()
    } else {
        Scalar::zero()
    }
}

/// One tick of the controller: the integrator takes the error in, the law gives
/// a rudder angle, and an angle beyond the limit is cut to it and taken back
/// out of the integrator.
pub open spec fn controlled<
    I: Fn(Scalar, Scalar) -> Scalar,
    L: Fn(Scalar, Scalar, Scalar) -> Scalar,
    U: Fn(Scalar, Scalar, Scalar) -> Scalar,
>(
    before: HeadingController,
    desired_heading: Scalar,
    speed: Scalar,
    integrate: I,
    law: L,
    unwind: U,
    after: HeadingController,
    rudder: Scalar,
) -> bool {
    let v = effective_speed(speed, before.speed_adaption);
    exists|sum: Scalar, raw: Scalar|
        {
            &&& #[trigger] call_ensures(
                integrate,
                (desired_heading, before.summed_error),
                sum,
            )
            &&& #[trigger] call_ensures(law, (desired_heading, v, sum), raw)
            &&& if before.max_rudder_angle.below(raw.unsigned()) {
                &&& rudder == with_sign(raw, before.max_rudder_angle)
                &&& call_ensures(unwind, (desired_heading, v, rudder), after.summed_error)
            } else {
                &&& rudder == raw
                &&& after.summed_error == sum
            }
            &&& after == (HeadingController { summed_error: after.summed_error, ..before })
        }
}

impl HeadingController {
    /// A controller with the given parameters and an empty integrator.
    pub fn from_params(
        factor: Scalar,
        kp: Scalar,
        ki: Scalar,
        kd: Scalar,
        sample_time: Scalar,
        speed_adaption: Scalar,
        max_rudder_angle: Scalar,
    ) -> (r: HeadingController)
        ensures
            r == (HeadingController {
                sample_time,
                speed_adaption,
                max_rudder_angle,
                factor,
                kp,
                ki,
                kd,
                summed_error: Scalar { bits: 0 },
            }),
    {
        HeadingController {
            sample_time,
            speed_adaption,
            max_rudder_angle,
            factor,
            kp,
            ki,
            kd,
            summed_error: Scalar::zero(),
        }
    }

    /// A controller with the default gains, speed adaption and rudder limit.
    pub fn with_default_gains(factor: Scalar, sample_time: Scalar) -> (r: HeadingController)
        ensures
            r == (HeadingController {
                sample_time,
                speed_adaption: Scalar { bits: DEFAULT_SPEED_ADAPTION },
                max_rudder_angle: Scalar { bits: DEFAULT_RUDDER_LIMIT },
                factor,
                kp: Scalar { bits: DEFAULT_KP },
                ki: Scalar { bits: DEFAULT_KI },
                kd: Scalar { bits: DEFAULT_KD },
                summed_error: Scalar { bits: 0 },
            }),
    {
        Self::from_params(
            factor,
            Scalar { bits: DEFAULT_KP },
            Scalar { bits: DEFAULT_KI },
            Scalar { bits: DEFAULT_KD },
            sample_time,
            Scalar { bits: DEFAULT_SPEED_ADAPTION },
            Scalar { bits: DEFAULT_RUDDER_LIMIT },
        )
    }

    /// One control tick toward a heading. For that heading, `integrate` adds the
    /// error of this tick to the integrator, `law` gives the rudder angle at a
    /// speed and an integrator, and `unwind` the integrator at which the law
    /// gives just that angle.
    pub fn control<
        I: Fn(Scalar, Scalar) -> Scalar,
        L: Fn(Scalar, Scalar, Scalar) -> Scalar,
        U: Fn(Scalar, Scalar, Scalar) -> Scalar,
    >(
        &mut self,
        desired_heading: Scalar,
        speed: Scalar,
        integrate: &I,
        law: &L,
        unwind: &U,
    ) -> (r: Scalar)
        requires
            forall|h: Scalar, s: Scalar| call_requires(*integrate, (h, s)),
            forall|h: Scalar, v: Scalar, s: Scalar| call_requires(*law, (h, v, s)),
            forall|h: Scalar, v: Scalar, d: Scalar| call_requires(*unwind, (h, v, d)),
        ensures
            controlled(
                *old(self),
                desired_heading,
                speed,
                *integrate,
                *law,
                *unwind,
                *final(self),
                r,
            ),
    {
        let sum: Scalar = integrate(desired_heading, self.summed_error);
        assert(call_ensures(*integrate, (desired_heading, old(self).summed_error), sum));
        self.summed_error = sum;
        let v: Scalar = if speed.lt(self.speed_adaption) {
            self.speed_adaption
        } else {
            speed
        };
        let raw: Scalar = law(desired_heading, v, sum);
        assert(call_ensures(*law, (desired_heading, v, sum), raw));
        if raw.abs().gt(self.max_rudder_angle) {
            let rudder: Scalar = signed(raw, self.max_rudder_angle);
            self.summed_error = unwind(desired_heading, v, rudder);
            rudder
        } else {
            raw
        }
    }

    /// Empty the integrator.
    pub fn reset(&mut self)
        ensures
            *final(self) == (HeadingController {
                summed_error: Scalar { bits: 0 },
                ..*old(self)
            }),
    {
        self.summed_error = Scalar::zero();
    }
}

/// The rudder never exceeds its limit, unless the law gives no number.
pub proof fn law_rudder_stays_in_its_limit<
    I: Fn(Scalar, Scalar) -> Scalar,
    L: Fn(Scalar, Scalar, Scalar) -> Scalar,
    U: Fn(Scalar, Scalar, Scalar) -> Scalar,
>(
    before: HeadingController,
    desired_heading: Scalar,
    speed: Scalar,
    integrate: I,
    law: L,
    unwind: U,
    after: HeadingController,
    rudder: Scalar,
)
    requires
        controlled(before, desired_heading, speed, integrate, law, unwind, after, rudder),
        (Scalar { bits: 0 }).at_most(before.max_rudder_angle),
    ensures
        within_limit(rudder, before.max_rudder_angle),
{
    assert(before.max_rudder_angle.flipped().unsigned().rank()
        == before.max_rudder_angle.unsigned().rank());
    let max = before.max_rudder_angle;
    assert(max.negative() ==> max.magnitude() == 0);
    assert(max.unsigned().same(max));
}

/// A boat that goes slower than the adaption speed is steered as if it went at
/// that speed, so the law is never computed close to standstill.
pub proof fn law_effective_speed_has_a_floor(speed: Scalar, speed_adaption: Scalar)
    requires
        !speed.nan(),
        !speed_adaption.nan(),
    ensures
        speed_adaption.at_most(effective_speed(speed, speed_adaption)),
        speed_adaption.at_most(speed) ==> effective_speed(speed, speed_adaption) == speed,
{
}

/// The trim of the sail, without its side: held in too weak a wind; otherwise
/// the wind angle less the best angle of attack, which is cut at the stall
/// angle and eased in a strong wind, and held within a quarter turn.
pub open spec fn trimmed<A: Fn() -> Scalar, E: Fn(Scalar) -> Scalar, D: Fn(Scalar) -> Scalar>(
    wind_angle: Scalar,
    wind_speed: Scalar,
    previous: Scalar,
    attack: A,
    ease: E,
    open: D,
    r: Scalar,
) -> bool {
    let quarter = Scalar { bits: QUARTER_TURN };
    if wind_speed.below(Scalar { bits: MIN_WIND_SPEED_FOR_TRIM }) {
        r == previous
    } else {
        exists|best: Scalar, eased: Scalar, angle: Scalar|
            {
                &&& #[trigger] call_ensures(attack, (), best)
                &&& #[trigger] eased_to(ease, wind_speed, cut_at_stall(wind_angle, best), eased)
                &&& #[trigger] call_ensures(open, (eased,), angle)
                &&& r == angle.larger(quarter.flipped()).smaller(quarter).unsigned()
            }
    }
}

/// An angle of attack that is cut where the sail would stall.
pub open spec fn cut_at_stall(wind_angle: Scalar, best: Scalar) -> Scalar {
    if (Scalar { bits: STALL_ANGLE }).below(best.unsigned()) {
        with_sign(wind_angle, Scalar { bits: STALL_ANGLE })
    } else {
        best
    }
}

/// An angle of attack is eased in a strong wind only.
pub open spec fn eased_to<E: Fn(Scalar) -> Scalar>(
    ease: E,
    wind_speed: Scalar,
    cut: Scalar,
    eased: Scalar,
) -> bool {
    if (Scalar { bits: LIMIT_WIND_SPEED }).below(wind_speed) {
        call_ensures(ease, (cut,), eased)
    } else {
        eased == cut
    }
}

/// Sail trim from the apparent wind, without its side. `attack` gives the best
/// angle of attack, `ease` scales one down in a strong wind, and `open` takes
/// one from the wind angle.
pub fn sail_angle<A: Fn() -> Scalar, E: Fn(Scalar) -> Scalar, D: Fn(Scalar) -> Scalar>(
    wind_angle: Scalar,
    wind_speed: Scalar,
    previous_sail: Scalar,
    attack: &A,
    ease: &E,
    open: &D,
) -> (r: Scalar)
    requires
        call_requires(*attack, ()),
        forall|a: Scalar| call_requires(*ease, (a,)),
        forall|a: Scalar| call_requires(*open, (a,)),
    ensures
        trimmed(wind_angle, wind_speed, previous_sail, *attack, *ease, *open, r),
{
    if wind_speed.lt(Scalar { bits: MIN_WIND_SPEED_FOR_TRIM }) {
        return previous_sail;
    }
    let best: Scalar = attack();
    let cut: Scalar = if best.abs().gt(Scalar { bits: STALL_ANGLE }) {
        signed(wind_angle, Scalar { bits: STALL_ANGLE })
    } else {
        best
    };
    let eased: Scalar = if wind_speed.gt(Scalar { bits: LIMIT_WIND_SPEED }) {
        ease(cut)
    } else {
        cut
    };
    let angle: Scalar = open(eased);
    assert(call_ensures(*attack, (), best));
    assert(eased_to(*ease, wind_speed, cut_at_stall(wind_angle, best), eased));
    assert(call_ensures(*open, (eased,), angle));
    let quarter: Scalar = Scalar { bits: QUARTER_TURN };
    angle.max(quarter.neg()).min(quarter).abs()
}

/// Once the wind is strong enough to trim by, the sail stands between amidships
/// and a quarter turn.
pub proof fn law_sail_stays_in_a_quarter_turn<
    A: Fn() -> Scalar,
    E: Fn(Scalar) -> Scalar,
    D: Fn(Scalar) -> Scalar,
>(
    wind_angle: Scalar,
    wind_speed: Scalar,
    previous: Scalar,
    attack: A,
    ease: E,
    open: D,
    r: Scalar,
)
    requires
        trimmed(wind_angle, wind_speed, previous, attack, ease, open, r),
        !wind_speed.below(Scalar { bits: MIN_WIND_SPEED_FOR_TRIM }),
    ensures
        (Scalar { bits: 0 }).at_most(r),
        r.at_most(Scalar { bits: QUARTER_TURN }),
{
}

/// What the rudder and the sail are worked by in one tick.
pub struct Controls<P, Q, U, B, V, X> {
    /// The integrator for a heading, with the error of this tick.
    pub integrate: P,
    /// The rudder angle for a heading, at a speed and an integrator.
    pub law: Q,
    /// The integrator for a heading at which the law gives a rudder angle.
    pub unwind: U,
    /// The best angle of attack of the sail.
    pub attack: B,
    /// An angle of attack, scaled down for a strong wind.
    pub ease: V,
    /// The wind angle less an angle of attack.
    pub open: X,
    /// Speed of the boat.
    pub speed: Scalar,
    /// Apparent wind angle.
    pub apparent_angle: Scalar,
    /// Apparent wind speed.
    pub apparent_speed: Scalar,
}

impl<
    P: Fn(Scalar, Scalar) -> Scalar,
    Q: Fn(Scalar, Scalar, Scalar) -> Scalar,
    U: Fn(Scalar, Scalar, Scalar) -> Scalar,
    B: Fn() -> Scalar,
    V: Fn(Scalar) -> Scalar,
    X: Fn(Scalar) -> Scalar,
> Controls<P, Q, U, B, V, X> {
    /// Everything can be asked for at any time.
    pub open spec fn ready(&self) -> bool {
        &&& forall|h: Scalar, s: Scalar| call_requires(self.integrate, (h, s))
        &&& forall|h: Scalar, v: Scalar, s: Scalar| call_requires(self.law, (h, v, s))
        &&& forall|h: Scalar, v: Scalar, d: Scalar| call_requires(self.unwind, (h, v, d))
        &&& call_requires(self.attack, ())
        &&& forall|a: Scalar| call_requires(self.ease, (a,))
        &&& forall|a: Scalar| call_requires(self.open, (a,))
    }

    /// The controller was worked by one tick toward a heading.
    pub open spec fn steered(
        &self,
        before: HeadingController,
        desired_heading: Scalar,
        after: HeadingController,
        rudder: Scalar,
    ) -> bool {
        controlled(
            before,
            desired_heading,
            self.speed,
            self.integrate,
            self.law,
            self.unwind,
            after,
            rudder,
        )
    }

    /// The sail was trimmed to the apparent wind.
    pub open spec fn trimmed_to(&self, previous: Scalar, r: Scalar) -> bool {
        trimmed(
            self.apparent_angle,
            self.apparent_speed,
            previous,
            self.attack,
            self.ease,
            self.open,
            r,
        )
    }

    /// Work the controller by one tick.
    pub fn steer(&self, helm: &mut HeadingController, desired_heading: Scalar) -> (r: Scalar)
        requires
            self.ready(),
        ensures
            self.steered(*old(helm), desired_heading, *final(helm), r),
    {
        helm.control(desired_heading, self.speed, &self.integrate, &self.law, &self.unwind)
    }

    /// Trim the sail.
    pub fn trim(&self, previous: Scalar) -> (r: Scalar)
        requires
            self.ready(),
        ensures
            self.trimmed_to(previous, r),
    {
        sail_angle(
            self.apparent_angle,
            self.apparent_speed,
            previous,
            &self.attack,
            &self.ease,
            &self.open,
        )
    }
}

/// A rudder angle within a limit, or no number.
pub open spec fn within_limit(rudder: Scalar, limit: Scalar) -> bool {
    rudder.nan() || rudder.unsigned().at_most(limit)
}

/// The side of the sail: kept close to head to wind and close to dead astern,
/// otherwise the side that the wind comes from.
pub open spec fn sail_side(apparent_angle: Scalar, prev: Scalar) -> Scalar {
    let a = apparent_angle.unsigned();
    if a.at_most(Scalar { bits: SAIL_SIDE_DEADBAND }) || (Scalar { bits: SAIL_SIDE_GYBE }).at_most(
        a,
    ) {
        prev
    } else if (Scalar { bits: 0 }).at_most(apparent_angle) {
        Scalar { bits: ONE_BITS }
    } else {
        (Scalar { bits: ONE_BITS }).flipped()
    }
}

/// The side of the sail as plus or minus one.
pub fn next_sail_side(apparent_angle: Scalar, prev: Scalar) -> (r: Scalar)
    ensures
        r == sail_side(apparent_angle, prev),
{
    let a: Scalar = apparent_angle.abs();
    if a.le(Scalar { bits: SAIL_SIDE_DEADBAND }) || a.ge(Scalar { bits: SAIL_SIDE_GYBE }) {
        prev
    } else if apparent_angle.ge(Scalar::zero()) {
        Scalar::one()
    } else {
        Scalar::one().neg()
    }
}

/// A boat that wanders across dead astern, or across head to wind, within the
/// band does not throw its sail over.
pub proof fn law_sail_does_not_slam(a: Scalar, b: Scalar, prev: Scalar)
    requires
        (Scalar { bits: SAIL_SIDE_GYBE }).at_most(a.unsigned()) || a.unsigned().at_most(
            Scalar { bits: SAIL_SIDE_DEADBAND },
        ),
        (Scalar { bits: SAIL_SIDE_GYBE }).at_most(b.unsigned()) || b.unsigned().at_most(
            Scalar { bits: SAIL_SIDE_DEADBAND },
        ),
    ensures
        sail_side(b, sail_side(a, prev)) == prev,
{
}

/// A trim with its side. The side is plus or minus one.
pub open spec fn sheeted(side: Scalar, trim: Scalar) -> Scalar {
    with_sign(side, trim)
}

/// A trim with its side.
pub fn sheet(side: Scalar, trim: Scalar) -> (r: Scalar)
    requires
        side == (Scalar { bits: ONE_BITS }) || side == (Scalar { bits: ONE_BITS }).flipped(),
    ensures
        r == sheeted(side, trim),
{
    signed(side, trim)
}

/// A trim on the side that the sign bit of the apparent wind angle tells. No
/// number gives no number.
pub open spec fn sheeted_by_wind(apparent_angle: Scalar, trim: Scalar) -> Scalar {
    if apparent_angle.nan() {
        apparent_angle
    } else if apparent_angle.negative() {
        trim.flipped()
    } else {
        trim
    }
}

/// A trim on the side of the apparent wind.
pub fn sheet_by_wind(apparent_angle: Scalar, trim: Scalar) -> (r: Scalar)
    ensures
        r == sheeted_by_wind(apparent_angle, trim),
{
    if apparent_angle.is_nan() {
        apparent_angle
    } else if apparent_angle.bits >= 0x8000_0000_0000_0000 {
        trim.neg()
    } else {
        trim
    }
}

/// The heading that makes good a course in a stream: the course itself for a
/// boat that is too slow, else what `turn` makes of the course and of the sine
/// of the correction, which is limited.
pub open spec fn crabbed<R: Fn(Scalar) -> Scalar, T: Fn(Scalar, Scalar) -> Scalar>(
    desired_cog: Scalar,
    water_speed: Scalar,
    ratio: R,
    turn: T,
    r: Scalar,
) -> bool {
    let most = Scalar { bits: MAX_CRAB_SINE };
    if water_speed.below(Scalar { bits: CRAB_MIN_WATER_SPEED }) {
        r == desired_cog
    } else {
        exists|sine: Scalar| #[trigger]
            call_ensures(ratio, (desired_cog,), sine) && call_ensures(
                turn,
                (desired_cog, sine.limited(most.flipped(), most)),
                r,
            )
    }
}

/// The heading that makes good a course in a stream. `ratio` gives the sine of
/// the full correction, `turn` the heading for a course and the sine of a
/// correction.
pub fn crab_heading<R: Fn(Scalar) -> Scalar, T: Fn(Scalar, Scalar) -> Scalar>(
    desired_cog: Scalar,
    water_speed: Scalar,
    ratio: &R,
    turn: &T,
) -> (r: Scalar)
    requires
        forall|c: Scalar| call_requires(*ratio, (c,)),
        forall|c: Scalar, s: Scalar| call_requires(*turn, (c, s)),
    ensures
        crabbed(desired_cog, water_speed, *ratio, *turn, r),
{
    if water_speed.lt(Scalar { bits: CRAB_MIN_WATER_SPEED }) {
        return desired_cog;
    }
    let most: Scalar = Scalar { bits: MAX_CRAB_SINE };
    let sine: Scalar = ratio(desired_cog);
    assert(call_ensures(*ratio, (desired_cog,), sine));
    turn(desired_cog, sine.clamp(most.neg(), most))
}

/// Away from head to wind and from dead astern the sail stands on the side that
/// the wind comes from, whichever side it stood on. Close to either it keeps its
/// side.
pub proof fn law_sail_goes_to_the_side_of_the_wind(apparent_angle: Scalar, prev: Scalar)
    ensures
        ({
            let a = apparent_angle.unsigned();
            let near = Scalar { bits: 0x3fdc_28f5_c28f_5c29 };
            let far = Scalar { bits: 0x4005_9cdc_9bf2_4193 };
            let zero = Scalar { bits: 0 };
            let side = sail_side(apparent_angle, prev);
            &&& near.below(a) && a.below(far) && zero.below(apparent_angle) ==> side == (Scalar {
                bits: ONE_BITS,
            })
            &&& near.below(a) && a.below(far) && apparent_angle.below(zero) ==> side == (Scalar {
                bits: ONE_BITS,
            }).flipped()
            &&& a.at_most(near) || far.at_most(a) ==> side == prev
        }),
{
}

/// A sail on the one side stands at its trim, and on the other side at the same
/// trim the other way, for either of the two ways to tell the side.
pub proof fn law_sheet_mirrors_the_trim(trim: Scalar, apparent_angle: Scalar)
    ensures
        sheeted(Scalar { bits: ONE_BITS }, trim) == trim,
        sheeted((Scalar { bits: ONE_BITS }).flipped(), trim) == trim.flipped(),
        (Scalar { bits: 0 }).below(apparent_angle) ==> sheeted_by_wind(apparent_angle, trim)
            == trim,
        apparent_angle.below(Scalar { bits: 0 }) ==> sheeted_by_wind(apparent_angle, trim)
            == trim.flipped(),
        apparent_angle.nan() ==> sheeted_by_wind(apparent_angle, trim).nan(),
{
}

/// Where the arithmetic gives one integrator and one angle for a heading, the
/// rudder is that angle as long as it lies within the limit, and the integrator
/// keeps what it took in. Beyond the limit the rudder is put at the limit on the
/// same side, and the integrator is set back to what gives just that. The law is
/// computed with the boat's speed, or with the adaption speed where that is
/// higher, and nothing but the integrator changes.
pub proof fn law_rudder_follows_the_law_up_to_its_limit<
    I: Fn(Scalar, Scalar) -> Scalar,
    L: Fn(Scalar, Scalar, Scalar) -> Scalar,
    U: Fn(Scalar, Scalar, Scalar) -> Scalar,
>(
    before: HeadingController,
    desired_heading: Scalar,
    speed: Scalar,
    integrate: I,
    law: L,
    unwind: U,
    after: HeadingController,
    rudder: Scalar,
    sum: Scalar,
    raw: Scalar,
)
    requires
        controlled(before, desired_heading, speed, integrate, law, unwind, after, rudder),
        !speed.nan(),
        !before.speed_adaption.nan(),
        forall|s: Scalar| #[trigger]
            call_ensures(integrate, (desired_heading, before.summed_error), s) ==> s == sum,
        forall|d: Scalar|
            before.speed_adaption.at_most(speed) && #[trigger] call_ensures(
                law,
                (desired_heading, speed, sum),
                d,
            ) ==> d == raw,
        forall|d: Scalar|
            speed.below(before.speed_adaption) && #[trigger] call_ensures(
                law,
                (desired_heading, before.speed_adaption, sum),
                d,
            ) ==> d == raw,
        !raw.nan(),
        (Scalar { bits: 0 }).below(before.max_rudder_angle),
    ensures
        ({
            let limit = before.max_rudder_angle;
            &&& raw.unsigned().at_most(limit) ==> rudder == raw && after.summed_error == sum
            &&& limit.below(raw) ==> rudder == limit
            &&& raw.below(limit.flipped()) ==> rudder == limit.flipped()
            &&& limit.below(raw.unsigned()) && before.speed_adaption.at_most(speed)
                ==> call_ensures(unwind, (desired_heading, speed, rudder), after.summed_error)
            &&& limit.below(raw.unsigned()) && speed.below(before.speed_adaption)
                ==> call_ensures(
                unwind,
                (desired_heading, before.speed_adaption, rudder),
                after.summed_error,
            )
            &&& after.sample_time == before.sample_time
            &&& after.speed_adaption == before.speed_adaption
            &&& after.max_rudder_angle == before.max_rudder_angle
            &&& after.factor == before.factor
            &&& after.kp == before.kp
            &&& after.ki == before.ki
            &&& after.kd == before.kd
        }),
{
    let v = effective_speed(speed, before.speed_adaption);
    let (s, d) = choose|sum: Scalar, raw: Scalar|
        {
            &&& #[trigger] call_ensures(integrate, (desired_heading, before.summed_error), sum)
            &&& #[trigger] call_ensures(law, (desired_heading, v, sum), raw)
            &&& if before.max_rudder_angle.below(raw.unsigned()) {
                &&& rudder == with_sign(raw, before.max_rudder_angle)
                &&& call_ensures(unwind, (desired_heading, v, rudder), after.summed_error)
            } else {
                &&& rudder == raw
                &&& after.summed_error == sum
            }
            &&& after == (HeadingController { summed_error: after.summed_error, ..before })
        };
    assert(s == sum && d == raw);
}

/// In too weak a wind the trim is held.
pub proof fn law_trim_is_held_in_a_weak_wind<
    A: Fn() -> Scalar,
    E: Fn(Scalar) -> Scalar,
    D: Fn(Scalar) -> Scalar,
>(
    wind_angle: Scalar,
    wind_speed: Scalar,
    previous: Scalar,
    attack: A,
    ease: E,
    open: D,
    r: Scalar,
)
    requires
        trimmed(wind_angle, wind_speed, previous, attack, ease, open, r),
        wind_speed.below(Scalar { bits: MIN_WIND_SPEED_FOR_TRIM }),
    ensures
        r == previous,
{
}

/// In any other wind, where the arithmetic gives one answer, the sail stands at
/// the opening for its angle of attack, within a quarter turn. The angle of attack
/// is the best one, or the stall angle on the side of the wind where the best one
/// lies beyond it; in a strong wind, and only there, it is eased.
pub proof fn law_trim_opens_the_sail_to_the_wind<
    A: Fn() -> Scalar,
    E: Fn(Scalar) -> Scalar,
    D: Fn(Scalar) -> Scalar,
>(
    wind_angle: Scalar,
    wind_speed: Scalar,
    previous: Scalar,
    attack: A,
    ease: E,
    open: D,
    r: Scalar,
    best: Scalar,
    cut: Scalar,
    eased: Scalar,
    angle: Scalar,
)
    requires
        trimmed(wind_angle, wind_speed, previous, attack, ease, open, r),
        (Scalar { bits: MIN_WIND_SPEED_FOR_TRIM }).at_most(wind_speed),
        forall|b: Scalar| #[trigger] call_ensures(attack, (), b) ==> b == best,
        !best.nan(),
        !wind_angle.nan() && !wind_angle.same(Scalar { bits: 0 }),
        best.unsigned().at_most(Scalar { bits: STALL_ANGLE }) ==> cut == best,
        (Scalar { bits: STALL_ANGLE }).below(best.unsigned()) && (Scalar { bits: 0 }).below(
            wind_angle,
        ) ==> cut == (Scalar { bits: STALL_ANGLE }),
        (Scalar { bits: STALL_ANGLE }).below(best.unsigned()) && wind_angle.below(
            Scalar { bits: 0 },
        ) ==> cut == (Scalar { bits: STALL_ANGLE }).flipped(),
        wind_speed.at_most(Scalar { bits: LIMIT_WIND_SPEED }) ==> eased == cut,
        (Scalar { bits: LIMIT_WIND_SPEED }).below(wind_speed) ==> forall|e: Scalar| #[trigger]
            call_ensures(ease, (cut,), e) ==> e == eased,
        forall|o: Scalar| #[trigger] call_ensures(open, (eased,), o) ==> o == angle,
        !angle.nan(),
    ensures
        angle.unsigned().at_most(Scalar { bits: QUARTER_TURN }) ==> r == angle.unsigned(),
        (Scalar { bits: QUARTER_TURN }).below(angle.unsigned()) ==> r == (Scalar {
            bits: QUARTER_TURN,
        }),
{
    let quarter = Scalar { bits: QUARTER_TURN };
    let (b, e, o) = choose|best: Scalar, eased: Scalar, angle: Scalar|
        {
            &&& #[trigger] call_ensures(attack, (), best)
            &&& #[trigger] eased_to(ease, wind_speed, cut_at_stall(wind_angle, best), eased)
            &&& #[trigger] call_ensures(open, (eased,), angle)
            &&& r == angle.larger(quarter.flipped()).smaller(quarter).unsigned()
        };
    assert(b == best);
    assert(cut_at_stall(wind_angle, best) == cut);
    assert(e == eased);
    assert(o == angle);
}

/// A boat that is too slow steers its course. Any other one, where the
/// arithmetic gives one sine, steers what corrects its course by that sine, and
/// by the largest one on the same side where that is not enough.
pub proof fn law_correction_for_the_stream_is_limited<
    R: Fn(Scalar) -> Scalar,
    T: Fn(Scalar, Scalar) -> Scalar,
>(course: Scalar, water_speed: Scalar, ratio: R, turn: T, r: Scalar, sine: Scalar)
    requires
        crabbed(course, water_speed, ratio, turn, r),
        !water_speed.nan(),
        forall|x: Scalar| #[trigger] call_ensures(ratio, (course,), x) ==> x == sine,
        !sine.nan(),
    ensures
        ({
            let most = Scalar { bits: MAX_CRAB_SINE };
            let slow = water_speed.below(Scalar { bits: CRAB_MIN_WATER_SPEED });
            &&& slow ==> r == course
            &&& !slow && sine.unsigned().at_most(most) ==> call_ensures(turn, (course, sine), r)
            &&& !slow && most.below(sine) ==> call_ensures(turn, (course, most), r)
            &&& !slow && sine.below(most.flipped()) ==> call_ensures(
                turn,
                (course, most.flipped()),
                r,
            )
        }),
{
}

/// Above zero a quantity is taken as it is, and below zero, or without a number, the
/// other way round. At zero nothing is left of a finite quantity but its sign, and
/// any other is no number.
pub proof fn law_sign_turns_a_quantity(v: Scalar, quantity: Scalar)
    ensures
        ({
            let zero = Scalar { bits: 0 };
            let r = with_sign(v, quantity);
            &&& zero.below(v) ==> r == quantity
            &&& v.below(zero) || v.nan() ==> r == quantity.flipped()
            &&& v.same(zero) && quantity.magnitude() < INFINITY_BITS ==> r.same(zero)
                && r.negative() == quantity.negative()
            &&& v.same(zero) && quantity.magnitude() >= INFINITY_BITS ==> r.nan()
        }),
{
}

/// The gains are 0.5, 0.1 and 0.9, speed is adapted to from 0.3 m/s on, and the rudder
/// turns by 15 degrees. The sail is trimmed from 0.2 m/s of wind on, eased from 6 m/s
/// on, stalls at 14 degrees and opens to a right angle; its bands reach 0.44 from head
/// to wind and from dead astern. The course is corrected from 0.5 m/s on, by 40 degrees
/// at most.
pub proof fn law_helm_is_set_as_tuned()
    ensures
        DEFAULT_KP == 0x3fe0_0000_0000_0000,
        DEFAULT_KI == 0x3fb9_9999_9999_999a,
        DEFAULT_KD == 0x3fec_cccc_cccc_cccd,
        DEFAULT_SPEED_ADAPTION == 0x3fd3_3333_3333_3333,
        DEFAULT_RUDDER_LIMIT == 0x3fd0_c152_382d_7365,
        MIN_WIND_SPEED_FOR_TRIM == 0x3fc9_9999_9999_999a,
        LIMIT_WIND_SPEED == 0x4018_0000_0000_0000,
        STALL_ANGLE == 0x3fcf_46bb_9c10_9324,
        QUARTER_TURN == 0x3ff9_21fb_5444_2d18,
        SAIL_SIDE_DEADBAND == 0x3fdc_28f5_c28f_5c29,
        SAIL_SIDE_GYBE == 0x4005_9cdc_9bf2_4193,
        CRAB_MIN_WATER_SPEED == 0x3fe0_0000_0000_0000,
        MAX_CRAB_SINE == 0x3fe4_91b7_523c_161c,
{
}

} // verus!
