//! Routes and the follower that sails them.
//!
//! A route is a row of waypoints with the rules for following it. The follower
//! keeps which leg it is on, which tack it holds and whether it waits for the
//! tide. Each tick it is handed what the caller measured of the boat, the wind
//! and the stream, and answers with the heading to steer.

use vstd::prelude::*;

use crate::scalar::{Point, Scalar};

verus! {

/// Pattern of 45, the default close-hauled angle in degrees.
pub const CLOSE_HAULED_DEG: u64 = 0x4046_8000_0000_0000;

/// Pattern of 15, the default cross-track lookahead in metres.
pub const XTE_LOOKAHEAD: u64 = 0x402e_0000_0000_0000;

/// Pattern of 3, the default shortest time on one tack in seconds.
pub const MIN_TACK_DURATION: u64 = 0x4008_0000_0000_0000;

/// Pattern of 3000, the most that a long leg loosens the lookahead to, in
/// metres.
pub const XTE_LOOKAHEAD_CAP: u64 = 0x40a7_7000_0000_0000;

/// Pattern of minus infinity: the tack has never changed.
pub const NEVER: u64 = 0xfff0_0000_0000_0000;

/// Number of instants at which the stream ahead of a tidal gate is looked at:
/// both ends of the fair-tide window and eleven between them.
pub const GATE_SAMPLES: usize = 13;

/// A point of a route.
#[derive(Clone, Copy, PartialEq, Eq, Structural, Debug)]
pub struct Waypoint {
    pub x: Scalar,
    pub y: Scalar,
    /// Tidal gate: the boat holds here until the stream turns fair for the
    /// next leg. Ignored on the final waypoint.
    pub gate: bool,
    /// Fly-by: the boat only has to pass the point, not to hit it.
    pub soft: bool,
}

/// A fixed wind: the direction that it blows toward, in degrees from the x
/// axis, and its speed.
#[derive(Clone, Copy, PartialEq, Eq, Structural, Debug)]
pub struct WindOverride {
    pub direction_deg: Scalar,
    pub speed: Scalar,
}

/// Waypoints and the rules for following them.
#[derive(Clone, Debug)]
pub struct Route {
    pub name: String,
    pub acceptance_radius: Scalar,
    pub close_hauled_angle_deg: Scalar,
    pub xte_lookahead: Scalar,
    pub min_tack_duration_s: Scalar,
    pub wind: Option<WindOverride>,
    /// Least component of the stream along the next leg for a gate to open.
    pub gate_open_along_current: Scalar,
    /// How far ahead of the present the fair-tide window starts.
    pub gate_lead_time_s: Scalar,
    /// How long the stream has to stay fair.
    pub gate_min_fair_window_s: Scalar,
    /// Distance at which a fly-by waypoint counts as reached.
    pub fly_by_radius: Scalar,
    pub waypoints: Vec<Waypoint>,
    pub loop_route: bool,
}

/// Close-hauled angle of a route that gives none.
pub fn default_close_hauled() -> (r: Scalar)
    ensures
        r == (Scalar { bits: CLOSE_HAULED_DEG }),
{
    Scalar { bits: CLOSE_HAULED_DEG }
}

/// Cross-track lookahead of a route that gives none.
pub fn default_xte_lookahead() -> (r: Scalar)
    ensures
        r == (Scalar { bits: XTE_LOOKAHEAD }),
{
    Scalar { bits: XTE_LOOKAHEAD }
}

/// Shortest time on one tack of a route that gives none.
pub fn default_min_tack_duration() -> (r: Scalar)
    ensures
        r == (Scalar { bits: MIN_TACK_DURATION }),
{
    Scalar { bits: MIN_TACK_DURATION }
}

/// Whether a route that does not say so starts over at its end.
pub fn default_loop() -> (r: bool)
    ensures
        !r,
{
    false
}

/// What is said of a route that has no leg.
pub open spec fn too_short_text(name: Seq<char>) -> Seq<char> {
    "route "@ + name + " needs >= 2 waypoints"@
}

/// Cross-track lookahead on one leg: a tenth of the leg, never less than the
/// route asks for and, beyond that, never more than the cap.
pub open spec fn lookahead_spec(tenth_of_leg: Scalar, floor: Scalar) -> Scalar {
    tenth_of_leg.smaller(Scalar { bits: XTE_LOOKAHEAD_CAP }).larger(floor)
}

impl Route {
    /// A route can be sailed once it has a leg.
    pub open spec fn sailable(&self) -> bool {
        self.waypoints@.len() >= 2
    }

    /// Refuse a route with fewer than two waypoints.
    pub fn check(self) -> (r: Result<Route, String>)
        ensures
            match r {
                Ok(route) => self.sailable() && route == self,
                Err(text) => !self.sailable() && text@ == too_short_text(self.name@),
            },
    {
        if self.waypoints.len() >= 2 {
            Ok(self)
        } else {
            let mut text: String = "route ".to_string();
            text.append(self.name.as_str());
            text.append(" needs >= 2 waypoints");
            Err(text)
        }
    }

    /// Length of the fair-tide window, none where the route gives a negative
    /// one.
    pub fn fair_window(&self) -> (r: Scalar)
        ensures
            r == self.gate_min_fair_window_s.larger(Scalar { bits: 0 }),
    {
        self.gate_min_fair_window_s.max(Scalar::zero())
    }

    /// Cross-track lookahead on a leg, from a tenth of its length.
    pub fn lookahead(&self, tenth_of_leg: Scalar) -> (r: Scalar)
        ensures
            r == lookahead_spec(tenth_of_leg, self.xte_lookahead),
    {
        tenth_of_leg.min(Scalar { bits: XTE_LOOKAHEAD_CAP }).max(self.xte_lookahead)
    }
}

/// The side of the wind that the boat works to windward on, if it does.
#[derive(Clone, Copy, PartialEq, Eq, Structural, Debug)]
pub enum Tack {
    /// Steering straight at the mark.
    Direct,
    Port,
    Starboard,
}

/// What was measured of the boat against one leg.
#[derive(Clone, Copy, PartialEq, Eq, Structural, Debug)]
pub struct LegFix {
    /// The leg that it was measured against.
    pub leg: usize,
    /// From the boat to the end of the leg.
    pub distance: Scalar,
    /// Progress of the boat along the leg.
    pub along: Scalar,
    /// Length of the leg.
    pub length: Scalar,
    /// Heading along the leg, corrected for the cross-track error.
    pub direct: Scalar,
    /// Bearing to the end of the leg, from where the wind comes from.
    pub off_wind: Scalar,
    /// Progress to the end of the leg per distance sailed on port tack.
    pub vmg_port: Scalar,
    /// The same on starboard tack.
    pub vmg_starboard: Scalar,
}

/// The stream along the leg behind a gate, fair when positive.
#[derive(Debug)]
pub struct GateView {
    /// The leg that it was looked at along.
    pub leg: usize,
    /// At each instant of the window, where the stream can be foretold.
    pub forecast: Vec<Option<Scalar>>,
    /// Now.
    pub present: Scalar,
}

impl GateView {
    /// Look at the stream along a leg at every instant of the fair-tide window.
    /// `along` tells the stream that is foretold for an instant, by its number.
    pub fn survey<F: Fn(usize) -> Option<Scalar>>(leg: usize, present: Scalar, along: &F) -> (r:
        GateView)
        requires
            forall|k: usize| k < GATE_SAMPLES ==> call_requires(*along, (k,)),
        ensures
            r.leg == leg,
            r.present == present,
            r.forecast@.len() == GATE_SAMPLES,
            forall|k: int|
                0 <= k < GATE_SAMPLES ==> call_ensures(
                    *along,
                    (k as usize,),
                    #[trigger] r.forecast@[k],
                ),
    {
        let mut forecast: Vec<Option<Scalar>> = Vec::new();
        let mut k: usize = 0;
        while k < GATE_SAMPLES
            invariant
                k <= GATE_SAMPLES,
                forall|k: usize| k < GATE_SAMPLES ==> call_requires(*along, (k,)),
                forecast@.len() == k,
                forall|i: int|
                    0 <= i < k ==> call_ensures(*along, (i as usize,), #[trigger] forecast@[i]),
            decreases GATE_SAMPLES - k,
        {
            forecast.push(along(k));
            k = k + 1;
        }
        GateView { leg, forecast, present }
    }
}

/// A heading that keeps station in a stream.
#[derive(Clone, Copy, PartialEq, Eq, Structural, Debug)]
pub struct Hold {
    /// Heading that stems the stream.
    pub stem: Scalar,
    /// The same, from where the wind comes from.
    pub off_wind: Scalar,
}

/// What was measured for one tick.
#[derive(Debug)]
pub struct Tick {
    pub t: Scalar,
    /// Since the last change of tack.
    pub elapsed: Scalar,
    /// Half of the no-go cone.
    pub close_hauled: Scalar,
    /// The highest heading on port tack.
    pub port: Scalar,
    /// The highest heading on starboard tack.
    pub starboard: Scalar,
    /// Against the leg that is being sailed.
    pub here: LegFix,
    /// Against the leg that follows it, where one does.
    pub ahead: LegFix,
    /// The stream along the first leg, and how to wait at the start.
    pub departure: GateView,
    pub departure_hold: Hold,
    /// The stream along the leg that follows, and how to wait before it.
    pub gate: GateView,
    pub gate_hold: Hold,
}

/// What a follower remembers from tick to tick.
pub struct Progress {
    pub leg: int,
    pub tack: Tack,
    pub last_change: Scalar,
    pub finished: bool,
    pub waiting: bool,
    pub departed: bool,
}

/// The stream at one instant of the window: as foretold, or else as it is now.
pub open spec fn stream_at(view: GateView, k: int) -> Scalar {
    match view.forecast@[k] {
        Some(s) => s,
        None => view.present,
    }
}

/// A gate opens when the stream is nowhere in the window below what the route
/// asks for.
pub open spec fn gate_opens(view: GateView, threshold: Scalar) -> bool {
    forall|k: int| 0 <= k < view.forecast@.len() ==> !(#[trigger] stream_at(view, k)).below(
        threshold,
    )
}

/// Heading while waiting: stem the stream, or sail as high as possible on the
/// nearer side where that lies in the no-go cone.
pub open spec fn hold_heading(tick: Tick, hold: Hold) -> Scalar {
    if hold.off_wind.unsigned().below(tick.close_hauled) {
        if (Scalar { bits: 0 }).at_most(hold.off_wind) {
            tick.port
        } else {
            tick.starboard
        }
    } else {
        hold.stem
    }
}

/// Whether the end of the leg counts as reached: inside the acceptance circle,
/// or, for a fly-by waypoint, inside the larger of that and the fly-by circle,
/// or past the point along the leg.
pub open spec fn reached(route: Route, target: Waypoint, fix: LegFix) -> bool {
    if target.soft {
        fix.distance.below(route.acceptance_radius.larger(route.fly_by_radius))
            || fix.length.at_most(fix.along)
    } else {
        fix.distance.below(route.acceptance_radius)
    }
}

/// Whether the end of the leg lies too close to the wind to be steered at.
pub open spec fn in_no_go(tick: Tick, fix: LegFix) -> bool {
    fix.off_wind.unsigned().below(tick.close_hauled)
}

/// The tack that gains more on the end of the leg; port when both gain alike.
pub open spec fn preferred(fix: LegFix) -> Tack {
    if fix.vmg_starboard.at_most(fix.vmg_port) {
        Tack::Port
    } else {
        Tack::Starboard
    }
}

/// The heading of a tack.
pub open spec fn tack_heading(tick: Tick, tack: Tack) -> Scalar {
    if tack == Tack::Port {
        tick.port
    } else {
        tick.starboard
    }
}

/// Steer at the end of the leg, or work up to it on the latched tack.
pub open spec fn steer(p: Progress, route: Route, tick: Tick, fix: LegFix) -> (Progress, Scalar) {
    if !in_no_go(tick, fix) {
        (Progress { tack: Tack::Direct, ..p }, fix.direct)
    } else if p.tack == Tack::Direct || (p.tack != preferred(fix)
        && route.min_tack_duration_s.at_most(tick.elapsed)) {
        (
            Progress { tack: preferred(fix), last_change: tick.t, ..p },
            tack_heading(tick, preferred(fix)),
        )
    } else {
        (p, tack_heading(tick, p.tack))
    }
}

/// Sail on from the present leg: hold at a closed gate, go over to the next leg
/// at a waypoint that was reached, finish at the last one.
pub open spec fn sail_on(p: Progress, route: Route, tick: Tick) -> (Progress, Option<Scalar>) {
    let n = route.waypoints@.len();
    let target = route.waypoints@[p.leg + 1];
    let last = p.leg + 2 >= n;
    if !reached(route, target, tick.here) {
        let s = steer(p, route, tick, tick.here);
        (s.0, Some(s.1))
    } else if target.gate && !last && !gate_opens(tick.gate, route.gate_open_along_current) {
        (
            Progress { waiting: true, tack: Tack::Direct, ..p },
            Some(hold_heading(tick, tick.gate_hold)),
        )
    } else if last && !route.loop_route {
        (Progress { waiting: false, leg: p.leg + 1, finished: true, ..p }, None)
    } else {
        let next: int = if last {
            0
        } else {
            p.leg + 1
        };
        let s = steer(
            Progress { waiting: false, leg: next, tack: Tack::Direct, ..p },
            route,
            tick,
            tick.ahead,
        );
        (s.0, Some(s.1))
    }
}

/// One tick of a follower: what it remembers afterwards, and the heading to
/// steer unless the route is complete.
pub open spec fn follow(p: Progress, route: Route, tick: Tick) -> (Progress, Option<Scalar>) {
    if p.finished {
        (p, None)
    } else if p.departed {
        sail_on(p, route, tick)
    } else if route.waypoints@[0].gate && !gate_opens(
        tick.departure,
        route.gate_open_along_current,
    ) {
        (
            Progress { waiting: true, tack: Tack::Direct, ..p },
            Some(hold_heading(tick, tick.departure_hold)),
        )
    } else {
        sail_on(Progress { departed: true, waiting: false, ..p }, route, tick)
    }
}

/// The leg that a follower stands on exists, or the route is complete.
pub open spec fn on_route(p: Progress, route: Route) -> bool {
    &&& 0 <= p.leg
    &&& p.leg < route.waypoints@.len()
    &&& p.finished <==> p.leg + 1 == route.waypoints@.len()
    &&& p.waiting ==> !p.finished
}

/// A tick was measured for a follower: against the leg that it sails and the
/// one that follows, along the first leg and the one behind the next waypoint,
/// and over the whole fair-tide window of both gates.
pub open spec fn sighted(p: Progress, route: Route, tick: Tick) -> bool {
    let n = route.waypoints@.len();
    &&& tick.departure.leg == 0
    &&& tick.departure.forecast@.len() == GATE_SAMPLES
    &&& tick.gate.forecast@.len() == GATE_SAMPLES
    &&& !p.finished ==> tick.here.leg == p.leg
    &&& p.leg + 2 < n ==> tick.ahead.leg == p.leg + 1 && tick.gate.leg == p.leg + 1
    &&& p.leg + 2 == n && route.loop_route ==> tick.ahead.leg == 0
}

/// Follows a route.
///
/// - Capture: a waypoint that is reached hands over to the next leg.
/// - Tidal gates: at a gate the boat keeps station until the stream is fair.
/// - Direct steering: while the waypoint lies outside the no-go cone.
/// - Tacking: inside the cone, on the tack that gains more on the waypoint; a
///   tack is kept for the route's shortest time.
pub struct RouteFollower {
    route: Route,
    leg_index: usize,
    tack: Tack,
    last_tack_change_t: Scalar,
    finished: bool,
    waiting_at_gate: bool,
    departed: bool,
}

impl RouteFollower {
    /// The route that is followed.
    pub closed spec fn course(&self) -> Route {
        self.route
    }

    /// What the follower remembers.
    pub closed spec fn progress(&self) -> Progress {
        Progress {
            leg: self.leg_index as int,
            tack: self.tack,
            last_change: self.last_tack_change_t,
            finished: self.finished,
            waiting: self.waiting_at_gate,
            departed: self.departed,
        }
    }

    /// The follower stands on a leg of its route, or has finished it.
    pub open spec fn inv(&self) -> bool {
        on_route(self.progress(), self.course())
    }

    /// A follower at the start of a route.
    pub fn new(route: Route) -> (r: RouteFollower)
        ensures
            r.course() == route,
            r.progress() == (Progress {
                leg: 0,
                tack: Tack::Direct,
                last_change: Scalar { bits: NEVER },
                finished: false,
                waiting: false,
                departed: false,
            }),
            r.inv() <==> route.sailable(),
    {
        RouteFollower {
            route,
            leg_index: 0,
            tack: Tack::Direct,
            last_tack_change_t: Scalar { bits: NEVER },
            finished: false,
            waiting_at_gate: false,
            departed: false,
        }
    }

    /// Whether the route is complete.
    pub fn finished(&self) -> (r: bool)
        ensures
            r == self.progress().finished,
    {
        self.finished
    }

    /// Whether the boat waits at a tidal gate.
    pub fn waiting_at_gate(&self) -> (r: bool)
        ensures
            r == self.progress().waiting,
    {
        self.waiting_at_gate
    }

    /// The route that is followed.
    pub fn route(&self) -> (r: &Route)
        ensures
            *r == self.course(),
    {
        &self.route
    }

    /// The leg that is being sailed.
    pub fn leg_index(&self) -> (r: usize)
        ensures
            r == self.progress().leg,
    {
        self.leg_index
    }

    /// When the tack last changed.
    pub fn last_tack_change(&self) -> (r: Scalar)
        ensures
            r == self.progress().last_change,
    {
        self.last_tack_change_t
    }

    /// Both ends of the leg that is being sailed, unless there is none.
    pub fn current_leg(&self) -> (r: Option<(Waypoint, Waypoint)>)
        requires
            self.inv(),
        ensures
            r == (if self.progress().finished {
                None
            } else {
                Some(
                    (
                        self.course().waypoints@[self.progress().leg],
                        self.course().waypoints@[self.progress().leg + 1],
                    ),
                )
            }),
    {
        let n: usize = self.route.waypoints.len();
        if self.finished || self.leg_index >= n - 1 {
            None
        } else {
            Some((self.route.waypoints[self.leg_index], self.route.waypoints[self.leg_index + 1]))
        }
    }

    /// The leg that comes after the one being sailed, unless the route ends
    /// there.
    pub fn leg_ahead(&self) -> (r: Option<usize>)
        requires
            self.inv(),
        ensures
            r == (if self.progress().finished {
                None
            } else if self.progress().leg + 2 < self.course().waypoints@.len() {
                Some((self.progress().leg + 1) as usize)
            } else if self.course().loop_route {
                Some(0usize)
            } else {
                None
            }),
    {
        let n: usize = self.route.waypoints.len();
        if self.finished {
            None
        } else if self.leg_index + 1 < n - 1 {
            Some(self.leg_index + 1)
        } else if self.route.loop_route {
            Some(0)
        } else {
            None
        }
    }

    /// The legs that a sight is to be taken against: the one being sailed, the
    /// one that comes after it, and the one behind the next waypoint. Where
    /// there is none, the one being sailed stands in for it.
    pub fn legs_to_sight(&self) -> (r: (usize, usize, usize))
        requires
            self.inv(),
            self.course().sailable(),
        ensures
            ({
                let p = self.progress();
                let n = self.course().waypoints@.len();
                &&& r.0 + 1 < n && r.1 + 1 < n && r.2 + 1 < n
                &&& !p.finished ==> r.0 == p.leg
                &&& p.leg + 2 < n ==> r.1 == p.leg + 1 && r.2 == p.leg + 1
                &&& p.leg + 2 == n ==> r.1 == (if self.course().loop_route {
                    0
                } else {
                    p.leg
                }) && r.2 == p.leg
                &&& p.finished ==> r.0 + 2 == n && r.1 == r.0 && r.2 == r.0
            }),
    {
        let n: usize = self.route.waypoints.len();
        if self.finished {
            return (n - 2, n - 2, n - 2);
        }
        let here: usize = self.leg_index;
        let ahead: usize = match self.leg_ahead() {
            Some(leg) => leg,
            None => here,
        };
        let beyond: usize = if here + 1 < n - 1 {
            here + 1
        } else {
            here
        };
        (here, ahead, beyond)
    }

    /// The tack that is held.
    pub fn current_tack(&self) -> (r: Tack)
        ensures
            r == self.progress().tack,
    {
        self.tack
    }

    /// Where the route ends.
    pub fn destination(&self) -> (r: Point)
        requires
            self.inv(),
        ensures
            r.0 == self.course().waypoints@.last().x,
            r.1 == self.course().waypoints@.last().y,
    {
        let last: usize = self.route.waypoints.len() - 1;
        (self.route.waypoints[last].x, self.route.waypoints[last].y)
    }

    /// Whether the stream lets the boat start on a leg.
    fn gate_open_for_leg(&self, view: &GateView) -> (r: bool)
        ensures
            r == gate_opens(*view, self.course().gate_open_along_current),
    {
        let n: usize = view.forecast.len();
        let mut k: usize = 0;
        while k < n
            invariant
                n == view.forecast@.len(),
                k <= n,
                forall|i: int| 0 <= i < k ==> !(#[trigger] stream_at(*view, i)).below(
                    self.course().gate_open_along_current,
                ),
            decreases n - k,
        {
            let s: Scalar = match view.forecast[k] {
                Some(s) => s,
                None => view.present,
            };
            assert(s == stream_at(*view, k as int));
            if s.lt(self.route.gate_open_along_current) {
                return false;
            }
            k = k + 1;
        }
        true
    }

    fn hold(tick: &Tick, hold: Hold) -> (r: Scalar)
        ensures
            r == hold_heading(*tick, hold),
    {
        if hold.off_wind.abs().lt(tick.close_hauled) {
            if hold.off_wind.ge(Scalar::zero()) {
                tick.port
            } else {
                tick.starboard
            }
        } else {
            hold.stem
        }
    }

    /// Advance by one tick. Returns the heading to steer, or nothing once the
    /// route is complete.
    pub fn update(&mut self, tick: &Tick) -> (r: Option<Scalar>)
        requires
            old(self).inv(),
            sighted(old(self).progress(), old(self).course(), *tick),
        ensures
            final(self).inv(),
            final(self).course() == old(self).course(),
            final(self).progress() == follow(old(self).progress(), old(self).course(), *tick).0,
            r == follow(old(self).progress(), old(self).course(), *tick).1,
    {
        if self.finished {
            return None;
        }
        if !self.departed {
            if self.route.waypoints[0].gate && !self.gate_open_for_leg(&tick.departure) {
                self.waiting_at_gate = true;
                self.tack = Tack::Direct;
                return Some(Self::hold(tick, tick.departure_hold));
            }
            self.departed = true;
            self.waiting_at_gate = false;
        }
        let n: usize = self.route.waypoints.len();
        let mut fix: LegFix = tick.here;
        let target: Waypoint = self.route.waypoints[self.leg_index + 1];
        let passed_soft: bool = target.soft && fix.along.ge(fix.length);
        let capture_radius: Scalar = if target.soft {
            self.route.acceptance_radius.max(self.route.fly_by_radius)
        } else {
            self.route.acceptance_radius
        };
        if fix.distance.lt(capture_radius) || passed_soft {
            let is_gate: bool = target.gate && self.leg_index + 1 < n - 1;
            if is_gate && !self.gate_open_for_leg(&tick.gate) {
                self.waiting_at_gate = true;
                self.tack = Tack::Direct;
                return Some(Self::hold(tick, tick.gate_hold));
            }
            self.waiting_at_gate = false;
            self.leg_index = self.leg_index + 1;
            if self.leg_index >= n - 1 {
                if self.route.loop_route {
                    self.leg_index = 0;
                } else {
                    self.finished = true;
                    return None;
                }
            }
            self.tack = Tack::Direct;
            fix = tick.ahead;
        }
        if !fix.off_wind.abs().lt(tick.close_hauled) {
            self.tack = Tack::Direct;
            return Some(fix.direct);
        }
        let better: Tack = if fix.vmg_port.ge(fix.vmg_starboard) {
            Tack::Port
        } else {
            Tack::Starboard
        };
        if self.tack == Tack::Direct || (self.tack != better && tick.elapsed.ge(
            self.route.min_tack_duration_s,
        )) {
            self.tack = better;
            self.last_tack_change_t = tick.t;
        }
        match self.tack {
            Tack::Port => Some(tick.port),
            _ => Some(tick.starboard),
        }
    }

    /// Sail from here along new points instead of what is left of the route.
    /// The ends are hard waypoints, the points between them fly-bys, and no
    /// point is a gate.
    pub fn replace_remaining(&mut self, points: &Vec<Point>)
        requires
            old(self).inv(),
            points@.len() >= 2,
        ensures
            final(self).inv(),
            final(self).course() == (Route {
                waypoints: final(self).course().waypoints,
                ..old(self).course()
            }),
            final(self).course().waypoints@ == free_course(points@),
            final(self).progress() == (Progress {
                leg: 0,
                tack: Tack::Direct,
                waiting: false,
                departed: true,
                finished: false,
                ..old(self).progress()
            }),
    {
        let n: usize = points.len();
        let mut waypoints: Vec<Waypoint> = Vec::new();
        let mut i: usize = 0;
        while i < n
            invariant
                n == points@.len(),
                i <= n,
                waypoints@ =~= free_course(points@).take(i as int),
            decreases n - i,
        {
            waypoints.push(
                Waypoint { x: points[i].0, y: points[i].1, gate: false, soft: 0 < i && i < n - 1 },
            );
            i = i + 1;
        }
        self.route.waypoints = waypoints;
        self.leg_index = 0;
        self.tack = Tack::Direct;
        self.waiting_at_gate = false;
        self.departed = true;
        self.finished = false;
    }
}

/// Points as waypoints without gates: the ends hard, the rest fly-bys.
pub open spec fn free_course(points: Seq<Point>) -> Seq<Waypoint> {
    Seq::new(
        points.len(),
        |i: int|
            Waypoint {
                x: points[i].0,
                y: points[i].1,
                gate: false,
                soft: 0 < i && i < points.len() - 1,
            },
    )
}

/// The end of the present leg is reached in this tick and its gate, if it is
/// one, is open.
pub open spec fn captures(p: Progress, route: Route, tick: Tick) -> bool {
    let target = route.waypoints@[p.leg + 1];
    let held_at_start = !p.departed && route.waypoints@[0].gate && !gate_opens(
        tick.departure,
        route.gate_open_along_current,
    );
    &&& !p.finished
    &&& !held_at_start
    &&& reached(route, target, tick.here)
    &&& !target.gate || p.leg + 2 >= route.waypoints@.len() || gate_opens(
        tick.gate,
        route.gate_open_along_current,
    )
}

/// What is remembered after a row of ticks.
pub open spec fn follow_all(p: Progress, route: Route, ticks: Seq<Tick>) -> Progress
    decreases ticks.len(),
{
    if ticks.len() == 0 {
        p
    } else {
        follow(follow_all(p, route, ticks.drop_last()), route, ticks.last()).0
    }
}

/// Number of waypoints captured in a row of ticks.
pub open spec fn count_captures(p: Progress, route: Route, ticks: Seq<Tick>) -> int
    decreases ticks.len(),
{
    if ticks.len() == 0 {
        0
    } else {
        let before = follow_all(p, route, ticks.drop_last());
        count_captures(p, route, ticks.drop_last()) + (if captures(before, route, ticks.last()) {
            1int
        } else {
            0int
        })
    }
}

/// A complete route stays complete, and a heading is given as long as it is
/// not.
pub proof fn law_heading_until_complete(p: Progress, route: Route, tick: Tick)
    requires
        on_route(p, route),
    ensures
        p.finished ==> follow(p, route, tick) == (p, None::<Scalar>),
        follow(p, route, tick).1 is None <==> follow(p, route, tick).0.finished,
{
}

/// A tick moves the follower on by one leg exactly when it captures the
/// waypoint, and a looping route starts over behind its last leg.
pub proof fn law_leg_follows_captures(p: Progress, route: Route, tick: Tick)
    requires
        on_route(p, route),
    ensures
        on_route(follow(p, route, tick).0, route),
        follow(p, route, tick).0.leg == (if !captures(p, route, tick) {
            p.leg
        } else if route.loop_route && p.leg + 2 == route.waypoints@.len() {
            0
        } else {
            p.leg + 1
        }),
{
}

/// Over any run, the leg that a route without a loop has come to counts the
/// waypoints captured: none is skipped and none is sailed twice. The run is
/// complete exactly when the last one was captured.
pub proof fn law_legs_are_sailed_in_order(p: Progress, route: Route, ticks: Seq<Tick>)
    requires
        on_route(p, route),
        !route.loop_route,
    ensures
        on_route(follow_all(p, route, ticks), route),
        follow_all(p, route, ticks).leg == p.leg + count_captures(p, route, ticks),
        follow_all(p, route, ticks).finished <==> p.leg + count_captures(p, route, ticks)
            == route.waypoints@.len() - 1,
    decreases ticks.len(),
{
    if ticks.len() > 0 {
        law_legs_are_sailed_in_order(p, route, ticks.drop_last());
        law_leg_follows_captures(
            follow_all(p, route, ticks.drop_last()),
            route,
            ticks.last(),
        );
    }
}

/// A looping route never completes.
pub proof fn law_loop_goes_on(p: Progress, route: Route, ticks: Seq<Tick>)
    requires
        on_route(p, route),
        route.loop_route,
        !p.finished,
    ensures
        on_route(follow_all(p, route, ticks), route),
        !follow_all(p, route, ticks).finished,
    decreases ticks.len(),
{
    if ticks.len() > 0 {
        law_loop_goes_on(p, route, ticks.drop_last());
    }
}

/// A hard waypoint is captured only inside the acceptance circle; passing it is
/// not enough. A fly-by waypoint that was passed along the leg is reached at
/// any distance.
pub proof fn law_hard_needs_the_circle(p: Progress, route: Route, tick: Tick)
    requires
        on_route(p, route),
        !p.finished,
    ensures
        ({
            let target = route.waypoints@[p.leg + 1];
            &&& !target.soft && captures(p, route, tick) ==> tick.here.distance.below(
                route.acceptance_radius,
            )
            &&& target.soft && tick.here.length.at_most(tick.here.along) ==> reached(
                route,
                target,
                tick.here,
            )
        }),
{
}

/// A tick that begins a wait holds the leg, and drops the tack. It comes only
/// at a gate whose stream falls below what the route asks for within the
/// window, and never at the final waypoint.
pub proof fn law_wait_holds_the_leg(p: Progress, route: Route, tick: Tick)
    requires
        on_route(p, route),
        !p.waiting,
        follow(p, route, tick).0.waiting,
    ensures
        follow(p, route, tick).0.leg == p.leg,
        follow(p, route, tick).0.tack == Tack::Direct,
        follow(p, route, tick).0.departed ==> route.waypoints@[p.leg + 1].gate && p.leg + 2
            < route.waypoints@.len() && !gate_opens(tick.gate, route.gate_open_along_current),
        !follow(p, route, tick).0.departed ==> route.waypoints@[0].gate && !gate_opens(
            tick.departure,
            route.gate_open_along_current,
        ),
{
}

/// A fair stream ends the wait at the start: the boat departs, and waits again
/// only at a closed gate that it reaches in the same tick.
pub proof fn law_fair_stream_departs(p: Progress, route: Route, tick: Tick)
    requires
        on_route(p, route),
        !p.finished,
        !p.departed,
        gate_opens(tick.departure, route.gate_open_along_current),
    ensures
        follow(p, route, tick).0.departed,
        follow(p, route, tick).0.waiting ==> {
            let target = route.waypoints@[p.leg + 1];
            &&& target.gate
            &&& reached(route, target, tick.here)
            &&& !gate_opens(tick.gate, route.gate_open_along_current)
        },
{
}

/// A fair stream opens a gate that the boat waits at: the boat goes over to the
/// next leg in the same tick.
pub proof fn law_fair_stream_opens_the_way(p: Progress, route: Route, tick: Tick)
    requires
        on_route(p, route),
        !p.finished,
        p.departed,
        reached(route, route.waypoints@[p.leg + 1], tick.here),
        gate_opens(tick.gate, route.gate_open_along_current),
    ensures
        captures(p, route, tick),
        !follow(p, route, tick).0.waiting,
{
}

/// A route without gates is never waited on.
pub proof fn law_no_gate_no_wait(p: Progress, route: Route, ticks: Seq<Tick>)
    requires
        on_route(p, route),
        !p.waiting,
        forall|i: int| 0 <= i < route.waypoints@.len() ==> !(#[trigger] route.waypoints@[i]).gate,
    ensures
        on_route(follow_all(p, route, ticks), route),
        !follow_all(p, route, ticks).waiting,
    decreases ticks.len(),
{
    if ticks.len() > 0 {
        law_no_gate_no_wait(p, route, ticks.drop_last());
        let before = follow_all(p, route, ticks.drop_last());
        assert(!route.waypoints@[0].gate);
        if !before.finished {
            assert(!route.waypoints@[before.leg + 1].gate);
        }
    }
}

/// On one leg a tack gives way to the other one only after the route's shortest
/// time on a tack, and only when the other one gains more.
pub proof fn law_tack_is_kept(p: Progress, route: Route, tick: Tick)
    requires
        on_route(p, route),
        !captures(p, route, tick),
        p.tack != Tack::Direct,
        follow(p, route, tick).0.tack != Tack::Direct,
        follow(p, route, tick).0.tack != p.tack,
    ensures
        route.min_tack_duration_s.at_most(tick.elapsed),
        follow(p, route, tick).0.tack == preferred(tick.here),
        follow(p, route, tick).0.last_change == tick.t,
{
}

/// A boat on the tack that gains more stays on it.
pub proof fn law_better_tack_does_not_chatter(p: Progress, route: Route, tick: Tick)
    requires
        on_route(p, route),
        !p.finished,
        p.departed,
        !reached(route, route.waypoints@[p.leg + 1], tick.here),
        in_no_go(tick, tick.here),
        p.tack == preferred(tick.here),
    ensures
        follow(p, route, tick) == (p, Some(tack_heading(tick, p.tack))),
{
}

/// Steering is straight at the mark exactly while no tack is held, and on a
/// tack it is as high as the boat points.
pub proof fn law_heading_fits_the_tack(p: Progress, route: Route, tick: Tick)
    requires
        on_route(p, route),
        p.departed,
    ensures
        ({
            let q = follow(p, route, tick).0;
            let h = follow(p, route, tick).1;
            let fix = if captures(p, route, tick) {
                tick.ahead
            } else {
                tick.here
            };
            &&& q.tack == Tack::Port && !q.finished ==> h == Some(tick.port)
            &&& q.tack == Tack::Starboard && !q.finished ==> h == Some(tick.starboard)
            &&& q.tack == Tack::Direct && !q.waiting && !q.finished ==> h == Some(fix.direct)
                && !in_no_go(tick, fix)
        }),
{
}

/// The lookahead is never tighter than the route asks for, and a leg loosens
/// it to at most the cap.
pub proof fn law_lookahead_stays_in_bounds(tenth_of_leg: Scalar, floor: Scalar)
    requires
        !tenth_of_leg.nan(),
        !floor.nan(),
    ensures
        floor.at_most(lookahead_spec(tenth_of_leg, floor)),
        lookahead_spec(tenth_of_leg, floor).at_most(
            floor.larger(Scalar { bits: XTE_LOOKAHEAD_CAP }),
        ),
        floor.at_most(tenth_of_leg) && tenth_of_leg.at_most(Scalar { bits: XTE_LOOKAHEAD_CAP })
            ==> lookahead_spec(tenth_of_leg, floor).same(tenth_of_leg),
{
}

/// A longer leg never tightens the lookahead.
pub proof fn law_longer_leg_loosens_the_line(shorter: Scalar, longer: Scalar, floor: Scalar)
    requires
        shorter.at_most(longer),
        !floor.nan(),
    ensures
        lookahead_spec(shorter, floor).at_most(lookahead_spec(longer, floor)),
{
}

/// New points are sailed in their order, the ends hard and those between them
/// fly-bys, and none of them is a gate.
pub proof fn law_free_course_keeps_the_points(points: Seq<Point>)
    requires
        points.len() >= 2,
    ensures
        free_course(points).len() == points.len(),
        forall|i: int|
            0 <= i < points.len() ==> {
                &&& (#[trigger] free_course(points)[i]).x == points[i].0
                &&& free_course(points)[i].y == points[i].1
                &&& free_course(points)[i].soft == (i != 0 && i != points.len() - 1)
            },
        free_course(points).last().x == points.last().0,
        free_course(points).last().y == points.last().1,
        !free_course(points).first().soft,
        !free_course(points).last().soft,
        forall|i: int| 0 <= i < points.len() ==> !(#[trigger] free_course(points)[i]).gate,
{
}

/// A boat at a gate with a leg behind it does not go on while the stream along
/// that leg, as foretold or else as it is now, falls below what the route asks
/// for at any instant of the window. It waits on the leg that it sails, without a
/// tack, and heads into the stream, or as high as it points where that heading
/// lies in the no-go cone.
pub proof fn law_foul_stream_holds_at_the_gate(p: Progress, route: Route, tick: Tick, k: int)
    requires
        !p.finished,
        p.departed || !route.waypoints@[0].gate,
        0 <= p.leg,
        p.leg + 2 < route.waypoints@.len(),
        route.waypoints@[p.leg + 1].gate,
        tick.here.distance.below(route.acceptance_radius) || (route.waypoints@[p.leg + 1].soft && (
        tick.here.distance.below(route.fly_by_radius) || tick.here.length.at_most(
            tick.here.along,
        ))),
        0 <= k < tick.gate.forecast@.len(),
        (match tick.gate.forecast@[k] {
            Some(foretold) => foretold,
            None => tick.gate.present,
        }).below(route.gate_open_along_current),
    ensures
        ({
            let (q, h) = follow(p, route, tick);
            let hold = tick.gate_hold;
            &&& q.leg == p.leg
            &&& q.waiting
            &&& !q.finished
            &&& q.departed
            &&& q.tack == Tack::Direct
            &&& q.last_change == p.last_change
            &&& !hold.off_wind.unsigned().below(tick.close_hauled) ==> h == Some(hold.stem)
            &&& hold.off_wind.unsigned().below(tick.close_hauled) && (Scalar { bits: 0 }).at_most(
                hold.off_wind,
            ) ==> h == Some(tick.port)
            &&& hold.off_wind.unsigned().below(tick.close_hauled) && hold.off_wind.below(
                Scalar { bits: 0 },
            ) ==> h == Some(tick.starboard)
        }),
{
    assert(stream_at(tick.gate, k).below(route.gate_open_along_current));
}

/// The same at the start: a boat whose first waypoint is a gate does not depart
/// while the stream along the first leg falls below what the route asks for at
/// any instant of the window.
pub proof fn law_foul_stream_holds_at_the_start(p: Progress, route: Route, tick: Tick, k: int)
    requires
        !p.finished,
        !p.departed,
        route.waypoints@[0].gate,
        0 <= k < tick.departure.forecast@.len(),
        (match tick.departure.forecast@[k] {
            Some(foretold) => foretold,
            None => tick.departure.present,
        }).below(route.gate_open_along_current),
    ensures
        ({
            let (q, h) = follow(p, route, tick);
            let hold = tick.departure_hold;
            &&& q == (Progress { waiting: true, tack: Tack::Direct, ..p })
            &&& !hold.off_wind.unsigned().below(tick.close_hauled) ==> h == Some(hold.stem)
            &&& hold.off_wind.unsigned().below(tick.close_hauled) && (Scalar { bits: 0 }).at_most(
                hold.off_wind,
            ) ==> h == Some(tick.port)
            &&& hold.off_wind.unsigned().below(tick.close_hauled) && hold.off_wind.below(
                Scalar { bits: 0 },
            ) ==> h == Some(tick.starboard)
        }),
{
    assert(stream_at(tick.departure, k).below(route.gate_open_along_current));
}

/// A boat departs once its first waypoint is no gate or the stream along the
/// first leg is nowhere in the window below what the route asks for.
pub proof fn law_fair_start_is_left(p: Progress, route: Route, tick: Tick)
    requires
        !p.finished,
        0 <= p.leg,
        p.leg + 1 < route.waypoints@.len(),
        !route.waypoints@[0].gate || forall|k: int|
            0 <= k < tick.departure.forecast@.len() ==> !(match #[trigger] tick.departure.forecast@[k] {
                Some(foretold) => foretold,
                None => tick.departure.present,
            }).below(route.gate_open_along_current),
    ensures
        follow(p, route, tick).0.departed,
{
    if route.waypoints@[0].gate {
        assert forall|k: int| 0 <= k < tick.departure.forecast@.len() implies !(
        #[trigger] stream_at(tick.departure, k)).below(route.gate_open_along_current) by {
            let seen = tick.departure.forecast@[k];
        }
    }
}

/// A waypoint that is reached hands over to the leg behind it, unless it is a
/// gate that the stream keeps closed: a hard one within the acceptance circle, a
/// fly-by one within either circle or passed along the leg. Behind the last one
/// a looping route starts over and any other is complete.
pub proof fn law_reached_waypoint_is_captured(p: Progress, route: Route, tick: Tick)
    requires
        !p.finished,
        p.departed || !route.waypoints@[0].gate,
        0 <= p.leg,
        p.leg + 1 < route.waypoints@.len(),
        tick.here.distance.below(route.acceptance_radius) || (route.waypoints@[p.leg + 1].soft && (
        tick.here.distance.below(route.fly_by_radius) || tick.here.length.at_most(
            tick.here.along,
        ))),
        !route.waypoints@[p.leg + 1].gate || p.leg + 2 == route.waypoints@.len() || forall|k: int|
            0 <= k < tick.gate.forecast@.len() ==> !(match #[trigger] tick.gate.forecast@[k] {
                Some(foretold) => foretold,
                None => tick.gate.present,
            }).below(route.gate_open_along_current),
    ensures
        ({
            let (q, h) = follow(p, route, tick);
            let last = p.leg + 2 == route.waypoints@.len();
            &&& !q.waiting
            &&& q.departed
            &&& !last ==> q.leg == p.leg + 1 && !q.finished && h is Some
            &&& last && route.loop_route ==> q.leg == 0 && !q.finished && h is Some
            &&& last && !route.loop_route ==> q.leg == p.leg + 1 && q.finished && h is None
        }),
{
    let target = route.waypoints@[p.leg + 1];
    if target.gate && p.leg + 2 < route.waypoints@.len() {
        assert forall|k: int| 0 <= k < tick.gate.forecast@.len() implies !(#[trigger] stream_at(
            tick.gate,
            k,
        )).below(route.gate_open_along_current) by {
            let seen = tick.gate.forecast@[k];
        }
    }
}

/// A waypoint that is not reached keeps the boat on its leg: a hard one outside
/// the acceptance circle, a fly-by one outside both circles and not yet passed.
pub proof fn law_far_waypoint_is_sailed_to(p: Progress, route: Route, tick: Tick)
    requires
        !p.finished,
        p.departed || !route.waypoints@[0].gate,
        0 <= p.leg,
        p.leg + 1 < route.waypoints@.len(),
        !tick.here.distance.below(route.acceptance_radius),
        route.waypoints@[p.leg + 1].soft ==> !tick.here.distance.below(route.fly_by_radius)
            && !tick.here.length.at_most(tick.here.along),
    ensures
        ({
            let (q, h) = follow(p, route, tick);
            &&& q.leg == p.leg
            &&& q.departed
            &&& !q.finished
            &&& h is Some
            &&& p.departed ==> q.waiting == p.waiting
            &&& !p.departed ==> !q.waiting
        }),
{
}

/// Short of the waypoint, a boat whose mark lies outside the no-go cone drops its
/// tack and steers along the leg. One whose mark lies inside, and that holds a
/// tack, goes over to the other tack and steers as high as it points there once
/// the other one gains strictly more on the mark and the shortest time on a tack
/// has passed, from port to starboard and from starboard to port alike. It stays
/// on its tack, and steers as high as it points, before that time and while its
/// own tack gains strictly more.
pub proof fn law_boat_goes_over_to_the_better_tack(p: Progress, route: Route, tick: Tick)
    requires
        !p.finished,
        p.departed || !route.waypoints@[0].gate,
        0 <= p.leg,
        p.leg + 1 < route.waypoints@.len(),
        !tick.here.distance.below(route.acceptance_radius),
        route.waypoints@[p.leg + 1].soft ==> !tick.here.distance.below(route.fly_by_radius)
            && !tick.here.length.at_most(tick.here.along),
    ensures
        ({
            let (q, h) = follow(p, route, tick);
            let fix = tick.here;
            let cone = fix.off_wind.unsigned().below(tick.close_hauled);
            let due = route.min_tack_duration_s.at_most(tick.elapsed);
            let port_gains = fix.vmg_starboard.below(fix.vmg_port);
            let starboard_gains = fix.vmg_port.below(fix.vmg_starboard);
            let even = fix.vmg_port.same(fix.vmg_starboard);
            &&& !cone ==> q.tack == Tack::Direct && h == Some(fix.direct) && q.last_change
                == p.last_change
            &&& cone && p.tack == Tack::Port && starboard_gains && due ==> q.tack
                == Tack::Starboard && h == Some(tick.starboard) && q.last_change == tick.t
            &&& cone && p.tack == Tack::Starboard && (port_gains || even) && due ==> q.tack
                == Tack::Port && h == Some(tick.port) && q.last_change == tick.t
            &&& cone && p.tack == Tack::Port && (port_gains || even || !due) ==> q.tack
                == Tack::Port && h == Some(tick.port) && q.last_change == p.last_change
            &&& cone && p.tack == Tack::Starboard && (starboard_gains || !due) ==> q.tack
                == Tack::Starboard && h == Some(tick.starboard) && q.last_change == p.last_change
        }),
{
}

/// A boat that holds no tack and comes to have its mark in the no-go cone takes
/// the tack that gains more on it, port where both gain alike, without waiting:
/// on its leg, and on the next one when it captures the waypoint.
pub proof fn law_boat_takes_the_better_tack(p: Progress, route: Route, tick: Tick)
    requires
        !p.finished,
        p.departed || !route.waypoints@[0].gate,
        0 <= p.leg,
        p.leg + 1 < route.waypoints@.len(),
        p.tack == Tack::Direct || follow(p, route, tick).0.leg != p.leg,
    ensures
        ({
            let (q, h) = follow(p, route, tick);
            let fix = if q.leg == p.leg {
                tick.here
            } else {
                tick.ahead
            };
            let cone = fix.off_wind.unsigned().below(tick.close_hauled);
            let sails = !q.finished && !q.waiting && (q.leg != p.leg
                || !tick.here.distance.below(route.acceptance_radius) && !(
            route.waypoints@[p.leg + 1].soft && (tick.here.distance.below(route.fly_by_radius)
                || tick.here.length.at_most(tick.here.along))));
            &&& sails && !cone ==> q.tack == Tack::Direct && h == Some(fix.direct)
                && q.last_change == p.last_change
            &&& sails && cone && fix.vmg_starboard.at_most(fix.vmg_port) ==> q.tack == Tack::Port
                && h == Some(tick.port) && q.last_change == tick.t
            &&& sails && cone && fix.vmg_port.below(fix.vmg_starboard) ==> q.tack
                == Tack::Starboard && h == Some(tick.starboard) && q.last_change == tick.t
        }),
{
}

/// Unless told otherwise a boat points 45 degrees off the wind, looks 15 m ahead, and
/// holds a tack for 3 s. It looks 3000 m ahead at most, and at a stream 13 times.
pub proof fn law_route_is_set_as_tuned()
    ensures
        CLOSE_HAULED_DEG == 0x4046_8000_0000_0000,
        XTE_LOOKAHEAD == 0x402e_0000_0000_0000,
        MIN_TACK_DURATION == 0x4008_0000_0000_0000,
        XTE_LOOKAHEAD_CAP == 0x40a7_7000_0000_0000,
        NEVER == 0xfff0_0000_0000_0000,
        GATE_SAMPLES == 13,
{
}

} // verus!
