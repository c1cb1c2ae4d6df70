//! The autopilot: route follower, land avoidance, correction for the stream,
//! rudder and sail, tick by tick.

use vstd::prelude::*;

use crate::coast::{
    finite, hull, law_obstruction_is_told, no_bounds, obstructed, path_hits_obstacle, tells_sides,
    truly_cross, Chart, ChartPolygon, Obstacle,
};
use crate::helm::{
    controlled, crab_heading, crabbed, law_rudder_stays_in_its_limit, next_sail_side, sail_side,
    sheet, sheet_by_wind, sheeted, sheeted_by_wind, trimmed, within_limit, Controls,
    HeadingController,
};
use crate::planner::{
    land_of, law_plan_leads_to_the_destination, passage_spec, plan, Node, Pilotage, PlanConfig,
    PlanResult, Reach, PASSAGE_TOLERANCE,
};
use crate::polar::{Polar, Sample};
use crate::route::{
    follow, free_course, law_heading_until_complete, sighted, Progress, Route, RouteFollower, Tack,
    Tick,
};
use crate::scalar::{Point, Scalar, ONE_BITS};
use crate::simplify::{law_simplified_keeps_order, simplified, simplify};

verus! {

/// How often the boat turns further to each side in search of a clear heading.
pub const DEFLECTIONS: usize = 10;

/// World-frame wind: the direction that it blows toward, and its speed.
#[derive(Clone, Copy, PartialEq, Eq, Structural, Debug)]
pub struct WindReading {
    pub direction: Scalar,
    pub speed: Scalar,
}

/// What the autopilot is told once per control tick.
#[derive(Clone, Copy, Debug)]
pub struct Observation {
    pub t: Scalar,
    pub pos_x: Scalar,
    pub pos_y: Scalar,
    pub heading: Scalar,
    pub yaw_rate: Scalar,
    pub roll: Scalar,
    pub vel_x_body: Scalar,
    pub vel_y_body: Scalar,
    pub true_wind: WindReading,
    /// The stream, east and north.
    pub current: Point,
}

/// What the autopilot wants the actuators set to.
#[derive(Clone, Copy, PartialEq, Eq, Structural, Debug)]
pub struct Command {
    pub rudder_angle: Scalar,
    pub sail_angle: Scalar,
    /// The run is over: the route is complete.
    pub mission_complete: bool,
}

/// What it takes to plan anew from where the boat is.
#[derive(Debug)]
pub struct ReplanContext {
    pub polar: Polar,
    pub chart: Option<Chart>,
    /// Direction that the wind comes from.
    pub wind_from: Scalar,
    /// How long a gate is held before a new plan is made.
    pub after_wait_s: Scalar,
    pub dest_radius: Scalar,
    /// When the present wait began.
    pub wait_started_t: Option<Scalar>,
}

impl ReplanContext {
    /// A context in which no wait has begun.
    pub fn new(
        polar: Polar,
        chart: Option<Chart>,
        wind_from: Scalar,
        after_wait_s: Scalar,
        dest_radius: Scalar,
    ) -> (r: ReplanContext)
        ensures
            r == (ReplanContext {
                polar,
                chart,
                wind_from,
                after_wait_s,
                dest_radius,
                wait_started_t: None,
            }),
    {
        ReplanContext { polar, chart, wind_from, after_wait_s, dest_radius, wait_started_t: None }
    }

    /// The coastlines that a new plan keeps off.
    pub open spec fn land(&self) -> Seq<ChartPolygon> {
        match self.chart {
            Some(c) => c.polygons@,
            None => Seq::empty(),
        }
    }
}

/// Follows a route, keeps off the land, corrects for the stream and trims the
/// sail.
pub struct RouteAutopilot {
    pub follower: RouteFollower,
    pub helm: HeadingController,
    pub sail_resample_period_s: Scalar,
    /// Trim of the sail, without its side.
    pub last_sail_mag: Scalar,
    pub last_sail_t: Option<Scalar>,
    /// Side of the sail: plus or minus one.
    pub sail_side: Scalar,
    /// Whether the course is corrected for the stream.
    pub crab_enabled: bool,
    pub obstacles: Vec<Obstacle>,
    pub replan: Option<ReplanContext>,
}

/// What is measured in the course of one tick.
pub struct Senses<S, N, A, F, R, W> {
    /// Time that has passed since an instant.
    pub since: S,
    /// What a follower has to know of the boat, the wind and the stream.
    pub sight: N,
    /// Where the boat would come to on a heading within the lookahead.
    pub ahead: A,
    /// A heading turned by so many steps, to port when set.
    pub deflect: F,
    /// Sine of the full correction of a course for the stream.
    pub ratio: R,
    /// Heading for a course and the sine of a correction.
    pub turn: W,
    /// Speed through the water.
    pub water_speed: Scalar,
}

impl<
    S: Fn(Scalar) -> Scalar,
    N: Fn(&RouteFollower) -> Tick,
    A: Fn(Scalar) -> Point,
    F: Fn(Scalar, usize, bool) -> Scalar,
    R: Fn(Scalar) -> Scalar,
    W: Fn(Scalar, Scalar) -> Scalar,
> Senses<S, N, A, F, R, W> {
    /// Everything can be asked for at any time, and a sight is measured for the
    /// follower that it is asked for.
    pub open spec fn ready(&self) -> bool {
        &&& forall|t: Scalar| call_requires(self.since, (t,))
        &&& forall|f: &RouteFollower| call_requires(self.sight, (f,))
        &&& forall|f: &RouteFollower, tick: Tick| #[trigger]
            call_ensures(self.sight, (f,), tick) ==> sighted(f.progress(), f.course(), tick)
        &&& forall|h: Scalar| call_requires(self.ahead, (h,))
        &&& forall|h: Scalar, k: usize, port: bool| call_requires(self.deflect, (h, k, port))
        &&& forall|c: Scalar| call_requires(self.ratio, (c,))
        &&& forall|c: Scalar, s: Scalar| call_requires(self.turn, (c, s))
    }
}

/// Whether a heading is clear of the obstacles within the lookahead is `clear`.
pub open spec fn heading_is<A: Fn(Scalar) -> Point, C: Fn(Point, Point, Point) -> Scalar>(
    obstacles: Seq<Obstacle>,
    pos: Point,
    ahead: A,
    cross: C,
    heading: Scalar,
    clear: bool,
) -> bool {
    exists|end: Point| #[trigger]
        call_ensures(ahead, (heading,), end) && obstructed(cross, pos, end, obstacles, !clear)
}

/// The `j`th heading to be tried is `h`, and whether it is clear is `clear`.
/// Headings are tried by growing deflection, to port before to starboard.
pub open spec fn tried<
    A: Fn(Scalar) -> Point,
    F: Fn(Scalar, usize, bool) -> Scalar,
    C: Fn(Point, Point, Point) -> Scalar,
>(
    obstacles: Seq<Obstacle>,
    pos: Point,
    ahead: A,
    deflect: F,
    cross: C,
    heading: Scalar,
    j: int,
    h: Scalar,
    clear: bool,
) -> bool {
    &&& call_ensures(deflect, (heading, (j / 2 + 1) as usize, j % 2 == 0), h)
    &&& heading_is(obstacles, pos, ahead, cross, h, clear)
}

/// The `j`th heading to be tried is not clear.
pub open spec fn fails<
    A: Fn(Scalar) -> Point,
    F: Fn(Scalar, usize, bool) -> Scalar,
    C: Fn(Point, Point, Point) -> Scalar,
>(
    obstacles: Seq<Obstacle>,
    pos: Point,
    ahead: A,
    deflect: F,
    cross: C,
    heading: Scalar,
    j: int,
) -> bool {
    exists|h: Scalar| #[trigger]
        tried(obstacles, pos, ahead, deflect, cross, heading, j, h, false)
}

/// The first `n` headings that are tried are not clear.
pub open spec fn none_clear<
    A: Fn(Scalar) -> Point,
    F: Fn(Scalar, usize, bool) -> Scalar,
    C: Fn(Point, Point, Point) -> Scalar,
>(
    obstacles: Seq<Obstacle>,
    pos: Point,
    ahead: A,
    deflect: F,
    cross: C,
    heading: Scalar,
    n: int,
) -> bool {
    forall|j: int|
        0 <= j < n ==> #[trigger] fails(obstacles, pos, ahead, deflect, cross, heading, j)
}

/// The heading `r` avoids land: it is the wanted one where that is clear, else
/// the first clear one of those tried, and the wanted one again where none is.
pub open spec fn avoids<
    A: Fn(Scalar) -> Point,
    F: Fn(Scalar, usize, bool) -> Scalar,
    C: Fn(Point, Point, Point) -> Scalar,
>(
    obstacles: Seq<Obstacle>,
    pos: Point,
    ahead: A,
    deflect: F,
    cross: C,
    heading: Scalar,
    r: Scalar,
) -> bool {
    ||| obstacles.len() == 0 && r == heading
    ||| obstacles.len() > 0 && heading_is(obstacles, pos, ahead, cross, heading, true) && r
        == heading
    ||| {
        &&& obstacles.len() > 0
        &&& heading_is(obstacles, pos, ahead, cross, heading, false)
        &&& {
            ||| exists|j: int|
                {
                    &&& 0 <= j < 2 * DEFLECTIONS
                    &&& #[trigger] tried(
                        obstacles,
                        pos,
                        ahead,
                        deflect,
                        cross,
                        heading,
                        j,
                        r,
                        true,
                    )
                    &&& none_clear(obstacles, pos, ahead, deflect, cross, heading, j)
                }
            ||| r == heading && none_clear(
                obstacles,
                pos,
                ahead,
                deflect,
                cross,
                heading,
                2 * DEFLECTIONS as int,
            )
        }
    }
}

/// Whether the course is corrected for the stream: only where that is asked
/// for, there is a stream, and the boat neither waits at a gate nor tacks.
pub open spec fn corrects(crab_enabled: bool, current: Point, p: Progress) -> bool {
    let zero = Scalar { bits: 0 };
    &&& crab_enabled
    &&& !current.0.same(zero) || !current.1.same(zero)
    &&& !p.waiting
    &&& p.tack == Tack::Direct
}

/// Whether the trim is due for renewal is `due`: at first, and then once the
/// resampling period has passed.
pub open spec fn trim_due<S: Fn(Scalar) -> Scalar>(
    last: Option<Scalar>,
    period: Scalar,
    since: S,
    due: bool,
) -> bool {
    match last {
        None => due,
        Some(t) => exists|age: Scalar| #[trigger]
            call_ensures(since, (t,), age) && due == period.at_most(age),
    }
}

/// The plan that is made from `pos` at time `t`.
pub open spec fn new_plan(ctx: ReplanContext, f: RouteFollower, t: Scalar, pos: Point) -> PlanConfig {
    let last = f.course().waypoints@.last();
    passage_spec(pos, (last.x, last.y), ctx.wind_from, t, ctx.dest_radius)
}

/// The follower sails the thinned points of a plan from here on.
pub open spec fn swapped<O: Fn(Point, Point, Point) -> Scalar>(
    before: RouteFollower,
    found: PlanResult,
    offset: O,
    after: RouteFollower,
) -> bool {
    exists|kept: Seq<usize>|
        {
            &&& #[trigger] simplified(
                found.path@,
                offset,
                Scalar { bits: PASSAGE_TOLERANCE },
                kept,
            )
            &&& after.course() == (Route {
                waypoints: after.course().waypoints,
                ..before.course()
            })
            &&& after.course().waypoints@ == free_course(
                Seq::new(kept.len(), |k: int| found.path@[kept[k] as int]),
            )
            &&& after.progress() == (Progress {
                leg: 0,
                tack: Tack::Direct,
                waiting: false,
                departed: true,
                finished: false,
                ..before.progress()
            })
        }
}

/// What becomes of a follower that waits at a gate, and of the time when the
/// wait began: nothing before the wait is long enough; then a new plan is made.
/// One that is found replaces the route and ends the wait; where none is found,
/// the wait begins anew.
pub open spec fn waited<
    S: Fn(Scalar) -> Scalar,
    T: Fn(PlanConfig, usize) -> Scalar,
    G: Fn(Scalar) -> Scalar,
    L: Fn(Scalar, Sample, Sample) -> Scalar,
    D: Fn(PlanConfig, Reach) -> Scalar,
    M: Fn(PlanConfig, Node, usize, Scalar) -> Reach,
    C: Fn(Point, Point, Point) -> Scalar,
    O: Fn(Point, Point, Point) -> Scalar,
    E: Fn(Scalar, Point, Point) -> Scalar,
>(
    ctx: ReplanContext,
    before: RouteFollower,
    t: Scalar,
    pos: Point,
    since: S,
    pilot: Pilotage<T, G, L, D, M, C, O, E>,
    started: Scalar,
    after: RouteFollower,
    wait: Option<Scalar>,
    replanned: bool,
) -> bool {
    exists|age: Scalar|
        {
            &&& #[trigger] call_ensures(since, (started,), age)
            &&& if age.below(ctx.after_wait_s) {
                !replanned && after == before && wait == Some(started)
            } else {
                exists|found: Option<PlanResult>|
                    {
                        &&& #[trigger] pilot.planned(
                            new_plan(ctx, before, t, pos),
                            ctx.polar.samples(),
                            ctx.land(),
                            found,
                        )
                        &&& match found {
                            Some(p) => replanned && wait is None && swapped(
                                before,
                                p,
                                pilot.offset,
                                after,
                            ),
                            None => !replanned && after == before && wait == Some(t),
                        }
                    }
            }
        }
}

/// What a tick does about a held gate: nothing unless replanning is enabled;
/// forget the wait of a boat that does not wait; else see to the wait.
pub open spec fn replans<
    S: Fn(Scalar) -> Scalar,
    T: Fn(PlanConfig, usize) -> Scalar,
    G: Fn(Scalar) -> Scalar,
    L: Fn(Scalar, Sample, Sample) -> Scalar,
    D: Fn(PlanConfig, Reach) -> Scalar,
    M: Fn(PlanConfig, Node, usize, Scalar) -> Reach,
    C: Fn(Point, Point, Point) -> Scalar,
    O: Fn(Point, Point, Point) -> Scalar,
    E: Fn(Scalar, Point, Point) -> Scalar,
>(
    a: RouteAutopilot,
    t: Scalar,
    pos: Point,
    since: S,
    pilot: Pilotage<T, G, L, D, M, C, O, E>,
    b: RouteAutopilot,
    replanned: bool,
) -> bool {
    &&& b == (RouteAutopilot { follower: b.follower, replan: b.replan, ..a })
    &&& match a.replan {
        None => !replanned && b == a,
        Some(ctx) => {
            &&& b.replan is Some
            &&& b.replan->0 == (ReplanContext {
                wait_started_t: b.replan->0.wait_started_t,
                ..ctx
            })
            &&& if !a.follower.progress().waiting {
                !replanned && b.follower == a.follower && b.replan->0.wait_started_t is None
            } else {
                waited(
                    ctx,
                    a.follower,
                    t,
                    pos,
                    since,
                    pilot,
                    match ctx.wait_started_t {
                        Some(s) => s,
                        None => t,
                    },
                    b.follower,
                    b.replan->0.wait_started_t,
                    replanned,
                )
            }
        },
    }
}

/// A sight advanced a follower by one tick, with the heading `h`.
pub open spec fn advanced<N: Fn(&RouteFollower) -> Tick>(
    sight: N,
    before: RouteFollower,
    after: RouteFollower,
    h: Option<Scalar>,
) -> bool {
    exists|tick: Tick|
        {
            &&& #[trigger] call_ensures(sight, (&before,), tick)
            &&& after.course() == before.course()
            &&& after.progress() == follow(before.progress(), before.course(), tick).0
            &&& h == follow(before.progress(), before.course(), tick).1
        }
}

/// The heading after a held gate was seen to: a follower that was given a new
/// route is asked again.
pub open spec fn asked_again<N: Fn(&RouteFollower) -> Tick>(
    sight: N,
    replanned: bool,
    before: RouteFollower,
    first: Scalar,
    after: RouteFollower,
    desired: Scalar,
) -> bool {
    if replanned {
        exists|h: Option<Scalar>| #[trigger]
            advanced(sight, before, after, h) && desired == (match h {
                Some(again) => again,
                None => first,
            })
    } else {
        after == before && desired == first
    }
}

/// The heading that the rudder is given for a wanted course: off the land, and
/// corrected for the stream where that applies.
pub open spec fn referred<
    S: Fn(Scalar) -> Scalar,
    N: Fn(&RouteFollower) -> Tick,
    A: Fn(Scalar) -> Point,
    F: Fn(Scalar, usize, bool) -> Scalar,
    R: Fn(Scalar) -> Scalar,
    W: Fn(Scalar, Scalar) -> Scalar,
    C: Fn(Point, Point, Point) -> Scalar,
>(
    a: RouteAutopilot,
    obs: Observation,
    senses: Senses<S, N, A, F, R, W>,
    cross: C,
    desired: Scalar,
    href: Scalar,
) -> bool {
    exists|course: Scalar|
        {
            &&& #[trigger] avoids(
                a.obstacles@,
                (obs.pos_x, obs.pos_y),
                senses.ahead,
                senses.deflect,
                cross,
                desired,
                course,
            )
            &&& if corrects(a.crab_enabled, obs.current, a.follower.progress()) {
                crabbed(course, senses.water_speed, senses.ratio, senses.turn, href)
            } else {
                href == course
            }
        }
}

/// What becomes of the sail in one tick: its trim is renewed when due, and its
/// side follows the apparent wind.
pub open spec fn trims<
    S: Fn(Scalar) -> Scalar,
    P: Fn(Scalar, Scalar) -> Scalar,
    Q: Fn(Scalar, Scalar, Scalar) -> Scalar,
    U: Fn(Scalar, Scalar, Scalar) -> Scalar,
    B: Fn() -> Scalar,
    V: Fn(Scalar) -> Scalar,
    X: Fn(Scalar) -> Scalar,
>(
    a: RouteAutopilot,
    t: Scalar,
    since: S,
    controls: Controls<P, Q, U, B, V, X>,
    b: RouteAutopilot,
) -> bool {
    &&& b == (RouteAutopilot {
        last_sail_mag: b.last_sail_mag,
        last_sail_t: b.last_sail_t,
        sail_side: sail_side(controls.apparent_angle, a.sail_side),
        ..a
    })
    &&& exists|due: bool|
        {
            &&& #[trigger] trim_due(a.last_sail_t, a.sail_resample_period_s, since, due)
            &&& if due {
                b.last_sail_t == Some(t) && controls.trimmed_to(a.last_sail_mag, b.last_sail_mag)
            } else {
                b.last_sail_t == a.last_sail_t && b.last_sail_mag == a.last_sail_mag
            }
        }
}

/// The heading that is wanted once a held gate was seen to.
pub open spec fn resolved<
    S: Fn(Scalar) -> Scalar,
    N: Fn(&RouteFollower) -> Tick,
    A: Fn(Scalar) -> Point,
    F: Fn(Scalar, usize, bool) -> Scalar,
    R: Fn(Scalar) -> Scalar,
    W: Fn(Scalar, Scalar) -> Scalar,
    T: Fn(PlanConfig, usize) -> Scalar,
    G: Fn(Scalar) -> Scalar,
    L: Fn(Scalar, Sample, Sample) -> Scalar,
    D: Fn(PlanConfig, Reach) -> Scalar,
    M: Fn(PlanConfig, Node, usize, Scalar) -> Reach,
    C: Fn(Point, Point, Point) -> Scalar,
    O: Fn(Point, Point, Point) -> Scalar,
    E: Fn(Scalar, Point, Point) -> Scalar,
>(
    a: RouteAutopilot,
    obs: Observation,
    senses: Senses<S, N, A, F, R, W>,
    pilot: Pilotage<T, G, L, D, M, C, O, E>,
    first: Scalar,
    d: RouteAutopilot,
    desired: Scalar,
) -> bool {
    exists|c: RouteAutopilot, replanned: bool|
        {
            &&& #[trigger] replans(
                a,
                obs.t,
                (obs.pos_x, obs.pos_y),
                senses.since,
                pilot,
                c,
                replanned,
            )
            &&& d == (RouteAutopilot { follower: d.follower, ..c })
            &&& asked_again(senses.sight, replanned, c.follower, first, d.follower, desired)
        }
}

/// The rudder and the sail were worked toward a wanted heading.
pub open spec fn worked<
    S: Fn(Scalar) -> Scalar,
    N: Fn(&RouteFollower) -> Tick,
    A: Fn(Scalar) -> Point,
    F: Fn(Scalar, usize, bool) -> Scalar,
    R: Fn(Scalar) -> Scalar,
    W: Fn(Scalar, Scalar) -> Scalar,
    P: Fn(Scalar, Scalar) -> Scalar,
    Q: Fn(Scalar, Scalar, Scalar) -> Scalar,
    U: Fn(Scalar, Scalar, Scalar) -> Scalar,
    B: Fn() -> Scalar,
    V: Fn(Scalar) -> Scalar,
    X: Fn(Scalar) -> Scalar,
    C: Fn(Point, Point, Point) -> Scalar,
>(
    d: RouteAutopilot,
    obs: Observation,
    senses: Senses<S, N, A, F, R, W>,
    controls: Controls<P, Q, U, B, V, X>,
    cross: C,
    desired: Scalar,
    b: RouteAutopilot,
    cmd: Command,
) -> bool {
    exists|href: Scalar|
        {
            &&& #[trigger] referred(d, obs, senses, cross, desired, href)
            &&& controls.steered(d.helm, href, b.helm, cmd.rudder_angle)
            &&& trims(
                RouteAutopilot { helm: b.helm, ..d },
                obs.t,
                senses.since,
                controls,
                b,
            )
            &&& cmd.sail_angle == sheeted(b.sail_side, b.last_sail_mag)
            &&& !cmd.mission_complete
        }
}

/// The rest of a tick on which the follower has a heading.
pub open spec fn steers<
    S: Fn(Scalar) -> Scalar,
    N: Fn(&RouteFollower) -> Tick,
    A: Fn(Scalar) -> Point,
    F: Fn(Scalar, usize, bool) -> Scalar,
    R: Fn(Scalar) -> Scalar,
    W: Fn(Scalar, Scalar) -> Scalar,
    P: Fn(Scalar, Scalar) -> Scalar,
    Q: Fn(Scalar, Scalar, Scalar) -> Scalar,
    U: Fn(Scalar, Scalar, Scalar) -> Scalar,
    B: Fn() -> Scalar,
    V: Fn(Scalar) -> Scalar,
    X: Fn(Scalar) -> Scalar,
    T: Fn(PlanConfig, usize) -> Scalar,
    G: Fn(Scalar) -> Scalar,
    L: Fn(Scalar, Sample, Sample) -> Scalar,
    D: Fn(PlanConfig, Reach) -> Scalar,
    M: Fn(PlanConfig, Node, usize, Scalar) -> Reach,
    C: Fn(Point, Point, Point) -> Scalar,
    O: Fn(Point, Point, Point) -> Scalar,
    E: Fn(Scalar, Point, Point) -> Scalar,
>(
    a: RouteAutopilot,
    obs: Observation,
    senses: Senses<S, N, A, F, R, W>,
    controls: Controls<P, Q, U, B, V, X>,
    pilot: Pilotage<T, G, L, D, M, C, O, E>,
    first: Scalar,
    b: RouteAutopilot,
    cmd: Command,
) -> bool {
    exists|d: RouteAutopilot, desired: Scalar|
        {
            &&& #[trigger] resolved(a, obs, senses, pilot, first, d, desired)
            &&& worked(d, obs, senses, controls, pilot.cross, desired, b, cmd)
        }
}

/// One tick of the autopilot. The follower is advanced; once the route is
/// complete the rudder is put amidships and the sail left as it stands.
pub open spec fn stepped<
    S: Fn(Scalar) -> Scalar,
    N: Fn(&RouteFollower) -> Tick,
    A: Fn(Scalar) -> Point,
    F: Fn(Scalar, usize, bool) -> Scalar,
    R: Fn(Scalar) -> Scalar,
    W: Fn(Scalar, Scalar) -> Scalar,
    P: Fn(Scalar, Scalar) -> Scalar,
    Q: Fn(Scalar, Scalar, Scalar) -> Scalar,
    U: Fn(Scalar, Scalar, Scalar) -> Scalar,
    B: Fn() -> Scalar,
    V: Fn(Scalar) -> Scalar,
    X: Fn(Scalar) -> Scalar,
    T: Fn(PlanConfig, usize) -> Scalar,
    G: Fn(Scalar) -> Scalar,
    L: Fn(Scalar, Sample, Sample) -> Scalar,
    D: Fn(PlanConfig, Reach) -> Scalar,
    M: Fn(PlanConfig, Node, usize, Scalar) -> Reach,
    C: Fn(Point, Point, Point) -> Scalar,
    O: Fn(Point, Point, Point) -> Scalar,
    E: Fn(Scalar, Point, Point) -> Scalar,
>(
    a: RouteAutopilot,
    obs: Observation,
    senses: Senses<S, N, A, F, R, W>,
    controls: Controls<P, Q, U, B, V, X>,
    pilot: Pilotage<T, G, L, D, M, C, O, E>,
    b: RouteAutopilot,
    cmd: Command,
) -> bool {
    exists|f: RouteFollower, h: Option<Scalar>|
        {
            &&& #[trigger] advanced(senses.sight, a.follower, f, h)
            &&& match h {
                None => {
                    &&& b == (RouteAutopilot { follower: f, ..a })
                    &&& cmd == (Command {
                        rudder_angle: Scalar { bits: 0 },
                        sail_angle: sheeted(a.sail_side, a.last_sail_mag),
                        mission_complete: true,
                    })
                },
                Some(first) => steers(
                    RouteAutopilot { follower: f, ..a },
                    obs,
                    senses,
                    controls,
                    pilot,
                    first,
                    b,
                    cmd,
                ),
            }
        }
}

impl RouteAutopilot {
    /// The follower stands on its route, the sail has a side, and a new plan
    /// can be made where that is asked for.
    pub open spec fn inv(&self) -> bool {
        &&& self.follower.inv()
        &&& self.sail_side == (Scalar { bits: ONE_BITS }) || self.sail_side == (Scalar {
            bits: ONE_BITS,
        }).flipped()
        &&& match self.replan {
            Some(ctx) => ctx.polar.inv(),
            None => true,
        }
    }

    /// An autopilot at the start of a route.
    pub fn new(
        route: Route,
        helm: HeadingController,
        sail_resample_period_s: Scalar,
        crab_enabled: bool,
        obstacles: Vec<Obstacle>,
    ) -> (r: RouteAutopilot)
        ensures
            r.inv() <==> route.sailable(),
            r.follower.course() == route,
            r.follower.progress() == (Progress {
                leg: 0,
                tack: Tack::Direct,
                last_change: Scalar { bits: crate::route::NEVER },
                finished: false,
                waiting: false,
                departed: false,
            }),
            r == (RouteAutopilot {
                follower: r.follower,
                helm,
                sail_resample_period_s,
                last_sail_mag: Scalar { bits: 0 },
                last_sail_t: None,
                sail_side: Scalar { bits: ONE_BITS },
                crab_enabled,
                obstacles,
                replan: None,
            }),
    {
        RouteAutopilot {
            follower: RouteFollower::new(route),
            helm,
            sail_resample_period_s,
            last_sail_mag: Scalar::zero(),
            last_sail_t: None,
            sail_side: Scalar::one(),
            crab_enabled,
            obstacles,
            replan: None,
        }
    }

    /// Plan anew when a gate is held too long.
    pub fn enable_replanning(&mut self, ctx: ReplanContext)
        ensures
            *final(self) == (RouteAutopilot { replan: Some(ctx), ..*old(self) }),
    {
        self.replan = Some(ctx);
    }

    /// The same autopilot, planning anew when a gate is held too long.
    pub fn with_held_gate_replan(self, ctx: ReplanContext) -> (r: RouteAutopilot)
        ensures
            r == (RouteAutopilot { replan: Some(ctx), ..self }),
    {
        let mut r: RouteAutopilot = self;
        r.enable_replanning(ctx);
        r
    }

    /// The route that is followed.
    pub fn route(&self) -> (r: &Route)
        ensures
            *r == self.follower.course(),
    {
        self.follower.route()
    }

    /// Empty the integrator of the controller, and forget the trim.
    pub fn reset(&mut self)
        ensures
            *final(self) == (RouteAutopilot {
                helm: HeadingController { summed_error: Scalar { bits: 0 }, ..old(self).helm },
                last_sail_mag: Scalar { bits: 0 },
                last_sail_t: None,
                sail_side: Scalar { bits: ONE_BITS },
                ..*old(self)
            }),
            old(self).inv() ==> final(self).inv(),
    {
        self.helm.reset();
        self.last_sail_mag = Scalar::zero();
        self.last_sail_t = None;
        self.sail_side = Scalar::one();
    }

    /// Whether the boat would run into an obstacle on a heading.
    pub fn heading_hits_land<A: Fn(Scalar) -> Point, C: Fn(Point, Point, Point) -> Scalar>(
        &self,
        pos: Point,
        heading: Scalar,
        ahead: &A,
        cross: &C,
    ) -> (r: bool)
        requires
            forall|h: Scalar| call_requires(*ahead, (h,)),
            forall|p: Point, q: Point, r: Point| call_requires(*cross, (p, q, r)),
        ensures
            heading_is(self.obstacles@, pos, *ahead, *cross, heading, !r),
    {
        let end: Point = ahead(heading);
        assert(call_ensures(*ahead, (heading,), end));
        path_hits_obstacle(pos, end, &self.obstacles, cross)
    }

    /// The heading closest to the wanted one that is clear of the obstacles.
    pub fn avoid_land<
        A: Fn(Scalar) -> Point,
        F: Fn(Scalar, usize, bool) -> Scalar,
        C: Fn(Point, Point, Point) -> Scalar,
    >(&self, pos: Point, heading: Scalar, ahead: &A, deflect: &F, cross: &C) -> (r: Scalar)
        requires
            forall|h: Scalar| call_requires(*ahead, (h,)),
            forall|h: Scalar, k: usize, port: bool| call_requires(*deflect, (h, k, port)),
            forall|p: Point, q: Point, r: Point| call_requires(*cross, (p, q, r)),
        ensures
            avoids(self.obstacles@, pos, *ahead, *deflect, *cross, heading, r),
    {
        if self.obstacles.len() == 0 || !self.heading_hits_land(pos, heading, ahead, cross) {
            return heading;
        }
        let mut j: usize = 0;
        while j < 2 * DEFLECTIONS
            invariant
                j <= 2 * DEFLECTIONS,
                forall|h: Scalar| call_requires(*ahead, (h,)),
                forall|h: Scalar, k: usize, port: bool| call_requires(*deflect, (h, k, port)),
                forall|p: Point, q: Point, r: Point| call_requires(*cross, (p, q, r)),
                self.obstacles@.len() > 0,
                heading_is(self.obstacles@, pos, *ahead, *cross, heading, false),
                none_clear(self.obstacles@, pos, *ahead, *deflect, *cross, heading, j as int),
            decreases 2 * DEFLECTIONS - j,
        {
            let h: Scalar = deflect(heading, j / 2 + 1, j % 2 == 0);
            let hits: bool = self.heading_hits_land(pos, h, ahead, cross);
            assert(tried(
                self.obstacles@,
                pos,
                *ahead,
                *deflect,
                *cross,
                heading,
                j as int,
                h,
                !hits,
            ));
            if !hits {
                return h;
            }
            j = j + 1;
        }
        heading
    }

    /// Plan anew from `pos` at time `t` if a gate has been held long enough.
    /// Tells whether the route was replaced.
    pub fn maybe_replan<
        S: Fn(Scalar) -> Scalar,
        T: Fn(PlanConfig, usize) -> Scalar,
        G: Fn(Scalar) -> Scalar,
        L: Fn(Scalar, Sample, Sample) -> Scalar,
        D: Fn(PlanConfig, Reach) -> Scalar,
        M: Fn(PlanConfig, Node, usize, Scalar) -> Reach,
        C: Fn(Point, Point, Point) -> Scalar,
        O: Fn(Point, Point, Point) -> Scalar,
        E: Fn(Scalar, Point, Point) -> Scalar,
    >(&mut self, t: Scalar, pos: Point, since: &S, pilot: &Pilotage<T, G, L, D, M, C, O, E>) -> (r: bool)
        requires
            old(self).inv(),
            pilot.ready(),
            forall|t: Scalar| call_requires(*since, (t,)),
        ensures
            final(self).inv(),
            replans(*old(self), t, pos, *since, *pilot, *final(self), r),
    {
        match self.replan.take() {
            None => false,
            Some(was) => {
                let mut ctx: ReplanContext = was;
                if !self.follower.waiting_at_gate() {
                    ctx.wait_started_t = None;
                    self.replan = Some(ctx);
                    return false;
                }
                let started: Scalar = match ctx.wait_started_t {
                    Some(s) => s,
                    None => t,
                };
                let age: Scalar = since(started);
                assert(call_ensures(*since, (started,), age));
                if age.lt(ctx.after_wait_s) {
                    ctx.wait_started_t = Some(started);
                    self.replan = Some(ctx);
                    return false;
                }
                let cfg: PlanConfig = PlanConfig::for_passage(
                    pos,
                    self.follower.destination(),
                    ctx.wind_from,
                    t,
                    ctx.dest_radius,
                );
                let chart: Option<&Chart> = match &ctx.chart {
                    Some(c) => Some(c),
                    None => None,
                };
                let found: Option<PlanResult> = plan(&cfg, &ctx.polar, chart, pilot);
                assert(land_of(chart) == was.land());
                assert(pilot.planned(
                    new_plan(was, old(self).follower, t, pos),
                    was.polar.samples(),
                    was.land(),
                    found,
                ));
                match found {
                    Some(p) => {
                        proof {
                            law_plan_leads_to_the_destination(
                                *pilot,
                                cfg,
                                was.polar.samples(),
                                was.land(),
                                p,
                            );
                        }
                        let pts: Vec<Point> = simplify(
                            &p.path,
                            Scalar { bits: PASSAGE_TOLERANCE },
                            &pilot.offset,
                        );
                        proof {
                            let kept = choose|kept: Seq<usize>| #[trigger]
                                simplified(
                                    p.path@,
                                    pilot.offset,
                                    Scalar { bits: PASSAGE_TOLERANCE },
                                    kept,
                                ) && pts@ == Seq::new(
                                    kept.len(),
                                    |k: int| p.path@[kept[k] as int],
                                );
                            law_simplified_keeps_order(
                                p.path@,
                                pilot.offset,
                                Scalar { bits: PASSAGE_TOLERANCE },
                                kept,
                            );
                        }
                        self.follower.replace_remaining(&pts);
                        ctx.wait_started_t = None;
                        self.replan = Some(ctx);
                        true
                    },
                    None => {
                        ctx.wait_started_t = Some(t);
                        self.replan = Some(ctx);
                        false
                    },
                }
            },
        }
    }

    /// Advance the follower by one sight.
    fn advance<N: Fn(&RouteFollower) -> Tick>(&mut self, sight: &N) -> (r: Option<Scalar>)
        requires
            old(self).inv(),
            forall|f: &RouteFollower| call_requires(*sight, (f,)),
            forall|f: &RouteFollower, tick: Tick| #[trigger]
                call_ensures(*sight, (f,), tick) ==> sighted(f.progress(), f.course(), tick),
        ensures
            final(self).inv(),
            *final(self) == (RouteAutopilot { follower: final(self).follower, ..*old(self) }),
            advanced(*sight, old(self).follower, final(self).follower, r),
    {
        let tick: Tick = sight(&self.follower);
        assert(call_ensures(*sight, (&old(self).follower,), tick));
        self.follower.update(&tick)
    }

    /// The heading for the rudder, from a wanted course.
    fn reference<
        S: Fn(Scalar) -> Scalar,
        N: Fn(&RouteFollower) -> Tick,
        A: Fn(Scalar) -> Point,
        F: Fn(Scalar, usize, bool) -> Scalar,
        R: Fn(Scalar) -> Scalar,
        W: Fn(Scalar, Scalar) -> Scalar,
        C: Fn(Point, Point, Point) -> Scalar,
    >(
        &self,
        obs: &Observation,
        senses: &Senses<S, N, A, F, R, W>,
        cross: &C,
        desired: Scalar,
    ) -> (r: Scalar)
        requires
            self.inv(),
            senses.ready(),
            forall|p: Point, q: Point, r: Point| call_requires(*cross, (p, q, r)),
        ensures
            referred(*self, *obs, *senses, *cross, desired, r),
    {
        let course: Scalar = self.avoid_land(
            (obs.pos_x, obs.pos_y),
            desired,
            &senses.ahead,
            &senses.deflect,
            cross,
        );
        let zero: Scalar = Scalar::zero();
        let has_current: bool = !obs.current.0.equals(zero) || !obs.current.1.equals(zero);
        if self.crab_enabled && has_current && !self.follower.waiting_at_gate()
            && self.follower.current_tack() == Tack::Direct {
            crab_heading(course, senses.water_speed, &senses.ratio, &senses.turn)
        } else {
            course
        }
    }

    /// See to the sail.
    fn trim_sail<
        S: Fn(Scalar) -> Scalar,
        P: Fn(Scalar, Scalar) -> Scalar,
        Q: Fn(Scalar, Scalar, Scalar) -> Scalar,
        U: Fn(Scalar, Scalar, Scalar) -> Scalar,
        B: Fn() -> Scalar,
        V: Fn(Scalar) -> Scalar,
        X: Fn(Scalar) -> Scalar,
    >(&mut self, t: Scalar, since: &S, controls: &Controls<P, Q, U, B, V, X>)
        requires
            old(self).inv(),
            forall|t: Scalar| call_requires(*since, (t,)),
            controls.ready(),
        ensures
            final(self).inv(),
            trims(*old(self), t, *since, *controls, *final(self)),
    {
        let due: bool = match self.last_sail_t {
            None => true,
            Some(prev) => {
                let age: Scalar = since(prev);
                assert(call_ensures(*since, (prev,), age));
                age.ge(self.sail_resample_period_s)
            },
        };
        assert(trim_due(self.last_sail_t, self.sail_resample_period_s, *since, due));
        if due {
            self.last_sail_mag = controls.trim(self.last_sail_mag);
            self.last_sail_t = Some(t);
        }
        self.sail_side = next_sail_side(controls.apparent_angle, self.sail_side);
    }

    /// See to a held gate, and ask the follower again where it was given a new
    /// route.
    fn resolve<
        S: Fn(Scalar) -> Scalar,
        N: Fn(&RouteFollower) -> Tick,
        A: Fn(Scalar) -> Point,
        F: Fn(Scalar, usize, bool) -> Scalar,
        R: Fn(Scalar) -> Scalar,
        W: Fn(Scalar, Scalar) -> Scalar,
        T: Fn(PlanConfig, usize) -> Scalar,
        G: Fn(Scalar) -> Scalar,
        L: Fn(Scalar, Sample, Sample) -> Scalar,
        D: Fn(PlanConfig, Reach) -> Scalar,
        M: Fn(PlanConfig, Node, usize, Scalar) -> Reach,
        C: Fn(Point, Point, Point) -> Scalar,
        O: Fn(Point, Point, Point) -> Scalar,
        E: Fn(Scalar, Point, Point) -> Scalar,
    >(
        &mut self,
        obs: &Observation,
        senses: &Senses<S, N, A, F, R, W>,
        pilot: &Pilotage<T, G, L, D, M, C, O, E>,
        first: Scalar,
    ) -> (desired: Scalar)
        requires
            old(self).inv(),
            senses.ready(),
            pilot.ready(),
        ensures
            final(self).inv(),
            final(self).helm == old(self).helm,
            resolved(*old(self), *obs, *senses, *pilot, first, *final(self), desired),
    {
        let mut desired: Scalar = first;
        let replanned: bool = self.maybe_replan(
            obs.t,
            (obs.pos_x, obs.pos_y),
            &senses.since,
            pilot,
        );
        let ghost c = *self;
        if replanned {
            let again: Option<Scalar> = self.advance(&senses.sight);
            assert(advanced(senses.sight, c.follower, self.follower, again));
            if let Some(h) = again {
                desired = h;
            }
        }
        assert(asked_again(senses.sight, replanned, c.follower, first, self.follower, desired));
        assert(replans(
            *old(self),
            obs.t,
            (obs.pos_x, obs.pos_y),
            senses.since,
            *pilot,
            c,
            replanned,
        ));
        desired
    }

    /// Work the rudder and the sail toward a wanted heading.
    fn work<
        S: Fn(Scalar) -> Scalar,
        N: Fn(&RouteFollower) -> Tick,
        A: Fn(Scalar) -> Point,
        F: Fn(Scalar, usize, bool) -> Scalar,
        R: Fn(Scalar) -> Scalar,
        W: Fn(Scalar, Scalar) -> Scalar,
        P: Fn(Scalar, Scalar) -> Scalar,
        Q: Fn(Scalar, Scalar, Scalar) -> Scalar,
        U: Fn(Scalar, Scalar, Scalar) -> Scalar,
        B: Fn() -> Scalar,
        V: Fn(Scalar) -> Scalar,
        X: Fn(Scalar) -> Scalar,
        C: Fn(Point, Point, Point) -> Scalar,
    >(
        &mut self,
        obs: &Observation,
        senses: &Senses<S, N, A, F, R, W>,
        controls: &Controls<P, Q, U, B, V, X>,
        cross: &C,
        desired: Scalar,
    ) -> (cmd: Command)
        requires
            old(self).inv(),
            senses.ready(),
            controls.ready(),
            forall|p: Point, q: Point, r: Point| call_requires(*cross, (p, q, r)),
        ensures
            final(self).inv(),
            worked(*old(self), *obs, *senses, *controls, *cross, desired, *final(self), cmd),
            final(self).helm == (HeadingController {
                summed_error: final(self).helm.summed_error,
                ..old(self).helm
            }),
            (Scalar { bits: 0 }).at_most(old(self).helm.max_rudder_angle) ==> within_limit(
                cmd.rudder_angle,
                old(self).helm.max_rudder_angle,
            ),
    {
        let href: Scalar = self.reference(obs, senses, cross, desired);
        assert(referred(*old(self), *obs, *senses, *cross, desired, href));
        let rudder: Scalar = controls.steer(&mut self.helm, href);
        proof {
            if (Scalar { bits: 0 }).at_most(old(self).helm.max_rudder_angle) {
                law_rudder_stays_in_its_limit(
                    old(self).helm,
                    href,
                    controls.speed,
                    controls.integrate,
                    controls.law,
                    controls.unwind,
                    self.helm,
                    rudder,
                );
            }
        }
        self.trim_sail(obs.t, &senses.since, controls);
        Command {
            rudder_angle: rudder,
            sail_angle: sheet(self.sail_side, self.last_sail_mag),
            mission_complete: false,
        }
    }

    /// One control tick.
    pub fn step<
        S: Fn(Scalar) -> Scalar,
        N: Fn(&RouteFollower) -> Tick,
        A: Fn(Scalar) -> Point,
        F: Fn(Scalar, usize, bool) -> Scalar,
        R: Fn(Scalar) -> Scalar,
        W: Fn(Scalar, Scalar) -> Scalar,
        P: Fn(Scalar, Scalar) -> Scalar,
        Q: Fn(Scalar, Scalar, Scalar) -> Scalar,
        U: Fn(Scalar, Scalar, Scalar) -> Scalar,
        B: Fn() -> Scalar,
        V: Fn(Scalar) -> Scalar,
        X: Fn(Scalar) -> Scalar,
        T: Fn(PlanConfig, usize) -> Scalar,
        G: Fn(Scalar) -> Scalar,
        L: Fn(Scalar, Sample, Sample) -> Scalar,
        D: Fn(PlanConfig, Reach) -> Scalar,
        M: Fn(PlanConfig, Node, usize, Scalar) -> Reach,
        C: Fn(Point, Point, Point) -> Scalar,
        O: Fn(Point, Point, Point) -> Scalar,
        E: Fn(Scalar, Point, Point) -> Scalar,
    >(
        &mut self,
        obs: &Observation,
        senses: &Senses<S, N, A, F, R, W>,
        controls: &Controls<P, Q, U, B, V, X>,
        pilot: &Pilotage<T, G, L, D, M, C, O, E>,
    ) -> (cmd: Command)
        requires
            old(self).inv(),
            senses.ready(),
            controls.ready(),
            pilot.ready(),
        ensures
            final(self).inv(),
            stepped(*old(self), *obs, *senses, *controls, *pilot, *final(self), cmd),
            final(self).helm == (HeadingController {
                summed_error: final(self).helm.summed_error,
                ..old(self).helm
            }),
            (Scalar { bits: 0 }).at_most(old(self).helm.max_rudder_angle) ==> within_limit(
                cmd.rudder_angle,
                old(self).helm.max_rudder_angle,
            ),
    {
        let first: Scalar = match self.advance(&senses.sight) {
            Some(h) => h,
            None => {
                return Command {
                    rudder_angle: Scalar::zero(),
                    sail_angle: sheet(self.sail_side, self.last_sail_mag),
                    mission_complete: true,
                };
            },
        };
        let ghost a = *self;
        let desired: Scalar = self.resolve(obs, senses, pilot, first);
        let ghost d = *self;
        let cmd: Command = self.work(obs, senses, controls, &pilot.cross, desired);
        proof {
            assert(resolved(a, *obs, *senses, *pilot, first, d, desired));
            assert(steers(a, *obs, *senses, *controls, *pilot, first, *self, cmd));
        }
        cmd
    }
}

/// Holds a constant heading and trims the sail to the apparent wind.
#[derive(Clone, Copy, PartialEq, Eq, Structural, Debug)]
pub struct FixedHeadingAutopilot {
    pub target_heading: Scalar,
    pub helm: HeadingController,
    /// Trim of the sail, without its side.
    pub last_sail_mag: Scalar,
}

impl FixedHeadingAutopilot {
    /// An autopilot that holds a heading.
    pub fn new(target_heading: Scalar, helm: HeadingController) -> (r: FixedHeadingAutopilot)
        ensures
            r == (FixedHeadingAutopilot {
                target_heading,
                helm,
                last_sail_mag: Scalar { bits: 0 },
            }),
    {
        FixedHeadingAutopilot { target_heading, helm, last_sail_mag: Scalar::zero() }
    }

    /// One control tick. The trim is renewed every time; the mission never
    /// ends.
    pub fn step<
        P: Fn(Scalar, Scalar) -> Scalar,
        Q: Fn(Scalar, Scalar, Scalar) -> Scalar,
        U: Fn(Scalar, Scalar, Scalar) -> Scalar,
        B: Fn() -> Scalar,
        V: Fn(Scalar) -> Scalar,
        X: Fn(Scalar) -> Scalar,
    >(&mut self, controls: &Controls<P, Q, U, B, V, X>) -> (cmd: Command)
        requires
            controls.ready(),
        ensures
            final(self).target_heading == old(self).target_heading,
            controls.trimmed_to(old(self).last_sail_mag, final(self).last_sail_mag),
            controls.steered(
                old(self).helm,
                old(self).target_heading,
                final(self).helm,
                cmd.rudder_angle,
            ),
            (Scalar { bits: 0 }).at_most(old(self).helm.max_rudder_angle) ==> within_limit(
                cmd.rudder_angle,
                old(self).helm.max_rudder_angle,
            ),
            cmd.sail_angle == sheeted_by_wind(
                controls.apparent_angle,
                final(self).last_sail_mag,
            ),
            !cmd.mission_complete,
    {
        self.last_sail_mag = controls.trim(self.last_sail_mag);
        let sail_angle: Scalar = sheet_by_wind(controls.apparent_angle, self.last_sail_mag);
        let rudder_angle: Scalar = controls.steer(&mut self.helm, self.target_heading);
        proof {
            if (Scalar { bits: 0 }).at_most(old(self).helm.max_rudder_angle) {
                law_rudder_stays_in_its_limit(
                    old(self).helm,
                    self.target_heading,
                    controls.speed,
                    controls.integrate,
                    controls.law,
                    controls.unwind,
                    self.helm,
                    rudder_angle,
                );
            }
        }
        Command { rudder_angle, sail_angle, mission_complete: false }
    }
}

/// A new plan leads from the boat to where the old route ended, and leaves no
/// gate behind.
pub proof fn law_new_plan_keeps_the_destination<
    S: Fn(Scalar) -> Scalar,
    T: Fn(PlanConfig, usize) -> Scalar,
    G: Fn(Scalar) -> Scalar,
    L: Fn(Scalar, Sample, Sample) -> Scalar,
    D: Fn(PlanConfig, Reach) -> Scalar,
    M: Fn(PlanConfig, Node, usize, Scalar) -> Reach,
    C: Fn(Point, Point, Point) -> Scalar,
    O: Fn(Point, Point, Point) -> Scalar,
    E: Fn(Scalar, Point, Point) -> Scalar,
>(
    a: RouteAutopilot,
    t: Scalar,
    pos: Point,
    since: S,
    pilot: Pilotage<T, G, L, D, M, C, O, E>,
    b: RouteAutopilot,
)
    requires
        a.inv(),
        replans(a, t, pos, since, pilot, b, true),
    ensures
        ({
            let before = a.follower.course().waypoints@;
            let after = b.follower.course().waypoints@;
            &&& after.len() >= 2
            &&& (after.first().x, after.first().y) == pos
            &&& (after.last().x, after.last().y) == (before.last().x, before.last().y)
            &&& forall|i: int| 0 <= i < after.len() ==> !(#[trigger] after[i]).gate
            &&& !b.follower.progress().waiting
        }),
{
    let ctx = a.replan->0;
    let started = match ctx.wait_started_t {
        Some(s) => s,
        None => t,
    };
    let cfg = new_plan(ctx, a.follower, t, pos);
    let found = choose|found: Option<PlanResult>|
        {
            &&& #[trigger] pilot.planned(cfg, ctx.polar.samples(), ctx.land(), found)
            &&& match found {
                Some(p) => b.replan->0.wait_started_t is None && swapped(
                    a.follower,
                    p,
                    pilot.offset,
                    b.follower,
                ),
                None => false,
            }
        };
    let p = found->0;
    law_plan_leads_to_the_destination(pilot, cfg, ctx.polar.samples(), ctx.land(), p);
    let tolerance = Scalar { bits: PASSAGE_TOLERANCE };
    let kept = choose|kept: Seq<usize>|
        {
            &&& #[trigger] simplified(p.path@, pilot.offset, tolerance, kept)
            &&& b.follower.course().waypoints@ == free_course(
                Seq::new(kept.len(), |k: int| p.path@[kept[k] as int]),
            )
            &&& b.follower.progress() == (Progress {
                leg: 0,
                tack: Tack::Direct,
                waiting: false,
                departed: true,
                finished: false,
                ..a.follower.progress()
            })
        };
    law_simplified_keeps_order(p.path@, pilot.offset, tolerance, kept);
}

/// Where replanning is not enabled a held gate is waited out.
pub proof fn law_no_replanning_unless_enabled<
    S: Fn(Scalar) -> Scalar,
    T: Fn(PlanConfig, usize) -> Scalar,
    G: Fn(Scalar) -> Scalar,
    L: Fn(Scalar, Sample, Sample) -> Scalar,
    D: Fn(PlanConfig, Reach) -> Scalar,
    M: Fn(PlanConfig, Node, usize, Scalar) -> Reach,
    C: Fn(Point, Point, Point) -> Scalar,
    O: Fn(Point, Point, Point) -> Scalar,
    E: Fn(Scalar, Point, Point) -> Scalar,
>(
    a: RouteAutopilot,
    t: Scalar,
    pos: Point,
    since: S,
    pilot: Pilotage<T, G, L, D, M, C, O, E>,
    b: RouteAutopilot,
    replanned: bool,
)
    requires
        replans(a, t, pos, since, pilot, b, replanned),
        a.replan is None || !a.follower.progress().waiting,
    ensures
        !replanned,
        b.follower == a.follower,
{
}

/// Without obstacles the wanted heading is steered.
pub proof fn law_open_water_is_not_avoided<
    A: Fn(Scalar) -> Point,
    F: Fn(Scalar, usize, bool) -> Scalar,
    C: Fn(Point, Point, Point) -> Scalar,
>(pos: Point, ahead: A, deflect: F, cross: C, heading: Scalar, r: Scalar)
    requires
        avoids(Seq::empty(), pos, ahead, deflect, cross, heading, r),
    ensures
        r == heading,
{
}

/// A heading other than the wanted one is taken only where the wanted one is
/// not clear, and is clear itself.
pub proof fn law_deflection_is_clear<
    A: Fn(Scalar) -> Point,
    F: Fn(Scalar, usize, bool) -> Scalar,
    C: Fn(Point, Point, Point) -> Scalar,
>(
    obstacles: Seq<Obstacle>,
    pos: Point,
    ahead: A,
    deflect: F,
    cross: C,
    heading: Scalar,
    r: Scalar,
)
    requires
        avoids(obstacles, pos, ahead, deflect, cross, heading, r),
        r != heading,
    ensures
        heading_is(obstacles, pos, ahead, cross, heading, false),
        heading_is(obstacles, pos, ahead, cross, r, true),
{
}

/// The course is not corrected for the stream while the boat waits at a gate
/// or works to windward, nor in still water.
pub proof fn law_no_correction_while_holding_or_tacking(
    crab_enabled: bool,
    current: Point,
    p: Progress,
)
    requires
        p.waiting || p.tack != Tack::Direct || (current.0.same(Scalar { bits: 0 })
            && current.1.same(Scalar { bits: 0 })),
    ensures
        !corrects(crab_enabled, current, p),
{
}

/// The mission is reported complete only once the route is, and always from a
/// complete route.
pub proof fn law_mission_ends_with_the_route<
    S: Fn(Scalar) -> Scalar,
    N: Fn(&RouteFollower) -> Tick,
    A: Fn(Scalar) -> Point,
    F: Fn(Scalar, usize, bool) -> Scalar,
    R: Fn(Scalar) -> Scalar,
    W: Fn(Scalar, Scalar) -> Scalar,
    P: Fn(Scalar, Scalar) -> Scalar,
    Q: Fn(Scalar, Scalar, Scalar) -> Scalar,
    U: Fn(Scalar, Scalar, Scalar) -> Scalar,
    B: Fn() -> Scalar,
    V: Fn(Scalar) -> Scalar,
    X: Fn(Scalar) -> Scalar,
    T: Fn(PlanConfig, usize) -> Scalar,
    G: Fn(Scalar) -> Scalar,
    L: Fn(Scalar, Sample, Sample) -> Scalar,
    D: Fn(PlanConfig, Reach) -> Scalar,
    M: Fn(PlanConfig, Node, usize, Scalar) -> Reach,
    C: Fn(Point, Point, Point) -> Scalar,
    O: Fn(Point, Point, Point) -> Scalar,
    E: Fn(Scalar, Point, Point) -> Scalar,
>(
    a: RouteAutopilot,
    obs: Observation,
    senses: Senses<S, N, A, F, R, W>,
    controls: Controls<P, Q, U, B, V, X>,
    pilot: Pilotage<T, G, L, D, M, C, O, E>,
    b: RouteAutopilot,
    cmd: Command,
)
    requires
        a.inv(),
        stepped(a, obs, senses, controls, pilot, b, cmd),
    ensures
        cmd.mission_complete ==> b.follower.progress().finished,
        a.follower.progress().finished ==> cmd.mission_complete,
        cmd.mission_complete ==> cmd.rudder_angle == (Scalar { bits: 0 }),
{
    let (f, h) = choose|f: RouteFollower, h: Option<Scalar>|
        {
            &&& #[trigger] advanced(senses.sight, a.follower, f, h)
            &&& match h {
                None => {
                    &&& b == (RouteAutopilot { follower: f, ..a })
                    &&& cmd == (Command {
                        rudder_angle: Scalar { bits: 0 },
                        sail_angle: sheeted(a.sail_side, a.last_sail_mag),
                        mission_complete: true,
                    })
                },
                Some(first) => steers(
                    RouteAutopilot { follower: f, ..a },
                    obs,
                    senses,
                    controls,
                    pilot,
                    first,
                    b,
                    cmd,
                ),
            }
        };
    let tick = choose|tick: Tick|
        {
            &&& #[trigger] call_ensures(senses.sight, (&a.follower,), tick)
            &&& f.course() == a.follower.course()
            &&& f.progress() == follow(a.follower.progress(), a.follower.course(), tick).0
            &&& h == follow(a.follower.progress(), a.follower.course(), tick).1
        };
    law_heading_until_complete(a.follower.progress(), a.follower.course(), tick);
}

/// Between two renewals of the trim the sail changes sides at most: its trim
/// stays.
pub proof fn law_trim_is_held_between_renewals<
    S: Fn(Scalar) -> Scalar,
    P: Fn(Scalar, Scalar) -> Scalar,
    Q: Fn(Scalar, Scalar, Scalar) -> Scalar,
    U: Fn(Scalar, Scalar, Scalar) -> Scalar,
    B: Fn() -> Scalar,
    V: Fn(Scalar) -> Scalar,
    X: Fn(Scalar) -> Scalar,
>(
    a: RouteAutopilot,
    t: Scalar,
    since: S,
    controls: Controls<P, Q, U, B, V, X>,
    b: RouteAutopilot,
)
    requires
        trims(a, t, since, controls, b),
        forall|due: bool| #[trigger]
            trim_due(a.last_sail_t, a.sail_resample_period_s, since, due) ==> !due,
    ensures
        b.last_sail_mag == a.last_sail_mag,
        b.last_sail_t == a.last_sail_t,
{
}

/// A heading turned by `k` steps to a side is not clear.
pub open spec fn turn_fails<
    A: Fn(Scalar) -> Point,
    F: Fn(Scalar, usize, bool) -> Scalar,
    C: Fn(Point, Point, Point) -> Scalar,
>(
    obstacles: Seq<Obstacle>,
    pos: Point,
    ahead: A,
    deflect: F,
    cross: C,
    heading: Scalar,
    k: usize,
    port: bool,
) -> bool {
    exists|h: Scalar| #[trigger]
        call_ensures(deflect, (heading, k, port), h) && heading_is(
            obstacles,
            pos,
            ahead,
            cross,
            h,
            false,
        )
}

/// Where the wanted heading is not clear and one that is turned by `k` steps to
/// some side is, the heading taken is clear itself. It is turned by no more steps
/// than that, and every heading that is turned by fewer steps, to either side, is
/// not clear. Of two that are turned alike, port comes first.
pub proof fn law_least_turn_that_clears_is_taken<
    A: Fn(Scalar) -> Point,
    F: Fn(Scalar, usize, bool) -> Scalar,
    C: Fn(Point, Point, Point) -> Scalar,
>(
    obstacles: Seq<Obstacle>,
    pos: Point,
    ahead: A,
    deflect: F,
    cross: C,
    heading: Scalar,
    r: Scalar,
    k: usize,
    port: bool,
    clear: Scalar,
) -> (taken: (usize, bool))
    requires
        avoids(obstacles, pos, ahead, deflect, cross, heading, r),
        obstacles.len() > 0,
        !heading_is(obstacles, pos, ahead, cross, heading, true),
        1 <= k <= 10,
        forall|h: Scalar| #[trigger] call_ensures(deflect, (heading, k, port), h) ==> h == clear,
        !heading_is(obstacles, pos, ahead, cross, clear, false),
    ensures
        1 <= taken.0 <= k,
        port && taken.0 == k ==> taken.1,
        call_ensures(deflect, (heading, taken.0, taken.1), r),
        heading_is(obstacles, pos, ahead, cross, r, true),
        forall|fewer: usize, side: bool|
            1 <= fewer < taken.0 ==> #[trigger] turn_fails(
                obstacles,
                pos,
                ahead,
                deflect,
                cross,
                heading,
                fewer,
                side,
            ),
{
    let steps = 2 * (k - 1) + (if port {
        0int
    } else {
        1int
    });
    assert(steps / 2 + 1 == k && (steps % 2 == 0) == port);
    assert(!fails(obstacles, pos, ahead, deflect, cross, heading, steps)) by {
        if fails(obstacles, pos, ahead, deflect, cross, heading, steps) {
            let h = choose|h: Scalar| #[trigger]
                tried(obstacles, pos, ahead, deflect, cross, heading, steps, h, false);
            assert(h == clear);
        }
    }
    let j = choose|j: int|
        {
            &&& 0 <= j < 2 * DEFLECTIONS
            &&& #[trigger] tried(obstacles, pos, ahead, deflect, cross, heading, j, r, true)
            &&& none_clear(obstacles, pos, ahead, deflect, cross, heading, j)
        };
    assert(j <= steps);
    let most = (j / 2 + 1) as usize;
    assert forall|fewer: usize, side: bool| 1 <= fewer < most implies #[trigger] turn_fails(
        obstacles,
        pos,
        ahead,
        deflect,
        cross,
        heading,
        fewer,
        side,
    ) by {
        let i = 2 * (fewer - 1) + (if side {
            0int
        } else {
            1int
        });
        assert(i / 2 + 1 == fewer && (i % 2 == 0) == side);
        assert(fails(obstacles, pos, ahead, deflect, cross, heading, i));
        let h = choose|h: Scalar| #[trigger]
            tried(obstacles, pos, ahead, deflect, cross, heading, i, h, false);
        assert(call_ensures(deflect, (heading, fewer, side), h));
    }
    (most, j % 2 == 0)
}

/// A clear heading is steered as it is, and so is a heading that no turn clears:
/// not one of the ten to port and not one of the ten to starboard.
pub proof fn law_heading_is_kept_where_clear_or_boxed_in<
    A: Fn(Scalar) -> Point,
    F: Fn(Scalar, usize, bool) -> Scalar,
    C: Fn(Point, Point, Point) -> Scalar,
>(
    obstacles: Seq<Obstacle>,
    pos: Point,
    ahead: A,
    deflect: F,
    cross: C,
    heading: Scalar,
    r: Scalar,
)
    requires
        avoids(obstacles, pos, ahead, deflect, cross, heading, r),
        !heading_is(obstacles, pos, ahead, cross, heading, false) || forall|
            k: usize,
            port: bool,
            h: Scalar,
        |
            1 <= k <= 10 && #[trigger] call_ensures(deflect, (heading, k, port), h) ==> !heading_is(
                obstacles,
                pos,
                ahead,
                cross,
                h,
                true,
            ),
    ensures
        r == heading,
{
    if r != heading {
        let j = choose|j: int|
            {
                &&& 0 <= j < 2 * DEFLECTIONS
                &&& #[trigger] tried(obstacles, pos, ahead, deflect, cross, heading, j, r, true)
                &&& none_clear(obstacles, pos, ahead, deflect, cross, heading, j)
            };
        let k = (j / 2 + 1) as usize;
        assert(1 <= k <= 10);
        assert(call_ensures(deflect, (heading, k, j % 2 == 0), r));
    }
}

/// A heading on which the stretch from the boat to where it leads crosses an edge
/// of an obstacle is not clear, as long as the cross products have the right sign
/// and each obstacle has the bounds of its points.
pub proof fn law_clear_heading_crosses_no_obstacle<
    A: Fn(Scalar) -> Point,
    C: Fn(Point, Point, Point) -> Scalar,
>(
    obstacles: Seq<Obstacle>,
    pos: Point,
    ahead: A,
    cross: C,
    heading: Scalar,
    end: Point,
    clear: bool,
    k: int,
    i: int,
    j: int,
)
    requires
        heading_is(obstacles, pos, ahead, cross, heading, clear),
        forall|e: Point| #[trigger] call_ensures(ahead, (heading,), e) ==> e == end,
        tells_sides(cross),
        finite(pos) && finite(end),
        forall|k: int, j: int|
            0 <= k < obstacles.len() && 0 <= j < obstacles[k].pts@.len() ==> finite(
                #[trigger] obstacles[k].pts@[j],
            ),
        forall|k: int|
            0 <= k < obstacles.len() ==> (#[trigger] obstacles[k]).bbox == hull(
                no_bounds(),
                obstacles[k].pts@,
            ),
        0 <= k < obstacles.len(),
        0 <= i < obstacles[k].pts@.len(),
        0 <= j < obstacles[k].pts@.len(),
        j == i + 1 || (obstacles[k].closed && i == obstacles[k].pts@.len() - 1 && j == 0 && i > 0),
        truly_cross(pos, end, obstacles[k].pts@[i], obstacles[k].pts@[j]),
    ensures
        !clear,
{
    let e = choose|e: Point| #[trigger]
        call_ensures(ahead, (heading,), e) && obstructed(cross, pos, e, obstacles, !clear);
    assert(e == end);
    law_obstruction_is_told(cross, pos, end, obstacles, !clear);
    if clear {
        assert(!truly_cross(pos, end, obstacles[k].pts@[i], obstacles[k].pts@[j]));
    }
}

/// The course is corrected for the stream where that is asked for, there is a
/// stream along either axis, and the boat neither waits at a gate nor tacks; it is
/// left alone otherwise.
pub proof fn law_course_is_corrected_under_way(crab_enabled: bool, current: Point, p: Progress)
    ensures
        corrects(crab_enabled, current, p) <==> {
            &&& crab_enabled
            &&& !(current.0.same(Scalar { bits: 0 }) && current.1.same(Scalar { bits: 0 }))
            &&& !p.waiting
            &&& p.tack == Tack::Direct
        },
{
}

/// The trim is renewed at first, and then whenever the resampling period has
/// passed since the last renewal; before that it is held. The side of the sail
/// follows the wind every time, and nothing else changes.
pub proof fn law_trim_is_renewed_when_due<
    S: Fn(Scalar) -> Scalar,
    P: Fn(Scalar, Scalar) -> Scalar,
    Q: Fn(Scalar, Scalar, Scalar) -> Scalar,
    U: Fn(Scalar, Scalar, Scalar) -> Scalar,
    B: Fn() -> Scalar,
    V: Fn(Scalar) -> Scalar,
    X: Fn(Scalar) -> Scalar,
>(
    a: RouteAutopilot,
    t: Scalar,
    since: S,
    controls: Controls<P, Q, U, B, V, X>,
    b: RouteAutopilot,
    age: Scalar,
)
    requires
        trims(a, t, since, controls, b),
        a.last_sail_t is Some ==> forall|x: Scalar| #[trigger]
            call_ensures(since, (a.last_sail_t->0,), x) ==> x == age,
        !age.nan() && !a.sail_resample_period_s.nan(),
    ensures
        a.last_sail_t is None || a.sail_resample_period_s.at_most(age) ==> b.last_sail_t == Some(t)
            && trimmed(
            controls.apparent_angle,
            controls.apparent_speed,
            a.last_sail_mag,
            controls.attack,
            controls.ease,
            controls.open,
            b.last_sail_mag,
        ),
        a.last_sail_t is Some && age.below(a.sail_resample_period_s) ==> b.last_sail_t
            == a.last_sail_t && b.last_sail_mag == a.last_sail_mag,
        b.sail_side == sail_side(controls.apparent_angle, a.sail_side),
        b.follower == a.follower,
        b.helm == a.helm,
        b.replan == a.replan,
        b.obstacles == a.obstacles,
        b.sail_resample_period_s == a.sail_resample_period_s,
        b.crab_enabled == a.crab_enabled,
{
}

/// A boat that waits at a gate is left to wait until the wait is long enough,
/// counted from the tick on which it was first seen to wait.
pub proof fn law_short_wait_is_waited_out<
    S: Fn(Scalar) -> Scalar,
    T: Fn(PlanConfig, usize) -> Scalar,
    G: Fn(Scalar) -> Scalar,
    L: Fn(Scalar, Sample, Sample) -> Scalar,
    D: Fn(PlanConfig, Reach) -> Scalar,
    M: Fn(PlanConfig, Node, usize, Scalar) -> Reach,
    C: Fn(Point, Point, Point) -> Scalar,
    O: Fn(Point, Point, Point) -> Scalar,
    E: Fn(Scalar, Point, Point) -> Scalar,
>(
    a: RouteAutopilot,
    t: Scalar,
    pos: Point,
    since: S,
    pilot: Pilotage<T, G, L, D, M, C, O, E>,
    b: RouteAutopilot,
    replanned: bool,
    started: Scalar,
    age: Scalar,
)
    requires
        replans(a, t, pos, since, pilot, b, replanned),
        a.replan is Some,
        a.follower.progress().waiting,
        a.replan->0.wait_started_t is Some ==> started == a.replan->0.wait_started_t->0,
        a.replan->0.wait_started_t is None ==> started == t,
        forall|x: Scalar| #[trigger] call_ensures(since, (started,), x) ==> x == age,
        age.below(a.replan->0.after_wait_s),
    ensures
        !replanned,
        b.follower == a.follower,
        b.replan is Some,
        b.replan->0.wait_started_t == Some(started),
{
}

/// Once a boat has waited long enough a new plan is made, from where it is to
/// where the route ends. Where one is found the route is replaced and the wait
/// forgotten; where none is, the wait is counted anew. What it takes to plan stays.
pub proof fn law_long_wait_makes_a_new_plan<
    S: Fn(Scalar) -> Scalar,
    T: Fn(PlanConfig, usize) -> Scalar,
    G: Fn(Scalar) -> Scalar,
    L: Fn(Scalar, Sample, Sample) -> Scalar,
    D: Fn(PlanConfig, Reach) -> Scalar,
    M: Fn(PlanConfig, Node, usize, Scalar) -> Reach,
    C: Fn(Point, Point, Point) -> Scalar,
    O: Fn(Point, Point, Point) -> Scalar,
    E: Fn(Scalar, Point, Point) -> Scalar,
>(
    a: RouteAutopilot,
    t: Scalar,
    pos: Point,
    since: S,
    pilot: Pilotage<T, G, L, D, M, C, O, E>,
    b: RouteAutopilot,
    replanned: bool,
    started: Scalar,
    age: Scalar,
    land: Seq<ChartPolygon>,
    cfg: PlanConfig,
)
    requires
        land == (match a.replan->0.chart {
            Some(c) => c.polygons@,
            None => Seq::empty(),
        }),
        cfg == passage_spec(
            pos,
            (
                a.follower.course().waypoints@.last().x,
                a.follower.course().waypoints@.last().y,
            ),
            a.replan->0.wind_from,
            t,
            a.replan->0.dest_radius,
        ),
        replans(a, t, pos, since, pilot, b, replanned),
        a.replan is Some,
        a.follower.progress().waiting,
        a.replan->0.wait_started_t is Some ==> started == a.replan->0.wait_started_t->0,
        a.replan->0.wait_started_t is None ==> started == t,
        forall|x: Scalar| #[trigger] call_ensures(since, (started,), x) ==> x == age,
        a.replan->0.after_wait_s.at_most(age),
    ensures
        b.replan is Some,
        b.replan->0 == (ReplanContext {
            wait_started_t: b.replan->0.wait_started_t,
            ..a.replan->0
        }),
        replanned ==> b.replan->0.wait_started_t is None,
        !replanned ==> b.replan->0.wait_started_t == Some(t) && b.follower == a.follower,
        exists|found: Option<PlanResult>|
            {
                &&& #[trigger] pilot.planned(cfg, a.replan->0.polar.samples(), land, found)
                &&& replanned == found is Some
            },
        b.helm == a.helm,
        b.obstacles == a.obstacles,
{
    let ctx = a.replan->0;
    let wait = b.replan->0.wait_started_t;
    assert(waited(ctx, a.follower, t, pos, since, pilot, started, b.follower, wait, replanned));
    let found = choose|found: Option<PlanResult>|
        {
            &&& #[trigger] pilot.planned(cfg, ctx.polar.samples(), land, found)
            &&& match found {
                Some(p) => replanned && wait is None && swapped(
                    a.follower,
                    p,
                    pilot.offset,
                    b.follower,
                ),
                None => !replanned && b.follower == a.follower && wait == Some(t),
            }
        };
    assert(replanned == found is Some);
}

/// A boat that does not wait has its wait forgotten and sails on its route.
pub proof fn law_wait_is_forgotten_under_way<
    S: Fn(Scalar) -> Scalar,
    T: Fn(PlanConfig, usize) -> Scalar,
    G: Fn(Scalar) -> Scalar,
    L: Fn(Scalar, Sample, Sample) -> Scalar,
    D: Fn(PlanConfig, Reach) -> Scalar,
    M: Fn(PlanConfig, Node, usize, Scalar) -> Reach,
    C: Fn(Point, Point, Point) -> Scalar,
    O: Fn(Point, Point, Point) -> Scalar,
    E: Fn(Scalar, Point, Point) -> Scalar,
>(
    a: RouteAutopilot,
    t: Scalar,
    pos: Point,
    since: S,
    pilot: Pilotage<T, G, L, D, M, C, O, E>,
    b: RouteAutopilot,
    replanned: bool,
)
    requires
        replans(a, t, pos, since, pilot, b, replanned),
        a.replan is Some,
        !a.follower.progress().waiting,
    ensures
        !replanned,
        b.follower == a.follower,
        b.replan is Some,
        b.replan->0.wait_started_t is None,
{
}

/// A tick without replanning advances the follower by its sight, and, unless the
/// route is complete, works the rudder toward the follower's heading as taken off
/// the land and corrected for the stream, and stands the sail at its trim on its
/// side.
pub proof fn law_tick_steers_the_followers_heading<
    S: Fn(Scalar) -> Scalar,
    N: Fn(&RouteFollower) -> Tick,
    A: Fn(Scalar) -> Point,
    F: Fn(Scalar, usize, bool) -> Scalar,
    R: Fn(Scalar) -> Scalar,
    W: Fn(Scalar, Scalar) -> Scalar,
    P: Fn(Scalar, Scalar) -> Scalar,
    Q: Fn(Scalar, Scalar, Scalar) -> Scalar,
    U: Fn(Scalar, Scalar, Scalar) -> Scalar,
    B: Fn() -> Scalar,
    V: Fn(Scalar) -> Scalar,
    X: Fn(Scalar) -> Scalar,
    T: Fn(PlanConfig, usize) -> Scalar,
    G: Fn(Scalar) -> Scalar,
    L: Fn(Scalar, Sample, Sample) -> Scalar,
    D: Fn(PlanConfig, Reach) -> Scalar,
    M: Fn(PlanConfig, Node, usize, Scalar) -> Reach,
    C: Fn(Point, Point, Point) -> Scalar,
    O: Fn(Point, Point, Point) -> Scalar,
    E: Fn(Scalar, Point, Point) -> Scalar,
>(
    a: RouteAutopilot,
    obs: Observation,
    senses: Senses<S, N, A, F, R, W>,
    controls: Controls<P, Q, U, B, V, X>,
    pilot: Pilotage<T, G, L, D, M, C, O, E>,
    b: RouteAutopilot,
    cmd: Command,
    tick: Tick,
)
    requires
        stepped(a, obs, senses, controls, pilot, b, cmd),
        a.sail_side == (Scalar { bits: ONE_BITS }) || a.sail_side == (Scalar {
            bits: ONE_BITS,
        }).flipped(),
        a.replan is None,
        forall|x: Tick| #[trigger] call_ensures(senses.sight, (&a.follower,), x) ==> x == tick,
    ensures
        ({
            let (q, h) = follow(a.follower.progress(), a.follower.course(), tick);
            let zero = Scalar { bits: 0 };
            &&& b.follower.progress() == q
            &&& b.follower.course() == a.follower.course()
            &&& b.obstacles == a.obstacles
            &&& cmd.mission_complete == h is None
            &&& h is None ==> b.helm == a.helm && cmd.rudder_angle == zero
            &&& b.sail_side == (Scalar { bits: ONE_BITS }) ==> cmd.sail_angle == b.last_sail_mag
            &&& b.sail_side == (Scalar { bits: ONE_BITS }).flipped() ==> cmd.sail_angle
                == b.last_sail_mag.flipped()
            &&& h is Some ==> exists|course: Scalar, href: Scalar|
                {
                    &&& #[trigger] avoids(
                        a.obstacles@,
                        (obs.pos_x, obs.pos_y),
                        senses.ahead,
                        senses.deflect,
                        pilot.cross,
                        h->0,
                        course,
                    )
                    &&& #[trigger] controlled(
                        a.helm,
                        href,
                        controls.speed,
                        controls.integrate,
                        controls.law,
                        controls.unwind,
                        b.helm,
                        cmd.rudder_angle,
                    )
                    &&& if a.crab_enabled && !(obs.current.0.same(zero) && obs.current.1.same(zero))
                        && !q.waiting && q.tack == Tack::Direct {
                        crabbed(course, senses.water_speed, senses.ratio, senses.turn, href)
                    } else {
                        href == course
                    }
                }
            &&& h is Some ==> b.sail_side == sail_side(controls.apparent_angle, a.sail_side)
        }),
{
    let (f, h) = choose|f: RouteFollower, h: Option<Scalar>|
        {
            &&& #[trigger] advanced(senses.sight, a.follower, f, h)
            &&& match h {
                None => {
                    &&& b == (RouteAutopilot { follower: f, ..a })
                    &&& cmd == (Command {
                        rudder_angle: Scalar { bits: 0 },
                        sail_angle: sheeted(a.sail_side, a.last_sail_mag),
                        mission_complete: true,
                    })
                },
                Some(first) => steers(
                    RouteAutopilot { follower: f, ..a },
                    obs,
                    senses,
                    controls,
                    pilot,
                    first,
                    b,
                    cmd,
                ),
            }
        };
    let seen = choose|x: Tick|
        {
            &&& #[trigger] call_ensures(senses.sight, (&a.follower,), x)
            &&& f.course() == a.follower.course()
            &&& f.progress() == follow(a.follower.progress(), a.follower.course(), x).0
            &&& h == follow(a.follower.progress(), a.follower.course(), x).1
        };
    assert(seen == tick);
    if h is Some {
        let mid = RouteAutopilot { follower: f, ..a };
        let (d, desired) = choose|d: RouteAutopilot, desired: Scalar|
            {
                &&& #[trigger] resolved(mid, obs, senses, pilot, h->0, d, desired)
                &&& worked(d, obs, senses, controls, pilot.cross, desired, b, cmd)
            };
        let (c, replanned) = choose|c: RouteAutopilot, replanned: bool|
            {
                &&& #[trigger] replans(
                    mid,
                    obs.t,
                    (obs.pos_x, obs.pos_y),
                    senses.since,
                    pilot,
                    c,
                    replanned,
                )
                &&& d == (RouteAutopilot { follower: d.follower, ..c })
                &&& asked_again(senses.sight, replanned, c.follower, h->0, d.follower, desired)
            };
        assert(d == mid && desired == h->0);
        let href = choose|href: Scalar|
            {
                &&& #[trigger] referred(d, obs, senses, pilot.cross, desired, href)
                &&& controls.steered(d.helm, href, b.helm, cmd.rudder_angle)
                &&& trims(
                    RouteAutopilot { helm: b.helm, ..d },
                    obs.t,
                    senses.since,
                    controls,
                    b,
                )
                &&& cmd.sail_angle == sheeted(b.sail_side, b.last_sail_mag)
                &&& !cmd.mission_complete
            };
        let course = choose|course: Scalar|
            {
                &&& #[trigger] avoids(
                    d.obstacles@,
                    (obs.pos_x, obs.pos_y),
                    senses.ahead,
                    senses.deflect,
                    pilot.cross,
                    desired,
                    course,
                )
                &&& if corrects(d.crab_enabled, obs.current, d.follower.progress()) {
                    crabbed(course, senses.water_speed, senses.ratio, senses.turn, href)
                } else {
                    href == course
                }
            };
        assert(avoids(
            a.obstacles@,
            (obs.pos_x, obs.pos_y),
            senses.ahead,
            senses.deflect,
            pilot.cross,
            h->0,
            course,
        ));
        assert(controlled(
            a.helm,
            href,
            controls.speed,
            controls.integrate,
            controls.law,
            controls.unwind,
            b.helm,
            cmd.rudder_angle,
        ));
    }
}

/// A new route is the plan that was found, from where the boat is to where the old
/// route ended, thinned to 250 m: its points are points of the plan in their order,
/// the ends hard and the others fly-bys, none of them a gate. The boat is at its
/// beginning, under way and on no tack, and every setting of the route stays.
pub proof fn law_new_route_is_the_thinned_plan<
    S: Fn(Scalar) -> Scalar,
    T: Fn(PlanConfig, usize) -> Scalar,
    G: Fn(Scalar) -> Scalar,
    L: Fn(Scalar, Sample, Sample) -> Scalar,
    D: Fn(PlanConfig, Reach) -> Scalar,
    M: Fn(PlanConfig, Node, usize, Scalar) -> Reach,
    C: Fn(Point, Point, Point) -> Scalar,
    O: Fn(Point, Point, Point) -> Scalar,
    E: Fn(Scalar, Point, Point) -> Scalar,
>(
    a: RouteAutopilot,
    t: Scalar,
    pos: Point,
    since: S,
    pilot: Pilotage<T, G, L, D, M, C, O, E>,
    b: RouteAutopilot,
    land: Seq<ChartPolygon>,
    cfg: PlanConfig,
) -> (plan: (PlanResult, Seq<usize>))
    requires
        land == (match a.replan->0.chart {
            Some(c) => c.polygons@,
            None => Seq::empty(),
        }),
        cfg == passage_spec(
            pos,
            (
                a.follower.course().waypoints@.last().x,
                a.follower.course().waypoints@.last().y,
            ),
            a.replan->0.wind_from,
            t,
            a.replan->0.dest_radius,
        ),
        replans(a, t, pos, since, pilot, b, true),
    ensures
        a.replan is Some && a.follower.progress().waiting,
        pilot.planned(cfg, a.replan->0.polar.samples(), land, Some(plan.0)),
        simplified(
            plan.0.path@,
            pilot.offset,
            Scalar { bits: 0x406f_4000_0000_0000 },
            plan.1,
        ),
        ({
            let after = b.follower.course().waypoints@;
            &&& after.len() == plan.1.len()
            &&& forall|i: int|
                0 <= i < after.len() ==> {
                    &&& (#[trigger] after[i]).x == plan.0.path@[plan.1[i] as int].0
                    &&& after[i].y == plan.0.path@[plan.1[i] as int].1
                    &&& after[i].soft == (0 < i < after.len() - 1)
                    &&& !after[i].gate
                }
        }),
        b.follower.course() == (Route {
            waypoints: b.follower.course().waypoints,
            ..a.follower.course()
        }),
        b.follower.progress().leg == 0,
        b.follower.progress().tack == Tack::Direct,
        !b.follower.progress().waiting,
        !b.follower.progress().finished,
        b.follower.progress().departed,
{
    let ctx = a.replan->0;
    let found = choose|found: Option<PlanResult>|
        {
            &&& #[trigger] pilot.planned(cfg, ctx.polar.samples(), land, found)
            &&& match found {
                Some(p) => b.replan->0.wait_started_t is None && swapped(
                    a.follower,
                    p,
                    pilot.offset,
                    b.follower,
                ),
                None => false,
            }
        };
    let p = found->0;
    let kept = choose|kept: Seq<usize>|
        {
            &&& #[trigger] simplified(
                p.path@,
                pilot.offset,
                Scalar { bits: PASSAGE_TOLERANCE },
                kept,
            )
            &&& b.follower.course() == (Route {
                waypoints: b.follower.course().waypoints,
                ..a.follower.course()
            })
            &&& b.follower.course().waypoints@ == free_course(
                Seq::new(kept.len(), |k: int| p.path@[kept[k] as int]),
            )
            &&& b.follower.progress() == (Progress {
                leg: 0,
                tack: Tack::Direct,
                waiting: false,
                departed: true,
                finished: false,
                ..a.follower.progress()
            })
        };
    (p, kept)
}

/// A follower sees one tick and no other.
pub open spec fn only_sees<N: Fn(&RouteFollower) -> Tick>(
    sight: N,
    follower: RouteFollower,
    tick: Tick,
) -> bool {
    forall|x: Tick| #[trigger] call_ensures(sight, (&follower,), x) ==> x == tick
}

/// Within a tick the follower is advanced first, and a held gate is seen to after it.
/// Where that gave a new route the follower is advanced again, and its new heading is
/// the one that is wanted, if it has one; otherwise it is the first one. What is wanted
/// is taken off the land and corrected for the stream, and the rudder is worked toward
/// that.
pub proof fn law_new_route_is_followed_at_once<
    S: Fn(Scalar) -> Scalar,
    N: Fn(&RouteFollower) -> Tick,
    A: Fn(Scalar) -> Point,
    F: Fn(Scalar, usize, bool) -> Scalar,
    R: Fn(Scalar) -> Scalar,
    W: Fn(Scalar, Scalar) -> Scalar,
    P: Fn(Scalar, Scalar) -> Scalar,
    Q: Fn(Scalar, Scalar, Scalar) -> Scalar,
    U: Fn(Scalar, Scalar, Scalar) -> Scalar,
    B: Fn() -> Scalar,
    V: Fn(Scalar) -> Scalar,
    X: Fn(Scalar) -> Scalar,
    T: Fn(PlanConfig, usize) -> Scalar,
    G: Fn(Scalar) -> Scalar,
    L: Fn(Scalar, Sample, Sample) -> Scalar,
    D: Fn(PlanConfig, Reach) -> Scalar,
    M: Fn(PlanConfig, Node, usize, Scalar) -> Reach,
    C: Fn(Point, Point, Point) -> Scalar,
    O: Fn(Point, Point, Point) -> Scalar,
    E: Fn(Scalar, Point, Point) -> Scalar,
>(
    a: RouteAutopilot,
    obs: Observation,
    senses: Senses<S, N, A, F, R, W>,
    controls: Controls<P, Q, U, B, V, X>,
    pilot: Pilotage<T, G, L, D, M, C, O, E>,
    b: RouteAutopilot,
    cmd: Command,
    tick: Tick,
    first: Scalar,
) -> (went: (RouteAutopilot, RouteAutopilot, bool, Scalar, Scalar, Scalar))
    requires
        stepped(a, obs, senses, controls, pilot, b, cmd),
        only_sees(senses.sight, a.follower, tick),
        follow(a.follower.progress(), a.follower.course(), tick).1 == Some(first),
    ensures
        ({
            let (mid, seen_to, replanned, desired, course, href) = went;
            let zero = Scalar { bits: 0 };
            let q = b.follower.progress();
            &&& mid.follower.progress() == follow(
                a.follower.progress(),
                a.follower.course(),
                tick,
            ).0
            &&& mid.follower.course() == a.follower.course()
            &&& mid.replan == a.replan
            &&& replans(
                mid,
                obs.t,
                (obs.pos_x, obs.pos_y),
                senses.since,
                pilot,
                seen_to,
                replanned,
            )
            &&& b.replan == seen_to.replan
            &&& b.obstacles == a.obstacles
            &&& !replanned ==> desired == first && b.follower == seen_to.follower
            &&& replanned ==> forall|again: Tick| #[trigger]
                only_sees(senses.sight, seen_to.follower, again) ==> {
                    let next = follow(
                        seen_to.follower.progress(),
                        seen_to.follower.course(),
                        again,
                    );
                    &&& q == next.0
                    &&& b.follower.course() == seen_to.follower.course()
                    &&& next.1 is Some ==> desired == next.1->0
                    &&& next.1 is None ==> desired == first
                }
            &&& avoids(
                a.obstacles@,
                (obs.pos_x, obs.pos_y),
                senses.ahead,
                senses.deflect,
                pilot.cross,
                desired,
                course,
            )
            &&& if a.crab_enabled && !(obs.current.0.same(zero) && obs.current.1.same(zero))
                && !q.waiting && q.tack == Tack::Direct {
                crabbed(course, senses.water_speed, senses.ratio, senses.turn, href)
            } else {
                href == course
            }
            &&& controlled(
                a.helm,
                href,
                controls.speed,
                controls.integrate,
                controls.law,
                controls.unwind,
                b.helm,
                cmd.rudder_angle,
            )
            &&& b.sail_side == sail_side(controls.apparent_angle, a.sail_side)
            &&& !cmd.mission_complete
        }),
{
    let (f, h) = choose|f: RouteFollower, h: Option<Scalar>|
        {
            &&& #[trigger] advanced(senses.sight, a.follower, f, h)
            &&& match h {
                None => {
                    &&& b == (RouteAutopilot { follower: f, ..a })
                    &&& cmd == (Command {
                        rudder_angle: Scalar { bits: 0 },
                        sail_angle: sheeted(a.sail_side, a.last_sail_mag),
                        mission_complete: true,
                    })
                },
                Some(first) => steers(
                    RouteAutopilot { follower: f, ..a },
                    obs,
                    senses,
                    controls,
                    pilot,
                    first,
                    b,
                    cmd,
                ),
            }
        };
    let seen = choose|x: Tick|
        {
            &&& #[trigger] call_ensures(senses.sight, (&a.follower,), x)
            &&& f.course() == a.follower.course()
            &&& f.progress() == follow(a.follower.progress(), a.follower.course(), x).0
            &&& h == follow(a.follower.progress(), a.follower.course(), x).1
        };
    assert(seen == tick);
    let mid = RouteAutopilot { follower: f, ..a };
    let (d, desired) = choose|d: RouteAutopilot, desired: Scalar|
        {
            &&& #[trigger] resolved(mid, obs, senses, pilot, first, d, desired)
            &&& worked(d, obs, senses, controls, pilot.cross, desired, b, cmd)
        };
    let (c, replanned) = choose|c: RouteAutopilot, replanned: bool|
        {
            &&& #[trigger] replans(
                mid,
                obs.t,
                (obs.pos_x, obs.pos_y),
                senses.since,
                pilot,
                c,
                replanned,
            )
            &&& d == (RouteAutopilot { follower: d.follower, ..c })
            &&& asked_again(senses.sight, replanned, c.follower, first, d.follower, desired)
        };
    let (course, href) = lemma_work_is_told(d, obs, senses, controls, pilot.cross, desired, b, cmd);
    assert(d.obstacles == a.obstacles && d.helm == a.helm && d.sail_side == a.sail_side);
    if replanned {
        assert forall|again: Tick| #[trigger]
            only_sees(senses.sight, c.follower, again) implies {
            let next = follow(c.follower.progress(), c.follower.course(), again);
            &&& d.follower.progress() == next.0
            &&& d.follower.course() == c.follower.course()
            &&& next.1 is Some ==> desired == next.1->0
            &&& next.1 is None ==> desired == first
        } by {
            let h2 = choose|h: Option<Scalar>| #[trigger]
                advanced(senses.sight, c.follower, d.follower, h) && desired == (match h {
                    Some(again) => again,
                    None => first,
                });
            let x = choose|x: Tick|
                {
                    &&& #[trigger] call_ensures(senses.sight, (&c.follower,), x)
                    &&& d.follower.course() == c.follower.course()
                    &&& d.follower.progress() == follow(
                        c.follower.progress(),
                        c.follower.course(),
                        x,
                    ).0
                    &&& h2 == follow(c.follower.progress(), c.follower.course(), x).1
                };
            assert(x == again);
        }
    }
    (mid, c, replanned, desired, course, href)
}

proof fn lemma_work_is_told<
    S: Fn(Scalar) -> Scalar,
    N: Fn(&RouteFollower) -> Tick,
    A: Fn(Scalar) -> Point,
    F: Fn(Scalar, usize, bool) -> Scalar,
    R: Fn(Scalar) -> Scalar,
    W: Fn(Scalar, Scalar) -> Scalar,
    P: Fn(Scalar, Scalar) -> Scalar,
    Q: Fn(Scalar, Scalar, Scalar) -> Scalar,
    U: Fn(Scalar, Scalar, Scalar) -> Scalar,
    B: Fn() -> Scalar,
    V: Fn(Scalar) -> Scalar,
    X: Fn(Scalar) -> Scalar,
    C: Fn(Point, Point, Point) -> Scalar,
>(
    d: RouteAutopilot,
    obs: Observation,
    senses: Senses<S, N, A, F, R, W>,
    controls: Controls<P, Q, U, B, V, X>,
    cross: C,
    desired: Scalar,
    b: RouteAutopilot,
    cmd: Command,
) -> (r: (Scalar, Scalar))
    requires
        worked(d, obs, senses, controls, cross, desired, b, cmd),
    ensures
        avoids(
            d.obstacles@,
            (obs.pos_x, obs.pos_y),
            senses.ahead,
            senses.deflect,
            cross,
            desired,
            r.0,
        ),
        if corrects(d.crab_enabled, obs.current, d.follower.progress()) {
            crabbed(r.0, senses.water_speed, senses.ratio, senses.turn, r.1)
        } else {
            r.1 == r.0
        },
        controlled(
            d.helm,
            r.1,
            controls.speed,
            controls.integrate,
            controls.law,
            controls.unwind,
            b.helm,
            cmd.rudder_angle,
        ),
        b.follower == d.follower,
        b.replan == d.replan,
        b.obstacles == d.obstacles,
        b.sail_side == sail_side(controls.apparent_angle, d.sail_side),
        !cmd.mission_complete,
{
    let href = choose|href: Scalar|
        {
            &&& #[trigger] referred(d, obs, senses, cross, desired, href)
            &&& controls.steered(d.helm, href, b.helm, cmd.rudder_angle)
            &&& trims(
                RouteAutopilot { helm: b.helm, ..d },
                obs.t,
                senses.since,
                controls,
                b,
            )
            &&& cmd.sail_angle == sheeted(b.sail_side, b.last_sail_mag)
            &&& !cmd.mission_complete
        };
    let course = choose|course: Scalar|
        {
            &&& #[trigger] avoids(
                d.obstacles@,
                (obs.pos_x, obs.pos_y),
                senses.ahead,
                senses.deflect,
                cross,
                desired,
                course,
            )
            &&& if corrects(d.crab_enabled, obs.current, d.follower.progress()) {
                crabbed(course, senses.water_speed, senses.ratio, senses.turn, href)
            } else {
                href == course
            }
        };
    (course, href)
}

/// Ten turns to either side are tried.
pub proof fn law_ten_turns_are_tried()
    ensures
        DEFLECTIONS == 10,
{
}

} // verus!
