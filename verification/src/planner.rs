//! Isochrone route planner.
//!
//! A front of reachable points is pushed outward one time step at a time. From
//! each point of the front the boat fans out over all headings; a heading that
//! the boat cannot sail, or that would cross land, is dropped. What is left is
//! pruned: of the points in one lateral lane only the one with the most
//! progress toward the destination stays. The search ends as soon as a point
//! of the front lies close enough to the destination.
//!
//! Motion, distance and land are the caller's business: the search asks for
//! them.

use vstd::prelude::*;

use crate::coast::{
    edge_count, edge_end, finite, landfall, law_clear_stretch_crosses_no_edge,
    law_landfall_is_told, segment_hits_land, tells_sides, truly_cross, Chart, ChartPolygon,
};
use crate::polar::{folds, speed_spec, Polar, Sample};
use crate::scalar::{Point, Scalar, INFINITY_BITS};
use std::collections::HashMap;

verus! {

/// Pattern of a millionth: a heading that makes no more metres per second is
/// not sailed.
pub const LEAST_SPEED: u64 = 0x3eb0_c6f7_a0b5_ed8d;

/// What to plan, and how finely.
#[derive(Clone, Copy, Debug)]
pub struct PlanConfig {
    pub start: Point,
    pub dest: Point,
    /// Direction that the wind comes from.
    pub wind_from: Scalar,
    /// Time at which the plan starts.
    pub start_time: Scalar,
    pub dt: Scalar,
    pub heading_step_deg: Scalar,
    pub cross_track_bucket_m: Scalar,
    pub max_steps: usize,
    /// The destination is reached within this distance.
    pub dest_radius: Scalar,
}

/// Pattern of 600: the time step of a passage plan, in seconds.
pub const PASSAGE_STEP: u64 = 0x4082_c000_0000_0000;

/// Pattern of 5: the step between headings of a passage plan, in degrees.
pub const PASSAGE_HEADING_STEP: u64 = 0x4014_0000_0000_0000;

/// Pattern of 500: the width of a lane of a passage plan, in metres.
pub const PASSAGE_LANE: u64 = 0x407f_4000_0000_0000;

/// The most steps of a passage plan.
pub const PASSAGE_MAX_STEPS: usize = 800;

/// Pattern of 400: a passage plan never asks to come closer to the destination
/// than this, in metres.
pub const PASSAGE_LEAST_RADIUS: u64 = 0x4079_0000_0000_0000;

/// Pattern of 250: the tolerance, in metres, that a passage is thinned to.
pub const PASSAGE_TOLERANCE: u64 = 0x406f_4000_0000_0000;

/// The configuration of a passage plan.
pub open spec fn passage_spec(
    start: Point,
    dest: Point,
    wind_from: Scalar,
    start_time: Scalar,
    dest_radius: Scalar,
) -> PlanConfig {
    PlanConfig {
        start,
        dest,
        wind_from,
        start_time,
        dt: Scalar { bits: PASSAGE_STEP },
        heading_step_deg: Scalar { bits: PASSAGE_HEADING_STEP },
        cross_track_bucket_m: Scalar { bits: PASSAGE_LANE },
        max_steps: PASSAGE_MAX_STEPS,
        dest_radius,
    }
}

impl PlanConfig {
    /// The configuration of a passage plan.
    pub fn for_passage(
        start: Point,
        dest: Point,
        wind_from: Scalar,
        start_time: Scalar,
        dest_radius: Scalar,
    ) -> (r: PlanConfig)
        ensures
            r == passage_spec(start, dest, wind_from, start_time, dest_radius),
    {
        PlanConfig {
            start,
            dest,
            wind_from,
            start_time,
            dt: Scalar { bits: PASSAGE_STEP },
            heading_step_deg: Scalar { bits: PASSAGE_HEADING_STEP },
            cross_track_bucket_m: Scalar { bits: PASSAGE_LANE },
            max_steps: PASSAGE_MAX_STEPS,
            dest_radius,
        }
    }
}

/// How close a passage plan has to come to the destination: the acceptance
/// radius, but no closer than the least radius.
pub fn passage_radius(acceptance_radius: Scalar) -> (r: Scalar)
    ensures
        r == acceptance_radius.larger(Scalar { bits: PASSAGE_LEAST_RADIUS }),
{
    acceptance_radius.max(Scalar { bits: PASSAGE_LEAST_RADIUS })
}

/// Where one step of sailing leads.
#[derive(Clone, Copy, PartialEq, Eq, Structural, Debug)]
pub struct Reach {
    pub x: Scalar,
    pub y: Scalar,
    pub t: Scalar,
    /// Progress from the start toward the destination.
    pub along: Scalar,
    /// Lateral lane.
    pub bucket: i64,
}

impl Reach {
    /// The place alone.
    pub open spec fn at(self) -> Point {
        (self.x, self.y)
    }
}

/// A point of the search, and the point that it was reached from. The point at
/// index zero is the start.
#[derive(Clone, Copy, PartialEq, Eq, Structural, Debug)]
pub struct Node {
    pub place: Reach,
    pub parent: usize,
}

/// A planned passage.
#[derive(Debug)]
pub struct PlanResult {
    /// Points from start to destination, both included.
    pub path: Vec<Point>,
    /// Arrival time at each point of the path.
    pub times: Vec<Scalar>,
    /// Time to sail it.
    pub eta_s: Scalar,
    /// Length of the path.
    pub length_m: Scalar,
}

/// Every point but the start was reached from an earlier one.
pub open spec fn rooted(arena: Seq<Node>) -> bool {
    &&& arena.len() > 0
    &&& forall|i: int| 0 < i < arena.len() ==> (#[trigger] arena[i]).parent < i
}

/// The points from the start to point `end`.
pub open spec fn chain(arena: Seq<Node>, end: int) -> Seq<int>
    decreases end,
{
    if end <= 0 || !(0 <= arena[end].parent < end) {
        seq![end]
    } else {
        chain(arena, arena[end].parent as int).push(end)
    }
}

/// A chain starts at the start, ends at its end, stays in the arena, and leads
/// from each point to one that was reached from it.
pub proof fn lemma_chain(arena: Seq<Node>, end: int)
    requires
        rooted(arena),
        0 <= end < arena.len(),
    ensures
        ({
            let c = chain(arena, end);
            &&& c.len() > 0
            &&& c[0] == 0
            &&& c.last() == end
            &&& forall|i: int| 0 <= i < c.len() ==> 0 <= #[trigger] c[i] <= end
            &&& forall|i: int| 1 <= i < c.len() ==> arena[#[trigger] c[i]].parent == c[i - 1]
            &&& forall|i: int| 1 <= i < c.len() ==> 0 < #[trigger] c[i]
        }),
    decreases end,
{
    if end > 0 {
        lemma_chain(arena, arena[end].parent as int);
    }
}

/// Progress as a place in the order of all quantities, last for what is not a
/// number.
pub open spec fn gain(n: Node) -> int {
    if n.place.along.nan() {
        -(INFINITY_BITS as int)
    } else {
        n.place.along.rank()
    }
}

/// Point `i` is the one of its lane that stays, of the points from `lo` up to
/// `hi`: none gains more, and the first of those that gain as much.
pub open spec fn leads_lane(arena: Seq<Node>, lo: int, hi: int, i: int) -> bool {
    &&& lo <= i < hi
    &&& forall|j: int|
        lo <= j < hi && (#[trigger] arena[j]).place.bucket == arena[i].place.bucket ==> gain(
            arena[j],
        ) <= gain(arena[i]) && (j < i ==> gain(arena[j]) < gain(arena[i]))
}

/// The front holds the leader of every lane, once.
pub open spec fn isochrone(arena: Seq<Node>, lo: int, hi: int, front: Seq<usize>) -> bool {
    &&& front.no_duplicates()
    &&& forall|p: int| 0 <= p < front.len() ==> leads_lane(arena, lo, hi, #[trigger] front[p] as int)
    &&& forall|i: int| leads_lane(arena, lo, hi, i) ==> front.contains(i as usize)
}

/// Whether `a` gains more than `b`, where what is not a number gains nothing.
fn gains_more(a: &Node, b: &Node) -> (r: bool)
    ensures
        r == (gain(*b) < gain(*a)),
{
    let worst: Scalar = Scalar { bits: 0xfff0_0000_0000_0000 };
    if a.place.along.is_nan() {
        false
    } else if b.place.along.is_nan() {
        a.place.along.gt(worst)
    } else {
        a.place.along.gt(b.place.along)
    }
}

/// Keep of the points from `lo` on the leader of every lane.
fn prune(arena: &Vec<Node>, lo: usize) -> (front: Vec<usize>)
    requires
        lo <= arena@.len(),
    ensures
        isochrone(arena@, lo as int, arena@.len() as int, front@),
        lo < arena@.len() ==> front@.len() > 0,
{
    broadcast use vstd::std_specs::hash::group_hash_axioms;

    let n: usize = arena.len();
    let mut kept: Vec<usize> = Vec::new();
    let mut lanes: HashMap<i64, usize> = HashMap::new();
    let mut i: usize = lo;
    while i < n
        invariant
            lo <= i <= n,
            n == arena@.len(),
            forall|p: int|
                0 <= p < kept@.len() ==> {
                    &&& leads_lane(arena@, lo as int, i as int, #[trigger] kept@[p] as int)
                    &&& lanes@.contains_key(arena@[kept@[p] as int].place.bucket)
                    &&& lanes@[arena@[kept@[p] as int].place.bucket] == p
                },
            forall|b: i64| #[trigger]
                lanes@.contains_key(b) ==> lanes@[b] < kept@.len()
                    && arena@[kept@[lanes@[b] as int] as int].place.bucket == b,
            forall|j: int|
                lo <= j < i ==> lanes@.contains_key((#[trigger] arena@[j]).place.bucket),
            lo < i ==> kept@.len() > 0,
        decreases n - i,
    {
        let b: i64 = arena[i].place.bucket;
        match lanes.get(&b) {
            Some(p) => {
                let at: usize = *p;
                if gains_more(&arena[i], &arena[kept[at]]) {
                    kept.set(at, i);
                }
            },
            None => {
                let at: usize = kept.len();
                kept.push(i);
                lanes.insert(b, at);
            },
        }
        i = i + 1;
    }
    proof {
        assert forall|p: int, q: int|
            0 <= p < kept@.len() && 0 <= q < kept@.len() && p != q implies kept@[p] != kept@[q] by {
            assert(lanes@[arena@[kept@[p] as int].place.bucket] == p);
            assert(lanes@[arena@[kept@[q] as int].place.bucket] == q);
        }
        assert forall|k: int| leads_lane(arena@, lo as int, n as int, k) implies kept@.contains(
            k as usize,
        ) by {
            let b = arena@[k].place.bucket;
            assert(lanes@.contains_key(b));
            let m = kept@[lanes@[b] as int] as int;
            assert(leads_lane(arena@, lo as int, n as int, m));
            assert(m == k);
        }
    }
    kept
}

/// The points of a chain, and the destination behind them.
pub open spec fn path_of(arena: Seq<Node>, c: Seq<int>, dest: Point) -> Seq<Point> {
    Seq::new(c.len(), |i: int| (arena[c[i]].place.x, arena[c[i]].place.y)).push(dest)
}

/// The arrival times of a chain. The destination is reached with its last
/// point.
pub open spec fn times_of(arena: Seq<Node>, c: Seq<int>) -> Seq<Scalar> {
    Seq::new(c.len(), |i: int| arena[c[i]].place.t).push(arena[c.last()].place.t)
}

/// The passage that ends with a chain.
pub open spec fn passage(r: PlanResult, arena: Seq<Node>, end: int, dest: Point) -> bool {
    &&& r.path@ == path_of(arena, chain(arena, end), dest)
    &&& r.times@ == times_of(arena, chain(arena, end))
    &&& r.eta_s == arena[end].place.t
}

/// Follow the parents from `end` back to the start.
fn backtrack(arena: &Vec<Node>, end: usize, dest: Point) -> (r: PlanResult)
    requires
        rooted(arena@),
        end < arena@.len(),
    ensures
        passage(r, arena@, end as int, dest),
{
    let ghost c = chain(arena@, end as int);
    let mut back: Vec<usize> = Vec::new();
    let mut at: usize = end;
    proof {
        lemma_chain(arena@, end as int);
        assert(c.take(c.len() as int) =~= c);
    }
    while at > 0
        invariant
            rooted(arena@),
            at < arena@.len(),
            c == chain(arena@, end as int),
            back@.len() < c.len(),
            chain(arena@, at as int) == c.take(c.len() - back@.len()),
            forall|k: int| 0 <= k < back@.len() ==> #[trigger] back@[k] == c[c.len() - 1 - k],
        decreases at,
    {
        proof {
            lemma_chain(arena@, at as int);
            lemma_chain(arena@, arena@[at as int].parent as int);
            let here = chain(arena@, at as int);
            assert(here.last() == c[c.len() - 1 - back@.len()]);
            assert(here.drop_last() =~= c.take(c.len() - back@.len() - 1));
            assert(here.drop_last() =~= chain(arena@, arena@[at as int].parent as int));
        }
        back.push(at);
        at = arena[at].parent;
    }
    back.push(at);
    let n: usize = back.len();
    let mut path: Vec<Point> = Vec::new();
    let mut times: Vec<Scalar> = Vec::new();
    let mut i: usize = 0;
    assert(c.take(1)[0] == c[0]);
    while i < n
        invariant
            n == back@.len() == c.len(),
            i <= n,
            forall|k: int| 0 <= k < n ==> #[trigger] back@[k] == c[c.len() - 1 - k],
            forall|k: int| 0 <= k < n ==> 0 <= #[trigger] c[k] < arena@.len(),
            path@ =~= Seq::new(
                i as nat,
                |k: int| (arena@[c[k]].place.x, arena@[c[k]].place.y),
            ),
            times@ =~= Seq::new(i as nat, |k: int| arena@[c[k]].place.t),
        decreases n - i,
    {
        let j: usize = back[n - 1 - i];
        assert(j == c[i as int]);
        path.push((arena[j].place.x, arena[j].place.y));
        times.push(arena[j].place.t);
        i = i + 1;
    }
    path.push(dest);
    times.push(arena[end].place.t);
    let r = PlanResult { path, times, eta_s: arena[end].place.t, length_m: Scalar::zero() };
    assert(r.path@ =~= path_of(arena@, c, dest));
    assert(r.times@ =~= times_of(arena@, c));
    r
}

/// The coastlines of a chart, if there is one.
pub open spec fn land_of(chart: Option<&Chart>) -> Seq<ChartPolygon> {
    match chart {
        Some(c) => c.polygons@,
        None => Seq::empty(),
    }
}

/// Whether land lies between two places.
fn land_between<C: Fn(Point, Point, Point) -> Scalar>(
    chart: Option<&Chart>,
    a: Point,
    b: Point,
    cross: &C,
) -> (r: bool)
    requires
        forall|p: Point, q: Point, r: Point| call_requires(*cross, (p, q, r)),
    ensures
        landfall(*cross, a, b, land_of(chart), r),
{
    match chart {
        Some(c) => segment_hits_land(a, b, c, cross),
        None => false,
    }
}

/// A heading on which the boat makes no way.
pub open spec fn slow(speeds: Seq<Scalar>, k: int) -> bool {
    speeds[k].at_most(Scalar { bits: LEAST_SPEED })
}

/// Sailing heading `k` from `from` leads to `to` over open water.
pub open spec fn sailed<
    M: Fn(PlanConfig, Node, usize, Scalar) -> Reach,
    C: Fn(Point, Point, Point) -> Scalar,
>(
    motion: M,
    cross: C,
    land: Seq<ChartPolygon>,
    speeds: Seq<Scalar>,
    cfg: PlanConfig,
    from: Node,
    k: int,
    to: Reach,
) -> bool {
    &&& !slow(speeds, k)
    &&& call_ensures(motion, (cfg, from, k as usize, speeds[k]), to)
    &&& landfall(cross, from.place.at(), to.at(), land, false)
}

/// Heading `k` from point `f` was looked at: it makes no way, or it leads onto
/// land, or the points from `lo` up to `hi` hold where it leads.
pub open spec fn accounted<
    M: Fn(PlanConfig, Node, usize, Scalar) -> Reach,
    C: Fn(Point, Point, Point) -> Scalar,
>(
    motion: M,
    cross: C,
    land: Seq<ChartPolygon>,
    speeds: Seq<Scalar>,
    cfg: PlanConfig,
    arena: Seq<Node>,
    f: int,
    k: int,
    lo: int,
    hi: int,
) -> bool {
    slow(speeds, k) || exists|to: Reach|
        {
            &&& #[trigger] call_ensures(motion, (cfg, arena[f], k as usize, speeds[k]), to)
            &&& landfall(cross, arena[f].place.at(), to.at(), land, true) || exists|c: int|
                lo <= c < hi && #[trigger] arena[c] == (Node { place: to, parent: f as usize })
        }
}

/// Point `c` was reached from its parent on some heading.
pub open spec fn reached_by<
    M: Fn(PlanConfig, Node, usize, Scalar) -> Reach,
    C: Fn(Point, Point, Point) -> Scalar,
>(
    motion: M,
    cross: C,
    land: Seq<ChartPolygon>,
    speeds: Seq<Scalar>,
    cfg: PlanConfig,
    arena: Seq<Node>,
    c: int,
) -> bool {
    exists|k: int|
        0 <= k < speeds.len() && #[trigger] sailed(
            motion,
            cross,
            land,
            speeds,
            cfg,
            arena[arena[c].parent as int],
            k,
            arena[c].place,
        )
}

/// The points from `lo` up to `hi` are those that the front reaches in one
/// step: nothing else, and nothing left out.
pub open spec fn grown<
    M: Fn(PlanConfig, Node, usize, Scalar) -> Reach,
    C: Fn(Point, Point, Point) -> Scalar,
>(
    motion: M,
    cross: C,
    land: Seq<ChartPolygon>,
    speeds: Seq<Scalar>,
    cfg: PlanConfig,
    arena: Seq<Node>,
    front: Seq<usize>,
    lo: int,
    hi: int,
) -> bool {
    &&& forall|c: int|
        lo <= c < hi ==> front.contains((#[trigger] arena[c]).parent) && reached_by(
            motion,
            cross,
            land,
            speeds,
            cfg,
            arena,
            c,
        )
    &&& forall|p: int, k: int|
        0 <= p < front.len() && 0 <= k < speeds.len() ==> #[trigger] accounted(
            motion,
            cross,
            land,
            speeds,
            cfg,
            arena,
            front[p] as int,
            k,
            lo,
            hi,
        )
}

/// A later arena accounts for what an earlier one did.
proof fn lemma_accounted_stays<
    M: Fn(PlanConfig, Node, usize, Scalar) -> Reach,
    C: Fn(Point, Point, Point) -> Scalar,
>(
    motion: M,
    cross: C,
    land: Seq<ChartPolygon>,
    speeds: Seq<Scalar>,
    cfg: PlanConfig,
    a: Seq<Node>,
    b: Seq<Node>,
    f: int,
    k: int,
    lo: int,
    hi: int,
)
    requires
        accounted(motion, cross, land, speeds, cfg, a, f, k, lo, hi),
        0 <= f < a.len(),
        0 <= lo,
        hi <= a.len(),
        a.len() <= b.len(),
        forall|i: int| 0 <= i < a.len() ==> a[i] == #[trigger] b[i],
    ensures
        accounted(motion, cross, land, speeds, cfg, b, f, k, lo, b.len() as int),
        accounted(motion, cross, land, speeds, cfg, b, f, k, lo, hi),
{
    if !slow(speeds, k) {
        let to = choose|to: Reach|
            {
                &&& #[trigger] call_ensures(motion, (cfg, a[f], k as usize, speeds[k]), to)
                &&& landfall(cross, a[f].place.at(), to.at(), land, true) || exists|c: int|
                    lo <= c < hi && #[trigger] a[c] == (Node { place: to, parent: f as usize })
            };
        assert(call_ensures(motion, (cfg, b[f], k as usize, speeds[k]), to));
        if !landfall(cross, a[f].place.at(), to.at(), land, true) {
            let c = choose|c: int|
                lo <= c < hi && #[trigger] a[c] == (Node { place: to, parent: f as usize });
            assert(b[c] == (Node { place: to, parent: f as usize }));
        }
    }
}

/// Add to the arena what the front reaches in one step.
fn expand<
    M: Fn(PlanConfig, Node, usize, Scalar) -> Reach,
    C: Fn(Point, Point, Point) -> Scalar,
>(
    arena: &mut Vec<Node>,
    front: &Vec<usize>,
    cfg: PlanConfig,
    speeds: &Vec<Scalar>,
    motion: &M,
    chart: Option<&Chart>,
    cross: &C,
)
    requires
        rooted(old(arena)@),
        forall|p: int| 0 <= p < front@.len() ==> #[trigger] front@[p] < old(arena)@.len(),
        forall|n: Node, k: usize, v: Scalar| call_requires(*motion, (cfg, n, k, v)),
        forall|p: Point, q: Point, r: Point| call_requires(*cross, (p, q, r)),
    ensures
        rooted(final(arena)@),
        old(arena)@.len() <= final(arena)@.len(),
        forall|i: int| 0 <= i < old(arena)@.len() ==> old(arena)@[i] == #[trigger] final(arena)@[i],
        grown(
            *motion,
            *cross,
            land_of(chart),
            speeds@,
            cfg,
            final(arena)@,
            front@,
            old(arena)@.len() as int,
            final(arena)@.len() as int,
        ),
{
    let ghost base = arena@;
    let n: usize = front.len();
    let headings: usize = speeds.len();
    let mut p: usize = 0;
    while p < n
        invariant
            n == front@.len(),
            headings == speeds@.len(),
            p <= n,
            rooted(arena@),
            base.len() <= arena@.len(),
            forall|i: int| 0 <= i < base.len() ==> base[i] == #[trigger] arena@[i],
            forall|q: int| 0 <= q < n ==> #[trigger] front@[q] < base.len(),
            forall|n: Node, k: usize, v: Scalar| call_requires(*motion, (cfg, n, k, v)),
            forall|p: Point, q: Point, r: Point| call_requires(*cross, (p, q, r)),
            grown(
                *motion,
                *cross,
                land_of(chart),
                speeds@,
                cfg,
                arena@,
                front@.take(p as int),
                base.len() as int,
                arena@.len() as int,
            ),
        decreases n - p,
    {
        let f: usize = front[p];
        let from: Node = arena[f];
        let ghost done = front@.take(p as int);
        let ghost more = front@.take(p + 1);
        let mut k: usize = 0;
        proof {
            assert forall|q: int, j: int| 0 <= q < p && 0 <= j < headings implies #[trigger] accounted(
                *motion,
                *cross,
                land_of(chart),
                speeds@,
                cfg,
                arena@,
                front@[q] as int,
                j,
                base.len() as int,
                arena@.len() as int,
            ) by {
                assert(done[q] == front@[q]);
            }
            assert forall|x: usize| done.contains(x) implies more.contains(x) by {
                let q = choose|q: int| 0 <= q < done.len() && done[q] == x;
                assert(more[q] == x);
            }
        }
        while k < headings
            invariant
                n == front@.len(),
                headings == speeds@.len(),
                p < n,
                k <= headings,
                f == front@[p as int],
                f < base.len(),
                from == base[f as int],
                rooted(arena@),
                base.len() <= arena@.len(),
                forall|i: int| 0 <= i < base.len() ==> base[i] == #[trigger] arena@[i],
                forall|q: int| 0 <= q < n ==> #[trigger] front@[q] < base.len(),
                forall|n: Node, k: usize, v: Scalar| call_requires(*motion, (cfg, n, k, v)),
                forall|p: Point, q: Point, r: Point| call_requires(*cross, (p, q, r)),
                done == front@.take(p as int),
                more == front@.take(p + 1),
                forall|c: int|
                    base.len() <= c < arena@.len() ==> more.contains((#[trigger] arena@[c]).parent)
                        && reached_by(*motion, *cross, land_of(chart), speeds@, cfg, arena@, c),
                forall|q: int, j: int|
                    0 <= q < p && 0 <= j < headings ==> #[trigger] accounted(
                        *motion,
                        *cross,
                        land_of(chart),
                        speeds@,
                        cfg,
                        arena@,
                        front@[q] as int,
                        j,
                        base.len() as int,
                        arena@.len() as int,
                    ),
                forall|j: int|
                    0 <= j < k ==> #[trigger] accounted(
                        *motion,
                        *cross,
                        land_of(chart),
                        speeds@,
                        cfg,
                        arena@,
                        f as int,
                        j,
                        base.len() as int,
                        arena@.len() as int,
                    ),
            decreases headings - k,
        {
            if !speeds[k].le(Scalar { bits: LEAST_SPEED }) {
                let to: Reach = motion(cfg, from, k, speeds[k]);
                if !land_between(chart, (from.place.x, from.place.y), (to.x, to.y), cross) {
                    let ghost was = arena@;
                    arena.push(Node { place: to, parent: f });
                    proof {
                        let now = arena@;
                        let lo = base.len() as int;
                        assert(now[was.len() as int] == (Node { place: to, parent: f }));
                        assert(more[p as int] == f);
                        assert(sailed(
                            *motion,
                            *cross,
                            land_of(chart),
                            speeds@,
                            cfg,
                            now[f as int],
                            k as int,
                            to,
                        ));
                        assert forall|c: int| lo <= c < now.len() implies more.contains(
                            (#[trigger] now[c]).parent,
                        ) && reached_by(*motion, *cross, land_of(chart), speeds@, cfg, now, c) by {
                            if c < was.len() {
                                assert(now[c] == was[c]);
                                assert(was[c].parent < c);
                                let j = choose|j: int|
                                    0 <= j < headings && #[trigger] sailed(
                                        *motion,
                                        *cross,
                                        land_of(chart),
                                        speeds@,
                                        cfg,
                                        was[was[c].parent as int],
                                        j,
                                        was[c].place,
                                    );
                                assert(sailed(
                                    *motion,
                                    *cross,
                                    land_of(chart),
                                    speeds@,
                                    cfg,
                                    now[now[c].parent as int],
                                    j,
                                    now[c].place,
                                ));
                            } else {
                                assert(sailed(
                                    *motion,
                                    *cross,
                                    land_of(chart),
                                    speeds@,
                                    cfg,
                                    now[now[c].parent as int],
                                    k as int,
                                    now[c].place,
                                ));
                            }
                        }
                        assert forall|q: int, j: int|
                            0 <= q < p && 0 <= j < headings implies #[trigger] accounted(
                            *motion,
                            *cross,
                            land_of(chart),
                            speeds@,
                            cfg,
                            now,
                            front@[q] as int,
                            j,
                            lo,
                            now.len() as int,
                        ) by {
                            lemma_accounted_stays(
                                *motion,
                                *cross,
                                land_of(chart),
                                speeds@,
                                cfg,
                                was,
                                now,
                                front@[q] as int,
                                j,
                                lo,
                                was.len() as int,
                            );
                        }
                        assert forall|j: int| 0 <= j < k implies #[trigger] accounted(
                            *motion,
                            *cross,
                            land_of(chart),
                            speeds@,
                            cfg,
                            now,
                            f as int,
                            j,
                            lo,
                            now.len() as int,
                        ) by {
                            lemma_accounted_stays(
                                *motion,
                                *cross,
                                land_of(chart),
                                speeds@,
                                cfg,
                                was,
                                now,
                                f as int,
                                j,
                                lo,
                                was.len() as int,
                            );
                        }
                        assert(call_ensures(*motion, (cfg, now[f as int], k, speeds@[k as int]), to));
                    }
                }
                assert(call_ensures(*motion, (cfg, arena@[f as int], k, speeds@[k as int]), to));
            }
            assert(accounted(
                *motion,
                *cross,
                land_of(chart),
                speeds@,
                cfg,
                arena@,
                f as int,
                k as int,
                base.len() as int,
                arena@.len() as int,
            ));
            k = k + 1;
        }
        p = p + 1;
    }
    assert(front@.take(n as int) =~= front@);
}

/// A search, step by step: the points found so far, the front before each step,
/// and how many points there were then.
pub struct Search {
    pub arena: Seq<Node>,
    pub fronts: Seq<Seq<usize>>,
    pub marks: Seq<int>,
}

/// The point that a plan starts from.
pub open spec fn start_node(cfg: PlanConfig) -> Node {
    Node {
        place: Reach {
            x: cfg.start.0,
            y: cfg.start.1,
            t: Scalar { bits: 0 },
            along: Scalar { bits: 0 },
            bucket: 0,
        },
        parent: 0,
    }
}

/// A point has not arrived: it is not close enough to the destination, or land
/// lies between the two.
pub open spec fn outside<
    D: Fn(PlanConfig, Reach) -> Scalar,
    C: Fn(Point, Point, Point) -> Scalar,
>(
    distance: D,
    cross: C,
    land: Seq<ChartPolygon>,
    cfg: PlanConfig,
    at: Reach,
) -> bool {
    ||| exists|d: Scalar| #[trigger]
        call_ensures(distance, (cfg, at), d) && !d.at_most(cfg.dest_radius)
    ||| exists|d: Scalar| #[trigger]
        call_ensures(distance, (cfg, at), d) && d.at_most(cfg.dest_radius) && landfall(
            cross,
            at.at(),
            cfg.dest,
            land,
            true,
        )
}

/// A point has arrived: it is close enough to the destination, and no land lies
/// between the two.
pub open spec fn arrived<
    D: Fn(PlanConfig, Reach) -> Scalar,
    C: Fn(Point, Point, Point) -> Scalar,
>(
    distance: D,
    cross: C,
    land: Seq<ChartPolygon>,
    cfg: PlanConfig,
    at: Reach,
) -> bool {
    &&& exists|d: Scalar| #[trigger]
        call_ensures(distance, (cfg, at), d) && d.at_most(cfg.dest_radius)
    &&& landfall(cross, at.at(), cfg.dest, land, false)
}

/// The first `n` points of a front have not arrived.
pub open spec fn all_outside<
    D: Fn(PlanConfig, Reach) -> Scalar,
    C: Fn(Point, Point, Point) -> Scalar,
>(
    distance: D,
    cross: C,
    land: Seq<ChartPolygon>,
    cfg: PlanConfig,
    arena: Seq<Node>,
    front: Seq<usize>,
    n: int,
) -> bool {
    forall|p: int|
        0 <= p < n ==> outside(
            distance,
            cross,
            land,
            cfg,
            arena[#[trigger] front[p] as int].place,
        )
}

/// Step `i` of a search was taken by the rules: no point of the front had
/// arrived, the front was grown, something was reached, and the next front is
/// the isochrone of it.
pub open spec fn step_taken<
    D: Fn(PlanConfig, Reach) -> Scalar,
    M: Fn(PlanConfig, Node, usize, Scalar) -> Reach,
    C: Fn(Point, Point, Point) -> Scalar,
>(
    s: Search,
    i: int,
    cfg: PlanConfig,
    speeds: Seq<Scalar>,
    distance: D,
    motion: M,
    cross: C,
    land: Seq<ChartPolygon>,
) -> bool {
    &&& 0 < s.marks[i] < s.marks[i + 1] <= s.arena.len()
    &&& forall|p: int| 0 <= p < s.fronts[i].len() ==> #[trigger] s.fronts[i][p] < s.marks[i]
    &&& all_outside(distance, cross, land, cfg, s.arena, s.fronts[i], s.fronts[i].len() as int)
    &&& grown(motion, cross, land, speeds, cfg, s.arena, s.fronts[i], s.marks[i], s.marks[i + 1])
    &&& isochrone(s.arena, s.marks[i], s.marks[i + 1], s.fronts[i + 1])
}

/// A search from the start that kept to the rules at every step.
pub open spec fn ran<
    D: Fn(PlanConfig, Reach) -> Scalar,
    M: Fn(PlanConfig, Node, usize, Scalar) -> Reach,
    C: Fn(Point, Point, Point) -> Scalar,
>(
    s: Search,
    cfg: PlanConfig,
    speeds: Seq<Scalar>,
    distance: D,
    motion: M,
    cross: C,
    land: Seq<ChartPolygon>,
) -> bool {
    &&& rooted(s.arena)
    &&& s.arena.len() <= usize::MAX
    &&& s.arena[0] == start_node(cfg)
    &&& s.fronts.len() == s.marks.len()
    &&& s.fronts.len() > 0
    &&& s.fronts[0] == seq![0usize]
    &&& s.marks[0] == 1
    &&& s.marks.last() == s.arena.len()
    &&& forall|p: int|
        0 <= p < s.fronts.last().len() ==> #[trigger] s.fronts.last()[p] < s.arena.len()
    &&& forall|i: int|
        0 <= i < s.fronts.len() - 1 ==> #[trigger] step_taken(
            s,
            i,
            cfg,
            speeds,
            distance,
            motion,
            cross,
            land,
        )
}

/// The search ends at point `end`: it is the first of the last front that has
/// arrived.
pub open spec fn arrives<
    D: Fn(PlanConfig, Reach) -> Scalar,
    C: Fn(Point, Point, Point) -> Scalar,
>(
    s: Search,
    cfg: PlanConfig,
    distance: D,
    cross: C,
    land: Seq<ChartPolygon>,
    end: int,
) -> bool {
    exists|p: int|
        {
            &&& 0 <= p < s.fronts.last().len()
            &&& #[trigger] s.fronts.last()[p] == end
            &&& arrived(distance, cross, land, cfg, s.arena[end].place)
            &&& all_outside(distance, cross, land, cfg, s.arena, s.fronts.last(), p)
        }
}

/// The search cannot go on: no point of the last front has arrived, and every
/// heading from every one of them makes no way or leads onto land.
pub open spec fn stuck<
    D: Fn(PlanConfig, Reach) -> Scalar,
    M: Fn(PlanConfig, Node, usize, Scalar) -> Reach,
    C: Fn(Point, Point, Point) -> Scalar,
>(
    s: Search,
    cfg: PlanConfig,
    speeds: Seq<Scalar>,
    distance: D,
    motion: M,
    cross: C,
    land: Seq<ChartPolygon>,
) -> bool {
    let front = s.fronts.last();
    let n = s.arena.len() as int;
    &&& all_outside(distance, cross, land, cfg, s.arena, front, front.len() as int)
    &&& grown(motion, cross, land, speeds, cfg, s.arena, front, n, n)
}

/// A lane keeps its leader when the arena grows.
proof fn lemma_leaders_stay(a: Seq<Node>, b: Seq<Node>, lo: int, hi: int)
    requires
        0 <= lo,
        hi <= a.len() <= b.len(),
        forall|j: int| 0 <= j < a.len() ==> a[j] == #[trigger] b[j],
    ensures
        forall|c: int|
            #![trigger leads_lane(a, lo, hi, c)]
            #![trigger leads_lane(b, lo, hi, c)]
            leads_lane(a, lo, hi, c) == leads_lane(b, lo, hi, c),
{
    assert forall|c: int| #[trigger] leads_lane(a, lo, hi, c) == leads_lane(b, lo, hi, c) by {
        if lo <= c < hi {
            assert(a[c] == b[c]);
            if leads_lane(a, lo, hi, c) {
                assert forall|j: int|
                    lo <= j < hi && (#[trigger] b[j]).place.bucket == b[c].place.bucket implies gain(
                    b[j],
                ) <= gain(b[c]) && (j < c ==> gain(b[j]) < gain(b[c])) by {
                    assert(a[j] == b[j]);
                }
            }
            if leads_lane(b, lo, hi, c) {
                assert forall|j: int|
                    lo <= j < hi && (#[trigger] a[j]).place.bucket == a[c].place.bucket implies gain(
                    a[j],
                ) <= gain(a[c]) && (j < c ==> gain(a[j]) < gain(a[c])) by {
                    assert(a[j] == b[j]);
                }
            }
        }
    }
}

/// What is known of a step stays true when the arena grows.
proof fn lemma_step_stays<
    D: Fn(PlanConfig, Reach) -> Scalar,
    M: Fn(PlanConfig, Node, usize, Scalar) -> Reach,
    C: Fn(Point, Point, Point) -> Scalar,
>(
    s: Search,
    t: Search,
    i: int,
    cfg: PlanConfig,
    speeds: Seq<Scalar>,
    distance: D,
    motion: M,
    cross: C,
    land: Seq<ChartPolygon>,
)
    requires
        step_taken(s, i, cfg, speeds, distance, motion, cross, land),
        rooted(s.arena),
        s.arena.len() <= t.arena.len(),
        forall|j: int| 0 <= j < s.arena.len() ==> s.arena[j] == #[trigger] t.arena[j],
        t.fronts[i] == s.fronts[i],
        t.fronts[i + 1] == s.fronts[i + 1],
        t.marks[i] == s.marks[i],
        t.marks[i + 1] == s.marks[i + 1],
    ensures
        step_taken(t, i, cfg, speeds, distance, motion, cross, land),
{
    let lo = s.marks[i];
    let hi = s.marks[i + 1];
    let front = s.fronts[i];
    let next = s.fronts[i + 1];
    assert forall|c: int| lo <= c < hi implies front.contains((#[trigger] t.arena[c]).parent)
        && reached_by(motion, cross, land, speeds, cfg, t.arena, c) by {
        assert(t.arena[c] == s.arena[c]);
        assert(s.arena[c].parent < c);
        let k = choose|k: int|
            0 <= k < speeds.len() && #[trigger] sailed(
                motion,
                cross,
                land,
                speeds,
                cfg,
                s.arena[s.arena[c].parent as int],
                k,
                s.arena[c].place,
            );
        assert(sailed(
            motion,
            cross,
            land,
            speeds,
            cfg,
            t.arena[t.arena[c].parent as int],
            k,
            t.arena[c].place,
        ));
    }
    assert forall|p: int, k: int|
        0 <= p < front.len() && 0 <= k < speeds.len() implies #[trigger] accounted(
        motion,
        cross,
        land,
        speeds,
        cfg,
        t.arena,
        front[p] as int,
        k,
        lo,
        hi,
    ) by {
        assert(accounted(motion, cross, land, speeds, cfg, s.arena, front[p] as int, k, lo, hi));
        lemma_accounted_stays(
            motion,
            cross,
            land,
            speeds,
            cfg,
            s.arena,
            t.arena,
            front[p] as int,
            k,
            lo,
            hi,
        );
    }
    lemma_leaders_stay(s.arena, t.arena, lo, hi);
    assert(isochrone(t.arena, lo, hi, next));
    assert forall|p: int| 0 <= p < front.len() implies outside(
        distance,
        cross,
        land,
        cfg,
        t.arena[#[trigger] front[p] as int].place,
    ) by {
        assert(outside(distance, cross, land, cfg, s.arena[front[p] as int].place));
    }
}

/// The first point of the front that has arrived.
fn first_arrived<
    D: Fn(PlanConfig, Reach) -> Scalar,
    C: Fn(Point, Point, Point) -> Scalar,
>(
    arena: &Vec<Node>,
    front: &Vec<usize>,
    distance: &D,
    chart: Option<&Chart>,
    cross: &C,
    cfg: PlanConfig,
) -> (r: Option<usize>)
    requires
        forall|p: int| 0 <= p < front@.len() ==> #[trigger] front@[p] < arena@.len(),
        forall|a: Reach| call_requires(*distance, (cfg, a)),
        forall|p: Point, q: Point, r: Point| call_requires(*cross, (p, q, r)),
    ensures
        match r {
            Some(p) => {
                &&& p < front@.len()
                &&& arrived(
                    *distance,
                    *cross,
                    land_of(chart),
                    cfg,
                    arena@[front@[p as int] as int].place,
                )
                &&& all_outside(*distance, *cross, land_of(chart), cfg, arena@, front@, p as int)
            },
            None => all_outside(
                *distance,
                *cross,
                land_of(chart),
                cfg,
                arena@,
                front@,
                front@.len() as int,
            ),
        },
{
    let n: usize = front.len();
    let mut p: usize = 0;
    while p < n
        invariant
            n == front@.len(),
            p <= n,
            forall|q: int| 0 <= q < n ==> #[trigger] front@[q] < arena@.len(),
            forall|a: Reach| call_requires(*distance, (cfg, a)),
            forall|p: Point, q: Point, r: Point| call_requires(*cross, (p, q, r)),
            all_outside(*distance, *cross, land_of(chart), cfg, arena@, front@, p as int),
        decreases n - p,
    {
        let at: Reach = arena[front[p]].place;
        let d: Scalar = distance(cfg, at);
        assert(call_ensures(*distance, (cfg, at), d));
        if d.le(cfg.dest_radius) && !land_between(chart, (at.x, at.y), cfg.dest, cross) {
            return Some(p);
        }
        p = p + 1;
    }
    None
}

/// What a search over given speeds comes to: a passage where the destination
/// is reached within the configured number of steps, and otherwise nothing.
pub open spec fn searched<
    D: Fn(PlanConfig, Reach) -> Scalar,
    M: Fn(PlanConfig, Node, usize, Scalar) -> Reach,
    C: Fn(Point, Point, Point) -> Scalar,
>(
    cfg: PlanConfig,
    speeds: Seq<Scalar>,
    distance: D,
    motion: M,
    cross: C,
    land: Seq<ChartPolygon>,
    r: Option<PlanResult>,
) -> bool {
    match r {
        Some(found) => exists|s: Search, end: int|
            {
                &&& #[trigger] ran(s, cfg, speeds, distance, motion, cross, land)
                &&& s.fronts.len() <= cfg.max_steps
                &&& #[trigger] arrives(s, cfg, distance, cross, land, end)
                &&& passage(found, s.arena, end, cfg.dest)
            },
        None => exists|s: Search|
            {
                &&& #[trigger] ran(s, cfg, speeds, distance, motion, cross, land)
                &&& {
                    ||| s.fronts.len() == cfg.max_steps + 1
                    ||| s.fronts.len() <= cfg.max_steps && stuck(
                        s,
                        cfg,
                        speeds,
                        distance,
                        motion,
                        cross,
                        land,
                    )
                }
            },
    }
}

fn search<
    D: Fn(PlanConfig, Reach) -> Scalar,
    M: Fn(PlanConfig, Node, usize, Scalar) -> Reach,
    C: Fn(Point, Point, Point) -> Scalar,
>(
    config: &PlanConfig,
    speeds: &Vec<Scalar>,
    distance: &D,
    motion: &M,
    chart: Option<&Chart>,
    cross: &C,
) -> (r: Option<PlanResult>)
    requires
        forall|a: Reach| call_requires(*distance, (*config, a)),
        forall|n: Node, k: usize, v: Scalar| call_requires(*motion, (*config, n, k, v)),
        forall|p: Point, q: Point, r: Point| call_requires(*cross, (p, q, r)),
    ensures
        searched(*config, speeds@, *distance, *motion, *cross, land_of(chart), r),
{
    let cfg: PlanConfig = *config;
    let mut arena: Vec<Node> = Vec::new();
    arena.push(
        Node {
            place: Reach {
                x: cfg.start.0,
                y: cfg.start.1,
                t: Scalar::zero(),
                along: Scalar::zero(),
                bucket: 0,
            },
            parent: 0,
        },
    );
    let mut front: Vec<usize> = Vec::new();
    front.push(0);
    let ghost mut s = Search { arena: arena@, fronts: seq![front@], marks: seq![1int] };
    proof {
        assert(front@ =~= seq![0usize]);
    }
    let mut step: usize = 0;
    while step < cfg.max_steps
        invariant
            cfg == *config,
            step <= cfg.max_steps,
            forall|a: Reach| call_requires(*distance, (cfg, a)),
            forall|n: Node, k: usize, v: Scalar| call_requires(*motion, (cfg, n, k, v)),
            forall|p: Point, q: Point, r: Point| call_requires(*cross, (p, q, r)),
            s.arena == arena@,
            s.fronts.len() == step + 1,
            s.fronts.last() == front@,
            ran(s, cfg, speeds@, *distance, *motion, *cross, land_of(chart)),
        decreases cfg.max_steps - step,
    {
        match first_arrived(&arena, &front, distance, chart, cross, cfg) {
            Some(p) => {
                let end: usize = front[p];
                assert(s.fronts.last()[p as int] == end);
                assert(arrives(s, cfg, *distance, *cross, land_of(chart), end as int));
                return Some(backtrack(&arena, end, cfg.dest));
            },
            None => {},
        }
        let lo: usize = arena.len();
        expand(&mut arena, &front, cfg, speeds, motion, chart, cross);
        if arena.len() == lo {
            assert(arena@ =~= s.arena);
            assert(stuck(s, cfg, speeds@, *distance, *motion, *cross, land_of(chart)));
            return None;
        }
        let ghost was = s;
        let ghost old_front = front@;
        front = prune(&arena, lo);
        proof {
            s = Search {
                arena: arena@,
                fronts: was.fronts.push(front@),
                marks: was.marks.push(arena@.len() as int),
            };
            assert forall|i: int| 0 <= i < s.fronts.len() - 1 implies #[trigger] step_taken(
                s,
                i,
                cfg,
                speeds@,
                *distance,
                *motion,
                *cross,
                land_of(chart),
            ) by {
                if i < was.fronts.len() - 1 {
                    assert(step_taken(
                        was,
                        i,
                        cfg,
                        speeds@,
                        *distance,
                        *motion,
                        *cross,
                        land_of(chart),
                    ));
                    lemma_step_stays(
                        was,
                        s,
                        i,
                        cfg,
                        speeds@,
                        *distance,
                        *motion,
                        *cross,
                        land_of(chart),
                    );
                } else {
                    assert(s.fronts[i] == old_front);
                    assert(s.fronts[i + 1] == front@);
                    assert forall|p: int| 0 <= p < old_front.len() implies outside(
                        *distance,
                        *cross,
                        land_of(chart),
                        cfg,
                        s.arena[#[trigger] old_front[p] as int].place,
                    ) by {
                        assert(outside(
                            *distance,
                            *cross,
                            land_of(chart),
                            cfg,
                            was.arena[old_front[p] as int].place,
                        ));
                    }
                }
            }
        }
        step = step + 1;
    }
    None
}

/// The speeds that a polar gives on each heading. `twa` tells the angle of a
/// heading to the wind.
pub open spec fn polar_speeds<
    T: Fn(PlanConfig, usize) -> Scalar,
    G: Fn(Scalar) -> Scalar,
    L: Fn(Scalar, Sample, Sample) -> Scalar,
>(
    cfg: PlanConfig,
    samples: Seq<Sample>,
    twa: T,
    fold: G,
    lerp: L,
    headings: int,
    speeds: Seq<Scalar>,
) -> bool {
    &&& speeds.len() == headings
    &&& forall|k: int|
        0 <= k < headings ==> polar_speed(cfg, samples, twa, fold, lerp, k, #[trigger] speeds[k])
}

/// The speed that a polar gives on one heading.
pub open spec fn polar_speed<
    T: Fn(PlanConfig, usize) -> Scalar,
    G: Fn(Scalar) -> Scalar,
    L: Fn(Scalar, Sample, Sample) -> Scalar,
>(
    cfg: PlanConfig,
    samples: Seq<Sample>,
    twa: T,
    fold: G,
    lerp: L,
    k: int,
    speed: Scalar,
) -> bool {
    exists|a: Scalar| #[trigger]
        call_ensures(twa, (cfg, k as usize), a) && speed_spec(
            samples,
            a,
            fold,
            lerp,
            speed,
        )
}

/// The lengths of a path up to each of its points.
pub open spec fn lengths_along<E: Fn(Scalar, Point, Point) -> Scalar>(
    extend: E,
    path: Seq<Point>,
    sums: Seq<Scalar>,
) -> bool {
    &&& sums.len() == path.len()
    &&& sums.len() > 0 ==> sums[0] == (Scalar { bits: 0 })
    &&& forall|i: int|
        1 <= i < sums.len() ==> call_ensures(
            extend,
            (sums[i - 1], path[i - 1], path[i]),
            #[trigger] sums[i],
        )
}

/// The length of a path: leg by leg, from zero on.
pub open spec fn path_length<E: Fn(Scalar, Point, Point) -> Scalar>(
    extend: E,
    path: Seq<Point>,
    length: Scalar,
) -> bool {
    exists|sums: Seq<Scalar>| #[trigger]
        lengths_along(extend, path, sums) && length == (if sums.len() == 0 {
            Scalar { bits: 0 }
        } else {
            sums.last()
        })
}

fn measure_path<E: Fn(Scalar, Point, Point) -> Scalar>(path: &Vec<Point>, extend: &E) -> (r: Scalar)
    requires
        forall|l: Scalar, a: Point, b: Point| call_requires(*extend, (l, a, b)),
    ensures
        path_length(*extend, path@, r),
{
    let n: usize = path.len();
    let mut r: Scalar = Scalar::zero();
    let ghost mut sums: Seq<Scalar> = Seq::empty();
    if n == 0 {
        assert(lengths_along(*extend, path@, sums));
        return r;
    }
    proof {
        sums = seq![r];
    }
    let mut i: usize = 1;
    while i < n
        invariant
            1 <= i <= n,
            n == path@.len(),
            forall|l: Scalar, a: Point, b: Point| call_requires(*extend, (l, a, b)),
            lengths_along(*extend, path@.take(i as int), sums),
            r == sums.last(),
        decreases n - i,
    {
        let ghost before = sums;
        r = extend(r, path[i - 1], path[i]);
        proof {
            sums = sums.push(r);
            let p = path@.take(i + 1);
            assert forall|k: int| 1 <= k < sums.len() implies call_ensures(
                *extend,
                (sums[k - 1], p[k - 1], p[k]),
                #[trigger] sums[k],
            ) by {
                if k < before.len() {
                    assert(before[k] == sums[k]);
                    assert(p[k - 1] == path@.take(i as int)[k - 1]);
                    assert(p[k] == path@.take(i as int)[k]);
                }
            }
        }
        i = i + 1;
    }
    assert(path@.take(n as int) =~= path@);
    r
}

/// What a plan needs to have measured.
pub struct Pilotage<T, G, L, D, M, C, O, E> {
    /// How many headings are fanned over.
    pub headings: usize,
    /// The angle of a heading to the wind.
    pub twa: T,
    /// An angle beyond dead downwind, folded back to the half turn.
    pub fold: G,
    /// The speed at an angle between two samples of the polar.
    pub lerp: L,
    /// The way left to the destination.
    pub distance: D,
    /// Where one step on a heading at a speed leads.
    pub motion: M,
    /// The side of the line through two points that a third lies on.
    pub cross: C,
    /// The distance of a point from the segment between two others.
    pub offset: O,
    /// A length, longer by the way from one point to another.
    pub extend: E,
}

impl<
    T: Fn(PlanConfig, usize) -> Scalar,
    G: Fn(Scalar) -> Scalar,
    L: Fn(Scalar, Sample, Sample) -> Scalar,
    D: Fn(PlanConfig, Reach) -> Scalar,
    M: Fn(PlanConfig, Node, usize, Scalar) -> Reach,
    C: Fn(Point, Point, Point) -> Scalar,
    O: Fn(Point, Point, Point) -> Scalar,
    E: Fn(Scalar, Point, Point) -> Scalar,
> Pilotage<T, G, L, D, M, C, O, E> {
    /// Everything can be asked for at any time.
    pub open spec fn ready(&self) -> bool {
        &&& forall|cfg: PlanConfig, k: usize| call_requires(self.twa, (cfg, k))
        &&& folds(self.fold)
        &&& forall|a: Scalar, p: Sample, q: Sample| call_requires(self.lerp, (a, p, q))
        &&& forall|cfg: PlanConfig, a: Reach| call_requires(self.distance, (cfg, a))
        &&& forall|cfg: PlanConfig, n: Node, k: usize, v: Scalar|
            call_requires(self.motion, (cfg, n, k, v))
        &&& forall|p: Point, q: Point, r: Point| call_requires(self.cross, (p, q, r))
        &&& forall|p: Point, q: Point, r: Point| call_requires(self.offset, (p, q, r))
        &&& forall|l: Scalar, a: Point, b: Point| call_requires(self.extend, (l, a, b))
    }

    /// `r` is what planning comes to with a polar of the given samples off the
    /// given land.
    pub open spec fn planned(
        &self,
        cfg: PlanConfig,
        samples: Seq<Sample>,
        land: Seq<ChartPolygon>,
        r: Option<PlanResult>,
    ) -> bool {
        exists|speeds: Seq<Scalar>| #[trigger]
            polar_speeds(cfg, samples, self.twa, self.fold, self.lerp, self.headings as int, speeds)
                && searched(cfg, speeds, self.distance, self.motion, self.cross, land, r) && match r {
                Some(found) => path_length(self.extend, found.path@, found.length_m),
                None => true,
            }
    }
}

/// Plan a passage for a boat with the given polar, off the land of the chart.
/// Returns nothing when the destination is not reached within the configured
/// number of steps.
pub fn plan<
    T: Fn(PlanConfig, usize) -> Scalar,
    G: Fn(Scalar) -> Scalar,
    L: Fn(Scalar, Sample, Sample) -> Scalar,
    D: Fn(PlanConfig, Reach) -> Scalar,
    M: Fn(PlanConfig, Node, usize, Scalar) -> Reach,
    C: Fn(Point, Point, Point) -> Scalar,
    O: Fn(Point, Point, Point) -> Scalar,
    E: Fn(Scalar, Point, Point) -> Scalar,
>(
    config: &PlanConfig,
    polar: &Polar,
    chart: Option<&Chart>,
    pilot: &Pilotage<T, G, L, D, M, C, O, E>,
) -> (r: Option<PlanResult>)
    requires
        polar.inv(),
        pilot.ready(),
    ensures
        pilot.planned(*config, polar.samples(), land_of(chart), r),
{
    let headings: usize = pilot.headings;
    let mut speeds: Vec<Scalar> = Vec::new();
    let mut k: usize = 0;
    while k < headings
        invariant
            k <= headings,
            polar.inv(),
            pilot.ready(),
            polar_speeds(*config, polar.samples(), pilot.twa, pilot.fold, pilot.lerp, k as int, speeds@),
        decreases headings - k,
    {
        let a: Scalar = (pilot.twa)(*config, k);
        let v: Scalar = polar.speed_at(a, &pilot.fold, &pilot.lerp);
        assert(call_ensures(pilot.twa, (*config, k), a));
        speeds.push(v);
        k = k + 1;
    }
    let found: Option<PlanResult> = search(
        config,
        &speeds,
        &pilot.distance,
        &pilot.motion,
        chart,
        &pilot.cross,
    );
    match found {
        Some(p) => {
            let length_m: Scalar = measure_path(&p.path, &pilot.extend);
            let r = Some(PlanResult { path: p.path, times: p.times, eta_s: p.eta_s, length_m });
            proof {
                let (s, end) = choose|s: Search, end: int|
                    {
                        &&& #[trigger] ran(
                            s,
                            *config,
                            speeds@,
                            pilot.distance,
                            pilot.motion,
                            pilot.cross,
                            land_of(chart),
                        )
                        &&& s.fronts.len() <= config.max_steps
                        &&& #[trigger] arrives(
                            s,
                            *config,
                            pilot.distance,
                            pilot.cross,
                            land_of(chart),
                            end,
                        )
                        &&& passage(p, s.arena, end, config.dest)
                    };
                assert(passage(r->0, s.arena, end, config.dest));
                assert(searched(
                    *config,
                    speeds@,
                    pilot.distance,
                    pilot.motion,
                    pilot.cross,
                    land_of(chart),
                    r,
                ));
            }
            r
        },
        None => None,
    }
}

/// Every point found in the first `n` steps was reached on some heading over
/// open water.
proof fn lemma_points_are_reached<
    D: Fn(PlanConfig, Reach) -> Scalar,
    M: Fn(PlanConfig, Node, usize, Scalar) -> Reach,
    C: Fn(Point, Point, Point) -> Scalar,
>(
    s: Search,
    cfg: PlanConfig,
    speeds: Seq<Scalar>,
    distance: D,
    motion: M,
    cross: C,
    land: Seq<ChartPolygon>,
    n: int,
)
    requires
        ran(s, cfg, speeds, distance, motion, cross, land),
        0 <= n < s.fronts.len(),
    ensures
        0 < s.marks[n] <= s.arena.len(),
        forall|c: int| 1 <= c < s.marks[n] ==> reached_by(motion, cross, land, speeds, cfg, s.arena, c),
    decreases n,
{
    if n > 0 {
        lemma_points_are_reached(s, cfg, speeds, distance, motion, cross, land, n - 1);
        assert(step_taken(s, n - 1, cfg, speeds, distance, motion, cross, land));
        assert forall|c: int| 1 <= c < s.marks[n] implies reached_by(
            motion,
            cross,
            land,
            speeds,
            cfg,
            s.arena,
            c,
        ) by {
            if c >= s.marks[n - 1] {
                assert(s.fronts[n - 1].contains(s.arena[c].parent));
            }
        }
    }
}

/// A point of front `n` lies `n` steps behind the start.
proof fn lemma_front_depth<
    D: Fn(PlanConfig, Reach) -> Scalar,
    M: Fn(PlanConfig, Node, usize, Scalar) -> Reach,
    C: Fn(Point, Point, Point) -> Scalar,
>(
    s: Search,
    cfg: PlanConfig,
    speeds: Seq<Scalar>,
    distance: D,
    motion: M,
    cross: C,
    land: Seq<ChartPolygon>,
    n: int,
    p: int,
)
    requires
        ran(s, cfg, speeds, distance, motion, cross, land),
        0 <= n < s.fronts.len(),
        0 <= p < s.fronts[n].len(),
    ensures
        chain(s.arena, s.fronts[n][p] as int).len() == n + 1,
    decreases n,
{
    if n > 0 {
        assert(step_taken(s, n - 1, cfg, speeds, distance, motion, cross, land));
        let c = s.fronts[n][p] as int;
        assert(leads_lane(s.arena, s.marks[n - 1], s.marks[n], c));
        let f = s.arena[c].parent;
        assert(s.fronts[n - 1].contains(f));
        let q = s.fronts[n - 1].index_of(f);
        lemma_front_depth(s, cfg, speeds, distance, motion, cross, land, n - 1, q);
    }
}

/// Two places that follow one another on a path are one step apart: some
/// heading leads from the first to the second, the boat makes way on it, and
/// no land lies between them.
pub open spec fn open_water<
    M: Fn(PlanConfig, Node, usize, Scalar) -> Reach,
    C: Fn(Point, Point, Point) -> Scalar,
>(
    motion: M,
    cross: C,
    land: Seq<ChartPolygon>,
    speeds: Seq<Scalar>,
    cfg: PlanConfig,
    a: Point,
    b: Point,
) -> bool {
    exists|from: Node, k: int, to: Reach|
        {
            &&& 0 <= k < speeds.len()
            &&& #[trigger] sailed(motion, cross, land, speeds, cfg, from, k, to)
            &&& a == (from.place.x, from.place.y)
            &&& b == (to.x, to.y)
        }
}

/// Sailing never turns the clock back.
pub open spec fn clock_moves_on<M: Fn(PlanConfig, Node, usize, Scalar) -> Reach>(
    motion: M,
    cfg: PlanConfig,
) -> bool {
    forall|n: Node, k: usize, v: Scalar, to: Reach| #[trigger]
        call_ensures(motion, (cfg, n, k, v), to) ==> n.place.t.at_most(to.t)
}

/// A searched point at `p` lies within the destination radius.
pub open spec fn ends_within<D: Fn(PlanConfig, Reach) -> Scalar>(
    distance: D,
    cfg: PlanConfig,
    p: Point,
) -> bool {
    exists|at: Reach, d: Scalar|
        {
            &&& at.at() == p
            &&& #[trigger] call_ensures(distance, (cfg, at), d)
            &&& d.at_most(cfg.dest_radius)
        }
}

/// A plan leads from the start to the destination. It has one point for the
/// start, one for each step and one for the destination. Every step but the
/// last is sailed on some heading, the last one begins within the destination
/// radius, and none of them crosses land. The clock starts at zero and stops at
/// the estimated time of arrival, when the last searched point is reached; it
/// never runs back where sailing does not turn it back.
pub proof fn law_plan_is_sailable<
    D: Fn(PlanConfig, Reach) -> Scalar,
    M: Fn(PlanConfig, Node, usize, Scalar) -> Reach,
    C: Fn(Point, Point, Point) -> Scalar,
>(
    r: PlanResult,
    s: Search,
    end: int,
    cfg: PlanConfig,
    speeds: Seq<Scalar>,
    distance: D,
    motion: M,
    cross: C,
    land: Seq<ChartPolygon>,
)
    requires
        ran(s, cfg, speeds, distance, motion, cross, land),
        arrives(s, cfg, distance, cross, land, end),
        passage(r, s.arena, end, cfg.dest),
    ensures
        r.path@.first() == cfg.start,
        r.path@.last() == cfg.dest,
        r.path@.len() == s.fronts.len() + 1,
        r.times@.len() == r.path@.len(),
        r.times@.first() == (Scalar { bits: 0 }),
        r.times@.last() == r.eta_s,
        r.times@[r.times@.len() - 2] == r.eta_s,
        ends_within(distance, cfg, r.path@[r.path@.len() - 2]),
        forall|i: int|
            1 <= i < r.path@.len() - 1 ==> open_water(
                motion,
                cross,
                land,
                speeds,
                cfg,
                r.path@[i - 1],
                #[trigger] r.path@[i],
            ),
        forall|i: int|
            1 <= i < r.path@.len() ==> landfall(
                cross,
                r.path@[i - 1],
                #[trigger] r.path@[i],
                land,
                false,
            ),
        clock_moves_on(motion, cfg) ==> forall|i: int|
            1 <= i < r.times@.len() ==> r.times@[i - 1].at_most(#[trigger] r.times@[i]),
{
    let c = chain(s.arena, end);
    let last = s.fronts.len() - 1;
    let p = choose|p: int|
        {
            &&& 0 <= p < s.fronts.last().len()
            &&& #[trigger] s.fronts.last()[p] == end
            &&& arrived(distance, cross, land, cfg, s.arena[end].place)
            &&& all_outside(distance, cross, land, cfg, s.arena, s.fronts.last(), p)
        };
    lemma_chain(s.arena, end);
    lemma_front_depth(s, cfg, speeds, distance, motion, cross, land, last, p);
    lemma_points_are_reached(s, cfg, speeds, distance, motion, cross, land, last);
    assert(c[c.len() - 1] == end);
    assert(r.path@[r.path@.len() - 2] == s.arena[end].place.at());
    assert forall|i: int| 1 <= i < c.len() implies exists|k: int|
        0 <= k < speeds.len() && #[trigger] sailed(
            motion,
            cross,
            land,
            speeds,
            cfg,
            s.arena[c[i - 1]],
            k,
            s.arena[#[trigger] c[i]].place,
        ) by {
        let n = c[i];
        assert(s.arena[n].parent == c[i - 1]);
        assert(reached_by(motion, cross, land, speeds, cfg, s.arena, n));
        let k = choose|k: int|
            0 <= k < speeds.len() && #[trigger] sailed(
                motion,
                cross,
                land,
                speeds,
                cfg,
                s.arena[s.arena[n].parent as int],
                k,
                s.arena[n].place,
            );
        assert(sailed(motion, cross, land, speeds, cfg, s.arena[c[i - 1]], k, s.arena[n].place));
    }
    assert forall|i: int| 1 <= i < r.path@.len() - 1 implies open_water(
        motion,
        cross,
        land,
        speeds,
        cfg,
        r.path@[i - 1],
        #[trigger] r.path@[i],
    ) by {
        let n = c[i];
        let k = choose|k: int|
            0 <= k < speeds.len() && #[trigger] sailed(
                motion,
                cross,
                land,
                speeds,
                cfg,
                s.arena[c[i - 1]],
                k,
                s.arena[n].place,
            );
        assert(sailed(motion, cross, land, speeds, cfg, s.arena[c[i - 1]], k, s.arena[n].place));
    }
    assert forall|i: int| 1 <= i < r.path@.len() implies landfall(
        cross,
        r.path@[i - 1],
        #[trigger] r.path@[i],
        land,
        false,
    ) by {
        if i < r.path@.len() - 1 {
            assert(open_water(motion, cross, land, speeds, cfg, r.path@[i - 1], r.path@[i]));
        }
    }
    if clock_moves_on(motion, cfg) {
        assert forall|i: int| 1 <= i < c.len() implies s.arena[c[i - 1]].place.t.at_most(
            s.arena[#[trigger] c[i]].place.t,
        ) by {
            let n = c[i];
            let k = choose|k: int|
                0 <= k < speeds.len() && #[trigger] sailed(
                    motion,
                    cross,
                    land,
                    speeds,
                    cfg,
                    s.arena[c[i - 1]],
                    k,
                    s.arena[n].place,
                );
            assert(call_ensures(
                motion,
                (cfg, s.arena[c[i - 1]], k as usize, speeds[k]),
                s.arena[n].place,
            ));
        }
        assert forall|i: int| 1 <= i < r.times@.len() implies r.times@[i - 1].at_most(
            #[trigger] r.times@[i],
        ) by {
            if i < c.len() {
                assert(r.times@[i] == s.arena[c[i]].place.t);
                assert(r.times@[i - 1] == s.arena[c[i - 1]].place.t);
            } else {
                assert(r.times@[i - 1] == r.eta_s && r.times@[i] == r.eta_s);
                if c.len() > 1 {
                    let m = c.len() - 1;
                    assert(s.arena[c[m - 1]].place.t.at_most(s.arena[c[m]].place.t));
                } else {
                    assert(c[0] == 0);
                }
            }
        }
    }
}

/// A plan that was found leads from the start to the destination, takes at
/// most the configured number of steps, ends its search within the destination
/// radius, and never crosses land.
pub proof fn law_plan_leads_to_the_destination<
    T: Fn(PlanConfig, usize) -> Scalar,
    G: Fn(Scalar) -> Scalar,
    L: Fn(Scalar, Sample, Sample) -> Scalar,
    D: Fn(PlanConfig, Reach) -> Scalar,
    M: Fn(PlanConfig, Node, usize, Scalar) -> Reach,
    C: Fn(Point, Point, Point) -> Scalar,
    O: Fn(Point, Point, Point) -> Scalar,
    E: Fn(Scalar, Point, Point) -> Scalar,
>(
    pilot: Pilotage<T, G, L, D, M, C, O, E>,
    cfg: PlanConfig,
    samples: Seq<Sample>,
    land: Seq<ChartPolygon>,
    r: PlanResult,
)
    requires
        pilot.planned(cfg, samples, land, Some(r)),
    ensures
        2 <= r.path@.len() <= cfg.max_steps + 1,
        r.path@.first() == cfg.start,
        r.path@.last() == cfg.dest,
        r.times@.len() == r.path@.len(),
        r.times@.first() == (Scalar { bits: 0 }),
        r.times@.last() == r.eta_s,
        r.times@[r.times@.len() - 2] == r.eta_s,
        ends_within(pilot.distance, cfg, r.path@[r.path@.len() - 2]),
        forall|i: int|
            1 <= i < r.path@.len() ==> landfall(
                pilot.cross,
                r.path@[i - 1],
                #[trigger] r.path@[i],
                land,
                false,
            ),
        clock_moves_on(pilot.motion, cfg) ==> forall|i: int|
            1 <= i < r.times@.len() ==> r.times@[i - 1].at_most(#[trigger] r.times@[i]),
{
    let speeds = choose|speeds: Seq<Scalar>| #[trigger]
        polar_speeds(
            cfg,
            samples,
            pilot.twa,
            pilot.fold,
            pilot.lerp,
            pilot.headings as int,
            speeds,
        ) && searched(
            cfg,
            speeds,
            pilot.distance,
            pilot.motion,
            pilot.cross,
            land,
            Some(r),
        );
    let (s, end) = choose|s: Search, end: int|
        {
            &&& #[trigger] ran(s, cfg, speeds, pilot.distance, pilot.motion, pilot.cross, land)
            &&& s.fronts.len() <= cfg.max_steps
            &&& #[trigger] arrives(s, cfg, pilot.distance, pilot.cross, land, end)
            &&& passage(r, s.arena, end, cfg.dest)
        };
    law_plan_is_sailable(
        r,
        s,
        end,
        cfg,
        speeds,
        pilot.distance,
        pilot.motion,
        pilot.cross,
        land,
    );
}

/// A plan never goes through a coastline: no stretch of its path crosses an edge
/// of one, as long as the cross products have the right sign.
pub proof fn law_plan_crosses_no_coastline<
    T: Fn(PlanConfig, usize) -> Scalar,
    G: Fn(Scalar) -> Scalar,
    L: Fn(Scalar, Sample, Sample) -> Scalar,
    D: Fn(PlanConfig, Reach) -> Scalar,
    M: Fn(PlanConfig, Node, usize, Scalar) -> Reach,
    C: Fn(Point, Point, Point) -> Scalar,
    O: Fn(Point, Point, Point) -> Scalar,
    E: Fn(Scalar, Point, Point) -> Scalar,
>(
    pilot: Pilotage<T, G, L, D, M, C, O, E>,
    cfg: PlanConfig,
    samples: Seq<Sample>,
    land: Seq<ChartPolygon>,
    r: PlanResult,
    i: int,
    k: int,
    e: int,
)
    requires
        pilot.planned(cfg, samples, land, Some(r)),
        tells_sides(pilot.cross),
        1 <= i < r.path@.len(),
        finite(r.path@[i - 1]),
        finite(r.path@[i]),
        0 <= k < land.len(),
        land[k].points@.len() >= 2,
        forall|j: int| 0 <= j < land[k].points@.len() ==> finite(#[trigger] land[k].points@[j]),
        0 <= e < edge_count(land[k].points@.len() as int, land[k].closed),
    ensures
        !truly_cross(
            r.path@[i - 1],
            r.path@[i],
            land[k].points@[e],
            land[k].points@[edge_end(land[k].points@.len() as int, e)],
        ),
{
    law_plan_leads_to_the_destination(pilot, cfg, samples, land, r);
    law_clear_stretch_crosses_no_edge(
        pilot.cross,
        r.path@[i - 1],
        r.path@[i],
        land,
        k,
        e,
    );
}

/// A front holds at most one point of each lane.
pub proof fn law_one_point_per_lane(
    arena: Seq<Node>,
    lo: int,
    hi: int,
    front: Seq<usize>,
    p: int,
    q: int,
)
    requires
        isochrone(arena, lo, hi, front),
        0 <= p < front.len(),
        0 <= q < front.len(),
        p != q,
    ensures
        arena[front[p] as int].place.bucket != arena[front[q] as int].place.bucket,
{
    let i = front[p] as int;
    let j = front[q] as int;
    assert(leads_lane(arena, lo, hi, i));
    assert(leads_lane(arena, lo, hi, j));
    assert(i != j);
    if arena[i].place.bucket == arena[j].place.bucket {
        assert(arena[j].place.bucket == arena[i].place.bucket);
        if i < j {
            assert(gain(arena[i]) < gain(arena[j]));
        } else {
            assert(gain(arena[j]) < gain(arena[i]));
        }
    }
}

/// A search stops with the first front of which a point has arrived.
pub proof fn law_search_stops_at_the_first_arrival<
    D: Fn(PlanConfig, Reach) -> Scalar,
    M: Fn(PlanConfig, Node, usize, Scalar) -> Reach,
    C: Fn(Point, Point, Point) -> Scalar,
>(
    s: Search,
    cfg: PlanConfig,
    speeds: Seq<Scalar>,
    distance: D,
    motion: M,
    cross: C,
    land: Seq<ChartPolygon>,
    i: int,
    p: int,
)
    requires
        ran(s, cfg, speeds, distance, motion, cross, land),
        0 <= i < s.fronts.len() - 1,
        0 <= p < s.fronts[i].len(),
    ensures
        outside(distance, cross, land, cfg, s.arena[s.fronts[i][p] as int].place),
{
    assert(step_taken(s, i, cfg, speeds, distance, motion, cross, land));
}

/// Every point of a chain that ends in a front lies in the front of its step.
proof fn lemma_chain_follows_the_fronts<
    D: Fn(PlanConfig, Reach) -> Scalar,
    M: Fn(PlanConfig, Node, usize, Scalar) -> Reach,
    C: Fn(Point, Point, Point) -> Scalar,
>(
    s: Search,
    cfg: PlanConfig,
    speeds: Seq<Scalar>,
    distance: D,
    motion: M,
    cross: C,
    land: Seq<ChartPolygon>,
    n: int,
    p: int,
    m: int,
)
    requires
        ran(s, cfg, speeds, distance, motion, cross, land),
        0 <= n < s.fronts.len(),
        0 <= p < s.fronts[n].len(),
        0 <= m <= n,
    ensures
        ({
            let c = chain(s.arena, s.fronts[n][p] as int);
            c.len() == n + 1 && s.fronts[m].contains(c[m] as usize) && 0 <= c[m] <= usize::MAX
        }),
    decreases n,
{
    lemma_front_depth(s, cfg, speeds, distance, motion, cross, land, n, p);
    let end = s.fronts[n][p] as int;
    let c = chain(s.arena, end);
    if m == n {
        if n > 0 {
            assert(step_taken(s, n - 1, cfg, speeds, distance, motion, cross, land));
            assert(leads_lane(s.arena, s.marks[n - 1], s.marks[n], end));
        }
        lemma_chain(s.arena, end);
        assert(c[n] == end);
    } else {
        assert(step_taken(s, n - 1, cfg, speeds, distance, motion, cross, land));
        assert(leads_lane(s.arena, s.marks[n - 1], s.marks[n], end));
        let f = s.arena[end].parent;
        assert(s.fronts[n - 1].contains(f));
        let q = s.fronts[n - 1].index_of(f);
        lemma_chain_follows_the_fronts(
            s,
            cfg,
            speeds,
            distance,
            motion,
            cross,
            land,
            n - 1,
            q,
            m,
        );
        assert(c[m] == chain(s.arena, f as int)[m]);
    }
}

/// Every time of a plan between its ends is the one at which sailing that step
/// arrives: from the point before, at the time given for it, one step on some
/// heading, at the speed that the polar gives there, leads to the point at just
/// that time, and over open water. Of all headings that lead from the point before
/// into the same lane over open water, none would have gained more.
pub proof fn law_plan_times_are_those_of_sailing<
    T: Fn(PlanConfig, usize) -> Scalar,
    G: Fn(Scalar) -> Scalar,
    L: Fn(Scalar, Sample, Sample) -> Scalar,
    D: Fn(PlanConfig, Reach) -> Scalar,
    M: Fn(PlanConfig, Node, usize, Scalar) -> Reach,
    C: Fn(Point, Point, Point) -> Scalar,
    O: Fn(Point, Point, Point) -> Scalar,
    E: Fn(Scalar, Point, Point) -> Scalar,
>(
    pilot: Pilotage<T, G, L, D, M, C, O, E>,
    cfg: PlanConfig,
    samples: Seq<Sample>,
    land: Seq<ChartPolygon>,
    r: PlanResult,
    i: int,
) -> (step: (Node, usize, Scalar, Reach))
    requires
        pilot.planned(cfg, samples, land, Some(r)),
        1 <= i < r.path@.len() - 1,
    ensures
        ({
            let (from, k, v, to) = step;
            &&& (from.place.x, from.place.y) == r.path@[i - 1]
            &&& from.place.t == r.times@[i - 1]
            &&& (to.x, to.y) == r.path@[i]
            &&& to.t == r.times@[i]
            &&& call_ensures(pilot.motion, (cfg, from, k, v), to)
            &&& k < pilot.headings
            &&& exists|a: Scalar| #[trigger]
                call_ensures(pilot.twa, (cfg, k), a) && speed_spec(
                    samples,
                    a,
                    pilot.fold,
                    pilot.lerp,
                    v,
                )
            &&& !v.at_most(Scalar { bits: LEAST_SPEED })
            &&& landfall(pilot.cross, (from.place.x, from.place.y), (to.x, to.y), land, false)
            &&& forall|j: usize, w: Scalar, other: Reach|
                {
                    &&& j < pilot.headings
                    &&& #[trigger] only_speed(pilot, cfg, samples, j, w)
                    &&& !w.at_most(Scalar { bits: LEAST_SPEED })
                    &&& #[trigger] only_reach(pilot, cfg, from, j, w, other)
                    &&& !landfall(
                        pilot.cross,
                        (from.place.x, from.place.y),
                        (other.x, other.y),
                        land,
                        true,
                    )
                    &&& other.bucket == to.bucket
                    &&& (Scalar { bits: 0xfff0_0000_0000_0000 }).below(other.along)
                } ==> other.along.at_most(to.along)
        }),
{
    let speeds = choose|speeds: Seq<Scalar>| #[trigger]
        polar_speeds(
            cfg,
            samples,
            pilot.twa,
            pilot.fold,
            pilot.lerp,
            pilot.headings as int,
            speeds,
        ) && searched(cfg, speeds, pilot.distance, pilot.motion, pilot.cross, land, Some(r));
    let (s, end) = choose|s: Search, end: int|
        {
            &&& #[trigger] ran(s, cfg, speeds, pilot.distance, pilot.motion, pilot.cross, land)
            &&& s.fronts.len() <= cfg.max_steps
            &&& #[trigger] arrives(s, cfg, pilot.distance, pilot.cross, land, end)
            &&& passage(r, s.arena, end, cfg.dest)
        };
    let c = chain(s.arena, end);
    let last = s.fronts.len() - 1;
    let p = choose|p: int|
        {
            &&& 0 <= p < s.fronts.last().len()
            &&& #[trigger] s.fronts.last()[p] == end
            &&& arrived(pilot.distance, pilot.cross, land, cfg, s.arena[end].place)
            &&& all_outside(
                pilot.distance,
                pilot.cross,
                land,
                cfg,
                s.arena,
                s.fronts.last(),
                p,
            )
        };
    lemma_chain(s.arena, end);
    lemma_front_depth(
        s,
        cfg,
        speeds,
        pilot.distance,
        pilot.motion,
        pilot.cross,
        land,
        last,
        p,
    );
    lemma_points_are_reached(
        s,
        cfg,
        speeds,
        pilot.distance,
        pilot.motion,
        pilot.cross,
        land,
        last,
    );
    lemma_chain_follows_the_fronts(
        s,
        cfg,
        speeds,
        pilot.distance,
        pilot.motion,
        pilot.cross,
        land,
        last,
        p,
        i,
    );
    lemma_chain_follows_the_fronts(
        s,
        cfg,
        speeds,
        pilot.distance,
        pilot.motion,
        pilot.cross,
        land,
        last,
        p,
        i - 1,
    );
    let n = c[i];
    assert(s.arena[n].parent == c[i - 1]);
    assert(reached_by(pilot.motion, pilot.cross, land, speeds, cfg, s.arena, n));
    let k = choose|k: int|
        0 <= k < speeds.len() && #[trigger] sailed(
            pilot.motion,
            pilot.cross,
            land,
            speeds,
            cfg,
            s.arena[s.arena[n].parent as int],
            k,
            s.arena[n].place,
        );
    let from = s.arena[c[i - 1]];
    let to = s.arena[n].place;
    assert(polar_speed(cfg, samples, pilot.twa, pilot.fold, pilot.lerp, k, speeds[k]));
    assert(step_taken(
        s,
        i - 1,
        cfg,
        speeds,
        pilot.distance,
        pilot.motion,
        pilot.cross,
        land,
    ));
    let (lo, hi) = (s.marks[i - 1], s.marks[i]);
    let q = s.fronts[i].index_of(n as usize);
    assert(leads_lane(s.arena, lo, hi, s.fronts[i][q] as int));
    assert forall|j: usize, w: Scalar, other: Reach|
        {
            &&& j < pilot.headings
            &&& #[trigger] only_speed(pilot, cfg, samples, j, w)
            &&& !w.at_most(Scalar { bits: LEAST_SPEED })
            &&& #[trigger] only_reach(pilot, cfg, from, j, w, other)
            &&& !landfall(
                pilot.cross,
                (from.place.x, from.place.y),
                (other.x, other.y),
                land,
                true,
            )
            &&& other.bucket == to.bucket
            &&& (Scalar { bits: 0xfff0_0000_0000_0000 }).below(other.along)
        } implies other.along.at_most(to.along) by {
        assert(polar_speed(
            cfg,
            samples,
            pilot.twa,
            pilot.fold,
            pilot.lerp,
            j as int,
            speeds[j as int],
        ));
        assert(speeds[j as int] == w);
        let at = s.fronts[i - 1].index_of(c[i - 1] as usize);
        assert(accounted(
            pilot.motion,
            pilot.cross,
            land,
            speeds,
            cfg,
            s.arena,
            s.fronts[i - 1][at] as int,
            j as int,
            lo,
            hi,
        ));
        let x = choose|x: Reach|
            {
                &&& #[trigger] call_ensures(pilot.motion, (cfg, from, j, w), x)
                &&& landfall(pilot.cross, from.place.at(), x.at(), land, true) || exists|e: int|
                    lo <= e < hi && #[trigger] s.arena[e] == (Node {
                        place: x,
                        parent: c[i - 1] as usize,
                    })
            };
        assert(x == other);
        let e = choose|e: int|
            lo <= e < hi && #[trigger] s.arena[e] == (Node {
                place: x,
                parent: c[i - 1] as usize,
            });
        assert(s.arena[e].place.bucket == s.arena[n].place.bucket);
        assert(gain(s.arena[e]) <= gain(s.arena[n]));
    }
    (from, k as usize, speeds[k], to)
}

/// The polar gives one speed on a heading.
pub open spec fn only_speed<
    T: Fn(PlanConfig, usize) -> Scalar,
    G: Fn(Scalar) -> Scalar,
    L: Fn(Scalar, Sample, Sample) -> Scalar,
    D: Fn(PlanConfig, Reach) -> Scalar,
    M: Fn(PlanConfig, Node, usize, Scalar) -> Reach,
    C: Fn(Point, Point, Point) -> Scalar,
    O: Fn(Point, Point, Point) -> Scalar,
    E: Fn(Scalar, Point, Point) -> Scalar,
>(
    pilot: Pilotage<T, G, L, D, M, C, O, E>,
    cfg: PlanConfig,
    samples: Seq<Sample>,
    k: usize,
    v: Scalar,
) -> bool {
    forall|a: Scalar, x: Scalar|
        call_ensures(pilot.twa, (cfg, k), a) && #[trigger] speed_spec(
            samples,
            a,
            pilot.fold,
            pilot.lerp,
            x,
        ) ==> x == v
}

/// Sailing a heading at a speed leads to one place.
pub open spec fn only_reach<
    T: Fn(PlanConfig, usize) -> Scalar,
    G: Fn(Scalar) -> Scalar,
    L: Fn(Scalar, Sample, Sample) -> Scalar,
    D: Fn(PlanConfig, Reach) -> Scalar,
    M: Fn(PlanConfig, Node, usize, Scalar) -> Reach,
    C: Fn(Point, Point, Point) -> Scalar,
    O: Fn(Point, Point, Point) -> Scalar,
    E: Fn(Scalar, Point, Point) -> Scalar,
>(
    pilot: Pilotage<T, G, L, D, M, C, O, E>,
    cfg: PlanConfig,
    from: Node,
    k: usize,
    v: Scalar,
    to: Reach,
) -> bool {
    forall|x: Reach| #[trigger] call_ensures(pilot.motion, (cfg, from, k, v), x) ==> x == to
}

/// A boat that is within the radius at the start, with no land between it and
/// the destination, has its plan: straight there, at once.
pub proof fn law_plan_from_within_the_radius<
    T: Fn(PlanConfig, usize) -> Scalar,
    G: Fn(Scalar) -> Scalar,
    L: Fn(Scalar, Sample, Sample) -> Scalar,
    D: Fn(PlanConfig, Reach) -> Scalar,
    M: Fn(PlanConfig, Node, usize, Scalar) -> Reach,
    C: Fn(Point, Point, Point) -> Scalar,
    O: Fn(Point, Point, Point) -> Scalar,
    E: Fn(Scalar, Point, Point) -> Scalar,
>(
    pilot: Pilotage<T, G, L, D, M, C, O, E>,
    cfg: PlanConfig,
    samples: Seq<Sample>,
    land: Seq<ChartPolygon>,
    r: Option<PlanResult>,
)
    requires
        pilot.planned(cfg, samples, land, r),
        cfg.max_steps > 0,
        forall|d: Scalar| #[trigger]
            call_ensures(
                pilot.distance,
                (
                    cfg,
                    Reach {
                        x: cfg.start.0,
                        y: cfg.start.1,
                        t: Scalar { bits: 0 },
                        along: Scalar { bits: 0 },
                        bucket: 0,
                    },
                ),
                d,
            ) ==> d.at_most(cfg.dest_radius),
        !landfall(pilot.cross, cfg.start, cfg.dest, land, true),
    ensures
        r is Some,
        r->0.path@ == seq![cfg.start, cfg.dest],
        r->0.times@ == seq![Scalar { bits: 0 }, Scalar { bits: 0 }],
        r->0.eta_s == (Scalar { bits: 0 }),
{
    let speeds = choose|speeds: Seq<Scalar>| #[trigger]
        polar_speeds(
            cfg,
            samples,
            pilot.twa,
            pilot.fold,
            pilot.lerp,
            pilot.headings as int,
            speeds,
        ) && searched(cfg, speeds, pilot.distance, pilot.motion, pilot.cross, land, r);
    let at = start_node(cfg).place;
    assert(!outside(pilot.distance, pilot.cross, land, cfg, at));
    assert forall|s: Search|
        ran(s, cfg, speeds, pilot.distance, pilot.motion, pilot.cross, land) implies {
        &&& s.fronts.len() == 1
        &&& #[trigger] s.fronts.last() == seq![0usize]
    } by {
        if s.fronts.len() > 1 {
            assert(step_taken(
                s,
                0,
                cfg,
                speeds,
                pilot.distance,
                pilot.motion,
                pilot.cross,
                land,
            ));
            assert(s.fronts[0][0] == 0);
            assert(outside(
                pilot.distance,
                pilot.cross,
                land,
                cfg,
                s.arena[s.fronts[0][0] as int].place,
            ));
        }
    }
    match r {
        Some(found) => {
            let (s, end) = choose|s: Search, end: int|
                {
                    &&& #[trigger] ran(
                        s,
                        cfg,
                        speeds,
                        pilot.distance,
                        pilot.motion,
                        pilot.cross,
                        land,
                    )
                    &&& s.fronts.len() <= cfg.max_steps
                    &&& #[trigger] arrives(s, cfg, pilot.distance, pilot.cross, land, end)
                    &&& passage(found, s.arena, end, cfg.dest)
                };
            assert(s.fronts.last() == seq![0usize]);
            assert(end == 0);
            let c = chain(s.arena, end);
            assert(c =~= seq![0int]);
            assert(found.path@ =~= seq![cfg.start, cfg.dest]);
            assert(found.times@ =~= seq![Scalar { bits: 0 }, Scalar { bits: 0 }]);
        },
        None => {
            let s = choose|s: Search|
                {
                    &&& #[trigger] ran(
                        s,
                        cfg,
                        speeds,
                        pilot.distance,
                        pilot.motion,
                        pilot.cross,
                        land,
                    )
                    &&& {
                        ||| s.fronts.len() == cfg.max_steps + 1
                        ||| s.fronts.len() <= cfg.max_steps && stuck(
                            s,
                            cfg,
                            speeds,
                            pilot.distance,
                            pilot.motion,
                            pilot.cross,
                            land,
                        )
                    }
                };
            assert(s.fronts.last() == seq![0usize]);
            assert(s.fronts.last()[0] == 0);
            assert(outside(
                pilot.distance,
                pilot.cross,
                land,
                cfg,
                s.arena[s.fronts.last()[0] as int].place,
            ));
        },
    }
}

/// A boat that is not at its destination and makes no way on any heading has no
/// plan.
pub proof fn law_no_plan_without_way<
    T: Fn(PlanConfig, usize) -> Scalar,
    G: Fn(Scalar) -> Scalar,
    L: Fn(Scalar, Sample, Sample) -> Scalar,
    D: Fn(PlanConfig, Reach) -> Scalar,
    M: Fn(PlanConfig, Node, usize, Scalar) -> Reach,
    C: Fn(Point, Point, Point) -> Scalar,
    O: Fn(Point, Point, Point) -> Scalar,
    E: Fn(Scalar, Point, Point) -> Scalar,
>(
    pilot: Pilotage<T, G, L, D, M, C, O, E>,
    cfg: PlanConfig,
    samples: Seq<Sample>,
    land: Seq<ChartPolygon>,
    r: Option<PlanResult>,
)
    requires
        pilot.planned(cfg, samples, land, r),
        forall|d: Scalar| #[trigger]
            call_ensures(
                pilot.distance,
                (
                    cfg,
                    Reach {
                        x: cfg.start.0,
                        y: cfg.start.1,
                        t: Scalar { bits: 0 },
                        along: Scalar { bits: 0 },
                        bucket: 0,
                    },
                ),
                d,
            ) ==> !d.at_most(cfg.dest_radius),
        forall|k: usize, a: Scalar, v: Scalar|
            k < pilot.headings && #[trigger] call_ensures(pilot.twa, (cfg, k), a)
                && #[trigger] speed_spec(samples, a, pilot.fold, pilot.lerp, v) ==> v.at_most(
                Scalar { bits: LEAST_SPEED },
            ),
    ensures
        r is None,
{
    if r is Some {
        let found = r->0;
    let speeds = choose|speeds: Seq<Scalar>| #[trigger]
        polar_speeds(
            cfg,
            samples,
            pilot.twa,
            pilot.fold,
            pilot.lerp,
            pilot.headings as int,
            speeds,
        ) && searched(cfg, speeds, pilot.distance, pilot.motion, pilot.cross, land, r);
        let (s, end) = choose|s: Search, end: int|
            {
                &&& #[trigger] ran(s, cfg, speeds, pilot.distance, pilot.motion, pilot.cross, land)
                &&& s.fronts.len() <= cfg.max_steps
                &&& #[trigger] arrives(s, cfg, pilot.distance, pilot.cross, land, end)
                &&& passage(found, s.arena, end, cfg.dest)
            };
        assert(!arrived(pilot.distance, pilot.cross, land, cfg, start_node(cfg).place));
        assert(s.fronts.len() > 1) by {
            if s.fronts.len() == 1 {
                assert(s.fronts.last() == seq![0usize]);
                assert(end == 0);
            }
        }
        assert(step_taken(s, 0, cfg, speeds, pilot.distance, pilot.motion, pilot.cross, land));
        let c = 1int;
        assert(s.fronts[0].contains(s.arena[c].parent));
        assert(reached_by(pilot.motion, pilot.cross, land, speeds, cfg, s.arena, c));
        let k = choose|k: int|
            0 <= k < speeds.len() && #[trigger] sailed(
                pilot.motion,
                pilot.cross,
                land,
                speeds,
                cfg,
                s.arena[s.arena[c].parent as int],
                k,
                s.arena[c].place,
            );
        assert(polar_speed(cfg, samples, pilot.twa, pilot.fold, pilot.lerp, k, speeds[k]));
    }
}

/// The first point of a row that was reached alike.
proof fn lemma_first_alike(arena: Seq<Node>, lo: int, at: int) -> (first: int)
    requires
        0 <= lo <= at < arena.len(),
    ensures
        lo <= first <= at,
        arena[first].place == arena[at].place,
        forall|j: int| lo <= j < first ==> (#[trigger] arena[j]).place != arena[at].place,
    decreases at - lo,
{
    if exists|j: int| lo <= j < at && (#[trigger] arena[j]).place == arena[at].place {
        let j = choose|j: int| lo <= j < at && (#[trigger] arena[j]).place == arena[at].place;
        lemma_first_alike(arena, lo, j)
    } else {
        at
    }
}

/// Where some heading from the start arrives in one step, and gains more than
/// every other heading that leads into its lane, the plan that is found takes just
/// one step before it turns to the destination.
pub proof fn law_plan_takes_the_step_that_arrives<
    T: Fn(PlanConfig, usize) -> Scalar,
    G: Fn(Scalar) -> Scalar,
    L: Fn(Scalar, Sample, Sample) -> Scalar,
    D: Fn(PlanConfig, Reach) -> Scalar,
    M: Fn(PlanConfig, Node, usize, Scalar) -> Reach,
    C: Fn(Point, Point, Point) -> Scalar,
    O: Fn(Point, Point, Point) -> Scalar,
    E: Fn(Scalar, Point, Point) -> Scalar,
>(
    pilot: Pilotage<T, G, L, D, M, C, O, E>,
    cfg: PlanConfig,
    samples: Seq<Sample>,
    land: Seq<ChartPolygon>,
    r: Option<PlanResult>,
    start: Node,
    k: usize,
    v: Scalar,
    to: Reach,
)
    requires
        pilot.planned(cfg, samples, land, r),
        cfg.max_steps >= 2,
        start == (Node {
            place: Reach {
                x: cfg.start.0,
                y: cfg.start.1,
                t: Scalar { bits: 0 },
                along: Scalar { bits: 0 },
                bucket: 0,
            },
            parent: 0,
        }),
        forall|d: Scalar| #[trigger]
            call_ensures(pilot.distance, (cfg, start.place), d) ==> !d.at_most(cfg.dest_radius),
        k < pilot.headings,
        only_speed(pilot, cfg, samples, k, v),
        !v.at_most(Scalar { bits: LEAST_SPEED }),
        only_reach(pilot, cfg, start, k, v, to),
        !landfall(pilot.cross, cfg.start, (to.x, to.y), land, true),
        forall|d: Scalar| #[trigger]
            call_ensures(pilot.distance, (cfg, to), d) ==> d.at_most(cfg.dest_radius),
        !landfall(pilot.cross, (to.x, to.y), cfg.dest, land, true),
        !to.along.nan(),
        forall|j: usize, w: Scalar, other: Reach|
            j != k && #[trigger] call_ensures(pilot.motion, (cfg, start, j, w), other)
                && other.bucket == to.bucket ==> other.along.below(to.along),
    ensures
        r is Some,
        r->0.path@.len() == 3,
        r->0.path@[0] == cfg.start,
        r->0.path@[2] == cfg.dest,
{
    let speeds = choose|speeds: Seq<Scalar>| #[trigger]
        polar_speeds(
            cfg,
            samples,
            pilot.twa,
            pilot.fold,
            pilot.lerp,
            pilot.headings as int,
            speeds,
        ) && searched(cfg, speeds, pilot.distance, pilot.motion, pilot.cross, land, r);
    assert(!arrived(pilot.distance, pilot.cross, land, cfg, start.place));
    assert(!outside(pilot.distance, pilot.cross, land, cfg, to));
    assert(polar_speed(
        cfg,
        samples,
        pilot.twa,
        pilot.fold,
        pilot.lerp,
        k as int,
        speeds[k as int],
    ));
    assert(speeds[k as int] == v);
    match r {
        Some(found) => {
            let (s, end) = choose|s: Search, end: int|
                {
                    &&& #[trigger] ran(
                        s,
                        cfg,
                        speeds,
                        pilot.distance,
                        pilot.motion,
                        pilot.cross,
                        land,
                    )
                    &&& s.fronts.len() <= cfg.max_steps
                    &&& #[trigger] arrives(s, cfg, pilot.distance, pilot.cross, land, end)
                    &&& passage(found, s.arena, end, cfg.dest)
                };
            lemma_leader_arrives(pilot, s, cfg, samples, speeds, land, start, k, v, to);
            law_plan_is_sailable(
                found,
                s,
                end,
                cfg,
                speeds,
                pilot.distance,
                pilot.motion,
                pilot.cross,
                land,
            );
            if s.fronts.len() == 1 {
                assert(s.fronts.last() == seq![0usize]);
                assert(end == 0);
            }
        },
        None => {
            let s = choose|s: Search|
                {
                    &&& #[trigger] ran(
                        s,
                        cfg,
                        speeds,
                        pilot.distance,
                        pilot.motion,
                        pilot.cross,
                        land,
                    )
                    &&& {
                        ||| s.fronts.len() == cfg.max_steps + 1
                        ||| s.fronts.len() <= cfg.max_steps && stuck(
                            s,
                            cfg,
                            speeds,
                            pilot.distance,
                            pilot.motion,
                            pilot.cross,
                            land,
                        )
                    }
                };
            lemma_leader_arrives(pilot, s, cfg, samples, speeds, land, start, k, v, to);
            lemma_not_stuck(pilot, s, cfg, speeds, land, start, k, v, to);
        },
    }
}

proof fn lemma_not_stuck<
    T: Fn(PlanConfig, usize) -> Scalar,
    G: Fn(Scalar) -> Scalar,
    L: Fn(Scalar, Sample, Sample) -> Scalar,
    D: Fn(PlanConfig, Reach) -> Scalar,
    M: Fn(PlanConfig, Node, usize, Scalar) -> Reach,
    C: Fn(Point, Point, Point) -> Scalar,
    O: Fn(Point, Point, Point) -> Scalar,
    E: Fn(Scalar, Point, Point) -> Scalar,
>(
    pilot: Pilotage<T, G, L, D, M, C, O, E>,
    s: Search,
    cfg: PlanConfig,
    speeds: Seq<Scalar>,
    land: Seq<ChartPolygon>,
    start: Node,
    k: usize,
    v: Scalar,
    to: Reach,
)
    requires
        ran(s, cfg, speeds, pilot.distance, pilot.motion, pilot.cross, land),
        s.fronts.len() <= 2,
        s.fronts.len() == 2 ==> holds_arrived(s, to),
        !outside(pilot.distance, pilot.cross, land, cfg, to),
        start == start_node(cfg),
        k < speeds.len(),
        speeds[k as int] == v,
        !v.at_most(Scalar { bits: LEAST_SPEED }),
        only_reach(pilot, cfg, start, k, v, to),
        !landfall(pilot.cross, cfg.start, (to.x, to.y), land, true),
    ensures
        !stuck(s, cfg, speeds, pilot.distance, pilot.motion, pilot.cross, land),
{
    if stuck(s, cfg, speeds, pilot.distance, pilot.motion, pilot.cross, land) {
        if s.fronts.len() == 1 {
            assert(s.fronts.last() == seq![0usize]);
            let n = s.arena.len() as int;
            assert(accounted(
                pilot.motion,
                pilot.cross,
                land,
                speeds,
                cfg,
                s.arena,
                s.fronts.last()[0] as int,
                k as int,
                n,
                n,
            ));
        } else {
            let p = choose|p: int|
                0 <= p < s.fronts[1].len() && s.arena[#[trigger] s.fronts[1][p] as int].place == to;
            assert(outside(
                pilot.distance,
                pilot.cross,
                land,
                cfg,
                s.arena[s.fronts.last()[p] as int].place,
            ));
        }
    }
}

/// The front behind the first step of a search holds a place.
pub open spec fn holds_arrived(s: Search, to: Reach) -> bool {
    exists|p: int|
        0 <= p < s.fronts[1].len() && s.arena[#[trigger] s.fronts[1][p] as int].place == to
}

proof fn lemma_leader_arrives<
    T: Fn(PlanConfig, usize) -> Scalar,
    G: Fn(Scalar) -> Scalar,
    L: Fn(Scalar, Sample, Sample) -> Scalar,
    D: Fn(PlanConfig, Reach) -> Scalar,
    M: Fn(PlanConfig, Node, usize, Scalar) -> Reach,
    C: Fn(Point, Point, Point) -> Scalar,
    O: Fn(Point, Point, Point) -> Scalar,
    E: Fn(Scalar, Point, Point) -> Scalar,
>(
    pilot: Pilotage<T, G, L, D, M, C, O, E>,
    s: Search,
    cfg: PlanConfig,
    samples: Seq<Sample>,
    speeds: Seq<Scalar>,
    land: Seq<ChartPolygon>,
    start: Node,
    k: usize,
    v: Scalar,
    to: Reach,
)
    requires
        ran(s, cfg, speeds, pilot.distance, pilot.motion, pilot.cross, land),
        !outside(pilot.distance, pilot.cross, land, cfg, to),
        start == start_node(cfg),
        k < speeds.len(),
        speeds.len() == pilot.headings,
        speeds[k as int] == v,
        !v.at_most(Scalar { bits: LEAST_SPEED }),
        only_reach(pilot, cfg, start, k, v, to),
        !landfall(pilot.cross, cfg.start, (to.x, to.y), land, true),
        !to.along.nan(),
        forall|j: usize, w: Scalar, other: Reach|
            j != k && #[trigger] call_ensures(pilot.motion, (cfg, start, j, w), other)
                && other.bucket == to.bucket ==> other.along.below(to.along),
    ensures
        s.fronts.len() <= 2,
        s.fronts.len() == 2 ==> holds_arrived(s, to),
{
    if s.fronts.len() > 1 {
        lemma_leader_is_held(pilot, s, cfg, samples, speeds, land, start, k, v, to);
        if s.fronts.len() > 2 {
            let p = choose|p: int|
                0 <= p < s.fronts[1].len() && s.arena[#[trigger] s.fronts[1][p] as int].place == to;
            assert(step_taken(
                s,
                1,
                cfg,
                speeds,
                pilot.distance,
                pilot.motion,
                pilot.cross,
                land,
            ));
            assert(outside(
                pilot.distance,
                pilot.cross,
                land,
                cfg,
                s.arena[s.fronts[1][p] as int].place,
            ));
        }
    }
}

proof fn lemma_leader_is_held<
    T: Fn(PlanConfig, usize) -> Scalar,
    G: Fn(Scalar) -> Scalar,
    L: Fn(Scalar, Sample, Sample) -> Scalar,
    D: Fn(PlanConfig, Reach) -> Scalar,
    M: Fn(PlanConfig, Node, usize, Scalar) -> Reach,
    C: Fn(Point, Point, Point) -> Scalar,
    O: Fn(Point, Point, Point) -> Scalar,
    E: Fn(Scalar, Point, Point) -> Scalar,
>(
    pilot: Pilotage<T, G, L, D, M, C, O, E>,
    s: Search,
    cfg: PlanConfig,
    samples: Seq<Sample>,
    speeds: Seq<Scalar>,
    land: Seq<ChartPolygon>,
    start: Node,
    k: usize,
    v: Scalar,
    to: Reach,
)
    requires
        ran(s, cfg, speeds, pilot.distance, pilot.motion, pilot.cross, land),
        s.fronts.len() > 1,
        start == start_node(cfg),
        k < speeds.len(),
        speeds.len() == pilot.headings,
        speeds[k as int] == v,
        !v.at_most(Scalar { bits: LEAST_SPEED }),
        only_reach(pilot, cfg, start, k, v, to),
        !landfall(pilot.cross, cfg.start, (to.x, to.y), land, true),
        !to.along.nan(),
        forall|j: usize, w: Scalar, other: Reach|
            j != k && #[trigger] call_ensures(pilot.motion, (cfg, start, j, w), other)
                && other.bucket == to.bucket ==> other.along.below(to.along),
    ensures
        holds_arrived(s, to),
{
    assert(step_taken(s, 0, cfg, speeds, pilot.distance, pilot.motion, pilot.cross, land));
    let (lo, hi) = (s.marks[0], s.marks[1]);
    assert(s.fronts[0][0] == 0);
    assert(accounted(
        pilot.motion,
        pilot.cross,
        land,
        speeds,
        cfg,
        s.arena,
        s.fronts[0][0] as int,
        k as int,
        lo,
        hi,
    ));
    let x = choose|x: Reach|
        {
            &&& #[trigger] call_ensures(pilot.motion, (cfg, s.arena[0], k, v), x)
            &&& landfall(pilot.cross, s.arena[0].place.at(), x.at(), land, true) || exists|e: int|
                lo <= e < hi && #[trigger] s.arena[e] == (Node { place: x, parent: 0usize })
        };
    assert(x == to);
    let e = choose|e: int|
        lo <= e < hi && #[trigger] s.arena[e] == (Node { place: x, parent: 0usize });
    let first = lemma_first_alike(s.arena, lo, e);
    assert forall|j: int|
        lo <= j < hi && (#[trigger] s.arena[j]).place.bucket
            == s.arena[first].place.bucket implies gain(s.arena[j]) <= gain(s.arena[first]) && (j
        < first ==> gain(s.arena[j]) < gain(s.arena[first])) by {
        assert(s.fronts[0].contains(s.arena[j].parent));
        assert(s.arena[j].parent == 0);
        assert(reached_by(pilot.motion, pilot.cross, land, speeds, cfg, s.arena, j));
        let h = choose|h: int|
            0 <= h < speeds.len() && #[trigger] sailed(
                pilot.motion,
                pilot.cross,
                land,
                speeds,
                cfg,
                s.arena[s.arena[j].parent as int],
                h,
                s.arena[j].place,
            );
        if h == k {
            assert(s.arena[j].place == to);
        } else {
            let heading = h as usize;
            assert(call_ensures(
                pilot.motion,
                (cfg, start, heading, speeds[h]),
                s.arena[j].place,
            ));
        }
    }
    assert(leads_lane(s.arena, lo, hi, first));
    assert(s.fronts[1].contains(first as usize));
    let p = s.fronts[1].index_of(first as usize);
    assert(leads_lane(s.arena, lo, hi, s.fronts[1][p] as int));
    assert(s.arena[s.fronts[1][p] as int].place == to);
}

/// No stretch of a plan crosses an edge of a coastline: not one from a point to
/// the next, and not the closing one of a coastline that closes.
pub proof fn law_plan_keeps_off_every_coastline<
    T: Fn(PlanConfig, usize) -> Scalar,
    G: Fn(Scalar) -> Scalar,
    L: Fn(Scalar, Sample, Sample) -> Scalar,
    D: Fn(PlanConfig, Reach) -> Scalar,
    M: Fn(PlanConfig, Node, usize, Scalar) -> Reach,
    C: Fn(Point, Point, Point) -> Scalar,
    O: Fn(Point, Point, Point) -> Scalar,
    E: Fn(Scalar, Point, Point) -> Scalar,
>(
    pilot: Pilotage<T, G, L, D, M, C, O, E>,
    cfg: PlanConfig,
    samples: Seq<Sample>,
    land: Seq<ChartPolygon>,
    r: PlanResult,
    i: int,
)
    requires
        pilot.planned(cfg, samples, land, Some(r)),
        tells_sides(pilot.cross),
        1 <= i < r.path@.len(),
        finite(r.path@[i - 1]),
        finite(r.path@[i]),
        forall|k: int, j: int|
            0 <= k < land.len() && 0 <= j < land[k].points@.len() ==> finite(
                #[trigger] land[k].points@[j],
            ),
    ensures
        forall|k: int, e: int, f: int|
            0 <= k < land.len() && 0 <= e < land[k].points@.len() && 0 <= f < land[k].points@.len()
                && (f == e + 1 || (land[k].closed && e == land[k].points@.len() - 1 && f == 0 && e
                > 0)) ==> !truly_cross(
                r.path@[i - 1],
                r.path@[i],
                #[trigger] land[k].points@[e],
                #[trigger] land[k].points@[f],
            ),
{
    lemma_stretch_is_clear(pilot, cfg, samples, land, r, i);
    law_landfall_is_told(pilot.cross, r.path@[i - 1], r.path@[i], land, false);
}

proof fn lemma_stretch_is_clear<
    T: Fn(PlanConfig, usize) -> Scalar,
    G: Fn(Scalar) -> Scalar,
    L: Fn(Scalar, Sample, Sample) -> Scalar,
    D: Fn(PlanConfig, Reach) -> Scalar,
    M: Fn(PlanConfig, Node, usize, Scalar) -> Reach,
    C: Fn(Point, Point, Point) -> Scalar,
    O: Fn(Point, Point, Point) -> Scalar,
    E: Fn(Scalar, Point, Point) -> Scalar,
>(
    pilot: Pilotage<T, G, L, D, M, C, O, E>,
    cfg: PlanConfig,
    samples: Seq<Sample>,
    land: Seq<ChartPolygon>,
    r: PlanResult,
    i: int,
)
    requires
        pilot.planned(cfg, samples, land, Some(r)),
        1 <= i < r.path@.len(),
    ensures
        landfall(pilot.cross, r.path@[i - 1], r.path@[i], land, false),
{
    law_plan_leads_to_the_destination(pilot, cfg, samples, land, r);
}

/// The length of a plan is that of its path, leg by leg: a single point has none,
/// and one more point makes it longer by the way to that point.
pub proof fn law_length_grows_leg_by_leg<E: Fn(Scalar, Point, Point) -> Scalar>(
    extend: E,
    path: Seq<Point>,
    p: Point,
    length: Scalar,
) -> (before: Scalar)
    requires
        path_length(extend, path.push(p), length),
    ensures
        path.len() == 0 ==> length == (Scalar { bits: 0 }),
        path.len() > 0 ==> path_length(extend, path, before) && call_ensures(
            extend,
            (before, path.last(), p),
            length,
        ),
{
    let whole = path.push(p);
    let sums = choose|sums: Seq<Scalar>| #[trigger]
        lengths_along(extend, whole, sums) && length == (if sums.len() == 0 {
            Scalar { bits: 0 }
        } else {
            sums.last()
        });
    if path.len() > 0 {
        let n = path.len() as int;
        let part = sums.drop_last();
        assert forall|i: int| 1 <= i < part.len() implies call_ensures(
            extend,
            (part[i - 1], path[i - 1], path[i]),
            #[trigger] part[i],
        ) by {
            assert(part[i] == sums[i]);
            assert(whole[i - 1] == path[i - 1] && whole[i] == path[i]);
        }
        assert(lengths_along(extend, path, part));
        assert(call_ensures(extend, (sums[n - 1], whole[n - 1], whole[n]), sums[n]));
        part.last()
    } else {
        length
    }
}

/// A plan tells the length of its path.
pub proof fn law_plan_tells_its_length<
    T: Fn(PlanConfig, usize) -> Scalar,
    G: Fn(Scalar) -> Scalar,
    L: Fn(Scalar, Sample, Sample) -> Scalar,
    D: Fn(PlanConfig, Reach) -> Scalar,
    M: Fn(PlanConfig, Node, usize, Scalar) -> Reach,
    C: Fn(Point, Point, Point) -> Scalar,
    O: Fn(Point, Point, Point) -> Scalar,
    E: Fn(Scalar, Point, Point) -> Scalar,
>(
    pilot: Pilotage<T, G, L, D, M, C, O, E>,
    cfg: PlanConfig,
    samples: Seq<Sample>,
    land: Seq<ChartPolygon>,
    r: PlanResult,
)
    requires
        pilot.planned(cfg, samples, land, Some(r)),
    ensures
        path_length(pilot.extend, r.path@, r.length_m),
{
}

/// A lane with a point in it has a leader, which gains no less than that point.
proof fn lemma_lane_has_a_leader(arena: Seq<Node>, lo: int, hi: int, c: int) -> (m: int)
    requires
        0 <= lo <= c < hi <= arena.len(),
    ensures
        leads_lane(arena, lo, hi, m),
        arena[m].place.bucket == arena[c].place.bucket,
        gain(arena[c]) <= gain(arena[m]),
    decreases hi - lo,
{
    let last = hi - 1;
    let lane = arena[c].place.bucket;
    if exists|j: int| lo <= j < last && (#[trigger] arena[j]).place.bucket == lane {
        let j = choose|j: int| lo <= j < last && (#[trigger] arena[j]).place.bucket == lane;
        let start = if c < last {
            c
        } else {
            j
        };
        let m = lemma_lane_has_a_leader(arena, lo, last, start);
        if arena[last].place.bucket == lane && gain(arena[m]) < gain(arena[last]) {
            last
        } else {
            m
        }
    } else {
        assert(c == last);
        last
    }
}

/// A search leaves no heading out. Where a heading from a point of a front makes way
/// and leads over open water, the next front holds a point of the lane that it leads
/// into, and that point has made no less progress.
pub proof fn law_front_keeps_the_best_of_every_lane<
    D: Fn(PlanConfig, Reach) -> Scalar,
    M: Fn(PlanConfig, Node, usize, Scalar) -> Reach,
    C: Fn(Point, Point, Point) -> Scalar,
>(
    s: Search,
    cfg: PlanConfig,
    speeds: Seq<Scalar>,
    distance: D,
    motion: M,
    cross: C,
    land: Seq<ChartPolygon>,
    i: int,
    p: int,
    k: int,
    to: Reach,
) -> (q: int)
    requires
        ran(s, cfg, speeds, distance, motion, cross, land),
        0 <= i < s.fronts.len() - 1,
        0 <= p < s.fronts[i].len(),
        0 <= k < speeds.len(),
        (Scalar { bits: LEAST_SPEED }).below(speeds[k]),
        forall|other: Reach| #[trigger]
            call_ensures(
                motion,
                (cfg, s.arena[s.fronts[i][p] as int], k as usize, speeds[k]),
                other,
            ) ==> other == to,
        !landfall(
            cross,
            (
                s.arena[s.fronts[i][p] as int].place.x,
                s.arena[s.fronts[i][p] as int].place.y,
            ),
            (to.x, to.y),
            land,
            true,
        ),
        !to.along.nan(),
        !to.along.same(Scalar { bits: 0xfff0_0000_0000_0000 }),
    ensures
        0 <= q < s.fronts[i + 1].len(),
        s.arena[s.fronts[i + 1][q] as int].place.bucket == to.bucket,
        to.along.at_most(s.arena[s.fronts[i + 1][q] as int].place.along),
{
    assert(step_taken(s, i, cfg, speeds, distance, motion, cross, land));
    let (lo, hi) = (s.marks[i], s.marks[i + 1]);
    let f = s.fronts[i][p] as int;
    assert(accounted(motion, cross, land, speeds, cfg, s.arena, f, k, lo, hi));
    let x = choose|x: Reach|
        {
            &&& #[trigger] call_ensures(motion, (cfg, s.arena[f], k as usize, speeds[k]), x)
            &&& landfall(cross, s.arena[f].place.at(), x.at(), land, true) || exists|c: int|
                lo <= c < hi && #[trigger] s.arena[c] == (Node { place: x, parent: f as usize })
        };
    assert(x == to);
    let c = choose|c: int|
        lo <= c < hi && #[trigger] s.arena[c] == (Node { place: x, parent: f as usize });
    let m = lemma_lane_has_a_leader(s.arena, lo, hi, c);
    assert(s.fronts[i + 1].contains(m as usize));
    let next = s.fronts[i + 1];
    let q = choose|q: int| 0 <= q < next.len() && #[trigger] next[q] == m as usize;
    q
}

/// A search begins at the start, at time zero, and gives up only after all the steps
/// that it may take, or where no heading from any point of its last front makes way
/// over open water.
pub proof fn law_search_gives_up_last<
    T: Fn(PlanConfig, usize) -> Scalar,
    G: Fn(Scalar) -> Scalar,
    L: Fn(Scalar, Sample, Sample) -> Scalar,
    D: Fn(PlanConfig, Reach) -> Scalar,
    M: Fn(PlanConfig, Node, usize, Scalar) -> Reach,
    C: Fn(Point, Point, Point) -> Scalar,
    O: Fn(Point, Point, Point) -> Scalar,
    E: Fn(Scalar, Point, Point) -> Scalar,
>(
    pilot: Pilotage<T, G, L, D, M, C, O, E>,
    cfg: PlanConfig,
    samples: Seq<Sample>,
    land: Seq<ChartPolygon>,
) -> (went: (Search, Seq<Scalar>))
    requires
        pilot.planned(cfg, samples, land, None),
    ensures
        ran(went.0, cfg, went.1, pilot.distance, pilot.motion, pilot.cross, land),
        went.1.len() == pilot.headings,
        went.0.fronts[0].len() == 1,
        ({
            let start = went.0.arena[went.0.fronts[0][0] as int].place;
            &&& start.x == cfg.start.0
            &&& start.y == cfg.start.1
            &&& start.t == (Scalar { bits: 0 })
        }),
        went.0.fronts.len() == cfg.max_steps + 1 || forall|p: int, k: int, to: Reach|
            0 <= p < went.0.fronts.last().len() && 0 <= k < went.1.len() && (Scalar {
                bits: LEAST_SPEED,
            }).below(went.1[k]) && #[trigger] only_leads_to(
                pilot.motion,
                cfg,
                went.0.arena[went.0.fronts.last()[p] as int],
                k as usize,
                went.1[k],
                to,
            ) ==> landfall(
                pilot.cross,
                (
                    went.0.arena[went.0.fronts.last()[p] as int].place.x,
                    went.0.arena[went.0.fronts.last()[p] as int].place.y,
                ),
                (to.x, to.y),
                land,
                true,
            ),
{
    let speeds = choose|speeds: Seq<Scalar>| #[trigger]
        polar_speeds(
            cfg,
            samples,
            pilot.twa,
            pilot.fold,
            pilot.lerp,
            pilot.headings as int,
            speeds,
        ) && searched(cfg, speeds, pilot.distance, pilot.motion, pilot.cross, land, None);
    let s = choose|s: Search|
        {
            &&& #[trigger] ran(s, cfg, speeds, pilot.distance, pilot.motion, pilot.cross, land)
            &&& {
                ||| s.fronts.len() == cfg.max_steps + 1
                ||| s.fronts.len() <= cfg.max_steps && stuck(
                    s,
                    cfg,
                    speeds,
                    pilot.distance,
                    pilot.motion,
                    pilot.cross,
                    land,
                )
            }
        };
    if s.fronts.len() != cfg.max_steps + 1 {
        let front = s.fronts.last();
        let n = s.arena.len() as int;
        assert forall|p: int, k: int, to: Reach|
            0 <= p < front.len() && 0 <= k < speeds.len() && (Scalar { bits: LEAST_SPEED }).below(
                speeds[k],
            ) && #[trigger] only_leads_to(
                pilot.motion,
                cfg,
                s.arena[front[p] as int],
                k as usize,
                speeds[k],
                to,
            ) implies landfall(
            pilot.cross,
            (s.arena[front[p] as int].place.x, s.arena[front[p] as int].place.y),
            (to.x, to.y),
            land,
            true,
        ) by {
            let f = front[p] as int;
            assert(accounted(
                pilot.motion,
                pilot.cross,
                land,
                speeds,
                cfg,
                s.arena,
                front[p] as int,
                k,
                n,
                n,
            ));
            let x = choose|x: Reach|
                {
                    &&& #[trigger] call_ensures(
                        pilot.motion,
                        (cfg, s.arena[f], k as usize, speeds[k]),
                        x,
                    )
                    &&& landfall(pilot.cross, s.arena[f].place.at(), x.at(), land, true)
                        || exists|c: int|
                        n <= c < n && #[trigger] s.arena[c] == (Node {
                            place: x,
                            parent: f as usize,
                        })
                };
            assert(x == to);
        }
    }
    (s, speeds)
}

/// Sailing a heading at a speed leads to one place and no other.
pub open spec fn only_leads_to<M: Fn(PlanConfig, Node, usize, Scalar) -> Reach>(
    motion: M,
    cfg: PlanConfig,
    from: Node,
    k: usize,
    v: Scalar,
    to: Reach,
) -> bool {
    forall|other: Reach| #[trigger] call_ensures(motion, (cfg, from, k, v), other) ==> other == to
}

/// A passage is planned in steps of ten minutes, on headings five degrees apart, in
/// lanes of 500 m and in at most 800 steps, from where and when it starts.
pub proof fn law_passage_is_planned_in_ten_minute_steps(
    start: Point,
    dest: Point,
    wind_from: Scalar,
    start_time: Scalar,
    dest_radius: Scalar,
)
    ensures
        ({
            let cfg = passage_spec(start, dest, wind_from, start_time, dest_radius);
            &&& cfg.start == start && cfg.dest == dest
            &&& cfg.wind_from == wind_from && cfg.start_time == start_time
            &&& cfg.dest_radius == dest_radius
            &&& cfg.dt.bits == 0x4082_c000_0000_0000
            &&& cfg.heading_step_deg.bits == 0x4014_0000_0000_0000
            &&& cfg.cross_track_bucket_m.bits == 0x407f_4000_0000_0000
            &&& cfg.max_steps == 800
        }),
{
}

/// A heading makes way above a millionth of a metre per second. A passage plan comes no
/// closer to the destination than 400 m, and a passage is thinned to 250 m.
pub proof fn law_planner_is_set_as_tuned()
    ensures
        LEAST_SPEED == 0x3eb0_c6f7_a0b5_ed8d,
        PASSAGE_LEAST_RADIUS == 0x4079_0000_0000_0000,
        PASSAGE_TOLERANCE == 0x406f_4000_0000_0000,
{
}

} // verus!
