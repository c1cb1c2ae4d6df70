//! From a plan to a route: which points stay, which legs are cut up, and where
//! the boat waits for the tide.

use vstd::prelude::*;

use crate::planner::{PlanResult, PASSAGE_TOLERANCE};
use crate::report::{largest, peak};
use crate::scalar::{Point, Scalar};
use crate::simplify::{law_simplified_keeps_order, simplified, simplify_idx};

verus! {

/// Pattern of 5000: a longer leg, in metres, is cut up where gates are wanted.
pub const GATE_MAX_LEG_M: u64 = 0x40b3_8800_0000_0000;

/// Pattern of 500: a shorter leg, in metres, is never waited for.
pub const GATE_MIN_LEG_M: u64 = 0x407f_4000_0000_0000;

/// Pattern of 0.25: the least foul stream that is waited out.
pub const LEAST_FOUL_MARGIN: u64 = 0x3fd0_0000_0000_0000;

/// Pattern of 1.2: a stream as foul as this is always waited out.
pub const MOST_FOUL_MARGIN: u64 = 0x3ff3_3333_3333_3333;

/// Pattern of 1800: the longest that a tack is asked to be kept, in seconds,
/// unless the route asks for more.
pub const MOST_MIN_TACK: u64 = 0x409c_2000_0000_0000;

/// Pattern of 600: the shortest fair-tide window, in seconds.
pub const LEAST_GATE_WINDOW: u64 = 0x4082_c000_0000_0000;

/// Pattern of 9000: the longest fair-tide window, in seconds.
pub const MOST_GATE_WINDOW: u64 = 0x40c1_9400_0000_0000;

/// Pattern of 0.6: the speed of a passage that takes no time.
pub const FALLBACK_SPEED: u64 = 0x3fe3_3333_3333_3333;

/// Pattern of 0.1: the slowest speed that a tack is timed with.
pub const LEAST_NOMINAL_SPEED: u64 = 0x3fb9_9999_9999_999a;

/// The stream along one leg.
#[derive(Debug)]
pub struct LegTide {
    pub length: Scalar,
    /// Component of the stream along the leg, fair when positive, at each
    /// instant that is looked at.
    pub along: Vec<Scalar>,
}

/// Number of instants at which the stream along a leg is looked at over a tidal
/// cycle: both ends of it and forty-seven between them.
pub const CYCLE_SAMPLES: usize = 49;

impl LegTide {
    /// Look at the stream along a leg at every instant of a tidal cycle. `along`
    /// tells the stream at an instant, by its number.
    pub fn survey<F: Fn(usize) -> Scalar>(length: Scalar, along: &F) -> (r: LegTide)
        requires
            forall|k: usize| k < CYCLE_SAMPLES ==> call_requires(*along, (k,)),
        ensures
            r.length == length,
            r.along@.len() == CYCLE_SAMPLES,
            forall|k: int|
                0 <= k < CYCLE_SAMPLES ==> call_ensures(
                    *along,
                    (k as usize,),
                    #[trigger] r.along@[k],
                ),
    {
        let mut seen: Vec<Scalar> = Vec::new();
        let mut k: usize = 0;
        while k < CYCLE_SAMPLES
            invariant
                k <= CYCLE_SAMPLES,
                forall|k: usize| k < CYCLE_SAMPLES ==> call_requires(*along, (k,)),
                seen@.len() == k,
                forall|i: int|
                    0 <= i < k ==> call_ensures(*along, (i as usize,), #[trigger] seen@[i]),
            decreases CYCLE_SAMPLES - k,
        {
            seen.push(along(k));
            k = k + 1;
        }
        LegTide { length, along: seen }
    }
}

/// Whether a leg is to be waited for: it is not too short, and the stream
/// falls below the threshold at some instant.
pub open spec fn wants_gate(leg: LegTide, threshold: Scalar, min_leg_m: Scalar) -> bool {
    &&& !leg.length.below(min_leg_m)
    &&& exists|k: int| 0 <= k < leg.along@.len() && (#[trigger] leg.along@[k]).below(threshold)
}

fn leg_wants_gate(leg: &LegTide, threshold: Scalar, min_leg_m: Scalar) -> (r: bool)
    ensures
        r == wants_gate(*leg, threshold, min_leg_m),
{
    if leg.length.lt(min_leg_m) {
        return false;
    }
    let n: usize = leg.along.len();
    let mut k: usize = 0;
    while k < n
        invariant
            n == leg.along@.len(),
            k <= n,
            !leg.length.below(min_leg_m),
            forall|i: int| 0 <= i < k ==> !(#[trigger] leg.along@[i]).below(threshold),
        decreases n - k,
    {
        if leg.along[k].lt(threshold) {
            return true;
        }
        k = k + 1;
    }
    false
}

/// Which of the points between and around the legs are gates: the one before
/// each leg that is to be waited for. There is one point more than legs, and
/// the last one is never a gate.
pub fn tidal_gate_flags(legs: &Vec<LegTide>, threshold: Scalar, min_leg_m: Scalar) -> (r: Vec<bool>)
    requires
        legs@.len() < usize::MAX,
    ensures
        r@.len() == legs@.len() + 1,
        !r@.last(),
        forall|i: int|
            0 <= i < legs@.len() ==> #[trigger] r@[i] == wants_gate(legs@[i], threshold, min_leg_m),
{
    let n: usize = legs.len();
    let mut gates: Vec<bool> = Vec::new();
    let mut i: usize = 0;
    while i < n
        invariant
            n == legs@.len(),
            i <= n,
            gates@.len() == i,
            forall|k: int|
                0 <= k < i ==> #[trigger] gates@[k] == wants_gate(legs@[k], threshold, min_leg_m),
        decreases n - i,
    {
        gates.push(leg_wants_gate(&legs[i], threshold, min_leg_m));
        i = i + 1;
    }
    gates.push(false);
    gates
}

/// Leg `i`, cut up into the points `p` at the times `t`: its own first point,
/// and, where it is too long, the points between that make its parts equal.
pub open spec fn leg_cut<
    N: Fn(Point, Point) -> Scalar,
    K: Fn(Scalar) -> usize,
    X: Fn(Point, Point, usize, usize) -> Point,
    Y: Fn(Scalar, Scalar, usize, usize) -> Scalar,
>(
    pts: Seq<Point>,
    times: Seq<Scalar>,
    max_len: Scalar,
    cut: Cutter<N, K, X, Y>,
    i: int,
    p: Seq<Point>,
    t: Seq<Scalar>,
) -> bool {
    &&& p.len() == t.len()
    &&& p.len() >= 1
    &&& p[0] == pts[i]
    &&& t[0] == times[i]
    &&& exists|len: Scalar|
        {
            &&& #[trigger] call_ensures(cut.length, (pts[i], pts[i + 1]), len)
            &&& if max_len.below(len) {
                exists|n: usize|
                    {
                        &&& #[trigger] call_ensures(cut.parts, (len,), n)
                        &&& p.len() == (if n == 0 {
                            1
                        } else {
                            n as int
                        })
                        &&& forall|k: int|
                            1 <= k < n ==> call_ensures(
                                cut.point,
                                (pts[i], pts[i + 1], k as usize, n),
                                #[trigger] p[k],
                            )
                        &&& forall|k: int|
                            1 <= k < n ==> call_ensures(
                                cut.time,
                                (times[i], times[i + 1], k as usize, n),
                                #[trigger] t[k],
                            )
                    }
            } else {
                p.len() == 1
            }
        }
}

/// What it takes to cut a leg up.
pub struct Cutter<N, K, X, Y> {
    /// Length of a leg.
    pub length: N,
    /// Number of parts that a leg of a length is cut into.
    pub parts: K,
    /// The point that lies so many parts out of so many along a leg.
    pub point: X,
    /// The time at that point.
    pub time: Y,
}

impl<
    N: Fn(Point, Point) -> Scalar,
    K: Fn(Scalar) -> usize,
    X: Fn(Point, Point, usize, usize) -> Point,
    Y: Fn(Scalar, Scalar, usize, usize) -> Scalar,
> Cutter<N, K, X, Y> {
    /// Everything can be asked for at any time.
    pub open spec fn ready(&self) -> bool {
        &&& forall|a: Point, b: Point| call_requires(self.length, (a, b))
        &&& forall|d: Scalar| call_requires(self.parts, (d,))
        &&& forall|a: Point, b: Point, k: usize, n: usize|
            call_requires(self.point, (a, b, k, n))
        &&& forall|a: Scalar, b: Scalar, k: usize, n: usize|
            call_requires(self.time, (a, b, k, n))
    }
}

/// The first `i` legs, cut up into the points `p` at the times `t`.
pub open spec fn legs_cut<
    N: Fn(Point, Point) -> Scalar,
    K: Fn(Scalar) -> usize,
    X: Fn(Point, Point, usize, usize) -> Point,
    Y: Fn(Scalar, Scalar, usize, usize) -> Scalar,
>(
    pts: Seq<Point>,
    times: Seq<Scalar>,
    max_len: Scalar,
    cut: Cutter<N, K, X, Y>,
    i: int,
    p: Seq<Point>,
    t: Seq<Scalar>,
) -> bool
    decreases i,
{
    if i <= 0 {
        p.len() == 0 && t.len() == 0
    } else {
        exists|at: int|
            {
                &&& 0 <= at <= p.len()
                &&& at <= t.len()
                &&& legs_cut(pts, times, max_len, cut, i - 1, p.take(at), t.take(at))
                &&& #[trigger] leg_cut(pts, times, max_len, cut, i - 1, p.skip(at), t.skip(at))
            }
    }
}

/// A path with its legs cut up: nothing of nothing, else the cut legs and the
/// last point.
pub open spec fn densified<
    N: Fn(Point, Point) -> Scalar,
    K: Fn(Scalar) -> usize,
    X: Fn(Point, Point, usize, usize) -> Point,
    Y: Fn(Scalar, Scalar, usize, usize) -> Scalar,
>(
    pts: Seq<Point>,
    times: Seq<Scalar>,
    max_len: Scalar,
    cut: Cutter<N, K, X, Y>,
    p: Seq<Point>,
    t: Seq<Scalar>,
) -> bool {
    if pts.len() == 0 {
        p.len() == 0 && t.len() == 0
    } else {
        &&& p.len() > 0
        &&& t.len() > 0
        &&& p.last() == pts.last()
        &&& t.last() == times.last()
        &&& legs_cut(pts, times, max_len, cut, pts.len() - 1, p.drop_last(), t.drop_last())
    }
}

/// Cut up every leg that is too long.
pub fn densify_legs<
    N: Fn(Point, Point) -> Scalar,
    K: Fn(Scalar) -> usize,
    X: Fn(Point, Point, usize, usize) -> Point,
    Y: Fn(Scalar, Scalar, usize, usize) -> Scalar,
>(pts: &Vec<Point>, times: &Vec<Scalar>, max_len: Scalar, cut: &Cutter<N, K, X, Y>) -> (r: (
    Vec<Point>,
    Vec<Scalar>,
))
    requires
        times@.len() == pts@.len(),
        cut.ready(),
    ensures
        densified(pts@, times@, max_len, *cut, r.0@, r.1@),
{
    let mut dp: Vec<Point> = Vec::new();
    let mut dt: Vec<Scalar> = Vec::new();
    let n: usize = pts.len();
    if n == 0 {
        return (dp, dt);
    }
    let mut i: usize = 0;
    while i < n - 1
        invariant
            i <= n - 1,
            n == pts@.len(),
            n == times@.len(),
            cut.ready(),
            legs_cut(pts@, times@, max_len, *cut, i as int, dp@, dt@),
            dp@.len() == dt@.len(),
        decreases n - i,
    {
        let ghost p0 = dp@;
        let ghost t0 = dt@;
        let a: Point = pts[i];
        let b: Point = pts[i + 1];
        dp.push(a);
        dt.push(times[i]);
        let len: Scalar = (cut.length)(a, b);
        assert(call_ensures(cut.length, (pts@[i as int], pts@[i + 1]), len));
        if len.gt(max_len) {
            let parts: usize = (cut.parts)(len);
            assert(call_ensures(cut.parts, (len,), parts));
            let mut k: usize = 1;
            while k < parts
                invariant
                    1 <= k,
                    k <= parts || parts == 0,
                    parts == 0 ==> k == 1,
                    i < n - 1,
                    n == pts@.len(),
                    n == times@.len(),
                    a == pts@[i as int],
                    b == pts@[i + 1],
                    cut.ready(),
                    dp@.len() == p0.len() + k,
                    dt@.len() == dp@.len(),
                    t0.len() == p0.len(),
                    dp@.take(p0.len() as int) =~= p0,
                    dt@.take(p0.len() as int) =~= t0,
                    dp@[p0.len() as int] == pts@[i as int],
                    dt@[p0.len() as int] == times@[i as int],
                    forall|j: int|
                        1 <= j < k ==> call_ensures(
                            cut.point,
                            (pts@[i as int], pts@[i + 1], j as usize, parts),
                            #[trigger] dp@.skip(p0.len() as int)[j],
                        ),
                    forall|j: int|
                        1 <= j < k ==> call_ensures(
                            cut.time,
                            (times@[i as int], times@[i + 1], j as usize, parts),
                            #[trigger] dt@.skip(p0.len() as int)[j],
                        ),
                decreases parts - k,
            {
                let ghost p1 = dp@;
                let ghost t1 = dt@;
                let p: Point = (cut.point)(a, b, k, parts);
                let t: Scalar = (cut.time)(times[i], times[i + 1], k, parts);
                dp.push(p);
                dt.push(t);
                proof {
                    let m = p0.len() as int;
                    assert forall|j: int| 1 <= j < k + 1 implies call_ensures(
                        cut.point,
                        (pts@[i as int], pts@[i + 1], j as usize, parts),
                        #[trigger] dp@.skip(m)[j],
                    ) by {
                        if j < k {
                            assert(p1.skip(m)[j] == dp@.skip(m)[j]);
                        }
                    }
                    assert forall|j: int| 1 <= j < k + 1 implies call_ensures(
                        cut.time,
                        (times@[i as int], times@[i + 1], j as usize, parts),
                        #[trigger] dt@.skip(m)[j],
                    ) by {
                        if j < k {
                            assert(t1.skip(m)[j] == dt@.skip(m)[j]);
                        }
                    }
                }
                k = k + 1;
            }
        }
        proof {
            let at = p0.len() as int;
            assert(dp@.take(at) =~= p0);
            assert(dt@.take(at) =~= t0);
            assert(leg_cut(
                pts@,
                times@,
                max_len,
                *cut,
                i as int,
                dp@.skip(at),
                dt@.skip(at),
            ));
            let next = i + 1;
            assert(legs_cut(pts@, times@, max_len, *cut, next - 1, dp@.take(at), dt@.take(at)));
            assert(legs_cut(pts@, times@, max_len, *cut, next, dp@, dt@));
        }
        i = i + 1;
    }
    let ghost p0 = dp@;
    let ghost t0 = dt@;
    dp.push(pts[n - 1]);
    dt.push(times[n - 1]);
    assert(dp@.drop_last() =~= p0);
    assert(dt@.drop_last() =~= t0);
    (dp, dt)
}

/// The points of a path stand in a cut path at the places `at`, in order, the
/// ends at the ends.
pub open spec fn stand_at(
    pts: Seq<Point>,
    times: Seq<Scalar>,
    p: Seq<Point>,
    t: Seq<Scalar>,
    at: Seq<int>,
) -> bool {
    &&& at.len() == pts.len()
    &&& forall|i: int, j: int| 0 <= i < j < at.len() ==> #[trigger] at[i] < #[trigger] at[j]
    &&& forall|i: int|
        0 <= i < at.len() ==> {
            &&& 0 <= #[trigger] at[i] < p.len()
            &&& p[at[i]] == pts[i]
            &&& t[at[i]] == times[i]
        }
}

proof fn lemma_cut_legs_keep_points<
    N: Fn(Point, Point) -> Scalar,
    K: Fn(Scalar) -> usize,
    X: Fn(Point, Point, usize, usize) -> Point,
    Y: Fn(Scalar, Scalar, usize, usize) -> Scalar,
>(
    pts: Seq<Point>,
    times: Seq<Scalar>,
    max_len: Scalar,
    cut: Cutter<N, K, X, Y>,
    i: int,
    p: Seq<Point>,
    t: Seq<Scalar>,
) -> (at: Seq<int>)
    requires
        0 <= i <= pts.len(),
        pts.len() == times.len(),
        legs_cut(pts, times, max_len, cut, i, p, t),
    ensures
        p.len() == t.len(),
        stand_at(pts.take(i), times.take(i), p, t, at),
        i > 0 ==> at[0] == 0,
    decreases i,
{
    if i == 0 {
        Seq::empty()
    } else {
        let k = choose|k: int|
            {
                &&& 0 <= k <= p.len()
                &&& k <= t.len()
                &&& legs_cut(pts, times, max_len, cut, i - 1, p.take(k), t.take(k))
                &&& #[trigger] leg_cut(pts, times, max_len, cut, i - 1, p.skip(k), t.skip(k))
            };
        let before = lemma_cut_legs_keep_points(
            pts,
            times,
            max_len,
            cut,
            i - 1,
            p.take(k),
            t.take(k),
        );
        let at = before.push(k);
        assert(p.skip(k)[0] == p[k] && t.skip(k)[0] == t[k]);
        assert forall|j: int| 0 <= j < at.len() implies {
            &&& 0 <= #[trigger] at[j] < p.len()
            &&& p[at[j]] == pts.take(i)[j]
            &&& t[at[j]] == times.take(i)[j]
        } by {
            if j < i - 1 {
                assert(at[j] == before[j]);
                assert(p.take(k)[before[j]] == pts.take(i - 1)[j]);
                assert(t.take(k)[before[j]] == times.take(i - 1)[j]);
            }
        }
        at
    }
}

/// Cutting legs up keeps every point and its time, in order, and both ends.
pub proof fn law_cut_path_keeps_points<
    N: Fn(Point, Point) -> Scalar,
    K: Fn(Scalar) -> usize,
    X: Fn(Point, Point, usize, usize) -> Point,
    Y: Fn(Scalar, Scalar, usize, usize) -> Scalar,
>(
    pts: Seq<Point>,
    times: Seq<Scalar>,
    max_len: Scalar,
    cut: Cutter<N, K, X, Y>,
    p: Seq<Point>,
    t: Seq<Scalar>,
)
    requires
        pts.len() == times.len(),
        pts.len() > 0,
        densified(pts, times, max_len, cut, p, t),
    ensures
        p.len() == t.len(),
        p.len() >= pts.len(),
        p.first() == pts.first(),
        p.last() == pts.last(),
        exists|at: Seq<int>| #[trigger]
            stand_at(pts, times, p, t, at) && at.first() == 0 && at.last() == p.len() - 1,
{
    let n = pts.len() as int;
    let before = lemma_cut_legs_keep_points(
        pts,
        times,
        max_len,
        cut,
        n - 1,
        p.drop_last(),
        t.drop_last(),
    );
    let at = before.push(p.len() - 1);
    assert forall|j: int| 0 <= j < at.len() implies {
        &&& 0 <= #[trigger] at[j] < p.len()
        &&& p[at[j]] == pts[j]
        &&& t[at[j]] == times[j]
    } by {
        if j < n - 1 {
            assert(at[j] == before[j]);
            assert(p.drop_last()[before[j]] == pts.take(n - 1)[j]);
            assert(t.drop_last()[before[j]] == times.take(n - 1)[j]);
        }
    }
    assert(stand_at(pts, times, p, t, at));
    if n == 1 {
        assert(at.first() == 0);
    } else {
        assert(at[0] == before[0]);
    }
    lemma_places_ascend(at, n - 1);
}

proof fn lemma_places_ascend(at: Seq<int>, i: int)
    requires
        0 <= i < at.len(),
        at[0] >= 0,
        forall|i: int, j: int| 0 <= i < j < at.len() ==> #[trigger] at[i] < #[trigger] at[j],
    ensures
        at[i] >= i,
    decreases i,
{
    if i > 0 {
        lemma_places_ascend(at, i - 1);
        assert(at[i - 1] < at[i]);
    }
}

/// A path whose legs are all short enough is left as it is.
pub proof fn law_short_legs_are_not_cut<
    N: Fn(Point, Point) -> Scalar,
    K: Fn(Scalar) -> usize,
    X: Fn(Point, Point, usize, usize) -> Point,
    Y: Fn(Scalar, Scalar, usize, usize) -> Scalar,
>(
    pts: Seq<Point>,
    times: Seq<Scalar>,
    max_len: Scalar,
    cut: Cutter<N, K, X, Y>,
    p: Seq<Point>,
    t: Seq<Scalar>,
)
    requires
        pts.len() == times.len(),
        densified(pts, times, max_len, cut, p, t),
        forall|a: Point, b: Point, len: Scalar| #[trigger]
            call_ensures(cut.length, (a, b), len) ==> !max_len.below(len),
    ensures
        p == pts,
        t == times,
{
    if pts.len() > 0 {
        let n = pts.len() as int;
        lemma_short_legs(pts, times, max_len, cut, n - 1, p.drop_last(), t.drop_last());
        assert(p =~= pts.take(n - 1).push(pts.last()));
        assert(t =~= times.take(n - 1).push(times.last()));
    }
    assert(p =~= pts);
    assert(t =~= times);
}

proof fn lemma_short_legs<
    N: Fn(Point, Point) -> Scalar,
    K: Fn(Scalar) -> usize,
    X: Fn(Point, Point, usize, usize) -> Point,
    Y: Fn(Scalar, Scalar, usize, usize) -> Scalar,
>(
    pts: Seq<Point>,
    times: Seq<Scalar>,
    max_len: Scalar,
    cut: Cutter<N, K, X, Y>,
    i: int,
    p: Seq<Point>,
    t: Seq<Scalar>,
)
    requires
        0 <= i <= pts.len(),
        pts.len() == times.len(),
        legs_cut(pts, times, max_len, cut, i, p, t),
        forall|a: Point, b: Point, len: Scalar| #[trigger]
            call_ensures(cut.length, (a, b), len) ==> !max_len.below(len),
    ensures
        p == pts.take(i),
        t == times.take(i),
    decreases i,
{
    if i > 0 {
        let k = choose|k: int|
            {
                &&& 0 <= k <= p.len()
                &&& k <= t.len()
                &&& legs_cut(pts, times, max_len, cut, i - 1, p.take(k), t.take(k))
                &&& #[trigger] leg_cut(pts, times, max_len, cut, i - 1, p.skip(k), t.skip(k))
            };
        lemma_short_legs(pts, times, max_len, cut, i - 1, p.take(k), t.take(k));
        assert(p.skip(k)[0] == p[k] && t.skip(k)[0] == t[k]);
        assert(p =~= p.take(k) + p.skip(k));
        assert(t =~= t.take(k) + t.skip(k));
        assert(p =~= pts.take(i));
        assert(t =~= times.take(i));
    } else {
        assert(p =~= pts.take(i));
        assert(t =~= times.take(i));
    }
}

/// A passage as it is written down.
#[derive(Debug)]
pub struct Passage {
    pub points: Vec<Point>,
    pub times: Vec<Scalar>,
    pub gates: Vec<bool>,
    /// Length of the longest leg, before any was cut up.
    pub longest_leg: Scalar,
}

/// The lengths of the legs of a path.
pub open spec fn leg_lengths<N: Fn(Point, Point) -> Scalar>(
    length: N,
    pts: Seq<Point>,
    lens: Seq<Scalar>,
) -> bool {
    &&& lens.len() == (if pts.len() == 0 {
        0
    } else {
        pts.len() - 1
    })
    &&& forall|i: int|
        0 <= i < lens.len() ==> call_ensures(length, (pts[i], pts[i + 1]), #[trigger] lens[i])
}

/// Measure the legs of a path.
pub fn measure_legs<N: Fn(Point, Point) -> Scalar>(pts: &Vec<Point>, length: &N) -> (r: Vec<Scalar>)
    requires
        forall|a: Point, b: Point| call_requires(*length, (a, b)),
    ensures
        leg_lengths(*length, pts@, r@),
{
    let n: usize = pts.len();
    let mut r: Vec<Scalar> = Vec::new();
    if n == 0 {
        return r;
    }
    let mut i: usize = 0;
    while i < n - 1
        invariant
            n == pts@.len(),
            i <= n - 1,
            forall|a: Point, b: Point| call_requires(*length, (a, b)),
            r@.len() == i,
            forall|k: int|
                0 <= k < i ==> call_ensures(*length, (pts@[k], pts@[k + 1]), #[trigger] r@[k]),
        decreases n - i,
    {
        r.push(length(pts[i], pts[i + 1]));
        i = i + 1;
    }
    r
}

/// The gates of a path: the flags of the streams along its legs. `tide` tells
/// of the stream along a leg that is begun at a time.
pub open spec fn gated<T: Fn(Point, Point, Scalar) -> LegTide>(
    tide: T,
    threshold: Scalar,
    pts: Seq<Point>,
    times: Seq<Scalar>,
    gates: Seq<bool>,
) -> bool {
    &&& gates.len() == pts.len()
    &&& !gates.last()
    &&& forall|i: int|
        0 <= i < pts.len() - 1 ==> leg_flag(
            tide,
            threshold,
            pts[i],
            pts[i + 1],
            times[i],
            #[trigger] gates[i],
        )
}

/// The flag of one leg.
pub open spec fn leg_flag<T: Fn(Point, Point, Scalar) -> LegTide>(
    tide: T,
    threshold: Scalar,
    a: Point,
    b: Point,
    t: Scalar,
    flag: bool,
) -> bool {
    exists|leg: LegTide| #[trigger]
        call_ensures(tide, (a, b, t), leg) && flag == wants_gate(
            leg,
            threshold,
            Scalar { bits: GATE_MIN_LEG_M },
        )
}

/// The passage of a plan: its thinned points, and, where gates are wanted, its
/// long legs cut up and a gate before each leg that is to be waited for.
pub open spec fn prepared<
    O: Fn(Point, Point, Point) -> Scalar,
    N: Fn(Point, Point) -> Scalar,
    K: Fn(Scalar) -> usize,
    X: Fn(Point, Point, usize, usize) -> Point,
    Y: Fn(Scalar, Scalar, usize, usize) -> Scalar,
    T: Fn(Point, Point, Scalar) -> LegTide,
>(
    found: PlanResult,
    tidal_gates: bool,
    threshold: Scalar,
    offset: O,
    cut: Cutter<N, K, X, Y>,
    tide: T,
    r: Passage,
) -> bool {
    exists|kept: Seq<usize>, lens: Seq<Scalar>|
        {
            let pts = Seq::new(kept.len(), |k: int| found.path@[kept[k] as int]);
            let times = Seq::new(kept.len(), |k: int| found.times@[kept[k] as int]);
            &&& #[trigger] simplified(
                found.path@,
                offset,
                Scalar { bits: PASSAGE_TOLERANCE },
                kept,
            )
            &&& leg_lengths(cut.length, pts, lens)
            &&& r.longest_leg == #[trigger] peak(lens)
            &&& if tidal_gates {
                &&& densified(
                    pts,
                    times,
                    Scalar { bits: GATE_MAX_LEG_M },
                    cut,
                    r.points@,
                    r.times@,
                )
                &&& gated(tide, threshold, r.points@, r.times@, r.gates@)
            } else {
                &&& r.points@ == pts
                &&& r.times@ == times
                &&& r.gates@ == Seq::new(pts.len(), |k: int| false)
            }
        }
}

/// Make the gates of a path.
fn make_gates<T: Fn(Point, Point, Scalar) -> LegTide>(
    pts: &Vec<Point>,
    times: &Vec<Scalar>,
    threshold: Scalar,
    tide: &T,
) -> (r: Vec<bool>)
    requires
        pts@.len() > 0,
        times@.len() == pts@.len(),
        forall|a: Point, b: Point, t: Scalar| call_requires(*tide, (a, b, t)),
    ensures
        gated(*tide, threshold, pts@, times@, r@),
{
    let n: usize = pts.len();
    let mut legs: Vec<LegTide> = Vec::new();
    let mut i: usize = 0;
    while i < n - 1
        invariant
            n == pts@.len(),
            n == times@.len(),
            i <= n - 1,
            forall|a: Point, b: Point, t: Scalar| call_requires(*tide, (a, b, t)),
            legs@.len() == i,
            forall|k: int|
                0 <= k < i ==> call_ensures(
                    *tide,
                    (pts@[k], pts@[k + 1], times@[k]),
                    #[trigger] legs@[k],
                ),
        decreases n - i,
    {
        legs.push(tide(pts[i], pts[i + 1], times[i]));
        i = i + 1;
    }
    let r: Vec<bool> = tidal_gate_flags(&legs, threshold, Scalar { bits: GATE_MIN_LEG_M });
    proof {
        assert forall|i: int| 0 <= i < pts@.len() - 1 implies leg_flag(
            *tide,
            threshold,
            pts@[i],
            pts@[i + 1],
            times@[i],
            #[trigger] r@[i],
        ) by {
            assert(call_ensures(*tide, (pts@[i], pts@[i + 1], times@[i]), legs@[i]));
        }
    }
    r
}

/// Make a passage of a plan.
pub fn prepare_passage<
    O: Fn(Point, Point, Point) -> Scalar,
    N: Fn(Point, Point) -> Scalar,
    K: Fn(Scalar) -> usize,
    X: Fn(Point, Point, usize, usize) -> Point,
    Y: Fn(Scalar, Scalar, usize, usize) -> Scalar,
    T: Fn(Point, Point, Scalar) -> LegTide,
>(
    found: &PlanResult,
    tidal_gates: bool,
    threshold: Scalar,
    offset: &O,
    cut: &Cutter<N, K, X, Y>,
    tide: &T,
) -> (r: Passage)
    requires
        found.path@.len() > 0,
        found.times@.len() == found.path@.len(),
        cut.ready(),
        forall|p: Point, a: Point, b: Point| call_requires(*offset, (p, a, b)),
        forall|a: Point, b: Point, t: Scalar| call_requires(*tide, (a, b, t)),
    ensures
        prepared(*found, tidal_gates, threshold, *offset, *cut, *tide, r),
        r.points@.len() > 0,
        r.times@.len() == r.points@.len(),
        r.gates@.len() == r.points@.len(),
{
    let total: usize = found.path.len();
    let tolerance: Scalar = Scalar { bits: PASSAGE_TOLERANCE };
    let index: Vec<usize> = simplify_idx(&found.path, tolerance, offset);
    proof {
        assert(found.path@.len() == total);
        law_simplified_keeps_order(found.path@, *offset, tolerance, index@);
    }
    let ghost base_pts = Seq::new(index@.len(), |k: int| found.path@[index@[k] as int]);
    let ghost base_times = Seq::new(index@.len(), |k: int| found.times@[index@[k] as int]);
    let n: usize = index.len();
    let mut pts: Vec<Point> = Vec::new();
    let mut times: Vec<Scalar> = Vec::new();
    let mut none: Vec<bool> = Vec::new();
    let mut k: usize = 0;
    while k < n
        invariant
            n == index@.len(),
            k <= n,
            found.times@.len() == found.path@.len(),
            base_pts == Seq::new(index@.len(), |k: int| found.path@[index@[k] as int]),
            base_times == Seq::new(index@.len(), |k: int| found.times@[index@[k] as int]),
            forall|i: int| 0 <= i < n ==> #[trigger] index@[i] < found.path@.len(),
            pts@ =~= base_pts.take(k as int),
            times@ =~= base_times.take(k as int),
            none@ =~= Seq::new(k as nat, |k: int| false),
        decreases n - k,
    {
        pts.push(found.path[index[k]]);
        times.push(found.times[index[k]]);
        none.push(false);
        k = k + 1;
    }
    assert(pts@ =~= base_pts);
    assert(times@ =~= base_times);
    let lens: Vec<Scalar> = measure_legs(&pts, &cut.length);
    let longest_leg: Scalar = largest(&lens);
    assert(longest_leg == peak(lens@));
    if tidal_gates {
        let (dp, dt) = densify_legs(&pts, &times, Scalar { bits: GATE_MAX_LEG_M }, cut);
        proof {
            law_cut_path_keeps_points(
                pts@,
                times@,
                Scalar { bits: GATE_MAX_LEG_M },
                *cut,
                dp@,
                dt@,
            );
        }
        let gates: Vec<bool> = make_gates(&dp, &dt, threshold, tide);
        Passage { points: dp, times: dt, gates, longest_leg }
    } else {
        assert(none@ =~= Seq::new(pts@.len(), |k: int| false));
        Passage { points: pts, times, gates: none, longest_leg }
    }
}

/// A passage begins where its plan begins and ends where it ends, and its last
/// point is no gate.
pub proof fn law_passage_keeps_its_ends<
    O: Fn(Point, Point, Point) -> Scalar,
    N: Fn(Point, Point) -> Scalar,
    K: Fn(Scalar) -> usize,
    X: Fn(Point, Point, usize, usize) -> Point,
    Y: Fn(Scalar, Scalar, usize, usize) -> Scalar,
    T: Fn(Point, Point, Scalar) -> LegTide,
>(
    found: PlanResult,
    tidal_gates: bool,
    threshold: Scalar,
    offset: O,
    cut: Cutter<N, K, X, Y>,
    tide: T,
    r: Passage,
)
    requires
        0 < found.path@.len() <= usize::MAX,
        found.times@.len() == found.path@.len(),
        prepared(found, tidal_gates, threshold, offset, cut, tide, r),
    ensures
        r.points@.len() > 0,
        r.points@.first() == found.path@.first(),
        r.points@.last() == found.path@.last(),
        r.gates@.len() == r.points@.len(),
        !r.gates@.last(),
{
    let tolerance = Scalar { bits: PASSAGE_TOLERANCE };
    let (kept, lens) = choose|kept: Seq<usize>, lens: Seq<Scalar>|
        {
            let pts = Seq::new(kept.len(), |k: int| found.path@[kept[k] as int]);
            let times = Seq::new(kept.len(), |k: int| found.times@[kept[k] as int]);
            &&& #[trigger] simplified(found.path@, offset, tolerance, kept)
            &&& r.longest_leg == #[trigger] peak(lens)
            &&& if tidal_gates {
                &&& densified(
                    pts,
                    times,
                    Scalar { bits: GATE_MAX_LEG_M },
                    cut,
                    r.points@,
                    r.times@,
                )
                &&& gated(tide, threshold, r.points@, r.times@, r.gates@)
            } else {
                &&& r.points@ == pts
                &&& r.gates@ == Seq::new(pts.len(), |k: int| false)
            }
        };
    let pts = Seq::new(kept.len(), |k: int| found.path@[kept[k] as int]);
    let times = Seq::new(kept.len(), |k: int| found.times@[kept[k] as int]);
    law_simplified_keeps_order(found.path@, offset, tolerance, kept);
    if tidal_gates {
        law_cut_path_keeps_points(
            pts,
            times,
            Scalar { bits: GATE_MAX_LEG_M },
            cut,
            r.points@,
            r.times@,
        );
    }
}

/// Number of gates.
pub open spec fn gate_count(gates: Seq<bool>) -> int
    decreases gates.len(),
{
    if gates.len() == 0 {
        0
    } else {
        gate_count(gates.drop_last()) + (if gates.last() {
            1int
        } else {
            0int
        })
    }
}

/// Count the gates.
pub fn count_gates(gates: &Vec<bool>) -> (r: usize)
    ensures
        r == gate_count(gates@),
{
    let n: usize = gates.len();
    let mut r: usize = 0;
    let mut i: usize = 0;
    assert(gates@.take(0) =~= Seq::<bool>::empty());
    while i < n
        invariant
            n == gates@.len(),
            i <= n,
            r <= i,
            r == gate_count(gates@.take(i as int)),
        decreases n - i,
    {
        assert(gates@.take(i + 1).drop_last() =~= gates@.take(i as int));
        if gates[i] {
            r = r + 1;
        }
        i = i + 1;
    }
    assert(gates@.take(n as int) =~= gates@);
    r
}

/// The largest length of a leg behind a gate, and at least zero.
pub open spec fn gated_peak(lens: Seq<Scalar>, gates: Seq<bool>) -> Scalar
    decreases lens.len(),
{
    if lens.len() == 0 {
        Scalar { bits: 0 }
    } else {
        let before = gated_peak(lens.drop_last(), gates);
        if gates[lens.len() - 1] {
            before.larger(lens.last())
        } else {
            before
        }
    }
}

/// The length of the longest leg behind a gate.
pub fn longest_gated_leg(lens: &Vec<Scalar>, gates: &Vec<bool>) -> (r: Scalar)
    requires
        lens@.len() <= gates@.len(),
    ensures
        r == gated_peak(lens@, gates@),
{
    let n: usize = lens.len();
    let mut r: Scalar = Scalar::zero();
    let mut i: usize = 0;
    assert(lens@.take(0) =~= Seq::<Scalar>::empty());
    while i < n
        invariant
            n == lens@.len(),
            n <= gates@.len(),
            i <= n,
            r == gated_peak(lens@.take(i as int), gates@),
        decreases n - i,
    {
        assert(lens@.take(i + 1).drop_last() =~= lens@.take(i as int));
        if gates[i] {
            r = r.max(lens[i]);
        }
        i = i + 1;
    }
    assert(lens@.take(n as int) =~= lens@);
    r
}

/// Speed made good over a passage: what `mean` makes of its length and its time
/// where it takes time, else the fallback.
pub open spec fn nominal_is<F: Fn(Scalar, Scalar) -> Scalar>(
    length_m: Scalar,
    eta_s: Scalar,
    mean: F,
    r: Scalar,
) -> bool {
    if (Scalar { bits: 0 }).below(eta_s) {
        call_ensures(mean, (length_m, eta_s), r)
    } else {
        r == (Scalar { bits: FALLBACK_SPEED })
    }
}

/// Speed made good over a passage.
pub fn nominal_speed<F: Fn(Scalar, Scalar) -> Scalar>(
    length_m: Scalar,
    eta_s: Scalar,
    mean: &F,
) -> (r: Scalar)
    requires
        call_requires(*mean, (length_m, eta_s)),
    ensures
        nominal_is(length_m, eta_s, *mean, r),
{
    if eta_s.gt(Scalar::zero()) {
        mean(length_m, eta_s)
    } else {
        Scalar { bits: FALLBACK_SPEED }
    }
}

/// How foul a stream is waited out, from nine tenths of the speed made good.
pub fn foul_margin(raw: Scalar) -> (r: Scalar)
    ensures
        r == raw.limited(Scalar { bits: LEAST_FOUL_MARGIN }, Scalar { bits: MOST_FOUL_MARGIN }),
{
    raw.clamp(Scalar { bits: LEAST_FOUL_MARGIN }, Scalar { bits: MOST_FOUL_MARGIN })
}

/// The stream along a leg below which it is waited for: foul by more than the
/// margin.
pub fn gate_threshold(margin: Scalar) -> (r: Scalar)
    ensures
        r == margin.flipped(),
{
    margin.neg()
}

/// The speed that a tack is timed with.
pub fn timing_speed(nominal: Scalar) -> (r: Scalar)
    ensures
        r == nominal.larger(Scalar { bits: LEAST_NOMINAL_SPEED }),
{
    nominal.max(Scalar { bits: LEAST_NOMINAL_SPEED })
}

/// The shortest time on one tack of a passage: as long as `raw` asks for, but
/// no shorter than the route asks for, and no longer than the cap unless the
/// route asks for more.
pub fn min_tack(raw: Scalar, base: Scalar) -> (r: Scalar)
    requires
        !base.nan(),
    ensures
        r == raw.limited(base, base.larger(Scalar { bits: MOST_MIN_TACK })),
{
    raw.clamp(base, base.max(Scalar { bits: MOST_MIN_TACK }))
}

/// The fair-tide window of a passage, within its bounds.
pub fn gate_window(raw: Scalar) -> (r: Scalar)
    ensures
        r == raw.limited(Scalar { bits: LEAST_GATE_WINDOW }, Scalar { bits: MOST_GATE_WINDOW }),
{
    raw.clamp(Scalar { bits: LEAST_GATE_WINDOW }, Scalar { bits: MOST_GATE_WINDOW })
}

/// What it takes to make a route of a plan.
pub struct Drafting<O, N, K, X, Y, T, F, G, H, W> {
    /// The distance of a point from the segment between two others.
    pub offset: O,
    pub cut: Cutter<N, K, X, Y>,
    /// The stream along a leg that is begun at a time.
    pub tide: T,
    /// The mean speed over a length and a time.
    pub mean: F,
    /// The foul stream that stops a boat of a speed.
    pub foul: G,
    /// How long to stay on a tack, for the longest leg at a speed.
    pub tack: H,
    /// How long the stream has to be fair, for the longest leg behind a gate.
    pub window: W,
}

/// A passage, and how it is to be sailed.
#[derive(Debug)]
pub struct Draft {
    pub passage: Passage,
    /// Speed made good.
    pub nominal: Scalar,
    /// The least foul stream that is waited out.
    pub margin: Scalar,
    /// Shortest time on a tack.
    pub min_tack_s: Scalar,
    /// Fair-tide window of the gates.
    pub window_s: Scalar,
    /// Number of gates.
    pub gates: usize,
}

impl<
    O: Fn(Point, Point, Point) -> Scalar,
    N: Fn(Point, Point) -> Scalar,
    K: Fn(Scalar) -> usize,
    X: Fn(Point, Point, usize, usize) -> Point,
    Y: Fn(Scalar, Scalar, usize, usize) -> Scalar,
    T: Fn(Point, Point, Scalar) -> LegTide,
    F: Fn(Scalar, Scalar) -> Scalar,
    G: Fn(Scalar) -> Scalar,
    H: Fn(Scalar, Scalar) -> Scalar,
    W: Fn(Scalar) -> Scalar,
> Drafting<O, N, K, X, Y, T, F, G, H, W> {
    /// Everything can be asked for at any time.
    pub open spec fn ready(&self) -> bool {
        &&& forall|p: Point, a: Point, b: Point| call_requires(self.offset, (p, a, b))
        &&& self.cut.ready()
        &&& forall|a: Point, b: Point, t: Scalar| call_requires(self.tide, (a, b, t))
        &&& forall|l: Scalar, t: Scalar| call_requires(self.mean, (l, t))
        &&& forall|v: Scalar| call_requires(self.foul, (v,))
        &&& forall|l: Scalar, v: Scalar| call_requires(self.tack, (l, v))
        &&& forall|l: Scalar| call_requires(self.window, (l,))
    }

    /// The margin goes by the speed made good.
    pub open spec fn margin_is(&self, nominal: Scalar, margin: Scalar) -> bool {
        exists|raw: Scalar| #[trigger]
            call_ensures(self.foul, (nominal,), raw) && margin == raw.limited(
                Scalar { bits: LEAST_FOUL_MARGIN },
                Scalar { bits: MOST_FOUL_MARGIN },
            )
    }

    /// The shortest time on a tack goes by the longest leg and the speed made
    /// good.
    pub open spec fn tack_is(
        &self,
        longest: Scalar,
        nominal: Scalar,
        base: Scalar,
        min_tack_s: Scalar,
    ) -> bool {
        exists|raw: Scalar| #[trigger]
            call_ensures(
                self.tack,
                (longest, nominal.larger(Scalar { bits: LEAST_NOMINAL_SPEED })),
                raw,
            ) && min_tack_s == raw.limited(base, base.larger(Scalar { bits: MOST_MIN_TACK }))
    }

    /// The fair-tide window goes by the longest leg behind a gate.
    pub open spec fn window_is(&self, passage: Passage, window_s: Scalar) -> bool {
        exists|lens: Seq<Scalar>, raw: Scalar|
            {
                &&& leg_lengths(self.cut.length, passage.points@, lens)
                &&& #[trigger] call_ensures(
                    self.window,
                    (gated_peak(lens, passage.gates@),),
                    raw,
                )
                &&& window_s == raw.limited(
                    Scalar { bits: LEAST_GATE_WINDOW },
                    Scalar { bits: MOST_GATE_WINDOW },
                )
            }
    }

    /// `r` is the route of a plan: its gates stand before the legs along which
    /// the stream is foul by more than the margin for the speed made good, and
    /// tack and window go by the same legs.
    pub open spec fn drafted(
        &self,
        found: PlanResult,
        tidal_gates: bool,
        base_tack: Scalar,
        r: Draft,
    ) -> bool {
        &&& nominal_is(found.length_m, found.eta_s, self.mean, r.nominal)
        &&& self.margin_is(r.nominal, r.margin)
        &&& prepared(
            found,
            tidal_gates,
            r.margin.flipped(),
            self.offset,
            self.cut,
            self.tide,
            r.passage,
        )
        &&& self.tack_is(r.passage.longest_leg, r.nominal, base_tack, r.min_tack_s)
        &&& self.window_is(r.passage, r.window_s)
        &&& r.gates == gate_count(r.passage.gates@)
    }
}

/// Make a route of a plan.
pub fn draft_passage<
    O: Fn(Point, Point, Point) -> Scalar,
    N: Fn(Point, Point) -> Scalar,
    K: Fn(Scalar) -> usize,
    X: Fn(Point, Point, usize, usize) -> Point,
    Y: Fn(Scalar, Scalar, usize, usize) -> Scalar,
    T: Fn(Point, Point, Scalar) -> LegTide,
    F: Fn(Scalar, Scalar) -> Scalar,
    G: Fn(Scalar) -> Scalar,
    H: Fn(Scalar, Scalar) -> Scalar,
    W: Fn(Scalar) -> Scalar,
>(
    found: &PlanResult,
    tidal_gates: bool,
    base_tack: Scalar,
    steps: &Drafting<O, N, K, X, Y, T, F, G, H, W>,
) -> (r: Draft)
    requires
        found.path@.len() > 0,
        found.times@.len() == found.path@.len(),
        !base_tack.nan(),
        steps.ready(),
    ensures
        steps.drafted(*found, tidal_gates, base_tack, r),
        r.passage.points@.len() > 0,
        r.passage.times@.len() == r.passage.points@.len(),
        r.passage.gates@.len() == r.passage.points@.len(),
{
    let nominal: Scalar = nominal_speed(found.length_m, found.eta_s, &steps.mean);
    let raw_margin: Scalar = (steps.foul)(nominal);
    let margin: Scalar = foul_margin(raw_margin);
    assert(call_ensures(steps.foul, (nominal,), raw_margin));
    let passage: Passage = prepare_passage(
        found,
        tidal_gates,
        gate_threshold(margin),
        &steps.offset,
        &steps.cut,
        &steps.tide,
    );
    let speed: Scalar = timing_speed(nominal);
    let raw_tack: Scalar = (steps.tack)(passage.longest_leg, speed);
    assert(call_ensures(steps.tack, (passage.longest_leg, speed), raw_tack));
    let min_tack_s: Scalar = min_tack(raw_tack, base_tack);
    let lens: Vec<Scalar> = measure_legs(&passage.points, &steps.cut.length);
    let longest: Scalar = longest_gated_leg(&lens, &passage.gates);
    let raw_window: Scalar = (steps.window)(longest);
    assert(call_ensures(
        steps.window,
        (gated_peak(lens@, passage.gates@),),
        raw_window,
    ));
    let window_s: Scalar = gate_window(raw_window);
    let gates: usize = count_gates(&passage.gates);
    let r = Draft { passage, nominal, margin, min_tack_s, window_s, gates };
    assert(steps.margin_is(r.nominal, r.margin));
    assert(steps.tack_is(r.passage.longest_leg, r.nominal, base_tack, r.min_tack_s));
    assert(steps.window_is(r.passage, r.window_s));
    r
}

/// A short leg, and a leg along which the stream never falls below the
/// threshold, has no gate.
pub proof fn law_no_gate_without_need(leg: LegTide, threshold: Scalar, min_leg_m: Scalar)
    requires
        leg.length.below(min_leg_m) || forall|k: int|
            0 <= k < leg.along@.len() ==> !(#[trigger] leg.along@[k]).below(threshold),
    ensures
        !wants_gate(leg, threshold, min_leg_m),
{
}

/// A smaller margin, which makes for a higher threshold, only adds gates.
pub proof fn law_higher_threshold_adds_gates(
    leg: LegTide,
    low: Scalar,
    high: Scalar,
    min_leg_m: Scalar,
)
    requires
        low.at_most(high),
        wants_gate(leg, low, min_leg_m),
    ensures
        wants_gate(leg, high, min_leg_m),
{
    let k = choose|k: int| 0 <= k < leg.along@.len() && (#[trigger] leg.along@[k]).below(low);
    assert(leg.along@[k].below(high));
}

/// A leg is waited for exactly when it is not too short and the stream along it
/// falls below the threshold at some instant.
pub proof fn law_foul_leg_is_waited_for(leg: LegTide, threshold: Scalar, min_leg_m: Scalar)
    ensures
        leg.length.below(min_leg_m) ==> !wants_gate(leg, threshold, min_leg_m),
        (forall|k: int| 0 <= k < leg.along@.len() ==> !(#[trigger] leg.along@[k]).below(threshold))
            ==> !wants_gate(leg, threshold, min_leg_m),
        forall|k: int|
            !leg.length.below(min_leg_m) && 0 <= k < leg.along@.len()
                && (#[trigger] leg.along@[k]).below(threshold) ==> wants_gate(
                leg,
                threshold,
                min_leg_m,
            ),
{
}

/// Where gates are asked for, a point of a passage is one exactly when the leg
/// behind it, begun at the time of the point, is at least the least length and
/// meets a stream below the threshold at some instant. The last point is none, and
/// where gates are not asked for no point is.
pub proof fn law_gates_stand_before_foul_legs<
    O: Fn(Point, Point, Point) -> Scalar,
    N: Fn(Point, Point) -> Scalar,
    K: Fn(Scalar) -> usize,
    X: Fn(Point, Point, usize, usize) -> Point,
    Y: Fn(Scalar, Scalar, usize, usize) -> Scalar,
    T: Fn(Point, Point, Scalar) -> LegTide,
>(
    found: PlanResult,
    tidal_gates: bool,
    threshold: Scalar,
    offset: O,
    cut: Cutter<N, K, X, Y>,
    tide: T,
    r: Passage,
    i: int,
    leg: LegTide,
)
    requires
        prepared(found, tidal_gates, threshold, offset, cut, tide, r),
        0 <= i < r.points@.len() - 1,
        forall|l: LegTide| #[trigger]
            call_ensures(tide, (r.points@[i], r.points@[i + 1], r.times@[i]), l) ==> l == leg,
    ensures
        r.gates@.len() == r.points@.len(),
        !r.gates@[r.gates@.len() - 1],
        !tidal_gates ==> !r.gates@[i],
        tidal_gates ==> (r.gates@[i] <==> !leg.length.below(Scalar { bits: GATE_MIN_LEG_M })
            && exists|k: int|
            0 <= k < leg.along@.len() && (#[trigger] leg.along@[k]).below(threshold)),
{
    let tolerance = Scalar { bits: PASSAGE_TOLERANCE };
    let (kept, lens) = choose|kept: Seq<usize>, lens: Seq<Scalar>|
        {
            let pts = Seq::new(kept.len(), |k: int| found.path@[kept[k] as int]);
            let times = Seq::new(kept.len(), |k: int| found.times@[kept[k] as int]);
            &&& #[trigger] simplified(found.path@, offset, tolerance, kept)
            &&& leg_lengths(cut.length, pts, lens)
            &&& r.longest_leg == #[trigger] peak(lens)
            &&& if tidal_gates {
                &&& densified(
                    pts,
                    times,
                    Scalar { bits: GATE_MAX_LEG_M },
                    cut,
                    r.points@,
                    r.times@,
                )
                &&& gated(tide, threshold, r.points@, r.times@, r.gates@)
            } else {
                &&& r.points@ == pts
                &&& r.times@ == times
                &&& r.gates@ == Seq::new(pts.len(), |k: int| false)
            }
        };
    if tidal_gates {
        assert(leg_flag(
            tide,
            threshold,
            r.points@[i],
            r.points@[i + 1],
            r.times@[i],
            r.gates@[i],
        ));
    }
}

/// A passage without gates is its plan, thinned: its points are points of the
/// plan, in their order, each with its own time, both ends among them, and what was
/// dropped between two of them lies within the tolerance of the line between them.
pub proof fn law_plain_passage_is_the_thinned_plan<
    O: Fn(Point, Point, Point) -> Scalar,
    N: Fn(Point, Point) -> Scalar,
    K: Fn(Scalar) -> usize,
    X: Fn(Point, Point, usize, usize) -> Point,
    Y: Fn(Scalar, Scalar, usize, usize) -> Scalar,
    T: Fn(Point, Point, Scalar) -> LegTide,
>(
    found: PlanResult,
    threshold: Scalar,
    offset: O,
    cut: Cutter<N, K, X, Y>,
    tide: T,
    r: Passage,
) -> (kept: Seq<usize>)
    requires
        0 < found.path@.len() <= usize::MAX,
        found.times@.len() == found.path@.len(),
        prepared(found, false, threshold, offset, cut, tide, r),
    ensures
        r.points@.len() == kept.len(),
        r.times@.len() == kept.len(),
        kept[0] == 0,
        kept[kept.len() - 1] == found.path@.len() - 1,
        forall|i: int, j: int| 0 <= i < j < kept.len() ==> #[trigger] kept[i] < #[trigger] kept[j],
        forall|k: int|
            0 <= k < kept.len() ==> {
                &&& #[trigger] r.points@[k] == found.path@[kept[k] as int]
                &&& r.times@[k] == found.times@[kept[k] as int]
            },
        simplified(found.path@, offset, Scalar { bits: PASSAGE_TOLERANCE }, kept),
{
    let tidal_gates = false;
    let tolerance = Scalar { bits: PASSAGE_TOLERANCE };
    let (kept, lens) = choose|kept: Seq<usize>, lens: Seq<Scalar>|
        {
            let pts = Seq::new(kept.len(), |k: int| found.path@[kept[k] as int]);
            let times = Seq::new(kept.len(), |k: int| found.times@[kept[k] as int]);
            &&& #[trigger] simplified(found.path@, offset, tolerance, kept)
            &&& leg_lengths(cut.length, pts, lens)
            &&& r.longest_leg == #[trigger] peak(lens)
            &&& if tidal_gates {
                &&& densified(
                    pts,
                    times,
                    Scalar { bits: GATE_MAX_LEG_M },
                    cut,
                    r.points@,
                    r.times@,
                )
                &&& gated(tide, threshold, r.points@, r.times@, r.gates@)
            } else {
                &&& r.points@ == pts
                &&& r.times@ == times
                &&& r.gates@ == Seq::new(pts.len(), |k: int| false)
            }
        };
    law_simplified_keeps_order(found.path@, offset, tolerance, kept);
    kept
}

/// A passage with gates keeps every point of the thinned plan at its own time, in
/// their order, and both ends.
pub proof fn law_gated_passage_is_the_cut_plan<
    O: Fn(Point, Point, Point) -> Scalar,
    N: Fn(Point, Point) -> Scalar,
    K: Fn(Scalar) -> usize,
    X: Fn(Point, Point, usize, usize) -> Point,
    Y: Fn(Scalar, Scalar, usize, usize) -> Scalar,
    T: Fn(Point, Point, Scalar) -> LegTide,
>(
    found: PlanResult,
    threshold: Scalar,
    offset: O,
    cut: Cutter<N, K, X, Y>,
    tide: T,
    r: Passage,
) -> (shape: (Seq<usize>, Seq<int>))
    requires
        0 < found.path@.len() <= usize::MAX,
        found.times@.len() == found.path@.len(),
        prepared(found, true, threshold, offset, cut, tide, r),
    ensures
        ({
            let (kept, at) = shape;
            &&& simplified(found.path@, offset, Scalar { bits: PASSAGE_TOLERANCE }, kept)
            &&& at.len() == kept.len()
            &&& at[0] == 0
            &&& at[at.len() - 1] == r.points@.len() - 1
            &&& forall|i: int, j: int| 0 <= i < j < at.len() ==> #[trigger] at[i] < #[trigger] at[j]
            &&& forall|k: int|
                0 <= k < at.len() ==> {
                    &&& 0 <= #[trigger] at[k] < r.points@.len()
                    &&& r.points@[at[k]] == found.path@[kept[k] as int]
                    &&& r.times@[at[k]] == found.times@[kept[k] as int]
                }
        }),
{
    let tidal_gates = true;
    let tolerance = Scalar { bits: PASSAGE_TOLERANCE };
    let (kept, lens) = choose|kept: Seq<usize>, lens: Seq<Scalar>|
        {
            let pts = Seq::new(kept.len(), |k: int| found.path@[kept[k] as int]);
            let times = Seq::new(kept.len(), |k: int| found.times@[kept[k] as int]);
            &&& #[trigger] simplified(found.path@, offset, tolerance, kept)
            &&& leg_lengths(cut.length, pts, lens)
            &&& r.longest_leg == #[trigger] peak(lens)
            &&& if tidal_gates {
                &&& densified(
                    pts,
                    times,
                    Scalar { bits: GATE_MAX_LEG_M },
                    cut,
                    r.points@,
                    r.times@,
                )
                &&& gated(tide, threshold, r.points@, r.times@, r.gates@)
            } else {
                &&& r.points@ == pts
                &&& r.times@ == times
                &&& r.gates@ == Seq::new(pts.len(), |k: int| false)
            }
        };
    law_simplified_keeps_order(found.path@, offset, tolerance, kept);
    let pts = Seq::new(kept.len(), |k: int| found.path@[kept[k] as int]);
    let times = Seq::new(kept.len(), |k: int| found.times@[kept[k] as int]);
    law_cut_path_keeps_points(
        pts,
        times,
        Scalar { bits: GATE_MAX_LEG_M },
        cut,
        r.points@,
        r.times@,
    );
    let at = choose|at: Seq<int>| #[trigger]
        stand_at(pts, times, r.points@, r.times@, at) && at.first() == 0 && at.last()
            == r.points@.len() - 1;
    (kept, at)
}

/// Cutting up goes leg by leg. The last leg begins at its own point and time, and
/// is left whole unless it is too long; one that is too long is cut into as many
/// parts as are asked for, each point and time between as asked for. What comes
/// before it is the path without that leg, cut up.
pub proof fn law_path_is_cut_leg_by_leg<
    N: Fn(Point, Point) -> Scalar,
    K: Fn(Scalar) -> usize,
    X: Fn(Point, Point, usize, usize) -> Point,
    Y: Fn(Scalar, Scalar, usize, usize) -> Scalar,
>(
    pts: Seq<Point>,
    times: Seq<Scalar>,
    max_len: Scalar,
    cut: Cutter<N, K, X, Y>,
    p: Seq<Point>,
    t: Seq<Scalar>,
    len: Scalar,
    parts: usize,
) -> (at: int)
    requires
        pts.len() == times.len(),
        pts.len() >= 2,
        densified(pts, times, max_len, cut, p, t),
        forall|l: Scalar| #[trigger]
            call_ensures(cut.length, (pts[pts.len() - 2], pts[pts.len() - 1]), l) ==> l == len,
        forall|n: usize| #[trigger] call_ensures(cut.parts, (len,), n) ==> n == parts,
        parts >= 1,
    ensures
        0 <= at < p.len() - 1,
        p.len() == t.len(),
        p[at] == pts[pts.len() - 2],
        t[at] == times[times.len() - 2],
        p[p.len() - 1] == pts[pts.len() - 1],
        t[t.len() - 1] == times[times.len() - 1],
        !max_len.below(len) ==> p.len() == at + 2,
        max_len.below(len) ==> p.len() == at + parts + 1,
        max_len.below(len) ==> forall|k: int|
            1 <= k < parts ==> call_ensures(
                cut.point,
                (pts[pts.len() - 2], pts[pts.len() - 1], k as usize, parts),
                #[trigger] p[at + k],
            ),
        max_len.below(len) ==> forall|k: int|
            1 <= k < parts ==> call_ensures(
                cut.time,
                (times[times.len() - 2], times[times.len() - 1], k as usize, parts),
                #[trigger] t[at + k],
            ),
        densified(pts.drop_last(), times.drop_last(), max_len, cut, p.take(at + 1), t.take(at + 1)),
{
    let n = pts.len() as int;
    let (q, u) = (p.drop_last(), t.drop_last());
    let at = choose|at: int|
        {
            &&& 0 <= at <= q.len()
            &&& at <= u.len()
            &&& legs_cut(pts, times, max_len, cut, n - 2, q.take(at), u.take(at))
            &&& #[trigger] leg_cut(pts, times, max_len, cut, n - 2, q.skip(at), u.skip(at))
        };
    let (a, b) = (q.skip(at), u.skip(at));
    assert(a[0] == q[at] && b[0] == u[at]);
    let l = choose|l: Scalar|
        {
            &&& #[trigger] call_ensures(cut.length, (pts[n - 2], pts[n - 1]), l)
            &&& if max_len.below(l) {
                exists|m: usize|
                    {
                        &&& #[trigger] call_ensures(cut.parts, (l,), m)
                        &&& a.len() == (if m == 0 {
                            1
                        } else {
                            m as int
                        })
                        &&& forall|k: int|
                            1 <= k < m ==> call_ensures(
                                cut.point,
                                (pts[n - 2], pts[n - 1], k as usize, m),
                                #[trigger] a[k],
                            )
                        &&& forall|k: int|
                            1 <= k < m ==> call_ensures(
                                cut.time,
                                (times[n - 2], times[n - 1], k as usize, m),
                                #[trigger] b[k],
                            )
                    }
            } else {
                a.len() == 1
            }
        };
    assert(l == len);
    lemma_cut_legs_keep_points(pts, times, max_len, cut, n - 1, q, u);
    if max_len.below(len) {
        assert forall|k: int| 1 <= k < parts implies call_ensures(
            cut.point,
            (pts[n - 2], pts[n - 1], k as usize, parts),
            #[trigger] p[at + k],
        ) by {
            assert(a[k] == p[at + k]);
        }
        assert forall|k: int| 1 <= k < parts implies call_ensures(
            cut.time,
            (times[n - 2], times[n - 1], k as usize, parts),
            #[trigger] t[at + k],
        ) by {
            assert(b[k] == t[at + k]);
        }
    }
    let (head, clock) = (p.take(at + 1), t.take(at + 1));
    assert(head.drop_last() =~= q.take(at));
    assert(clock.drop_last() =~= u.take(at));
    lemma_cut_legs_of_shorter(pts, times, max_len, cut, n - 2, q.take(at), u.take(at));
    assert(head.last() == pts[n - 2] && clock.last() == times[n - 2]);
    at
}

/// Cutting up the first legs does not look at the last point.
proof fn lemma_cut_legs_of_shorter<
    N: Fn(Point, Point) -> Scalar,
    K: Fn(Scalar) -> usize,
    X: Fn(Point, Point, usize, usize) -> Point,
    Y: Fn(Scalar, Scalar, usize, usize) -> Scalar,
>(
    pts: Seq<Point>,
    times: Seq<Scalar>,
    max_len: Scalar,
    cut: Cutter<N, K, X, Y>,
    i: int,
    p: Seq<Point>,
    t: Seq<Scalar>,
)
    requires
        pts.len() == times.len(),
        0 <= i < pts.len() - 1,
        legs_cut(pts, times, max_len, cut, i, p, t),
    ensures
        legs_cut(pts.drop_last(), times.drop_last(), max_len, cut, i, p, t),
    decreases i,
{
    if i > 0 {
        let at = choose|at: int|
            {
                &&& 0 <= at <= p.len()
                &&& at <= t.len()
                &&& legs_cut(pts, times, max_len, cut, i - 1, p.take(at), t.take(at))
                &&& #[trigger] leg_cut(pts, times, max_len, cut, i - 1, p.skip(at), t.skip(at))
            };
        lemma_cut_legs_of_shorter(pts, times, max_len, cut, i - 1, p.take(at), t.take(at));
        let (fewer, early) = (pts.drop_last(), times.drop_last());
        assert(fewer[i - 1] == pts[i - 1] && fewer[i] == pts[i]);
        assert(early[i - 1] == times[i - 1] && early[i] == times[i]);
        assert(leg_cut(fewer, early, max_len, cut, i - 1, p.skip(at), t.skip(at)));
    }
}

/// Every gate is counted once.
pub proof fn law_gates_are_counted_once(gates: Seq<bool>, last: bool)
    ensures
        gate_count(Seq::empty()) == 0,
        gate_count(gates.push(last)) == gate_count(gates) + (if last {
            1int
        } else {
            0int
        }),
{
    assert(gates.push(last).drop_last() =~= gates);
}

/// The longest leg behind a gate is not shorter than any leg behind a gate, not
/// below zero, and is one of them or zero.
pub proof fn law_longest_gated_leg_is_one_of_them(lens: Seq<Scalar>, gates: Seq<bool>)
    requires
        lens.len() <= gates.len(),
    ensures
        (Scalar { bits: 0 }).at_most(gated_peak(lens, gates)),
        forall|i: int|
            0 <= i < lens.len() && gates[i] ==> !gated_peak(lens, gates).below(#[trigger] lens[i]),
        gated_peak(lens, gates) == (Scalar { bits: 0 }) || exists|i: int|
            0 <= i < lens.len() && gates[i] && gated_peak(lens, gates) == #[trigger] lens[i],
    decreases lens.len(),
{
    if lens.len() > 0 {
        let rest = lens.drop_last();
        law_longest_gated_leg_is_one_of_them(rest, gates);
        let before = gated_peak(rest, gates);
        assert forall|i: int| 0 <= i < lens.len() && gates[i] implies !gated_peak(
            lens,
            gates,
        ).below(#[trigger] lens[i]) by {
            if i < rest.len() {
                assert(!before.below(rest[i]));
            }
        }
        if gated_peak(lens, gates) == before && before != (Scalar { bits: 0 }) {
            let i = choose|i: int| 0 <= i < rest.len() && gates[i] && before == #[trigger] rest[i];
            assert(lens[i] == before);
        } else if gated_peak(lens, gates) != before {
            assert(lens[lens.len() - 1] == gated_peak(lens, gates));
        }
    }
}

/// A draft goes by its plan. The speed made good is the mean one, or the fallback
/// for a passage that takes no time. The margin is what is foul for that speed,
/// within its bounds, and its gates stand before legs that meet a stream foul by
/// more than that. The shortest tack is that for the longest leg at that speed, no
/// shorter than the route asks for and no longer than the cap unless the route asks
/// for more; the window stays within its bounds, and the gates are counted.
pub proof fn law_draft_goes_by_its_plan<
    O: Fn(Point, Point, Point) -> Scalar,
    N: Fn(Point, Point) -> Scalar,
    K: Fn(Scalar) -> usize,
    X: Fn(Point, Point, usize, usize) -> Point,
    Y: Fn(Scalar, Scalar, usize, usize) -> Scalar,
    T: Fn(Point, Point, Scalar) -> LegTide,
    F: Fn(Scalar, Scalar) -> Scalar,
    G: Fn(Scalar) -> Scalar,
    H: Fn(Scalar, Scalar) -> Scalar,
    W: Fn(Scalar) -> Scalar,
>(
    steps: Drafting<O, N, K, X, Y, T, F, G, H, W>,
    found: PlanResult,
    tidal_gates: bool,
    base_tack: Scalar,
    r: Draft,
    foul: Scalar,
    tack: Scalar,
)
    requires
        steps.drafted(found, tidal_gates, base_tack, r),
        forall|x: Scalar| #[trigger] call_ensures(steps.foul, (r.nominal,), x) ==> x == foul,
        !foul.nan(),
        !r.nominal.nan(),
        (Scalar { bits: LEAST_NOMINAL_SPEED }).at_most(r.nominal) ==> forall|x: Scalar| #[trigger]
            call_ensures(steps.tack, (r.passage.longest_leg, r.nominal), x) ==> x == tack,
        r.nominal.below(Scalar { bits: LEAST_NOMINAL_SPEED }) ==> forall|x: Scalar| #[trigger]
            call_ensures(
                steps.tack,
                (r.passage.longest_leg, Scalar { bits: LEAST_NOMINAL_SPEED }),
                x,
            ) ==> x == tack,
        !tack.nan(),
        !base_tack.nan(),
    ensures
        (Scalar { bits: 0 }).below(found.eta_s) ==> call_ensures(
            steps.mean,
            (found.length_m, found.eta_s),
            r.nominal,
        ),
        !(Scalar { bits: 0 }).below(found.eta_s) ==> r.nominal == (Scalar { bits: FALLBACK_SPEED }),
        ({
            let (lo, hi) = (Scalar { bits: LEAST_FOUL_MARGIN }, Scalar { bits: MOST_FOUL_MARGIN });
            &&& lo.at_most(foul) && foul.at_most(hi) ==> r.margin == foul
            &&& foul.below(lo) ==> r.margin == lo
            &&& hi.below(foul) ==> r.margin == hi
        }),
        prepared(
            found,
            tidal_gates,
            r.margin.flipped(),
            steps.offset,
            steps.cut,
            steps.tide,
            r.passage,
        ),
        ({
            let cap = Scalar { bits: MOST_MIN_TACK };
            &&& tack.below(base_tack) ==> r.min_tack_s == base_tack
            &&& base_tack.at_most(tack) && tack.at_most(cap) ==> r.min_tack_s == tack
            &&& base_tack.at_most(cap) && cap.below(tack) ==> r.min_tack_s == cap
            &&& cap.below(base_tack) && base_tack.at_most(tack) ==> r.min_tack_s.same(base_tack)
        }),
        r.gates == gate_count(r.passage.gates@),
{
}

/// The window of a draft is what is asked for over the longest leg behind one of
/// its gates, within its bounds.
pub proof fn law_draft_window_goes_by_the_gated_legs<
    O: Fn(Point, Point, Point) -> Scalar,
    N: Fn(Point, Point) -> Scalar,
    K: Fn(Scalar) -> usize,
    X: Fn(Point, Point, usize, usize) -> Point,
    Y: Fn(Scalar, Scalar, usize, usize) -> Scalar,
    T: Fn(Point, Point, Scalar) -> LegTide,
    F: Fn(Scalar, Scalar) -> Scalar,
    G: Fn(Scalar) -> Scalar,
    H: Fn(Scalar, Scalar) -> Scalar,
    W: Fn(Scalar) -> Scalar,
>(
    steps: Drafting<O, N, K, X, Y, T, F, G, H, W>,
    found: PlanResult,
    tidal_gates: bool,
    base_tack: Scalar,
    r: Draft,
    lens: Seq<Scalar>,
    window: Scalar,
)
    requires
        steps.drafted(found, tidal_gates, base_tack, r),
        r.passage.points@.len() > 0,
        lens.len() == r.passage.points@.len() - 1,
        forall|i: int, l: Scalar|
            0 <= i < lens.len() && #[trigger] call_ensures(
                steps.cut.length,
                (r.passage.points@[i], r.passage.points@[i + 1]),
                l,
            ) ==> l == lens[i],
        forall|x: Scalar| #[trigger]
            call_ensures(steps.window, (gated_peak(lens, r.passage.gates@),), x) ==> x == window,
        !window.nan(),
    ensures
        ({
            let (lo, hi) = (Scalar { bits: LEAST_GATE_WINDOW }, Scalar { bits: MOST_GATE_WINDOW });
            &&& lo.at_most(window) && window.at_most(hi) ==> r.window_s == window
            &&& window.below(lo) ==> r.window_s == lo
            &&& hi.below(window) ==> r.window_s == hi
        }),
{
    let (ls, raw) = choose|ls: Seq<Scalar>, raw: Scalar|
        {
            &&& leg_lengths(steps.cut.length, r.passage.points@, ls)
            &&& #[trigger] call_ensures(steps.window, (gated_peak(ls, r.passage.gates@),), raw)
            &&& r.window_s == raw.limited(
                Scalar { bits: LEAST_GATE_WINDOW },
                Scalar { bits: MOST_GATE_WINDOW },
            )
        };
    assert forall|i: int| 0 <= i < ls.len() implies ls[i] == lens[i] by {
        assert(call_ensures(
            steps.cut.length,
            (r.passage.points@[i], r.passage.points@[i + 1]),
            ls[i],
        ));
    }
    assert(ls =~= lens);
}

/// Legs are cut at 5000 m and gated from 500 m on. The foul margin lies between 0.25 and
/// 1.2 m/s, the shortest tack is 1800 s at most, and the window lies between 600 and
/// 9000 s. A passage without a mean speed is taken at 0.6 m/s and none below 0.1 m/s; a
/// tidal cycle is looked at 49 times.
pub proof fn law_passage_is_set_as_tuned()
    ensures
        GATE_MAX_LEG_M == 0x40b3_8800_0000_0000,
        GATE_MIN_LEG_M == 0x407f_4000_0000_0000,
        LEAST_FOUL_MARGIN == 0x3fd0_0000_0000_0000,
        MOST_FOUL_MARGIN == 0x3ff3_3333_3333_3333,
        MOST_MIN_TACK == 0x409c_2000_0000_0000,
        LEAST_GATE_WINDOW == 0x4082_c000_0000_0000,
        MOST_GATE_WINDOW == 0x40c1_9400_0000_0000,
        FALLBACK_SPEED == 0x3fe3_3333_3333_3333,
        LEAST_NOMINAL_SPEED == 0x3fb9_9999_9999_999a,
        CYCLE_SAMPLES == 49,
{
}

} // verus!
