//! Speed polar: how fast the boat goes through the water on each point of sail.

use vstd::prelude::*;

use crate::scalar::Scalar;

verus! {

/// Pattern of 180: dead downwind, in degrees.
pub const DEAD_RUN: u64 = 0x4066_8000_0000_0000;

/// An angle to the true wind and the speed sailed on it.
pub type Sample = (Scalar, Scalar);

/// The sampled speeds, by ascending angle to the true wind.
#[derive(Debug)]
pub struct Polar {
    twa_deg: Vec<Scalar>,
    speed: Vec<Scalar>,
}

/// No sample stands behind one of a larger angle.
pub open spec fn ascending(s: Seq<Sample>) -> bool {
    forall|i: int, j: int|
        0 <= i < j < s.len() ==> (#[trigger] s[i]).0.rank() <= (#[trigger] s[j]).0.rank()
}

/// The samples of one angle, in order.
pub open spec fn of_angle(s: Seq<Sample>, angle: int) -> Seq<Sample>
    decreases s.len(),
{
    if s.len() == 0 {
        s
    } else if s.last().0.rank() == angle {
        of_angle(s.drop_last(), angle).push(s.last())
    } else {
        of_angle(s.drop_last(), angle)
    }
}

/// Every angle is a number.
pub open spec fn angles_known(s: Seq<Sample>) -> bool {
    forall|i: int| 0 <= i < s.len() ==> !(#[trigger] s[i]).0.nan()
}

proof fn lemma_of_angle_splits(a: Seq<Sample>, b: Seq<Sample>, angle: int)
    ensures
        of_angle(a + b, angle) == of_angle(a, angle) + of_angle(b, angle),
    decreases b.len(),
{
    if b.len() == 0 {
        assert(a + b =~= a);
    } else {
        assert((a + b).drop_last() =~= a + b.drop_last());
        lemma_of_angle_splits(a, b.drop_last(), angle);
        assert(of_angle(a + b, angle) =~= of_angle(a, angle) + of_angle(b, angle));
    }
}

proof fn lemma_of_larger_is_empty(s: Seq<Sample>, angle: int)
    requires
        forall|i: int| 0 <= i < s.len() ==> angle < (#[trigger] s[i]).0.rank(),
    ensures
        of_angle(s, angle) =~= Seq::empty(),
    decreases s.len(),
{
    if s.len() > 0 {
        assert(s.last() == s[s.len() - 1]);
        lemma_of_larger_is_empty(s.drop_last(), angle);
    }
}

/// Putting a sample behind all that are not larger does what appending it
/// does, angle by angle.
proof fn lemma_insert(s: Seq<Sample>, p: int, x: Sample)
    requires
        0 <= p <= s.len(),
        forall|i: int| p <= i < s.len() ==> x.0.rank() < (#[trigger] s[i]).0.rank(),
    ensures
        forall|angle: int| #[trigger]
            of_angle(s.insert(p, x), angle) == of_angle(s.push(x), angle),
{
    assert forall|angle: int| #[trigger]
        of_angle(s.insert(p, x), angle) == of_angle(s.push(x), angle) by {
        let a = s.take(p);
        let b = s.skip(p);
        assert(s.insert(p, x) =~= a.push(x) + b);
        assert(a + b =~= s);
        lemma_of_angle_splits(a.push(x), b, angle);
        lemma_of_angle_splits(a, b, angle);
        assert(a.push(x).drop_last() =~= a);
        assert(s.push(x).drop_last() =~= s);
        if angle == x.0.rank() {
            assert forall|i: int| 0 <= i < b.len() implies angle < (#[trigger] b[i]).0.rank() by {
                assert(b[i] == s[p + i]);
            }
            lemma_of_larger_is_empty(b, angle);
            assert(of_angle(a, angle) + of_angle(b, angle) =~= of_angle(a, angle));
            assert(of_angle(a, angle).push(x) + of_angle(b, angle) =~= of_angle(a, angle).push(x));
        }
    }
}

/// Sort samples by angle, those of one angle staying in order.
fn sort_samples(samples: Vec<Sample>) -> (r: Vec<Sample>)
    requires
        samples@.len() >= 2 ==> angles_known(samples@),
    ensures
        ascending(r@),
        r@.len() == samples@.len(),
        angles_known(samples@) ==> angles_known(r@),
        forall|angle: int| #[trigger] of_angle(r@, angle) == of_angle(samples@, angle),
{
    let n: usize = samples.len();
    let mut r: Vec<Sample> = Vec::new();
    let mut i: usize = 0;
    while i < n
        invariant
            n == samples@.len(),
            i <= n,
            n >= 2 ==> angles_known(samples@),
            r@.len() == i,
            ascending(r@),
            angles_known(samples@) ==> angles_known(r@),
            forall|angle: int| #[trigger]
                of_angle(r@, angle) == of_angle(samples@.take(i as int), angle),
        decreases n - i,
    {
        let x: Sample = samples[i];
        let mut p: usize = i;
        while p > 0 && r[p - 1].0.gt(x.0)
            invariant
                p <= i,
                n == samples@.len(),
                i < n,
                n >= 2 ==> angles_known(samples@),
                angles_known(samples@) ==> angles_known(r@),
                x == samples@[i as int],
                r@.len() == i,
                forall|k: int| p <= k < i ==> x.0.rank() < (#[trigger] r@[k]).0.rank(),
            decreases p,
        {
            p = p - 1;
        }
        proof {
            let old_r = r@;
            lemma_insert(old_r, p as int, x);
            assert(samples@.take(i + 1).drop_last() =~= samples@.take(i as int));
            assert(old_r.push(x).drop_last() =~= old_r);
            assert forall|angle: int| #[trigger]
                of_angle(old_r.insert(p as int, x), angle) == of_angle(
                    samples@.take(i + 1),
                    angle,
                ) by {
                assert(of_angle(old_r, angle) == of_angle(samples@.take(i as int), angle));
            }
            if p > 0 {
                assert(old_r[p - 1].0.rank() <= x.0.rank());
            }
        }
        r.insert(p, x);
        i = i + 1;
    }
    assert(samples@.take(n as int) =~= samples@);
    r
}

/// The angle to the true wind that is looked up: without its side, and folded
/// to at most dead downwind. `fold` brings a larger angle back to the half turn.
/// What is not a number is looked up as dead downwind.
pub open spec fn folded<F: Fn(Scalar) -> Scalar>(twa_deg: Scalar, fold: F, a: Scalar) -> bool {
    let whole = twa_deg.unsigned();
    if whole.nan() {
        a == (Scalar { bits: DEAD_RUN })
    } else if whole.at_most(Scalar { bits: DEAD_RUN }) {
        a == whole
    } else {
        call_ensures(fold, (whole,), a)
    }
}

/// Folding ends between head to wind and dead downwind.
pub open spec fn folds<F: Fn(Scalar) -> Scalar>(fold: F) -> bool {
    &&& forall|x: Scalar|
        (Scalar { bits: DEAD_RUN }).below(x) ==> #[trigger] call_requires(fold, (x,))
    &&& forall|x: Scalar, y: Scalar|
        (Scalar { bits: DEAD_RUN }).below(x) && #[trigger] call_ensures(fold, (x,), y) ==> (
        Scalar { bits: 0 }).at_most(y) && y.at_most(Scalar { bits: DEAD_RUN })
}

/// Sample `i` and the one behind it lie around an angle.
pub open spec fn brackets(s: Seq<Sample>, a: Scalar, i: int) -> bool {
    &&& 0 <= i < s.len() - 1
    &&& s[i].0.at_most(a)
    &&& a.below(s[i + 1].0)
}

/// The speed at a folded angle: none below the smallest sample, the last
/// sample's from the largest on, and between two samples what `lerp` makes of
/// them.
pub open spec fn looked_up<L: Fn(Scalar, Sample, Sample) -> Scalar>(
    s: Seq<Sample>,
    a: Scalar,
    lerp: L,
    r: Scalar,
) -> bool {
    if s.len() == 0 || a.below(s.first().0) {
        r == (Scalar { bits: 0 })
    } else if s.last().0.at_most(a) {
        r == s.last().1
    } else {
        exists|i: int| #[trigger]
            brackets(s, a, i) && call_ensures(lerp, (a, s[i], s[i + 1]), r)
    }
}

/// The speed at an angle to the true wind.
pub open spec fn speed_spec<
    F: Fn(Scalar) -> Scalar,
    L: Fn(Scalar, Sample, Sample) -> Scalar,
>(s: Seq<Sample>, twa_deg: Scalar, fold: F, lerp: L, r: Scalar) -> bool {
    exists|a: Scalar| #[trigger] folded(twa_deg, fold, a) && looked_up(s, a, lerp, r)
}

impl Polar {
    /// The samples, by ascending angle.
    pub closed spec fn samples(&self) -> Seq<Sample> {
        Seq::new(self.twa_deg@.len(), |i: int| (self.twa_deg@[i], self.speed@[i]))
    }

    /// Every angle has a speed, and the angles are known and ascend.
    pub closed spec fn inv(&self) -> bool {
        &&& self.twa_deg@.len() == self.speed@.len()
        &&& ascending(self.samples())
        &&& angles_known(self.samples())
    }

    /// A polar from samples of angle and speed in any order.
    pub fn new(samples: Vec<Sample>) -> (r: Polar)
        requires
            samples@.len() >= 2 ==> angles_known(samples@),
        ensures
            ascending(r.samples()),
            forall|angle: int| #[trigger]
                of_angle(r.samples(), angle) == of_angle(samples@, angle),
            angles_known(samples@) ==> r.inv(),
    {
        let sorted: Vec<Sample> = sort_samples(samples);
        let n: usize = sorted.len();
        let mut twa_deg: Vec<Scalar> = Vec::new();
        let mut speed: Vec<Scalar> = Vec::new();
        let mut i: usize = 0;
        while i < n
            invariant
                n == sorted@.len(),
                i <= n,
                twa_deg@ =~= Seq::new(i as nat, |k: int| sorted@[k].0),
                speed@ =~= Seq::new(i as nat, |k: int| sorted@[k].1),
            decreases n - i,
        {
            twa_deg.push(sorted[i].0);
            speed.push(sorted[i].1);
            i = i + 1;
        }
        let r = Polar { twa_deg, speed };
        assert(r.samples() =~= sorted@);
        r
    }

    /// The sample at or below an angle whose neighbour lies above it.
    fn bracket(&self, a: Scalar) -> (i: usize)
        requires
            self.inv(),
            self.samples().len() > 0,
            self.samples().first().0.at_most(a),
            a.below(self.samples().last().0),
        ensures
            brackets(self.samples(), a, i as int),
    {
        let ghost s = self.samples();
        let n: usize = self.twa_deg.len();
        let mut lo: usize = 0;
        let mut hi: usize = n - 1;
        while hi - lo > 1
            invariant
                lo < hi < n,
                s == self.samples(),
                angles_known(s),
                n == self.twa_deg@.len(),
                s[lo as int].0.at_most(a),
                a.below(s[hi as int].0),
            decreases hi - lo,
        {
            let mid: usize = lo + (hi - lo) / 2;
            assert(!s[mid as int].0.nan());
            if self.twa_deg[mid].le(a) {
                lo = mid;
            } else {
                hi = mid;
            }
        }
        lo
    }

    /// Speed at an angle to the true wind, of either sign. `fold` brings an
    /// angle beyond dead downwind back to the half turn, and `lerp` interpolates
    /// at an angle between two samples.
    pub fn speed_at<F: Fn(Scalar) -> Scalar, L: Fn(Scalar, Sample, Sample) -> Scalar>(
        &self,
        twa_deg: Scalar,
        fold: &F,
        lerp: &L,
    ) -> (r: Scalar)
        requires
            self.inv(),
            folds(*fold),
            forall|a: Scalar, p: Sample, q: Sample| call_requires(*lerp, (a, p, q)),
        ensures
            speed_spec(self.samples(), twa_deg, *fold, *lerp, r),
    {
        let most: Scalar = Scalar { bits: DEAD_RUN };
        let whole: Scalar = twa_deg.abs();
        let a: Scalar = if whole.is_nan() {
            most
        } else if whole.le(most) {
            whole
        } else {
            assert(most.below(whole));
            fold(whole)
        };
        assert(folded(twa_deg, *fold, a));
        assert(!a.nan());
        self.look_up(a, lerp)
    }

    /// Speed at a folded angle.
    fn look_up<L: Fn(Scalar, Sample, Sample) -> Scalar>(&self, a: Scalar, lerp: &L) -> (r: Scalar)
        requires
            self.inv(),
            !a.nan(),
            forall|a: Scalar, p: Sample, q: Sample| call_requires(*lerp, (a, p, q)),
        ensures
            looked_up(self.samples(), a, *lerp, r),
    {
        let ghost s = self.samples();
        let n: usize = self.twa_deg.len();
        assert(s.len() == n);
        if n == 0 || a.lt(self.twa_deg[0]) {
            return Scalar::zero();
        }
        assert(!s[0].0.nan() && !s[n - 1].0.nan());
        if a.ge(self.twa_deg[n - 1]) {
            return self.speed[n - 1];
        }
        let lo: usize = self.bracket(a);
        let r: Scalar = lerp(
            a,
            (self.twa_deg[lo], self.speed[lo]),
            (self.twa_deg[lo + 1], self.speed[lo + 1]),
        );
        assert(brackets(s, a, lo as int) && call_ensures(
            *lerp,
            (a, s[lo as int], s[lo + 1]),
            r,
        ));
        r
    }

    /// Best speed on any point of sail.
    pub fn max_speed(&self) -> (r: Scalar)
        requires
            self.inv(),
        ensures
            r == (Scalar { bits: 0 }) || exists|i: int|
                0 <= i < self.samples().len() && r == (#[trigger] self.samples()[i]).1,
            (Scalar { bits: 0 }).at_most(r),
            forall|i: int|
                0 <= i < self.samples().len() ==> !r.below((#[trigger] self.samples()[i]).1),
    {
        let ghost s = self.samples();
        let n: usize = self.speed.len();
        let mut best: Scalar = Scalar::zero();
        let mut i: usize = 0;
        while i < n
            invariant
                i <= n,
                self.inv(),
                s == self.samples(),
                n == self.speed@.len(),
                best == (Scalar { bits: 0 }) || exists|k: int|
                    0 <= k < s.len() && best == (#[trigger] s[k]).1,
                (Scalar { bits: 0 }).at_most(best),
                forall|k: int| 0 <= k < i ==> !best.below((#[trigger] s[k]).1),
            decreases n - i,
        {
            assert(s[i as int].1 == self.speed@[i as int]);
            best = best.max(self.speed[i]);
            i = i + 1;
        }
        best
    }

    /// Put every speed through `scale`. The angles stay, so what could not be
    /// sailed still cannot.
    pub fn derate<F: Fn(Scalar) -> Scalar>(self, scale: &F) -> (r: Polar)
        requires
            self.inv(),
            forall|v: Scalar| call_requires(*scale, (v,)),
        ensures
            r.inv(),
            derated(self.samples(), *scale, r.samples()),
    {
        let n: usize = self.speed.len();
        let mut speed: Vec<Scalar> = Vec::new();
        let mut i: usize = 0;
        while i < n
            invariant
                i <= n,
                n == self.speed@.len(),
                forall|v: Scalar| call_requires(*scale, (v,)),
                speed@.len() == i,
                forall|k: int|
                    0 <= k < i ==> call_ensures(*scale, (self.speed@[k],), #[trigger] speed@[k]),
            decreases n - i,
        {
            speed.push(scale(self.speed[i]));
            i = i + 1;
        }
        let ghost before = self.samples();
        let r = Polar { twa_deg: self.twa_deg, speed };
        proof {
            assert forall|i: int| 0 <= i < before.len() implies (#[trigger] r.samples()[i]).0
                == before[i].0 by {}
            assert(ascending(r.samples())) by {
                assert forall|i: int, j: int| 0 <= i < j < r.samples().len() implies (
                #[trigger] r.samples()[i]).0.rank() <= (#[trigger] r.samples()[j]).0.rank() by {
                    assert(before[i].0.rank() <= before[j].0.rank());
                }
            }
            assert(angles_known(r.samples())) by {
                assert forall|i: int| 0 <= i < r.samples().len() implies !(
                #[trigger] r.samples()[i]).0.nan() by {
                    assert(!before[i].0.nan());
                }
            }
        }
        r
    }
}

/// At most one pair of neighbouring samples encloses an angle, so the speed
/// between samples is that of the one pair.
pub proof fn law_speed_bracket_is_unique(s: Seq<Sample>, a: Scalar, i: int, j: int)
    requires
        ascending(s),
        angles_known(s),
        brackets(s, a, i),
        brackets(s, a, j),
    ensures
        i == j,
{
    if i < j {
        assert(s[i + 1].0.rank() <= s[j].0.rank());
    }
    if j < i {
        assert(s[j + 1].0.rank() <= s[i].0.rank());
    }
}

/// Sailing on the other side of the wind is as fast.
pub proof fn law_speed_is_symmetric<
    F: Fn(Scalar) -> Scalar,
    L: Fn(Scalar, Sample, Sample) -> Scalar,
>(s: Seq<Sample>, twa_deg: Scalar, fold: F, lerp: L, r: Scalar)
    ensures
        speed_spec(s, twa_deg, fold, lerp, r) == speed_spec(s, twa_deg.flipped(), fold, lerp, r),
{
    assert(twa_deg.unsigned() == twa_deg.flipped().unsigned());
    assert forall|a: Scalar| #[trigger]
        folded(twa_deg, fold, a) == folded(twa_deg.flipped(), fold, a) by {}
    if speed_spec(s, twa_deg.flipped(), fold, lerp, r) {
        let a = choose|a: Scalar| #[trigger]
            folded(twa_deg.flipped(), fold, a) && looked_up(s, a, lerp, r);
        assert(folded(twa_deg, fold, a));
    }
    if speed_spec(s, twa_deg, fold, lerp, r) {
        let a = choose|a: Scalar| #[trigger] folded(twa_deg, fold, a) && looked_up(s, a, lerp, r);
        assert(folded(twa_deg.flipped(), fold, a));
    }
}

/// An angle beyond dead downwind is sailed as fast as the angle that it folds
/// to.
pub proof fn law_folded_angle_is_as_fast<
    F: Fn(Scalar) -> Scalar,
    L: Fn(Scalar, Sample, Sample) -> Scalar,
>(s: Seq<Sample>, twa_deg: Scalar, f: Scalar, fold: F, lerp: L, r: Scalar)
    requires
        folds(fold),
        (Scalar { bits: DEAD_RUN }).below(twa_deg.unsigned()),
        call_ensures(fold, (twa_deg.unsigned(),), f),
        !f.negative(),
        speed_spec(s, f, fold, lerp, r),
    ensures
        speed_spec(s, twa_deg, fold, lerp, r),
{
    assert(f.unsigned() == f);
    assert(folded(twa_deg, fold, f));
    let a = choose|a: Scalar| #[trigger] folded(f, fold, a) && looked_up(s, a, lerp, r);
    assert(a == f);
}

/// The boat makes no way closer to the wind than the smallest sample.
pub proof fn law_no_speed_in_no_go<
    F: Fn(Scalar) -> Scalar,
    L: Fn(Scalar, Sample, Sample) -> Scalar,
>(s: Seq<Sample>, twa_deg: Scalar, fold: F, lerp: L, r: Scalar)
    requires
        s.len() > 0,
        twa_deg.unsigned().at_most(Scalar { bits: DEAD_RUN }),
        twa_deg.unsigned().below(s.first().0),
        speed_spec(s, twa_deg, fold, lerp, r),
    ensures
        r == (Scalar { bits: 0 }),
{
}

/// The samples `t` are the samples `s` with their speeds put through `scale`.
pub open spec fn derated<K: Fn(Scalar) -> Scalar>(
    s: Seq<Sample>,
    scale: K,
    t: Seq<Sample>,
) -> bool {
    &&& t.len() == s.len()
    &&& forall|i: int|
        0 <= i < s.len() ==> (#[trigger] t[i]).0 == s[i].0 && call_ensures(
            scale,
            (s[i].1,),
            t[i].1,
        )
}

/// Scaling what lies between two samples gives what lies between the scaled
/// samples.
pub open spec fn scales_between<
    K: Fn(Scalar) -> Scalar,
    L: Fn(Scalar, Sample, Sample) -> Scalar,
>(scale: K, lerp: L) -> bool {
    forall|a: Scalar, p: Sample, q: Sample, u: Scalar, v: Scalar, r: Scalar, w: Scalar|
        #![trigger call_ensures(lerp, (a, p, q), r), call_ensures(lerp, (a, (p.0, u), (q.0, v)), w)]
        call_ensures(lerp, (a, p, q), r) && call_ensures(scale, (p.1,), u) && call_ensures(
            scale,
            (q.1,),
            v,
        ) && call_ensures(lerp, (a, (p.0, u), (q.0, v)), w) ==> call_ensures(scale, (r,), w)
}

/// A fold that gives one angle for one angle.
pub open spec fn folds_alike<F: Fn(Scalar) -> Scalar>(fold: F) -> bool {
    forall|x: Scalar, y: Scalar, z: Scalar|
        #![trigger call_ensures(fold, (x,), y), call_ensures(fold, (x,), z)]
        call_ensures(fold, (x,), y) && call_ensures(fold, (x,), z) ==> y == z
}

/// A speed of a derated polar is the derated speed: where the boat makes no way
/// it still makes none, and elsewhere the speed is put through the scale. A
/// scale that changes nothing leaves every speed as it was.
pub proof fn law_derating_scales_every_speed<
    F: Fn(Scalar) -> Scalar,
    L: Fn(Scalar, Sample, Sample) -> Scalar,
    K: Fn(Scalar) -> Scalar,
>(
    s: Seq<Sample>,
    t: Seq<Sample>,
    twa_deg: Scalar,
    fold: F,
    lerp: L,
    scale: K,
    r: Scalar,
    w: Scalar,
)
    requires
        ascending(s),
        angles_known(s),
        derated(s, scale, t),
        folds_alike(fold),
        scales_between(scale, lerp),
        speed_spec(s, twa_deg, fold, lerp, r),
        speed_spec(t, twa_deg, fold, lerp, w),
    ensures
        forall|a: Scalar| #[trigger]
            folded(twa_deg, fold, a) ==> if s.len() == 0 || a.below(s.first().0) {
                r == (Scalar { bits: 0 }) && w == (Scalar { bits: 0 })
            } else {
                call_ensures(scale, (r,), w)
            },
        (forall|x: Scalar, y: Scalar| #[trigger] call_ensures(scale, (x,), y) ==> y == x) ==> w
            == r,
{
    let a = choose|a: Scalar| #[trigger] folded(twa_deg, fold, a) && looked_up(s, a, lerp, r);
    let b = choose|a: Scalar| #[trigger] folded(twa_deg, fold, a) && looked_up(t, a, lerp, w);
    assert(a == b);
    if s.len() > 0 {
        assert(t[0].0 == s[0].0);
        assert(t[t.len() - 1].0 == s[s.len() - 1].0);
    }
    if s.len() > 0 && !a.below(s.first().0) && !s.last().0.at_most(a) {
        let i = choose|i: int| #[trigger]
            brackets(s, a, i) && call_ensures(lerp, (a, s[i], s[i + 1]), r);
        let j = choose|j: int| #[trigger]
            brackets(t, a, j) && call_ensures(lerp, (a, t[j], t[j + 1]), w);
        assert(t[j].0 == s[j].0 && t[j + 1].0 == s[j + 1].0);
        law_speed_bracket_is_unique(s, a, i, j);
        assert(t[i] == (s[i].0, t[i].1) && t[i + 1] == (s[i + 1].0, t[i + 1].1));
        assert(call_ensures(lerp, (a, (s[i].0, t[i].1), (s[i + 1].0, t[i + 1].1)), w));
        assert(call_ensures(scale, (r,), w));
    }
    assert forall|c: Scalar| #[trigger] folded(twa_deg, fold, c) implies if s.len() == 0 || c.below(
        s.first().0,
    ) {
        r == (Scalar { bits: 0 }) && w == (Scalar { bits: 0 })
    } else {
        call_ensures(scale, (r,), w)
    } by {
        assert(c == a);
    }
}

/// The speed of a boat at an angle within the half turn is what lies between the
/// two samples around the angle, none below the smallest one, and the speed of
/// the last one from the largest one on. Beyond the half turn it is the speed at
/// the angle that folding gives.
pub proof fn law_speed_is_that_of_its_bracket<
    F: Fn(Scalar) -> Scalar,
    L: Fn(Scalar, Sample, Sample) -> Scalar,
>(s: Seq<Sample>, twa_deg: Scalar, fold: F, lerp: L, r: Scalar, a: Scalar, i: int)
    requires
        ascending(s),
        angles_known(s),
        speed_spec(s, twa_deg, fold, lerp, r),
        twa_deg.unsigned().at_most(Scalar { bits: DEAD_RUN }) ==> a == twa_deg.unsigned(),
        (Scalar { bits: DEAD_RUN }).below(twa_deg.unsigned()) ==> forall|f: Scalar| #[trigger]
            call_ensures(fold, (twa_deg.unsigned(),), f) ==> f == a,
        !twa_deg.nan(),
        !a.nan(),
    ensures
        s.len() == 0 || a.below(s[0].0) ==> r == (Scalar { bits: 0 }),
        s.len() > 0 && s[0].0.at_most(a) && s[s.len() - 1].0.at_most(a) ==> r == s[s.len() - 1].1,
        0 <= i < s.len() - 1 && s[i].0.at_most(a) && a.below(s[i + 1].0) ==> call_ensures(
            lerp,
            (a, s[i], s[i + 1]),
            r,
        ),
{
    let b = choose|b: Scalar| #[trigger] folded(twa_deg, fold, b) && looked_up(s, b, lerp, r);
    assert(b == a);
    if 0 <= i < s.len() - 1 && s[i].0.at_most(a) && a.below(s[i + 1].0) {
        assert(s[0].0.rank() <= s[i].0.rank()) by {
            if i > 0 {
                assert(s[0].0.rank() <= s[i].0.rank());
            }
        }
        assert(s[i + 1].0.rank() <= s[s.len() - 1].0.rank()) by {
            if i + 1 < s.len() - 1 {
                assert(s[i + 1].0.rank() <= s[s.len() - 1].0.rank());
            }
        }
        let j = choose|j: int| #[trigger]
            brackets(s, a, j) && call_ensures(lerp, (a, s[j], s[j + 1]), r);
        assert(brackets(s, a, i));
        law_speed_bracket_is_unique(s, a, i, j);
    }
}

proof fn lemma_of_angle_holds(s: Seq<Sample>, x: Sample)
    ensures
        of_angle(s, x.0.rank()).to_multiset().count(x) == s.to_multiset().count(x),
    decreases s.len(),
{
    broadcast use vstd::seq_lib::group_to_multiset_ensures;

    if s.len() > 0 {
        let rest = s.drop_last();
        lemma_of_angle_holds(rest, x);
        assert(rest.push(s.last()) =~= s);
        assert(s.to_multiset() =~= rest.to_multiset().insert(s.last()));
        let some = of_angle(rest, x.0.rank());
        if s.last().0.rank() == x.0.rank() {
            assert(of_angle(s, x.0.rank()) == some.push(s.last()));
            assert(some.push(s.last()).to_multiset() =~= some.to_multiset().insert(s.last()));
        } else {
            assert(of_angle(s, x.0.rank()) == some);
        }
    }
}

/// Rows with the same samples of every angle hold the same samples, each as often.
pub proof fn law_sorting_keeps_every_sample(s: Seq<Sample>, t: Seq<Sample>)
    requires
        forall|angle: int| #[trigger] of_angle(s, angle) == of_angle(t, angle),
    ensures
        s.to_multiset() =~= t.to_multiset(),
{
    assert forall|x: Sample| s.to_multiset().count(x) == t.to_multiset().count(x) by {
        lemma_of_angle_holds(s, x);
        lemma_of_angle_holds(t, x);
        assert(of_angle(s, x.0.rank()) == of_angle(t, x.0.rank()));
    }
}

/// The samples of a polar ascend: none has a smaller angle than one before it.
pub proof fn law_samples_ascend(s: Seq<Sample>, i: int, j: int)
    requires
        ascending(s),
        0 <= i <= j < s.len(),
    ensures
        !s[j].0.below(s[i].0),
{
}

/// Derating keeps every angle and puts the speed of every sample through the
/// scale.
pub proof fn law_derating_keeps_the_angles<K: Fn(Scalar) -> Scalar>(
    s: Seq<Sample>,
    scale: K,
    t: Seq<Sample>,
    i: int,
)
    requires
        derated(s, scale, t),
        0 <= i < s.len(),
    ensures
        t.len() == s.len(),
        t[i].0 == s[i].0,
        call_ensures(scale, (s[i].1,), t[i].1),
{
}

/// A dead run is 180 degrees off the wind.
pub proof fn law_dead_run_is_a_half_turn()
    ensures
        DEAD_RUN == 0x4066_8000_0000_0000,
{
}

} // verus!
