//! Thinning a dense path to the points that give it its shape.
//!
//! Between two kept points, the point that lies farthest from the line joining
//! them is kept too if it lies farther than a tolerance, and both halves are
//! treated alike. What is dropped lies within the tolerance of the line between
//! its kept neighbours, so tack apexes and corners stay and straight stretches
//! go.

use vstd::prelude::*;

use crate::scalar::{Point, Scalar};

verus! {

/// The distances of the points strictly between `lo` and `hi` from the line
/// that joins these two.
pub open spec fn measured<F: Fn(Point, Point, Point) -> Scalar>(
    path: Seq<Point>,
    dist: F,
    lo: int,
    hi: int,
    d: Seq<Scalar>,
) -> bool {
    &&& d.len() == hi - lo - 1
    &&& forall|j: int|
        0 <= j < d.len() ==> call_ensures(
            dist,
            (path[lo + 1 + j], path[lo], path[hi]),
            #[trigger] d[j],
        )
}

/// Entry `w` is the first of the largest, and above zero.
pub open spec fn farthest(d: Seq<Scalar>, w: int) -> bool {
    &&& 0 <= w < d.len()
    &&& (Scalar { bits: 0 }).below(d[w])
    &&& forall|j: int| 0 <= j < d.len() ==> !d[w].below(#[trigger] d[j])
    &&& forall|j: int| 0 <= j < w ==> !d[w].at_most(#[trigger] d[j])
}

/// A row of distances that calls for no further point: each is within the
/// tolerance, or not above zero.
pub open spec fn close(d: Seq<Scalar>, epsilon: Scalar) -> bool {
    forall|j: int|
        0 <= j < d.len() ==> !epsilon.below(#[trigger] d[j]) || !(Scalar { bits: 0 }).below(d[j])
}

/// `kept` holds, in order, the points strictly between `lo` and `hi` that stay.
pub open spec fn thinned<F: Fn(Point, Point, Point) -> Scalar>(
    path: Seq<Point>,
    dist: F,
    epsilon: Scalar,
    lo: int,
    hi: int,
    kept: Seq<usize>,
) -> bool
    decreases hi - lo,
{
    if hi <= lo + 1 {
        kept.len() == 0
    } else {
        exists|d: Seq<Scalar>| #[trigger]
            measured(path, dist, lo, hi, d) && {
                ||| close(d, epsilon) && kept.len() == 0
                ||| exists|w: int|
                    {
                        let m = lo + 1 + w;
                        &&& #[trigger] farthest(d, w)
                        &&& epsilon.below(d[w])
                        &&& exists|left: Seq<usize>, right: Seq<usize>|
                            {
                                &&& kept == #[trigger] (left.push(m as usize) + right)
                                &&& thinned(path, dist, epsilon, lo, m, left)
                                &&& thinned(path, dist, epsilon, m, hi, right)
                            }
                    }
            }
    }
}

/// Append to `out` the points between `lo` and `hi` that stay.
fn rdp<F: Fn(Point, Point, Point) -> Scalar>(
    path: &Vec<Point>,
    dist: &F,
    epsilon: Scalar,
    lo: usize,
    hi: usize,
    out: &mut Vec<usize>,
)
    requires
        lo <= hi < path@.len(),
        forall|p: Point, a: Point, b: Point| call_requires(*dist, (p, a, b)),
    ensures
        exists|kept: Seq<usize>| #[trigger]
            thinned(path@, *dist, epsilon, lo as int, hi as int, kept) && final(out)@ == old(out)@
                + kept,
    decreases hi - lo,
{
    if hi - lo <= 1 {
        assert(thinned(path@, *dist, epsilon, lo as int, hi as int, Seq::empty()));
        assert(out@ + Seq::<usize>::empty() =~= out@);
        return ;
    }
    let ghost mut d: Seq<Scalar> = Seq::empty();
    let mut index: usize = lo;
    let mut most: Scalar = Scalar::zero();
    let mut i: usize = lo + 1;
    while i < hi
        invariant
            lo < i <= hi,
            lo + 1 < hi < path@.len(),
            forall|p: Point, a: Point, b: Point| call_requires(*dist, (p, a, b)),
            d.len() == i - lo - 1,
            forall|j: int|
                0 <= j < d.len() ==> call_ensures(
                    *dist,
                    (path@[lo + 1 + j], path@[lo as int], path@[hi as int]),
                    #[trigger] d[j],
                ),
            !most.nan(),
            forall|j: int| 0 <= j < d.len() ==> !most.below(#[trigger] d[j]),
            index == lo ==> most == (Scalar { bits: 0 }),
            index != lo ==> lo < index < i && most == d[index - lo - 1] && farthest(
                d,
                index - lo - 1,
            ),
        decreases hi - i,
    {
        let v: Scalar = dist(path[i], path[lo], path[hi]);
        proof {
            d = d.push(v);
        }
        if v.gt(most) {
            most = v;
            index = i;
        }
        i = i + 1;
    }
    assert(measured(path@, *dist, lo as int, hi as int, d));
    if index > lo && most.gt(epsilon) {
        let ghost before = out@;
        rdp(path, dist, epsilon, lo, index, out);
        let ghost left = choose|kept: Seq<usize>| #[trigger]
            thinned(path@, *dist, epsilon, lo as int, index as int, kept) && out@ == before + kept;
        out.push(index);
        let ghost middle = out@;
        rdp(path, dist, epsilon, index, hi, out);
        proof {
            let right = choose|kept: Seq<usize>| #[trigger]
                thinned(path@, *dist, epsilon, index as int, hi as int, kept) && out@ == middle + kept;
            let kept = left.push(index) + right;
            assert(out@ =~= before + kept);
            let w = index - lo - 1;
            assert(farthest(d, w) && epsilon.below(d[w]));
            assert(kept == left.push((lo + 1 + w) as usize) + right);
            assert(thinned(path@, *dist, epsilon, lo as int, hi as int, kept));
        }
    } else {
        proof {
            assert(close(d, epsilon));
            assert(thinned(path@, *dist, epsilon, lo as int, hi as int, Seq::empty()));
            assert(out@ + Seq::<usize>::empty() =~= out@);
        }
    }
}

/// The points of a path that stay, by index: all of a path without inner
/// points, else both ends and what thinning keeps between them.
pub open spec fn simplified<F: Fn(Point, Point, Point) -> Scalar>(
    path: Seq<Point>,
    dist: F,
    epsilon: Scalar,
    kept: Seq<usize>,
) -> bool {
    let n = path.len();
    if n < 3 {
        kept == Seq::new(n as nat, |i: int| i as usize)
    } else {
        exists|inner: Seq<usize>| #[trigger]
            thinned(path, dist, epsilon, 0, n - 1, inner) && kept == seq![0usize] + inner + seq![
                (n - 1) as usize,
            ]
    }
}

/// Indices, in ascending order, of the points of a path that stay. `dist` gives
/// the distance of a point from the line between two others.
pub fn simplify_idx<F: Fn(Point, Point, Point) -> Scalar>(
    path: &Vec<Point>,
    epsilon: Scalar,
    dist: &F,
) -> (r: Vec<usize>)
    requires
        forall|p: Point, a: Point, b: Point| call_requires(*dist, (p, a, b)),
    ensures
        simplified(path@, *dist, epsilon, r@),
{
    let n: usize = path.len();
    let mut out: Vec<usize> = Vec::new();
    if n < 3 {
        let mut i: usize = 0;
        while i < n
            invariant
                i <= n,
                out@ =~= Seq::new(i as nat, |k: int| k as usize),
            decreases n - i,
        {
            out.push(i);
            i = i + 1;
        }
        return out;
    }
    out.push(0);
    assert(out@ =~= seq![0usize]);
    rdp(path, dist, epsilon, 0, n - 1, &mut out);
    let ghost inner = choose|kept: Seq<usize>| #[trigger]
        thinned(path@, *dist, epsilon, 0, n - 1, kept) && out@ == seq![0usize] + kept;
    out.push(n - 1);
    assert(out@ =~= seq![0usize] + inner + seq![(n - 1) as usize]);
    out
}

/// The points of a path that stay.
pub fn simplify<F: Fn(Point, Point, Point) -> Scalar>(
    path: &Vec<Point>,
    epsilon: Scalar,
    dist: &F,
) -> (r: Vec<Point>)
    requires
        forall|p: Point, a: Point, b: Point| call_requires(*dist, (p, a, b)),
    ensures
        exists|kept: Seq<usize>| #[trigger]
            simplified(path@, *dist, epsilon, kept) && r@ == Seq::new(
                kept.len(),
                |k: int| path@[kept[k] as int],
            ),
{
    let total: usize = path.len();
    let index: Vec<usize> = simplify_idx(path, epsilon, dist);
    proof {
        assert(path@.len() == total);
        law_simplified_keeps_order(path@, *dist, epsilon, index@);
    }
    let n: usize = index.len();
    let mut r: Vec<Point> = Vec::new();
    let mut k: usize = 0;
    while k < n
        invariant
            n == index@.len(),
            k <= n,
            forall|i: int| 0 <= i < n ==> #[trigger] index@[i] < path@.len(),
            r@ =~= Seq::new(k as nat, |i: int| path@[index@[i] as int]),
        decreases n - k,
    {
        r.push(path[index[k]]);
        k = k + 1;
    }
    r
}

/// Ascending indices strictly between two bounds.
pub open spec fn between(kept: Seq<usize>, lo: int, hi: int) -> bool {
    &&& forall|i: int| 0 <= i < kept.len() ==> lo < #[trigger] kept[i] < hi
    &&& forall|i: int, j: int| 0 <= i < j < kept.len() ==> #[trigger] kept[i] < #[trigger] kept[j]
}

/// Every point strictly between two neighbours of the row `ends` lies within
/// the tolerance of the line between them, or not above zero.
pub open spec fn hugs<F: Fn(Point, Point, Point) -> Scalar>(
    path: Seq<Point>,
    dist: F,
    epsilon: Scalar,
    ends: Seq<usize>,
) -> bool {
    forall|k: int|
        0 <= k < ends.len() - 1 ==> #[trigger] ends[k] + 1 >= ends[k + 1] || exists|
            d: Seq<Scalar>,
        | #[trigger] measured(path, dist, ends[k] as int, ends[k + 1] as int, d) && close(d, epsilon)
}

proof fn lemma_thinned<F: Fn(Point, Point, Point) -> Scalar>(
    path: Seq<Point>,
    dist: F,
    epsilon: Scalar,
    lo: int,
    hi: int,
    kept: Seq<usize>,
)
    requires
        0 <= lo <= hi <= usize::MAX,
        thinned(path, dist, epsilon, lo, hi, kept),
    ensures
        between(kept, lo, hi),
        hugs(path, dist, epsilon, seq![lo as usize] + kept + seq![hi as usize]),
    decreases hi - lo,
{
    let ends = seq![lo as usize] + kept + seq![hi as usize];
    if hi <= lo + 1 {
    } else {
        let d = choose|d: Seq<Scalar>| #[trigger]
            measured(path, dist, lo, hi, d) && {
                ||| close(d, epsilon) && kept.len() == 0
                ||| exists|w: int|
                    {
                        let m = lo + 1 + w;
                        &&& #[trigger] farthest(d, w)
                        &&& epsilon.below(d[w])
                        &&& exists|left: Seq<usize>, right: Seq<usize>|
                            {
                                &&& kept == #[trigger] (left.push(m as usize) + right)
                                &&& thinned(path, dist, epsilon, lo, m, left)
                                &&& thinned(path, dist, epsilon, m, hi, right)
                            }
                    }
            };
        if close(d, epsilon) && kept.len() == 0 {
            assert(ends[0] == lo && ends[1] == hi);
            assert forall|k: int| 0 <= k < ends.len() - 1 implies #[trigger] ends[k] + 1
                >= ends[k + 1] || exists|d: Seq<Scalar>| #[trigger]
                measured(path, dist, ends[k] as int, ends[k + 1] as int, d) && close(d, epsilon) by {
                assert(measured(path, dist, ends[k] as int, ends[k + 1] as int, d));
            }
        } else {
            let w = choose|w: int|
                {
                    let m = lo + 1 + w;
                    &&& #[trigger] farthest(d, w)
                    &&& epsilon.below(d[w])
                    &&& exists|left: Seq<usize>, right: Seq<usize>|
                        {
                            &&& kept == #[trigger] (left.push(m as usize) + right)
                            &&& thinned(path, dist, epsilon, lo, m, left)
                            &&& thinned(path, dist, epsilon, m, hi, right)
                        }
                };
            let m = lo + 1 + w;
            let (left, right) = choose|left: Seq<usize>, right: Seq<usize>|
                {
                    &&& kept == #[trigger] (left.push(m as usize) + right)
                    &&& thinned(path, dist, epsilon, lo, m, left)
                    &&& thinned(path, dist, epsilon, m, hi, right)
                };
            lemma_thinned(path, dist, epsilon, lo, m, left);
            lemma_thinned(path, dist, epsilon, m, hi, right);
            let a = seq![lo as usize] + left + seq![m as usize];
            let b = seq![m as usize] + right + seq![hi as usize];
            assert forall|k: int| 0 <= k < ends.len() - 1 implies #[trigger] ends[k] + 1
                >= ends[k + 1] || exists|d: Seq<Scalar>| #[trigger]
                measured(path, dist, ends[k] as int, ends[k + 1] as int, d) && close(d, epsilon) by {
                if k <= left.len() {
                    assert(ends[k] == a[k] && ends[k + 1] == a[k + 1]);
                } else {
                    let j = k - left.len() - 1;
                    assert(ends[k] == b[j] && ends[k + 1] == b[j + 1]);
                }
            }
        }
    }
}

/// What stays is in ascending order, both ends of the path among it.
pub proof fn law_simplified_keeps_order<F: Fn(Point, Point, Point) -> Scalar>(
    path: Seq<Point>,
    dist: F,
    epsilon: Scalar,
    kept: Seq<usize>,
)
    requires
        path.len() <= usize::MAX,
        simplified(path, dist, epsilon, kept),
    ensures
        path.len() > 0 ==> kept.len() > 0 && kept.first() == 0 && kept.last() == path.len() - 1,
        path.len() >= 2 ==> kept.len() >= 2,
        kept.len() <= path.len(),
        between(kept, -1, path.len() as int),
{
    let n = path.len() as int;
    if n >= 3 {
        let inner = choose|inner: Seq<usize>| #[trigger]
            thinned(path, dist, epsilon, 0, n - 1, inner) && kept == seq![0usize] + inner + seq![
                (n - 1) as usize,
            ];
        lemma_thinned(path, dist, epsilon, 0, n - 1, inner);
        assert forall|i: int, j: int| 0 <= i < j < kept.len() implies #[trigger] kept[i]
            < #[trigger] kept[j] by {
            if 0 < i {
                assert(kept[i] == inner[i - 1]);
            }
            if j < kept.len() - 1 {
                assert(kept[j] == inner[j - 1]);
            }
        }
    }
    lemma_ascending_is_short(kept, n);
}

proof fn lemma_ascending_is_short(kept: Seq<usize>, n: int)
    requires
        0 <= n,
        between(kept, -1, n),
    ensures
        kept.len() <= n,
    decreases kept.len(),
{
    if kept.len() > 0 {
        let rest = kept.drop_last();
        let last = kept.last() as int;
        assert(between(rest, -1, last)) by {
            assert forall|i: int| 0 <= i < rest.len() implies -1 < #[trigger] rest[i] < last by {
                assert(kept[i] < kept[kept.len() - 1]);
            }
        }
        lemma_ascending_is_short(rest, last);
    }
}

/// A point that was dropped lies within the tolerance of the line between its
/// kept neighbours.
pub proof fn law_dropped_points_are_close<F: Fn(Point, Point, Point) -> Scalar>(
    path: Seq<Point>,
    dist: F,
    epsilon: Scalar,
    kept: Seq<usize>,
)
    requires
        path.len() <= usize::MAX,
        simplified(path, dist, epsilon, kept),
    ensures
        hugs(path, dist, epsilon, kept),
{
    let n = path.len() as int;
    if n >= 3 {
        let inner = choose|inner: Seq<usize>| #[trigger]
            thinned(path, dist, epsilon, 0, n - 1, inner) && kept == seq![0usize] + inner + seq![
                (n - 1) as usize,
            ];
        lemma_thinned(path, dist, epsilon, 0, n - 1, inner);
    }
}

/// The distance of three points is always the same.
pub open spec fn repeats<F: Fn(Point, Point, Point) -> Scalar>(dist: F) -> bool {
    forall|p: Point, a: Point, b: Point, x: Scalar, y: Scalar|
        #![trigger call_ensures(dist, (p, a, b), x), call_ensures(dist, (p, a, b), y)]
        call_ensures(dist, (p, a, b), x) && call_ensures(dist, (p, a, b), y) ==> x == y
}

proof fn lemma_farthest_is_unique(d: Seq<Scalar>, v: int, w: int)
    requires
        farthest(d, v),
        farthest(d, w),
    ensures
        v == w,
{
    if v < w {
        assert(!d[w].at_most(d[v]));
        assert(!d[v].below(d[w]));
    }
    if w < v {
        assert(!d[v].at_most(d[w]));
        assert(!d[w].below(d[v]));
    }
}

proof fn lemma_larger_tolerance<F: Fn(Point, Point, Point) -> Scalar>(
    path: Seq<Point>,
    dist: F,
    fine: Scalar,
    coarse: Scalar,
    lo: int,
    hi: int,
    many: Seq<usize>,
    few: Seq<usize>,
)
    requires
        repeats(dist),
        fine.at_most(coarse),
        thinned(path, dist, fine, lo, hi, many),
        thinned(path, dist, coarse, lo, hi, few),
    ensures
        few.len() <= many.len(),
        forall|i: int| 0 <= i < few.len() ==> many.contains(#[trigger] few[i]),
    decreases hi - lo,
{
    if hi > lo + 1 && few.len() > 0 {
        let d = choose|d: Seq<Scalar>| #[trigger]
            measured(path, dist, lo, hi, d) && {
                ||| close(d, coarse) && few.len() == 0
                ||| exists|w: int|
                    {
                        let m = lo + 1 + w;
                        &&& #[trigger] farthest(d, w)
                        &&& coarse.below(d[w])
                        &&& exists|left: Seq<usize>, right: Seq<usize>|
                            {
                                &&& few == #[trigger] (left.push(m as usize) + right)
                                &&& thinned(path, dist, coarse, lo, m, left)
                                &&& thinned(path, dist, coarse, m, hi, right)
                            }
                    }
            };
        let w = choose|w: int|
            {
                let m = lo + 1 + w;
                &&& #[trigger] farthest(d, w)
                &&& coarse.below(d[w])
                &&& exists|left: Seq<usize>, right: Seq<usize>|
                    {
                        &&& few == #[trigger] (left.push(m as usize) + right)
                        &&& thinned(path, dist, coarse, lo, m, left)
                        &&& thinned(path, dist, coarse, m, hi, right)
                    }
            };
        let m = lo + 1 + w;
        let (left, right) = choose|left: Seq<usize>, right: Seq<usize>|
            {
                &&& few == #[trigger] (left.push(m as usize) + right)
                &&& thinned(path, dist, coarse, lo, m, left)
                &&& thinned(path, dist, coarse, m, hi, right)
            };
        let e = choose|d: Seq<Scalar>| #[trigger]
            measured(path, dist, lo, hi, d) && {
                ||| close(d, fine) && many.len() == 0
                ||| exists|w: int|
                    {
                        let m = lo + 1 + w;
                        &&& #[trigger] farthest(d, w)
                        &&& fine.below(d[w])
                        &&& exists|left: Seq<usize>, right: Seq<usize>|
                            {
                                &&& many == #[trigger] (left.push(m as usize) + right)
                                &&& thinned(path, dist, fine, lo, m, left)
                                &&& thinned(path, dist, fine, m, hi, right)
                            }
                    }
            };
        assert forall|j: int| 0 <= j < d.len() implies d[j] == e[j] by {
            assert(call_ensures(dist, (path[lo + 1 + j], path[lo], path[hi]), d[j]));
            assert(call_ensures(dist, (path[lo + 1 + j], path[lo], path[hi]), e[j]));
        }
        assert(d =~= e);
        assert(fine.below(d[w]));
        assert(!close(e, fine)) by {
            assert(fine.below(e[w]) && (Scalar { bits: 0 }).below(e[w]));
        }
        let v = choose|v: int|
            {
                let m = lo + 1 + v;
                &&& #[trigger] farthest(e, v)
                &&& fine.below(e[v])
                &&& exists|left: Seq<usize>, right: Seq<usize>|
                    {
                        &&& many == #[trigger] (left.push(m as usize) + right)
                        &&& thinned(path, dist, fine, lo, m, left)
                        &&& thinned(path, dist, fine, m, hi, right)
                    }
            };
        lemma_farthest_is_unique(d, v, w);
        let (l, r) = choose|left: Seq<usize>, right: Seq<usize>|
            {
                &&& many == #[trigger] (left.push(m as usize) + right)
                &&& thinned(path, dist, fine, lo, m, left)
                &&& thinned(path, dist, fine, m, hi, right)
            };
        lemma_larger_tolerance(path, dist, fine, coarse, lo, m, l, left);
        lemma_larger_tolerance(path, dist, fine, coarse, m, hi, r, right);
        assert forall|i: int| 0 <= i < few.len() implies many.contains(#[trigger] few[i]) by {
            if i < left.len() {
                assert(few[i] == left[i]);
                let j = l.index_of(left[i]);
                assert(many[j] == l[j]);
            } else if i == left.len() {
                assert(many[l.len() as int] == m as usize);
            } else {
                let k = i - left.len() - 1;
                assert(few[i] == right[k]);
                assert(r.contains(right[k]));
                let j = r.index_of(right[k]);
                assert(many[l.len() + 1 + j] == r[j]);
            }
        }
    }
}

/// A larger tolerance keeps fewer points, and none that a smaller one drops.
pub proof fn law_larger_tolerance_keeps_fewer<F: Fn(Point, Point, Point) -> Scalar>(
    path: Seq<Point>,
    dist: F,
    fine: Scalar,
    coarse: Scalar,
    many: Seq<usize>,
    few: Seq<usize>,
)
    requires
        repeats(dist),
        fine.at_most(coarse),
        simplified(path, dist, fine, many),
        simplified(path, dist, coarse, few),
    ensures
        few.len() <= many.len(),
        forall|i: int| 0 <= i < few.len() ==> many.contains(#[trigger] few[i]),
{
    let n = path.len() as int;
    if n < 3 {
        assert(few =~= many);
        assert forall|i: int| 0 <= i < few.len() implies many.contains(#[trigger] few[i]) by {
            assert(many[i] == few[i]);
        }
    } else {
        let a = choose|inner: Seq<usize>| #[trigger]
            thinned(path, dist, fine, 0, n - 1, inner) && many == seq![0usize] + inner + seq![
                (n - 1) as usize,
            ];
        let b = choose|inner: Seq<usize>| #[trigger]
            thinned(path, dist, coarse, 0, n - 1, inner) && few == seq![0usize] + inner + seq![
                (n - 1) as usize,
            ];
        lemma_larger_tolerance(path, dist, fine, coarse, 0, n - 1, a, b);
        assert forall|i: int| 0 <= i < few.len() implies many.contains(#[trigger] few[i]) by {
            if i == 0 {
                assert(many[0] == 0);
            } else if i == few.len() - 1 {
                assert(many[many.len() - 1] == (n - 1) as usize);
            } else {
                assert(few[i] == b[i - 1]);
                assert(a.contains(b[i - 1]));
                let j = a.index_of(b[i - 1]);
                assert(many[j + 1] == a[j]);
            }
        }
    }
}

/// A point between two neighbours of what stays lies no farther from the line
/// between them than the tolerance, or not above zero.
pub proof fn law_dropped_point_is_within_the_tolerance<F: Fn(Point, Point, Point) -> Scalar>(
    path: Seq<Point>,
    dist: F,
    epsilon: Scalar,
    kept: Seq<usize>,
    k: int,
    i: int,
    d: Scalar,
)
    requires
        path.len() <= usize::MAX,
        repeats(dist),
        simplified(path, dist, epsilon, kept),
        0 <= k < kept.len() - 1,
        kept[k] < i < kept[k + 1],
        call_ensures(dist, (path[i], path[kept[k] as int], path[kept[k + 1] as int]), d),
    ensures
        !epsilon.below(d) || !(Scalar { bits: 0 }).below(d),
{
    law_dropped_points_are_close(path, dist, epsilon, kept);
    let (lo, hi) = (kept[k] as int, kept[k + 1] as int);
    let row = choose|row: Seq<Scalar>| #[trigger]
        measured(path, dist, lo, hi, row) && close(row, epsilon);
    let j = i - lo - 1;
    assert(call_ensures(dist, (path[lo + 1 + j], path[lo], path[hi]), row[j]));
    assert(row[j] == d);
}

/// A path that strays nowhere farther than the tolerance from the line between its
/// ends is thinned to its ends.
pub proof fn law_straight_path_is_thinned_to_its_ends<F: Fn(Point, Point, Point) -> Scalar>(
    path: Seq<Point>,
    dist: F,
    epsilon: Scalar,
    kept: Seq<usize>,
)
    requires
        3 <= path.len() <= usize::MAX,
        simplified(path, dist, epsilon, kept),
        forall|i: int, d: Scalar|
            0 < i < path.len() - 1 && #[trigger] call_ensures(
                dist,
                (path[i], path[0], path[path.len() - 1]),
                d,
            ) ==> d.at_most(epsilon),
    ensures
        kept == seq![0usize, (path.len() - 1) as usize],
{
    let n = path.len() as int;
    let inner = choose|inner: Seq<usize>| #[trigger]
        thinned(path, dist, epsilon, 0, n - 1, inner) && kept == seq![0usize] + inner + seq![
            (n - 1) as usize,
        ];
    let d = choose|d: Seq<Scalar>| #[trigger]
        measured(path, dist, 0, n - 1, d) && {
            ||| close(d, epsilon) && inner.len() == 0
            ||| exists|w: int|
                {
                    let m = 0 + 1 + w;
                    &&& #[trigger] farthest(d, w)
                    &&& epsilon.below(d[w])
                    &&& exists|left: Seq<usize>, right: Seq<usize>|
                        {
                            &&& inner == #[trigger] (left.push(m as usize) + right)
                            &&& thinned(path, dist, epsilon, 0, m, left)
                            &&& thinned(path, dist, epsilon, m, n - 1, right)
                        }
                }
        };
    assert forall|w: int| farthest(d, w) implies !epsilon.below(#[trigger] d[w]) by {
        assert(call_ensures(dist, (path[0 + 1 + w], path[0], path[n - 1]), d[w]));
    }
    assert(inner.len() == 0);
    assert(kept =~= seq![0usize, (n - 1) as usize]);
}

/// The point that strays farthest from the line between the ends of a path, the
/// first one of several, stays where it strays farther than the tolerance.
pub proof fn law_farthest_corner_stays<F: Fn(Point, Point, Point) -> Scalar>(
    path: Seq<Point>,
    dist: F,
    epsilon: Scalar,
    kept: Seq<usize>,
    m: int,
    most: Scalar,
)
    requires
        3 <= path.len() <= usize::MAX,
        repeats(dist),
        simplified(path, dist, epsilon, kept),
        0 < m < path.len() - 1,
        call_ensures(dist, (path[m], path[0], path[path.len() - 1]), most),
        (Scalar { bits: 0 }).below(most),
        epsilon.below(most),
        forall|i: int, d: Scalar|
            0 < i < path.len() - 1 && #[trigger] call_ensures(
                dist,
                (path[i], path[0], path[path.len() - 1]),
                d,
            ) ==> !most.below(d) && (i < m ==> !most.at_most(d)),
    ensures
        kept.contains(m as usize),
{
    let n = path.len() as int;
    let inner = choose|inner: Seq<usize>| #[trigger]
        thinned(path, dist, epsilon, 0, n - 1, inner) && kept == seq![0usize] + inner + seq![
            (n - 1) as usize,
        ];
    let d = choose|d: Seq<Scalar>| #[trigger]
        measured(path, dist, 0, n - 1, d) && {
            ||| close(d, epsilon) && inner.len() == 0
            ||| exists|w: int|
                {
                    let m = 0 + 1 + w;
                    &&& #[trigger] farthest(d, w)
                    &&& epsilon.below(d[w])
                    &&& exists|left: Seq<usize>, right: Seq<usize>|
                        {
                            &&& inner == #[trigger] (left.push(m as usize) + right)
                            &&& thinned(path, dist, epsilon, 0, m, left)
                            &&& thinned(path, dist, epsilon, m, n - 1, right)
                        }
                }
        };
    let at = m - 1;
    assert(call_ensures(dist, (path[0 + 1 + at], path[0], path[n - 1]), d[at]));
    assert(d[at] == most);
    assert(!close(d, epsilon));
    assert forall|j: int| 0 <= j < d.len() implies !d[at].below(#[trigger] d[j]) && (j < at
        ==> !d[at].at_most(d[j])) by {
        assert(call_ensures(dist, (path[0 + 1 + j], path[0], path[n - 1]), d[j]));
    }
    assert(farthest(d, at));
    let w = choose|w: int|
        {
            let m = 0 + 1 + w;
            &&& #[trigger] farthest(d, w)
            &&& epsilon.below(d[w])
            &&& exists|left: Seq<usize>, right: Seq<usize>|
                {
                    &&& inner == #[trigger] (left.push(m as usize) + right)
                    &&& thinned(path, dist, epsilon, 0, m, left)
                    &&& thinned(path, dist, epsilon, m, n - 1, right)
                }
        };
    lemma_farthest_is_unique(d, at, w);
    let (left, right) = choose|left: Seq<usize>, right: Seq<usize>|
        {
            &&& inner == #[trigger] (left.push(m as usize) + right)
            &&& thinned(path, dist, epsilon, 0, m, left)
            &&& thinned(path, dist, epsilon, m, n - 1, right)
        };
    assert(inner[left.len() as int] == m as usize);
    assert(kept[left.len() as int + 1] == m as usize);
}

/// What stays is in ascending order and begins and ends with the ends of the path;
/// a path without inner points stays whole.
pub proof fn law_kept_points_ascend<F: Fn(Point, Point, Point) -> Scalar>(
    path: Seq<Point>,
    dist: F,
    epsilon: Scalar,
    kept: Seq<usize>,
)
    requires
        0 < path.len() <= usize::MAX,
        simplified(path, dist, epsilon, kept),
    ensures
        kept.len() > 0,
        kept[0] == 0,
        kept[kept.len() - 1] == path.len() - 1,
        forall|i: int, j: int| 0 <= i < j < kept.len() ==> #[trigger] kept[i] < #[trigger] kept[j],
        path.len() <= 2 ==> kept.len() == path.len(),
{
    law_simplified_keeps_order(path, dist, epsilon, kept);
}

/// What thinning between two points came to: the distances, and the place where it
/// went on on either side, or none.
proof fn lemma_thinning_step<F: Fn(Point, Point, Point) -> Scalar>(
    path: Seq<Point>,
    dist: F,
    epsilon: Scalar,
    lo: int,
    hi: int,
    kept: Seq<usize>,
) -> (r: (Seq<Scalar>, int, Seq<usize>, Seq<usize>))
    requires
        hi > lo + 1,
        thinned(path, dist, epsilon, lo, hi, kept),
    ensures
        measured(path, dist, lo, hi, r.0),
        r.1 < 0 ==> close(r.0, epsilon) && kept.len() == 0,
        r.1 >= 0 ==> {
            &&& farthest(r.0, r.1)
            &&& epsilon.below(r.0[r.1])
            &&& kept == r.2.push((lo + 1 + r.1) as usize) + r.3
            &&& thinned(path, dist, epsilon, lo, lo + 1 + r.1, r.2)
            &&& thinned(path, dist, epsilon, lo + 1 + r.1, hi, r.3)
        },
{
    let d = choose|d: Seq<Scalar>| #[trigger]
        measured(path, dist, lo, hi, d) && {
            ||| close(d, epsilon) && kept.len() == 0
            ||| exists|w: int|
                {
                    let m = lo + 1 + w;
                    &&& #[trigger] farthest(d, w)
                    &&& epsilon.below(d[w])
                    &&& exists|left: Seq<usize>, right: Seq<usize>|
                        {
                            &&& kept == #[trigger] (left.push(m as usize) + right)
                            &&& thinned(path, dist, epsilon, lo, m, left)
                            &&& thinned(path, dist, epsilon, m, hi, right)
                        }
                }
        };
    if close(d, epsilon) && kept.len() == 0 {
        (d, -1, Seq::empty(), Seq::empty())
    } else {
        let w = choose|w: int|
            {
                let m = lo + 1 + w;
                &&& #[trigger] farthest(d, w)
                &&& epsilon.below(d[w])
                &&& exists|left: Seq<usize>, right: Seq<usize>|
                    {
                        &&& kept == #[trigger] (left.push(m as usize) + right)
                        &&& thinned(path, dist, epsilon, lo, m, left)
                        &&& thinned(path, dist, epsilon, m, hi, right)
                    }
            };
        let m = lo + 1 + w;
        let (left, right) = choose|left: Seq<usize>, right: Seq<usize>|
            {
                &&& kept == #[trigger] (left.push(m as usize) + right)
                &&& thinned(path, dist, epsilon, lo, m, left)
                &&& thinned(path, dist, epsilon, m, hi, right)
            };
        (d, w, left, right)
    }
}

proof fn lemma_measured_alike<F: Fn(Point, Point, Point) -> Scalar>(
    path: Seq<Point>,
    dist: F,
    lo: int,
    hi: int,
    d: Seq<Scalar>,
    e: Seq<Scalar>,
)
    requires
        repeats(dist),
        measured(path, dist, lo, hi, d),
        measured(path, dist, lo, hi, e),
    ensures
        d == e,
{
    assert forall|j: int| 0 <= j < d.len() implies d[j] == e[j] by {
        assert(call_ensures(dist, (path[lo + 1 + j], path[lo], path[hi]), d[j]));
        assert(call_ensures(dist, (path[lo + 1 + j], path[lo], path[hi]), e[j]));
    }
    assert(d =~= e);
}

/// Thinning comes to one result only.
proof fn lemma_thinning_is_unique<F: Fn(Point, Point, Point) -> Scalar>(
    path: Seq<Point>,
    dist: F,
    epsilon: Scalar,
    lo: int,
    hi: int,
    a: Seq<usize>,
    b: Seq<usize>,
)
    requires
        repeats(dist),
        thinned(path, dist, epsilon, lo, hi, a),
        thinned(path, dist, epsilon, lo, hi, b),
    ensures
        a == b,
    decreases hi - lo,
{
    if hi <= lo + 1 {
        assert(a =~= b);
    } else {
        let p = lemma_thinning_step(path, dist, epsilon, lo, hi, a);
        let q = lemma_thinning_step(path, dist, epsilon, lo, hi, b);
        lemma_measured_alike(path, dist, lo, hi, p.0, q.0);
        if p.1 >= 0 && q.1 >= 0 {
            lemma_farthest_is_unique(p.0, p.1, q.1);
            let m = lo + 1 + p.1;
            lemma_thinning_is_unique(path, dist, epsilon, lo, m, p.2, q.2);
            lemma_thinning_is_unique(path, dist, epsilon, m, hi, p.3, q.3);
        } else {
            assert(p.1 >= 0 ==> (Scalar { bits: 0 }).below(p.0[p.1]));
            assert(q.1 >= 0 ==> (Scalar { bits: 0 }).below(q.0[q.1]));
            assert(a =~= b);
        }
    }
}

/// Indices moved on.
spec fn moved(kept: Seq<usize>, by: int) -> Seq<usize> {
    Seq::new(kept.len(), |i: int| (kept[i] + by) as usize)
}

/// A part of a path is thinned as it is within the path.
proof fn lemma_part_is_thinned_alike<F: Fn(Point, Point, Point) -> Scalar>(
    path: Seq<Point>,
    part: Seq<Point>,
    by: int,
    dist: F,
    epsilon: Scalar,
    lo: int,
    hi: int,
    kept: Seq<usize>,
)
    requires
        path.len() <= usize::MAX,
        0 <= by,
        0 <= lo <= hi < part.len(),
        by + part.len() <= path.len(),
        forall|i: int| 0 <= i < part.len() ==> #[trigger] part[i] == path[by + i],
        thinned(part, dist, epsilon, lo, hi, kept),
    ensures
        thinned(path, dist, epsilon, by + lo, by + hi, moved(kept, by)),
    decreases hi - lo,
{
    if hi > lo + 1 {
        let p = lemma_thinning_step(part, dist, epsilon, lo, hi, kept);
        let d = p.0;
        assert(measured(path, dist, by + lo, by + hi, d)) by {
            assert forall|j: int| 0 <= j < d.len() implies call_ensures(
                dist,
                (path[by + lo + 1 + j], path[by + lo], path[by + hi]),
                #[trigger] d[j],
            ) by {
                assert(part[lo + 1 + j] == path[by + (lo + 1 + j)]);
                assert(part[lo] == path[by + lo]);
                assert(part[hi] == path[by + hi]);
                assert(call_ensures(dist, (part[lo + 1 + j], part[lo], part[hi]), d[j]));
            }
        }
        if p.1 >= 0 {
            let w = p.1;
            let m = lo + 1 + w;
            lemma_part_is_thinned_alike(path, part, by, dist, epsilon, lo, m, p.2);
            lemma_part_is_thinned_alike(path, part, by, dist, epsilon, m, hi, p.3);
            let left = moved(p.2, by);
            let right = moved(p.3, by);
            assert(moved(kept, by) =~= left.push((by + lo + 1 + w) as usize) + right);
            assert(farthest(d, w));
        }
    }
}

proof fn lemma_inner_of<F: Fn(Point, Point, Point) -> Scalar>(
    path: Seq<Point>,
    dist: F,
    epsilon: Scalar,
    kept: Seq<usize>,
) -> (inner: Seq<usize>)
    requires
        2 <= path.len(),
        simplified(path, dist, epsilon, kept),
    ensures
        thinned(path, dist, epsilon, 0, path.len() - 1, inner),
        kept == seq![0usize] + inner + seq![(path.len() - 1) as usize],
{
    let n = path.len() as int;
    if n < 3 {
        let none = Seq::<usize>::empty();
        assert(kept =~= seq![0usize] + none + seq![(n - 1) as usize]);
        none
    } else {
        choose|inner: Seq<usize>| #[trigger]
            thinned(path, dist, epsilon, 0, n - 1, inner) && kept == seq![0usize] + inner + seq![
                (n - 1) as usize,
            ]
    }
}

/// Where a path strays farther than the tolerance, what stays of it is what stays of
/// the part up to the point that strays farthest, and then what stays of the part from
/// that point on, each thinned as a path of its own.
pub proof fn law_thinning_goes_on_on_either_side<F: Fn(Point, Point, Point) -> Scalar>(
    path: Seq<Point>,
    dist: F,
    epsilon: Scalar,
    kept: Seq<usize>,
    m: int,
    most: Scalar,
    before: Seq<usize>,
    behind: Seq<usize>,
)
    requires
        3 <= path.len() <= usize::MAX,
        repeats(dist),
        simplified(path, dist, epsilon, kept),
        0 < m < path.len() - 1,
        call_ensures(dist, (path[m], path[0], path[path.len() - 1]), most),
        (Scalar { bits: 0 }).below(most),
        epsilon.below(most),
        forall|i: int, d: Scalar|
            0 < i < path.len() - 1 && #[trigger] call_ensures(
                dist,
                (path[i], path[0], path[path.len() - 1]),
                d,
            ) ==> !most.below(d) && (i < m ==> !most.at_most(d)),
        simplified(path.take(m + 1), dist, epsilon, before),
        simplified(path.skip(m), dist, epsilon, behind),
    ensures
        kept.len() == before.len() + behind.len() - 1,
        forall|i: int| 0 <= i < before.len() ==> #[trigger] before[i] == kept[i],
        forall|i: int|
            0 <= i < behind.len() ==> m + #[trigger] behind[i] == kept[before.len() - 1 + i],
{
    let n = path.len() as int;
    let inner = lemma_inner_of(path, dist, epsilon, kept);
    let p = lemma_thinning_step(path, dist, epsilon, 0, n - 1, inner);
    let d = p.0;
    let at = m - 1;
    assert(call_ensures(dist, (path[0 + 1 + at], path[0], path[n - 1]), d[at]));
    assert(d[at] == most);
    assert(!close(d, epsilon));
    assert forall|j: int| 0 <= j < d.len() implies !d[at].below(#[trigger] d[j]) && (j < at
        ==> !d[at].at_most(d[j])) by {
        assert(call_ensures(dist, (path[0 + 1 + j], path[0], path[n - 1]), d[j]));
    }
    assert(farthest(d, at));
    lemma_farthest_is_unique(d, at, p.1);
    let head = path.take(m + 1);
    let tail = path.skip(m);
    let a = lemma_inner_of(head, dist, epsilon, before);
    let b = lemma_inner_of(tail, dist, epsilon, behind);
    lemma_part_is_thinned_alike(path, head, 0, dist, epsilon, 0, m, a);
    lemma_part_is_thinned_alike(path, tail, m, dist, epsilon, 0, n - 1 - m, b);
    lemma_thinning_is_unique(path, dist, epsilon, 0, m, moved(a, 0), p.2);
    lemma_thinning_is_unique(path, dist, epsilon, m, n - 1, moved(b, m), p.3);
    assert(moved(a, 0) =~= a);
    law_simplified_keeps_order(tail, dist, epsilon, behind);
    assert forall|i: int| 0 <= i < behind.len() implies m + #[trigger] behind[i]
        == kept[before.len() - 1 + i] by {
        if 0 < i < behind.len() - 1 {
            assert(behind[i] == b[i - 1]);
            assert(p.3[i - 1] == (b[i - 1] + m) as usize);
            assert(kept[before.len() - 1 + i] == inner[before.len() - 2 + i]);
        }
    }
}

} // verus!
