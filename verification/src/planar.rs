//! Polygons of the plane: turns, areas, and whether an outline is simple.

use crate::node::Point2;
use crate::num::{
    absolute, at_most, is_at_most, is_less, less, magnitude, negate, negative, Arithmetic, Calc,
    NumOp, Reading, ZERO,
};
use crate::solid::{greater, lesser, max_of, min_of};
use vstd::prelude::*;

verus! {

/// The place after `i` in a loop of `n`.
pub open spec fn after(i: int, n: int) -> int {
    if i + 1 < n {
        i + 1
    } else {
        0
    }
}

/// The place after `i` in a loop of `n`.
pub fn next_of(i: usize, n: usize) -> (r: usize)
    requires
        i < n,
    ensures
        r == after(i as int, n as int),
        r < n,
{
    if i < n - 1 {
        i + 1
    } else {
        0
    }
}

/// The absolute value of a number.
pub open spec fn size_of(b: u64) -> u64 {
    magnitude(b) as u64
}

/// The turn at `a` from `b` to `c`: twice the signed area of the triangle.
pub open spec fn turn_of(m: Reading, a: Point2, b: Point2, c: Point2) -> u64 {
    m.at(
        NumOp::Sub,
        m.at(NumOp::Mul, m.at(NumOp::Sub, b.x, a.x), m.at(NumOp::Sub, c.y, a.y)),
        m.at(NumOp::Mul, m.at(NumOp::Sub, b.y, a.y), m.at(NumOp::Sub, c.x, a.x)),
    )
}

/// The turn at `a` from `b` to `c`.
pub fn cross2<A: Arithmetic>(calc: &mut Calc<A>, a: Point2, b: Point2, c: Point2) -> (r: u64)
    ensures
        forall|m: Reading| #[trigger]
            final(calc).agrees(m) ==> old(calc).agrees(m) && r == turn_of(m, a, b, c),
{
    let bx: u64 = calc.apply(NumOp::Sub, b.x, a.x);
    let cy: u64 = calc.apply(NumOp::Sub, c.y, a.y);
    let p: u64 = calc.apply(NumOp::Mul, bx, cy);
    let by: u64 = calc.apply(NumOp::Sub, b.y, a.y);
    let cx: u64 = calc.apply(NumOp::Sub, c.x, a.x);
    let q: u64 = calc.apply(NumOp::Mul, by, cx);
    calc.apply(NumOp::Sub, p, q)
}

/// Twice the signed area under the first `n` edges of an outline.
pub open spec fn area_of(m: Reading, poly: Seq<Point2>, n: int) -> u64
    decreases n,
{
    if n <= 0 {
        ZERO
    } else {
        let p = poly[n - 1];
        let q = poly[after(n - 1, poly.len() as int)];
        m.at(
            NumOp::Add,
            area_of(m, poly, n - 1),
            m.at(NumOp::Sub, m.at(NumOp::Mul, p.x, q.y), m.at(NumOp::Mul, q.x, p.y)),
        )
    }
}

/// Twice the signed area of an outline.
pub fn signed_area2<A: Arithmetic>(calc: &mut Calc<A>, poly: &Vec<Point2>) -> (r: u64)
    ensures
        forall|m: Reading| #[trigger]
            final(calc).agrees(m) ==> old(calc).agrees(m) && r == area_of(
                m,
                poly@,
                poly@.len() as int,
            ),
{
    let n: usize = poly.len();
    let mut sum: u64 = ZERO;
    let mut i: usize = 0;
    while i < n
        invariant
            i <= n,
            n == poly@.len(),
            forall|m: Reading| #[trigger]
                calc.agrees(m) ==> old(calc).agrees(m) && sum == area_of(m, poly@, i as int),
        decreases n - i,
    {
        let p = poly[i];
        let q = poly[next_of(i, n)];
        let a: u64 = calc.apply(NumOp::Mul, p.x, q.y);
        let b: u64 = calc.apply(NumOp::Mul, q.x, p.y);
        let d: u64 = calc.apply(NumOp::Sub, a, b);
        sum = calc.apply(NumOp::Add, sum, d);
        i = i + 1;
    }
    sum
}

// ---- convexity ------------------------------------------------------------------------------

/// Which way an outline bends at a place, where it bends at all.
pub open spec fn bend(m: Reading, poly: Seq<Point2>, eps: u64, i: int) -> Option<bool> {
    let n = poly.len() as int;
    let j = after(i, n);
    let t = turn_of(m, poly[i], poly[j], poly[after(j, n)]);
    if at_most(size_of(t), eps) {
        None
    } else {
        Some(less(ZERO, t))
    }
}

/// The outline bends, and always the same way.
pub open spec fn is_convex(m: Reading, poly: Seq<Point2>, eps: u64) -> bool {
    &&& exists|i: int| 0 <= i < poly.len() && #[trigger] bend(m, poly, eps, i) is Some
    &&& forall|i: int, j: int|
        #![trigger bend(m, poly, eps, i), bend(m, poly, eps, j)]
        0 <= i < poly.len() && 0 <= j < poly.len() && bend(m, poly, eps, i) is Some && bend(
            m,
            poly,
            eps,
            j,
        ) is Some ==> bend(m, poly, eps, i) == bend(m, poly, eps, j)
}

/// The first `n` bends agree with `sign`.
pub open spec fn bent(m: Reading, poly: Seq<Point2>, eps: u64, n: int, sign: Option<bool>) -> bool {
    &&& sign is Some ==> exists|i: int|
        0 <= i < n && #[trigger] bend(m, poly, eps, i) is Some
    &&& forall|i: int|
        0 <= i < n && #[trigger] bend(m, poly, eps, i) is Some ==> bend(m, poly, eps, i) == sign
}

/// Whether the outline bends, and always the same way.
pub fn convex_polygon<A: Arithmetic>(calc: &mut Calc<A>, poly: &Vec<Point2>, eps: u64) -> (r: bool)
    ensures
        forall|m: Reading| #[trigger]
            final(calc).agrees(m) ==> old(calc).agrees(m) && r == is_convex(m, poly@, eps),
{
    let n: usize = poly.len();
    let mut sign: Option<bool> = None;
    let mut i: usize = 0;
    while i < n
        invariant
            i <= n,
            n == poly@.len(),
            forall|m: Reading| #[trigger]
                calc.agrees(m) ==> old(calc).agrees(m) && bent(m, poly@, eps, i as int, sign),
        decreases n - i,
    {
        let j: usize = next_of(i, n);
        let k: usize = next_of(j, n);
        let t: u64 = cross2(calc, poly[i], poly[j], poly[k]);
        if !is_at_most(absolute(t), eps) {
            let way: bool = is_less(ZERO, t);
            match sign {
                Some(w) => {
                    if w != way {
                        proof {
                            assert forall|m: Reading| #[trigger] calc.agrees(m) implies !is_convex(
                                m,
                                poly@,
                                eps,
                            ) by {
                                assert(bent(m, poly@, eps, i as int, sign));
                                let e = choose|e: int|
                                    0 <= e < i && #[trigger] bend(m, poly@, eps, e) is Some;
                                assert(bend(m, poly@, eps, i as int) == Some(way));
                                assert(bend(m, poly@, eps, e) == Some(w));
                            }
                        }
                        return false;
                    }
                },
                None => {},
            }
            sign = Some(way);
            assert forall|m: Reading| #[trigger] calc.agrees(m) implies bent(
                m,
                poly@,
                eps,
                i + 1,
                sign,
            ) by {
                assert(bend(m, poly@, eps, i as int) == Some(way));
            }
        }
        i = i + 1;
    }
    proof {
        assert forall|m: Reading| #[trigger] calc.agrees(m) implies sign is Some == is_convex(
            m,
            poly@,
            eps,
        ) by {
            assert(bent(m, poly@, eps, n as int, sign));
            if sign is Some {
                let e = choose|e: int| 0 <= e < n && #[trigger] bend(m, poly@, eps, e) is Some;
            }
        }
    }
    sign.is_some()
}

// ---- simple outlines ------------------------------------------------------------------------

/// `r` lies on the segment from `p` to `q`, within tolerances.
pub open spec fn on_segment(
    m: Reading,
    p: Point2,
    q: Point2,
    r: Point2,
    linear: u64,
    area: u64,
) -> bool {
    &&& at_most(size_of(turn_of(m, p, q, r)), area)
    &&& at_most(m.at(NumOp::Sub, lesser(p.x, q.x), linear), r.x)
    &&& at_most(r.x, m.at(NumOp::Add, greater(p.x, q.x), linear))
    &&& at_most(m.at(NumOp::Sub, lesser(p.y, q.y), linear), r.y)
    &&& at_most(r.y, m.at(NumOp::Add, greater(p.y, q.y), linear))
}

/// Two turns go opposite ways, both beyond the tolerance.
pub open spec fn opposed(s: u64, t: u64, area: u64) -> bool {
    (less(area, s) && less(t, negative(area))) || (less(s, negative(area)) && less(area, t))
}

/// Two segments meet: they cross, or an end of one lies on the other.
pub open spec fn segments_meet(
    m: Reading,
    a: Point2,
    b: Point2,
    c: Point2,
    d: Point2,
    linear: u64,
    area: u64,
) -> bool {
    (opposed(turn_of(m, a, b, c), turn_of(m, a, b, d), area) && opposed(
        turn_of(m, c, d, a),
        turn_of(m, c, d, b),
        area,
    )) || on_segment(m, a, b, c, linear, area) || on_segment(m, a, b, d, linear, area)
        || on_segment(m, c, d, a, linear, area) || on_segment(m, c, d, b, linear, area)
}

fn test_on_segment<A: Arithmetic>(
    calc: &mut Calc<A>,
    p: Point2,
    q: Point2,
    r: Point2,
    linear: u64,
    area: u64,
) -> (out: bool)
    ensures
        forall|m: Reading| #[trigger]
            final(calc).agrees(m) ==> old(calc).agrees(m) && out == on_segment(
                m,
                p,
                q,
                r,
                linear,
                area,
            ),
{
    let t: u64 = cross2(calc, p, q, r);
    let x0: u64 = calc.apply(NumOp::Sub, min_of(p.x, q.x), linear);
    let x1: u64 = calc.apply(NumOp::Add, max_of(p.x, q.x), linear);
    let y0: u64 = calc.apply(NumOp::Sub, min_of(p.y, q.y), linear);
    let y1: u64 = calc.apply(NumOp::Add, max_of(p.y, q.y), linear);
    is_at_most(absolute(t), area) && is_at_most(x0, r.x) && is_at_most(r.x, x1) && is_at_most(
        y0,
        r.y,
    ) && is_at_most(r.y, y1)
}

fn test_opposed(s: u64, t: u64, area: u64) -> (r: bool)
    ensures
        r == opposed(s, t, area),
{
    let low: u64 = negate(area);
    (is_less(area, s) && is_less(t, low)) || (is_less(s, low) && is_less(area, t))
}

/// Whether two segments meet.
pub fn segments_intersect<A: Arithmetic>(
    calc: &mut Calc<A>,
    a: Point2,
    b: Point2,
    c: Point2,
    d: Point2,
    linear: u64,
    area: u64,
) -> (r: bool)
    ensures
        forall|m: Reading| #[trigger]
            final(calc).agrees(m) ==> old(calc).agrees(m) && r == segments_meet(
                m,
                a,
                b,
                c,
                d,
                linear,
                area,
            ),
{
    let abc: u64 = cross2(calc, a, b, c);
    let abd: u64 = cross2(calc, a, b, d);
    let cda: u64 = cross2(calc, c, d, a);
    let cdb: u64 = cross2(calc, c, d, b);
    if test_opposed(abc, abd, area) && test_opposed(cda, cdb, area) {
        return true;
    }
    test_on_segment(calc, a, b, c, linear, area) || test_on_segment(calc, a, b, d, linear, area)
        || test_on_segment(calc, c, d, a, linear, area) || test_on_segment(
        calc,
        c,
        d,
        b,
        linear,
        area,
    )
}

/// The edge at `i` has a length and does not turn back on itself.
pub open spec fn edge_fine(m: Reading, poly: Seq<Point2>, linear: u64, area: u64, i: int) -> bool {
    let n = poly.len() as int;
    let j = after(i, n);
    let a = poly[i];
    let b = poly[j];
    let c = poly[after(j, n)];
    &&& !at_most(
        m.at(NumOp::Hypot, m.at(NumOp::Sub, b.x, a.x), m.at(NumOp::Sub, b.y, a.y)),
        linear,
    )
    &&& at_most(size_of(turn_of(m, a, b, c)), area) ==> !less(
        m.at(
            NumOp::Add,
            m.at(NumOp::Mul, m.at(NumOp::Sub, b.x, a.x), m.at(NumOp::Sub, c.x, b.x)),
            m.at(NumOp::Mul, m.at(NumOp::Sub, b.y, a.y), m.at(NumOp::Sub, c.y, b.y)),
        ),
        ZERO,
    )
}

/// The edges at `i` and `j` are neighbours, or do not meet.
pub open spec fn edges_clear(
    m: Reading,
    poly: Seq<Point2>,
    linear: u64,
    area: u64,
    i: int,
    j: int,
) -> bool {
    let n = poly.len() as int;
    i == j || after(i, n) == j || after(j, n) == i || !segments_meet(
        m,
        poly[i],
        poly[after(i, n)],
        poly[j],
        poly[after(j, n)],
        linear,
        area,
    )
}

/// The edge at `i` is fine, and clear of all later ones.
pub open spec fn simple_at(m: Reading, poly: Seq<Point2>, linear: u64, area: u64, i: int) -> bool {
    edge_fine(m, poly, linear, area, i) && forall|j: int|
        i < j < poly.len() ==> #[trigger] edges_clear(m, poly, linear, area, i, j)
}

/// No two edges of the outline meet but neighbours at their common end.
pub open spec fn is_simple(m: Reading, poly: Seq<Point2>, linear: u64, area: u64) -> bool {
    forall|i: int| 0 <= i < poly.len() ==> #[trigger] simple_at(m, poly, linear, area, i)
}

fn test_edge<A: Arithmetic>(
    calc: &mut Calc<A>,
    poly: &Vec<Point2>,
    linear: u64,
    area: u64,
    i: usize,
) -> (r: bool)
    requires
        i < poly@.len(),
    ensures
        forall|m: Reading| #[trigger]
            final(calc).agrees(m) ==> old(calc).agrees(m) && r == edge_fine(
                m,
                poly@,
                linear,
                area,
                i as int,
            ),
{
    let n: usize = poly.len();
    let j: usize = next_of(i, n);
    let k: usize = next_of(j, n);
    let a = poly[i];
    let b = poly[j];
    let c = poly[k];
    let dx: u64 = calc.apply(NumOp::Sub, b.x, a.x);
    let dy: u64 = calc.apply(NumOp::Sub, b.y, a.y);
    let length: u64 = calc.apply(NumOp::Hypot, dx, dy);
    if is_at_most(length, linear) {
        return false;
    }
    let t: u64 = cross2(calc, a, b, c);
    if is_at_most(absolute(t), area) {
        let ex: u64 = calc.apply(NumOp::Sub, c.x, b.x);
        let ey: u64 = calc.apply(NumOp::Sub, c.y, b.y);
        let p: u64 = calc.apply(NumOp::Mul, dx, ex);
        let q: u64 = calc.apply(NumOp::Mul, dy, ey);
        let s: u64 = calc.apply(NumOp::Add, p, q);
        if is_less(s, ZERO) {
            return false;
        }
    }
    true
}

fn test_simple_at<A: Arithmetic>(
    calc: &mut Calc<A>,
    poly: &Vec<Point2>,
    linear: u64,
    area: u64,
    i: usize,
) -> (r: bool)
    requires
        i < poly@.len(),
    ensures
        forall|m: Reading| #[trigger]
            final(calc).agrees(m) ==> old(calc).agrees(m) && r == simple_at(
                m,
                poly@,
                linear,
                area,
                i as int,
            ),
{
    if !test_edge(calc, poly, linear, area, i) {
        return false;
    }
    let n: usize = poly.len();
    let ni: usize = next_of(i, n);
    let mut j: usize = i + 1;
    while j < n
        invariant
            i < j <= n,
            n == poly@.len(),
            ni == after(i as int, n as int),
            ni < n,
            forall|m: Reading| #[trigger]
                calc.agrees(m) ==> old(calc).agrees(m) && edge_fine(
                    m,
                    poly@,
                    linear,
                    area,
                    i as int,
                ) && forall|k: int|
                    i < k < j ==> #[trigger] edges_clear(m, poly@, linear, area, i as int, k),
        decreases n - j,
    {
        let nj: usize = next_of(j, n);
        if !(ni == j || nj == i) {
            if segments_intersect(calc, poly[i], poly[ni], poly[j], poly[nj], linear, area) {
                proof {
                    assert forall|m: Reading| #[trigger] calc.agrees(m) implies !simple_at(
                        m,
                        poly@,
                        linear,
                        area,
                        i as int,
                    ) by {
                        assert(!edges_clear(m, poly@, linear, area, i as int, j as int));
                    }
                }
                return false;
            }
        }
        j = j + 1;
    }
    true
}

/// Whether no two edges of the outline meet but neighbours at their common end.
pub fn simple_polygon<A: Arithmetic>(
    calc: &mut Calc<A>,
    poly: &Vec<Point2>,
    linear: u64,
    area: u64,
) -> (r: bool)
    ensures
        forall|m: Reading| #[trigger]
            final(calc).agrees(m) ==> old(calc).agrees(m) && r == is_simple(
                m,
                poly@,
                linear,
                area,
            ),
{
    let n: usize = poly.len();
    let mut i: usize = 0;
    while i < n
        invariant
            i <= n,
            n == poly@.len(),
            forall|m: Reading| #[trigger]
                calc.agrees(m) ==> old(calc).agrees(m) && forall|k: int|
                    0 <= k < i ==> #[trigger] simple_at(m, poly@, linear, area, k),
        decreases n - i,
    {
        if !test_simple_at(calc, poly, linear, area, i) {
            proof {
                assert forall|m: Reading| #[trigger] calc.agrees(m) implies !is_simple(
                    m,
                    poly@,
                    linear,
                    area,
                ) by {
                    assert(!simple_at(m, poly@, linear, area, i as int));
                }
            }
            return false;
        }
        i = i + 1;
    }
    true
}

} // verus!
