//! What the motions of the plane are for, in exact arithmetic.

use crate::algebra::{lemma_swap, lemma_turned_pair};
use crate::clip::PlaneReading;
use crate::contours::{area, edge_crosses};
use crate::exact::{
    exact, lemma_add, lemma_div, lemma_mul, lemma_neg, lemma_own, lemma_products, lemma_ring,
    lemma_same, lemma_sub, lemma_unit, Numbers,
};
use crate::extrude::{close, welded};
use crate::faces::EarReading;
use crate::flat::{
    box_below, circle_of, drawn, moved, moved_ring, resized, square_of, square_sum, sum_of, Motion,
};
use crate::mesh::Point3;
use crate::node::{FragmentSpec, Node, Point2};
use crate::num::{less, negative, zero, NumOp, Reading, ONE, TWO, ZERO};
use crate::planar::{after, area_of, size_of, turn_of};
use crate::revolve::before;
use crate::tessellate::{on_circle, round_of};
use vstd::prelude::*;

verus! {

/// The scalar product of two points.
pub open spec fn dot2(n: Numbers, p: Point2, q: Point2) -> int {
    (n.of)(p.x) * (n.of)(q.x) + (n.of)(p.y) * (n.of)(q.y)
}

/// The wedge product of two points: positive where `q` lies to the left of `p`.
pub open spec fn wedge2(n: Numbers, p: Point2, q: Point2) -> int {
    (n.of)(p.x) * (n.of)(q.y) - (n.of)(p.y) * (n.of)(q.x)
}

/// The square of the distance of two points.
pub open spec fn gap2(n: Numbers, p: Point2, q: Point2) -> int {
    ((n.of)(p.x) - (n.of)(q.x)) * ((n.of)(p.x) - (n.of)(q.x)) + ((n.of)(p.y) - (n.of)(q.y)) * ((
    n.of)(p.y) - (n.of)(q.y))
}

/// The point has these coordinates.
pub open spec fn at2(n: Numbers, p: Point2, x: int, y: int) -> bool {
    n.same((n.of)(p.x), x) && n.same((n.of)(p.y), y)
}

/// The two numbers are the sine and the cosine of one angle.
pub open spec fn on_unit(n: Numbers, s: u64, c: u64) -> bool {
    n.same((n.of)(s) * (n.of)(s) + (n.of)(c) * (n.of)(c), 1)
}

// ---- turning -----------------------------------------------------------------------------------

proof fn lemma_turned(m: Reading, n: Numbers, s: u64, c: u64, p: Point2)
    requires
        exact(m, n),
    ensures
        at2(
            n,
            moved(m, Motion::Turn { s, c }, p),
            (n.of)(p.x) * (n.of)(c) - (n.of)(p.y) * (n.of)(s),
            (n.of)(p.x) * (n.of)(s) + (n.of)(p.y) * (n.of)(c),
        ),
{
    let (x, y, sn, cs) = ((n.of)(p.x), (n.of)(p.y), (n.of)(s), (n.of)(c));
    lemma_own(m, n);
    lemma_mul(m, n, p.x, c, x, cs);
    lemma_mul(m, n, p.y, s, y, sn);
    lemma_mul(m, n, p.x, s, x, sn);
    lemma_mul(m, n, p.y, c, y, cs);
    lemma_sub(m, n, m.at(NumOp::Mul, p.x, c), m.at(NumOp::Mul, p.y, s), x * cs, y * sn);
    lemma_add(m, n, m.at(NumOp::Mul, p.x, s), m.at(NumOp::Mul, p.y, c), x * sn, y * cs);
}

/// A turn keeps the distance of two points.
pub proof fn law_turn_keeps_distance(m: Reading, n: Numbers, s: u64, c: u64, p: Point2, q: Point2)
    requires
        exact(m, n),
        on_unit(n, s, c),
    ensures
        n.same(
            gap2(n, moved(m, Motion::Turn { s, c }, p), moved(m, Motion::Turn { s, c }, q)),
            gap2(n, p, q),
        ),
{
    let (x, y, u, v) = ((n.of)(p.x), (n.of)(p.y), (n.of)(q.x), (n.of)(q.y));
    let (sn, cs) = ((n.of)(s), (n.of)(c));
    let p1 = moved(m, Motion::Turn { s, c }, p);
    let q1 = moved(m, Motion::Turn { s, c }, q);
    lemma_turned(m, n, s, c, p);
    lemma_turned(m, n, s, c, q);
    let (dx, dy) = (x - u, y - v);
    lemma_ring(n, (n.of)(p1.x), x * cs - y * sn, (n.of)(q1.x), u * cs - v * sn);
    lemma_ring(n, (n.of)(p1.y), x * sn + y * cs, (n.of)(q1.y), u * sn + v * cs);
    assert((x * cs - y * sn) - (u * cs - v * sn) == dx * cs - dy * sn) by (nonlinear_arith)
        requires
            dx == x - u,
            dy == y - v,
    ;
    assert((x * sn + y * cs) - (u * sn + v * cs) == dx * sn + dy * cs) by (nonlinear_arith)
        requires
            dx == x - u,
            dy == y - v,
    ;
    let (a, b) = ((n.of)(p1.x) - (n.of)(q1.x), (n.of)(p1.y) - (n.of)(q1.y));
    let (a1, b1) = (dx * cs - dy * sn, dx * sn + dy * cs);
    lemma_products(n, a, a, b, b, a1, a1, b1, b1);
    lemma_turned_pair(dx, dy, dx, dy, sn, cs);
    lemma_unit(n, dx * dx + dy * dy, sn * sn + cs * cs);
    lemma_same(n, a * a + b * b, a1 * a1 + b1 * b1, dx * dx + dy * dy);
}

/// A turn keeps the wedge product of two points, and with it every signed area.
pub proof fn law_turn_keeps_wedge(m: Reading, n: Numbers, s: u64, c: u64, p: Point2, q: Point2)
    requires
        exact(m, n),
        on_unit(n, s, c),
    ensures
        n.same(
            wedge2(n, moved(m, Motion::Turn { s, c }, p), moved(m, Motion::Turn { s, c }, q)),
            wedge2(n, p, q),
        ),
        n.same(
            dot2(n, moved(m, Motion::Turn { s, c }, p), moved(m, Motion::Turn { s, c }, q)),
            dot2(n, p, q),
        ),
{
    let (x, y, u, v) = ((n.of)(p.x), (n.of)(p.y), (n.of)(q.x), (n.of)(q.y));
    let (sn, cs) = ((n.of)(s), (n.of)(c));
    let p1 = moved(m, Motion::Turn { s, c }, p);
    let q1 = moved(m, Motion::Turn { s, c }, q);
    lemma_turned(m, n, s, c, p);
    lemma_turned(m, n, s, c, q);
    let (a, b) = (x * cs - y * sn, x * sn + y * cs);
    let (d, e) = (u * cs - v * sn, u * sn + v * cs);
    lemma_products(n, (n.of)(p1.x), (n.of)(q1.y), (n.of)(p1.y), (n.of)(q1.x), a, e, b, d);
    lemma_products(n, (n.of)(p1.x), (n.of)(q1.x), (n.of)(p1.y), (n.of)(q1.y), a, d, b, e);
    lemma_turned_pair(x, y, u, v, sn, cs);
    lemma_unit(n, x * v - y * u, sn * sn + cs * cs);
    lemma_unit(n, x * u + y * v, sn * sn + cs * cs);
    lemma_same(n, wedge2(n, p1, q1), a * e - b * d, x * v - y * u);
    lemma_same(n, dot2(n, p1, q1), a * d + b * e, x * u + y * v);
}

/// A turn goes counter-clockwise by the angle that has the sine and the cosine:
/// a point and where it goes enclose that angle.
pub proof fn law_turn_angle(m: Reading, n: Numbers, s: u64, c: u64, p: Point2)
    requires
        exact(m, n),
    ensures
        n.same(dot2(n, p, moved(m, Motion::Turn { s, c }, p)), dot2(n, p, p) * (n.of)(c)),
        n.same(wedge2(n, p, moved(m, Motion::Turn { s, c }, p)), dot2(n, p, p) * (n.of)(s)),
{
    let (x, y, sn, cs) = ((n.of)(p.x), (n.of)(p.y), (n.of)(s), (n.of)(c));
    let p1 = moved(m, Motion::Turn { s, c }, p);
    lemma_own(m, n);
    lemma_turned(m, n, s, c, p);
    let (a, b) = (x * cs - y * sn, x * sn + y * cs);
    lemma_products(n, x, (n.of)(p1.x), y, (n.of)(p1.y), x, a, y, b);
    lemma_products(n, x, (n.of)(p1.y), y, (n.of)(p1.x), x, b, y, a);
    assert(x * a + y * b == (x * x + y * y) * cs) by (nonlinear_arith)
        requires
            a == x * cs - y * sn,
            b == x * sn + y * cs,
    ;
    assert(x * b - y * a == (x * x + y * y) * sn) by (nonlinear_arith)
        requires
            a == x * cs - y * sn,
            b == x * sn + y * cs,
    ;
}

/// Turning by an angle and back by its opposite gives every point back.
pub proof fn law_turn_back(m: Reading, n: Numbers, s: u64, c: u64, p: Point2)
    requires
        exact(m, n),
        on_unit(n, s, c),
    ensures
        at2(
            n,
            moved(m, Motion::Turn { s: negative(s), c }, moved(m, Motion::Turn { s, c }, p)),
            (n.of)(p.x),
            (n.of)(p.y),
        ),
{
    let (x, y, sn, cs) = ((n.of)(p.x), (n.of)(p.y), (n.of)(s), (n.of)(c));
    let p1 = moved(m, Motion::Turn { s, c }, p);
    let p2 = moved(m, Motion::Turn { s: negative(s), c }, p1);
    lemma_own(m, n);
    lemma_turned(m, n, s, c, p);
    lemma_turned(m, n, negative(s), c, p1);
    lemma_neg(m, n, s, sn);
    let (a, b) = (x * cs - y * sn, x * sn + y * cs);
    let (a0, b0, t) = ((n.of)(p1.x), (n.of)(p1.y), (n.of)(negative(s)));
    lemma_products(n, a0, cs, b0, t, a, cs, b, -sn);
    lemma_products(n, a0, t, b0, cs, a, -sn, b, cs);
    assert(a * cs - b * (-sn) == x * (sn * sn + cs * cs)) by (nonlinear_arith)
        requires
            a == x * cs - y * sn,
            b == x * sn + y * cs,
    ;
    assert(a * (-sn) + b * cs == y * (sn * sn + cs * cs)) by (nonlinear_arith)
        requires
            a == x * cs - y * sn,
            b == x * sn + y * cs,
    ;
    lemma_unit(n, x, sn * sn + cs * cs);
    lemma_unit(n, y, sn * sn + cs * cs);
    lemma_same(n, (n.of)(p2.x), a0 * cs - b0 * t, x * (sn * sn + cs * cs));
    lemma_same(n, (n.of)(p2.x), x * (sn * sn + cs * cs), x);
    lemma_same(n, (n.of)(p2.y), a0 * t + b0 * cs, y * (sn * sn + cs * cs));
    lemma_same(n, (n.of)(p2.y), y * (sn * sn + cs * cs), y);
}

// ---- areas -------------------------------------------------------------------------------------

/// Twice the area that the way along the first `k` edges of an outline sweeps over,
/// seen from the origin.
pub open spec fn swept(n: Numbers, poly: Seq<Point2>, k: int) -> int
    decreases k,
{
    if k <= 0 {
        0
    } else {
        swept(n, poly, k - 1) + wedge2(n, poly[k - 1], poly[after(k - 1, poly.len() as int)])
    }
}

/// The area of an outline is what its edges sweep over, half of the sum.
pub proof fn law_area_is_swept(m: Reading, n: Numbers, ring: Seq<Point2>)
    requires
        exact(m, n),
        n.divides(2),
    ensures
        n.same(2 * (n.of)(area(m, ring)), swept(n, ring, ring.len() as int)),
{
    let k = ring.len() as int;
    lemma_own(m, n);
    lemma_area(m, n, ring, k);
    lemma_div(m, n, area_of(m, ring, k), TWO, swept(n, ring, k), 2);
}

proof fn lemma_reversed(n: Numbers, ring: Seq<Point2>, k: int)
    requires
        0 <= k < ring.len(),
    ensures
        swept(n, ring.reverse(), k) == swept(n, ring, ring.len() - 1 - k) - swept(
            n,
            ring,
            ring.len() - 1,
        ),
    decreases k,
{
    if k > 0 {
        lemma_reversed(n, ring, k - 1);
        let w = ring.len() as int;
        let to = ring.reverse();
        assert(to[k - 1] == ring[w - k]);
        assert(to[after(k - 1, w)] == ring[w - 1 - k]);
        lemma_wedge_sign(n, ring[w - k], ring[w - 1 - k]);
        assert(swept(n, ring, w - k) == swept(n, ring, w - 1 - k) + wedge2(
            n,
            ring[w - 1 - k],
            ring[w - k],
        ));
    }
}

/// An outline that runs the other way has the opposite area.
pub proof fn law_reversed_area(m: Reading, n: Numbers, ring: Seq<Point2>)
    requires
        exact(m, n),
        ring.len() > 0,
    ensures
        n.same(
            (n.of)(area_of(m, ring.reverse(), ring.len() as int)),
            -(n.of)(area_of(m, ring, ring.len() as int)),
        ),
{
    let w = ring.len() as int;
    let to = ring.reverse();
    lemma_area(m, n, ring, w);
    lemma_area(m, n, to, w);
    lemma_reversed(n, ring, w - 1);
    assert(swept(n, ring, 0) == 0);
    assert(to[w - 1] == ring[0] && to[after(w - 1, w)] == ring[w - 1]);
    lemma_wedge_sign(n, ring[0], ring[w - 1]);
    assert(ring[after(w - 1, w)] == ring[0]);
    assert(swept(n, ring, w) == swept(n, ring, w - 1) + wedge2(n, ring[w - 1], ring[0]));
    assert(swept(n, to, w) == swept(n, to, w - 1) + wedge2(n, ring[0], ring[w - 1]));
    let a = (n.of)(area_of(m, ring, w));
    lemma_same(n, 0, 0, 0);
    lemma_ring(n, a, swept(n, ring, w), 0, 0);
    lemma_same(n, -a, -swept(n, ring, w), 0);
    lemma_same(n, (n.of)(area_of(m, to, w)), -swept(n, ring, w), -a);
}

proof fn lemma_area(m: Reading, n: Numbers, poly: Seq<Point2>, k: int)
    requires
        exact(m, n),
    ensures
        n.same((n.of)(area_of(m, poly, k)), swept(n, poly, k)),
    decreases k,
{
    lemma_own(m, n);
    if k > 0 {
        lemma_area(m, n, poly, k - 1);
        let p = poly[k - 1];
        let q = poly[after(k - 1, poly.len() as int)];
        let (x, y, u, v) = ((n.of)(p.x), (n.of)(p.y), (n.of)(q.x), (n.of)(q.y));
        lemma_mul(m, n, p.x, q.y, x, v);
        lemma_mul(m, n, q.x, p.y, u, y);
        let (a, b) = (m.at(NumOp::Mul, p.x, q.y), m.at(NumOp::Mul, q.x, p.y));
        lemma_sub(m, n, a, b, x * v, u * y);
        let d = m.at(NumOp::Sub, a, b);
        lemma_add(m, n, area_of(m, poly, k - 1), d, swept(n, poly, k - 1), x * v - u * y);
        assert(u * y == y * u) by (nonlinear_arith);
    }
}

/// A turn keeps the signed area of an outline.
pub proof fn law_turn_keeps_area(m: Reading, n: Numbers, s: u64, c: u64, ring: Seq<Point2>, k: int)
    requires
        exact(m, n),
        on_unit(n, s, c),
        0 <= k <= ring.len(),
    ensures
        n.same(
            (n.of)(area_of(m, moved_ring(m, Motion::Turn { s, c }, ring), k)),
            (n.of)(area_of(m, ring, k)),
        ),
    decreases k,
{
    let to = moved_ring(m, Motion::Turn { s, c }, ring);
    lemma_area(m, n, ring, k);
    lemma_area(m, n, to, k);
    lemma_turned_sweep(m, n, s, c, ring, k);
    let (a, b) = ((n.of)(area_of(m, ring, k)), (n.of)(area_of(m, to, k)));
    lemma_same(n, a, swept(n, ring, k), 0);
    lemma_same(n, b, swept(n, to, k), swept(n, ring, k));
    lemma_same(n, b, swept(n, ring, k), a);
}

proof fn lemma_turned_sweep(m: Reading, n: Numbers, s: u64, c: u64, ring: Seq<Point2>, k: int)
    requires
        exact(m, n),
        on_unit(n, s, c),
        0 <= k <= ring.len(),
    ensures
        n.same(swept(n, moved_ring(m, Motion::Turn { s, c }, ring), k), swept(n, ring, k)),
    decreases k,
{
    lemma_same(n, 0, 0, 0);
    if k > 0 {
        let to = moved_ring(m, Motion::Turn { s, c }, ring);
        let (p, q) = (ring[k - 1], ring[after(k - 1, ring.len() as int)]);
        lemma_turned_sweep(m, n, s, c, ring, k - 1);
        law_turn_keeps_wedge(m, n, s, c, p, q);
        let (p1, q1) = (to[k - 1], to[after(k - 1, to.len() as int)]);
        lemma_ring(n, swept(n, to, k - 1), swept(n, ring, k - 1), wedge2(n, p1, q1), wedge2(n, p, q));
    }
}

/// The turn at a corner is twice the signed area of the triangle, positive where the
/// corners run counter-clockwise: the same from every corner, and the opposite where
/// two corners are swapped.
pub proof fn law_turn_is_area(m: Reading, n: Numbers, a: Point2, b: Point2, c: Point2)
    requires
        exact(m, n),
    ensures
        n.same(
            (n.of)(turn_of(m, a, b, c)),
            wedge2(n, a, b) + wedge2(n, b, c) + wedge2(n, c, a),
        ),
        n.same((n.of)(area_of(m, seq![a, b, c], 3)), (n.of)(turn_of(m, a, b, c))),
        n.same((n.of)(turn_of(m, a, b, c)), (n.of)(turn_of(m, b, c, a))),
        n.same((n.of)(turn_of(m, a, b, c)), -(n.of)(turn_of(m, a, c, b))),
{
    lemma_turn(m, n, a, b, c);
    lemma_turn(m, n, b, c, a);
    lemma_turn(m, n, a, c, b);
    let w = wedge2(n, a, b) + wedge2(n, b, c) + wedge2(n, c, a);
    let (t, u, v) = (
        (n.of)(turn_of(m, a, b, c)),
        (n.of)(turn_of(m, b, c, a)),
        (n.of)(turn_of(m, a, c, b)),
    );
    lemma_same(n, u, w, 0);
    lemma_same(n, t, w, u);
    lemma_wedge_sign(n, a, b);
    lemma_wedge_sign(n, b, c);
    lemma_wedge_sign(n, c, a);
    assert(wedge2(n, a, c) + wedge2(n, c, b) + wedge2(n, b, a) == -w);
    lemma_same(n, 0, 0, 0);
    lemma_ring(n, v, -w, 0, 0);
    lemma_same(n, -v, w, 0);
    lemma_same(n, t, w, -v);
    let poly = seq![a, b, c];
    lemma_area(m, n, poly, 3);
    assert(swept(n, poly, 0) == 0);
    assert(swept(n, poly, 1) == wedge2(n, a, b));
    assert(swept(n, poly, 2) == wedge2(n, a, b) + wedge2(n, b, c));
    assert(swept(n, poly, 3) == w);
    lemma_same(n, t, w, 0);
    lemma_same(n, (n.of)(area_of(m, poly, 3)), w, t);
}

proof fn lemma_wedge_sign(n: Numbers, p: Point2, q: Point2)
    ensures
        wedge2(n, p, q) == -wedge2(n, q, p),
{
    let (x, y, u, v) = ((n.of)(p.x), (n.of)(p.y), (n.of)(q.x), (n.of)(q.y));
    assert(x * v - y * u == -(u * y - v * x)) by (nonlinear_arith);
}

proof fn lemma_turn(m: Reading, n: Numbers, a: Point2, b: Point2, c: Point2)
    requires
        exact(m, n),
    ensures
        n.same(
            (n.of)(turn_of(m, a, b, c)),
            wedge2(n, a, b) + wedge2(n, b, c) + wedge2(n, c, a),
        ),
{
    let (ax, ay, bx, by) = ((n.of)(a.x), (n.of)(a.y), (n.of)(b.x), (n.of)(b.y));
    let (cx, cy) = ((n.of)(c.x), (n.of)(c.y));
    lemma_own(m, n);
    lemma_sub(m, n, b.x, a.x, bx, ax);
    lemma_sub(m, n, c.y, a.y, cy, ay);
    lemma_sub(m, n, b.y, a.y, by, ay);
    lemma_sub(m, n, c.x, a.x, cx, ax);
    let (p, q) = (m.at(NumOp::Sub, b.x, a.x), m.at(NumOp::Sub, c.y, a.y));
    let (r, s) = (m.at(NumOp::Sub, b.y, a.y), m.at(NumOp::Sub, c.x, a.x));
    lemma_mul(m, n, p, q, bx - ax, cy - ay);
    lemma_mul(m, n, r, s, by - ay, cx - ax);
    lemma_sub(
        m,
        n,
        m.at(NumOp::Mul, p, q),
        m.at(NumOp::Mul, r, s),
        (bx - ax) * (cy - ay),
        (by - ay) * (cx - ax),
    );
    assert((bx - ax) * (cy - ay) - (by - ay) * (cx - ax) == (ax * by - ay * bx) + (bx * cy - by
        * cx) + (cx * ay - cy * ax)) by (nonlinear_arith);
}

// ---- the other motions -------------------------------------------------------------------------

/// A shift adds the same vector to every point.
pub proof fn law_shift_adds(m: Reading, n: Numbers, v: Point2, p: Point2)
    requires
        exact(m, n),
    ensures
        at2(n, moved(m, Motion::Shift(v), p), (n.of)(p.x) + (n.of)(v.x), (n.of)(p.y) + (n.of)(v.y)),
{
    lemma_own(m, n);
    lemma_add(m, n, p.x, v.x, (n.of)(p.x), (n.of)(v.x));
    lemma_add(m, n, p.y, v.y, (n.of)(p.y), (n.of)(v.y));
}

/// A stretch multiplies each coordinate by its own factor, and every area by both.
pub proof fn law_stretch_multiplies(m: Reading, n: Numbers, v: Point2, p: Point2, q: Point2)
    requires
        exact(m, n),
    ensures
        at2(
            n,
            moved(m, Motion::Stretch(v), p),
            (n.of)(p.x) * (n.of)(v.x),
            (n.of)(p.y) * (n.of)(v.y),
        ),
        n.same(
            wedge2(n, moved(m, Motion::Stretch(v), p), moved(m, Motion::Stretch(v), q)),
            wedge2(n, p, q) * ((n.of)(v.x) * (n.of)(v.y)),
        ),
{
    lemma_own(m, n);
    let (x, y, a, b) = ((n.of)(p.x), (n.of)(p.y), (n.of)(v.x), (n.of)(v.y));
    let (u, w) = ((n.of)(q.x), (n.of)(q.y));
    lemma_mul(m, n, p.x, v.x, x, a);
    lemma_mul(m, n, p.y, v.y, y, b);
    lemma_mul(m, n, q.x, v.x, u, a);
    lemma_mul(m, n, q.y, v.y, w, b);
    let p1 = moved(m, Motion::Stretch(v), p);
    let q1 = moved(m, Motion::Stretch(v), q);
    lemma_products(
        n,
        (n.of)(p1.x),
        (n.of)(q1.y),
        (n.of)(p1.y),
        (n.of)(q1.x),
        x * a,
        w * b,
        y * b,
        u * a,
    );
    lemma_swap(x, a, w, b);
    lemma_swap(y, b, u, a);
    assert(b * a == a * b) by (nonlinear_arith);
    assert((x * w) * (a * b) - (y * u) * (a * b) == (x * w - y * u) * (a * b)) by (nonlinear_arith);
}

/// A reflection turns a point round across the line through the origin that is
/// upright on the vector: its part along the vector is reversed, and its part along
/// the line stays.
pub proof fn law_mirror_reverses(m: Reading, n: Numbers, v: Point2, d: u64, p: Point2)
    requires
        exact(m, n),
        n.same((n.of)(d), dot2(n, v, v)),
        n.divides(dot2(n, v, v)),
    ensures
        n.same(dot2(n, moved(m, Motion::Mirror { v, d }, p), v), -dot2(n, p, v)),
        n.same(wedge2(n, moved(m, Motion::Mirror { v, d }, p), v), wedge2(n, p, v)),
{
    let (x, y, a, b) = ((n.of)(p.x), (n.of)(p.y), (n.of)(v.x), (n.of)(v.y));
    let p1 = moved(m, Motion::Mirror { v, d }, p);
    lemma_own(m, n);
    lemma_mul(m, n, p.x, v.x, x, a);
    lemma_mul(m, n, p.y, v.y, y, b);
    let (bx, by) = (m.at(NumOp::Mul, p.x, v.x), m.at(NumOp::Mul, p.y, v.y));
    lemma_add(m, n, bx, by, x * a, y * b);
    let f = x * a + y * b;
    let bf = m.at(NumOp::Add, bx, by);
    lemma_mul(m, n, TWO, bf, 2, f);
    let b2 = m.at(NumOp::Mul, TWO, bf);
    let e = a * a + b * b;
    lemma_div(m, n, b2, d, 2 * f, e);
    let bt = m.at(NumOp::Div, b2, d);
    let t = (n.of)(bt);
    lemma_mul(m, n, bt, v.x, t, a);
    lemma_mul(m, n, bt, v.y, t, b);
    lemma_sub(m, n, p.x, m.at(NumOp::Mul, bt, v.x), x, t * a);
    lemma_sub(m, n, p.y, m.at(NumOp::Mul, bt, v.y), y, t * b);
    let (x1, y1) = ((n.of)(p1.x), (n.of)(p1.y));
    let (gx, gy) = (x - t * a, y - t * b);
    lemma_products(n, x1, a, y1, b, gx, a, gy, b);
    lemma_products(n, x1, b, y1, a, gx, b, gy, a);
    assert(gx * a + gy * b == f - t * e) by (nonlinear_arith)
        requires
            gx == x - t * a,
            gy == y - t * b,
            f == x * a + y * b,
            e == a * a + b * b,
    ;
    assert(gx * b - gy * a == x * b - y * a) by (nonlinear_arith)
        requires
            gx == x - t * a,
            gy == y - t * b,
    ;
    lemma_same(n, f, f, f);
    lemma_ring(n, f, f, t * e, 2 * f);
    lemma_same(n, x1 * a + y1 * b, f - t * e, f - 2 * f);
}

/// A plane transform maps a point by the rows of its matrix: the origin goes to the
/// last column, and the steps along `x` and along `y` go to the first two.
pub proof fn law_affine_maps(
    m: Reading,
    n: Numbers,
    a: u64,
    b: u64,
    c: u64,
    d: u64,
    e: u64,
    f: u64,
    p: Point2,
)
    requires
        exact(m, n),
    ensures
        at2(
            n,
            moved(m, Motion::Affine { a, b, c, d, e, f }, p),
            (n.of)(p.x) * (n.of)(a) + (n.of)(p.y) * (n.of)(b) + (n.of)(c),
            (n.of)(p.x) * (n.of)(d) + (n.of)(p.y) * (n.of)(e) + (n.of)(f),
        ),
{
    lemma_own(m, n);
    lemma_row(m, n, a, b, c, p);
    lemma_row(m, n, d, e, f, p);
}

proof fn lemma_row(m: Reading, n: Numbers, a: u64, b: u64, c: u64, p: Point2)
    requires
        exact(m, n),
    ensures
        n.same(
            (n.of)(
                m.at(
                    NumOp::Add,
                    m.at(NumOp::Add, m.at(NumOp::Mul, a, p.x), m.at(NumOp::Mul, b, p.y)),
                    c,
                ),
            ),
            (n.of)(p.x) * (n.of)(a) + (n.of)(p.y) * (n.of)(b) + (n.of)(c),
        ),
{
    let (x, y, r, s, t) = ((n.of)(p.x), (n.of)(p.y), (n.of)(a), (n.of)(b), (n.of)(c));
    lemma_own(m, n);
    lemma_mul(m, n, a, p.x, r, x);
    lemma_mul(m, n, b, p.y, s, y);
    let (u, v) = (m.at(NumOp::Mul, a, p.x), m.at(NumOp::Mul, b, p.y));
    lemma_add(m, n, u, v, r * x, s * y);
    lemma_add(m, n, m.at(NumOp::Add, u, v), c, r * x + s * y, t);
    assert(r * x + s * y == x * r + y * s) by (nonlinear_arith);
}

// ---- what is drawn -----------------------------------------------------------------------------

/// Outlines of the same make: as many, with as many points each.
pub open spec fn alike(v: Seq<Seq<Point2>>, w: Seq<Seq<Point2>>) -> bool {
    &&& v.len() == w.len()
    &&& forall|i: int| 0 <= i < v.len() ==> (#[trigger] v[i]).len() == w[i].len()
}

/// A drawing that is moved has the outlines of what is moved, point by point: a
/// translation adds the vector, a scale multiplies by the factors, a rotation turns
/// counter-clockwise by the last angle, a reflection reverses what lies along its
/// vector, and a matrix maps by its first two rows.
pub proof fn law_drawing_moved(
    m: Reading,
    n: Numbers,
    e: EarReading,
    p: PlaneReading,
    node: Node,
    i: int,
    j: int,
)
    requires
        exact(m, n),
    ensures
        match node {
            Node::Translate { v, child } => {
                let (from, to) = (drawn(m, e, p, *child), drawn(m, e, p, node));
                &&& alike(from, to)
                &&& 0 <= i < from.len() && 0 <= j < from[i].len() ==> at2(
                    n,
                    to[i][j],
                    (n.of)(from[i][j].x) + (n.of)(v.x),
                    (n.of)(from[i][j].y) + (n.of)(v.y),
                )
            },
            Node::Scale { v, child } => {
                let (from, to) = (drawn(m, e, p, *child), drawn(m, e, p, node));
                &&& alike(from, to)
                &&& 0 <= i < from.len() && 0 <= j < from[i].len() ==> at2(
                    n,
                    to[i][j],
                    (n.of)(from[i][j].x) * (n.of)(v.x),
                    (n.of)(from[i][j].y) * (n.of)(v.y),
                )
            },
            Node::Rotate { deg, child } => {
                let (from, to) = (drawn(m, e, p, *child), drawn(m, e, p, node));
                let angle = m.at(NumOp::ToRadians, deg.z, 0);
                &&& alike(from, to)
                &&& 0 <= i < from.len() && 0 <= j < from[i].len() ==> n.same(
                    dot2(n, from[i][j], to[i][j]),
                    dot2(n, from[i][j], from[i][j]) * (n.of)(m.at(NumOp::Cos, angle, 0)),
                ) && n.same(
                    wedge2(n, from[i][j], to[i][j]),
                    dot2(n, from[i][j], from[i][j]) * (n.of)(m.at(NumOp::Sin, angle, 0)),
                )
            },
            Node::Mirror { v, child } => {
                let (from, to) = (drawn(m, e, p, *child), drawn(m, e, p, node));
                let across = Point2 { x: v.x, y: v.y };
                &&& alike(from, to)
                &&& 0 <= i < from.len() && 0 <= j < from[i].len() && n.divides(
                    dot2(n, across, across),
                ) && !zero(square_sum(m, v)) ==> n.same(
                    dot2(n, to[i][j], across),
                    -dot2(n, from[i][j], across),
                ) && n.same(wedge2(n, to[i][j], across), wedge2(n, from[i][j], across))
            },
            Node::MultMatrix { m: rows, child } => {
                let (from, to) = (drawn(m, e, p, *child), drawn(m, e, p, node));
                &&& alike(from, to)
                &&& 0 <= i < from.len() && 0 <= j < from[i].len() ==> at2(
                    n,
                    to[i][j],
                    (n.of)(from[i][j].x) * (n.of)(rows@[0]) + (n.of)(from[i][j].y) * (n.of)(rows@[1])
                        + (n.of)(rows@[3]),
                    (n.of)(from[i][j].x) * (n.of)(rows@[4]) + (n.of)(from[i][j].y) * (n.of)(rows@[5])
                        + (n.of)(rows@[7]),
                )
            },
            _ => true,
        },
{
    match node {
        Node::Translate { v, child } => {
            let from = drawn(m, e, p, *child);
            law_shift_adds(m, n, (Point2 { x: v.x, y: v.y }), from[i][j]);
        },
        Node::Scale { v, child } => {
            let from = drawn(m, e, p, *child);
            law_stretch_multiplies(m, n, (Point2 { x: v.x, y: v.y }), from[i][j], from[i][j]);
        },
        Node::Rotate { deg, child } => {
            let from = drawn(m, e, p, *child);
            let angle = m.at(NumOp::ToRadians, deg.z, 0);
            law_turn_angle(m, n, m.at(NumOp::Sin, angle, 0), m.at(NumOp::Cos, angle, 0), from[i][j]);
        },
        Node::Mirror { v, child } => {
            let from = drawn(m, e, p, *child);
            let across = Point2 { x: v.x, y: v.y };
            lemma_own(m, n);
            lemma_mul(m, n, v.x, v.x, (n.of)(v.x), (n.of)(v.x));
            lemma_mul(m, n, v.y, v.y, (n.of)(v.y), (n.of)(v.y));
            lemma_add(
                m,
                n,
                m.at(NumOp::Mul, v.x, v.x),
                m.at(NumOp::Mul, v.y, v.y),
                (n.of)(v.x) * (n.of)(v.x),
                (n.of)(v.y) * (n.of)(v.y),
            );
            if n.divides(dot2(n, across, across)) {
                law_mirror_reverses(m, n, across, square_sum(m, v), from[i][j]);
            }
        },
        Node::MultMatrix { m: rows, child } => {
            let from = drawn(m, e, p, *child);
            law_affine_maps(
                m,
                n,
                rows@[0],
                rows@[1],
                rows@[3],
                rows@[4],
                rows@[5],
                rows@[7],
                from[i][j],
            );
        },
        _ => {},
    }
}

/// A square has its sizes: its corners run counter-clockwise from the lowest, its
/// sides are as long as asked for, and it starts at the origin or is centered on it.
pub proof fn law_square_corners(m: Reading, n: Numbers, size: Point2, center: bool)
    requires
        exact(m, n),
        n.divides(2),
    ensures
        ({
            let q = square_of(m, size, center);
            let (w, h) = ((n.of)(size.x), (n.of)(size.y));
            let (x, y) = ((n.of)(q[0].x), (n.of)(q[0].y));
            &&& q.len() == 4
            &&& at2(n, q[1], x + w, y)
            &&& at2(n, q[2], x + w, y + h)
            &&& at2(n, q[3], x, y + h)
            &&& !center ==> at2(n, q[0], 0, 0)
            &&& center ==> n.same(2 * x, -w) && n.same(2 * y, -h)
        }),
{
    let q = square_of(m, size, center);
    let (w, h) = ((n.of)(size.x), (n.of)(size.y));
    let (x, y) = ((n.of)(q[0].x), (n.of)(q[0].y));
    lemma_own(m, n);
    lemma_add(m, n, q[0].x, size.x, x, w);
    lemma_add(m, n, q[0].y, size.y, y, h);
    lemma_neg(m, n, size.x, w);
    lemma_neg(m, n, size.y, h);
    lemma_div(m, n, negative(size.x), TWO, -w, 2);
    lemma_div(m, n, negative(size.y), TWO, -h, 2);
}

/// A circle has as many points as it is divided into, each on it.
pub proof fn law_circle_outline(m: Reading, r: u64, f: FragmentSpec, i: int)
    requires
        0 <= i < round_of(m, r, f),
    ensures
        circle_of(m, r, f).len() == round_of(m, r, f),
        round_of(m, r, f) >= 3,
        circle_of(m, r, f)[i] == on_circle(m, r, i as u32, round_of(m, r, f)),
{
}

/// An outline that is resized along an axis gets the size that is asked for: every
/// distance along the axis is to the old one as the new size of the box is to the old
/// size. An axis without a size follows the other one where it is to, and else stays.
pub proof fn law_resized(
    m: Reading,
    n: Numbers,
    v: Seq<Seq<Point2>>,
    new: Point3,
    auto_x: bool,
    auto_y: bool,
    i: int,
    j: int,
)
    requires
        exact(m, n),
        0 <= i < v.len(),
        0 <= j < v[i].len(),
        !less(box_below(v, v.len() as int).hi.x, box_below(v, v.len() as int).lo.x),
    ensures
        ({
            let b = box_below(v, v.len() as int);
            let (w, h) = (m.at(NumOp::Sub, b.hi.x, b.lo.x), m.at(NumOp::Sub, b.hi.y, b.lo.y));
            let (old_w, old_h) = ((n.of)(b.hi.x) - (n.of)(b.lo.x), (n.of)(b.hi.y) - (n.of)(b.lo.y));
            let to = resized(m, v, new, auto_x, auto_y);
            let (p, q) = (v[i][j], to[i][j]);
            let set_x = less(ZERO, new.x) && less(ZERO, w);
            let set_y = less(ZERO, new.y) && less(ZERO, h);
            &&& alike(v, to)
            &&& set_x && n.divides(old_w) ==> n.same(
                (n.of)(q.x) * old_w,
                (n.of)(p.x) * (n.of)(new.x),
            )
            &&& set_y && n.divides(old_h) ==> n.same(
                (n.of)(q.y) * old_h,
                (n.of)(p.y) * (n.of)(new.y),
            )
            &&& !set_x && !(zero(new.x) && auto_x && set_y) ==> n.same((n.of)(q.x), (n.of)(p.x))
            &&& !set_y && !(zero(new.y) && auto_y && set_x) ==> n.same((n.of)(q.y), (n.of)(p.y))
            &&& !set_x && zero(new.x) && auto_x && set_y && n.divides(old_h) ==> n.same(
                (n.of)(q.x) * old_h,
                (n.of)(p.x) * (n.of)(new.y),
            )
            &&& !set_y && zero(new.y) && auto_y && set_x && n.divides(old_w) ==> n.same(
                (n.of)(q.y) * old_w,
                (n.of)(p.y) * (n.of)(new.x),
            )
        }),
{
    let b = box_below(v, v.len() as int);
    let (w, h) = (m.at(NumOp::Sub, b.hi.x, b.lo.x), m.at(NumOp::Sub, b.hi.y, b.lo.y));
    let p = v[i][j];
    lemma_own(m, n);
    lemma_sub(m, n, b.hi.x, b.lo.x, (n.of)(b.hi.x), (n.of)(b.lo.x));
    lemma_sub(m, n, b.hi.y, b.lo.y, (n.of)(b.hi.y), (n.of)(b.lo.y));
    let (old_w, old_h) = ((n.of)(b.hi.x) - (n.of)(b.lo.x), (n.of)(b.hi.y) - (n.of)(b.lo.y));
    lemma_fit(m, n, p.x, new.x, w, old_w);
    lemma_fit(m, n, p.y, new.y, h, old_h);
    lemma_fit(m, n, p.x, new.y, h, old_h);
    lemma_fit(m, n, p.y, new.x, w, old_w);
    lemma_mul(m, n, p.x, ONE, (n.of)(p.x), 1);
    lemma_mul(m, n, p.y, ONE, (n.of)(p.y), 1);
    assert(zero(new.x) ==> !less(ZERO, new.x));
    assert(zero(new.y) ==> !less(ZERO, new.y));
}

proof fn lemma_fit(m: Reading, n: Numbers, x: u64, new: u64, size: u64, old_size: int)
    requires
        exact(m, n),
        n.same((n.of)(size), old_size),
    ensures
        n.divides(old_size) ==> n.same(
            (n.of)(m.at(NumOp::Mul, x, m.at(NumOp::Div, new, size))) * old_size,
            (n.of)(x) * (n.of)(new),
        ),
{
    lemma_own(m, n);
    if n.divides(old_size) {
        lemma_div(m, n, new, size, (n.of)(new), old_size);
        let f = m.at(NumOp::Div, new, size);
        let (a, k, g) = ((n.of)(x), (n.of)(f), (n.of)(new));
        lemma_mul(m, n, x, f, a, k);
        let r = (n.of)(m.at(NumOp::Mul, x, f));
        lemma_same(n, old_size, old_size, old_size);
        lemma_ring(n, r, a * k, old_size, old_size);
        assert((a * k) * old_size == a * (k * old_size)) by (nonlinear_arith);
        lemma_ring(n, a, a, k * old_size, g);
        lemma_same(n, r * old_size, a * (k * old_size), a * g);
    }
}

/// An edge crosses the ray to the right of a point where its ends lie on both sides
/// of the height of the point, and the place of the edge at that height lies further
/// right.
pub proof fn law_edge_crosses(m: Reading, n: Numbers, c: Seq<Point2>, p: Point2, i: int)
    requires
        exact(m, n),
        0 <= i < c.len(),
        n.divides((n.of)(c[before(i, c.len() as int)].y) - (n.of)(c[i].y)),
    ensures
        exists|x: u64|
            {
                let (a, b) = (c[i], c[before(i, c.len() as int)]);
                &&& n.same(
                    (#[trigger] (n.of)(x) - (n.of)(a.x)) * ((n.of)(b.y) - (n.of)(a.y)),
                    ((n.of)(b.x) - (n.of)(a.x)) * ((n.of)(p.y) - (n.of)(a.y)),
                )
                &&& edge_crosses(m, c, p, i) <==> less(p.y, a.y) != less(p.y, b.y) && less(p.x, x)
            },
{
    let (a, b) = (c[i], c[before(i, c.len() as int)]);
    let (ax, ay, bx, by) = ((n.of)(a.x), (n.of)(a.y), (n.of)(b.x), (n.of)(b.y));
    let py = (n.of)(p.y);
    lemma_own(m, n);
    lemma_sub(m, n, b.x, a.x, bx, ax);
    lemma_sub(m, n, p.y, a.y, py, ay);
    lemma_sub(m, n, b.y, a.y, by, ay);
    let (u, v, w) = (
        m.at(NumOp::Sub, b.x, a.x),
        m.at(NumOp::Sub, p.y, a.y),
        m.at(NumOp::Sub, b.y, a.y),
    );
    lemma_mul(m, n, u, v, bx - ax, py - ay);
    let uv = m.at(NumOp::Mul, u, v);
    lemma_div(m, n, uv, w, (bx - ax) * (py - ay), by - ay);
    let q = m.at(NumOp::Div, uv, w);
    let k = (n.of)(q);
    lemma_add(m, n, q, a.x, k, ax);
    let x = m.at(NumOp::Add, q, a.x);
    lemma_ring(n, (n.of)(x), k + ax, ax, ax);
    lemma_same(n, by - ay, by - ay, by - ay);
    lemma_ring(n, (n.of)(x) - ax, k, by - ay, by - ay);
    lemma_same(n, ((n.of)(x) - ax) * (by - ay), k * (by - ay), (bx - ax) * (py - ay));
    assert(n.same(((n.of)(x) - ax) * (by - ay), (bx - ax) * (py - ay)));
}

/// The sum of two points is that of their coordinates.
pub proof fn law_points_add(m: Reading, n: Numbers, a: Point2, b: Point2)
    requires
        exact(m, n),
    ensures
        at2(n, sum_of(m, a, b), (n.of)(a.x) + (n.of)(b.x), (n.of)(a.y) + (n.of)(b.y)),
{
    lemma_own(m, n);
    lemma_add(m, n, a.x, b.x, (n.of)(a.x), (n.of)(b.x));
    lemma_add(m, n, a.y, b.y, (n.of)(a.y), (n.of)(b.y));
}

/// A welded outline starts where it started, is made of its points, and has no edge of
/// no length.
pub proof fn law_welded(m: Reading, c: Seq<Point2>, k: int, i: int)
    requires
        0 < k <= c.len(),
    ensures
        ({
            let w = welded(m, c, k);
            &&& 0 < w.len() <= k
            &&& w[0] == c[0]
            &&& 0 <= i < w.len() - 1 ==> !close(m, w[i], w[i + 1])
            &&& 0 <= i < w.len() ==> exists|j: int| 0 <= j < k && w[i] == #[trigger] c[j]
            &&& w.last() == c[k - 1] || close(m, w.last(), c[k - 1])
        }),
    decreases k,
{
    let done = welded(m, c, k - 1);
    let w = welded(m, c, k);
    if k > 1 {
        law_welded(m, c, k - 1, i);
        if 0 <= i < done.len() {
            let j = choose|j: int| 0 <= j < k - 1 && done[i] == #[trigger] c[j];
            assert(w[i] == c[j]);
        } else if i == done.len() && i < w.len() {
            assert(w[i] == c[k - 1]);
        }
    } else {
        assert(done =~= Seq::empty());
        assert(w =~= seq![c[0]]);
        assert(w[0] == c[0]);
    }
}

/// Two points count as one, or not, whichever comes first.
pub proof fn law_close_both_ways(m: Reading, a: Point2, b: Point2)
    requires
        forall|x: u64, y: u64|
            size_of(#[trigger] m.at(NumOp::Sub, x, y)) == size_of(m.at(NumOp::Sub, y, x)),
    ensures
        close(m, a, b) == close(m, b, a),
{
}

} // verus!
