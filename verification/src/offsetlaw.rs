//! What the formulas of offsets are for, in exact arithmetic: where the sides of a
//! grown outline lie.

use crate::exact::{
    exact, lemma_add, lemma_cancel, lemma_div, lemma_mul, lemma_neg, lemma_own, lemma_products,
    lemma_ring, lemma_same, lemma_sub, Numbers,
};
use crate::node::{FragmentSpec, Point2};
use crate::num::{at_most, less, negative, zero, NumOp, Reading, TWO};
use crate::offset::{
    arc_point, edge_normal, growth, half_turn, meeting, moved_by, slab, spread, step_of,
};
use crate::planar::after;
use crate::shapelaw::{at2, dot2, wedge2};
use crate::tessellate::PI;
use vstd::prelude::*;

verus! {

proof fn lemma_step(m: Reading, n: Numbers, a: Point2, b: Point2)
    requires
        exact(m, n),
    ensures
        at2(n, step_of(m, a, b), (n.of)(b.x) - (n.of)(a.x), (n.of)(b.y) - (n.of)(a.y)),
{
    lemma_own(m, n);
    lemma_sub(m, n, b.x, a.x, (n.of)(b.x), (n.of)(a.x));
    lemma_sub(m, n, b.y, a.y, (n.of)(b.y), (n.of)(a.y));
}

proof fn lemma_spread_of(m: Reading, n: Numbers, a: Point2, b: Point2)
    requires
        exact(m, n),
    ensures
        n.same((n.of)(spread(m, a, b)), wedge2(n, a, b)),
{
    lemma_own(m, n);
    lemma_mul(m, n, a.x, b.y, (n.of)(a.x), (n.of)(b.y));
    lemma_mul(m, n, a.y, b.x, (n.of)(a.y), (n.of)(b.x));
    lemma_sub(
        m,
        n,
        m.at(NumOp::Mul, a.x, b.y),
        m.at(NumOp::Mul, a.y, b.x),
        (n.of)(a.x) * (n.of)(b.y),
        (n.of)(a.y) * (n.of)(b.x),
    );
}

/// A point is moved by so much of a direction.
pub proof fn law_moved_by(m: Reading, n: Numbers, p: Point2, amount: u64, d: Point2)
    requires
        exact(m, n),
    ensures
        at2(
            n,
            moved_by(m, p, amount, d),
            (n.of)(p.x) + (n.of)(amount) * (n.of)(d.x),
            (n.of)(p.y) + (n.of)(amount) * (n.of)(d.y),
        ),
{
    let (x, y, k) = ((n.of)(p.x), (n.of)(p.y), (n.of)(amount));
    lemma_own(m, n);
    lemma_mul(m, n, amount, d.x, k, (n.of)(d.x));
    lemma_mul(m, n, amount, d.y, k, (n.of)(d.y));
    lemma_add(m, n, p.x, m.at(NumOp::Mul, amount, d.x), x, k * (n.of)(d.x));
    lemma_add(m, n, p.y, m.at(NumOp::Mul, amount, d.y), y, k * (n.of)(d.y));
}

/// The length of an edge, at least the smallest that counts as one.
pub open spec fn edge_length(m: Reading, d: Point2) -> u64 {
    crate::solid::greater(
        m.at(
            NumOp::Sqrt,
            m.at(NumOp::Add, m.at(NumOp::Mul, d.x, d.x), m.at(NumOp::Mul, d.y, d.y)),
            0,
        ),
        crate::faces::PICO,
    )
}

/// The normal of an edge is upright on it, to its right: outward where the outline
/// runs counter-clockwise. It has the length 1 where the edge's length is not rounded
/// up.
pub proof fn law_normal_to_the_right(m: Reading, n: Numbers, poly: Seq<Point2>, i: int)
    requires
        exact(m, n),
        n.divides(
            (n.of)(edge_length(m, step_of(m, poly[i], poly[after(i, poly.len() as int)]))),
        ),
    ensures
        ({
            let d = step_of(m, poly[i], poly[after(i, poly.len() as int)]);
            let w = edge_normal(m, poly, i);
            let k = (n.of)(edge_length(m, d));
            &&& n.same(dot2(n, w, d), 0)
            &&& n.same(wedge2(n, w, d) * k, dot2(n, d, d))
            &&& n.same(k * k, dot2(n, d, d)) ==> n.same(dot2(n, w, w), 1)
        }),
{
    let d = step_of(m, poly[i], poly[after(i, poly.len() as int)]);
    let w = edge_normal(m, poly, i);
    let bits = edge_length(m, d);
    let k = (n.of)(bits);
    let (x, y) = ((n.of)(d.x), (n.of)(d.y));
    let (p, q) = ((n.of)(w.x), (n.of)(w.y));
    lemma_own(m, n);
    lemma_neg(m, n, d.x, x);
    lemma_div(m, n, d.y, bits, y, k);
    lemma_div(m, n, negative(d.x), bits, -x, k);
    // p * k is y, and q * k is -x.
    lemma_products(n, p * k, x, q * k, y, y, x, -x, y);
    assert((p * k) * x + (q * k) * y == (p * x + q * y) * k) by (nonlinear_arith);
    assert(y * x + (-x) * y == 0) by (nonlinear_arith);
    assert(0 * k == 0);
    lemma_cancel(n, p * x + q * y, 0, k);
    lemma_products(n, p * k, y, q * k, x, y, y, -x, x);
    assert((p * k) * y - (q * k) * x == (p * y - q * x) * k) by (nonlinear_arith);
    assert(y * y - (-x) * x == x * x + y * y) by (nonlinear_arith);
    if n.same(k * k, dot2(n, d, d)) {
        lemma_products(n, p * k, p * k, q * k, q * k, y, y, -x, -x);
        crate::algebra::lemma_swap(p, k, p, k);
        crate::algebra::lemma_swap(q, k, q, k);
        let (pp, qq, kk) = (p * p, q * q, k * k);
        assert(pp * kk + qq * kk == (pp + qq) * kk) by (nonlinear_arith);
        assert((-x) * (-x) == x * x) by (nonlinear_arith);
        let e = x * x + y * y;
        lemma_same(n, kk, e, 0);
        lemma_same(n, (pp + qq) * kk, e, kk);
        assert((pp + qq) * kk == ((pp + qq) * k) * k) by (nonlinear_arith)
            requires
                kk == k * k,
        ;
        assert(kk == (1 * k) * k);
        lemma_cancel(n, (pp + qq) * k, 1 * k, k);
        lemma_cancel(n, pp + qq, 1, k);
    }
}

/// The slab along an edge has the edge and a copy of it, moved by the amount along
/// the edge's normal.
pub proof fn law_slab_sides(m: Reading, n: Numbers, poly: Seq<Point2>, amount: u64, i: int)
    requires
        exact(m, n),
    ensures
        ({
            let q = slab(m, poly, amount, i);
            let w = edge_normal(m, poly, i);
            let k = (n.of)(amount);
            let (a, b) = (poly[i], poly[after(i, poly.len() as int)]);
            &&& q.len() == 4
            &&& q[0] == a && q[1] == b
            &&& at2(n, q[2], (n.of)(b.x) + k * (n.of)(w.x), (n.of)(b.y) + k * (n.of)(w.y))
            &&& at2(n, q[3], (n.of)(a.x) + k * (n.of)(w.x), (n.of)(a.y) + k * (n.of)(w.y))
        }),
{
    let w = edge_normal(m, poly, i);
    law_moved_by(m, n, poly[i], amount, w);
    law_moved_by(m, n, poly[after(i, poly.len() as int)], amount, w);
}

/// Where two lines meet lies on both: the ways to it from the two points run along
/// the two directions.
pub proof fn law_meeting_on_both_lines(
    m: Reading,
    n: Numbers,
    p1: Point2,
    d1: Point2,
    p2: Point2,
    d2: Point2,
    q: Point2,
)
    requires
        exact(m, n),
        meeting(m, p1, d1, p2, d2) == Some(q),
        n.divides(wedge2(n, d1, d2)),
    ensures
        n.same(
            ((n.of)(q.x) - (n.of)(p1.x)) * (n.of)(d1.y) - ((n.of)(q.y) - (n.of)(p1.y)) * (n.of)(d1.x),
            0,
        ),
        n.same(
            ((n.of)(q.x) - (n.of)(p2.x)) * (n.of)(d2.y) - ((n.of)(q.y) - (n.of)(p2.y)) * (n.of)(d2.x),
            0,
        ),
{
    let s = step_of(m, p1, p2);
    let denom = spread(m, d1, d2);
    let top = spread(m, s, d2);
    let bt = m.at(NumOp::Div, top, denom);
    let t = (n.of)(bt);
    let (a, b) = ((n.of)(d1.x), (n.of)(d1.y));
    let (c, e) = ((n.of)(d2.x), (n.of)(d2.y));
    let (x, y) = ((n.of)(p1.x), (n.of)(p1.y));
    let (u, v) = ((n.of)(p2.x), (n.of)(p2.y));
    let (qx, qy) = ((n.of)(q.x), (n.of)(q.y));
    lemma_own(m, n);
    lemma_step(m, n, p1, p2);
    lemma_spread_of(m, n, d1, d2);
    lemma_spread_of(m, n, s, d2);
    let (sx, sy) = ((n.of)(s.x), (n.of)(s.y));
    lemma_products(n, sx, e, sy, c, u - x, e, v - y, c);
    let g = (u - x) * e - (v - y) * c;
    lemma_same(n, (n.of)(top), sx * e - sy * c, g);
    let w = a * e - b * c;
    lemma_div(m, n, top, denom, g, w);
    law_moved_by(m, n, p1, bt, d1);
    // q is p1 and t times d1.
    lemma_ring(n, qx, x + t * a, x, x);
    lemma_ring(n, qy, y + t * b, y, y);
    lemma_products(n, qx - x, b, qy - y, a, t * a, b, t * b, a);
    assert((t * a) * b - (t * b) * a == 0) by (nonlinear_arith);
    lemma_ring(n, qx, x + t * a, u, u);
    lemma_ring(n, qy, y + t * b, v, v);
    let (fx, fy) = (x + t * a - u, y + t * b - v);
    lemma_products(n, qx - u, e, qy - v, c, fx, e, fy, c);
    assert(fx * e - fy * c == t * w - g) by (nonlinear_arith)
        requires
            fx == x + t * a - u,
            fy == y + t * b - v,
            w == a * e - b * c,
            g == (u - x) * e - (v - y) * c,
    ;
    lemma_same(n, g, g, g);
    lemma_ring(n, t * w, g, g, g);
    lemma_same(n, (qx - u) * e - (qy - v) * c, t * w - g, 0);
}

/// A point of an arc lies at the amount from its corner, and its direction goes
/// evenly from the first angle over the whole one.
pub proof fn law_arc_points(
    m: Reading,
    n: Numbers,
    v: Point2,
    amount: u64,
    a0: u64,
    da: u64,
    s: u64,
    steps: u64,
)
    requires
        exact(m, n),
        n.divides(steps as int),
    ensures
        exists|a: u64|
            {
                let p = arc_point(m, v, amount, a0, da, s, steps);
                let (sn, cs) = ((n.of)(m.at(NumOp::Sin, a, 0)), (n.of)(m.at(NumOp::Cos, a, 0)));
                &&& n.same(
                    (#[trigger] (n.of)(a) - (n.of)(a0)) * (steps as int),
                    (n.of)(da) * (s as int),
                )
                &&& at2(
                    n,
                    p,
                    (n.of)(v.x) + (n.of)(amount) * cs,
                    (n.of)(v.y) + (n.of)(amount) * sn,
                )
            },
{
    let (d, k, all) = ((n.of)(da), s as int, steps as int);
    lemma_own(m, n);
    let (bs, bn) = (m.at(NumOp::FromInt, s, 0), m.at(NumOp::FromInt, steps, 0));
    lemma_div(m, n, bs, bn, k, all);
    let frac = m.at(NumOp::Div, bs, bn);
    let w = (n.of)(frac);
    lemma_mul(m, n, da, frac, d, w);
    let part = m.at(NumOp::Mul, da, frac);
    let o = (n.of)(a0);
    lemma_add(m, n, a0, part, o, d * w);
    let a = m.at(NumOp::Add, a0, part);
    let z = (n.of)(a);
    lemma_ring(n, z, o + d * w, o, o);
    lemma_same(n, all, all, all);
    lemma_ring(n, z - o, d * w, all, all);
    assert(d * w * all == d * (w * all)) by (nonlinear_arith);
    lemma_ring(n, d, d, w * all, k);
    lemma_same(n, (z - o) * all, d * (w * all), d * k);
    let (sn, cs) = (m.at(NumOp::Sin, a, 0), m.at(NumOp::Cos, a, 0));
    lemma_mul(m, n, amount, cs, (n.of)(amount), (n.of)(cs));
    lemma_mul(m, n, amount, sn, (n.of)(amount), (n.of)(sn));
    lemma_add(m, n, v.x, m.at(NumOp::Mul, amount, cs), (n.of)(v.x), (n.of)(amount) * (n.of)(cs));
    lemma_add(m, n, v.y, m.at(NumOp::Mul, amount, sn), (n.of)(v.y), (n.of)(amount) * (n.of)(sn));
    assert(n.same(((n.of)(a) - o) * all, d * k));
}

/// An angle is brought within half a turn by a whole one: it differs from what it was
/// by nothing, or by one full turn.
pub proof fn law_half_turn(m: Reading, n: Numbers, a: u64)
    requires
        exact(m, n),
    ensures
        ({
            let r = (n.of)(half_turn(m, a));
            let turn = 2 * (n.of)(PI);
            &&& at_most(a, negative(PI)) ==> n.same(r, (n.of)(a) + turn)
            &&& !at_most(a, negative(PI)) && less(PI, a) ==> n.same(r, (n.of)(a) - turn)
            &&& !at_most(a, negative(PI)) && !less(PI, a) ==> half_turn(m, a) == a
        }),
{
    lemma_own(m, n);
    let pi = (n.of)(PI);
    lemma_mul(m, n, TWO, PI, 2, pi);
    let turn = m.at(NumOp::Mul, TWO, PI);
    lemma_add(m, n, a, turn, (n.of)(a), 2 * pi);
    lemma_sub(m, n, a, turn, (n.of)(a), 2 * pi);
}

/// An outline grows by its radius, with round corners, where it is given one, and else
/// by its distance, with straight ones.
pub proof fn law_growth(r: u64, delta: u64, chamfer: bool, frags: FragmentSpec)
    ensures
        !zero(r) ==> growth(r, delta, chamfer, frags).amount == r && growth(
            r,
            delta,
            chamfer,
            frags,
        ).rounded,
        zero(r) ==> growth(r, delta, chamfer, frags).amount == delta && !growth(
            r,
            delta,
            chamfer,
            frags,
        ).rounded,
        growth(r, delta, chamfer, frags).chamfer == chamfer,
        growth(r, delta, chamfer, frags).frags == frags,
{
}

} // verus!
