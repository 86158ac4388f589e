//! What the formulas of space are for, in exact arithmetic: vectors, normals, and
//! the points of solids.

use crate::exact::{
    exact, lemma_add, lemma_cancel, lemma_div, lemma_mul, lemma_neg, lemma_own, lemma_products,
    lemma_ring, lemma_same, lemma_sub, lemma_unit, Numbers,
};
use crate::extrude::WELD;
use crate::extrudelaw::at3;
use crate::hull::{mean4, FOUR};
use crate::mesh::{MeshView, Point3, Triangle};
use crate::node::{FragmentSpec, Point2};
use crate::num::{at_most, less, negative, NumOp, Reading, TWO, ZERO};
use crate::revolve::{profile, ring_turn, rings_below, turned, with_swept, Sweep};
use crate::shapelaw::on_unit;
use crate::slice::crossing;
use crate::solid::greater;
use crate::surface::with_face;
use crate::tessellate::{cube_of, cylinder_of, end_points, on_circle, ring, sphere_points, HALF, PI};
use crate::vector::{cross_of, difference_of, dot_of, length_of, normal_of, unit_of};
use vstd::prelude::*;

verus! {

/// The scalar product of two vectors.
pub open spec fn dot3(n: Numbers, u: Point3, v: Point3) -> int {
    (n.of)(u.x) * (n.of)(v.x) + (n.of)(u.y) * (n.of)(v.y) + (n.of)(u.z) * (n.of)(v.z)
}

/// The signed volume that three vectors span.
pub open spec fn volume(n: Numbers, u: Point3, v: Point3, w: Point3) -> int {
    (n.of)(u.x) * ((n.of)(v.y) * (n.of)(w.z) - (n.of)(v.z) * (n.of)(w.y)) + (n.of)(u.y) * ((n.of)(
        v.z,
    ) * (n.of)(w.x) - (n.of)(v.x) * (n.of)(w.z)) + (n.of)(u.z) * ((n.of)(v.x) * (n.of)(w.y) - (
    n.of)(v.y) * (n.of)(w.x))
}

// ---- vectors -----------------------------------------------------------------------------------

proof fn lemma_sum3(n: Numbers, a: int, b: int, c: int, a1: int, b1: int, c1: int)
    requires
        n.modulus > 0,
        n.same(a, a1),
        n.same(b, b1),
        n.same(c, c1),
    ensures
        n.same(a + b + c, a1 + b1 + c1),
{
    lemma_ring(n, a, a1, b, b1);
    lemma_ring(n, a + b, a1 + b1, c, c1);
}

/// The scalar product is the sum of the products of the coordinates.
pub proof fn law_dot(m: Reading, n: Numbers, u: Point3, v: Point3)
    requires
        exact(m, n),
    ensures
        n.same((n.of)(dot_of(m, u, v)), dot3(n, u, v)),
{
    lemma_own(m, n);
    lemma_mul(m, n, u.x, v.x, (n.of)(u.x), (n.of)(v.x));
    lemma_mul(m, n, u.y, v.y, (n.of)(u.y), (n.of)(v.y));
    lemma_mul(m, n, u.z, v.z, (n.of)(u.z), (n.of)(v.z));
    let (a, b, c) = (
        (n.of)(u.x) * (n.of)(v.x),
        (n.of)(u.y) * (n.of)(v.y),
        (n.of)(u.z) * (n.of)(v.z),
    );
    let (p, q) = (m.at(NumOp::Mul, u.x, v.x), m.at(NumOp::Mul, u.y, v.y));
    lemma_add(m, n, p, q, a, b);
    lemma_add(m, n, m.at(NumOp::Add, p, q), m.at(NumOp::Mul, u.z, v.z), a + b, c);
}

/// A difference leads from its second point to its first.
pub proof fn law_difference(m: Reading, n: Numbers, a: Point3, b: Point3)
    requires
        exact(m, n),
    ensures
        at3(
            n,
            difference_of(m, a, b),
            (n.of)(a.x) - (n.of)(b.x),
            (n.of)(a.y) - (n.of)(b.y),
            (n.of)(a.z) - (n.of)(b.z),
        ),
{
    lemma_own(m, n);
    lemma_sub(m, n, a.x, b.x, (n.of)(a.x), (n.of)(b.x));
    lemma_sub(m, n, a.y, b.y, (n.of)(a.y), (n.of)(b.y));
    lemma_sub(m, n, a.z, b.z, (n.of)(a.z), (n.of)(b.z));
}

proof fn lemma_minor(m: Reading, n: Numbers, a: u64, b: u64, c: u64, d: u64)
    requires
        exact(m, n),
    ensures
        n.same(
            (n.of)(crate::vector::minor(m, a, b, c, d)),
            (n.of)(a) * (n.of)(b) - (n.of)(c) * (n.of)(d),
        ),
{
    lemma_own(m, n);
    lemma_mul(m, n, a, b, (n.of)(a), (n.of)(b));
    lemma_mul(m, n, c, d, (n.of)(c), (n.of)(d));
    lemma_sub(
        m,
        n,
        m.at(NumOp::Mul, a, b),
        m.at(NumOp::Mul, c, d),
        (n.of)(a) * (n.of)(b),
        (n.of)(c) * (n.of)(d),
    );
}

/// The cross product of two vectors measures the volume that a third one spans with
/// them; so it is upright on both.
pub proof fn law_cross(m: Reading, n: Numbers, u: Point3, v: Point3, w: Point3)
    requires
        exact(m, n),
    ensures
        n.same(dot3(n, cross_of(m, u, v), w), volume(n, u, v, w)),
        n.same(dot3(n, cross_of(m, u, v), u), 0),
        n.same(dot3(n, cross_of(m, u, v), v), 0),
{
    lemma_cross_dot(m, n, u, v, w);
    lemma_cross_dot(m, n, u, v, u);
    lemma_cross_dot(m, n, u, v, v);
    let (a, b, c) = ((n.of)(u.x), (n.of)(u.y), (n.of)(u.z));
    let (d, e, f) = ((n.of)(v.x), (n.of)(v.y), (n.of)(v.z));
    assert(a * (e * c - f * b) + b * (f * a - d * c) + c * (d * b - e * a) == 0)
        by (nonlinear_arith);
    assert(a * (e * f - f * e) + b * (f * d - d * f) + c * (d * e - e * d) == 0)
        by (nonlinear_arith);
}

proof fn lemma_cross_dot(m: Reading, n: Numbers, u: Point3, v: Point3, w: Point3)
    requires
        exact(m, n),
    ensures
        n.same(dot3(n, cross_of(m, u, v), w), volume(n, u, v, w)),
{
    let (a, b, c) = ((n.of)(u.x), (n.of)(u.y), (n.of)(u.z));
    let (d, e, f) = ((n.of)(v.x), (n.of)(v.y), (n.of)(v.z));
    let (g, h, i) = ((n.of)(w.x), (n.of)(w.y), (n.of)(w.z));
    let x = cross_of(m, u, v);
    lemma_own(m, n);
    lemma_minor(m, n, u.y, v.z, u.z, v.y);
    lemma_minor(m, n, u.z, v.x, u.x, v.z);
    lemma_minor(m, n, u.x, v.y, u.y, v.x);
    let (p, q, r) = (b * f - c * e, c * d - a * f, a * e - b * d);
    lemma_ring(n, (n.of)(x.x), p, g, g);
    lemma_ring(n, (n.of)(x.y), q, h, h);
    lemma_ring(n, (n.of)(x.z), r, i, i);
    lemma_sum3(n, (n.of)(x.x) * g, (n.of)(x.y) * h, (n.of)(x.z) * i, p * g, q * h, r * i);
    lemma_volume(a, b, c, d, e, f, g, h, i);
}

proof fn lemma_volume(a: int, b: int, c: int, d: int, e: int, f: int, g: int, h: int, i: int)
    ensures
        (b * f - c * e) * g + (c * d - a * f) * h + (a * e - b * d) * i == a * (e * i - f * h) + b * (f
            * g - d * i) + c * (d * h - e * g),
{
    assert((b * f - c * e) * g == b * (f * g) - c * (e * g)) by (nonlinear_arith);
    assert((c * d - a * f) * h == c * (d * h) - a * (f * h)) by (nonlinear_arith);
    assert((a * e - b * d) * i == a * (e * i) - b * (d * i)) by (nonlinear_arith);
    assert(a * (e * i - f * h) == a * (e * i) - a * (f * h)) by (nonlinear_arith);
    assert(b * (f * g - d * i) == b * (f * g) - b * (d * i)) by (nonlinear_arith);
    assert(c * (d * h - e * g) == c * (d * h) - c * (e * g)) by (nonlinear_arith);
}

/// A unit vector points where the vector points: its length times it is the vector,
/// and so its own length is 1.
pub proof fn law_unit(m: Reading, n: Numbers, v: Point3)
    requires
        exact(m, n),
        less(ZERO, length_of(m, v)),
        n.divides((n.of)(length_of(m, v))),
    ensures
        ({
            let k = (n.of)(length_of(m, v));
            let u = unit_of(m, v);
            &&& at3(n, v, (n.of)(u.x) * k, (n.of)(u.y) * k, (n.of)(u.z) * k)
            &&& n.same(k * k, dot3(n, v, v)) ==> n.same(dot3(n, u, u) * (k * k), 1 * (k * k))
        }),
{
    lemma_own(m, n);
    let l = length_of(m, v);
    let k = (n.of)(l);
    let u = unit_of(m, v);
    let (x, y, z) = ((n.of)(u.x), (n.of)(u.y), (n.of)(u.z));
    let (a, b, c) = ((n.of)(v.x), (n.of)(v.y), (n.of)(v.z));
    lemma_div(m, n, v.x, l, a, k);
    lemma_div(m, n, v.y, l, b, k);
    lemma_div(m, n, v.z, l, c, k);
    lemma_same(n, x * k, a, 0);
    lemma_same(n, y * k, b, 0);
    lemma_same(n, z * k, c, 0);
    if n.same(k * k, dot3(n, v, v)) {
        lemma_ring(n, x * k, a, x * k, a);
        lemma_ring(n, y * k, b, y * k, b);
        lemma_ring(n, z * k, c, z * k, c);
        lemma_sum3(
            n,
            (x * k) * (x * k),
            (y * k) * (y * k),
            (z * k) * (z * k),
            a * a,
            b * b,
            c * c,
        );
        crate::algebra::lemma_swap(x, k, x, k);
        crate::algebra::lemma_swap(y, k, y, k);
        crate::algebra::lemma_swap(z, k, z, k);
        let kk = k * k;
        assert((x * x + y * y + z * z) * kk == (x * x) * kk + (y * y) * kk + (z * z) * kk)
            by (nonlinear_arith);
        lemma_same(n, kk, dot3(n, v, v), 0);
        lemma_same(n, dot3(n, u, u) * kk, dot3(n, v, v), kk);
    }
}

/// The normal of a triangle is upright on its sides, and points to where its
/// corners run counter-clockwise: it has the direction of the cross product of the
/// side to the second corner with the side to the third.
pub proof fn law_normal_upright(m: Reading, n: Numbers, mesh: MeshView, t: Triangle)
    requires
        exact(m, n),
        ({
            let a = mesh.verts[t.a as int];
            let (u, v) = (
                difference_of(m, mesh.verts[t.b as int], a),
                difference_of(m, mesh.verts[t.c as int], a),
            );
            let l = length_of(m, cross_of(m, u, v));
            less(ZERO, l) && n.divides((n.of)(l))
        }),
    ensures
        ({
            let a = mesh.verts[t.a as int];
            let (u, v) = (
                difference_of(m, mesh.verts[t.b as int], a),
                difference_of(m, mesh.verts[t.c as int], a),
            );
            let w = normal_of(m, mesh, t);
            let k = (n.of)(length_of(m, cross_of(m, u, v)));
            &&& n.same(dot3(n, w, u), 0)
            &&& n.same(dot3(n, w, v), 0)
            &&& n.same(dot3(n, w, w) * k, volume(n, u, v, w))
        }),
{
    let a = mesh.verts[t.a as int];
    let (u, v) = (
        difference_of(m, mesh.verts[t.b as int], a),
        difference_of(m, mesh.verts[t.c as int], a),
    );
    let x = cross_of(m, u, v);
    let k = (n.of)(length_of(m, x));
    let w = normal_of(m, mesh, t);
    law_unit(m, n, x);
    law_cross(m, n, u, v, w);
    lemma_along(n, x, w, k, u);
    lemma_along(n, x, w, k, v);
    lemma_along(n, x, w, k, w);
    lemma_same(n, dot3(n, w, u) * k, dot3(n, x, u), 0);
    lemma_same(n, dot3(n, w, v) * k, dot3(n, x, v), 0);
    lemma_same(n, dot3(n, w, w) * k, dot3(n, x, w), volume(n, u, v, w));
    lemma_cancel(n, dot3(n, w, u), 0, k);
    lemma_cancel(n, dot3(n, w, v), 0, k);
}

proof fn lemma_along(n: Numbers, x: Point3, w: Point3, k: int, u: Point3)
    requires
        n.modulus > 0,
        at3(n, x, (n.of)(w.x) * k, (n.of)(w.y) * k, (n.of)(w.z) * k),
    ensures
        n.same(dot3(n, w, u) * k, dot3(n, x, u)),
{
    let (a, b, c) = ((n.of)(w.x), (n.of)(w.y), (n.of)(w.z));
    let (d, e, f) = ((n.of)(u.x), (n.of)(u.y), (n.of)(u.z));
    let (p, q, r) = ((n.of)(x.x), (n.of)(x.y), (n.of)(x.z));
    lemma_same(n, d, d, d);
    lemma_same(n, e, e, e);
    lemma_same(n, f, f, f);
    lemma_ring(n, p, a * k, d, d);
    lemma_ring(n, q, b * k, e, e);
    lemma_ring(n, r, c * k, f, f);
    lemma_sum3(n, p * d, q * e, r * f, a * k * d, b * k * e, c * k * f);
    assert(a * k * d == (a * d) * k) by (nonlinear_arith);
    assert(b * k * e == (b * e) * k) by (nonlinear_arith);
    assert(c * k * f == (c * f) * k) by (nonlinear_arith);
    let (ad, be, cf) = (a * d, b * e, c * f);
    assert(ad * k + be * k + cf * k == (ad + be + cf) * k) by (nonlinear_arith);
    lemma_same(n, p * d + q * e + r * f, (a * d + b * e + c * f) * k, 0);
}

// ---- solids ------------------------------------------------------------------------------------

/// A box has its sizes: each corner lies at one end or the other of each axis, and
/// the ends are as far apart as asked for, from zero on or around it.
pub proof fn law_box_corners(m: Reading, n: Numbers, size: Point3, center: bool)
    requires
        exact(m, n),
        n.divides(2),
    ensures
        ({
            let v = cube_of(m, size, center).verts;
            let (x, y, z) = ((n.of)(v[0].x), (n.of)(v[0].y), (n.of)(v[0].z));
            let (w, d, h) = ((n.of)(size.x), (n.of)(size.y), (n.of)(size.z));
            &&& v.len() == 8
            &&& at3(n, v[1], x + w, y, z)
            &&& at3(n, v[2], x + w, y + d, z)
            &&& at3(n, v[3], x, y + d, z)
            &&& at3(n, v[4], x, y, z + h)
            &&& at3(n, v[5], x + w, y, z + h)
            &&& at3(n, v[6], x + w, y + d, z + h)
            &&& at3(n, v[7], x, y + d, z + h)
            &&& !center ==> at3(n, v[0], 0, 0, 0)
            &&& center ==> n.same(2 * x, -w) && n.same(2 * y, -d) && n.same(2 * z, -h)
        }),
{
    let v = cube_of(m, size, center).verts;
    lemma_own(m, n);
    lemma_span(m, n, size.x, center);
    lemma_span(m, n, size.y, center);
    lemma_span(m, n, size.z, center);
}

/// The two ends of an axis.
proof fn lemma_span(m: Reading, n: Numbers, size: u64, center: bool)
    requires
        exact(m, n),
        n.divides(2),
    ensures
        ({
            let w = (n.of)(size);
            let (lo, hi) = if center {
                (m.at(NumOp::Div, negative(size), TWO), m.at(NumOp::Div, size, TWO))
            } else {
                (ZERO, size)
            };
            &&& n.same((n.of)(hi), (n.of)(lo) + w)
            &&& !center ==> n.same((n.of)(lo), 0)
            &&& center ==> n.same(2 * (n.of)(lo), -w)
        }),
{
    let w = (n.of)(size);
    lemma_own(m, n);
    if center {
        let lo = (n.of)(m.at(NumOp::Div, negative(size), TWO));
        let hi = (n.of)(m.at(NumOp::Div, size, TWO));
        lemma_neg(m, n, size, w);
        lemma_div(m, n, negative(size), TWO, -w, 2);
        lemma_div(m, n, size, TWO, w, 2);
        lemma_same(n, 2 * w, 2 * w, 2 * w);
        lemma_ring(n, lo * 2, -w, 2 * w, 2 * w);
        lemma_same(n, (lo + w) * 2, w, 0);
        lemma_same(n, hi * 2, w, (lo + w) * 2);
        lemma_cancel(n, hi, lo + w, 2);
    } else {
        lemma_ring(n, (n.of)(ZERO), 0, w, w);
        lemma_same(n, (n.of)(ZERO) + w, w, 0);
    }
}

/// A point on a circle lies at its radius from the middle, in the direction of its
/// share of a full turn, counter-clockwise from `x`.
pub proof fn law_circle_points(m: Reading, n: Numbers, r: u64, i: u32, all: u32)
    requires
        exact(m, n),
        n.divides(all as int),
    ensures
        exists|phi: u64|
            {
                let (s, c) = (
                    (n.of)(m.at(NumOp::Sin, phi, 0)),
                    (n.of)(m.at(NumOp::Cos, phi, 0)),
                );
                let p = on_circle(m, r, i, all);
                &&& n.same(#[trigger] (n.of)(phi) * (all as int), 2 * (n.of)(PI) * (
                i as int))
                &&& n.same((n.of)(p.x), (n.of)(r) * c)
                &&& n.same((n.of)(p.y), (n.of)(r) * s)
                &&& n.same(s * s + c * c, 1) ==> n.same(
                    (n.of)(p.x) * (n.of)(p.x) + (n.of)(p.y) * (n.of)(p.y),
                    (n.of)(r) * (n.of)(r),
                )
            },
{
    let pi = (n.of)(PI);
    lemma_own(m, n);
    let t = m.at(NumOp::Mul, TWO, PI);
    let k = m.at(NumOp::FromInt, i as u64, 0);
    let w = m.at(NumOp::FromInt, all as u64, 0);
    lemma_mul(m, n, TWO, PI, 2, pi);
    lemma_mul(m, n, t, k, 2 * pi, i as int);
    lemma_div(m, n, m.at(NumOp::Mul, t, k), w, 2 * pi * (i as int), all as int);
    let phi = m.at(NumOp::Div, m.at(NumOp::Mul, t, k), w);
    let (bs, bc) = (m.at(NumOp::Sin, phi, 0), m.at(NumOp::Cos, phi, 0));
    lemma_mul(m, n, r, bc, (n.of)(r), (n.of)(bc));
    lemma_mul(m, n, r, bs, (n.of)(r), (n.of)(bs));
    let p = on_circle(m, r, i, all);
    if on_unit(n, bs, bc) {
        lemma_radius(n, (n.of)(p.x), (n.of)(p.y), (n.of)(r), (n.of)(bs), (n.of)(bc));
    }
    assert(n.same((n.of)(phi) * (all as int), 2 * pi * (i as int)));
}

proof fn lemma_radius(n: Numbers, x: int, y: int, r: int, s: int, c: int)
    requires
        n.modulus > 0,
        n.same(x, r * c),
        n.same(y, r * s),
        n.same(s * s + c * c, 1),
    ensures
        n.same(x * x + y * y, r * r),
{
    lemma_products(n, x, x, y, y, r * c, r * c, r * s, r * s);
    crate::algebra::lemma_swap(r, c, r, c);
    crate::algebra::lemma_swap(r, s, r, s);
    let (q, ss, cc) = (r * r, s * s, c * c);
    assert(q * cc + q * ss == q * (ss + cc)) by (nonlinear_arith);
    lemma_unit(n, q, ss + cc);
    lemma_same(n, x * x + y * y, q * (ss + cc), q);
}

/// A ring of points lies level, on its circle.
pub proof fn law_ring_points(m: Reading, r: u64, z: u64, all: u32, k: int, j: int)
    requires
        0 <= j < k <= all,
    ensures
        ring(m, r, z, all, k).len() == k,
        ring(m, r, z, all, k)[j].z == z,
        ring(m, r, z, all, k)[j].x == on_circle(m, r, j as u32, all).x,
        ring(m, r, z, all, k)[j].y == on_circle(m, r, j as u32, all).y,
{
}

/// The points of a sphere lie at its radius from the middle: ring `k` is level, its
/// height and its radius those of its share of half a turn.
pub proof fn law_sphere_points(
    m: Reading,
    n: Numbers,
    r: u64,
    all: u32,
    rings: u32,
    count: int,
    k: int,
    j: int,
)
    requires
        exact(m, n),
        0 <= k < count <= rings,
        0 <= j < all,
        n.divides(rings as int),
        n.same(2 * (n.of)(HALF), 1),
    ensures
        ({
            let v = sphere_points(m, r, all, rings, count);
            &&& v.len() == count * all
            &&& 0 <= k * all + j < v.len()
            &&& exists|phi: u64, level: u64, wide: u64|
                {
                    let p = v[k * all + j];
                    let (s, c) = (
                        (n.of)(m.at(NumOp::Sin, phi, 0)),
                        (n.of)(m.at(NumOp::Cos, phi, 0)),
                    );
                    &&& n.same(
                        2 * (#[trigger] (n.of)(phi) * (rings as int)),
                        (n.of)(PI) * (2 * k + 1),
                    )
                    &&& p == #[trigger] ring(m, wide, level, all, all as int)[j]
                    &&& n.same((n.of)(level), (n.of)(r) * c)
                    &&& n.same((n.of)(wide), (n.of)(r) * s)
                    &&& n.same(s * s + c * c, 1) ==> n.same(
                        (n.of)(wide) * (n.of)(wide) + (n.of)(level) * (n.of)(level),
                        (n.of)(r) * (n.of)(r),
                    )
                }
        }),
    decreases count,
{
    lemma_sphere_length(m, r, all, rings, count);
    lemma_sphere_length(m, r, all, rings, count - 1);
    let w = all as int;
    assert(0 <= k * w) by (nonlinear_arith)
        requires
            k >= 0,
            w >= 0,
    ;
    assert(k * w + w <= count * w) by (nonlinear_arith)
        requires
            k + 1 <= count,
            w >= 0,
    ;
    if k < count - 1 {
        law_sphere_points(m, n, r, all, rings, count - 1, k, j);
    } else {
        lemma_own(m, n);
        let pi = (n.of)(PI);
        let h = (n.of)(HALF);
        let bk = m.at(NumOp::FromInt, k as u64, 0);
        let bn = m.at(NumOp::FromInt, rings as u64, 0);
        let bh = m.at(NumOp::Add, bk, HALF);
        lemma_add(m, n, bk, HALF, k, h);
        lemma_mul(m, n, PI, bh, pi, k + h);
        lemma_div(m, n, m.at(NumOp::Mul, PI, bh), bn, pi * (k + h), rings as int);
        let phi = m.at(NumOp::Div, m.at(NumOp::Mul, PI, bh), bn);
        let t = (n.of)(phi) * (rings as int);
        lemma_same(n, 2, 2, 2);
        lemma_same(n, 2 * k, 2 * k, 2 * k);
        lemma_ring(n, 2, 2, t, pi * (k + h));
        assert(2 * (pi * (k + h)) == pi * (2 * k + 2 * h)) by (nonlinear_arith);
        lemma_ring(n, 2 * k, 2 * k, 2 * h, 1);
        lemma_ring(n, pi, pi, 2 * k + 2 * h, 2 * k + 1);
        lemma_same(n, 2 * t, pi * (2 * k + 2 * h), pi * (2 * k + 1));
        let (bs, bc) = (m.at(NumOp::Sin, phi, 0), m.at(NumOp::Cos, phi, 0));
        let (wide, level) = (m.at(NumOp::Mul, r, bs), m.at(NumOp::Mul, r, bc));
        lemma_mul(m, n, r, bs, (n.of)(r), (n.of)(bs));
        lemma_mul(m, n, r, bc, (n.of)(r), (n.of)(bc));
        if on_unit(n, bs, bc) {
            lemma_radius(n, (n.of)(level), (n.of)(wide), (n.of)(r), (n.of)(bs), (n.of)(bc));
        }
        let v = sphere_points(m, r, all, rings, count);
        assert(v[k * all + j] == ring(m, wide, level, all, all as int)[j]);
        assert(n.same(2 * ((n.of)(phi) * (rings as int)), pi * (2 * k + 1)));
    }
}

proof fn lemma_sphere_length(m: Reading, r: u64, all: u32, rings: u32, count: int)
    requires
        0 <= count,
    ensures
        sphere_points(m, r, all, rings, count).len() == count * all,
    decreases count,
{
    if count > 0 {
        lemma_sphere_length(m, r, all, rings, count - 1);
        assert((count - 1) * all + all == count * all) by (nonlinear_arith);
    }
}

/// The bottom of a cylinder lies at zero, or half the height below it where it is
/// centered, its top a whole height above, and each end has its own radius, or is a
/// tip on the axis where it has none.
pub proof fn law_cylinder_ends(
    m: Reading,
    n: Numbers,
    h: u64,
    r1: u64,
    r2: u64,
    center: bool,
    f: FragmentSpec,
)
    requires
        exact(m, n),
        n.divides(2),
        cylinder_of(m, h, r1, r2, center, f) is Some,
        !crate::num::at_most(r1, ZERO) || !crate::num::at_most(r2, ZERO),
    ensures
        exists|low: u64, high: u64, all: u32|
            {
                let v = cylinder_of(m, h, r1, r2, center, f)->0.verts;
                &&& v == #[trigger] end_points(m, r1, low, all) + #[trigger] end_points(
                    m,
                    r2,
                    high,
                    all,
                )
                &&& n.same((n.of)(high), (n.of)(low) + (n.of)(h))
                &&& !center ==> n.same((n.of)(low), 0)
                &&& center ==> n.same(2 * (n.of)(low), -(n.of)(h))
            },
{
    lemma_span(m, n, h, center);
    let low = if center {
        m.at(NumOp::Div, negative(h), TWO)
    } else {
        ZERO
    };
    let high = if center {
        m.at(NumOp::Div, h, TWO)
    } else {
        h
    };
    let all = crate::tessellate::round_of(m, greater(r1, r2), f);
    let v = cylinder_of(m, h, r1, r2, center, f)->0.verts;
    assert(v == end_points(m, r1, low, all) + end_points(m, r2, high, all));
}

/// A point of a sweep lies as high as its point of the outline, as far from the
/// axis, and at its ring's share of the whole angle, counter-clockwise from `x`.
pub proof fn law_sweep_points(m: Reading, n: Numbers, angle: u64, steps: u32, k: int, p: Point2)
    requires
        exact(m, n),
        n.divides(steps as int),
        0 <= k <= steps,
    ensures
        ({
            let t = ring_turn(m, angle, steps, k);
            let q = turned(m, t, p);
            let (s, c) = ((n.of)(t.0), (n.of)(t.1));
            &&& q.z == p.y
            &&& n.same((n.of)(q.x), (n.of)(p.x) * c)
            &&& n.same((n.of)(q.y), (n.of)(p.x) * s)
            &&& n.same(s * s + c * c, 1) ==> n.same(
                (n.of)(q.x) * (n.of)(q.x) + (n.of)(q.y) * (n.of)(q.y),
                (n.of)(p.x) * (n.of)(p.x),
            )
            &&& exists|turn: u64|
                n.same(#[trigger] (n.of)(turn) * (steps as int), k * (n.of)(angle)) && t.0 == m.at(
                    NumOp::Sin,
                    m.at(NumOp::ToRadians, turn, 0),
                    0,
                ) && t.1 == m.at(NumOp::Cos, m.at(NumOp::ToRadians, turn, 0), 0)
        }),
{
    let t = ring_turn(m, angle, steps, k);
    let q = turned(m, t, p);
    let (s, c) = ((n.of)(t.0), (n.of)(t.1));
    let (x, a) = ((n.of)(p.x), (n.of)(angle));
    lemma_own(m, n);
    lemma_mul(m, n, p.x, t.1, x, c);
    lemma_mul(m, n, p.x, t.0, x, s);
    if n.same(s * s + c * c, 1) {
        lemma_radius(n, (n.of)(q.x), (n.of)(q.y), x, s, c);
    }
    let (bk, ba) = (m.at(NumOp::FromInt, k as u64, 0), m.at(NumOp::FromInt, steps as u64, 0));
    lemma_div(m, n, bk, ba, k, steps as int);
    let frac = m.at(NumOp::Div, bk, ba);
    let w = (n.of)(frac);
    lemma_mul(m, n, angle, frac, a, w);
    let turn = m.at(NumOp::Mul, angle, frac);
    let all = steps as int;
    lemma_same(n, all, all, all);
    lemma_ring(n, (n.of)(turn), a * w, all, all);
    assert(a * w * all == a * (w * all)) by (nonlinear_arith);
    lemma_ring(n, a, a, w * all, k);
    assert(a * k == k * a) by (nonlinear_arith);
    lemma_same(n, (n.of)(turn) * all, a * (w * all), k * a);
}

// ---- cuts and means ----------------------------------------------------------------------------

/// Where an edge crosses the plane just above the ground, it lies on the edge, and
/// at the height of the plane.
pub proof fn law_crossing_on_edge(m: Reading, n: Numbers, a: Point3, b: Point3, q: Point2)
    requires
        exact(m, n),
        crossing(m, a, b) == Some(q),
        n.divides((n.of)(a.z) - (n.of)(b.z)),
    ensures
        exists|f: int|
            {
                &&& n.same(
                    #[trigger] (((n.of)(b.z) - (n.of)(a.z)) * f) + (n.of)(a.z),
                    (n.of)(WELD),
                )
                &&& n.same((n.of)(q.x), (n.of)(a.x) + ((n.of)(b.x) - (n.of)(a.x)) * f)
                &&& n.same((n.of)(q.y), (n.of)(a.y) + ((n.of)(b.y) - (n.of)(a.y)) * f)
            },
{
    let (ax, ay, az) = ((n.of)(a.x), (n.of)(a.y), (n.of)(a.z));
    let (bx, by, bz) = ((n.of)(b.x), (n.of)(b.y), (n.of)(b.z));
    let w = (n.of)(WELD);
    lemma_own(m, n);
    let (za, zb) = (m.at(NumOp::Sub, a.z, WELD), m.at(NumOp::Sub, b.z, WELD));
    lemma_sub(m, n, a.z, WELD, az, w);
    lemma_sub(m, n, b.z, WELD, bz, w);
    lemma_sub(m, n, za, zb, az - w, bz - w);
    let dz = m.at(NumOp::Sub, za, zb);
    assert((az - w) - (bz - w) == az - bz);
    lemma_div(m, n, za, dz, az - w, az - bz);
    let bf = m.at(NumOp::Div, za, dz);
    let f = (n.of)(bf);
    lemma_sub(m, n, b.x, a.x, bx, ax);
    lemma_sub(m, n, b.y, a.y, by, ay);
    let (dx, dy) = (m.at(NumOp::Sub, b.x, a.x), m.at(NumOp::Sub, b.y, a.y));
    lemma_mul(m, n, dx, bf, bx - ax, f);
    lemma_mul(m, n, dy, bf, by - ay, f);
    lemma_add(m, n, a.x, m.at(NumOp::Mul, dx, bf), ax, (bx - ax) * f);
    lemma_add(m, n, a.y, m.at(NumOp::Mul, dy, bf), ay, (by - ay) * f);
    lemma_ring(n, az, az, f * (az - bz), az - w);
    assert(az - f * (az - bz) == ((bz - az) * f) + az) by (nonlinear_arith);
    assert(az - (az - w) == w);
}

/// The mean of four numbers, four times, is their sum.
pub proof fn law_mean(m: Reading, n: Numbers, a: u64, b: u64, c: u64, d: u64)
    requires
        exact(m, n),
        n.same((n.of)(FOUR), 4),
        n.divides(4),
    ensures
        n.same(4 * (n.of)(mean4(m, a, b, c, d)), (n.of)(a) + (n.of)(b) + (n.of)(c) + (n.of)(d)),
{
    let (p, q, r, s) = ((n.of)(a), (n.of)(b), (n.of)(c), (n.of)(d));
    lemma_own(m, n);
    lemma_add(m, n, a, b, p, q);
    let ab = m.at(NumOp::Add, a, b);
    lemma_add(m, n, ab, c, p + q, r);
    let abc = m.at(NumOp::Add, ab, c);
    lemma_add(m, n, abc, d, p + q + r, s);
    lemma_div(m, n, m.at(NumOp::Add, abc, d), FOUR, p + q + r + s, 4);
}

// ---- facing outward ----------------------------------------------------------------------------

/// Twice the area of a triangle of three points seen along one axis: positive where
/// they run counter-clockwise seen from the end of the axis.
pub open spec fn seen_along(n: Numbers, a: Point3, b: Point3, c: Point3, axis: int) -> int {
    let (ax, ay, az) = ((n.of)(a.x), (n.of)(a.y), (n.of)(a.z));
    let (bx, by, bz) = ((n.of)(b.x), (n.of)(b.y), (n.of)(b.z));
    let (cx, cy, cz) = ((n.of)(c.x), (n.of)(c.y), (n.of)(c.z));
    if axis == 0 {
        (by - ay) * (cz - az) - (bz - az) * (cy - ay)
    } else if axis == 1 {
        (bz - az) * (cx - ax) - (bx - ax) * (cz - az)
    } else {
        (bx - ax) * (cy - ay) - (by - ay) * (cx - ax)
    }
}

proof fn lemma_seen(
    n: Numbers,
    au: int,
    av: int,
    bu: int,
    bv: int,
    cu: int,
    cv: int,
    p: int,
    q: int,
    r: int,
    s: int,
)
    requires
        n.modulus > 0,
        n.same(bu - au, p),
        n.same(cv - av, q),
        n.same(bv - av, r),
        n.same(cu - au, s),
    ensures
        n.same((bu - au) * (cv - av) - (bv - av) * (cu - au), p * q - r * s),
{
    lemma_products(n, bu - au, cv - av, bv - av, cu - au, p, q, r, s);
}

/// How far apart two numbers are that lie at ends of one axis.
proof fn lemma_apart(n: Numbers, lo: int, hi: int, w: int)
    requires
        n.modulus > 0,
        n.same(hi, lo + w),
    ensures
        n.same(hi - lo, w),
        n.same(lo - hi, -w),
        n.same(lo - lo, 0),
        n.same(hi - hi, 0),
{
    lemma_same(n, lo, lo, lo);
    lemma_same(n, hi, hi, hi);
    lemma_same(n, 0, 0, 0);
    lemma_ring(n, hi, lo + w, lo, lo);
    lemma_ring(n, hi - lo, w, 0, 0);
}

/// The sides of a box face outward: the two triangles of each side, seen from outside,
/// run counter-clockwise, and each is half as large as the side.
pub proof fn law_box_faces_outward(m: Reading, n: Numbers, size: Point3, center: bool)
    requires
        exact(m, n),
        n.divides(2),
    ensures
        ({
            let mesh = cube_of(m, size, center);
            let (v, t) = (mesh.verts, mesh.tris);
            let (w, d, h) = ((n.of)(size.x), (n.of)(size.y), (n.of)(size.z));
            let at = |i: int, axis: int|
                seen_along(n, v[t[i].a as int], v[t[i].b as int], v[t[i].c as int], axis);
            &&& t.len() == 12
            &&& n.same(at(0, 2), -(w * d)) && n.same(at(1, 2), -(w * d))
            &&& n.same(at(2, 2), w * d) && n.same(at(3, 2), w * d)
            &&& n.same(at(4, 1), -(w * h)) && n.same(at(5, 1), -(w * h))
            &&& n.same(at(6, 1), w * h) && n.same(at(7, 1), w * h)
            &&& n.same(at(8, 0), d * h) && n.same(at(9, 0), d * h)
            &&& n.same(at(10, 0), -(d * h)) && n.same(at(11, 0), -(d * h))
        }),
{
    lemma_own(m, n);
    lemma_span(m, n, size.x, center);
    lemma_span(m, n, size.y, center);
    lemma_span(m, n, size.z, center);
    let v = cube_of(m, size, center).verts;
    let (w, d, h) = ((n.of)(size.x), (n.of)(size.y), (n.of)(size.z));
    let (x0, y0, z0) = ((n.of)(v[0].x), (n.of)(v[0].y), (n.of)(v[0].z));
    let (x1, y1, z1) = ((n.of)(v[6].x), (n.of)(v[6].y), (n.of)(v[6].z));
    lemma_apart(n, x0, x1, w);
    lemma_apart(n, y0, y1, d);
    lemma_apart(n, z0, z1, h);
    // Below: 0 3 2, 0 2 1; above: 4 5 6, 4 6 7.
    lemma_seen(n, x0, y0, x0, y1, x1, y1, 0, d, d, w);
    lemma_seen(n, x0, y0, x1, y1, x1, y0, w, 0, d, w);
    lemma_seen(n, x0, y0, x1, y0, x1, y1, w, d, 0, w);
    lemma_seen(n, x0, y0, x1, y1, x0, y1, w, d, d, 0);
    // In front: 0 1 5, 0 5 4; behind: 2 3 7, 2 7 6.
    lemma_seen(n, z0, x0, z0, x1, z1, x1, 0, w, w, h);
    lemma_seen(n, z0, x0, z1, x1, z1, x0, h, 0, w, h);
    lemma_seen(n, z0, x1, z0, x0, z1, x0, 0, -w, -w, h);
    lemma_seen(n, z0, x1, z1, x0, z1, x1, h, 0, -w, h);
    // Right: 1 2 6, 1 6 5; left: 0 4 7, 0 7 3.
    lemma_seen(n, y0, z0, y1, z0, y1, z1, d, h, 0, d);
    lemma_seen(n, y0, z0, y1, z1, y0, z1, d, h, h, 0);
    lemma_seen(n, y0, z0, y0, z1, y1, z1, 0, h, h, d);
    lemma_seen(n, y0, z0, y1, z1, y1, z0, d, 0, h, d);
    assert(0 * d - d * w == -(w * d) && w * 0 - d * w == -(w * d)) by (nonlinear_arith);
    assert(w * d - 0 * w == w * d && w * d - d * 0 == w * d) by (nonlinear_arith);
    assert(0 * w - w * h == -(w * h) && h * 0 - w * h == -(w * h)) by (nonlinear_arith);
    assert(0 * (-w) - (-w) * h == w * h && h * 0 - (-w) * h == w * h) by (nonlinear_arith);
    assert(d * h - 0 * d == d * h && d * h - h * 0 == d * h) by (nonlinear_arith);
    assert(0 * h - h * d == -(d * h) && d * 0 - h * d == -(d * h)) by (nonlinear_arith);
}

/// A face of a surface is listed clockwise seen from where it faces: the cross product
/// of its sides, as they are listed, points away from there.
pub proof fn law_face_listed_clockwise(
    m: Reading,
    n: Numbers,
    pts: Seq<Point3>,
    faces: Seq<Seq<u32>>,
    a: int,
    b: int,
    c: int,
    out: Point3,
)
    requires
        exact(m, n),
        0 <= a <= u32::MAX,
        0 <= b <= u32::MAX,
        0 <= c <= u32::MAX,
        with_face(m, pts, faces, a, b, c, out).len() > faces.len(),
    ensures
        ({
            let f = with_face(m, pts, faces, a, b, c, out).last();
            let (u, v) = (
                difference_of(m, pts[f[1] as int], pts[f[0] as int]),
                difference_of(m, pts[f[2] as int], pts[f[0] as int]),
            );
            let faced = dot_of(
                m,
                cross_of(m, difference_of(m, pts[b], pts[a]), difference_of(m, pts[c], pts[a])),
                out,
            );
            &&& f.len() == 3
            &&& at_most(ZERO, faced) ==> n.same(volume(n, u, v, out), -(n.of)(faced))
            &&& !at_most(ZERO, faced) ==> n.same(volume(n, u, v, out), (n.of)(faced))
        }),
{
    let (u, v) = (difference_of(m, pts[b], pts[a]), difference_of(m, pts[c], pts[a]));
    let x = cross_of(m, u, v);
    let faced = dot_of(m, x, out);
    let k = (n.of)(faced);
    law_cross(m, n, u, v, out);
    law_dot(m, n, x, out);
    lemma_same(n, k, dot3(n, x, out), volume(n, u, v, out));
    lemma_same(n, k, volume(n, u, v, out), 0);
    lemma_volume_swap(n, u, v, out);
    lemma_same(n, 0, 0, 0);
    lemma_ring(n, volume(n, u, v, out), k, 0, 0);
}

pub(crate) proof fn lemma_volume_swap(n: Numbers, u: Point3, v: Point3, w: Point3)
    ensures
        volume(n, v, u, w) == -volume(n, u, v, w),
{
    let (a, b, c) = ((n.of)(u.x), (n.of)(u.y), (n.of)(u.z));
    let (d, e, f) = ((n.of)(v.x), (n.of)(v.y), (n.of)(v.z));
    let (g, h, i) = ((n.of)(w.x), (n.of)(w.y), (n.of)(w.z));
    lemma_volume(a, b, c, d, e, f, g, h, i);
    lemma_volume(d, e, f, a, b, c, g, h, i);
    assert((e * c - f * b) == -(b * f - c * e)) by (nonlinear_arith);
    assert((f * a - d * c) == -(c * d - a * f)) by (nonlinear_arith);
    assert((d * b - e * a) == -(a * e - b * d)) by (nonlinear_arith);
    let (p, q, r) = (b * f - c * e, c * d - a * f, a * e - b * d);
    assert((-p) * g + (-q) * h + (-r) * i == -(p * g + q * h + r * i)) by (nonlinear_arith);
}

proof fn lemma_rings_length(m: Reading, c: Seq<Point2>, angle: u64, steps: u32, count: int)
    requires
        0 <= count,
    ensures
        rings_below(m, c, angle, steps, count).len() == count * c.len(),
    decreases count,
{
    if count > 0 {
        lemma_rings_length(m, c, angle, steps, count - 1);
        assert((count - 1) * c.len() + c.len() == count * c.len()) by (nonlinear_arith);
    }
}

/// The points of a sweep: point `j` of ring `k` stands behind those of the rings before
/// it, turned by the ring's share of the angle.
pub proof fn law_rings_in_order(
    m: Reading,
    c: Seq<Point2>,
    angle: u64,
    steps: u32,
    count: int,
    k: int,
    j: int,
)
    requires
        0 <= k < count,
        0 <= j < c.len(),
    ensures
        rings_below(m, c, angle, steps, count).len() == count * c.len(),
        0 <= k * c.len() + j < count * c.len(),
        rings_below(m, c, angle, steps, count)[k * c.len() + j] == turned(
            m,
            ring_turn(m, angle, steps, k),
            c[j],
        ),
    decreases count,
{
    let w = c.len() as int;
    lemma_rings_length(m, c, angle, steps, count);
    lemma_rings_length(m, c, angle, steps, count - 1);
    assert(0 <= k * w) by (nonlinear_arith)
        requires
            k >= 0,
            w >= 0,
    ;
    assert(k * w + w <= count * w) by (nonlinear_arith)
        requires
            k + 1 <= count,
            w >= 0,
    ;
    if k < count - 1 {
        law_rings_in_order(m, c, angle, steps, count - 1, k, j);
    }
}

/// The points of a swept outline: a full turn has as many rings as steps, and part of
/// one has one more; they stand behind what was there.
pub proof fn law_swept_points(
    m: Reading,
    mesh: MeshView,
    c: Seq<Point2>,
    w: Sweep,
    k: int,
    j: int,
)
    requires
        with_swept(m, mesh, c, w) is Some,
        c.len() >= 3,
        0 <= k,
        w.full ==> k < w.steps,
        !w.full ==> k <= w.steps,
        0 <= j < c.len(),
    ensures
        ({
            let r = with_swept(m, mesh, c, w)->0;
            let p = profile(m, c);
            let rings = if w.full {
                w.steps as int
            } else {
                w.steps + 1
            };
            let at = mesh.verts.len() + k * c.len() + j;
            &&& p.len() == c.len()
            &&& r.verts.len() == mesh.verts.len() + rings * c.len()
            &&& r.verts.take(mesh.verts.len() as int) == mesh.verts
            &&& 0 <= at < r.verts.len()
            &&& r.verts[at] == turned(m, ring_turn(m, w.angle, w.steps, k), p[j])
        }),
{
    let p = profile(m, c);
    let rings = if w.full {
        w.steps as int
    } else {
        w.steps + 1
    };
    law_rings_in_order(m, p, w.angle, w.steps, rings, k, j);
    let r = with_swept(m, mesh, c, w)->0;
    assert(r.verts.take(mesh.verts.len() as int) =~= mesh.verts);
}

} // verus!
