//! What extrusions are for, in exact arithmetic: where the points of each layer are.

use crate::exact::{
    exact, lemma_add, lemma_cancel, lemma_div, lemma_mul, lemma_neg, lemma_own, lemma_products,
    lemma_ring, lemma_same, lemma_sub, Numbers,
};
use crate::extrude::{
    extruded, in_layer, layer_of, layers_below, points_below, shapes_of, slices_of, Draw, Layer,
};
use crate::faces::EarReading;
use crate::mesh::Point3;
use crate::node::Point2;
use crate::num::{negative, NumOp, Reading, ONE, TWO, ZERO};
use vstd::prelude::*;

verus! {

/// The point has these coordinates.
pub open spec fn at3(n: Numbers, p: Point3, x: int, y: int, z: int) -> bool {
    n.same((n.of)(p.x), x) && n.same((n.of)(p.y), y) && n.same((n.of)(p.z), z)
}

/// The share of the way up that layer `k` has gone.
spec fn share(m: Reading, d: Draw, k: int) -> u64 {
    m.at(
        NumOp::Div,
        m.at(NumOp::FromInt, k as u64, 0),
        m.at(NumOp::FromInt, slices_of(d) as u64, 0),
    )
}

proof fn lemma_share(m: Reading, n: Numbers, d: Draw, k: int)
    requires
        exact(m, n),
        0 <= k <= slices_of(d),
        n.divides(slices_of(d) as int),
    ensures
        n.same((n.of)(share(m, d, k)) * (slices_of(d) as int), k),
{
    lemma_div(
        m,
        n,
        m.at(NumOp::FromInt, k as u64, 0),
        m.at(NumOp::FromInt, slices_of(d) as u64, 0),
        k,
        slices_of(d) as int,
    );
}

/// The factor `1 + (scale - 1) * t`, times the layers, where `t` times the layers is
/// `k`.
proof fn lemma_factor(m: Reading, n: Numbers, scale: u64, t: u64, k: int, all: int)
    requires
        exact(m, n),
        n.same((n.of)(t) * all, k),
    ensures
        n.same(
            (n.of)(m.at(NumOp::Add, ONE, m.at(NumOp::Mul, m.at(NumOp::Sub, scale, ONE), t))) * all,
            (all - k) + k * (n.of)(scale),
        ),
{
    let g = (n.of)(scale);
    let w = (n.of)(t);
    lemma_own(m, n);
    lemma_sub(m, n, scale, ONE, g, 1);
    lemma_mul(m, n, m.at(NumOp::Sub, scale, ONE), t, g - 1, w);
    let p = m.at(NumOp::Mul, m.at(NumOp::Sub, scale, ONE), t);
    lemma_add(m, n, ONE, p, 1, (g - 1) * w);
    let f = (n.of)(m.at(NumOp::Add, ONE, p));
    lemma_same(n, all, all, all);
    lemma_ring(n, f, 1 + (g - 1) * w, all, all);
    assert((1 + (g - 1) * w) * all == all + (g - 1) * (w * all)) by (nonlinear_arith);
    lemma_same(n, g - 1, g - 1, g - 1);
    lemma_ring(n, g - 1, g - 1, w * all, k);
    lemma_ring(n, all, all, (g - 1) * (w * all), (g - 1) * k);
    assert(all + (g - 1) * k == (all - k) + k * g) by (nonlinear_arith);
    lemma_same(n, f * all, (1 + (g - 1) * w) * all, (all - k) + k * g);
}

/// The layers go from the outline itself to the outline at its full scale: counted
/// in layers, the factor of layer `k` is made of `k` parts of the scale and of ones
/// for the rest. The height of a layer over the first counts the same way, and the
/// turn is as many parts of the whole twist, clockwise. The first layer lies at
/// zero, or half the height below it where the extrusion is centered.
pub proof fn law_layers_go_evenly(m: Reading, n: Numbers, d: Draw, k: int)
    requires
        exact(m, n),
        0 <= k <= slices_of(d),
        n.divides(slices_of(d) as int),
        n.divides(2),
    ensures
        ({
            let all = slices_of(d) as int;
            let l = layer_of(m, d, k);
            let low = (n.of)(layer_of(m, d, 0).z);
            &&& n.same((n.of)(l.sx) * all, (all - k) + k * (n.of)(d.scale.x))
            &&& n.same((n.of)(l.sy) * all, (all - k) + k * (n.of)(d.scale.y))
            &&& n.same(((n.of)(l.z) - low) * all, k * (n.of)(d.height))
            &&& !d.center ==> n.same(low, 0)
            &&& d.center ==> n.same(2 * low, -(n.of)(d.height))
            &&& exists|turn: u64|
                n.same(#[trigger] (n.of)(turn) * all, -(k * (n.of)(d.twist))) && l.s == m.at(
                    NumOp::Sin,
                    m.at(NumOp::ToRadians, turn, 0),
                    0,
                ) && l.c == m.at(NumOp::Cos, m.at(NumOp::ToRadians, turn, 0), 0)
        }),
{
    let all = slices_of(d) as int;
    let t = share(m, d, k);
    let w = (n.of)(t);
    let l = layer_of(m, d, k);
    lemma_own(m, n);
    lemma_share(m, n, d, k);
    lemma_factor(m, n, d.scale.x, t, k, all);
    lemma_factor(m, n, d.scale.y, t, k, all);
    lemma_layer_height(m, n, d, k);
    lemma_layer_height(m, n, d, 0);
    let h = (n.of)(d.height);
    let z0 = if d.center {
        m.at(NumOp::Div, negative(d.height), TWO)
    } else {
        ZERO
    };
    let (zk, low) = ((n.of)(l.z), (n.of)(layer_of(m, d, 0).z));
    let o = (n.of)(z0);
    lemma_ring(n, (zk - o) * all, k * h, (low - o) * all, 0 * h);
    assert((zk - o) * all - (low - o) * all == (zk - low) * all) by (nonlinear_arith);
    assert(0 * h == 0);
    assert(low - o == (low - o) * 1);
    lemma_cancel(n, low - o, 0, all);
    lemma_ring(n, low - o, 0, o, o);
    if d.center {
        lemma_neg(m, n, d.height, h);
        lemma_div(m, n, negative(d.height), TWO, -h, 2);
        lemma_same(n, 2, 2, 2);
        lemma_ring(n, low, o, 2, 2);
        lemma_same(n, low * 2, o * 2, -h);
    } else {
        lemma_same(n, low, o, 0);
    }
    let turn = m.at(NumOp::Mul, negative(d.twist), t);
    let a = (n.of)(d.twist);
    lemma_neg(m, n, d.twist, a);
    lemma_mul(m, n, negative(d.twist), t, -a, w);
    lemma_same(n, all, all, all);
    lemma_ring(n, (n.of)(turn), (-a) * w, all, all);
    assert((-a) * w * all == (-a) * (w * all)) by (nonlinear_arith);
    lemma_same(n, -a, -a, -a);
    lemma_ring(n, -a, -a, w * all, k);
    assert((-a) * k == -(k * a)) by (nonlinear_arith);
    lemma_same(n, (n.of)(turn) * all, (-a) * (w * all), -(k * a));
}

proof fn lemma_layer_height(m: Reading, n: Numbers, d: Draw, k: int)
    requires
        exact(m, n),
        0 <= k <= slices_of(d),
        n.divides(slices_of(d) as int),
    ensures
        ({
            let all = slices_of(d) as int;
            let z0 = if d.center {
                m.at(NumOp::Div, negative(d.height), TWO)
            } else {
                ZERO
            };
            n.same(((n.of)(layer_of(m, d, k).z) - (n.of)(z0)) * all, k * (n.of)(d.height))
        }),
{
    let all = slices_of(d) as int;
    let t = share(m, d, k);
    let w = (n.of)(t);
    let h = (n.of)(d.height);
    let z0 = if d.center {
        m.at(NumOp::Div, negative(d.height), TWO)
    } else {
        ZERO
    };
    let o = (n.of)(z0);
    lemma_own(m, n);
    lemma_share(m, n, d, k);
    lemma_mul(m, n, d.height, t, h, w);
    lemma_add(m, n, z0, m.at(NumOp::Mul, d.height, t), o, h * w);
    let z = (n.of)(layer_of(m, d, k).z);
    lemma_ring(n, z, o + h * w, o, o);
    lemma_same(n, all, all, all);
    lemma_ring(n, z - o, h * w, all, all);
    assert(h * w * all == h * (w * all)) by (nonlinear_arith);
    lemma_ring(n, h, h, w * all, k);
    assert(h * k == k * h) by (nonlinear_arith);
    lemma_same(n, (z - o) * all, h * (w * all), k * h);
}

proof fn lemma_in_layer(m: Reading, n: Numbers, l: Layer, p: Point2, a: int, b: int)
    requires
        exact(m, n),
        n.same((n.of)(l.sx), a),
        n.same((n.of)(l.sy), b),
    ensures
        ({
            let (x, y) = ((n.of)(p.x) * a, (n.of)(p.y) * b);
            let (s, c) = ((n.of)(l.s), (n.of)(l.c));
            at3(n, in_layer(m, l, p), x * c - y * s, x * s + y * c, (n.of)(l.z))
        }),
{
    let (px, py) = ((n.of)(p.x), (n.of)(p.y));
    let (x, y) = (px * a, py * b);
    let (s, c) = ((n.of)(l.s), (n.of)(l.c));
    lemma_own(m, n);
    lemma_mul(m, n, p.x, l.sx, px, a);
    lemma_mul(m, n, p.y, l.sy, py, b);
    let (bx, by) = (m.at(NumOp::Mul, p.x, l.sx), m.at(NumOp::Mul, p.y, l.sy));
    lemma_mul(m, n, bx, l.c, x, c);
    lemma_mul(m, n, by, l.s, y, s);
    lemma_mul(m, n, bx, l.s, x, s);
    lemma_mul(m, n, by, l.c, y, c);
    lemma_sub(m, n, m.at(NumOp::Mul, bx, l.c), m.at(NumOp::Mul, by, l.s), x * c, y * s);
    lemma_add(m, n, m.at(NumOp::Mul, bx, l.s), m.at(NumOp::Mul, by, l.c), x * s, y * c);
}

/// Without a turn, the first layer holds the points of the outline themselves, and
/// the last one holds them with `x` and `y` multiplied by the two scales, a whole
/// height further up.
pub proof fn law_untwisted_ends(m: Reading, n: Numbers, d: Draw, p: Point2)
    requires
        exact(m, n),
        n.divides(slices_of(d) as int),
        n.divides(2),
        forall|k: int|
            0 <= k <= slices_of(d) ==> n.same((n.of)((#[trigger] layer_of(m, d, k)).s), 0)
                && n.same((n.of)(layer_of(m, d, k).c), 1),
    ensures
        ({
            let first = layer_of(m, d, 0);
            let last = layer_of(m, d, slices_of(d) as int);
            let low = (n.of)(first.z);
            &&& at3(n, in_layer(m, first, p), (n.of)(p.x), (n.of)(p.y), low)
            &&& at3(
                n,
                in_layer(m, last, p),
                (n.of)(p.x) * (n.of)(d.scale.x),
                (n.of)(p.y) * (n.of)(d.scale.y),
                low + (n.of)(d.height),
            )
        }),
{
    let all = slices_of(d) as int;
    let first = layer_of(m, d, 0);
    let last = layer_of(m, d, all);
    let low = (n.of)(first.z);
    let (gx, gy, h) = ((n.of)(d.scale.x), (n.of)(d.scale.y), (n.of)(d.height));
    lemma_own(m, n);
    law_layers_go_evenly(m, n, d, 0);
    law_layers_go_evenly(m, n, d, all);
    assert((all - 0) + 0 * gx == 1 * all && (all - 0) + 0 * gy == 1 * all);
    assert((all - all) + all * gx == gx * all) by (nonlinear_arith);
    assert((all - all) + all * gy == gy * all) by (nonlinear_arith);
    assert(all * h == h * all) by (nonlinear_arith);
    lemma_cancel(n, (n.of)(first.sx), 1, all);
    lemma_cancel(n, (n.of)(first.sy), 1, all);
    lemma_cancel(n, (n.of)(last.sx), gx, all);
    lemma_cancel(n, (n.of)(last.sy), gy, all);
    lemma_cancel(n, (n.of)(last.z) - low, h, all);
    lemma_unturned(m, n, first, p, 1, 1);
    lemma_unturned(m, n, last, p, gx, gy);
    assert((n.of)(p.x) * 1 == (n.of)(p.x) && (n.of)(p.y) * 1 == (n.of)(p.y));
    lemma_ring(n, (n.of)(last.z) - low, h, low, low);
}

proof fn lemma_unturned(m: Reading, n: Numbers, l: Layer, p: Point2, a: int, b: int)
    requires
        exact(m, n),
        n.same((n.of)(l.sx), a),
        n.same((n.of)(l.sy), b),
        n.same((n.of)(l.s), 0),
        n.same((n.of)(l.c), 1),
    ensures
        at3(n, in_layer(m, l, p), (n.of)(p.x) * a, (n.of)(p.y) * b, (n.of)(l.z)),
{
    let (x, y) = ((n.of)(p.x) * a, (n.of)(p.y) * b);
    let (s, c) = ((n.of)(l.s), (n.of)(l.c));
    let q = in_layer(m, l, p);
    lemma_in_layer(m, n, l, p, a, b);
    lemma_same(n, x, x, x);
    lemma_same(n, y, y, y);
    lemma_products(n, x, c, y, s, x, 1, y, 0);
    lemma_products(n, x, s, y, c, x, 0, y, 1);
    assert(x * 1 - y * 0 == x && x * 0 + y * 1 == y);
    lemma_same(n, (n.of)(q.x), x * c - y * s, x);
    lemma_same(n, (n.of)(q.y), x * s + y * c, y);
}

/// A layer is the outline stretched by the factors of the layer and turned
/// counter-clockwise by its angle: the stretched point and where it goes enclose
/// that angle, and are as far from the axis.
pub proof fn law_layer_turns(m: Reading, n: Numbers, d: Draw, k: int, p: Point2)
    requires
        exact(m, n),
    ensures
        ({
            let l = layer_of(m, d, k);
            let q = in_layer(m, l, p);
            let (x, y) = ((n.of)(p.x) * (n.of)(l.sx), (n.of)(p.y) * (n.of)(l.sy));
            &&& q.z == l.z
            &&& n.same(x * (n.of)(q.x) + y * (n.of)(q.y), (x * x + y * y) * (n.of)(l.c))
            &&& n.same(x * (n.of)(q.y) - y * (n.of)(q.x), (x * x + y * y) * (n.of)(l.s))
        }),
{
    let l = layer_of(m, d, k);
    let q = in_layer(m, l, p);
    let (s, c) = ((n.of)(l.s), (n.of)(l.c));
    let (x, y) = ((n.of)(p.x) * (n.of)(l.sx), (n.of)(p.y) * (n.of)(l.sy));
    lemma_own(m, n);
    lemma_in_layer(m, n, l, p, (n.of)(l.sx), (n.of)(l.sy));
    let (a, b) = (x * c - y * s, x * s + y * c);
    lemma_same(n, x, x, x);
    lemma_same(n, y, y, y);
    lemma_products(n, x, (n.of)(q.x), y, (n.of)(q.y), x, a, y, b);
    lemma_products(n, x, (n.of)(q.y), y, (n.of)(q.x), x, b, y, a);
    assert(x * a + y * b == (x * x + y * y) * c) by (nonlinear_arith)
        requires
            a == x * c - y * s,
            b == x * s + y * c,
    ;
    assert(x * b - y * a == (x * x + y * y) * s) by (nonlinear_arith)
        requires
            a == x * c - y * s,
            b == x * s + y * c,
    ;
}

/// The points of all layers: point `j` of layer `k` stands behind those of the
/// layers below it.
pub proof fn law_layers_in_order(
    m: Reading,
    d: Draw,
    points: Seq<Point2>,
    count: int,
    k: int,
    j: int,
)
    requires
        0 <= k < count,
        0 <= j < points.len(),
    ensures
        layers_below(m, d, points, count).len() == count * points.len(),
        0 <= k * points.len() + j < count * points.len(),
        layers_below(m, d, points, count)[k * points.len() + j] == in_layer(
            m,
            layer_of(m, d, k),
            points[j],
        ),
    decreases count,
{
    let w = points.len() as int;
    lemma_layers_length(m, d, points, count);
    lemma_layers_length(m, d, points, count - 1);
    assert(0 <= k * w) by (nonlinear_arith)
        requires
            k >= 0,
            w >= 0,
    ;
    assert(k * w + w <= count * w) by (nonlinear_arith)
        requires
            k + 1 <= count,
            w >= 0,
    ;
    if k < count - 1 {
        law_layers_in_order(m, d, points, count - 1, k, j);
    }
}

proof fn lemma_layers_length(m: Reading, d: Draw, points: Seq<Point2>, count: int)
    requires
        0 <= count,
    ensures
        layers_below(m, d, points, count).len() == count * points.len(),
    decreases count,
{
    if count > 0 {
        lemma_layers_length(m, d, points, count - 1);
        assert((count - 1) * points.len() + points.len() == count * points.len())
            by (nonlinear_arith);
    }
}

/// The points of an extrusion: as many layers as it has slices and one more, from the
/// ground up, each with all points of the outlines.
pub proof fn law_extrusion_points(
    m: Reading,
    e: EarReading,
    contours: Seq<Seq<Point2>>,
    d: Draw,
    k: int,
    j: int,
)
    requires
        extruded(m, e, contours, d) is Some,
        ({
            let v = shapes_of(m, contours);
            0 <= j < points_below(m, v, v.len() as int).len()
        }),
        0 <= k <= slices_of(d),
    ensures
        ({
            let v = shapes_of(m, contours);
            let points = points_below(m, v, v.len() as int);
            let mesh = extruded(m, e, contours, d)->0;
            &&& mesh.verts.len() == (slices_of(d) + 1) * points.len()
            &&& 0 <= k * points.len() + j < mesh.verts.len()
            &&& mesh.verts[k * points.len() + j] == in_layer(m, layer_of(m, d, k), points[j])
        }),
{
    let v = shapes_of(m, contours);
    let points = points_below(m, v, v.len() as int);
    law_layers_in_order(m, d, points, slices_of(d) + 1, k, j);
}

} // verus!
