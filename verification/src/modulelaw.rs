//! What the arguments of modules are for: which calls draw the same.

use crate::exact::{
    exact, lemma_add, lemma_cancel, lemma_div, lemma_mul, lemma_neg, lemma_own, lemma_products,
    lemma_ring, lemma_same, lemma_sub, Numbers,
};
use crate::mesh::Point3;
use crate::modules::{
    axis_rows, leaning, matrix_of, mul3, number_arg, point2_of, point3_of, shear, truth_arg,
    turn_rows, TransformKind,
};
use crate::node::{FragmentSpec, Point2};
use crate::nodeview::{over, Act, Tree};
use crate::num::{at_most, finite, less, nan, negative, NumOp, Reading, ONE, TWO, ZERO};
use crate::patches::within_turn;
use crate::sem::{found, Env};
use crate::stage::{fineness, moved_tree, solid_tree, straight_tree, wrapped_tree, Solid, Wrap};
use crate::tessellate::{round_of, FULL_TURN, GRID_FINE, THREE};
use crate::value::Val;
use crate::vector::length_of;
use vstd::prelude::*;

verus! {

// ---- radii -------------------------------------------------------------------------------------

/// A ball and a disk with a diameter have half of it as their radius, and both ends
/// of a cylinder with that diameter have the same radius, unless it gives an end a
/// measure of its own.
pub proof fn law_diameter_halved(r: Reading, n: Numbers, m: Env, f: FragmentSpec, d: u64)
    requires
        exact(r, n),
        n.divides(2),
        number_arg(m, "d"@) == Some(d),
    ensures
        solid_tree(r, Solid::Sphere, m, f) matches Tree::Sphere { r: q, frags } && frags == f
            && n.same(2 * (n.of)(q), (n.of)(d)),
        solid_tree(r, Solid::Circle, m, f) matches Tree::Circle { r: q, frags } && frags == f
            && n.same(2 * (n.of)(q), (n.of)(d)),
        number_arg(m, "d1"@) is None && number_arg(m, "r1"@) is None ==> (solid_tree(
            r,
            Solid::Cylinder,
            m,
            f,
        ) matches Tree::Cylinder { r1, .. } && n.same(2 * (n.of)(r1), (n.of)(d))),
        number_arg(m, "d2"@) is None && number_arg(m, "r2"@) is None ==> (solid_tree(
            r,
            Solid::Cylinder,
            m,
            f,
        ) matches Tree::Cylinder { r2, .. } && n.same(2 * (n.of)(r2), (n.of)(d))),
{
    lemma_own(r, n);
    lemma_div(r, n, d, TWO, (n.of)(d), 2);
}

/// An end of a cylinder that is given a diameter of its own has half of it as its
/// radius, whatever else is given.
pub proof fn law_end_diameter_halved(r: Reading, n: Numbers, m: Env, f: FragmentSpec)
    requires
        exact(r, n),
        n.divides(2),
    ensures
        solid_tree(r, Solid::Cylinder, m, f) matches Tree::Cylinder { r1, r2, .. } && (number_arg(
            m,
            "d1"@,
        ) matches Some(d) ==> n.same(2 * (n.of)(r1), (n.of)(d))) && (number_arg(
            m,
            "d2"@,
        ) matches Some(d) ==> n.same(2 * (n.of)(r2), (n.of)(d))) && (number_arg(m, "d1"@) is None
            && number_arg(m, "r1"@) is Some ==> Some(r1) == number_arg(m, "r1"@)) && (number_arg(
            m,
            "d2"@,
        ) is None && number_arg(m, "r2"@) is Some ==> Some(r2) == number_arg(m, "r2"@)),
{
    lemma_own(r, n);
    if let Some(d) = number_arg(m, "d1"@) {
        lemma_div(r, n, d, TWO, (n.of)(d), 2);
    }
    if let Some(d) = number_arg(m, "d2"@) {
        lemma_div(r, n, d, TWO, (n.of)(d), 2);
    }
}

/// A ball, a disk or a cylinder with a diameter is one with a radius of half of it.
pub proof fn law_diameter_or_radius(
    r: Reading,
    m: Env,
    w: Env,
    f: FragmentSpec,
    d: u64,
)
    requires
        number_arg(m, "d"@) == Some(d),
        number_arg(w, "d"@) is None,
        number_arg(w, "r"@) == Some(r.at(NumOp::Div, d, TWO)),
        forall|name: Seq<char>|
            name != "d"@ && name != "r"@ ==> found(m, name) == #[trigger] found(w, name),
    ensures
        solid_tree(r, Solid::Sphere, m, f) == solid_tree(r, Solid::Sphere, w, f),
        solid_tree(r, Solid::Circle, m, f) == solid_tree(r, Solid::Circle, w, f),
        solid_tree(r, Solid::Cylinder, m, f) == solid_tree(r, Solid::Cylinder, w, f),
{
    lemma_names();
    assert(found(m, "h"@) == found(w, "h"@));
    assert(found(m, "d1"@) == found(w, "d1"@));
    assert(found(m, "d2"@) == found(w, "d2"@));
    assert(found(m, "r1"@) == found(w, "r1"@));
    assert(found(m, "r2"@) == found(w, "r2"@));
    assert(found(m, "center"@) == found(w, "center"@));
}

proof fn lemma_names()
    ensures
        "h"@ != "d"@ && "h"@ != "r"@,
        "d1"@ != "d"@ && "d1"@ != "r"@,
        "d2"@ != "d"@ && "d2"@ != "r"@,
        "r1"@ != "d"@ && "r1"@ != "r"@,
        "r2"@ != "d"@ && "r2"@ != "r"@,
        "center"@ != "d"@ && "center"@ != "r"@,
{
    reveal_strlit("h");
    reveal_strlit("d");
    reveal_strlit("r");
    reveal_strlit("d1");
    reveal_strlit("d2");
    reveal_strlit("r1");
    reveal_strlit("r2");
    reveal_strlit("center");
    assert("h"@[0] == 'h' && "d"@[0] == 'd' && "r"@[0] == 'r');
    assert("d1"@.len() == 2 && "d2"@.len() == 2 && "r1"@.len() == 2 && "r2"@.len() == 2);
}

/// A ball, a disk and the ends of a cylinder have the radius that is given, and one
/// of 1 where neither a radius nor a diameter is.
pub proof fn law_radius_given(r: Reading, m: Env, f: FragmentSpec)
    requires
        number_arg(m, "d"@) is None,
        number_arg(m, "d1"@) is None,
        number_arg(m, "d2"@) is None,
        number_arg(m, "r1"@) is None,
        number_arg(m, "r2"@) is None,
    ensures
        ({
            let given = match number_arg(m, "r"@) {
                Some(q) => q,
                None => ONE,
            };
            &&& solid_tree(r, Solid::Sphere, m, f) == (Tree::Sphere { r: given, frags: f })
            &&& solid_tree(r, Solid::Circle, m, f) == (Tree::Circle { r: given, frags: f })
            &&& solid_tree(r, Solid::Cylinder, m, f) matches Tree::Cylinder { r1, r2, .. } && r1
                == given && r2 == given
        }),
{
}

// ---- one number for all axes -------------------------------------------------------------------

/// A list of three numbers.
pub open spec fn three(x: u64, y: u64, z: u64) -> Val {
    Val::Vector(seq![Val::Number(x), Val::Number(y), Val::Number(z)])
}

/// A list of two numbers.
pub open spec fn two(x: u64, y: u64) -> Val {
    Val::Vector(seq![Val::Number(x), Val::Number(y)])
}

/// A cube has the three sizes that are given, in order, and one size stands for
/// three.
pub proof fn law_cube_sizes(r: Reading, m: Env, f: FragmentSpec, x: u64, y: u64, z: u64)
    ensures
        found(m, "size"@) == Some(three(x, y, z)) ==> solid_tree(r, Solid::Cube, m, f) == (
        Tree::Cube { size: (Point3 { x, y, z }), center: truth_arg(m, "center"@) }),
        found(m, "size"@) == Some(Val::Number(x)) ==> solid_tree(r, Solid::Cube, m, f) == (
        Tree::Cube { size: (Point3 { x, y: x, z: x }), center: truth_arg(m, "center"@) }),
{
}

/// A square has the two sizes that are given, in order, and one size stands for two.
pub proof fn law_square_sizes(r: Reading, m: Env, f: FragmentSpec, x: u64, y: u64)
    ensures
        found(m, "size"@) == Some(two(x, y)) ==> solid_tree(r, Solid::Square, m, f) == (
        Tree::Square { size: (Point2 { x, y }), center: truth_arg(m, "center"@) }),
        found(m, "size"@) == Some(Val::Number(x)) ==> solid_tree(r, Solid::Square, m, f) == (
        Tree::Square { size: (Point2 { x, y: x }), center: truth_arg(m, "center"@) }),
{
}

/// A motion takes the three numbers that are given, in order; one factor stands for
/// three, and one angle is that about the vertical axis.
pub proof fn law_motion_numbers(r: Reading, m: Env, child: Tree, x: u64, y: u64, z: u64)
    ensures
        found(m, "v"@) == Some(three(x, y, z)) ==> {
            &&& moved_tree(r, TransformKind::Translate, m, child) == over(
                Act::Translate((Point3 { x, y, z })),
                child,
            )
            &&& moved_tree(r, TransformKind::Scale, m, child) == over(
                Act::Scale((Point3 { x, y, z })),
                child,
            )
            &&& moved_tree(r, TransformKind::Mirror, m, child) == over(
                Act::Mirror((Point3 { x, y, z })),
                child,
            )
        },
        found(m, "v"@) == Some(Val::Number(x)) ==> moved_tree(
            r,
            TransformKind::Scale,
            m,
            child,
        ) == over(Act::Scale((Point3 { x, y: x, z: x })), child),
        found(m, "a"@) == Some(three(x, y, z)) ==> moved_tree(
            r,
            TransformKind::Rotate,
            m,
            child,
        ) == over(Act::Rotate((Point3 { x, y, z })), child),
        found(m, "a"@) == Some(Val::Number(z)) && found(m, "v"@) is None ==> moved_tree(
            r,
            TransformKind::Rotate,
            m,
            child,
        ) == over(Act::Rotate((Point3 { x: ZERO, y: ZERO, z })), child),
{
}

/// An extrusion narrows by the two factors that are given, in order, and one factor
/// stands for two.
pub proof fn law_extrusion_scale(r: Reading, m: Env, height: u64, child: Tree, x: u64, y: u64)
    ensures
        found(m, "scale"@) == Some(two(x, y)) ==> (straight_tree(r, m, height, child)
            == over(
            Act::LinearExtrude {
                height,
                center: truth_arg(m, "center"@),
                twist: match number_arg(m, "twist"@) {
                    Some(t) => t,
                    None => ZERO,
                },
                scale: (Point2 { x, y }),
                slices: crate::modules::slices_of(r, m),
            },
            child,
        )),
        found(m, "scale"@) == Some(Val::Number(x)) ==> (straight_tree(r, m, height, child)
            == over(
            Act::LinearExtrude {
                height,
                center: truth_arg(m, "center"@),
                twist: match number_arg(m, "twist"@) {
                    Some(t) => t,
                    None => ZERO,
                },
                scale: (Point2 { x, y: x }),
                slices: crate::modules::slices_of(r, m),
            },
            child,
        )),
{
}

// ---- matrices ----------------------------------------------------------------------------------

/// What a matrix of four rows makes of a point, along one axis.
pub open spec fn row_times(n: Numbers, rows: Seq<u64>, axis: int, x: int, y: int, z: int) -> int {
    (n.of)(rows[4 * axis]) * x + (n.of)(rows[4 * axis + 1]) * y + (n.of)(rows[4 * axis + 2]) * z + (
    n.of)(rows[4 * axis + 3])
}

/// A matrix takes a point to another.
pub open spec fn takes(
    n: Numbers,
    rows: Seq<u64>,
    x: int,
    y: int,
    z: int,
    to_x: int,
    to_y: int,
    to_z: int,
) -> bool {
    &&& n.same(row_times(n, rows, 0, x, y, z), to_x)
    &&& n.same(row_times(n, rows, 1, x, y, z), to_y)
    &&& n.same(row_times(n, rows, 2, x, y, z), to_z)
}

proof fn lemma_row_times(
    n: Numbers,
    rows: Seq<u64>,
    axis: int,
    x: int,
    y: int,
    z: int,
    a: int,
    b: int,
    c: int,
    d: int,
)
    requires
        n.modulus > 0,
        n.same((n.of)(rows[4 * axis]), a),
        n.same((n.of)(rows[4 * axis + 1]), b),
        n.same((n.of)(rows[4 * axis + 2]), c),
        n.same((n.of)(rows[4 * axis + 3]), d),
    ensures
        n.same(row_times(n, rows, axis, x, y, z), a * x + b * y + c * z + d),
{
    let (p, q, r, s) = (
        (n.of)(rows[4 * axis]),
        (n.of)(rows[4 * axis + 1]),
        (n.of)(rows[4 * axis + 2]),
        (n.of)(rows[4 * axis + 3]),
    );
    lemma_same(n, x, x, x);
    lemma_same(n, y, y, y);
    lemma_same(n, z, z, z);
    lemma_products(n, p, x, q, y, a, x, b, y);
    lemma_ring(n, r, c, z, z);
    lemma_ring(n, p * x + q * y, a * x + b * y, r * z, c * z);
    lemma_ring(n, p * x + q * y + r * z, a * x + b * y + c * z, s, d);
}

/// An extrusion along a vector leads from each point of the ground to the point that
/// lies further by the whole vector: the sheared top lies over its tip, the ground
/// stays.
pub proof fn law_shear_leans(r: Reading, n: Numbers, d: Point3, x: int, y: int)
    requires
        exact(r, n),
        n.divides((n.of)(d.z)),
    ensures
        takes(n, shear(r, d), x, y, 0, x, y, 0),
        takes(
            n,
            shear(r, d),
            x,
            y,
            (n.of)(d.z),
            x + (n.of)(d.x),
            y + (n.of)(d.y),
            (n.of)(d.z),
        ),
{
    let rows = shear(r, d);
    let (dx, dy, dz) = ((n.of)(d.x), (n.of)(d.y), (n.of)(d.z));
    lemma_own(r, n);
    lemma_div(r, n, d.x, d.z, dx, dz);
    lemma_div(r, n, d.y, d.z, dy, dz);
    let (p, q) = ((n.of)(rows[2]), (n.of)(rows[6]));
    lemma_row_times(n, rows, 0, x, y, 0, 1, 0, p, 0);
    lemma_row_times(n, rows, 1, x, y, 0, 0, 1, q, 0);
    lemma_row_times(n, rows, 2, x, y, 0, 0, 0, 1, 0);
    lemma_row_times(n, rows, 0, x, y, dz, 1, 0, p, 0);
    lemma_row_times(n, rows, 1, x, y, dz, 0, 1, q, 0);
    lemma_row_times(n, rows, 2, x, y, dz, 0, 0, 1, 0);
    assert(1 * x + 0 * y + p * 0 + 0 == x);
    assert(0 * x + 1 * y + q * 0 + 0 == y);
    assert(1 * x + 0 * y + p * dz + 0 == x + p * dz);
    assert(0 * x + 1 * y + q * dz + 0 == y + q * dz);
    lemma_same(n, x, x, x);
    lemma_same(n, y, y, y);
    lemma_ring(n, x, x, p * dz, dx);
    lemma_ring(n, y, y, q * dz, dy);
    lemma_same(n, row_times(n, rows, 0, x, y, dz), x + p * dz, x + dx);
    lemma_same(n, row_times(n, rows, 1, x, y, dz), y + q * dz, y + dy);
}

/// The top of an extrusion along a vector lies in the direction of the vector, as far
/// as the extrusion is high.
pub proof fn law_extrusion_follows(r: Reading, n: Numbers, height: u64, v: Point3)
    requires
        exact(r, n),
        n.divides((n.of)(length_of(r, v))),
    ensures
        ({
            let k = (n.of)(length_of(r, v));
            let d = leaning(r, height, v);
            &&& n.same((n.of)(d.x) * k, (n.of)(height) * (n.of)(v.x))
            &&& n.same((n.of)(d.y) * k, (n.of)(height) * (n.of)(v.y))
            &&& n.same((n.of)(d.z) * k, (n.of)(height) * (n.of)(v.z))
        }),
{
    let l = length_of(r, v);
    let h = (n.of)(height);
    lemma_own(r, n);
    lemma_mul(r, n, height, v.x, h, (n.of)(v.x));
    lemma_mul(r, n, height, v.y, h, (n.of)(v.y));
    lemma_mul(r, n, height, v.z, h, (n.of)(v.z));
    lemma_div(r, n, r.at(NumOp::Mul, height, v.x), l, h * (n.of)(v.x), (n.of)(l));
    lemma_div(r, n, r.at(NumOp::Mul, height, v.y), l, h * (n.of)(v.y), (n.of)(l));
    lemma_div(r, n, r.at(NumOp::Mul, height, v.z), l, h * (n.of)(v.z), (n.of)(l));
}

/// A sweep that starts elsewhere is turned there, counter-clockwise about the
/// vertical axis: a point and where it goes enclose the angle, and stay level.
pub proof fn law_start_turned(r: Reading, n: Numbers, deg: u64, x: int, y: int, z: int)
    requires
        exact(r, n),
    ensures
        ({
            let rows = turn_rows(r, deg);
            let t = r.at(NumOp::ToRadians, deg, 0);
            let (s, c) = ((n.of)(r.at(NumOp::Sin, t, 0)), (n.of)(r.at(NumOp::Cos, t, 0)));
            takes(n, rows, x, y, z, x * c - y * s, x * s + y * c, z)
        }),
{
    let rows = turn_rows(r, deg);
    let t = r.at(NumOp::ToRadians, deg, 0);
    let (bs, bc) = (r.at(NumOp::Sin, t, 0), r.at(NumOp::Cos, t, 0));
    let (s, c) = ((n.of)(bs), (n.of)(bc));
    lemma_own(r, n);
    lemma_neg(r, n, bs, s);
    lemma_row_times(n, rows, 0, x, y, z, c, -s, 0, 0);
    lemma_row_times(n, rows, 1, x, y, z, s, c, 0, 0);
    lemma_row_times(n, rows, 2, x, y, z, 0, 0, 1, 0);
    assert(c * x + (-s) * y + 0 * z + 0 == x * c - y * s) by (nonlinear_arith);
    assert(s * x + c * y + 0 * z + 0 == x * s + y * c) by (nonlinear_arith);
}

/// The entries of a turn about an axis, with the axis of length 1.
proof fn lemma_axis_entry(
    r: Reading,
    n: Numbers,
    a: u64,
    b: u64,
    k: u64,
    rest: u64,
    p: int,
    q: int,
    kk: int,
    w: int,
)
    requires
        exact(r, n),
        n.same((n.of)(a), p),
        n.same((n.of)(b), q),
        n.same((n.of)(k), kk),
        n.same((n.of)(rest), w),
    ensures
        n.same((n.of)(r.at(NumOp::Add, mul3(r, a, b, k), rest)), p * q * kk + w),
        n.same((n.of)(r.at(NumOp::Sub, mul3(r, a, b, k), rest)), p * q * kk - w),
        n.same((n.of)(r.at(NumOp::Add, rest, mul3(r, a, b, k))), w + p * q * kk),
{
    lemma_mul(r, n, a, b, p, q);
    let ab = r.at(NumOp::Mul, a, b);
    lemma_mul(r, n, ab, k, p * q, kk);
    lemma_add(r, n, mul3(r, a, b, k), rest, p * q * kk, w);
    lemma_sub(r, n, mul3(r, a, b, k), rest, p * q * kk, w);
    lemma_add(r, n, rest, mul3(r, a, b, k), w, p * q * kk);
}

/// A turn about an axis, given by its direction of length 1, keeps what lies along
/// the axis and turns what lies across it, counter-clockwise seen against the axis.
pub proof fn law_turn_about_axis(
    r: Reading,
    n: Numbers,
    axis: Point3,
    deg: u64,
    x: int,
    y: int,
    z: int,
    u: int,
    v: int,
    w: int,
)
    requires
        exact(r, n),
        n.divides((n.of)(length_of(r, axis))),
        n.same(x * (n.of)(length_of(r, axis)), (n.of)(axis.x)),
        n.same(y * (n.of)(length_of(r, axis)), (n.of)(axis.y)),
        n.same(z * (n.of)(length_of(r, axis)), (n.of)(axis.z)),
    ensures
        ({
            let t = r.at(NumOp::ToRadians, deg, 0);
            let (s, c) = ((n.of)(r.at(NumOp::Sin, t, 0)), (n.of)(r.at(NumOp::Cos, t, 0)));
            let along = (x * u + y * v + z * w) * (1 - c);
            takes(
                n,
                axis_rows(r, axis, deg),
                u,
                v,
                w,
                c * u + along * x + s * (y * w - z * v),
                c * v + along * y + s * (z * u - x * w),
                c * w + along * z + s * (x * v - y * u),
            )
        }),
{
    let l = length_of(r, axis);
    let k = (n.of)(l);
    let rows = axis_rows(r, axis, deg);
    let (bx, by, bz) = (
        r.at(NumOp::Div, axis.x, l),
        r.at(NumOp::Div, axis.y, l),
        r.at(NumOp::Div, axis.z, l),
    );
    lemma_own(r, n);
    lemma_part(r, n, axis.x, l, x);
    lemma_part(r, n, axis.y, l, y);
    lemma_part(r, n, axis.z, l, z);
    let t = r.at(NumOp::ToRadians, deg, 0);
    let (bs, bc) = (r.at(NumOp::Sin, t, 0), r.at(NumOp::Cos, t, 0));
    let (s, c) = ((n.of)(bs), (n.of)(bc));
    let bk = r.at(NumOp::Sub, ONE, bc);
    let e = 1 - c;
    lemma_sub(r, n, ONE, bc, 1, c);
    lemma_mul(r, n, bx, bs, x, s);
    lemma_mul(r, n, by, bs, y, s);
    lemma_mul(r, n, bz, bs, z, s);
    let (sx, sy, sz) = (
        r.at(NumOp::Mul, bx, bs),
        r.at(NumOp::Mul, by, bs),
        r.at(NumOp::Mul, bz, bs),
    );
    lemma_axis_entry(r, n, bx, bx, bk, bc, x, x, e, c);
    lemma_axis_entry(r, n, bx, by, bk, sz, x, y, e, z * s);
    lemma_axis_entry(r, n, bx, bz, bk, sy, x, z, e, y * s);
    lemma_axis_entry(r, n, by, bx, bk, sz, y, x, e, z * s);
    lemma_axis_entry(r, n, by, by, bk, bc, y, y, e, c);
    lemma_axis_entry(r, n, by, bz, bk, sx, y, z, e, x * s);
    lemma_axis_entry(r, n, bz, bx, bk, sy, z, x, e, y * s);
    lemma_axis_entry(r, n, bz, by, bk, sx, z, y, e, x * s);
    lemma_axis_entry(r, n, bz, bz, bk, bc, z, z, e, c);
    lemma_row_times(
        n,
        rows,
        0,
        u,
        v,
        w,
        c + x * x * e,
        x * y * e - z * s,
        x * z * e + y * s,
        0,
    );
    lemma_row_times(
        n,
        rows,
        1,
        u,
        v,
        w,
        y * x * e + z * s,
        c + y * y * e,
        y * z * e - x * s,
        0,
    );
    lemma_row_times(
        n,
        rows,
        2,
        u,
        v,
        w,
        z * x * e - y * s,
        z * y * e + x * s,
        c + z * z * e,
        0,
    );
    lemma_about(x, y, z, u, v, w, s, c, e);
    lemma_about(y, z, x, v, w, u, s, c, e);
    lemma_about(z, x, y, w, u, v, s, c, e);
    let g = x * u + y * v + z * w;
    assert(y * v + z * w + x * u == g && z * w + x * u + y * v == g);
}

/// One coordinate of a turned vector.
proof fn lemma_about(x: int, y: int, z: int, u: int, v: int, w: int, s: int, c: int, e: int)
    ensures
        (c + x * x * e) * u + (x * y * e - z * s) * v + (x * z * e + y * s) * w == c * u + ((x * u + y * v
            + z * w) * e) * x + s * (y * w - z * v),
{
    assert((c + x * x * e) * u == c * u + ((x * u) * e) * x) by (nonlinear_arith);
    let (xye, xze, zs, ys) = (x * y * e, x * z * e, z * s, y * s);
    assert((xye - zs) * v == xye * v - zs * v) by (nonlinear_arith);
    assert((x * y * e) * v == ((y * v) * e) * x) by (nonlinear_arith);
    assert((z * s) * v == s * (z * v)) by (nonlinear_arith);
    assert((xze + ys) * w == xze * w + ys * w) by (nonlinear_arith);
    assert((x * z * e) * w == ((z * w) * e) * x) by (nonlinear_arith);
    assert((y * s) * w == s * (y * w)) by (nonlinear_arith);
    let (p, q, r) = (x * u, y * v, z * w);
    assert(((p + q + r) * e) * x == (p * e) * x + (q * e) * x + (r * e) * x) by (nonlinear_arith);
    let (f, g) = (y * w, z * v);
    assert(s * (f - g) == s * f - s * g) by (nonlinear_arith);
}

proof fn lemma_part(r: Reading, n: Numbers, a: u64, l: u64, x: int)
    requires
        exact(r, n),
        n.divides((n.of)(l)),
        n.same(x * (n.of)(l), (n.of)(a)),
    ensures
        n.same((n.of)(r.at(NumOp::Div, a, l)), x),
{
    let k = (n.of)(l);
    let q = (n.of)(r.at(NumOp::Div, a, l));
    lemma_own(r, n);
    lemma_div(r, n, a, l, (n.of)(a), k);
    lemma_same(n, x * k, (n.of)(a), 0);
    lemma_same(n, q * k, (n.of)(a), x * k);
    lemma_cancel(n, q, x, k);
}

// ---- other arguments ---------------------------------------------------------------------------

/// An offset takes a radius where it is given one, else a distance, and else a radius
/// of 1.
pub proof fn law_offset_arguments(r: Reading, m: Env, f: FragmentSpec, child: Tree)
    ensures
        ({
            let (radius, delta) = match (number_arg(m, "r"@), number_arg(m, "delta"@)) {
                (Some(x), _) => (x, ZERO),
                (None, Some(d)) => (ZERO, d),
                (None, None) => (ONE, ZERO),
            };
            wrapped_tree(r, Wrap::Offset, m, f, child) == over(
                Act::Offset { r: radius, delta, chamfer: truth_arg(m, "chamfer"@), frags: f },
                child,
            )
        }),
{
}

/// A motion that is given nothing moves nothing: a translation by zero, a scale by one,
/// a rotation by no angle; a reflection reverses `x`.
pub proof fn law_motion_defaults(r: Reading, m: Env, child: Tree)
    requires
        found(m, "v"@) is None,
        found(m, "a"@) is None,
    ensures
        moved_tree(r, TransformKind::Translate, m, child) == over(
            Act::Translate((Point3 { x: ZERO, y: ZERO, z: ZERO })),
            child,
        ),
        moved_tree(r, TransformKind::Scale, m, child) == over(
            Act::Scale((Point3 { x: ONE, y: ONE, z: ONE })),
            child,
        ),
        moved_tree(r, TransformKind::Rotate, m, child) == over(
            Act::Rotate((Point3 { x: ZERO, y: ZERO, z: ZERO })),
            child,
        ),
        moved_tree(r, TransformKind::Mirror, m, child) == over(
            Act::Mirror((Point3 { x: ONE, y: ZERO, z: ZERO })),
            child,
        ),
{
}

/// What a module says of how finely it is drawn counts before what is said around it,
/// each of the three by itself.
pub proof fn law_own_fineness_first(m: Env, a: Val, b: Val, c: Val)
    ensures
        number_arg(m, "$fn"@) matches Some(x) ==> fineness(m, a, b, c).fn_ == x,
        number_arg(m, "$fa"@) matches Some(x) ==> fineness(m, a, b, c).fa == x,
        number_arg(m, "$fs"@) matches Some(x) ==> fineness(m, a, b, c).fs == x,
        number_arg(m, "$fn"@) is None && a is Number ==> fineness(m, a, b, c).fn_ == a->Number_0,
        number_arg(m, "$fa"@) is None && b is Number ==> fineness(m, a, b, c).fa == b->Number_0,
        number_arg(m, "$fs"@) is None && c is Number ==> fineness(m, a, b, c).fs == c->Number_0,
{
}

/// A circle with a number of fragments has as many, whatever its size.
pub proof fn law_fragments_given(r: Reading, x: u64, y: u64, f: FragmentSpec, k: u32)
    requires
        less(ZERO, f.fn_),
        finite(f.fn_),
        at_most(THREE, f.fn_),
        r.at(NumOp::ToInt, f.fn_, 0) == k,
        k >= 3,
        !less(x, GRID_FINE),
    ensures
        round_of(r, x, f) == k,
{
}

/// An angle is kept within one turn either way, and as it is where it lies there.
pub proof fn law_within_turn(angle: u64)
    requires
        !nan(angle),
    ensures
        at_most(negative(FULL_TURN), within_turn(angle)),
        at_most(within_turn(angle), FULL_TURN),
        at_most(negative(FULL_TURN), angle) && at_most(angle, FULL_TURN) ==> within_turn(angle)
            == angle,
{
}

/// The numbers of a matrix stand row by row, as its lists give them; where they give
/// none, they are those of the matrix that moves nothing.
pub proof fn law_matrix_numbers(rows: Seq<Val>, i: int, j: int)
    requires
        0 <= i < 4,
        0 <= j < 4,
    ensures
        ({
            let r = matrix_of(Val::Vector(rows));
            let own = if i == j {
                ONE
            } else {
                ZERO
            };
            &&& r.len() == 16
            &&& i >= rows.len() ==> r[4 * i + j] == own
            &&& i < rows.len() ==> (rows[i] matches Val::Vector(row) ==> r[4 * i + j] == if j
                < row.len() && row[j] is Number {
                row[j]->Number_0
            } else {
                own
            })
        }),
{
    assert((4 * i + j) / 4 == i && (4 * i + j) % 4 == j);
}

/// Points have their coordinates in the order in which they are given.
pub proof fn law_points_in_order(x: u64, y: u64, z: u64)
    ensures
        point3_of(three(x, y, z)) == (Point3 { x, y, z }),
        point2_of(two(x, y)) == (Point2 { x, y }),
        point3_of(two(x, y)) == (Point3 { x, y, z: ZERO }),
{
}

} // verus!
