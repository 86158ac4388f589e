//! Vectors of numbers, as the floating-point unit computes them.

use crate::mesh::{Mesh, MeshView, Point3, Triangle};
use crate::num::{is_less, is_zero, less, zero, Arithmetic, Calc, NumOp, Reading, ONE, ZERO};
use vstd::prelude::*;

verus! {

/// The number -1.
pub const MINUS_ONE: u64 = 0xbff0_0000_0000_0000;

/// The zero vector.
pub open spec fn origin() -> Point3 {
    Point3 { x: ZERO, y: ZERO, z: ZERO }
}

/// A zero of either sign as the positive one.
pub open spec fn canonical(v: u64) -> u64 {
    if zero(v) {
        ZERO
    } else {
        v
    }
}

/// A point without negative zeros.
pub open spec fn canonical_point(p: Point3) -> Point3 {
    Point3 { x: canonical(p.x), y: canonical(p.y), z: canonical(p.z) }
}

/// Turns a negative zero into the positive one.
pub fn canonical_zero(v: u64) -> (r: u64)
    ensures
        r == canonical(v),
{
    if is_zero(v) {
        ZERO
    } else {
        v
    }
}

/// A point without negative zeros.
pub fn canonical_corner(p: Point3) -> (r: Point3)
    ensures
        r == canonical_point(p),
{
    Point3 { x: canonical_zero(p.x), y: canonical_zero(p.y), z: canonical_zero(p.z) }
}

pub open spec fn difference_of(m: Reading, a: Point3, b: Point3) -> Point3 {
    Point3 {
        x: m.at(NumOp::Sub, a.x, b.x),
        y: m.at(NumOp::Sub, a.y, b.y),
        z: m.at(NumOp::Sub, a.z, b.z),
    }
}

/// One component of a cross product.
pub open spec fn minor(m: Reading, a: u64, b: u64, c: u64, d: u64) -> u64 {
    m.at(NumOp::Sub, m.at(NumOp::Mul, a, b), m.at(NumOp::Mul, c, d))
}

pub open spec fn cross_of(m: Reading, u: Point3, v: Point3) -> Point3 {
    Point3 {
        x: minor(m, u.y, v.z, u.z, v.y),
        y: minor(m, u.z, v.x, u.x, v.z),
        z: minor(m, u.x, v.y, u.y, v.x),
    }
}

pub open spec fn dot_of(m: Reading, u: Point3, v: Point3) -> u64 {
    m.at(
        NumOp::Add,
        m.at(NumOp::Add, m.at(NumOp::Mul, u.x, v.x), m.at(NumOp::Mul, u.y, v.y)),
        m.at(NumOp::Mul, u.z, v.z),
    )
}

/// A vector of length one in the same direction; a vector without a length
/// becomes zero.
pub open spec fn unit_of(m: Reading, n: Point3) -> Point3 {
    let length = m.at(NumOp::Sqrt, dot_of(m, n, n), 0);
    if less(ZERO, length) {
        Point3 {
            x: m.at(NumOp::Div, n.x, length),
            y: m.at(NumOp::Div, n.y, length),
            z: m.at(NumOp::Div, n.z, length),
        }
    } else {
        origin()
    }
}

/// The normal of a triangle, zero where it has no area.
pub open spec fn normal_of(m: Reading, mesh: MeshView, t: Triangle) -> Point3 {
    let a = mesh.verts[t.a as int];
    let b = mesh.verts[t.b as int];
    let c = mesh.verts[t.c as int];
    unit_of(m, cross_of(m, difference_of(m, b, a), difference_of(m, c, a)))
}

/// A number kept between -1 and 1.
pub open spec fn clamped(v: u64) -> u64 {
    if less(v, MINUS_ONE) {
        MINUS_ONE
    } else if less(ONE, v) {
        ONE
    } else {
        v
    }
}

/// The angle between the normals of two triangles, in radians.
pub open spec fn dihedral(m: Reading, mesh: MeshView, l: int, r: int) -> u64 {
    m.at(
        NumOp::Acos,
        clamped(
            dot_of(m, normal_of(m, mesh, mesh.tris[l]), normal_of(m, mesh, mesh.tris[r])),
        ),
        0,
    )
}

pub fn sub_points<A: Arithmetic>(calc: &mut Calc<A>, a: Point3, b: Point3) -> (r: Point3)
    ensures
        forall|m: Reading| #[trigger]
            final(calc).agrees(m) ==> old(calc).agrees(m) && r == difference_of(m, a, b),
{
    let x: u64 = calc.apply(NumOp::Sub, a.x, b.x);
    let y: u64 = calc.apply(NumOp::Sub, a.y, b.y);
    let z: u64 = calc.apply(NumOp::Sub, a.z, b.z);
    Point3 { x, y, z }
}

fn minor_value<A: Arithmetic>(calc: &mut Calc<A>, a: u64, b: u64, c: u64, d: u64) -> (r: u64)
    ensures
        forall|m: Reading| #[trigger]
            final(calc).agrees(m) ==> old(calc).agrees(m) && r == minor(m, a, b, c, d),
{
    let p: u64 = calc.apply(NumOp::Mul, a, b);
    let q: u64 = calc.apply(NumOp::Mul, c, d);
    calc.apply(NumOp::Sub, p, q)
}

pub fn cross<A: Arithmetic>(calc: &mut Calc<A>, u: Point3, v: Point3) -> (r: Point3)
    ensures
        forall|m: Reading| #[trigger]
            final(calc).agrees(m) ==> old(calc).agrees(m) && r == cross_of(m, u, v),
{
    let x: u64 = minor_value(calc, u.y, v.z, u.z, v.y);
    let y: u64 = minor_value(calc, u.z, v.x, u.x, v.z);
    let z: u64 = minor_value(calc, u.x, v.y, u.y, v.x);
    Point3 { x, y, z }
}

pub fn dot<A: Arithmetic>(calc: &mut Calc<A>, u: Point3, v: Point3) -> (r: u64)
    ensures
        forall|m: Reading| #[trigger]
            final(calc).agrees(m) ==> old(calc).agrees(m) && r == dot_of(m, u, v),
{
    let x: u64 = calc.apply(NumOp::Mul, u.x, v.x);
    let y: u64 = calc.apply(NumOp::Mul, u.y, v.y);
    let z: u64 = calc.apply(NumOp::Mul, u.z, v.z);
    let s: u64 = calc.apply(NumOp::Add, x, y);
    calc.apply(NumOp::Add, s, z)
}

/// The length of a vector.
pub open spec fn length_of(m: Reading, v: Point3) -> u64 {
    m.at(NumOp::Sqrt, dot_of(m, v, v), 0)
}

/// The length of a vector.
pub fn norm<A: Arithmetic>(calc: &mut Calc<A>, v: Point3) -> (r: u64)
    ensures
        forall|m: Reading| #[trigger]
            final(calc).agrees(m) ==> old(calc).agrees(m) && r == length_of(m, v),
{
    let d: u64 = dot(calc, v, v);
    calc.apply(NumOp::Sqrt, d, 0)
}

pub fn normalize<A: Arithmetic>(calc: &mut Calc<A>, n: Point3) -> (r: Point3)
    ensures
        forall|m: Reading| #[trigger]
            final(calc).agrees(m) ==> old(calc).agrees(m) && r == unit_of(m, n),
{
    let d: u64 = dot(calc, n, n);
    let length: u64 = calc.apply(NumOp::Sqrt, d, 0);
    if is_less(ZERO, length) {
        let x: u64 = calc.apply(NumOp::Div, n.x, length);
        let y: u64 = calc.apply(NumOp::Div, n.y, length);
        let z: u64 = calc.apply(NumOp::Div, n.z, length);
        Point3 { x, y, z }
    } else {
        Point3 { x: ZERO, y: ZERO, z: ZERO }
    }
}

/// The normal of a triangle, zero where it has no area.
pub fn triangle_normal<A: Arithmetic>(calc: &mut Calc<A>, mesh: &Mesh, t: Triangle) -> (r: Point3)
    requires
        t.within(mesh@.verts.len()),
    ensures
        forall|m: Reading| #[trigger]
            final(calc).agrees(m) ==> old(calc).agrees(m) && r == normal_of(m, mesh@, t),
{
    let a = mesh.verts[t.a as usize];
    let b = mesh.verts[t.b as usize];
    let c = mesh.verts[t.c as usize];
    let u = sub_points(calc, b, a);
    let v = sub_points(calc, c, a);
    let n = cross(calc, u, v);
    normalize(calc, n)
}

/// The angle between the normals of two triangles, in radians.
pub fn dihedral_between<A: Arithmetic>(
    calc: &mut Calc<A>,
    mesh: &Mesh,
    left: usize,
    right: usize,
) -> (r: u64)
    requires
        mesh@.indexed(),
        left < mesh.tris@.len(),
        right < mesh.tris@.len(),
    ensures
        forall|m: Reading| #[trigger]
            final(calc).agrees(m) ==> old(calc).agrees(m) && r == dihedral(
                m,
                mesh@,
                left as int,
                right as int,
            ),
{
    assert(mesh@.tris[left as int].within(mesh@.verts.len()));
    assert(mesh@.tris[right as int].within(mesh@.verts.len()));
    let l = triangle_normal(calc, mesh, mesh.tris[left]);
    let r = triangle_normal(calc, mesh, mesh.tris[right]);
    let d: u64 = dot(calc, l, r);
    let kept: u64 = if is_less(d, MINUS_ONE) {
        MINUS_ONE
    } else if is_less(ONE, d) {
        ONE
    } else {
        d
    };
    calc.apply(NumOp::Acos, kept, 0)
}

/// The same angle in degrees.
pub open spec fn dihedral_in_degrees(m: Reading, mesh: MeshView, l: int, r: int) -> u64 {
    m.at(NumOp::ToDegrees, dihedral(m, mesh, l, r), 0)
}

/// The angle between the normals of two triangles, in degrees.
pub fn dihedral_degrees<A: Arithmetic>(
    calc: &mut Calc<A>,
    mesh: &Mesh,
    left: usize,
    right: usize,
) -> (r: u64)
    requires
        mesh@.indexed(),
        left < mesh.tris@.len(),
        right < mesh.tris@.len(),
    ensures
        forall|m: Reading| #[trigger]
            final(calc).agrees(m) ==> old(calc).agrees(m) && r == dihedral_in_degrees(
                m,
                mesh@,
                left as int,
                right as int,
            ),
{
    let angle: u64 = dihedral_between(calc, mesh, left, right);
    calc.apply(NumOp::ToDegrees, angle, 0)
}

} // verus!
