//! Primitive solids as triangles, and how many fragments a curve is drawn with.

use crate::faces::tris_within;
use crate::mesh::{Mesh, MeshView, Point3, Triangle};
use crate::node::{FragmentSpec, Point2};
use crate::num::{
    at_most, finite, is_at_most, is_finite, is_less, less, negate, negative, Arithmetic, Calc,
    NumOp, Reading, TWO, ZERO,
};
use crate::solid::{greater, lesser, max_of, min_of};
use vstd::prelude::*;

verus! {

/// The radius below which a primitive collapses to the fewest fragments: 2^-20.
pub const GRID_FINE: u64 = 0x3eb0_0000_0000_0000;

pub const PI: u64 = 0x4009_21fb_5444_2d18;

/// 3.
pub const THREE: u64 = 0x4008_0000_0000_0000;

/// 5.
pub const FIVE: u64 = 0x4014_0000_0000_0000;

/// 360.
pub const FULL_TURN: u64 = 0x4076_8000_0000_0000;

/// 0.5, by its bits.
pub const HALF: u64 = 0x3fe0_0000_0000_0000;

/// The whole number that a number truncates to, at most the largest of 32 bits.
pub open spec fn counted(m: Reading, v: u64) -> u32 {
    let n = m.at(NumOp::ToInt, v, 0);
    if n > u32::MAX {
        u32::MAX
    } else {
        n as u32
    }
}

/// The whole number that a number truncates to, at most the largest of 32 bits.
pub fn count<A: Arithmetic>(calc: &mut Calc<A>, v: u64) -> (r: u32)
    ensures
        forall|m: Reading| #[trigger]
            final(calc).agrees(m) ==> old(calc).agrees(m) && r == counted(m, v),
{
    let n: u64 = calc.apply(NumOp::ToInt, v, 0);
    if n > 0xffff_ffff {
        0xffff_ffff
    } else {
        n as u32
    }
}

/// The number of fragments in a full circle: `$fn` where it is positive, and at
/// least 3; else what `$fa` and `$fs` allow, and at least 5.
pub open spec fn fragments_of(m: Reading, r: u64, f: FragmentSpec) -> u32 {
    if less(r, GRID_FINE) || !finite(f.fn_) {
        3
    } else if less(ZERO, f.fn_) {
        if at_most(THREE, f.fn_) {
            counted(m, f.fn_)
        } else {
            3
        }
    } else {
        let by_angle = m.at(NumOp::Div, FULL_TURN, f.fa);
        let round = m.at(NumOp::Mul, m.at(NumOp::Mul, r, TWO), PI);
        let by_length = m.at(NumOp::Div, round, f.fs);
        counted(m, m.at(NumOp::Ceil, greater(lesser(by_angle, by_length), FIVE), 0))
    }
}

/// The number of fragments in a full circle of radius `r`.
pub fn fragments<A: Arithmetic>(calc: &mut Calc<A>, r: u64, f: FragmentSpec) -> (n: u32)
    ensures
        forall|m: Reading| #[trigger]
            final(calc).agrees(m) ==> old(calc).agrees(m) && n == fragments_of(m, r, f),
{
    if is_less(r, GRID_FINE) || !is_finite(f.fn_) {
        return 3;
    }
    if is_less(ZERO, f.fn_) {
        return if is_at_most(THREE, f.fn_) {
            count(calc, f.fn_)
        } else {
            3
        };
    }
    let by_angle: u64 = calc.apply(NumOp::Div, FULL_TURN, f.fa);
    let twice: u64 = calc.apply(NumOp::Mul, r, TWO);
    let round: u64 = calc.apply(NumOp::Mul, twice, PI);
    let by_length: u64 = calc.apply(NumOp::Div, round, f.fs);
    let up: u64 = calc.apply(NumOp::Ceil, max_of(min_of(by_angle, by_length), FIVE), 0);
    count(calc, up)
}

/// The fragments of a circle that is to have a face: at least 3.
pub open spec fn round_of(m: Reading, r: u64, f: FragmentSpec) -> u32 {
    if fragments_of(m, r, f) < 3 {
        3
    } else {
        fragments_of(m, r, f)
    }
}

/// The fragments of a circle that is to have a face: at least 3.
pub fn round_fragments<A: Arithmetic>(calc: &mut Calc<A>, r: u64, f: FragmentSpec) -> (n: u32)
    ensures
        n >= 3,
        forall|m: Reading| #[trigger]
            final(calc).agrees(m) ==> old(calc).agrees(m) && n == round_of(m, r, f),
{
    let n: u32 = fragments(calc, r, f);
    if n < 3 {
        3
    } else {
        n
    }
}

/// The `i`-th of `n` points on a circle.
pub open spec fn on_circle(m: Reading, r: u64, i: u32, n: u32) -> Point2 {
    let phi = m.at(
        NumOp::Div,
        m.at(NumOp::Mul, m.at(NumOp::Mul, TWO, PI), m.at(NumOp::FromInt, i as u64, 0)),
        m.at(NumOp::FromInt, n as u64, 0),
    );
    Point2 {
        x: m.at(NumOp::Mul, r, m.at(NumOp::Cos, phi, 0)),
        y: m.at(NumOp::Mul, r, m.at(NumOp::Sin, phi, 0)),
    }
}

/// The `i`-th of `n` points on a circle.
pub fn circle_point<A: Arithmetic>(calc: &mut Calc<A>, r: u64, i: u32, n: u32) -> (p: Point2)
    ensures
        forall|m: Reading| #[trigger]
            final(calc).agrees(m) ==> old(calc).agrees(m) && p == on_circle(m, r, i, n),
{
    let turn: u64 = calc.apply(NumOp::Mul, TWO, PI);
    let at: u64 = calc.apply(NumOp::FromInt, i as u64, 0);
    let far: u64 = calc.apply(NumOp::Mul, turn, at);
    let all: u64 = calc.apply(NumOp::FromInt, n as u64, 0);
    let phi: u64 = calc.apply(NumOp::Div, far, all);
    let c: u64 = calc.apply(NumOp::Cos, phi, 0);
    let x: u64 = calc.apply(NumOp::Mul, r, c);
    let s: u64 = calc.apply(NumOp::Sin, phi, 0);
    let y: u64 = calc.apply(NumOp::Mul, r, s);
    Point2 { x, y }
}

/// The first `k` of `n` points on a circle at height `z`.
pub open spec fn ring(m: Reading, r: u64, z: u64, n: u32, k: int) -> Seq<Point3> {
    Seq::new(
        k as nat,
        |j: int|
            {
                let p = on_circle(m, r, j as u32, n);
                Point3 { x: p.x, y: p.y, z }
            },
    )
}

/// Adds the points of a circle.
fn push_ring<A: Arithmetic>(calc: &mut Calc<A>, verts: &mut Vec<Point3>, r: u64, z: u64, n: u32)
    ensures
        final(verts)@.len() == old(verts)@.len() + n,
        forall|m: Reading| #[trigger]
            final(calc).agrees(m) ==> old(calc).agrees(m) && final(verts)@ == old(verts)@ + ring(
                m,
                r,
                z,
                n,
                n as int,
            ),
{
    let ghost before = verts@;
    let mut j: u32 = 0;
    assert forall|m: Reading| before + ring(m, r, z, n, 0) =~= before by {}
    while j < n
        invariant
            j <= n,
            verts@.len() == before.len() + j,
            forall|m: Reading| #[trigger]
                calc.agrees(m) ==> old(calc).agrees(m) && verts@ == before + ring(
                    m,
                    r,
                    z,
                    n,
                    j as int,
                ),
        decreases n - j,
    {
        let p = circle_point(calc, r, j, n);
        let ghost held = verts@;
        verts.push(Point3 { x: p.x, y: p.y, z });
        proof {
            assert forall|m: Reading| #[trigger] calc.agrees(m) implies verts@ == before + ring(
                m,
                r,
                z,
                n,
                j + 1,
            ) by {
                assert(verts@ =~= before + ring(m, r, z, n, j + 1));
            }
        }
        j = j + 1;
    }
}

// ---- boxes ----------------------------------------------------------------------------------------

/// The corner of a box on the given sides.
pub open spec fn box_corner(lo: Point3, hi: Point3, x: bool, y: bool, z: bool) -> Point3 {
    Point3 {
        x: if x {
            hi.x
        } else {
            lo.x
        },
        y: if y {
            hi.y
        } else {
            lo.y
        },
        z: if z {
            hi.z
        } else {
            lo.z
        },
    }
}

/// The twelve triangles of a box, two to a side, seen from outside.
pub open spec fn box_triangles() -> Seq<Triangle> {
    seq![
        Triangle { a: 0, b: 3, c: 2 },
        Triangle { a: 0, b: 2, c: 1 },
        Triangle { a: 4, b: 5, c: 6 },
        Triangle { a: 4, b: 6, c: 7 },
        Triangle { a: 0, b: 1, c: 5 },
        Triangle { a: 0, b: 5, c: 4 },
        Triangle { a: 2, b: 3, c: 7 },
        Triangle { a: 2, b: 7, c: 6 },
        Triangle { a: 1, b: 2, c: 6 },
        Triangle { a: 1, b: 6, c: 5 },
        Triangle { a: 0, b: 4, c: 7 },
        Triangle { a: 0, b: 7, c: 3 },
    ]
}

/// A box between two corners.
pub open spec fn box_mesh(lo: Point3, hi: Point3) -> MeshView {
    MeshView {
        verts: seq![
            box_corner(lo, hi, false, false, false),
            box_corner(lo, hi, true, false, false),
            box_corner(lo, hi, true, true, false),
            box_corner(lo, hi, false, true, false),
            box_corner(lo, hi, false, false, true),
            box_corner(lo, hi, true, false, true),
            box_corner(lo, hi, true, true, true),
            box_corner(lo, hi, false, true, true),
        ],
        tris: box_triangles(),
    }
}

/// A box of the given size, at the origin or around it.
pub open spec fn cube_of(m: Reading, size: Point3, center: bool) -> MeshView {
    if center {
        box_mesh(
            (Point3 {
                x: m.at(NumOp::Div, negative(size.x), TWO),
                y: m.at(NumOp::Div, negative(size.y), TWO),
                z: m.at(NumOp::Div, negative(size.z), TWO),
            }),
            (Point3 {
                x: m.at(NumOp::Div, size.x, TWO),
                y: m.at(NumOp::Div, size.y, TWO),
                z: m.at(NumOp::Div, size.z, TWO),
            }),
        )
    } else {
        box_mesh((Point3 { x: ZERO, y: ZERO, z: ZERO }), size)
    }
}

fn corner(lo: Point3, hi: Point3, x: bool, y: bool, z: bool) -> (r: Point3)
    ensures
        r == box_corner(lo, hi, x, y, z),
{
    Point3 {
        x: if x {
            hi.x
        } else {
            lo.x
        },
        y: if y {
            hi.y
        } else {
            lo.y
        },
        z: if z {
            hi.z
        } else {
            lo.z
        },
    }
}

fn push_triangle(tris: &mut Vec<Triangle>, a: u32, b: u32, c: u32)
    ensures
        final(tris)@ == old(tris)@.push((Triangle { a, b, c })),
{
    tris.push(Triangle { a, b, c });
}

/// A box of the given size, at the origin or around it. Its triangles face
/// outward where the size is positive.
pub fn cube<A: Arithmetic>(calc: &mut Calc<A>, size: Point3, center: bool) -> (r: Mesh)
    ensures
        r@.indexed(),
        forall|m: Reading| #[trigger]
            final(calc).agrees(m) ==> old(calc).agrees(m) && r@ == cube_of(m, size, center),
{
    let mut lo = Point3 { x: ZERO, y: ZERO, z: ZERO };
    let mut hi = size;
    if center {
        let lx: u64 = calc.apply(NumOp::Div, negate(size.x), TWO);
        let ly: u64 = calc.apply(NumOp::Div, negate(size.y), TWO);
        let lz: u64 = calc.apply(NumOp::Div, negate(size.z), TWO);
        let hx: u64 = calc.apply(NumOp::Div, size.x, TWO);
        let hy: u64 = calc.apply(NumOp::Div, size.y, TWO);
        let hz: u64 = calc.apply(NumOp::Div, size.z, TWO);
        lo = Point3 { x: lx, y: ly, z: lz };
        hi = Point3 { x: hx, y: hy, z: hz };
    }
    let mut verts: Vec<Point3> = Vec::new();
    verts.push(corner(lo, hi, false, false, false));
    verts.push(corner(lo, hi, true, false, false));
    verts.push(corner(lo, hi, true, true, false));
    verts.push(corner(lo, hi, false, true, false));
    verts.push(corner(lo, hi, false, false, true));
    verts.push(corner(lo, hi, true, false, true));
    verts.push(corner(lo, hi, true, true, true));
    verts.push(corner(lo, hi, false, true, true));
    let mut tris: Vec<Triangle> = Vec::new();
    push_triangle(&mut tris, 0, 3, 2);
    push_triangle(&mut tris, 0, 2, 1);
    push_triangle(&mut tris, 4, 5, 6);
    push_triangle(&mut tris, 4, 6, 7);
    push_triangle(&mut tris, 0, 1, 5);
    push_triangle(&mut tris, 0, 5, 4);
    push_triangle(&mut tris, 2, 3, 7);
    push_triangle(&mut tris, 2, 7, 6);
    push_triangle(&mut tris, 1, 2, 6);
    push_triangle(&mut tris, 1, 6, 5);
    push_triangle(&mut tris, 0, 4, 7);
    push_triangle(&mut tris, 0, 7, 3);
    proof {
        assert(verts@ =~= box_mesh(lo, hi).verts);
        assert(tris@ =~= box_triangles());
    }
    Mesh { verts, tris }
}

// ---- spheres ---------------------------------------------------------------------------------------

/// The first `k` rings of a sphere of `rings` rings with `n` points each.
pub open spec fn sphere_points(m: Reading, r: u64, n: u32, rings: u32, k: int) -> Seq<Point3>
    decreases k,
{
    if k <= 0 {
        Seq::empty()
    } else {
        let phi = m.at(
            NumOp::Div,
            m.at(
                NumOp::Mul,
                PI,
                m.at(NumOp::Add, m.at(NumOp::FromInt, (k - 1) as u64, 0), HALF),
            ),
            m.at(NumOp::FromInt, rings as u64, 0),
        );
        sphere_points(m, r, n, rings, k - 1) + ring(
            m,
            m.at(NumOp::Mul, r, m.at(NumOp::Sin, phi, 0)),
            m.at(NumOp::Mul, r, m.at(NumOp::Cos, phi, 0)),
            n,
            n as int,
        )
    }
}

/// The place of the `j`-th point of a ring that starts at `start`.
pub open spec fn ring_place(start: int, j: int, n: u32) -> u32 {
    (start + if j < n {
        j
    } else {
        j - n
    }) as u32
}

/// The first `k` squares between the rings that start at `low` and at `high`,
/// two triangles each.
pub open spec fn band(low: int, high: int, n: u32, k: int) -> Seq<Triangle>
    decreases k,
{
    if k <= 0 {
        Seq::empty()
    } else {
        let j = k - 1;
        let v00 = ring_place(low, j, n);
        let v01 = ring_place(low, j + 1, n);
        let v10 = ring_place(high, j, n);
        let v11 = ring_place(high, j + 1, n);
        band(low, high, n, j).push((Triangle { a: v00, b: v10, c: v11 })).push(
            (Triangle { a: v00, b: v11, c: v01 }),
        )
    }
}

/// The first `k` bands of a sphere.
pub open spec fn bands(n: u32, k: int) -> Seq<Triangle>
    decreases k,
{
    if k <= 0 {
        Seq::empty()
    } else {
        bands(n, k - 1) + band((k - 1) * n, k * n, n, n as int)
    }
}

/// The fan over a ring that starts at `start`, up to its `k`-th point; turned
/// round where it is seen from below.
pub open spec fn cap(start: int, below: bool, k: int) -> Seq<Triangle>
    decreases k,
{
    if k <= 1 {
        Seq::empty()
    } else {
        let j = k - 1;
        cap(start, below, j).push(
            if below {
                Triangle { a: start as u32, b: (start + j + 1) as u32, c: (start + j) as u32 }
            } else {
                Triangle { a: start as u32, b: (start + j) as u32, c: (start + j + 1) as u32 }
            },
        )
    }
}

/// The rings of a sphere with `n` points to a ring.
pub open spec fn rings_of(n: u32) -> u32 {
    ((n + 1) / 2) as u32
}

/// A sphere: rings of points, bands between them, and a flat cap at each end.
/// `None` where it has more points than can be numbered.
pub open spec fn sphere_of(m: Reading, r: u64, f: FragmentSpec) -> Option<MeshView> {
    let n = round_of(m, r, f);
    let rings = rings_of(n);
    if at_most(r, ZERO) {
        Some(MeshView { verts: Seq::empty(), tris: Seq::empty() })
    } else if n * rings > u32::MAX {
        None
    } else {
        Some(
            MeshView {
                verts: sphere_points(m, r, n, rings, rings as int),
                tris: bands(n, rings - 1) + cap(0, false, n - 1) + cap(
                    (rings - 1) * n,
                    true,
                    n - 1,
                ),
            },
        )
    }
}

/// Adds the squares between two rings.
fn push_band(tris: &mut Vec<Triangle>, low: u32, high: u32, n: u32, Ghost(total): Ghost<nat>)
    requires
        n >= 3,
        low + n <= total,
        high + n <= total,
        total <= u32::MAX,
        tris_within(old(tris)@, total),
    ensures
        tris_within(final(tris)@, total),
        final(tris)@ == old(tris)@ + band(low as int, high as int, n, n as int),
{
    let ghost before = tris@;
    let mut j: u32 = 0;
    assert(before + band(low as int, high as int, n, 0) =~= before);
    while j < n
        invariant
            j <= n,
            low + n <= total,
            high + n <= total,
            total <= u32::MAX,
            tris_within(tris@, total),
            tris@ == before + band(low as int, high as int, n, j as int),
        decreases n - j,
    {
        let k: u32 = if j < n - 1 {
            j + 1
        } else {
            0
        };
        let ghost held = tris@;
        push_triangle(tris, low + j, high + j, high + k);
        push_triangle(tris, low + j, high + k, low + k);
        proof {
            assert(tris@ =~= before + band(low as int, high as int, n, j + 1));
        }
        j = j + 1;
    }
}

/// Adds the fan over a ring.
fn push_cap(tris: &mut Vec<Triangle>, start: u32, below: bool, n: u32, Ghost(total): Ghost<nat>)
    requires
        n >= 3,
        start + n <= total,
        total <= u32::MAX,
        tris_within(old(tris)@, total),
    ensures
        tris_within(final(tris)@, total),
        final(tris)@ == old(tris)@ + cap(start as int, below, n - 1),
{
    let ghost before = tris@;
    let mut j: u32 = 1;
    assert(before + cap(start as int, below, 1) =~= before);
    while j < n - 1
        invariant
            1 <= j <= n - 1,
            start + n <= total,
            total <= u32::MAX,
            tris_within(tris@, total),
            tris@ == before + cap(start as int, below, j as int),
        decreases n - j,
    {
        let ghost held = tris@;
        if below {
            push_triangle(tris, start, start + j + 1, start + j);
        } else {
            push_triangle(tris, start, start + j, start + j + 1);
        }
        proof {
            assert(tris@ =~= before + cap(start as int, below, j + 1));
        }
        j = j + 1;
    }
}

/// A sphere; `None` where it has more points than can be numbered.
pub fn sphere<A: Arithmetic>(calc: &mut Calc<A>, r: u64, f: FragmentSpec) -> (out: Option<Mesh>)
    ensures
        out matches Some(mesh) ==> mesh@.indexed(),
        forall|m: Reading| #[trigger]
            final(calc).agrees(m) ==> old(calc).agrees(m) && sphere_of(m, r, f) == match out {
                Some(mesh) => Some(mesh@),
                None => None,
            },
{
    let n: u32 = round_fragments(calc, r, f);
    let rings: u32 = n / 2 + n % 2;
    assert(rings == rings_of(n));
    if is_at_most(r, ZERO) {
        let mesh = Mesh { verts: Vec::new(), tris: Vec::new() };
        assert(mesh@.verts =~= Seq::empty());
        assert(mesh@.tris =~= Seq::empty());
        return Some(mesh);
    }
    assert(n * rings <= u32::MAX * u32::MAX) by (nonlinear_arith)
        requires
            0 <= n <= u32::MAX,
            0 <= rings <= u32::MAX,
    ;
    let total: u64 = n as u64 * rings as u64;
    if total > 0xffff_ffff {
        return None;
    }
    let mut verts: Vec<Point3> = Vec::new();
    let mut i: u32 = 0;
    while i < rings
        invariant
            i <= rings,
            verts@.len() == i * n,
            forall|m: Reading| #[trigger]
                calc.agrees(m) ==> old(calc).agrees(m) && n == round_of(m, r, f) && verts@
                    == sphere_points(m, r, n, rings, i as int),
        decreases rings - i,
    {
        let at: u64 = calc.apply(NumOp::FromInt, i as u64, 0);
        let mid: u64 = calc.apply(NumOp::Add, at, HALF);
        let far: u64 = calc.apply(NumOp::Mul, PI, mid);
        let all: u64 = calc.apply(NumOp::FromInt, rings as u64, 0);
        let phi: u64 = calc.apply(NumOp::Div, far, all);
        let s: u64 = calc.apply(NumOp::Sin, phi, 0);
        let ring_r: u64 = calc.apply(NumOp::Mul, r, s);
        let c: u64 = calc.apply(NumOp::Cos, phi, 0);
        let z: u64 = calc.apply(NumOp::Mul, r, c);
        push_ring(calc, &mut verts, ring_r, z, n);
        assert((i + 1) * n == i * n + n) by (nonlinear_arith);
        i = i + 1;
    }
    let mut tris: Vec<Triangle> = Vec::new();
    let mut start: u32 = 0;
    let mut i: u32 = 0;
    assert(tris@ =~= Seq::empty());
    assert(1 * n <= rings * n) by (nonlinear_arith)
        requires
            rings >= 1,
    ;
    while i < rings - 1
        invariant
            i <= rings - 1,
            n >= 3,
            total == n * rings,
            total <= u32::MAX,
            start == i * n,
            start + n <= total,
            tris_within(tris@, total as nat),
            tris@ == bands(n, i as int),
        decreases rings - i,
    {
        proof {
            assert((i + 1) * n == i * n + n) by (nonlinear_arith);
            assert((i + 2) * n == i * n + 2 * n) by (nonlinear_arith);
            assert((i + 2) * n <= rings * n) by (nonlinear_arith)
                requires
                    i + 2 <= rings,
            ;
            assert(rings * n == n * rings) by (nonlinear_arith);
        }
        push_band(&mut tris, start, start + n, n, Ghost(total as nat));
        start = start + n;
        i = i + 1;
    }
    push_cap(&mut tris, 0, false, n, Ghost(total as nat));
    push_cap(&mut tris, start, true, n, Ghost(total as nat));
    proof {
        assert(rings * n == n * rings) by (nonlinear_arith);
        assert(verts@.len() == total);
    }
    Some(Mesh { verts, tris })
}

// ---- cylinders ---------------------------------------------------------------------------------------

/// The first `k` faces of a wall between a ring and an apex or another ring.
pub open spec fn wall(bottom: int, top: int, tip_below: bool, tip_above: bool, n: u32, k: int) -> Seq<
    Triangle,
>
    decreases k,
{
    if k <= 0 {
        Seq::empty()
    } else {
        let j = k - 1;
        let done = wall(bottom, top, tip_below, tip_above, n, j);
        let b0 = ring_place(bottom, j, n);
        let b1 = ring_place(bottom, j + 1, n);
        let t0 = ring_place(top, j, n);
        let t1 = ring_place(top, j + 1, n);
        if tip_below {
            done.push((Triangle { a: bottom as u32, b: t1, c: t0 }))
        } else if tip_above {
            done.push((Triangle { a: b0, b: b1, c: top as u32 }))
        } else {
            done.push((Triangle { a: b0, b: b1, c: t1 })).push((Triangle { a: b0, b: t1, c: t0 }))
        }
    }
}

/// The points of one end: a ring, or the tip alone.
pub open spec fn end_points(m: Reading, r: u64, z: u64, n: u32) -> Seq<Point3> {
    if at_most(r, ZERO) {
        seq![Point3 { x: ZERO, y: ZERO, z }]
    } else {
        ring(m, r, z, n, n as int)
    }
}

/// A cylinder or a cone along z; nothing where both ends are tips. `None` where
/// it has more points than can be numbered.
pub open spec fn cylinder_of(
    m: Reading,
    h: u64,
    r1: u64,
    r2: u64,
    center: bool,
    f: FragmentSpec,
) -> Option<MeshView> {
    let n = round_of(m, greater(r1, r2), f);
    let z0 = if center {
        m.at(NumOp::Div, negative(h), TWO)
    } else {
        ZERO
    };
    let z1 = if center {
        m.at(NumOp::Div, h, TWO)
    } else {
        h
    };
    let below = at_most(r1, ZERO);
    let above = at_most(r2, ZERO);
    let top = if below {
        1int
    } else {
        n as int
    };
    if below && above {
        Some(MeshView { verts: Seq::empty(), tris: Seq::empty() })
    } else if 2 * n > u32::MAX {
        None
    } else {
        Some(
            MeshView {
                verts: end_points(m, r1, z0, n) + end_points(m, r2, z1, n),
                tris: wall(0, top, below, above, n, n as int) + (if below {
                    Seq::empty()
                } else {
                    cap(0, true, n - 1)
                }) + (if above {
                    Seq::empty()
                } else {
                    cap(top, false, n - 1)
                }),
            },
        )
    }
}

/// Adds the points of one end.
fn push_end<A: Arithmetic>(calc: &mut Calc<A>, verts: &mut Vec<Point3>, r: u64, z: u64, n: u32)
    ensures
        final(verts)@.len() == old(verts)@.len() + if at_most(r, ZERO) {
            1
        } else {
            n as int
        },
        forall|m: Reading| #[trigger]
            final(calc).agrees(m) ==> old(calc).agrees(m) && final(verts)@ == old(verts)@
                + end_points(m, r, z, n),
{
    if is_at_most(r, ZERO) {
        let ghost before = verts@;
        let tip = Point3 { x: ZERO, y: ZERO, z };
        verts.push(tip);
        assert(verts@ =~= before + seq![tip]);
    } else {
        push_ring(calc, verts, r, z, n);
    }
}

/// Adds the wall between two ends.
fn push_wall(
    tris: &mut Vec<Triangle>,
    top: u32,
    tip_below: bool,
    tip_above: bool,
    n: u32,
    Ghost(total): Ghost<nat>,
)
    requires
        n >= 3,
        old(tris)@.len() == 0,
        !(tip_below && tip_above),
        total <= u32::MAX,
        top == (if tip_below {
            1int
        } else {
            n as int
        }),
        total == top + (if tip_above {
            1int
        } else {
            n as int
        }),
    ensures
        tris_within(final(tris)@, total),
        final(tris)@ == wall(0, top as int, tip_below, tip_above, n, n as int),
{
    let mut j: u32 = 0;
    assert(tris@ =~= Seq::empty());
    while j < n
        invariant
            j <= n,
            n >= 3,
            !(tip_below && tip_above),
            total <= u32::MAX,
            top == (if tip_below {
                1int
            } else {
                n as int
            }),
            total == top + (if tip_above {
                1int
            } else {
                n as int
            }),
            tris_within(tris@, total),
            tris@ == wall(0, top as int, tip_below, tip_above, n, j as int),
        decreases n - j,
    {
        let k: u32 = if j < n - 1 {
            j + 1
        } else {
            0
        };
        if tip_below {
            push_triangle(tris, 0, top + k, top + j);
        } else if tip_above {
            push_triangle(tris, j, k, top);
        } else {
            push_triangle(tris, j, k, top + k);
            push_triangle(tris, j, top + k, top + j);
        }
        j = j + 1;
    }
}

/// A cylinder or a cone along z; `None` where it has more points than can be
/// numbered.
pub fn cylinder<A: Arithmetic>(
    calc: &mut Calc<A>,
    h: u64,
    r1: u64,
    r2: u64,
    center: bool,
    f: FragmentSpec,
) -> (out: Option<Mesh>)
    ensures
        out matches Some(mesh) ==> mesh@.indexed(),
        forall|m: Reading| #[trigger]
            final(calc).agrees(m) ==> old(calc).agrees(m) && cylinder_of(m, h, r1, r2, center, f)
                == match out {
                Some(mesh) => Some(mesh@),
                None => None,
            },
{
    let n: u32 = round_fragments(calc, max_of(r1, r2), f);
    let mut z0: u64 = ZERO;
    let mut z1: u64 = h;
    if center {
        z0 = calc.apply(NumOp::Div, negate(h), TWO);
        z1 = calc.apply(NumOp::Div, h, TWO);
    }
    let below: bool = is_at_most(r1, ZERO);
    let above: bool = is_at_most(r2, ZERO);
    if below && above {
        let mesh = Mesh { verts: Vec::new(), tris: Vec::new() };
        assert(mesh@.verts =~= Seq::empty());
        assert(mesh@.tris =~= Seq::empty());
        return Some(mesh);
    }
    if n > 0x7fff_ffff {
        return None;
    }
    let mut verts: Vec<Point3> = Vec::new();
    let ghost nothing = verts@;
    push_end(calc, &mut verts, r1, z0, n);
    let top: u32 = verts.len() as u32;
    push_end(calc, &mut verts, r2, z1, n);
    proof {
        assert forall|m: Reading| nothing + #[trigger] end_points(m, r1, z0, n) =~= end_points(
            m,
            r1,
            z0,
            n,
        ) by {}
    }
    let ghost total = verts@.len();
    let mut tris: Vec<Triangle> = Vec::new();
    push_wall(&mut tris, top, below, above, n, Ghost(total));
    let ghost walls = tris@;
    if !below {
        push_cap(&mut tris, 0, true, n, Ghost(total));
    } else {
        assert(walls + Seq::<Triangle>::empty() =~= walls);
    }
    let ghost most = tris@;
    if !above {
        push_cap(&mut tris, top, false, n, Ghost(total));
    } else {
        assert(most + Seq::<Triangle>::empty() =~= most);
    }
    Some(Mesh { verts, tris })
}

} // verus!
