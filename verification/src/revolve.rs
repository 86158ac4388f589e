//! Outlines swept round an axis.

use crate::contours::{area, copy_ring, reverse_ring, rings, signed_area};
use crate::extrude::{loop_walls, push_loop};
use crate::faces::{NANO, PICO};
use crate::mesh::{Mesh, MeshView, Point3, Triangle};
use crate::node::{FragmentSpec, Point2};
use crate::num::{
    absolute, at_most, is_at_most, is_less, less, negate, Arithmetic, Calc, NumOp, Reading,
    INFINITY, ZERO,
};
use crate::patches::{is_full, within_turn};
use crate::planar::{after, cross2, next_of, size_of, turn_of};
use crate::solid::{greater, lesser, max_of, min_of, NEG_INFINITY};
use crate::tessellate::{count, counted, round_fragments, round_of, FULL_TURN};
use vstd::prelude::*;

verus! {

// ---- cutting ears ---------------------------------------------------------------------------------

/// The place before `i` in a loop of `n`.
pub open spec fn before(i: int, n: int) -> int {
    if i > 0 {
        i - 1
    } else {
        n - 1
    }
}

/// A point lies in a triangle or on its rim.
pub open spec fn in_triangle(m: Reading, p: Point2, a: Point2, b: Point2, c: Point2) -> bool {
    let d1 = turn_of(m, a, b, p);
    let d2 = turn_of(m, b, c, p);
    let d3 = turn_of(m, c, a, p);
    !((less(d1, ZERO) || less(d2, ZERO) || less(d3, ZERO)) && (less(ZERO, d1) || less(ZERO, d2)
        || less(ZERO, d3)))
}

/// The `k`-th corner that is left is one of three, or lies outside their
/// triangle.
pub open spec fn keeps_out(
    m: Reading,
    poly: Seq<Point2>,
    left: Seq<u32>,
    a: u32,
    b: u32,
    c: u32,
    k: int,
) -> bool {
    let j = left[k];
    j == a || j == b || j == c || !in_triangle(
        m,
        poly[j as int],
        poly[a as int],
        poly[b as int],
        poly[c as int],
    )
}

/// The corner at `i` can be cut off: it turns left, and no other corner lies in
/// its triangle.
pub open spec fn is_ear(m: Reading, poly: Seq<Point2>, left: Seq<u32>, i: int) -> bool {
    let n = left.len() as int;
    let a = left[before(i, n)];
    let b = left[i];
    let c = left[after(i, n)];
    !at_most(turn_of(m, poly[a as int], poly[b as int], poly[c as int]), ZERO) && forall|k: int|
        0 <= k < n ==> #[trigger] keeps_out(m, poly, left, a, b, c, k)
}

/// The first corner from `i` on that can be cut off.
pub open spec fn first_ear(m: Reading, poly: Seq<Point2>, left: Seq<u32>, i: int) -> Option<int>
    decreases left.len() - i,
{
    if i < 0 || i >= left.len() {
        None
    } else if is_ear(m, poly, left, i) {
        Some(i)
    } else {
        first_ear(m, poly, left, i + 1)
    }
}

/// The triangles after ears are cut off as long as there are any.
pub open spec fn clipped(m: Reading, poly: Seq<Point2>, left: Seq<u32>, done: Seq<Triangle>) -> Seq<Triangle>
    decreases left.len(),
{
    let n = left.len() as int;
    if n == 3 {
        done.push((Triangle { a: left[0], b: left[1], c: left[2] }))
    } else if n < 3 {
        done
    } else {
        match first_ear(m, poly, left, 0) {
            Some(i) => if 0 <= i < n {
                clipped(
                    m,
                    poly,
                    left.remove(i),
                    done.push(
                        (Triangle {
                            a: left[before(i, n)],
                            b: left[i],
                            c: left[after(i, n)],
                        }),
                    ),
                )
            } else {
                done
            },
            None => done,
        }
    }
}

/// The corners counter-clockwise.
pub open spec fn corner_list(m: Reading, poly: Seq<Point2>) -> Seq<u32> {
    let n = poly.len();
    if less(area(m, poly), ZERO) {
        Seq::new(n, |i: int| (n - 1 - i) as u32)
    } else {
        Seq::new(n, |i: int| i as u32)
    }
}

/// The triangles of a simple outline.
pub open spec fn simple_triangles(m: Reading, poly: Seq<Point2>) -> Seq<Triangle> {
    if poly.len() < 3 {
        Seq::empty()
    } else {
        clipped(m, poly, corner_list(m, poly), Seq::empty())
    }
}

fn test_in_triangle<A: Arithmetic>(calc: &mut Calc<A>, p: Point2, a: Point2, b: Point2, c: Point2) -> (r:
    bool)
    ensures
        forall|m: Reading| #[trigger]
            final(calc).agrees(m) ==> old(calc).agrees(m) && r == in_triangle(m, p, a, b, c),
{
    let d1: u64 = cross2(calc, a, b, p);
    let d2: u64 = cross2(calc, b, c, p);
    let d3: u64 = cross2(calc, c, a, p);
    let neg: bool = is_less(d1, ZERO) || is_less(d2, ZERO) || is_less(d3, ZERO);
    let pos: bool = is_less(ZERO, d1) || is_less(ZERO, d2) || is_less(ZERO, d3);
    !(neg && pos)
}

/// All corners that are left are corners.
pub open spec fn corners_within(left: Seq<u32>, n: nat) -> bool {
    forall|i: int| 0 <= i < left.len() ==> (#[trigger] left[i]) < n
}

fn test_ear<A: Arithmetic>(calc: &mut Calc<A>, poly: &Vec<Point2>, left: &Vec<u32>, i: usize) -> (r: bool)
    requires
        i < left@.len(),
        corners_within(left@, poly@.len()),
    ensures
        forall|m: Reading| #[trigger]
            final(calc).agrees(m) ==> old(calc).agrees(m) && r == is_ear(
                m,
                poly@,
                left@,
                i as int,
            ),
{
    let n: usize = left.len();
    let prev: usize = if i > 0 {
        i - 1
    } else {
        n - 1
    };
    let next: usize = next_of(i, n);
    let a: u32 = left[prev];
    let b: u32 = left[i];
    let c: u32 = left[next];
    assert(left@[prev as int] < poly@.len());
    assert(left@[i as int] < poly@.len());
    assert(left@[next as int] < poly@.len());
    let pa = poly[a as usize];
    let pb = poly[b as usize];
    let pc = poly[c as usize];
    let t: u64 = cross2(calc, pa, pb, pc);
    if is_at_most(t, ZERO) {
        return false;
    }
    let mut k: usize = 0;
    while k < n
        invariant
            k <= n,
            n == left@.len(),
            corners_within(left@, poly@.len()),
            i < n,
            a == left@[before(i as int, n as int)],
            b == left@[i as int],
            c == left@[after(i as int, n as int)],
            a < poly@.len(),
            b < poly@.len(),
            c < poly@.len(),
            pa == poly@[a as int],
            pb == poly@[b as int],
            pc == poly@[c as int],
            forall|m: Reading| #[trigger]
                calc.agrees(m) ==> old(calc).agrees(m) && !at_most(
                    turn_of(m, pa, pb, pc),
                    ZERO,
                ) && forall|j: int|
                    0 <= j < k ==> #[trigger] keeps_out(m, poly@, left@, a, b, c, j),
        decreases n - k,
    {
        let j: u32 = left[k];
        assert(left@[k as int] < poly@.len());
        if j != a && j != b && j != c {
            if test_in_triangle(calc, poly[j as usize], pa, pb, pc) {
                proof {
                    assert forall|m: Reading| #[trigger] calc.agrees(m) implies !is_ear(
                        m,
                        poly@,
                        left@,
                        i as int,
                    ) by {
                        assert(!keeps_out(m, poly@, left@, a, b, c, k as int));
                    }
                }
                return false;
            }
        }
        k = k + 1;
    }
    true
}

fn find_ear<A: Arithmetic>(calc: &mut Calc<A>, poly: &Vec<Point2>, left: &Vec<u32>) -> (r: Option<usize>)
    requires
        corners_within(left@, poly@.len()),
    ensures
        r matches Some(i) ==> i < left@.len(),
        forall|m: Reading| #[trigger]
            final(calc).agrees(m) ==> old(calc).agrees(m) && first_ear(m, poly@, left@, 0)
                == match r {
                Some(i) => Some(i as int),
                None => None,
            },
{
    let mut i: usize = 0;
    while i < left.len()
        invariant
            i <= left@.len(),
            corners_within(left@, poly@.len()),
            forall|m: Reading| #[trigger]
                calc.agrees(m) ==> old(calc).agrees(m) && first_ear(m, poly@, left@, 0)
                    == first_ear(m, poly@, left@, i as int),
        decreases left.len() - i,
    {
        if test_ear(calc, poly, left, i) {
            return Some(i);
        }
        i = i + 1;
    }
    None
}

/// Cuts a simple outline into triangles, ear by ear.
pub fn triangulate_simple<A: Arithmetic>(calc: &mut Calc<A>, poly: &Vec<Point2>) -> (r: Vec<Triangle>)
    requires
        poly@.len() <= u32::MAX,
    ensures
        forall|k: int| 0 <= k < r@.len() ==> (#[trigger] r@[k]).within(poly@.len()),
        forall|m: Reading| #[trigger]
            final(calc).agrees(m) ==> old(calc).agrees(m) && r@ == simple_triangles(m, poly@),
{
    let n: usize = poly.len();
    let mut tris: Vec<Triangle> = Vec::new();
    if n < 3 {
        return tris;
    }
    let a: u64 = signed_area(calc, poly);
    let turn: bool = is_less(a, ZERO);
    let mut left: Vec<u32> = Vec::new();
    let mut i: usize = 0;
    while i < n
        invariant
            i <= n,
            n == poly@.len(),
            n <= u32::MAX,
            left@.len() == i,
            forall|k: int|
                0 <= k < i ==> #[trigger] left@[k] == (if turn {
                    (n - 1 - k) as u32
                } else {
                    k as u32
                }),
        decreases n - i,
    {
        left.push(
            if turn {
                (n - 1 - i) as u32
            } else {
                i as u32
            },
        );
        i = i + 1;
    }
    proof {
        assert forall|m: Reading| #[trigger] calc.agrees(m) implies left@ == corner_list(m, poly@) by {
            assert(left@ =~= corner_list(m, poly@));
        }
        assert(tris@ =~= Seq::empty());
    }
    let ghost c1 = *calc;
    let ghost start = left@;
    let mut going: bool = true;
    while going && left.len() > 3
        invariant
            n == poly@.len(),
            corners_within(left@, poly@.len()),
            left@.len() >= 3,
            forall|k: int| 0 <= k < tris@.len() ==> (#[trigger] tris@[k]).within(poly@.len()),
            forall|m: Reading| #[trigger]
                calc.agrees(m) ==> c1.agrees(m) && clipped(m, poly@, start, Seq::empty())
                    == if going {
                    clipped(m, poly@, left@, tris@)
                } else {
                    tris@
                },
            !going ==> left@.len() > 3,
        decreases left.len() + if going {
            1int
        } else {
            0int
        },
    {
        match find_ear(calc, poly, &left) {
            Some(i) => {
                let k: usize = left.len();
                let prev: usize = if i > 0 {
                    i - 1
                } else {
                    k - 1
                };
                let next: usize = next_of(i, k);
                assert(left@[prev as int] < poly@.len());
                assert(left@[i as int] < poly@.len());
                assert(left@[next as int] < poly@.len());
                tris.push(Triangle { a: left[prev], b: left[i], c: left[next] });
                let ghost held = left@;
                left.remove(i);
                proof {
                    assert(left@ =~= held.remove(i as int));
                    assert forall|j: int| 0 <= j < left@.len() implies (#[trigger] left@[j])
                        < poly@.len() by {
                        if j < i {
                            assert(left@[j] == held[j]);
                        } else {
                            assert(left@[j] == held[j + 1]);
                        }
                    }
                }
            },
            None => {
                going = false;
            },
        }
    }
    if left.len() == 3 {
        assert(left@[0] < poly@.len());
        assert(left@[1] < poly@.len());
        assert(left@[2] < poly@.len());
        tris.push(Triangle { a: left[0], b: left[1], c: left[2] });
    }
    tris
}

// ---- sweeping -------------------------------------------------------------------------------------

/// The outline counter-clockwise.
pub open spec fn profile(m: Reading, c: Seq<Point2>) -> Seq<Point2> {
    if less(area(m, c), ZERO) {
        c.reverse()
    } else {
        c
    }
}

/// The sine and the cosine of the `k`-th ring's turn.
pub open spec fn ring_turn(m: Reading, angle: u64, steps: u32, k: int) -> (u64, u64) {
    let frac = m.at(
        NumOp::Div,
        m.at(NumOp::FromInt, k as u64, 0),
        m.at(NumOp::FromInt, steps as u64, 0),
    );
    let th = m.at(NumOp::ToRadians, m.at(NumOp::Mul, angle, frac), 0);
    (m.at(NumOp::Sin, th, 0), m.at(NumOp::Cos, th, 0))
}

/// A point turned round the axis.
pub open spec fn turned(m: Reading, t: (u64, u64), p: Point2) -> Point3 {
    Point3 { x: m.at(NumOp::Mul, p.x, t.1), y: m.at(NumOp::Mul, p.x, t.0), z: p.y }
}

/// The points of the first `k` rings.
pub open spec fn rings_below(m: Reading, c: Seq<Point2>, angle: u64, steps: u32, k: int) -> Seq<Point3>
    decreases k,
{
    if k <= 0 {
        Seq::empty()
    } else {
        rings_below(m, c, angle, steps, k - 1) + c.map_values(
            |p: Point2| turned(m, ring_turn(m, angle, steps, k - 1), p),
        )
    }
}

/// The walls of the first `k` sectors; the last ring of a full turn is the
/// first one again.
pub open spec fn sectors(base: int, n: int, rings: int, k: int) -> Seq<Triangle>
    decreases k,
{
    if k <= 0 {
        Seq::empty()
    } else {
        sectors(base, n, rings, k - 1) + loop_walls(
            (0, n as usize),
            base + (k - 1) * n,
            if k == rings {
                base
            } else {
                base + k * n
            },
            n,
        )
    }
}

/// The first `i` triangles of both ends, the first end turned round.
pub open spec fn both_ends(tris: Seq<Triangle>, low: int, high: int, i: int) -> Seq<Triangle>
    decreases i,
{
    if i <= 0 {
        Seq::empty()
    } else {
        let t = tris[i - 1];
        both_ends(tris, low, high, i - 1).push(
            (Triangle { a: (low + t.a) as u32, b: (low + t.c) as u32, c: (low + t.b) as u32 }),
        ).push(
            (Triangle { a: (high + t.a) as u32, b: (high + t.b) as u32, c: (high + t.c) as u32 }),
        )
    }
}

/// How an outline is swept.
#[derive(Clone, Copy, Debug, PartialEq, Eq, Structural)]
pub struct Sweep {
    pub angle: u64,
    pub steps: u32,
    pub full: bool,
}

/// The rings of a sweep.
pub open spec fn sweep_rings(w: Sweep) -> int {
    if w.full {
        w.steps as int
    } else {
        w.steps + 1
    }
}

/// The mesh with one more outline swept; as it is where the outline has less
/// than three points. `None` where it has more points than can be numbered.
pub open spec fn with_swept(m: Reading, mesh: MeshView, c: Seq<Point2>, w: Sweep) -> Option<MeshView> {
    let n = c.len() as int;
    let base = mesh.verts.len() as int;
    let rings = sweep_rings(w);
    if n < 3 {
        Some(mesh)
    } else if base + rings * n > u32::MAX {
        None
    } else {
        let p = profile(m, c);
        let ends = simple_triangles(m, p);
        Some(
            MeshView {
                verts: mesh.verts + rings_below(m, p, w.angle, w.steps, rings),
                tris: mesh.tris + sectors(base, n, rings, w.steps as int) + (if w.full {
                    Seq::empty()
                } else {
                    both_ends(ends, base, base + w.steps * n, ends.len() as int)
                }),
            },
        )
    }
}

/// The first `k` outlines swept.
pub open spec fn swept_below(m: Reading, contours: Seq<Seq<Point2>>, w: Sweep, k: int) -> Option<MeshView>
    decreases k,
{
    if k <= 0 {
        Some(MeshView { verts: Seq::empty(), tris: Seq::empty() })
    } else {
        match swept_below(m, contours, w, k - 1) {
            Some(mesh) => with_swept(m, mesh, contours[k - 1], w),
            None => None,
        }
    }
}

fn push_rings<A: Arithmetic>(
    calc: &mut Calc<A>,
    verts: &mut Vec<Point3>,
    c: &Vec<Point2>,
    angle: u64,
    steps: u32,
    rings: u64,
)
    requires
        rings <= steps + 1,
    ensures
        final(verts)@.len() == old(verts)@.len() + rings * c@.len(),
        forall|m: Reading| #[trigger]
            final(calc).agrees(m) ==> old(calc).agrees(m) && final(verts)@ == old(verts)@
                + rings_below(m, c@, angle, steps, rings as int),
{
    let ghost before = verts@;
    let ghost n = c@.len() as int;
    let mut k: u64 = 0;
    assert(before + Seq::<Point3>::empty() =~= before);
    assert(0 * n == 0);
    while k < rings
        invariant
            k <= rings,
            rings <= steps + 1,
            n == c@.len(),
            verts@.len() == before.len() + k * n,
            forall|m: Reading| #[trigger]
                calc.agrees(m) ==> old(calc).agrees(m) && verts@ == before + rings_below(
                    m,
                    c@,
                    angle,
                    steps,
                    k as int,
                ),
        decreases rings - k,
    {
        let ghost c0 = *calc;
        let ghost held = verts@;
        let at: u64 = calc.apply(NumOp::FromInt, k, 0);
        let all: u64 = calc.apply(NumOp::FromInt, steps as u64, 0);
        let frac: u64 = calc.apply(NumOp::Div, at, all);
        let turn: u64 = calc.apply(NumOp::Mul, angle, frac);
        let th: u64 = calc.apply(NumOp::ToRadians, turn, 0);
        let s: u64 = calc.apply(NumOp::Sin, th, 0);
        let co: u64 = calc.apply(NumOp::Cos, th, 0);
        let ghost c1 = *calc;
        let mut i: usize = 0;
        while i < c.len()
            invariant
                i <= c@.len(),
                verts@.len() == held.len() + i,
                forall|j: int| 0 <= j < held.len() ==> #[trigger] verts@[j] == held[j],
                forall|m: Reading| #[trigger]
                    calc.agrees(m) ==> c1.agrees(m) && forall|j: int|
                        held.len() <= j < verts@.len() ==> #[trigger] verts@[j] == turned(
                            m,
                            (s, co),
                            c@[j - held.len()],
                        ),
            decreases c.len() - i,
        {
            let p = c[i];
            let x: u64 = calc.apply(NumOp::Mul, p.x, co);
            let y: u64 = calc.apply(NumOp::Mul, p.x, s);
            verts.push(Point3 { x, y, z: p.y });
            i = i + 1;
        }
        proof {
            assert((k + 1) * n == k * n + n) by (nonlinear_arith);
            assert forall|m: Reading| #[trigger] calc.agrees(m) implies verts@ == before
                + rings_below(m, c@, angle, steps, k + 1) by {
                assert(c1.agrees(m));
                assert(c0.agrees(m));
                assert((s, co) == ring_turn(m, angle, steps, k as int));
                assert(verts@ =~= before + rings_below(m, c@, angle, steps, k + 1));
            }
        }
        k = k + 1;
    }
}

fn push_sectors(
    tris: &mut Vec<Triangle>,
    base: u32,
    n: u32,
    steps: u32,
    rings: u64,
    Ghost(total): Ghost<nat>,
)
    requires
        rings == steps || rings == steps + 1,
        total == base + rings * n,
        total <= u32::MAX,
        forall|k: int| 0 <= k < old(tris)@.len() ==> (#[trigger] old(tris)@[k]).within(total),
    ensures
        final(tris)@ == old(tris)@ + sectors(base as int, n as int, rings as int, steps as int),
        forall|k: int| 0 <= k < final(tris)@.len() ==> (#[trigger] final(tris)@[k]).within(total),
{
    let ghost before = tris@;
    let mut k: u32 = 0;
    let mut low: u32 = base;
    assert(before + sectors(base as int, n as int, rings as int, 0) =~= before);
    assert(0 * n == 0);
    while k < steps
        invariant
            k <= steps,
            rings == steps || rings == steps + 1,
            total == base + rings * n,
            total <= u32::MAX,
            low == base + k * n,
            low <= total,
            forall|j: int| 0 <= j < tris@.len() ==> (#[trigger] tris@[j]).within(total),
            tris@ == before + sectors(base as int, n as int, rings as int, k as int),
        decreases steps - k,
    {
        proof {
            assert((k + 1) * n == k * n + n) by (nonlinear_arith);
            assert((k + 1) * n <= rings * n) by (nonlinear_arith)
                requires
                    k + 1 <= rings,
                    0 <= n,
            ;
            if k + 1 < rings {
                assert((k + 2) * n == k * n + 2 * n) by (nonlinear_arith);
                assert((k + 2) * n <= rings * n) by (nonlinear_arith)
                    requires
                        k + 2 <= rings,
                        0 <= n,
                ;
            }
        }
        let next: u32 = low + n;
        let high: u32 = if k as u64 + 1 == rings {
            base
        } else {
            next
        };
        push_loop(tris, (0, n as usize), low, high, Ghost(total));
        assert(tris@ =~= before + sectors(base as int, n as int, rings as int, k + 1));
        low = next;
        k = k + 1;
    }
}

fn push_ends(
    tris: &mut Vec<Triangle>,
    ends: &Vec<Triangle>,
    n: u32,
    low: u32,
    high: u32,
    Ghost(total): Ghost<nat>,
)
    requires
        low + n <= total,
        high + n <= total,
        total <= u32::MAX,
        forall|i: int| 0 <= i < ends@.len() ==> (#[trigger] ends@[i]).within(n as nat),
        forall|k: int| 0 <= k < old(tris)@.len() ==> (#[trigger] old(tris)@[k]).within(total),
    ensures
        final(tris)@ == old(tris)@ + both_ends(
            ends@,
            low as int,
            high as int,
            ends@.len() as int,
        ),
        forall|k: int| 0 <= k < final(tris)@.len() ==> (#[trigger] final(tris)@[k]).within(total),
{
    let ghost before = tris@;
    let mut i: usize = 0;
    assert(before + both_ends(ends@, low as int, high as int, 0) =~= before);
    while i < ends.len()
        invariant
            i <= ends@.len(),
            low + n <= total,
            high + n <= total,
            total <= u32::MAX,
            forall|k: int| 0 <= k < ends@.len() ==> (#[trigger] ends@[k]).within(n as nat),
            forall|k: int| 0 <= k < tris@.len() ==> (#[trigger] tris@[k]).within(total),
            tris@ == before + both_ends(ends@, low as int, high as int, i as int),
        decreases ends.len() - i,
    {
        let t = ends[i];
        assert(ends@[i as int].within(n as nat));
        tris.push(Triangle { a: low + t.a, b: low + t.c, c: low + t.b });
        tris.push(Triangle { a: high + t.a, b: high + t.b, c: high + t.c });
        assert(tris@ =~= before + both_ends(ends@, low as int, high as int, i + 1));
        i = i + 1;
    }
}

/// Sweeps one more outline. `None` where the mesh has more points than can be
/// numbered.
fn revolve_one<A: Arithmetic>(calc: &mut Calc<A>, mesh: Mesh, contour: &Vec<Point2>, w: Sweep) -> (r: Option<
    Mesh,
>)
    requires
        mesh@.indexed(),
        mesh@.verts.len() <= u32::MAX,
    ensures
        r matches Some(out) ==> out@.indexed() && out@.verts.len() <= u32::MAX,
        forall|m: Reading| #[trigger]
            final(calc).agrees(m) ==> old(calc).agrees(m) && with_swept(m, mesh@, contour@, w)
                == match r {
                Some(out) => Some(out@),
                None => None,
            },
{
    let n: usize = contour.len();
    if n < 3 {
        return Some(mesh);
    }
    let ghost mv = mesh@;
    let rings: u64 = if w.full {
        w.steps as u64
    } else {
        w.steps as u64 + 1
    };
    let base: usize = mesh.verts.len();
    proof {
        assert(rings * n <= 0x1_0000_0000 * 0xffff_ffff_ffff_ffff) by (nonlinear_arith)
            requires
                0 <= rings <= 0x1_0000_0000,
                0 <= n <= 0xffff_ffff_ffff_ffff,
        ;
    }
    let need: u128 = base as u128 + rings as u128 * n as u128;
    if need > 0xffff_ffff {
        return None;
    }
    let a: u64 = signed_area(calc, contour);
    let c = if is_less(a, ZERO) {
        reverse_ring(contour)
    } else {
        copy_ring(contour)
    };
    let ghost c1 = *calc;
    proof {
        if rings > 0 {
            assert(n <= rings * n) by (nonlinear_arith)
                requires
                    1 <= rings,
                    0 <= n,
            ;
        }
    }
    let Mesh { mut verts, mut tris } = mesh;
    push_rings(calc, &mut verts, &c, w.angle, w.steps, rings);
    let ghost total = need as nat;
    proof {
        assert forall|k: int| 0 <= k < tris@.len() implies (#[trigger] tris@[k]).within(total) by {
            assert(mv.tris[k].within(mv.verts.len()));
        }
    }
    if rings == 0 {
        // A full sweep of no steps has neither rings nor walls.
        assert(0 * n == 0);
        assert(tris@ + sectors(base as int, n as int, 0, 0) =~= tris@);
        assert(tris@ + Seq::<Triangle>::empty() =~= tris@);
        return Some(Mesh { verts, tris });
    }
    let k: u32 = n as u32;
    push_sectors(&mut tris, base as u32, k, w.steps, rings, Ghost(total));
    if w.full {
        assert(tris@ + Seq::<Triangle>::empty() =~= tris@);
        return Some(Mesh { verts, tris });
    }
    let ends = triangulate_simple(calc, &c);
    proof {
        assert(rings * n == w.steps * n + n) by (nonlinear_arith)
            requires
                rings == w.steps + 1,
        ;
        assert(0 <= w.steps * n) by (nonlinear_arith)
            requires
                0 <= w.steps,
                0 <= n,
        ;
    }
    let high: u32 = base as u32 + w.steps * k;
    push_ends(&mut tris, &ends, k, base as u32, high, Ghost(total));
    Some(Mesh { verts, tris })
}

// ---- the whole revolution -----------------------------------------------------------------------------

/// The least and the greatest x of the points.
pub open spec fn ring_span(c: Seq<Point2>, start: (u64, u64), n: int) -> (u64, u64)
    decreases n,
{
    if n <= 0 {
        start
    } else {
        let s = ring_span(c, start, n - 1);
        (lesser(s.0, c[n - 1].x), greater(s.1, c[n - 1].x))
    }
}

/// The least and the greatest x of the first `n` outlines.
pub open spec fn span_below(v: Seq<Seq<Point2>>, n: int) -> (u64, u64)
    decreases n,
{
    if n <= 0 {
        (INFINITY, NEG_INFINITY)
    } else {
        ring_span(v[n - 1], span_below(v, n - 1), v[n - 1].len() as int)
    }
}

fn find_span(v: &Vec<Vec<Point2>>) -> (r: (u64, u64))
    ensures
        r == span_below(rings(v@), v@.len() as int),
{
    let mut lo: u64 = INFINITY;
    let mut hi: u64 = NEG_INFINITY;
    let mut i: usize = 0;
    while i < v.len()
        invariant
            i <= v@.len(),
            (lo, hi) == span_below(rings(v@), i as int),
        decreases v.len() - i,
    {
        assert(rings(v@)[i as int] == v@[i as int]@);
        let c = &v[i];
        let ghost start = (lo, hi);
        let mut k: usize = 0;
        while k < c.len()
            invariant
                k <= c@.len(),
                (lo, hi) == ring_span(c@, start, k as int),
            decreases c.len() - k,
        {
            lo = min_of(lo, c[k].x);
            hi = max_of(hi, c[k].x);
            k = k + 1;
        }
        i = i + 1;
    }
    (lo, hi)
}

/// The steps of a sweep with so many to a full turn.
pub open spec fn steps_of(m: Reading, sweep: u64, all: u32) -> u32 {
    if is_full(m, sweep) {
        all
    } else {
        let part = counted(
            m,
            m.at(
                NumOp::Ceil,
                m.at(
                    NumOp::Div,
                    m.at(NumOp::Mul, m.at(NumOp::FromInt, all as u64, 0), size_of(sweep)),
                    FULL_TURN,
                ),
                0,
            ),
        );
        if part < 1 {
            1
        } else {
            part
        }
    }
}

/// Outlines swept round the axis: nothing where they lie on both sides of it or
/// the angle is none.
pub open spec fn revolved(m: Reading, contours: Seq<Seq<Point2>>, angle: u64, f: FragmentSpec) -> Option<
    MeshView,
> {
    let span = span_below(contours, contours.len() as int);
    let sweep = within_turn(angle);
    if (less(span.0, ZERO) && less(ZERO, span.1)) || less(size_of(sweep), PICO) {
        Some(MeshView { verts: Seq::empty(), tris: Seq::empty() })
    } else {
        let all = round_of(m, greater(size_of(span.0), size_of(span.1)), f);
        swept_below(
            m,
            contours,
            (Sweep { angle: sweep, steps: steps_of(m, sweep, all), full: is_full(m, sweep) }),
            contours.len() as int,
        )
    }
}

/// Sweeps outlines round the axis. `None` where the solid has more points than
/// can be numbered.
pub fn rotate_extrude<A: Arithmetic>(
    calc: &mut Calc<A>,
    contours: &Vec<Vec<Point2>>,
    angle: u64,
    f: FragmentSpec,
) -> (r: Option<Mesh>)
    ensures
        r matches Some(mesh) ==> mesh@.indexed(),
        forall|m: Reading| #[trigger]
            final(calc).agrees(m) ==> old(calc).agrees(m) && revolved(
                m,
                rings(contours@),
                angle,
                f,
            ) == match r {
                Some(mesh) => Some(mesh@),
                None => None,
            },
{
    let nothing = Mesh { verts: Vec::new(), tris: Vec::new() };
    proof {
        assert(nothing@.verts =~= Seq::empty());
        assert(nothing@.tris =~= Seq::empty());
    }
    let (lo, hi) = find_span(contours);
    let low: u64 = negate(FULL_TURN);
    let sweep: u64 = if is_less(angle, low) {
        low
    } else if is_less(FULL_TURN, angle) {
        FULL_TURN
    } else {
        angle
    };
    if (is_less(lo, ZERO) && is_less(ZERO, hi)) || is_less(absolute(sweep), PICO) {
        return Some(nothing);
    }
    let gap: u64 = calc.apply(NumOp::Sub, absolute(sweep), FULL_TURN);
    let full: bool = is_less(absolute(gap), NANO);
    let all: u32 = round_fragments(calc, max_of(absolute(lo), absolute(hi)), f);
    let mut steps: u32 = all;
    if !full {
        let x: u64 = calc.apply(NumOp::FromInt, all as u64, 0);
        let y: u64 = calc.apply(NumOp::Mul, x, absolute(sweep));
        let z: u64 = calc.apply(NumOp::Div, y, FULL_TURN);
        let up: u64 = calc.apply(NumOp::Ceil, z, 0);
        let part: u32 = count(calc, up);
        steps = if part < 1 {
            1
        } else {
            part
        };
    }
    let w = Sweep { angle: sweep, steps, full };
    let ghost c1 = *calc;
    let mut mesh = nothing;
    let mut i: usize = 0;
    while i < contours.len()
        invariant
            i <= contours@.len(),
            mesh@.indexed(),
            mesh@.verts.len() <= u32::MAX,
            forall|m: Reading| #[trigger]
                c1.agrees(m) ==> old(calc).agrees(m) && revolved(m, rings(contours@), angle, f)
                    == swept_below(m, rings(contours@), w, contours@.len() as int),
            forall|m: Reading| #[trigger]
                calc.agrees(m) ==> c1.agrees(m) && swept_below(
                    m,
                    rings(contours@),
                    w,
                    i as int,
                ) == Some(mesh@),
        decreases contours.len() - i,
    {
        assert(rings(contours@)[i as int] == contours@[i as int]@);
        let ghost c0 = *calc;
        match revolve_one(calc, mesh, &contours[i], w) {
            Some(more) => {
                mesh = more;
            },
            None => {
                proof {
                    assert forall|m: Reading| #[trigger] calc.agrees(m) implies swept_below(
                        m,
                        rings(contours@),
                        w,
                        contours@.len() as int,
                    ) is None by {
                        assert(c0.agrees(m));
                        lemma_swept_fails(
                            m,
                            rings(contours@),
                            w,
                            i + 1,
                            contours@.len() as int,
                        );
                    }
                }
                return None;
            },
        }
        i = i + 1;
    }
    Some(mesh)
}

proof fn lemma_swept_fails(m: Reading, contours: Seq<Seq<Point2>>, w: Sweep, i: int, n: int)
    requires
        0 < i <= n,
        swept_below(m, contours, w, i) is None,
    ensures
        swept_below(m, contours, w, n) is None,
    decreases n,
{
    if i < n {
        lemma_swept_fails(m, contours, w, i, n - 1);
    }
}

} // verus!
