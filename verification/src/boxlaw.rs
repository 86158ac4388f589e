//! What boxes and hulls are for: a box holds its points and no more, and the outline
//! of a hull never bends back.

use crate::exact::{
    exact, lemma_add, lemma_div, lemma_mul, lemma_own, lemma_same, lemma_sub, Numbers,
};
use crate::faces::{corner_box, dropped, flattened, gathered_normal, off_plane, steepest};
use crate::flat::{ring_box, Box2};
use crate::hull::{coordinate, oriented, outside_by};
use crate::hull2d::{bent_back, chain_of};
use crate::mesh::{MeshView, Point3, Triangle};
use crate::node::Point2;
use crate::num::{at_most, less, nan, NumOp, Reading, ZERO};
use crate::planar::{after, size_of, turn_of};
use crate::solid::{bounds_of, greater, grown, Bounds3};
use crate::spacelaw::{dot3, law_cross, law_dot, lemma_volume_swap, volume};
use crate::vector::{cross_of, difference_of, length_of};
use vstd::prelude::*;

verus! {

// ---- boxes -------------------------------------------------------------------------------------

/// The point has numbers for coordinates.
pub open spec fn numbered(p: Point3) -> bool {
    !nan(p.x) && !nan(p.y) && !nan(p.z)
}

/// The box holds the point.
pub open spec fn holds(b: Bounds3, p: Point3) -> bool {
    &&& at_most(b.min.x, p.x) && at_most(p.x, b.max.x)
    &&& at_most(b.min.y, p.y) && at_most(p.y, b.max.y)
    &&& at_most(b.min.z, p.z) && at_most(p.z, b.max.z)
}

/// A box that is grown by a point holds it and what it held, and every box that holds
/// both holds it too: it is grown no further than needed.
pub proof fn law_grown_box(b: Bounds3, p: Point3, q: Point3, outer: Bounds3)
    requires
        numbered(b.min),
        numbered(b.max),
        numbered(p),
    ensures
        holds(grown(b, p), p),
        holds(b, q) ==> holds(grown(b, p), q),
        holds(outer, b.min) && holds(outer, b.max) && holds(outer, p) ==> holds(
            outer,
            grown(b, p).min,
        ) && holds(outer, grown(b, p).max),
        numbered(grown(b, p).min) && numbered(grown(b, p).max),
{
}

/// The box of triangles holds their corners.
pub proof fn law_bounds_hold_corners(m: MeshView, list: Seq<u32>, k: int, i: int)
    requires
        0 <= i < k <= list.len(),
        forall|j: int|
            0 <= j < list.len() ==> {
                let t = m.tris[#[trigger] list[j] as int];
                numbered(m.verts[t.a as int]) && numbered(m.verts[t.b as int]) && numbered(
                    m.verts[t.c as int],
                )
            },
    ensures
        ({
            let t = m.tris[list[i] as int];
            let b = bounds_of(m, list, k);
            &&& holds(b, m.verts[t.a as int])
            &&& holds(b, m.verts[t.b as int])
            &&& holds(b, m.verts[t.c as int])
            &&& numbered(b.min) && numbered(b.max)
        }),
    decreases k,
{
    let t = m.tris[list[k - 1] as int];
    let (p, q, r) = (m.verts[t.a as int], m.verts[t.b as int], m.verts[t.c as int]);
    assert(numbered(p) && numbered(q) && numbered(r));
    if k > 1 {
        law_bounds_hold_corners(
            m,
            list,
            k - 1,
            if i < k - 1 {
                i
            } else {
                0
            },
        );
    } else {
        assert(bounds_of(m, list, 0) == crate::solid::no_bounds());
    }
    let b0 = bounds_of(m, list, k - 1);
    let b1 = grown(b0, p);
    let b2 = grown(b1, q);
    let s = m.tris[list[i] as int];
    let (u, v, w) = (m.verts[s.a as int], m.verts[s.b as int], m.verts[s.c as int]);
    law_grown_box(b0, p, u, b0);
    law_grown_box(b0, p, v, b0);
    law_grown_box(b0, p, w, b0);
    law_grown_box(b1, q, u, b0);
    law_grown_box(b1, q, v, b0);
    law_grown_box(b1, q, w, b0);
    law_grown_box(b1, q, p, b0);
    law_grown_box(b2, r, u, b0);
    law_grown_box(b2, r, v, b0);
    law_grown_box(b2, r, w, b0);
    law_grown_box(b2, r, p, b0);
    law_grown_box(b2, r, q, b0);
}

/// The box of the corners of a face holds them.
pub proof fn law_face_box_holds(pts: Seq<Point3>, k: int, i: int)
    requires
        0 <= i < k <= pts.len(),
        forall|j: int| 0 <= j < pts.len() ==> numbered(#[trigger] pts[j]),
    ensures
        holds(corner_box(pts, k), pts[i]),
        numbered(corner_box(pts, k).min) && numbered(corner_box(pts, k).max),
    decreases k,
{
    assert(numbered(pts[0]) && numbered(pts[k - 1]));
    if k > 1 {
        law_face_box_holds(
            pts,
            k - 1,
            if i < k - 1 {
                i
            } else {
                0
            },
        );
        law_grown_box(corner_box(pts, k - 1), pts[k - 1], pts[i], corner_box(pts, k - 1));
    }
}

/// The box of an outline holds its points and what it held before, and its sides are
/// coordinates of these.
pub proof fn law_outline_box(c: Seq<Point2>, start: Box2, k: int, i: int)
    requires
        0 <= k <= c.len(),
        forall|j: int| 0 <= j < c.len() ==> !nan((#[trigger] c[j]).x) && !nan(c[j].y),
        !nan(start.lo.x) && !nan(start.lo.y) && !nan(start.hi.x) && !nan(start.hi.y),
    ensures
        ({
            let b = ring_box(c, start, k);
            &&& !nan(b.lo.x) && !nan(b.lo.y) && !nan(b.hi.x) && !nan(b.hi.y)
            &&& !less(start.lo.x, b.lo.x) && !less(start.lo.y, b.lo.y)
            &&& !less(b.hi.x, start.hi.x) && !less(b.hi.y, start.hi.y)
            &&& 0 <= i < k ==> at_most(b.lo.x, c[i].x) && at_most(c[i].x, b.hi.x) && at_most(
                b.lo.y,
                c[i].y,
            ) && at_most(c[i].y, b.hi.y)
            &&& b.lo.x == start.lo.x || exists|j: int| 0 <= j < k && b.lo.x == (#[trigger] c[j]).x
            &&& b.hi.x == start.hi.x || exists|j: int| 0 <= j < k && b.hi.x == (#[trigger] c[j]).x
            &&& b.lo.y == start.lo.y || exists|j: int| 0 <= j < k && b.lo.y == (#[trigger] c[j]).y
            &&& b.hi.y == start.hi.y || exists|j: int| 0 <= j < k && b.hi.y == (#[trigger] c[j]).y
        }),
    decreases k,
{
    if k > 0 {
        law_outline_box(c, start, k - 1, i);
        assert(!nan(c[k - 1].x) && !nan(c[k - 1].y));
    }
}

// ---- hulls -------------------------------------------------------------------------------------

/// Every three points of the chain in a row turn left.
pub open spec fn turns_left(m: Reading, c: Seq<Point2>) -> bool {
    forall|i: int|
        0 <= i < c.len() - 2 ==> !at_most(turn_of(m, #[trigger] c[i], c[i + 1], c[i + 2]), ZERO)
}

proof fn lemma_bent_back(m: Reading, c: Seq<Point2>, p: Point2)
    requires
        turns_left(m, c),
    ensures
        bent_back(m, c, p).is_prefix_of(c),
        c.len() > 0 ==> bent_back(m, c, p).len() > 0 && bent_back(m, c, p)[0] == c[0],
        turns_left(m, bent_back(m, c, p).push(p)),
    decreases c.len(),
{
    let n = c.len() as int;
    if n >= 2 && at_most(turn_of(m, c[n - 2], c[n - 1], p), ZERO) {
        let d = c.drop_last();
        assert(turns_left(m, d)) by {
            assert forall|i: int| 0 <= i < d.len() - 2 implies !at_most(
                turn_of(m, #[trigger] d[i], d[i + 1], d[i + 2]),
                ZERO,
            ) by {
                assert(d[i] == c[i]);
            }
        }
        lemma_bent_back(m, d, p);
        let r = bent_back(m, c, p);
        assert(r == bent_back(m, d, p));
        assert(r =~= c.take(r.len() as int)) by {
            assert(r =~= d.take(r.len() as int));
        }
    } else {
        let r = c.push(p);
        assert forall|i: int| 0 <= i < r.len() - 2 implies !at_most(
            turn_of(m, #[trigger] r[i], r[i + 1], r[i + 2]),
            ZERO,
        ) by {
            if i < n - 2 {
                assert(r[i] == c[i]);
            }
        }
    }
}

/// One side of a hull starts at its first point, ends at its last, is made of its
/// points, and turns left at each.
pub proof fn law_hull_side_turns_left(m: Reading, v: Seq<Point2>, k: int, i: int)
    requires
        0 < k <= v.len(),
    ensures
        ({
            let c = chain_of(m, v, k);
            &&& c.len() > 0 && c[0] == v[0] && c.last() == v[k - 1]
            &&& turns_left(m, c)
            &&& 0 <= i < c.len() ==> exists|j: int| 0 <= j < k && c[i] == #[trigger] v[j]
        }),
    decreases k,
{
    if k > 1 {
        law_hull_side_turns_left(m, v, k - 1, i);
        let d = chain_of(m, v, k - 1);
        lemma_bent_back(m, d, v[k - 1]);
        let r = bent_back(m, d, v[k - 1]);
        let c = chain_of(m, v, k);
        assert(c == r.push(v[k - 1]));
        if 0 <= i < r.len() {
            assert(r[i] == d[i]);
            let j = choose|j: int| 0 <= j < k - 1 && d[i] == #[trigger] v[j];
            assert(c[i] == v[j]);
        } else if i == r.len() {
            assert(c[i] == v[k - 1]);
        }
    } else {
        let e = chain_of(m, v, 0);
        assert(e =~= Seq::empty());
        assert(bent_back(m, e, v[0]) =~= Seq::empty());
        assert(chain_of(m, v, 1) =~= seq![v[0]]);
        assert(v[0] == chain_of(m, v, 1)[0]);
    }
}

/// How far a point lies outside a face: with the area of the face it spans the volume
/// between the point and the face.
pub proof fn law_outside_by(m: Reading, n: Numbers, pts: Seq<Point3>, f: Triangle, p: Point3)
    requires
        exact(m, n),
        ({
            let a = pts[f.a as int];
            let x = cross_of(
                m,
                difference_of(m, pts[f.b as int], a),
                difference_of(m, pts[f.c as int], a),
            );
            n.divides((n.of)(greater(length_of(m, x), crate::faces::PICO)))
        }),
    ensures
        ({
            let a = pts[f.a as int];
            let (u, v) = (
                difference_of(m, pts[f.b as int], a),
                difference_of(m, pts[f.c as int], a),
            );
            let k = (n.of)(greater(length_of(m, cross_of(m, u, v)), crate::faces::PICO));
            n.same((n.of)(outside_by(m, pts, f, p)) * k, volume(n, u, v, difference_of(m, p, a)))
        }),
{
    let a = pts[f.a as int];
    let (u, v) = (difference_of(m, pts[f.b as int], a), difference_of(m, pts[f.c as int], a));
    let x = cross_of(m, u, v);
    let w = difference_of(m, p, a);
    let l = greater(length_of(m, x), crate::faces::PICO);
    lemma_own(m, n);
    law_cross(m, n, u, v, w);
    law_dot(m, n, x, w);
    let d = crate::vector::dot_of(m, x, w);
    lemma_same(n, (n.of)(d), dot3(n, x, w), volume(n, u, v, w));
    lemma_div(m, n, d, l, volume(n, u, v, w), (n.of)(l));
}

// ---- the normal of a face ----------------------------------------------------------------------

/// What the way along the first `k` edges sweeps over in a plane of two coordinates.
pub open spec fn swept_in(u: Seq<int>, v: Seq<int>, k: int) -> int
    decreases k,
{
    if k <= 0 {
        0
    } else {
        let j = after(k - 1, u.len() as int);
        swept_in(u, v, k - 1) + (u[k - 1] * v[j] - v[k - 1] * u[j])
    }
}

/// The coordinates of points along one axis.
pub open spec fn column(n: Numbers, pts: Seq<Point3>, axis: int) -> Seq<int> {
    pts.map_values(
        |p: Point3|
            if axis == 0 {
                (n.of)(p.x)
            } else if axis == 1 {
                (n.of)(p.y)
            } else {
                (n.of)(p.z)
            },
    )
}

proof fn lemma_gather_one(
    m: Reading,
    n: Numbers,
    sum: u64,
    s: int,
    p: u64,
    q: u64,
    pw: u64,
    qw: u64,
)
    requires
        exact(m, n),
        n.same((n.of)(sum), s),
    ensures
        n.same(
            (n.of)(
                m.at(
                    NumOp::Add,
                    sum,
                    m.at(NumOp::Mul, m.at(NumOp::Sub, p, q), m.at(NumOp::Add, pw, qw)),
                ),
            ),
            s + ((n.of)(p) - (n.of)(q)) * ((n.of)(pw) + (n.of)(qw)),
        ),
{
    let (a, b, c, d) = ((n.of)(p), (n.of)(q), (n.of)(pw), (n.of)(qw));
    lemma_own(m, n);
    lemma_sub(m, n, p, q, a, b);
    lemma_add(m, n, pw, qw, c, d);
    let (x, y) = (m.at(NumOp::Sub, p, q), m.at(NumOp::Add, pw, qw));
    lemma_mul(m, n, x, y, a - b, c + d);
    lemma_add(m, n, sum, m.at(NumOp::Mul, x, y), s, (a - b) * (c + d));
}

/// The step of a sum over edges: what the edge sweeps over, and what its ends differ
/// by.
proof fn lemma_gather_step(a: int, b: int, c: int, d: int)
    ensures
        (a - b) * (c + d) == (a * d - c * b) + (a * c - b * d),
{
    assert((a - b) * (c + d) == (a * d - c * b) + (a * c - b * d)) by (nonlinear_arith);
}

proof fn lemma_gathered(m: Reading, n: Numbers, pts: Seq<Point3>, k: int)
    requires
        exact(m, n),
        0 <= k <= pts.len(),
        pts.len() > 0,
    ensures
        ({
            let s = gathered_normal(m, pts, k);
            let (x, y, z) = (column(n, pts, 0), column(n, pts, 1), column(n, pts, 2));
            let j = if k < pts.len() {
                k
            } else {
                0
            };
            &&& n.same((n.of)(s.x), swept_in(y, z, k) + (y[0] * z[0] - y[j] * z[j]))
            &&& n.same((n.of)(s.y), swept_in(z, x, k) + (z[0] * x[0] - z[j] * x[j]))
            &&& n.same((n.of)(s.z), swept_in(x, y, k) + (x[0] * y[0] - x[j] * y[j]))
        }),
    decreases k,
{
    lemma_own(m, n);
    let (x, y, z) = (column(n, pts, 0), column(n, pts, 1), column(n, pts, 2));
    if k > 0 {
        lemma_gathered(m, n, pts, k - 1);
        let i = k - 1;
        let j = after(i, pts.len() as int);
        let (p, q) = (pts[i], pts[j]);
        let s = gathered_normal(m, pts, i);
        let sx = swept_in(y, z, i) + (y[0] * z[0] - y[i] * z[i]);
        let sy = swept_in(z, x, i) + (z[0] * x[0] - z[i] * x[i]);
        let sz = swept_in(x, y, i) + (x[0] * y[0] - x[i] * y[i]);
        lemma_gather_one(m, n, s.x, sx, p.y, q.y, p.z, q.z);
        lemma_gather_one(m, n, s.y, sy, p.z, q.z, p.x, q.x);
        lemma_gather_one(m, n, s.z, sz, p.x, q.x, p.y, q.y);
        lemma_gather_step(y[i], y[j], z[i], z[j]);
        lemma_gather_step(z[i], z[j], x[i], x[j]);
        lemma_gather_step(x[i], x[j], y[i], y[j]);
    }
}

/// The normal of a face is, along each axis, what its rim sweeps over seen from that
/// axis: it points to where the rim runs counter-clockwise, and is twice as long as
/// the face is large.
pub proof fn law_face_normal(m: Reading, n: Numbers, pts: Seq<Point3>)
    requires
        exact(m, n),
        pts.len() > 0,
    ensures
        ({
            let s = gathered_normal(m, pts, pts.len() as int);
            let (x, y, z) = (column(n, pts, 0), column(n, pts, 1), column(n, pts, 2));
            let k = pts.len() as int;
            &&& n.same((n.of)(s.x), swept_in(y, z, k))
            &&& n.same((n.of)(s.y), swept_in(z, x, k))
            &&& n.same((n.of)(s.z), swept_in(x, y, k))
        }),
{
    lemma_gathered(m, n, pts, pts.len() as int);
}

// ---- laying a face flat ------------------------------------------------------------------------

/// The axis that is dropped is the one along which the normal is longest, so that the
/// face is seen as large as possible.
pub proof fn law_steepest(normal: Point3, axis: int)
    requires
        numbered(normal),
        0 <= axis < 3,
    ensures
        !less(
            size_of(coordinate(normal, steepest(normal))),
            size_of(coordinate(normal, axis)),
        ),
        0 <= steepest(normal) < 3,
{
}

/// Dropping an axis drops nothing else.
pub proof fn law_dropped(p: Point3, q: Point3, axis: int)
    requires
        0 <= axis < 3,
        dropped(p, axis) == dropped(q, axis),
        coordinate(p, axis) == coordinate(q, axis),
    ensures
        p == q,
{
}

/// A face that is laid flat starts at the origin, and keeps how its corners lie to each
/// other.
pub proof fn law_flattened(m: Reading, n: Numbers, pts: Seq<Point3>, axis: int, i: int)
    requires
        exact(m, n),
        0 <= i < pts.len(),
    ensures
        ({
            let f = flattened(m, pts, axis);
            let (p, o) = (dropped(pts[i], axis), dropped(pts[0], axis));
            &&& f.len() == pts.len()
            &&& n.same((n.of)(f[i].x), (n.of)(p.x) - (n.of)(o.x))
            &&& n.same((n.of)(f[i].y), (n.of)(p.y) - (n.of)(o.y))
        }),
{
    let (p, o) = (dropped(pts[i], axis), dropped(pts[0], axis));
    lemma_own(m, n);
    lemma_sub(m, n, p.x, o.x, (n.of)(p.x), (n.of)(o.x));
    lemma_sub(m, n, p.y, o.y, (n.of)(p.y), (n.of)(o.y));
}

/// No corner lies farther off the plane than is said.
pub proof fn law_off_plane(m: Reading, pts: Seq<Point3>, unit: Point3, k: int, i: int)
    requires
        0 <= i < k <= pts.len(),
    ensures
        !nan(off_plane(m, pts, unit, k)),
        !less(
            off_plane(m, pts, unit, k),
            size_of(crate::vector::dot_of(m, difference_of(m, pts[i], pts[0]), unit)),
        ),
    decreases k,
{
    if k > 1 {
        law_off_plane(
            m,
            pts,
            unit,
            k - 1,
            if i < k - 1 {
                i
            } else {
                0
            },
        );
    } else {
        assert(off_plane(m, pts, unit, 0) == ZERO);
    }
}

/// The volume between a face and a point.
pub open spec fn volume_over(m: Reading, n: Numbers, pts: Seq<Point3>, f: Triangle, p: Point3) -> int {
    let a = pts[f.a as int];
    volume(
        n,
        difference_of(m, pts[f.b as int], a),
        difference_of(m, pts[f.c as int], a),
        difference_of(m, p, a),
    )
}

/// A face that has the inner point outside is turned round, and has it inside after
/// that; any other face stays.
pub proof fn law_face_turned_outward(
    m: Reading,
    n: Numbers,
    pts: Seq<Point3>,
    f: Triangle,
    inner: Point3,
)
    ensures
        less(ZERO, outside_by(m, pts, f, inner)) ==> volume_over(
            m,
            n,
            pts,
            oriented(m, pts, f, inner),
            inner,
        ) == -volume_over(m, n, pts, f, inner),
        !less(ZERO, outside_by(m, pts, f, inner)) ==> oriented(m, pts, f, inner) == f,
{
    let a = pts[f.a as int];
    lemma_volume_swap(
        n,
        difference_of(m, pts[f.b as int], a),
        difference_of(m, pts[f.c as int], a),
        difference_of(m, inner, a),
    );
}

} // verus!
