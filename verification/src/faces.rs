//! Polyhedra from points and polygonal faces.

use crate::mesh::{Mesh, Point3, Triangle};
use crate::node::Point2;
use crate::num::{
    absolute, at_most, finite, is_at_most, is_finite, is_less, less, Arithmetic, Calc, NumOp,
    Reading, ZERO,
};
use crate::planar::{
    after, area_of, convex_polygon, cross2, is_convex, is_simple, next_of, signed_area2,
    simple_polygon, size_of, turn_of,
};
use crate::solid::{greater, grow, grown, max_of, Bounds3};
use crate::vector::{
    cross, cross_of, difference_of, dot, dot_of, length_of, norm, origin, sub_points,
};
use vstd::prelude::*;

verus! {

/// 1e-12.
pub const PICO: u64 = 0x3d71_9799_812d_ea11;

/// 1e-9.
pub const NANO: u64 = 0x3e11_2e0b_e826_d695;

/// The distance from 1 to the next number.
pub const EPSILON: u64 = 0x3cb0_0000_0000_0000;

// ---- the corners of a face ------------------------------------------------------------------

/// The first `n` corners without repeats of a neighbour.
pub open spec fn without_stutter(face: Seq<u32>, n: int) -> Seq<u32>
    decreases n,
{
    if n <= 0 {
        Seq::empty()
    } else {
        let done = without_stutter(face, n - 1);
        if done.len() > 0 && done.last() == face[n - 1] {
            done
        } else {
            done.push(face[n - 1])
        }
    }
}

/// The corners of a face: no neighbour repeated, and not closed explicitly.
pub open spec fn loop_of(face: Seq<u32>) -> Seq<u32> {
    let ids = without_stutter(face, face.len() as int);
    if ids.len() > 1 && ids[0] == ids.last() {
        ids.drop_last()
    } else {
        ids
    }
}

pub open spec fn finite_point(p: Point3) -> bool {
    finite(p.x) && finite(p.y) && finite(p.z)
}

/// The corners are points there are, at least three, none twice, all finite.
pub open spec fn usable(points: Seq<Point3>, face: Seq<u32>) -> bool {
    let ids = loop_of(face);
    &&& forall|i: int| 0 <= i < face.len() ==> (#[trigger] face[i]) < points.len()
    &&& ids.len() >= 3
    &&& ids.no_duplicates()
    &&& forall|i: int| 0 <= i < ids.len() ==> finite_point(points[#[trigger] ids[i] as int])
}

proof fn lemma_loop_within(face: Seq<u32>, n: int, k: nat)
    requires
        0 <= n <= face.len(),
        forall|i: int| 0 <= i < face.len() ==> (#[trigger] face[i]) < k,
    ensures
        forall|i: int|
            0 <= i < without_stutter(face, n).len() ==> (#[trigger] without_stutter(face, n)[i])
                < k,
    decreases n,
{
    if n > 0 {
        lemma_loop_within(face, n - 1, k);
        let done = without_stutter(face, n - 1);
        assert forall|i: int| 0 <= i < without_stutter(face, n).len() implies (
        #[trigger] without_stutter(face, n)[i]) < k by {
            if i < done.len() {
                assert(done[i] < k);
            } else {
                assert(face[n - 1] < k);
            }
        }
    }
}

/// The corners of a usable face.
pub fn face_loop(points: &Vec<Point3>, face: &Vec<u32>) -> (r: Option<Vec<u32>>)
    ensures
        match r {
            Some(ids) => usable(points@, face@) && ids@ == loop_of(face@) && forall|i: int|
                0 <= i < ids@.len() ==> (#[trigger] ids@[i]) < points@.len(),
            None => !usable(points@, face@),
        },
{
    let mut ids: Vec<u32> = Vec::new();
    let mut i: usize = 0;
    while i < face.len()
        invariant
            i <= face@.len(),
            ids@ == without_stutter(face@, i as int),
            forall|k: int| 0 <= k < i ==> (#[trigger] face@[k]) < points@.len(),
        decreases face.len() - i,
    {
        let id: u32 = face[i];
        if id as usize >= points.len() {
            return None;
        }
        if ids.len() == 0 || ids[ids.len() - 1] != id {
            ids.push(id);
        }
        i = i + 1;
    }
    proof {
        lemma_loop_within(face@, face@.len() as int, points@.len());
    }
    let ghost all = ids@;
    if ids.len() > 1 && ids[0] == ids[ids.len() - 1] {
        ids.pop();
        assert(ids@ =~= all.drop_last());
    }
    assert(ids@ == loop_of(face@));
    if ids.len() < 3 {
        return None;
    }
    let mut i: usize = 0;
    while i < ids.len()
        invariant
            i <= ids@.len(),
            ids@ == loop_of(face@),
            forall|k: int| 0 <= k < ids@.len() ==> (#[trigger] ids@[k]) < points@.len(),
            forall|a: int, b: int| 0 <= a < b < i ==> ids@[a] != ids@[b],
            forall|k: int| 0 <= k < i ==> finite_point(points@[#[trigger] ids@[k] as int]),
        decreases ids.len() - i,
    {
        let mut j: usize = 0;
        while j < i
            invariant
                j <= i < ids@.len(),
                ids@ == loop_of(face@),
                forall|a: int| 0 <= a < j ==> ids@[a] != ids@[i as int],
            decreases i - j,
        {
            if ids[j] == ids[i] {
                assert(!loop_of(face@).no_duplicates());
                return None;
            }
            j = j + 1;
        }
        let p = points[ids[i] as usize];
        if !is_finite(p.x) || !is_finite(p.y) || !is_finite(p.z) {
            assert(!finite_point(points@[ids@[i as int] as int]));
            return None;
        }
        i = i + 1;
    }
    Some(ids)
}

// ---- the plane of a face ----------------------------------------------------------------------

/// The box of the first `n` corners.
pub open spec fn corner_box(pts: Seq<Point3>, n: int) -> Bounds3
    decreases n,
{
    if n <= 1 {
        Bounds3 { min: pts[0], max: pts[0] }
    } else {
        grown(corner_box(pts, n - 1), pts[n - 1])
    }
}

/// The largest extent of the corners along an axis.
pub open spec fn extent_of(m: Reading, pts: Seq<Point3>) -> u64 {
    let b = corner_box(pts, pts.len() as int);
    let d = difference_of(m, b.max, b.min);
    greater(greater(greater(ZERO, d.x), d.y), d.z)
}

/// The normal gathered over the first `n` edges; its direction is the winding.
pub open spec fn gathered_normal(m: Reading, pts: Seq<Point3>, n: int) -> Point3
    decreases n,
{
    if n <= 0 {
        origin()
    } else {
        let p = pts[n - 1];
        let q = pts[after(n - 1, pts.len() as int)];
        let sum = gathered_normal(m, pts, n - 1);
        Point3 {
            x: m.at(
                NumOp::Add,
                sum.x,
                m.at(NumOp::Mul, m.at(NumOp::Sub, p.y, q.y), m.at(NumOp::Add, p.z, q.z)),
            ),
            y: m.at(
                NumOp::Add,
                sum.y,
                m.at(NumOp::Mul, m.at(NumOp::Sub, p.z, q.z), m.at(NumOp::Add, p.x, q.x)),
            ),
            z: m.at(
                NumOp::Add,
                sum.z,
                m.at(NumOp::Mul, m.at(NumOp::Sub, p.x, q.x), m.at(NumOp::Add, p.y, q.y)),
            ),
        }
    }
}

/// How far the first `n` corners are from the plane through the first one.
pub open spec fn off_plane(m: Reading, pts: Seq<Point3>, unit: Point3, n: int) -> u64
    decreases n,
{
    if n <= 0 {
        ZERO
    } else {
        greater(
            off_plane(m, pts, unit, n - 1),
            size_of(dot_of(m, difference_of(m, pts[n - 1], pts[0]), unit)),
        )
    }
}

/// The axis that the normal follows most: 0, 1 or 2.
pub open spec fn steepest(normal: Point3) -> int {
    if at_most(size_of(normal.y), size_of(normal.x)) && at_most(
        size_of(normal.z),
        size_of(normal.x),
    ) {
        0
    } else if at_most(size_of(normal.z), size_of(normal.y)) {
        1
    } else {
        2
    }
}

/// A point without one coordinate.
pub open spec fn dropped(p: Point3, axis: int) -> Point2 {
    if axis == 0 {
        Point2 { x: p.y, y: p.z }
    } else if axis == 1 {
        Point2 { x: p.x, y: p.z }
    } else {
        Point2 { x: p.x, y: p.y }
    }
}

/// The corners in the plane, seen from the first one.
pub open spec fn flattened(m: Reading, pts: Seq<Point3>, axis: int) -> Seq<Point2> {
    let o = dropped(pts[0], axis);
    Seq::new(
        pts.len(),
        |i: int|
            {
                let p = dropped(pts[i], axis);
                Point2 { x: m.at(NumOp::Sub, p.x, o.x), y: m.at(NumOp::Sub, p.y, o.y) }
            },
    )
}

/// The corners of a face as points.
pub open spec fn corners_of(points: Seq<Point3>, ids: Seq<u32>) -> Seq<Point3> {
    Seq::new(ids.len(), |i: int| points[ids[i] as int])
}

/// What is known of a face before it is cut up.
pub ghost struct FaceView {
    pub ids: Seq<u32>,
    pub area_eps: u64,
    pub normal: Point3,
    pub outline: Seq<Point2>,
    pub area: u64,
}

/// What is known of a face with these corners, where it is one: it has an
/// extent and an area, lies in a plane if it has more than four corners, and its
/// outline is simple.
pub open spec fn laid_flat(m: Reading, points: Seq<Point3>, ids: Seq<u32>) -> Option<FaceView> {
    let pts = corners_of(points, ids);
    let extent = extent_of(m, pts);
    let area_eps = m.at(NumOp::Mul, m.at(NumOp::Mul, extent, extent), PICO);
    let normal = gathered_normal(m, pts, pts.len() as int);
    let length = length_of(m, normal);
    let unit = Point3 {
        x: m.at(NumOp::Div, normal.x, length),
        y: m.at(NumOp::Div, normal.y, length),
        z: m.at(NumOp::Div, normal.z, length),
    };
    let plane_eps = m.at(NumOp::Add, m.at(NumOp::Mul, extent, NANO), PICO);
    let outline = flattened(m, pts, steepest(normal));
    let area = size_of(area_of(m, outline, outline.len() as int));
    if !finite(extent) || at_most(extent, EPSILON) {
        None
    } else if !finite(length) || at_most(length, area_eps) {
        None
    } else if pts.len() > 4 && less(plane_eps, off_plane(m, pts, unit, pts.len() as int)) {
        None
    } else if at_most(area, area_eps) || !is_simple(
        m,
        outline,
        m.at(NumOp::Mul, extent, PICO),
        area_eps,
    ) {
        None
    } else {
        Some(FaceView { ids, area_eps, normal, outline, area })
    }
}

/// A face before it is cut up.
pub struct Face {
    pub ids: Vec<u32>,
    pub area_eps: u64,
    pub normal: Point3,
    pub outline: Vec<Point2>,
    pub area: u64,
}

impl View for Face {
    type V = FaceView;

    open spec fn view(&self) -> FaceView {
        FaceView {
            ids: self.ids@,
            area_eps: self.area_eps,
            normal: self.normal,
            outline: self.outline@,
            area: self.area,
        }
    }
}

fn extent<A: Arithmetic>(calc: &mut Calc<A>, pts: &Vec<Point3>) -> (r: u64)
    requires
        pts@.len() > 0,
    ensures
        forall|m: Reading| #[trigger]
            final(calc).agrees(m) ==> old(calc).agrees(m) && r == extent_of(m, pts@),
{
    let mut b = Bounds3 { min: pts[0], max: pts[0] };
    let mut i: usize = 1;
    while i < pts.len()
        invariant
            1 <= i <= pts@.len(),
            b == corner_box(pts@, i as int),
        decreases pts.len() - i,
    {
        b = grow(b, pts[i]);
        i = i + 1;
    }
    let d = sub_points(calc, b.max, b.min);
    max_of(max_of(max_of(ZERO, d.x), d.y), d.z)
}

fn newell_normal<A: Arithmetic>(calc: &mut Calc<A>, pts: &Vec<Point3>) -> (r: Point3)
    ensures
        forall|m: Reading| #[trigger]
            final(calc).agrees(m) ==> old(calc).agrees(m) && r == gathered_normal(
                m,
                pts@,
                pts@.len() as int,
            ),
{
    let n: usize = pts.len();
    let mut sum = Point3 { x: ZERO, y: ZERO, z: ZERO };
    let mut i: usize = 0;
    while i < n
        invariant
            i <= n,
            n == pts@.len(),
            forall|m: Reading| #[trigger]
                calc.agrees(m) ==> old(calc).agrees(m) && sum == gathered_normal(
                    m,
                    pts@,
                    i as int,
                ),
        decreases n - i,
    {
        let p = pts[i];
        let q = pts[next_of(i, n)];
        let yz: u64 = edge_share(calc, p.y, q.y, p.z, q.z);
        let zx: u64 = edge_share(calc, p.z, q.z, p.x, q.x);
        let xy: u64 = edge_share(calc, p.x, q.x, p.y, q.y);
        let x: u64 = calc.apply(NumOp::Add, sum.x, yz);
        let y: u64 = calc.apply(NumOp::Add, sum.y, zx);
        let z: u64 = calc.apply(NumOp::Add, sum.z, xy);
        sum = Point3 { x, y, z };
        i = i + 1;
    }
    sum
}

fn edge_share<A: Arithmetic>(calc: &mut Calc<A>, p: u64, q: u64, s: u64, t: u64) -> (r: u64)
    ensures
        forall|m: Reading| #[trigger]
            final(calc).agrees(m) ==> old(calc).agrees(m) && r == m.at(
                NumOp::Mul,
                m.at(NumOp::Sub, p, q),
                m.at(NumOp::Add, s, t),
            ),
{
    let d: u64 = calc.apply(NumOp::Sub, p, q);
    let e: u64 = calc.apply(NumOp::Add, s, t);
    calc.apply(NumOp::Mul, d, e)
}

fn plane_distance<A: Arithmetic>(calc: &mut Calc<A>, pts: &Vec<Point3>, unit: Point3) -> (r: u64)
    ensures
        forall|m: Reading| #[trigger]
            final(calc).agrees(m) ==> old(calc).agrees(m) && r == off_plane(
                m,
                pts@,
                unit,
                pts@.len() as int,
            ),
{
    let mut far: u64 = ZERO;
    let mut i: usize = 0;
    while i < pts.len()
        invariant
            i <= pts@.len(),
            forall|m: Reading| #[trigger]
                calc.agrees(m) ==> old(calc).agrees(m) && far == off_plane(
                    m,
                    pts@,
                    unit,
                    i as int,
                ),
        decreases pts.len() - i,
    {
        let d = sub_points(calc, pts[i], pts[0]);
        let s: u64 = dot(calc, d, unit);
        far = max_of(far, absolute(s));
        i = i + 1;
    }
    far
}

fn drop_axis(normal: Point3) -> (r: u8)
    ensures
        r == steepest(normal),
{
    let x: u64 = absolute(normal.x);
    let y: u64 = absolute(normal.y);
    let z: u64 = absolute(normal.z);
    if is_at_most(y, x) && is_at_most(z, x) {
        0
    } else if is_at_most(z, y) {
        1
    } else {
        2
    }
}

fn drop_coordinate(p: Point3, axis: u8) -> (r: Point2)
    ensures
        r == dropped(p, axis as int),
{
    if axis == 0 {
        Point2 { x: p.y, y: p.z }
    } else if axis == 1 {
        Point2 { x: p.x, y: p.z }
    } else {
        Point2 { x: p.x, y: p.y }
    }
}

fn flatten<A: Arithmetic>(calc: &mut Calc<A>, pts: &Vec<Point3>, axis: u8) -> (r: Vec<Point2>)
    requires
        pts@.len() > 0,
    ensures
        r@.len() == pts@.len(),
        forall|m: Reading| #[trigger]
            final(calc).agrees(m) ==> old(calc).agrees(m) && r@ == flattened(
                m,
                pts@,
                axis as int,
            ),
{
    let o = drop_coordinate(pts[0], axis);
    let mut out: Vec<Point2> = Vec::new();
    let mut i: usize = 0;
    while i < pts.len()
        invariant
            i <= pts@.len(),
            pts@.len() > 0,
            o == dropped(pts@[0], axis as int),
            out@.len() == i,
            forall|m: Reading| #[trigger]
                calc.agrees(m) ==> old(calc).agrees(m) && forall|k: int|
                    0 <= k < i ==> #[trigger] out@[k] == flattened(m, pts@, axis as int)[k],
        decreases pts.len() - i,
    {
        let p = drop_coordinate(pts[i], axis);
        let x: u64 = calc.apply(NumOp::Sub, p.x, o.x);
        let y: u64 = calc.apply(NumOp::Sub, p.y, o.y);
        out.push(Point2 { x, y });
        i = i + 1;
    }
    assert forall|m: Reading| #[trigger] calc.agrees(m) implies out@ == flattened(
        m,
        pts@,
        axis as int,
    ) by {
        assert(out@ =~= flattened(m, pts@, axis as int));
    }
    out
}

/// Lays a face flat, unless it is degenerate.
pub fn lay_flat<A: Arithmetic>(calc: &mut Calc<A>, points: &Vec<Point3>, ids: Vec<u32>) -> (r:
    Option<Face>)
    requires
        ids@.len() > 0,
        forall|i: int| 0 <= i < ids@.len() ==> (#[trigger] ids@[i]) < points@.len(),
    ensures
        forall|m: Reading| #[trigger]
            final(calc).agrees(m) ==> old(calc).agrees(m) && laid_flat(m, points@, ids@)
                == match r {
                Some(f) => Some(f@),
                None => None,
            },
        r matches Some(f) ==> f.ids == ids && f.outline@.len() == ids@.len(),
{
    let mut pts: Vec<Point3> = Vec::new();
    for i in 0..ids.len()
        invariant
            pts@ =~= corners_of(points@, ids@).take(i as int),
            forall|k: int| 0 <= k < ids@.len() ==> (#[trigger] ids@[k]) < points@.len(),
    {
        pts.push(points[ids[i] as usize]);
    }
    assert(pts@ =~= corners_of(points@, ids@));
    let size: u64 = extent(calc, &pts);
    if !is_finite(size) || is_at_most(size, EPSILON) {
        return None;
    }
    let square: u64 = calc.apply(NumOp::Mul, size, size);
    let area_eps: u64 = calc.apply(NumOp::Mul, square, PICO);
    let normal = newell_normal(calc, &pts);
    let length: u64 = norm(calc, normal);
    if !is_finite(length) || is_at_most(length, area_eps) {
        return None;
    }
    let x: u64 = calc.apply(NumOp::Div, normal.x, length);
    let y: u64 = calc.apply(NumOp::Div, normal.y, length);
    let z: u64 = calc.apply(NumOp::Div, normal.z, length);
    let unit = Point3 { x, y, z };
    let wide: u64 = calc.apply(NumOp::Mul, size, NANO);
    let plane_eps: u64 = calc.apply(NumOp::Add, wide, PICO);
    let far: u64 = plane_distance(calc, &pts, unit);
    if pts.len() > 4 && is_less(plane_eps, far) {
        return None;
    }
    let axis: u8 = drop_axis(normal);
    let outline = flatten(calc, &pts, axis);
    let signed: u64 = signed_area2(calc, &outline);
    let area: u64 = absolute(signed);
    if is_at_most(area, area_eps) {
        return None;
    }
    let linear: u64 = calc.apply(NumOp::Mul, size, PICO);
    let simple: bool = simple_polygon(calc, &outline, linear, area_eps);
    proof {
        assert forall|m: Reading| #[trigger] calc.agrees(m) implies outline@ == flattened(
            m,
            pts@,
            axis as int,
        ) by {}
    }
    if !simple {
        return None;
    }
    Some(Face { ids, area_eps, normal, outline, area })
}

// ---- cutting a face into triangles --------------------------------------------------------------

/// The area of a triangle, twice.
pub open spec fn span_of(m: Reading, points: Seq<Point3>, t: Triangle) -> Point3 {
    let a = points[t.a as int];
    cross_of(
        m,
        difference_of(m, points[t.b as int], a),
        difference_of(m, points[t.c as int], a),
    )
}

/// The `k`-th triangle of the fan at the first corner, turned outward.
pub open spec fn fan_triangle(ids: Seq<u32>, k: int) -> Triangle {
    Triangle { a: ids[0], b: ids[k + 1], c: ids[k] }
}

/// The triangles of the fan before the `n`-th that have an area.
pub open spec fn fan(m: Reading, points: Seq<Point3>, f: FaceView, n: int) -> Seq<Triangle>
    decreases n,
{
    if n <= 1 {
        Seq::empty()
    } else {
        let t = fan_triangle(f.ids, n - 1);
        let done = fan(m, points, f, n - 1);
        if less(f.area_eps, length_of(m, span_of(m, points, t))) {
            done.push(t)
        } else {
            done
        }
    }
}

/// The `k`-th triangle that ear cutting gave, against the normal of the face.
pub open spec fn ear_triangle(
    m: Reading,
    points: Seq<Point3>,
    f: FaceView,
    ears: Seq<usize>,
    k: int,
) -> Triangle {
    let a = f.ids[ears[3 * k] as int];
    let b = f.ids[ears[3 * k + 1] as int];
    let c = f.ids[ears[3 * k + 2] as int];
    if less(ZERO, dot_of(m, span_of(m, points, (Triangle { a, b, c })), f.normal)) {
        Triangle { a, b: c, c: b }
    } else {
        Triangle { a, b, c }
    }
}

/// The corners of the `k`-th ear are corners of the face, and it has an area.
pub open spec fn ear_fine(
    m: Reading,
    points: Seq<Point3>,
    f: FaceView,
    ears: Seq<usize>,
    k: int,
) -> bool {
    &&& ears[3 * k] < f.ids.len()
    &&& ears[3 * k + 1] < f.ids.len()
    &&& ears[3 * k + 2] < f.ids.len()
    &&& !at_most(
        length_of(
            m,
            span_of(
                m,
                points,
                (Triangle {
                    a: f.ids[ears[3 * k] as int],
                    b: f.ids[ears[3 * k + 1] as int],
                    c: f.ids[ears[3 * k + 2] as int],
                }),
            ),
        ),
        f.area_eps,
    )
}

/// The area that the first `n` ears cover, twice.
pub open spec fn covered(m: Reading, f: FaceView, ears: Seq<usize>, n: int) -> u64
    decreases n,
{
    if n <= 0 {
        ZERO
    } else {
        m.at(
            NumOp::Add,
            covered(m, f, ears, n - 1),
            size_of(
                turn_of(
                    m,
                    f.outline[ears[3 * (n - 1)] as int],
                    f.outline[ears[3 * (n - 1) + 1] as int],
                    f.outline[ears[3 * (n - 1) + 2] as int],
                ),
            ),
        )
    }
}

/// The first `n` ears are fine.
pub open spec fn ears_fine(
    m: Reading,
    points: Seq<Point3>,
    f: FaceView,
    ears: Seq<usize>,
    n: int,
) -> bool {
    forall|k: int| 0 <= k < n ==> #[trigger] ear_fine(m, points, f, ears, k)
}

/// The triangles of a face whose ears were cut: all of them, or none where an
/// ear is not fine or the ears do not cover the face.
pub open spec fn eared(m: Reading, points: Seq<Point3>, f: FaceView, ears: Seq<usize>) -> Seq<
    Triangle,
> {
    let n = ears.len() / 3;
    let eps = m.at(NumOp::Add, m.at(NumOp::Mul, f.area, NANO), f.area_eps);
    if ears.len() % 3 != 0 || !ears_fine(m, points, f, ears, n as int) || less(
        eps,
        size_of(m.at(NumOp::Sub, covered(m, f, ears, n as int), f.area)),
    ) {
        Seq::empty()
    } else {
        Seq::new(n, |k: int| ear_triangle(m, points, f, ears, k))
    }
}

/// The corners of a face are points there are.
pub open spec fn face_within(f: FaceView, n: nat) -> bool {
    &&& f.ids.len() >= 3
    &&& f.outline.len() == f.ids.len()
    &&& forall|i: int| 0 <= i < f.ids.len() ==> (#[trigger] f.ids[i]) < n
}

/// All triangles are within the first `n` points.
pub open spec fn tris_within(tris: Seq<Triangle>, n: nat) -> bool {
    forall|i: int| 0 <= i < tris.len() ==> (#[trigger] tris[i]).within(n)
}

fn triangle_span<A: Arithmetic>(calc: &mut Calc<A>, points: &Vec<Point3>, t: Triangle) -> (r: Point3)
    requires
        t.within(points@.len()),
    ensures
        forall|m: Reading| #[trigger]
            final(calc).agrees(m) ==> old(calc).agrees(m) && r == span_of(m, points@, t),
{
    let a = points[t.a as usize];
    let u = sub_points(calc, points[t.b as usize], a);
    let v = sub_points(calc, points[t.c as usize], a);
    cross(calc, u, v)
}

/// Cuts a face into the fan at its first corner.
pub fn fan_face<A: Arithmetic>(calc: &mut Calc<A>, points: &Vec<Point3>, f: &Face) -> (r: Vec<
    Triangle,
>)
    requires
        face_within(f@, points@.len()),
    ensures
        tris_within(r@, points@.len()),
        forall|m: Reading| #[trigger]
            final(calc).agrees(m) ==> old(calc).agrees(m) && r@ == fan(
                m,
                points@,
                f@,
                f@.ids.len() - 1,
            ),
{
    let mut out: Vec<Triangle> = Vec::new();
    let n: usize = f.ids.len();
    let mut k: usize = 1;
    while k < n - 1
        invariant
            1 <= k <= n - 1,
            n == f@.ids.len(),
            face_within(f@, points@.len()),
            tris_within(out@, points@.len()),
            forall|m: Reading| #[trigger]
                calc.agrees(m) ==> old(calc).agrees(m) && out@ == fan(m, points@, f@, k as int),
        decreases n - k,
    {
        let t = Triangle { a: f.ids[0], b: f.ids[k + 1], c: f.ids[k] };
        assert(t.within(points@.len())) by {
            assert(f@.ids[0] < points@.len());
            assert(f@.ids[k + 1] < points@.len());
            assert(f@.ids[k as int] < points@.len());
        }
        let span = triangle_span(calc, points, t);
        let size: u64 = norm(calc, span);
        if is_less(f.area_eps, size) {
            out.push(t);
        }
        k = k + 1;
    }
    out
}

/// Takes the triangles that ear cutting gave for a face.
pub fn accept_ears<A: Arithmetic>(
    calc: &mut Calc<A>,
    points: &Vec<Point3>,
    f: &Face,
    ears: &Vec<usize>,
) -> (r: Vec<Triangle>)
    requires
        face_within(f@, points@.len()),
    ensures
        tris_within(r@, points@.len()),
        forall|m: Reading| #[trigger]
            final(calc).agrees(m) ==> old(calc).agrees(m) && r@ == eared(m, points@, f@, ears@),
{
    if ears.len() % 3 != 0 {
        return Vec::new();
    }
    let total: usize = ears.len();
    let n: usize = total / 3;
    let mut sum: u64 = ZERO;
    let mut out: Vec<Triangle> = Vec::new();
    let mut k: usize = 0;
    while k < n
        invariant
            k <= n,
            ears@.len() == 3 * n,
            total == ears@.len(),
            face_within(f@, points@.len()),
            out@.len() == k,
            tris_within(out@, points@.len()),
            forall|m: Reading| #[trigger]
                calc.agrees(m) ==> old(calc).agrees(m) && sum == covered(m, f@, ears@, k as int)
                    && ears_fine(m, points@, f@, ears@, k as int) && forall|i: int|
                    0 <= i < k ==> #[trigger] out@[i] == ear_triangle(m, points@, f@, ears@, i),
        decreases n - k,
    {
        assert(3 * k + 2 < total);
        let e0: usize = ears[3 * k];
        let e1: usize = ears[3 * k + 1];
        let e2: usize = ears[3 * k + 2];
        let count: usize = f.ids.len();
        if e0 >= count || e1 >= count || e2 >= count {
            proof {
                assert forall|m: Reading| #[trigger] calc.agrees(m) implies Seq::<
                    Triangle,
                >::empty() == eared(m, points@, f@, ears@) by {
                    assert(!ear_fine(m, points@, f@, ears@, k as int));
                }
            }
            return Vec::new();
        }
        let turn: u64 = cross2(calc, f.outline[e0], f.outline[e1], f.outline[e2]);
        sum = calc.apply(NumOp::Add, sum, absolute(turn));
        let t = Triangle { a: f.ids[e0], b: f.ids[e1], c: f.ids[e2] };
        assert(t.within(points@.len())) by {
            assert(f@.ids[e0 as int] < points@.len());
            assert(f@.ids[e1 as int] < points@.len());
            assert(f@.ids[e2 as int] < points@.len());
        }
        let span = triangle_span(calc, points, t);
        let size: u64 = norm(calc, span);
        if is_at_most(size, f.area_eps) {
            proof {
                assert forall|m: Reading| #[trigger] calc.agrees(m) implies Seq::<
                    Triangle,
                >::empty() == eared(m, points@, f@, ears@) by {
                    assert(!ear_fine(m, points@, f@, ears@, k as int));
                }
            }
            return Vec::new();
        }
        let facing: u64 = dot(calc, span, f.normal);
        let one = if is_less(ZERO, facing) {
            Triangle { a: t.a, b: t.c, c: t.b }
        } else {
            t
        };
        let ghost held = out@;
        out.push(one);
        proof {
            assert forall|m: Reading| #[trigger] calc.agrees(m) implies forall|i: int|
                0 <= i < k + 1 ==> #[trigger] out@[i] == ear_triangle(m, points@, f@, ears@, i) by {
                assert(out@[k as int] == ear_triangle(m, points@, f@, ears@, k as int));
                assert forall|i: int| 0 <= i < k + 1 implies #[trigger] out@[i] == ear_triangle(
                    m,
                    points@,
                    f@,
                    ears@,
                    i,
                ) by {
                    if i < k {
                        assert(out@[i] == held[i]);
                    }
                }
            }
        }
        k = k + 1;
    }
    let share: u64 = calc.apply(NumOp::Mul, f.area, NANO);
    let eps: u64 = calc.apply(NumOp::Add, share, f.area_eps);
    let gap: u64 = calc.apply(NumOp::Sub, sum, f.area);
    if is_less(eps, absolute(gap)) {
        return Vec::new();
    }
    proof {
        assert forall|m: Reading| #[trigger] calc.agrees(m) implies out@ == eared(
            m,
            points@,
            f@,
            ears@,
        ) by {
            assert(out@ =~= eared(m, points@, f@, ears@));
        }
    }
    out
}

// ---- the host that cuts ears ----------------------------------------------------------------------

/// One reading of all ear cutting: the triangles of an outline with holes, as
/// places in it.
pub type EarReading = spec_fn(Seq<Point2>, Seq<usize>) -> Option<Seq<usize>>;

/// A host that cuts ears off a simple outline. `holes` says where in the list
/// each hole begins. Nothing is promised of it.
pub trait Ears {
    fn cut(&mut self, outline: &Vec<Point2>, holes: &Vec<usize>) -> Option<Vec<usize>>;
}

/// What the host has cut so far.
pub struct EarLog {
    entries: Ghost<Seq<(Seq<Point2>, Seq<usize>, Option<Seq<usize>>)>>,
}

/// What a cut holds.
pub open spec fn cut_view(r: Option<Vec<usize>>) -> Option<Seq<usize>> {
    match r {
        Some(v) => Some(v@),
        None => None,
    }
}

impl EarLog {
    /// Whether every cut so far is the one that `e` gives.
    pub closed spec fn agrees(&self, e: EarReading) -> bool {
        forall|i: int| 0 <= i < self.entries@.len() ==> (#[trigger] self.entries@[i]).2 == e(
            self.entries@[i].0,
            self.entries@[i].1,
        )
    }

    pub fn new() -> (r: Self)
        ensures
            forall|e: EarReading| #[trigger] r.agrees(e),
    {
        EarLog { entries: Ghost(Seq::empty()) }
    }

    /// Asks the host.
    pub fn cut<E: Ears>(&mut self, host: &mut E, outline: &Vec<Point2>, holes: &Vec<usize>) -> (r:
        Option<Vec<usize>>)
        ensures
            forall|e: EarReading| #[trigger]
                final(self).agrees(e) ==> old(self).agrees(e) && cut_view(r) == e(
                    outline@,
                    holes@,
                ),
    {
        let r = host.cut(outline, holes);
        let ghost before = self.entries@;
        self.entries = Ghost(self.entries@.push((outline@, holes@, cut_view(r))));
        proof {
            assert forall|e: EarReading| #[trigger] self.agrees(e) implies old(self).agrees(e)
                && cut_view(r) == e(outline@, holes@) by {
                assert(self.entries@[before.len() as int] == (outline@, holes@, cut_view(r)));
                assert forall|i: int| 0 <= i < before.len() implies (#[trigger] before[i]).2 == e(
                    before[i].0,
                    before[i].1,
                ) by {
                    assert(self.entries@[i] == before[i]);
                }
            }
        }
        r
    }
}

// ---- polyhedra ------------------------------------------------------------------------------------

/// The triangles of a face: a fan where it is convex, cut ears elsewhere, and
/// none where it is malformed or degenerate.
pub open spec fn face_triangles(
    m: Reading,
    e: EarReading,
    points: Seq<Point3>,
    face: Seq<u32>,
) -> Seq<Triangle> {
    if !usable(points, face) {
        Seq::empty()
    } else {
        match laid_flat(m, points, loop_of(face)) {
            None => Seq::empty(),
            Some(f) => if is_convex(m, f.outline, f.area_eps) {
                fan(m, points, f, f.ids.len() - 1)
            } else {
                match e(f.outline, Seq::empty()) {
                    None => Seq::empty(),
                    Some(ears) => eared(m, points, f, ears),
                }
            },
        }
    }
}

/// Cuts one face into triangles; none where it is malformed or degenerate.
pub fn triangulate_face<A: Arithmetic, E: Ears>(
    calc: &mut Calc<A>,
    log: &mut EarLog,
    host: &mut E,
    points: &Vec<Point3>,
    face: &Vec<u32>,
) -> (r: Vec<Triangle>)
    ensures
        tris_within(r@, points@.len()),
        forall|m: Reading, e: EarReading|
            #![trigger final(calc).agrees(m), final(log).agrees(e)]
            final(calc).agrees(m) && final(log).agrees(e) ==> old(calc).agrees(m) && old(
                log,
            ).agrees(e) && r@ == face_triangles(m, e, points@, face@),
{
    let ids = match face_loop(points, face) {
        Some(ids) => ids,
        None => {
            return Vec::new();
        },
    };
    let f = match lay_flat(calc, points, ids) {
        Some(f) => f,
        None => {
            return Vec::new();
        },
    };
    if convex_polygon(calc, &f.outline, f.area_eps) {
        return fan_face(calc, points, &f);
    }
    let holes: Vec<usize> = Vec::new();
    assert(holes@ =~= Seq::empty());
    match log.cut(host, &f.outline, &holes) {
        Some(ears) => accept_ears(calc, points, &f, &ears),
        None => Vec::new(),
    }
}

/// The triangles of the first `n` faces.
pub open spec fn faces_triangles(
    m: Reading,
    e: EarReading,
    points: Seq<Point3>,
    faces: Seq<Vec<u32>>,
    n: int,
) -> Seq<Triangle>
    decreases n,
{
    if n <= 0 {
        Seq::empty()
    } else {
        faces_triangles(m, e, points, faces, n - 1) + face_triangles(m, e, points, faces[n - 1]@)
    }
}

/// A mesh of given points and polygonal faces. Faces that are malformed or
/// degenerate are left out.
pub fn polyhedron<A: Arithmetic, E: Ears>(
    calc: &mut Calc<A>,
    log: &mut EarLog,
    host: &mut E,
    points: &Vec<Point3>,
    faces: &Vec<Vec<u32>>,
) -> (r: Mesh)
    ensures
        r@.indexed(),
        r@.verts == points@,
        forall|m: Reading, e: EarReading|
            #![trigger final(calc).agrees(m), final(log).agrees(e)]
            final(calc).agrees(m) && final(log).agrees(e) ==> old(calc).agrees(m) && old(
                log,
            ).agrees(e) && r@.tris == faces_triangles(
                m,
                e,
                points@,
                faces@,
                faces@.len() as int,
            ),
{
    let mut verts: Vec<Point3> = Vec::new();
    for i in 0..points.len()
        invariant
            verts@ =~= points@.take(i as int),
    {
        verts.push(points[i]);
    }
    assert(verts@ =~= points@);
    let mut tris: Vec<Triangle> = Vec::new();
    let mut i: usize = 0;
    while i < faces.len()
        invariant
            i <= faces@.len(),
            tris_within(tris@, points@.len()),
            forall|m: Reading, e: EarReading|
                #![trigger calc.agrees(m), log.agrees(e)]
                calc.agrees(m) && log.agrees(e) ==> old(calc).agrees(m) && old(log).agrees(e)
                    && tris@ == faces_triangles(m, e, points@, faces@, i as int),
        decreases faces.len() - i,
    {
        let mut more = triangulate_face(calc, log, host, points, &faces[i]);
        let ghost held = tris@;
        let ghost added = more@;
        tris.append(&mut more);
        assert(tris@ =~= held + added);
        assert forall|k: int| 0 <= k < tris@.len() implies (#[trigger] tris@[k]).within(
            points@.len(),
        ) by {
            if k >= held.len() {
                assert(added[k - held.len()].within(points@.len()));
            } else {
                assert(held[k].within(points@.len()));
            }
        }
        i = i + 1;
    }
    Mesh { verts, tris }
}

} // verus!
