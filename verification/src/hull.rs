//! Convex hulls of point clouds, grown point by point.

use crate::faces::{tris_within, NANO, PICO};
use crate::mesh::{Mesh, MeshView, Point3, Triangle};
use crate::num::{
    absolute, at_most, is_at_most, is_less, less, Arithmetic, Calc, NumOp, Reading, ZERO,
};
use crate::planar::size_of;
use crate::rank::{ascending, sorted, Ranked};
use crate::solid::{greater, max_of};
use crate::vector::{
    cross, cross_of, difference_of, dot, dot_of, length_of, norm, sub_points, MINUS_ONE,
};
use std::collections::HashSet;
use vstd::prelude::*;

verus! {

/// 4.
pub const FOUR: u64 = 0x4010_0000_0000_0000;

// ---- the first tetrahedron ------------------------------------------------------------------------

/// A coordinate of a point.
pub open spec fn coordinate(p: Point3, axis: int) -> u64 {
    if axis == 0 {
        p.x
    } else if axis == 1 {
        p.y
    } else {
        p.z
    }
}

fn coordinate_of(p: Point3, axis: u8) -> (r: u64)
    ensures
        r == coordinate(p, axis as int),
{
    if axis == 0 {
        p.x
    } else if axis == 1 {
        p.y
    } else {
        p.z
    }
}

/// The first of the first `n` points that is lowest along an axis.
pub open spec fn lowest(pts: Seq<Point3>, axis: int, n: int) -> int
    decreases n,
{
    if n <= 1 {
        0
    } else {
        let l = lowest(pts, axis, n - 1);
        if less(coordinate(pts[n - 1], axis), coordinate(pts[l], axis)) {
            n - 1
        } else {
            l
        }
    }
}

/// The first of the first `n` points that is highest along an axis.
pub open spec fn highest(pts: Seq<Point3>, axis: int, n: int) -> int
    decreases n,
{
    if n <= 1 {
        0
    } else {
        let h = highest(pts, axis, n - 1);
        if less(coordinate(pts[h], axis), coordinate(pts[n - 1], axis)) {
            n - 1
        } else {
            h
        }
    }
}

/// The extreme points along the axes.
pub open spec fn extremes(pts: Seq<Point3>) -> Seq<int> {
    let n = pts.len() as int;
    seq![
        lowest(pts, 0, n),
        highest(pts, 0, n),
        lowest(pts, 1, n),
        highest(pts, 1, n),
        lowest(pts, 2, n),
        highest(pts, 2, n),
    ]
}

/// A pair of points and how far they are apart.
pub struct Pair {
    pub far: u64,
    pub a: usize,
    pub b: usize,
}

/// The pair of extreme points that is farthest apart among the first `k` pairs.
pub open spec fn farthest_pair(m: Reading, pts: Seq<Point3>, ext: Seq<int>, k: int) -> Pair
    decreases k,
{
    if k <= 0 {
        Pair { far: MINUS_ONE, a: 0, b: 0 }
    } else {
        let best = farthest_pair(m, pts, ext, k - 1);
        let a = ext[(k - 1) / 6];
        let b = ext[(k - 1) % 6];
        let d = length_of(m, difference_of(m, pts[a], pts[b]));
        if less(best.far, d) {
            Pair { far: d, a: a as usize, b: b as usize }
        } else {
            best
        }
    }
}

/// The farthest point so far, and how far it is.
pub struct Far {
    pub far: u64,
    pub at: Option<usize>,
}

/// The point among the first `k` farthest from the line through two points.
pub open spec fn farthest_from_line(m: Reading, pts: Seq<Point3>, a: int, b: int, k: int) -> Far
    decreases k,
{
    if k <= 0 {
        Far { far: NANO, at: None }
    } else {
        let best = farthest_from_line(m, pts, a, b, k - 1);
        let d = length_of(
            m,
            cross_of(
                m,
                difference_of(m, pts[b], pts[a]),
                difference_of(m, pts[k - 1], pts[a]),
            ),
        );
        if less(best.far, d) {
            Far { far: d, at: Some((k - 1) as usize) }
        } else {
            best
        }
    }
}

/// The point among the first `k` farthest from the plane through three points.
pub open spec fn farthest_from_plane(
    m: Reading,
    pts: Seq<Point3>,
    a: int,
    b: int,
    c: int,
    k: int,
) -> Far
    decreases k,
{
    if k <= 0 {
        Far { far: NANO, at: None }
    } else {
        let best = farthest_from_plane(m, pts, a, b, c, k - 1);
        let n = cross_of(
            m,
            difference_of(m, pts[b], pts[a]),
            difference_of(m, pts[c], pts[a]),
        );
        let d = size_of(dot_of(m, n, difference_of(m, pts[k - 1], pts[a])));
        if less(best.far, d) {
            Far { far: d, at: Some((k - 1) as usize) }
        } else {
            best
        }
    }
}

/// How far a point lies outside a face.
pub open spec fn outside_by(m: Reading, pts: Seq<Point3>, f: Triangle, p: Point3) -> u64 {
    let a = pts[f.a as int];
    let n = cross_of(
        m,
        difference_of(m, pts[f.b as int], a),
        difference_of(m, pts[f.c as int], a),
    );
    m.at(
        NumOp::Div,
        dot_of(m, n, difference_of(m, p, a)),
        greater(length_of(m, n), PICO),
    )
}

/// A face turned so that the inner point lies below it.
pub open spec fn oriented(m: Reading, pts: Seq<Point3>, f: Triangle, inner: Point3) -> Triangle {
    if less(ZERO, outside_by(m, pts, f, inner)) {
        Triangle { a: f.a, b: f.c, c: f.b }
    } else {
        f
    }
}

/// The mean of four numbers.
pub open spec fn mean4(m: Reading, a: u64, b: u64, c: u64, d: u64) -> u64 {
    m.at(
        NumOp::Div,
        m.at(NumOp::Add, m.at(NumOp::Add, m.at(NumOp::Add, a, b), c), d),
        FOUR,
    )
}

/// The middle of four points.
pub open spec fn middle(m: Reading, a: Point3, b: Point3, c: Point3, d: Point3) -> Point3 {
    Point3 {
        x: mean4(m, a.x, b.x, c.x, d.x),
        y: mean4(m, a.y, b.y, c.y, d.y),
        z: mean4(m, a.z, b.z, c.z, d.z),
    }
}

/// The four faces of a tetrahedron, facing outward.
pub open spec fn tetrahedron(m: Reading, pts: Seq<Point3>, a: u32, b: u32, c: u32, d: u32) -> Seq<
    Triangle,
> {
    let inner = middle(m, pts[a as int], pts[b as int], pts[c as int], pts[d as int]);
    seq![
        oriented(m, pts, (Triangle { a, b, c }), inner),
        oriented(m, pts, (Triangle { a, b, c: d }), inner),
        oriented(m, pts, (Triangle { a, b: c, c: d }), inner),
        oriented(m, pts, (Triangle { a: b, b: c, c: d }), inner),
    ]
}

// ---- adding a point ----------------------------------------------------------------------------

/// An edge with its direction, as one number.
pub open spec fn way(a: u32, b: u32) -> u64 {
    (a as u64 * 0x1_0000_0000 + b as u64) as u64
}

/// The same edge the other way.
pub open spec fn reversed(w: u64) -> u64 {
    ((w % 0x1_0000_0000) * 0x1_0000_0000 + w / 0x1_0000_0000) as u64
}

/// The edges of the visible faces among the first `n`.
pub open spec fn visible_edges(faces: Seq<Triangle>, seen: Seq<bool>, n: int) -> Seq<u64>
    decreases n,
{
    if n <= 0 {
        Seq::empty()
    } else {
        let f = faces[n - 1];
        let done = visible_edges(faces, seen, n - 1);
        if seen[n - 1] {
            done.push(way(f.a, f.b)).push(way(f.b, f.c)).push(way(f.c, f.a))
        } else {
            done
        }
    }
}

/// `h` lists the edges that are met in one direction only, in order.
pub open spec fn is_horizon(edges: Seq<u64>, h: Seq<u64>) -> bool {
    &&& forall|w: u64| #[trigger]
        h.contains(w) <==> edges.contains(w) && !edges.contains(reversed(w))
    &&& forall|i: int, j: int| #![trigger h[i], h[j]] 0 <= i < j < h.len() ==> h[i] < h[j]
}

/// The edges that are met in one direction only, in order.
pub open spec fn horizon_of(edges: Seq<u64>) -> Seq<u64> {
    choose|h: Seq<u64>| is_horizon(edges, h)
}

/// A list without its `i`-th entry, the last one put in its place.
pub open spec fn swapped_out(faces: Seq<Triangle>, i: int) -> Seq<Triangle> {
    faces.update(i, faces.last()).drop_last()
}

/// A list without the visible faces among its first `k`, taken out from the
/// back.
pub open spec fn hidden(faces: Seq<Triangle>, seen: Seq<bool>, k: int) -> Seq<Triangle>
    decreases k,
{
    if k <= 0 {
        faces
    } else if seen[k - 1] {
        hidden(swapped_out(faces, k - 1), seen, k - 1)
    } else {
        hidden(faces, seen, k - 1)
    }
}

/// A face from a point to an edge.
pub open spec fn spanned(w: u64, p: u32) -> Triangle {
    Triangle { a: (w / 0x1_0000_0000) as u32, b: (w % 0x1_0000_0000) as u32, c: p }
}

/// Which faces see a point.
pub open spec fn seen_from(m: Reading, pts: Seq<Point3>, faces: Seq<Triangle>, eps: u64, p: int) -> Seq<
    bool,
> {
    Seq::new(faces.len(), |i: int| less(eps, outside_by(m, pts, faces[i], pts[p])))
}

/// The faces after a point is added: those that see it give way to faces from
/// the point to their rim.
pub open spec fn with_point(
    m: Reading,
    pts: Seq<Point3>,
    faces: Seq<Triangle>,
    eps: u64,
    p: int,
) -> Seq<Triangle> {
    let seen = seen_from(m, pts, faces, eps, p);
    let n = faces.len() as int;
    if !seen.contains(true) {
        faces
    } else {
        hidden(faces, seen, n) + horizon_of(visible_edges(faces, seen, n)).map_values(
            |w: u64| spanned(w, p as u32),
        )
    }
}

/// The faces after the first `k` points, those of the tetrahedron left out, are
/// added.
pub open spec fn grown_hull(
    m: Reading,
    pts: Seq<Point3>,
    start: Seq<Triangle>,
    first: Seq<usize>,
    eps: u64,
    k: int,
) -> Seq<Triangle>
    decreases k,
{
    if k <= 0 {
        start
    } else {
        let faces = grown_hull(m, pts, start, first, eps, k - 1);
        if first.contains((k - 1) as usize) {
            faces
        } else {
            with_point(m, pts, faces, eps, k - 1)
        }
    }
}

/// A mesh of nothing.
pub open spec fn empty_mesh() -> MeshView {
    MeshView { verts: Seq::empty(), tris: Seq::empty() }
}

/// The convex hull of a point cloud; nothing where it has no volume.
pub open spec fn hull_of(m: Reading, pts: Seq<Point3>) -> MeshView {
    let n = pts.len() as int;
    if n < 4 {
        empty_mesh()
    } else {
        let pair = farthest_pair(m, pts, extremes(pts), 36);
        if at_most(pair.far, PICO) {
            empty_mesh()
        } else {
            match farthest_from_line(m, pts, pair.a as int, pair.b as int, n).at {
                None => empty_mesh(),
                Some(c) => match farthest_from_plane(
                    m,
                    pts,
                    pair.a as int,
                    pair.b as int,
                    c as int,
                    n,
                ).at {
                    None => empty_mesh(),
                    Some(d) => MeshView {
                        verts: pts,
                        tris: grown_hull(
                            m,
                            pts,
                            tetrahedron(
                                m,
                                pts,
                                pair.a as u32,
                                pair.b as u32,
                                c as u32,
                                d as u32,
                            ),
                            seq![pair.a, pair.b, c, d],
                            m.at(NumOp::Mul, pair.far, NANO),
                            n,
                        ),
                    },
                },
            }
        }
    }
}

// ---- computing it -----------------------------------------------------------------------------------

fn find_lowest(pts: &Vec<Point3>, axis: u8) -> (r: usize)
    requires
        pts@.len() > 0,
    ensures
        r < pts@.len(),
        r == lowest(pts@, axis as int, pts@.len() as int),
{
    let mut l: usize = 0;
    let mut i: usize = 1;
    while i < pts.len()
        invariant
            1 <= i <= pts@.len(),
            l < pts@.len(),
            l == lowest(pts@, axis as int, i as int),
        decreases pts.len() - i,
    {
        if is_less(coordinate_of(pts[i], axis), coordinate_of(pts[l], axis)) {
            l = i;
        }
        i = i + 1;
    }
    l
}

fn find_highest(pts: &Vec<Point3>, axis: u8) -> (r: usize)
    requires
        pts@.len() > 0,
    ensures
        r < pts@.len(),
        r == highest(pts@, axis as int, pts@.len() as int),
{
    let mut h: usize = 0;
    let mut i: usize = 1;
    while i < pts.len()
        invariant
            1 <= i <= pts@.len(),
            h < pts@.len(),
            h == highest(pts@, axis as int, i as int),
        decreases pts.len() - i,
    {
        if is_less(coordinate_of(pts[h], axis), coordinate_of(pts[i], axis)) {
            h = i;
        }
        i = i + 1;
    }
    h
}

fn find_pair<A: Arithmetic>(calc: &mut Calc<A>, pts: &Vec<Point3>) -> (r: Pair)
    requires
        pts@.len() > 0,
    ensures
        r.a < pts@.len(),
        r.b < pts@.len(),
        forall|m: Reading| #[trigger]
            final(calc).agrees(m) ==> old(calc).agrees(m) && r == farthest_pair(
                m,
                pts@,
                extremes(pts@),
                36,
            ),
{
    let mut ext: Vec<usize> = Vec::new();
    ext.push(find_lowest(pts, 0));
    ext.push(find_highest(pts, 0));
    ext.push(find_lowest(pts, 1));
    ext.push(find_highest(pts, 1));
    ext.push(find_lowest(pts, 2));
    ext.push(find_highest(pts, 2));
    let ghost ev = extremes(pts@);
    let mut best = Pair { far: MINUS_ONE, a: 0, b: 0 };
    let mut k: usize = 0;
    while k < 36
        invariant
            k <= 36,
            pts@.len() > 0,
            ev == extremes(pts@),
            ext@.len() == 6,
            forall|i: int| 0 <= i < 6 ==> (#[trigger] ext@[i]) == ev[i] && ext@[i] < pts@.len(),
            best.a < pts@.len(),
            best.b < pts@.len(),
            forall|m: Reading| #[trigger]
                calc.agrees(m) ==> old(calc).agrees(m) && best == farthest_pair(
                    m,
                    pts@,
                    ev,
                    k as int,
                ),
        decreases 36 - k,
    {
        let a: usize = ext[k / 6];
        let b: usize = ext[k % 6];
        let d = sub_points(calc, pts[a], pts[b]);
        let far: u64 = norm(calc, d);
        if is_less(best.far, far) {
            best = Pair { far, a, b };
        }
        k = k + 1;
    }
    best
}

fn find_third<A: Arithmetic>(calc: &mut Calc<A>, pts: &Vec<Point3>, a: usize, b: usize) -> (r:
    Option<usize>)
    requires
        a < pts@.len(),
        b < pts@.len(),
    ensures
        r matches Some(c) ==> c < pts@.len(),
        forall|m: Reading| #[trigger]
            final(calc).agrees(m) ==> old(calc).agrees(m) && r == farthest_from_line(
                m,
                pts@,
                a as int,
                b as int,
                pts@.len() as int,
            ).at,
{
    let line = sub_points(calc, pts[b], pts[a]);
    let mut best = Far { far: NANO, at: None };
    let mut i: usize = 0;
    while i < pts.len()
        invariant
            i <= pts@.len(),
            a < pts@.len(),
            b < pts@.len(),
            best.at matches Some(c) ==> c < pts@.len(),
            forall|m: Reading| #[trigger]
                calc.agrees(m) ==> old(calc).agrees(m) && line == difference_of(
                    m,
                    pts@[b as int],
                    pts@[a as int],
                ) && best == farthest_from_line(m, pts@, a as int, b as int, i as int),
        decreases pts.len() - i,
    {
        let d = sub_points(calc, pts[i], pts[a]);
        let c = cross(calc, line, d);
        let far: u64 = norm(calc, c);
        if is_less(best.far, far) {
            best = Far { far, at: Some(i) };
        }
        i = i + 1;
    }
    best.at
}

fn find_fourth<A: Arithmetic>(
    calc: &mut Calc<A>,
    pts: &Vec<Point3>,
    a: usize,
    b: usize,
    c: usize,
) -> (r: Option<usize>)
    requires
        a < pts@.len(),
        b < pts@.len(),
        c < pts@.len(),
    ensures
        r matches Some(d) ==> d < pts@.len(),
        forall|m: Reading| #[trigger]
            final(calc).agrees(m) ==> old(calc).agrees(m) && r == farthest_from_plane(
                m,
                pts@,
                a as int,
                b as int,
                c as int,
                pts@.len() as int,
            ).at,
{
    let u = sub_points(calc, pts[b], pts[a]);
    let v = sub_points(calc, pts[c], pts[a]);
    let n = cross(calc, u, v);
    let mut best = Far { far: NANO, at: None };
    let mut i: usize = 0;
    while i < pts.len()
        invariant
            i <= pts@.len(),
            a < pts@.len(),
            b < pts@.len(),
            c < pts@.len(),
            best.at matches Some(d) ==> d < pts@.len(),
            forall|m: Reading| #[trigger]
                calc.agrees(m) ==> old(calc).agrees(m) && n == cross_of(
                    m,
                    difference_of(m, pts@[b as int], pts@[a as int]),
                    difference_of(m, pts@[c as int], pts@[a as int]),
                ) && best == farthest_from_plane(
                    m,
                    pts@,
                    a as int,
                    b as int,
                    c as int,
                    i as int,
                ),
        decreases pts.len() - i,
    {
        let d = sub_points(calc, pts[i], pts[a]);
        let s: u64 = dot(calc, n, d);
        let far: u64 = absolute(s);
        if is_less(best.far, far) {
            best = Far { far, at: Some(i) };
        }
        i = i + 1;
    }
    best.at
}

/// How far a point lies outside a face.
pub fn signed_dist<A: Arithmetic>(calc: &mut Calc<A>, pts: &Vec<Point3>, f: Triangle, p: Point3) -> (r:
    u64)
    requires
        f.within(pts@.len()),
    ensures
        forall|m: Reading| #[trigger]
            final(calc).agrees(m) ==> old(calc).agrees(m) && r == outside_by(m, pts@, f, p),
{
    let a = pts[f.a as usize];
    let u = sub_points(calc, pts[f.b as usize], a);
    let v = sub_points(calc, pts[f.c as usize], a);
    let n = cross(calc, u, v);
    let d = sub_points(calc, p, a);
    let up: u64 = dot(calc, n, d);
    let length: u64 = norm(calc, n);
    calc.apply(NumOp::Div, up, max_of(length, PICO))
}

fn orient<A: Arithmetic>(calc: &mut Calc<A>, pts: &Vec<Point3>, f: Triangle, inner: Point3) -> (r:
    Triangle)
    requires
        f.within(pts@.len()),
    ensures
        r.within(pts@.len()),
        forall|m: Reading| #[trigger]
            final(calc).agrees(m) ==> old(calc).agrees(m) && r == oriented(m, pts@, f, inner),
{
    let d: u64 = signed_dist(calc, pts, f, inner);
    if is_less(ZERO, d) {
        Triangle { a: f.a, b: f.c, c: f.b }
    } else {
        f
    }
}

fn mean<A: Arithmetic>(calc: &mut Calc<A>, a: u64, b: u64, c: u64, d: u64) -> (r: u64)
    ensures
        forall|m: Reading| #[trigger]
            final(calc).agrees(m) ==> old(calc).agrees(m) && r == mean4(m, a, b, c, d),
{
    let s: u64 = calc.apply(NumOp::Add, a, b);
    let t: u64 = calc.apply(NumOp::Add, s, c);
    let u: u64 = calc.apply(NumOp::Add, t, d);
    calc.apply(NumOp::Div, u, FOUR)
}

fn first_faces<A: Arithmetic>(calc: &mut Calc<A>, pts: &Vec<Point3>, a: u32, b: u32, c: u32, d: u32) -> (r:
    Vec<Triangle>)
    requires
        a < pts@.len(),
        b < pts@.len(),
        c < pts@.len(),
        d < pts@.len(),
    ensures
        tris_within(r@, pts@.len()),
        forall|m: Reading| #[trigger]
            final(calc).agrees(m) ==> old(calc).agrees(m) && r@ == tetrahedron(m, pts@, a, b, c, d),
{
    let pa = pts[a as usize];
    let pb = pts[b as usize];
    let pc = pts[c as usize];
    let pd = pts[d as usize];
    let x: u64 = mean(calc, pa.x, pb.x, pc.x, pd.x);
    let y: u64 = mean(calc, pa.y, pb.y, pc.y, pd.y);
    let z: u64 = mean(calc, pa.z, pb.z, pc.z, pd.z);
    let inner = Point3 { x, y, z };
    let f0 = orient(calc, pts, Triangle { a, b, c }, inner);
    let f1 = orient(calc, pts, Triangle { a, b, c: d }, inner);
    let f2 = orient(calc, pts, Triangle { a, b: c, c: d }, inner);
    let f3 = orient(calc, pts, Triangle { a: b, b: c, c: d }, inner);
    let mut out: Vec<Triangle> = Vec::new();
    out.push(f0);
    out.push(f1);
    out.push(f2);
    out.push(f3);
    proof {
        assert forall|m: Reading| #[trigger] calc.agrees(m) implies out@ == tetrahedron(
            m,
            pts@,
            a,
            b,
            c,
            d,
        ) by {
            assert(out@ =~= tetrahedron(m, pts@, a, b, c, d));
        }
    }
    out
}

proof fn lemma_ascending_unique(a: Seq<u64>, b: Seq<u64>)
    requires
        forall|i: int, j: int| #![trigger a[i], a[j]] 0 <= i < j < a.len() ==> a[i] < a[j],
        forall|i: int, j: int| #![trigger b[i], b[j]] 0 <= i < j < b.len() ==> b[i] < b[j],
        forall|w: u64| #[trigger] a.contains(w) <==> b.contains(w),
    ensures
        a == b,
    decreases a.len(),
{
    if a.len() == 0 {
        if b.len() > 0 {
            assert(b.contains(b[0]));
            assert(a.contains(b[0]));
        }
        assert(a =~= b);
    } else if b.len() == 0 {
        assert(a.contains(a[0]));
    } else {
        let x = a.last();
        let y = b.last();
        assert(a.contains(x));
        assert(b.contains(y));
        assert(a.contains(y));
        let i = choose|i: int| 0 <= i < b.len() && b[i] == x;
        let j = choose|j: int| 0 <= j < a.len() && a[j] == y;
        assert(x == y) by {
            if i < b.len() - 1 {
                assert(b[i] < b[b.len() - 1]);
                if j < a.len() - 1 {
                    assert(a[j] < a[a.len() - 1]);
                }
            }
        }
        let c = a.drop_last();
        let d = b.drop_last();
        assert forall|w: u64| #[trigger] c.contains(w) <==> d.contains(w) by {
            if c.contains(w) {
                let k = choose|k: int| 0 <= k < c.len() && c[k] == w;
                assert(a[k] < a[a.len() - 1]);
                assert(a.contains(w));
                let l = choose|l: int| 0 <= l < b.len() && b[l] == w;
                assert(d[l] == w);
            }
            if d.contains(w) {
                let k = choose|k: int| 0 <= k < d.len() && d[k] == w;
                assert(b[k] < b[b.len() - 1]);
                assert(b.contains(w));
                assert(a.contains(w));
                let l = choose|l: int| 0 <= l < a.len() && a[l] == w;
                assert(c[l] == w);
            }
        }
        lemma_ascending_unique(c, d);
        assert(a =~= c.push(x));
        assert(b =~= d.push(y));
    }
}

fn turn_back(w: u64) -> (r: u64)
    ensures
        r == reversed(w),
{
    (w % 0x1_0000_0000) * 0x1_0000_0000 + w / 0x1_0000_0000
}

/// The edges that are met in one direction only, in order.
fn horizon(edges: &Vec<u64>) -> (r: Vec<u64>)
    ensures
        r@ == horizon_of(edges@),
        is_horizon(edges@, r@),
{
    broadcast use vstd::std_specs::hash::group_hash_axioms;

    let mut met: HashSet<u64> = HashSet::new();
    let mut copy: Vec<u64> = Vec::new();
    let mut i: usize = 0;
    while i < edges.len()
        invariant
            i <= edges@.len(),
            copy@ =~= edges@.take(i as int),
            forall|w: u64| #[trigger] met@.contains(w) <==> edges@.take(i as int).contains(w),
        decreases edges.len() - i,
    {
        let w: u64 = edges[i];
        met.insert(w);
        copy.push(w);
        proof {
            let before = edges@.take(i as int);
            assert(edges@.take(i + 1) =~= before.push(w));
            assert forall|v: u64| #[trigger] met@.contains(v) <==> edges@.take(i + 1).contains(v) by {
                crate::surfaces::lemma_push_contains(before, w, v);
            }
        }
        i = i + 1;
    }
    assert(edges@.take(edges@.len() as int) =~= edges@);
    assert(copy@ =~= edges@);
    let in_order = sorted(copy);
    let ghost all = in_order@;
    let mut out: Vec<u64> = Vec::new();
    let mut i: usize = 0;
    while i < in_order.len()
        invariant
            i <= in_order@.len(),
            all == in_order@,
            ascending(all),
            forall|w: u64| #[trigger] met@.contains(w) <==> edges@.contains(w),
            forall|w: u64| #[trigger]
                out@.contains(w) <==> all.take(i as int).contains(w) && !edges@.contains(
                    reversed(w),
                ),
            forall|a: int, b: int|
                #![trigger out@[a], out@[b]]
                0 <= a < b < out@.len() ==> out@[a] < out@[b],
        decreases in_order.len() - i,
    {
        let w: u64 = in_order[i];
        let ghost held = out@;
        let ghost before = all.take(i as int);
        let fresh: bool = out.len() == 0 || out[out.len() - 1] != w;
        let lone: bool = !met.contains(&turn_back(w));
        proof {
            assert forall|a: int| 0 <= a < held.len() implies #[trigger] held[a] <= w by {
                assert(held.contains(held[a]));
                let k = choose|k: int| 0 <= k < before.len() && before[k] == held[a];
                assert(all[k].rank_le(&all[i as int]));
            }
        }
        if fresh && lone {
            out.push(w);
        }
        proof {
            let t = all.take(i + 1);
            assert(t =~= before.push(w));
            assert forall|v: u64| #[trigger] out@.contains(v) <==> t.contains(v)
                && !edges@.contains(reversed(v)) by {
                crate::surfaces::lemma_push_contains(held, w, v);
                crate::surfaces::lemma_push_contains(before, w, v);
                if !fresh {
                    assert(held[held.len() - 1] == w);
                    assert(held.contains(w));
                }
            }
            assert forall|a: int, b: int|
                #![trigger out@[a], out@[b]]
                0 <= a < b < out@.len() implies out@[a] < out@[b] by {
                if fresh && lone && b == held.len() {
                    assert(held[a] <= w);
                    if a < held.len() - 1 {
                        assert(held[a] < held[held.len() - 1]);
                        assert(held[held.len() - 1] <= w);
                    }
                }
            }
        }
        i = i + 1;
    }
    proof {
        assert(all.take(all.len() as int) =~= all);
        all.to_multiset_ensures();
        edges@.to_multiset_ensures();
        assert forall|w: u64| #[trigger] out@.contains(w) <==> edges@.contains(w)
            && !edges@.contains(reversed(w)) by {
            assert(all.contains(w) <==> all.to_multiset().count(w) > 0);
            assert(edges@.contains(w) <==> edges@.to_multiset().count(w) > 0);
        }
        assert(is_horizon(edges@, out@));
        let h = horizon_of(edges@);
        assert(is_horizon(edges@, h));
        assert forall|w: u64| #[trigger] h.contains(w) <==> out@.contains(w) by {
            assert(out@.contains(w) <==> edges@.contains(w) && !edges@.contains(reversed(w)));
        }
        lemma_ascending_unique(h, out@);
    }
    out
}


/// Which faces see a point, and whether one does.
fn see<A: Arithmetic>(
    calc: &mut Calc<A>,
    pts: &Vec<Point3>,
    faces: &Vec<Triangle>,
    eps: u64,
    p: usize,
) -> (r: (Vec<bool>, bool))
    requires
        p < pts@.len(),
        tris_within(faces@, pts@.len()),
    ensures
        (r.0)@.len() == faces@.len(),
        r.1 == (r.0)@.contains(true),
        forall|m: Reading| #[trigger]
            final(calc).agrees(m) ==> old(calc).agrees(m) && (r.0)@ == seen_from(
                m,
                pts@,
                faces@,
                eps,
                p as int,
            ),
{
    let mut seen: Vec<bool> = Vec::new();
    let mut any: bool = false;
    let mut i: usize = 0;
    while i < faces.len()
        invariant
            i <= faces@.len(),
            p < pts@.len(),
            tris_within(faces@, pts@.len()),
            seen@.len() == i,
            any == seen@.contains(true),
            forall|m: Reading| #[trigger]
                calc.agrees(m) ==> old(calc).agrees(m) && forall|k: int|
                    0 <= k < i ==> #[trigger] seen@[k] == less(
                        eps,
                        outside_by(m, pts@, faces@[k], pts@[p as int]),
                    ),
        decreases faces.len() - i,
    {
        let d: u64 = signed_dist(calc, pts, faces[i], pts[p]);
        let s: bool = is_less(eps, d);
        let ghost held = seen@;
        seen.push(s);
        proof {
            crate::surfaces::lemma_push_contains(held, s, true);
        }
        any = any || s;
        i = i + 1;
    }
    proof {
        assert forall|m: Reading| #[trigger] calc.agrees(m) implies seen@ == seen_from(
            m,
            pts@,
            faces@,
            eps,
            p as int,
        ) by {
            assert(seen@ =~= seen_from(m, pts@, faces@, eps, p as int));
        }
    }
    (seen, any)
}

fn edge_way(a: u32, b: u32) -> (r: u64)
    ensures
        r == way(a, b),
{
    a as u64 * 0x1_0000_0000 + b as u64
}

/// An edge between points that there are.
spec fn way_within(w: u64, n: nat) -> bool {
    w / 0x1_0000_0000 < n && w % 0x1_0000_0000 < n
}

proof fn lemma_way(a: u32, b: u32, n: nat)
    requires
        a < n,
        b < n,
    ensures
        way_within(way(a, b), n),
{
    assert(way(a, b) == a * 0x1_0000_0000 + b);
    assert(way(a, b) / 0x1_0000_0000 == a);
    assert(way(a, b) % 0x1_0000_0000 == b);
}

fn gather_edges(faces: &Vec<Triangle>, seen: &Vec<bool>, Ghost(n): Ghost<nat>) -> (r: Vec<u64>)
    requires
        seen@.len() == faces@.len(),
        tris_within(faces@, n),
    ensures
        r@ == visible_edges(faces@, seen@, faces@.len() as int),
        forall|i: int| 0 <= i < r@.len() ==> way_within(#[trigger] r@[i], n),
{
    let mut out: Vec<u64> = Vec::new();
    let mut i: usize = 0;
    while i < faces.len()
        invariant
            i <= faces@.len(),
            seen@.len() == faces@.len(),
            tris_within(faces@, n),
            out@ =~= visible_edges(faces@, seen@, i as int),
            forall|k: int| 0 <= k < out@.len() ==> way_within(#[trigger] out@[k], n),
        decreases faces.len() - i,
    {
        if seen[i] {
            let f = faces[i];
            proof {
                assert(f.within(n));
                lemma_way(f.a, f.b, n);
                lemma_way(f.b, f.c, n);
                lemma_way(f.c, f.a, n);
            }
            out.push(edge_way(f.a, f.b));
            out.push(edge_way(f.b, f.c));
            out.push(edge_way(f.c, f.a));
        }
        i = i + 1;
    }
    out
}

/// Takes the visible faces out, from the back.
fn take_out(faces: Vec<Triangle>, seen: &Vec<bool>, Ghost(n): Ghost<nat>) -> (r: Vec<Triangle>)
    requires
        seen@.len() == faces@.len(),
        tris_within(faces@, n),
    ensures
        r@ == hidden(faces@, seen@, faces@.len() as int),
        tris_within(r@, n),
{
    let mut rest = faces;
    let ghost whole = hidden(faces@, seen@, faces@.len() as int);
    let mut k: usize = rest.len();
    while k > 0
        invariant
            k <= seen@.len(),
            k <= rest@.len(),
            whole == hidden(rest@, seen@, k as int),
            tris_within(rest@, n),
        decreases k,
    {
        if seen[k - 1] {
            let ghost before = rest@;
            let last: usize = rest.len() - 1;
            let mover = rest[last];
            rest.set(k - 1, mover);
            rest.pop();
            assert(rest@ =~= swapped_out(before, k - 1));
        }
        k = k - 1;
    }
    rest
}

/// Adds a point to the hull.
fn add_point<A: Arithmetic>(
    calc: &mut Calc<A>,
    pts: &Vec<Point3>,
    faces: Vec<Triangle>,
    eps: u64,
    p: usize,
) -> (r: Vec<Triangle>)
    requires
        p < pts@.len(),
        pts@.len() <= u32::MAX,
        tris_within(faces@, pts@.len()),
    ensures
        tris_within(r@, pts@.len()),
        forall|m: Reading| #[trigger]
            final(calc).agrees(m) ==> old(calc).agrees(m) && r@ == with_point(
                m,
                pts@,
                faces@,
                eps,
                p as int,
            ),
{
    let (seen, any) = see(calc, pts, &faces, eps, p);
    if !any {
        return faces;
    }
    let ghost fv = faces@;
    let edges = gather_edges(&faces, &seen, Ghost(pts@.len()));
    let rim = horizon(&edges);
    let mut out = take_out(faces, &seen, Ghost(pts@.len()));
    let ghost kept = out@;
    let ghost added = rim@.map_values(|w: u64| spanned(w, p as u32));
    let mut i: usize = 0;
    assert(kept + added.take(0) =~= kept);
    while i < rim.len()
        invariant
            i <= rim@.len(),
            p < pts@.len(),
            pts@.len() <= u32::MAX,
            added == rim@.map_values(|w: u64| spanned(w, p as u32)),
            is_horizon(edges@, rim@),
            forall|k: int| 0 <= k < edges@.len() ==> way_within(#[trigger] edges@[k], pts@.len()),
            out@ == kept + added.take(i as int),
            tris_within(out@, pts@.len()),
        decreases rim.len() - i,
    {
        let w: u64 = rim[i];
        proof {
            assert(rim@.contains(rim@[i as int]));
            assert(edges@.contains(w));
            let k = choose|k: int| 0 <= k < edges@.len() && edges@[k] == w;
            assert(way_within(edges@[k], pts@.len()));
        }
        out.push(
            Triangle { a: (w / 0x1_0000_0000) as u32, b: (w % 0x1_0000_0000) as u32, c: p as u32 },
        );
        proof {
            assert(added[i as int] == spanned(w, p as u32));
            assert(out@ =~= kept + added.take(i + 1));
        }
        i = i + 1;
    }
    proof {
        assert(added.take(added.len() as int) =~= added);
        assert forall|m: Reading| #[trigger] calc.agrees(m) implies out@ == with_point(
            m,
            pts@,
            fv,
            eps,
            p as int,
        ) by {
            assert(seen@ == seen_from(m, pts@, fv, eps, p as int));
        }
    }
    out
}

/// The convex hull of a point cloud; nothing where it has no volume.
pub fn convex_hull<A: Arithmetic>(calc: &mut Calc<A>, pts: &Vec<Point3>) -> (r: Mesh)
    requires
        pts@.len() <= u32::MAX,
    ensures
        r@.indexed(),
        forall|m: Reading| #[trigger]
            final(calc).agrees(m) ==> old(calc).agrees(m) && r@ == hull_of(m, pts@),
{
    let n: usize = pts.len();
    let nothing = Mesh { verts: Vec::new(), tris: Vec::new() };
    proof {
        assert(nothing@.verts =~= Seq::empty());
        assert(nothing@.tris =~= Seq::empty());
        assert(nothing@ == empty_mesh());
    }
    if n < 4 {
        return nothing;
    }
    let pair = find_pair(calc, pts);
    if is_at_most(pair.far, PICO) {
        return nothing;
    }
    let c: usize = match find_third(calc, pts, pair.a, pair.b) {
        Some(c) => c,
        None => {
            return nothing;
        },
    };
    let d: usize = match find_fourth(calc, pts, pair.a, pair.b, c) {
        Some(d) => d,
        None => {
            return nothing;
        },
    };
    let mut faces = first_faces(
        calc,
        pts,
        pair.a as u32,
        pair.b as u32,
        c as u32,
        d as u32,
    );
    let eps: u64 = calc.apply(NumOp::Mul, pair.far, NANO);
    let ghost start = faces@;
    let ghost first = seq![pair.a, pair.b, c, d];
    let ghost before = *calc;
    let mut p: usize = 0;
    while p < n
        invariant
            p <= n,
            n == pts@.len(),
            n <= u32::MAX,
            first == seq![pair.a, pair.b, c, d],
            tris_within(faces@, pts@.len()),
            forall|m: Reading| #[trigger]
                calc.agrees(m) ==> before.agrees(m) && faces@ == grown_hull(
                    m,
                    pts@,
                    start,
                    first,
                    eps,
                    p as int,
                ),
        decreases n - p,
    {
        let skip: bool = p == pair.a || p == pair.b || p == c || p == d;
        proof {
            assert(first[0] == pair.a && first[1] == pair.b && first[2] == c && first[3] == d);
            assert(skip == first.contains(p));
        }
        if !skip {
            faces = add_point(calc, pts, faces, eps, p);
        }
        p = p + 1;
    }
    let mut verts: Vec<Point3> = Vec::new();
    for i in 0..n
        invariant
            n == pts@.len(),
            verts@ =~= pts@.take(i as int),
    {
        verts.push(pts[i]);
    }
    assert(verts@ =~= pts@);
    Mesh { verts, tris: faces }
}

} // verus!
