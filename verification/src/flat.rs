//! Drawing a tree of flat operations as outlines.

use crate::clip::{
    boolean_2d, combined, from_regions, joined_all, outlines, ring_sets, sets_view, union_all,
    union_multi, unioned, Bop, Clip, PlaneAsk, PlaneLog, PlaneReading,
};
use crate::contours::{copy_ring, regions, rings, Region, RegionView};
use crate::extrude::{caps_below, points_below, prepare, shapes_of, start_of};
use crate::faces::{EarLog, EarReading, Ears};
use crate::hull2d::{flat_hull, hull_2d};
use crate::mesh::{Point3, Triangle};
use crate::node::{FragmentSpec, Node, Point2};
use crate::num::{
    is_less, is_zero, less, negate, negative, zero, Arithmetic, Calc, NumOp, Reading, ONE, TWO,
    ZERO,
};
use crate::offset::{grown_by, growth, offset};
use crate::solid::{greater, lesser, max_of, min_of};
use crate::tessellate::{circle_point, on_circle, round_fragments, round_of};
use crate::text::same_text;
use vstd::prelude::*;

verus! {

// ---- simple outlines -------------------------------------------------------------------------------

/// A rectangle at the origin or around it, counter-clockwise.
pub open spec fn square_of(m: Reading, size: Point2, center: bool) -> Seq<Point2> {
    let x0 = if center {
        m.at(NumOp::Div, negative(size.x), TWO)
    } else {
        ZERO
    };
    let y0 = if center {
        m.at(NumOp::Div, negative(size.y), TWO)
    } else {
        ZERO
    };
    let x1 = m.at(NumOp::Add, x0, size.x);
    let y1 = m.at(NumOp::Add, y0, size.y);
    seq![
        Point2 { x: x0, y: y0 },
        Point2 { x: x1, y: y0 },
        Point2 { x: x1, y: y1 },
        Point2 { x: x0, y: y1 },
    ]
}

/// The outline of a square.
pub fn square_contour<A: Arithmetic>(calc: &mut Calc<A>, size: Point2, center: bool) -> (r: Vec<Point2>)
    ensures
        forall|m: Reading| #[trigger]
            final(calc).agrees(m) ==> old(calc).agrees(m) && r@ == square_of(m, size, center),
{
    let mut x0: u64 = ZERO;
    let mut y0: u64 = ZERO;
    if center {
        x0 = calc.apply(NumOp::Div, negate(size.x), TWO);
        y0 = calc.apply(NumOp::Div, negate(size.y), TWO);
    }
    let x1: u64 = calc.apply(NumOp::Add, x0, size.x);
    let y1: u64 = calc.apply(NumOp::Add, y0, size.y);
    let mut v: Vec<Point2> = Vec::new();
    v.push(Point2 { x: x0, y: y0 });
    v.push(Point2 { x: x1, y: y0 });
    v.push(Point2 { x: x1, y: y1 });
    v.push(Point2 { x: x0, y: y1 });
    proof {
        assert forall|m: Reading| #[trigger] calc.agrees(m) implies v@ == square_of(
            m,
            size,
            center,
        ) by {
            assert(v@ =~= square_of(m, size, center));
        }
    }
    v
}

/// A circle, counter-clockwise.
pub open spec fn circle_of(m: Reading, r: u64, f: FragmentSpec) -> Seq<Point2> {
    let n = round_of(m, r, f);
    Seq::new(n as nat, |i: int| on_circle(m, r, i as u32, n))
}

/// The outline of a circle.
pub fn circle_contour<A: Arithmetic>(calc: &mut Calc<A>, r: u64, f: FragmentSpec) -> (out: Vec<Point2>)
    ensures
        forall|m: Reading| #[trigger]
            final(calc).agrees(m) ==> old(calc).agrees(m) && out@ == circle_of(m, r, f),
{
    let n: u32 = round_fragments(calc, r, f);
    let ghost c1 = *calc;
    let mut v: Vec<Point2> = Vec::new();
    let mut i: u32 = 0;
    while i < n
        invariant
            i <= n,
            v@.len() == i,
            forall|m: Reading| #[trigger]
                calc.agrees(m) ==> c1.agrees(m) && forall|k: int|
                    0 <= k < i ==> #[trigger] v@[k] == on_circle(m, r, k as u32, n),
        decreases n - i,
    {
        let p = circle_point(calc, r, i, n);
        v.push(p);
        i = i + 1;
    }
    proof {
        assert forall|m: Reading| #[trigger] calc.agrees(m) implies v@ == circle_of(m, r, f) by {
            assert(v@ =~= circle_of(m, r, f));
        }
    }
    v
}

/// The points that a path names.
pub open spec fn path_points(points: Seq<Point2>, path: Seq<u32>) -> Seq<Point2> {
    path.map_values(|i: u32| points[i as int])
}

/// The path names points that there are.
pub open spec fn path_fits(n: nat, path: Seq<u32>) -> bool {
    forall|k: int| 0 <= k < path.len() ==> (#[trigger] path[k]) < n
}

/// The paths name points that there are.
pub open spec fn paths_fit(points: Seq<Point2>, paths: Option<Vec<Vec<u32>>>) -> bool {
    match paths {
        Some(v) => forall|i: int|
            0 <= i < v@.len() ==> path_fits(points.len(), (#[trigger] v@[i])@),
        None => true,
    }
}

/// The outlines of a polygon: one to each path, or all points.
pub open spec fn polygon_of(points: Seq<Point2>, paths: Option<Vec<Vec<u32>>>) -> Seq<Seq<Point2>> {
    match paths {
        Some(v) => v@.map_values(|p: Vec<u32>| path_points(points, p@)),
        None => seq![points],
    }
}

/// The outlines of a polygon: its paths, or all its points in order.
pub fn polygon_contours(points: &Vec<Point2>, paths: &Option<Vec<Vec<u32>>>) -> (r: Vec<Vec<Point2>>)
    requires
        paths_fit(points@, *paths),
    ensures
        rings(r@) == polygon_of(points@, *paths),
{
    let mut out: Vec<Vec<Point2>> = Vec::new();
    match paths {
        Some(v) => {
            let ghost whole = polygon_of(points@, *paths);
            let mut i: usize = 0;
            while i < v.len()
                invariant
                    *paths == Some(*v),
                    paths_fit(points@, *paths),
                    whole == polygon_of(points@, *paths),
                    i <= v@.len(),
                    rings(out@) =~= whole.take(i as int),
                decreases v.len() - i,
            {
                let ghost held = rings(out@);
                let path = &v[i];
                assert(path_fits(points@.len(), v@[i as int]@));
                let mut one: Vec<Point2> = Vec::new();
                let mut k: usize = 0;
                while k < path.len()
                    invariant
                        path_fits(points@.len(), path@),
                        k <= path@.len(),
                        one@ =~= path_points(points@, path@).take(k as int),
                    decreases path.len() - k,
                {
                    assert(path@[k as int] < points@.len());
                    one.push(points[path[k] as usize]);
                    k = k + 1;
                }
                assert(one@ =~= path_points(points@, path@));
                let ghost ov = one@;
                out.push(one);
                assert(rings(out@) =~= held.push(ov));
                assert(whole[i as int] == ov);
                i = i + 1;
            }
            assert(rings(out@) =~= whole);
        },
        None => {
            out.push(copy_ring(points));
            assert(rings(out@) =~= seq![points@]);
        },
    }
    out
}

// ---- moving outlines ---------------------------------------------------------------------------------

/// How points of the plane are moved.
#[derive(Clone, Copy, Debug, PartialEq, Eq, Structural)]
pub enum Motion {
    Shift(Point2),
    Stretch(Point2),
    Turn { s: u64, c: u64 },
    /// Reflected across the line through the origin with normal `v`, whose
    /// square is `d`.
    Mirror { v: Point2, d: u64 },
    Affine { a: u64, b: u64, c: u64, d: u64, e: u64, f: u64 },
}

/// Where a motion takes a point.
pub open spec fn moved(m: Reading, how: Motion, p: Point2) -> Point2 {
    match how {
        Motion::Shift(v) => Point2 {
            x: m.at(NumOp::Add, p.x, v.x),
            y: m.at(NumOp::Add, p.y, v.y),
        },
        Motion::Stretch(v) => Point2 {
            x: m.at(NumOp::Mul, p.x, v.x),
            y: m.at(NumOp::Mul, p.y, v.y),
        },
        Motion::Turn { s, c } => Point2 {
            x: m.at(NumOp::Sub, m.at(NumOp::Mul, p.x, c), m.at(NumOp::Mul, p.y, s)),
            y: m.at(NumOp::Add, m.at(NumOp::Mul, p.x, s), m.at(NumOp::Mul, p.y, c)),
        },
        Motion::Mirror { v, d } => {
            let t = m.at(
                NumOp::Div,
                m.at(
                    NumOp::Mul,
                    TWO,
                    m.at(NumOp::Add, m.at(NumOp::Mul, p.x, v.x), m.at(NumOp::Mul, p.y, v.y)),
                ),
                d,
            );
            Point2 {
                x: m.at(NumOp::Sub, p.x, m.at(NumOp::Mul, t, v.x)),
                y: m.at(NumOp::Sub, p.y, m.at(NumOp::Mul, t, v.y)),
            }
        },
        Motion::Affine { a, b, c, d, e, f } => Point2 {
            x: m.at(
                NumOp::Add,
                m.at(NumOp::Add, m.at(NumOp::Mul, a, p.x), m.at(NumOp::Mul, b, p.y)),
                c,
            ),
            y: m.at(
                NumOp::Add,
                m.at(NumOp::Add, m.at(NumOp::Mul, d, p.x), m.at(NumOp::Mul, e, p.y)),
                f,
            ),
        },
    }
}

/// Where a motion takes an outline.
pub open spec fn moved_ring(m: Reading, how: Motion, c: Seq<Point2>) -> Seq<Point2> {
    c.map_values(|p: Point2| moved(m, how, p))
}

/// Where a motion takes outlines.
pub open spec fn moved_rings(m: Reading, how: Motion, v: Seq<Seq<Point2>>) -> Seq<Seq<Point2>> {
    v.map_values(|c: Seq<Point2>| moved_ring(m, how, c))
}

fn move_point<A: Arithmetic>(calc: &mut Calc<A>, how: Motion, p: Point2) -> (r: Point2)
    ensures
        forall|m: Reading| #[trigger]
            final(calc).agrees(m) ==> old(calc).agrees(m) && r == moved(m, how, p),
{
    match how {
        Motion::Shift(v) => {
            let x: u64 = calc.apply(NumOp::Add, p.x, v.x);
            let y: u64 = calc.apply(NumOp::Add, p.y, v.y);
            Point2 { x, y }
        },
        Motion::Stretch(v) => {
            let x: u64 = calc.apply(NumOp::Mul, p.x, v.x);
            let y: u64 = calc.apply(NumOp::Mul, p.y, v.y);
            Point2 { x, y }
        },
        Motion::Turn { s, c } => {
            let xc: u64 = calc.apply(NumOp::Mul, p.x, c);
            let ys: u64 = calc.apply(NumOp::Mul, p.y, s);
            let x: u64 = calc.apply(NumOp::Sub, xc, ys);
            let xs: u64 = calc.apply(NumOp::Mul, p.x, s);
            let yc: u64 = calc.apply(NumOp::Mul, p.y, c);
            let y: u64 = calc.apply(NumOp::Add, xs, yc);
            Point2 { x, y }
        },
        Motion::Mirror { v, d } => {
            let px: u64 = calc.apply(NumOp::Mul, p.x, v.x);
            let py: u64 = calc.apply(NumOp::Mul, p.y, v.y);
            let s: u64 = calc.apply(NumOp::Add, px, py);
            let s2: u64 = calc.apply(NumOp::Mul, TWO, s);
            let t: u64 = calc.apply(NumOp::Div, s2, d);
            let tx: u64 = calc.apply(NumOp::Mul, t, v.x);
            let x: u64 = calc.apply(NumOp::Sub, p.x, tx);
            let ty: u64 = calc.apply(NumOp::Mul, t, v.y);
            let y: u64 = calc.apply(NumOp::Sub, p.y, ty);
            Point2 { x, y }
        },
        Motion::Affine { a, b, c, d, e, f } => {
            let ax: u64 = calc.apply(NumOp::Mul, a, p.x);
            let by: u64 = calc.apply(NumOp::Mul, b, p.y);
            let u: u64 = calc.apply(NumOp::Add, ax, by);
            let x: u64 = calc.apply(NumOp::Add, u, c);
            let dx: u64 = calc.apply(NumOp::Mul, d, p.x);
            let ey: u64 = calc.apply(NumOp::Mul, e, p.y);
            let w: u64 = calc.apply(NumOp::Add, dx, ey);
            let y: u64 = calc.apply(NumOp::Add, w, f);
            Point2 { x, y }
        },
    }
}

fn move_ring<A: Arithmetic>(calc: &mut Calc<A>, how: Motion, c: &Vec<Point2>) -> (r: Vec<Point2>)
    ensures
        forall|m: Reading| #[trigger]
            final(calc).agrees(m) ==> old(calc).agrees(m) && r@ == moved_ring(m, how, c@),
{
    let mut out: Vec<Point2> = Vec::new();
    let mut i: usize = 0;
    while i < c.len()
        invariant
            i <= c@.len(),
            out@.len() == i,
            forall|m: Reading| #[trigger]
                calc.agrees(m) ==> old(calc).agrees(m) && forall|k: int|
                    0 <= k < i ==> #[trigger] out@[k] == moved(m, how, c@[k]),
        decreases c.len() - i,
    {
        let p = move_point(calc, how, c[i]);
        out.push(p);
        i = i + 1;
    }
    proof {
        assert forall|m: Reading| #[trigger] calc.agrees(m) implies out@ == moved_ring(m, how, c@) by {
            assert(out@ =~= moved_ring(m, how, c@));
        }
    }
    out
}

/// Moves outlines.
pub fn map_contours<A: Arithmetic>(calc: &mut Calc<A>, how: Motion, v: &Vec<Vec<Point2>>) -> (r: Vec<
    Vec<Point2>,
>)
    ensures
        forall|m: Reading| #[trigger]
            final(calc).agrees(m) ==> old(calc).agrees(m) && rings(r@) == moved_rings(
                m,
                how,
                rings(v@),
            ),
{
    let mut out: Vec<Vec<Point2>> = Vec::new();
    let mut i: usize = 0;
    while i < v.len()
        invariant
            i <= v@.len(),
            out@.len() == i,
            forall|m: Reading| #[trigger]
                calc.agrees(m) ==> old(calc).agrees(m) && forall|k: int|
                    0 <= k < i ==> (#[trigger] out@[k])@ == moved_ring(m, how, v@[k]@),
        decreases v.len() - i,
    {
        let c = move_ring(calc, how, &v[i]);
        out.push(c);
        i = i + 1;
    }
    proof {
        assert forall|m: Reading| #[trigger] calc.agrees(m) implies rings(out@) == moved_rings(
            m,
            how,
            rings(v@),
        ) by {
            assert(rings(out@) =~= moved_rings(m, how, rings(v@)));
        }
    }
    out
}

// ---- resizing ----------------------------------------------------------------------------------------

/// The largest finite number.
pub const LARGEST: u64 = 0x7fef_ffff_ffff_ffff;

/// The least finite number.
pub const LEAST: u64 = 0xffef_ffff_ffff_ffff;

/// A box of the plane.
#[derive(Clone, Copy, Debug, PartialEq, Eq, Structural)]
pub struct Box2 {
    pub lo: Point2,
    pub hi: Point2,
}

/// A box grown to hold the first `n` points.
pub open spec fn ring_box(c: Seq<Point2>, start: Box2, n: int) -> Box2
    decreases n,
{
    if n <= 0 {
        start
    } else {
        let b = ring_box(c, start, n - 1);
        let p = c[n - 1];
        Box2 {
            lo: Point2 { x: lesser(b.lo.x, p.x), y: lesser(b.lo.y, p.y) },
            hi: Point2 { x: greater(b.hi.x, p.x), y: greater(b.hi.y, p.y) },
        }
    }
}

/// The box of the first `n` outlines.
pub open spec fn box_below(v: Seq<Seq<Point2>>, n: int) -> Box2
    decreases n,
{
    if n <= 0 {
        Box2 { lo: Point2 { x: LARGEST, y: LARGEST }, hi: Point2 { x: LEAST, y: LEAST } }
    } else {
        ring_box(v[n - 1], box_below(v, n - 1), v[n - 1].len() as int)
    }
}

fn find_box(v: &Vec<Vec<Point2>>) -> (b: Box2)
    ensures
        b == box_below(rings(v@), v@.len() as int),
{
    let mut b = Box2 {
        lo: Point2 { x: LARGEST, y: LARGEST },
        hi: Point2 { x: LEAST, y: LEAST },
    };
    let mut i: usize = 0;
    while i < v.len()
        invariant
            i <= v@.len(),
            b == box_below(rings(v@), i as int),
        decreases v.len() - i,
    {
        assert(rings(v@)[i as int] == v@[i as int]@);
        let c = &v[i];
        let ghost start = b;
        let mut k: usize = 0;
        while k < c.len()
            invariant
                k <= c@.len(),
                b == ring_box(c@, start, k as int),
            decreases c.len() - k,
        {
            let p = c[k];
            b = Box2 {
                lo: Point2 { x: min_of(b.lo.x, p.x), y: min_of(b.lo.y, p.y) },
                hi: Point2 { x: max_of(b.hi.x, p.x), y: max_of(b.hi.y, p.y) },
            };
            k = k + 1;
        }
        i = i + 1;
    }
    b
}

/// The factor that an axis is asked to be scaled by.
pub open spec fn asked_factor(m: Reading, new: u64, size: u64) -> Option<u64> {
    if less(ZERO, new) && less(ZERO, size) {
        Some(m.at(NumOp::Div, new, size))
    } else {
        None
    }
}

/// The factor of an axis: the one asked for, or the first one asked for where it
/// is to follow, or none.
pub open spec fn axis_factor(own: Option<u64>, first: Option<u64>, new: u64, auto: bool) -> u64 {
    if zero(new) && auto && first is Some {
        first->0
    } else {
        match own {
            Some(f) => f,
            None => ONE,
        }
    }
}

/// Outlines scaled so that their box has the new size.
pub open spec fn resized(m: Reading, v: Seq<Seq<Point2>>, new: Point3, auto_x: bool, auto_y: bool) -> Seq<
    Seq<Point2>,
> {
    let b = box_below(v, v.len() as int);
    if less(b.hi.x, b.lo.x) {
        v
    } else {
        let fx = asked_factor(m, new.x, m.at(NumOp::Sub, b.hi.x, b.lo.x));
        let fy = asked_factor(m, new.y, m.at(NumOp::Sub, b.hi.y, b.lo.y));
        let first = if fx is Some {
            fx
        } else {
            fy
        };
        moved_rings(
            m,
            Motion::Stretch(
                Point2 {
                    x: axis_factor(fx, first, new.x, auto_x),
                    y: axis_factor(fy, first, new.y, auto_y),
                },
            ),
            v,
        )
    }
}

fn find_factor<A: Arithmetic>(calc: &mut Calc<A>, new: u64, size: u64) -> (r: Option<u64>)
    ensures
        forall|m: Reading| #[trigger]
            final(calc).agrees(m) ==> old(calc).agrees(m) && r == asked_factor(m, new, size),
{
    if is_less(ZERO, new) && is_less(ZERO, size) {
        Some(calc.apply(NumOp::Div, new, size))
    } else {
        None
    }
}

fn choose_factor(own: Option<u64>, first: Option<u64>, new: u64, auto: bool) -> (r: u64)
    ensures
        r == axis_factor(own, first, new, auto),
{
    if is_zero(new) && auto {
        match first {
            Some(f) => {
                return f;
            },
            None => {},
        }
    }
    match own {
        Some(f) => f,
        None => ONE,
    }
}

/// Scales outlines so that their box has the new size.
pub fn resize2d<A: Arithmetic>(
    calc: &mut Calc<A>,
    v: Vec<Vec<Point2>>,
    new: Point3,
    auto_x: bool,
    auto_y: bool,
) -> (r: Vec<Vec<Point2>>)
    ensures
        forall|m: Reading| #[trigger]
            final(calc).agrees(m) ==> old(calc).agrees(m) && rings(r@) == resized(
                m,
                rings(v@),
                new,
                auto_x,
                auto_y,
            ),
{
    let b = find_box(&v);
    if is_less(b.hi.x, b.lo.x) {
        return v;
    }
    let w: u64 = calc.apply(NumOp::Sub, b.hi.x, b.lo.x);
    let h: u64 = calc.apply(NumOp::Sub, b.hi.y, b.lo.y);
    let fx = find_factor(calc, new.x, w);
    let fy = find_factor(calc, new.y, h);
    let first = match fx {
        Some(f) => Some(f),
        None => fy,
    };
    let x: u64 = choose_factor(fx, first, new.x, auto_x);
    let y: u64 = choose_factor(fy, first, new.y, auto_y);
    map_contours(calc, Motion::Stretch(Point2 { x, y }), &v)
}

// ---- sums of shapes ----------------------------------------------------------------------------------

/// The host that clips and cuts, and what it has answered.
pub struct Plane<H: Clip + Ears, A: Arithmetic> {
    pub host: H,
    pub calc: Calc<A>,
    pub ears: EarLog,
    pub clips: PlaneLog,
}

/// The corners of a triangle.
pub open spec fn corners(points: Seq<Point2>, t: Triangle) -> Seq<Point2> {
    seq![points[t.a as int], points[t.b as int], points[t.c as int]]
}

/// The triangles that fill outlines, each by its corners; none where they have
/// too many points.
pub open spec fn tiles_of(m: Reading, e: EarReading, contours: Seq<Seq<Point2>>) -> Seq<Seq<Point2>> {
    let v = shapes_of(m, contours);
    let n = v.len() as int;
    if start_of(v, n) > u32::MAX {
        Seq::empty()
    } else {
        caps_below(m, e, v, n).map_values(|t: Triangle| corners(points_below(m, v, n), t))
    }
}

fn triangles_2d<H: Clip + Ears, A: Arithmetic>(pl: &mut Plane<H, A>, contours: &Vec<Vec<Point2>>) -> (r: Vec<
    Vec<Point2>,
>)
    ensures
        forall|m: Reading, e: EarReading, p: PlaneReading|
            #![trigger final(pl).calc.agrees(m), final(pl).ears.agrees(e), final(pl).clips.agrees(p)]
            final(pl).calc.agrees(m) && final(pl).ears.agrees(e) && final(pl).clips.agrees(p)
                ==> old(pl).calc.agrees(m) && old(pl).ears.agrees(e) && old(pl).clips.agrees(p)
                && rings(r@) == tiles_of(m, e, rings(contours@)),
        forall|i: int| 0 <= i < r@.len() ==> (#[trigger] r@[i])@.len() == 3,
{
    let mut out: Vec<Vec<Point2>> = Vec::new();
    let prepared = prepare(&mut pl.calc, &mut pl.ears, &mut pl.host, contours);
    let q = match prepared {
        Some(q) => q,
        None => {
            assert(rings(out@) =~= Seq::empty());
            return out;
        },
    };
    let ghost whole = q.caps@.map_values(|t: Triangle| corners(q.points@, t));
    let mut i: usize = 0;
    assert(rings(out@) =~= whole.take(0));
    while i < q.caps.len()
        invariant
            i <= q.caps@.len(),
            forall|k: int|
                0 <= k < q.caps@.len() ==> (#[trigger] q.caps@[k]).within(q.points@.len()),
            whole == q.caps@.map_values(|t: Triangle| corners(q.points@, t)),
            rings(out@) == whole.take(i as int),
            forall|k: int| 0 <= k < out@.len() ==> (#[trigger] out@[k])@.len() == 3,
        decreases q.caps.len() - i,
    {
        let t = q.caps[i];
        assert(q.caps@[i as int].within(q.points@.len()));
        let ghost held = rings(out@);
        let mut one: Vec<Point2> = Vec::new();
        one.push(q.points[t.a as usize]);
        one.push(q.points[t.b as usize]);
        one.push(q.points[t.c as usize]);
        assert(one@ =~= corners(q.points@, t));
        let ghost ov = one@;
        out.push(one);
        assert(rings(out@) =~= held.push(ov));
        assert(rings(out@) =~= whole.take(i + 1));
        i = i + 1;
    }
    assert(whole.take(whole.len() as int) =~= whole);
    out
}

/// The sum of two points.
pub open spec fn sum_of(m: Reading, a: Point2, b: Point2) -> Point2 {
    Point2 { x: m.at(NumOp::Add, a.x, b.x), y: m.at(NumOp::Add, a.y, b.y) }
}

/// The sums of the corners of two triangles.
pub open spec fn sums_of(m: Reading, x: Seq<Point2>, y: Seq<Point2>) -> Seq<Point2> {
    seq![
        sum_of(m, x[0], y[0]),
        sum_of(m, x[0], y[1]),
        sum_of(m, x[0], y[2]),
        sum_of(m, x[1], y[0]),
        sum_of(m, x[1], y[1]),
        sum_of(m, x[1], y[2]),
        sum_of(m, x[2], y[0]),
        sum_of(m, x[2], y[1]),
        sum_of(m, x[2], y[2]),
    ]
}

/// The sets with the hull of the sums of two triangles.
pub open spec fn with_sum(m: Reading, done: Seq<Seq<RegionView>>, x: Seq<Point2>, y: Seq<Point2>) -> Seq<
    Seq<RegionView>,
> {
    let h = flat_hull(m, sums_of(m, x, y));
    if h.len() > 0 && h[0].len() >= 3 {
        done.push(seq![RegionView { outer: h[0], holes: Seq::empty() }])
    } else {
        done
    }
}

/// The sets with the sums of a triangle and the first `k` others.
pub open spec fn with_sums(
    m: Reading,
    done: Seq<Seq<RegionView>>,
    x: Seq<Point2>,
    ys: Seq<Seq<Point2>>,
    k: int,
) -> Seq<Seq<RegionView>>
    decreases k,
{
    if k <= 0 {
        done
    } else {
        with_sum(m, with_sums(m, done, x, ys, k - 1), x, ys[k - 1])
    }
}

/// The sums of the first `n` triangles and all others.
pub open spec fn sums_below(m: Reading, xs: Seq<Seq<Point2>>, ys: Seq<Seq<Point2>>, n: int) -> Seq<
    Seq<RegionView>,
>
    decreases n,
{
    if n <= 0 {
        Seq::empty()
    } else {
        with_sums(m, sums_below(m, xs, ys, n - 1), xs[n - 1], ys, ys.len() as int)
    }
}

/// The sum of two shapes: every triangle of one added to every one of the other.
pub open spec fn summed(
    m: Reading,
    e: EarReading,
    p: PlaneReading,
    a: Seq<Seq<Point2>>,
    b: Seq<Seq<Point2>>,
) -> Seq<Seq<Point2>> {
    let xs = tiles_of(m, e, a);
    let ys = tiles_of(m, e, b);
    if xs.len() == 0 || ys.len() == 0 {
        Seq::empty()
    } else {
        outlines(joined_all(p, sums_below(m, xs, ys, xs.len() as int)))
    }
}

fn add_points<A: Arithmetic>(calc: &mut Calc<A>, a: Point2, b: Point2) -> (r: Point2)
    ensures
        forall|m: Reading| #[trigger]
            final(calc).agrees(m) ==> old(calc).agrees(m) && r == sum_of(m, a, b),
{
    let x: u64 = calc.apply(NumOp::Add, a.x, b.x);
    let y: u64 = calc.apply(NumOp::Add, a.y, b.y);
    Point2 { x, y }
}

fn add_triangles<A: Arithmetic>(calc: &mut Calc<A>, x: &Vec<Point2>, y: &Vec<Point2>) -> (r: Vec<Point2>)
    requires
        x@.len() == 3,
        y@.len() == 3,
    ensures
        forall|m: Reading| #[trigger]
            final(calc).agrees(m) ==> old(calc).agrees(m) && r@ == sums_of(m, x@, y@),
{
    let s0 = add_points(calc, x[0], y[0]);
    let s1 = add_points(calc, x[0], y[1]);
    let s2 = add_points(calc, x[0], y[2]);
    let s3 = add_points(calc, x[1], y[0]);
    let s4 = add_points(calc, x[1], y[1]);
    let s5 = add_points(calc, x[1], y[2]);
    let s6 = add_points(calc, x[2], y[0]);
    let s7 = add_points(calc, x[2], y[1]);
    let s8 = add_points(calc, x[2], y[2]);
    let mut v: Vec<Point2> = Vec::new();
    v.push(s0);
    v.push(s1);
    v.push(s2);
    v.push(s3);
    v.push(s4);
    v.push(s5);
    v.push(s6);
    v.push(s7);
    v.push(s8);
    assert(v@ =~= seq![s0, s1, s2, s3, s4, s5, s6, s7, s8]);
    v
}

fn push_sum<A: Arithmetic>(
    calc: &mut Calc<A>,
    sets: &mut Vec<Vec<Region>>,
    x: &Vec<Point2>,
    y: &Vec<Point2>,
)
    requires
        x@.len() == 3,
        y@.len() == 3,
    ensures
        forall|m: Reading| #[trigger]
            final(calc).agrees(m) ==> old(calc).agrees(m) && sets_view(final(sets)@) == with_sum(
                m,
                sets_view(old(sets)@),
                x@,
                y@,
            ),
{
    let sums = add_triangles(calc, x, y);
    let h = hull_2d(calc, &sums);
    let ghost hv = rings(h@);
    if h.len() > 0 {
        assert(hv[0] == h@[0]@);
        if h[0].len() >= 3 {
            let ghost held = sets_view(sets@);
            let holes: Vec<Vec<Point2>> = Vec::new();
            assert(rings(holes@) =~= Seq::empty());
            let one = Region { outer: copy_ring(&h[0]), holes };
            let ghost ov = one@;
            let mut set: Vec<Region> = Vec::new();
            set.push(one);
            assert(regions(set@) =~= seq![ov]);
            let ghost sv = regions(set@);
            sets.push(set);
            assert(sets_view(sets@) =~= held.push(sv));
        }
    }
}

/// The sum of two shapes.
pub fn minkowski_pair_2d<H: Clip + Ears, A: Arithmetic>(
    pl: &mut Plane<H, A>,
    a: &Vec<Vec<Point2>>,
    b: &Vec<Vec<Point2>>,
) -> (r: Vec<Vec<Point2>>)
    ensures
        forall|m: Reading, e: EarReading, p: PlaneReading|
            #![trigger final(pl).calc.agrees(m), final(pl).ears.agrees(e), final(pl).clips.agrees(p)]
            final(pl).calc.agrees(m) && final(pl).ears.agrees(e) && final(pl).clips.agrees(p)
                ==> old(pl).calc.agrees(m) && old(pl).ears.agrees(e) && old(pl).clips.agrees(p)
                && rings(r@) == summed(m, e, p, rings(a@), rings(b@)),
{
    let xs = triangles_2d(pl, a);
    let ys = triangles_2d(pl, b);
    let ghost xv = rings(xs@);
    let ghost yv = rings(ys@);
    if xs.len() == 0 || ys.len() == 0 {
        let none: Vec<Vec<Point2>> = Vec::new();
        assert(rings(none@) =~= Seq::empty());
        return none;
    }
    let ghost c1 = pl.calc;
    let mut sets: Vec<Vec<Region>> = Vec::new();
    let mut i: usize = 0;
    assert(sets_view(sets@) =~= Seq::empty());
    let ghost pl1 = *pl;
    while i < xs.len()
        invariant
            i <= xs@.len(),
            xv == rings(xs@),
            yv == rings(ys@),
            forall|k: int| 0 <= k < xs@.len() ==> (#[trigger] xs@[k])@.len() == 3,
            forall|k: int| 0 <= k < ys@.len() ==> (#[trigger] ys@[k])@.len() == 3,
            pl.ears == pl1.ears,
            pl.clips == pl1.clips,
            forall|m: Reading| #[trigger]
                pl.calc.agrees(m) ==> c1.agrees(m) && sets_view(sets@) == sums_below(
                    m,
                    xv,
                    yv,
                    i as int,
                ),
        decreases xs.len() - i,
    {
        let x = &xs[i];
        assert(xv[i as int] == x@);
        let ghost c2 = pl.calc;
        let ghost held = sets_view(sets@);
        let mut k: usize = 0;
        while k < ys.len()
            invariant
                k <= ys@.len(),
                x@.len() == 3,
                yv == rings(ys@),
                forall|j: int| 0 <= j < ys@.len() ==> (#[trigger] ys@[j])@.len() == 3,
                pl.ears == pl1.ears,
                pl.clips == pl1.clips,
                forall|m: Reading| #[trigger]
                    pl.calc.agrees(m) ==> c2.agrees(m) && sets_view(sets@) == with_sums(
                        m,
                        held,
                        x@,
                        yv,
                        k as int,
                    ),
            decreases ys.len() - k,
        {
            assert(yv[k as int] == ys@[k as int]@);
            push_sum(&mut pl.calc, &mut sets, x, &ys[k]);
            k = k + 1;
        }
        i = i + 1;
    }
    let joined = union_multi(&mut pl.clips, &mut pl.host, sets);
    from_regions(&joined)
}

/// The sets that are not empty among the first `n`.
pub open spec fn filled_sets(v: Seq<Seq<Seq<Point2>>>, n: int) -> Seq<Seq<Seq<Point2>>>
    decreases n,
{
    if n <= 0 {
        Seq::empty()
    } else if v[n - 1].len() > 0 {
        filled_sets(v, n - 1).push(v[n - 1])
    } else {
        filled_sets(v, n - 1)
    }
}

/// The sum of the first `n` shapes.
pub open spec fn summed_below(
    m: Reading,
    e: EarReading,
    p: PlaneReading,
    v: Seq<Seq<Seq<Point2>>>,
    n: int,
) -> Seq<Seq<Point2>>
    decreases n,
{
    if n <= 0 {
        Seq::empty()
    } else if n == 1 {
        v[0]
    } else {
        summed(m, e, p, summed_below(m, e, p, v, n - 1), v[n - 1])
    }
}

/// The sum of shapes.
fn minkowski_2d<H: Clip + Ears, A: Arithmetic>(pl: &mut Plane<H, A>, sets: Vec<Vec<Vec<Point2>>>) -> (r: Vec<
    Vec<Point2>,
>)
    ensures
        forall|m: Reading, e: EarReading, p: PlaneReading|
            #![trigger final(pl).calc.agrees(m), final(pl).ears.agrees(e), final(pl).clips.agrees(p)]
            final(pl).calc.agrees(m) && final(pl).ears.agrees(e) && final(pl).clips.agrees(p)
                ==> old(pl).calc.agrees(m) && old(pl).ears.agrees(e) && old(pl).clips.agrees(p)
                && rings(r@) == ({
                    let v = filled_sets(ring_sets(sets@), sets@.len() as int);
                    summed_below(m, e, p, v, v.len() as int)
                }),
{
    let ghost sv = ring_sets(sets@);
    let ghost pl0 = *pl;
    let mut acc: Vec<Vec<Point2>> = Vec::new();
    let mut any: bool = false;
    let mut i: usize = 0;
    assert(rings(acc@) =~= Seq::empty());
    while i < sets.len()
        invariant
            i <= sets@.len(),
            sv == ring_sets(sets@),
            any == (filled_sets(sv, i as int).len() > 0),
            forall|m: Reading, e: EarReading, p: PlaneReading|
                #![trigger pl.calc.agrees(m), pl.ears.agrees(e), pl.clips.agrees(p)]
                pl.calc.agrees(m) && pl.ears.agrees(e) && pl.clips.agrees(p) ==> pl0.calc.agrees(m)
                    && pl0.ears.agrees(e) && pl0.clips.agrees(p) && rings(acc@) == summed_below(
                    m,
                    e,
                    p,
                    filled_sets(sv, i as int),
                    filled_sets(sv, i as int).len() as int,
                ),
        decreases sets.len() - i,
    {
        assert(sv[i as int] == rings(sets@[i as int]@));
        assert(sv[i as int].len() == sets@[i as int]@.len());
        let ghost pl1 = *pl;
        let ghost before = filled_sets(sv, i as int);
        if sets[i].len() > 0 {
            if any {
                let next = minkowski_pair_2d(pl, &acc, &sets[i]);
                proof {
                    assert forall|m: Reading, e: EarReading, p: PlaneReading|
                        #![trigger pl.calc.agrees(m), pl.ears.agrees(e), pl.clips.agrees(p)]
                        pl.calc.agrees(m) && pl.ears.agrees(e) && pl.clips.agrees(p) implies rings(
                        next@,
                    ) == summed_below(
                        m,
                        e,
                        p,
                        filled_sets(sv, i + 1),
                        filled_sets(sv, i + 1).len() as int,
                    ) by {
                        assert(pl1.calc.agrees(m) && pl1.ears.agrees(e) && pl1.clips.agrees(p));
                        lemma_summed_prefix(
                            m,
                            e,
                            p,
                            before,
                            filled_sets(sv, i + 1),
                            before.len() as int,
                        );
                    }
                }
                acc = next;
            } else {
                acc = copy_rings(&sets[i]);
                any = true;
            }
        }
        i = i + 1;
    }
    acc
}

proof fn lemma_summed_prefix(
    m: Reading,
    e: EarReading,
    p: PlaneReading,
    a: Seq<Seq<Seq<Point2>>>,
    b: Seq<Seq<Seq<Point2>>>,
    n: int,
)
    requires
        n <= a.len() <= b.len(),
        forall|i: int| 0 <= i < n ==> #[trigger] a[i] == b[i],
    ensures
        summed_below(m, e, p, a, n) == summed_below(m, e, p, b, n),
    decreases n,
{
    if n > 1 {
        lemma_summed_prefix(m, e, p, a, b, n - 1);
    }
}

fn copy_rings(v: &Vec<Vec<Point2>>) -> (r: Vec<Vec<Point2>>)
    ensures
        rings(r@) == rings(v@),
{
    let mut out: Vec<Vec<Point2>> = Vec::new();
    for i in 0..v.len()
        invariant
            rings(out@) =~= rings(v@).take(i as int),
    {
        let ghost held = rings(out@);
        let one = copy_ring(&v[i]);
        let ghost ov = one@;
        out.push(one);
        assert(rings(out@) =~= held.push(ov));
    }
    assert(rings(out@) =~= rings(v@));
    out
}

// ---- the whole tree ------------------------------------------------------------------------------------

/// The paths of every polygon in the tree name points that there are, and every
/// matrix has sixteen numbers.
pub open spec fn drawable(node: Node) -> bool
    decreases node,
{
    match node {
        Node::Polygon { points, paths } => paths_fit(points@, paths),
        Node::Offset { child, .. } => drawable(*child),
        Node::Translate { child, .. } => drawable(*child),
        Node::Scale { child, .. } => drawable(*child),
        Node::Rotate { child, .. } => drawable(*child),
        Node::Mirror { child, .. } => drawable(*child),
        Node::MultMatrix { m, child } => m@.len() == 16 && drawable(*child),
        Node::Resize { child, .. } => drawable(*child),
        Node::Color { child, .. } => drawable(*child),
        Node::Highlight(child) => drawable(*child),
        Node::Provenance { child, .. } => drawable(*child),
        Node::Group(children) => all_drawable(children),
        Node::Union(children) => all_drawable(children),
        Node::Difference(children) => all_drawable(children),
        Node::Intersection(children) => all_drawable(children),
        Node::Hull(children) => all_drawable(children),
        Node::Minkowski(children) => all_drawable(children),
        _ => true,
    }
}

/// All children can be drawn.
pub open spec fn all_drawable(children: Vec<Node>) -> bool
    decreases children,
{
    forall|i: int| 0 <= i < children@.len() ==> drawable(#[trigger] children@[i])
}

/// The first `n` of some outlines one after the other.
pub open spec fn strung_points(v: Seq<Seq<Point2>>, n: int) -> Seq<Point2>
    decreases n,
{
    if n <= 0 {
        Seq::empty()
    } else {
        strung_points(v, n - 1) + v[n - 1]
    }
}

/// The points of the first `n` shapes.
pub open spec fn shape_points(v: Seq<Seq<Seq<Point2>>>, n: int) -> Seq<Point2>
    decreases n,
{
    if n <= 0 {
        Seq::empty()
    } else {
        shape_points(v, n - 1) + strung_points(v[n - 1], v[n - 1].len() as int)
    }
}

/// The first shape combined with the next ones up to the `n`-th.
pub open spec fn met_below(m: Reading, p: PlaneReading, v: Seq<Seq<Seq<Point2>>>, n: int) -> Seq<Seq<Point2>>
    decreases n,
{
    if n <= 0 {
        Seq::empty()
    } else if n == 1 {
        v[0]
    } else {
        combined(m, p, met_below(m, p, v, n - 1), v[n - 1], Bop::Intersection)
    }
}

/// The outlines of regions as they are.
pub open spec fn outers(v: Seq<RegionView>) -> Seq<Seq<Point2>> {
    v.map_values(|r: RegionView| r.outer)
}

/// The square of a vector of the plane.
pub open spec fn square_sum(m: Reading, v: Point3) -> u64 {
    m.at(NumOp::Add, m.at(NumOp::Mul, v.x, v.x), m.at(NumOp::Mul, v.y, v.y))
}

/// The first `n` children drawn.
pub open spec fn drawn_below(
    m: Reading,
    e: EarReading,
    p: PlaneReading,
    children: Vec<Node>,
    n: int,
) -> Seq<Seq<Seq<Point2>>>
    decreases children, n,
{
    if n <= 0 || n > children@.len() {
        Seq::empty()
    } else {
        drawn_below(m, e, p, children, n - 1).push(drawn(m, e, p, children@[n - 1]))
    }
}

/// The outlines that a flat tree comes to.
pub open spec fn drawn(m: Reading, e: EarReading, p: PlaneReading, node: Node) -> Seq<Seq<Point2>>
    decreases node, 0int,
{
    match node {
        Node::Square { size, center } => seq![square_of(m, size, center)],
        Node::Circle { r, frags } => seq![circle_of(m, r, frags)],
        Node::Polygon { points, paths } => polygon_of(points@, paths),
        Node::Import { data, format } => if format@ == "dxf"@ || format@ == "svg"@ {
            outers(p(PlaneAsk::Import(data@, format@)))
        } else {
            Seq::empty()
        },
        Node::Offset { r, delta, chamfer, frags, child } => grown_by(
            m,
            p,
            drawn(m, e, p, *child),
            growth(r, delta, chamfer, frags),
        ),
        Node::Translate { v, child } => moved_rings(
            m,
            Motion::Shift((Point2 { x: v.x, y: v.y })),
            drawn(m, e, p, *child),
        ),
        Node::Scale { v, child } => moved_rings(
            m,
            Motion::Stretch((Point2 { x: v.x, y: v.y })),
            drawn(m, e, p, *child),
        ),
        Node::Rotate { deg, child } => {
            let a = m.at(NumOp::ToRadians, deg.z, 0);
            moved_rings(
                m,
                Motion::Turn { s: m.at(NumOp::Sin, a, 0), c: m.at(NumOp::Cos, a, 0) },
                drawn(m, e, p, *child),
            )
        },
        Node::Mirror { v, child } => {
            let d = square_sum(m, v);
            if zero(d) {
                drawn(m, e, p, *child)
            } else {
                moved_rings(
                    m,
                    Motion::Mirror { v: (Point2 { x: v.x, y: v.y }), d },
                    drawn(m, e, p, *child),
                )
            }
        },
        Node::MultMatrix { m: rows, child } => moved_rings(
            m,
            Motion::Affine {
                a: rows@[0],
                b: rows@[1],
                c: rows@[3],
                d: rows@[4],
                e: rows@[5],
                f: rows@[7],
            },
            drawn(m, e, p, *child),
        ),
        Node::Resize { new, auto_x, auto_y, child, .. } => resized(
            m,
            drawn(m, e, p, *child),
            new,
            auto_x,
            auto_y,
        ),
        Node::Group(children) => unioned(
            m,
            p,
            drawn_below(m, e, p, children, children@.len() as int),
        ),
        Node::Union(children) => unioned(
            m,
            p,
            drawn_below(m, e, p, children, children@.len() as int),
        ),
        Node::Difference(children) => {
            let v = drawn_below(m, e, p, children, children@.len() as int);
            if v.len() == 0 {
                Seq::empty()
            } else if v.len() == 1 {
                v[0]
            } else {
                combined(m, p, v[0], unioned(m, p, v.skip(1)), Bop::Difference)
            }
        },
        Node::Intersection(children) => {
            let v = drawn_below(m, e, p, children, children@.len() as int);
            met_below(m, p, v, v.len() as int)
        },
        Node::Hull(children) => {
            let v = drawn_below(m, e, p, children, children@.len() as int);
            flat_hull(m, shape_points(v, v.len() as int))
        },
        Node::Minkowski(children) => {
            let v = drawn_below(m, e, p, children, children@.len() as int);
            let full = filled_sets(v, v.len() as int);
            summed_below(m, e, p, full, full.len() as int)
        },
        Node::Color { child, .. } => drawn(m, e, p, *child),
        Node::Highlight(child) => drawn(m, e, p, *child),
        Node::Provenance { child, .. } => drawn(m, e, p, *child),
        _ => Seq::empty(),
    }
}

fn no_rings() -> (r: Vec<Vec<Point2>>)
    ensures
        rings(r@) == Seq::<Seq<Point2>>::empty(),
{
    let r: Vec<Vec<Point2>> = Vec::new();
    assert(rings(r@) =~= Seq::empty());
    r
}

fn one_ring(c: Vec<Point2>) -> (r: Vec<Vec<Point2>>)
    ensures
        rings(r@) == seq![c@],
{
    let ghost cv = c@;
    let mut r: Vec<Vec<Point2>> = Vec::new();
    r.push(c);
    assert(rings(r@) =~= seq![cv]);
    r
}

fn take_outers(v: &Vec<Region>) -> (r: Vec<Vec<Point2>>)
    ensures
        rings(r@) == outers(regions(v@)),
{
    let mut out: Vec<Vec<Point2>> = Vec::new();
    for i in 0..v.len()
        invariant
            rings(out@) =~= outers(regions(v@)).take(i as int),
    {
        let ghost held = rings(out@);
        let one = copy_ring(&v[i].outer);
        let ghost ov = one@;
        out.push(one);
        assert(rings(out@) =~= held.push(ov));
    }
    assert(rings(out@) =~= outers(regions(v@)));
    out
}

fn gather_points(v: &Vec<Vec<Vec<Point2>>>) -> (r: Vec<Point2>)
    ensures
        r@ == shape_points(ring_sets(v@), v@.len() as int),
{
    let mut out: Vec<Point2> = Vec::new();
    let mut i: usize = 0;
    while i < v.len()
        invariant
            i <= v@.len(),
            out@ =~= shape_points(ring_sets(v@), i as int),
        decreases v.len() - i,
    {
        let set = &v[i];
        assert(ring_sets(v@)[i as int] == rings(set@));
        let ghost held = out@;
        let mut k: usize = 0;
        while k < set.len()
            invariant
                k <= set@.len(),
                out@ =~= held + strung_points(rings(set@), k as int),
            decreases set.len() - k,
        {
            assert(rings(set@)[k as int] == set@[k as int]@);
            let mut more = copy_ring(&set[k]);
            out.append(&mut more);
            k = k + 1;
        }
        i = i + 1;
    }
    out
}

/// Draws children.
fn render_all<H: Clip + Ears, A: Arithmetic>(pl: &mut Plane<H, A>, children: &Vec<Node>) -> (r: Vec<
    Vec<Vec<Point2>>,
>)
    requires
        all_drawable(*children),
    ensures
        r@.len() == children@.len(),
        forall|m: Reading, e: EarReading, p: PlaneReading|
            #![trigger final(pl).calc.agrees(m), final(pl).ears.agrees(e), final(pl).clips.agrees(p)]
            final(pl).calc.agrees(m) && final(pl).ears.agrees(e) && final(pl).clips.agrees(p)
                ==> old(pl).calc.agrees(m) && old(pl).ears.agrees(e) && old(pl).clips.agrees(p)
                && ring_sets(r@) == drawn_below(
                    m,
                    e,
                    p,
                    *children,
                    children@.len() as int,
                ),
    decreases *children,
{
    let ghost pl0 = *pl;
    let mut out: Vec<Vec<Vec<Point2>>> = Vec::new();
    let mut i: usize = 0;
    assert(ring_sets(out@) =~= Seq::empty());
    while i < children.len()
        invariant
            i <= children@.len(),
            all_drawable(*children),
            out@.len() == i,
            forall|m: Reading, e: EarReading, p: PlaneReading|
                #![trigger pl.calc.agrees(m), pl.ears.agrees(e), pl.clips.agrees(p)]
                pl.calc.agrees(m) && pl.ears.agrees(e) && pl.clips.agrees(p) ==> pl0.calc.agrees(m)
                    && pl0.ears.agrees(e) && pl0.clips.agrees(p) && ring_sets(out@) == drawn_below(m, e, p, *children, i as int),
        decreases children.len() - i,
    {
        let ghost held = ring_sets(out@);
        assert(drawable(children@[i as int]));
        let one = render2d(pl, &children[i]);
        let ghost ov = rings(one@);
        out.push(one);
        assert(ring_sets(out@) =~= held.push(ov));
        i = i + 1;
    }
    out
}

fn subtract<H: Clip + Ears, A: Arithmetic>(pl: &mut Plane<H, A>, sets: Vec<Vec<Vec<Point2>>>) -> (r: Vec<
    Vec<Point2>,
>)
    ensures
        forall|m: Reading, e: EarReading, p: PlaneReading|
            #![trigger final(pl).calc.agrees(m), final(pl).ears.agrees(e), final(pl).clips.agrees(p)]
            final(pl).calc.agrees(m) && final(pl).ears.agrees(e) && final(pl).clips.agrees(p)
                ==> old(pl).calc.agrees(m) && old(pl).ears.agrees(e) && old(pl).clips.agrees(p)
                && rings(r@) == ({
                    let v = ring_sets(sets@);
                    if v.len() == 0 {
                        Seq::empty()
                    } else if v.len() == 1 {
                        v[0]
                    } else {
                        combined(m, p, v[0], unioned(m, p, v.skip(1)), Bop::Difference)
                    }
                }),
{
    if sets.len() == 0 {
        return no_rings();
    }
    let ghost v = ring_sets(sets@);
    assert(v[0] == rings(sets@[0]@));
    let first = copy_rings(&sets[0]);
    if sets.len() == 1 {
        return first;
    }
    let mut rest: Vec<Vec<Vec<Point2>>> = Vec::new();
    let mut i: usize = 1;
    assert(ring_sets(rest@) =~= v.skip(1).take(0));
    while i < sets.len()
        invariant
            1 <= i <= sets@.len(),
            v == ring_sets(sets@),
            ring_sets(rest@) == v.skip(1).take(i - 1),
        decreases sets.len() - i,
    {
        let ghost held = ring_sets(rest@);
        assert(v[i as int] == rings(sets@[i as int]@));
        let one = copy_rings(&sets[i]);
        let ghost ov = rings(one@);
        rest.push(one);
        assert(ring_sets(rest@) =~= held.push(ov));
        assert(ring_sets(rest@) =~= v.skip(1).take(i as int));
        i = i + 1;
    }
    assert(v.skip(1).take(v.len() - 1) =~= v.skip(1));
    let tool = union_all(&mut pl.calc, &mut pl.clips, &mut pl.host, &rest);
    boolean_2d(&mut pl.calc, &mut pl.clips, &mut pl.host, &first, &tool, Bop::Difference)
}

fn intersect<H: Clip + Ears, A: Arithmetic>(pl: &mut Plane<H, A>, sets: Vec<Vec<Vec<Point2>>>) -> (r: Vec<
    Vec<Point2>,
>)
    ensures
        forall|m: Reading, e: EarReading, p: PlaneReading|
            #![trigger final(pl).calc.agrees(m), final(pl).ears.agrees(e), final(pl).clips.agrees(p)]
            final(pl).calc.agrees(m) && final(pl).ears.agrees(e) && final(pl).clips.agrees(p)
                ==> old(pl).calc.agrees(m) && old(pl).ears.agrees(e) && old(pl).clips.agrees(p)
                && rings(r@) == met_below(m, p, ring_sets(sets@), sets@.len() as int),
{
    if sets.len() == 0 {
        return no_rings();
    }
    let ghost v = ring_sets(sets@);
    let ghost pl0 = *pl;
    assert(v[0] == rings(sets@[0]@));
    let mut acc = copy_rings(&sets[0]);
    let mut i: usize = 1;
    while i < sets.len()
        invariant
            1 <= i <= sets@.len(),
            v == ring_sets(sets@),
            forall|m: Reading, e: EarReading, p: PlaneReading|
                #![trigger pl.calc.agrees(m), pl.ears.agrees(e), pl.clips.agrees(p)]
                pl.calc.agrees(m) && pl.ears.agrees(e) && pl.clips.agrees(p) ==> pl0.calc.agrees(m)
                    && pl0.ears.agrees(e) && pl0.clips.agrees(p) && rings(acc@) == met_below(m, p, v, i as int),
        decreases sets.len() - i,
    {
        assert(v[i as int] == rings(sets@[i as int]@));
        acc = boolean_2d(
            &mut pl.calc,
            &mut pl.clips,
            &mut pl.host,
            &acc,
            &sets[i],
            Bop::Intersection,
        );
        i = i + 1;
    }
    acc
}

/// Draws a flat tree as outlines.
pub fn render2d<H: Clip + Ears, A: Arithmetic>(pl: &mut Plane<H, A>, node: &Node) -> (r: Vec<Vec<Point2>>)
    requires
        drawable(*node),
    ensures
        forall|m: Reading, e: EarReading, p: PlaneReading|
            #![trigger final(pl).calc.agrees(m), final(pl).ears.agrees(e), final(pl).clips.agrees(p)]
            final(pl).calc.agrees(m) && final(pl).ears.agrees(e) && final(pl).clips.agrees(p)
                ==> old(pl).calc.agrees(m) && old(pl).ears.agrees(e) && old(pl).clips.agrees(p)
                && rings(r@) == drawn(m, e, p, *node),
    decreases *node,
{
    match node {
        Node::Square { size, center } => {
            let c = square_contour(&mut pl.calc, *size, *center);
            one_ring(c)
        },
        Node::Circle { r, frags } => {
            let c = circle_contour(&mut pl.calc, *r, *frags);
            one_ring(c)
        },
        Node::Polygon { points, paths } => polygon_contours(points, paths),
        Node::Import { data, format } => {
            if same_text(format.as_str(), "dxf") || same_text(format.as_str(), "svg") {
                let found = pl.clips.import(&mut pl.host, data, format.as_str());
                take_outers(&found)
            } else {
                no_rings()
            }
        },
        Node::Offset { r, delta, chamfer, frags, child } => {
            let c = render2d(pl, child);
            offset(
                &mut pl.calc,
                &mut pl.clips,
                &mut pl.host,
                &c,
                *r,
                *delta,
                *chamfer,
                *frags,
            )
        },
        Node::Translate { v, child } => {
            let c = render2d(pl, child);
            map_contours(&mut pl.calc, Motion::Shift(Point2 { x: v.x, y: v.y }), &c)
        },
        Node::Scale { v, child } => {
            let c = render2d(pl, child);
            map_contours(&mut pl.calc, Motion::Stretch(Point2 { x: v.x, y: v.y }), &c)
        },
        Node::Rotate { deg, child } => {
            let c = render2d(pl, child);
            let a: u64 = pl.calc.apply(NumOp::ToRadians, deg.z, 0);
            let sn: u64 = pl.calc.apply(NumOp::Sin, a, 0);
            let cs: u64 = pl.calc.apply(NumOp::Cos, a, 0);
            map_contours(&mut pl.calc, Motion::Turn { s: sn, c: cs }, &c)
        },
        Node::Mirror { v, child } => {
            let c = render2d(pl, child);
            let xx: u64 = pl.calc.apply(NumOp::Mul, v.x, v.x);
            let yy: u64 = pl.calc.apply(NumOp::Mul, v.y, v.y);
            let d: u64 = pl.calc.apply(NumOp::Add, xx, yy);
            if is_zero(d) {
                c
            } else {
                map_contours(
                    &mut pl.calc,
                    Motion::Mirror { v: Point2 { x: v.x, y: v.y }, d },
                    &c,
                )
            }
        },
        Node::MultMatrix { m: rows, child } => {
            let c = render2d(pl, child);
            let how = Motion::Affine {
                a: rows[0],
                b: rows[1],
                c: rows[3],
                d: rows[4],
                e: rows[5],
                f: rows[7],
            };
            map_contours(&mut pl.calc, how, &c)
        },
        Node::Resize { new, auto_x, auto_y, child, .. } => {
            let c = render2d(pl, child);
            resize2d(&mut pl.calc, c, *new, *auto_x, *auto_y)
        },
        Node::Group(children) => {
            let sets = render_all(pl, children);
            union_all(&mut pl.calc, &mut pl.clips, &mut pl.host, &sets)
        },
        Node::Union(children) => {
            let sets = render_all(pl, children);
            union_all(&mut pl.calc, &mut pl.clips, &mut pl.host, &sets)
        },
        Node::Difference(children) => {
            let sets = render_all(pl, children);
            subtract(pl, sets)
        },
        Node::Intersection(children) => {
            let sets = render_all(pl, children);
            intersect(pl, sets)
        },
        Node::Hull(children) => {
            let sets = render_all(pl, children);
            let pts = gather_points(&sets);
            hull_2d(&mut pl.calc, &pts)
        },
        Node::Minkowski(children) => {
            let sets = render_all(pl, children);
            minkowski_2d(pl, sets)
        },
        Node::Color { child, .. } => render2d(pl, child),
        Node::Highlight(child) => render2d(pl, child),
        Node::Provenance { child, .. } => render2d(pl, child),
        _ => no_rings(),
    }
}

} // verus!
