//! Outlines grown and shrunk.

use crate::clip::{
    from_regions, joined_all, outlines, sets_view, union_multi, Bop, Clip, PlaneAsk, PlaneLog,
    PlaneReading,
};
use crate::contours::{
    area, copy_ring, group_contours, grouped, regions, reverse_ring, rings, signed_area, Region,
    RegionView,
};
use crate::faces::PICO;
use crate::node::{FragmentSpec, Point2};
use crate::num::{
    absolute, at_most, is_at_most, is_less, is_zero, less, negate, negative, zero, Arithmetic, Calc,
    NumOp, Reading, TWO, ZERO,
};
use crate::planar::{after, next_of, size_of};
use crate::revolve::before;
use crate::solid::{greater, max_of};
use crate::tessellate::{round_fragments, round_of, PI};
use vstd::prelude::*;

verus! {

// ---- pieces ----------------------------------------------------------------------------------------

/// How an outline is offset.
#[derive(Clone, Copy, Debug, PartialEq, Eq, Structural)]
pub struct Grow {
    pub amount: u64,
    pub rounded: bool,
    pub chamfer: bool,
    pub frags: FragmentSpec,
}

/// The difference of two points.
pub open spec fn step_of(m: Reading, a: Point2, b: Point2) -> Point2 {
    Point2 { x: m.at(NumOp::Sub, b.x, a.x), y: m.at(NumOp::Sub, b.y, a.y) }
}

/// The unit normal to the right of the edge at `i`.
pub open spec fn edge_normal(m: Reading, poly: Seq<Point2>, i: int) -> Point2 {
    let d = step_of(m, poly[i], poly[after(i, poly.len() as int)]);
    let length = greater(
        m.at(
            NumOp::Sqrt,
            m.at(NumOp::Add, m.at(NumOp::Mul, d.x, d.x), m.at(NumOp::Mul, d.y, d.y)),
            0,
        ),
        PICO,
    );
    Point2 { x: m.at(NumOp::Div, d.y, length), y: m.at(NumOp::Div, negative(d.x), length) }
}

/// A point moved along a direction.
pub open spec fn moved_by(m: Reading, p: Point2, amount: u64, n: Point2) -> Point2 {
    Point2 {
        x: m.at(NumOp::Add, p.x, m.at(NumOp::Mul, amount, n.x)),
        y: m.at(NumOp::Add, p.y, m.at(NumOp::Mul, amount, n.y)),
    }
}

/// The slab between the edge at `i` and its offset copy.
pub open spec fn slab(m: Reading, poly: Seq<Point2>, amount: u64, i: int) -> Seq<Point2> {
    let a = poly[i];
    let b = poly[after(i, poly.len() as int)];
    let n = edge_normal(m, poly, i);
    seq![a, b, moved_by(m, b, amount, n), moved_by(m, a, amount, n)]
}

/// Twice the area between two directions.
pub open spec fn spread(m: Reading, a: Point2, b: Point2) -> u64 {
    m.at(NumOp::Sub, m.at(NumOp::Mul, a.x, b.y), m.at(NumOp::Mul, a.y, b.x))
}

/// Where two lines meet, each given by a point and a direction.
pub open spec fn meeting(m: Reading, p1: Point2, d1: Point2, p2: Point2, d2: Point2) -> Option<Point2> {
    let denom = spread(m, d1, d2);
    if less(size_of(denom), PICO) {
        None
    } else {
        let t = m.at(NumOp::Div, spread(m, step_of(m, p1, p2), d2), denom);
        Some(moved_by(m, p1, t, d1))
    }
}

/// An angle between -pi and pi, where it was within a full turn of it.
pub open spec fn half_turn(m: Reading, a: u64) -> u64 {
    if at_most(a, negative(PI)) {
        m.at(NumOp::Add, a, m.at(NumOp::Mul, TWO, PI))
    } else if less(PI, a) {
        m.at(NumOp::Sub, a, m.at(NumOp::Mul, TWO, PI))
    } else {
        a
    }
}

/// The steps of an arc.
pub open spec fn arc_steps(m: Reading, full: u32, da: u64) -> u64 {
    let n = m.at(
        NumOp::ToInt,
        m.at(
            NumOp::Ceil,
            m.at(
                NumOp::Mul,
                m.at(NumOp::FromInt, full as u64, 0),
                m.at(NumOp::Div, size_of(da), m.at(NumOp::Mul, TWO, PI)),
            ),
            0,
        ),
        0,
    );
    if n < 1 {
        1
    } else {
        n
    }
}

/// The `s`-th point of an arc round a corner.
pub open spec fn arc_point(m: Reading, v: Point2, amount: u64, a0: u64, da: u64, s: u64, steps: u64) -> Point2 {
    let a = m.at(
        NumOp::Add,
        a0,
        m.at(
            NumOp::Mul,
            da,
            m.at(NumOp::Div, m.at(NumOp::FromInt, s, 0), m.at(NumOp::FromInt, steps, 0)),
        ),
    );
    Point2 {
        x: m.at(NumOp::Add, v.x, m.at(NumOp::Mul, amount, m.at(NumOp::Cos, a, 0))),
        y: m.at(NumOp::Add, v.y, m.at(NumOp::Mul, amount, m.at(NumOp::Sin, a, 0))),
    }
}

/// A corner and the first `k` points of the arc round it.
pub open spec fn arc(m: Reading, v: Point2, amount: u64, a0: u64, da: u64, steps: u64, k: int) -> Seq<Point2> {
    seq![v] + Seq::new(
        k as nat,
        |s: int| arc_point(m, v, amount, a0, da, s as u64, steps),
    )
}

/// The piece that joins the slabs at a corner, where they gap.
pub open spec fn corner_piece(m: Reading, poly: Seq<Point2>, g: Grow, full: u32, i: int) -> Option<
    Seq<Point2>,
> {
    let n = poly.len() as int;
    let prev = before(i, n);
    let v = poly[i];
    let n_in = edge_normal(m, poly, prev);
    let n_out = edge_normal(m, poly, i);
    let p_in = moved_by(m, v, g.amount, n_in);
    let p_out = moved_by(m, v, g.amount, n_out);
    let d_in = step_of(m, poly[prev], v);
    let d_out = step_of(m, v, poly[after(i, n)]);
    let convex = less(ZERO, spread(m, d_in, d_out));
    if !((less(ZERO, g.amount) && convex) || (less(g.amount, ZERO) && !convex)) {
        None
    } else if g.rounded {
        let a0 = m.at(NumOp::Atan2, n_in.y, n_in.x);
        let a1 = m.at(NumOp::Atan2, n_out.y, n_out.x);
        let da = half_turn(m, m.at(NumOp::Sub, a1, a0));
        let steps = arc_steps(m, full, da);
        Some(arc(m, v, g.amount, a0, da, steps, steps + 1))
    } else if g.chamfer {
        Some(seq![v, p_in, p_out])
    } else {
        match meeting(m, p_in, d_in, p_out, d_out) {
            Some(q) => Some(seq![v, p_in, q, p_out]),
            None => Some(seq![v, p_in, p_out]),
        }
    }
}

/// The pieces with the first `k` slabs of an outline.
pub open spec fn with_slabs(m: Reading, done: Seq<Seq<Point2>>, poly: Seq<Point2>, amount: u64, k: int) -> Seq<
    Seq<Point2>,
>
    decreases k,
{
    if k <= 0 {
        done
    } else {
        with_slabs(m, done, poly, amount, k - 1).push(slab(m, poly, amount, k - 1))
    }
}

/// The pieces with those at the first `k` corners of an outline.
pub open spec fn with_corners(
    m: Reading,
    done: Seq<Seq<Point2>>,
    poly: Seq<Point2>,
    g: Grow,
    full: u32,
    k: int,
) -> Seq<Seq<Point2>>
    decreases k,
{
    if k <= 0 {
        done
    } else {
        let rest = with_corners(m, done, poly, g, full, k - 1);
        match corner_piece(m, poly, g, full, k - 1) {
            Some(c) => rest.push(c),
            None => rest,
        }
    }
}

/// The pieces with those of an outline.
pub open spec fn with_pieces(m: Reading, done: Seq<Seq<Point2>>, poly: Seq<Point2>, g: Grow) -> Seq<
    Seq<Point2>,
> {
    let n = poly.len() as int;
    if n < 3 {
        done
    } else {
        with_corners(
            m,
            with_slabs(m, done, poly, g.amount, n),
            poly,
            g,
            round_of(m, size_of(g.amount), g.frags),
            n,
        )
    }
}

fn find_step<A: Arithmetic>(calc: &mut Calc<A>, a: Point2, b: Point2) -> (r: Point2)
    ensures
        forall|m: Reading| #[trigger]
            final(calc).agrees(m) ==> old(calc).agrees(m) && r == step_of(m, a, b),
{
    let x: u64 = calc.apply(NumOp::Sub, b.x, a.x);
    let y: u64 = calc.apply(NumOp::Sub, b.y, a.y);
    Point2 { x, y }
}

fn find_normal<A: Arithmetic>(calc: &mut Calc<A>, poly: &Vec<Point2>, i: usize) -> (r: Point2)
    requires
        i < poly@.len(),
    ensures
        forall|m: Reading| #[trigger]
            final(calc).agrees(m) ==> old(calc).agrees(m) && r == edge_normal(m, poly@, i as int),
{
    let d = find_step(calc, poly[i], poly[next_of(i, poly.len())]);
    let xx: u64 = calc.apply(NumOp::Mul, d.x, d.x);
    let yy: u64 = calc.apply(NumOp::Mul, d.y, d.y);
    let s: u64 = calc.apply(NumOp::Add, xx, yy);
    let root: u64 = calc.apply(NumOp::Sqrt, s, 0);
    let length: u64 = max_of(root, PICO);
    let x: u64 = calc.apply(NumOp::Div, d.y, length);
    let y: u64 = calc.apply(NumOp::Div, negate(d.x), length);
    Point2 { x, y }
}

fn move_by<A: Arithmetic>(calc: &mut Calc<A>, p: Point2, amount: u64, n: Point2) -> (r: Point2)
    ensures
        forall|m: Reading| #[trigger]
            final(calc).agrees(m) ==> old(calc).agrees(m) && r == moved_by(m, p, amount, n),
{
    let dx: u64 = calc.apply(NumOp::Mul, amount, n.x);
    let x: u64 = calc.apply(NumOp::Add, p.x, dx);
    let dy: u64 = calc.apply(NumOp::Mul, amount, n.y);
    let y: u64 = calc.apply(NumOp::Add, p.y, dy);
    Point2 { x, y }
}

fn find_spread<A: Arithmetic>(calc: &mut Calc<A>, a: Point2, b: Point2) -> (r: u64)
    ensures
        forall|m: Reading| #[trigger]
            final(calc).agrees(m) ==> old(calc).agrees(m) && r == spread(m, a, b),
{
    let p: u64 = calc.apply(NumOp::Mul, a.x, b.y);
    let q: u64 = calc.apply(NumOp::Mul, a.y, b.x);
    calc.apply(NumOp::Sub, p, q)
}

/// Where two lines meet.
pub fn line_intersect<A: Arithmetic>(calc: &mut Calc<A>, p1: Point2, d1: Point2, p2: Point2, d2: Point2) -> (r:
    Option<Point2>)
    ensures
        forall|m: Reading| #[trigger]
            final(calc).agrees(m) ==> old(calc).agrees(m) && r == meeting(m, p1, d1, p2, d2),
{
    let denom: u64 = find_spread(calc, d1, d2);
    if is_less(absolute(denom), PICO) {
        return None;
    }
    let gap = find_step(calc, p1, p2);
    let s: u64 = find_spread(calc, gap, d2);
    let t: u64 = calc.apply(NumOp::Div, s, denom);
    Some(move_by(calc, p1, t, d1))
}

fn find_arc_point<A: Arithmetic>(
    calc: &mut Calc<A>,
    v: Point2,
    amount: u64,
    a0: u64,
    da: u64,
    s: u64,
    steps: u64,
) -> (r: Point2)
    ensures
        forall|m: Reading| #[trigger]
            final(calc).agrees(m) ==> old(calc).agrees(m) && r == arc_point(
                m,
                v,
                amount,
                a0,
                da,
                s,
                steps,
            ),
{
    let at: u64 = calc.apply(NumOp::FromInt, s, 0);
    let all: u64 = calc.apply(NumOp::FromInt, steps, 0);
    let f: u64 = calc.apply(NumOp::Div, at, all);
    let t: u64 = calc.apply(NumOp::Mul, da, f);
    let a: u64 = calc.apply(NumOp::Add, a0, t);
    let c: u64 = calc.apply(NumOp::Cos, a, 0);
    let dx: u64 = calc.apply(NumOp::Mul, amount, c);
    let x: u64 = calc.apply(NumOp::Add, v.x, dx);
    let sn: u64 = calc.apply(NumOp::Sin, a, 0);
    let dy: u64 = calc.apply(NumOp::Mul, amount, sn);
    let y: u64 = calc.apply(NumOp::Add, v.y, dy);
    Point2 { x, y }
}

fn draw_arc<A: Arithmetic>(calc: &mut Calc<A>, v: Point2, amount: u64, a0: u64, da: u64, steps: u64) -> (r:
    Vec<Point2>)
    ensures
        forall|m: Reading| #[trigger]
            final(calc).agrees(m) ==> old(calc).agrees(m) && r@ == arc(
                m,
                v,
                amount,
                a0,
                da,
                steps,
                steps + 1,
            ),
{
    let mut out: Vec<Point2> = Vec::new();
    out.push(v);
    let mut s: u64 = 0;
    proof {
        assert forall|m: Reading| #[trigger] calc.agrees(m) implies out@ == arc(
            m,
            v,
            amount,
            a0,
            da,
            steps,
            0,
        ) by {
            assert(out@ =~= arc(m, v, amount, a0, da, steps, 0));
        }
    }
    while s < steps
        invariant
            s <= steps,
            forall|m: Reading| #[trigger]
                calc.agrees(m) ==> old(calc).agrees(m) && out@ == arc(
                    m,
                    v,
                    amount,
                    a0,
                    da,
                    steps,
                    s as int,
                ),
        decreases steps - s,
    {
        let ghost c0 = *calc;
        let p = find_arc_point(calc, v, amount, a0, da, s, steps);
        out.push(p);
        proof {
            assert forall|m: Reading| #[trigger] calc.agrees(m) implies out@ == arc(
                m,
                v,
                amount,
                a0,
                da,
                steps,
                s + 1,
            ) by {
                assert(c0.agrees(m));
                assert(out@ =~= arc(m, v, amount, a0, da, steps, s + 1));
            }
        }
        s = s + 1;
    }
    let ghost c0 = *calc;
    let p = find_arc_point(calc, v, amount, a0, da, steps, steps);
    out.push(p);
    proof {
        assert forall|m: Reading| #[trigger] calc.agrees(m) implies out@ == arc(
            m,
            v,
            amount,
            a0,
            da,
            steps,
            steps + 1,
        ) by {
            assert(c0.agrees(m));
            assert(out@ =~= arc(m, v, amount, a0, da, steps, steps + 1));
        }
    }
    out
}

fn ring3(a: Point2, b: Point2, c: Point2) -> (r: Vec<Point2>)
    ensures
        r@ == seq![a, b, c],
{
    let mut v: Vec<Point2> = Vec::new();
    v.push(a);
    v.push(b);
    v.push(c);
    assert(v@ =~= seq![a, b, c]);
    v
}

fn ring4(a: Point2, b: Point2, c: Point2, d: Point2) -> (r: Vec<Point2>)
    ensures
        r@ == seq![a, b, c, d],
{
    let mut v: Vec<Point2> = Vec::new();
    v.push(a);
    v.push(b);
    v.push(c);
    v.push(d);
    assert(v@ =~= seq![a, b, c, d]);
    v
}

fn draw_corner<A: Arithmetic>(calc: &mut Calc<A>, poly: &Vec<Point2>, g: Grow, full: u32, i: usize) -> (r: Option<
    Vec<Point2>,
>)
    requires
        i < poly@.len(),
    ensures
        forall|m: Reading| #[trigger]
            final(calc).agrees(m) ==> old(calc).agrees(m) && corner_piece(
                m,
                poly@,
                g,
                full,
                i as int,
            ) == match r {
                Some(c) => Some(c@),
                None => None,
            },
{
    let n: usize = poly.len();
    let prev: usize = if i > 0 {
        i - 1
    } else {
        n - 1
    };
    let v = poly[i];
    let d_in = find_step(calc, poly[prev], v);
    let d_out = find_step(calc, v, poly[next_of(i, n)]);
    let bend: u64 = find_spread(calc, d_in, d_out);
    let convex: bool = is_less(ZERO, bend);
    let fill: bool = (is_less(ZERO, g.amount) && convex) || (is_less(g.amount, ZERO) && !convex);
    if !fill {
        return None;
    }
    let n_in = find_normal(calc, poly, prev);
    let n_out = find_normal(calc, poly, i);
    if g.rounded {
        let a0: u64 = calc.apply(NumOp::Atan2, n_in.y, n_in.x);
        let a1: u64 = calc.apply(NumOp::Atan2, n_out.y, n_out.x);
        let turn: u64 = calc.apply(NumOp::Mul, TWO, PI);
        let diff: u64 = calc.apply(NumOp::Sub, a1, a0);
        let da: u64 = if is_at_most(diff, negate(PI)) {
            calc.apply(NumOp::Add, diff, turn)
        } else if is_less(PI, diff) {
            calc.apply(NumOp::Sub, diff, turn)
        } else {
            diff
        };
        let fullness: u64 = calc.apply(NumOp::FromInt, full as u64, 0);
        let share: u64 = calc.apply(NumOp::Div, absolute(da), turn);
        let part: u64 = calc.apply(NumOp::Mul, fullness, share);
        let up: u64 = calc.apply(NumOp::Ceil, part, 0);
        let k: u64 = calc.apply(NumOp::ToInt, up, 0);
        let steps: u64 = if k < 1 {
            1
        } else {
            k
        };
        return Some(draw_arc(calc, v, g.amount, a0, da, steps));
    }
    let p_in = move_by(calc, v, g.amount, n_in);
    let p_out = move_by(calc, v, g.amount, n_out);
    if g.chamfer {
        return Some(ring3(v, p_in, p_out));
    }
    match line_intersect(calc, p_in, d_in, p_out, d_out) {
        Some(q) => Some(ring4(v, p_in, q, p_out)),
        None => Some(ring3(v, p_in, p_out)),
    }
}

/// Adds the convex pieces round an outline: a slab to each edge, and a piece at
/// each corner where the slabs gap.
pub fn offset_pieces<A: Arithmetic>(
    calc: &mut Calc<A>,
    out: &mut Vec<Vec<Point2>>,
    poly: &Vec<Point2>,
    g: Grow,
)
    ensures
        forall|m: Reading| #[trigger]
            final(calc).agrees(m) ==> old(calc).agrees(m) && rings(final(out)@) == with_pieces(
                m,
                rings(old(out)@),
                poly@,
                g,
            ),
{
    let n: usize = poly.len();
    if n < 3 {
        return;
    }
    let full: u32 = round_fragments(calc, absolute(g.amount), g.frags);
    let ghost c1 = *calc;
    let ghost start = rings(out@);
    let mut i: usize = 0;
    while i < n
        invariant
            n == poly@.len(),
            i <= n,
            forall|m: Reading| #[trigger]
                calc.agrees(m) ==> c1.agrees(m) && rings(out@) == with_slabs(
                    m,
                    start,
                    poly@,
                    g.amount,
                    i as int,
                ),
        decreases n - i,
    {
        let ghost held = rings(out@);
        let a = poly[i];
        let b = poly[next_of(i, n)];
        let nrm = find_normal(calc, poly, i);
        let ao = move_by(calc, a, g.amount, nrm);
        let bo = move_by(calc, b, g.amount, nrm);
        let one = ring4(a, b, bo, ao);
        let ghost ov = one@;
        out.push(one);
        assert(rings(out@) =~= held.push(ov));
        i = i + 1;
    }
    let ghost c2 = *calc;
    let ghost slabs = rings(out@);
    let mut i: usize = 0;
    while i < n
        invariant
            n == poly@.len(),
            i <= n,
            forall|m: Reading| #[trigger]
                calc.agrees(m) ==> c2.agrees(m) && rings(out@) == with_corners(
                    m,
                    slabs,
                    poly@,
                    g,
                    full,
                    i as int,
                ),
        decreases n - i,
    {
        let ghost held = rings(out@);
        match draw_corner(calc, poly, g, full, i) {
            Some(one) => {
                let ghost ov = one@;
                out.push(one);
                assert(rings(out@) =~= held.push(ov));
            },
            None => {},
        }
        i = i + 1;
    }
}

// ---- the whole offset ------------------------------------------------------------------------------

/// The pieces with those of the first `k` holes.
pub open spec fn with_hole_pieces(m: Reading, done: Seq<Seq<Point2>>, holes: Seq<Seq<Point2>>, g: Grow, k: int) -> Seq<
    Seq<Point2>,
>
    decreases k,
{
    if k <= 0 {
        done
    } else {
        with_pieces(m, with_hole_pieces(m, done, holes, g, k - 1), holes[k - 1], g)
    }
}

/// The pieces round the first `n` regions.
pub open spec fn pieces_below(m: Reading, v: Seq<RegionView>, g: Grow, n: int) -> Seq<Seq<Point2>>
    decreases n,
{
    if n <= 0 {
        Seq::empty()
    } else {
        with_hole_pieces(
            m,
            with_pieces(m, pieces_below(m, v, g, n - 1), v[n - 1].outer, g),
            v[n - 1].holes,
            g,
            v[n - 1].holes.len() as int,
        )
    }
}

/// A piece is worth joining.
pub open spec fn solid_piece(m: Reading, c: Seq<Point2>) -> bool {
    c.len() >= 3 && less(PICO, size_of(area(m, c)))
}

/// One piece as regions, counter-clockwise.
pub open spec fn piece_regions(m: Reading, c: Seq<Point2>) -> Seq<RegionView> {
    seq![
        RegionView {
            outer: if less(area(m, c), ZERO) {
                c.reverse()
            } else {
                c
            },
            holes: Seq::empty(),
        },
    ]
}

/// The pieces among the first `n` that are worth joining.
pub open spec fn solid_pieces(m: Reading, v: Seq<Seq<Point2>>, n: int) -> Seq<Seq<RegionView>>
    decreases n,
{
    if n <= 0 {
        Seq::empty()
    } else if solid_piece(m, v[n - 1]) {
        solid_pieces(m, v, n - 1).push(piece_regions(m, v[n - 1]))
    } else {
        solid_pieces(m, v, n - 1)
    }
}

/// Outlines grown, or shrunk where the amount is negative.
pub open spec fn grown_by(m: Reading, p: PlaneReading, contours: Seq<Seq<Point2>>, g: Grow) -> Seq<Seq<Point2>> {
    let solid = grouped(m, contours);
    if zero(g.amount) {
        outlines(solid)
    } else {
        let pieces = pieces_below(m, solid, g, solid.len() as int);
        let band = joined_all(p, solid_pieces(m, pieces, pieces.len() as int));
        outlines(
            if less(ZERO, g.amount) {
                p(PlaneAsk::Union(solid, band))
            } else {
                p(PlaneAsk::Boolean(solid, band, Bop::Difference))
            },
        )
    }
}

/// The radius where there is one, which rounds corners; else the distance.
pub open spec fn growth(r: u64, delta: u64, chamfer: bool, frags: FragmentSpec) -> Grow {
    if !zero(r) {
        Grow { amount: r, rounded: true, chamfer, frags }
    } else {
        Grow { amount: delta, rounded: false, chamfer, frags }
    }
}

fn clean_union<A: Arithmetic, C: Clip>(
    calc: &mut Calc<A>,
    log: &mut PlaneLog,
    host: &mut C,
    v: &Vec<Vec<Point2>>,
) -> (r: Vec<Region>)
    ensures
        forall|m: Reading, p: PlaneReading|
            #![trigger final(calc).agrees(m), final(log).agrees(p)]
            final(calc).agrees(m) && final(log).agrees(p) ==> old(calc).agrees(m) && old(
                log,
            ).agrees(p) && regions(r@) == joined_all(
                p,
                solid_pieces(m, rings(v@), v@.len() as int),
            ),
{
    let mut sets: Vec<Vec<Region>> = Vec::new();
    let mut i: usize = 0;
    assert(sets_view(sets@) =~= Seq::empty());
    while i < v.len()
        invariant
            i <= v@.len(),
            forall|m: Reading| #[trigger]
                calc.agrees(m) ==> old(calc).agrees(m) && sets_view(sets@) == solid_pieces(
                    m,
                    rings(v@),
                    i as int,
                ),
        decreases v.len() - i,
    {
        assert(rings(v@)[i as int] == v@[i as int]@);
        let c = &v[i];
        let ghost c0 = *calc;
        let ghost held = sets_view(sets@);
        if c.len() >= 3 {
            let a: u64 = signed_area(calc, c);
            if is_less(PICO, absolute(a)) {
                let outer = if is_less(a, ZERO) {
                    reverse_ring(c)
                } else {
                    copy_ring(c)
                };
                let holes: Vec<Vec<Point2>> = Vec::new();
                assert(rings(holes@) =~= Seq::empty());
                let one = Region { outer, holes };
                let ghost ov = one@;
                let mut set: Vec<Region> = Vec::new();
                set.push(one);
                assert(regions(set@) =~= seq![ov]);
                let ghost sv = regions(set@);
                sets.push(set);
                assert(sets_view(sets@) =~= held.push(sv));
            }
        }
        i = i + 1;
    }
    union_multi(log, host, sets)
}

/// Grows outlines, or shrinks them where the amount is negative.
pub fn offset<A: Arithmetic, C: Clip>(
    calc: &mut Calc<A>,
    log: &mut PlaneLog,
    host: &mut C,
    contours: &Vec<Vec<Point2>>,
    r: u64,
    delta: u64,
    chamfer: bool,
    frags: FragmentSpec,
) -> (out: Vec<Vec<Point2>>)
    ensures
        forall|m: Reading, p: PlaneReading|
            #![trigger final(calc).agrees(m), final(log).agrees(p)]
            final(calc).agrees(m) && final(log).agrees(p) ==> old(calc).agrees(m) && old(
                log,
            ).agrees(p) && rings(out@) == grown_by(
                m,
                p,
                rings(contours@),
                growth(r, delta, chamfer, frags),
            ),
{
    let g = if !is_zero(r) {
        Grow { amount: r, rounded: true, chamfer, frags }
    } else {
        Grow { amount: delta, rounded: false, chamfer, frags }
    };
    let solid = group_contours(calc, contours);
    if is_zero(g.amount) {
        return from_regions(&solid);
    }
    let ghost c1 = *calc;
    let ghost sv = regions(solid@);
    let mut pieces: Vec<Vec<Point2>> = Vec::new();
    let mut i: usize = 0;
    assert(rings(pieces@) =~= Seq::empty());
    while i < solid.len()
        invariant
            i <= solid@.len(),
            sv == regions(solid@),
            forall|m: Reading| #[trigger]
                calc.agrees(m) ==> c1.agrees(m) && rings(pieces@) == pieces_below(
                    m,
                    sv,
                    g,
                    i as int,
                ),
        decreases solid.len() - i,
    {
        let one = &solid[i];
        assert(sv[i as int] == one@);
        offset_pieces(calc, &mut pieces, &one.outer, g);
        let ghost c2 = *calc;
        let ghost held = rings(pieces@);
        let mut k: usize = 0;
        while k < one.holes.len()
            invariant
                k <= one.holes@.len(),
                forall|m: Reading| #[trigger]
                    calc.agrees(m) ==> c2.agrees(m) && rings(pieces@) == with_hole_pieces(
                        m,
                        held,
                        rings(one.holes@),
                        g,
                        k as int,
                    ),
            decreases one.holes.len() - k,
        {
            assert(rings(one.holes@)[k as int] == one.holes@[k as int]@);
            offset_pieces(calc, &mut pieces, &one.holes[k], g);
            k = k + 1;
        }
        i = i + 1;
    }
    let band = clean_union(calc, log, host, &pieces);
    let result = if is_less(ZERO, g.amount) {
        log.union(host, &solid, &band)
    } else {
        log.boolean(host, &solid, &band, Bop::Difference)
    };
    from_regions(&result)
}

} // verus!
