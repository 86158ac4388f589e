//! Cutting a mesh with the ground plane, and chaining the cuts into outlines.

use crate::clip::{
    from_regions, joined_all, outlines, sets_view, union_multi, Clip, PlaneLog, PlaneReading,
};
use crate::contours::{regions, rings, Region, RegionView};
use crate::extrude::WELD;
use crate::faces::NANO;
use crate::mesh::{Mesh, MeshView, Point3, Triangle};
use crate::node::Point2;
use crate::num::{absolute, is_less, less, Arithmetic, Calc, NumOp, Reading, ZERO};
use crate::planar::{cross2, size_of, turn_of};
use vstd::prelude::*;

verus! {

/// 100000.
pub const GRAIN: u64 = 0x40f8_6a00_0000_0000;

/// A piece of a cut.
#[derive(Clone, Copy, Debug, PartialEq, Eq, Structural)]
pub struct Segment {
    pub a: Point2,
    pub b: Point2,
}

// ---- the grid that tells points apart ------------------------------------------------------------------

/// A coordinate on the grid, as one number: up to 2^63 - 1 for what is not
/// negative, and from 2^63 on for what is.
pub open spec fn grid_number(m: Reading, v: u64) -> u64 {
    let r = m.at(NumOp::Round, m.at(NumOp::Mul, v, GRAIN), 0);
    let n = m.at(NumOp::ToInt, size_of(r), 0);
    if n == 0 {
        0
    } else if less(r, ZERO) {
        if n > 0x8000_0000_0000_0000 {
            0xffff_ffff_ffff_ffff
        } else {
            (0x7fff_ffff_ffff_ffff + n) as u64
        }
    } else if n > 0x7fff_ffff_ffff_ffff {
        0x7fff_ffff_ffff_ffff
    } else {
        n
    }
}

/// A point on the grid.
pub open spec fn grid_point(m: Reading, p: Point2) -> (u64, u64) {
    (grid_number(m, p.x), grid_number(m, p.y))
}

fn snap<A: Arithmetic>(calc: &mut Calc<A>, v: u64) -> (out: u64)
    ensures
        forall|m: Reading| #[trigger]
            final(calc).agrees(m) ==> old(calc).agrees(m) && out == grid_number(m, v),
{
    let w: u64 = calc.apply(NumOp::Mul, v, GRAIN);
    let r: u64 = calc.apply(NumOp::Round, w, 0);
    let n: u64 = calc.apply(NumOp::ToInt, absolute(r), 0);
    if n == 0 {
        0
    } else if is_less(r, ZERO) {
        if n > 0x8000_0000_0000_0000 {
            0xffff_ffff_ffff_ffff
        } else {
            0x7fff_ffff_ffff_ffff + n
        }
    } else if n > 0x7fff_ffff_ffff_ffff {
        0x7fff_ffff_ffff_ffff
    } else {
        n
    }
}

fn snap_point<A: Arithmetic>(calc: &mut Calc<A>, p: Point2) -> (out: (u64, u64))
    ensures
        forall|m: Reading| #[trigger]
            final(calc).agrees(m) ==> old(calc).agrees(m) && out == grid_point(m, p),
{
    let x: u64 = snap(calc, p.x);
    let y: u64 = snap(calc, p.y);
    (x, y)
}

/// The ends of segments on the grid: first ends at even places, second ends at
/// odd ones.
pub open spec fn end_keys(m: Reading, segs: Seq<Segment>) -> Seq<(u64, u64)> {
    Seq::new(
        2 * segs.len(),
        |i: int|
            if i % 2 == 0 {
                grid_point(m, segs[i / 2].a)
            } else {
                grid_point(m, segs[i / 2].b)
            },
    )
}

// ---- walking from segment to segment ---------------------------------------------------------------------

/// How many of the first `n` segments are left.
pub open spec fn unused(used: Seq<bool>, n: int) -> nat
    decreases n,
{
    if n <= 0 {
        0
    } else {
        unused(used, n - 1) + if used[n - 1] {
            0nat
        } else {
            1nat
        }
    }
}

proof fn lemma_unused(used: Seq<bool>, i: int, n: int)
    requires
        0 <= i < used.len(),
        0 <= n <= used.len(),
        !used[i],
    ensures
        unused(used.update(i, true), n) == unused(used, n) - (if i < n {
            1int
        } else {
            0int
        }),
    decreases n,
{
    if n > 0 {
        lemma_unused(used, i, n - 1);
    }
}

/// The first segment from `j` on that is left and has an end at the place.
pub open spec fn next_segment(keys: Seq<(u64, u64)>, used: Seq<bool>, k: (u64, u64), j: int) -> Option<int>
    decreases used.len() - j,
{
    if j < 0 || j >= used.len() {
        None
    } else if !used[j] && (keys[2 * j] == k || keys[2 * j + 1] == k) {
        Some(j)
    } else {
        next_segment(keys, used, k, j + 1)
    }
}

/// The other end of a segment, and where that end's place stands in the list.
pub open spec fn far_end(keys: Seq<(u64, u64)>, segs: Seq<Segment>, i: int, k: (u64, u64)) -> (Point2, int) {
    if keys[2 * i] == k {
        (segs[i].b, 2 * i + 1)
    } else {
        (segs[i].a, 2 * i)
    }
}

/// A walk: the points passed, and the segments used.
pub ghost struct Walked {
    pub points: Seq<Point2>,
    pub used: Seq<bool>,
}

/// A walk goes on from `cur` along segment `i`, until it comes back to the start
/// or finds no segment that is left.
pub open spec fn walk(
    keys: Seq<(u64, u64)>,
    segs: Seq<Segment>,
    used: Seq<bool>,
    i: int,
    cur: Point2,
    at: (u64, u64),
    start: (u64, u64),
    done: Seq<Point2>,
) -> Walked
    decreases unused(used, used.len() as int),
    via walk_ends
{
    if i < 0 || i >= used.len() || used[i] {
        Walked { points: done, used }
    } else {
        let u = used.update(i, true);
        let points = done.push(cur);
        let (p, place) = far_end(keys, segs, i, at);
        let k = keys[place];
        if k == start {
            Walked { points, used: u }
        } else {
            match next_segment(keys, u, k, 0) {
                Some(j) => walk(keys, segs, u, j, p, k, start, points),
                None => Walked { points, used: u },
            }
        }
    }
}

#[via_fn]
proof fn walk_ends(
    keys: Seq<(u64, u64)>,
    segs: Seq<Segment>,
    used: Seq<bool>,
    i: int,
    cur: Point2,
    at: (u64, u64),
    start: (u64, u64),
    done: Seq<Point2>,
) {
    if !(i < 0 || i >= used.len() || used[i]) {
        lemma_unused(used, i, used.len() as int);
    }
}

/// The outlines found from the `i`-th segment on, after `done`; one needs three
/// points.
pub open spec fn chains(
    keys: Seq<(u64, u64)>,
    segs: Seq<Segment>,
    used: Seq<bool>,
    i: int,
    done: Seq<Seq<Point2>>,
) -> Seq<Seq<Point2>>
    decreases segs.len() - i,
{
    if i < 0 || i >= segs.len() {
        done
    } else if used[i] {
        chains(keys, segs, used, i + 1, done)
    } else {
        let w = walk(
            keys,
            segs,
            used,
            i,
            segs[i].a,
            keys[2 * i],
            keys[2 * i],
            Seq::empty(),
        );
        chains(
            keys,
            segs,
            w.used,
            i + 1,
            if w.points.len() >= 3 {
                done.push(w.points)
            } else {
                done
            },
        )
    }
}

/// Segments chained into closed outlines.
pub open spec fn chained(m: Reading, segs: Seq<Segment>) -> Seq<Seq<Point2>> {
    chains(end_keys(m, segs), segs, Seq::new(segs.len(), |i: int| false), 0, Seq::empty())
}

fn find_keys<A: Arithmetic>(calc: &mut Calc<A>, segs: &Vec<Segment>) -> (r: Vec<(u64, u64)>)
    ensures
        r@.len() == 2 * segs@.len(),
        forall|m: Reading| #[trigger]
            final(calc).agrees(m) ==> old(calc).agrees(m) && r@ == end_keys(m, segs@),
{
    let mut out: Vec<(u64, u64)> = Vec::new();
    let mut i: usize = 0;
    while i < segs.len()
        invariant
            i <= segs@.len(),
            out@.len() == 2 * i,
            forall|m: Reading| #[trigger]
                calc.agrees(m) ==> old(calc).agrees(m) && forall|k: int|
                    0 <= k < 2 * i ==> #[trigger] out@[k] == end_keys(m, segs@)[k],
        decreases segs.len() - i,
    {
        let ghost c0 = *calc;
        let ghost held = out@;
        let a = snap_point(calc, segs[i].a);
        let b = snap_point(calc, segs[i].b);
        out.push(a);
        out.push(b);
        proof {
            assert forall|m: Reading| #[trigger] calc.agrees(m) implies forall|k: int|
                0 <= k < 2 * (i + 1) ==> #[trigger] out@[k] == end_keys(m, segs@)[k] by {
                assert(c0.agrees(m));
                assert forall|k: int| 0 <= k < 2 * (i + 1) implies #[trigger] out@[k] == end_keys(
                    m,
                    segs@,
                )[k] by {
                    if k < 2 * i {
                        assert(out@[k] == held[k]);
                    } else if k == 2 * i {
                        assert((2 * i) / 2 == i && (2 * i) % 2 == 0);
                    } else {
                        assert((2 * i + 1) / 2 == i && (2 * i + 1) % 2 == 1);
                    }
                }
            }
        }
        i = i + 1;
    }
    proof {
        assert forall|m: Reading| #[trigger] calc.agrees(m) implies out@ == end_keys(m, segs@) by {
            assert(out@ =~= end_keys(m, segs@));
        }
    }
    out
}

/// The first segment that is left and has an end at the place.
fn find_next(keys: &Vec<(u64, u64)>, used: &Vec<bool>, k: (u64, u64)) -> (r: Option<usize>)
    requires
        keys@.len() == 2 * used@.len(),
    ensures
        r matches Some(j) ==> j < used@.len() && !used@[j as int],
        next_segment(keys@, used@, k, 0) == match r {
            Some(j) => Some(j as int),
            None => None,
        },
{
    let n: usize = used.len();
    let total: usize = keys.len();
    let mut j: usize = 0;
    while j < n
        invariant
            j <= n,
            n == used@.len(),
            total == keys@.len(),
            keys@.len() == 2 * used@.len(),
            next_segment(keys@, used@, k, 0) == next_segment(keys@, used@, k, j as int),
        decreases n - j,
    {
        assert(2 * j + 1 < total);
        if !used[j] {
            let a = keys[2 * j];
            let b = keys[2 * j + 1];
            if (a.0 == k.0 && a.1 == k.1) || (b.0 == k.0 && b.1 == k.1) {
                return Some(j);
            }
        }
        j = j + 1;
    }
    None
}

/// Walks from a segment until the outline closes or no segment is left.
fn walk_from(
    keys: &Vec<(u64, u64)>,
    segs: &Vec<Segment>,
    used: &mut Vec<bool>,
    first: usize,
) -> (r: Vec<Point2>)
    requires
        keys@.len() == 2 * segs@.len(),
        old(used)@.len() == segs@.len(),
        first < segs@.len(),
        !old(used)@[first as int],
    ensures
        final(used)@.len() == segs@.len(),
        (Walked { points: r@, used: final(used)@ }) == walk(
            keys@,
            segs@,
            old(used)@,
            first as int,
            segs@[first as int].a,
            keys@[2 * first],
            keys@[2 * first],
            Seq::empty(),
        ),
{
    let total: usize = keys.len();
    assert(2 * first + 1 < total);
    let start = keys[2 * first];
    let ghost whole = walk(
        keys@,
        segs@,
        used@,
        first as int,
        segs@[first as int].a,
        start,
        start,
        Seq::empty(),
    );
    let mut out: Vec<Point2> = Vec::new();
    let mut i: usize = first;
    let mut cur = segs[first].a;
    let mut at = start;
    assert(out@ =~= Seq::empty());
    loop
        invariant_except_break
            i < segs@.len(),
            !used@[i as int],
            whole == walk(keys@, segs@, used@, i as int, cur, at, start, out@),
        invariant
            total == keys@.len(),
            keys@.len() == 2 * segs@.len(),
            used@.len() == segs@.len(),
        ensures
            used@.len() == segs@.len(),
            whole == (Walked { points: out@, used: used@ }),
        decreases unused(used@, used@.len() as int),
    {
        let ghost before = used@;
        proof {
            lemma_unused(used@, i as int, used@.len() as int);
        }
        assert(2 * i + 1 < total);
        used.set(i, true);
        out.push(cur);
        let here = keys[2 * i];
        let (p, k) = if here.0 == at.0 && here.1 == at.1 {
            (segs[i].b, keys[2 * i + 1])
        } else {
            (segs[i].a, here)
        };
        if k.0 == start.0 && k.1 == start.1 {
            break;
        }
        match find_next(keys, used, k) {
            Some(j) => {
                i = j;
                cur = p;
                at = k;
            },
            None => {
                break;
            },
        }
    }
    out
}

/// Chains segments into closed outlines, by walking from segment to segment.
pub fn chain_segments<A: Arithmetic>(calc: &mut Calc<A>, segs: &Vec<Segment>) -> (r: Vec<Vec<Point2>>)
    ensures
        forall|m: Reading| #[trigger]
            final(calc).agrees(m) ==> old(calc).agrees(m) && rings(r@) == chained(m, segs@),
{
    let keys = find_keys(calc, segs);
    let n: usize = segs.len();
    let mut used: Vec<bool> = Vec::new();
    for i in 0..n
        invariant
            used@ =~= Seq::new(i as nat, |k: int| false),
    {
        used.push(false);
    }
    let ghost none = Seq::new(segs@.len(), |i: int| false);
    assert(used@ =~= none);
    let mut out: Vec<Vec<Point2>> = Vec::new();
    assert(rings(out@) =~= Seq::empty());
    let mut i: usize = 0;
    while i < n
        invariant
            n == segs@.len(),
            i <= n,
            keys@.len() == 2 * segs@.len(),
            used@.len() == n,
            chains(keys@, segs@, none, 0, Seq::empty()) == chains(
                keys@,
                segs@,
                used@,
                i as int,
                rings(out@),
            ),
        decreases n - i,
    {
        if !used[i] {
            let c = walk_from(&keys, segs, &mut used, i);
            if c.len() >= 3 {
                let ghost held = rings(out@);
                let ghost cv = c@;
                out.push(c);
                assert(rings(out@) =~= held.push(cv));
            }
        }
        i = i + 1;
    }
    out
}

// ---- cutting -----------------------------------------------------------------------------------------------

/// Where an edge crosses the plane just above the ground, where it does.
pub open spec fn crossing(m: Reading, a: Point3, b: Point3) -> Option<Point2> {
    let za = m.at(NumOp::Sub, a.z, WELD);
    let zb = m.at(NumOp::Sub, b.z, WELD);
    if less(za, ZERO) != less(zb, ZERO) {
        let f = m.at(NumOp::Div, za, m.at(NumOp::Sub, za, zb));
        Some(
            Point2 {
                x: m.at(NumOp::Add, a.x, m.at(NumOp::Mul, m.at(NumOp::Sub, b.x, a.x), f)),
                y: m.at(NumOp::Add, a.y, m.at(NumOp::Mul, m.at(NumOp::Sub, b.y, a.y), f)),
            },
        )
    } else {
        None
    }
}

/// The piece that a triangle leaves on the plane, where two of its edges cross
/// it.
pub open spec fn piece_of(m: Reading, verts: Seq<Point3>, t: Triangle) -> Option<Segment> {
    let ab = crossing(m, verts[t.a as int], verts[t.b as int]);
    let bc = crossing(m, verts[t.b as int], verts[t.c as int]);
    let ca = crossing(m, verts[t.c as int], verts[t.a as int]);
    match (ab, bc, ca) {
        (Some(p), Some(q), None) => Some(Segment { a: p, b: q }),
        (Some(p), None, Some(q)) => Some(Segment { a: p, b: q }),
        (None, Some(p), Some(q)) => Some(Segment { a: p, b: q }),
        _ => None,
    }
}

/// The pieces of the first `n` triangles.
pub open spec fn pieces_below(m: Reading, mesh: MeshView, n: int) -> Seq<Segment>
    decreases n,
{
    if n <= 0 {
        Seq::empty()
    } else {
        match piece_of(m, mesh.verts, mesh.tris[n - 1]) {
            Some(s) => pieces_below(m, mesh, n - 1).push(s),
            None => pieces_below(m, mesh, n - 1),
        }
    }
}

fn find_crossing<A: Arithmetic>(calc: &mut Calc<A>, a: Point3, b: Point3) -> (r: Option<Point2>)
    ensures
        forall|m: Reading| #[trigger]
            final(calc).agrees(m) ==> old(calc).agrees(m) && r == crossing(m, a, b),
{
    let za: u64 = calc.apply(NumOp::Sub, a.z, WELD);
    let zb: u64 = calc.apply(NumOp::Sub, b.z, WELD);
    if is_less(za, ZERO) == is_less(zb, ZERO) {
        return None;
    }
    let h: u64 = calc.apply(NumOp::Sub, za, zb);
    let f: u64 = calc.apply(NumOp::Div, za, h);
    let dx: u64 = calc.apply(NumOp::Sub, b.x, a.x);
    let fx: u64 = calc.apply(NumOp::Mul, dx, f);
    let x: u64 = calc.apply(NumOp::Add, a.x, fx);
    let dy: u64 = calc.apply(NumOp::Sub, b.y, a.y);
    let fy: u64 = calc.apply(NumOp::Mul, dy, f);
    let y: u64 = calc.apply(NumOp::Add, a.y, fy);
    Some(Point2 { x, y })
}

fn find_piece<A: Arithmetic>(calc: &mut Calc<A>, verts: &Vec<Point3>, t: Triangle) -> (r: Option<Segment>)
    requires
        t.within(verts@.len()),
    ensures
        forall|m: Reading| #[trigger]
            final(calc).agrees(m) ==> old(calc).agrees(m) && r == piece_of(m, verts@, t),
{
    let a = verts[t.a as usize];
    let b = verts[t.b as usize];
    let c = verts[t.c as usize];
    let ab = find_crossing(calc, a, b);
    let bc = find_crossing(calc, b, c);
    let ca = find_crossing(calc, c, a);
    match (ab, bc, ca) {
        (Some(p), Some(q), None) => Some(Segment { a: p, b: q }),
        (Some(p), None, Some(q)) => Some(Segment { a: p, b: q }),
        (None, Some(p), Some(q)) => Some(Segment { a: p, b: q }),
        _ => None,
    }
}

/// The closed outlines in which a mesh meets the ground plane.
pub fn slice_z0<A: Arithmetic>(calc: &mut Calc<A>, mesh: &Mesh) -> (r: Vec<Vec<Point2>>)
    requires
        mesh@.indexed(),
    ensures
        forall|m: Reading| #[trigger]
            final(calc).agrees(m) ==> old(calc).agrees(m) && rings(r@) == chained(
                m,
                pieces_below(m, mesh@, mesh@.tris.len() as int),
            ),
{
    let mut segs: Vec<Segment> = Vec::new();
    let mut i: usize = 0;
    while i < mesh.tris.len()
        invariant
            i <= mesh@.tris.len(),
            mesh@.indexed(),
            forall|m: Reading| #[trigger]
                calc.agrees(m) ==> old(calc).agrees(m) && segs@ == pieces_below(
                    m,
                    mesh@,
                    i as int,
                ),
        decreases mesh.tris.len() - i,
    {
        assert(mesh@.tris[i as int].within(mesh@.verts.len()));
        match find_piece(calc, &mesh.verts, mesh.tris[i]) {
            Some(s) => {
                segs.push(s);
            },
            None => {},
        }
        i = i + 1;
    }
    chain_segments(calc, &segs)
}

// ---- silhouettes ---------------------------------------------------------------------------------------------

/// The shadow of a triangle on the ground plane.
pub open spec fn shadow(verts: Seq<Point3>, t: Triangle) -> Seq<Point2> {
    let a = verts[t.a as int];
    let b = verts[t.b as int];
    let c = verts[t.c as int];
    seq![Point2 { x: a.x, y: a.y }, Point2 { x: b.x, y: b.y }, Point2 { x: c.x, y: c.y }]
}

/// The shadows of the first `n` triangles that are not seen edge on.
pub open spec fn shadows_below(m: Reading, mesh: MeshView, n: int) -> Seq<Seq<RegionView>>
    decreases n,
{
    if n <= 0 {
        Seq::empty()
    } else {
        let s = shadow(mesh.verts, mesh.tris[n - 1]);
        if less(size_of(turn_of(m, s[0], s[1], s[2])), NANO) {
            shadows_below(m, mesh, n - 1)
        } else {
            shadows_below(m, mesh, n - 1).push(
                seq![RegionView { outer: s, holes: Seq::empty() }],
            )
        }
    }
}

/// The outlines of a mesh's shadow on the ground plane: the shadows of all its
/// triangles joined.
pub fn silhouette<A: Arithmetic, C: Clip>(
    calc: &mut Calc<A>,
    log: &mut PlaneLog,
    host: &mut C,
    mesh: &Mesh,
) -> (r: Vec<Vec<Point2>>)
    requires
        mesh@.indexed(),
    ensures
        forall|m: Reading, p: PlaneReading|
            #![trigger final(calc).agrees(m), final(log).agrees(p)]
            final(calc).agrees(m) && final(log).agrees(p) ==> old(calc).agrees(m) && old(
                log,
            ).agrees(p) && rings(r@) == outlines(
                joined_all(p, shadows_below(m, mesh@, mesh@.tris.len() as int)),
            ),
{
    let mut sets: Vec<Vec<Region>> = Vec::new();
    let mut i: usize = 0;
    assert(sets_view(sets@) =~= Seq::empty());
    while i < mesh.tris.len()
        invariant
            i <= mesh@.tris.len(),
            mesh@.indexed(),
            forall|m: Reading| #[trigger]
                calc.agrees(m) ==> old(calc).agrees(m) && sets_view(sets@) == shadows_below(
                    m,
                    mesh@,
                    i as int,
                ),
        decreases mesh.tris.len() - i,
    {
        let t = mesh.tris[i];
        assert(mesh@.tris[i as int].within(mesh@.verts.len()));
        let a = mesh.verts[t.a as usize];
        let b = mesh.verts[t.b as usize];
        let c = mesh.verts[t.c as usize];
        let pa = Point2 { x: a.x, y: a.y };
        let pb = Point2 { x: b.x, y: b.y };
        let pc = Point2 { x: c.x, y: c.y };
        let turn: u64 = cross2(calc, pa, pb, pc);
        if !is_less(absolute(turn), NANO) {
            let ghost held = sets_view(sets@);
            let mut outer: Vec<Point2> = Vec::new();
            outer.push(pa);
            outer.push(pb);
            outer.push(pc);
            assert(outer@ =~= shadow(mesh@.verts, t));
            let holes: Vec<Vec<Point2>> = Vec::new();
            assert(rings(holes@) =~= Seq::empty());
            let one = Region { outer, holes };
            let ghost ov = one@;
            let mut set: Vec<Region> = Vec::new();
            set.push(one);
            assert(regions(set@) =~= seq![ov]);
            let ghost sv = regions(set@);
            sets.push(set);
            assert(sets_view(sets@) =~= held.push(sv));
        }
        i = i + 1;
    }
    let joined = union_multi(log, host, sets);
    from_regions(&joined)
}

} // verus!
