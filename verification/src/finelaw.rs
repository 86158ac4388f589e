//! What counts of steps and extremes are for: how finely curves are divided, and that
//! what is picked as the farthest is.

use crate::exact::{exact, lemma_div, lemma_mul, lemma_own, Numbers};
use crate::hull::{
    coordinate, farthest_from_line, farthest_from_plane, farthest_pair, highest, lowest,
};
use crate::mesh::{MeshView, Point3};
use crate::modules::{number_arg, slices_of, FIFTEEN};
use crate::node::{FragmentSpec, Node};
use crate::num::{at_most, finite, less, nan, zero, NumOp, Reading, ONE, TWO, ZERO};
use crate::offset::arc_steps;
use crate::patches::{is_full, reach_of};
use crate::planar::size_of;
use crate::revolve::steps_of;
use crate::sem::Env;
use crate::slice::{grid_number, GRAIN};
use crate::solid::{greater, lesser};
use crate::sources::{source_patches, span_number};
use crate::spacelaw::{dot3, law_dot};
use crate::surface::{height, low_grid, low_row};
use crate::tessellate::{counted, fragments_of, FIVE, FULL_TURN, GRID_FINE, PI};
use crate::vector::{clamped, cross_of, difference_of, dihedral, dot_of, length_of, normal_of};
use vstd::prelude::*;

verus! {

// ---- steps -------------------------------------------------------------------------------------

/// Without a number of fragments, a circle is divided so that no fragment has a smaller
/// angle or is shorter than is said: by the fewer of as many as the angle goes into a
/// full turn and the length into the circumference, rounded up, and at least five.
pub proof fn law_fragments_by_size(m: Reading, n: Numbers, r: u64, f: FragmentSpec)
    requires
        exact(m, n),
        !less(r, GRID_FINE),
        finite(f.fn_),
        !less(ZERO, f.fn_),
        n.divides((n.of)(f.fa)),
        n.divides((n.of)(f.fs)),
    ensures
        exists|by_angle: u64, by_length: u64|
            {
                &&& n.same(
                    #[trigger] (n.of)(by_angle) * (n.of)(f.fa),
                    (n.of)(FULL_TURN),
                )
                &&& n.same(
                    #[trigger] (n.of)(by_length) * (n.of)(f.fs),
                    2 * ((n.of)(r) * (n.of)(PI)),
                )
                &&& fragments_of(m, r, f) == counted(
                    m,
                    m.at(NumOp::Ceil, greater(lesser(by_angle, by_length), FIVE), 0),
                )
            },
{
    lemma_own(m, n);
    let (x, pi) = ((n.of)(r), (n.of)(PI));
    let by_angle = m.at(NumOp::Div, FULL_TURN, f.fa);
    lemma_div(m, n, FULL_TURN, f.fa, (n.of)(FULL_TURN), (n.of)(f.fa));
    lemma_mul(m, n, r, TWO, x, 2);
    let twice = m.at(NumOp::Mul, r, TWO);
    lemma_mul(m, n, twice, PI, x * 2, pi);
    let round = m.at(NumOp::Mul, twice, PI);
    assert((x * 2) * pi == 2 * (x * pi)) by (nonlinear_arith);
    let by_length = m.at(NumOp::Div, round, f.fs);
    lemma_div(m, n, round, f.fs, 2 * (x * pi), (n.of)(f.fs));
    assert(n.same((n.of)(by_angle) * (n.of)(f.fa), (n.of)(FULL_TURN)));
    assert(n.same((n.of)(by_length) * (n.of)(f.fs), 2 * (x * pi)));
}

/// A twisted extrusion has a slice to every 15 degrees of its twist, either way, and
/// one without a twist has one slice, unless it says how many.
pub proof fn law_slices_by_twist(m: Reading, n: Numbers, e: Env)
    requires
        exact(m, n),
        number_arg(e, "slices"@) is None,
        n.divides((n.of)(FIFTEEN)),
    ensures
        slices_of(m, e) >= 1,
        number_arg(e, "twist"@) is None ==> slices_of(m, e) == 1,
        number_arg(e, "twist"@) matches Some(t) ==> if zero(t) {
            slices_of(m, e) == 1
        } else {
            exists|q: u64|
                n.same(#[trigger] (n.of)(q) * (n.of)(FIFTEEN), (n.of)(size_of(t))) && {
                    let count = counted(m, greater(m.at(NumOp::Ceil, q, 0), ONE));
                    slices_of(m, e) == if count < 1 {
                        1
                    } else {
                        count
                    }
                }
        },
{
    lemma_own(m, n);
    assert(zero(ZERO));
    if let Some(t) = number_arg(e, "twist"@) {
        let q = m.at(NumOp::Div, size_of(t), FIFTEEN);
        lemma_div(m, n, size_of(t), FIFTEEN, (n.of)(size_of(t)), (n.of)(FIFTEEN));
        assert(n.same((n.of)(q) * (n.of)(FIFTEEN), (n.of)(size_of(t))));
    }
}

/// A sweep has as many steps of a full turn as its angle is of one, rounded up.
pub proof fn law_steps_by_angle(m: Reading, n: Numbers, sweep: u64, all: u32)
    requires
        exact(m, n),
        n.divides((n.of)(FULL_TURN)),
    ensures
        is_full(m, sweep) ==> steps_of(m, sweep, all) == all,
        !is_full(m, sweep) ==> exists|q: u64|
            n.same(
                #[trigger] (n.of)(q) * (n.of)(FULL_TURN),
                (all as int) * (n.of)(size_of(sweep)),
            ) && {
                let part = counted(m, m.at(NumOp::Ceil, q, 0));
                steps_of(m, sweep, all) == if part < 1 {
                    1
                } else {
                    part
                }
            },
{
    lemma_own(m, n);
    let (a, k) = (size_of(sweep), m.at(NumOp::FromInt, all as u64, 0));
    lemma_mul(m, n, k, a, all as int, (n.of)(a));
    let p = m.at(NumOp::Mul, k, a);
    lemma_div(m, n, p, FULL_TURN, (all as int) * (n.of)(a), (n.of)(FULL_TURN));
    let q = m.at(NumOp::Div, p, FULL_TURN);
    assert(n.same((n.of)(q) * (n.of)(FULL_TURN), (all as int) * (n.of)(a)));
}

/// An arc has as many steps of a full circle as its angle is of one, rounded up.
pub proof fn law_arc_by_angle(m: Reading, n: Numbers, full: u32, da: u64)
    requires
        exact(m, n),
        n.divides(2 * (n.of)(PI)),
    ensures
        exists|share: u64, q: u64|
            {
                &&& n.same(
                    #[trigger] (n.of)(share) * (2 * (n.of)(PI)),
                    (n.of)(size_of(da)),
                )
                &&& n.same((n.of)(q), (full as int) * (n.of)(share))
                &&& arc_steps(m, full, da) == {
                    let count = m.at(NumOp::ToInt, #[trigger] m.at(NumOp::Ceil, q, 0), 0);
                    if count < 1 {
                        1
                    } else {
                        count
                    }
                }
            },
{
    lemma_own(m, n);
    let (pi, a) = ((n.of)(PI), size_of(da));
    lemma_mul(m, n, TWO, PI, 2, pi);
    let turn = m.at(NumOp::Mul, TWO, PI);
    lemma_div(m, n, a, turn, (n.of)(a), 2 * pi);
    let share = m.at(NumOp::Div, a, turn);
    let k = m.at(NumOp::FromInt, full as u64, 0);
    lemma_mul(m, n, k, share, full as int, (n.of)(share));
    let q = m.at(NumOp::Mul, k, share);
    assert(n.same((n.of)(share) * (2 * pi), (n.of)(a)));
    let c = m.at(NumOp::Ceil, q, 0);
    assert(m.at(NumOp::ToInt, c, 0) == m.at(NumOp::ToInt, c, 0));
}

// ---- angles ------------------------------------------------------------------------------------

/// The angle at an edge is that between the normals of its triangles: its cosine is
/// their scalar product, kept between -1 and 1.
pub proof fn law_angle_between_normals(m: Reading, n: Numbers, mesh: MeshView, l: int, r: int)
    requires
        exact(m, n),
    ensures
        exists|c: u64|
            n.same(
                #[trigger] (n.of)(c),
                dot3(
                    n,
                    normal_of(m, mesh, mesh.tris[l]),
                    normal_of(m, mesh, mesh.tris[r]),
                ),
            ) && dihedral(m, mesh, l, r) == m.at(NumOp::Acos, clamped(c), 0) && crate::vector::dihedral_in_degrees(m, mesh, l, r) == m.at(
                NumOp::ToDegrees,
                dihedral(m, mesh, l, r),
                0,
            ),
{
    let (u, v) = (normal_of(m, mesh, mesh.tris[l]), normal_of(m, mesh, mesh.tris[r]));
    law_dot(m, n, u, v);
    let c = dot_of(m, u, v);
    assert(n.same((n.of)(c), dot3(n, u, v)));
}

/// A number that is kept between -1 and 1 lies there, and stays what it is where it
/// lay there.
pub proof fn law_clamped(v: u64)
    requires
        !nan(v),
    ensures
        at_most(crate::vector::MINUS_ONE, clamped(v)),
        at_most(clamped(v), ONE),
        at_most(crate::vector::MINUS_ONE, v) && at_most(v, ONE) ==> clamped(v) == v,
{
}

// ---- extremes ----------------------------------------------------------------------------------

/// The lowest of some points along an axis has none below it, and the highest none
/// above it.
pub proof fn law_extreme_points(pts: Seq<Point3>, axis: int, k: int, i: int)
    requires
        0 <= i < k <= pts.len(),
        forall|j: int| 0 <= j < pts.len() ==> !nan(coordinate(#[trigger] pts[j], axis)),
    ensures
        0 <= lowest(pts, axis, k) < k,
        0 <= highest(pts, axis, k) < k,
        !less(coordinate(pts[i], axis), coordinate(pts[lowest(pts, axis, k)], axis)),
        !less(coordinate(pts[highest(pts, axis, k)], axis), coordinate(pts[i], axis)),
    decreases k,
{
    assert(!nan(coordinate(pts[i], axis)) && !nan(coordinate(pts[k - 1], axis)));
    if k > 1 {
        law_extreme_points(
            pts,
            axis,
            k - 1,
            if i < k - 1 {
                i
            } else {
                0
            },
        );
        assert(!nan(coordinate(pts[lowest(pts, axis, k - 1)], axis)));
        assert(!nan(coordinate(pts[highest(pts, axis, k - 1)], axis)));
    }
}

/// No pair of extreme points is farther apart than the pair that is picked, and the
/// pair is as far apart as is said.
pub proof fn law_farthest_pair(m: Reading, pts: Seq<Point3>, ext: Seq<int>, k: int, i: int)
    requires
        0 <= i < k <= 36,
        ext.len() == 6,
        forall|j: int| 0 <= j < 6 ==> 0 <= #[trigger] ext[j] < pts.len() <= usize::MAX,
    ensures
        ({
            let best = farthest_pair(m, pts, ext, k);
            let d = length_of(m, difference_of(m, pts[ext[i / 6]], pts[ext[i % 6]]));
            &&& !less(best.far, d)
            &&& best.far == crate::vector::MINUS_ONE || best.far == length_of(
                m,
                difference_of(m, pts[best.a as int], pts[best.b as int]),
            )
        }),
        !nan(farthest_pair(m, pts, ext, k).far),
    decreases k,
{
    if k > 1 {
        law_farthest_pair(
            m,
            pts,
            ext,
            k - 1,
            if i < k - 1 {
                i
            } else {
                0
            },
        );
    } else {
        assert(farthest_pair(m, pts, ext, 0).far == crate::vector::MINUS_ONE);
    }
    let (a, b) = (ext[(k - 1) / 6], ext[(k - 1) % 6]);
    assert(0 <= a < pts.len() && 0 <= b < pts.len());
}

/// No point is farther from a line than the one that is picked.
pub proof fn law_farthest_from_line(m: Reading, pts: Seq<Point3>, a: int, b: int, k: int, i: int)
    requires
        0 <= i < k <= pts.len(),
        pts.len() <= usize::MAX,
    ensures
        ({
            let best = farthest_from_line(m, pts, a, b, k);
            let off = |j: int|
                length_of(
                    m,
                    cross_of(
                        m,
                        difference_of(m, pts[b], pts[a]),
                        difference_of(m, pts[j], pts[a]),
                    ),
                );
            &&& !less(best.far, off(i))
            &&& best.at matches Some(j) ==> j < k && best.far == off(j as int)
            &&& !nan(best.far)
        }),
    decreases k,
{
    if k > 1 {
        law_farthest_from_line(
            m,
            pts,
            a,
            b,
            k - 1,
            if i < k - 1 {
                i
            } else {
                0
            },
        );
    } else {
        assert(farthest_from_line(m, pts, a, b, 0).far == crate::faces::NANO);
    }
}

/// No point is farther from a plane, on either side, than the one that is picked.
pub proof fn law_farthest_from_plane(
    m: Reading,
    pts: Seq<Point3>,
    a: int,
    b: int,
    c: int,
    k: int,
    i: int,
)
    requires
        0 <= i < k <= pts.len(),
        pts.len() <= usize::MAX,
    ensures
        ({
            let best = farthest_from_plane(m, pts, a, b, c, k);
            let up = cross_of(
                m,
                difference_of(m, pts[b], pts[a]),
                difference_of(m, pts[c], pts[a]),
            );
            let off = |j: int| size_of(dot_of(m, up, difference_of(m, pts[j], pts[a])));
            &&& !less(best.far, off(i))
            &&& best.at matches Some(j) ==> j < k && best.far == off(j as int)
            &&& !nan(best.far)
        }),
    decreases k,
{
    if k > 1 {
        law_farthest_from_plane(
            m,
            pts,
            a,
            b,
            c,
            k - 1,
            if i < k - 1 {
                i
            } else {
                0
            },
        );
    } else {
        assert(farthest_from_plane(m, pts, a, b, c, 0).far == crate::faces::NANO);
    }
}

/// No vertex is farther from the axis than the reach.
pub proof fn law_reach(m: Reading, verts: Seq<Point3>, k: int, i: int)
    requires
        0 <= i < k <= verts.len(),
    ensures
        !less(reach_of(m, verts, k), m.at(NumOp::Hypot, verts[i].x, verts[i].y)),
        !nan(reach_of(m, verts, k)),
    decreases k,
{
    if k > 1 {
        law_reach(
            m,
            verts,
            k - 1,
            if i < k - 1 {
                i
            } else {
                0
            },
        );
    } else {
        assert(reach_of(m, verts, 0) == ZERO);
    }
}

proof fn lemma_low_row(rows: Seq<Vec<u64>>, r: int, start: u64, k: int, c: int)
    requires
        0 <= k,
        !nan(start),
    ensures
        !nan(low_row(rows, r, start, k)),
        !less(start, low_row(rows, r, start, k)),
        0 <= c < k ==> !less(height(rows, r, c), low_row(rows, r, start, k)),
    decreases k,
{
    if k > 0 {
        lemma_low_row(rows, r, start, k - 1, c);
    }
}

/// No height of a grid lies below its lowest.
pub proof fn law_lowest_height(rows: Seq<Vec<u64>>, w: int, k: int, r: int, c: int)
    requires
        0 <= w,
        0 <= k <= rows.len(),
    ensures
        !nan(low_grid(rows, w, k)),
        0 <= r < k && 0 <= c < w ==> !less(height(rows, r, c), low_grid(rows, w, k)),
    decreases k,
{
    if k > 0 {
        law_lowest_height(rows, w, k - 1, r, c);
        lemma_low_row(rows, k - 1, low_grid(rows, w, k - 1), w, c);
    }
}

// ---- patches and grids -------------------------------------------------------------------------

/// The number of three owners does not depend on their order.
pub proof fn law_span_in_any_order(a: u64, b: u64, c: u64)
    ensures
        span_number(a, b, c) == span_number(b, a, c),
        span_number(a, b, c) == span_number(a, c, b),
        span_number(a, b, c) == span_number(c, b, a),
{
}

/// Two triangles of a box are one patch where they make up one side of it: each patch
/// has the two that stand next to each other.
pub proof fn law_box_sides_are_patches(m: Reading, node: Node, mesh: MeshView, s: int, t: int)
    requires
        node is Cube,
        0 <= s < mesh.tris.len(),
        0 <= t < mesh.tris.len(),
        mesh.tris.len() <= u64::MAX,
    ensures
        source_patches(m, node, mesh).len() == mesh.tris.len(),
        source_patches(m, node, mesh)[s] == source_patches(m, node, mesh)[t] <==> s / 2 == t / 2,
{
}

/// A coordinate on the grid is counted in grains, rounded; numbers on either side of
/// zero are told apart.
pub proof fn law_grid_numbers(m: Reading, n: Numbers, v: u64)
    requires
        exact(m, n),
    ensures
        exists|w: u64|
            {
                let r = #[trigger] m.at(NumOp::Round, w, 0);
                let count = m.at(NumOp::ToInt, size_of(r), 0);
                &&& n.same((n.of)(w), (n.of)(v) * (n.of)(GRAIN))
                &&& count == 0 ==> grid_number(m, v) == 0
                &&& 0 < count <= 0x7fff_ffff_ffff_ffff && !less(r, ZERO) ==> grid_number(m, v)
                    == count
                &&& count > 0 && less(r, ZERO) ==> grid_number(m, v) > 0x7fff_ffff_ffff_ffff
                &&& !less(r, ZERO) ==> grid_number(m, v) <= 0x7fff_ffff_ffff_ffff
            },
{
    lemma_own(m, n);
    let w = m.at(NumOp::Mul, v, GRAIN);
    lemma_mul(m, n, v, GRAIN, (n.of)(v), (n.of)(GRAIN));
    let r = m.at(NumOp::Round, w, 0);
    assert(m.at(NumOp::ToInt, size_of(r), 0) == m.at(NumOp::ToInt, size_of(r), 0));
}

} // verus!
