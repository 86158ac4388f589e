//! What the triangles of solids are for: they close the solid, each edge run along as
//! often one way as the other, and face outward.

use crate::extrude::{end_caps, loop_walls, range_walls};
use crate::faces::{fan, fan_triangle, span_of, FaceView};
use crate::mesh::{Point3, Triangle};
use crate::node::{FragmentSpec, Point2};
use crate::num::{at_most, less, Reading, ZERO};
use crate::planar::{after, segments_meet};
use crate::revolve::{before, both_ends, clipped, first_ear, in_triangle, sectors};
use crate::tessellate::{
    band, bands, box_triangles, cap, cylinder_of, ring_place, rings_of, round_of, sphere_of, wall,
};
use crate::vector::length_of;
use vstd::prelude::*;

verus! {

/// How often the way from `u` to `v` runs from `a` to `b`: once, once back, or not.
pub open spec fn along(u: u32, v: u32, a: u32, b: u32) -> int {
    (if u == a && v == b {
        1int
    } else {
        0
    }) - (if u == b && v == a {
        1int
    } else {
        0
    })
}

/// How often the rim of a triangle runs from `a` to `b`.
pub open spec fn rim(t: Triangle, a: u32, b: u32) -> int {
    along(t.a, t.b, a, b) + along(t.b, t.c, a, b) + along(t.c, t.a, a, b)
}

/// How often the rims of triangles run from `a` to `b`, less how often they run back.
/// Where it is zero for all edges, the triangles close a solid.
pub open spec fn flow(tris: Seq<Triangle>, a: u32, b: u32) -> int
    decreases tris.len(),
{
    if tris.len() == 0 {
        0
    } else {
        flow(tris.drop_last(), a, b) + rim(tris.last(), a, b)
    }
}

/// How often the way along the first `k` points of a ring runs from `a` to `b`.
pub open spec fn ring_way(start: int, n: u32, k: int, a: u32, b: u32) -> int
    decreases k,
{
    if k <= 0 {
        0
    } else {
        ring_way(start, n, k - 1, a, b) + along(
            ring_place(start, k - 1, n),
            ring_place(start, k, n),
            a,
            b,
        )
    }
}

proof fn lemma_push(tris: Seq<Triangle>, t: Triangle, a: u32, b: u32)
    ensures
        flow(tris.push(t), a, b) == flow(tris, a, b) + rim(t, a, b),
{
    assert(tris.push(t).drop_last() =~= tris);
}

proof fn lemma_join(x: Seq<Triangle>, y: Seq<Triangle>, a: u32, b: u32)
    ensures
        flow(x + y, a, b) == flow(x, a, b) + flow(y, a, b),
    decreases y.len(),
{
    if y.len() == 0 {
        assert(x + y =~= x);
    } else {
        assert((x + y).drop_last() =~= x + y.drop_last());
        lemma_join(x, y.drop_last(), a, b);
    }
}

// ---- boxes -------------------------------------------------------------------------------------

/// The triangles of a box close it.
pub proof fn law_box_closed(a: u32, b: u32)
    ensures
        flow(box_triangles(), a, b) == 0,
{
    let t = box_triangles();
    let empty = Seq::<Triangle>::empty();
    lemma_push(t.take(11), t[11], a, b);
    lemma_push(t.take(10), t[10], a, b);
    lemma_push(t.take(9), t[9], a, b);
    lemma_push(t.take(8), t[8], a, b);
    lemma_push(t.take(7), t[7], a, b);
    lemma_push(t.take(6), t[6], a, b);
    lemma_push(t.take(5), t[5], a, b);
    lemma_push(t.take(4), t[4], a, b);
    lemma_push(t.take(3), t[3], a, b);
    lemma_push(t.take(2), t[2], a, b);
    lemma_push(t.take(1), t[1], a, b);
    lemma_push(t.take(0), t[0], a, b);
    assert(t.take(0) =~= empty);
    assert(t.take(0).push(t[0]) =~= t.take(1));
    assert(t.take(1).push(t[1]) =~= t.take(2));
    assert(t.take(2).push(t[2]) =~= t.take(3));
    assert(t.take(3).push(t[3]) =~= t.take(4));
    assert(t.take(4).push(t[4]) =~= t.take(5));
    assert(t.take(5).push(t[5]) =~= t.take(6));
    assert(t.take(6).push(t[6]) =~= t.take(7));
    assert(t.take(7).push(t[7]) =~= t.take(8));
    assert(t.take(8).push(t[8]) =~= t.take(9));
    assert(t.take(9).push(t[9]) =~= t.take(10));
    assert(t.take(10).push(t[10]) =~= t.take(11));
    assert(t.take(11).push(t[11]) =~= t);
}

// ---- rings -------------------------------------------------------------------------------------

proof fn lemma_band(low: int, high: int, n: u32, k: int, a: u32, b: u32)
    requires
        0 <= k,
    ensures
        flow(band(low, high, n, k), a, b) == ring_way(high, n, k, a, b) - ring_way(low, n, k, a, b)
            + along(ring_place(low, 0, n), ring_place(high, 0, n), a, b) - along(
            ring_place(low, k, n),
            ring_place(high, k, n),
            a,
            b,
        ),
    decreases k,
{
    if k > 0 {
        lemma_band(low, high, n, k - 1, a, b);
        let j = k - 1;
        let v00 = ring_place(low, j, n);
        let v01 = ring_place(low, j + 1, n);
        let v10 = ring_place(high, j, n);
        let v11 = ring_place(high, j + 1, n);
        let s = band(low, high, n, j);
        let t = Triangle { a: v00, b: v10, c: v11 };
        lemma_push(s, t, a, b);
        lemma_push(s.push(t), (Triangle { a: v00, b: v11, c: v01 }), a, b);
    }
}

/// The band between two rings is bounded by them: its rim runs along the high ring
/// the way the ring runs, and along the low ring the other way.
pub proof fn law_band_between_rings(low: int, high: int, n: u32, a: u32, b: u32)
    requires
        n > 0,
    ensures
        flow(band(low, high, n, n as int), a, b) == ring_way(high, n, n as int, a, b) - ring_way(
            low,
            n,
            n as int,
            a,
            b,
        ),
{
    lemma_band(low, high, n, n as int, a, b);
}

proof fn lemma_cap(start: int, below: bool, n: u32, k: int, a: u32, b: u32)
    requires
        1 <= k < n,
    ensures
        ({
            let way = ring_way(start, n, k, a, b) + along(
                ring_place(start, k, n),
                start as u32,
                a,
                b,
            );
            flow(cap(start, below, k), a, b) == if below {
                -way
            } else {
                way
            }
        }),
    decreases k,
{
    if k > 1 {
        lemma_cap(start, below, n, k - 1, a, b);
        let j = k - 1;
        let t = if below {
            Triangle { a: start as u32, b: (start + j + 1) as u32, c: (start + j) as u32 }
        } else {
            Triangle { a: start as u32, b: (start + j) as u32, c: (start + j + 1) as u32 }
        };
        lemma_push(cap(start, below, j), t, a, b);
    } else {
        assert(cap(start, below, k) =~= Seq::empty());
        assert(ring_way(start, n, 0, a, b) == 0);
        assert(ring_place(start, 0, n) == start as u32);
    }
}

/// The cap over a ring is bounded by it: seen from above it runs the way the ring
/// runs, and turned round, the other way.
pub proof fn law_cap_over_ring(start: int, below: bool, n: u32, a: u32, b: u32)
    requires
        n >= 3,
    ensures
        flow(cap(start, below, n - 1), a, b) == if below {
            -ring_way(start, n, n as int, a, b)
        } else {
            ring_way(start, n, n as int, a, b)
        },
{
    lemma_cap(start, below, n, n - 1, a, b);
    assert(ring_place(start, n as int, n) == start as u32);
}

proof fn lemma_bands(n: u32, k: int, a: u32, b: u32)
    requires
        n > 0,
        0 <= k,
    ensures
        flow(bands(n, k), a, b) == ring_way(k * n, n, n as int, a, b) - ring_way(
            0,
            n,
            n as int,
            a,
            b,
        ),
    decreases k,
{
    if k > 0 {
        lemma_bands(n, k - 1, a, b);
        law_band_between_rings((k - 1) * n, k * n, n, a, b);
        lemma_join(bands(n, k - 1), band((k - 1) * n, k * n, n, n as int), a, b);
    } else {
        assert(0 * n == 0);
    }
}

/// The triangles of a sphere close it.
pub proof fn law_sphere_closed(m: Reading, r: u64, f: FragmentSpec, a: u32, b: u32)
    ensures
        sphere_of(m, r, f) matches Some(mesh) ==> flow(mesh.tris, a, b) == 0,
{
    let n = round_of(m, r, f);
    let rings = rings_of(n);
    if !at_most(r, ZERO) && n * rings <= u32::MAX {
        let (x, y, z) = (bands(n, rings - 1), cap(0, false, n - 1), cap((rings - 1) * n, true, n - 1));
        lemma_bands(n, rings - 1, a, b);
        law_cap_over_ring(0, false, n, a, b);
        law_cap_over_ring((rings - 1) * n, true, n, a, b);
        lemma_join(x, y, a, b);
        lemma_join(x + y, z, a, b);
    }
}

proof fn lemma_wall(
    bottom: int,
    top: int,
    tip_below: bool,
    tip_above: bool,
    n: u32,
    k: int,
    a: u32,
    b: u32,
)
    requires
        0 <= k,
    ensures
        ({
            let low = ring_way(bottom, n, k, a, b);
            let high = ring_way(top, n, k, a, b);
            flow(wall(bottom, top, tip_below, tip_above, n, k), a, b) == if tip_below {
                along(bottom as u32, ring_place(top, k, n), a, b) - along(
                    bottom as u32,
                    ring_place(top, 0, n),
                    a,
                    b,
                ) - high
            } else if tip_above {
                low + along(ring_place(bottom, k, n), top as u32, a, b) - along(
                    ring_place(bottom, 0, n),
                    top as u32,
                    a,
                    b,
                )
            } else {
                low - high + along(ring_place(bottom, k, n), ring_place(top, k, n), a, b) - along(
                    ring_place(bottom, 0, n),
                    ring_place(top, 0, n),
                    a,
                    b,
                )
            }
        }),
    decreases k,
{
    if k > 0 {
        lemma_wall(bottom, top, tip_below, tip_above, n, k - 1, a, b);
        let j = k - 1;
        let s = wall(bottom, top, tip_below, tip_above, n, j);
        let b0 = ring_place(bottom, j, n);
        let b1 = ring_place(bottom, j + 1, n);
        let t0 = ring_place(top, j, n);
        let t1 = ring_place(top, j + 1, n);
        if tip_below {
            lemma_push(s, (Triangle { a: bottom as u32, b: t1, c: t0 }), a, b);
        } else if tip_above {
            lemma_push(s, (Triangle { a: b0, b: b1, c: top as u32 }), a, b);
        } else {
            let t = Triangle { a: b0, b: b1, c: t1 };
            lemma_push(s, t, a, b);
            lemma_push(s.push(t), (Triangle { a: b0, b: t1, c: t0 }), a, b);
        }
    }
}

/// The wall of a cylinder is bounded by its two rings, run along at the bottom the way
/// the ring runs and at the top the other way; a tip bounds nothing.
pub proof fn law_wall_between_rings(
    bottom: int,
    top: int,
    tip_below: bool,
    tip_above: bool,
    n: u32,
    a: u32,
    b: u32,
)
    requires
        n > 0,
        !tip_below || !tip_above,
    ensures
        flow(wall(bottom, top, tip_below, tip_above, n, n as int), a, b) == (if tip_below {
            0
        } else {
            ring_way(bottom, n, n as int, a, b)
        }) - (if tip_above {
            0
        } else {
            ring_way(top, n, n as int, a, b)
        }),
{
    lemma_wall(bottom, top, tip_below, tip_above, n, n as int, a, b);
}

/// The triangles of a cylinder or a cone close it.
pub proof fn law_cylinder_closed(
    m: Reading,
    h: u64,
    r1: u64,
    r2: u64,
    center: bool,
    f: FragmentSpec,
    a: u32,
    b: u32,
)
    ensures
        cylinder_of(m, h, r1, r2, center, f) matches Some(mesh) ==> flow(mesh.tris, a, b) == 0,
{
    let n = round_of(m, crate::solid::greater(r1, r2), f);
    let below = at_most(r1, ZERO);
    let above = at_most(r2, ZERO);
    let top = if below {
        1int
    } else {
        n as int
    };
    if !(below && above) && 2 * n <= u32::MAX {
        let x = wall(0, top, below, above, n, n as int);
        let y = if below {
            Seq::empty()
        } else {
            cap(0, true, n - 1)
        };
        let z = if above {
            Seq::empty()
        } else {
            cap(top, false, n - 1)
        };
        law_wall_between_rings(0, top, below, above, n, a, b);
        law_cap_over_ring(0, true, n, a, b);
        law_cap_over_ring(top, false, n, a, b);
        lemma_join(x, y, a, b);
        lemma_join(x + y, z, a, b);
        assert(flow(Seq::empty(), a, b) == 0);
    }
}

// ---- extrusions --------------------------------------------------------------------------------

/// The place of the `k`-th point of a loop in the layer that starts at `start`.
pub open spec fn loop_place(range: (usize, usize), start: int, k: int) -> u32 {
    (start + (range.0 + if k < range.1 {
        k
    } else {
        0
    })) as u32
}

/// How often the way along the first `k` points of a loop runs from `a` to `b`.
pub open spec fn loop_way(range: (usize, usize), start: int, k: int, a: u32, b: u32) -> int
    decreases k,
{
    if k <= 0 {
        0
    } else {
        loop_way(range, start, k - 1, a, b) + along(
            loop_place(range, start, k - 1),
            loop_place(range, start, k),
            a,
            b,
        )
    }
}

proof fn lemma_loop_walls(range: (usize, usize), low: int, high: int, k: int, a: u32, b: u32)
    requires
        0 <= k <= range.1,
    ensures
        flow(loop_walls(range, low, high, k), a, b) == loop_way(range, low, k, a, b) - loop_way(
            range,
            high,
            k,
            a,
            b,
        ) + along(loop_place(range, low, k), loop_place(range, high, k), a, b) - along(
            loop_place(range, low, 0),
            loop_place(range, high, 0),
            a,
            b,
        ),
    decreases k,
{
    if k > 0 {
        lemma_loop_walls(range, low, high, k - 1, a, b);
        let s = loop_walls(range, low, high, k - 1);
        let i = range.0 + k - 1;
        let j = range.0 + if k < range.1 {
            k
        } else {
            0
        };
        let p = (low + i) as u32;
        let q = (low + j) as u32;
        let c = (high + j) as u32;
        let d = (high + i) as u32;
        assert(p == loop_place(range, low, k - 1));
        assert(q == loop_place(range, low, k));
        assert(c == loop_place(range, high, k));
        assert(d == loop_place(range, high, k - 1));
        let t = Triangle { a: p, b: q, c };
        lemma_push(s, t, a, b);
        lemma_push(s.push(t), (Triangle { a: p, b: c, c: d }), a, b);
    }
}

/// The wall over a loop is bounded by the loop in both layers: it runs along the lower
/// one the way the loop runs, and along the upper one the other way.
pub proof fn law_wall_over_loop(range: (usize, usize), low: int, high: int, a: u32, b: u32)
    ensures
        flow(loop_walls(range, low, high, range.1 as int), a, b) == loop_way(
            range,
            low,
            range.1 as int,
            a,
            b,
        ) - loop_way(range, high, range.1 as int, a, b),
{
    lemma_loop_walls(range, low, high, range.1 as int, a, b);
    assert(loop_place(range, low, range.1 as int) == loop_place(range, low, 0));
    assert(loop_place(range, high, range.1 as int) == loop_place(range, high, 0));
}

/// The walls over a loop through all layers are bounded by the loop in the first and
/// in the last one alone.
pub proof fn law_walls_through_layers(range: (usize, usize), n: int, k: int, a: u32, b: u32)
    requires
        0 <= k,
    ensures
        flow(range_walls(range, n, k), a, b) == loop_way(range, 0, range.1 as int, a, b) - loop_way(
            range,
            k * n,
            range.1 as int,
            a,
            b,
        ),
    decreases k,
{
    if k > 0 {
        law_walls_through_layers(range, n, k - 1, a, b);
        law_wall_over_loop(range, (k - 1) * n, k * n, a, b);
        lemma_join(
            range_walls(range, n, k - 1),
            loop_walls(range, (k - 1) * n, k * n, range.1 as int),
            a,
            b,
        );
    } else {
        assert(0 * n == 0);
    }
}

/// The two ends of an extrusion have the same fill: below it is turned round, above it
/// lies in the last layer.
pub proof fn law_ends_filled(caps: Seq<Triangle>, top: int, count: int, i: int)
    requires
        0 <= i < count <= caps.len(),
    ensures
        ({
            let v = end_caps(caps, top, count);
            let t = caps[i];
            &&& v.len() == 2 * count
            &&& v[2 * i] == (Triangle { a: t.a, b: t.c, c: t.b })
            &&& v[2 * i + 1] == (Triangle {
                a: (top + t.a) as u32,
                b: (top + t.b) as u32,
                c: (top + t.c) as u32,
            })
        }),
    decreases count,
{
    if count > 1 {
        law_ends_filled(
            caps,
            top,
            count - 1,
            if i < count - 1 {
                i
            } else {
                0
            },
        );
    } else {
        assert(end_caps(caps, top, 0) =~= Seq::empty());
    }
}

// ---- sweeps ------------------------------------------------------------------------------------

/// The walls of a sweep are bounded by its first and its last ring; where the last
/// ring is the first one again, they close.
pub proof fn law_sectors_close(base: int, n: int, rings: int, k: int, a: u32, b: u32)
    requires
        0 < n <= usize::MAX,
        0 <= k <= rings,
    ensures
        ({
            let at = if k == rings {
                base
            } else {
                base + k * n
            };
            flow(sectors(base, n, rings, k), a, b) == if k == 0 {
                0
            } else {
                loop_way((0, n as usize), base, n, a, b) - loop_way((0, n as usize), at, n, a, b)
            }
        }),
        k == rings ==> flow(sectors(base, n, rings, k), a, b) == 0,
    decreases k,
{
    if k > 0 {
        law_sectors_close(base, n, rings, k - 1, a, b);
        let high = if k == rings {
            base
        } else {
            base + k * n
        };
        law_wall_over_loop((0, n as usize), base + (k - 1) * n, high, a, b);
        lemma_join(
            sectors(base, n, rings, k - 1),
            loop_walls((0, n as usize), base + (k - 1) * n, high, n),
            a,
            b,
        );
        assert(k == 1 ==> (k - 1) * n == 0) by (nonlinear_arith);
    }
}

/// The two ends of a partial sweep have the same fill: at the first ring it is turned
/// round, at the last ring it is not.
pub proof fn law_sweep_ends(tris: Seq<Triangle>, low: int, high: int, count: int, i: int)
    requires
        0 <= i < count <= tris.len(),
    ensures
        ({
            let v = both_ends(tris, low, high, count);
            let t = tris[i];
            &&& v.len() == 2 * count
            &&& v[2 * i] == (Triangle {
                a: (low + t.a) as u32,
                b: (low + t.c) as u32,
                c: (low + t.b) as u32,
            })
            &&& v[2 * i + 1] == (Triangle {
                a: (high + t.a) as u32,
                b: (high + t.b) as u32,
                c: (high + t.c) as u32,
            })
        }),
    decreases count,
{
    if count > 1 {
        law_sweep_ends(
            tris,
            low,
            high,
            count - 1,
            if i < count - 1 {
                i
            } else {
                0
            },
        );
    } else {
        assert(both_ends(tris, low, high, 0) =~= Seq::empty());
    }
}

// ---- faces -------------------------------------------------------------------------------------

/// How often the way along the first `k` corners of a face runs from `a` to `b`.
pub open spec fn corner_way(ids: Seq<u32>, k: int, a: u32, b: u32) -> int
    decreases k,
{
    if k <= 0 {
        0
    } else {
        corner_way(ids, k - 1, a, b) + along(
            ids[k - 1],
            ids[if k < ids.len() {
                k
            } else {
                0
            }],
            a,
            b,
        )
    }
}

proof fn lemma_fan(m: Reading, points: Seq<Point3>, f: FaceView, k: int, a: u32, b: u32)
    requires
        1 <= k < f.ids.len(),
        forall|j: int|
            1 <= j < f.ids.len() - 1 ==> less(
                f.area_eps,
                length_of(m, span_of(m, points, #[trigger] fan_triangle(f.ids, j))),
            ),
    ensures
        flow(fan(m, points, f, k), a, b) == along(f.ids[0], f.ids[k], a, b) - corner_way(
            f.ids,
            k,
            a,
            b,
        ),
    decreases k,
{
    if k > 1 {
        lemma_fan(m, points, f, k - 1, a, b);
        lemma_push(fan(m, points, f, k - 1), fan_triangle(f.ids, k - 1), a, b);
        assert(less(
            f.area_eps,
            length_of(m, span_of(m, points, fan_triangle(f.ids, k - 1))),
        ));
    } else {
        assert(fan(m, points, f, 1) =~= Seq::empty());
        assert(corner_way(f.ids, 0, a, b) == 0);
    }
}

/// A face whose corners are listed clockwise is filled by triangles that run
/// counter-clockwise: together their rims run along the face the other way.
pub proof fn law_face_filled(m: Reading, points: Seq<Point3>, f: FaceView, a: u32, b: u32)
    requires
        f.ids.len() >= 3,
        forall|j: int|
            1 <= j < f.ids.len() - 1 ==> less(
                f.area_eps,
                length_of(m, span_of(m, points, #[trigger] fan_triangle(f.ids, j))),
            ),
    ensures
        flow(fan(m, points, f, f.ids.len() - 1), a, b) == -corner_way(
            f.ids,
            f.ids.len() as int,
            a,
            b,
        ),
{
    lemma_fan(m, points, f, f.ids.len() - 1, a, b);
}

// ---- ears --------------------------------------------------------------------------------------

/// How often the way along corners runs from `a` to `b`.
pub open spec fn path_way(ids: Seq<u32>, a: u32, b: u32) -> int
    decreases ids.len(),
{
    if ids.len() < 2 {
        0
    } else {
        path_way(ids.drop_last(), a, b) + along(ids[ids.len() - 2], ids.last(), a, b)
    }
}

/// How often the way round corners, back to the first, runs from `a` to `b`.
pub open spec fn round_way(ids: Seq<u32>, a: u32, b: u32) -> int {
    path_way(ids, a, b) + along(ids.last(), ids[0], a, b)
}

proof fn lemma_path_join(x: Seq<u32>, y: Seq<u32>, a: u32, b: u32)
    requires
        x.len() > 0,
        y.len() > 0,
    ensures
        path_way(x + y, a, b) == path_way(x, a, b) + along(x.last(), y[0], a, b) + path_way(
            y,
            a,
            b,
        ),
    decreases y.len(),
{
    assert((x + y).drop_last() =~= x + y.drop_last());
    if y.len() == 1 {
        assert(x + y.drop_last() =~= x);
        assert((x + y)[(x + y).len() - 2] == x.last());
    } else {
        lemma_path_join(x, y.drop_last(), a, b);
        assert((x + y)[(x + y).len() - 2] == y[y.len() - 2]);
    }
}

/// Cutting a corner off changes the way round by the triangle that is cut off.
proof fn lemma_cut(ids: Seq<u32>, i: int, a: u32, b: u32)
    requires
        0 <= i < ids.len(),
        ids.len() >= 3,
    ensures
        ({
            let n = ids.len() as int;
            let t = Triangle { a: ids[before(i, n)], b: ids[i], c: ids[after(i, n)] };
            round_way(ids, a, b) == round_way(ids.remove(i), a, b) + rim(t, a, b)
        }),
{
    let n = ids.len() as int;
    let one = seq![ids[i]];
    let (x, y) = (ids.take(i), ids.skip(i + 1));
    let rest = ids.remove(i);
    assert(rest =~= x + y);
    assert(path_way(one, a, b) == 0);
    if i == 0 {
        assert(ids =~= one + y);
        assert(x + y =~= y);
        lemma_path_join(one, y, a, b);
    } else if i == n - 1 {
        assert(ids =~= x + one);
        assert(x + y =~= x);
        lemma_path_join(x, one, a, b);
    } else {
        assert(ids =~= (x + one) + y);
        lemma_path_join(x, one, a, b);
        lemma_path_join(x + one, y, a, b);
        lemma_path_join(x, y, a, b);
        assert((x + one).last() == ids[i]);
    }
}

proof fn lemma_clipped_length(m: Reading, poly: Seq<Point2>, left: Seq<u32>, done: Seq<Triangle>)
    ensures
        left.len() >= 3 ==> clipped(m, poly, left, done).len() <= done.len() + left.len() - 2,
        left.len() < 3 ==> clipped(m, poly, left, done) == done,
    decreases left.len(),
{
    let n = left.len() as int;
    if n > 3 {
        if let Some(i) = first_ear(m, poly, left, 0) {
            if 0 <= i < n {
                let t = Triangle { a: left[before(i, n)], b: left[i], c: left[after(i, n)] };
                lemma_clipped_length(m, poly, left.remove(i), done.push(t));
            }
        }
    }
}

/// An outline whose ears could all be cut off is filled: the rims of its triangles run
/// together along the outline, and nowhere else.
pub proof fn law_ears_fill(
    m: Reading,
    poly: Seq<Point2>,
    left: Seq<u32>,
    done: Seq<Triangle>,
    a: u32,
    b: u32,
)
    requires
        left.len() >= 3,
        clipped(m, poly, left, done).len() == done.len() + left.len() - 2,
    ensures
        flow(clipped(m, poly, left, done), a, b) == flow(done, a, b) + round_way(left, a, b),
    decreases left.len(),
{
    let n = left.len() as int;
    if n == 3 {
        let t = Triangle { a: left[0], b: left[1], c: left[2] };
        lemma_push(done, t, a, b);
        reveal_with_fuel(path_way, 3);
        assert(left.drop_last().drop_last().len() == 1);
        assert(left.drop_last()[0] == left[0] && left.drop_last().last() == left[1]);
    } else {
        if let Some(i) = first_ear(m, poly, left, 0) {
            if 0 <= i < n {
                let t = Triangle { a: left[before(i, n)], b: left[i], c: left[after(i, n)] };
                lemma_push(done, t, a, b);
                lemma_cut(left, i, a, b);
                law_ears_fill(m, poly, left.remove(i), done.push(t), a, b);
            }
        }
    }
}

/// Whether a point lies in a triangle does not depend on the corner that comes first.
pub proof fn law_inside_from_any_corner(m: Reading, p: Point2, a: Point2, b: Point2, c: Point2)
    ensures
        in_triangle(m, p, a, b, c) == in_triangle(m, p, b, c, a),
        in_triangle(m, p, a, b, c) == in_triangle(m, p, c, a, b),
{
}

/// Whether two segments meet does not depend on which comes first.
pub proof fn law_meeting_both_ways(
    m: Reading,
    a: Point2,
    b: Point2,
    c: Point2,
    d: Point2,
    linear: u64,
    area: u64,
)
    ensures
        segments_meet(m, a, b, c, d, linear, area) == segments_meet(m, c, d, a, b, linear, area),
{
}

} // verus!
