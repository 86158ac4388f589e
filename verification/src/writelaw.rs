//! What is read back from the data of a binary document: the positions of a
//! primitive are those of the mesh, in meters and with the file's axis up.

use crate::edges::Edge;
use crate::exact::{exact, flipped, lemma_mul, lemma_own, lemma_ring, lemma_same, Numbers};
use crate::glb::{draw_lines, draw_triangles, Drawn, SceneView};
use crate::gltf::{
    aligned, corner_at, corner_normals, corner_positions, counting_bytes, end_at, end_positions,
    file_normal, file_point, highest, lowest, negative_single, scaled, shown_normal, single,
    vertex_bytes, Single3,
};
use crate::mesh::{Point3, Triangle};
use crate::num::{negative, zero, NumOp, Reading};
use crate::palette::MaterialKey;
use crate::pipeline::CoordinateSystem;
use vstd::bytes::*;
use vstd::prelude::*;

verus! {

/// The three single numbers that stand in bytes from a place on.
pub open spec fn single3_at(b: Seq<u8>, at: int) -> Single3 {
    Single3 {
        x: spec_u32_from_le_bytes(b.subrange(at, at + 4)),
        y: spec_u32_from_le_bytes(b.subrange(at + 4, at + 8)),
        z: spec_u32_from_le_bytes(b.subrange(at + 8, at + 12)),
    }
}

/// The coordinates, in the file's axes, of the point at `x`, `y` and `z` in the
/// axes of the model: where the file's `y` axis is up, the model's `z` becomes
/// `y`, and its `y` points backwards.
pub open spec fn placed(n: Numbers, q: Single3, x: int, y: int, z: int, up: CoordinateSystem) -> bool {
    match up {
        CoordinateSystem::YUp => n.same((n.single)(q.x), x) && n.same((n.single)(q.y), z)
            && n.same((n.single)(q.z), -y),
        CoordinateSystem::ZUp => n.same((n.single)(q.x), x) && n.same((n.single)(q.y), y)
            && n.same((n.single)(q.z), z),
    }
}

// ---- bytes -------------------------------------------------------------------------------------

proof fn lemma_vertex_length(v: Seq<Single3>)
    ensures
        vertex_bytes(v).len() == 12 * v.len(),
    decreases v.len(),
{
    lemma_auto_spec_u32_to_from_le_bytes();
    if v.len() > 0 {
        lemma_vertex_length(v.drop_last());
    }
}

/// A vertex is read back from the bytes of all.
#[verifier::rlimit(40)]
pub proof fn law_vertices_read_back(v: Seq<Single3>, i: int)
    requires
        0 <= i < v.len(),
    ensures
        vertex_bytes(v).len() == 12 * v.len(),
        single3_at(vertex_bytes(v), 12 * i) == v[i],
    decreases v.len(),
{
    lemma_vertex_length(v);
    lemma_vertex_length(v.drop_last());
    lemma_auto_spec_u32_to_from_le_bytes();
    let b = vertex_bytes(v);
    let w = vertex_bytes(v.drop_last());
    let at = 12 * i;
    if i < v.len() - 1 {
        law_vertices_read_back(v.drop_last(), i);
        assert(b.subrange(at, at + 4) =~= w.subrange(at, at + 4));
        assert(b.subrange(at + 4, at + 8) =~= w.subrange(at + 4, at + 8));
        assert(b.subrange(at + 8, at + 12) =~= w.subrange(at + 8, at + 12));
    } else {
        assert(b.subrange(at, at + 4) =~= spec_u32_to_le_bytes(v[i].x));
        assert(b.subrange(at + 4, at + 8) =~= spec_u32_to_le_bytes(v[i].y));
        assert(b.subrange(at + 8, at + 12) =~= spec_u32_to_le_bytes(v[i].z));
    }
}

/// An index is read back from the bytes of all: it is its own place.
pub proof fn law_indices_count(n: nat, i: int)
    requires
        0 <= i < n <= 0x1_0000_0000,
    ensures
        counting_bytes(n).len() == 4 * n,
        spec_u32_from_le_bytes(counting_bytes(n).subrange(4 * i, 4 * i + 4)) == i,
    decreases n,
{
    lemma_auto_spec_u32_to_from_le_bytes();
    let b = counting_bytes(n);
    let w = counting_bytes((n - 1) as nat);
    if n > 1 {
        law_indices_count((n - 1) as nat, if i < n - 1 { i } else { 0 });
    }
    if i < n - 1 {
        assert(b.subrange(4 * i, 4 * i + 4) =~= w.subrange(4 * i, 4 * i + 4));
    } else {
        assert(b.subrange(4 * i, 4 * i + 4) =~= spec_u32_to_le_bytes((n - 1) as u32));
    }
}

proof fn lemma_part(b: Seq<u8>, part: Seq<u8>, start: int, at: int)
    requires
        0 <= start,
        start + part.len() <= b.len(),
        b.subrange(start, start + part.len()) == part,
        0 <= at,
        at + 12 <= part.len(),
    ensures
        single3_at(b, start + at) == single3_at(part, at),
{
    assert(b.subrange(start + at, start + at + 4) =~= part.subrange(at, at + 4));
    assert(b.subrange(start + at + 4, start + at + 8) =~= part.subrange(at + 4, at + 8));
    assert(b.subrange(start + at + 8, start + at + 12) =~= part.subrange(at + 8, at + 12));
}

// ---- positions ---------------------------------------------------------------------------------

proof fn lemma_scaled(m: Reading, n: Numbers, v: u64, scale: u64)
    requires
        exact(m, n),
    ensures
        n.same((n.single)(scaled(m, v, scale)), (n.of)(v) * (n.of)(scale)),
{
    let p = m.at(NumOp::Mul, v, scale);
    let c = crate::vector::canonical(p);
    lemma_own(m, n);
    lemma_mul(m, n, v, scale, (n.of)(v), (n.of)(scale));
    if zero(p) {
        lemma_same(n, (n.of)(p), 0, 0);
        lemma_same(n, 0, (n.of)(p), (n.of)(v) * (n.of)(scale));
        lemma_same(n, (n.of)(c), 0, (n.of)(v) * (n.of)(scale));
    }
    let at = m.at(NumOp::ToSingle, c, 0);
    lemma_same(
        n,
        (n.single)((at % 0x1_0000_0000) as u32),
        (n.of)(c),
        (n.of)(v) * (n.of)(scale),
    );
}

proof fn lemma_flipped(m: Reading, n: Numbers, q: u32, a: int)
    requires
        exact(m, n),
        n.same((n.single)(q), a),
    ensures
        n.same((n.single)(negative_single(q)), -a),
{
    assert(negative_single(q) == flipped(q));
    lemma_ring(n, (n.single)(q), a, 0, 0);
    lemma_same(n, (n.single)(flipped(q)), -(n.single)(q), -a);
}

/// A vertex is written in meters: each coordinate is multiplied by the meters that
/// a unit of the model has, and the axes are turned to those of the file.
pub proof fn law_point_in_meters(m: Reading, n: Numbers, p: Point3, scale: u64, up: CoordinateSystem)
    requires
        exact(m, n),
    ensures
        placed(
            n,
            file_point(m, p, scale, up),
            (n.of)(p.x) * (n.of)(scale),
            (n.of)(p.y) * (n.of)(scale),
            (n.of)(p.z) * (n.of)(scale),
            up,
        ),
{
    lemma_same(n, 0, 0, 0);
    lemma_scaled(m, n, p.x, scale);
    lemma_scaled(m, n, p.y, scale);
    lemma_scaled(m, n, p.z, scale);
    lemma_flipped(m, n, scaled(m, p.y, scale), (n.of)(p.y) * (n.of)(scale));
}

/// A unit that is twice as long writes every coordinate twice as large, and a unit
/// of one meter writes the coordinates themselves.
pub proof fn law_unit_scales(
    m: Reading,
    n: Numbers,
    p: Point3,
    scale: u64,
    double: u64,
    up: CoordinateSystem,
)
    requires
        exact(m, n),
        n.same((n.of)(double), 2 * (n.of)(scale)),
    ensures
        ({
            let q = file_point(m, p, scale, up);
            let r = file_point(m, p, double, up);
            &&& n.same((n.single)(r.x), 2 * (n.single)(q.x))
            &&& n.same((n.single)(r.y), 2 * (n.single)(q.y))
            &&& n.same((n.single)(r.z), 2 * (n.single)(q.z))
        }),
        placed(
            n,
            file_point(m, p, crate::num::ONE, up),
            (n.of)(p.x),
            (n.of)(p.y),
            (n.of)(p.z),
            up,
        ),
{
    let (x, y, z, k, d) = ((n.of)(p.x), (n.of)(p.y), (n.of)(p.z), (n.of)(scale), (n.of)(double));
    let q = file_point(m, p, scale, up);
    let r = file_point(m, p, double, up);
    law_point_in_meters(m, n, p, scale, up);
    law_point_in_meters(m, n, p, double, up);
    lemma_double(n, (n.single)(q.x), (n.single)(r.x), x, k, d);
    lemma_double(n, (n.single)(q.y), (n.single)(r.y), match up {
        CoordinateSystem::YUp => z,
        CoordinateSystem::ZUp => y,
    }, k, d);
    assert(-(y * k) == (-y) * k) by (nonlinear_arith);
    assert(-(y * d) == (-y) * d) by (nonlinear_arith);
    lemma_double(n, (n.single)(q.z), (n.single)(r.z), match up {
        CoordinateSystem::YUp => -y,
        CoordinateSystem::ZUp => z,
    }, k, d);
    let one = crate::num::ONE;
    let w = file_point(m, p, one, up);
    law_point_in_meters(m, n, p, one, up);
    let o = (n.of)(one);
    crate::exact::lemma_unit(n, x, o);
    crate::exact::lemma_unit(n, y, o);
    crate::exact::lemma_unit(n, z, o);
    lemma_same(n, 0, 0, 0);
    lemma_ring(n, y * o, y, 0, 0);
    lemma_same(n, (n.single)(w.x), x * o, x);
    lemma_same(n, (n.single)(w.y), y * o, y);
    lemma_same(n, (n.single)(w.y), z * o, z);
    lemma_same(n, (n.single)(w.z), z * o, z);
    lemma_same(n, (n.single)(w.z), -(y * o), -y);
}

proof fn lemma_double(n: Numbers, q: int, r: int, x: int, k: int, d: int)
    requires
        n.modulus > 0,
        n.same(q, x * k),
        n.same(r, x * d),
        n.same(d, 2 * k),
    ensures
        n.same(r, 2 * q),
{
    lemma_same(n, x, x, x);
    lemma_same(n, 2, 2, 2);
    lemma_ring(n, x, x, d, 2 * k);
    assert(x * (2 * k) == 2 * (x * k)) by (nonlinear_arith);
    lemma_ring(n, 2, 2, q, x * k);
    lemma_same(n, 2 * q, 2 * (x * k), 0);
    lemma_same(n, r, x * d, 2 * (x * k));
    lemma_same(n, r, 2 * (x * k), 2 * q);
}

proof fn lemma_single(m: Reading, n: Numbers, x: u64, a: int)
    requires
        exact(m, n),
        n.same((n.of)(x), a),
    ensures
        n.same((n.single)((m.at(NumOp::ToSingle, x, 0) % 0x1_0000_0000) as u32), a),
{
    let at = m.at(NumOp::ToSingle, x, 0);
    lemma_same(n, (n.single)((at % 0x1_0000_0000) as u32), (n.of)(x), a);
}

/// A normal is written as it is, its axes turned to those of the file.
pub proof fn law_normal_turned(m: Reading, n: Numbers, p: Point3, up: CoordinateSystem)
    requires
        exact(m, n),
    ensures
        placed(n, file_normal(m, p, up), (n.of)(p.x), (n.of)(p.y), (n.of)(p.z), up),
{
    lemma_own(m, n);
    lemma_single(m, n, p.x, (n.of)(p.x));
    lemma_single(m, n, p.y, (n.of)(p.y));
    lemma_single(m, n, p.z, (n.of)(p.z));
    crate::exact::lemma_neg(m, n, p.y, (n.of)(p.y));
    lemma_single(m, n, negative(p.y), -(n.of)(p.y));
}

// ---- primitives --------------------------------------------------------------------------------

/// Where the data of the next primitive starts.
pub open spec fn next_start(d: Drawn) -> int {
    aligned(d.bin.buffer, 0).len() as int
}

pub(crate) proof fn lemma_aligned(b: Seq<u8>)
    ensures
        aligned(b, 0).len() % 4 == 0,
        b.len() % 4 == 0 ==> aligned(b, 0) == b,
        aligned(b, 0).len() >= b.len(),
        aligned(b, 0).take(b.len() as int) == b,
{
    assert(aligned(b, 0).take(b.len() as int) =~= b);
    if b.len() % 4 == 0 {
        assert(aligned(b, 0) =~= b);
    }
}

proof fn lemma_middle(a: Seq<u8>, b: Seq<u8>, c: Seq<u8>)
    ensures
        (a + b + c).subrange(a.len() as int, (a.len() + b.len()) as int) == b,
        (a + b + c).len() == a.len() + b.len() + c.len(),
{
    assert((a + b + c).subrange(a.len() as int, (a.len() + b.len()) as int) =~= b);
}

proof fn lemma_index(b: Seq<u8>, part: Seq<u8>, start: int, at: int)
    requires
        0 <= start,
        start + part.len() <= b.len(),
        b.subrange(start, start + part.len()) == part,
        0 <= at,
        at + 4 <= part.len(),
    ensures
        b.subrange(start + at, start + at + 4) == part.subrange(at, at + 4),
{
    assert(b.subrange(start + at, start + at + 4) =~= part.subrange(at, at + 4));
}

#[verifier::rlimit(40)]
proof fn lemma_triangle_bytes(
    m: Reading,
    s: SceneView,
    d: Drawn,
    key: MaterialKey,
    tris: Seq<Triangle>,
    i: int,
    k: int,
)
    requires
        0 <= i < tris.len(),
        0 <= k < 3,
        3 * tris.len() <= 0x1_0000_0000,
    ensures
        ({
            let b = draw_triangles(m, s, d, key, tris).bin.buffer;
            let at = next_start(d);
            let all = 3 * tris.len() as int;
            let j = 3 * i + k;
            &&& at % 4 == 0
            &&& b.len() == at + 28 * all
            &&& b.take(d.bin.buffer.len() as int) == d.bin.buffer
            &&& single3_at(b, at + 12 * j) == file_point(
                m,
                s.mesh.verts[corner_at(tris[i], k) as int],
                s.scale,
                s.up,
            )
            &&& single3_at(b, at + 12 * all + 12 * j) == file_normal(
                m,
                shown_normal(m, s.mesh, tris[i]),
                s.up,
            )
            &&& spec_u32_from_le_bytes(
                b.subrange(at + 24 * all + 4 * j, at + 24 * all + 4 * j + 4),
            ) == j
        }),
{
    let b = draw_triangles(m, s, d, key, tris).bin.buffer;
    let start = aligned(d.bin.buffer, 0);
    let all = 3 * tris.len() as int;
    let j = 3 * i + k;
    let ps = corner_positions(m, s.mesh, tris, s.scale, s.up);
    let ns = corner_normals(m, s.mesh, tris, s.up);
    let (pb, nb, ib) = (vertex_bytes(ps), vertex_bytes(ns), counting_bytes(3 * tris.len()));
    law_vertices_read_back(ps, j);
    law_vertices_read_back(ns, j);
    law_indices_count(3 * tris.len(), j);
    lemma_aligned(d.bin.buffer);
    lemma_aligned(start + pb);
    lemma_aligned(start + pb + nb);
    assert(b == start + pb + nb + ib);
    lemma_three_parts(start, pb, nb, ib, all, j);
    lemma_prefix(start, pb + nb + ib, d.bin.buffer);
    assert(start + (pb + nb + ib) =~= b);
    assert(j / 3 == i && j % 3 == k);
}

proof fn lemma_prefix(start: Seq<u8>, more: Seq<u8>, old_bytes: Seq<u8>)
    requires
        old_bytes.len() <= start.len(),
        start.take(old_bytes.len() as int) == old_bytes,
    ensures
        (start + more).take(old_bytes.len() as int) == old_bytes,
{
    assert((start + more).take(old_bytes.len() as int) =~= start.take(old_bytes.len() as int));
}

#[verifier::rlimit(40)]
proof fn lemma_three_parts(
    start: Seq<u8>,
    pb: Seq<u8>,
    nb: Seq<u8>,
    ib: Seq<u8>,
    all: int,
    j: int,
)
    requires
        pb.len() == 12 * all,
        nb.len() == 12 * all,
        ib.len() == 4 * all,
        0 <= j < all,
    ensures
        ({
            let b = start + pb + nb + ib;
            let at = start.len() as int;
            &&& b.len() == at + 28 * all
            &&& single3_at(b, at + 12 * j) == single3_at(pb, 12 * j)
            &&& single3_at(b, at + 12 * all + 12 * j) == single3_at(nb, 12 * j)
            &&& b.subrange(at + 24 * all + 4 * j, at + 24 * all + 4 * j + 4) == ib.subrange(
                4 * j,
                4 * j + 4,
            )
        }),
{
    let b = start + pb + nb + ib;
    let at = start.len() as int;
    lemma_middle(start, pb, nb + ib);
    assert(start + pb + (nb + ib) =~= b);
    lemma_middle(start + pb, nb, ib);
    lemma_middle(start + pb + nb, ib, Seq::empty());
    assert(start + pb + nb + ib + Seq::<u8>::empty() =~= b);
    lemma_part(b, pb, at, 12 * j);
    lemma_part(b, nb, at + 12 * all, 12 * j);
    lemma_index(b, ib, at + 24 * all, 4 * j);
}

#[verifier::rlimit(40)]
proof fn lemma_line_bytes(m: Reading, s: SceneView, d: Drawn, edges: Seq<Edge>, i: int, k: int)
    requires
        0 <= i < edges.len(),
        0 <= k < 2,
        2 * edges.len() <= 0x1_0000_0000,
    ensures
        ({
            let b = draw_lines(m, s, d, edges).bin.buffer;
            let at = next_start(d);
            let all = 2 * edges.len() as int;
            let j = 2 * i + k;
            &&& at % 4 == 0
            &&& b.len() == at + 16 * all
            &&& b.take(d.bin.buffer.len() as int) == d.bin.buffer
            &&& single3_at(b, at + 12 * j) == file_point(
                m,
                s.mesh.verts[end_at(edges[i], k) as int],
                s.scale,
                s.up,
            )
            &&& spec_u32_from_le_bytes(
                b.subrange(at + 12 * all + 4 * j, at + 12 * all + 4 * j + 4),
            ) == j
        }),
{
    let b = draw_lines(m, s, d, edges).bin.buffer;
    let start = aligned(d.bin.buffer, 0);
    let at = start.len() as int;
    let all = 2 * edges.len() as int;
    let j = 2 * i + k;
    let ps = end_positions(m, s.mesh, edges, s.scale, s.up);
    let (pb, ib) = (vertex_bytes(ps), counting_bytes(2 * edges.len()));
    law_vertices_read_back(ps, j);
    law_indices_count(2 * edges.len(), j);
    lemma_aligned(d.bin.buffer);
    lemma_aligned(start + pb);
    assert(b == start + pb + ib);
    lemma_two_parts(start, pb, ib, all, j);
    lemma_prefix(start, pb + ib, d.bin.buffer);
    assert(start + (pb + ib) =~= b);
    assert(j / 2 == i && j % 2 == k);
}

#[verifier::rlimit(40)]
proof fn lemma_two_parts(start: Seq<u8>, pb: Seq<u8>, ib: Seq<u8>, all: int, j: int)
    requires
        pb.len() == 12 * all,
        ib.len() == 4 * all,
        0 <= j < all,
    ensures
        ({
            let b = start + pb + ib;
            let at = start.len() as int;
            &&& b.len() == at + 16 * all
            &&& single3_at(b, at + 12 * j) == single3_at(pb, 12 * j)
            &&& b.subrange(at + 12 * all + 4 * j, at + 12 * all + 4 * j + 4) == ib.subrange(
                4 * j,
                4 * j + 4,
            )
        }),
{
    let b = start + pb + ib;
    let at = start.len() as int;
    lemma_middle(start, pb, ib);
    lemma_middle(start + pb, ib, Seq::empty());
    assert(start + pb + ib + Seq::<u8>::empty() =~= b);
    lemma_part(b, pb, at, 12 * j);
    lemma_index(b, ib, at + 12 * all, 4 * j);
}

/// What is drawn of triangles reads back from the data: for each corner of each
/// triangle its position in meters, behind all positions the normal of its
/// triangle, and behind all normals the places of the corners in order.
pub proof fn law_triangles_read_back(
    m: Reading,
    n: Numbers,
    s: SceneView,
    d: Drawn,
    key: MaterialKey,
    tris: Seq<Triangle>,
    i: int,
    k: int,
)
    requires
        exact(m, n),
        0 <= i < tris.len(),
        0 <= k < 3,
        3 * tris.len() <= 0x1_0000_0000,
    ensures
        ({
            let b = draw_triangles(m, s, d, key, tris).bin.buffer;
            let at = next_start(d);
            let all = 3 * tris.len() as int;
            let j = 3 * i + k;
            let p = s.mesh.verts[corner_at(tris[i], k) as int];
            let w = shown_normal(m, s.mesh, tris[i]);
            let u = (n.of)(s.scale);
            &&& at % 4 == 0
            &&& b.len() == at + 28 * all
            &&& b.take(d.bin.buffer.len() as int) == d.bin.buffer
            &&& placed(
                n,
                single3_at(b, at + 12 * j),
                (n.of)(p.x) * u,
                (n.of)(p.y) * u,
                (n.of)(p.z) * u,
                s.up,
            )
            &&& placed(
                n,
                single3_at(b, at + 12 * all + 12 * j),
                (n.of)(w.x),
                (n.of)(w.y),
                (n.of)(w.z),
                s.up,
            )
            &&& spec_u32_from_le_bytes(
                b.subrange(at + 24 * all + 4 * j, at + 24 * all + 4 * j + 4),
            ) == j
        }),
{
    lemma_triangle_bytes(m, s, d, key, tris, i, k);
    law_point_in_meters(m, n, s.mesh.verts[corner_at(tris[i], k) as int], s.scale, s.up);
    law_normal_turned(m, n, shown_normal(m, s.mesh, tris[i]), s.up);
}

/// What is drawn of edges reads back from the data: for each end of each edge its
/// position in meters, and behind all positions the places of the ends in order.
pub proof fn law_lines_read_back(
    m: Reading,
    n: Numbers,
    s: SceneView,
    d: Drawn,
    edges: Seq<Edge>,
    i: int,
    k: int,
)
    requires
        exact(m, n),
        0 <= i < edges.len(),
        0 <= k < 2,
        2 * edges.len() <= 0x1_0000_0000,
    ensures
        ({
            let b = draw_lines(m, s, d, edges).bin.buffer;
            let at = next_start(d);
            let all = 2 * edges.len() as int;
            let j = 2 * i + k;
            let p = s.mesh.verts[end_at(edges[i], k) as int];
            let u = (n.of)(s.scale);
            &&& at % 4 == 0
            &&& b.len() == at + 16 * all
            &&& b.take(d.bin.buffer.len() as int) == d.bin.buffer
            &&& placed(
                n,
                single3_at(b, at + 12 * j),
                (n.of)(p.x) * u,
                (n.of)(p.y) * u,
                (n.of)(p.z) * u,
                s.up,
            )
            &&& spec_u32_from_le_bytes(
                b.subrange(at + 12 * all + 4 * j, at + 12 * all + 4 * j + 4),
            ) == j
        }),
{
    lemma_line_bytes(m, s, d, edges, i, k);
    law_point_in_meters(m, n, s.mesh.verts[end_at(edges[i], k) as int], s.scale, s.up);
}

// ---- boxes -------------------------------------------------------------------------------------

/// The smaller and the larger of two single numbers are those of the machine, by the
/// rank that each number has.
pub open spec fn ranked(m: Reading, rank: spec_fn(u32) -> int) -> bool {
    &&& forall|a: u64, b: u64|
        a <= u32::MAX && b <= u32::MAX ==> {
            let r = single(#[trigger] m.at(NumOp::SingleMin, a, b));
            rank(r) <= rank(a as u32) && rank(r) <= rank(b as u32) && (r == a || r == b)
        }
    &&& forall|a: u64, b: u64|
        a <= u32::MAX && b <= u32::MAX ==> {
            let r = single(#[trigger] m.at(NumOp::SingleMax, a, b));
            rank(r) >= rank(a as u32) && rank(r) >= rank(b as u32) && (r == a || r == b)
        }
}

/// The bounds that an accessor gives hold all of its vertices.
pub proof fn law_bounds_hold_vertices(
    m: Reading,
    rank: spec_fn(u32) -> int,
    v: Seq<Single3>,
    k: int,
    i: int,
)
    requires
        ranked(m, rank),
        0 <= i < k <= v.len(),
    ensures
        rank(lowest(m, v, k).x) <= rank(v[i].x) <= rank(highest(m, v, k).x),
        rank(lowest(m, v, k).y) <= rank(v[i].y) <= rank(highest(m, v, k).y),
        rank(lowest(m, v, k).z) <= rank(v[i].z) <= rank(highest(m, v, k).z),
    decreases k,
{
    if i < k - 1 {
        law_bounds_hold_vertices(m, rank, v, k - 1, i);
    }
    let (s, t, p) = (lowest(m, v, k - 1), highest(m, v, k - 1), v[k - 1]);
    assert(rank(lowest(m, v, k).x) <= rank(s.x) && rank(lowest(m, v, k).x) <= rank(p.x));
    assert(rank(lowest(m, v, k).y) <= rank(s.y) && rank(lowest(m, v, k).y) <= rank(p.y));
    assert(rank(lowest(m, v, k).z) <= rank(s.z) && rank(lowest(m, v, k).z) <= rank(p.z));
    assert(rank(highest(m, v, k).x) >= rank(t.x) && rank(highest(m, v, k).x) >= rank(p.x));
    assert(rank(highest(m, v, k).y) >= rank(t.y) && rank(highest(m, v, k).y) >= rank(p.y));
    assert(rank(highest(m, v, k).z) >= rank(t.z) && rank(highest(m, v, k).z) >= rank(p.z));
}

} // verus!
