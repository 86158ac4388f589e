//! glTF binary data: single-precision vertices, buffer views and accessors, and
//! the two-chunk container.

use crate::blob::texts;
use crate::edges::Edge;
use crate::error::{misfit, GeomError, GeomFault};
use crate::json::{array, json_array, json_field, json_object, json_quoted, object, put, quote};
use crate::mesh::{Mesh, MeshView, Point3, Triangle};
use crate::num::{
    equals, negate, negative, zero, Arithmetic, Calc, NumOp, ONE, Reading, TextOp, ZERO,
};
use crate::pipeline::CoordinateSystem;
use crate::text::{decimal, decimal_text};
use crate::vector::{canonical, canonical_zero, normal_of, triangle_normal};
use vstd::bytes::{spec_u32_from_le_bytes, spec_u32_to_le_bytes, u32_to_le_bytes};
use vstd::prelude::*;

verus! {

// ---- single-precision vertices ------------------------------------------------------------

/// A point in single precision, each coordinate as its bits.
#[derive(Clone, Copy, Debug, PartialEq, Eq, Structural)]
pub struct Single3 {
    pub x: u32,
    pub y: u32,
    pub z: u32,
}

/// The low half of a number's bits, where single numbers stand.
pub open spec fn single(b: u64) -> u32 {
    (b % 0x1_0000_0000) as u32
}

fn to_single(b: u64) -> (r: u32)
    ensures
        r == single(b),
{
    (b % 0x1_0000_0000) as u32
}

/// A single number with the other sign.
pub open spec fn negative_single(b: u32) -> u32 {
    if b >= 0x8000_0000 {
        (b - 0x8000_0000) as u32
    } else {
        (b + 0x8000_0000) as u32
    }
}

/// A coordinate in the unit of the file.
pub open spec fn scaled(m: Reading, v: u64, scale: u64) -> u32 {
    single(m.at(NumOp::ToSingle, canonical(m.at(NumOp::Mul, v, scale)), 0))
}

/// A point as the file has it: in its unit, and with its axis up.
pub open spec fn file_point(m: Reading, p: Point3, scale: u64, up: CoordinateSystem) -> Single3 {
    let x = scaled(m, p.x, scale);
    let y = scaled(m, p.y, scale);
    let z = scaled(m, p.z, scale);
    match up {
        CoordinateSystem::YUp => Single3 { x, y: z, z: negative_single(y) },
        CoordinateSystem::ZUp => Single3 { x, y, z },
    }
}

/// A normal as the file has it.
pub open spec fn file_normal(m: Reading, n: Point3, up: CoordinateSystem) -> Single3 {
    match up {
        CoordinateSystem::YUp => Single3 {
            x: single(m.at(NumOp::ToSingle, n.x, 0)),
            y: single(m.at(NumOp::ToSingle, n.z, 0)),
            z: single(m.at(NumOp::ToSingle, negative(n.y), 0)),
        },
        CoordinateSystem::ZUp => Single3 {
            x: single(m.at(NumOp::ToSingle, n.x, 0)),
            y: single(m.at(NumOp::ToSingle, n.y, 0)),
            z: single(m.at(NumOp::ToSingle, n.z, 0)),
        },
    }
}

fn scale_one<A: Arithmetic>(calc: &mut Calc<A>, v: u64, scale: u64) -> (r: u32)
    ensures
        forall|m: Reading| #[trigger]
            final(calc).agrees(m) ==> old(calc).agrees(m) && r == scaled(m, v, scale),
{
    let product: u64 = calc.apply(NumOp::Mul, v, scale);
    let near: u64 = calc.apply(NumOp::ToSingle, canonical_zero(product), 0);
    to_single(near)
}

/// A point in the unit of the file, with its axis up.
pub fn gltf_point<A: Arithmetic>(
    calc: &mut Calc<A>,
    p: Point3,
    scale: u64,
    up: CoordinateSystem,
) -> (r: Single3)
    ensures
        forall|m: Reading| #[trigger]
            final(calc).agrees(m) ==> old(calc).agrees(m) && r == file_point(m, p, scale, up),
{
    let x: u32 = scale_one(calc, p.x, scale);
    let y: u32 = scale_one(calc, p.y, scale);
    let z: u32 = scale_one(calc, p.z, scale);
    match up {
        CoordinateSystem::YUp => {
            let back: u32 = if y >= 0x8000_0000 {
                y - 0x8000_0000
            } else {
                y + 0x8000_0000
            };
            Single3 { x, y: z, z: back }
        },
        CoordinateSystem::ZUp => Single3 { x, y, z },
    }
}

/// A normal with the file's axis up.
pub fn gltf_normal<A: Arithmetic>(calc: &mut Calc<A>, n: Point3, up: CoordinateSystem) -> (r: Single3)
    ensures
        forall|m: Reading| #[trigger]
            final(calc).agrees(m) ==> old(calc).agrees(m) && r == file_normal(m, n, up),
{
    match up {
        CoordinateSystem::YUp => {
            let x: u64 = calc.apply(NumOp::ToSingle, n.x, 0);
            let y: u64 = calc.apply(NumOp::ToSingle, n.z, 0);
            let z: u64 = calc.apply(NumOp::ToSingle, negate(n.y), 0);
            Single3 { x: to_single(x), y: to_single(y), z: to_single(z) }
        },
        CoordinateSystem::ZUp => {
            let x: u64 = calc.apply(NumOp::ToSingle, n.x, 0);
            let y: u64 = calc.apply(NumOp::ToSingle, n.y, 0);
            let z: u64 = calc.apply(NumOp::ToSingle, n.z, 0);
            Single3 { x: to_single(x), y: to_single(y), z: to_single(z) }
        },
    }
}

/// The normal that a face shows. One without area has none, and gets the
/// vertical: a file must not hold a normal without a length.
pub open spec fn shown_normal(m: Reading, mesh: MeshView, t: Triangle) -> Point3 {
    let n = normal_of(m, mesh, t);
    if zero(n.x) && zero(n.y) && zero(n.z) {
        Point3 { x: ZERO, y: ZERO, z: ONE }
    } else {
        n
    }
}

/// The `k`-th corner of a triangle.
pub open spec fn corner_at(t: Triangle, k: int) -> u32 {
    if k == 0 {
        t.a
    } else if k == 1 {
        t.b
    } else {
        t.c
    }
}

/// The positions of all corners, three to a triangle.
pub open spec fn corner_positions(
    m: Reading,
    mesh: MeshView,
    tris: Seq<Triangle>,
    scale: u64,
    up: CoordinateSystem,
) -> Seq<Single3> {
    Seq::new(
        3 * tris.len(),
        |p: int| file_point(m, mesh.verts[corner_at(tris[p / 3], p % 3) as int], scale, up),
    )
}

/// The normals of all corners, three to a triangle.
pub open spec fn corner_normals(
    m: Reading,
    mesh: MeshView,
    tris: Seq<Triangle>,
    up: CoordinateSystem,
) -> Seq<Single3> {
    Seq::new(3 * tris.len(), |p: int| file_normal(m, shown_normal(m, mesh, tris[p / 3]), up))
}

/// The `k`-th end of an edge.
pub open spec fn end_at(e: Edge, k: int) -> u32 {
    if k == 0 {
        e.a
    } else {
        e.b
    }
}

/// The positions of all ends, two to an edge.
pub open spec fn end_positions(
    m: Reading,
    mesh: MeshView,
    edges: Seq<Edge>,
    scale: u64,
    up: CoordinateSystem,
) -> Seq<Single3> {
    Seq::new(
        2 * edges.len(),
        |p: int| file_point(m, mesh.verts[end_at(edges[p / 2], p % 2) as int], scale, up),
    )
}

/// The positions of the corners of triangles.
pub fn positions_of<A: Arithmetic>(
    calc: &mut Calc<A>,
    mesh: &Mesh,
    tris: &Vec<Triangle>,
    scale: u64,
    up: CoordinateSystem,
) -> (r: Vec<Single3>)
    requires
        forall|i: int| 0 <= i < tris@.len() ==> (#[trigger] tris@[i]).within(mesh@.verts.len()),
    ensures
        r@.len() == 3 * tris@.len(),
        forall|m: Reading| #[trigger]
            final(calc).agrees(m) ==> old(calc).agrees(m) && r@ == corner_positions(
                m,
                mesh@,
                tris@,
                scale,
                up,
            ),
{
    let ghost mv = mesh@;
    let mut out: Vec<Single3> = Vec::new();
    let mut i: usize = 0;
    while i < tris.len()
        invariant
            mv == mesh@,
            forall|i: int| 0 <= i < tris@.len() ==> (#[trigger] tris@[i]).within(mv.verts.len()),
            i <= tris@.len(),
            out@.len() == 3 * i,
            forall|m: Reading| #[trigger]
                calc.agrees(m) ==> old(calc).agrees(m) && out@ =~= corner_positions(
                    m,
                    mv,
                    tris@,
                    scale,
                    up,
                ).take(3 * i),
        decreases tris.len() - i,
    {
        let t = tris[i];
        assert(tris@[i as int].within(mv.verts.len()));
        let ghost before = out@;
        let a = gltf_point(calc, mesh.verts[t.a as usize], scale, up);
        let b = gltf_point(calc, mesh.verts[t.b as usize], scale, up);
        let c = gltf_point(calc, mesh.verts[t.c as usize], scale, up);
        out.push(a);
        out.push(b);
        out.push(c);
        proof {
            assert((3 * i) / 3 == i && (3 * i + 1) / 3 == i && (3 * i + 2) / 3 == i);
            assert((3 * i) % 3 == 0 && (3 * i + 1) % 3 == 1 && (3 * i + 2) % 3 == 2);
            assert forall|m: Reading| #[trigger] calc.agrees(m) implies out@ =~= corner_positions(
                m,
                mv,
                tris@,
                scale,
                up,
            ).take(3 * (i + 1)) by {
                let all = corner_positions(m, mv, tris@, scale, up);
                assert(before =~= all.take(3 * i));
                assert(out@ =~= before.push(all[3 * i]).push(all[3 * i + 1]).push(all[3 * i + 2]));
            }
        }
        i = i + 1;
    }
    proof {
        assert forall|m: Reading| #[trigger] calc.agrees(m) implies out@ == corner_positions(
            m,
            mv,
            tris@,
            scale,
            up,
        ) by {
            let all = corner_positions(m, mv, tris@, scale, up);
            assert(all.take(3 * tris@.len() as int) =~= all);
        }
    }
    out
}

/// The normals of the corners of triangles.
pub fn normals_of<A: Arithmetic>(
    calc: &mut Calc<A>,
    mesh: &Mesh,
    tris: &Vec<Triangle>,
    up: CoordinateSystem,
) -> (r: Vec<Single3>)
    requires
        forall|i: int| 0 <= i < tris@.len() ==> (#[trigger] tris@[i]).within(mesh@.verts.len()),
    ensures
        r@.len() == 3 * tris@.len(),
        forall|m: Reading| #[trigger]
            final(calc).agrees(m) ==> old(calc).agrees(m) && r@ == corner_normals(
                m,
                mesh@,
                tris@,
                up,
            ),
{
    let ghost mv = mesh@;
    let mut out: Vec<Single3> = Vec::new();
    let mut i: usize = 0;
    while i < tris.len()
        invariant
            mv == mesh@,
            forall|i: int| 0 <= i < tris@.len() ==> (#[trigger] tris@[i]).within(mv.verts.len()),
            i <= tris@.len(),
            out@.len() == 3 * i,
            forall|m: Reading| #[trigger]
                calc.agrees(m) ==> old(calc).agrees(m) && out@ =~= corner_normals(
                    m,
                    mv,
                    tris@,
                    up,
                ).take(3 * i),
        decreases tris.len() - i,
    {
        let t = tris[i];
        assert(tris@[i as int].within(mv.verts.len()));
        let ghost before = out@;
        let n = triangle_normal(calc, mesh, t);
        let flat: bool = equals(n.x, ZERO) && equals(n.y, ZERO) && equals(n.z, ZERO);
        let shown = if flat {
            Point3 { x: ZERO, y: ZERO, z: ONE }
        } else {
            n
        };
        let s = gltf_normal(calc, shown, up);
        out.push(s);
        out.push(s);
        out.push(s);
        proof {
            assert((3 * i) / 3 == i && (3 * i + 1) / 3 == i && (3 * i + 2) / 3 == i);
            assert forall|m: Reading| #[trigger] calc.agrees(m) implies out@ =~= corner_normals(
                m,
                mv,
                tris@,
                up,
            ).take(3 * (i + 1)) by {
                let all = corner_normals(m, mv, tris@, up);
                assert(shown == shown_normal(m, mv, t));
                assert(before =~= all.take(3 * i));
                assert(out@ =~= before.push(all[3 * i]).push(all[3 * i + 1]).push(all[3 * i + 2]));
            }
        }
        i = i + 1;
    }
    proof {
        assert forall|m: Reading| #[trigger] calc.agrees(m) implies out@ == corner_normals(
            m,
            mv,
            tris@,
            up,
        ) by {
            let all = corner_normals(m, mv, tris@, up);
            assert(all.take(3 * tris@.len() as int) =~= all);
        }
    }
    out
}

/// The positions of the ends of edges.
pub fn ends_of<A: Arithmetic>(
    calc: &mut Calc<A>,
    mesh: &Mesh,
    edges: &Vec<Edge>,
    scale: u64,
    up: CoordinateSystem,
) -> (r: Vec<Single3>)
    requires
        forall|i: int|
            0 <= i < edges@.len() ==> (#[trigger] edges@[i]).a < mesh@.verts.len() && edges@[i].b
                < mesh@.verts.len(),
    ensures
        r@.len() == 2 * edges@.len(),
        forall|m: Reading| #[trigger]
            final(calc).agrees(m) ==> old(calc).agrees(m) && r@ == end_positions(
                m,
                mesh@,
                edges@,
                scale,
                up,
            ),
{
    let ghost mv = mesh@;
    let mut out: Vec<Single3> = Vec::new();
    let mut i: usize = 0;
    while i < edges.len()
        invariant
            mv == mesh@,
            forall|i: int|
                0 <= i < edges@.len() ==> (#[trigger] edges@[i]).a < mv.verts.len() && edges@[i].b
                    < mv.verts.len(),
            i <= edges@.len(),
            out@.len() == 2 * i,
            forall|m: Reading| #[trigger]
                calc.agrees(m) ==> old(calc).agrees(m) && out@ =~= end_positions(
                    m,
                    mv,
                    edges@,
                    scale,
                    up,
                ).take(2 * i),
        decreases edges.len() - i,
    {
        let e = edges[i];
        assert(edges@[i as int].a < mv.verts.len());
        let ghost before = out@;
        let a = gltf_point(calc, mesh.verts[e.a as usize], scale, up);
        let b = gltf_point(calc, mesh.verts[e.b as usize], scale, up);
        out.push(a);
        out.push(b);
        proof {
            assert((2 * i) / 2 == i && (2 * i + 1) / 2 == i);
            assert((2 * i) % 2 == 0 && (2 * i + 1) % 2 == 1);
            assert forall|m: Reading| #[trigger] calc.agrees(m) implies out@ =~= end_positions(
                m,
                mv,
                edges@,
                scale,
                up,
            ).take(2 * (i + 1)) by {
                let all = end_positions(m, mv, edges@, scale, up);
                assert(before =~= all.take(2 * i));
                assert(out@ =~= before.push(all[2 * i]).push(all[2 * i + 1]));
            }
        }
        i = i + 1;
    }
    proof {
        assert forall|m: Reading| #[trigger] calc.agrees(m) implies out@ == end_positions(
            m,
            mv,
            edges@,
            scale,
            up,
        ) by {
            let all = end_positions(m, mv, edges@, scale, up);
            assert(all.take(2 * edges@.len() as int) =~= all);
        }
    }
    out
}

// ---- bytes ----------------------------------------------------------------------------------

/// Vertices as bytes, twelve each.
pub open spec fn vertex_bytes(v: Seq<Single3>) -> Seq<u8>
    decreases v.len(),
{
    if v.len() == 0 {
        Seq::empty()
    } else {
        vertex_bytes(v.drop_last()) + (spec_u32_to_le_bytes(v.last().x) + spec_u32_to_le_bytes(
            v.last().y,
        ) + spec_u32_to_le_bytes(v.last().z))
    }
}

/// The indices from 0 on as bytes, four each.
pub open spec fn counting_bytes(n: nat) -> Seq<u8>
    decreases n,
{
    if n == 0 {
        Seq::empty()
    } else {
        counting_bytes((n - 1) as nat) + spec_u32_to_le_bytes((n - 1) as u32)
    }
}

fn append_u32(out: &mut Vec<u8>, v: u32)
    ensures
        final(out)@ == old(out)@ + spec_u32_to_le_bytes(v),
{
    let mut b = u32_to_le_bytes(v);
    out.append(&mut b);
}

/// Vertices as bytes.
pub fn f32_bytes(v: &Vec<Single3>) -> (r: Vec<u8>)
    ensures
        r@ == vertex_bytes(v@),
{
    let mut out: Vec<u8> = Vec::new();
    assert(v@.take(0) =~= Seq::empty());
    for i in 0..v.len()
        invariant
            out@ == vertex_bytes(v@.take(i as int)),
    {
        let ghost before = out@;
        append_u32(&mut out, v[i].x);
        append_u32(&mut out, v[i].y);
        append_u32(&mut out, v[i].z);
        proof {
            let t = v@.take(i + 1);
            assert(t.drop_last() =~= v@.take(i as int));
            assert(out@ =~= before + (spec_u32_to_le_bytes(v@[i as int].x) + spec_u32_to_le_bytes(
                v@[i as int].y,
            ) + spec_u32_to_le_bytes(v@[i as int].z)));
        }
    }
    assert(v@.take(v@.len() as int) =~= v@);
    out
}

/// The indices from 0 on as bytes.
pub fn u32_bytes(n: usize) -> (r: Vec<u8>)
    ensures
        r@ == counting_bytes(n as nat),
{
    let mut out: Vec<u8> = Vec::new();
    for i in 0..n
        invariant
            out@ == counting_bytes(i as nat),
    {
        #[verifier::truncate]
        let index: u32 = i as u32;
        append_u32(&mut out, index);
    }
    out
}

// ---- buffer views and accessors ---------------------------------------------------------------

/// A buffer, its views and the accessors into them.
#[derive(Debug)]
pub struct Bin {
    pub buffer: Vec<u8>,
    pub views: Vec<String>,
    pub accessors: Vec<String>,
}

/// What a buffer and its tables hold.
pub struct BinView {
    pub buffer: Seq<u8>,
    pub views: Seq<Seq<char>>,
    pub accessors: Seq<Seq<char>>,
}

impl View for Bin {
    type V = BinView;

    open spec fn view(&self) -> BinView {
        BinView {
            buffer: self.buffer@,
            views: texts(self.views@),
            accessors: texts(self.accessors@),
        }
    }
}

/// Filled up to a multiple of four bytes.
pub open spec fn aligned(b: Seq<u8>, filler: u8) -> Seq<u8> {
    b + Seq::new(((4 - b.len() % 4) % 4) as nat, |i: int| filler)
}

/// Fills up to a multiple of four bytes.
pub fn align(b: &mut Vec<u8>, filler: u8)
    ensures
        final(b)@ == aligned(old(b)@, filler),
{
    let ghost start = b@;
    let rest: usize = b.len() % 4;
    let missing: usize = if rest == 0 {
        0
    } else {
        4 - rest
    };
    for i in 0..missing
        invariant
            b@ =~= start + Seq::new(i as nat, |i: int| filler),
    {
        b.push(filler);
    }
    assert(missing == (4 - start.len() % 4) % 4);
}

/// An entry of the table of buffer views.
pub open spec fn view_text(offset: nat, length: nat, target: nat) -> Seq<char> {
    json_object(
        seq![
            json_field("buffer"@, decimal_text(0)),
            json_field("byteLength"@, decimal_text(length)),
            json_field("byteOffset"@, decimal_text(offset)),
            json_field("target"@, decimal_text(target)),
        ],
    )
}

/// The buffer with some bytes appended on a multiple of four, and a view of
/// them.
pub open spec fn with_view(b: BinView, bytes: Seq<u8>, target: nat) -> BinView {
    BinView {
        buffer: aligned(b.buffer, 0) + bytes,
        views: b.views.push(view_text(aligned(b.buffer, 0).len(), bytes.len(), target)),
        accessors: b.accessors,
    }
}

fn field_number(fields: &mut Vec<String>, key: &str, n: u64)
    ensures
        texts(final(fields)@) == texts(old(fields)@).push(json_field(key@, decimal_text(n as nat))),
{
    let t = decimal(n);
    put(fields, key, t.as_str());
}

/// Appends bytes on a multiple of four, with a view of them.
pub fn add_view(b: &mut Bin, mut bytes: Vec<u8>, target: u32)
    ensures
        final(b)@ == with_view(old(b)@, bytes@, target as nat),
{
    align(&mut b.buffer, 0);
    let offset: usize = b.buffer.len();
    let length: usize = bytes.len();
    let ghost added = bytes@;
    b.buffer.append(&mut bytes);
    let mut fields: Vec<String> = Vec::new();
    field_number(&mut fields, "buffer", 0);
    field_number(&mut fields, "byteLength", length as u64);
    field_number(&mut fields, "byteOffset", offset as u64);
    field_number(&mut fields, "target", target as u64);
    proof {
        assert(texts(fields@) =~= seq![
            json_field("buffer"@, decimal_text(0)),
            json_field("byteLength"@, decimal_text(length as nat)),
            json_field("byteOffset"@, decimal_text(offset as nat)),
            json_field("target"@, decimal_text(target as nat)),
        ]);
    }
    let ghost before = texts(b.views@);
    b.views.push(object(&fields));
    assert(texts(b.views@) =~= before.push(
        view_text(offset as nat, added.len(), target as nat),
    ));
    assert(b@ == with_view(old(b)@, added, target as nat));
}

/// The lowest coordinates of the first `n` vertices.
pub open spec fn lowest(m: Reading, v: Seq<Single3>, n: int) -> Single3
    decreases n,
{
    if n <= 0 {
        Single3 { x: 0x7f80_0000, y: 0x7f80_0000, z: 0x7f80_0000 }
    } else {
        let s = lowest(m, v, n - 1);
        Single3 {
            x: single(m.at(NumOp::SingleMin, s.x as u64, v[n - 1].x as u64)),
            y: single(m.at(NumOp::SingleMin, s.y as u64, v[n - 1].y as u64)),
            z: single(m.at(NumOp::SingleMin, s.z as u64, v[n - 1].z as u64)),
        }
    }
}

/// The highest coordinates of the first `n` vertices.
pub open spec fn highest(m: Reading, v: Seq<Single3>, n: int) -> Single3
    decreases n,
{
    if n <= 0 {
        Single3 { x: 0xff80_0000, y: 0xff80_0000, z: 0xff80_0000 }
    } else {
        let s = highest(m, v, n - 1);
        Single3 {
            x: single(m.at(NumOp::SingleMax, s.x as u64, v[n - 1].x as u64)),
            y: single(m.at(NumOp::SingleMax, s.y as u64, v[n - 1].y as u64)),
            z: single(m.at(NumOp::SingleMax, s.z as u64, v[n - 1].z as u64)),
        }
    }
}

/// The box of some vertices.
pub fn vec3_min_max<A: Arithmetic>(calc: &mut Calc<A>, v: &Vec<Single3>) -> (r: (Single3, Single3))
    ensures
        forall|m: Reading| #[trigger]
            final(calc).agrees(m) ==> old(calc).agrees(m) && r.0 == lowest(
                m,
                v@,
                v@.len() as int,
            ) && r.1 == highest(m, v@, v@.len() as int),
{
    let mut low = Single3 { x: 0x7f80_0000, y: 0x7f80_0000, z: 0x7f80_0000 };
    let mut high = Single3 { x: 0xff80_0000, y: 0xff80_0000, z: 0xff80_0000 };
    for i in 0..v.len()
        invariant
            forall|m: Reading| #[trigger]
                calc.agrees(m) ==> old(calc).agrees(m) && low == lowest(m, v@, i as int) && high
                    == highest(m, v@, i as int),
    {
        let p = v[i];
        let lx: u64 = calc.apply(NumOp::SingleMin, low.x as u64, p.x as u64);
        let ly: u64 = calc.apply(NumOp::SingleMin, low.y as u64, p.y as u64);
        let lz: u64 = calc.apply(NumOp::SingleMin, low.z as u64, p.z as u64);
        let hx: u64 = calc.apply(NumOp::SingleMax, high.x as u64, p.x as u64);
        let hy: u64 = calc.apply(NumOp::SingleMax, high.y as u64, p.y as u64);
        let hz: u64 = calc.apply(NumOp::SingleMax, high.z as u64, p.z as u64);
        low = Single3 { x: to_single(lx), y: to_single(ly), z: to_single(lz) };
        high = Single3 { x: to_single(hx), y: to_single(hy), z: to_single(hz) };
    }
    (low, high)
}

/// Three single numbers as an array.
pub open spec fn single3_text(m: Reading, p: Single3) -> Seq<char> {
    json_array(
        seq![
            m.written(TextOp::JsonSingle, p.x as u64, 0),
            m.written(TextOp::JsonSingle, p.y as u64, 0),
            m.written(TextOp::JsonSingle, p.z as u64, 0),
        ],
    )
}

fn write_single3<A: Arithmetic>(calc: &mut Calc<A>, p: Single3) -> (r: String)
    ensures
        forall|m: Reading| #[trigger]
            final(calc).agrees(m) ==> old(calc).agrees(m) && r@ == single3_text(m, p),
{
    let x = calc.write(TextOp::JsonSingle, p.x as u64, 0);
    let y = calc.write(TextOp::JsonSingle, p.y as u64, 0);
    let z = calc.write(TextOp::JsonSingle, p.z as u64, 0);
    let mut items: Vec<String> = Vec::new();
    let ghost parts = seq![x@, y@, z@];
    items.push(x);
    items.push(y);
    items.push(z);
    assert(texts(items@) =~= parts);
    array(&items)
}

/// The members of an accessor for vertices.
pub open spec fn vertex_fields(m: Reading, view: nat, v: Seq<Single3>, bounds: bool) -> Seq<
    Seq<char>,
> {
    let head = seq![
        json_field("bufferView"@, decimal_text(view)),
        json_field("componentType"@, decimal_text(5126)),
        json_field("count"@, decimal_text(v.len())),
    ];
    let tail = json_field("type"@, json_quoted("VEC3"@));
    if bounds {
        head.push(
            json_field("max"@, single3_text(m, highest(m, v, v.len() as int))),
        ).push(json_field("min"@, single3_text(m, lowest(m, v, v.len() as int)))).push(tail)
    } else {
        head.push(tail)
    }
}

/// The tables with an accessor for vertices.
pub open spec fn with_vertices(
    m: Reading,
    b: BinView,
    view: nat,
    v: Seq<Single3>,
    bounds: bool,
) -> BinView {
    BinView {
        buffer: b.buffer,
        views: b.views,
        accessors: b.accessors.push(json_object(vertex_fields(m, view, v, bounds))),
    }
}

/// An accessor for vertices, with their box where it is asked for.
pub fn add_vec3_accessor<A: Arithmetic>(
    calc: &mut Calc<A>,
    b: &mut Bin,
    view: usize,
    v: &Vec<Single3>,
    bounds: bool,
)
    ensures
        final(b)@.buffer == old(b)@.buffer,
        final(b)@.views == old(b)@.views,
        final(b)@.accessors.len() == old(b)@.accessors.len() + 1,
        forall|m: Reading| #[trigger]
            final(calc).agrees(m) ==> old(calc).agrees(m) && final(b)@ == with_vertices(
                m,
                old(b)@,
                view as nat,
                v@,
                bounds,
            ),
{
    let mut fields: Vec<String> = Vec::new();
    field_number(&mut fields, "bufferView", view as u64);
    field_number(&mut fields, "componentType", 5126);
    field_number(&mut fields, "count", v.len() as u64);
    let ghost head = seq![
        json_field("bufferView"@, decimal_text(view as nat)),
        json_field("componentType"@, decimal_text(5126)),
        json_field("count"@, decimal_text(v@.len())),
    ];
    assert(texts(fields@) =~= head);
    if bounds {
        let (low, high) = vec3_min_max(calc, v);
        let top = write_single3(calc, high);
        let bottom = write_single3(calc, low);
        put(&mut fields, "max", top.as_str());
        put(&mut fields, "min", bottom.as_str());
    }
    let kind = quote("VEC3");
    put(&mut fields, "type", kind.as_str());
    let ghost before = texts(b.accessors@);
    b.accessors.push(object(&fields));
    proof {
        assert(texts(b.accessors@) =~= before.push(json_object(texts(fields@))));
        assert forall|m: Reading| #[trigger] calc.agrees(m) implies b@ == with_vertices(
            m,
            old(b)@,
            view as nat,
            v@,
            bounds,
        ) by {
            assert(texts(fields@) =~= vertex_fields(m, view as nat, v@, bounds));
        }
    }
}

/// The tables with an accessor for indices.
pub open spec fn with_indices(b: BinView, view: nat, count: nat) -> BinView {
    BinView {
        buffer: b.buffer,
        views: b.views,
        accessors: b.accessors.push(
            json_object(
                seq![
                    json_field("bufferView"@, decimal_text(view)),
                    json_field("componentType"@, decimal_text(5125)),
                    json_field("count"@, decimal_text(count)),
                    json_field("type"@, json_quoted("SCALAR"@)),
                ],
            ),
        ),
    }
}

/// An accessor for indices.
pub fn add_index_accessor(b: &mut Bin, view: usize, count: usize)
    ensures
        final(b)@ == with_indices(old(b)@, view as nat, count as nat),
{
    let mut fields: Vec<String> = Vec::new();
    field_number(&mut fields, "bufferView", view as u64);
    field_number(&mut fields, "componentType", 5125);
    field_number(&mut fields, "count", count as u64);
    let kind = quote("SCALAR");
    put(&mut fields, "type", kind.as_str());
    assert(texts(fields@) =~= seq![
        json_field("bufferView"@, decimal_text(view as nat)),
        json_field("componentType"@, decimal_text(5125)),
        json_field("count"@, decimal_text(count as nat)),
        json_field("type"@, json_quoted("SCALAR"@)),
    ]);
    let ghost before = texts(b.accessors@);
    b.accessors.push(object(&fields));
    assert(texts(b.accessors@) =~= before.push(json_object(texts(fields@))));
}

/// A view starts on a multiple of four, right behind the bytes before it, and
/// holds the bytes that were appended.
pub proof fn law_views_aligned(b: BinView, bytes: Seq<u8>, target: nat)
    ensures
        aligned(b.buffer, 0).len() % 4 == 0,
        aligned(b.buffer, 0).len() < b.buffer.len() + 4,
        aligned(b.buffer, 0).take(b.buffer.len() as int) == b.buffer,
        ({
            let r = with_view(b, bytes, target);
            let offset = aligned(b.buffer, 0).len() as int;
            r.buffer.subrange(offset, offset + bytes.len()) == bytes
        }),
{
    assert(aligned(b.buffer, 0).take(b.buffer.len() as int) =~= b.buffer);
    let offset = aligned(b.buffer, 0).len() as int;
    assert(with_view(b, bytes, target).buffer.subrange(offset, offset + bytes.len()) =~= bytes);
}

// ---- the container ------------------------------------------------------------------------------

/// The bytes of a container: a header, a JSON chunk filled with spaces, and a
/// binary chunk filled with zeros, unless there is no binary data.
pub open spec fn container(json: Seq<u8>, bin: Seq<u8>) -> Seq<u8> {
    let text = aligned(json, 32);
    let data = aligned(bin, 0);
    let head = seq![0x67u8, 0x6c, 0x54, 0x46] + spec_u32_to_le_bytes(2) + spec_u32_to_le_bytes(
        container_length(json, bin) as u32,
    );
    let first = spec_u32_to_le_bytes(text.len() as u32) + seq![0x4au8, 0x53, 0x4f, 0x4e] + text;
    if bin.len() == 0 {
        head + first
    } else {
        head + first + (spec_u32_to_le_bytes(data.len() as u32) + seq![0x42u8, 0x49, 0x4e, 0] + data)
    }
}

/// The length of a container.
pub open spec fn container_length(json: Seq<u8>, bin: Seq<u8>) -> nat {
    let text = aligned(json, 32);
    let data = aligned(bin, 0);
    12 + 8 + text.len() + if bin.len() == 0 {
        0
    } else {
        8 + data.len()
    }
}

/// Frames a JSON text and binary data. A container of 4 GiB or more is an
/// error.
pub fn frame_glb(mut json: Vec<u8>, mut bin: Vec<u8>) -> (r: Result<Vec<u8>, GeomError>)
    ensures
        match r {
            Ok(b) => container_length(json@, bin@) <= u32::MAX && b@ == container(json@, bin@),
            Err(e) => container_length(json@, bin@) > u32::MAX && e@ == GeomFault::Invariant(
                "GLB exceeds 4 GiB"@,
            ),
        },
{
    let ghost jv = json@;
    let ghost bv = bin@;
    align(&mut json, 32);
    align(&mut bin, 0);
    let text_length: usize = json.len();
    let data_length: usize = bin.len();
    if text_length > 0xffff_ffff || data_length > 0xffff_ffff {
        return Err(misfit("GLB exceeds 4 GiB"));
    }
    let tail: u64 = if data_length == 0 {
        0
    } else {
        8 + data_length as u64
    };
    let total: u64 = 20 + text_length as u64 + tail;
    if total > 0xffff_ffff {
        return Err(misfit("GLB exceeds 4 GiB"));
    }
    let mut out: Vec<u8> = Vec::new();
    out.push(0x67);
    out.push(0x6c);
    out.push(0x54);
    out.push(0x46);
    append_u32(&mut out, 2);
    append_u32(&mut out, total as u32);
    let ghost head = out@;
    append_u32(&mut out, text_length as u32);
    out.push(0x4a);
    out.push(0x53);
    out.push(0x4f);
    out.push(0x4e);
    out.append(&mut json);
    proof {
        let text = aligned(jv, 32);
        let first = spec_u32_to_le_bytes(text.len() as u32) + seq![0x4au8, 0x53, 0x4f, 0x4e] + text;
        assert(head =~= seq![0x67u8, 0x6c, 0x54, 0x46] + spec_u32_to_le_bytes(2)
            + spec_u32_to_le_bytes(total as u32));
        assert(out@ =~= head + first);
    }
    let ghost front = out@;
    if data_length > 0 {
        append_u32(&mut out, data_length as u32);
        out.push(0x42);
        out.push(0x49);
        out.push(0x4e);
        out.push(0);
        out.append(&mut bin);
        proof {
            let data = aligned(bv, 0);
            assert(out@ =~= front + (spec_u32_to_le_bytes(data.len() as u32) + seq![
                0x42u8,
                0x49,
                0x4e,
                0,
            ] + data));
        }
    }
    Ok(out)
}

/// A container reads back: it is as long as its header says, and its chunks
/// hold the text and the data, each filled to a multiple of four.
pub proof fn law_container_reads_back(json: Seq<u8>, bin: Seq<u8>)
    requires
        container_length(json, bin) <= u32::MAX,
    ensures
        ({
            let c = container(json, bin);
            let text = aligned(json, 32);
            let data = aligned(bin, 0);
            let n = text.len() as int;
            &&& c.len() == container_length(json, bin)
            &&& spec_u32_from_le_bytes(c.subrange(8, 12)) == c.len()
            &&& spec_u32_from_le_bytes(c.subrange(12, 16)) == n
            &&& c.subrange(20, 20 + n) == text
            &&& bin.len() == 0 ==> c.len() == 20 + n
            &&& bin.len() > 0 ==> spec_u32_from_le_bytes(c.subrange(20 + n, 24 + n)) == data.len()
                && c.subrange(28 + n, 28 + n + data.len()) == data && c.len() == 28 + n + data.len()
        }),
{
    vstd::bytes::lemma_auto_spec_u32_to_from_le_bytes();
    let c = container(json, bin);
    let text = aligned(json, 32);
    let data = aligned(bin, 0);
    let n = text.len() as int;
    let total = container_length(json, bin) as u32;
    assert(c.subrange(8, 12) =~= spec_u32_to_le_bytes(total));
    assert(c.subrange(12, 16) =~= spec_u32_to_le_bytes(n as u32));
    assert(c.subrange(20, 20 + n) =~= text);
    if bin.len() > 0 {
        assert(c.subrange(20 + n, 24 + n) =~= spec_u32_to_le_bytes(data.len() as u32));
        assert(c.subrange(28 + n, 28 + n + data.len()) =~= data);
    }
}

} // verus!
