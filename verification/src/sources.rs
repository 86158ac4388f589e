//! The source patches of what a node draws.

use crate::faces::PICO;
use crate::mesh::{Mesh, MeshView, Point3, Triangle};
use crate::node::{outline, profile_boundary, Node};
use crate::num::{Arithmetic, Calc, Reading};
use crate::patches::{
    extrusion_patches, key_numbers, layer_of, layers, linear_extrude_patch_ids, number_keys, pair,
    paired, repeat_patch, rotate_extrude_patch_ids, smooth_components, smooth_keys, sweep_patches,
    unclassified,
};
use crate::surfaces::UNCLASSIFIED_PATCH_ID;
use crate::vector::{canonical_corner, canonical_point};
use std::collections::HashMap;
use vstd::prelude::*;

verus! {

// ---- points by value --------------------------------------------------------------------------

/// Numbers by point.
pub struct PointIndex {
    /// A number for each pair of the first two coordinates.
    rows: HashMap<u128, u64>,
    /// What is known, by the row's number and the third coordinate.
    cells: HashMap<u128, u64>,
    count: u64,
}

impl PointIndex {
    spec fn row_of(&self, p: Point3) -> Option<u64> {
        if self.rows@.contains_key(paired(p.x, p.y)) {
            Some(self.rows@[paired(p.x, p.y)])
        } else {
            None
        }
    }

    /// The number of a point.
    pub closed spec fn at(&self, p: Point3) -> Option<u64> {
        match self.row_of(p) {
            Some(r) => if self.cells@.contains_key(paired(r, p.z)) {
                Some(self.cells@[paired(r, p.z)])
            } else {
                None
            },
            None => None,
        }
    }

    pub closed spec fn wf(&self) -> bool {
        &&& forall|k: u128| #[trigger] self.rows@.contains_key(k) ==> self.rows@[k] < self.count
        &&& forall|j: u128, k: u128|
            #![trigger self.rows@.contains_key(j), self.rows@.contains_key(k)]
            self.rows@.contains_key(j) && self.rows@.contains_key(k) && self.rows@[j]
                == self.rows@[k] ==> j == k
        &&& forall|r: u64, z: u64| #[trigger]
            self.cells@.contains_key(paired(r, z)) ==> r < self.count
    }

    /// How many rows there are.
    pub closed spec fn size(&self) -> u64 {
        self.count
    }

    pub fn new() -> (r: Self)
        ensures
            r.wf(),
            r.size() == 0,
            forall|p: Point3| #[trigger] r.at(p) is None,
    {
        broadcast use vstd::std_specs::hash::group_hash_axioms;

        PointIndex { rows: HashMap::new(), cells: HashMap::new(), count: 0 }
    }

    pub fn get(&self, p: Point3) -> (r: Option<u64>)
        ensures
            r == self.at(p),
    {
        broadcast use vstd::std_specs::hash::group_hash_axioms;

        match self.rows.get(&pair(p.x, p.y)) {
            Some(row) => match self.cells.get(&pair(*row, p.z)) {
                Some(v) => Some(*v),
                None => None,
            },
            None => None,
        }
    }

    /// Gives a point a number, unless it has one.
    pub fn insert_new(&mut self, p: Point3, v: u64)
        requires
            old(self).wf(),
            old(self).size() < u64::MAX,
        ensures
            final(self).wf(),
            final(self).size() <= old(self).size() + 1,
            forall|q: Point3| #[trigger]
                final(self).at(q) == if q == p && old(self).at(p) is None {
                    Some(v)
                } else {
                    old(self).at(q)
                },
    {
        broadcast use vstd::std_specs::hash::group_hash_axioms;

        if self.get(p).is_some() {
            return;
        }
        let key: u128 = pair(p.x, p.y);
        let found: Option<u64> = match self.rows.get(&key) {
            Some(row) => Some(*row),
            None => None,
        };
        let row: u64 = match found {
            Some(row) => row,
            None => {
                let row: u64 = self.count;
                self.rows.insert(key, row);
                self.count = row + 1;
                row
            },
        };
        let ghost middle = *self;
        proof {
            assert forall|q: Point3| #[trigger] middle.at(q) == old(self).at(q) by {
                lemma_paired(q.x, q.y, p.x, p.y);
                if paired(q.x, q.y) == key && found is None {
                    assert(!old(self).cells@.contains_key(paired(row, q.z)));
                }
            }
        }
        self.cells.insert(pair(row, p.z), v);
        proof {
            assert forall|q: Point3| #[trigger] self.at(q) == if q == p {
                Some(v)
            } else {
                middle.at(q)
            } by {
                lemma_paired(q.x, q.y, p.x, p.y);
                match self.row_of(q) {
                    Some(s) => {
                        lemma_paired(s, q.z, row, p.z);
                        if s == row {
                            assert(self.rows@.contains_key(paired(q.x, q.y)));
                            assert(self.rows@.contains_key(key));
                        }
                    },
                    None => {},
                }
            }
            assert forall|r: u64, z: u64| #[trigger]
                self.cells@.contains_key(paired(r, z)) implies r < self.count by {
                lemma_paired(r, z, row, p.z);
                if paired(r, z) != paired(row, p.z) {
                    assert(middle.cells@.contains_key(paired(r, z)));
                    assert(old(self).cells@.contains_key(paired(r, z)));
                }
            }
        }
    }
}

proof fn lemma_paired(a: u64, b: u64, c: u64, d: u64)
    ensures
        paired(a, b) == paired(c, d) ==> a == c && b == d,
{
    assert(paired(a, b) == a * 0x1_0000_0000_0000_0000 + b);
    assert(paired(c, d) == c * 0x1_0000_0000_0000_0000 + d);
}

// ---- hulls --------------------------------------------------------------------------------------

/// What meshes hold.
pub open spec fn mesh_views(v: Seq<Mesh>) -> Seq<MeshView> {
    v.map_values(|m: Mesh| m@)
}

/// A vertex among the first `n` lies at the point.
pub open spec fn stands_at(verts: Seq<Point3>, p: Point3, n: int) -> bool {
    exists|i: int| 0 <= i < n && canonical_point(#[trigger] verts[i]) == p
}

/// The first of the first `n` operands that has a vertex at the point.
pub open spec fn owner_of(operands: Seq<MeshView>, p: Point3, n: int) -> Option<u64>
    decreases n,
{
    if n <= 0 {
        None
    } else {
        match owner_of(operands, p, n - 1) {
            Some(i) => Some(i),
            None => if stands_at(
                operands[n - 1].verts,
                p,
                operands[n - 1].verts.len() as int,
            ) {
                Some((n - 1) as u64)
            } else {
                None
            },
        }
    }
}

/// A set of at most three operands as one number.
pub open spec fn span_number(a: u64, b: u64, c: u64) -> u128 {
    let lo = if a <= b && a <= c {
        a
    } else if b <= c {
        b
    } else {
        c
    };
    let hi = if a >= b && a >= c {
        a
    } else if b >= c {
        b
    } else {
        c
    };
    let mid = if a != lo && a != hi {
        a
    } else if b != lo && b != hi {
        b
    } else if c != lo && c != hi {
        c
    } else {
        lo
    };
    (lo as u128 * 0x1_0000_0000_0000_0000 + hi as u128 * 0x1_0000_0000 + mid as u128) as u128
}

/// The operands that a triangle of a hull spans; none where a corner is not a
/// vertex of any.
pub open spec fn span_key(operands: Seq<MeshView>, verts: Seq<Point3>, t: Triangle) -> Option<u128> {
    let n = operands.len() as int;
    let a = owner_of(operands, canonical_point(verts[t.a as int]), n);
    let b = owner_of(operands, canonical_point(verts[t.b as int]), n);
    let c = owner_of(operands, canonical_point(verts[t.c as int]), n);
    if a is Some && b is Some && c is Some {
        Some(span_number(a->0, b->0, c->0))
    } else {
        None
    }
}

/// The keys of a hull's triangles: which operands each spans.
pub open spec fn span_keys(operands: Seq<MeshView>, mesh: MeshView) -> Seq<Option<u128>> {
    mesh.tris.map_values(|t: Triangle| span_key(operands, mesh.verts, t))
}

/// The patches of a hull: by the operands that a triangle spans, split at
/// creases. Unclassified where the operands have more vertices than can be
/// counted.
pub open spec fn hull_patches(m: Reading, operands: Seq<MeshView>, mesh: MeshView) -> Seq<u64> {
    if point_total(operands, operands.len() as int) > u64::MAX {
        unclassified(mesh.tris.len())
    } else {
        key_numbers(smooth_keys(m, mesh, key_numbers(span_keys(operands, mesh))))
    }
}

fn span_code(a: u64, b: u64, c: u64) -> (r: u128)
    requires
        a <= u32::MAX,
        b <= u32::MAX,
        c <= u32::MAX,
    ensures
        r == span_number(a, b, c),
{
    let lo: u64 = if a <= b && a <= c {
        a
    } else if b <= c {
        b
    } else {
        c
    };
    let hi: u64 = if a >= b && a >= c {
        a
    } else if b >= c {
        b
    } else {
        c
    };
    let mid: u64 = if a != lo && a != hi {
        a
    } else if b != lo && b != hi {
        b
    } else if c != lo && c != hi {
        c
    } else {
        lo
    };
    lo as u128 * 0x1_0000_0000_0000_0000 + hi as u128 * 0x1_0000_0000 + mid as u128
}

/// The vertices of the first `n` operands.
pub open spec fn point_total(operands: Seq<MeshView>, n: int) -> nat
    decreases n,
{
    if n <= 0 {
        0
    } else {
        point_total(operands, n - 1) + operands[n - 1].verts.len()
    }
}

proof fn lemma_point_total(operands: Seq<MeshView>, i: int, n: int)
    requires
        i <= n,
    ensures
        point_total(operands, i) <= point_total(operands, n),
    decreases n - i,
{
    if 0 < n && i < n {
        lemma_point_total(operands, i, n - 1);
    }
}

/// Whether the vertices of all operands can be counted.
fn countable(operands: &Vec<Mesh>) -> (r: bool)
    ensures
        r == (point_total(mesh_views(operands@), operands@.len() as int) <= u64::MAX),
{
    let ghost ops = mesh_views(operands@);
    let mut sum: u64 = 0;
    let mut i: usize = 0;
    while i < operands.len()
        invariant
            ops == mesh_views(operands@),
            i <= operands@.len(),
            sum == point_total(ops, i as int),
        decreases operands.len() - i,
    {
        let more: u64 = operands[i].verts.len() as u64;
        proof {
            assert(ops[i as int].verts.len() == more);
            lemma_point_total(ops, i + 1, ops.len() as int);
        }
        if more > u64::MAX - sum {
            return false;
        }
        sum = sum + more;
        i = i + 1;
    }
    true
}

/// The index knows each point that the first `n` operands, and the first `k`
/// vertices of the next, have.
spec fn index_knows(x: PointIndex, operands: Seq<MeshView>, n: int, k: int) -> bool {
    forall|p: Point3| #[trigger]
        x.at(p) == match owner_of(operands, p, n) {
            Some(i) => Some(i),
            None => if n < operands.len() && stands_at(operands[n].verts, p, k) {
                Some(n as u64)
            } else {
                None
            },
        }
}

proof fn lemma_stands(verts: Seq<Point3>, p: Point3, k: int)
    requires
        0 <= k < verts.len(),
    ensures
        stands_at(verts, p, k + 1) == (stands_at(verts, p, k) || canonical_point(verts[k]) == p),
{
    if stands_at(verts, p, k) {
        let i = choose|i: int| 0 <= i < k && canonical_point(#[trigger] verts[i]) == p;
        assert(0 <= i < k + 1 && canonical_point(verts[i]) == p);
    }
}

/// The operands that own each point.
fn index_operands(operands: &Vec<Mesh>) -> (x: PointIndex)
    requires
        point_total(mesh_views(operands@), operands@.len() as int) <= u64::MAX,
    ensures
        forall|p: Point3| #[trigger]
            x.at(p) == owner_of(mesh_views(operands@), p, operands@.len() as int),
{
    let ghost ops = mesh_views(operands@);
    let mut x = PointIndex::new();
    let mut i: usize = 0;
    while i < operands.len()
        invariant
            ops == mesh_views(operands@),
            i <= operands@.len(),
            x.wf(),
            x.size() <= point_total(ops, i as int),
            point_total(ops, ops.len() as int) <= u64::MAX,
            forall|p: Point3| #[trigger] x.at(p) == owner_of(ops, p, i as int),
        decreases operands.len() - i,
    {
        proof {
            lemma_point_total(ops, i + 1, ops.len() as int);
        }
        let verts = &operands[i].verts;
        assert(ops[i as int].verts == verts@);
        let mut k: usize = 0;
        assert(index_knows(x, ops, i as int, 0));
        while k < verts.len()
            invariant
                ops == mesh_views(operands@),
                i < operands@.len(),
                ops[i as int].verts == verts@,
                k <= verts@.len(),
                x.wf(),
                x.size() <= point_total(ops, i as int) + k,
                point_total(ops, i as int) + verts@.len() <= u64::MAX,
                index_knows(x, ops, i as int, k as int),
            decreases verts.len() - k,
        {
            let p = canonical_corner(verts[k]);
            let ghost before = x;
            x.insert_new(p, i as u64);
            proof {
                assert forall|q: Point3| #[trigger] x.at(q) == match owner_of(ops, q, i as int) {
                    Some(j) => Some(j),
                    None => if stands_at(ops[i as int].verts, q, k + 1) {
                        Some(i as u64)
                    } else {
                        None
                    },
                } by {
                    lemma_stands(verts@, q, k as int);
                    assert(before.at(q) == before.at(q));
                }
                assert(index_knows(x, ops, i as int, k + 1));
            }
            k = k + 1;
        }
        assert(index_knows(x, ops, i as int, verts@.len() as int));
        i = i + 1;
    }
    x
}

proof fn lemma_owner_within(operands: Seq<MeshView>, p: Point3, n: int)
    requires
        0 <= n <= operands.len(),
        n <= u32::MAX,
    ensures
        owner_of(operands, p, n) matches Some(i) ==> i < n,
    decreases n,
{
    if n > 0 {
        lemma_owner_within(operands, p, n - 1);
    }
}

/// Classifies the faces of a hull by the operands that they lie on, split at
/// creases.
pub fn hull_patch_ids<A: Arithmetic>(calc: &mut Calc<A>, mesh: &Mesh, operands: &Vec<Mesh>) -> (r: Vec<
    u64,
>)
    requires
        mesh@.indexed(),
        mesh@.tris.len() <= u32::MAX,
        operands@.len() <= u32::MAX,
    ensures
        forall|m: Reading| #[trigger]
            final(calc).agrees(m) ==> old(calc).agrees(m) && r@ == hull_patches(
                m,
                mesh_views(operands@),
                mesh@,
            ),
{
    if !countable(operands) {
        let out = repeat_patch(UNCLASSIFIED_PATCH_ID, mesh.tris.len());
        assert(out@ =~= unclassified(mesh@.tris.len()));
        return out;
    }
    let x = index_operands(operands);
    let ghost ops = mesh_views(operands@);
    let ghost whole = span_keys(ops, mesh@);
    let mut keys: Vec<Option<u128>> = Vec::new();
    let mut t: usize = 0;
    while t < mesh.tris.len()
        invariant
            t <= mesh@.tris.len(),
            mesh@.indexed(),
            ops == mesh_views(operands@),
            ops.len() <= u32::MAX,
            forall|p: Point3| #[trigger] x.at(p) == owner_of(ops, p, ops.len() as int),
            whole == span_keys(ops, mesh@),
            keys@ =~= whole.take(t as int),
        decreases mesh.tris.len() - t,
    {
        let tri = mesh.tris[t];
        assert(mesh@.tris[t as int].within(mesh@.verts.len()));
        let pa = canonical_corner(mesh.verts[tri.a as usize]);
        let pb = canonical_corner(mesh.verts[tri.b as usize]);
        let pc = canonical_corner(mesh.verts[tri.c as usize]);
        proof {
            lemma_owner_within(ops, pa, ops.len() as int);
            lemma_owner_within(ops, pb, ops.len() as int);
            lemma_owner_within(ops, pc, ops.len() as int);
        }
        let key: Option<u128> = match (x.get(pa), x.get(pb), x.get(pc)) {
            (Some(a), Some(b), Some(c)) => Some(span_code(a, b, c)),
            _ => None,
        };
        assert(whole[t as int] == key);
        keys.push(key);
        t = t + 1;
    }
    assert(keys@ =~= whole);
    let patches = number_keys(&keys);
    smooth_components(calc, mesh, &patches)
}

// ---- all nodes -------------------------------------------------------------------------------------

/// A face has all corners of a triangle.
pub open spec fn face_has(face: Seq<u32>, t: Triangle) -> bool {
    face.contains(t.a) && face.contains(t.b) && face.contains(t.c)
}

/// The first of the first `n` faces that has all corners of a triangle.
pub open spec fn face_of(faces: Seq<Vec<u32>>, t: Triangle, n: int) -> u64
    decreases n,
{
    if n <= 0 {
        UNCLASSIFIED_PATCH_ID
    } else if face_of(faces, t, n - 1) != UNCLASSIFIED_PATCH_ID {
        face_of(faces, t, n - 1)
    } else if face_has(faces[n - 1]@, t) {
        (n - 1) as u64
    } else {
        UNCLASSIFIED_PATCH_ID
    }
}

/// The patches of a cylinder: the bottom, the top, and the wall around.
pub open spec fn cylinder_patch(m: Reading, mesh: MeshView, t: int) -> u64 {
    let kind = layer_of(m, mesh, PICO, t);
    if kind == 0 {
        1
    } else if kind == 1 {
        2
    } else {
        0
    }
}

/// The source patches of what a node draws, hulls left aside.
pub open spec fn source_patches(m: Reading, node: Node, mesh: MeshView) -> Seq<u64> {
    let n = mesh.tris.len();
    match node {
        Node::Cube { .. } => Seq::new(n, |t: int| (t / 2) as u64),
        Node::Sphere { .. } => Seq::new(n, |t: int| 0u64),
        Node::Cylinder { .. } => if mesh.verts.len() == 0 {
            Seq::empty()
        } else {
            Seq::new(n, |t: int| cylinder_patch(m, mesh, t))
        },
        Node::Polyhedron { faces, .. } => Seq::new(
            n,
            |t: int| face_of(faces@, mesh.tris[t], faces@.len() as int),
        ),
        Node::LinearExtrude { slices, child, .. } => extrusion_patches(
            m,
            mesh,
            slices,
            outline(*child),
        ),
        Node::RotateExtrude { angle, frags, child } => sweep_patches(
            m,
            mesh,
            angle,
            frags,
            outline(*child),
        ),
        _ => unclassified(n),
    }
}

fn has_corner(face: &Vec<u32>, v: u32) -> (r: bool)
    ensures
        r == face@.contains(v),
{
    let mut i: usize = 0;
    while i < face.len()
        invariant
            i <= face@.len(),
            forall|k: int| 0 <= k < i ==> face@[k] != v,
        decreases face.len() - i,
    {
        if face[i] == v {
            assert(face@[i as int] == v);
            return true;
        }
        i = i + 1;
    }
    false
}

proof fn lemma_face_stays(faces: Seq<Vec<u32>>, t: Triangle, i: int, n: int)
    requires
        0 <= i <= n,
        face_of(faces, t, i) != UNCLASSIFIED_PATCH_ID,
    ensures
        face_of(faces, t, n) == face_of(faces, t, i),
    decreases n,
{
    if i < n {
        lemma_face_stays(faces, t, i, n - 1);
    }
}

fn find_face(faces: &Vec<Vec<u32>>, t: Triangle) -> (r: u64)
    ensures
        r == face_of(faces@, t, faces@.len() as int),
{
    let mut i: usize = 0;
    while i < faces.len()
        invariant
            i <= faces@.len(),
            face_of(faces@, t, i as int) == UNCLASSIFIED_PATCH_ID,
        decreases faces.len() - i,
    {
        let f = &faces[i];
        if has_corner(f, t.a) && has_corner(f, t.b) && has_corner(f, t.c) {
            if i as u64 != UNCLASSIFIED_PATCH_ID {
                proof {
                    lemma_face_stays(faces@, t, i + 1, faces@.len() as int);
                }
                return i as u64;
            }
        }
        i = i + 1;
    }
    UNCLASSIFIED_PATCH_ID
}

/// The source patches of what a node draws, hulls left aside.
pub fn source_patch_ids<A: Arithmetic>(calc: &mut Calc<A>, node: &Node, mesh: &Mesh) -> (r: Vec<u64>)
    requires
        mesh@.indexed(),
        mesh@.tris.len() <= u32::MAX,
    ensures
        forall|m: Reading| #[trigger]
            final(calc).agrees(m) ==> old(calc).agrees(m) && r@ == source_patches(m, *node, mesh@),
{
    let n: usize = mesh.tris.len();
    match node {
        Node::Cube { .. } => {
            let mut out: Vec<u64> = Vec::new();
            for t in 0..n
                invariant
                    out@ =~= Seq::new(t as nat, |k: int| (k / 2) as u64),
            {
                out.push((t / 2) as u64);
            }
            assert(out@ =~= Seq::new(n as nat, |k: int| (k / 2) as u64));
            out
        },
        Node::Sphere { .. } => {
            let out = repeat_patch(0, n);
            assert(out@ =~= Seq::new(n as nat, |t: int| 0u64));
            out
        },
        Node::Cylinder { .. } => {
            let mut out: Vec<u64> = Vec::new();
            if mesh.verts.len() == 0 {
                assert(out@ =~= Seq::empty());
                return out;
            }
            let kinds = layers(calc, mesh, PICO);
            let mut t: usize = 0;
            while t < n
                invariant
                    t <= n,
                    n == mesh@.tris.len(),
                    kinds@.len() == n,
                    out@.len() == t,
                    forall|m: Reading| #[trigger]
                        calc.agrees(m) ==> old(calc).agrees(m) && (forall|i: int|
                            0 <= i < n ==> #[trigger] kinds@[i] == layer_of(m, mesh@, PICO, i))
                            && forall|i: int|
                            0 <= i < t ==> #[trigger] out@[i] == cylinder_patch(m, mesh@, i),
                decreases n - t,
            {
                let kind: u8 = kinds[t];
                out.push(
                    if kind == 0 {
                        1
                    } else if kind == 1 {
                        2
                    } else {
                        0
                    },
                );
                t = t + 1;
            }
            proof {
                assert forall|m: Reading| #[trigger] calc.agrees(m) implies out@ == Seq::new(
                    n as nat,
                    |t: int| cylinder_patch(m, mesh@, t),
                ) by {
                    assert(out@ =~= Seq::new(n as nat, |t: int| cylinder_patch(m, mesh@, t)));
                }
            }
            out
        },
        Node::Polyhedron { faces, .. } => {
            let mut out: Vec<u64> = Vec::new();
            let mut t: usize = 0;
            while t < n
                invariant
                    t <= n,
                    n == mesh@.tris.len(),
                    out@.len() == t,
                    forall|i: int|
                        0 <= i < t ==> #[trigger] out@[i] == face_of(
                            faces@,
                            mesh@.tris[i],
                            faces@.len() as int,
                        ),
                decreases n - t,
            {
                out.push(find_face(faces, mesh.tris[t]));
                t = t + 1;
            }
            assert(out@ =~= Seq::new(
                n as nat,
                |t: int| face_of(faces@, mesh@.tris[t], faces@.len() as int),
            ));
            out
        },
        Node::LinearExtrude { slices, child, .. } => {
            let boundary = profile_boundary(child);
            linear_extrude_patch_ids(calc, mesh, *slices, boundary)
        },
        Node::RotateExtrude { angle, frags, child } => {
            let boundary = profile_boundary(child);
            rotate_extrude_patch_ids(calc, mesh, *angle, *frags, boundary)
        },
        _ => {
            let out = repeat_patch(UNCLASSIFIED_PATCH_ID, n);
            assert(out@ =~= unclassified(n as nat));
            out
        },
    }
}

} // verus!
