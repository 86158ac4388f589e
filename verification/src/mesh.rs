//! Indexed triangle meshes.

use vstd::prelude::*;

verus! {

/// A point, each coordinate as the bits of its double.
#[derive(Clone, Copy, Debug, PartialEq, Eq, Structural)]
pub struct Point3 {
    pub x: u64,
    pub y: u64,
    pub z: u64,
}

/// A triangle, by the indices of its corners.
#[derive(Clone, Copy, Debug, PartialEq, Eq, Structural)]
pub struct Triangle {
    pub a: u32,
    pub b: u32,
    pub c: u32,
}

/// Vertices and the triangles between them.
#[derive(Debug)]
pub struct Mesh {
    pub verts: Vec<Point3>,
    pub tris: Vec<Triangle>,
}

/// What a mesh holds.
pub struct MeshView {
    pub verts: Seq<Point3>,
    pub tris: Seq<Triangle>,
}

impl View for Mesh {
    type V = MeshView;

    open spec fn view(&self) -> MeshView {
        MeshView { verts: self.verts@, tris: self.tris@ }
    }
}

impl MeshView {
    /// The payload size: 24 bytes for a vertex and 12 for a triangle.
    pub open spec fn payload(self) -> nat {
        self.verts.len() * 24 + self.tris.len() * 12
    }

    /// Every corner of every triangle is a vertex.
    pub open spec fn indexed(self) -> bool {
        forall|i: int| 0 <= i < self.tris.len() ==> #[trigger] self.tris[i].within(self.verts.len())
    }
}

impl Triangle {
    /// Every corner is one of the first `n` vertices.
    pub open spec fn within(self, n: nat) -> bool {
        self.a < n && self.b < n && self.c < n
    }
}

impl Mesh {
    /// A mesh without vertices and triangles.
    pub fn new() -> (r: Mesh)
        ensures
            r@.verts =~= Seq::empty(),
            r@.tris =~= Seq::empty(),
    {
        Mesh { verts: Vec::new(), tris: Vec::new() }
    }

    /// Whether the mesh has no triangles.
    pub fn is_empty(&self) -> (r: bool)
        ensures
            r == (self@.tris.len() == 0),
    {
        self.tris.len() == 0
    }

    /// A copy that holds the same vertices and triangles.
    pub fn duplicate(&self) -> (r: Mesh)
        ensures
            r@ == self@,
    {
        let mut verts: Vec<Point3> = Vec::new();
        for i in 0..self.verts.len()
            invariant
                verts@ =~= self.verts@.take(i as int),
        {
            verts.push(self.verts[i]);
        }
        let mut tris: Vec<Triangle> = Vec::new();
        for i in 0..self.tris.len()
            invariant
                tris@ =~= self.tris@.take(i as int),
        {
            tris.push(self.tris[i]);
        }
        assert(verts@ =~= self.verts@);
        assert(tris@ =~= self.tris@);
        Mesh { verts, tris }
    }
}

} // verus!
