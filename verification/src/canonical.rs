//! Triangles in an order and a rotation that do not depend on how the mesh was
//! made.

use crate::components::listed;
use crate::mesh::{Mesh, MeshView, Point3, Triangle};
use crate::provenance::{as_ints, ints_at_most, plain};
use crate::rank::{ascending, sorted, Ranked};
use crate::solid::point_le;
use crate::text::{dictionary_le, lemma_dictionary_total, lemma_dictionary_transitive};
use crate::vector::{canonical_corner, canonical_point};
use vstd::prelude::*;

verus! {

/// A triangle with its lowest corner first, and the places of its corners.
#[derive(Clone, Copy, Debug, PartialEq, Eq, Structural)]
pub struct Turned {
    pub id: u32,
    pub tri: Triangle,
    pub p: Point3,
    pub q: Point3,
    pub r: Point3,
}

/// `p` stands strictly before `q`.
pub open spec fn lower(p: Point3, q: Point3) -> bool {
    !point_le(q, p)
}

/// A triangle as three corners with their places.
pub open spec fn placed(mesh: MeshView, id: u32, tri: Triangle) -> Turned {
    Turned {
        id,
        tri,
        p: canonical_point(mesh.verts[tri.a as int]),
        q: canonical_point(mesh.verts[tri.b as int]),
        r: canonical_point(mesh.verts[tri.c as int]),
    }
}

/// A triangle turned so that its lowest corner comes first; of equal corners
/// the earlier one.
pub open spec fn turned(mesh: MeshView, id: u32) -> Turned {
    let t = mesh.tris[id as int];
    let s = placed(mesh, id, t);
    let second = lower(s.q, s.p);
    let best = if second {
        s.q
    } else {
        s.p
    };
    if lower(s.r, best) {
        placed(mesh, id, Triangle { a: t.c, b: t.a, c: t.b })
    } else if second {
        placed(mesh, id, Triangle { a: t.b, b: t.c, c: t.a })
    } else {
        s
    }
}

/// What turned triangles are ordered by: the places of the corners, then the
/// number.
pub open spec fn turned_key(t: Turned) -> Seq<int> {
    seq![
        t.p.x as int,
        t.p.y as int,
        t.p.z as int,
        t.q.x as int,
        t.q.y as int,
        t.q.z as int,
        t.r.x as int,
        t.r.y as int,
        t.r.z as int,
        t.id as int,
    ]
}

fn turned_numbers(t: &Turned) -> (r: Vec<u64>)
    ensures
        as_ints(r@) == turned_key(*t),
{
    let mut v: Vec<u64> = Vec::new();
    v.push(t.p.x);
    v.push(t.p.y);
    v.push(t.p.z);
    v.push(t.q.x);
    v.push(t.q.y);
    v.push(t.q.z);
    v.push(t.r.x);
    v.push(t.r.y);
    v.push(t.r.z);
    v.push(t.id as u64);
    assert(as_ints(v@) =~= turned_key(*t));
    v
}

impl Ranked for Turned {
    open spec fn rank_le(&self, other: &Self) -> bool {
        dictionary_le(turned_key(*self), turned_key(*other), plain())
    }

    proof fn rank_total(a: &Self, b: &Self) {
        lemma_dictionary_total(turned_key(*a), turned_key(*b), plain());
    }

    proof fn rank_transitive(a: &Self, b: &Self, c: &Self) {
        lemma_dictionary_transitive(turned_key(*a), turned_key(*b), turned_key(*c), plain());
    }

    fn ranks_before(&self, other: &Self) -> (r: bool) {
        let a = turned_numbers(self);
        let b = turned_numbers(other);
        let r = ints_at_most(&a, &b);
        assert(self.rank_le(other) == dictionary_le(turned_key(*self), turned_key(*other), plain()));
        r
    }
}

/// The listed triangles, turned.
pub open spec fn all_turned(mesh: MeshView, list: Seq<u32>) -> Seq<Turned> {
    list.map_values(|id: u32| turned(mesh, id))
}

/// `r` holds the listed triangles, turned, in order.
pub open spec fn is_canonical(mesh: MeshView, list: Seq<u32>, r: Seq<Turned>) -> bool {
    ascending(r) && r.to_multiset() =~= all_turned(mesh, list).to_multiset()
}

fn is_lower(p: Point3, q: Point3) -> (r: bool)
    ensures
        r == lower(p, q),
{
    let back: bool = q.ranks_before(&p);
    assert(q.rank_le(&p) == point_le(q, p));
    !back
}

fn place(mesh: &Mesh, id: u32, tri: Triangle) -> (r: Turned)
    requires
        tri.within(mesh@.verts.len()),
    ensures
        r == placed(mesh@, id, tri),
{
    let p = canonical_corner(mesh.verts[tri.a as usize]);
    let q = canonical_corner(mesh.verts[tri.b as usize]);
    let r = canonical_corner(mesh.verts[tri.c as usize]);
    Turned { id, tri, p, q, r }
}

fn turn(mesh: &Mesh, id: u32) -> (r: Turned)
    requires
        mesh@.indexed(),
        id < mesh.tris@.len(),
    ensures
        r == turned(mesh@, id),
{
    let t = mesh.tris[id as usize];
    assert(mesh@.tris[id as int].within(mesh@.verts.len()));
    let s = place(mesh, id, t);
    let second: bool = is_lower(s.q, s.p);
    let best = if second {
        s.q
    } else {
        s.p
    };
    if is_lower(s.r, best) {
        place(mesh, id, Triangle { a: t.c, b: t.a, c: t.b })
    } else if second {
        place(mesh, id, Triangle { a: t.b, b: t.c, c: t.a })
    } else {
        s
    }
}

/// The listed triangles, each with its lowest corner first, by the places of
/// their corners.
pub fn canonical_triangles(mesh: &Mesh, list: &Vec<u32>) -> (r: Vec<Turned>)
    requires
        mesh@.indexed(),
        listed(mesh.tris@, list@),
    ensures
        is_canonical(mesh@, list@, r@),
        r@.len() == list@.len(),
        forall|i: int|
            0 <= i < r@.len() ==> (#[trigger] r@[i]).tri.within(mesh@.verts.len()) && r@[i].id
                < mesh.tris@.len(),
{
    let mut out: Vec<Turned> = Vec::new();
    let ghost mv = mesh@;
    let mut i: usize = 0;
    while i < list.len()
        invariant
            mv == mesh@,
            mv.indexed(),
            listed(mesh.tris@, list@),
            i <= list@.len(),
            out@ =~= all_turned(mv, list@).take(i as int),
        decreases list.len() - i,
    {
        assert(list@[i as int] < mesh.tris@.len());
        out.push(turn(mesh, list[i]));
        i = i + 1;
    }
    let ghost raw = out@;
    assert(raw =~= all_turned(mv, list@));
    let r = sorted(out);
    proof {
        raw.to_multiset_ensures();
        r@.to_multiset_ensures();
        assert forall|i: int| 0 <= i < r@.len() implies (#[trigger] r@[i]).tri.within(mv.verts.len())
            && r@[i].id < mesh.tris@.len() by {
            assert(r@.to_multiset().count(r@[i]) > 0);
            assert(raw.contains(r@[i]));
            let j = choose|j: int| 0 <= j < raw.len() && raw[j] == r@[i];
            assert(raw[j] == turned(mv, list@[j]));
            assert(list@[j] < mesh.tris@.len());
            assert(mv.tris[list@[j] as int].within(mv.verts.len()));
        }
    }
    r
}

/// A triangle keeps its corners and its sense of rotation.
pub proof fn law_turning_keeps_the_triangle(mesh: MeshView, id: u32)
    ensures
        ({
            let t = mesh.tris[id as int];
            let r = turned(mesh, id).tri;
            ||| r == t
            ||| r == Triangle { a: t.b, b: t.c, c: t.a }
            ||| r == Triangle { a: t.c, b: t.a, c: t.b }
        }),
        turned(mesh, id).id == id,
{
}

} // verus!
