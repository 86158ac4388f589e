//! Feature edges: the edges of a selection along which its surface creases,
//! ends, or leaves one source patch for another at an angle.

use crate::components::{labels, listed, triangle_labels};
use crate::grouping::{
    group_by_key, is_grouping, key_less, lemma_places, place_list, places, Group,
};
use crate::mesh::{Mesh, MeshView, Point3, Triangle};
use crate::num::{at_most, equals, is_at_most, same, Arithmetic, Calc, Reading};
use crate::rank::{sorted, Ranked};
use crate::solid::{all_triangles, point_le};
use crate::surfaces::UNCLASSIFIED_PATCH_ID;
use crate::vector::{canonical_corner, canonical_point, dihedral_degrees, dihedral_in_degrees};
use vstd::prelude::*;

verus! {

/// Two adjacent source patches are one surface along a shared boundary when the
/// sharpest angle anywhere on that connected boundary stays under 30 degrees.
pub const PATCH_MERGE_DEGREES: u64 = 0x403e_0000_0000_0000;

/// Geometry without source patches is judged edge by edge, at 20 degrees.
pub const RAW_CREASE_DEGREES: u64 = 0x4034_0000_0000_0000;

// ---- the edges of a selection ----------------------------------------------------------

/// An edge, the lower vertex first.
#[derive(Clone, Copy, Debug, PartialEq, Eq, Structural)]
pub struct Edge {
    pub a: u32,
    pub b: u32,
}

/// The edge between two vertices.
pub open spec fn edge_between(x: u32, y: u32) -> Edge {
    if x < y {
        Edge { a: x, b: y }
    } else {
        Edge { a: y, b: x }
    }
}

/// The `e`-th edge of a triangle.
pub open spec fn edge_of(t: Triangle, e: int) -> Edge {
    if e == 0 {
        edge_between(t.a, t.b)
    } else if e == 1 {
        edge_between(t.b, t.c)
    } else {
        edge_between(t.c, t.a)
    }
}

/// The key of an edge.
pub open spec fn edge_key(e: Edge) -> (u64, u64) {
    (e.a as u64, e.b as u64)
}

/// The keys of all edges of the listed triangles, three to a triangle.
pub open spec fn edge_keys(tris: Seq<Triangle>, list: Seq<u32>) -> Seq<(u64, u64)> {
    Seq::new(3 * list.len(), |p: int| edge_key(edge_of(tris[list[p / 3] as int], p % 3)))
}

/// An edge, and the triangles that have it.
#[derive(Debug)]
pub struct EdgeUse {
    pub edge: Edge,
    pub local: Vec<u32>,
}

/// What an edge's use says.
pub struct UseView {
    pub edge: Edge,
    pub local: Seq<u32>,
}

impl View for EdgeUse {
    type V = UseView;

    open spec fn view(&self) -> UseView {
        UseView { edge: self.edge, local: self.local@ }
    }
}

pub open spec fn use_views(v: Seq<EdgeUse>) -> Seq<UseView> {
    v.map_values(|u: EdgeUse| u@)
}

/// The triangles at some edge places.
pub open spec fn triangles_at(list: Seq<u32>, at: Seq<int>) -> Seq<u32> {
    at.map_values(|p: int| list[p / 3])
}

/// Some use is that of the edge with this key.
pub open spec fn has_use(r: Seq<UseView>, k: (u64, u64)) -> bool {
    exists|i: int| 0 <= i < r.len() && edge_key((#[trigger] r[i]).edge) == k
}

/// `r` holds each edge of the listed triangles with those that have it, in
/// order.
pub open spec fn are_uses(tris: Seq<Triangle>, list: Seq<u32>, r: Seq<UseView>) -> bool {
    let keys = edge_keys(tris, list);
    &&& forall|i: int, j: int|
        #![trigger r[i], r[j]]
        0 <= i < j < r.len() ==> key_less(edge_key(r[i].edge), edge_key(r[j].edge))
    &&& forall|i: int|
        0 <= i < r.len() ==> (#[trigger] r[i]).local == triangles_at(
            list,
            places(keys, edge_key(r[i].edge), keys.len() as int),
        ) && r[i].local.len() > 0
    &&& forall|p: int| 0 <= p < keys.len() ==> has_use(r, #[trigger] keys[p])
}

fn edge(x: u32, y: u32) -> (r: Edge)
    ensures
        r == edge_between(x, y),
{
    if x < y {
        Edge { a: x, b: y }
    } else {
        Edge { a: y, b: x }
    }
}

fn push_keys(keys: &mut Vec<(u64, u64)>, t: Triangle)
    ensures
        final(keys)@ =~= old(keys)@ + seq![
            edge_key(edge_of(t, 0)),
            edge_key(edge_of(t, 1)),
            edge_key(edge_of(t, 2)),
        ],
{
    let x = edge(t.a, t.b);
    let y = edge(t.b, t.c);
    let z = edge(t.c, t.a);
    keys.push((x.a as u64, x.b as u64));
    keys.push((y.a as u64, y.b as u64));
    keys.push((z.a as u64, z.b as u64));
}

/// All uses name listed triangles and vertices of the mesh.
pub open spec fn uses_fit(mesh: MeshView, r: Seq<UseView>) -> bool {
    forall|i: int|
        0 <= i < r.len() ==> (#[trigger] r[i]).edge.a < mesh.verts.len() && r[i].edge.b
            < mesh.verts.len() && forall|k: int|
            0 <= k < r[i].local.len() ==> #[trigger] r[i].local[k] < mesh.tris.len()
}

/// Each edge of the listed triangles with the triangles that have it.
pub fn edge_uses(mesh: &Mesh, list: &Vec<u32>) -> (r: Vec<EdgeUse>)
    requires
        mesh@.indexed(),
        listed(mesh.tris@, list@),
    ensures
        are_uses(mesh.tris@, list@, use_views(r@)),
        uses_fit(mesh@, use_views(r@)),
{
    let ghost tris = mesh.tris@;
    let ghost ek = edge_keys(tris, list@);
    let mut keys: Vec<(u64, u64)> = Vec::new();
    for i in 0..list.len()
        invariant
            tris == mesh.tris@,
            listed(tris, list@),
            ek == edge_keys(tris, list@),
            keys@ =~= ek.take(3 * i),
    {
        let ghost before = keys@;
        assert(list@[i as int] < tris.len());
        let t = mesh.tris[list[i] as usize];
        push_keys(&mut keys, t);
        proof {
            assert((3 * i) / 3 == i && (3 * i + 1) / 3 == i && (3 * i + 2) / 3 == i);
            assert((3 * i) % 3 == 0 && (3 * i + 1) % 3 == 1 && (3 * i + 2) % 3 == 2);
            assert(ek[3 * i] == edge_key(edge_of(t, 0)));
            assert(ek[3 * i + 1] == edge_key(edge_of(t, 1)));
            assert(ek[3 * i + 2] == edge_key(edge_of(t, 2)));
            assert(keys@ =~= ek.take(3 * (i + 1)));
        }
    }
    assert(ek.take(3 * list@.len() as int) =~= ek);
    let found = group_by_key(&keys);
    let mut out: Vec<EdgeUse> = Vec::new();
    let mut g: usize = 0;
    while g < found.len()
        invariant
            mesh@.indexed(),
            tris == mesh.tris@,
            listed(tris, list@),
            ek == edge_keys(tris, list@),
            is_grouping(ek, found@),
            g <= found@.len(),
            out@.len() == g,
            forall|i: int|
                0 <= i < g ==> edge_key((#[trigger] use_views(out@)[i]).edge) == found@[i].key
                    && use_views(out@)[i].local == triangles_at(
                    list@,
                    places(ek, found@[i].key, ek.len() as int),
                ) && use_views(out@)[i].local.len() > 0,
            uses_fit(mesh@, use_views(out@)),
        decreases found.len() - g,
    {
        let ghost key = found@[g as int].key;
        let ghost at = places(ek, key, ek.len() as int);
        proof {
            lemma_places(ek, key, ek.len() as int);
            assert(place_list(found@[g as int].at@) == at);
            // The key comes from an edge, so its numbers are vertices.
            let p = at[0];
            assert(ek[p] == key);
            assert(list@[p / 3] < tris.len());
            assert(mesh@.tris[list@[p / 3] as int].within(mesh@.verts.len()));
        }
        let e = Edge { a: found[g].key.0 as u32, b: found[g].key.1 as u32 };
        let mut local: Vec<u32> = Vec::new();
        let mut k: usize = 0;
        while k < found[g].at.len()
            invariant
                g < found@.len(),
                listed(tris, list@),
                ek.len() == 3 * list@.len(),
                at == place_list(found@[g as int].at@),
                forall|x: int| 0 <= x < at.len() ==> 0 <= #[trigger] at[x] < ek.len(),
                k <= at.len(),
                local@ =~= triangles_at(list@, at).take(k as int),
                forall|x: int| 0 <= x < k ==> #[trigger] local@[x] < tris.len(),
            decreases at.len() - k,
        {
            let p: usize = found[g].at[k];
            assert(at[k as int] == p);
            assert(list@[p as int / 3] < tris.len());
            local.push(list[p / 3]);
            k = k + 1;
        }
        proof {
            assert(triangles_at(list@, at).take(at.len() as int) =~= triangles_at(list@, at));
        }
        let ghost before = use_views(out@);
        let ghost made = UseView { edge: e, local: local@ };
        out.push(EdgeUse { edge: e, local });
        proof {
            assert(use_views(out@) =~= before.push(made));
        }
        g = g + 1;
    }
    proof {
        let r = use_views(out@);
        assert forall|p: int| 0 <= p < ek.len() implies has_use(r, #[trigger] ek[p]) by {
            assert(crate::grouping::has_group(found@, ek[p]));
            let x = choose|x: int| 0 <= x < found@.len() && (#[trigger] found@[x]).key == ek[p];
            assert(edge_key(r[x].edge) == ek[p]);
        }
        assert forall|i: int, j: int|
            #![trigger r[i], r[j]]
            0 <= i < j < r.len() implies key_less(edge_key(r[i].edge), edge_key(r[j].edge)) by {
            assert(key_less(found@[i].key, found@[j].key));
        }
    }
    out
}

// ---- boundaries between patches ------------------------------------------------------------

/// The two ends are at different places.
pub open spec fn has_length(mesh: MeshView, e: Edge) -> bool {
    let p = mesh.verts[e.a as int];
    let q = mesh.verts[e.b as int];
    !(same(p.x, q.x) && same(p.y, q.y) && same(p.z, q.z))
}

fn test_length(mesh: &Mesh, e: Edge) -> (r: bool)
    requires
        e.a < mesh@.verts.len(),
        e.b < mesh@.verts.len(),
    ensures
        r == has_length(mesh@, e),
{
    let p = mesh.verts[e.a as usize];
    let q = mesh.verts[e.b as usize];
    !(equals(p.x, q.x) && equals(p.y, q.y) && equals(p.z, q.z))
}

/// Both triangles of the edge come from source patches.
pub open spec fn classified(faces: Seq<u64>, u: UseView) -> bool {
    faces[u.local[0] as int] != UNCLASSIFIED_PATCH_ID && faces[u.local[1] as int]
        != UNCLASSIFIED_PATCH_ID
}

/// The edge parts two source patches.
pub open spec fn is_boundary(mesh: MeshView, faces: Seq<u64>, u: UseView) -> bool {
    &&& u.local.len() == 2
    &&& has_length(mesh, u.edge)
    &&& faces[u.local[0] as int] != faces[u.local[1] as int]
    &&& classified(faces, u)
}

/// The two patches that the edge parts, the lower first.
pub open spec fn patch_pair(faces: Seq<u64>, u: UseView) -> (u64, u64) {
    let l = faces[u.local[0] as int];
    let r = faces[u.local[1] as int];
    if l <= r {
        (l, r)
    } else {
        (r, l)
    }
}

/// The numbers below `n` of the boundary edges.
pub open spec fn boundaries(mesh: MeshView, faces: Seq<u64>, uses: Seq<UseView>, n: int) -> Seq<int>
    decreases n,
{
    if n <= 0 {
        Seq::empty()
    } else if is_boundary(mesh, faces, uses[n - 1]) {
        boundaries(mesh, faces, uses, n - 1).push(n - 1)
    } else {
        boundaries(mesh, faces, uses, n - 1)
    }
}

proof fn lemma_boundaries(mesh: MeshView, faces: Seq<u64>, uses: Seq<UseView>, n: int)
    requires
        0 <= n <= uses.len(),
    ensures
        forall|x: int|
            0 <= x < boundaries(mesh, faces, uses, n).len() ==> 0 <= (#[trigger] boundaries(
                mesh,
                faces,
                uses,
                n,
            )[x]) < n && is_boundary(mesh, faces, uses[boundaries(mesh, faces, uses, n)[x]]),
        forall|a: int, b: int|
            #![trigger boundaries(mesh, faces, uses, n)[a], boundaries(mesh, faces, uses, n)[b]]
            0 <= a < b < boundaries(mesh, faces, uses, n).len() ==> boundaries(
                mesh,
                faces,
                uses,
                n,
            )[a] < boundaries(mesh, faces, uses, n)[b],
        forall|i: int|
            0 <= i < n && is_boundary(mesh, faces, uses[i]) ==> #[trigger] boundaries(
                mesh,
                faces,
                uses,
                n,
            ).contains(i),
        boundaries(mesh, faces, uses, n).len() <= n,
    decreases n,
{
    if n > 0 {
        lemma_boundaries(mesh, faces, uses, n - 1);
        let before = boundaries(mesh, faces, uses, n - 1);
        assert forall|i: int|
            0 <= i < n && is_boundary(mesh, faces, uses[i]) implies #[trigger] boundaries(
            mesh,
            faces,
            uses,
            n,
        ).contains(i) by {
            crate::surfaces::lemma_push_contains(before, n - 1, i);
            if i < n - 1 {
                assert(before.contains(i));
            }
        }
    }
}

/// The patch pairs of the listed edges.
pub open spec fn pair_keys(faces: Seq<u64>, uses: Seq<UseView>, list: Seq<int>) -> Seq<(u64, u64)> {
    list.map_values(|i: int| patch_pair(faces, uses[i]))
}

/// An edge as a triangle without area, so that edges that share a vertex are
/// connected as triangles are.
pub open spec fn sliver(e: Edge) -> Triangle {
    Triangle { a: e.a, b: e.b, c: e.b }
}

/// The edges of one patch pair as slivers.
pub open spec fn slivers(uses: Seq<UseView>, list: Seq<int>, at: Seq<int>) -> Seq<Triangle> {
    at.map_values(|p: int| sliver(uses[list[p]].edge))
}

/// The angle at an edge of two triangles, in degrees.
pub open spec fn crease_angle(m: Reading, mesh: MeshView, u: UseView) -> u64 {
    dihedral_in_degrees(m, mesh, u.local[0] as int, u.local[1] as int)
}

/// Some edge connected to the `x`-th within its patch pair is sharp.
pub open spec fn sharp_around(
    m: Reading,
    mesh: MeshView,
    uses: Seq<UseView>,
    list: Seq<int>,
    at: Seq<int>,
    x: int,
) -> bool {
    let tris = slivers(uses, list, at);
    let label = labels(tris, all_triangles(tris.len()));
    exists|y: int|
        0 <= y < at.len() && label[y] == label[x] && at_most(
            PATCH_MERGE_DEGREES,
            crease_angle(m, mesh, uses[list[#[trigger] at[y]]]),
        )
}

/// The edge is part of a boundary that creases somewhere.
pub open spec fn creases(
    m: Reading,
    mesh: MeshView,
    faces: Seq<u64>,
    uses: Seq<UseView>,
    i: int,
) -> bool {
    let list = boundaries(mesh, faces, uses, uses.len() as int);
    let keys = pair_keys(faces, uses, list);
    let at = places(keys, patch_pair(faces, uses[i]), keys.len() as int);
    exists|x: int|
        0 <= x < at.len() && list[#[trigger] at[x]] == i && sharp_around(m, mesh, uses, list, at, x)
}

fn boundary_test(mesh: &Mesh, faces: &Vec<u64>, u: &EdgeUse) -> (r: bool)
    requires
        u.edge.a < mesh@.verts.len(),
        u.edge.b < mesh@.verts.len(),
        forall|k: int| 0 <= k < u.local@.len() ==> #[trigger] u.local@[k] < faces@.len(),
    ensures
        r == is_boundary(mesh@, faces@, u@),
{
    if u.local.len() != 2 || !test_length(mesh, u.edge) {
        return false;
    }
    assert(u.local@[0] < faces@.len() && u.local@[1] < faces@.len());
    let l: u64 = faces[u.local[0] as usize];
    let r: u64 = faces[u.local[1] as usize];
    l != r && l != UNCLASSIFIED_PATCH_ID && r != UNCLASSIFIED_PATCH_ID
}

/// What is known of the uses: they fit the mesh and its patches.
pub open spec fn uses_known(mesh: MeshView, faces: Seq<u64>, uses: Seq<UseView>) -> bool {
    mesh.indexed() && faces.len() == mesh.tris.len() && uses_fit(mesh, uses)
}

/// Judges the edges of one patch pair.
fn judge_pair<A: Arithmetic>(
    calc: &mut Calc<A>,
    mesh: &Mesh,
    uses: &Vec<EdgeUse>,
    list: &Vec<usize>,
    at: &Vec<usize>,
) -> (r: Vec<bool>)
    requires
        mesh@.indexed(),
        uses_fit(mesh@, use_views(uses@)),
        at@.len() <= u32::MAX,
        forall|x: int|
            0 <= x < at@.len() ==> (#[trigger] at@[x]) < list@.len() && list@[at@[x] as int]
                < uses@.len() && uses@[list@[at@[x] as int] as int].local@.len() == 2,
    ensures
        r@.len() == at@.len(),
        forall|m: Reading| #[trigger]
            final(calc).agrees(m) ==> old(calc).agrees(m) && forall|x: int|
                0 <= x < at@.len() ==> #[trigger] r@[x] == sharp_around(
                    m,
                    mesh@,
                    use_views(uses@),
                    place_list(list@),
                    place_list(at@),
                    x,
                ),
{
    let ghost uv = use_views(uses@);
    let ghost lv = place_list(list@);
    let ghost av = place_list(at@);
    let n: usize = at.len();
    let mut tris: Vec<Triangle> = Vec::new();
    let mut all: Vec<u32> = Vec::new();
    let mut sharp: Vec<bool> = Vec::new();
    let mut x: usize = 0;
    while x < n
        invariant
            mesh@.indexed(),
            uv == use_views(uses@),
            lv == place_list(list@),
            av == place_list(at@),
            uses_fit(mesh@, uv),
            n == at@.len(),
            n <= u32::MAX,
            forall|x: int|
                0 <= x < n ==> (#[trigger] at@[x]) < list@.len() && list@[at@[x] as int]
                    < uses@.len() && uses@[list@[at@[x] as int] as int].local@.len() == 2,
            x <= n,
            sharp@.len() == x,
            tris@ =~= slivers(uv, lv, av).take(x as int),
            all@ =~= all_triangles(x as nat),
            forall|m: Reading| #[trigger]
                calc.agrees(m) ==> old(calc).agrees(m) && forall|k: int|
                    0 <= k < x ==> #[trigger] sharp@[k] == at_most(
                        PATCH_MERGE_DEGREES,
                        crease_angle(m, mesh@, uv[lv[av[k]]]),
                    ),
        decreases n - x,
    {
        assert(at@[x as int] < list@.len());
        let i: usize = list[at[x]];
        let u = &uses[i];
        assert(uv[i as int] == u@);
        assert(lv[av[x as int]] == i);
        assert(uv[i as int].local[0] < mesh@.tris.len());
        assert(uv[i as int].local[1] < mesh@.tris.len());
        let angle: u64 = dihedral_degrees(calc, mesh, u.local[0] as usize, u.local[1] as usize);
        sharp.push(is_at_most(PATCH_MERGE_DEGREES, angle));
        tris.push(Triangle { a: u.edge.a, b: u.edge.b, c: u.edge.b });
        assert(slivers(uv, lv, av)[x as int] == sliver(u.edge));
        all.push(x as u32);
        x = x + 1;
    }
    assert(slivers(uv, lv, av).take(n as int) =~= slivers(uv, lv, av));
    let pair = Mesh { verts: Vec::new(), tris };
    let label = triangle_labels(&pair, &all);
    let ghost lab = labels(slivers(uv, lv, av), all_triangles(n as nat));
    let mut creased: Vec<bool> = Vec::new();
    for x in 0..n
        invariant
            creased@.len() == x,
            forall|k: int| 0 <= k < x ==> #[trigger] creased@[k] == false,
    {
        creased.push(false);
    }
    let mut x: usize = 0;
    while x < n
        invariant
            n == sharp@.len(),
            label@.len() == n,
            forall|t: int| 0 <= t < n ==> #[trigger] label@[t] < n,
            x <= n,
            creased@.len() == n,
            forall|l: int|
                0 <= l < n ==> #[trigger] creased@[l] == exists|y: int|
                    0 <= y < x && label@[y] == l && #[trigger] sharp@[y],
        decreases n - x,
    {
        assert(label@[x as int] < n);
        let ghost before = creased@;
        if sharp[x] {
            creased.set(label[x], true);
        }
        proof {
            assert forall|l: int| 0 <= l < n implies #[trigger] creased@[l] == exists|y: int|
                0 <= y < x + 1 && label@[y] == l && #[trigger] sharp@[y] by {
                if before[l] {
                    let y = choose|y: int| 0 <= y < x && label@[y] == l && #[trigger] sharp@[y];
                    assert(sharp@[y]);
                }
                if sharp@[x as int] && label@[x as int] == l {
                    assert(creased@[l]);
                }
                if exists|y: int| 0 <= y < x + 1 && label@[y] == l && #[trigger] sharp@[y] {
                    let y = choose|y: int| 0 <= y < x + 1 && label@[y] == l && #[trigger] sharp@[y];
                    if y < x {
                        assert(before[l]);
                    }
                }
            }
        }
        x = x + 1;
    }
    let mut out: Vec<bool> = Vec::new();
    let mut x: usize = 0;
    while x < n
        invariant
            label@.len() == n,
            creased@.len() == n,
            forall|t: int| 0 <= t < n ==> #[trigger] label@[t] < n,
            x <= n,
            out@.len() == x,
            forall|k: int| 0 <= k < x ==> #[trigger] out@[k] == creased@[label@[k] as int],
        decreases n - x,
    {
        assert(label@[x as int] < n);
        out.push(creased[label[x]]);
        x = x + 1;
    }
    proof {
        assert forall|m: Reading| #[trigger] calc.agrees(m) implies forall|x: int|
            0 <= x < at@.len() ==> #[trigger] out@[x] == sharp_around(m, mesh@, uv, lv, av, x) by {
            assert forall|x: int| 0 <= x < at@.len() implies #[trigger] out@[x] == sharp_around(
                m,
                mesh@,
                uv,
                lv,
                av,
                x,
            ) by {
                let l = label@[x] as int;
                assert(lab[x] == l);
                if creased@[l] {
                    let y = choose|y: int| 0 <= y < n && label@[y] == l && #[trigger] sharp@[y];
                    assert(lab[y] == label@[y]);
                    assert(at_most(PATCH_MERGE_DEGREES, crease_angle(m, mesh@, uv[lv[av[y]]])));
                }
                if sharp_around(m, mesh@, uv, lv, av, x) {
                    let y = choose|y: int|
                        0 <= y < av.len() && lab[y] == lab[x] && at_most(
                            PATCH_MERGE_DEGREES,
                            crease_angle(m, mesh@, uv[lv[#[trigger] av[y]]]),
                        );
                    assert(label@[y] as int == lab[y]);
                    assert(sharp@[y]);
                }
            }
        }
    }
    out
}

/// Decides, for every edge that parts two source patches, whether it belongs to
/// a boundary that creases. The edges of one pair of patches are judged by
/// connected stretch, each by its sharpest angle.
pub fn boundary_component_verdicts<A: Arithmetic>(
    calc: &mut Calc<A>,
    mesh: &Mesh,
    faces: &Vec<u64>,
    uses: &Vec<EdgeUse>,
) -> (r: Vec<bool>)
    requires
        uses_known(mesh@, faces@, use_views(uses@)),
        uses@.len() <= u32::MAX,
    ensures
        r@.len() == uses@.len(),
        forall|m: Reading| #[trigger]
            final(calc).agrees(m) ==> old(calc).agrees(m) && forall|i: int|
                0 <= i < uses@.len() ==> #[trigger] r@[i] == (is_boundary(
                    mesh@,
                    faces@,
                    use_views(uses@)[i],
                ) && creases(m, mesh@, faces@, use_views(uses@), i)),
{
    let ghost uv = use_views(uses@);
    let ghost mv = mesh@;
    let ghost fv = faces@;
    let n: usize = uses.len();
    let mut list: Vec<usize> = Vec::new();
    let mut keys: Vec<(u64, u64)> = Vec::new();
    let mut out: Vec<bool> = Vec::new();
    let mut i: usize = 0;
    while i < n
        invariant
            uv == use_views(uses@),
            mv == mesh@,
            fv == faces@,
            uses_known(mv, fv, uv),
            n == uses@.len(),
            i <= n,
            place_list(list@) =~= boundaries(mv, fv, uv, i as int),
            keys@ =~= pair_keys(fv, uv, place_list(list@)),
            out@.len() == i,
            forall|k: int| 0 <= k < i ==> #[trigger] out@[k] == false,
        decreases n - i,
    {
        assert(uv[i as int] == uses@[i as int]@);
        let ghost had = place_list(list@);
        assert forall|k: int| 0 <= k < uses@[i as int].local@.len() implies #[trigger] uses@[i as int].local@[k]
            < fv.len() by {
            assert(uv[i as int].local[k] < mv.tris.len());
        }
        if boundary_test(mesh, faces, &uses[i]) {
            let l: u64 = faces[uses[i].local[0] as usize];
            let r: u64 = faces[uses[i].local[1] as usize];
            list.push(i);
            assert(place_list(list@) =~= had.push(i as int));
            keys.push(
                if l <= r {
                    (l, r)
                } else {
                    (r, l)
                },
            );
        }
        out.push(false);
        i = i + 1;
    }
    let ghost lv = place_list(list@);
    let ghost kv = keys@;
    proof {
        lemma_boundaries(mv, fv, uv, n as int);
    }
    let found = group_by_key(&keys);
    let mut g: usize = 0;
    while g < found.len()
        invariant
            uv == use_views(uses@),
            mv == mesh@,
            fv == faces@,
            uses_known(mv, fv, uv),
            n == uses@.len(),
            n <= u32::MAX,
            lv == place_list(list@),
            lv == boundaries(mv, fv, uv, n as int),
            kv == pair_keys(fv, uv, lv),
            is_grouping(kv, found@),
            g <= found@.len(),
            out@.len() == n,
            forall|i: int| 0 <= i < n && !is_boundary(mv, fv, uv[i]) ==> #[trigger] out@[i] == false,
            forall|i: int|
                0 <= i < n && is_boundary(mv, fv, uv[i]) && !seen_pair(found@, g as int, patch_pair(fv, uv[i]))
                    ==> #[trigger] out@[i] == false,
            forall|m: Reading| #[trigger]
                calc.agrees(m) ==> old(calc).agrees(m) && forall|i: int|
                    0 <= i < n && is_boundary(mv, fv, uv[i]) && seen_pair(
                        found@,
                        g as int,
                        patch_pair(fv, uv[i]),
                    ) ==> #[trigger] out@[i] == creases(m, mv, fv, uv, i),
        decreases found.len() - g,
    {
        let ghost key = found@[g as int].key;
        let ghost av = places(kv, key, kv.len() as int);
        let at = &found[g].at;
        proof {
            lemma_boundaries(mv, fv, uv, n as int);
            lemma_places(kv, key, kv.len() as int);
            assert(place_list(at@) == av);
            assert forall|x: int| 0 <= x < at@.len() implies (#[trigger] at@[x]) < list@.len()
                && list@[at@[x] as int] < uses@.len() && uses@[list@[at@[x] as int] as int].local@.len()
                == 2 by {
                assert(av[x] == at@[x]);
                let b = lv[av[x]];
                assert(b == list@[at@[x] as int]);
                assert(is_boundary(mv, fv, uv[b]));
                assert(uv[b] == uses@[b]@);
            }
        }
        let verdicts = judge_pair(calc, mesh, uses, &list, at);
        let ghost before = out@;
        let mut x: usize = 0;
        while x < at.len()
            invariant
                av == place_list(at@),
                lv == place_list(list@),
                out@.len() == n,
                before.len() == n,
                verdicts@.len() == at@.len(),
                forall|x: int|
                    0 <= x < at@.len() ==> (#[trigger] at@[x]) < list@.len() && list@[at@[x] as int]
                        < n,
                forall|a: int, b: int|
                    #![trigger av[a], av[b]]
                    0 <= a < b < av.len() ==> av[a] < av[b],
                forall|a: int, b: int|
                    #![trigger lv[a], lv[b]]
                    0 <= a < b < lv.len() ==> lv[a] < lv[b],
                x <= at@.len(),
                forall|y: int| 0 <= y < x ==> out@[lv[#[trigger] av[y]]] == verdicts@[y],
                forall|i: int|
                    0 <= i < n && (forall|y: int| 0 <= y < av.len() ==> lv[#[trigger] av[y]] != i)
                        ==> #[trigger] out@[i] == before[i],
            decreases at.len() - x,
        {
            assert(at@[x as int] < list@.len());
            let i: usize = list[at[x]];
            assert(lv[av[x as int]] == i);
            let ghost had = out@;
            out.set(i, verdicts[x]);
            proof {
                assert forall|y: int| 0 <= y < x + 1 implies out@[lv[#[trigger] av[y]]]
                    == verdicts@[y] by {
                    if y < x {
                        assert(av[y] < av[x as int]);
                        assert(at@[y] < list@.len());
                        assert(lv[av[y]] < lv[av[x as int]]);
                        assert(had[lv[av[y]]] == verdicts@[y]);
                    }
                }
            }
            x = x + 1;
        }
        proof {
            assert forall|i: int| 0 <= i < n && is_boundary(mv, fv, uv[i]) implies (seen_pair(
                found@,
                g + 1,
                patch_pair(fv, uv[i]),
            ) <==> seen_pair(found@, g as int, patch_pair(fv, uv[i])) || patch_pair(fv, uv[i])
                == key) by {
                let pk = patch_pair(fv, uv[i]);
                if seen_pair(found@, g + 1, pk) {
                    let h = choose|h: int| 0 <= h < g + 1 && (#[trigger] found@[h]).key == pk;
                    if h < g {
                        assert(seen_pair(found@, g as int, pk));
                    }
                }
                if seen_pair(found@, g as int, pk) {
                    let h = choose|h: int| 0 <= h < g && (#[trigger] found@[h]).key == pk;
                    assert(found@[h].key == pk);
                }
                if pk == key {
                    assert(found@[g as int].key == pk);
                }
            }
            // An edge of this pair is among the judged; any other keeps its answer.
            assert forall|i: int| 0 <= i < n implies (#[trigger] out@[i] == before[i]) || (is_boundary(
                mv,
                fv,
                uv[i],
            ) && patch_pair(fv, uv[i]) == key) by {
                if exists|y: int| 0 <= y < av.len() && lv[#[trigger] av[y]] == i {
                    let y = choose|y: int| 0 <= y < av.len() && lv[#[trigger] av[y]] == i;
                    assert(kv[av[y]] == key);
                    assert(is_boundary(mv, fv, uv[lv[av[y]]]));
                } else {
                    assert(out@[i] == before[i]);
                }
            }
            assert forall|i: int|
                0 <= i < n && is_boundary(mv, fv, uv[i]) && patch_pair(fv, uv[i]) != key implies
                #[trigger] out@[i] == before[i] by {
                assert((out@[i] == before[i]) || (is_boundary(mv, fv, uv[i]) && patch_pair(fv, uv[i]) == key));
            }
            assert forall|m: Reading| #[trigger] calc.agrees(m) implies forall|i: int|
                0 <= i < n && is_boundary(mv, fv, uv[i]) && seen_pair(
                    found@,
                    g + 1,
                    patch_pair(fv, uv[i]),
                ) ==> #[trigger] out@[i] == creases(m, mv, fv, uv, i) by {
                assert forall|i: int|
                    0 <= i < n && is_boundary(mv, fv, uv[i]) && seen_pair(
                        found@,
                        g + 1,
                        patch_pair(fv, uv[i]),
                    ) implies #[trigger] out@[i] == creases(m, mv, fv, uv, i) by {
                    if patch_pair(fv, uv[i]) == key {
                        assert(lv.contains(i));
                        let k = choose|k: int| 0 <= k < lv.len() && lv[k] == i;
                        assert(kv[k] == key);
                        assert(av.contains(k));
                        let x = choose|x: int| 0 <= x < av.len() && av[x] == k;
                        assert(out@[lv[av[x]]] == verdicts@[x]);
                        assert(verdicts@[x] == sharp_around(m, mv, uv, lv, av, x));
                        if creases(m, mv, fv, uv, i) {
                            let z = choose|z: int|
                                0 <= z < av.len() && lv[#[trigger] av[z]] == i && sharp_around(
                                    m,
                                    mv,
                                    uv,
                                    lv,
                                    av,
                                    z,
                                );
                            if z < x {
                                assert(av[z] < av[x]);
                                assert(lv[av[z]] < lv[av[x]]);
                            }
                            if x < z {
                                assert(av[x] < av[z]);
                                assert(lv[av[x]] < lv[av[z]]);
                            }
                        }
                    } else {
                        assert(out@[i] == before[i]);
                        assert(seen_pair(found@, g as int, patch_pair(fv, uv[i])));
                    }
                }
            }
        }
        g = g + 1;
    }
    proof {
        assert forall|i: int| 0 <= i < n && is_boundary(mv, fv, uv[i]) implies seen_pair(
            found@,
            found@.len() as int,
            #[trigger] patch_pair(fv, uv[i]),
        ) by {
            assert(lv.contains(i));
            let k = choose|k: int| 0 <= k < lv.len() && lv[k] == i;
            assert(crate::grouping::has_group(found@, kv[k]));
        }
    }
    out
}

/// One of the first `n` groups has the key.
spec fn seen_pair(found: Seq<Group>, n: int, k: (u64, u64)) -> bool {
    exists|h: int| 0 <= h < n && (#[trigger] found[h]).key == k
}

// ---- feature edges ----------------------------------------------------------------------------

/// The edge is one that a drawing of the selection shows: it has a length, and
/// it is not shared by exactly two triangles, or its boundary creases, or, for
/// triangles without source patches, it is sharp itself.
pub open spec fn is_feature(
    m: Reading,
    mesh: MeshView,
    faces: Seq<u64>,
    uses: Seq<UseView>,
    i: int,
) -> bool {
    let u = uses[i];
    has_length(mesh, u.edge) && (u.local.len() != 2 || if classified(faces, u) {
        is_boundary(mesh, faces, u) && creases(m, mesh, faces, uses, i)
    } else {
        at_most(RAW_CREASE_DEGREES, crease_angle(m, mesh, u))
    })
}

/// The lower end of an edge by place.
pub open spec fn low_end(mesh: MeshView, e: Edge) -> Point3 {
    let p = canonical_point(mesh.verts[e.a as int]);
    let q = canonical_point(mesh.verts[e.b as int]);
    if point_le(p, q) {
        p
    } else {
        q
    }
}

/// The higher end of an edge by place.
pub open spec fn high_end(mesh: MeshView, e: Edge) -> Point3 {
    let p = canonical_point(mesh.verts[e.a as int]);
    let q = canonical_point(mesh.verts[e.b as int]);
    if point_le(p, q) {
        q
    } else {
        p
    }
}

/// Two edges stand at the same place.
pub open spec fn same_place(mesh: MeshView, e: Edge, f: Edge) -> bool {
    low_end(mesh, e) == low_end(mesh, f) && high_end(mesh, e) == high_end(mesh, f)
}

pub open spec fn point_before(p: Point3, q: Point3) -> bool {
    point_le(p, q) && p != q
}

/// An edge stands before another, by the places of their ends.
pub open spec fn edge_before(mesh: MeshView, e: Edge, f: Edge) -> bool {
    point_before(low_end(mesh, e), low_end(mesh, f)) || (low_end(mesh, e) == low_end(mesh, f)
        && point_before(high_end(mesh, e), high_end(mesh, f)))
}

/// `e` is the first feature edge at its place.
pub open spec fn first_feature(
    m: Reading,
    mesh: MeshView,
    faces: Seq<u64>,
    uses: Seq<UseView>,
    e: Edge,
) -> bool {
    exists|i: int|
        0 <= i < uses.len() && (#[trigger] uses[i]).edge == e && is_feature(m, mesh, faces, uses, i)
            && forall|j: int|
            0 <= j < i && is_feature(m, mesh, faces, uses, j) ==> !same_place(
                mesh,
                (#[trigger] uses[j]).edge,
                e,
            )
}

/// Some listed edge stands where `e` does.
pub open spec fn place_listed(mesh: MeshView, r: Seq<Edge>, e: Edge) -> bool {
    exists|k: int| 0 <= k < r.len() && same_place(mesh, #[trigger] r[k], e)
}

/// `r` lists the feature edges by place, each place once.
pub open spec fn are_features(
    m: Reading,
    mesh: MeshView,
    faces: Seq<u64>,
    uses: Seq<UseView>,
    r: Seq<Edge>,
) -> bool {
    &&& forall|a: int, b: int|
        #![trigger r[a], r[b]]
        0 <= a < b < r.len() ==> edge_before(mesh, r[a], r[b])
    &&& forall|k: int| 0 <= k < r.len() ==> first_feature(m, mesh, faces, uses, #[trigger] r[k])
    &&& forall|i: int|
        0 <= i < uses.len() && is_feature(m, mesh, faces, uses, i) ==> place_listed(
            mesh,
            r,
            (#[trigger] uses[i]).edge,
        )
}

/// `r` lists the feature edges of the listed triangles.
pub open spec fn feature_edges_of(
    m: Reading,
    mesh: MeshView,
    faces: Seq<u64>,
    list: Seq<u32>,
    r: Seq<Edge>,
) -> bool {
    exists|uses: Seq<UseView>| #[trigger]
        are_uses(mesh.tris, list, uses) && are_features(m, mesh, faces, uses, r)
}

struct Placed {
    low: Point3,
    high: Point3,
    at: usize,
}

spec fn placed_before(a: Placed, b: Placed) -> bool {
    point_before(a.low, b.low) || (a.low == b.low && point_before(a.high, b.high))
}

impl Ranked for Placed {
    closed spec fn rank_le(&self, other: &Self) -> bool {
        placed_before(*self, *other) || (self.low == other.low && self.high == other.high && self.at
            <= other.at)
    }

    proof fn rank_total(a: &Self, b: &Self) {
    }

    proof fn rank_transitive(a: &Self, b: &Self, c: &Self) {
    }

    fn ranks_before(&self, other: &Self) -> (r: bool) {
        let r: bool = if self.low != other.low {
            self.low.ranks_before(&other.low)
        } else if self.high != other.high {
            self.high.ranks_before(&other.high)
        } else {
            self.at <= other.at
        };
        assert(self.low.rank_le(&other.low) == point_le(self.low, other.low));
        assert(self.high.rank_le(&other.high) == point_le(self.high, other.high));
        assert(self.rank_le(other) == (placed_before(*self, *other) || (self.low == other.low
            && self.high == other.high && self.at <= other.at)));
        r
    }
}

fn place_edge(mesh: &Mesh, e: Edge, at: usize) -> (r: Placed)
    requires
        e.a < mesh@.verts.len(),
        e.b < mesh@.verts.len(),
    ensures
        r.low == low_end(mesh@, e),
        r.high == high_end(mesh@, e),
        r.at == at,
{
    let p = canonical_corner(mesh.verts[e.a as usize]);
    let q = canonical_corner(mesh.verts[e.b as usize]);
    let first: bool = p.ranks_before(&q);
    assert(p.rank_le(&q) == point_le(p, q));
    if first {
        Placed { low: p, high: q, at }
    } else {
        Placed { low: q, high: p, at }
    }
}

/// Whether each use is a feature edge.
fn feature_flags<A: Arithmetic>(
    calc: &mut Calc<A>,
    mesh: &Mesh,
    faces: &Vec<u64>,
    uses: &Vec<EdgeUse>,
) -> (r: Vec<bool>)
    requires
        uses_known(mesh@, faces@, use_views(uses@)),
        uses@.len() <= u32::MAX,
    ensures
        r@.len() == uses@.len(),
        forall|m: Reading| #[trigger]
            final(calc).agrees(m) ==> old(calc).agrees(m) && forall|i: int|
                0 <= i < uses@.len() ==> #[trigger] r@[i] == is_feature(
                    m,
                    mesh@,
                    faces@,
                    use_views(uses@),
                    i,
                ),
{
    let verdicts = boundary_component_verdicts(calc, mesh, faces, uses);
    let ghost uv = use_views(uses@);
    let ghost mv = mesh@;
    let ghost fv = faces@;
    let n: usize = uses.len();
    let mut out: Vec<bool> = Vec::new();
    let mut i: usize = 0;
    while i < n
        invariant
            uv == use_views(uses@),
            mv == mesh@,
            fv == faces@,
            uses_known(mv, fv, uv),
            n == uses@.len(),
            verdicts@.len() == n,
            i <= n,
            out@.len() == i,
            forall|m: Reading| #[trigger]
                calc.agrees(m) ==> old(calc).agrees(m) && (forall|i: int|
                    0 <= i < n ==> #[trigger] verdicts@[i] == (is_boundary(mv, fv, uv[i])
                        && creases(m, mv, fv, uv, i))) && (forall|k: int|
                    0 <= k < i ==> #[trigger] out@[k] == is_feature(m, mv, fv, uv, k)),
        decreases n - i,
    {
        let u = &uses[i];
        assert(uv[i as int] == u@);
        let shown: bool = if !test_length(mesh, u.edge) {
            false
        } else if u.local.len() != 2 {
            true
        } else {
            assert(uv[i as int].local[0] < mv.tris.len());
            assert(uv[i as int].local[1] < mv.tris.len());
            let l: usize = u.local[0] as usize;
            let r: usize = u.local[1] as usize;
            if faces[l] != UNCLASSIFIED_PATCH_ID && faces[r] != UNCLASSIFIED_PATCH_ID {
                verdicts[i]
            } else {
                let angle: u64 = dihedral_degrees(calc, mesh, l, r);
                is_at_most(RAW_CREASE_DEGREES, angle)
            }
        };
        let ghost before = out@;
        out.push(shown);
        proof {
            assert forall|m: Reading| #[trigger] calc.agrees(m) implies forall|k: int|
                0 <= k < i + 1 ==> #[trigger] out@[k] == is_feature(m, mv, fv, uv, k) by {
                assert(verdicts@[i as int] == (is_boundary(mv, fv, uv[i as int]) && creases(
                    m,
                    mv,
                    fv,
                    uv,
                    i as int,
                )));
                assert forall|k: int| 0 <= k < i + 1 implies #[trigger] out@[k] == is_feature(
                    m,
                    mv,
                    fv,
                    uv,
                    k,
                ) by {
                    if k < i {
                        assert(out@[k] == before[k]);
                    }
                }
            }
        }
        i = i + 1;
    }
    out
}

/// Puts the flagged edges in order by place, the first of each place only.
fn arrange_edges(mesh: &Mesh, uses: &Vec<EdgeUse>, flags: &Vec<bool>) -> (r: Vec<Edge>)
    requires
        uses_fit(mesh@, use_views(uses@)),
        flags@.len() == uses@.len(),
    ensures
        forall|a: int, b: int|
            #![trigger r@[a], r@[b]]
            0 <= a < b < r@.len() ==> edge_before(mesh@, r@[a], r@[b]),
        forall|k: int|
            0 <= k < r@.len() ==> flagged_first(mesh@, use_views(uses@), flags@, #[trigger] r@[k]),
        forall|i: int|
            0 <= i < uses@.len() && #[trigger] flags@[i] ==> place_listed(
                mesh@,
                r@,
                use_views(uses@)[i].edge,
            ),
{
    let ghost uv = use_views(uses@);
    let ghost mv = mesh@;
    let n: usize = uses.len();
    let mut placed: Vec<Placed> = Vec::new();
    let mut i: usize = 0;
    while i < n
        invariant
            uv == use_views(uses@),
            mv == mesh@,
            uses_fit(mv, uv),
            n == uses@.len(),
            flags@.len() == n,
            i <= n,
            forall|k: int| 0 <= k < placed@.len() ==> is_placed(mv, uv, flags@, #[trigger] placed@[k]),
            forall|j: int| 0 <= j < i && #[trigger] flags@[j] ==> holds_at(placed@, j),
        decreases n - i,
    {
        if flags[i] {
            assert(uv[i as int] == uses@[i as int]@);
            let ghost before = placed@;
            placed.push(place_edge(mesh, uses[i].edge, i));
            proof {
                assert forall|j: int| 0 <= j < i + 1 && #[trigger] flags@[j] implies holds_at(
                    placed@,
                    j,
                ) by {
                    if j < i {
                        let k = choose|k: int| 0 <= k < before.len() && (#[trigger] before[k]).at == j;
                        assert(placed@[k].at == j);
                    } else {
                        assert(placed@[before.len() as int].at == j);
                    }
                }
            }
        }
        i = i + 1;
    }
    let ghost raw = placed@;
    let order = sorted(placed);
    let ghost ov = order@;
    proof {
        raw.to_multiset_ensures();
        ov.to_multiset_ensures();
        assert forall|k: int| 0 <= k < ov.len() implies is_placed(
            mv,
            uv,
            flags@,
            #[trigger] ov[k],
        ) by {
            assert(ov.to_multiset().count(ov[k]) > 0);
            assert(raw.contains(ov[k]));
            let j = choose|j: int| 0 <= j < raw.len() && raw[j] == ov[k];
            assert(is_placed(mv, uv, flags@, raw[j]));
        }
        assert forall|j: int| 0 <= j < n && #[trigger] flags@[j] implies holds_at(ov, j) by {
            assert(holds_at(raw, j));
            let k = choose|k: int| 0 <= k < raw.len() && (#[trigger] raw[k]).at == j;
            assert(raw.contains(raw[k]));
            assert(raw.to_multiset().count(raw[k]) > 0);
            assert(ov.contains(raw[k]));
            let x = choose|x: int| 0 <= x < ov.len() && ov[x] == raw[k];
            assert(ov[x].at == j);
        }
        assert forall|a: int, b: int|
            #![trigger ov[a], ov[b]]
            0 <= a < b < ov.len() implies placed_before(ov[a], ov[b]) || (ov[a].low == ov[b].low
            && ov[a].high == ov[b].high && ov[a].at <= ov[b].at) by {
            assert(ov[a].rank_le(&ov[b]));
        }
    }
    let mut out: Vec<Edge> = Vec::new();
    let mut k: usize = 0;
    while k < order.len()
        invariant
            uv == use_views(uses@),
            mv == mesh@,
            n == uses@.len(),
            flags@.len() == n,
            ov == order@,
            k <= ov.len(),
            forall|k: int| 0 <= k < ov.len() ==> is_placed(mv, uv, flags@, #[trigger] ov[k]),
            forall|j: int| 0 <= j < n && #[trigger] flags@[j] ==> holds_at(ov, j),
            forall|a: int, b: int|
                #![trigger ov[a], ov[b]]
                0 <= a < b < ov.len() ==> placed_before(ov[a], ov[b]) || (ov[a].low == ov[b].low
                    && ov[a].high == ov[b].high && ov[a].at <= ov[b].at),
            k == 0 <==> out@.len() == 0,
            k > 0 ==> low_end(mv, out@.last()) == ov[k - 1].low && high_end(mv, out@.last())
                == ov[k - 1].high,
            forall|a: int, b: int|
                #![trigger out@[a], out@[b]]
                0 <= a < b < out@.len() ==> edge_before(mv, out@[a], out@[b]),
            forall|a: int|
                0 <= a < out@.len() ==> flagged_first(mv, uv, flags@, #[trigger] out@[a]),
            forall|a: int|
                0 <= a < k ==> place_listed(mv, out@, uv[(#[trigger] ov[a]).at as int].edge),
        decreases order.len() - k,
    {
        let ghost p = ov[k as int];
        assert(is_placed(mv, uv, flags@, ov[k as int]));
        let at: usize = order[k].at;
        let e = uses[at].edge;
        assert(uv[at as int].edge == e);
        let ghost before = out@;
        let fresh: bool = if k == 0 {
            true
        } else {
            order[k - 1].low != order[k].low || order[k - 1].high != order[k].high
        };
        if fresh {
            out.push(e);
            proof {
                assert(flagged_first(mv, uv, flags@, e)) by {
                    assert forall|j: int| 0 <= j < at && #[trigger] flags@[j] implies !same_place(
                        mv,
                        uv[j].edge,
                        e,
                    ) by {
                        if same_place(mv, uv[j].edge, e) {
                            assert(holds_at(ov, j));
                            let x = choose|x: int| 0 <= x < ov.len() && (#[trigger] ov[x]).at == j;
                            assert(is_placed(mv, uv, flags@, ov[x]));
                            if x < k {
                                if x < k - 1 {
                                    assert(placed_before(ov[x], ov[k - 1]) || (ov[x].low
                                        == ov[k - 1].low && ov[x].high == ov[k - 1].high));
                                }
                                assert(placed_before(ov[k - 1], ov[k as int]));
                            } else if x > k {
                                assert(placed_before(ov[k as int], ov[x]) || (ov[k as int].low
                                    == ov[x].low && ov[k as int].high == ov[x].high
                                    && ov[k as int].at <= ov[x].at));
                            }
                        }
                    }
                    assert(uv[at as int].edge == e);
                }
                assert forall|a: int, b: int|
                    #![trigger out@[a], out@[b]]
                    0 <= a < b < out@.len() implies edge_before(mv, out@[a], out@[b]) by {
                    if b == before.len() {
                        assert(placed_before(ov[k - 1], ov[k as int]));
                        if a < before.len() - 1 {
                            assert(edge_before(mv, before[a], before[before.len() - 1]));
                        }
                    } else {
                        assert(edge_before(mv, before[a], before[b]));
                    }
                }
            }
        }
        proof {
            assert forall|a: int| 0 <= a < k + 1 implies place_listed(
                mv,
                out@,
                uv[(#[trigger] ov[a]).at as int].edge,
            ) by {
                if a < k {
                    let q = uv[ov[a].at as int].edge;
                    assert(place_listed(mv, before, q));
                    let x = choose|x: int| 0 <= x < before.len() && same_place(
                        mv,
                        #[trigger] before[x],
                        q,
                    );
                    assert(out@[x] == before[x]);
                } else {
                    assert(same_place(mv, out@[out@.len() - 1], e));
                }
            }
        }
        k = k + 1;
    }
    proof {
        assert forall|i: int| 0 <= i < uses@.len() && #[trigger] flags@[i] implies place_listed(
            mv,
            out@,
            uv[i].edge,
        ) by {
            assert(holds_at(ov, i));
            let x = choose|x: int| 0 <= x < ov.len() && (#[trigger] ov[x]).at == i;
            assert(place_listed(mv, out@, uv[ov[x].at as int].edge));
        }
    }
    out
}

spec fn is_placed(mesh: MeshView, uses: Seq<UseView>, flags: Seq<bool>, p: Placed) -> bool {
    &&& p.at < uses.len()
    &&& flags[p.at as int]
    &&& p.low == low_end(mesh, uses[p.at as int].edge)
    &&& p.high == high_end(mesh, uses[p.at as int].edge)
}

spec fn holds_at(placed: Seq<Placed>, j: int) -> bool {
    exists|k: int| 0 <= k < placed.len() && (#[trigger] placed[k]).at == j
}

spec fn flagged_first(mesh: MeshView, uses: Seq<UseView>, flags: Seq<bool>, e: Edge) -> bool {
    exists|i: int|
        0 <= i < uses.len() && (#[trigger] uses[i]).edge == e && flags[i] && forall|j: int|
            0 <= j < i && #[trigger] flags[j] ==> !same_place(mesh, uses[j].edge, e)
}

/// The feature edges of the listed triangles, by place.
pub fn feature_edges<A: Arithmetic>(
    calc: &mut Calc<A>,
    mesh: &Mesh,
    faces: &Vec<u64>,
    list: &Vec<u32>,
) -> (r: Vec<Edge>)
    requires
        mesh@.indexed(),
        faces@.len() == mesh@.tris.len(),
        listed(mesh.tris@, list@),
        3 * list@.len() <= u32::MAX,
    ensures
        forall|k: int|
            0 <= k < r@.len() ==> (#[trigger] r@[k]).a < mesh@.verts.len() && r@[k].b
                < mesh@.verts.len(),
        forall|m: Reading| #[trigger]
            final(calc).agrees(m) ==> old(calc).agrees(m) && feature_edges_of(
                m,
                mesh@,
                faces@,
                list@,
                r@,
            ),
{
    let uses = edge_uses(mesh, list);
    let ghost uv = use_views(uses@);
    let ghost mv = mesh@;
    let ghost fv = faces@;
    proof {
        lemma_use_count(mesh.tris@, list@, uv);
    }
    let flags = feature_flags(calc, mesh, faces, &uses);
    let r = arrange_edges(mesh, &uses, &flags);
    proof {
        assert forall|k: int| 0 <= k < r@.len() implies (#[trigger] r@[k]).a < mv.verts.len()
            && r@[k].b < mv.verts.len() by {
            assert(flagged_first(mv, uv, flags@, r@[k]));
            let i = choose|i: int|
                0 <= i < uv.len() && (#[trigger] uv[i]).edge == r@[k] && flags@[i] && forall|j: int|
                    0 <= j < i && #[trigger] flags@[j] ==> !same_place(mv, uv[j].edge, r@[k]);
            assert(uv[i].edge.a < mv.verts.len());
        }
        assert forall|m: Reading| #[trigger] calc.agrees(m) implies feature_edges_of(
            m,
            mv,
            fv,
            list@,
            r@,
        ) by {
            assert forall|k: int| 0 <= k < r@.len() implies first_feature(
                m,
                mv,
                fv,
                uv,
                #[trigger] r@[k],
            ) by {
                let e = r@[k];
                assert(flagged_first(mv, uv, flags@, e));
                let i = choose|i: int|
                    0 <= i < uv.len() && (#[trigger] uv[i]).edge == e && flags@[i] && forall|j: int|
                        0 <= j < i && #[trigger] flags@[j] ==> !same_place(mv, uv[j].edge, e);
                assert(flags@[i] == is_feature(m, mv, fv, uv, i));
                assert forall|j: int| 0 <= j < i && is_feature(m, mv, fv, uv, j) implies !same_place(
                    mv,
                    (#[trigger] uv[j]).edge,
                    e,
                ) by {
                    assert(flags@[j] == is_feature(m, mv, fv, uv, j));
                }
            }
            assert forall|i: int| 0 <= i < uv.len() && is_feature(m, mv, fv, uv, i) implies place_listed(
                mv,
                r@,
                (#[trigger] uv[i]).edge,
            ) by {
                assert(flags@[i] == is_feature(m, mv, fv, uv, i));
            }
            assert(are_uses(mv.tris, list@, uv) && are_features(m, mv, fv, uv, r@));
        }
    }
    r
}

proof fn lemma_use_count(tris: Seq<Triangle>, list: Seq<u32>, uses: Seq<UseView>)
    requires
        are_uses(tris, list, uses),
    ensures
        uses.len() <= 3 * list.len(),
{
    // Each use has a first place of its own.
    let keys = edge_keys(tris, list);
    let first = Seq::new(
        uses.len(),
        |i: int| places(keys, edge_key(uses[i].edge), keys.len() as int)[0],
    );
    assert forall|i: int| 0 <= i < first.len() implies 0 <= (#[trigger] first[i]) < keys.len()
        && keys[first[i]] == edge_key(uses[i].edge) by {
        lemma_places(keys, edge_key(uses[i].edge), keys.len() as int);
        let at = places(keys, edge_key(uses[i].edge), keys.len() as int);
        assert(uses[i].local.len() > 0);
        assert(uses[i].local == triangles_at(list, at));
        assert(at.len() > 0);
    }
    assert(first.no_duplicates()) by {
        assert forall|i: int, j: int| 0 <= i < first.len() && 0 <= j < first.len() && i != j implies
            first[i] != first[j] by {
            if first[i] == first[j] {
                assert(edge_key(uses[i].edge) == edge_key(uses[j].edge));
                if i < j {
                    assert(key_less(edge_key(uses[i].edge), edge_key(uses[j].edge)));
                } else {
                    assert(key_less(edge_key(uses[j].edge), edge_key(uses[i].edge)));
                }
            }
        }
    }
    first.unique_seq_to_set();
    let range = vstd::set_lib::set_int_range(0, keys.len() as int);
    vstd::set_lib::lemma_int_range(0, keys.len() as int);
    assert(first.to_set().subset_of(range)) by {
        assert forall|x: int| first.to_set().contains(x) implies range.contains(x) by {
            assert(first.contains(x));
        }
    }
    vstd::set_lib::lemma_len_subset(first.to_set(), range);
}

} // verus!
