//! A scene as the model part of a 3MF package: one object for each solid.

use crate::blob::texts;
use crate::canonical::{canonical_triangles, is_canonical, Turned};
use crate::components::{groups, labels, listed};
use crate::edges::{are_uses, edge_uses, use_views, uses_fit, Edge, EdgeUse, UseView};
use crate::error::{misfit, GeomError, GeomFault};
use crate::glb::{
    arrange_colors, attribution_text, color_number, color_place, corners_only, fit_for_export,
    is_glb, serialize_glb, too_long, validate_finite, write_fault, Export3DOptions,
};
use crate::mesh::{Mesh, MeshView, Point3, Triangle};
use crate::names::{
    humanize_identifier, humanized, name_sources, number_names, numbered_names, safe_source_keys,
};
use crate::num::{Arithmetic, Calc, Reading, TextOp, ONE};
use crate::palette::{hex_color, materials, materials_of, rgba_hex, Color, MaterialKey};
use crate::pipeline::ExportFormat3D;
use crate::provenance::{
    authored, authored_path, copy_path, is_common_prefix, longest_common_prefix, path, paths,
    strictly_ascending, FrameView, ProvenanceFrame,
};
use crate::provtext::{ordered_paths_json, ordered_paths_text, sources_json, sources_text};
use crate::relation::AttributedView;
use crate::solid::{
    all_triangles, attributed, lemma_members_listed, partition_fault, partitioned, selects, solids,
    surface_of, MeshSelection, StructuredMesh,
};
use crate::surfaces::{
    arrange_paths, stands_for, surface_views, AttributionStatus, SurfaceAttribution, SurfaceView,
};
use crate::text::{chars_of, concat2, decimal, decimal_text, integer, integer_text};
use crate::vector::{canonical, canonical_zero};
use std::collections::HashMap;
use vstd::prelude::*;
use vstd::set_lib::{lemma_int_range, lemma_len_subset, set_int_range};

verus! {

broadcast use vstd::std_specs::hash::group_hash_axioms;

// ---- closed solids ------------------------------------------------------------------------

/// Two corners are the same vertex.
pub open spec fn degenerate(t: Triangle) -> bool {
    t.a == t.b || t.b == t.c || t.c == t.a
}

/// The sense in which a triangle runs along an edge.
pub open spec fn sense(t: Triangle, e: Edge) -> int {
    if (t.a == e.a && t.b == e.b) || (t.b == e.a && t.c == e.b) || (t.c == e.a && t.a == e.b) {
        1
    } else {
        -1
    }
}

/// The sum of the senses in which the first `n` triangles run along the edge.
pub open spec fn balance(tris: Seq<Triangle>, u: UseView, n: int) -> int
    decreases n,
{
    if n <= 0 {
        0
    } else {
        balance(tris, u, n - 1) + sense(tris[u.local[n - 1] as int], u.edge)
    }
}

/// The edge joins two triangles that run along it in opposite senses.
pub open spec fn is_closed(tris: Seq<Triangle>, u: UseView) -> bool {
    u.local.len() == 2 && balance(tris, u, u.local.len() as int) == 0
}

/// What is said of an edge that is not closed.
pub open spec fn open_edge_text(tris: Seq<Triangle>, u: UseView) -> Seq<char> {
    "3MF object edge "@ + decimal_text(u.edge.a as nat) + "-"@ + decimal_text(u.edge.b as nat)
        + " has "@ + decimal_text(u.local.len()) + " incident triangles and orientation balance "@
        + integer_text(balance(tris, u, u.local.len() as int))
}

/// Some listed triangle is degenerate.
pub open spec fn any_degenerate(tris: Seq<Triangle>, list: Seq<u32>) -> bool {
    exists|i: int| 0 <= i < list.len() && degenerate(tris[#[trigger] list[i] as int])
}

/// The first edge that is not closed is the `i`-th.
pub open spec fn first_open(tris: Seq<Triangle>, uses: Seq<UseView>, i: int) -> bool {
    &&& 0 <= i < uses.len()
    &&& !is_closed(tris, uses[i])
    &&& forall|j: int| 0 <= j < i ==> is_closed(tris, #[trigger] uses[j])
}

/// Every edge is closed.
pub open spec fn all_closed(tris: Seq<Triangle>, uses: Seq<UseView>) -> bool {
    forall|j: int| 0 <= j < uses.len() ==> is_closed(tris, #[trigger] uses[j])
}

/// The listed triangles form a closed surface.
pub open spec fn closed_surface(tris: Seq<Triangle>, list: Seq<u32>) -> bool {
    !any_degenerate(tris, list) && exists|uses: Seq<UseView>| #[trigger]
        are_uses(tris, list, uses) && all_closed(tris, uses)
}

/// Why the listed triangles do not form a closed surface.
pub open spec fn open_fault(tris: Seq<Triangle>, list: Seq<u32>, f: GeomFault) -> bool {
    if any_degenerate(tris, list) {
        f == GeomFault::NonManifold("3MF object contains a degenerate triangle"@)
    } else {
        exists|uses: Seq<UseView>, i: int|
            are_uses(tris, list, uses) && #[trigger] first_open(tris, uses, i) && f
                == GeomFault::NonManifold(open_edge_text(tris, uses[i]))
    }
}

fn sense_of(t: Triangle, e: Edge) -> (r: i64)
    ensures
        r == sense(t, e),
{
    if (t.a == e.a && t.b == e.b) || (t.b == e.a && t.c == e.b) || (t.c == e.a && t.a == e.b) {
        1
    } else {
        -1
    }
}

fn balance_of(mesh: &Mesh, u: &EdgeUse) -> (r: i64)
    requires
        u.local@.len() <= 0x7fff_ffff_ffff_ffff,
        forall|k: int| 0 <= k < u.local@.len() ==> #[trigger] u.local@[k] < mesh.tris@.len(),
    ensures
        r == balance(mesh.tris@, u@, u.local@.len() as int),
{
    let mut sum: i64 = 0;
    let mut i: usize = 0;
    while i < u.local.len()
        invariant
            u.local@.len() <= 0x7fff_ffff_ffff_ffff,
            forall|k: int| 0 <= k < u.local@.len() ==> #[trigger] u.local@[k] < mesh.tris@.len(),
            i <= u.local@.len(),
            sum == balance(mesh.tris@, u@, i as int),
            -(i as int) <= sum <= i,
        decreases u.local.len() - i,
    {
        assert(u.local@[i as int] < mesh.tris@.len());
        sum = sum + sense_of(mesh.tris[u.local[i] as usize], u.edge);
        i = i + 1;
    }
    sum
}

/// Checks that the listed triangles form a closed surface: none is degenerate,
/// and each edge joins two of them that run along it in opposite senses.
pub fn validate_closed_component(mesh: &Mesh, list: &Vec<u32>) -> (r: Result<(), GeomError>)
    requires
        mesh@.indexed(),
        listed(mesh.tris@, list@),
        3 * list@.len() <= 0x7fff_ffff_ffff_ffff,
    ensures
        match r {
            Ok(_) => closed_surface(mesh.tris@, list@),
            Err(e) => open_fault(mesh.tris@, list@, e@),
        },
{
    let ghost tris = mesh.tris@;
    let mut i: usize = 0;
    while i < list.len()
        invariant
            tris == mesh.tris@,
            listed(tris, list@),
            i <= list@.len(),
            forall|k: int| 0 <= k < i ==> !degenerate(tris[#[trigger] list@[k] as int]),
        decreases list.len() - i,
    {
        assert(list@[i as int] < tris.len());
        let t = mesh.tris[list[i] as usize];
        if t.a == t.b || t.b == t.c || t.c == t.a {
            assert(degenerate(tris[list@[i as int] as int]));
            return Err(
                GeomError::NonManifold("3MF object contains a degenerate triangle".to_owned()),
            );
        }
        i = i + 1;
    }
    assert(!any_degenerate(tris, list@));
    let uses = edge_uses(mesh, list);
    let ghost uv = use_views(uses@);
    let mut j: usize = 0;
    while j < uses.len()
        invariant
            tris == mesh.tris@,
            uv == use_views(uses@),
            !any_degenerate(tris, list@),
            are_uses(tris, list@, uv),
            uses_fit(mesh@, uv),
            3 * list@.len() <= 0x7fff_ffff_ffff_ffff,
            j <= uses@.len(),
            forall|k: int| 0 <= k < j ==> is_closed(tris, #[trigger] uv[k]),
        decreases uses.len() - j,
    {
        let u = &uses[j];
        proof {
            assert(uv[j as int] == u@);
            let keys = crate::edges::edge_keys(tris, list@);
            crate::grouping::lemma_places(
                keys,
                crate::edges::edge_key(u.edge),
                keys.len() as int,
            );
            assert forall|k: int| 0 <= k < u.local@.len() implies #[trigger] u.local@[k]
                < mesh.tris@.len() by {
                assert(uv[j as int].local[k] < mesh@.tris.len());
            }
        }
        let count: usize = u.local.len();
        let sum: i64 = balance_of(mesh, u);
        if count != 2 || sum != 0 {
            let mut s = "3MF object edge ".to_owned();
            let a = decimal(u.edge.a as u64);
            s.append(a.as_str());
            s.append("-");
            let b = decimal(u.edge.b as u64);
            s.append(b.as_str());
            s.append(" has ");
            let n = decimal(count as u64);
            s.append(n.as_str());
            s.append(" incident triangles and orientation balance ");
            let t = integer(sum);
            s.append(t.as_str());
            proof {
                assert(s@ == open_edge_text(tris, uv[j as int]));
                assert(first_open(tris, uv, j as int));
            }
            return Err(GeomError::NonManifold(s));
        }
        j = j + 1;
    }
    assert(all_closed(tris, uv));
    Ok(())
}

// ---- compact components -----------------------------------------------------------------------

/// Adds a vertex that was not seen yet.
pub open spec fn with_vertex(seen: Seq<u32>, v: u32) -> Seq<u32> {
    if seen.contains(v) {
        seen
    } else {
        seen.push(v)
    }
}

/// The vertices of the first `n` triangles, in order of appearance.
pub open spec fn seen_vertices(tris: Seq<Triangle>, n: int) -> Seq<u32>
    decreases n,
{
    if n <= 0 {
        Seq::empty()
    } else {
        with_vertex(
            with_vertex(with_vertex(seen_vertices(tris, n - 1), tris[n - 1].a), tris[n - 1].b),
            tris[n - 1].c,
        )
    }
}

/// A triangle by the places of its corners among the seen vertices.
pub open spec fn renumbered(seen: Seq<u32>, t: Triangle) -> Triangle {
    Triangle {
        a: seen.index_of(t.a) as u32,
        b: seen.index_of(t.b) as u32,
        c: seen.index_of(t.c) as u32,
    }
}

/// A solid with only its own vertices.
#[derive(Debug)]
pub struct Compact {
    pub vertices: Vec<Point3>,
    pub triangles: Vec<Triangle>,
}

/// `r` is the solid of the triangles, its vertices in order of appearance.
pub open spec fn is_compact(mesh: MeshView, tris: Seq<Triangle>, r: Compact) -> bool {
    let seen = seen_vertices(tris, tris.len() as int);
    &&& r.vertices@ == seen.map_values(|v: u32| mesh.verts[v as int])
    &&& r.triangles@ == tris.map_values(|t: Triangle| renumbered(seen, t))
}

/// The map holds the places of the seen vertices.
spec fn places_of(seen: Seq<u32>, m: Map<u32, u32>) -> bool {
    &&& seen.no_duplicates()
    &&& forall|v: u32| #[trigger] m.contains_key(v) <==> seen.contains(v)
    &&& forall|v: u32| #[trigger] m.contains_key(v) ==> m[v] < seen.len() && seen[m[v] as int] == v
}

proof fn lemma_prefix_place(a: Seq<u32>, b: Seq<u32>, v: u32)
    requires
        a.is_prefix_of(b),
        a.contains(v),
        b.no_duplicates(),
    ensures
        b.contains(v),
        b.index_of(v) == a.index_of(v),
        a.no_duplicates(),
{
    let i = a.index_of(v);
    assert(0 <= i < a.len() && a[i] == v);
    assert(b[i] == v);
    let j = b.index_of(v);
    assert(0 <= j < b.len() && b[j] == v);
    assert(a.no_duplicates()) by {
        assert forall|x: int, y: int| 0 <= x < a.len() && 0 <= y < a.len() && x != y implies a[x]
            != a[y] by {
            assert(a[x] == b[x] && a[y] == b[y]);
        }
    }
}

/// There is always a number left for a vertex that was not seen yet.
pub(crate) proof fn lemma_room(seen: Seq<u32>, v: u32)
    requires
        seen.no_duplicates(),
        !seen.contains(v),
    ensures
        seen.len() <= u32::MAX,
{
    let all = seen.push(v);
    let numbers = all.map_values(|x: u32| x as int);
    assert forall|i: int, j: int| 0 <= i < numbers.len() && 0 <= j < numbers.len() && i
        != j implies numbers[i] != numbers[j] by {
        if i < seen.len() && j < seen.len() {
            assert(seen[i] != seen[j]);
        } else if i < seen.len() {
            assert(seen.contains(seen[i]));
        } else {
            assert(seen.contains(seen[j]));
        }
    }
    numbers.unique_seq_to_set();
    let range = set_int_range(0, 0x1_0000_0000);
    lemma_int_range(0, 0x1_0000_0000);
    assert(numbers.to_set().subset_of(range)) by {
        assert forall|x: int| numbers.to_set().contains(x) implies range.contains(x) by {
            let i = choose|i: int| 0 <= i < numbers.len() && numbers[i] == x;
            assert(numbers[i] == all[i] as int);
        }
    }
    lemma_len_subset(numbers.to_set(), range);
}

fn see_vertex(
    mesh: &Mesh,
    known: &mut HashMap<u32, u32>,
    vertices: &mut Vec<Point3>,
    v: u32,
    Ghost(seen): Ghost<Seq<u32>>,
) -> (r: u32)
    requires
        v < mesh@.verts.len(),
        places_of(seen, old(known)@),
        old(vertices)@ == seen.map_values(|v: u32| mesh@.verts[v as int]),
    ensures
        places_of(with_vertex(seen, v), final(known)@),
        final(vertices)@ == with_vertex(seen, v).map_values(|v: u32| mesh@.verts[v as int]),
        r == with_vertex(seen, v).index_of(v),
        seen.is_prefix_of(with_vertex(seen, v)),
        with_vertex(seen, v).contains(v),
{
    let ghost after = with_vertex(seen, v);
    proof {
        crate::surfaces::lemma_push_contains(seen, v, v);
        assert(seen =~= after.subrange(0, seen.len() as int));
    }
    match known.get(&v) {
        Some(at) => {
            let at: u32 = *at;
            proof {
                assert(known@.contains_key(v));
                let j = seen.index_of(v);
                assert(0 <= j < seen.len() && seen[j] == v);
                assert(seen[at as int] == v);
            }
            at
        },
        None => {
            proof {
                assert(!seen.contains(v));
                lemma_room(seen, v);
            }
            let at: u32 = vertices.len() as u32;
            known.insert(v, at);
            vertices.push(mesh.verts[v as usize]);
            proof {
                assert(!seen.contains(v));
                assert forall|w: u32| #[trigger] known@.contains_key(w) <==> after.contains(w) by {
                    crate::surfaces::lemma_push_contains(seen, v, w);
                }
                assert(vertices@ =~= after.map_values(|v: u32| mesh@.verts[v as int]));
                let j = after.index_of(v);
                assert(after[at as int] == v);
                assert(0 <= j < after.len() && after[j] == v);
                assert(after.no_duplicates());
            }
            at
        },
    }
}

/// Gives a solid vertices of its own, numbered in order of appearance.
pub fn compact_component(mesh: &Mesh, tris: &Vec<Triangle>) -> (r: Compact)
    requires
        forall|i: int| 0 <= i < tris@.len() ==> (#[trigger] tris@[i]).within(mesh@.verts.len()),
    ensures
        is_compact(mesh@, tris@, r),
{
    let mut known: HashMap<u32, u32> = HashMap::new();
    let mut vertices: Vec<Point3> = Vec::new();
    let mut triangles: Vec<Triangle> = Vec::new();
    let ghost mv = mesh@;
    assert(vertices@ =~= seen_vertices(tris@, 0).map_values(|v: u32| mv.verts[v as int]));
    let mut i: usize = 0;
    while i < tris.len()
        invariant
            mv == mesh@,
            forall|i: int| 0 <= i < tris@.len() ==> (#[trigger] tris@[i]).within(mv.verts.len()),
            i <= tris@.len(),
            places_of(seen_vertices(tris@, i as int), known@),
            vertices@ == seen_vertices(tris@, i as int).map_values(|v: u32| mv.verts[v as int]),
            triangles@.len() == i,
            forall|k: int|
                0 <= k < i ==> #[trigger] triangles@[k] == renumbered(
                    seen_vertices(tris@, i as int),
                    tris@[k],
                ) && seen_vertices(tris@, i as int).contains(tris@[k].a) && seen_vertices(
                    tris@,
                    i as int,
                ).contains(tris@[k].b) && seen_vertices(tris@, i as int).contains(tris@[k].c),
        decreases tris.len() - i,
    {
        let t = tris[i];
        assert(tris@[i as int].within(mv.verts.len()));
        let ghost s0 = seen_vertices(tris@, i as int);
        let ghost s1 = with_vertex(s0, t.a);
        let ghost s2 = with_vertex(s1, t.b);
        let ghost s3 = with_vertex(s2, t.c);
        let a: u32 = see_vertex(mesh, &mut known, &mut vertices, t.a, Ghost(s0));
        let b: u32 = see_vertex(mesh, &mut known, &mut vertices, t.b, Ghost(s1));
        let c: u32 = see_vertex(mesh, &mut known, &mut vertices, t.c, Ghost(s2));
        let ghost before = triangles@;
        triangles.push(Triangle { a, b, c });
        proof {
            assert(s3 == seen_vertices(tris@, i + 1));
            assert(s1.is_prefix_of(s3)) by {
                assert(s1 =~= s3.subrange(0, s1.len() as int));
            }
            assert(s0.is_prefix_of(s3)) by {
                assert(s0 =~= s3.subrange(0, s0.len() as int));
            }
            lemma_prefix_place(s1, s3, t.a);
            lemma_prefix_place(s2, s3, t.b);
            let next = seen_vertices(tris@, i + 1);
            assert(next == s3);
            assert forall|k: int| 0 <= k < i + 1 implies #[trigger] triangles@[k] == renumbered(
                next,
                tris@[k],
            ) && next.contains(tris@[k].a) && next.contains(tris@[k].b) && next.contains(
                tris@[k].c,
            ) by {
                if k == i {
                    assert(next.contains(t.c));
                    assert(c == next.index_of(t.c));
                }
                if k < i {
                    assert(triangles@[k] == before[k]);
                    lemma_prefix_place(s0, s3, tris@[k].a);
                    lemma_prefix_place(s0, s3, tris@[k].b);
                    lemma_prefix_place(s0, s3, tris@[k].c);
                }
            }
        }
        i = i + 1;
    }
    let ghost seen = seen_vertices(tris@, tris@.len() as int);
    assert(triangles@ =~= tris@.map_values(|t: Triangle| renumbered(seen, t)));
    Compact { vertices, triangles }
}

// ---- XML ------------------------------------------------------------------------------------------

/// How a character stands in XML.
pub open spec fn xml_char(c: char) -> Seq<char> {
    if c == '&' {
        "&amp;"@
    } else if c == '<' {
        "&lt;"@
    } else if c == '>' {
        "&gt;"@
    } else if c == '"' {
        "&quot;"@
    } else if c == '\'' {
        "&apos;"@
    } else {
        seq![c]
    }
}

/// A text as it stands in XML.
pub open spec fn xml_text(s: Seq<char>) -> Seq<char>
    decreases s.len(),
{
    if s.len() == 0 {
        Seq::empty()
    } else {
        xml_text(s.drop_last()) + xml_char(s.last())
    }
}

/// Escapes the characters that XML gives a meaning.
pub fn xml_escape(value: &str) -> (r: String)
    ensures
        r@ == xml_text(value@),
{
    let v = chars_of(value);
    let mut s = String::new();
    assert(v@.take(0) =~= Seq::empty());
    for i in 0..v.len()
        invariant
            v@ == value@,
            s@ == xml_text(v@.take(i as int)),
    {
        let c = v[i];
        proof {
            let t = v@.take(i + 1);
            assert(t.drop_last() =~= v@.take(i as int));
            assert(t.last() == c);
        }
        if c == '&' {
            s.append("&amp;");
        } else if c == '<' {
            s.append("&lt;");
        } else if c == '>' {
            s.append("&gt;");
        } else if c == '"' {
            s.append("&quot;");
        } else if c == '\'' {
            s.append("&apos;");
        } else {
            let ghost before = s@;
            s.push(c);
            assert(s@ =~= before + seq![c]);
        }
    }
    assert(v@.take(v@.len() as int) =~= v@);
    s
}

/// A coordinate as text, without a negative zero.
pub open spec fn coordinate_text(m: Reading, v: u64) -> Seq<char> {
    m.written(TextOp::Plain, canonical(v), 0)
}

/// A coordinate as text, without a negative zero.
pub fn xml_number<A: Arithmetic>(calc: &mut Calc<A>, v: u64) -> (r: String)
    ensures
        forall|m: Reading| #[trigger]
            final(calc).agrees(m) ==> old(calc).agrees(m) && r@ == coordinate_text(m, v),
{
    calc.write(TextOp::Plain, canonical_zero(v), 0)
}

// ---- names of solids ---------------------------------------------------------------------------

/// Some listed triangle's surface stands for the path.
pub open spec fn owns(
    m: AttributedView,
    table: Seq<SurfaceView>,
    list: Seq<u32>,
    p: Seq<FrameView>,
) -> bool {
    exists|i: int|
        0 <= i < list.len() && stands_for(surface_of(m, table, #[trigger] list[i] as int)).contains(p)
}

/// `r` lists the paths that own the listed triangles, in order, each once.
pub open spec fn are_owners(
    m: AttributedView,
    table: Seq<SurfaceView>,
    list: Seq<u32>,
    r: Seq<Seq<FrameView>>,
) -> bool {
    &&& strictly_ascending(r)
    &&& forall|p: Seq<FrameView>| #[trigger] r.contains(p) <==> owns(m, table, list, p)
}

fn push_owners(all: &mut Vec<Vec<ProvenanceFrame>>, surface: &SurfaceAttribution)
    ensures
        forall|p: Seq<FrameView>| #[trigger]
            paths(final(all)@).contains(p) <==> paths(old(all)@).contains(p) || stands_for(
                surface@,
            ).contains(p),
{
    let ghost start = paths(all@);
    if surface.contributors.len() == 0 {
        let own = authored_path(&surface.provenance);
        let ghost ov = path(own@);
        all.push(own);
        proof {
            assert(paths(all@) =~= start.push(ov));
            let list = seq![ov];
            assert(stands_for(surface@) =~= list);
            assert forall|p: Seq<FrameView>| #[trigger] paths(all@).contains(p) <==> start.contains(
                p,
            ) || stands_for(surface@).contains(p) by {
                crate::surfaces::lemma_push_contains(start, ov, p);
                if p == ov {
                    assert(list[0] == p);
                }
            }
        }
        return;
    }
    let ghost cs = paths(surface.contributors@);
    let mut j: usize = 0;
    while j < surface.contributors.len()
        invariant
            cs == paths(surface.contributors@),
            j <= surface.contributors@.len(),
            forall|p: Seq<FrameView>| #[trigger]
                paths(all@).contains(p) <==> start.contains(p) || cs.take(j as int).contains(p),
        decreases surface.contributors.len() - j,
    {
        let ghost before = paths(all@);
        let c = copy_path(&surface.contributors[j]);
        let ghost cv = path(c@);
        all.push(c);
        proof {
            assert(paths(all@) =~= before.push(cv));
            assert(cs.take(j + 1) =~= cs.take(j as int).push(cv));
            assert forall|p: Seq<FrameView>| #[trigger]
                paths(all@).contains(p) <==> start.contains(p) || cs.take(j + 1).contains(p) by {
                crate::surfaces::lemma_push_contains(before, cv, p);
                crate::surfaces::lemma_push_contains(cs.take(j as int), cv, p);
            }
        }
        j = j + 1;
    }
    assert(cs.take(surface.contributors@.len() as int) =~= cs);
}

/// The paths that own a solid's triangles.
pub fn solid_semantic_paths(structured: &StructuredMesh, list: &Vec<u32>) -> (r: Vec<
    Vec<ProvenanceFrame>,
>)
    requires
        attributed(structured.exact@, surface_views(structured.attributions@)),
        listed(structured.exact.mesh.tris@, list@),
    ensures
        are_owners(
            structured.exact@,
            surface_views(structured.attributions@),
            list@,
            paths(r@),
        ),
{
    let exact = &structured.exact;
    let table = &structured.attributions;
    let ghost m = exact@;
    let ghost tv = surface_views(table@);
    let mut all: Vec<Vec<ProvenanceFrame>> = Vec::new();
    let mut last: Option<u32> = None;
    let mut i: usize = 0;
    assert(paths(all@) =~= Seq::empty());
    while i < list.len()
        invariant
            exact == structured.exact,
            table == structured.attributions,
            m == exact@,
            tv == surface_views(table@),
            attributed(m, tv),
            listed(exact.mesh.tris@, list@),
            i <= list@.len(),
            last is Some ==> exists|k: int|
                0 <= k < i && m.surface_ids[#[trigger] list@[k] as int].0 == last->0,
            forall|p: Seq<FrameView>| #[trigger]
                paths(all@).contains(p) <==> owns(m, tv, list@.take(i as int), p),
        decreases list.len() - i,
    {
        let t: usize = list[i] as usize;
        assert(list@[i as int] < exact.mesh.tris@.len());
        let id: u32 = exact.surface_ids[t].0;
        assert(m.surface_ids[t as int].0 < tv.len());
        let ghost start = paths(all@);
        let ghost sv = surface_of(m, tv, t as int);
        let fresh: bool = match last {
            Some(l) => l != id,
            None => true,
        };
        if fresh {
            let surface = &table[id as usize];
            assert(surface@ == sv);
            push_owners(&mut all, surface);
        }
        proof {
            let now = paths(all@);
            let t0 = list@.take(i as int);
            let t1 = list@.take(i + 1);
            assert forall|p: Seq<FrameView>| #[trigger] now.contains(p) <==> owns(m, tv, t1, p) by {
                assert(start.contains(p) <==> owns(m, tv, t0, p));
                if owns(m, tv, t0, p) {
                    let k = choose|k: int|
                        0 <= k < t0.len() && stands_for(
                            surface_of(m, tv, #[trigger] t0[k] as int),
                        ).contains(p);
                    assert(t1[k] == t0[k]);
                }
                if stands_for(sv).contains(p) {
                    assert(t1[i as int] == t);
                }
                if owns(m, tv, t1, p) {
                    let k = choose|k: int|
                        0 <= k < t1.len() && stands_for(
                            surface_of(m, tv, #[trigger] t1[k] as int),
                        ).contains(p);
                    if k < i {
                        assert(t0[k] == t1[k]);
                        assert(owns(m, tv, t0, p));
                    } else {
                        assert(stands_for(sv).contains(p));
                    }
                }
                if !fresh && stands_for(sv).contains(p) {
                    let k = choose|k: int|
                        0 <= k < i && m.surface_ids[#[trigger] list@[k] as int].0 == last->0;
                    assert(t0[k] == list@[k]);
                    assert(surface_of(m, tv, t0[k] as int) == sv);
                    assert(owns(m, tv, t0, p));
                }
            }
            assert(m.surface_ids[list@[i as int] as int].0 == id);
        }
        last = Some(id);
        i = i + 1;
    }
    assert(list@.take(list@.len() as int) =~= list@);
    arrange_paths(all)
}

/// The module name at the end of a path.
pub open spec fn last_module(p: Seq<FrameView>) -> Option<Seq<char>> {
    if p.len() == 0 {
        None
    } else {
        p.last().module_name
    }
}

/// The name of a solid, where its owners share the prefix `shared`.
pub open spec fn base_name(
    owners: Seq<Seq<FrameView>>,
    shared: Seq<FrameView>,
    color: Color,
) -> Seq<char> {
    if owners.len() == 1 {
        match last_module(owners[0]) {
            Some(name) => humanized(name),
            None => hex_color(color) + " Shape"@,
        }
    } else {
        match last_module(shared) {
            Some(name) => humanized(name) + " Solid"@,
            None => "Shape"@,
        }
    }
}

/// `r` is the name of a solid: that of its owner, of what its owners share, or
/// its color.
pub open spec fn names_solid(owners: Seq<Seq<FrameView>>, color: Color, r: Seq<char>) -> bool {
    exists|shared: Seq<FrameView>| #[trigger]
        is_common_prefix(owners, shared) && r == base_name(owners, shared, color)
}

/// The name of a solid.
pub fn solid_base_name(owners: &Vec<Vec<ProvenanceFrame>>, color: Color) -> (r: String)
    ensures
        names_solid(paths(owners@), color, r@),
{
    let shared = longest_common_prefix(owners);
    let ghost ov = paths(owners@);
    let ghost sv = path(shared@);
    if owners.len() == 1 {
        let own = &owners[0];
        assert(ov[0] == path(own@));
        if own.len() > 0 {
            assert(ov[0].last() == own@.last()@);
            if let Some(name) = &own[own.len() - 1].module_name {
                let r = humanize_identifier(name.as_str());
                assert(r@ == base_name(ov, sv, color));
                return r;
            }
        }
        let hex = rgba_hex(color);
        let r = concat2(hex.as_str(), " Shape");
        assert(r@ == base_name(ov, sv, color));
        return r;
    }
    if shared.len() > 0 {
        assert(sv.last() == shared@.last()@);
        if let Some(name) = &shared[shared.len() - 1].module_name {
            let words = humanize_identifier(name.as_str());
            let r = concat2(words.as_str(), " Solid");
            assert(r@ == base_name(ov, sv, color));
            return r;
        }
    }
    let r = "Shape".to_owned();
    assert(r@ == base_name(ov, sv, color));
    r
}

// ---- the model -----------------------------------------------------------------------------------

/// The solids name triangles of the mesh, each at least one.
pub open spec fn solids_fit(st: StructuredMesh) -> bool {
    forall|i: int|
        0 <= i < st.solid_components@.len() ==> listed(
            st.exact.mesh.tris@,
            (#[trigger] st.solid_components@[i]).triangles@,
        ) && 0 < st.solid_components@[i].triangles@.len() <= st.exact.mesh.tris@.len()
}

/// The model's beginning.
pub open spec fn model_head(sources: Seq<char>) -> Seq<char> {
    "<?xml version=\"1.0\" encoding=\"UTF-8\"?>\n<model unit=\"millimeter\" xml:lang=\"en-US\" xmlns=\"http://schemas.microsoft.com/3dmanufacturing/core/2015/02\" xmlns:openrscad=\"https://openrscad.com/3mf/metadata/1\">\n<metadata name=\"openrscad:schemaVersion\" preserve=\"true\">1</metadata>\n<metadata name=\"openrscad:status\" preserve=\"true\">experimental</metadata>\n"@
        + "<metadata name=\"openrscad:sourceTable\" preserve=\"true\">"@ + xml_text(sources)
        + "</metadata><resources>\n"@
}

/// An entry of the table of colors.
pub open spec fn base_text(c: Color) -> Seq<char> {
    "<base name=\""@ + xml_text(hex_color(c)) + "\" displaycolor=\""@ + hex_color(c) + "\"/>\n"@
}

pub open spec fn bases_text(colors: Seq<Color>, n: int) -> Seq<char>
    decreases n,
{
    if n <= 0 {
        Seq::empty()
    } else {
        bases_text(colors, n - 1) + base_text(colors[n - 1])
    }
}

/// The table of colors, unless it is empty.
pub open spec fn materials_text(colors: Seq<Color>) -> Seq<char> {
    if colors.len() == 0 {
        Seq::empty()
    } else {
        "<basematerials id=\"1\">\n"@ + bases_text(colors, colors.len() as int)
            + "</basematerials>\n"@
    }
}

/// A vertex.
pub open spec fn vertex_text(m: Reading, p: Point3) -> Seq<char> {
    "<vertex x=\""@ + coordinate_text(m, p.x) + "\" y=\""@ + coordinate_text(m, p.y) + "\" z=\""@
        + coordinate_text(m, p.z) + "\"/>\n"@
}

pub open spec fn vertices_text(m: Reading, v: Seq<Point3>, n: int) -> Seq<char>
    decreases n,
{
    if n <= 0 {
        Seq::empty()
    } else {
        vertices_text(m, v, n - 1) + vertex_text(m, v[n - 1])
    }
}

/// A triangle of one color.
pub open spec fn triangle_text(t: Triangle, material: nat) -> Seq<char> {
    "<triangle v1=\""@ + decimal_text(t.a as nat) + "\" v2=\""@ + decimal_text(t.b as nat)
        + "\" v3=\""@ + decimal_text(t.c as nat) + "\" pid=\"1\" p1=\""@ + decimal_text(material)
        + "\" p2=\""@ + decimal_text(material) + "\" p3=\""@ + decimal_text(material) + "\"/>\n"@
}

pub open spec fn triangles_text(tris: Seq<Triangle>, materials: Seq<nat>, n: int) -> Seq<char>
    decreases n,
{
    if n <= 0 {
        Seq::empty()
    } else {
        triangles_text(tris, materials, n - 1) + triangle_text(tris[n - 1], materials[n - 1])
    }
}

/// What an object says before its vertices.
pub open spec fn object_head(
    id: nat,
    name: Seq<char>,
    material: nat,
    owners: Seq<char>,
    attribution: Seq<char>,
) -> Seq<char> {
    "<object id=\""@ + decimal_text(id) + "\" type=\"model\" name=\""@ + xml_text(name)
        + "\" pid=\"1\" pindex=\""@ + decimal_text(material)
        + "\"><metadatagroup><metadata name=\"openrscad:semanticOwners\" preserve=\"true\">"@
        + xml_text(owners)
        + "</metadata><metadata name=\"openrscad:attribution\" preserve=\"true\">"@ + attribution
        + "</metadata></metadatagroup><mesh><vertices>\n"@
}

/// An object.
pub open spec fn object_text(
    m: Reading,
    head: Seq<char>,
    c: Compact,
    materials: Seq<nat>,
) -> Seq<char> {
    head + vertices_text(m, c.vertices@, c.vertices@.len() as int) + "</vertices><triangles>\n"@
        + triangles_text(c.triangles@, materials, c.triangles@.len() as int)
        + "</triangles></mesh></object>\n"@
}

/// The list of the objects that are built.
pub open spec fn items_text(n: int) -> Seq<char>
    decreases n,
{
    if n <= 0 {
        Seq::empty()
    } else {
        items_text(n - 1) + ("<item objectid=\""@ + decimal_text((n + 1) as nat) + "\"/>\n"@)
    }
}

fn append_number_text(s: &mut String, n: u64)
    ensures
        final(s)@ == old(s)@ + decimal_text(n as nat),
{
    let t = decimal(n);
    s.append(t.as_str());
}

fn append_head(s: &mut String, sources: &str)
    ensures
        final(s)@ =~= old(s)@ + model_head(sources@),
{
    let mut head = "<?xml version=\"1.0\" encoding=\"UTF-8\"?>\n<model unit=\"millimeter\" xml:lang=\"en-US\" xmlns=\"http://schemas.microsoft.com/3dmanufacturing/core/2015/02\" xmlns:openrscad=\"https://openrscad.com/3mf/metadata/1\">\n<metadata name=\"openrscad:schemaVersion\" preserve=\"true\">1</metadata>\n<metadata name=\"openrscad:status\" preserve=\"true\">experimental</metadata>\n".to_owned();
    head.append("<metadata name=\"openrscad:sourceTable\" preserve=\"true\">");
    let t = xml_escape(sources);
    head.append(t.as_str());
    head.append("</metadata><resources>\n");
    s.append(head.as_str());
}

fn append_materials(s: &mut String, colors: &Vec<Color>)
    ensures
        final(s)@ =~= old(s)@ + materials_text(colors@),
{
    if colors.len() == 0 {
        return;
    }
    let ghost start = s@;
    s.append("<basematerials id=\"1\">\n");
    let ghost front = start + "<basematerials id=\"1\">\n"@;
    for i in 0..colors.len()
        invariant
            s@ =~= front + bases_text(colors@, i as int),
    {
        let ghost before = s@;
        let hex = rgba_hex(colors[i]);
        let mut piece = "<base name=\"".to_owned();
        let t = xml_escape(hex.as_str());
        piece.append(t.as_str());
        piece.append("\" displaycolor=\"");
        piece.append(hex.as_str());
        piece.append("\"/>\n");
        assert(piece@ == base_text(colors@[i as int]));
        s.append(piece.as_str());
        assert(s@ =~= front + (bases_text(colors@, i as int) + piece@));
    }
    s.append("</basematerials>\n");
}

fn vertex_piece<A: Arithmetic>(calc: &mut Calc<A>, p: Point3) -> (s: String)
    ensures
        forall|m: Reading| #[trigger]
            final(calc).agrees(m) ==> old(calc).agrees(m) && s@ == vertex_text(m, p),
{
    let x = xml_number(calc, p.x);
    let y = xml_number(calc, p.y);
    let z = xml_number(calc, p.z);
    let mut s = "<vertex x=\"".to_owned();
    s.append(x.as_str());
    s.append("\" y=\"");
    s.append(y.as_str());
    s.append("\" z=\"");
    s.append(z.as_str());
    s.append("\"/>\n");
    s
}

fn append_vertices<A: Arithmetic>(calc: &mut Calc<A>, s: &mut String, v: &Vec<Point3>)
    ensures
        forall|m: Reading| #[trigger]
            final(calc).agrees(m) ==> old(calc).agrees(m) && final(s)@ == old(s)@ + vertices_text(
                m,
                v@,
                v@.len() as int,
            ),
{
    let ghost start = s@;
    let mut i: usize = 0;
    assert forall|m: Reading| s@ =~= start + #[trigger] vertices_text(m, v@, 0) by {}
    while i < v.len()
        invariant
            i <= v@.len(),
            forall|m: Reading| #[trigger]
                calc.agrees(m) ==> old(calc).agrees(m) && s@ =~= start + vertices_text(
                    m,
                    v@,
                    i as int,
                ),
        decreases v.len() - i,
    {
        let p = v[i];
        let ghost before = s@;
        let piece = vertex_piece(calc, p);
        s.append(piece.as_str());
        proof {
            assert forall|m: Reading| #[trigger] calc.agrees(m) implies s@ =~= start
                + vertices_text(m, v@, i + 1) by {
                assert(s@ =~= before + vertex_text(m, p));
                assert(before =~= start + vertices_text(m, v@, i as int));
            }
        }
        i = i + 1;
    }
}

/// Material numbers as naturals.
pub open spec fn naturals(v: Seq<usize>) -> Seq<nat> {
    v.map_values(|n: usize| n as nat)
}

fn triangle_piece(t: Triangle, k: u64) -> (s: String)
    ensures
        s@ == triangle_text(t, k as nat),
{
    let mut s = "<triangle v1=\"".to_owned();
    append_number_text(&mut s, t.a as u64);
    s.append("\" v2=\"");
    append_number_text(&mut s, t.b as u64);
    s.append("\" v3=\"");
    append_number_text(&mut s, t.c as u64);
    s.append("\" pid=\"1\" p1=\"");
    append_number_text(&mut s, k);
    s.append("\" p2=\"");
    append_number_text(&mut s, k);
    s.append("\" p3=\"");
    append_number_text(&mut s, k);
    s.append("\"/>\n");
    s
}

fn append_triangles(s: &mut String, tris: &Vec<Triangle>, materials: &Vec<usize>)
    requires
        materials@.len() == tris@.len(),
    ensures
        final(s)@ =~= old(s)@ + triangles_text(tris@, naturals(materials@), tris@.len() as int),
{
    let ghost start = s@;
    for i in 0..tris.len()
        invariant
            materials@.len() == tris@.len(),
            s@ =~= start + triangles_text(tris@, naturals(materials@), i as int),
    {
        let ghost before = s@;
        let piece = triangle_piece(tris[i], materials[i] as u64);
        s.append(piece.as_str());
        assert(naturals(materials@)[i as int] == materials@[i as int] as nat);
        assert(s@ =~= start + (triangles_text(tris@, naturals(materials@), i as int) + piece@));
    }
}

fn append_object_head(
    s: &mut String,
    id: u64,
    name: &str,
    material: u64,
    owners: &str,
    attribution: &str,
)
    ensures
        final(s)@ =~= old(s)@ + object_head(
            id as nat,
            name@,
            material as nat,
            owners@,
            attribution@,
        ),
{
    let mut head = "<object id=\"".to_owned();
    append_number_text(&mut head, id);
    head.append("\" type=\"model\" name=\"");
    let n = xml_escape(name);
    head.append(n.as_str());
    head.append("\" pid=\"1\" pindex=\"");
    append_number_text(&mut head, material);
    head.append("\"><metadatagroup><metadata name=\"openrscad:semanticOwners\" preserve=\"true\">");
    let o = xml_escape(owners);
    head.append(o.as_str());
    head.append("</metadata><metadata name=\"openrscad:attribution\" preserve=\"true\">");
    head.append(attribution);
    head.append("</metadata></metadatagroup><mesh><vertices>\n");
    s.append(head.as_str());
}

fn append_items(s: &mut String, n: usize)
    requires
        n <= u32::MAX,
    ensures
        final(s)@ =~= old(s)@ + items_text(n as int),
{
    let ghost start = s@;
    for i in 0..n
        invariant
            n <= u32::MAX,
            s@ =~= start + items_text(i as int),
    {
        let ghost before = s@;
        s.append("<item objectid=\"");
        append_number_text(s, i as u64 + 2);
        s.append("\"/>\n");
        assert(s@ =~= before + ("<item objectid=\""@ + decimal_text((i + 2) as nat) + "\"/>\n"@));
    }
}

/// The color of a triangle.
pub open spec fn triangle_color(m: AttributedView, mats: Seq<MaterialKey>, t: int) -> Color {
    mats[m.surface_ids[t].0 as int].rgba
}

/// Some triangle has the color.
pub open spec fn color_shown(m: AttributedView, mats: Seq<MaterialKey>, c: Color) -> bool {
    exists|t: int| 0 <= t < m.mesh.tris.len() && #[trigger] triangle_color(m, mats, t) == c
}

/// `colors` holds the colors of all triangles in order, each once.
pub open spec fn is_color_table(
    m: AttributedView,
    mats: Seq<MaterialKey>,
    colors: Seq<Color>,
) -> bool {
    &&& forall|i: int, j: int|
        #![trigger colors[i], colors[j]]
        0 <= i < j < colors.len() ==> colors[i].number() < colors[j].number()
    &&& forall|c: Color| #[trigger] colors.contains(c) <==> color_shown(m, mats, c)
}

/// What is written of one solid.
pub struct SolidView {
    pub owners: Seq<Seq<FrameView>>,
    pub order: Seq<Turned>,
    pub compact: Compact,
}

/// The material numbers of triangles.
pub open spec fn material_numbers(
    m: AttributedView,
    mats: Seq<MaterialKey>,
    colors: Seq<Color>,
    order: Seq<Turned>,
) -> Seq<nat> {
    order.map_values(
        |t: Turned| color_number(colors, triangle_color(m, mats, t.id as int)) as nat,
    )
}

/// `v` is what is written of a solid.
pub open spec fn is_solid_view(
    m: AttributedView,
    table: Seq<SurfaceView>,
    s: MeshSelection,
    v: SolidView,
) -> bool {
    &&& are_owners(m, table, s.triangles@, v.owners)
    &&& is_canonical(m.mesh, s.triangles@, v.order)
    &&& is_compact(m.mesh, corners_only(v.order), v.compact)
}

/// The object of the `i`-th solid.
pub open spec fn solid_text(
    rd: Reading,
    m: AttributedView,
    mats: Seq<MaterialKey>,
    colors: Seq<Color>,
    keys: Seq<Seq<char>>,
    name: Seq<char>,
    s: MeshSelection,
    v: SolidView,
    i: int,
) -> Seq<char> {
    let numbers = material_numbers(m, mats, colors, v.order);
    object_text(
        rd,
        object_head(
            (i + 2) as nat,
            name,
            numbers[0],
            ordered_paths_text(v.owners, keys),
            attribution_text(s.attribution),
        ),
        v.compact,
        numbers,
    )
}

/// The objects of the first `n` solids.
pub open spec fn solids_text(
    rd: Reading,
    m: AttributedView,
    mats: Seq<MaterialKey>,
    colors: Seq<Color>,
    keys: Seq<Seq<char>>,
    names: Seq<Seq<char>>,
    solids: Seq<MeshSelection>,
    vs: Seq<SolidView>,
    n: int,
) -> Seq<char>
    decreases n,
{
    if n <= 0 {
        Seq::empty()
    } else {
        solids_text(rd, m, mats, colors, keys, names, solids, vs, n - 1) + solid_text(
            rd,
            m,
            mats,
            colors,
            keys,
            names[n - 1],
            solids[n - 1],
            vs[n - 1],
            n - 1,
        )
    }
}

/// The names of the solids before they are numbered.
pub open spec fn are_bases(
    m: AttributedView,
    mats: Seq<MaterialKey>,
    solids: Seq<MeshSelection>,
    owners: Seq<Seq<Seq<FrameView>>>,
    bases: Seq<Seq<char>>,
) -> bool {
    &&& bases.len() == solids.len()
    &&& forall|i: int|
        0 <= i < bases.len() ==> names_solid(
            owners[i],
            triangle_color(m, mats, solids[i].triangles@[0] as int),
            #[trigger] bases[i],
        )
}

/// The model of a scene whose solids are `vs`, with their names.
pub open spec fn model_text(
    rd: Reading,
    m: AttributedView,
    mats: Seq<MaterialKey>,
    colors: Seq<Color>,
    keys: Seq<Seq<char>>,
    bases: Seq<Seq<char>>,
    solids: Seq<MeshSelection>,
    vs: Seq<SolidView>,
) -> Seq<char> {
    model_head(sources_text(keys)) + materials_text(colors) + solids_text(
        rd,
        m,
        mats,
        colors,
        keys,
        numbered_names(bases),
        solids,
        vs,
        solids.len() as int,
    ) + "</resources><build>\n"@ + items_text(solids.len() as int) + "</build></model>\n"@
}

/// The owners of the solids.
pub open spec fn all_owners(vs: Seq<SolidView>) -> Seq<Seq<Seq<FrameView>>> {
    vs.map_values(|v: SolidView| v.owners)
}

/// `r` is the model of the scene.
pub open spec fn is_model_with(
    rd: Reading,
    st: StructuredMesh,
    options: Export3DOptions,
    colors: Seq<Color>,
    keys: Seq<Seq<char>>,
    bases: Seq<Seq<char>>,
    vs: Seq<SolidView>,
    r: Seq<char>,
) -> bool {
    let m = st.exact@;
    let table = surface_views(st.attributions@);
    let mats = materials_of(rd, table);
    &&& name_sources(texts(options.source_keys@), keys)
    &&& is_color_table(m, mats, colors)
    &&& vs.len() == st.solid_components@.len()
    &&& forall|i: int|
        0 <= i < vs.len() ==> is_solid_view(m, table, st.solid_components@[i], #[trigger] vs[i])
    &&& are_bases(m, mats, st.solid_components@, all_owners(vs), bases)
    &&& r == model_text(rd, m, mats, colors, keys, bases, st.solid_components@, vs)
}

/// `r` is the model of the scene.
pub open spec fn is_model(
    rd: Reading,
    st: StructuredMesh,
    options: Export3DOptions,
    r: Seq<char>,
) -> bool {
    exists|
        colors: Seq<Color>,
        keys: Seq<Seq<char>>,
        bases: Seq<Seq<char>>,
        vs: Seq<SolidView>,
    | #[trigger] is_model_with(rd, st, options, colors, keys, bases, vs, r)
}

/// The first solid that is not closed is the `i`-th.
pub open spec fn first_open_solid(st: StructuredMesh, i: int) -> bool {
    &&& 0 <= i < st.solid_components@.len()
    &&& forall|j: int|
        0 <= j < i ==> closed_surface(
            st.exact.mesh.tris@,
            (#[trigger] st.solid_components@[j]).triangles@,
        )
}

/// All solids are closed.
pub open spec fn all_solids_closed(st: StructuredMesh) -> bool {
    forall|j: int|
        0 <= j < st.solid_components@.len() ==> closed_surface(
            st.exact.mesh.tris@,
            (#[trigger] st.solid_components@[j]).triangles@,
        )
}

/// The error of a scene with an open solid: what is wrong with the first one.
pub open spec fn solid_fault(st: StructuredMesh, f: GeomFault) -> bool {
    exists|i: int| #[trigger]
        first_open_solid(st, i) && open_fault(
            st.exact.mesh.tris@,
            st.solid_components@[i].triangles@,
            f,
        )
}

fn color_table(structured: &StructuredMesh, mats: &Vec<MaterialKey>) -> (r: Vec<Color>)
    requires
        fit_for_export(*structured),
        mats@.len() == structured.attributions@.len(),
    ensures
        is_color_table(structured.exact@, mats@, r@),
        r@.no_duplicates(),
{
    let exact = &structured.exact;
    let ghost m = exact@;
    let n: usize = exact.mesh.tris.len();
    let mut list: Vec<Color> = Vec::new();
    let mut t: usize = 0;
    while t < n
        invariant
            exact == structured.exact,
            m == exact@,
            n == exact.mesh.tris@.len(),
            attributed(m, surface_views(structured.attributions@)),
            mats@.len() == structured.attributions@.len(),
            t <= n,
            list@.len() == t,
            forall|k: int| 0 <= k < t ==> #[trigger] list@[k] == triangle_color(m, mats@, k),
        decreases n - t,
    {
        assert(m.surface_ids[t as int].0 < surface_views(structured.attributions@).len());
        list.push(mats[exact.surface_ids[t].0 as usize].rgba);
        t = t + 1;
    }
    let ghost raw = list@;
    let r = arrange_colors(list);
    proof {
        assert forall|c: Color| #[trigger] r@.contains(c) <==> color_shown(m, mats@, c) by {
            assert(r@.contains(c) <==> raw.contains(c));
            if raw.contains(c) {
                let k = choose|k: int| 0 <= k < raw.len() && raw[k] == c;
                assert(triangle_color(m, mats@, k) == c);
            }
            if color_shown(m, mats@, c) {
                let k = choose|k: int|
                    0 <= k < m.mesh.tris.len() && #[trigger] triangle_color(m, mats@, k) == c;
                assert(raw[k] == c);
            }
        }
        assert forall|i: int, j: int| 0 <= i < r@.len() && 0 <= j < r@.len() && i != j implies r@[i]
            != r@[j] by {
            if i < j {
                assert(r@[i].number() < r@[j].number());
            } else {
                assert(r@[j].number() < r@[i].number());
            }
        }
    }
    r
}

/// The owners of each solid, and its name before it is numbered.
fn owners_and_bases(structured: &StructuredMesh, mats: &Vec<MaterialKey>) -> (r: (
    Vec<Vec<Vec<ProvenanceFrame>>>,
    Vec<String>,
))
    requires
        fit_for_export(*structured),
        solids_fit(*structured),
        mats@.len() == structured.attributions@.len(),
    ensures
        r.0@.len() == structured.solid_components@.len(),
        forall|i: int|
            0 <= i < r.0@.len() ==> are_owners(
                structured.exact@,
                surface_views(structured.attributions@),
                structured.solid_components@[i].triangles@,
                paths((#[trigger] r.0@[i])@),
            ),
        are_bases(
            structured.exact@,
            mats@,
            structured.solid_components@,
            r.0@.map_values(|v: Vec<Vec<ProvenanceFrame>>| paths(v@)),
            texts(r.1@),
        ),
{
    let ghost m = structured.exact@;
    let ghost solids = structured.solid_components@;
    let mut owners: Vec<Vec<Vec<ProvenanceFrame>>> = Vec::new();
    let mut bases: Vec<String> = Vec::new();
    let mut i: usize = 0;
    while i < structured.solid_components.len()
        invariant
            m == structured.exact@,
            solids == structured.solid_components@,
            fit_for_export(*structured),
            solids_fit(*structured),
            mats@.len() == structured.attributions@.len(),
            i <= solids.len(),
            owners@.len() == i,
            bases@.len() == i,
            forall|k: int|
                0 <= k < i ==> are_owners(
                    m,
                    surface_views(structured.attributions@),
                    solids[k].triangles@,
                    paths((#[trigger] owners@[k])@),
                ),
            forall|k: int|
                0 <= k < i ==> names_solid(
                    paths(owners@[k]@),
                    triangle_color(m, mats@, solids[k].triangles@[0] as int),
                    (#[trigger] bases@[k])@,
                ),
        decreases structured.solid_components.len() - i,
    {
        let solid = &structured.solid_components[i];
        assert(listed(structured.exact.mesh.tris@, solids[i as int].triangles@));
        let own = solid_semantic_paths(structured, &solid.triangles);
        let t: usize = solid.triangles[0] as usize;
        assert(solid.triangles@[0] < structured.exact.mesh.tris@.len());
        assert(m.surface_ids[t as int].0 < surface_views(structured.attributions@).len());
        let color = mats[structured.exact.surface_ids[t].0 as usize].rgba;
        let base = solid_base_name(&own, color);
        owners.push(own);
        bases.push(base);
        i = i + 1;
    }
    proof {
        let ov = owners@.map_values(|v: Vec<Vec<ProvenanceFrame>>| paths(v@));
        let bv = texts(bases@);
        assert forall|i: int| 0 <= i < bv.len() implies names_solid(
            ov[i],
            triangle_color(m, mats@, solids[i].triangles@[0] as int),
            #[trigger] bv[i],
        ) by {
            assert(bases@[i]@ == bv[i]);
        }
    }
    (owners, bases)
}

/// The material numbers of turned triangles.
fn numbers_of(
    structured: &StructuredMesh,
    mats: &Vec<MaterialKey>,
    colors: &Vec<Color>,
    order: &Vec<Turned>,
) -> (r: Vec<usize>)
    requires
        fit_for_export(*structured),
        mats@.len() == structured.attributions@.len(),
        is_color_table(structured.exact@, mats@, colors@),
        colors@.no_duplicates(),
        forall|i: int|
            0 <= i < order@.len() ==> (#[trigger] order@[i]).id < structured.exact.mesh.tris@.len(),
    ensures
        r@.len() == order@.len(),
        naturals(r@) == material_numbers(structured.exact@, mats@, colors@, order@),
{
    let exact = &structured.exact;
    let ghost m = exact@;
    let mut out: Vec<usize> = Vec::new();
    let mut i: usize = 0;
    while i < order.len()
        invariant
            exact == structured.exact,
            m == exact@,
            fit_for_export(*structured),
            mats@.len() == structured.attributions@.len(),
            is_color_table(m, mats@, colors@),
            colors@.no_duplicates(),
            forall|i: int|
                0 <= i < order@.len() ==> (#[trigger] order@[i]).id < exact.mesh.tris@.len(),
            i <= order@.len(),
            out@.len() == i,
            naturals(out@) =~= material_numbers(m, mats@, colors@, order@).take(i as int),
        decreases order.len() - i,
    {
        let t: usize = order[i].id as usize;
        assert(order@[i as int].id < exact.mesh.tris@.len());
        assert(m.surface_ids[t as int].0 < surface_views(structured.attributions@).len());
        let c = mats[exact.surface_ids[t].0 as usize].rgba;
        proof {
            assert(triangle_color(m, mats@, t as int) == c);
            assert(color_shown(m, mats@, c));
            assert(colors@.contains(c));
        }
        let ghost before = naturals(out@);
        let place: usize = color_place(colors, c);
        out.push(place);
        proof {
            assert(naturals(out@) =~= before.push(place as nat));
            assert(material_numbers(m, mats@, colors@, order@)[i as int] == place);
        }
        i = i + 1;
    }
    assert(material_numbers(m, mats@, colors@, order@).take(order@.len() as int)
        =~= material_numbers(m, mats@, colors@, order@));
    out
}

/// Appends the object of a solid.
fn append_solid<A: Arithmetic>(
    calc: &mut Calc<A>,
    s: &mut String,
    structured: &StructuredMesh,
    mats: &Vec<MaterialKey>,
    colors: &Vec<Color>,
    keys: &Vec<String>,
    name: &str,
    owners: &Vec<Vec<ProvenanceFrame>>,
    i: usize,
) -> (v: Ghost<SolidView>)
    requires
        fit_for_export(*structured),
        solids_fit(*structured),
        mats@.len() == structured.attributions@.len(),
        is_color_table(structured.exact@, mats@, colors@),
        colors@.no_duplicates(),
        i < structured.solid_components@.len() <= u32::MAX,
        are_owners(
            structured.exact@,
            surface_views(structured.attributions@),
            structured.solid_components@[i as int].triangles@,
            paths(owners@),
        ),
    ensures
        v@.owners == paths(owners@),
        is_solid_view(
            structured.exact@,
            surface_views(structured.attributions@),
            structured.solid_components@[i as int],
            v@,
        ),
        forall|rd: Reading| #[trigger]
            final(calc).agrees(rd) ==> old(calc).agrees(rd) && final(s)@ == old(s)@ + solid_text(
                rd,
                structured.exact@,
                mats@,
                colors@,
                texts(keys@),
                name@,
                structured.solid_components@[i as int],
                v@,
                i as int,
            ),
{
    let solid = &structured.solid_components[i];
    let ghost m = structured.exact@;
    assert(listed(
        structured.exact.mesh.tris@,
        structured.solid_components@[i as int].triangles@,
    ));
    let order = canonical_triangles(&structured.exact.mesh, &solid.triangles);
    let tris = crate::glb::strip(&order);
    assert forall|k: int| 0 <= k < tris@.len() implies (#[trigger] tris@[k]).within(
        m.mesh.verts.len(),
    ) by {
        assert(order@[k].tri.within(m.mesh.verts.len()));
    }
    let compact = compact_component(&structured.exact.mesh, &tris);
    let numbers = numbers_of(structured, mats, colors, &order);
    let ghost start = s@;
    let ghost view = SolidView { owners: paths(owners@), order: order@, compact };
    let owner_text = ordered_paths_json(owners, keys);
    let status = match solid.attribution {
        AttributionStatus::Exact => "exact",
        AttributionStatus::Ambiguous => "ambiguous",
    };
    assert(naturals(numbers@)[0] == numbers@[0] as nat);
    append_object_head(
        s,
        i as u64 + 2,
        name,
        numbers[0] as u64,
        owner_text.as_str(),
        status,
    );
    let ghost head = object_head(
        (i + 2) as nat,
        name@,
        numbers@[0] as nat,
        owner_text@,
        attribution_text(solid.attribution),
    );
    assert(s@ == start + head);
    append_vertices(calc, s, &compact.vertices);
    let ghost middle = s@;
    s.append("</vertices><triangles>\n");
    append_triangles(s, &compact.triangles, &numbers);
    s.append("</triangles></mesh></object>\n");
    proof {
        let nums = naturals(numbers@);
        let tt = triangles_text(compact.triangles@, nums, compact.triangles@.len() as int);
        assert(s@ =~= middle + "</vertices><triangles>\n"@ + tt + "</triangles></mesh></object>\n"@);
        assert forall|rd: Reading| #[trigger] calc.agrees(rd) implies s@ == start + solid_text(
            rd,
            m,
            mats@,
            colors@,
            texts(keys@),
            name@,
            structured.solid_components@[i as int],
            view,
            i as int,
        ) by {
            let vt = vertices_text(rd, compact.vertices@, compact.vertices@.len() as int);
            assert(middle == start + head + vt);
            assert(s@ =~= start + (head + vt + "</vertices><triangles>\n"@ + tt
                + "</triangles></mesh></object>\n"@));
        }
    }
    Ghost(view)
}

/// Writes the model of a scene: its colors, and an object for each solid. A
/// solid that is not closed is an error. Packaging the model is the host's part.
pub fn serialize_3mf<A: Arithmetic>(
    calc: &mut Calc<A>,
    structured: &StructuredMesh,
    options: &Export3DOptions,
) -> (r: Result<String, GeomError>)
    requires
        fit_for_export(*structured),
        solids_fit(*structured),
        structured.solid_components@.len() <= u32::MAX,
    ensures
        write_fault(structured.exact.mesh@, ONE) is Some ==> r is Err && r->Err_0@
            == GeomFault::Invariant(write_fault(structured.exact.mesh@, ONE)->0),
        write_fault(structured.exact.mesh@, ONE) is None ==> match r {
            Ok(_) => all_solids_closed(*structured),
            Err(e) => solid_fault(*structured, e@),
        },
        forall|rd: Reading| #[trigger]
            final(calc).agrees(rd) ==> old(calc).agrees(rd) && (r matches Ok(text) ==> is_model(
                rd,
                *structured,
                *options,
                text@,
            )),
{
    match validate_finite(&structured.exact.mesh, ONE) {
        Ok(_) => {},
        Err(e) => return Err(e),
    }
    let ghost st = *structured;
    let ghost m = structured.exact@;
    let ghost tv = surface_views(structured.attributions@);
    let ghost solids = structured.solid_components@;
    let n: usize = structured.solid_components.len();
    let mut k: usize = 0;
    while k < n
        invariant
            st == *structured,
            solids == structured.solid_components@,
            n == solids.len(),
            fit_for_export(*structured),
            solids_fit(*structured),
            k <= n,
            forall|j: int|
                0 <= j < k ==> closed_surface(
                    structured.exact.mesh.tris@,
                    (#[trigger] solids[j]).triangles@,
                ),
            write_fault(structured.exact.mesh@, ONE) is None,
            forall|rd: Reading| #[trigger] calc.agrees(rd) ==> old(calc).agrees(rd),
        decreases n - k,
    {
        let solid = &structured.solid_components[k];
        assert(listed(structured.exact.mesh.tris@, solids[k as int].triangles@));
        match validate_closed_component(&structured.exact.mesh, &solid.triangles) {
            Ok(_) => {},
            Err(e) => {
                assert(first_open_solid(st, k as int));
                return Err(e);
            },
        }
        k = k + 1;
    }
    let mats = materials(calc, &structured.attributions);
    let colors = color_table(structured, &mats);
    let keys = safe_source_keys(&options.source_keys);
    let (owners, bases) = owners_and_bases(structured, &mats);
    let names = number_names(&bases);
    let ghost kv = texts(keys@);
    let ghost bv = texts(bases@);
    let ghost nv = texts(names@);
    assert(nv.len() == bv.len());
    let sources = sources_json(&keys);
    let mut s = String::new();
    append_head(&mut s, sources.as_str());
    append_materials(&mut s, &colors);
    let ghost front = model_head(sources_text(kv)) + materials_text(colors@);
    assert(s@ =~= front);
    let ghost mut vs: Seq<SolidView> = Seq::empty();
    let mut i: usize = 0;
    assert forall|rd: Reading| s@ =~= front + #[trigger] solids_text(
        rd,
        m,
        mats@,
        colors@,
        kv,
        nv,
        solids,
        vs,
        0,
    ) by {}
    while i < n
        invariant
            st == *structured,
            m == structured.exact@,
            tv == surface_views(structured.attributions@),
            solids == structured.solid_components@,
            n == solids.len(),
            n <= u32::MAX,
            fit_for_export(*structured),
            solids_fit(*structured),
                mats@.len() == structured.attributions@.len(),
            is_color_table(m, mats@, colors@),
            colors@.no_duplicates(),
            kv == texts(keys@),
            nv == texts(names@),
            names@.len() == n,
            owners@.len() == n,
            forall|i: int|
                0 <= i < n ==> are_owners(
                    m,
                    tv,
                    solids[i].triangles@,
                    paths((#[trigger] owners@[i])@),
                ),
            i <= n,
            vs.len() == i,
            forall|j: int|
                0 <= j < i ==> is_solid_view(m, tv, solids[j], #[trigger] vs[j]) && vs[j].owners
                    == paths(owners@[j]@),
            forall|rd: Reading| #[trigger]
                calc.agrees(rd) ==> old(calc).agrees(rd) && mats@ == materials_of(rd, tv) && s@
                    == front + solids_text(
                    rd,
                    m,
                    mats@,
                    colors@,
                    kv,
                    nv,
                    solids,
                    vs,
                    i as int,
                ),
        decreases n - i,
    {
        assert(are_owners(m, tv, solids[i as int].triangles@, paths(owners@[i as int]@)));
        let ghost before = s@;
        let ghost vs0 = vs;
        let v = append_solid(
            calc,
            &mut s,
            structured,
            &mats,
            &colors,
            &keys,
            names[i].as_str(),
            &owners[i],
            i,
        );
        proof {
            vs = vs.push(v@);
            assert(nv[i as int] == names@[i as int]@);
            assert forall|rd: Reading| #[trigger] calc.agrees(rd) implies s@ == front
                + solids_text(rd, m, mats@, colors@, kv, nv, solids, vs, i + 1) by {
                lemma_solids_prefix(rd, m, mats@, colors@, kv, nv, solids, vs0, vs, i as int);
                let done = solids_text(rd, m, mats@, colors@, kv, nv, solids, vs0, i as int);
                let more = solid_text(
                    rd,
                    m,
                    mats@,
                    colors@,
                    kv,
                    nv[i as int],
                    solids[i as int],
                    v@,
                    i as int,
                );
                assert(vs[i as int] == v@);
                assert(before == front + done);
                assert(s@ =~= front + (done + more));
            }
        }
        i = i + 1;
    }
    let ghost middle = s@;
    s.append("</resources><build>\n");
    append_items(&mut s, n);
    s.append("</build></model>\n");
    proof {
        let tail = items_text(n as int);
        assert(s@ =~= middle + "</resources><build>\n"@ + tail + "</build></model>\n"@);
        assert(all_owners(vs) =~= owners@.map_values(|v: Vec<Vec<ProvenanceFrame>>| paths(v@)));
        assert forall|rd: Reading| #[trigger] calc.agrees(rd) implies is_model(
            rd,
            st,
            *options,
            s@,
        ) by {
            assert(is_model_with(rd, st, *options, colors@, kv, bv, vs, s@));
        }
    }
    Ok(s)
}

proof fn lemma_solids_prefix(
    rd: Reading,
    m: AttributedView,
    mats: Seq<MaterialKey>,
    colors: Seq<Color>,
    keys: Seq<Seq<char>>,
    names: Seq<Seq<char>>,
    solids: Seq<MeshSelection>,
    a: Seq<SolidView>,
    b: Seq<SolidView>,
    n: int,
)
    requires
        n <= a.len() <= b.len(),
        forall|i: int| 0 <= i < n ==> #[trigger] a[i] == b[i],
    ensures
        solids_text(rd, m, mats, colors, keys, names, solids, a, n) == solids_text(
            rd,
            m,
            mats,
            colors,
            keys,
            names,
            solids,
            b,
            n,
        ),
    decreases n,
{
    if n > 0 {
        lemma_solids_prefix(rd, m, mats, colors, keys, names, solids, a, b, n - 1);
        assert(a[n - 1] == b[n - 1]);
    }
}

// ---- either format ---------------------------------------------------------------------------------

/// An exported scene.
#[derive(Debug)]
pub enum Exported {
    /// A complete binary glTF file.
    Glb(Vec<u8>),
    /// The model part of a 3MF package.
    Model(String),
}

/// Writes a scene in a format that keeps its structure; the other formats take
/// fused geometry only.
pub fn export_3d<A: Arithmetic>(
    calc: &mut Calc<A>,
    structured: &StructuredMesh,
    format: ExportFormat3D,
    options: &Export3DOptions,
) -> (r: Result<Exported, GeomError>)
    requires
        fit_for_export(*structured),
        solids_fit(*structured),
        structured.solid_components@.len() <= u32::MAX,
    ensures
        forall|m: Reading| #[trigger]
            final(calc).agrees(m) ==> old(calc).agrees(m) && match (format, r) {
                (ExportFormat3D::Glb, Ok(Exported::Glb(b))) => is_glb(m, *structured, *options, b@),
                (ExportFormat3D::Glb, Ok(Exported::Model(_))) => false,
                (ExportFormat3D::Glb, Err(e)) => {
                    let fault = write_fault(
                        structured.exact.mesh@,
                        options.source_unit_to_meters,
                    );
                    if fault is Some {
                        e@ == GeomFault::Invariant(fault->0)
                    } else {
                        too_long(m, *structured, *options) && e@ == GeomFault::Invariant(
                            "GLB exceeds 4 GiB"@,
                        )
                    }
                },
                (ExportFormat3D::ThreeMf, Ok(Exported::Model(s))) => is_model(
                    m,
                    *structured,
                    *options,
                    s@,
                ),
                (ExportFormat3D::ThreeMf, Ok(Exported::Glb(_))) => false,
                (ExportFormat3D::ThreeMf, Err(e)) => {
                    let fault = write_fault(structured.exact.mesh@, ONE);
                    if fault is Some {
                        e@ == GeomFault::Invariant(fault->0)
                    } else {
                        solid_fault(*structured, e@)
                    }
                },
                (_, r) => r is Err && r->Err_0@ == GeomFault::Invariant(
                    "authored-scene export only supports GLB and 3MF"@,
                ),
            },
{
    match format {
        ExportFormat3D::Glb => match serialize_glb(calc, structured, options) {
            Ok(b) => Ok(Exported::Glb(b)),
            Err(e) => Err(e),
        },
        ExportFormat3D::ThreeMf => match serialize_3mf(calc, structured, options) {
            Ok(s) => Ok(Exported::Model(s)),
            Err(e) => Err(e),
        },
        _ => Err(misfit("authored-scene export only supports GLB and 3MF")),
    }
}

/// The solids of a partition can be exported: each names some of the mesh's
/// triangles, and at least one.
pub proof fn law_partition_can_be_exported(st: StructuredMesh)
    requires
        partition_fault(st.exact@, surface_views(st.attributions@)) is None,
        partitioned(st.exact@, surface_views(st.attributions@), st.solid_components@),
        st.exact.mesh@.tris.len() <= u32::MAX,
    ensures
        solids_fit(st),
        attributed(st.exact@, surface_views(st.attributions@)),
        st.exact.source_face_ids@.len() == st.exact.mesh.tris@.len(),
{
    let m = st.exact@;
    let table = surface_views(st.attributions@);
    let sorted = st.solid_components@;
    let parts = choose|parts: Seq<MeshSelection>| #[trigger]
        solids(m, table, parts) && parts.to_multiset() =~= sorted.to_multiset();
    let all = all_triangles(m.mesh.tris.len());
    let label = labels(m.mesh.tris, all);
    let n = m.mesh.tris.len() as int;
    let cut = groups(all, label, n);
    parts.to_multiset_ensures();
    sorted.to_multiset_ensures();
    assert forall|i: int| 0 <= i < sorted.len() implies listed(
        m.mesh.tris,
        (#[trigger] sorted[i]).triangles@,
    ) && 0 < sorted[i].triangles@.len() <= m.mesh.tris.len() by {
        assert(sorted.to_multiset().count(sorted[i]) > 0);
        assert(parts.contains(sorted[i]));
        let j = choose|j: int| 0 <= j < parts.len() && parts[j] == sorted[i];
        assert(selects(m, table, cut[j], parts[j]));
        lemma_members_listed(m.mesh.tris, all, label, n, j);
        crate::compiled::lemma_groups_shorter(all, label, n, j);
        crate::solid::lemma_listed_permuted(m.mesh.tris, cut[j], parts[j].triangles@);
        cut[j].to_multiset_ensures();
        parts[j].triangles@.to_multiset_ensures();
    }
}

} // verus!
