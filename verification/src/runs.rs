//! The tables handed to a boolean kernel: triangles sorted into runs of one
//! surface and patch.

use crate::error::{GeomError, GeomFault};
use crate::mesh::{Point3, Triangle};
use crate::rank::{ascending, sorted, Ranked};
use crate::relation::{
    decoded, AttributedView, RelationMesh, RelationParts, RelationView, RunKeys,
    SurfaceAttributionId,
};
use vstd::prelude::*;

verus! {

/// A triangle by what its run is named after.
#[derive(Clone, Copy, Debug, PartialEq, Eq, Structural)]
pub struct Record {
    pub surface: u32,
    pub patch: u64,
    pub triangle: usize,
}

/// By surface, then patch, then place in the mesh.
pub open spec fn record_le(a: Record, b: Record) -> bool {
    a.surface < b.surface || (a.surface == b.surface && (a.patch < b.patch || (a.patch == b.patch
        && a.triangle <= b.triangle)))
}

impl Ranked for Record {
    open spec fn rank_le(&self, other: &Self) -> bool {
        record_le(*self, *other)
    }

    proof fn rank_total(a: &Self, b: &Self) {
    }

    proof fn rank_transitive(a: &Self, b: &Self, c: &Self) {
    }

    fn ranks_before(&self, other: &Self) -> (r: bool) {
        self.surface < other.surface || (self.surface == other.surface && (self.patch < other.patch
            || (self.patch == other.patch && self.triangle <= other.triangle)))
    }
}

/// The record of triangle `t`.
pub open spec fn record_of(m: AttributedView, t: int) -> Record {
    Record { surface: m.surface_ids[t].0, patch: m.source_face_ids[t], triangle: t as usize }
}

/// `order` lists every triangle once, run after run, each run in mesh order.
pub open spec fn is_run_order(m: AttributedView, order: Seq<Record>) -> bool {
    &&& ascending(order)
    &&& order.no_duplicates()
    &&& order.len() == m.mesh.tris.len()
    &&& forall|k: int|
        0 <= k < order.len() ==> (#[trigger] order[k]).triangle < m.mesh.tris.len() && order[k]
            == record_of(m, order[k].triangle as int)
}

/// The tables of a mesh as a boolean kernel takes them. Coordinates are the bits
/// of their doubles.
pub struct RelationBuffers {
    pub vertices: Vec<u64>,
    pub triangles: Vec<u64>,
    pub merge_from_vert: Vec<u64>,
    pub merge_to_vert: Vec<u64>,
    pub run_index: Vec<u64>,
    pub run_original_id: Vec<u32>,
}

/// The corners of the first `n` listed triangles.
pub open spec fn corners(tris: Seq<Triangle>, order: Seq<Record>, n: int) -> Seq<u64>
    decreases n,
{
    if n <= 0 {
        Seq::empty()
    } else {
        let t = tris[order[n - 1].triangle as int];
        corners(tris, order, n - 1).push(t.a as u64).push(t.b as u64).push(t.c as u64)
    }
}

/// The coordinates of the first `n` vertices.
pub open spec fn coordinates(verts: Seq<Point3>, n: int) -> Seq<u64>
    decreases n,
{
    if n <= 0 {
        Seq::empty()
    } else {
        coordinates(verts, n - 1).push(verts[n - 1].x).push(verts[n - 1].y).push(verts[n - 1].z)
    }
}

/// The runs of the first `n` listed triangles: where each starts (three entries
/// to a triangle), and the pair its number stands for. A run holds triangles of
/// one pair, and the next run is of another.
pub open spec fn runs_of(
    pairs: Seq<(SurfaceAttributionId, u64)>,
    order: Seq<Record>,
    index: Seq<u64>,
    ids: Seq<u32>,
    n: int,
) -> bool {
    &&& index.len() == ids.len()
    &&& n > 0 ==> ids.len() > 0 && index[0] == 0
    &&& n == 0 ==> ids.len() == 0
    &&& forall|r: int| 0 <= r < ids.len() ==> #[trigger] decoded(pairs, ids[r]) is Some
    &&& forall|r: int|
        0 <= r < ids.len() ==> (#[trigger] index[r]) % 3 == 0 && index[r] < 3 * n
    &&& forall|r: int, s: int|
        0 <= r < s < ids.len() ==> #[trigger] index[r] < #[trigger] index[s]
    &&& forall|r: int, k: int|
        #![trigger ids[r], order[k]]
        0 <= r < ids.len() && index[r] <= 3 * k && 3 * k < (if r + 1 < ids.len() {
            index[r + 1] as int
        } else {
            3 * n
        }) ==> decoded(pairs, ids[r]) == Some(
            (SurfaceAttributionId(order[k].surface), order[k].patch),
        )
    &&& forall|r: int|
        0 < r < ids.len() ==> decoded(pairs, #[trigger] ids[r]) != decoded(pairs, ids[r - 1])
}

/// What the tables hold of a mesh.
pub open spec fn tabled(
    b: RelationBuffers,
    m: AttributedView,
    order: Seq<Record>,
    pairs: Seq<(SurfaceAttributionId, u64)>,
) -> bool {
    let n = m.mesh.tris.len() as int;
    &&& is_run_order(m, order)
    &&& b.triangles@ == corners(m.mesh.tris, order, n)
    &&& b.vertices@ == coordinates(m.mesh.verts, m.mesh.verts.len() as int)
    &&& b.merge_from_vert@.len() == 0
    &&& b.merge_to_vert@.len() == 0
    &&& if n == 0 {
        b.run_index@.len() == 0 && b.run_original_id@.len() == 0
    } else {
        &&& b.run_index@.len() == b.run_original_id@.len() + 1
        &&& b.run_index@.last() == 3 * n
        &&& runs_of(pairs, order, b.run_index@.drop_last(), b.run_original_id@, n)
    }
}

/// The tables hold the mesh in some order of runs.
pub open spec fn has_tables(
    b: RelationBuffers,
    m: AttributedView,
    pairs: Seq<(SurfaceAttributionId, u64)>,
) -> bool {
    exists|order: Seq<Record>| #[trigger] tabled(b, m, order, pairs)
}

fn records_of(mesh: &RelationMesh) -> (r: Vec<Record>)
    requires
        mesh@.fits(),
    ensures
        is_run_order(mesh@.attributed, r@),
{
    let n: usize = mesh.attributed.mesh.tris.len();
    let mut v: Vec<Record> = Vec::new();
    for t in 0..n
        invariant
            n == mesh@.attributed.mesh.tris.len(),
            mesh@.fits(),
            v@.len() == t,
            forall|k: int| 0 <= k < t ==> #[trigger] v@[k] == record_of(mesh@.attributed, k),
    {
        v.push(
            Record {
                surface: mesh.attributed.surface_ids[t].0,
                patch: mesh.attributed.source_face_ids[t],
                triangle: t,
            },
        );
    }
    let ghost plain = v@;
    proof {
        assert(plain.no_duplicates()) by {
            assert forall|i: int, j: int|
                0 <= i < plain.len() && 0 <= j < plain.len() && i != j implies plain[i]
                != plain[j] by {
                assert(plain[i].triangle == i);
                assert(plain[j].triangle == j);
            }
        }
        plain.lemma_multiset_has_no_duplicates();
    }
    let r = sorted(v);
    proof {
        plain.to_multiset_ensures();
        r@.to_multiset_ensures();
        r@.lemma_multiset_has_no_duplicates_conv();
        assert forall|k: int| 0 <= k < r@.len() implies (#[trigger] r@[k]).triangle
            < mesh@.attributed.mesh.tris.len() && r@[k] == record_of(
            mesh@.attributed,
            r@[k].triangle as int,
        ) by {
            assert(r@.to_multiset().count(r@[k]) > 0);
            assert(plain.contains(r@[k]));
            let j = choose|j: int| 0 <= j < plain.len() && plain[j] == r@[k];
            assert(plain[j] == record_of(mesh@.attributed, j));
        }
    }
    r
}

proof fn lemma_new_run(
    pairs0: Seq<(SurfaceAttributionId, u64)>,
    pairs: Seq<(SurfaceAttributionId, u64)>,
    order: Seq<Record>,
    index: Seq<u64>,
    ids: Seq<u32>,
    i: int,
    id: u32,
)
    requires
        runs_of(pairs0, order, index, ids, i),
        pairs0.is_prefix_of(pairs),
        0 <= i < order.len(),
        3 * i <= u64::MAX,
        decoded(pairs, id) == Some((SurfaceAttributionId(order[i].surface), order[i].patch)),
        i > 0 ==> order[i].surface != order[i - 1].surface || order[i].patch != order[i - 1].patch,
    ensures
        runs_of(pairs, order, index.push((3 * i) as u64), ids.push(id), i + 1),
{
    let ids2 = ids.push(id);
    let index2 = index.push((3 * i) as u64);
    assert forall|r: int| 0 <= r < ids.len() implies decoded(pairs, #[trigger] ids[r]) == decoded(
        pairs0,
        ids[r],
    ) by {
        assert(decoded(pairs0, ids[r]) is Some);
    }
    assert forall|r: int| 0 <= r < ids2.len() implies #[trigger] decoded(pairs, ids2[r]) is Some by {
        if r < ids.len() {
            assert(decoded(pairs0, ids[r]) is Some);
        }
    }
    assert forall|r: int| 0 <= r < ids2.len() implies (#[trigger] index2[r]) % 3 == 0 && index2[r]
        < 3 * (i + 1) by {
        if r < ids.len() {
            assert(index[r] % 3 == 0);
        }
    }
    assert forall|r: int, s: int| 0 <= r < s < ids2.len() implies #[trigger] index2[r]
        < #[trigger] index2[s] by {
        assert(index[r] < 3 * i);
    }
    assert forall|r: int, k: int|
        #![trigger ids2[r], order[k]]
        0 <= r < ids2.len() && index2[r] <= 3 * k && 3 * k < (if r + 1 < ids2.len() {
            index2[r + 1] as int
        } else {
            3 * (i + 1)
        }) implies decoded(pairs, ids2[r]) == Some(
        (SurfaceAttributionId(order[k].surface), order[k].patch),
    ) by {
        if r < ids.len() {
            assert(ids2[r] == ids[r]);
            assert(decoded(pairs0, ids[r]) == Some(
                (SurfaceAttributionId(order[k].surface), order[k].patch),
            ));
        } else {
            assert(k == i);
        }
    }
    assert forall|r: int| 0 < r < ids2.len() implies decoded(pairs, #[trigger] ids2[r]) != decoded(
        pairs,
        ids2[r - 1],
    ) by {
        assert(ids2[r - 1] == ids[r - 1]);
        if r < ids.len() {
            assert(ids2[r] == ids[r]);
            assert(decoded(pairs0, ids[r]) != decoded(pairs0, ids[r - 1]));
        } else {
            let k = i - 1;
            assert(index[r - 1] < 3 * i);
            assert(index[r - 1] % 3 == 0);
            assert(decoded(pairs0, ids[r - 1]) == Some(
                (SurfaceAttributionId(order[k].surface), order[k].patch),
            ));
        }
    }
}

proof fn lemma_same_run(
    pairs: Seq<(SurfaceAttributionId, u64)>,
    order: Seq<Record>,
    index: Seq<u64>,
    ids: Seq<u32>,
    i: int,
)
    requires
        runs_of(pairs, order, index, ids, i),
        0 < i < order.len(),
        order[i].surface == order[i - 1].surface,
        order[i].patch == order[i - 1].patch,
    ensures
        runs_of(pairs, order, index, ids, i + 1),
{
    assert forall|r: int, k: int|
        #![trigger ids[r], order[k]]
        0 <= r < ids.len() && index[r] <= 3 * k && 3 * k < (if r + 1 < ids.len() {
            index[r + 1] as int
        } else {
            3 * (i + 1)
        }) implies decoded(pairs, ids[r]) == Some(
        (SurfaceAttributionId(order[k].surface), order[k].patch),
    ) by {
        if k == i {
            assert(index[r] < 3 * i);
            assert(index[r] % 3 == 0);
            assert(decoded(pairs, ids[r]) == Some(
                (SurfaceAttributionId(order[i - 1].surface), order[i - 1].patch),
            ));
        }
    }
}

/// The tables of a relation mesh: triangles sorted into runs, a run for each
/// surface and patch, numbered so that the pair can be recovered.
#[verifier::rlimit(40)]
pub fn relation_buffers(mesh: &RelationMesh, keys: &mut RunKeys) -> (r: Result<
    RelationBuffers,
    GeomError,
>)
    requires
        old(keys).wf(),
        mesh@.attributed.mesh.tris.len() <= usize::MAX / 3,
    ensures
        final(keys).wf(),
        old(keys)@.is_prefix_of(final(keys)@),
        mesh@.fault() is None || r is Err,
        r matches Ok(b) ==> has_tables(b, mesh@.attributed, final(keys)@),
        r matches Err(e) ==> e@ == match mesh@.fault() {
            Some(m) => GeomFault::Invariant(m),
            None => GeomFault::Invariant("relation run ID overflow"@),
        },
        r is Err && mesh@.fault() is None ==> final(keys)@.len() == u32::MAX,
{
    match mesh.validate() {
        Ok(_) => {},
        Err(e) => return Err(e),
    }
    let order = records_of(mesh);
    let n: usize = order.len();
    let ghost att = mesh@.attributed;
    let mut triangles: Vec<u64> = Vec::new();
    let mut run_index: Vec<u64> = Vec::new();
    let mut run_original_id: Vec<u32> = Vec::new();
    let mut i: usize = 0;
    while i < n
        invariant
            n == order@.len(),
            n <= usize::MAX / 3,
            att == mesh@.attributed,
            mesh@.fault() is None,
            is_run_order(att, order@),
            keys.wf(),
            old(keys)@.is_prefix_of(keys@),
            i <= n,
            triangles@.len() == 3 * i,
            triangles@ == corners(att.mesh.tris, order@, i as int),
            runs_of(keys@, order@, run_index@, run_original_id@, i as int),
        decreases n - i,
    {
        let rec = order[i];
        let changed: bool = if i == 0 {
            true
        } else {
            rec.surface != order[i - 1].surface || rec.patch != order[i - 1].patch
        };
        let ghost pairs0 = keys@;
        let ghost (index0, ids0) = (run_index@, run_original_id@);
        if changed {
            let id = match keys.intern(SurfaceAttributionId(rec.surface), rec.patch) {
                Ok(id) => id,
                Err(e) => return Err(e),
            };
            run_index.push((i * 3) as u64);
            run_original_id.push(id);
            proof {
                lemma_new_run(pairs0, keys@, order@, index0, ids0, i as int, id);
            }
        } else {
            proof {
                lemma_same_run(pairs0, order@, index0, ids0, i as int);
            }
        }
        assert(order@[i as int].triangle < att.mesh.tris.len());
        let t = mesh.attributed.mesh.tris[rec.triangle];
        triangles.push(t.a as u64);
        triangles.push(t.b as u64);
        triangles.push(t.c as u64);
        i = i + 1;
    }
    let ghost starts = run_index@;
    if run_original_id.len() > 0 {
        run_index.push(triangles.len() as u64);
        assert(run_index@.drop_last() =~= starts);
    }
    let mut vertices: Vec<u64> = Vec::new();
    let verts = &mesh.attributed.mesh.verts;
    for v in 0..verts.len()
        invariant
            vertices@ == coordinates(verts@, v as int),
    {
        vertices.push(verts[v].x);
        vertices.push(verts[v].y);
        vertices.push(verts[v].z);
    }
    let b = RelationBuffers {
        vertices,
        triangles,
        merge_from_vert: Vec::new(),
        merge_to_vert: Vec::new(),
        run_index,
        run_original_id,
    };
    assert(tabled(b, mesh@.attributed, order@, keys@));
    assert(has_tables(b, mesh@.attributed, keys@));
    Ok(b)
}

// ---- reading the tables back -----------------------------------------------------------

proof fn lemma_corners(tris: Seq<Triangle>, order: Seq<Record>, n: int, k: int)
    requires
        0 <= k < n,
    ensures
        corners(tris, order, n).len() == 3 * n,
        corners(tris, order, n)[3 * k] == tris[order[k].triangle as int].a,
        corners(tris, order, n)[3 * k + 1] == tris[order[k].triangle as int].b,
        corners(tris, order, n)[3 * k + 2] == tris[order[k].triangle as int].c,
    decreases n,
{
    if n > 1 {
        lemma_corners(tris, order, n - 1, if k < n - 1 { k } else { 0 });
    } else {
        assert(corners(tris, order, 0) =~= Seq::empty());
    }
}

proof fn lemma_coordinates(verts: Seq<Point3>, n: int, k: int)
    requires
        0 <= k < n,
    ensures
        coordinates(verts, n).len() == 3 * n,
        coordinates(verts, n)[3 * k] == verts[k].x,
        coordinates(verts, n)[3 * k + 1] == verts[k].y,
        coordinates(verts, n)[3 * k + 2] == verts[k].z,
    decreases n,
{
    if n > 1 {
        lemma_coordinates(verts, n - 1, if k < n - 1 { k } else { 0 });
    } else {
        assert(coordinates(verts, 0) =~= Seq::empty());
    }
}

proof fn lemma_owner(parts: RelationParts, t: int, n: int)
    requires
        0 < n < parts.run_index@.len(),
        parts.run_index@[0] == 0,
        forall|r: int| 0 <= r < parts.run_index@.len() ==> (#[trigger] parts.run_index@[r]) % 3 == 0,
        0 <= 3 * t < parts.run_index@[n],
    ensures
        parts.owner(t, n) is Some,
        0 <= parts.owner(t, n)->0 < n,
        parts.run_start(parts.owner(t, n)->0) <= t < parts.run_end(parts.owner(t, n)->0),
    decreases n,
{
    assert(parts.run_index@[n] % 3 == 0);
    assert(parts.run_index@[n - 1] % 3 == 0);
    if parts.run_start(n - 1) > t {
        lemma_owner(parts, t, n - 1);
    }
}

/// Some tables are those handed to a kernel, unchanged.
pub open spec fn unchanged(parts: RelationParts, b: RelationBuffers) -> bool {
    &&& parts.num_prop == 3
    &&& parts.vertex_properties@ == b.vertices@
    &&& parts.triangle_vertices@ == b.triangles@
    &&& parts.run_index@ == b.run_index@
    &&& parts.run_original_id@ == b.run_original_id@
    &&& parts.merge_from_vert@ == b.merge_from_vert@
    &&& parts.merge_to_vert@ == b.merge_to_vert@
    &&& parts.run_flags@.len() == 0
}

/// No vertex is merged elsewhere.
pub open spec fn still(map: Seq<u64>) -> bool {
    forall|v: int| 0 <= v < map.len() ==> #[trigger] map[v] == v
}

proof fn lemma_still(map: Seq<u64>, v: int)
    requires
        still(map),
        0 <= v < map.len(),
    ensures
        crate::relation::settled(map, v) == v,
        crate::relation::ends(map, v),
{
    assert(map[v] == v);
    assert(crate::relation::settles_in(map, v, 0, v));
    assert(crate::relation::settles(map, v, v));
    let s = crate::relation::settled(map, v);
    assert(crate::relation::settles(map, v, s));
    crate::relation::lemma_settles_unique(map, v, v, s);
}

proof fn lemma_counts(
    b: RelationBuffers,
    m: AttributedView,
    order: Seq<Record>,
    pairs: Seq<(SurfaceAttributionId, u64)>,
    parts: RelationParts,
)
    requires
        tabled(b, m, order, pairs),
        unchanged(parts, b),
        m.mesh.verts.len() <= u32::MAX,
    ensures
        parts.vertex_count() == m.mesh.verts.len(),
        parts.triangle_count() == m.mesh.tris.len(),
        parts.vertex_properties@.len() == 3 * m.mesh.verts.len(),
        parts.triangle_vertices@.len() == 3 * m.mesh.tris.len(),
        parts.merges().len() == m.mesh.verts.len(),
        still(parts.merges()),
        parts.points() =~= m.mesh.verts,
{
    let n = m.mesh.tris.len() as int;
    let vn = m.mesh.verts.len() as int;
    if vn > 0 {
        lemma_coordinates(m.mesh.verts, vn, 0);
    } else {
        assert(coordinates(m.mesh.verts, vn) =~= Seq::empty());
    }
    if n > 0 {
        lemma_corners(m.mesh.tris, order, n, 0);
    } else {
        assert(corners(m.mesh.tris, order, n) =~= Seq::empty());
    }
    assert forall|k: int| 0 <= k < vn implies #[trigger] parts.points()[k] == m.mesh.verts[k] by {
        lemma_coordinates(m.mesh.verts, vn, k);
    }
}

proof fn lemma_no_fault(
    b: RelationBuffers,
    m: AttributedView,
    order: Seq<Record>,
    pairs: Seq<(SurfaceAttributionId, u64)>,
    parts: RelationParts,
)
    requires
        tabled(b, m, order, pairs),
        unchanged(parts, b),
        m.mesh.indexed(),
        m.mesh.verts.len() <= u32::MAX,
    ensures
        parts.fault(pairs) is None,
{
    lemma_counts(b, m, order, pairs, parts);
    assert forall|v: int| 0 <= v < parts.vertex_count() implies #[trigger] crate::relation::ends(
        parts.merges(),
        v,
    ) by {
        lemma_still(parts.merges(), v);
    }
    lemma_no_corner_fault(parts, m, order, 0);
    if m.mesh.tris.len() > 0 {
        lemma_no_run_fault(parts, pairs, order, m.mesh.tris.len() as int, 0);
    }
}

proof fn lemma_triangle_back(
    b: RelationBuffers,
    m: AttributedView,
    order: Seq<Record>,
    pairs: Seq<(SurfaceAttributionId, u64)>,
    parts: RelationParts,
    k: int,
)
    requires
        tabled(b, m, order, pairs),
        unchanged(parts, b),
        m.mesh.indexed(),
        m.mesh.verts.len() <= u32::MAX,
        0 <= k < order.len(),
    ensures
        ({
            let t = order[k].triangle as int;
            let runs = parts.run_original_id@.len() as int;
            &&& 0 <= t < m.mesh.tris.len()
            &&& parts.corner(3 * k) == m.mesh.tris[t].a
            &&& parts.corner(3 * k + 1) == m.mesh.tris[t].b
            &&& parts.corner(3 * k + 2) == m.mesh.tris[t].c
            &&& parts.attribution(pairs, k, runs) == (m.surface_ids[t], m.source_face_ids[t])
            &&& !parts.turned(k, runs)
        }),
{
    let n = m.mesh.tris.len() as int;
    let t = order[k].triangle as int;
    let runs = parts.run_original_id@.len() as int;
    let index = b.run_index@;
    let starts = index.drop_last();
    lemma_counts(b, m, order, pairs, parts);
    assert(order[k] == record_of(m, t));
    assert(m.mesh.tris[t].within(m.mesh.verts.len()));
    lemma_corners(m.mesh.tris, order, n, k);
    lemma_still(parts.merges(), m.mesh.tris[t].a as int);
    lemma_still(parts.merges(), m.mesh.tris[t].b as int);
    lemma_still(parts.merges(), m.mesh.tris[t].c as int);
    assert forall|q: int| 0 <= q < index.len() implies (#[trigger] index[q]) % 3 == 0 by {
        if q < starts.len() {
            assert(starts[q] % 3 == 0);
            assert(starts[q] == index[q]);
        }
    }
    assert(starts[0] == index[0]);
    lemma_owner(parts, k, runs);
    let o = parts.owner(k, runs)->0;
    if o + 1 < runs {
        assert(starts[o + 1] == index[o + 1]);
    }
    assert(starts[o] == index[o]);
    assert(index[o] % 3 == 0);
    assert(index[o + 1] % 3 == 0);
    assert(decoded(pairs, b.run_original_id@[o]) == Some(
        (SurfaceAttributionId(order[k].surface), order[k].patch),
    ));
}

/// Tables that come back from a kernel unchanged are in order, and describe the
/// mesh they were made from: the same vertices, and each triangle with its own
/// corners, surface and patch, in the order of the runs.
pub proof fn law_tables_read_back(
    b: RelationBuffers,
    m: AttributedView,
    order: Seq<Record>,
    pairs: Seq<(SurfaceAttributionId, u64)>,
    parts: RelationParts,
    r: RelationView,
)
    requires
        tabled(b, m, order, pairs),
        unchanged(parts, b),
        m.mesh.indexed(),
        m.mesh.verts.len() <= u32::MAX,
        parts.describes(pairs, r),
    ensures
        parts.fault(pairs) is None,
        r.attributed.mesh.verts =~= m.mesh.verts,
        r.attributed.mesh.tris.len() == m.mesh.tris.len(),
        forall|k: int|
            0 <= k < order.len() ==> #[trigger] r.attributed.mesh.tris[k]
                == m.mesh.tris[order[k].triangle as int] && r.attributed.surface_ids[k]
                == m.surface_ids[order[k].triangle as int] && r.attributed.source_face_ids[k]
                == m.source_face_ids[order[k].triangle as int] && !r.backside[k],
{
    lemma_no_fault(b, m, order, pairs, parts);
    lemma_counts(b, m, order, pairs, parts);
    assert forall|k: int| 0 <= k < order.len() implies #[trigger] r.attributed.mesh.tris[k]
        == m.mesh.tris[order[k].triangle as int] && r.attributed.surface_ids[k]
        == m.surface_ids[order[k].triangle as int] && r.attributed.source_face_ids[k]
        == m.source_face_ids[order[k].triangle as int] && !r.backside[k] by {
        lemma_triangle_back(b, m, order, pairs, parts, k);
    }
}

proof fn lemma_no_run_fault(
    parts: RelationParts,
    pairs: Seq<(SurfaceAttributionId, u64)>,
    order: Seq<Record>,
    n: int,
    r: int,
)
    requires
        0 <= r <= parts.run_original_id@.len(),
        parts.run_index@.len() == parts.run_original_id@.len() + 1,
        parts.run_index@.last() == 3 * n,
        parts.triangle_count() == n,
        runs_of(pairs, order, parts.run_index@.drop_last(), parts.run_original_id@, n),
    ensures
        parts.run_fault(pairs, r) is None,
    decreases parts.run_original_id@.len() - r,
{
    if r < parts.run_original_id@.len() {
        let starts = parts.run_index@.drop_last();
        let ids = parts.run_original_id@;
        assert(decoded(pairs, ids[r]) is Some);
        assert(starts[r] < 3 * n);
        assert(starts[r] == parts.run_index@[r]);
        if r + 1 < ids.len() {
            assert(starts[r + 1] == parts.run_index@[r + 1]);
            assert(starts[r] < starts[r + 1]);
            assert(starts[r + 1] < 3 * n);
        }
        lemma_no_run_fault(parts, pairs, order, n, r + 1);
    }
}

proof fn lemma_no_corner_fault(
    parts: RelationParts,
    m: AttributedView,
    order: Seq<Record>,
    i: int,
)
    requires
        0 <= i <= parts.triangle_vertices@.len(),
        is_run_order(m, order),
        parts.triangle_vertices@ == corners(m.mesh.tris, order, m.mesh.tris.len() as int),
        parts.triangle_vertices@.len() == 3 * m.mesh.tris.len(),
        m.mesh.indexed(),
        parts.vertex_count() == m.mesh.verts.len(),
        m.mesh.verts.len() <= u32::MAX,
        parts.merges().len() == m.mesh.verts.len(),
        still(parts.merges()),
    ensures
        parts.corner_fault(i) is None,
    decreases parts.triangle_vertices@.len() - i,
{
    if i < parts.triangle_vertices@.len() {
        let k = i / 3;
        lemma_corners(m.mesh.tris, order, m.mesh.tris.len() as int, k);
        let t = order[k].triangle as int;
        assert(order[k] == record_of(m, t));
        assert(m.mesh.tris[t].within(m.mesh.verts.len()));
        let v = parts.triangle_vertices@[i] as int;
        assert(i == 3 * k || i == 3 * k + 1 || i == 3 * k + 2);
        assert(v < m.mesh.verts.len());
        lemma_still(parts.merges(), v);
        lemma_no_corner_fault(parts, m, order, i + 1);
    }
}

} // verus!
