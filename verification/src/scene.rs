//! Rendering a tree of operations into meshes that remember where each
//! triangle comes from.

use crate::blob::texts;
use crate::error::{misfit, GeomError, GeomFault};
use crate::mesh::{Mesh, MeshView, Triangle};
use crate::node::{is_boundary_node, is_primitive, Node};
use crate::num::{Arithmetic, Calc, Reading};
use crate::numbers::{least, lemma_least, numbers, same_members, Numbers};
use crate::patches::{repeat_patch, unclassified};
use crate::provenance::{path, FrameView};
use crate::relation::{
    mismatch, mismatch_text, AttributedMesh, AttributedView, RelationMesh, RelationView,
    SurfaceAttributionId,
};
use crate::sources::{hull_patch_ids, hull_patches, mesh_views, source_patch_ids, source_patches};
use crate::surfaces::{
    active_id, active_surface, contributes, generated_id, generated_surface, global_patch_ids,
    interned, is_contributor_list, is_generated, lemma_generated_unique, renumbered, stands_for,
    ActiveSurface, AttributionStatus, ContributionKind, DisplayMode, Rgba, SurfaceTable,
    SurfaceView, UNCLASSIFIED_PATCH_ID,
};
use crate::text::same_text;
use vstd::prelude::*;

verus! {

// ---- the geometry host ------------------------------------------------------------------------

/// A question to the geometry host.
pub ghost enum Ask {
    Union(Seq<RelationView>),
    Difference(RelationView, Seq<RelationView>),
    Intersection(Seq<RelationView>),
    /// The mesh of a node.
    Render(Node),
    /// A mesh moved as a node says.
    Move(Node, MeshView),
    /// Whether a node is flat.
    Flat(Node),
    /// The mesh and the colors of a 3MF file.
    Decode(Seq<u8>),
    /// What rendering had to report.
    Reports,
}

/// An answer of the geometry host.
pub ghost enum Reply {
    Relation(Result<RelationView, Seq<char>>),
    Mesh(Result<MeshView, GeomFault>),
    Flag(bool),
    Decoded(Option<(MeshView, Seq<Option<Rgba>>)>),
    Reports(Seq<Seq<char>>, Seq<Seq<char>>),
}

/// One reading of all answers.
pub type Answers = spec_fn(Ask) -> Reply;

/// The host that computes geometry. Nothing is promised of it.
pub trait Geometry {
    fn union(&mut self, meshes: &Vec<RelationMesh>) -> Result<RelationMesh, String>;

    fn difference(&mut self, base: &RelationMesh, tools: &Vec<RelationMesh>) -> Result<
        RelationMesh,
        String,
    >;

    fn intersection(&mut self, meshes: &Vec<RelationMesh>) -> Result<RelationMesh, String>;

    fn render(&mut self, node: &Node) -> Result<Mesh, GeomError>;

    fn moved(&mut self, node: &Node, mesh: &Mesh) -> Mesh;

    fn is_2d(&mut self, node: &Node) -> bool;

    fn decode_3mf(&mut self, data: &Vec<u8>) -> Option<(Mesh, Vec<Option<Rgba>>)>;

    /// The warnings and the errors that rendering came with.
    fn reports(&mut self) -> (Vec<String>, Vec<String>);
}

/// What relation meshes hold.
pub open spec fn relation_views(v: Seq<RelationMesh>) -> Seq<RelationView> {
    v.map_values(|m: RelationMesh| m@)
}

/// What the host has answered so far.
pub struct Log {
    entries: Ghost<Seq<(Ask, Reply)>>,
}

impl Log {
    /// Whether every answer so far is the one that `a` gives.
    pub closed spec fn agrees(&self, a: Answers) -> bool {
        forall|i: int| 0 <= i < self.entries@.len() ==> (#[trigger] self.entries@[i]).1 == a(
            self.entries@[i].0,
        )
    }

    pub fn new() -> (r: Self)
        ensures
            forall|a: Answers| #[trigger] r.agrees(a),
    {
        Log { entries: Ghost(Seq::empty()) }
    }

    pub(crate) fn note(&mut self, Ghost(q): Ghost<Ask>, Ghost(r): Ghost<Reply>)
        ensures
            forall|a: Answers| #[trigger] final(self).agrees(a) ==> old(self).agrees(a) && a(q) == r,
    {
        let ghost before = self.entries@;
        self.entries = Ghost(self.entries@.push((q, r)));
        proof {
            assert forall|a: Answers| #[trigger] self.agrees(a) implies old(self).agrees(a) && a(q)
                == r by {
                assert(self.entries@[before.len() as int] == (q, r));
                assert forall|i: int| 0 <= i < before.len() implies (#[trigger] before[i]).1 == a(
                    before[i].0,
                ) by {
                    assert(self.entries@[i] == before[i]);
                }
            }
        }
    }
}

// ---- meshes that fit -----------------------------------------------------------------------------

/// The mesh fits together, and its surfaces are among the first `n`.
pub open spec fn sound(m: RelationView, n: nat) -> bool {
    &&& m.fits()
    &&& m.attributed.mesh.indexed()
    &&& forall|t: int|
        0 <= t < m.attributed.surface_ids.len() ==> (#[trigger] m.attributed.surface_ids[t]).0 < n
}

/// All meshes are sound.
pub open spec fn all_sound(ms: Seq<RelationView>, n: nat) -> bool {
    forall|i: int| 0 <= i < ms.len() ==> sound(#[trigger] ms[i], n)
}

fn indexed_mesh(mesh: &Mesh) -> (r: bool)
    ensures
        r == mesh@.indexed(),
{
    let n: usize = mesh.verts.len();
    let mut i: usize = 0;
    while i < mesh.tris.len()
        invariant
            n == mesh@.verts.len(),
            i <= mesh@.tris.len(),
            forall|k: int| 0 <= k < i ==> #[trigger] mesh@.tris[k].within(mesh@.verts.len()),
        decreases mesh.tris.len() - i,
    {
        let t = mesh.tris[i];
        if t.a as usize >= n || t.b as usize >= n || t.c as usize >= n {
            assert(!mesh@.tris[i as int].within(mesh@.verts.len()));
            return false;
        }
        assert(mesh@.tris[i as int].within(mesh@.verts.len()));
        i = i + 1;
    }
    true
}

fn test_sound(m: &RelationMesh, n: usize) -> (r: bool)
    ensures
        r == sound(m@, n as nat),
{
    let k: usize = m.attributed.mesh.tris.len();
    if m.attributed.surface_ids.len() != k || m.attributed.source_face_ids.len() != k
        || m.backside.len() != k || !indexed_mesh(&m.attributed.mesh) {
        return false;
    }
    let mut i: usize = 0;
    while i < m.attributed.surface_ids.len()
        invariant
            i <= m@.attributed.surface_ids.len(),
            forall|t: int| 0 <= t < i ==> (#[trigger] m@.attributed.surface_ids[t]).0 < n,
        decreases m.attributed.surface_ids.len() - i,
    {
        if m.attributed.surface_ids[i].0 as usize >= n {
            assert(m@.attributed.surface_ids[i as int].0 >= n);
            return false;
        }
        i = i + 1;
    }
    true
}

// ---- joining without a boolean ---------------------------------------------------------------------

/// A triangle whose corners come `n` vertices later.
pub open spec fn shifted(t: Triangle, n: int) -> Triangle {
    Triangle { a: (t.a + n) as u32, b: (t.b + n) as u32, c: (t.c + n) as u32 }
}

/// Two meshes side by side.
pub open spec fn appended(a: RelationView, b: RelationView) -> RelationView {
    let n = a.attributed.mesh.verts.len() as int;
    RelationView {
        attributed: AttributedView {
            mesh: MeshView {
                verts: a.attributed.mesh.verts + b.attributed.mesh.verts,
                tris: a.attributed.mesh.tris + b.attributed.mesh.tris.map_values(
                    |t: Triangle| shifted(t, n),
                ),
            },
            surface_ids: a.attributed.surface_ids + b.attributed.surface_ids,
            source_face_ids: a.attributed.source_face_ids + b.attributed.source_face_ids,
        },
        backside: a.backside + b.backside,
    }
}

/// A mesh without triangles.
pub open spec fn nothing() -> RelationView {
    RelationView {
        attributed: AttributedView {
            mesh: MeshView { verts: Seq::empty(), tris: Seq::empty() },
            surface_ids: Seq::empty(),
            source_face_ids: Seq::empty(),
        },
        backside: Seq::empty(),
    }
}

/// The first `n` meshes side by side.
pub open spec fn chained(ms: Seq<RelationView>, n: int) -> RelationView
    decreases n,
{
    if n <= 0 {
        nothing()
    } else {
        appended(chained(ms, n - 1), ms[n - 1])
    }
}

/// The vertices of the first `n` meshes.
pub open spec fn vertex_total(ms: Seq<RelationView>, n: int) -> nat
    decreases n,
{
    if n <= 0 {
        0
    } else {
        vertex_total(ms, n - 1) + ms[n - 1].attributed.mesh.verts.len()
    }
}

proof fn lemma_total(ms: Seq<RelationView>, i: int, n: int)
    requires
        0 <= i <= n <= ms.len(),
    ensures
        vertex_total(ms, i) <= vertex_total(ms, n),
        chained(ms, i).attributed.mesh.verts.len() == vertex_total(ms, i),
    decreases n, i,
{
    if i > 0 {
        lemma_total(ms, i - 1, i - 1);
    }
    if i < n {
        lemma_total(ms, i, n - 1);
    }
}

/// All meshes side by side, unless their vertices are too many to number.
pub open spec fn concatenated(ms: Seq<RelationView>) -> Result<RelationView, GeomFault> {
    if vertex_total(ms, ms.len() as int) <= u32::MAX {
        Ok(chained(ms, ms.len() as int))
    } else {
        Err(GeomFault::Invariant("scene has too many vertices"@))
    }
}

fn append_relation_mesh(target: &mut RelationMesh, source: &RelationMesh)
    requires
        source@.attributed.mesh.indexed(),
        old(target)@.attributed.mesh.verts.len() + source@.attributed.mesh.verts.len() <= u32::MAX,
    ensures
        final(target)@ == appended(old(target)@, source@),
{
    let n: usize = target.attributed.mesh.verts.len();
    let ghost before = target@;
    let ghost sv = source@;
    for i in 0..source.attributed.mesh.verts.len()
        invariant
            target.attributed.mesh.verts@ =~= before.attributed.mesh.verts
                + sv.attributed.mesh.verts.take(i as int),
            sv == source@,
            target.attributed.mesh.tris@ == before.attributed.mesh.tris,
            target.attributed.surface_ids@ == before.attributed.surface_ids,
            target.attributed.source_face_ids@ == before.attributed.source_face_ids,
            target.backside@ == before.backside,
    {
        target.attributed.mesh.verts.push(source.attributed.mesh.verts[i]);
    }
    let ghost moved = sv.attributed.mesh.tris.map_values(|t: Triangle| shifted(t, n as int));
    for i in 0..source.attributed.mesh.tris.len()
        invariant
            sv == source@,
            n == before.attributed.mesh.verts.len(),
            moved == sv.attributed.mesh.tris.map_values(|t: Triangle| shifted(t, n as int)),
            sv.attributed.mesh.indexed(),
            n + sv.attributed.mesh.verts.len() <= u32::MAX,
            target.attributed.mesh.tris@ =~= before.attributed.mesh.tris + moved.take(i as int),
            target.attributed.mesh.verts@ =~= before.attributed.mesh.verts
                + sv.attributed.mesh.verts,
            target.attributed.surface_ids@ == before.attributed.surface_ids,
            target.attributed.source_face_ids@ == before.attributed.source_face_ids,
            target.backside@ == before.backside,
    {
        let t = source.attributed.mesh.tris[i];
        assert(sv.attributed.mesh.tris[i as int].within(sv.attributed.mesh.verts.len()));
        let k: u32 = n as u32;
        target.attributed.mesh.tris.push(Triangle { a: t.a + k, b: t.b + k, c: t.c + k });
        assert(moved[i as int] == shifted(t, n as int));
    }
    for i in 0..source.attributed.surface_ids.len()
        invariant
            sv == source@,
            target.attributed.mesh.tris@ =~= before.attributed.mesh.tris + moved,
            target.attributed.mesh.verts@ =~= before.attributed.mesh.verts
                + sv.attributed.mesh.verts,
            target.attributed.surface_ids@ =~= before.attributed.surface_ids
                + sv.attributed.surface_ids.take(i as int),
            target.attributed.source_face_ids@ == before.attributed.source_face_ids,
            target.backside@ == before.backside,
    {
        target.attributed.surface_ids.push(source.attributed.surface_ids[i]);
    }
    for i in 0..source.attributed.source_face_ids.len()
        invariant
            sv == source@,
            target.attributed.mesh.tris@ =~= before.attributed.mesh.tris + moved,
            target.attributed.mesh.verts@ =~= before.attributed.mesh.verts
                + sv.attributed.mesh.verts,
            target.attributed.surface_ids@ =~= before.attributed.surface_ids
                + sv.attributed.surface_ids,
            target.attributed.source_face_ids@ =~= before.attributed.source_face_ids
                + sv.attributed.source_face_ids.take(i as int),
            target.backside@ == before.backside,
    {
        target.attributed.source_face_ids.push(source.attributed.source_face_ids[i]);
    }
    for i in 0..source.backside.len()
        invariant
            sv == source@,
            target.attributed.mesh.tris@ =~= before.attributed.mesh.tris + moved,
            target.attributed.mesh.verts@ =~= before.attributed.mesh.verts
                + sv.attributed.mesh.verts,
            target.attributed.surface_ids@ =~= before.attributed.surface_ids
                + sv.attributed.surface_ids,
            target.attributed.source_face_ids@ =~= before.attributed.source_face_ids
                + sv.attributed.source_face_ids,
            target.backside@ =~= before.backside + sv.backside.take(i as int),
    {
        target.backside.push(source.backside[i]);
    }
    assert(target@.backside =~= before.backside + sv.backside);
}

proof fn lemma_appended_sound(a: RelationView, b: RelationView, n: nat)
    requires
        sound(a, n),
        sound(b, n),
        a.attributed.mesh.verts.len() + b.attributed.mesh.verts.len() <= u32::MAX,
    ensures
        sound(appended(a, b), n),
{
    let r = appended(a, b);
    let k = a.attributed.mesh.tris.len();
    let total = r.attributed.mesh.verts.len();
    assert forall|i: int| 0 <= i < r.attributed.mesh.tris.len() implies (
    #[trigger] r.attributed.mesh.tris[i]).within(total) by {
        if i < k {
            assert(a.attributed.mesh.tris[i].within(a.attributed.mesh.verts.len()));
        } else {
            let t = b.attributed.mesh.tris[i - k];
            assert(t.within(b.attributed.mesh.verts.len()));
            assert(r.attributed.mesh.tris[i] == shifted(t, a.attributed.mesh.verts.len() as int));
        }
    }
    assert forall|t: int| 0 <= t < r.attributed.surface_ids.len() implies (
    #[trigger] r.attributed.surface_ids[t]).0 < n by {
        if t < k {
            assert(a.attributed.surface_ids[t].0 < n);
        } else {
            assert(b.attributed.surface_ids[t - k].0 < n);
        }
    }
}

/// Puts meshes side by side.
pub(crate) fn concatenate_scene(meshes: &Vec<RelationMesh>, Ghost(n): Ghost<nat>) -> (r: Result<
    RelationMesh,
    GeomError,
>)
    requires
        all_sound(relation_views(meshes@), n),
    ensures
        match r {
            Ok(m) => concatenated(relation_views(meshes@)) == Ok::<RelationView, GeomFault>(m@)
                && sound(m@, n),
            Err(e) => concatenated(relation_views(meshes@)) == Err::<RelationView, GeomFault>(e@),
        },
{
    let ghost ms = relation_views(meshes@);
    let mut total: u64 = 0;
    let mut i: usize = 0;
    while i < meshes.len()
        invariant
            ms == relation_views(meshes@),
            i <= ms.len(),
            total == vertex_total(ms, i as int),
            total <= u32::MAX,
        decreases meshes.len() - i,
    {
        assert(ms[i as int] == meshes@[i as int]@);
        let more: usize = meshes[i].attributed.mesh.verts.len();
        proof {
            lemma_total(ms, i + 1, ms.len() as int);
        }
        if more > 0xffff_ffff || total + more as u64 > 0xffff_ffff {
            return Err(GeomError::Invariant("scene has too many vertices".to_owned()));
        }
        total = total + more as u64;
        i = i + 1;
    }
    let mut out = RelationMesh::empty();
    proof {
        assert(out@.attributed.surface_ids =~= Seq::empty());
        assert(out@.attributed.source_face_ids =~= Seq::empty());
        assert(out@.backside =~= Seq::empty());
        assert(out@ == nothing());
        assert(sound(nothing(), n));
    }
    let mut i: usize = 0;
    while i < meshes.len()
        invariant
            ms == relation_views(meshes@),
            all_sound(ms, n),
            i <= ms.len(),
            vertex_total(ms, ms.len() as int) <= u32::MAX,
            out@ == chained(ms, i as int),
            sound(out@, n),
        decreases meshes.len() - i,
    {
        assert(ms[i as int] == meshes@[i as int]@);
        assert(sound(ms[i as int], n));
        proof {
            lemma_total(ms, i as int, ms.len() as int);
            lemma_total(ms, i + 1, ms.len() as int);
            lemma_appended_sound(out@, ms[i as int], n);
        }
        append_relation_mesh(&mut out, &meshes[i]);
        i = i + 1;
    }
    Ok(out)
}

// ---- what a scene is ---------------------------------------------------------------------------------

/// What the renderer has gathered: surfaces, the next patch number, and what it
/// has to report.
pub ghost struct St {
    pub table: Seq<SurfaceView>,
    pub next: u64,
    pub errors: Seq<Seq<char>>,
}

/// What is active where geometry is made.
pub ghost struct Active {
    pub rgba: Rgba,
    pub color_explicit: bool,
    pub mode: DisplayMode,
    pub provenance: Seq<FrameView>,
}

pub open spec fn active_of(a: ActiveSurface) -> Active {
    Active {
        rgba: a.rgba,
        color_explicit: a.color_explicit,
        mode: a.mode,
        provenance: path(a.provenance@),
    }
}

/// The surface of geometry made directly under what is active.
pub open spec fn own_surface(a: Active, kind: ContributionKind) -> SurfaceView {
    SurfaceView {
        rgba: a.rgba,
        mode: a.mode,
        provenance: a.provenance,
        contributors: Seq::empty(),
        contribution: kind,
        status: AttributionStatus::Exact,
    }
}

/// What rendering comes to.
pub ghost struct Out {
    pub r: Result<Seq<RelationView>, GeomFault>,
    pub st: St,
}

pub open spec fn fails(st: St, f: GeomFault) -> Out {
    Out { r: Err(f), st }
}

pub open spec fn gives(st: St, ms: Seq<RelationView>) -> Out {
    Out { r: Ok(ms), st }
}

pub open spec fn too_many(what: Seq<char>) -> GeomFault {
    GeomFault::Invariant("scene has too many "@ + what)
}

/// What is reported where a boolean could not be computed.
pub open spec fn skipped(op: Seq<char>, why: Seq<char>) -> Seq<char> {
    op + ": "@ + why + " — showing un-combined geometry (the boolean was skipped)"@
}

/// The result of a boolean, where it is one that fits the scene.
pub open spec fn settled(r: Reply, n: nat) -> Result<RelationView, Seq<char>> {
    match r {
        Reply::Relation(Ok(m)) => if sound(m, n) {
            Ok(m)
        } else {
            Err("relation output does not fit the scene"@)
        },
        Reply::Relation(Err(e)) => Err(e),
        _ => Err(Seq::empty()),
    }
}

/// What joining comes to.
pub ghost struct Joined {
    pub r: Result<RelationView, GeomFault>,
    pub st: St,
}

/// The union of meshes; where it cannot be computed, the meshes side by side.
pub open spec fn unioned(a: Answers, st: St, ms: Seq<RelationView>) -> Joined {
    match settled(a(Ask::Union(ms)), st.table.len()) {
        Ok(m) => Joined { r: Ok(m), st },
        Err(e) => Joined {
            r: concatenated(ms),
            st: St { errors: st.errors.push(skipped("union"@, e)), ..st },
        },
    }
}

/// The meshes that have triangles.
pub open spec fn retained(ms: Seq<RelationView>) -> Seq<RelationView> {
    ms.filter(|m: RelationView| m.attributed.mesh.tris.len() > 0)
}

/// Moves each mesh from the `i`-th on.
pub open spec fn moved_from(a: Answers, node: Node, ms: Seq<RelationView>, i: int) -> Option<
    Seq<RelationView>,
>
    decreases ms.len() - i,
{
    if i < 0 || i >= ms.len() {
        Some(Seq::empty())
    } else {
        match a(Ask::Move(node, ms[i].attributed.mesh)) {
            Reply::Mesh(Ok(v)) => if v.indexed() && v.tris.len()
                == ms[i].attributed.mesh.tris.len() {
                match moved_from(a, node, ms, i + 1) {
                    Some(rest) => Some(
                        seq![
                            RelationView {
                                attributed: AttributedView { mesh: v, ..ms[i].attributed },
                                ..ms[i]
                            },
                        ] + rest,
                    ),
                    None => None,
                }
            } else {
                None
            },
            _ => None,
        }
    }
}

/// The surfaces of all meshes.
pub open spec fn all_numbers(ms: Seq<RelationView>, n: int) -> Seq<u32>
    decreases n,
{
    if n <= 0 {
        Seq::empty()
    } else {
        all_numbers(ms, n - 1) + numbers(ms[n - 1].attributed.surface_ids)
    }
}

/// The surfaces of a difference: those of the base stay, unless seen from
/// behind; all others are what the tools have cut.
pub open spec fn cut_surfaces(m: RelationView, base: Seq<u32>, owner: u32) -> RelationView {
    RelationView {
        attributed: AttributedView {
            surface_ids: Seq::new(
                m.attributed.surface_ids.len(),
                |t: int|
                    if m.backside[t] || !base.contains(m.attributed.surface_ids[t].0) {
                        SurfaceAttributionId(owner)
                    } else {
                        m.attributed.surface_ids[t]
                    },
            ),
            ..m.attributed
        },
        backside: Seq::new(m.backside.len(), |t: int| false),
    }
}

/// A difference, given its base and its tools.
pub open spec fn differed(
    a: Answers,
    st: St,
    active: Active,
    base: RelationView,
    tools: Seq<RelationView>,
) -> Out {
    let answer = settled(a(Ask::Difference(base, tools)), st.table.len());
    let m = match answer {
        Ok(m) => m,
        Err(_) => base,
    };
    let st1 = match answer {
        Ok(_) => st,
        Err(e) => St { errors: st.errors.push(skipped("difference"@, e)), ..st },
    };
    let base_ids = numbers(base.attributed.surface_ids);
    if m.attributed.mesh.tris.len() == 0 || base_ids.len() == 0 {
        gives(st1, seq![m])
    } else if st1.table.len() >= u32::MAX {
        fails(st1, too_many("surfaces"@))
    } else {
        let v = generated_surface(
            st1.table,
            least(base_ids) as int,
            base_ids + all_numbers(tools, tools.len() as int),
            active.provenance,
            ContributionKind::DifferenceTool,
        );
        let table = interned(st1.table, v);
        gives(
            (St { table, ..st1 }),
            seq![cut_surfaces(m, base_ids, table.index_of(v) as u32)],
        )
    }
}

/// New surfaces for the triangles of an intersection from the `t`-th on: each
/// looks like the first operand's, and all operands contribute.
pub open spec fn met_from(
    table: Seq<SurfaceView>,
    ids: Seq<SurfaceAttributionId>,
    first: Seq<u32>,
    all: Seq<u32>,
    active: Active,
    t: int,
) -> Option<(Seq<SurfaceAttributionId>, Seq<SurfaceView>)>
    decreases ids.len() - t,
{
    if t < 0 || t >= ids.len() {
        Some((Seq::empty(), table))
    } else if table.len() >= u32::MAX {
        None
    } else {
        let look = if first.contains(ids[t].0) {
            ids[t].0
        } else {
            least(first)
        };
        let v = generated_surface(
            table,
            look as int,
            all,
            active.provenance,
            ContributionKind::IntersectionOperand,
        );
        let table1 = interned(table, v);
        match met_from(table1, ids, first, all, active, t + 1) {
            Some((rest, last)) => Some(
                (seq![SurfaceAttributionId(table1.index_of(v) as u32)] + rest, last),
            ),
            None => None,
        }
    }
}

/// An intersection, given its operands.
pub open spec fn intersected(
    a: Answers,
    st: St,
    active: Active,
    operands: Seq<RelationView>,
) -> Out {
    let answer = settled(a(Ask::Intersection(operands)), st.table.len());
    let made = match answer {
        Ok(m) => Ok(m),
        Err(_) => concatenated(operands),
    };
    let st1 = match answer {
        Ok(_) => st,
        Err(e) => St { errors: st.errors.push(skipped("intersection"@, e)), ..st },
    };
    let first = numbers(operands[0].attributed.surface_ids);
    match made {
        Err(f) => fails(st1, f),
        Ok(m) => if m.attributed.mesh.tris.len() == 0 || first.len() == 0 {
            gives(st1, seq![m])
        } else {
            match met_from(
                st1.table,
                m.attributed.surface_ids,
                first,
                all_numbers(operands, operands.len() as int),
                active,
                0,
            ) {
                Some((ids, table)) => gives(
                    (St { table, ..st1 }),
                    seq![
                        RelationView {
                            attributed: AttributedView { surface_ids: ids, ..m.attributed },
                            backside: Seq::new(m.backside.len(), |t: int| false),
                        },
                    ],
                ),
                None => fails(st1, too_many("surfaces"@)),
            }
        },
    }
}

/// A mesh all of one surface.
pub open spec fn plain_relation(mesh: MeshView, id: u32, patches: Seq<u64>) -> RelationView {
    RelationView {
        attributed: AttributedView {
            mesh,
            surface_ids: Seq::new(mesh.tris.len(), |t: int| SurfaceAttributionId(id)),
            source_face_ids: patches,
        },
        backside: Seq::new(mesh.tris.len(), |t: int| false),
    }
}

/// The meshes of children from the `i`-th on; none where one cannot be rendered.
pub open spec fn meshes_from(a: Answers, children: Seq<Node>, i: int) -> Option<Seq<MeshView>>
    decreases children.len() - i,
{
    if i < 0 || i >= children.len() {
        Some(Seq::empty())
    } else {
        match a(Ask::Render(children[i])) {
            Reply::Mesh(Ok(mesh)) => match meshes_from(a, children, i + 1) {
                Some(rest) => Some(seq![mesh] + rest),
                None => None,
            },
            _ => None,
        }
    }
}

/// The patches that a node's triangles come from.
pub open spec fn patches_of(m: Reading, a: Answers, node: Node, mesh: MeshView) -> Seq<u64> {
    match node {
        Node::Hull(children) => match meshes_from(a, children@, 0) {
            Some(operands) => if operands.len() > u32::MAX {
                unclassified(mesh.tris.len())
            } else {
                hull_patches(m, operands, mesh)
            },
            None => unclassified(mesh.tris.len()),
        },
        _ => source_patches(m, node, mesh),
    }
}

/// A node that is rendered as a whole.
pub open spec fn rendered(m: Reading, a: Answers, st: St, active: Active, node: Node) -> Out {
    match a(Ask::Render(node)) {
        Reply::Mesh(Ok(mesh)) => if !mesh.indexed() {
            fails(st, GeomFault::Invariant("rendered mesh is not indexed"@))
        } else if mesh.tris.len() == 0 {
            gives(st, Seq::empty())
        } else if mesh.tris.len() > u32::MAX {
            fails(st, too_many("triangles"@))
        } else if st.table.len() >= u32::MAX {
            fails(st, too_many("surfaces"@))
        } else {
            let v = own_surface(
                active,
                if is_primitive(node) {
                    ContributionKind::Boundary
                } else {
                    ContributionKind::GeneratedOpaqueOperation
                },
            );
            let table = interned(st.table, v);
            let st1 = St { table, ..st };
            let local = patches_of(m, a, node, mesh);
            if local.len() != mesh.tris.len() {
                fails(
                    st1,
                    GeomFault::Invariant(
                        mismatch(mesh.tris.len(), local.len(), " source face IDs"@),
                    ),
                )
            } else if st.next + local.len() > u64::MAX {
                fails(st1, too_many("patches"@))
            } else {
                let (ids, next) = renumbered(local, Map::empty(), st.next, 0);
                gives(
                    (St { next, ..st1 }),
                    seq![plain_relation(mesh, table.index_of(v) as u32, ids)],
                )
            }
        },
        Reply::Mesh(Err(f)) => fails(st, f),
        _ => fails(st, GeomFault::Invariant(Seq::empty())),
    }
}

/// What is active for a triangle of an import: its own color, unless one was
/// given from outside.
pub open spec fn imported(active: Active, color: Option<Rgba>) -> Active {
    match color {
        Some(c) => if active.color_explicit {
            active
        } else {
            Active { rgba: c, ..active }
        },
        None => active,
    }
}

/// The surfaces of an import's triangles from the `t`-th on.
pub open spec fn import_surfaces(
    table: Seq<SurfaceView>,
    active: Active,
    colors: Seq<Option<Rgba>>,
    t: int,
) -> Option<(Seq<SurfaceAttributionId>, Seq<SurfaceView>)>
    decreases colors.len() - t,
{
    if t < 0 || t >= colors.len() {
        Some((Seq::empty(), table))
    } else if table.len() >= u32::MAX {
        None
    } else {
        let v = own_surface(imported(active, colors[t]), ContributionKind::Boundary);
        let table1 = interned(table, v);
        match import_surfaces(table1, active, colors, t + 1) {
            Some((rest, last)) => Some(
                (seq![SurfaceAttributionId(table1.index_of(v) as u32)] + rest, last),
            ),
            None => None,
        }
    }
}

/// A 3MF import, with the colors of its triangles.
pub open spec fn decoded(a: Answers, st: St, active: Active, data: Seq<u8>) -> Out {
    match a(Ask::Decode(data)) {
        Reply::Decoded(Some((mesh, colors))) => if !mesh.indexed() || colors.len()
            != mesh.tris.len() {
            fails(st, GeomFault::Invariant("imported mesh does not fit its colors"@))
        } else {
            match import_surfaces(st.table, active, colors, 0) {
                Some((ids, table)) => gives(
                    (St { table, ..st }),
                    seq![
                        RelationView {
                            attributed: AttributedView {
                                mesh,
                                surface_ids: ids,
                                source_face_ids: Seq::new(
                                    mesh.tris.len(),
                                    |t: int| UNCLASSIFIED_PATCH_ID,
                                ),
                            },
                            backside: Seq::new(mesh.tris.len(), |t: int| false),
                        },
                    ],
                ),
                None => fails(st, too_many("surfaces"@)),
            }
        },
        _ => gives(st, Seq::empty()),
    }
}

/// The children from the `i`-th on, after `done`, those without triangles
/// dropped.
pub open spec fn sc_children(
    m: Reading,
    a: Answers,
    st: St,
    shown: bool,
    active: Active,
    children: Vec<Node>,
    i: int,
    done: Seq<RelationView>,
) -> Out
    decreases children, children@.len() - i,
{
    if i < 0 || i >= children@.len() {
        gives(st, done)
    } else {
        let o = sc(m, a, st, shown, active, children@[i]);
        match o.r {
            Ok(ms) => sc_children(m, a, o.st, shown, active, children, i + 1, done + retained(ms)),
            Err(f) => fails(o.st, f),
        }
    }
}

/// What joining several operands comes to.
pub ghost struct Operands {
    pub r: Result<Seq<RelationView>, GeomFault>,
    pub st: St,
}

/// The children from the `i`-th on, each joined into one mesh, after `done`.
pub open spec fn sc_operands(
    m: Reading,
    a: Answers,
    st: St,
    shown: bool,
    active: Active,
    children: Vec<Node>,
    i: int,
    done: Seq<RelationView>,
) -> Operands
    decreases children, children@.len() - i,
{
    if i < 0 || i >= children@.len() {
        Operands { r: Ok(done), st }
    } else {
        let o = sc(m, a, st, shown, active, children@[i]);
        match o.r {
            Ok(ms) => {
                let j = unioned(a, o.st, ms);
                match j.r {
                    Ok(one) => sc_operands(m, a, j.st, shown, active, children, i + 1, done.push(one)),
                    Err(f) => Operands { r: Err(f), st: j.st },
                }
            },
            Err(f) => Operands { r: Err(f), st: o.st },
        }
    }
}

/// The meshes of a child, moved.
pub open spec fn sc_moved(
    a: Answers,
    node: Node,
    o: Out,
) -> Out {
    match o.r {
        Ok(ms) => match moved_from(a, node, ms, 0) {
            Some(r) => gives(o.st, r),
            None => fails(o.st, GeomFault::Invariant("transform changed the triangles"@)),
        },
        Err(f) => fails(o.st, f),
    }
}

/// The meshes of a node. `shown` says whether backgrounds are rendered.
pub open spec fn sc(m: Reading, a: Answers, st: St, shown: bool, active: Active, node: Node) -> Out
    decreases node, 0int,
{
    match node {
        Node::Empty => gives(st, Seq::empty()),
        Node::Background(child) => if !shown {
            gives(st, Seq::empty())
        } else {
            sc(m, a, st, shown, (Active { mode: DisplayMode::Background, ..active }), *child)
        },
        Node::Color { rgba, child } => sc(m, a,             st,
            shown,
            (Active { rgba, color_explicit: true, ..active }),
            *child,
        ),
        Node::Highlight(child) => if !shown {
            sc(m, a, st, shown, active, *child)
        } else {
            sc(m, a, st, shown, (Active { mode: DisplayMode::Highlight, ..active }), *child)
        },
        Node::Provenance { frame, child } => sc(m, a,             st,
            shown,
            (Active { provenance: active.provenance.push(frame@), ..active }),
            *child,
        ),
        Node::Group(children) => sc_children(m, a, st, shown, active, children, 0, Seq::empty()),
        Node::Union(children) => {
            let o = sc_children(m, a, st, shown, active, children, 0, Seq::empty());
            match o.r {
                Ok(ms) => {
                    let j = unioned(a, o.st, ms);
                    match j.r {
                        Ok(one) => gives(j.st, seq![one]),
                        Err(f) => fails(j.st, f),
                    }
                },
                Err(f) => fails(o.st, f),
            }
        },
        Node::Translate { child, .. } => sc_moved(a, node, sc(m, a, st, shown, active, *child)),
        Node::Rotate { child, .. } => sc_moved(a, node, sc(m, a, st, shown, active, *child)),
        Node::Scale { child, .. } => sc_moved(a, node, sc(m, a, st, shown, active, *child)),
        Node::Mirror { child, .. } => sc_moved(a, node, sc(m, a, st, shown, active, *child)),
        Node::MultMatrix { child, .. } => sc_moved(a, node, sc(m, a, st, shown, active, *child)),
        Node::Difference(children) => if a(Ask::Flat(node)) == Reply::Flag(true) {
            rendered(m, a, st, active, node)
        } else if children@.len() == 0 {
            gives(st, Seq::empty())
        } else {
            let o = sc(m, a, st, shown, active, children@[0]);
            match o.r {
                Ok(ms) => {
                    let j = unioned(a, o.st, ms);
                    match j.r {
                        Ok(base) => {
                            let t = sc_children(m, a,                                 j.st,
                                shown,
                                active,
                                children,
                                1,
                                Seq::empty(),
                            );
                            match t.r {
                                Ok(tools) => differed(a, t.st, active, base, tools),
                                Err(f) => fails(t.st, f),
                            }
                        },
                        Err(f) => fails(j.st, f),
                    }
                },
                Err(f) => fails(o.st, f),
            }
        },
        Node::Intersection(children) => if a(Ask::Flat(node)) == Reply::Flag(true) {
            rendered(m, a, st, active, node)
        } else if children@.len() == 0 {
            gives(st, Seq::empty())
        } else {
            let o = sc_operands(m, a, st, shown, active, children, 0, Seq::empty());
            match o.r {
                Ok(operands) => intersected(a, o.st, active, operands),
                Err(f) => fails(o.st, f),
            }
        },
        Node::Import { data, format } => if format@ == "3mf"@ {
            decoded(a, st, active, data@)
        } else {
            rendered(m, a, st, active, node)
        },
        _ => rendered(m, a, st, active, node),
    }
}

// ---- the renderer -----------------------------------------------------------------------------------

/// The renderer: its hosts, and what it has gathered.
pub struct Scene<G: Geometry, A: Arithmetic> {
    pub host: G,
    pub log: Log,
    pub calc: Calc<A>,
    pub table: SurfaceTable,
    pub next: u64,
    pub errors: Vec<String>,
    /// Whether backgrounds are rendered.
    pub shown: bool,
}

impl<G: Geometry, A: Arithmetic> Scene<G, A> {
    pub open spec fn st(&self) -> St {
        St { table: self.table@, next: self.next, errors: texts(self.errors@) }
    }

    /// What stays true while rendering: numbers of surfaces stay valid.
    pub open spec fn grown(&self, from: Scene<G, A>) -> bool {
        &&& self.table.wf()
        &&& from.table@.len() <= self.table@.len()
        &&& self.shown == from.shown
    }
}

/// What a list of meshes or an error says.
pub open spec fn listed(r: Result<Vec<RelationMesh>, GeomError>) -> Result<
    Seq<RelationView>,
    GeomFault,
> {
    match r {
        Ok(v) => Ok(relation_views(v@)),
        Err(e) => Err(e@),
    }
}

/// Rendering came to `o`; what was gathered counts only where it succeeded.
pub open spec fn comes_to(r: Result<Vec<RelationMesh>, GeomError>, st: St, o: Out) -> bool {
    listed(r) == o.r && (r is Ok ==> st == o.st)
}

/// What a mesh or an error says.
pub open spec fn single(r: Result<RelationMesh, GeomError>) -> Result<RelationView, GeomFault> {
    match r {
        Ok(v) => Ok(v@),
        Err(e) => Err(e@),
    }
}

/// What the host's mesh or its complaint says.
pub open spec fn replied(r: Result<RelationMesh, String>) -> Result<RelationView, Seq<char>> {
    match r {
        Ok(v) => Ok(v@),
        Err(e) => Err(e@),
    }
}

/// What the host's mesh or its error says.
pub open spec fn meshed(r: Result<Mesh, GeomError>) -> Result<MeshView, GeomFault> {
    match r {
        Ok(v) => Ok(v@),
        Err(e) => Err(e@),
    }
}

fn settle(answer: Result<RelationMesh, String>, n: usize) -> (r: Result<RelationMesh, String>)
    ensures
        replied(r) == settled(Reply::Relation(replied(answer)), n as nat),
        r matches Ok(m) ==> sound(m@, n as nat),
{
    match answer {
        Ok(m) => if test_sound(&m, n) {
            Ok(m)
        } else {
            Err("relation output does not fit the scene".to_owned())
        },
        Err(e) => Err(e),
    }
}

fn skipped_text(op: &str, why: &String) -> (r: String)
    ensures
        r@ == skipped(op@, why@),
{
    let mut s = op.to_owned();
    s.append(": ");
    s.append(why.as_str());
    s.append(" — showing un-combined geometry (the boolean was skipped)");
    s
}

fn report(errors: &mut Vec<String>, op: &str, why: &String)
    ensures
        texts(final(errors)@) == texts(old(errors)@).push(skipped(op@, why@)),
{
    let s = skipped_text(op, why);
    errors.push(s);
    assert(texts(errors@) =~= texts(old(errors)@).push(skipped(op@, why@)));
}

/// Joins meshes; where the host cannot, puts them side by side and says so.
pub fn union_scene<G: Geometry, A: Arithmetic>(
    s: &mut Scene<G, A>,
    meshes: Vec<RelationMesh>,
) -> (r: Result<RelationMesh, GeomError>)
    requires
        old(s).table.wf(),
        all_sound(relation_views(meshes@), old(s).table@.len()),
    ensures
        final(s).grown(*old(s)),
        final(s).table@ == old(s).table@,
        r matches Ok(m) ==> sound(m@, final(s).table@.len()),
        forall|m: Reading, a: Answers|
            #![trigger final(s).calc.agrees(m), final(s).log.agrees(a)]
            final(s).calc.agrees(m) && final(s).log.agrees(a) ==> old(s).calc.agrees(m) && old(
                s,
            ).log.agrees(a) && (Joined { r: single(r), st: final(s).st() }) == unioned(
                a,
                old(s).st(),
                relation_views(meshes@),
            ),
{
    let ghost ms = relation_views(meshes@);
    let answer = s.host.union(&meshes);
    let ghost q = Ask::Union(ms);
    let ghost said = Reply::Relation(replied(answer));
    s.log.note(Ghost(q), Ghost(said));
    let n: usize = s.table.values.len();
    match settle(answer, n) {
        Ok(m) => Ok(m),
        Err(e) => {
            report(&mut s.errors, "union", &e);
            concatenate_scene(&meshes, Ghost(n as nat))
        },
    }
}

/// The same list, last first.
fn turned_round<T>(list: Vec<T>) -> (r: Vec<T>)
    ensures
        r@ == list@.reverse(),
{
    let mut rest = list;
    let ghost whole = list@;
    let mut out: Vec<T> = Vec::new();
    while rest.len() > 0
        invariant
            rest@.len() <= whole.len(),
            rest@ == whole.take(rest@.len() as int),
            out@ =~= whole.skip(rest@.len() as int).reverse(),
        decreases rest.len(),
    {
        let ghost k = rest@.len() - 1;
        match rest.pop() {
            Some(x) => {
                proof {
                    assert(whole.take(k + 1).drop_last() =~= whole.take(k));
                    assert(whole.take(k + 1).last() == whole[k]);
                }
                out.push(x);
                assert(out@ =~= whole.skip(k).reverse());
            },
            None => {},
        }
    }
    assert(whole.skip(0) =~= whole);
    out
}

/// Adds the meshes that have triangles.
fn add_retained(target: &mut Vec<RelationMesh>, source: Vec<RelationMesh>)
    ensures
        relation_views(final(target)@) == relation_views(old(target)@) + retained(
            relation_views(source@),
        ),
{
    let ghost ms = relation_views(source@);
    let ghost before = relation_views(target@);
    let ghost whole = source@;
    let mut rest = turned_round(source);
    let ghost mut i: int = 0;
    assert(retained(ms.take(0)) =~= Seq::empty()) by {
        reveal(Seq::filter);
    }
    assert(rest@ =~= whole.skip(0).reverse());
    while rest.len() > 0
        invariant
            ms == relation_views(whole),
            0 <= i <= whole.len(),
            rest@ == whole.skip(i).reverse(),
            relation_views(target@) =~= before + retained(ms.take(i)),
        decreases rest.len(),
    {
        match rest.pop() {
            Some(x) => {
                proof {
                    assert(x == whole[i]);
                    assert(ms[i] == x@);
                    assert(rest@ =~= whole.skip(i + 1).reverse());
                    assert(ms.take(i + 1).drop_last() =~= ms.take(i));
                    assert(ms.take(i + 1).last() == ms[i]);
                    reveal(Seq::filter);
                    assert(retained(ms.take(i + 1)) == if ms[i].attributed.mesh.tris.len() > 0 {
                        retained(ms.take(i)).push(ms[i])
                    } else {
                        retained(ms.take(i))
                    });
                }
                let ghost held = target@;
                if x.attributed.mesh.tris.len() > 0 {
                    target.push(x);
                    assert(relation_views(target@) =~= relation_views(held).push(ms[i]));
                }
                proof {
                    i = i + 1;
                }
            },
            None => {},
        }
    }
    assert(ms.take(ms.len() as int) =~= ms);
}

proof fn lemma_retained_sound(ms: Seq<RelationView>, n: nat)
    requires
        all_sound(ms, n),
    ensures
        all_sound(retained(ms), n),
{
    let p = |m: RelationView| m.attributed.mesh.tris.len() > 0;
    assert forall|i: int| 0 <= i < retained(ms).len() implies sound(#[trigger] retained(ms)[i], n) by {
        broadcast use vstd::seq::Seq::lemma_filter_contains_rev;

        assert(retained(ms).contains(retained(ms)[i]));
        assert(ms.contains(retained(ms)[i]));
    }
}


/// `found` after what moving the rest gives.
pub open spec fn after(found: Seq<RelationView>, rest: Option<Seq<RelationView>>) -> Option<
    Seq<RelationView>,
> {
    match rest {
        Some(r) => Some(found + r),
        None => None,
    }
}

/// Moves meshes as a node says; `None` where the host changes the triangles.
fn move_meshes<G: Geometry, A: Arithmetic>(
    s: &mut Scene<G, A>,
    node: &Node,
    meshes: Vec<RelationMesh>,
) -> (r: Option<Vec<RelationMesh>>)
    requires
        old(s).table.wf(),
        all_sound(relation_views(meshes@), old(s).table@.len()),
    ensures
        final(s).grown(*old(s)),
        final(s).st() == old(s).st(),
        r matches Some(ms) ==> all_sound(relation_views(ms@), final(s).table@.len()),
        forall|m: Reading, a: Answers|
            #![trigger final(s).calc.agrees(m), final(s).log.agrees(a)]
            final(s).calc.agrees(m) && final(s).log.agrees(a) ==> old(s).calc.agrees(m) && old(
                s,
            ).log.agrees(a) && moved_from(a, *node, relation_views(meshes@), 0) == match r {
                Some(ms) => Some(relation_views(ms@)),
                None => None,
            },
{
    let ghost ms = relation_views(meshes@);
    let ghost whole = meshes@;
    let ghost n = s.table@.len();
    let ghost s0 = *s;
    let mut rest = turned_round(meshes);
    let mut out: Vec<RelationMesh> = Vec::new();
    let ghost mut i: int = 0;
    assert(rest@ =~= whole.skip(0).reverse());
    assert(relation_views(out@) =~= Seq::empty());
    assert forall|a: Answers| after(relation_views(out@), #[trigger] moved_from(a, *node, ms, 0))
        == moved_from(a, *node, ms, 0) by {
        match moved_from(a, *node, ms, 0) {
            Some(r) => {
                assert(relation_views(out@) + r =~= r);
            },
            None => {},
        }
    }
    while rest.len() > 0
        invariant
            *old(s) == s0,
            ms == relation_views(whole),
            whole == meshes@,
            all_sound(ms, n),
            n == s.table@.len(),
            0 <= i <= whole.len(),
            rest@ == whole.skip(i).reverse(),
            s.grown(s0),
            s.st() == s0.st(),
            all_sound(relation_views(out@), n),
            forall|m: Reading, a: Answers|
                #![trigger s.calc.agrees(m), s.log.agrees(a)]
                s.calc.agrees(m) && s.log.agrees(a) ==> s0.calc.agrees(m) && s0.log.agrees(a)
                    && moved_from(a, *node, ms, 0) == after(
                    relation_views(out@),
                    moved_from(a, *node, ms, i),
                ),
        decreases rest.len(),
    {
        let ghost held = out@;
        let ghost s1 = *s;
        match rest.pop() {
            Some(x) => {
                proof {
                    assert(x == whole[i]);
                    assert(ms[i] == x@);
                    assert(rest@ =~= whole.skip(i + 1).reverse());
                    assert(sound(ms[i], n));
                }
                let mesh = s.host.moved(node, &x.attributed.mesh);
                let ghost q = Ask::Move(*node, ms[i].attributed.mesh);
                let ghost said = Reply::Mesh(Ok(mesh@));
                s.log.note(Ghost(q), Ghost(said));
                if mesh.tris.len() != x.attributed.mesh.tris.len() || !indexed_mesh(&mesh) {
                    return None;
                }
                let RelationMesh { attributed, backside } = x;
                let AttributedMesh { mesh: _, surface_ids, source_face_ids } = attributed;
                let moved = RelationMesh {
                    attributed: AttributedMesh { mesh, surface_ids, source_face_ids },
                    backside,
                };
                let ghost mv = moved@;
                out.push(moved);
                proof {
                    assert(relation_views(out@) =~= relation_views(held).push(mv));
                    assert(sound(mv, n));
                    assert forall|k: int| 0 <= k < relation_views(out@).len() implies sound(
                        #[trigger] relation_views(out@)[k],
                        n,
                    ) by {
                        if k < held.len() {
                            assert(relation_views(held)[k] == relation_views(out@)[k]);
                        }
                    }
                    assert forall|m: Reading, a: Answers|
                        #![trigger s.calc.agrees(m), s.log.agrees(a)]
                        s.calc.agrees(m) && s.log.agrees(a) implies moved_from(a, *node, ms, 0)
                        == after(relation_views(out@), moved_from(a, *node, ms, i + 1)) by {
                        assert(s1.calc.agrees(m) && s1.log.agrees(a));
                        match moved_from(a, *node, ms, i + 1) {
                            Some(r) => {
                                assert(relation_views(held) + (seq![mv] + r) =~= relation_views(
                                    out@,
                                ) + r);
                            },
                            None => {},
                        }
                    }
                    i = i + 1;
                }
            },
            None => {},
        }
    }
    proof {
        assert(relation_views(out@) + Seq::<RelationView>::empty() =~= relation_views(out@));
    }
    Some(out)
}

proof fn lemma_index(table: Seq<SurfaceView>, i: int)
    requires
        table.no_duplicates(),
        0 <= i < table.len(),
    ensures
        table.index_of(table[i]) == i,
{
    let j = table.index_of(table[i]);
    assert(table.contains(table[i]));
    assert(0 <= j < table.len() && table[j] == table[i]);
}

/// A generated surface does not depend on how its contributors are listed.
proof fn lemma_generated(
    table: Seq<SurfaceView>,
    look: int,
    a: Seq<u32>,
    b: Seq<u32>,
    active: Seq<FrameView>,
    kind: ContributionKind,
    v: SurfaceView,
)
    requires
        is_generated(table, look, b, active, kind, v),
        same_members(a, b),
    ensures
        generated_surface(table, look, a, active, kind) == v,
{
    assert forall|p: Seq<FrameView>| #[trigger] contributes(table, a, p) == contributes(
        table,
        b,
        p,
    ) by {
        if contributes(table, a, p) {
            let i = choose|i: int|
                0 <= i < a.len() && stands_for(table[#[trigger] a[i] as int]).contains(p);
            assert(a.contains(a[i]));
            assert(b.contains(a[i]));
            let j = choose|j: int| 0 <= j < b.len() && b[j] == a[i];
            assert(stands_for(table[b[j] as int]).contains(p));
        }
        if contributes(table, b, p) {
            let i = choose|i: int|
                0 <= i < b.len() && stands_for(table[#[trigger] b[i] as int]).contains(p);
            assert(b.contains(b[i]));
            assert(a.contains(b[i]));
            let j = choose|j: int| 0 <= j < a.len() && a[j] == b[i];
            assert(stands_for(table[a[j] as int]).contains(p));
        }
    }
    assert(is_contributor_list(table, a, v.contributors)) by {
        assert forall|p: Seq<FrameView>| #[trigger] v.contributors.contains(p) <==> contributes(
            table,
            a,
            p,
        ) by {
            assert(contributes(table, a, p) == contributes(table, b, p));
        }
    }
    assert(is_generated(table, look, a, active, kind, v));
    let w = generated_surface(table, look, a, active, kind);
    assert(is_generated(table, look, a, active, kind, w));
    lemma_generated_unique(table, look, a, active, kind, v, w);
}

proof fn lemma_interned_grows(table: Seq<SurfaceView>, v: SurfaceView)
    ensures
        table.len() <= interned(table, v).len(),
{
}

/// `found` before what the rest gives.
pub open spec fn meshes_after(found: Seq<MeshView>, rest: Option<Seq<MeshView>>) -> Option<
    Seq<MeshView>,
> {
    match rest {
        Some(r) => Some(found + r),
        None => None,
    }
}

/// Renders children, each on its own; `None` where one cannot be rendered.
fn render_each<G: Geometry, A: Arithmetic>(s: &mut Scene<G, A>, children: &Vec<Node>) -> (r: Option<
    Vec<Mesh>,
>)
    requires
        old(s).table.wf(),
    ensures
        final(s).grown(*old(s)),
        final(s).st() == old(s).st(),
        forall|m: Reading, a: Answers|
            #![trigger final(s).calc.agrees(m), final(s).log.agrees(a)]
            final(s).calc.agrees(m) && final(s).log.agrees(a) ==> old(s).calc.agrees(m) && old(
                s,
            ).log.agrees(a) && meshes_from(a, children@, 0) == match r {
                Some(ms) => Some(mesh_views(ms@)),
                None => None,
            },
{
    let mut out: Vec<Mesh> = Vec::new();
    let ghost s0 = *s;
    let mut i: usize = 0;
    assert(mesh_views(out@) =~= Seq::empty());
    assert forall|a: Answers| meshes_after(mesh_views(out@), #[trigger] meshes_from(a, children@, 0))
        == meshes_from(a, children@, 0) by {
        match meshes_from(a, children@, 0) {
            Some(r) => {
                assert(mesh_views(out@) + r =~= r);
            },
            None => {},
        }
    }
    while i < children.len()
        invariant
            *old(s) == s0,
            i <= children@.len(),
            s.grown(s0),
            s.st() == s0.st(),
            forall|m: Reading, a: Answers|
                #![trigger s.calc.agrees(m), s.log.agrees(a)]
                s.calc.agrees(m) && s.log.agrees(a) ==> s0.calc.agrees(m) && s0.log.agrees(a)
                    && meshes_from(a, children@, 0) == meshes_after(
                    mesh_views(out@),
                    meshes_from(a, children@, i as int),
                ),
        decreases children.len() - i,
    {
        let ghost held = mesh_views(out@);
        let ghost s1 = *s;
        let answer = s.host.render(&children[i]);
        let ghost q = Ask::Render(children@[i as int]);
        let ghost said = Reply::Mesh(meshed(answer));
        s.log.note(Ghost(q), Ghost(said));
        match answer {
            Ok(mesh) => {
                let ghost mv = mesh@;
                out.push(mesh);
                proof {
                    assert(mesh_views(out@) =~= held.push(mv));
                    assert forall|m: Reading, a: Answers|
                        #![trigger s.calc.agrees(m), s.log.agrees(a)]
                        s.calc.agrees(m) && s.log.agrees(a) implies meshes_from(a, children@, 0)
                        == meshes_after(mesh_views(out@), meshes_from(a, children@, i + 1)) by {
                        assert(s1.calc.agrees(m) && s1.log.agrees(a));
                        match meshes_from(a, children@, i + 1) {
                            Some(r) => {
                                assert(held + (seq![mv] + r) =~= held.push(mv) + r);
                            },
                            None => {},
                        }
                    }
                }
            },
            Err(_) => return None,
        }
        i = i + 1;
    }
    proof {
        assert(mesh_views(out@) + Seq::<MeshView>::empty() =~= mesh_views(out@));
    }
    Some(out)
}

/// The patches that a node's triangles come from.
fn find_patches<G: Geometry, A: Arithmetic>(s: &mut Scene<G, A>, node: &Node, mesh: &Mesh) -> (r: Vec<
    u64,
>)
    requires
        old(s).table.wf(),
        mesh@.indexed(),
        mesh@.tris.len() <= u32::MAX,
    ensures
        final(s).grown(*old(s)),
        final(s).st() == old(s).st(),
        forall|m: Reading, a: Answers|
            #![trigger final(s).calc.agrees(m), final(s).log.agrees(a)]
            final(s).calc.agrees(m) && final(s).log.agrees(a) ==> old(s).calc.agrees(m) && old(
                s,
            ).log.agrees(a) && r@ == patches_of(m, a, *node, mesh@),
{
    match node {
        Node::Hull(children) => {
            let unknown = repeat_patch(UNCLASSIFIED_PATCH_ID, mesh.tris.len());
            assert(unknown@ =~= unclassified(mesh@.tris.len()));
            match render_each(s, children) {
                Some(operands) => if operands.len() > 0xffff_ffff {
                    unknown
                } else {
                    hull_patch_ids(&mut s.calc, mesh, &operands)
                },
                None => unknown,
            }
        },
        _ => source_patch_ids(&mut s.calc, node, mesh),
    }
}

/// Renders a node as a whole, all of one surface.
fn render_leaf<G: Geometry, A: Arithmetic>(
    s: &mut Scene<G, A>,
    active: &ActiveSurface,
    node: &Node,
) -> (r: Result<Vec<RelationMesh>, GeomError>)
    requires
        old(s).table.wf(),
    ensures
        final(s).grown(*old(s)),
        r matches Ok(ms) ==> all_sound(relation_views(ms@), final(s).table@.len()),
        forall|m: Reading, a: Answers|
            #![trigger final(s).calc.agrees(m), final(s).log.agrees(a)]
            final(s).calc.agrees(m) && final(s).log.agrees(a) ==> old(s).calc.agrees(m) && old(
                s,
            ).log.agrees(a) && comes_to(
                r,
                final(s).st(),
                rendered(m, a, old(s).st(), active_of(*active), *node),
            ),
{
    let answer = s.host.render(node);
    let ghost q = Ask::Render(*node);
    let ghost said = Reply::Mesh(meshed(answer));
    s.log.note(Ghost(q), Ghost(said));
    let mesh = match answer {
        Ok(mesh) => mesh,
        Err(e) => return Err(e),
    };
    if !indexed_mesh(&mesh) {
        return Err(misfit("rendered mesh is not indexed"));
    }
    let n: usize = mesh.tris.len();
    if n == 0 {
        let none: Vec<RelationMesh> = Vec::new();
        assert(relation_views(none@) =~= Seq::empty());
        return Ok(none);
    }
    if n > 0xffff_ffff {
        return Err(many("triangles"));
    }
    if s.table.values.len() >= 0xffff_ffff {
        return Err(many("surfaces"));
    }
    let kind = if is_boundary_node(node) {
        ContributionKind::Boundary
    } else {
        ContributionKind::GeneratedOpaqueOperation
    };
    let ghost mv = mesh@;
    let id = active_id(&mut s.table, active, kind, AttributionStatus::Exact);
    proof {
        lemma_index(s.table@, id.0 as int);
        assert(own_surface(active_of(*active), kind) == active_surface(
            *active,
            kind,
            AttributionStatus::Exact,
        ));
    }
    let local = find_patches(s, node, &mesh);
    if local.len() != n {
        return Err(GeomError::Invariant(mismatch_text(n, local.len(), " source face IDs")));
    }
    if s.next > u64::MAX - local.len() as u64 {
        return Err(many("patches"));
    }
    let patches = global_patch_ids(&local, &mut s.next);
    proof {
        lemma_renumbered_len(local@, Map::empty(), old(s).next, 0);
    }
    let mut surface_ids: Vec<SurfaceAttributionId> = Vec::new();
    let mut backside: Vec<bool> = Vec::new();
    for t in 0..n
        invariant
            surface_ids@ =~= Seq::new(t as nat, |k: int| SurfaceAttributionId(id.0)),
            backside@ =~= Seq::new(t as nat, |k: int| false),
    {
        surface_ids.push(SurfaceAttributionId(id.0));
        backside.push(false);
    }
    let one = RelationMesh {
        attributed: AttributedMesh { mesh, surface_ids, source_face_ids: patches },
        backside,
    };
    let ghost ov = one@;
    let mut out: Vec<RelationMesh> = Vec::new();
    out.push(one);
    proof {
        assert(ov.attributed.surface_ids =~= plain_relation(
            mv,
            id.0,
            patches@,
        ).attributed.surface_ids);
        assert(ov.backside =~= plain_relation(mv, id.0, patches@).backside);
        assert(relation_views(out@) =~= seq![plain_relation(mv, id.0, patches@)]);
        assert(sound(ov, s.table@.len()));
    }
    Ok(out)
}

pub(crate) fn many(what: &str) -> (r: GeomError)
    ensures
        r@ == too_many(what@),
{
    let mut s = "scene has too many ".to_owned();
    s.append(what);
    GeomError::Invariant(s)
}

proof fn lemma_renumbered_len(local: Seq<u64>, known: Map<u64, u64>, next: u64, i: int)
    requires
        0 <= i <= local.len(),
    ensures
        renumbered(local, known, next, i).0.len() == local.len() - i,
    decreases local.len() - i,
{
    if i < local.len() {
        lemma_renumbered_len(local, known, next, i + 1);
        lemma_renumbered_len(local, known.insert(local[i], next), (next + 1) as u64, i + 1);
    }
}


/// The surfaces of triangles, after those found.
pub open spec fn surfaces_after(
    found: Seq<SurfaceAttributionId>,
    rest: Option<(Seq<SurfaceAttributionId>, Seq<SurfaceView>)>,
) -> Option<(Seq<SurfaceAttributionId>, Seq<SurfaceView>)> {
    match rest {
        Some((ids, table)) => Some((found + ids, table)),
        None => None,
    }
}

proof fn lemma_surfaces_after(
    found: Seq<SurfaceAttributionId>,
    id: SurfaceAttributionId,
    rest: Option<(Seq<SurfaceAttributionId>, Seq<SurfaceView>)>,
)
    ensures
        surfaces_after(found.push(id), rest) == surfaces_after(
            found,
            surfaces_after(seq![id], rest),
        ),
        surfaces_after(Seq::empty(), rest) == rest,
{
    match rest {
        Some((ids, table)) => {
            assert(found.push(id) + ids =~= found + (seq![id] + ids));
            assert(Seq::<SurfaceAttributionId>::empty() + ids =~= ids);
        },
        None => {},
    }
}

/// The surfaces of an import's triangles; `None` where there are too many.
fn intern_colors(
    table: &mut SurfaceTable,
    active: &ActiveSurface,
    colors: &Vec<Option<Rgba>>,
) -> (r: Option<Vec<SurfaceAttributionId>>)
    requires
        old(table).wf(),
    ensures
        final(table).wf(),
        old(table)@.len() <= final(table)@.len(),
        match r {
            Some(ids) => import_surfaces(old(table)@, active_of(*active), colors@, 0) == Some(
                (ids@, final(table)@),
            ) && ids@.len() == colors@.len() && forall|t: int|
                0 <= t < ids@.len() ==> (#[trigger] ids@[t]).0 < final(table)@.len(),
            None => import_surfaces(old(table)@, active_of(*active), colors@, 0) is None,
        },
{
    let ghost whole = import_surfaces(table@, active_of(*active), colors@, 0);
    let mut ids: Vec<SurfaceAttributionId> = Vec::new();
    let mut t: usize = 0;
    proof {
        lemma_surfaces_after(ids@, SurfaceAttributionId(0), whole);
        assert(ids@ =~= Seq::empty());
    }
    while t < colors.len()
        invariant
            whole == import_surfaces(old(table)@, active_of(*active), colors@, 0),
            table.wf(),
            old(table)@.len() <= table@.len(),
            t <= colors@.len(),
            ids@.len() == t,
            forall|k: int| 0 <= k < ids@.len() ==> (#[trigger] ids@[k]).0 < table@.len(),
            whole == surfaces_after(
                ids@,
                import_surfaces(table@, active_of(*active), colors@, t as int),
            ),
        decreases colors.len() - t,
    {
        if table.values.len() >= 0xffff_ffff {
            return None;
        }
        let mut own = active.duplicate();
        if !own.color_explicit {
            match colors[t] {
                Some(c) => {
                    own.rgba = c;
                },
                None => {},
            }
        }
        let ghost before = table@;
        let ghost held = ids@;
        let id = active_id(table, &own, ContributionKind::Boundary, AttributionStatus::Exact);
        proof {
            let v = own_surface(
                imported(active_of(*active), colors@[t as int]),
                ContributionKind::Boundary,
            );
            assert(v == active_surface(own, ContributionKind::Boundary, AttributionStatus::Exact));
            lemma_index(table@, id.0 as int);
            lemma_interned_grows(before, v);
            let rest = import_surfaces(table@, active_of(*active), colors@, t + 1);
            lemma_surfaces_after(held, id, rest);
            assert(import_surfaces(before, active_of(*active), colors@, t as int)
                == surfaces_after(seq![id], rest));
        }
        ids.push(id);
        t = t + 1;
    }
    proof {
        assert(ids@ + Seq::<SurfaceAttributionId>::empty() =~= ids@);
    }
    Some(ids)
}

/// What a decoded file holds.
pub open spec fn unpacked(r: Option<(Mesh, Vec<Option<Rgba>>)>) -> Option<
    (MeshView, Seq<Option<Rgba>>),
> {
    match r {
        Some((mesh, colors)) => Some((mesh@, colors@)),
        None => None,
    }
}

fn render_import<G: Geometry, A: Arithmetic>(
    s: &mut Scene<G, A>,
    active: &ActiveSurface,
    data: &Vec<u8>,
) -> (r: Result<Vec<RelationMesh>, GeomError>)
    requires
        old(s).table.wf(),
    ensures
        final(s).grown(*old(s)),
        r matches Ok(ms) ==> all_sound(relation_views(ms@), final(s).table@.len()),
        forall|m: Reading, a: Answers|
            #![trigger final(s).calc.agrees(m), final(s).log.agrees(a)]
            final(s).calc.agrees(m) && final(s).log.agrees(a) ==> old(s).calc.agrees(m) && old(
                s,
            ).log.agrees(a) && comes_to(
                r,
                final(s).st(),
                decoded(a, old(s).st(), active_of(*active), data@),
            ),
{
    let answer = s.host.decode_3mf(data);
    let ghost q = Ask::Decode(data@);
    let ghost said = Reply::Decoded(unpacked(answer));
    s.log.note(Ghost(q), Ghost(said));
    let mut out: Vec<RelationMesh> = Vec::new();
    match answer {
        None => {
            assert(relation_views(out@) =~= Seq::empty());
            Ok(out)
        },
        Some((mesh, colors)) => {
            let n: usize = mesh.tris.len();
            if colors.len() != n || !indexed_mesh(&mesh) {
                return Err(misfit("imported mesh does not fit its colors"));
            }
            let ghost before = s.table@;
            let interned_table = intern_colors(&mut s.table, active, &colors);
            match interned_table {
                None => Err(many("surfaces")),
                Some(surface_ids) => {
                    let ghost mv = mesh@;
                    let mut source_face_ids: Vec<u64> = Vec::new();
                    let mut backside: Vec<bool> = Vec::new();
                    for t in 0..n
                        invariant
                            source_face_ids@ =~= Seq::new(
                                t as nat,
                                |k: int| UNCLASSIFIED_PATCH_ID,
                            ),
                            backside@ =~= Seq::new(t as nat, |k: int| false),
                    {
                        source_face_ids.push(UNCLASSIFIED_PATCH_ID);
                        backside.push(false);
                    }
                    let one = RelationMesh {
                        attributed: AttributedMesh { mesh, surface_ids, source_face_ids },
                        backside,
                    };
                    let ghost ov = one@;
                    out.push(one);
                    proof {
                        assert(ov.attributed.source_face_ids =~= Seq::new(
                            mv.tris.len(),
                            |t: int| UNCLASSIFIED_PATCH_ID,
                        ));
                        assert(ov.backside =~= Seq::new(mv.tris.len(), |t: int| false));
                        assert(relation_views(out@) =~= seq![ov]);
                        assert(sound(ov, s.table@.len()));
                    }
                    Ok(out)
                },
            }
        },
    }
}

/// Interns a generated surface.
fn intern_generated(
    table: &mut SurfaceTable,
    look: u32,
    contributors: &Numbers,
    active: &ActiveSurface,
    kind: ContributionKind,
    Ghost(ids): Ghost<Seq<u32>>,
) -> (r: SurfaceAttributionId)
    requires
        old(table).wf(),
        old(table)@.len() < u32::MAX,
        look < old(table)@.len(),
        same_members(ids, contributors.list@),
        forall|x: u32| #[trigger] ids.contains(x) ==> x < old(table)@.len(),
    ensures
        final(table).wf(),
        old(table)@.len() <= final(table)@.len(),
        r.0 < final(table)@.len(),
        final(table)@ == interned(
            old(table)@,
            generated_surface(old(table)@, look as int, ids, path(active.provenance@), kind),
        ),
        final(table)@.index_of(
            generated_surface(old(table)@, look as int, ids, path(active.provenance@), kind),
        ) == r.0,
{
    proof {
        assert forall|i: int| 0 <= i < contributors.list@.len() implies #[trigger]
            contributors.list@[i] < table@.len() by {
            assert(contributors.list@.contains(contributors.list@[i]));
            assert(ids.contains(contributors.list@[i]));
        }
    }
    let ghost before = table@;
    let id = generated_id(table, SurfaceAttributionId(look), &contributors.list, active, kind);
    proof {
        lemma_generated(
            before,
            look as int,
            ids,
            contributors.list@,
            path(active.provenance@),
            kind,
            table@[id.0 as int],
        );
        lemma_index(table@, id.0 as int);
    }
    id
}

/// The surfaces of some meshes.
fn numbers_of(meshes: &Vec<RelationMesh>, into: &mut Numbers)
    requires
        old(into).wf(),
    ensures
        final(into).wf(),
        same_members(
            old(into).list@ + all_numbers(relation_views(meshes@), meshes@.len() as int),
            final(into).list@,
        ),
{
    let ghost ms = relation_views(meshes@);
    let ghost before = into.list@;
    let mut i: usize = 0;
    assert(before + all_numbers(ms, 0) =~= before);
    while i < meshes.len()
        invariant
            into.wf(),
            ms == relation_views(meshes@),
            i <= meshes@.len(),
            same_members(before + all_numbers(ms, i as int), into.list@),
        decreases meshes.len() - i,
    {
        let ghost held = into.list@;
        into.insert_all(&meshes[i].attributed.surface_ids);
        proof {
            let mine = numbers(ms[i as int].attributed.surface_ids);
            let a = before + all_numbers(ms, i as int);
            let b = before + all_numbers(ms, i + 1);
            assert(b =~= a + mine);
            assert forall|x: u32| b.contains(x) <==> #[trigger] into.list@.contains(x) by {
                lemma_joined_contains(a, mine, x);
                lemma_joined_contains(held, mine, x);
                assert((held + mine).contains(x) <==> into.list@.contains(x));
                assert(a.contains(x) <==> held.contains(x));
            }
        }
        i = i + 1;
    }
}

proof fn lemma_joined_contains(a: Seq<u32>, b: Seq<u32>, x: u32)
    ensures
        (a + b).contains(x) <==> a.contains(x) || b.contains(x),
{
    if a.contains(x) {
        let i = choose|i: int| 0 <= i < a.len() && a[i] == x;
        assert((a + b)[i] == x);
    }
    if b.contains(x) {
        let i = choose|i: int| 0 <= i < b.len() && b[i] == x;
        assert((a + b)[a.len() + i] == x);
    }
}

proof fn lemma_numbers_within(ms: Seq<RelationView>, n: nat, k: int)
    requires
        all_sound(ms, n),
        0 <= k <= ms.len(),
    ensures
        forall|x: u32| #[trigger] all_numbers(ms, k).contains(x) ==> x < n,
    decreases k,
{
    if k > 0 {
        lemma_numbers_within(ms, n, k - 1);
        let mine = ms[k - 1].attributed.surface_ids;
        assert(sound(ms[k - 1], n));
        assert forall|x: u32| #[trigger] all_numbers(ms, k).contains(x) implies x < n by {
            lemma_joined_contains(all_numbers(ms, k - 1), numbers(mine), x);
            if numbers(mine).contains(x) {
                let i = choose|i: int| 0 <= i < numbers(mine).len() && numbers(mine)[i] == x;
                assert(mine[i].0 < n);
            }
        }
    }
}


/// Subtracts tools from a base.
fn render_difference<G: Geometry, A: Arithmetic>(
    s: &mut Scene<G, A>,
    active: &ActiveSurface,
    base: RelationMesh,
    tools: Vec<RelationMesh>,
) -> (r: Result<Vec<RelationMesh>, GeomError>)
    requires
        old(s).table.wf(),
        sound(base@, old(s).table@.len()),
        all_sound(relation_views(tools@), old(s).table@.len()),
    ensures
        final(s).grown(*old(s)),
        r matches Ok(ms) ==> all_sound(relation_views(ms@), final(s).table@.len()),
        forall|m: Reading, a: Answers|
            #![trigger final(s).calc.agrees(m), final(s).log.agrees(a)]
            final(s).calc.agrees(m) && final(s).log.agrees(a) ==> old(s).calc.agrees(m) && old(
                s,
            ).log.agrees(a) && comes_to(
                r,
                final(s).st(),
                differed(a, old(s).st(), active_of(*active), base@, relation_views(tools@)),
            ),
{
    let ghost bv = base@;
    let ghost ts = relation_views(tools@);
    let answer = s.host.difference(&base, &tools);
    let ghost q = Ask::Difference(bv, ts);
    let ghost said = Reply::Relation(replied(answer));
    s.log.note(Ghost(q), Ghost(said));
    let n: usize = s.table.values.len();
    let mut base_ids = Numbers::new();
    base_ids.insert_all(&base.attributed.surface_ids);
    let mut contributors = Numbers::new();
    contributors.insert_all(&base.attributed.surface_ids);
    let ghost own = numbers(bv.attributed.surface_ids);
    let ghost all = own + all_numbers(ts, ts.len() as int);
    proof {
        assert(Seq::<u32>::empty() + own =~= own);
    }
    let ghost held = contributors.list@;
    numbers_of(&tools, &mut contributors);
    proof {
        assert(same_members(all, contributors.list@)) by {
            let more = all_numbers(ts, ts.len() as int);
            assert forall|x: u32| all.contains(x) <==> #[trigger] contributors.list@.contains(
                x,
            ) by {
                lemma_joined_contains(own, more, x);
                lemma_joined_contains(held, more, x);
                assert((held + more).contains(x) <==> contributors.list@.contains(x));
                assert(own.contains(x) <==> held.contains(x));
            }
        }
    }
    let made = match settle(answer, n) {
        Ok(m) => m,
        Err(e) => {
            report(&mut s.errors, "difference", &e);
            base
        },
    };
    let ghost mv = made@;
    let mut out: Vec<RelationMesh> = Vec::new();
    proof {
        if own.len() > 0 {
            assert(own.contains(own[0]));
            assert(base_ids.list@.contains(own[0]));
        }
        if base_ids.list@.len() > 0 {
            assert(base_ids.list@.contains(base_ids.list@[0]));
            assert(own.contains(base_ids.list@[0]));
        }
    }
    if made.attributed.mesh.tris.len() == 0 || base_ids.list.len() == 0 {
        out.push(made);
        assert(relation_views(out@) =~= seq![mv]);
        return Ok(out);
    }
    if n >= 0xffff_ffff {
        return Err(many("surfaces"));
    }
    let look: u32 = base_ids.least();
    proof {
        lemma_least(own, base_ids.list@, look);
        lemma_numbers_within(ts, n as nat, ts.len() as int);
        assert forall|x: u32| #[trigger] all.contains(x) implies x < n by {
            lemma_joined_contains(own, all_numbers(ts, ts.len() as int), x);
            if own.contains(x) {
                let i = choose|i: int| 0 <= i < own.len() && own[i] == x;
                assert(bv.attributed.surface_ids[i].0 < n);
            }
        }
        lemma_joined_contains(own, all_numbers(ts, ts.len() as int), look);
        assert(own.contains(look));
        assert(all.contains(look));
    }
    let owner = intern_generated(
        &mut s.table,
        look,
        &contributors,
        active,
        ContributionKind::DifferenceTool,
        Ghost(all),
    );
    let RelationMesh { attributed, backside } = made;
    let AttributedMesh { mesh, surface_ids, source_face_ids } = attributed;
    let mut ids: Vec<SurfaceAttributionId> = Vec::new();
    let mut front: Vec<bool> = Vec::new();
    let ghost cut = cut_surfaces(mv, own, owner.0);
    let mut t: usize = 0;
    while t < surface_ids.len()
        invariant
            t <= surface_ids@.len(),
            base_ids.wf(),
            same_members(own, base_ids.list@),
            surface_ids@ == mv.attributed.surface_ids,
            backside@ == mv.backside,
            sound(mv, n as nat),
            cut == cut_surfaces(mv, own, owner.0),
            n <= s.table@.len(),
            owner.0 < s.table@.len(),
            ids@ =~= cut.attributed.surface_ids.take(t as int),
            front@ =~= cut.backside.take(t as int),
            forall|k: int| 0 <= k < ids@.len() ==> (#[trigger] ids@[k]).0 < s.table@.len(),
        decreases surface_ids.len() - t,
    {
        let id = surface_ids[t];
        assert(id.0 < n) by {
            assert(mv.attributed.surface_ids[t as int].0 < n);
        }
        let kept = base_ids.contains(id.0);
        assert(kept == own.contains(id.0));
        if backside[t] || !kept {
            ids.push(SurfaceAttributionId(owner.0));
        } else {
            ids.push(id);
        }
        front.push(false);
        t = t + 1;
    }
    let one = RelationMesh {
        attributed: AttributedMesh { mesh, surface_ids: ids, source_face_ids },
        backside: front,
    };
    let ghost ov = one@;
    out.push(one);
    proof {
        assert(ov.attributed.surface_ids =~= cut.attributed.surface_ids);
        assert(ov.backside =~= cut.backside);
        assert(relation_views(out@) =~= seq![cut]);
        assert(sound(cut, s.table@.len()));
    }
    Ok(out)
}

/// New surfaces for the triangles of an intersection; `None` where there are
/// too many.
fn intern_met(
    table: &mut SurfaceTable,
    active: &ActiveSurface,
    ids: &Vec<SurfaceAttributionId>,
    first: &Numbers,
    contributors: &Numbers,
    Ghost(own): Ghost<Seq<u32>>,
    Ghost(all): Ghost<Seq<u32>>,
) -> (r: Option<Vec<SurfaceAttributionId>>)
    requires
        old(table).wf(),
        first.wf(),
        first.list@.len() > 0,
        same_members(own, first.list@),
        same_members(all, contributors.list@),
        forall|x: u32| #[trigger] own.contains(x) ==> x < old(table)@.len(),
        forall|x: u32| #[trigger] all.contains(x) ==> x < old(table)@.len(),
    ensures
        final(table).wf(),
        old(table)@.len() <= final(table)@.len(),
        match r {
            Some(new) => met_from(old(table)@, ids@, own, all, active_of(*active), 0) == Some(
                (new@, final(table)@),
            ) && new@.len() == ids@.len() && forall|t: int|
                0 <= t < new@.len() ==> (#[trigger] new@[t]).0 < final(table)@.len(),
            None => met_from(old(table)@, ids@, own, all, active_of(*active), 0) is None,
        },
{
    let ghost act = active_of(*active);
    let ghost whole = met_from(table@, ids@, own, all, act, 0);
    let look_least: u32 = first.least();
    proof {
        lemma_least(own, first.list@, look_least);
        assert(first.list@.contains(look_least));
        assert(own.contains(look_least));
    }
    let mut new: Vec<SurfaceAttributionId> = Vec::new();
    let mut t: usize = 0;
    proof {
        lemma_surfaces_after(new@, SurfaceAttributionId(0), whole);
        assert(new@ =~= Seq::empty());
    }
    while t < ids.len()
        invariant
            act == active_of(*active),
            whole == met_from(old(table)@, ids@, own, all, act, 0),
            table.wf(),
            first.wf(),
            same_members(own, first.list@),
            same_members(all, contributors.list@),
            look_least == least(own),
            own.contains(look_least),
            old(table)@.len() <= table@.len(),
            forall|x: u32| #[trigger] own.contains(x) ==> x < old(table)@.len(),
            forall|x: u32| #[trigger] all.contains(x) ==> x < old(table)@.len(),
            t <= ids@.len(),
            new@.len() == t,
            forall|k: int| 0 <= k < new@.len() ==> (#[trigger] new@[k]).0 < table@.len(),
            whole == surfaces_after(new@, met_from(table@, ids@, own, all, act, t as int)),
        decreases ids.len() - t,
    {
        if table.values.len() >= 0xffff_ffff {
            return None;
        }
        let ghost before = table@;
        let ghost held = new@;
        let mine: u32 = ids[t].0;
        let found = first.contains(mine);
        assert(found == own.contains(mine));
        let look: u32 = if found {
            mine
        } else {
            look_least
        };
        assert(own.contains(look));
        let id = intern_generated(
            table,
            look,
            contributors,
            active,
            ContributionKind::IntersectionOperand,
            Ghost(all),
        );
        proof {
            let rest = met_from(table@, ids@, own, all, act, t + 1);
            lemma_surfaces_after(held, id, rest);
            assert(met_from(before, ids@, own, all, act, t as int) == surfaces_after(
                seq![id],
                rest,
            ));
        }
        new.push(id);
        t = t + 1;
    }
    proof {
        assert(new@ + Seq::<SurfaceAttributionId>::empty() =~= new@);
    }
    Some(new)
}


/// Intersects operands.
fn render_intersection<G: Geometry, A: Arithmetic>(
    s: &mut Scene<G, A>,
    active: &ActiveSurface,
    operands: Vec<RelationMesh>,
) -> (r: Result<Vec<RelationMesh>, GeomError>)
    requires
        old(s).table.wf(),
        operands@.len() > 0,
        all_sound(relation_views(operands@), old(s).table@.len()),
    ensures
        final(s).grown(*old(s)),
        r matches Ok(ms) ==> all_sound(relation_views(ms@), final(s).table@.len()),
        forall|m: Reading, a: Answers|
            #![trigger final(s).calc.agrees(m), final(s).log.agrees(a)]
            final(s).calc.agrees(m) && final(s).log.agrees(a) ==> old(s).calc.agrees(m) && old(
                s,
            ).log.agrees(a) && comes_to(
                r,
                final(s).st(),
                intersected(a, old(s).st(), active_of(*active), relation_views(operands@)),
            ),
{
    let ghost ops = relation_views(operands@);
    let answer = s.host.intersection(&operands);
    let ghost q = Ask::Intersection(ops);
    let ghost said = Reply::Relation(replied(answer));
    s.log.note(Ghost(q), Ghost(said));
    let n: usize = s.table.values.len();
    let mut first = Numbers::new();
    first.insert_all(&operands[0].attributed.surface_ids);
    let ghost own = numbers(ops[0].attributed.surface_ids);
    let mut contributors = Numbers::new();
    numbers_of(&operands, &mut contributors);
    let ghost all = all_numbers(ops, ops.len() as int);
    proof {
        assert(Seq::<u32>::empty() + own =~= own);
        assert(Seq::<u32>::empty() + all =~= all);
        assert(sound(ops[0], n as nat));
        if own.len() > 0 {
            assert(own.contains(own[0]));
            assert(first.list@.contains(own[0]));
        }
        if first.list@.len() > 0 {
            assert(first.list@.contains(first.list@[0]));
            assert(own.contains(first.list@[0]));
        }
        lemma_numbers_within(ops, n as nat, ops.len() as int);
        assert forall|x: u32| #[trigger] own.contains(x) implies x < n by {
            let i = choose|i: int| 0 <= i < own.len() && own[i] == x;
            assert(ops[0].attributed.surface_ids[i].0 < n);
        }
    }
    let made = match settle(answer, n) {
        Ok(m) => m,
        Err(e) => {
            report(&mut s.errors, "intersection", &e);
            match concatenate_scene(&operands, Ghost(n as nat)) {
                Ok(m) => m,
                Err(f) => return Err(f),
            }
        },
    };
    let ghost mv = made@;
    let mut out: Vec<RelationMesh> = Vec::new();
    if made.attributed.mesh.tris.len() == 0 || first.list.len() == 0 {
        out.push(made);
        assert(relation_views(out@) =~= seq![mv]);
        return Ok(out);
    }
    let RelationMesh { attributed, backside } = made;
    let AttributedMesh { mesh, surface_ids, source_face_ids } = attributed;
    let met = intern_met(
        &mut s.table,
        active,
        &surface_ids,
        &first,
        &contributors,
        Ghost(own),
        Ghost(all),
    );
    match met {
        None => Err(many("surfaces")),
        Some(ids) => {
            let mut front: Vec<bool> = Vec::new();
            let k: usize = backside.len();
            for t in 0..k
                invariant
                    front@ =~= Seq::new(t as nat, |i: int| false),
            {
                front.push(false);
            }
            let one = RelationMesh {
                attributed: AttributedMesh { mesh, surface_ids: ids, source_face_ids },
                backside: front,
            };
            let ghost ov = one@;
            out.push(one);
            proof {
                assert(ov.backside =~= Seq::new(mv.backside.len(), |t: int| false));
                assert(relation_views(out@) =~= seq![ov]);
                assert(sound(ov, s.table@.len()));
            }
            Ok(out)
        },
    }
}

proof fn lemma_sound_grows(ms: Seq<RelationView>, n: nat, k: nat)
    requires
        all_sound(ms, n),
        n <= k,
    ensures
        all_sound(ms, k),
{
    assert forall|i: int| 0 <= i < ms.len() implies sound(#[trigger] ms[i], k) by {
        assert(sound(ms[i], n));
    }
}

proof fn lemma_sound_joined(a: Seq<RelationView>, b: Seq<RelationView>, n: nat)
    requires
        all_sound(a, n),
        all_sound(b, n),
    ensures
        all_sound(a + b, n),
{
    assert forall|i: int| 0 <= i < (a + b).len() implies sound(#[trigger] (a + b)[i], n) by {
        if i < a.len() {
            assert(sound(a[i], n));
        } else {
            assert(sound(b[i - a.len()], n));
        }
    }
}

/// Renders the children from the `from`-th on, and drops what has no triangles.
pub fn render_children<G: Geometry, A: Arithmetic>(
    s: &mut Scene<G, A>,
    active: &ActiveSurface,
    children: &Vec<Node>,
    from: usize,
) -> (r: Result<Vec<RelationMesh>, GeomError>)
    requires
        old(s).table.wf(),
        from <= children@.len(),
    ensures
        final(s).grown(*old(s)),
        r matches Ok(ms) ==> all_sound(relation_views(ms@), final(s).table@.len()),
        forall|m: Reading, a: Answers|
            #![trigger final(s).calc.agrees(m), final(s).log.agrees(a)]
            final(s).calc.agrees(m) && final(s).log.agrees(a) ==> old(s).calc.agrees(m) && old(
                s,
            ).log.agrees(a) && comes_to(
                r,
                final(s).st(),
                sc_children(
                    m,
                    a,
                    old(s).st(),
                    old(s).shown,
                    active_of(*active),
                    *children,
                    from as int,
                    Seq::empty(),
                ),
            ),
    decreases *children,
{
    let ghost s0 = *s;
    let ghost act = active_of(*active);
    let mut out: Vec<RelationMesh> = Vec::new();
    let mut i: usize = from;
    assert(relation_views(out@) =~= Seq::empty());
    while i < children.len()
        invariant
            *old(s) == s0,
            act == active_of(*active),
            i <= children@.len(),
            s.grown(s0),
            all_sound(relation_views(out@), s.table@.len()),
            forall|m: Reading, a: Answers|
                #![trigger s.calc.agrees(m), s.log.agrees(a)]
                s.calc.agrees(m) && s.log.agrees(a) ==> s0.calc.agrees(m) && s0.log.agrees(a)
                    && sc_children(
                    m,
                    a,
                    s0.st(),
                    s0.shown,
                    act,
                    *children,
                    from as int,
                    Seq::empty(),
                ) == sc_children(
                    m,
                    a,
                    s.st(),
                    s0.shown,
                    act,
                    *children,
                    i as int,
                    relation_views(out@),
                ),
        decreases children.len() - i,
    {
        let ghost s1 = *s;
        let ghost held = relation_views(out@);
        match render_relation(s, active, &children[i]) {
            Ok(ms) => {
                let ghost more = relation_views(ms@);
                add_retained(&mut out, ms);
                proof {
                    lemma_retained_sound(more, s.table@.len());
                    lemma_sound_grows(held, s1.table@.len(), s.table@.len());
                    lemma_sound_joined(held, retained(more), s.table@.len());
                }
            },
            Err(e) => return Err(e),
        }
        i = i + 1;
    }
    Ok(out)
}

/// Renders the children, each joined into one mesh.
fn render_operands<G: Geometry, A: Arithmetic>(
    s: &mut Scene<G, A>,
    active: &ActiveSurface,
    children: &Vec<Node>,
) -> (r: Result<Vec<RelationMesh>, GeomError>)
    requires
        old(s).table.wf(),
    ensures
        final(s).grown(*old(s)),
        r matches Ok(ms) ==> all_sound(relation_views(ms@), final(s).table@.len()) && ms@.len()
            == children@.len(),
        forall|m: Reading, a: Answers|
            #![trigger final(s).calc.agrees(m), final(s).log.agrees(a)]
            final(s).calc.agrees(m) && final(s).log.agrees(a) ==> old(s).calc.agrees(m) && old(
                s,
            ).log.agrees(a) && {
                let o = sc_operands(
                    m,
                    a,
                    old(s).st(),
                    old(s).shown,
                    active_of(*active),
                    *children,
                    0,
                    Seq::empty(),
                );
                comes_to(r, final(s).st(), (Out { r: o.r, st: o.st }))
            },
    decreases *children,
{
    let ghost s0 = *s;
    let ghost act = active_of(*active);
    let mut out: Vec<RelationMesh> = Vec::new();
    let mut i: usize = 0;
    assert(relation_views(out@) =~= Seq::empty());
    while i < children.len()
        invariant
            *old(s) == s0,
            act == active_of(*active),
            i <= children@.len(),
            out@.len() == i,
            s.grown(s0),
            all_sound(relation_views(out@), s.table@.len()),
            forall|m: Reading, a: Answers|
                #![trigger s.calc.agrees(m), s.log.agrees(a)]
                s.calc.agrees(m) && s.log.agrees(a) ==> s0.calc.agrees(m) && s0.log.agrees(a)
                    && sc_operands(m, a, s0.st(), s0.shown, act, *children, 0, Seq::empty())
                    == sc_operands(
                    m,
                    a,
                    s.st(),
                    s0.shown,
                    act,
                    *children,
                    i as int,
                    relation_views(out@),
                ),
        decreases children.len() - i,
    {
        let ghost s1 = *s;
        let ghost held = relation_views(out@);
        match render_relation(s, active, &children[i]) {
            Ok(ms) => {
                match union_scene(s, ms) {
                    Ok(one) => {
                        let ghost ov = one@;
                        out.push(one);
                        proof {
                            assert(relation_views(out@) =~= held.push(ov));
                            lemma_sound_grows(held, s1.table@.len(), s.table@.len());
                            assert(held.push(ov) =~= held + seq![ov]);
                            lemma_sound_joined(held, seq![ov], s.table@.len());
                        }
                    },
                    Err(e) => return Err(e),
                }
            },
            Err(e) => return Err(e),
        }
        i = i + 1;
    }
    Ok(out)
}

/// Moves what a child comes to.
fn finish_moved<G: Geometry, A: Arithmetic>(
    s: &mut Scene<G, A>,
    node: &Node,
    child: Result<Vec<RelationMesh>, GeomError>,
) -> (r: Result<Vec<RelationMesh>, GeomError>)
    requires
        old(s).table.wf(),
        child matches Ok(ms) ==> all_sound(relation_views(ms@), old(s).table@.len()),
    ensures
        final(s).grown(*old(s)),
        r matches Ok(ms) ==> all_sound(relation_views(ms@), final(s).table@.len()),
        forall|m: Reading, a: Answers|
            #![trigger final(s).calc.agrees(m), final(s).log.agrees(a)]
            final(s).calc.agrees(m) && final(s).log.agrees(a) ==> old(s).calc.agrees(m) && old(
                s,
            ).log.agrees(a) && (forall|o: Out| #[trigger]
                comes_to(child, old(s).st(), o) ==> comes_to(
                    r,
                    final(s).st(),
                    sc_moved(a, *node, o),
                )),
{
    match child {
        Ok(ms) => match move_meshes(s, node, ms) {
            Some(v) => Ok(v),
            None => Err(misfit("transform changed the triangles")),
        },
        Err(e) => Err(e),
    }
}

/// Renders a node into meshes that remember where each triangle comes from.
pub fn render_relation<G: Geometry, A: Arithmetic>(
    s: &mut Scene<G, A>,
    active: &ActiveSurface,
    node: &Node,
) -> (r: Result<Vec<RelationMesh>, GeomError>)
    requires
        old(s).table.wf(),
    ensures
        final(s).grown(*old(s)),
        r matches Ok(ms) ==> all_sound(relation_views(ms@), final(s).table@.len()),
        forall|m: Reading, a: Answers|
            #![trigger final(s).calc.agrees(m), final(s).log.agrees(a)]
            final(s).calc.agrees(m) && final(s).log.agrees(a) ==> old(s).calc.agrees(m) && old(
                s,
            ).log.agrees(a) && comes_to(
                r,
                final(s).st(),
                sc(m, a, old(s).st(), old(s).shown, active_of(*active), *node),
            ),
    decreases *node,
{
    match node {
        Node::Empty => {
            let none: Vec<RelationMesh> = Vec::new();
            assert(relation_views(none@) =~= Seq::empty());
            Ok(none)
        },
        Node::Background(child) => {
            if !s.shown {
                let none: Vec<RelationMesh> = Vec::new();
                assert(relation_views(none@) =~= Seq::empty());
                return Ok(none);
            }
            let mut inner = active.duplicate();
            inner.mode = DisplayMode::Background;
            render_relation(s, &inner, child)
        },
        Node::Color { rgba, child } => {
            let mut inner = active.duplicate();
            inner.rgba = *rgba;
            inner.color_explicit = true;
            render_relation(s, &inner, child)
        },
        Node::Highlight(child) => {
            if !s.shown {
                return render_relation(s, active, child);
            }
            let mut inner = active.duplicate();
            inner.mode = DisplayMode::Highlight;
            render_relation(s, &inner, child)
        },
        Node::Provenance { frame, child } => {
            let mut inner = active.duplicate();
            let ghost before = path(inner.provenance@);
            inner.provenance.push(frame.duplicate());
            assert(path(inner.provenance@) =~= before.push(frame@));
            render_relation(s, &inner, child)
        },
        Node::Group(children) => render_children(s, active, children, 0),
        Node::Union(children) => {
            let ms = match render_children(s, active, children, 0) {
                Ok(ms) => ms,
                Err(e) => return Err(e),
            };
            match union_scene(s, ms) {
                Ok(one) => {
                    let ghost ov = one@;
                    let mut out: Vec<RelationMesh> = Vec::new();
                    out.push(one);
                    assert(relation_views(out@) =~= seq![ov]);
                    Ok(out)
                },
                Err(e) => Err(e),
            }
        },
        Node::Translate { child, .. } => {
            let made = render_relation(s, active, child);
            finish_moved(s, node, made)
        },
        Node::Rotate { child, .. } => {
            let made = render_relation(s, active, child);
            finish_moved(s, node, made)
        },
        Node::Scale { child, .. } => {
            let made = render_relation(s, active, child);
            finish_moved(s, node, made)
        },
        Node::Mirror { child, .. } => {
            let made = render_relation(s, active, child);
            finish_moved(s, node, made)
        },
        Node::MultMatrix { child, .. } => {
            let made = render_relation(s, active, child);
            finish_moved(s, node, made)
        },
        Node::Difference(children) => {
            let flat = s.host.is_2d(node);
            let ghost q = Ask::Flat(*node);
            let ghost said = Reply::Flag(flat);
            s.log.note(Ghost(q), Ghost(said));
            if flat {
                return render_leaf(s, active, node);
            }
            if children.len() == 0 {
                let none: Vec<RelationMesh> = Vec::new();
                assert(relation_views(none@) =~= Seq::empty());
                return Ok(none);
            }
            let ms = match render_relation(s, active, &children[0]) {
                Ok(ms) => ms,
                Err(e) => return Err(e),
            };
            let base = match union_scene(s, ms) {
                Ok(base) => base,
                Err(e) => return Err(e),
            };
            let ghost n = s.table@.len();
            let tools = match render_children(s, active, children, 1) {
                Ok(tools) => tools,
                Err(e) => return Err(e),
            };
            render_difference(s, active, base, tools)
        },
        Node::Intersection(children) => {
            let flat = s.host.is_2d(node);
            let ghost q = Ask::Flat(*node);
            let ghost said = Reply::Flag(flat);
            s.log.note(Ghost(q), Ghost(said));
            if flat {
                return render_leaf(s, active, node);
            }
            if children.len() == 0 {
                let none: Vec<RelationMesh> = Vec::new();
                assert(relation_views(none@) =~= Seq::empty());
                return Ok(none);
            }
            match render_operands(s, active, children) {
                Ok(operands) => render_intersection(s, active, operands),
                Err(e) => Err(e),
            }
        },
        Node::Import { data, format } => {
            if same_text(format.as_str(), "3mf") {
                render_import(s, active, data)
            } else {
                render_leaf(s, active, node)
            }
        },
        _ => render_leaf(s, active, node),
    }
}

} // verus!
