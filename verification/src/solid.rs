//! Solids: the connected components of an attributed mesh, in a spatial order
//! that does not depend on how the mesh was made.

use crate::components::{components_for_triangles, groups, labels, listed, lists};
use crate::error::{misfit, GeomError, GeomFault};
use crate::mesh::{Mesh, MeshView, Point3, Triangle};
use crate::num::{is_less, is_nan, less, nan, total_place, INFINITY, SIGN};
use crate::provenance::{as_ints, ints_at_most, path, plain, FrameView, ProvenanceFrame};
use crate::rank::{ascending, sorted, Ranked};
use crate::relation::{AttributedMesh, AttributedView};
use crate::surfaces::{surface_views, AttributionStatus, SurfaceAttribution, SurfaceView};
use crate::text::{dictionary_le, lemma_dictionary_total, lemma_dictionary_transitive};
use vstd::bytes::{spec_u64_to_le_bytes, u64_to_le_bytes};
use vstd::prelude::*;

verus! {

/// Negative infinity.
pub const NEG_INFINITY: u64 = 0xfff0_0000_0000_0000;

/// The smaller of two numbers; where one is not a number, the other.
pub open spec fn lesser(a: u64, b: u64) -> u64 {
    if nan(a) || less(b, a) {
        b
    } else {
        a
    }
}

/// The larger of two numbers; where one is not a number, the other.
pub open spec fn greater(a: u64, b: u64) -> u64 {
    if nan(a) || less(a, b) {
        b
    } else {
        a
    }
}

/// The smaller of two numbers.
pub fn min_of(a: u64, b: u64) -> (r: u64)
    ensures
        r == lesser(a, b),
{
    if is_nan(a) || is_less(b, a) {
        b
    } else {
        a
    }
}

/// The larger of two numbers.
pub fn max_of(a: u64, b: u64) -> (r: u64)
    ensures
        r == greater(a, b),
{
    if is_nan(a) || is_less(a, b) {
        b
    } else {
        a
    }
}

/// An axis-aligned box.
#[derive(Clone, Copy, Debug, PartialEq, Eq, Structural)]
pub struct Bounds3 {
    pub min: Point3,
    pub max: Point3,
}

/// The box of nothing.
pub open spec fn no_bounds() -> Bounds3 {
    Bounds3 {
        min: Point3 { x: INFINITY, y: INFINITY, z: INFINITY },
        max: Point3 { x: NEG_INFINITY, y: NEG_INFINITY, z: NEG_INFINITY },
    }
}

/// A box grown to hold a point.
pub open spec fn grown(b: Bounds3, p: Point3) -> Bounds3 {
    Bounds3 {
        min: Point3 { x: lesser(b.min.x, p.x), y: lesser(b.min.y, p.y), z: lesser(b.min.z, p.z) },
        max: Point3 { x: greater(b.max.x, p.x), y: greater(b.max.y, p.y), z: greater(b.max.z, p.z) },
    }
}

/// The box of the corners of the first `n` listed triangles.
pub open spec fn bounds_of(m: MeshView, list: Seq<u32>, n: int) -> Bounds3
    decreases n,
{
    if n <= 0 {
        no_bounds()
    } else {
        let t = m.tris[list[n - 1] as int];
        grown(
            grown(
                grown(bounds_of(m, list, n - 1), m.verts[t.a as int]),
                m.verts[t.b as int],
            ),
            m.verts[t.c as int],
        )
    }
}

/// Grows a box to hold a point.
pub fn grow(b: Bounds3, p: Point3) -> (r: Bounds3)
    ensures
        r == grown(b, p),
{
    Bounds3 {
        min: Point3 {
            x: min_of(b.min.x, p.x),
            y: min_of(b.min.y, p.y),
            z: min_of(b.min.z, p.z),
        },
        max: Point3 {
            x: max_of(b.max.x, p.x),
            y: max_of(b.max.y, p.y),
            z: max_of(b.max.z, p.z),
        },
    }
}

/// The box of the corners of the listed triangles.
pub fn selection_bounds(mesh: &Mesh, triangles: &Vec<u32>) -> (r: Bounds3)
    requires
        listed(mesh.tris@, triangles@),
        mesh@.indexed(),
    ensures
        r == bounds_of(mesh@, triangles@, triangles@.len() as int),
{
    let mut b = Bounds3 {
        min: Point3 { x: INFINITY, y: INFINITY, z: INFINITY },
        max: Point3 { x: NEG_INFINITY, y: NEG_INFINITY, z: NEG_INFINITY },
    };
    for i in 0..triangles.len()
        invariant
            listed(mesh.tris@, triangles@),
            mesh@.indexed(),
            b == bounds_of(mesh@, triangles@, i as int),
    {
        assert(triangles@[i as int] < mesh.tris@.len());
        let t = mesh.tris[triangles[i] as usize];
        assert(mesh@.tris[triangles@[i as int] as int].within(mesh@.verts.len()));
        b = grow(b, mesh.verts[t.a as usize]);
        b = grow(b, mesh.verts[t.b as usize]);
        b = grow(b, mesh.verts[t.c as usize]);
    }
    b
}

// ---- a hash of the geometry -------------------------------------------------------------

/// Points by their bits.
pub open spec fn point_le(a: Point3, b: Point3) -> bool {
    a.x < b.x || (a.x == b.x && (a.y < b.y || (a.y == b.y && a.z <= b.z)))
}

impl Ranked for Point3 {
    open spec fn rank_le(&self, other: &Self) -> bool {
        point_le(*self, *other)
    }

    proof fn rank_total(a: &Self, b: &Self) {
    }

    proof fn rank_transitive(a: &Self, b: &Self, c: &Self) {
    }

    fn ranks_before(&self, other: &Self) -> (r: bool) {
        let r: bool = if self.x != other.x {
            self.x < other.x
        } else if self.y != other.y {
            self.y < other.y
        } else {
            self.z <= other.z
        };
        assert(r == point_le(*self, *other));
        assert(self.rank_le(other) == point_le(*self, *other));
        r
    }
}

/// The corners of a triangle in ascending order.
#[derive(Clone, Copy, Debug, PartialEq, Eq, Structural)]
pub struct Corners {
    pub a: Point3,
    pub b: Point3,
    pub c: Point3,
}

pub open spec fn corners_le(p: Corners, q: Corners) -> bool {
    if p.a != q.a {
        point_le(p.a, q.a)
    } else if p.b != q.b {
        point_le(p.b, q.b)
    } else {
        point_le(p.c, q.c)
    }
}

impl Ranked for Corners {
    open spec fn rank_le(&self, other: &Self) -> bool {
        corners_le(*self, *other)
    }

    proof fn rank_total(a: &Self, b: &Self) {
    }

    proof fn rank_transitive(a: &Self, b: &Self, c: &Self) {
    }

    fn ranks_before(&self, other: &Self) -> (r: bool) {
        if self.a != other.a {
            self.a.ranks_before(&other.a)
        } else if self.b != other.b {
            self.b.ranks_before(&other.b)
        } else {
            self.c.ranks_before(&other.c)
        }
    }
}

/// Three points in ascending order.
pub open spec fn in_order(x: Point3, y: Point3, z: Point3) -> Corners {
    let (a, b) = if point_le(x, y) {
        (x, y)
    } else {
        (y, x)
    };
    if point_le(b, z) {
        Corners { a, b, c: z }
    } else if point_le(a, z) {
        Corners { a, b: z, c: b }
    } else {
        Corners { a: z, b: a, c: b }
    }
}

fn put_in_order(x: Point3, y: Point3, z: Point3) -> (r: Corners)
    ensures
        r == in_order(x, y, z),
{
    let ordered: bool = x.ranks_before(&y);
    let a = if ordered {
        x
    } else {
        y
    };
    let b = if ordered {
        y
    } else {
        x
    };
    if b.ranks_before(&z) {
        Corners { a, b, c: z }
    } else if a.ranks_before(&z) {
        Corners { a, b: z, c: b }
    } else {
        Corners { a: z, b: a, c: b }
    }
}

/// The corners of the listed triangles.
pub open spec fn corner_list(m: MeshView, list: Seq<u32>) -> Seq<Corners> {
    Seq::new(
        list.len(),
        |i: int|
            {
                let t = m.tris[list[i] as int];
                in_order(m.verts[t.a as int], m.verts[t.b as int], m.verts[t.c as int])
            },
    )
}

/// One step of the FNV-1a hash.
pub open spec fn fnv_byte(h: u64, b: u8) -> u64 {
    (h ^ (b as u64)).wrapping_mul(0x100000001b3)
}

/// The hash after the first `n` bytes.
pub open spec fn fnv_bytes(h: u64, bytes: Seq<u8>, n: int) -> u64
    decreases n,
{
    if n <= 0 {
        h
    } else {
        fnv_byte(fnv_bytes(h, bytes, n - 1), bytes[n - 1])
    }
}

pub open spec fn fnv_word(h: u64, w: u64) -> u64 {
    fnv_bytes(h, spec_u64_to_le_bytes(w), 8)
}

pub open spec fn fnv_point(h: u64, p: Point3) -> u64 {
    fnv_word(fnv_word(fnv_word(h, p.x), p.y), p.z)
}

/// The hash after the first `n` triangles.
pub open spec fn fnv_corners(s: Seq<Corners>, n: int) -> u64
    decreases n,
{
    if n <= 0 {
        0xcbf29ce484222325
    } else {
        let c = s[n - 1];
        fnv_point(fnv_point(fnv_point(fnv_corners(s, n - 1), c.a), c.b), c.c)
    }
}

/// `h` is the hash of the listed triangles in ascending order, each with its
/// corners in ascending order.
pub open spec fn is_geometry_hash(m: MeshView, list: Seq<u32>, h: u64) -> bool {
    exists|s: Seq<Corners>|
        ascending(s) && s.to_multiset() =~= corner_list(m, list).to_multiset() && h
            == #[trigger] fnv_corners(s, s.len() as int)
}

fn hash_word(h: u64, w: u64) -> (r: u64)
    ensures
        r == fnv_word(h, w),
{
    let b = u64_to_le_bytes(w);
    let mut h1: u64 = h;
    for i in 0..8usize
        invariant
            b@ == spec_u64_to_le_bytes(w),
            b@.len() == 8,
            h1 == fnv_bytes(h, b@, i as int),
    {
        h1 = (h1 ^ (b[i] as u64)).wrapping_mul(0x100000001b3);
    }
    h1
}

fn hash_point(h: u64, p: Point3) -> (r: u64)
    ensures
        r == fnv_point(h, p),
{
    let h1: u64 = hash_word(h, p.x);
    let h2: u64 = hash_word(h1, p.y);
    hash_word(h2, p.z)
}

/// A hash of the listed triangles that does not depend on the order of the
/// list, of the corners, or of the vertices.
pub fn canonical_geometry_hash(mesh: &Mesh, triangles: &Vec<u32>) -> (r: u64)
    requires
        listed(mesh.tris@, triangles@),
        mesh@.indexed(),
    ensures
        is_geometry_hash(mesh@, triangles@, r),
{
    let mut v: Vec<Corners> = Vec::new();
    for i in 0..triangles.len()
        invariant
            listed(mesh.tris@, triangles@),
            mesh@.indexed(),
            v@.len() == i,
            forall|k: int| 0 <= k < i ==> #[trigger] v@[k] == corner_list(mesh@, triangles@)[k],
    {
        assert(triangles@[i as int] < mesh.tris@.len());
        let t = mesh.tris[triangles[i] as usize];
        assert(mesh@.tris[triangles@[i as int] as int].within(mesh@.verts.len()));
        v.push(
            put_in_order(
                mesh.verts[t.a as usize],
                mesh.verts[t.b as usize],
                mesh.verts[t.c as usize],
            ),
        );
    }
    assert(v@ =~= corner_list(mesh@, triangles@));
    let s = sorted(v);
    let mut h: u64 = 0xcbf29ce484222325;
    for i in 0..s.len()
        invariant
            h == fnv_corners(s@, i as int),
    {
        let c = s[i];
        h = hash_point(h, c.a);
        h = hash_point(h, c.b);
        h = hash_point(h, c.c);
    }
    h
}

/// Two lists of the same triangles have the same hash.
pub proof fn law_hash_ignores_order(m: MeshView, a: Seq<u32>, b: Seq<u32>, ha: u64, hb: u64)
    requires
        corner_list(m, a).to_multiset() =~= corner_list(m, b).to_multiset(),
        is_geometry_hash(m, a, ha),
        is_geometry_hash(m, b, hb),
    ensures
        ha == hb,
{
    let s = choose|s: Seq<Corners>|
        ascending(s) && s.to_multiset() =~= corner_list(m, a).to_multiset() && ha
            == #[trigger] fnv_corners(s, s.len() as int);
    let t = choose|s: Seq<Corners>|
        ascending(s) && s.to_multiset() =~= corner_list(m, b).to_multiset() && hb
            == #[trigger] fnv_corners(s, s.len() as int);
    crate::rank::lemma_ascending_unique(s, t);
}

// ---- selections ---------------------------------------------------------------------------

/// Some triangles of a mesh, with their box, owners and hash.
#[derive(Debug)]
pub struct MeshSelection {
    pub triangles: Vec<u32>,
    pub bounds: Bounds3,
    pub provenance: Vec<ProvenanceFrame>,
    pub attribution: AttributionStatus,
    pub geometry_hash: u64,
}

/// The surface of triangle `t`.
pub open spec fn surface_of(m: AttributedView, table: Seq<SurfaceView>, t: int) -> SurfaceView {
    table[m.surface_ids[t].0 as int]
}

/// Adds the frames from the `j`-th on that are not there yet.
pub open spec fn with_frames(have: Seq<FrameView>, more: Seq<FrameView>, j: int) -> Seq<FrameView>
    decreases more.len() - j,
{
    if j < 0 || j >= more.len() {
        have
    } else if have.contains(more[j]) {
        with_frames(have, more, j + 1)
    } else {
        with_frames(have.push(more[j]), more, j + 1)
    }
}

/// The frames of the first `n` listed triangles, each once, in order of
/// appearance.
pub open spec fn frames_of(
    m: AttributedView,
    table: Seq<SurfaceView>,
    list: Seq<u32>,
    n: int,
) -> Seq<FrameView>
    decreases n,
{
    if n <= 0 {
        Seq::empty()
    } else {
        with_frames(
            frames_of(m, table, list, n - 1),
            surface_of(m, table, list[n - 1] as int).provenance,
            0,
        )
    }
}

/// Some listed triangle has an ambiguous surface.
pub open spec fn any_ambiguous(m: AttributedView, table: Seq<SurfaceView>, list: Seq<u32>) -> bool {
    exists|i: int|
        0 <= i < list.len() && surface_of(m, table, #[trigger] list[i] as int).status
            == AttributionStatus::Ambiguous
}

/// `s` is the selection of the listed triangles.
pub open spec fn selects(
    m: AttributedView,
    table: Seq<SurfaceView>,
    list: Seq<u32>,
    s: MeshSelection,
) -> bool {
    &&& s.triangles@.to_multiset() =~= list.to_multiset()
    &&& forall|i: int, j: int|
        0 <= i < j < s.triangles@.len() ==> #[trigger] s.triangles@[i] <= #[trigger] s.triangles@[j]
    &&& s.bounds == bounds_of(m.mesh, s.triangles@, s.triangles@.len() as int)
    &&& path(s.provenance@) == frames_of(m, table, s.triangles@, s.triangles@.len() as int)
    &&& s.attribution == if any_ambiguous(m, table, s.triangles@) {
        AttributionStatus::Ambiguous
    } else {
        AttributionStatus::Exact
    }
    &&& is_geometry_hash(m.mesh, s.triangles@, s.geometry_hash)
}

impl Ranked for u32 {
    open spec fn rank_le(&self, other: &Self) -> bool {
        *self <= *other
    }

    proof fn rank_total(a: &Self, b: &Self) {
    }

    proof fn rank_transitive(a: &Self, b: &Self, c: &Self) {
    }

    fn ranks_before(&self, other: &Self) -> (r: bool) {
        *self <= *other
    }
}

/// Every triangle has a surface in the table.
pub open spec fn attributed(m: AttributedView, table: Seq<SurfaceView>) -> bool {
    &&& m.surface_ids.len() == m.mesh.tris.len()
    &&& forall|t: int| 0 <= t < m.surface_ids.len() ==> (#[trigger] m.surface_ids[t]).0 < table.len()
}

fn holds_frame(v: &Vec<ProvenanceFrame>, f: &ProvenanceFrame) -> (r: bool)
    ensures
        r == path(v@).contains(f@),
{
    let mut i: usize = 0;
    while i < v.len()
        invariant
            i <= v@.len(),
            forall|k: int| 0 <= k < i ==> #[trigger] path(v@)[k] != f@,
        decreases v.len() - i,
    {
        if v[i].same(f) {
            assert(path(v@)[i as int] == f@);
            return true;
        }
        assert(path(v@)[i as int] != f@);
        i = i + 1;
    }
    false
}

pub(crate) fn add_frames(have: &mut Vec<ProvenanceFrame>, more: &Vec<ProvenanceFrame>)
    ensures
        path(final(have)@) == with_frames(path(old(have)@), path(more@), 0),
{
    let ghost whole = with_frames(path(have@), path(more@), 0);
    for j in 0..more.len()
        invariant
            whole == with_frames(path(have@), path(more@), j as int),
    {
        assert(path(more@)[j as int] == more@[j as int]@);
        if !holds_frame(have, &more[j]) {
            let ghost before = path(have@);
            have.push(more[j].duplicate());
            assert(path(have@) =~= before.push(more@[j as int]@));
        }
    }
}

pub(crate) proof fn lemma_listed_permuted(tris: Seq<Triangle>, a: Seq<u32>, b: Seq<u32>)
    requires
        listed(tris, a),
        a.to_multiset() =~= b.to_multiset(),
    ensures
        listed(tris, b),
{
    a.to_multiset_ensures();
    b.to_multiset_ensures();
    assert forall|i: int| 0 <= i < b.len() implies #[trigger] b[i] < tris.len() by {
        assert(b.to_multiset().count(b[i]) > 0);
        assert(a.contains(b[i]));
        let j = choose|j: int| 0 <= j < a.len() && a[j] == b[i];
        assert(a[j] < tris.len());
    }
}

/// The selection of some triangles: sorted, with the box, the distinct owners
/// in order of appearance, and whether any of them is in doubt.
pub fn make_selection(
    exact: &AttributedMesh,
    attributions: &Vec<SurfaceAttribution>,
    triangles: Vec<u32>,
) -> (r: MeshSelection)
    requires
        listed(exact.mesh.tris@, triangles@),
        exact.mesh@.indexed(),
        attributed(exact@, surface_views(attributions@)),
    ensures
        selects(exact@, surface_views(attributions@), triangles@, r),
{
    let ghost list = triangles@;
    let triangles = sorted(triangles);
    proof {
        lemma_listed_permuted(exact.mesh.tris@, list, triangles@);
    }
    let ghost m = exact@;
    let ghost table = surface_views(attributions@);
    let mut provenance: Vec<ProvenanceFrame> = Vec::new();
    let mut ambiguous: bool = false;
    assert(path(provenance@) =~= Seq::empty());
    let mut i: usize = 0;
    while i < triangles.len()
        invariant
            m == exact@,
            table == surface_views(attributions@),
            attributed(m, table),
            listed(exact.mesh.tris@, triangles@),
            i <= triangles@.len(),
            path(provenance@) == frames_of(m, table, triangles@, i as int),
            ambiguous == exists|k: int|
                0 <= k < i && surface_of(m, table, #[trigger] triangles@[k] as int).status
                    == AttributionStatus::Ambiguous,
        decreases triangles.len() - i,
    {
        let t: usize = triangles[i] as usize;
        assert(triangles@[i as int] < exact.mesh.tris@.len());
        assert(m.surface_ids[t as int].0 < table.len());
        let surface = &attributions[exact.surface_ids[t].0 as usize];
        assert(surface@ == surface_of(m, table, triangles@[i as int] as int));
        if surface.status == AttributionStatus::Ambiguous {
            ambiguous = true;
        }
        add_frames(&mut provenance, &surface.provenance);
        i = i + 1;
    }
    let bounds = selection_bounds(&exact.mesh, &triangles);
    let geometry_hash: u64 = canonical_geometry_hash(&exact.mesh, &triangles);
    let attribution = if ambiguous {
        AttributionStatus::Ambiguous
    } else {
        AttributionStatus::Exact
    };
    proof {
        assert forall|a: int, b: int|
            0 <= a < b < triangles@.len() implies #[trigger] triangles@[a] <= #[trigger] triangles@[b] by {
            assert(triangles@[a].rank_le(&triangles@[b]));
        }
    }
    MeshSelection { triangles, bounds, provenance, attribution, geometry_hash }
}

/// A number that orders bit patterns as their total order does.
pub open spec fn ordinal(b: u64) -> int {
    total_place(b) + 0x8000_0000_0000_0000
}

fn ordinal_of(b: u64) -> (r: u64)
    ensures
        r == ordinal(b),
{
    if b >= SIGN {
        0xffff_ffff_ffff_ffff - b
    } else {
        b + 0x8000_0000_0000_0000
    }
}

/// What solids are ordered by: lower corner (height first), upper corner, size,
/// hash.
pub open spec fn spatial_key(s: MeshSelection) -> Seq<int> {
    seq![
        ordinal(s.bounds.min.z),
        ordinal(s.bounds.min.x),
        ordinal(s.bounds.min.y),
        ordinal(s.bounds.max.z),
        ordinal(s.bounds.max.x),
        ordinal(s.bounds.max.y),
        s.triangles@.len() as int,
        s.geometry_hash as int,
    ]
}

pub(crate) fn spatial_numbers(s: &MeshSelection) -> (r: Vec<u64>)
    ensures
        as_ints(r@) == spatial_key(*s),
{
    let mut v: Vec<u64> = Vec::new();
    v.push(ordinal_of(s.bounds.min.z));
    v.push(ordinal_of(s.bounds.min.x));
    v.push(ordinal_of(s.bounds.min.y));
    v.push(ordinal_of(s.bounds.max.z));
    v.push(ordinal_of(s.bounds.max.x));
    v.push(ordinal_of(s.bounds.max.y));
    v.push(s.triangles.len() as u64);
    v.push(s.geometry_hash);
    assert(as_ints(v@) =~= spatial_key(*s));
    v
}

impl Ranked for MeshSelection {
    open spec fn rank_le(&self, other: &Self) -> bool {
        dictionary_le(spatial_key(*self), spatial_key(*other), plain())
    }

    proof fn rank_total(a: &Self, b: &Self) {
        lemma_dictionary_total(spatial_key(*a), spatial_key(*b), plain());
    }

    proof fn rank_transitive(a: &Self, b: &Self, c: &Self) {
        lemma_dictionary_transitive(spatial_key(*a), spatial_key(*b), spatial_key(*c), plain());
    }

    /// Spatial order: from the bottom up, then along x, then along y.
    fn ranks_before(&self, other: &Self) -> (r: bool) {
        let a = spatial_numbers(self);
        let b = spatial_numbers(other);
        ints_at_most(&a, &b)
    }
}

/// A mesh cut into its solids.
#[derive(Debug)]
pub struct StructuredMesh {
    /// Complete scene geometry; structural siblings are not fused.
    pub exact: AttributedMesh,
    /// The ordinary render, for aggregate measurements and fused exports.
    pub aggregate: Mesh,
    pub include_display_modes: bool,
    pub solid_components: Vec<MeshSelection>,
    pub attributions: Vec<SurfaceAttribution>,
}

/// The numbers of all triangles.
pub open spec fn all_triangles(n: nat) -> Seq<u32> {
    Seq::new(n, |i: int| i as u32)
}

/// The solids of a mesh, before they are put in order.
pub open spec fn solids(
    m: AttributedView,
    table: Seq<SurfaceView>,
    parts: Seq<MeshSelection>,
) -> bool {
    let all = all_triangles(m.mesh.tris.len());
    let cut = groups(all, labels(m.mesh.tris, all), m.mesh.tris.len() as int);
    &&& parts.len() == cut.len()
    &&& forall|i: int| 0 <= i < parts.len() ==> selects(m, table, cut[i], #[trigger] parts[i])
}

/// `sorted` holds the solids of a mesh in spatial order.
pub open spec fn partitioned(
    m: AttributedView,
    table: Seq<SurfaceView>,
    sorted: Seq<MeshSelection>,
) -> bool {
    &&& ascending(sorted)
    &&& exists|parts: Seq<MeshSelection>| #[trigger]
        solids(m, table, parts) && parts.to_multiset() =~= sorted.to_multiset()
}

/// What keeps an attributed mesh from being cut.
pub open spec fn partition_fault(m: AttributedView, table: Seq<SurfaceView>) -> Option<Seq<char>> {
    if m.fault() is Some {
        m.fault()
    } else if exists|t: int|
        0 <= t < m.surface_ids.len() && (#[trigger] m.surface_ids[t]).0 >= table.len() {
        Some("surface ID does not resolve in the attribution table"@)
    } else {
        None
    }
}

pub(crate) proof fn lemma_members_listed(tris: Seq<Triangle>, list: Seq<u32>, label: Seq<int>, n: int, g: int)
    requires
        listed(tris, list),
        0 <= g < groups(list, label, n).len(),
    ensures
        listed(tris, groups(list, label, n)[g]),
    decreases n,
{
    broadcast use vstd::seq::Seq::lemma_filter_contains_rev;

    if n > 0 {
        let part = crate::components::members(list, label, n - 1);
        if part.len() > 0 && g == groups(list, label, n).len() - 1 {
            assert forall|i: int| 0 <= i < part.len() implies #[trigger] part[i] < tris.len() by {
                assert(part.contains(part[i]));
                assert(list.contains(part[i]));
                let j = choose|j: int| 0 <= j < list.len() && list[j] == part[i];
                assert(list[j] < tris.len());
            }
        } else {
            lemma_members_listed(tris, list, label, n - 1, g);
        }
    }
}

/// Cuts an attributed mesh into its solids: triangles that share a vertex index
/// belong together, whatever their color, and vertices at the same place are
/// not welded.
pub fn partition(
    exact: AttributedMesh,
    aggregate: Mesh,
    include_display_modes: bool,
    attributions: Vec<SurfaceAttribution>,
) -> (r: Result<StructuredMesh, GeomError>)
    requires
        exact.mesh@.indexed(),
        exact.mesh@.tris.len() <= u32::MAX,
    ensures
        match r {
            Ok(s) => {
                &&& partition_fault(exact@, surface_views(attributions@)) is None
                &&& s.exact == exact
                &&& s.aggregate == aggregate
                &&& s.include_display_modes == include_display_modes
                &&& s.attributions == attributions
                &&& partitioned(exact@, surface_views(attributions@), s.solid_components@)
            },
            Err(e) => partition_fault(exact@, surface_views(attributions@)) is Some && e@
                == GeomFault::Invariant(partition_fault(exact@, surface_views(attributions@))->0),
        },
{
    match exact.validate() {
        Ok(_) => {},
        Err(e) => return Err(e),
    }
    let ghost m = exact@;
    let ghost table = surface_views(attributions@);
    let n: usize = exact.mesh.tris.len();
    let mut i: usize = 0;
    while i < exact.surface_ids.len()
        invariant
            m == exact@,
            table == surface_views(attributions@),
            m.fault() is None,
            i <= exact.surface_ids@.len(),
            forall|t: int| 0 <= t < i ==> (#[trigger] m.surface_ids[t]).0 < table.len(),
        decreases exact.surface_ids.len() - i,
    {
        assert(m.surface_ids[i as int] == exact.surface_ids@[i as int]);
        if exact.surface_ids[i].0 as usize >= attributions.len() {
            return Err(misfit("surface ID does not resolve in the attribution table"));
        }
        i = i + 1;
    }
    let mut all: Vec<u32> = Vec::new();
    for t in 0..n as u32
        invariant
            all@ =~= all_triangles(t as nat),
    {
        all.push(t);
    }
    assert(all@ =~= all_triangles(n as nat));
    let cut = components_for_triangles(&exact.mesh, &all);
    let ghost whole = lists(cut@);
    let mut rest = cut;
    let mut rev: Vec<Vec<u32>> = Vec::new();
    // Turned round, so that the first component comes off first.
    while rest.len() > 0
        invariant
            rest@.len() + rev@.len() == whole.len(),
            forall|k: int| 0 <= k < rest@.len() ==> (#[trigger] rest@[k])@ == whole[k],
            forall|k: int|
                0 <= k < rev@.len() ==> (#[trigger] rev@[k])@ == whole[whole.len() - 1 - k],
        decreases rest.len(),
    {
        if let Some(c) = rest.pop() {
            rev.push(c);
        }
    }
    let mut parts: Vec<MeshSelection> = Vec::new();
    while rev.len() > 0
        invariant
            m == exact@,
            exact.mesh@.indexed(),
            n == exact.mesh@.tris.len(),
            listed(exact.mesh.tris@, all@),
            table == surface_views(attributions@),
            attributed(m, table),
            whole == groups(all@, labels(exact.mesh.tris@, all@), n as int),
            parts@.len() + rev@.len() == whole.len(),
            forall|k: int|
                0 <= k < rev@.len() ==> (#[trigger] rev@[k])@ == whole[whole.len() - 1 - k],
            forall|k: int|
                0 <= k < parts@.len() ==> selects(m, table, whole[k], #[trigger] parts@[k]),
        decreases rev.len(),
    {
        let ghost g = parts@.len() as int;
        if let Some(c) = rev.pop() {
            assert(c@ == whole[g]);
            proof {
                lemma_members_listed(
                    exact.mesh.tris@,
                    all@,
                    labels(exact.mesh.tris@, all@),
                    n as int,
                    g,
                );
            }
            parts.push(make_selection(&exact, &attributions, c));
        }
    }
    let ghost made = parts@;
    let solid_components = sorted(parts);
    assert(solids(m, table, made));
    Ok(
        StructuredMesh { exact, aggregate, include_display_modes, solid_components, attributions },
    )
}

} // verus!
