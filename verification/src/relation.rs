//! Meshes whose triangles remember their surface and source patch, and the
//! run tables that carry those facts through a boolean kernel.

use crate::error::{misfit, outcome, GeomError, GeomFault};
use crate::mesh::{Mesh, MeshView, Point3, Triangle};
use crate::text::{decimal, decimal_text};
use std::collections::HashMap;
use vstd::prelude::*;

verus! {

broadcast use vstd::std_specs::hash::group_hash_axioms;

/// The index of a surface in the attribution table.
#[derive(Clone, Copy, Debug, PartialEq, Eq, Structural)]
pub struct SurfaceAttributionId(pub u32);

/// A mesh with the surface and the source patch of each triangle.
#[derive(Debug)]
pub struct AttributedMesh {
    pub mesh: Mesh,
    pub surface_ids: Vec<SurfaceAttributionId>,
    pub source_face_ids: Vec<u64>,
}

/// What an attributed mesh holds.
pub struct AttributedView {
    pub mesh: MeshView,
    pub surface_ids: Seq<SurfaceAttributionId>,
    pub source_face_ids: Seq<u64>,
}

impl View for AttributedMesh {
    type V = AttributedView;

    open spec fn view(&self) -> AttributedView {
        AttributedView {
            mesh: self.mesh@,
            surface_ids: self.surface_ids@,
            source_face_ids: self.source_face_ids@,
        }
    }
}

/// A number of triangles beside another number of something.
pub open spec fn mismatch(triangles: nat, others: nat, what: Seq<char>) -> Seq<char> {
    decimal_text(triangles) + " triangles but "@ + decimal_text(others) + what
}

/// The text of such a mismatch.
pub fn mismatch_text(triangles: usize, others: usize, what: &str) -> (r: String)
    ensures
        r@ == mismatch(triangles as nat, others as nat, what@),
{
    let mut s = decimal(triangles as u64);
    s.append(" triangles but ");
    let n = decimal(others as u64);
    s.append(n.as_str());
    s.append(what);
    s
}

impl AttributedView {
    /// Why the attribution does not fit the mesh.
    pub open spec fn fault(self) -> Option<Seq<char>> {
        let n = self.mesh.tris.len();
        if n == 0 {
            if self.surface_ids.len() == 0 && self.source_face_ids.len() == 0 {
                None
            } else {
                Some("empty mesh has non-empty triangle attribution"@)
            }
        } else if self.surface_ids.len() != n {
            Some(mismatch(n, self.surface_ids.len(), " surface IDs"@))
        } else if self.source_face_ids.len() != n {
            Some(mismatch(n, self.source_face_ids.len(), " source face IDs"@))
        } else {
            None
        }
    }
}

/// The error for a fault, or none.
pub open spec fn verdict(fault: Option<Seq<char>>) -> Result<(), GeomFault> {
    match fault {
        None => Ok(()),
        Some(m) => Err(GeomFault::Invariant(m)),
    }
}

impl AttributedMesh {
    pub fn validate(&self) -> (r: Result<(), GeomError>)
        ensures
            outcome(r) == verdict(self@.fault()),
    {
        let triangles: usize = self.mesh.tris.len();
        if triangles == 0 {
            if self.surface_ids.len() == 0 && self.source_face_ids.len() == 0 {
                return Ok(());
            }
            return Err(misfit("empty mesh has non-empty triangle attribution"));
        }
        if self.surface_ids.len() != triangles {
            return Err(
                GeomError::Invariant(
                    mismatch_text(triangles, self.surface_ids.len(), " surface IDs"),
                ),
            );
        }
        if self.source_face_ids.len() != triangles {
            return Err(
                GeomError::Invariant(
                    mismatch_text(triangles, self.source_face_ids.len(), " source face IDs"),
                ),
            );
        }
        Ok(())
    }

    /// A mesh without triangles.
    pub fn empty() -> (r: Self)
        ensures
            r@.mesh.verts =~= Seq::empty(),
            r@.mesh.tris =~= Seq::empty(),
            r@.surface_ids =~= Seq::empty(),
            r@.source_face_ids =~= Seq::empty(),
    {
        AttributedMesh {
            mesh: Mesh::new(),
            surface_ids: Vec::new(),
            source_face_ids: Vec::new(),
        }
    }
}

/// An attributed mesh that also knows which triangles are seen from behind.
#[derive(Debug)]
pub struct RelationMesh {
    pub attributed: AttributedMesh,
    pub backside: Vec<bool>,
}

/// What a relation mesh holds.
pub struct RelationView {
    pub attributed: AttributedView,
    pub backside: Seq<bool>,
}

impl View for RelationMesh {
    type V = RelationView;

    open spec fn view(&self) -> RelationView {
        RelationView { attributed: self.attributed@, backside: self.backside@ }
    }
}

impl RelationView {
    pub open spec fn fault(self) -> Option<Seq<char>> {
        if self.attributed.fault() is Some {
            self.attributed.fault()
        } else if self.backside.len() != self.attributed.mesh.tris.len() {
            Some(mismatch(self.attributed.mesh.tris.len(), self.backside.len(), " backside flags"@))
        } else {
            None
        }
    }

    /// Every triangle has a surface, a patch and a side.
    pub open spec fn fits(self) -> bool {
        let n = self.attributed.mesh.tris.len();
        &&& self.attributed.surface_ids.len() == n
        &&& self.attributed.source_face_ids.len() == n
        &&& self.backside.len() == n
    }
}

impl RelationMesh {
    pub fn empty() -> (r: Self)
        ensures
            r@.attributed.mesh.verts =~= Seq::empty(),
            r@.attributed.mesh.tris =~= Seq::empty(),
            r@.fits(),
    {
        RelationMesh { attributed: AttributedMesh::empty(), backside: Vec::new() }
    }

    pub fn validate(&self) -> (r: Result<(), GeomError>)
        ensures
            outcome(r) == verdict(self@.fault()),
            r is Ok <==> self@.fits(),
    {
        match self.attributed.validate() {
            Ok(_) => {},
            Err(e) => return Err(e),
        }
        if self.backside.len() != self.attributed.mesh.tris.len() {
            return Err(
                GeomError::Invariant(
                    mismatch_text(
                        self.attributed.mesh.tris.len(),
                        self.backside.len(),
                        " backside flags",
                    ),
                ),
            );
        }
        Ok(())
    }
}

// ---- run keys --------------------------------------------------------------------------

/// Numbers `(surface, patch)` pairs from 1, so that both operands of a boolean
/// agree on what a run means and the pair can be recovered from the result.
pub struct RunKeys {
    ids: HashMap<u128, u32>,
    pairs: Vec<(SurfaceAttributionId, u64)>,
}

/// One number for a pair.
spec fn packed(p: (SurfaceAttributionId, u64)) -> int {
    p.0.0 * 0x1_0000_0000_0000_0000 + p.1
}

impl RunKeys {
    /// The pairs in the order of their numbers.
    pub closed spec fn view(&self) -> Seq<(SurfaceAttributionId, u64)> {
        self.pairs@
    }

    /// Each pair has one number.
    pub closed spec fn wf(&self) -> bool {
        &&& self.pairs@.no_duplicates()
        &&& self.pairs@.len() <= u32::MAX
        &&& forall|i: int|
            0 <= i < self.pairs@.len() ==> self.ids@.contains_key(
                packed(#[trigger] self.pairs@[i]) as u128,
            ) && self.ids@[packed(self.pairs@[i]) as u128] == i + 1
        &&& forall|k: u128| #[trigger]
            self.ids@.contains_key(k) ==> 1 <= self.ids@[k] <= self.pairs@.len() && packed(
                self.pairs@[self.ids@[k] - 1],
            ) == k
    }

    pub proof fn lemma_wf(&self)
        requires
            self.wf(),
        ensures
            self@.no_duplicates(),
            self@.len() <= u32::MAX,
    {
    }

    pub fn new() -> (r: Self)
        ensures
            r.wf(),
            r@ =~= Seq::empty(),
    {
        RunKeys { ids: HashMap::new(), pairs: Vec::new() }
    }

    /// The number of a pair, a new one where it has none.
    pub fn intern(&mut self, surface: SurfaceAttributionId, patch: u64) -> (r: Result<
        u32,
        GeomError,
    >)
        requires
            old(self).wf(),
        ensures
            final(self).wf(),
            match r {
                Ok(id) => {
                    &&& 1 <= id <= final(self)@.len()
                    &&& final(self)@[id - 1] == (surface, patch)
                    &&& final(self)@ == if old(self)@.contains((surface, patch)) {
                        old(self)@
                    } else {
                        old(self)@.push((surface, patch))
                    }
                },
                Err(e) => {
                    &&& e@ == GeomFault::Invariant("relation run ID overflow"@)
                    &&& !old(self)@.contains((surface, patch))
                    &&& old(self)@.len() == u32::MAX
                    &&& final(self)@ == old(self)@
                },
            },
    {
        let pair = (surface, patch);
        let key: u128 = (surface.0 as u128) * 0x1_0000_0000_0000_0000 + (patch as u128);
        assert(key == packed(pair));
        if let Some(id) = self.ids.get(&key) {
            assert(self.pairs@[*id - 1] == pair);
            return Ok(*id);
        }
        proof {
            if self.pairs@.contains(pair) {
                let i = choose|i: int| 0 <= i < self.pairs@.len() && self.pairs@[i] == pair;
                assert(packed(self.pairs@[i]) == key);
            }
        }
        if self.pairs.len() >= 0xffff_ffff {
            return Err(misfit("relation run ID overflow"));
        }
        let ghost before = self.pairs@;
        let ghost ids0 = self.ids@;
        self.pairs.push(pair);
        let id: u32 = self.pairs.len() as u32;
        self.ids.insert(key, id);
        proof {
            assert(self.pairs@.no_duplicates());
            assert forall|i: int| 0 <= i < self.pairs@.len() implies self.ids@.contains_key(
                packed(#[trigger] self.pairs@[i]) as u128,
            ) && self.ids@[packed(self.pairs@[i]) as u128] == i + 1 by {
                if i < before.len() {
                    assert(self.pairs@[i] == before[i]);
                    assert(packed(before[i]) != key);
                }
            }
            assert forall|k: u128| #[trigger] self.ids@.contains_key(k) implies 1 <= self.ids@[k]
                <= self.pairs@.len() && packed(self.pairs@[self.ids@[k] - 1]) == k by {
                if k != key {
                    assert(ids0.contains_key(k));
                }
            }
        }
        Ok(id)
    }

    /// The pair with this number.
    pub fn decode(&self, original_id: u32) -> (r: Option<(SurfaceAttributionId, u64)>)
        ensures
            r == decoded(self@, original_id),
    {
        if original_id == 0 {
            return None;
        }
        let index: usize = (original_id - 1) as usize;
        if index < self.pairs.len() {
            Some(self.pairs[index])
        } else {
            None
        }
    }
}

/// The pair that a number stands for.
pub open spec fn decoded(pairs: Seq<(SurfaceAttributionId, u64)>, id: u32) -> Option<
    (SurfaceAttributionId, u64),
> {
    if 1 <= id <= pairs.len() {
        Some(pairs[id - 1])
    } else {
        None
    }
}

/// A number goes on standing for its pair whatever is numbered afterwards, and
/// no two pairs share a number.
pub proof fn law_run_numbers_stay(
    pairs: Seq<(SurfaceAttributionId, u64)>,
    more: Seq<(SurfaceAttributionId, u64)>,
    a: u32,
    b: u32,
)
    requires
        (pairs + more).no_duplicates(),
        decoded(pairs, a) is Some,
    ensures
        decoded(pairs + more, a) == decoded(pairs, a),
        decoded(pairs + more, b) == decoded(pairs, a) ==> a == b,
{
}

// ---- what a kernel hands back ------------------------------------------------------------

/// The tables of a mesh as a boolean kernel hands them back. Coordinates are
/// the bits of their doubles.
pub struct RelationParts {
    pub num_prop: usize,
    pub vertex_properties: Vec<u64>,
    pub triangle_vertices: Vec<u64>,
    pub run_index: Vec<u64>,
    pub run_original_id: Vec<u32>,
    pub merge_from_vert: Vec<u64>,
    pub merge_to_vert: Vec<u64>,
    pub run_flags: Vec<u8>,
}

impl RelationParts {
    pub open spec fn vertex_count(&self) -> int {
        self.vertex_properties@.len() as int / self.num_prop as int
    }

    pub open spec fn triangle_count(&self) -> int {
        self.triangle_vertices@.len() as int / 3
    }

    /// The first three properties of each vertex are its place.
    pub open spec fn points(&self) -> Seq<Point3> {
        Seq::new(
            self.vertex_count() as nat,
            |i: int|
                Point3 {
                    x: self.vertex_properties@[i * self.num_prop],
                    y: self.vertex_properties@[i * self.num_prop + 1],
                    z: self.vertex_properties@[i * self.num_prop + 2],
                },
        )
    }
}

/// Where each vertex is merged to after the first `i` merges; at first each
/// stays where it is.
pub open spec fn merge_map(n: nat, from: Seq<u64>, to: Seq<u64>, i: int) -> Seq<u64>
    decreases i,
{
    if i <= 0 {
        Seq::new(n, |k: int| k as u64)
    } else {
        merge_map(n, from, to, i - 1).update(from[i - 1] as int, to[i - 1])
    }
}

/// Where `v` stands after `k` steps along the merges.
pub open spec fn follow(m: Seq<u64>, v: int, k: nat) -> int
    decreases k,
{
    if k == 0 {
        v
    } else {
        follow(m, m[v] as int, (k - 1) as nat)
    }
}

/// After `k` steps `v` stands at `r`, which is merged no further.
pub open spec fn settles_in(m: Seq<u64>, v: int, k: nat, r: int) -> bool {
    follow(m, v, k) == r && m[r] == r
}

/// Following the merges from `v` ends at `r`.
pub open spec fn settles(m: Seq<u64>, v: int, r: int) -> bool {
    exists|k: nat| #[trigger] settles_in(m, v, k, r)
}

/// Where following the merges from `v` ends.
pub open spec fn settled(m: Seq<u64>, v: int) -> int {
    choose|r: int| settles(m, v, r)
}

/// Following the merges from `v` ends somewhere.
pub open spec fn ends(m: Seq<u64>, v: int) -> bool {
    exists|r: int| settles(m, v, r)
}

/// Every merge leads to a vertex.
pub open spec fn closed_map(m: Seq<u64>) -> bool {
    forall|i: int| 0 <= i < m.len() ==> #[trigger] m[i] < m.len()
}

proof fn lemma_follow_range(m: Seq<u64>, v: int, k: nat)
    requires
        closed_map(m),
        0 <= v < m.len(),
    ensures
        0 <= follow(m, v, k) < m.len(),
    decreases k,
{
    if k > 0 {
        assert(m[v] < m.len());
        lemma_follow_range(m, m[v] as int, (k - 1) as nat);
    }
}

proof fn lemma_follow_plus(m: Seq<u64>, v: int, j: nat, k: nat)
    ensures
        follow(m, v, j + k) == follow(m, follow(m, v, j), k),
    decreases j,
{
    if j > 0 {
        lemma_follow_plus(m, m[v] as int, (j - 1) as nat, k);
    }
}

proof fn lemma_follow_fixed(m: Seq<u64>, r: int, k: nat)
    requires
        m[r] == r,
    ensures
        follow(m, r, k) == r,
    decreases k,
{
    if k > 0 {
        lemma_follow_fixed(m, r, (k - 1) as nat);
    }
}

pub proof fn lemma_settles_unique(m: Seq<u64>, v: int, a: int, b: int)
    requires
        settles(m, v, a),
        settles(m, v, b),
    ensures
        a == b,
{
    let j = choose|k: nat| #[trigger] settles_in(m, v, k, a);
    let k = choose|k: nat| #[trigger] settles_in(m, v, k, b);
    if j <= k {
        lemma_follow_plus(m, v, j, (k - j) as nat);
        lemma_follow_fixed(m, a, (k - j) as nat);
    } else {
        lemma_follow_plus(m, v, k, (j - k) as nat);
        lemma_follow_fixed(m, b, (j - k) as nat);
    }
}

/// A way that ends does so within as many steps as there are vertices.
proof fn lemma_settles_soon(m: Seq<u64>, v: int, k: nat, r: int)
    requires
        closed_map(m),
        0 <= v < m.len(),
        settles_in(m, v, k, r),
    ensures
        exists|j: nat| j < m.len() && #[trigger] settles_in(m, v, j, r),
    decreases k,
{
    if k >= m.len() {
        let way = Seq::new((k + 1) as nat, |i: int| follow(m, v, i as nat));
        if way.no_duplicates() {
            assert(way.to_set().subset_of(vstd::set_lib::set_int_range(0, m.len() as int))) by {
                assert forall|x: int| way.to_set().contains(x) implies 0 <= x < m.len() by {
                    let i = choose|i: int| 0 <= i < way.len() && way[i] == x;
                    lemma_follow_range(m, v, i as nat);
                }
            }
            vstd::set_lib::lemma_int_range(0, m.len() as int);
            vstd::set_lib::lemma_len_subset(
                way.to_set(),
                vstd::set_lib::set_int_range(0, m.len() as int),
            );
            way.unique_seq_to_set();
            assert(false);
        }
        let (i, j) = choose|i: int, j: int|
            0 <= i < way.len() && 0 <= j < way.len() && i != j && way[i] == way[j];
        let (lo, hi) = if i < j {
            (i, j)
        } else {
            (j, i)
        };
        assert(follow(m, v, lo as nat) == follow(m, v, hi as nat));
        lemma_follow_plus(m, v, hi as nat, (k - hi) as nat);
        lemma_follow_plus(m, v, lo as nat, (k - hi) as nat);
        let shorter = (lo + k - hi) as nat;
        assert(settles_in(m, v, shorter, r));
        lemma_settles_soon(m, v, shorter, r);
    }
}

/// Pointing a vertex straight at its end leaves every end where it is.
proof fn lemma_shortcut(m: Seq<u64>, v: int, r: int, w: int, k: nat, s: int)
    requires
        closed_map(m),
        0 <= v < m.len(),
        0 <= w < m.len(),
        settles(m, v, r),
        0 <= r < m.len(),
        settles_in(m, w, k, s),
    ensures
        settles(m.update(v, r as u64), w, s),
    decreases k,
{
    let n = m.update(v, r as u64);
    if m[w] == w {
        lemma_follow_fixed(m, w, k);
        if w == v {
            assert(settles_in(m, v, 0, v));
            lemma_settles_unique(m, v, r, v);
        }
        assert(settles_in(n, w, 0, s));
    } else {
        assert(k > 0);
        if w == v {
            assert(settles(m, w, s));
            lemma_settles_unique(m, v, r, s);
            let j = choose|j: nat| #[trigger] settles_in(m, v, j, r);
            assert(m[r] == r);
            assert(n[r] == r);
            assert(follow(n, r, 0) == r);
            assert(follow(n, v, 1) == r);
            assert(settles_in(n, w, 1, s));
        } else {
            assert(m[w] < m.len());
            lemma_shortcut(m, v, r, m[w] as int, (k - 1) as nat, s);
            let j = choose|j: nat| #[trigger] settles_in(n, m[w] as int, j, s);
            assert(follow(n, w, j + 1) == follow(n, n[w] as int, j));
            assert(settles_in(n, w, j + 1, s));
        }
    }
}

/// The reverse: no end appears that was not there.
proof fn lemma_shortcut_back(m: Seq<u64>, v: int, r: int, w: int, k: nat, s: int)
    requires
        closed_map(m),
        0 <= v < m.len(),
        0 <= w < m.len(),
        settles(m, v, r),
        0 <= r < m.len(),
        settles_in(m.update(v, r as u64), w, k, s),
    ensures
        settles(m, w, s),
    decreases k,
{
    let n = m.update(v, r as u64);
    let j = choose|j: nat| #[trigger] settles_in(m, v, j, r);
    assert(m[r] == r);
    if k == 0 {
        if w == v {
            assert(r == v);
        }
        assert(settles_in(m, w, 0, s));
    } else if w == v {
        // One step to the end, which is where everything after it stays.
        assert(n[r] == r);
        lemma_follow_fixed(n, r, (k - 1) as nat);
        assert(s == r);
    } else {
        assert(m[w] < m.len());
        assert(n[w] == m[w]);
        lemma_shortcut_back(m, v, r, m[w] as int, (k - 1) as nat, s);
        let i = choose|i: nat| #[trigger] settles_in(m, m[w] as int, i, s);
        assert(follow(m, w, i + 1) == follow(m, m[w] as int, i));
        assert(settles_in(m, w, i + 1, s));
    }
}

/// Points every vertex straight at its end; nothing where some way never ends.
fn settle_merges(map: Vec<u64>) -> (r: Option<Vec<u64>>)
    requires
        closed_map(map@),
    ensures
        match r {
            Some(out) => {
                &&& out@.len() == map@.len()
                &&& forall|v: int|
                    0 <= v < out@.len() ==> #[trigger] settles(map@, v, out@[v] as int)
                        && out@[v] < out@.len()
            },
            None => exists|v: int| 0 <= v < map@.len() && !#[trigger] ends(map@, v),
        },
{
    let ghost m0 = map@;
    let mut merged = map;
    let n: usize = merged.len();
    let mut vertex: usize = 0;
    proof {
        assert forall|w: int, s: int| 0 <= w < n implies (#[trigger] settles(m0, w, s)) == settles(
            merged@,
            w,
            s,
        ) by {}
    }
    while vertex < n
        invariant
            n == merged@.len(),
            m0 == map@,
            n == m0.len(),
            closed_map(m0),
            closed_map(merged@),
            vertex <= n,
            forall|w: int, s: int|
                0 <= w < n ==> (#[trigger] settles(m0, w, s)) == settles(merged@, w, s),
            forall|v: int| 0 <= v < vertex ==> #[trigger] settles(m0, v, merged@[v] as int),
        decreases n - vertex,
    {
        let ghost m1 = merged@;
        assert(m1[vertex as int] < n);
        let mut target: u64 = merged[vertex];
        let mut resolved: bool = false;
        let mut step: usize = 0;
        assert(follow(m1, vertex as int, 1) == follow(m1, target as int, 0));
        while step < n && !resolved
            invariant
                n == merged@.len(),
                merged@ == m1,
                closed_map(m1),
                vertex < n,
                target < n,
                step <= n,
                target == follow(m1, vertex as int, if resolved { step as nat } else { (step + 1) as nat }),
                resolved ==> m1[target as int] == target,
                !resolved ==> forall|j: nat|
                    1 <= j <= step ==> m1[#[trigger] follow(m1, vertex as int, j)] != follow(
                        m1,
                        vertex as int,
                        j,
                    ),
            decreases n - step,
        {
            let next: u64 = merged[target as usize];
            assert(m1[target as int] < n);
            if next == target {
                resolved = true;
                step = step + 1;
            } else {
                proof {
                    lemma_follow_plus(m1, vertex as int, (step + 1) as nat, 1);
                    assert(follow(m1, target as int, 1) == follow(m1, next as int, 0));
                }
                target = next;
                step = step + 1;
            }
        }
        if !resolved {
            proof {
                if ends(m1, vertex as int) {
                    let r = choose|r: int| settles(m1, vertex as int, r);
                    let k = choose|k: nat| #[trigger] settles_in(m1, vertex as int, k, r);
                    lemma_settles_soon(m1, vertex as int, k, r);
                    let j = choose|j: nat| j < n && #[trigger] settles_in(m1, vertex as int, j, r);
                    if j == 0 {
                        lemma_follow_fixed(m1, r, 1);
                        assert(follow(m1, vertex as int, 1) == r);
                    }
                    assert(m1[follow(m1, vertex as int, if j == 0 { 1nat } else { j })] == r);
                    assert(false);
                }
                assert(!ends(m0, vertex as int)) by {
                    if ends(m0, vertex as int) {
                        let r = choose|r: int| settles(m0, vertex as int, r);
                        assert(settles(m0, vertex as int, r));
                        assert(settles(m1, vertex as int, r));
                    }
                }
            }
            return None;
        }
        merged.set(vertex, target);
        proof {
            let v = vertex as int;
            let r = target as int;
            assert(settles_in(m1, v, step as nat, r));
            assert(settles(m1, v, r));
            assert(settles(m0, v, r));
            assert(merged@ =~= m1.update(v, r as u64));
            assert forall|w: int, s: int| 0 <= w < n implies (#[trigger] settles(m0, w, s))
                == settles(merged@, w, s) by {
                if settles(m1, w, s) {
                    let k = choose|k: nat| #[trigger] settles_in(m1, w, k, s);
                    lemma_shortcut(m1, v, r, w, k, s);
                }
                if settles(merged@, w, s) {
                    let k = choose|k: nat| #[trigger] settles_in(merged@, w, k, s);
                    lemma_shortcut_back(m1, v, r, w, k, s);
                }
            }
        }
        vertex = vertex + 1;
    }
    Some(merged)
}

impl RelationParts {
    /// Where each vertex is merged to.
    pub open spec fn merges(&self) -> Seq<u64> {
        merge_map(
            self.vertex_count() as nat,
            self.merge_from_vert@,
            self.merge_to_vert@,
            self.merge_from_vert@.len() as int,
        )
    }

    /// The `i`-th merge names a vertex that is not there.
    pub open spec fn merge_outside(&self, i: int) -> bool {
        self.merge_from_vert@[i] >= self.vertex_count() || self.merge_to_vert@[i]
            >= self.vertex_count()
    }

    /// What is wrong with the triangle corners from the `i`-th on.
    pub open spec fn corner_fault(&self, i: int) -> Option<Seq<char>>
        decreases self.triangle_vertices@.len() - i,
    {
        if i < 0 || i >= self.triangle_vertices@.len() {
            None
        } else if self.triangle_vertices@[i] >= self.vertex_count() {
            Some("relation triangle vertex is outside the vertex buffer"@)
        } else if settled(self.merges(), self.triangle_vertices@[i] as int) > u32::MAX {
            Some("relation vertex index exceeds u32"@)
        } else {
            self.corner_fault(i + 1)
        }
    }

    pub open spec fn run_start(&self, r: int) -> int {
        self.run_index@[r] as int / 3
    }

    pub open spec fn run_end(&self, r: int) -> int {
        self.run_index@[r + 1] as int / 3
    }

    /// What is wrong with the runs from the `r`-th on.
    pub open spec fn run_fault(&self, pairs: Seq<(SurfaceAttributionId, u64)>, r: int) -> Option<
        Seq<char>,
    >
        decreases self.run_original_id@.len() - r,
    {
        if r < 0 || r >= self.run_original_id@.len() {
            None
        } else if decoded(pairs, self.run_original_id@[r]) is None {
            Some("relation run has unknown ID "@ + decimal_text(self.run_original_id@[r] as nat))
        } else if self.run_start(r) > self.run_end(r) || self.run_end(r) > self.triangle_count() {
            Some("relation run is outside the triangle buffer"@)
        } else {
            self.run_fault(pairs, r + 1)
        }
    }

    /// The first thing that is wrong with the tables.
    pub open spec fn fault(&self, pairs: Seq<(SurfaceAttributionId, u64)>) -> Option<Seq<char>> {
        if self.num_prop < 3 || self.vertex_properties@.len() as int % self.num_prop as int != 0 {
            Some("relation mesh has invalid vertex properties"@)
        } else if self.triangle_vertices@.len() % 3 != 0 {
            Some("relation mesh has invalid triangle indices"@)
        } else if self.merge_from_vert@.len() != self.merge_to_vert@.len() {
            Some("relation merge vectors have different lengths"@)
        } else if self.run_original_id@.len() == 0 && self.triangle_count() != 0 {
            Some("non-empty relation mesh has no runs"@)
        } else if self.run_original_id@.len() != 0 && self.run_index@.len()
            != self.run_original_id@.len() + 1 {
            Some(
                decimal_text(self.run_original_id@.len()) + " relation runs but "@ + decimal_text(
                    self.run_index@.len(),
                ) + " run boundaries"@,
            )
        } else if exists|i: int|
            0 <= i < self.merge_from_vert@.len() && #[trigger] self.merge_outside(i) {
            Some("relation merge vertex is outside the vertex buffer"@)
        } else if exists|v: int|
            0 <= v < self.vertex_count() && !#[trigger] ends(self.merges(), v) {
            Some("relation merge metadata contains a cycle"@)
        } else if self.corner_fault(0) is Some {
            self.corner_fault(0)
        } else {
            self.run_fault(pairs, 0)
        }
    }

    /// The last of the first `n` runs that covers triangle `t`.
    pub open spec fn owner(&self, t: int, n: int) -> Option<int>
        decreases n,
    {
        if n <= 0 {
            None
        } else if self.run_start(n - 1) <= t < self.run_end(n - 1) {
            Some(n - 1)
        } else {
            self.owner(t, n - 1)
        }
    }

    /// The surface and patch of triangle `t` after the first `n` runs.
    pub open spec fn attribution(
        &self,
        pairs: Seq<(SurfaceAttributionId, u64)>,
        t: int,
        n: int,
    ) -> (SurfaceAttributionId, u64) {
        match self.owner(t, n) {
            Some(r) => decoded(pairs, self.run_original_id@[r])->0,
            None => (SurfaceAttributionId(0), 0),
        }
    }

    /// Whether run `r` holds triangles seen from behind.
    pub open spec fn behind(&self, r: int) -> bool {
        r < self.run_flags@.len() && self.run_flags@[r] & 1 != 0
    }

    /// Whether triangle `t` is seen from behind after the first `n` runs.
    pub open spec fn turned(&self, t: int, n: int) -> bool {
        match self.owner(t, n) {
            Some(r) => self.behind(r),
            None => false,
        }
    }

    /// The end of the `i`-th triangle corner.
    pub open spec fn corner(&self, i: int) -> u32 {
        settled(self.merges(), self.triangle_vertices@[i] as int) as u32
    }

    /// The relation mesh that the tables describe.
    pub open spec fn describes(
        &self,
        pairs: Seq<(SurfaceAttributionId, u64)>,
        r: RelationView,
    ) -> bool {
        let n = self.run_original_id@.len() as int;
        &&& r.attributed.mesh.verts == self.points()
        &&& r.attributed.mesh.tris == Seq::new(
            self.triangle_count() as nat,
            |t: int|
                Triangle {
                    a: self.corner(3 * t),
                    b: self.corner(3 * t + 1),
                    c: self.corner(3 * t + 2),
                },
        )
        &&& r.attributed.surface_ids == Seq::new(
            self.triangle_count() as nat,
            |t: int| self.attribution(pairs, t, n).0,
        )
        &&& r.attributed.source_face_ids == Seq::new(
            self.triangle_count() as nat,
            |t: int| self.attribution(pairs, t, n).1,
        )
        &&& r.backside == Seq::new(self.triangle_count() as nat, |t: int| self.turned(t, n))
    }
}

fn relation_points(parts: &RelationParts) -> (r: Vec<Point3>)
    requires
        parts.num_prop >= 3,
        parts.vertex_properties@.len() as int % parts.num_prop as int == 0,
    ensures
        r@ == parts.points(),
{
    let np: usize = parts.num_prop;
    let n: usize = parts.vertex_properties.len() / np;
    let len: usize = parts.vertex_properties.len();
    let mut out: Vec<Point3> = Vec::new();
    let mut at: usize = 0;
    proof {
        vstd::arithmetic::div_mod::lemma_fundamental_div_mod(len as int, np as int);
        assert(n * np == len) by (nonlinear_arith)
            requires
                len == np * n + 0,
        ;
    }
    let mut i: usize = 0;
    while i < n
        invariant
            np == parts.num_prop,
            np >= 3,
            len == parts.vertex_properties@.len(),
            n == len as int / np as int,
            n * np == len,
            i <= n,
            at == i * np,
            out@.len() == i,
            forall|k: int| 0 <= k < i ==> #[trigger] out@[k] == parts.points()[k],
        decreases n - i,
    {
        assert(at + np <= len && at + np == (i + 1) * np) by (nonlinear_arith)
            requires
                at == i * np,
                i < n,
                n * np == len,
                np >= 3,
        ;
        let v = &parts.vertex_properties;
        out.push(Point3 { x: v[at], y: v[at + 1], z: v[at + 2] });
        at = at + np;
        i = i + 1;
    }
    assert(out@ =~= parts.points());
    out
}

/// Follows every merge to its end.
fn relation_merges(parts: &RelationParts) -> (r: Result<Vec<u64>, GeomError>)
    requires
        parts.num_prop >= 3,
        parts.merge_from_vert@.len() == parts.merge_to_vert@.len(),
    ensures
        match r {
            Ok(out) => {
                &&& forall|i: int|
                    0 <= i < parts.merge_from_vert@.len() ==> !#[trigger] parts.merge_outside(i)
                &&& out@.len() == parts.vertex_count()
                &&& parts.merges().len() == parts.vertex_count()
                &&& forall|v: int|
                    0 <= v < out@.len() ==> #[trigger] settles(parts.merges(), v, out@[v] as int)
                        && out@[v] < out@.len()
            },
            Err(e) => {
                ||| (exists|i: int|
                    0 <= i < parts.merge_from_vert@.len() && #[trigger] parts.merge_outside(i))
                    && e@ == GeomFault::Invariant(
                    "relation merge vertex is outside the vertex buffer"@,
                )
                ||| (forall|i: int|
                    0 <= i < parts.merge_from_vert@.len() ==> !#[trigger] parts.merge_outside(i))
                    && (exists|v: int|
                    0 <= v < parts.vertex_count() && !#[trigger] ends(parts.merges(), v)) && e@
                    == GeomFault::Invariant("relation merge metadata contains a cycle"@)
            },
        },
{
    let n: usize = parts.vertex_properties.len() / parts.num_prop;
    let mut merged: Vec<u64> = Vec::new();
    for i in 0..n
        invariant
            merged@.len() == i,
            forall|k: int| 0 <= k < i ==> merged@[k] == k,
    {
        merged.push(i as u64);
    }
    let ghost from = parts.merge_from_vert@;
    let ghost to = parts.merge_to_vert@;
    assert(merged@ =~= merge_map(n as nat, from, to, 0));
    let mut i: usize = 0;
    while i < parts.merge_from_vert.len()
        invariant
            n == parts.vertex_count(),
            from == parts.merge_from_vert@,
            to == parts.merge_to_vert@,
            from.len() == to.len(),
            i <= from.len(),
            merged@.len() == n,
            merged@ == merge_map(n as nat, from, to, i as int),
            closed_map(merged@),
            forall|k: int| 0 <= k < i ==> !#[trigger] parts.merge_outside(k),
        decreases from.len() - i,
    {
        let f: u64 = parts.merge_from_vert[i];
        let t: u64 = parts.merge_to_vert[i];
        if f >= n as u64 || t >= n as u64 {
            assert(parts.merge_outside(i as int));
            return Err(misfit("relation merge vertex is outside the vertex buffer"));
        }
        assert(!parts.merge_outside(i as int));
        merged.set(f as usize, t);
        i = i + 1;
    }
    assert(merged@ == parts.merges());
    let ghost all = parts.merges();
    match settle_merges(merged) {
        Some(out) => {
            proof {
                assert(all.len() == parts.vertex_count());
                assert forall|v: int| 0 <= v < out@.len() implies #[trigger] settles(
                    parts.merges(),
                    v,
                    out@[v] as int,
                ) && out@[v] < out@.len() by {
                    assert(settles(all, v, out@[v] as int));
                }
            }
            Ok(out)
        },
        None => {
            proof {
                let v = choose|v: int| 0 <= v < all.len() && !#[trigger] ends(all, v);
                assert(!ends(parts.merges(), v));
            }
            Err(misfit("relation merge metadata contains a cycle"))
        },
    }
}

/// The triangles with their corners merged.
fn relation_corners(parts: &RelationParts, merged: &Vec<u64>) -> (r: Result<
    Vec<Triangle>,
    GeomError,
>)
    requires
        parts.num_prop >= 3,
        parts.triangle_vertices@.len() % 3 == 0,
        merged@.len() == parts.vertex_count(),
        forall|v: int|
            0 <= v < merged@.len() ==> #[trigger] settles(parts.merges(), v, merged@[v] as int),
    ensures
        match r {
            Ok(tris) => {
                &&& parts.corner_fault(0) is None
                &&& tris@ == Seq::new(
                    parts.triangle_count() as nat,
                    |t: int|
                        Triangle {
                            a: parts.corner(3 * t),
                            b: parts.corner(3 * t + 1),
                            c: parts.corner(3 * t + 2),
                        },
                )
            },
            Err(e) => parts.corner_fault(0) is Some && e@ == GeomFault::Invariant(
                parts.corner_fault(0)->0,
            ),
        },
{
    let n: usize = parts.vertex_properties.len() / parts.num_prop;
    let len: usize = parts.triangle_vertices.len();
    let mut ends_at: Vec<u32> = Vec::new();
    let mut i: usize = 0;
    while i < len
        invariant
            n == parts.vertex_count(),
            n == merged@.len(),
            len == parts.triangle_vertices@.len(),
            i <= len,
            ends_at@.len() == i,
            forall|v: int|
                0 <= v < merged@.len() ==> #[trigger] settles(parts.merges(), v, merged@[v] as int),
            forall|k: int| 0 <= k < i ==> #[trigger] ends_at@[k] == parts.corner(k),
            parts.corner_fault(0) == parts.corner_fault(i as int),
        decreases len - i,
    {
        let v: u64 = parts.triangle_vertices[i];
        if v >= n as u64 {
            return Err(misfit("relation triangle vertex is outside the vertex buffer"));
        }
        let m: u64 = merged[v as usize];
        proof {
            assert(settles(parts.merges(), v as int, m as int));
            lemma_settles_unique(
                parts.merges(),
                v as int,
                m as int,
                settled(parts.merges(), v as int),
            );
        }
        if m > 0xffff_ffff {
            return Err(misfit("relation vertex index exceeds u32"));
        }
        ends_at.push(m as u32);
        i = i + 1;
    }
    let mut tris: Vec<Triangle> = Vec::new();
    let count: usize = len / 3;
    for t in 0..count
        invariant
            count == len / 3,
            len % 3 == 0,
            ends_at@.len() == len,
            forall|k: int| 0 <= k < len ==> #[trigger] ends_at@[k] == parts.corner(k),
            tris@.len() == t,
            forall|k: int|
                0 <= k < t ==> #[trigger] tris@[k] == (Triangle {
                    a: parts.corner(3 * k),
                    b: parts.corner(3 * k + 1),
                    c: parts.corner(3 * k + 2),
                }),
    {
        tris.push(
            Triangle { a: ends_at[3 * t], b: ends_at[3 * t + 1], c: ends_at[3 * t + 2] },
        );
    }
    assert(tris@ =~= Seq::new(
        parts.triangle_count() as nat,
        |t: int|
            Triangle {
                a: parts.corner(3 * t),
                b: parts.corner(3 * t + 1),
                c: parts.corner(3 * t + 2),
            },
    ));
    Ok(tris)
}

/// Surface, patch and side of each triangle, from the runs.
fn relation_runs(parts: &RelationParts, keys: &RunKeys) -> (r: Result<
    (Vec<SurfaceAttributionId>, Vec<u64>, Vec<bool>),
    GeomError,
>)
    requires
        parts.run_original_id@.len() != 0 ==> parts.run_index@.len()
            == parts.run_original_id@.len() + 1,
    ensures
        match r {
            Ok((surfaces, patches, sides)) => {
                let n = parts.run_original_id@.len() as int;
                let count = parts.triangle_count() as nat;
                &&& parts.run_fault(keys@, 0) is None
                &&& surfaces@ == Seq::new(count, |t: int| parts.attribution(keys@, t, n).0)
                &&& patches@ == Seq::new(count, |t: int| parts.attribution(keys@, t, n).1)
                &&& sides@ == Seq::new(count, |t: int| parts.turned(t, n))
            },
            Err(e) => parts.run_fault(keys@, 0) is Some && e@ == GeomFault::Invariant(
                parts.run_fault(keys@, 0)->0,
            ),
        },
{
    let count: usize = parts.triangle_vertices.len() / 3;
    let mut surfaces: Vec<SurfaceAttributionId> = Vec::new();
    let mut patches: Vec<u64> = Vec::new();
    let mut sides: Vec<bool> = Vec::new();
    for t in 0..count
        invariant
            surfaces@.len() == t,
            patches@.len() == t,
            sides@.len() == t,
            forall|k: int| 0 <= k < t ==> surfaces@[k] == SurfaceAttributionId(0),
            forall|k: int| 0 <= k < t ==> patches@[k] == 0,
            forall|k: int| 0 <= k < t ==> sides@[k] == false,
    {
        surfaces.push(SurfaceAttributionId(0));
        patches.push(0);
        sides.push(false);
    }
    let runs: usize = parts.run_original_id.len();
    let mut run: usize = 0;
    while run < runs
        invariant
            count == parts.triangle_count(),
            runs == parts.run_original_id@.len(),
            runs != 0 ==> parts.run_index@.len() == runs + 1,
            run <= runs,
            surfaces@.len() == count,
            patches@.len() == count,
            sides@.len() == count,
            parts.run_fault(keys@, 0) == parts.run_fault(keys@, run as int),
            forall|t: int|
                0 <= t < count ==> #[trigger] surfaces@[t] == parts.attribution(
                    keys@,
                    t,
                    run as int,
                ).0,
            forall|t: int|
                0 <= t < count ==> #[trigger] patches@[t] == parts.attribution(
                    keys@,
                    t,
                    run as int,
                ).1,
            forall|t: int|
                0 <= t < count ==> #[trigger] sides@[t] == parts.turned(t, run as int),
        decreases runs - run,
    {
        let id: u32 = parts.run_original_id[run];
        let (surface, patch) = match keys.decode(id) {
            Some(pair) => pair,
            None => {
                let mut s = "relation run has unknown ID ".to_owned();
                let d = decimal(id as u64);
                s.append(d.as_str());
                return Err(GeomError::Invariant(s));
            },
        };
        let start: u64 = parts.run_index[run] / 3;
        let end: u64 = parts.run_index[run + 1] / 3;
        if start > end || end > count as u64 {
            return Err(misfit("relation run is outside the triangle buffer"));
        }
        let behind: bool = run < parts.run_flags.len() && parts.run_flags[run] & 1 != 0;
        let ghost (s0, p0, b0) = (surfaces@, patches@, sides@);
        let mut t: usize = start as usize;
        while t < end as usize
            invariant
                count == surfaces@.len(),
                count == patches@.len(),
                count == sides@.len(),
                start <= t <= end,
                end <= count,
                s0.len() == count,
                p0.len() == count,
                b0.len() == count,
                forall|k: int|
                    0 <= k < count ==> #[trigger] surfaces@[k] == if start <= k < t {
                        surface
                    } else {
                        s0[k]
                    },
                forall|k: int|
                    0 <= k < count ==> #[trigger] patches@[k] == if start <= k < t {
                        patch
                    } else {
                        p0[k]
                    },
                forall|k: int|
                    0 <= k < count ==> #[trigger] sides@[k] == if start <= k < t {
                        behind
                    } else {
                        b0[k]
                    },
            decreases end - t,
        {
            surfaces.set(t, surface);
            patches.set(t, patch);
            sides.set(t, behind);
            t = t + 1;
        }
        run = run + 1;
    }
    assert(surfaces@ =~= Seq::new(
        count as nat,
        |t: int| parts.attribution(keys@, t, runs as int).0,
    ));
    assert(patches@ =~= Seq::new(
        count as nat,
        |t: int| parts.attribution(keys@, t, runs as int).1,
    ));
    assert(sides@ =~= Seq::new(count as nat, |t: int| parts.turned(t, runs as int)));
    Ok((surfaces, patches, sides))
}

/// Rebuilds a relation mesh from the tables of a kernel: merges followed to
/// their ends, and each triangle's surface, patch and side from its run.
pub fn relation_from_parts(parts: &RelationParts, keys: &RunKeys) -> (r: Result<
    RelationMesh,
    GeomError,
>)
    ensures
        match r {
            Ok(m) => parts.fault(keys@) is None && parts.describes(keys@, m@) && m@.fits(),
            Err(e) => parts.fault(keys@) is Some && e@ == GeomFault::Invariant(
                parts.fault(keys@)->0,
            ),
        },
{
    if parts.num_prop < 3 || parts.vertex_properties.len() % parts.num_prop != 0 {
        return Err(misfit("relation mesh has invalid vertex properties"));
    }
    if parts.triangle_vertices.len() % 3 != 0 {
        return Err(misfit("relation mesh has invalid triangle indices"));
    }
    if parts.merge_from_vert.len() != parts.merge_to_vert.len() {
        return Err(misfit("relation merge vectors have different lengths"));
    }
    let count: usize = parts.triangle_vertices.len() / 3;
    if parts.run_original_id.len() == 0 && count != 0 {
        return Err(misfit("non-empty relation mesh has no runs"));
    }
    if parts.run_original_id.len() != 0 && (parts.run_index.len() == 0 || parts.run_index.len() - 1
        != parts.run_original_id.len()) {
        let mut s = decimal(parts.run_original_id.len() as u64);
        s.append(" relation runs but ");
        let d = decimal(parts.run_index.len() as u64);
        s.append(d.as_str());
        s.append(" run boundaries");
        return Err(GeomError::Invariant(s));
    }
    let verts = relation_points(parts);
    let merged = match relation_merges(parts) {
        Ok(m) => m,
        Err(e) => return Err(e),
    };
    proof {
        assert forall|v: int| 0 <= v < parts.vertex_count() implies #[trigger] ends(
            parts.merges(),
            v,
        ) by {
            assert(settles(parts.merges(), v, merged@[v] as int));
        }
    }
    let tris = match relation_corners(parts, &merged) {
        Ok(t) => t,
        Err(e) => return Err(e),
    };
    let (surface_ids, source_face_ids, backside) = match relation_runs(parts, keys) {
        Ok(r) => r,
        Err(e) => return Err(e),
    };
    Ok(
        RelationMesh {
            attributed: AttributedMesh {
                mesh: Mesh { verts, tris },
                surface_ids,
                source_face_ids,
            },
            backside,
        },
    )
}

} // verus!
