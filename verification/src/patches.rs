//! The source patches of a mesh: which triangles belong to one face, wall or
//! curved surface of the shape they were drawn for.

use crate::edges::{edge_of, Edge, PATCH_MERGE_DEGREES};
use crate::faces::{EPSILON, NANO, PICO};
use crate::mesh::{Mesh, MeshView, Point3, Triangle};
use crate::node::{FragmentSpec, ProfileBoundary};
use crate::num::{
    absolute, at_most, is_at_most, is_less, less, negate, negative, Arithmetic, Calc, NumOp,
    Reading, ZERO,
};
use crate::planar::size_of;
use crate::solid::{greater, lesser, max_of, min_of};
use crate::surfaces::UNCLASSIFIED_PATCH_ID;
use crate::tessellate::{count, counted, round_fragments, round_of, FULL_TURN};
use crate::unionfind::{SetsView, UnionFind};
use crate::vector::{dihedral, dihedral_between};
use std::collections::HashMap;
use vstd::prelude::*;

verus! {

// ---- numbering keys -----------------------------------------------------------------------------

/// Two numbers as one.
pub open spec fn paired(a: u64, b: u64) -> u128 {
    (a as u128 * 0x1_0000_0000_0000_0000 + b as u128) as u128
}

/// Two numbers as one.
pub fn pair(a: u64, b: u64) -> (r: u128)
    ensures
        r == paired(a, b),
{
    a as u128 * 0x1_0000_0000_0000_0000 + b as u128
}

/// The different keys among the first `n`, in the order in which they come.
pub open spec fn keys_met(keys: Seq<Option<u128>>, n: int) -> Seq<u128>
    decreases n,
{
    if n <= 0 {
        Seq::empty()
    } else {
        let met = keys_met(keys, n - 1);
        match keys[n - 1] {
            Some(k) => if met.contains(k) {
                met
            } else {
                met.push(k)
            },
            None => met,
        }
    }
}

/// The number of the `i`-th key: how many others came before it. Without a key,
/// unclassified.
pub open spec fn key_number(keys: Seq<Option<u128>>, i: int) -> u64 {
    match keys[i] {
        Some(k) => keys_met(keys, keys.len() as int).index_of(k) as u64,
        None => UNCLASSIFIED_PATCH_ID,
    }
}

/// The numbers of keys.
pub open spec fn key_numbers(keys: Seq<Option<u128>>) -> Seq<u64> {
    Seq::new(keys.len(), |i: int| key_number(keys, i))
}

proof fn lemma_keys_met(keys: Seq<Option<u128>>, n: int, k: int)
    requires
        0 <= n <= k <= keys.len(),
    ensures
        keys_met(keys, n).len() <= n,
        keys_met(keys, n).no_duplicates(),
        keys_met(keys, n).len() <= keys_met(keys, k).len(),
        keys_met(keys, k).take(keys_met(keys, n).len() as int) =~= keys_met(keys, n),
    decreases k, n,
{
    if n > 0 {
        lemma_keys_met(keys, n - 1, n - 1);
    }
    if n < k {
        lemma_keys_met(keys, n, k - 1);
    }
}

proof fn lemma_key_is_met(keys: Seq<Option<u128>>, n: int, i: int)
    requires
        0 <= i < n <= keys.len(),
        keys[i] is Some,
    ensures
        keys_met(keys, n).contains(keys[i]->0),
    decreases n,
{
    let met = keys_met(keys, n - 1);
    if i < n - 1 {
        lemma_key_is_met(keys, n - 1, i);
        let at = met.index_of(keys[i]->0);
        assert(keys_met(keys, n)[at] == keys[i]->0);
    } else if !met.contains(keys[i]->0) {
        assert(met.push(keys[i]->0).last() == keys[i]->0);
        assert(keys_met(keys, n)[met.len() as int] == keys[i]->0);
    }
}

/// Faces get the same patch number exactly where they have the same key, and the
/// numbers run from zero without a gap below the number of different keys.
pub proof fn law_numbers_tell_keys_apart(keys: Seq<Option<u128>>, i: int, j: int)
    requires
        0 <= i < keys.len(),
        0 <= j < keys.len(),
        keys[i] is Some,
        keys[j] is Some,
        keys.len() <= usize::MAX,
    ensures
        (key_numbers(keys)[i] == key_numbers(keys)[j]) == (keys[i] == keys[j]),
        key_numbers(keys)[i] < keys_met(keys, keys.len() as int).len(),
{
    let n = keys.len() as int;
    let met = keys_met(keys, n);
    lemma_keys_met(keys, n, n);
    lemma_key_is_met(keys, n, i);
    lemma_key_is_met(keys, n, j);
    let a = met.index_of(keys[i]->0);
    let b = met.index_of(keys[j]->0);
    assert(met[a] == keys[i]->0);
    assert(met[b] == keys[j]->0);
}

/// A number for each different key, in the order in which they come.
pub fn number_keys(keys: &Vec<Option<u128>>) -> (r: Vec<u64>)
    ensures
        r@ == key_numbers(keys@),
{
    broadcast use vstd::std_specs::hash::group_hash_axioms;

    let mut known: HashMap<u128, u64> = HashMap::new();
    let mut count: u64 = 0;
    let mut out: Vec<u64> = Vec::new();
    let ghost kv = keys@;
    let ghost all = keys_met(kv, kv.len() as int);
    let n: usize = keys.len();
    let mut i: usize = 0;
    while i < n
        invariant
            n == keys@.len(),
            kv == keys@,
            all == keys_met(kv, kv.len() as int),
            i <= n,
            count == keys_met(kv, i as int).len(),
            count <= i,
            forall|k: u128| #[trigger] known@.contains_key(k) <==> keys_met(kv, i as int).contains(
                k,
            ),
            forall|k: u128| #[trigger] known@.contains_key(k) ==> known@[k] == all.index_of(k),
            out@.len() == i,
            forall|j: int| 0 <= j < i ==> #[trigger] out@[j] == key_number(kv, j),
        decreases n - i,
    {
        let ghost met = keys_met(kv, i as int);
        proof {
            lemma_keys_met(kv, i as int, kv.len() as int);
            lemma_keys_met(kv, i + 1, kv.len() as int);
            lemma_keys_met(kv, kv.len() as int, kv.len() as int);
        }
        match keys[i] {
            None => {
                out.push(UNCLASSIFIED_PATCH_ID);
            },
            Some(k) => {
                match known.get(&k) {
                    Some(id) => {
                        out.push(*id);
                    },
                    None => {
                        proof {
                            let next = keys_met(kv, i + 1);
                            assert(next == met.push(k));
                            assert(next[met.len() as int] == k);
                            assert(all[met.len() as int] == all.take(next.len() as int)[met.len() as int]);
                            let at = all.index_of(k);
                            assert(all.contains(k));
                            assert(all[at] == k);
                            assert(at == met.len());
                            assert forall|v: u128| #[trigger] next.contains(v) <==> met.contains(v)
                                || v == k by {
                                crate::surfaces::lemma_push_contains(met, k, v);
                            }
                        }
                        known.insert(k, count);
                        out.push(count);
                        count = count + 1;
                    },
                }
            },
        }
        i = i + 1;
    }
    assert(out@ =~= key_numbers(kv));
    out
}

/// `n` unclassified triangles.
pub open spec fn unclassified(n: nat) -> Seq<u64> {
    Seq::new(n, |i: int| UNCLASSIFIED_PATCH_ID)
}

pub(crate) fn repeat_patch(id: u64, n: usize) -> (r: Vec<u64>)
    ensures
        r@ == Seq::new(n as nat, |i: int| id),
{
    let mut out: Vec<u64> = Vec::new();
    for i in 0..n
        invariant
            out@ =~= Seq::new(i as nat, |k: int| id),
    {
        out.push(id);
    }
    out
}

// ---- joining triangles along edges ----------------------------------------------------------------

/// An edge as one number.
pub open spec fn edge_number(e: Edge) -> u64 {
    (e.a as u64 * 0x1_0000_0000 + e.b as u64) as u64
}

/// The sets of joined triangles, and for each edge the place of a triangle that
/// has it.
pub ghost struct Walk {
    pub sets: SetsView,
    pub at: Map<u64, usize>,
}

/// Two triangles that share an edge belong together: without patches where they
/// are coplanar, with patches where both have the same patch and no crease
/// lies between them.
pub open spec fn belong(
    m: Reading,
    mesh: MeshView,
    patches: Option<Seq<u64>>,
    l: int,
    r: int,
) -> bool {
    match patches {
        None => less(dihedral(m, mesh, l, r), NANO),
        Some(p) => p[l] == p[r] && p[r] != UNCLASSIFIED_PATCH_ID && less(
            dihedral(m, mesh, l, r),
            m.at(NumOp::ToRadians, PATCH_MERGE_DEGREES, 0),
        ),
    }
}

/// After edge `e` of the triangle at `slot`. Without patches an edge keeps the
/// first triangle that has it, with patches the last.
pub open spec fn walk_edge(
    m: Reading,
    mesh: MeshView,
    list: Seq<u32>,
    patches: Option<Seq<u64>>,
    w: Walk,
    slot: int,
    e: int,
) -> Walk {
    let k = edge_number(edge_of(mesh.tris[list[slot] as int], e));
    Walk {
        sets: if w.at.contains_key(k) && belong(
            m,
            mesh,
            patches,
            list[w.at[k] as int] as int,
            list[slot] as int,
        ) {
            w.sets.joined(w.at[k] as int, slot)
        } else {
            w.sets
        },
        at: if patches is None && w.at.contains_key(k) {
            w.at
        } else {
            w.at.insert(k, slot as usize)
        },
    }
}

/// After the edges of the first `n` listed triangles.
pub open spec fn walked(
    m: Reading,
    mesh: MeshView,
    list: Seq<u32>,
    patches: Option<Seq<u64>>,
    n: int,
) -> Walk
    decreases n,
{
    if n <= 0 {
        Walk { sets: SetsView::singletons(list.len()), at: Map::empty() }
    } else {
        let w0 = walked(m, mesh, list, patches, n - 1);
        let w1 = walk_edge(m, mesh, list, patches, w0, n - 1, 0);
        let w2 = walk_edge(m, mesh, list, patches, w1, n - 1, 1);
        walk_edge(m, mesh, list, patches, w2, n - 1, 2)
    }
}

/// The sets of listed triangles that belong together along edges.
pub open spec fn joined_sets(
    m: Reading,
    mesh: MeshView,
    list: Seq<u32>,
    patches: Option<Seq<u64>>,
) -> Seq<int> {
    walked(m, mesh, list, patches, list.len() as int).sets.label
}

/// All listed triangles are there.
pub open spec fn list_within(list: Seq<u32>, n: nat) -> bool {
    forall|i: int| 0 <= i < list.len() ==> (#[trigger] list[i]) < n
}

/// What patches a list gives.
pub open spec fn patches_view(p: Option<&Vec<u64>>) -> Option<Seq<u64>> {
    match p {
        Some(v) => Some(v@),
        None => None,
    }
}

fn test_belong<A: Arithmetic>(
    calc: &mut Calc<A>,
    mesh: &Mesh,
    patches: Option<&Vec<u64>>,
    l: u32,
    r: u32,
) -> (out: bool)
    requires
        mesh@.indexed(),
        l < mesh@.tris.len(),
        r < mesh@.tris.len(),
        patches matches Some(p) ==> p@.len() == mesh@.tris.len(),
    ensures
        forall|m: Reading| #[trigger]
            final(calc).agrees(m) ==> old(calc).agrees(m) && out == belong(
                m,
                mesh@,
                patches_view(patches),
                l as int,
                r as int,
            ),
{
    match patches {
        None => {
            let d: u64 = dihedral_between(calc, mesh, l as usize, r as usize);
            is_less(d, NANO)
        },
        Some(p) => {
            if p[l as usize] != p[r as usize] || p[r as usize] == UNCLASSIFIED_PATCH_ID {
                return false;
            }
            let d: u64 = dihedral_between(calc, mesh, l as usize, r as usize);
            let limit: u64 = calc.apply(NumOp::ToRadians, PATCH_MERGE_DEGREES, 0);
            is_less(d, limit)
        },
    }
}

/// What the walk holds in memory.
struct Walker {
    sets: UnionFind,
    at: HashMap<u64, usize>,
}

spec fn walker_view(w: Walker) -> Walk {
    Walk { sets: w.sets@, at: w.at@ }
}

spec fn walker_wf(w: Walker, n: nat) -> bool {
    &&& w.sets.wf()
    &&& w.sets.size() == n
    &&& forall|k: u64| #[trigger] w.at@.contains_key(k) ==> w.at@[k] < n
}

fn edge_code(t: Triangle, e: u8) -> (r: u64)
    requires
        e < 3,
    ensures
        r == edge_number(edge_of(t, e as int)),
{
    let (x, y) = if e == 0 {
        (t.a, t.b)
    } else if e == 1 {
        (t.b, t.c)
    } else {
        (t.c, t.a)
    };
    if x < y {
        x as u64 * 0x1_0000_0000 + y as u64
    } else {
        y as u64 * 0x1_0000_0000 + x as u64
    }
}

fn step_edge<A: Arithmetic>(
    calc: &mut Calc<A>,
    mesh: &Mesh,
    list: &Vec<u32>,
    patches: Option<&Vec<u64>>,
    w: &mut Walker,
    slot: usize,
    e: u8,
)
    requires
        e < 3,
        mesh@.indexed(),
        list_within(list@, mesh@.tris.len()),
        slot < list@.len(),
        patches matches Some(p) ==> p@.len() == mesh@.tris.len(),
        walker_wf(*old(w), list@.len()),
    ensures
        walker_wf(*final(w), list@.len()),
        forall|m: Reading| #[trigger]
            final(calc).agrees(m) ==> old(calc).agrees(m) && walker_view(*final(w)) == walk_edge(
                m,
                mesh@,
                list@,
                patches_view(patches),
                walker_view(*old(w)),
                slot as int,
                e as int,
            ),
{
    broadcast use vstd::std_specs::hash::group_hash_axioms;

    let k: u64 = edge_code(mesh.tris[list[slot] as usize], e);
    let found: Option<usize> = match w.at.get(&k) {
        Some(s) => Some(*s),
        None => None,
    };
    match found {
        Some(other) => {
            let yes: bool = test_belong(calc, mesh, patches, list[other], list[slot]);
            if yes {
                w.sets.union(other, slot);
            }
            if patches.is_some() {
                w.at.insert(k, slot);
            }
        },
        None => {
            w.at.insert(k, slot);
        },
    }
}

/// The set of each listed triangle, by its representative.
fn join_edges<A: Arithmetic>(
    calc: &mut Calc<A>,
    mesh: &Mesh,
    list: &Vec<u32>,
    patches: Option<&Vec<u64>>,
) -> (r: Vec<usize>)
    requires
        mesh@.indexed(),
        list_within(list@, mesh@.tris.len()),
        patches matches Some(p) ==> p@.len() == mesh@.tris.len(),
    ensures
        r@.len() == list@.len(),
        forall|m: Reading| #[trigger]
            final(calc).agrees(m) ==> old(calc).agrees(m) && forall|i: int|
                0 <= i < r@.len() ==> #[trigger] r@[i] == joined_sets(
                    m,
                    mesh@,
                    list@,
                    patches_view(patches),
                )[i],
{
    broadcast use vstd::std_specs::hash::group_hash_axioms;

    let n: usize = list.len();
    let mut w = Walker { sets: UnionFind::new(n), at: HashMap::new() };
    let mut i: usize = 0;
    while i < n
        invariant
            n == list@.len(),
            i <= n,
            mesh@.indexed(),
            list_within(list@, mesh@.tris.len()),
            patches matches Some(p) ==> p@.len() == mesh@.tris.len(),
            walker_wf(w, list@.len()),
            forall|m: Reading| #[trigger]
                calc.agrees(m) ==> old(calc).agrees(m) && walker_view(w) == walked(
                    m,
                    mesh@,
                    list@,
                    patches_view(patches),
                    i as int,
                ),
        decreases n - i,
    {
        step_edge(calc, mesh, list, patches, &mut w, i, 0);
        step_edge(calc, mesh, list, patches, &mut w, i, 1);
        step_edge(calc, mesh, list, patches, &mut w, i, 2);
        i = i + 1;
    }
    let ghost label = w.sets@.label;
    let mut out: Vec<usize> = Vec::new();
    let mut i: usize = 0;
    while i < n
        invariant
            n == list@.len(),
            i <= n,
            w.sets.wf(),
            w.sets.size() == n,
            w.sets@.label == label,
            out@.len() == i,
            forall|k: int| 0 <= k < i ==> #[trigger] out@[k] == label[k],
        decreases n - i,
    {
        let root: usize = w.sets.find(i);
        out.push(root);
        i = i + 1;
    }
    proof {
        assert forall|m: Reading| #[trigger] calc.agrees(m) implies old(calc).agrees(m) && label
            == joined_sets(m, mesh@, list@, patches_view(patches)) by {}
    }
    out
}

/// The numbers of all triangles of a mesh.
pub open spec fn every(n: nat) -> Seq<u32> {
    Seq::new(n, |i: int| i as u32)
}

/// The keys of patches split at creases: each patch, and the set of triangles
/// within it that no crease separates.
pub open spec fn smooth_keys(m: Reading, mesh: MeshView, patches: Seq<u64>) -> Seq<Option<u128>> {
    let sets = joined_sets(m, mesh, every(mesh.tris.len()), Some(patches));
    Seq::new(
        patches.len(),
        |t: int|
            if patches[t] == UNCLASSIFIED_PATCH_ID {
                None
            } else {
                Some(paired(patches[t], sets[t] as u64))
            },
    )
}

/// Splits each patch into the pieces that a crease separates.
pub fn smooth_components<A: Arithmetic>(calc: &mut Calc<A>, mesh: &Mesh, patches: &Vec<u64>) -> (r: Vec<
    u64,
>)
    requires
        mesh@.indexed(),
        mesh@.tris.len() <= u32::MAX,
        patches@.len() == mesh@.tris.len(),
    ensures
        forall|m: Reading| #[trigger]
            final(calc).agrees(m) ==> old(calc).agrees(m) && r@ == key_numbers(
                smooth_keys(m, mesh@, patches@),
            ),
{
    let n: usize = mesh.tris.len();
    let mut list: Vec<u32> = Vec::new();
    for t in 0..n as u32
        invariant
            list@ =~= every(t as nat),
    {
        list.push(t);
    }
    assert(list@ =~= every(mesh@.tris.len()));
    let sets = join_edges(calc, mesh, &list, Some(patches));
    let mut keys: Vec<Option<u128>> = Vec::new();
    let mut t: usize = 0;
    while t < n
        invariant
            t <= n,
            n == patches@.len(),
            sets@.len() == n,
            keys@.len() == t,
            forall|k: int|
                0 <= k < t ==> #[trigger] keys@[k] == if patches@[k] == UNCLASSIFIED_PATCH_ID {
                    None
                } else {
                    Some(paired(patches@[k], sets@[k] as u64))
                },
        decreases n - t,
    {
        if patches[t] == UNCLASSIFIED_PATCH_ID {
            keys.push(None);
        } else {
            keys.push(Some(pair(patches[t], sets[t] as u64)));
        }
        t = t + 1;
    }
    proof {
        assert forall|m: Reading| #[trigger] calc.agrees(m) implies keys@ == smooth_keys(
            m,
            mesh@,
            patches@,
        ) by {
            assert(keys@ =~= smooth_keys(m, mesh@, patches@));
        }
    }
    number_keys(&keys)
}

// ---- layers ------------------------------------------------------------------------------------------

/// The lowest height among the first `n` vertices.
pub open spec fn floor_of(verts: Seq<Point3>, n: int) -> u64
    decreases n,
{
    if n <= 1 {
        verts[0].z
    } else {
        lesser(floor_of(verts, n - 1), verts[n - 1].z)
    }
}

/// The greatest height among the first `n` vertices.
pub open spec fn ceiling_of(verts: Seq<Point3>, n: int) -> u64
    decreases n,
{
    if n <= 1 {
        verts[0].z
    } else {
        greater(ceiling_of(verts, n - 1), verts[n - 1].z)
    }
}

/// How far a height may lie from a layer: a share of the whole height.
pub open spec fn slack(m: Reading, lo: u64, hi: u64, share: u64) -> u64 {
    m.at(NumOp::Add, m.at(NumOp::Mul, size_of(m.at(NumOp::Sub, hi, lo)), share), EPSILON)
}

/// A height lies on a layer.
pub open spec fn on_layer(m: Reading, z: u64, layer: u64, tolerance: u64) -> bool {
    at_most(size_of(m.at(NumOp::Sub, z, layer)), tolerance)
}

/// All corners of a triangle lie on a layer.
pub open spec fn lies_on(
    m: Reading,
    verts: Seq<Point3>,
    t: Triangle,
    layer: u64,
    tolerance: u64,
) -> bool {
    on_layer(m, verts[t.a as int].z, layer, tolerance) && on_layer(
        m,
        verts[t.b as int].z,
        layer,
        tolerance,
    ) && on_layer(m, verts[t.c as int].z, layer, tolerance)
}

fn z_bounds(verts: &Vec<Point3>) -> (r: (u64, u64))
    requires
        verts@.len() > 0,
    ensures
        r.0 == floor_of(verts@, verts@.len() as int),
        r.1 == ceiling_of(verts@, verts@.len() as int),
{
    let mut lo: u64 = verts[0].z;
    let mut hi: u64 = verts[0].z;
    let mut i: usize = 1;
    while i < verts.len()
        invariant
            1 <= i <= verts@.len(),
            lo == floor_of(verts@, i as int),
            hi == ceiling_of(verts@, i as int),
        decreases verts.len() - i,
    {
        lo = min_of(lo, verts[i].z);
        hi = max_of(hi, verts[i].z);
        i = i + 1;
    }
    (lo, hi)
}

fn compute_slack<A: Arithmetic>(calc: &mut Calc<A>, lo: u64, hi: u64, share: u64) -> (r: u64)
    ensures
        forall|m: Reading| #[trigger]
            final(calc).agrees(m) ==> old(calc).agrees(m) && r == slack(m, lo, hi, share),
{
    let d: u64 = calc.apply(NumOp::Sub, hi, lo);
    let s: u64 = calc.apply(NumOp::Mul, absolute(d), share);
    calc.apply(NumOp::Add, s, EPSILON)
}

fn test_on_layer<A: Arithmetic>(calc: &mut Calc<A>, z: u64, layer: u64, tolerance: u64) -> (r: bool)
    ensures
        forall|m: Reading| #[trigger]
            final(calc).agrees(m) ==> old(calc).agrees(m) && r == on_layer(m, z, layer, tolerance),
{
    let d: u64 = calc.apply(NumOp::Sub, z, layer);
    is_at_most(absolute(d), tolerance)
}

fn test_lies_on<A: Arithmetic>(
    calc: &mut Calc<A>,
    verts: &Vec<Point3>,
    t: Triangle,
    layer: u64,
    tolerance: u64,
) -> (r: bool)
    requires
        t.within(verts@.len()),
    ensures
        forall|m: Reading| #[trigger]
            final(calc).agrees(m) ==> old(calc).agrees(m) && r == lies_on(
                m,
                verts@,
                t,
                layer,
                tolerance,
            ),
{
    test_on_layer(calc, verts[t.a as usize].z, layer, tolerance) && test_on_layer(
        calc,
        verts[t.b as usize].z,
        layer,
        tolerance,
    ) && test_on_layer(calc, verts[t.c as usize].z, layer, tolerance)
}

/// Which layer a triangle lies on: 0 for the bottom, 1 for the top, 2 between.
pub open spec fn layer_of(m: Reading, mesh: MeshView, share: u64, t: int) -> u8 {
    let n = mesh.verts.len() as int;
    let lo = floor_of(mesh.verts, n);
    let hi = ceiling_of(mesh.verts, n);
    let tolerance = slack(m, lo, hi, share);
    if lies_on(m, mesh.verts, mesh.tris[t], lo, tolerance) {
        0
    } else if lies_on(m, mesh.verts, mesh.tris[t], hi, tolerance) {
        1
    } else {
        2
    }
}

pub(crate) fn layers<A: Arithmetic>(calc: &mut Calc<A>, mesh: &Mesh, share: u64) -> (r: Vec<u8>)
    requires
        mesh@.indexed(),
        mesh@.verts.len() > 0,
    ensures
        r@.len() == mesh@.tris.len(),
        forall|i: int| 0 <= i < r@.len() ==> #[trigger] r@[i] <= 2,
        forall|m: Reading| #[trigger]
            final(calc).agrees(m) ==> old(calc).agrees(m) && forall|i: int|
                0 <= i < r@.len() ==> #[trigger] r@[i] == layer_of(m, mesh@, share, i),
{
    let (lo, hi) = z_bounds(&mesh.verts);
    let tolerance: u64 = compute_slack(calc, lo, hi, share);
    let mut out: Vec<u8> = Vec::new();
    let mut t: usize = 0;
    while t < mesh.tris.len()
        invariant
            t <= mesh@.tris.len(),
            mesh@.indexed(),
            mesh@.verts.len() > 0,
            lo == floor_of(mesh@.verts, mesh@.verts.len() as int),
            hi == ceiling_of(mesh@.verts, mesh@.verts.len() as int),
            out@.len() == t,
            forall|i: int| 0 <= i < out@.len() ==> #[trigger] out@[i] <= 2,
            forall|m: Reading| #[trigger]
                calc.agrees(m) ==> old(calc).agrees(m) && tolerance == slack(m, lo, hi, share)
                    && forall|i: int|
                    0 <= i < t ==> #[trigger] out@[i] == layer_of(m, mesh@, share, i),
        decreases mesh.tris.len() - t,
    {
        let tri = mesh.tris[t];
        assert(mesh@.tris[t as int].within(mesh@.verts.len()));
        let kind: u8 = if test_lies_on(calc, &mesh.verts, tri, lo, tolerance) {
            0
        } else if test_lies_on(calc, &mesh.verts, tri, hi, tolerance) {
            1
        } else {
            2
        };
        out.push(kind);
        t = t + 1;
    }
    out
}

// ---- linear extrusions ---------------------------------------------------------------------------

/// The rings that an extrusion of so many slices has.
pub open spec fn ring_count(slices: u32) -> int {
    if slices < 1 {
        2
    } else {
        slices + 1
    }
}

/// The vertices of a ring all lie on one height.
pub open spec fn ring_level(m: Reading, verts: Seq<Point3>, size: int, tolerance: u64, ring: int) -> bool {
    forall|v: int|
        ring * size <= v < ring * size + size ==> on_layer(
            m,
            (#[trigger] verts[v]).z,
            verts[ring * size].z,
            tolerance,
        )
}

/// A ring is level and does not lie at or below the one before.
pub open spec fn ring_fine(m: Reading, verts: Seq<Point3>, size: int, tolerance: u64, ring: int) -> bool {
    &&& ring_level(m, verts, size, tolerance, ring)
    &&& ring > 0 ==> !at_most(verts[ring * size].z, verts[(ring - 1) * size].z)
}

/// The size of the rings, where the mesh is laid out ring by ring, each level
/// and above the one before.
pub open spec fn ring_layout(m: Reading, mesh: MeshView, slices: u32) -> Option<int> {
    let n = mesh.verts.len() as int;
    let rings = ring_count(slices);
    if n == 0 || n % rings != 0 {
        None
    } else {
        let size = n / rings;
        let tolerance = slack(m, floor_of(mesh.verts, n), ceiling_of(mesh.verts, n), NANO);
        if forall|ring: int|
            0 <= ring < rings ==> #[trigger] ring_fine(m, mesh.verts, size, tolerance, ring) {
            Some(size)
        } else {
            None
        }
    }
}

fn test_ring<A: Arithmetic>(
    calc: &mut Calc<A>,
    verts: &Vec<Point3>,
    start: usize,
    size: usize,
    tolerance: u64,
    Ghost(ring): Ghost<int>,
) -> (r: bool)
    requires
        start == ring * size,
        size > 0,
        start + size <= verts@.len(),
    ensures
        forall|m: Reading| #[trigger]
            final(calc).agrees(m) ==> old(calc).agrees(m) && r == ring_level(
                m,
                verts@,
                size as int,
                tolerance,
                ring,
            ),
{
    let base: u64 = verts[start].z;
    let all: usize = verts.len();
    assert(start + size <= all);
    let end: usize = start + size;
    let mut v: usize = start;
    while v < end
        invariant
            start <= v <= end,
            start == ring * size,
            end == start + size,
            end <= verts@.len(),
            base == verts@[start as int].z,
            forall|m: Reading| #[trigger]
                calc.agrees(m) ==> old(calc).agrees(m) && forall|k: int|
                    start <= k < v ==> on_layer(m, (#[trigger] verts@[k]).z, base, tolerance),
        decreases end - v,
    {
        if !test_on_layer(calc, verts[v].z, base, tolerance) {
            proof {
                assert forall|m: Reading| #[trigger] calc.agrees(m) implies !ring_level(
                    m,
                    verts@,
                    size as int,
                    tolerance,
                    ring,
                ) by {
                    assert(!on_layer(m, verts@[v as int].z, base, tolerance));
                }
            }
            return false;
        }
        v = v + 1;
    }
    true
}

/// The size of the rings, where the mesh is laid out ring by ring.
pub fn validated_ring_layout<A: Arithmetic>(calc: &mut Calc<A>, mesh: &Mesh, slices: u32) -> (r: Option<
    usize,
>)
    ensures
        r matches Some(size) ==> size > 0,
        forall|m: Reading| #[trigger]
            final(calc).agrees(m) ==> old(calc).agrees(m) && ring_layout(m, mesh@, slices)
                == match r {
                Some(size) => Some(size as int),
                None => None,
            },
{
    let n: usize = mesh.verts.len();
    let rings: u64 = if slices < 1 {
        2
    } else {
        slices as u64 + 1
    };
    if n == 0 || (n as u64) % rings != 0 {
        return None;
    }
    let size: usize = ((n as u64) / rings) as usize;
    proof {
        vstd::arithmetic::div_mod::lemma_fundamental_div_mod(n as int, rings as int);
        assert(rings * size == n);
        assert(size > 0) by (nonlinear_arith)
            requires
                rings * size == n,
                n > 0,
                rings > 0,
        ;
    }
    let (lo, hi) = z_bounds(&mesh.verts);
    let tolerance: u64 = compute_slack(calc, lo, hi, NANO);
    let mut start: usize = 0;
    let mut ring: u64 = 0;
    let ghost verts = mesh@.verts;
    while ring < rings
        invariant
            ring <= rings,
            rings == ring_count(slices),
            n == mesh@.verts.len(),
            n > 0,
            n as int % rings as int == 0,
            size == n as int / rings as int,
            size > 0,
            verts == mesh@.verts,
            rings * size == n,
            start == ring * size,
            lo == floor_of(mesh@.verts, n as int),
            hi == ceiling_of(mesh@.verts, n as int),
            forall|m: Reading| #[trigger]
                calc.agrees(m) ==> old(calc).agrees(m) && tolerance == slack(m, lo, hi, NANO)
                    && forall|k: int|
                    0 <= k < ring ==> #[trigger] ring_fine(m, verts, size as int, tolerance, k),
        decreases rings - ring,
    {
        proof {
            assert((ring + 1) * size == ring * size + size) by (nonlinear_arith);
            assert((ring + 1) * size <= rings * size) by (nonlinear_arith)
                requires
                    ring + 1 <= rings,
            ;
            assert((ring - 1) * size == ring * size - size) by (nonlinear_arith);
            if ring > 0 {
                assert(1 * size <= ring * size) by (nonlinear_arith)
                    requires
                        1 <= ring,
                ;
            }
        }
        let level: bool = test_ring(calc, &mesh.verts, start, size, tolerance, Ghost(ring as int));
        let above: bool = ring == 0 || !is_at_most(
            mesh.verts[start].z,
            mesh.verts[start - size].z,
        );
        if !level || !above {
            proof {
                assert forall|m: Reading| #[trigger] calc.agrees(m) implies ring_layout(
                    m,
                    mesh@,
                    slices,
                ) is None by {
                    assert(!ring_fine(m, verts, size as int, tolerance, ring as int));
                }
            }
            return None;
        }
        start = start + size;
        ring = ring + 1;
    }
    Some(size)
}

/// The stretch of the profile that a wall triangle spans, as one number: the
/// two places of the profile that its corners lie at.
pub open spec fn profile_segment(t: Triangle, size: int) -> Option<u64> {
    segment_of(t.a as int % size, t.b as int % size, t.c as int % size)
}

/// The two places among three, where they are two.
pub open spec fn segment_of(a: int, b: int, c: int) -> Option<u64> {
    let lo = if a <= b && a <= c {
        a
    } else if b <= c {
        b
    } else {
        c
    };
    let hi = if a >= b && a >= c {
        a
    } else if b >= c {
        b
    } else {
        c
    };
    if lo == hi || (a != lo && a != hi) || (b != lo && b != hi) || (c != lo && c != hi) {
        None
    } else {
        Some((lo * 0x1_0000_0000 + hi) as u64)
    }
}

fn segment(a: u64, b: u64, c: u64) -> (r: Option<u64>)
    requires
        a <= u32::MAX,
        b <= u32::MAX,
        c <= u32::MAX,
    ensures
        r == segment_of(a as int, b as int, c as int),
        r matches Some(s) ==> s <= 0xffff_fffe_ffff_ffff,
{
    let lo: u64 = if a <= b && a <= c {
        a
    } else if b <= c {
        b
    } else {
        c
    };
    let hi: u64 = if a >= b && a >= c {
        a
    } else if b >= c {
        b
    } else {
        c
    };
    if lo == hi || (a != lo && a != hi) || (b != lo && b != hi) || (c != lo && c != hi) {
        None
    } else {
        Some(lo * 0x1_0000_0000 + hi)
    }
}

fn residue(v: u64, k: u64) -> (r: u64)
    requires
        k > 0,
    ensures
        r == v % k,
        r <= v,
{
    proof {
        vstd::arithmetic::div_mod::lemma_mod_decreases(v as nat, k as nat);
    }
    v % k
}

/// The triangles between the layers among the first `n`.
pub open spec fn walls(m: Reading, mesh: MeshView, n: int) -> Seq<u32>
    decreases n,
{
    if n <= 0 {
        Seq::empty()
    } else if layer_of(m, mesh, NANO, n - 1) == 2 {
        walls(m, mesh, n - 1).push((n - 1) as u32)
    } else {
        walls(m, mesh, n - 1)
    }
}

/// The key of a wall triangle: one for all where the profile is smooth, the
/// profile's stretch where the mesh is laid out in rings, and else the coplanar
/// triangles that it belongs to.
pub open spec fn wall_key(
    m: Reading,
    mesh: MeshView,
    slices: u32,
    boundary: ProfileBoundary,
    t: int,
) -> Option<u64> {
    if boundary == ProfileBoundary::Smooth {
        Some(0)
    } else {
        match ring_layout(m, mesh, slices) {
            Some(size) => profile_segment(mesh.tris[t], size),
            None => {
                let list = walls(m, mesh, mesh.tris.len() as int);
                Some(
                    joined_sets(m, mesh, list, None)[walls(m, mesh, t).len() as int] as u64,
                )
            },
        }
    }
}

/// The keys of an extrusion's triangles: the bottom, the top, and the walls.
pub open spec fn extrusion_keys(
    m: Reading,
    mesh: MeshView,
    slices: u32,
    boundary: ProfileBoundary,
) -> Seq<Option<u128>> {
    Seq::new(
        mesh.tris.len(),
        |t: int|
            {
                let kind = layer_of(m, mesh, NANO, t);
                if kind < 2 {
                    Some(paired(kind as u64, 0))
                } else {
                    match wall_key(m, mesh, slices, boundary, t) {
                        Some(g) => Some(paired(2, g)),
                        None => None,
                    }
                }
            },
    )
}

/// The patches of a linear extrusion.
pub open spec fn extrusion_patches(
    m: Reading,
    mesh: MeshView,
    slices: u32,
    boundary: ProfileBoundary,
) -> Seq<u64> {
    if mesh.tris.len() == 0 {
        Seq::empty()
    } else {
        key_numbers(extrusion_keys(m, mesh, slices, boundary))
    }
}

/// Classifies a linear extrusion into bottom cap, top cap and side walls.
pub fn linear_extrude_patch_ids<A: Arithmetic>(
    calc: &mut Calc<A>,
    mesh: &Mesh,
    slices: u32,
    boundary: ProfileBoundary,
) -> (r: Vec<u64>)
    requires
        mesh@.indexed(),
        mesh@.tris.len() <= u32::MAX,
    ensures
        r@.len() == mesh@.tris.len(),
        forall|m: Reading| #[trigger]
            final(calc).agrees(m) ==> old(calc).agrees(m) && r@ == extrusion_patches(
                m,
                mesh@,
                slices,
                boundary,
            ),
{
    let n: usize = mesh.tris.len();
    if n == 0 {
        let none: Vec<u64> = Vec::new();
        assert(none@ =~= Seq::empty());
        return none;
    }
    assert(mesh@.tris[0].within(mesh@.verts.len()));
    let kinds = layers(calc, mesh, NANO);
    let mut list: Vec<u32> = Vec::new();
    let mut t: usize = 0;
    while t < n
        invariant
            t <= n,
            n == mesh@.tris.len(),
            n <= u32::MAX,
            kinds@.len() == n,
            list_within(list@, n as nat),
            forall|m: Reading| #[trigger]
                calc.agrees(m) ==> old(calc).agrees(m) && list@ == walls(m, mesh@, t as int)
                    && forall|i: int|
                    0 <= i < n ==> #[trigger] kinds@[i] == layer_of(m, mesh@, NANO, i),
        decreases n - t,
    {
        if kinds[t] == 2 {
            list.push(t as u32);
        }
        t = t + 1;
    }
    let ring_size = validated_ring_layout(calc, mesh, slices);
    let by_plane: bool = ring_size.is_none() && boundary != ProfileBoundary::Smooth;
    let mut groups: Vec<usize> = Vec::new();
    if by_plane {
        groups = join_edges(calc, mesh, &list, None);
    }
    let ghost before = *calc;
    let mut keys: Vec<Option<u128>> = Vec::new();
    let mut slot: usize = 0;
    let mut t: usize = 0;
    while t < n
        invariant
            t <= n,
            n == mesh@.tris.len(),
            kinds@.len() == n,
            mesh@.indexed(),
            by_plane == (ring_size is None && boundary != ProfileBoundary::Smooth),
            by_plane ==> groups@.len() == list@.len(),
            ring_size matches Some(size) ==> size > 0,
            slot <= t,
            keys@.len() == t,
            forall|i: int| 0 <= i < n ==> #[trigger] kinds@[i] <= 2,
            before == *calc,
            forall|m: Reading| #[trigger]
                calc.agrees(m) ==> {
                    &&& list@ == walls(m, mesh@, n as int)
                    &&& slot == walls(m, mesh@, t as int).len()
                    &&& forall|i: int|
                        0 <= i < n ==> #[trigger] kinds@[i] == layer_of(m, mesh@, NANO, i)
                    &&& ring_layout(m, mesh@, slices) == match ring_size {
                        Some(size) => Some(size as int),
                        None => None,
                    }
                    &&& by_plane ==> forall|i: int|
                        0 <= i < groups@.len() ==> #[trigger] groups@[i] == joined_sets(
                            m,
                            mesh@,
                            list@,
                            None,
                        )[i]
                    &&& forall|i: int|
                        0 <= i < t ==> #[trigger] keys@[i] == extrusion_keys(
                            m,
                            mesh@,
                            slices,
                            boundary,
                        )[i]
                },
        decreases n - t,
    {
        let kind: u8 = kinds[t];
        let ghost held = keys@;
        if kind < 2 {
            keys.push(Some(pair(kind as u64, 0)));
        } else {
            let group: Option<u64> = if boundary == ProfileBoundary::Smooth {
                Some(0)
            } else {
                match ring_size {
                    Some(size) => {
                        let tri = mesh.tris[t];
                        let k: u64 = size as u64;
                        segment(residue(tri.a as u64, k), residue(tri.b as u64, k), residue(tri.c as u64, k))
                    },
                    None => if slot < groups.len() {
                        Some(groups[slot] as u64)
                    } else {
                        Some(0)
                    },
                }
            };
            match group {
                Some(g) => {
                    keys.push(Some(pair(2, g)));
                },
                None => {
                    keys.push(None);
                },
            }
            slot = slot + 1;
            proof {
                assert forall|m: Reading| #[trigger] calc.agrees(m) implies keys@[t as int]
                    == extrusion_keys(m, mesh@, slices, boundary)[t as int] by {
                    assert(kinds@[t as int] == layer_of(m, mesh@, NANO, t as int));
                    lemma_wall_slot(m, mesh@, t as int, n as int);
                }
            }
        }
        t = t + 1;
    }
    proof {
        assert forall|m: Reading| #[trigger] calc.agrees(m) implies keys@ == extrusion_keys(
            m,
            mesh@,
            slices,
            boundary,
        ) by {
            assert(keys@ =~= extrusion_keys(m, mesh@, slices, boundary));
        }
    }
    number_keys(&keys)
}

proof fn lemma_wall_slot(m: Reading, mesh: MeshView, t: int, n: int)
    requires
        0 <= t < n,
        layer_of(m, mesh, NANO, t) == 2,
    ensures
        walls(m, mesh, t).len() < walls(m, mesh, n).len(),
    decreases n,
{
    if n > t + 1 {
        lemma_wall_slot(m, mesh, t, n - 1);
    }
}

// ---- rotational extrusions -----------------------------------------------------------------------

/// An angle kept within one full turn either way.
pub open spec fn within_turn(angle: u64) -> u64 {
    if less(angle, negative(FULL_TURN)) {
        negative(FULL_TURN)
    } else if less(FULL_TURN, angle) {
        FULL_TURN
    } else {
        angle
    }
}

/// The largest distance from the axis among the first `n` vertices.
pub open spec fn reach_of(m: Reading, verts: Seq<Point3>, n: int) -> u64
    decreases n,
{
    if n <= 0 {
        ZERO
    } else {
        greater(
            reach_of(m, verts, n - 1),
            m.at(NumOp::Hypot, verts[n - 1].x, verts[n - 1].y),
        )
    }
}

/// The sweep goes all the way round.
pub open spec fn is_full(m: Reading, sweep: u64) -> bool {
    less(size_of(m.at(NumOp::Sub, size_of(sweep), FULL_TURN)), NANO)
}

/// The steps of a sweep.
pub open spec fn sweep_steps(m: Reading, verts: Seq<Point3>, sweep: u64, f: FragmentSpec) -> u32 {
    let all = round_of(m, reach_of(m, verts, verts.len() as int), f);
    if is_full(m, sweep) {
        all
    } else {
        let part = counted(
            m,
            m.at(
                NumOp::Ceil,
                m.at(
                    NumOp::Div,
                    m.at(NumOp::Mul, m.at(NumOp::FromInt, all as u64, 0), size_of(sweep)),
                    FULL_TURN,
                ),
                0,
            ),
        );
        if part < 1 {
            1
        } else {
            part
        }
    }
}

/// The sets of vertices that triangles connect, after the first `n` triangles.
pub open spec fn vertex_sets(tris: Seq<Triangle>, verts: nat, n: int) -> SetsView
    decreases n,
{
    if n <= 0 {
        SetsView::singletons(verts)
    } else {
        let t = tris[n - 1];
        vertex_sets(tris, verts, n - 1).joined(t.a as int, t.b as int).joined(
            t.b as int,
            t.c as int,
        )
    }
}

/// The vertices among the first `n` that are in a set.
pub open spec fn holders(label: Seq<int>, c: int, n: int) -> Seq<int>
    decreases n,
{
    if n <= 0 {
        Seq::empty()
    } else if label[n - 1] == c {
        holders(label, c, n - 1).push(n - 1)
    } else {
        holders(label, c, n - 1)
    }
}

proof fn lemma_holders(label: Seq<int>, c: int, n: int, v: int)
    requires
        0 <= v < n <= label.len(),
        label[v] == c,
    ensures
        holders(label, c, n).len() > 0,
        0 <= holders(label, c, n)[0] <= v,
        holders(label, c, n).len() <= n,
    decreases n,
{
    lemma_holders_count(label, c, n - 1);
    if n - 1 > v {
        lemma_holders(label, c, n - 1, v);
    } else if holders(label, c, n - 1).len() > 0 {
        lemma_holders_first(label, c, n - 1);
    }
}

proof fn lemma_holders_count(label: Seq<int>, c: int, n: int)
    requires
        0 <= n <= label.len(),
    ensures
        holders(label, c, n).len() <= n,
    decreases n,
{
    if n > 0 {
        lemma_holders_count(label, c, n - 1);
    }
}

proof fn lemma_holders_first(label: Seq<int>, c: int, n: int)
    requires
        0 <= n <= label.len(),
        holders(label, c, n).len() > 0,
    ensures
        0 <= holders(label, c, n)[0] < n,
    decreases n,
{
    if holders(label, c, n - 1).len() > 0 {
        lemma_holders_first(label, c, n - 1);
    }
}

/// Where a vertex's set begins and how many vertices a ring of it has, where
/// the set is an unbroken block that divides into the rings.
pub open spec fn block_of(label: Seq<int>, v: int, rings: int) -> Option<(int, int)> {
    let h = holders(label, label[v], label.len() as int);
    if h.last() == h[0] + h.len() - 1 && h.len() as int % rings == 0 {
        Some((h[0], h.len() as int / rings))
    } else {
        None
    }
}

/// The key of a triangle of a sweep: a cap at either end, or the stretch of the
/// profile that it sweeps.
pub open spec fn sweep_key(
    label: Seq<int>,
    rings: int,
    full: bool,
    steps: u32,
    boundary: ProfileBoundary,
    t: Triangle,
) -> Option<u128> {
    let c = label[t.a as int];
    match block_of(label, t.a as int, rings) {
        None => None,
        Some((base, size)) => if size == 0 || label[t.b as int] != c || label[t.c as int] != c {
            None
        } else {
            let ra = (t.a - base) / size;
            let rb = (t.b - base) / size;
            let rc = (t.c - base) / size;
            if !full && ra == 0 && rb == 0 && rc == 0 {
                Some(paired(c as u64, 0))
            } else if !full && ra == steps && rb == steps && rc == steps {
                Some(paired(c as u64, 1))
            } else {
                match boundary {
                    ProfileBoundary::Smooth => Some(paired(c as u64, 2)),
                    ProfileBoundary::Unknown => None,
                    ProfileBoundary::Polygonal => match segment_of(
                        (t.a - base) % size,
                        (t.b - base) % size,
                        (t.c - base) % size,
                    ) {
                        Some(s) => Some(paired(c as u64, (3 + s) as u64)),
                        None => None,
                    },
                }
            }
        },
    }
}

/// The patches of a rotational extrusion; none at all where it does not sweep.
pub open spec fn sweep_patches(
    m: Reading,
    mesh: MeshView,
    angle: u64,
    f: FragmentSpec,
    boundary: ProfileBoundary,
) -> Seq<u64> {
    let sweep = within_turn(angle);
    if less(size_of(sweep), PICO) || mesh.verts.len() == 0 {
        Seq::empty()
    } else {
        let full = is_full(m, sweep);
        let steps = sweep_steps(m, mesh.verts, sweep, f);
        let rings = if full {
            steps as int
        } else {
            steps + 1
        };
        let label = vertex_sets(mesh.tris, mesh.verts.len(), mesh.tris.len() as int).label;
        key_numbers(
            mesh.tris.map_values(|t: Triangle| sweep_key(label, rings, full, steps, boundary, t)),
        )
    }
}

fn vertex_labels(mesh: &Mesh) -> (r: Vec<usize>)
    requires
        mesh@.indexed(),
    ensures
        r@.len() == mesh@.verts.len(),
        forall|i: int| 0 <= i < r@.len() ==> (#[trigger] r@[i]) < r@.len(),
        r@.map_values(|l: usize| l as int) == vertex_sets(
            mesh@.tris,
            mesh@.verts.len(),
            mesh@.tris.len() as int,
        ).label,
{
    let n: usize = mesh.verts.len();
    let mut sets = UnionFind::new(n);
    let mut t: usize = 0;
    while t < mesh.tris.len()
        invariant
            n == mesh@.verts.len(),
            mesh@.indexed(),
            t <= mesh@.tris.len(),
            sets.wf(),
            sets.size() == n,
            sets@ == vertex_sets(mesh@.tris, n as nat, t as int),
        decreases mesh.tris.len() - t,
    {
        let tri = mesh.tris[t];
        assert(mesh@.tris[t as int].within(mesh@.verts.len()));
        sets.union(tri.a as usize, tri.b as usize);
        sets.union(tri.b as usize, tri.c as usize);
        t = t + 1;
    }
    let ghost label = sets@.label;
    let mut out: Vec<usize> = Vec::new();
    let mut v: usize = 0;
    while v < n
        invariant
            v <= n,
            sets.wf(),
            sets.size() == n,
            sets@.label == label,
            out@.len() == v,
            forall|i: int| 0 <= i < v ==> (#[trigger] out@[i]) == label[i] && out@[i] < n,
        decreases n - v,
    {
        let root: usize = sets.find(v);
        out.push(root);
        v = v + 1;
    }
    assert(out@.map_values(|l: usize| l as int) =~= label);
    out
}

/// For each set its first vertex, its last, and how many it has.
struct Blocks {
    first: Vec<usize>,
    last: Vec<usize>,
    count: Vec<usize>,
}

spec fn blocks_known(b: Blocks, label: Seq<int>, i: int) -> bool {
    &&& b.first@.len() == label.len()
    &&& b.last@.len() == label.len()
    &&& b.count@.len() == label.len()
    &&& forall|c: int| #![trigger b.count@[c]]
        0 <= c < label.len() ==> b.count@[c] == holders(label, c, i).len() && (b.count@[c] > 0
            ==> b.first@[c] == holders(label, c, i)[0] && b.last@[c] == holders(
            label,
            c,
            i,
        ).last())
}

fn find_blocks(labels: &Vec<usize>) -> (r: Blocks)
    requires
        forall|i: int| 0 <= i < labels@.len() ==> (#[trigger] labels@[i]) < labels@.len(),
    ensures
        blocks_known(r, labels@.map_values(|l: usize| l as int), labels@.len() as int),
{
    let n: usize = labels.len();
    let ghost label = labels@.map_values(|l: usize| l as int);
    let mut b = Blocks { first: Vec::new(), last: Vec::new(), count: Vec::new() };
    for i in 0..n
        invariant
            b.first@.len() == i,
            b.last@.len() == i,
            b.count@.len() == i,
            forall|c: int| 0 <= c < i ==> b.count@[c] == 0,
    {
        b.first.push(0);
        b.last.push(0);
        b.count.push(0);
    }
    let mut i: usize = 0;
    while i < n
        invariant
            n == labels@.len(),
            label == labels@.map_values(|l: usize| l as int),
            forall|k: int| 0 <= k < labels@.len() ==> (#[trigger] labels@[k]) < labels@.len(),
            i <= n,
            blocks_known(b, label, i as int),
        decreases n - i,
    {
        let c: usize = labels[i];
        let ghost before = b;
        assert(label[i as int] == c);
        proof {
            lemma_holders_count(label, c as int, i as int);
            assert(b.count@[c as int] == holders(label, c as int, i as int).len());
        }
        let k: usize = b.count[c];
        if k == 0 {
            b.first.set(c, i);
        }
        b.last.set(c, i);
        b.count.set(c, k + 1);
        proof {
            assert forall|d: int| #![trigger b.count@[d]]
                0 <= d < label.len() implies b.count@[d] == holders(label, d, i + 1).len() && (
            b.count@[d] > 0 ==> b.first@[d] == holders(label, d, i + 1)[0] && b.last@[d]
                == holders(label, d, i + 1).last()) by {
                assert(before.count@[d] == holders(label, d, i as int).len());
            }
        }
        i = i + 1;
    }
    b
}

fn find_key(
    labels: &Vec<usize>,
    b: &Blocks,
    rings: u64,
    full: bool,
    steps: u32,
    boundary: ProfileBoundary,
    t: Triangle,
) -> (r: Option<u128>)
    requires
        rings > 0,
        forall|i: int| 0 <= i < labels@.len() ==> (#[trigger] labels@[i]) < labels@.len(),
        blocks_known(*b, labels@.map_values(|l: usize| l as int), labels@.len() as int),
        t.within(labels@.len()),
    ensures
        r == sweep_key(
            labels@.map_values(|l: usize| l as int),
            rings as int,
            full,
            steps,
            boundary,
            t,
        ),
{
    let ghost label = labels@.map_values(|l: usize| l as int);
    let c: usize = labels[t.a as usize];
    proof {
        assert(label[t.a as int] == c);
        assert(label[t.b as int] == labels@[t.b as int]);
        assert(label[t.c as int] == labels@[t.c as int]);
        lemma_holders(label, c as int, label.len() as int, t.a as int);
        assert(b.count@[c as int] == holders(label, c as int, label.len() as int).len());
        lemma_last_after_first(label, c as int, label.len() as int);
    }
    let count: usize = b.count[c];
    let base: usize = b.first[c];
    if b.last[c] - base != count - 1 || (count as u64) % rings != 0 {
        return None;
    }
    let size: u64 = (count as u64) / rings;
    if size == 0 || labels[t.b as usize] != c || labels[t.c as usize] != c {
        return None;
    }
    proof {
        lemma_holders(label, c as int, label.len() as int, t.b as int);
        lemma_holders(label, c as int, label.len() as int, t.c as int);
    }
    let oa: u64 = t.a as u64 - base as u64;
    let ob: u64 = t.b as u64 - base as u64;
    let oc: u64 = t.c as u64 - base as u64;
    let ra: u64 = oa / size;
    let rb: u64 = ob / size;
    let rc: u64 = oc / size;
    if !full && ra == 0 && rb == 0 && rc == 0 {
        return Some(pair(c as u64, 0));
    }
    let last: u64 = steps as u64;
    if !full && ra == last && rb == last && rc == last {
        return Some(pair(c as u64, 1));
    }
    match boundary {
        ProfileBoundary::Smooth => Some(pair(c as u64, 2)),
        ProfileBoundary::Unknown => None,
        ProfileBoundary::Polygonal => match segment(
            residue(oa, size),
            residue(ob, size),
            residue(oc, size),
        ) {
            Some(s) => Some(pair(c as u64, 3 + s)),
            None => None,
        },
    }
}

proof fn lemma_last_after_first(label: Seq<int>, c: int, n: int)
    requires
        0 <= n <= label.len(),
        holders(label, c, n).len() > 0,
    ensures
        holders(label, c, n)[0] <= holders(label, c, n).last() < n,
    decreases n,
{
    lemma_holders_first(label, c, n);
    if label[n - 1] == c {
    } else {
        lemma_last_after_first(label, c, n - 1);
    }
}

fn reach<A: Arithmetic>(calc: &mut Calc<A>, verts: &Vec<Point3>) -> (r: u64)
    ensures
        forall|m: Reading| #[trigger]
            final(calc).agrees(m) ==> old(calc).agrees(m) && r == reach_of(
                m,
                verts@,
                verts@.len() as int,
            ),
{
    let mut far: u64 = ZERO;
    let mut i: usize = 0;
    while i < verts.len()
        invariant
            i <= verts@.len(),
            forall|m: Reading| #[trigger]
                calc.agrees(m) ==> old(calc).agrees(m) && far == reach_of(m, verts@, i as int),
        decreases verts.len() - i,
    {
        let d: u64 = calc.apply(NumOp::Hypot, verts[i].x, verts[i].y);
        far = max_of(far, d);
        i = i + 1;
    }
    far
}

/// Classifies a rotational extrusion into caps and swept stretches of its
/// profile.
pub fn rotate_extrude_patch_ids<A: Arithmetic>(
    calc: &mut Calc<A>,
    mesh: &Mesh,
    angle: u64,
    f: FragmentSpec,
    boundary: ProfileBoundary,
) -> (r: Vec<u64>)
    requires
        mesh@.indexed(),
    ensures
        forall|m: Reading| #[trigger]
            final(calc).agrees(m) ==> old(calc).agrees(m) && r@ == sweep_patches(
                m,
                mesh@,
                angle,
                f,
                boundary,
            ),
{
    let low: u64 = negate(FULL_TURN);
    let sweep: u64 = if is_less(angle, low) {
        low
    } else if is_less(FULL_TURN, angle) {
        FULL_TURN
    } else {
        angle
    };
    if is_less(absolute(sweep), PICO) || mesh.verts.len() == 0 {
        let none: Vec<u64> = Vec::new();
        assert(none@ =~= Seq::empty());
        return none;
    }
    let gap: u64 = calc.apply(NumOp::Sub, absolute(sweep), FULL_TURN);
    let full: bool = is_less(absolute(gap), NANO);
    let far: u64 = reach(calc, &mesh.verts);
    let all: u32 = round_fragments(calc, far, f);
    let mut steps: u32 = all;
    if !full {
        let x: u64 = calc.apply(NumOp::FromInt, all as u64, 0);
        let y: u64 = calc.apply(NumOp::Mul, x, absolute(sweep));
        let z: u64 = calc.apply(NumOp::Div, y, FULL_TURN);
        let up: u64 = calc.apply(NumOp::Ceil, z, 0);
        let part: u32 = count(calc, up);
        steps = if part < 1 {
            1
        } else {
            part
        };
    }
    let rings: u64 = if full {
        steps as u64
    } else {
        steps as u64 + 1
    };
    let labels = vertex_labels(mesh);
    let b = find_blocks(&labels);
    let ghost label = labels@.map_values(|l: usize| l as int);
    let ghost whole = mesh@.tris.map_values(
        |t: Triangle| sweep_key(label, rings as int, full, steps, boundary, t),
    );
    let mut keys: Vec<Option<u128>> = Vec::new();
    let mut t: usize = 0;
    while t < mesh.tris.len()
        invariant
            t <= mesh@.tris.len(),
            mesh@.indexed(),
            rings > 0,
            label == labels@.map_values(|l: usize| l as int),
            labels@.len() == mesh@.verts.len(),
            forall|i: int| 0 <= i < labels@.len() ==> (#[trigger] labels@[i]) < labels@.len(),
            blocks_known(b, label, labels@.len() as int),
            whole == mesh@.tris.map_values(
                |t: Triangle| sweep_key(label, rings as int, full, steps, boundary, t),
            ),
            keys@ =~= whole.take(t as int),
        decreases mesh.tris.len() - t,
    {
        assert(mesh@.tris[t as int].within(mesh@.verts.len()));
        let k = find_key(&labels, &b, rings, full, steps, boundary, mesh.tris[t]);
        keys.push(k);
        assert(whole[t as int] == k);
        t = t + 1;
    }
    assert(keys@ =~= whole);
    number_keys(&keys)
}

} // verus!
