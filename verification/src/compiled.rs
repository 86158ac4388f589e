//! A scene as components: one for each authored module call, nested as the
//! calls are, and one for each loose solid that no authored module made.

use crate::blob::texts;
use crate::components::{components_for_triangles, groups, labels, listed, lists};
use crate::names::{
    append_number, humanize_identifier, humanized, number_names, numbered_name, numbered_names,
    tally,
};
use crate::num::{Arithmetic, Calc, Reading};
use crate::palette::{
    hex_color, lemma_material_number, materials, materials_of, rgba_hex, Color, MaterialKey,
};
use crate::provenance::{
    as_ints, authored, authored_path, copy_path, ints_at_most, path, paths, plain, same_path,
    strictly_ascending, FrameView, ProvenanceFrame,
};
use crate::rank::{ascending, sorted, Ranked};
use crate::relation::{AttributedMesh, AttributedView};
use crate::solid::{
    all_triangles, any_ambiguous, attributed, lemma_members_listed, make_selection, selects,
    spatial_key, spatial_numbers, surface_of, MeshSelection, StructuredMesh,
};
use crate::surfaces::{
    arrange_paths, surface_views, AttributionStatus, SurfaceAttribution, SurfaceView,
};
use crate::text::{decimal_text, dictionary_le, lemma_dictionary_total, lemma_dictionary_transitive};
use vstd::prelude::*;

verus! {

// ---- triangles by key -------------------------------------------------------------------

/// The listed triangles whose key is `k`, in order.
pub open spec fn with_key<K>(list: Seq<u32>, keys: Seq<K>, k: K) -> Seq<u32> {
    list.filter(|t: u32| keys[t as int] == k)
}

proof fn lemma_with_key_step<K>(list: Seq<u32>, keys: Seq<K>, k: K, i: int)
    requires
        0 <= i < list.len(),
    ensures
        with_key(list.take(i + 1), keys, k) == if keys[list[i] as int] == k {
            with_key(list.take(i), keys, k).push(list[i])
        } else {
            with_key(list.take(i), keys, k)
        },
{
    reveal(Seq::filter);
    assert(list.take(i + 1).drop_last() =~= list.take(i));
    assert(list.take(i + 1).last() == list[i]);
}

proof fn lemma_with_key_members<K>(list: Seq<u32>, keys: Seq<K>, k: K)
    ensures
        forall|t: u32| #[trigger]
            with_key(list, keys, k).contains(t) <==> list.contains(t) && keys[t as int] == k,
    decreases list.len(),
{
    reveal(Seq::filter);
    if list.len() > 0 {
        let rest = list.drop_last();
        lemma_with_key_members(rest, keys, k);
        assert forall|t: u32| #[trigger]
            with_key(list, keys, k).contains(t) <==> list.contains(t) && keys[t as int] == k by {
            crate::surfaces::lemma_push_contains(rest, list.last(), t);
            assert(rest.push(list.last()) =~= list);
            crate::surfaces::lemma_push_contains(with_key(rest, keys, k), list.last(), t);
            assert(with_key(rest, keys, k).contains(t) <==> rest.contains(t) && keys[t as int] == k);
        }
    } else {
        assert(with_key(list, keys, k) =~= Seq::empty());
    }
}

proof fn lemma_with_key_listed<K>(n: nat, list: Seq<u32>, keys: Seq<K>, k: K)
    requires
        forall|i: int| 0 <= i < list.len() ==> #[trigger] list[i] < n,
    ensures
        forall|i: int|
            0 <= i < with_key(list, keys, k).len() ==> #[trigger] with_key(list, keys, k)[i] < n,
{
    lemma_with_key_members(list, keys, k);
    let part = with_key(list, keys, k);
    assert forall|i: int| 0 <= i < part.len() implies #[trigger] part[i] < n by {
        assert(part.contains(part[i]));
        let j = choose|j: int| 0 <= j < list.len() && list[j] == part[i];
        assert(list[j] < n);
    }
}

/// The listed triangles of each material, materials in order.
pub open spec fn is_split(
    list: Seq<u32>,
    keys: Seq<MaterialKey>,
    split: Seq<(MaterialKey, Seq<u32>)>,
) -> bool {
    &&& forall|i: int|
        0 <= i < split.len() ==> (#[trigger] split[i]).1 == with_key(list, keys, split[i].0)
            && split[i].1.len() > 0
    &&& forall|i: int, j: int|
        #![trigger split[i], split[j]]
        0 <= i < j < split.len() ==> split[i].0.number() < split[j].0.number()
    &&& forall|k: int| 0 <= k < list.len() ==> has_material(split, keys[#[trigger] list[k] as int])
}

/// Some bucket holds this material.
pub open spec fn has_material(split: Seq<(MaterialKey, Seq<u32>)>, key: MaterialKey) -> bool {
    exists|i: int| 0 <= i < split.len() && (#[trigger] split[i]).0 == key
}

/// Some listed triangle has the key `k`.
pub open spec fn occurs<K>(list: Seq<u32>, keys: Seq<K>, k: K) -> bool {
    exists|j: int| 0 <= j < list.len() && keys[#[trigger] list[j] as int] == k
}

/// The contents of buckets.
pub open spec fn buckets(v: Seq<(MaterialKey, Vec<u32>)>) -> Seq<(MaterialKey, Seq<u32>)> {
    v.map_values(|b: (MaterialKey, Vec<u32>)| (b.0, b.1@))
}

fn pick(list: &Vec<u32>, keys: &Vec<MaterialKey>, key: MaterialKey) -> (r: Vec<u32>)
    requires
        forall|i: int| 0 <= i < list@.len() ==> #[trigger] list@[i] < keys@.len(),
    ensures
        r@ == with_key(list@, keys@, key),
{
    let mut out: Vec<u32> = Vec::new();
    assert(with_key(list@.take(0), keys@, key) =~= Seq::empty()) by {
        reveal(Seq::filter);
    }
    for i in 0..list.len()
        invariant
            forall|i: int| 0 <= i < list@.len() ==> #[trigger] list@[i] < keys@.len(),
            out@ =~= with_key(list@.take(i as int), keys@, key),
    {
        proof {
            lemma_with_key_step(list@, keys@, key, i as int);
        }
        let t: u32 = list[i];
        if keys[t as usize] == key {
            out.push(t);
        }
    }
    assert(list@.take(list@.len() as int) =~= list@);
    out
}

/// Splits triangles by material, materials in order.
fn split_by_material(list: &Vec<u32>, keys: &Vec<MaterialKey>) -> (r: Vec<(MaterialKey, Vec<u32>)>)
    requires
        forall|i: int| 0 <= i < list@.len() ==> #[trigger] list@[i] < keys@.len(),
    ensures
        is_split(list@, keys@, buckets(r@)),
{
    let mut found: Vec<MaterialKey> = Vec::new();
    let mut i: usize = 0;
    while i < list.len()
        invariant
            forall|i: int| 0 <= i < list@.len() ==> #[trigger] list@[i] < keys@.len(),
            i <= list@.len(),
            found@.len() == i,
            forall|k: int| 0 <= k < i ==> #[trigger] found@[k] == keys@[list@[k] as int],
        decreases list.len() - i,
    {
        let t: u32 = list[i];
        found.push(keys[t as usize]);
        i = i + 1;
    }
    let ghost raw = found@;
    let order = sorted(found);
    let ghost ms = order@;
    proof {
        raw.to_multiset_ensures();
        ms.to_multiset_ensures();
        assert forall|k: int| 0 <= k < ms.len() implies occurs(list@, keys@, #[trigger] ms[k]) by {
            assert(ms.to_multiset().count(ms[k]) > 0);
            assert(raw.contains(ms[k]));
            let j = choose|j: int| 0 <= j < raw.len() && raw[j] == ms[k];
            assert(keys@[list@[j] as int] == ms[k]);
        }
    }
    let mut out: Vec<(MaterialKey, Vec<u32>)> = Vec::new();
    let mut i: usize = 0;
    while i < order.len()
        invariant
            forall|i: int| 0 <= i < list@.len() ==> #[trigger] list@[i] < keys@.len(),
            i <= order@.len(),
            ms == order@,
            ascending(ms),
            forall|k: int| 0 <= k < ms.len() ==> occurs(list@, keys@, #[trigger] ms[k]),
            forall|k: int|
                0 <= k < out@.len() ==> (#[trigger] buckets(out@)[k]).1 == with_key(
                    list@,
                    keys@,
                    buckets(out@)[k].0,
                ) && buckets(out@)[k].1.len() > 0,
            forall|a: int, b: int|
                #![trigger buckets(out@)[a], buckets(out@)[b]]
                0 <= a < b < out@.len() ==> buckets(out@)[a].0.number() < buckets(out@)[b].0.number(),
            i == 0 <==> out@.len() == 0,
            i > 0 ==> buckets(out@).last().0 == ms[i - 1],
            forall|k: int| 0 <= k < i ==> has_material(buckets(out@), #[trigger] ms[k]),
        decreases order.len() - i,
    {
        let key = order[i];
        let ghost before = buckets(out@);
        let fresh: bool = if i == 0 {
            true
        } else {
            order[i - 1] != key
        };
        if fresh {
            let part = pick(list, keys, key);
            proof {
                lemma_with_key_members(list@, keys@, key);
                assert(occurs(list@, keys@, ms[i as int]));
                let j = choose|j: int|
                    0 <= j < list@.len() && keys@[#[trigger] list@[j] as int] == ms[i as int];
                assert(list@.contains(list@[j]));
                assert(part@.contains(list@[j]));
                if i > 0 {
                    assert(ms[i - 1].rank_le(&ms[i as int]));
                    if ms[i - 1].number() == key.number() {
                        lemma_material_number(ms[i - 1], key);
                    }
                    assert forall|a: int| 0 <= a < before.len() implies (
                    #[trigger] before[a]).0.number() < key.number() by {
                        if a < before.len() - 1 {
                            assert(buckets(out@)[a].0.number() < buckets(out@)[before.len() - 1].0.number());
                        }
                    }
                }
            }
            let ghost pair = (key, part@);
            out.push((key, part));
            assert(buckets(out@) =~= before.push(pair));
        }
        proof {
            let now = buckets(out@);
            assert forall|k: int| 0 <= k < i + 1 implies has_material(now, #[trigger] ms[k]) by {
                if k < i {
                    let a = choose|a: int| 0 <= a < before.len() && (#[trigger] before[a]).0 == ms[k];
                    assert(now[a].0 == ms[k]);
                } else {
                    assert(now[now.len() - 1].0 == ms[k]);
                }
            }
        }
        i = i + 1;
    }
    proof {
        let now = buckets(out@);
        assert forall|k: int| 0 <= k < list@.len() implies has_material(
            now,
            keys@[#[trigger] list@[k] as int],
        ) by {
            let key = keys@[list@[k] as int];
            assert(raw[k] == key);
            assert(raw.to_multiset().count(key) > 0);
            assert(ms.contains(key));
            let j = choose|j: int| 0 <= j < ms.len() && ms[j] == key;
            assert(has_material(now, ms[j]));
        }
    }
    out
}

// ---- the tree of calls -----------------------------------------------------------------------

/// The authored path of each triangle.
pub open spec fn owners(m: AttributedView, table: Seq<SurfaceView>) -> Seq<Seq<FrameView>> {
    Seq::new(m.mesh.tris.len(), |t: int| authored(surface_of(m, table, t).provenance))
}

/// Some triangle was made by the call `p`, or inside it.
pub open spec fn made_in(owners: Seq<Seq<FrameView>>, p: Seq<FrameView>) -> bool {
    p.len() > 0 && exists|t: int| 0 <= t < owners.len() && p.is_prefix_of(#[trigger] owners[t])
}

/// All calls that made triangles, outer ones before inner ones.
pub open spec fn is_tree(owners: Seq<Seq<FrameView>>, named: Seq<Seq<FrameView>>) -> bool {
    &&& strictly_ascending(named)
    &&& forall|p: Seq<FrameView>| #[trigger] named.contains(p) <==> made_in(owners, p)
}

/// `c` is a call made directly in `p`.
pub open spec fn is_child(c: Seq<FrameView>, p: Seq<FrameView>) -> bool {
    c.len() == p.len() + 1 && p.is_prefix_of(c)
}

/// The numbers below `n` of the calls made directly in `p`.
pub open spec fn children_below(named: Seq<Seq<FrameView>>, p: Seq<FrameView>, n: int) -> Seq<int>
    decreases n,
{
    if n <= 0 {
        Seq::empty()
    } else if is_child(named[n - 1], p) {
        children_below(named, p, n - 1).push(n - 1)
    } else {
        children_below(named, p, n - 1)
    }
}

/// The calls made directly in `p`, in order.
pub open spec fn children_of(named: Seq<Seq<FrameView>>, p: Seq<FrameView>) -> Seq<int> {
    children_below(named, p, named.len() as int)
}

proof fn lemma_children(named: Seq<Seq<FrameView>>, p: Seq<FrameView>, n: int)
    requires
        0 <= n <= named.len(),
    ensures
        forall|k: int|
            0 <= k < children_below(named, p, n).len() ==> 0 <= (#[trigger] children_below(
                named,
                p,
                n,
            )[k]) < n && is_child(named[children_below(named, p, n)[k]], p),
        forall|a: int, b: int|
            #![trigger children_below(named, p, n)[a], children_below(named, p, n)[b]]
            0 <= a < b < children_below(named, p, n).len() ==> children_below(named, p, n)[a]
                < children_below(named, p, n)[b],
        children_below(named, p, n).len() <= n,
    decreases n,
{
    if n > 0 {
        lemma_children(named, p, n - 1);
    }
}

/// A list of positions as integers.
pub open spec fn positions(v: Seq<usize>) -> Seq<int> {
    v.map_values(|n: usize| n as int)
}

fn child_test(c: &Vec<ProvenanceFrame>, p: &Vec<ProvenanceFrame>) -> (r: bool)
    ensures
        r == is_child(path(c@), path(p@)),
{
    if c.len() == 0 || c.len() - 1 != p.len() {
        return false;
    }
    let mut i: usize = 0;
    while i < p.len()
        invariant
            c@.len() == p@.len() + 1,
            i <= p@.len(),
            forall|k: int| 0 <= k < i ==> #[trigger] path(c@)[k] == path(p@)[k],
        decreases p.len() - i,
    {
        if !c[i].same(&p[i]) {
            assert(path(c@)[i as int] != path(p@)[i as int]);
            assert(!path(p@).is_prefix_of(path(c@)));
            return false;
        }
        assert(path(c@)[i as int] == path(p@)[i as int]);
        i = i + 1;
    }
    assert(path(p@) =~= path(c@).subrange(0, path(p@).len() as int));
    true
}

fn children_in(named: &Vec<Vec<ProvenanceFrame>>, p: &Vec<ProvenanceFrame>) -> (r: Vec<usize>)
    ensures
        positions(r@) == children_of(paths(named@), path(p@)),
{
    let mut out: Vec<usize> = Vec::new();
    for j in 0..named.len()
        invariant
            positions(out@) =~= children_below(paths(named@), path(p@), j as int),
    {
        let ghost before = positions(out@);
        assert(paths(named@)[j as int] == path(named@[j as int]@));
        if child_test(&named[j], p) {
            out.push(j);
            assert(positions(out@) =~= before.push(j as int));
        }
    }
    out
}

/// The first `n` frames.
fn prefix(p: &Vec<ProvenanceFrame>, n: usize) -> (r: Vec<ProvenanceFrame>)
    requires
        n <= p@.len(),
    ensures
        path(r@) == path(p@).take(n as int),
{
    let mut out: Vec<ProvenanceFrame> = Vec::new();
    for i in 0..n
        invariant
            n <= p@.len(),
            path(out@) =~= path(p@).take(i as int),
    {
        let ghost before = path(out@);
        out.push(p[i].duplicate());
        assert(path(out@) =~= before.push(path(p@)[i as int]));
    }
    out
}

/// The surface is that of some triangle.
pub open spec fn in_use(m: AttributedView, s: int) -> bool {
    exists|t: int| 0 <= t < m.mesh.tris.len() && (#[trigger] m.surface_ids[t]).0 == s
}

fn used_surfaces(exact: &AttributedMesh, n: usize) -> (r: Vec<bool>)
    requires
        exact.surface_ids@.len() == exact.mesh@.tris.len(),
        forall|t: int|
            0 <= t < exact.surface_ids@.len() ==> (#[trigger] exact.surface_ids@[t]).0 < n,
    ensures
        r@.len() == n,
        forall|s: int| 0 <= s < n ==> #[trigger] r@[s] == in_use(exact@, s),
{
    let mut used: Vec<bool> = Vec::new();
    for s in 0..n
        invariant
            used@.len() == s,
            forall|k: int| 0 <= k < s ==> #[trigger] used@[k] == false,
    {
        used.push(false);
    }
    let ghost ids = exact@.surface_ids;
    let mut t: usize = 0;
    while t < exact.surface_ids.len()
        invariant
            ids == exact.surface_ids@,
            forall|t: int| 0 <= t < ids.len() ==> (#[trigger] ids[t]).0 < n,
            used@.len() == n,
            t <= ids.len(),
            forall|s: int|
                0 <= s < n ==> #[trigger] used@[s] == exists|k: int|
                    0 <= k < t && (#[trigger] ids[k]).0 == s,
        decreases exact.surface_ids.len() - t,
    {
        let id: usize = exact.surface_ids[t].0 as usize;
        assert(ids[t as int].0 < n);
        let ghost before = used@;
        used.set(id, true);
        proof {
            assert forall|s: int| 0 <= s < n implies #[trigger] used@[s] == exists|k: int|
                0 <= k < t + 1 && (#[trigger] ids[k]).0 == s by {
                if s == id {
                    assert(ids[t as int].0 == s);
                } else {
                    assert(used@[s] == before[s]);
                    if exists|k: int| 0 <= k < t + 1 && (#[trigger] ids[k]).0 == s {
                        let k = choose|k: int| 0 <= k < t + 1 && (#[trigger] ids[k]).0 == s;
                        assert(k < t);
                        assert(exists|k: int| 0 <= k < t && (#[trigger] ids[k]).0 == s);
                    }
                }
            }
        }
        t = t + 1;
    }
    used
}

/// The authored path of each surface of a table.
pub open spec fn surface_owners(table: Seq<SurfaceView>) -> Seq<Seq<FrameView>> {
    table.map_values(|s: SurfaceView| authored(s.provenance))
}

fn owner_paths(table: &Vec<SurfaceAttribution>) -> (r: Vec<Vec<ProvenanceFrame>>)
    ensures
        paths(r@) == surface_owners(surface_views(table@)),
{
    let mut out: Vec<Vec<ProvenanceFrame>> = Vec::new();
    for i in 0..table.len()
        invariant
            paths(out@) =~= surface_owners(surface_views(table@)).take(i as int),
    {
        let ghost before = paths(out@);
        out.push(authored_path(&table[i].provenance));
        assert(paths(out@) =~= before.push(surface_owners(surface_views(table@))[i as int]));
    }
    assert(surface_owners(surface_views(table@)).take(table@.len() as int) =~= surface_owners(
        surface_views(table@),
    ));
    out
}

/// All calls that made triangles of the used surfaces.
fn call_tree(
    exact: &AttributedMesh,
    owned_by: &Vec<Vec<ProvenanceFrame>>,
    used: &Vec<bool>,
    Ghost(table): Ghost<Seq<SurfaceView>>,
) -> (r: Vec<Vec<ProvenanceFrame>>)
    requires
        attributed(exact@, table),
        paths(owned_by@) == surface_owners(table),
        used@.len() == table.len(),
        forall|s: int| 0 <= s < table.len() ==> #[trigger] used@[s] == in_use(exact@, s),
    ensures
        is_tree(owners(exact@, table), paths(r@)),
{
    let mut all: Vec<Vec<ProvenanceFrame>> = Vec::new();
    let ghost so = surface_owners(table);
    let ghost m = exact@;
    let mut s: usize = 0;
    while s < owned_by.len()
        invariant
            so == paths(owned_by@),
            used@.len() == so.len(),
            s <= so.len(),
            forall|p: Seq<FrameView>| #[trigger]
                paths(all@).contains(p) <==> exists|k: int|
                    0 <= k < s && used@[k] && p.len() > 0 && p.is_prefix_of(#[trigger] so[k]),
        decreases owned_by.len() - s,
    {
        let ghost start = paths(all@);
        if used[s] {
            let o = &owned_by[s];
            let ghost ov = so[s as int];
            assert(ov == path(o@));
            let mut n: usize = 0;
            while n < o.len()
                invariant
                    n <= o@.len(),
                    ov == path(o@),
                    forall|p: Seq<FrameView>| #[trigger]
                        paths(all@).contains(p) <==> start.contains(p) || (0 < p.len() <= n
                            && p.is_prefix_of(ov)),
                decreases o.len() - n,
            {
                let piece = prefix(o, n + 1);
                let ghost before = paths(all@);
                let ghost pv = path(piece@);
                all.push(piece);
                proof {
                    assert(paths(all@) =~= before.push(pv));
                    assert forall|p: Seq<FrameView>| #[trigger]
                        paths(all@).contains(p) <==> start.contains(p) || (0 < p.len() <= n + 1
                            && p.is_prefix_of(ov)) by {
                        crate::surfaces::lemma_push_contains(before, pv, p);
                        if p.len() == n + 1 && p.is_prefix_of(ov) {
                            assert(p =~= pv);
                        }
                        if p == pv {
                            assert(p =~= ov.subrange(0, p.len() as int));
                        }
                    }
                }
                n = n + 1;
            }
        }
        proof {
            assert forall|p: Seq<FrameView>| #[trigger] paths(all@).contains(p) <==> exists|k: int|
                0 <= k < s + 1 && used@[k] && p.len() > 0 && p.is_prefix_of(#[trigger] so[k]) by {
                if start.contains(p) {
                    let k = choose|k: int|
                        0 <= k < s && used@[k] && p.len() > 0 && p.is_prefix_of(#[trigger] so[k]);
                    assert(p.is_prefix_of(so[k]));
                }
                if exists|k: int|
                    0 <= k < s + 1 && used@[k] && p.len() > 0 && p.is_prefix_of(#[trigger] so[k]) {
                    let k = choose|k: int|
                        0 <= k < s + 1 && used@[k] && p.len() > 0 && p.is_prefix_of(
                            #[trigger] so[k],
                        );
                    if k < s {
                        assert(start.contains(p));
                    } else {
                        assert(p.len() <= so[s as int].len());
                    }
                }
                if used@[s as int] && 0 < p.len() && p.is_prefix_of(so[s as int]) {
                    assert(p.is_prefix_of(so[s as int]));
                }
            }
        }
        s = s + 1;
    }
    let ghost gathered = paths(all@);
    let r = arrange_paths(all);
    proof {
        let os = owners(m, table);
        assert forall|p: Seq<FrameView>| #[trigger] paths(r@).contains(p) <==> made_in(os, p) by {
            assert(paths(r@).contains(p) <==> gathered.contains(p));
            if gathered.contains(p) {
                let k = choose|k: int|
                    0 <= k < so.len() && used@[k] && p.len() > 0 && p.is_prefix_of(#[trigger] so[k]);
                assert(used@[k] == in_use(m, k));
                let t = choose|t: int|
                    0 <= t < m.mesh.tris.len() && (#[trigger] m.surface_ids[t]).0 == k;
                assert(os[t] == so[k]);
            }
            if made_in(os, p) {
                let t = choose|t: int| 0 <= t < os.len() && p.is_prefix_of(#[trigger] os[t]);
                let k = m.surface_ids[t].0 as int;
                assert(in_use(m, k));
                assert(used@[k] == in_use(m, k));
                assert(os[t] == so[k]);
                assert(p.is_prefix_of(so[k]));
            }
        }
    }
    r
}

// ---- the names of calls ------------------------------------------------------------------------

/// The module names of some calls, as words.
pub open spec fn sibling_bases(named: Seq<Seq<FrameView>>, list: Seq<int>) -> Seq<Seq<char>> {
    list.map_values(|j: int| humanized(named[j].last().module_name->0))
}

/// The path whose calls form the `g`-th group: the scene itself, then each call.
pub open spec fn group_path(named: Seq<Seq<FrameView>>, g: int) -> Seq<FrameView> {
    if g == 0 {
        Seq::empty()
    } else {
        named[g - 1]
    }
}

/// The calls of the `g`-th group have their names, numbered where they share
/// one.
pub open spec fn group_named(named: Seq<Seq<FrameView>>, names: Seq<Seq<char>>, g: int) -> bool {
    let sibs = children_of(named, group_path(named, g));
    forall|k: int|
        0 <= k < sibs.len() ==> names[#[trigger] sibs[k]] == numbered_name(
            sibling_bases(named, sibs),
            k,
        )
}

/// Every call has a module name.
pub open spec fn all_named(named: Seq<Seq<FrameView>>) -> bool {
    forall|i: int|
        0 <= i < named.len() ==> (#[trigger] named[i]).len() > 0 && named[i].last().module_name is Some
}

proof fn lemma_tree_named(m: AttributedView, table: Seq<SurfaceView>, named: Seq<Seq<FrameView>>)
    requires
        is_tree(owners(m, table), named),
    ensures
        all_named(named),
{
    broadcast use vstd::seq::Seq::lemma_filter_pred;

    let os = owners(m, table);
    assert forall|i: int| 0 <= i < named.len() implies (#[trigger] named[i]).len() > 0
        && named[i].last().module_name is Some by {
        let p = named[i];
        assert(named.contains(p));
        assert(made_in(os, p));
        let t = choose|t: int| 0 <= t < os.len() && p.is_prefix_of(#[trigger] os[t]);
        let j = p.len() - 1;
        assert(p[j] == os[t][j]);
        assert(os[t] == authored(surface_of(m, table, t).provenance));
        let pr = |f: FrameView| f.module_name is Some;
        let all = surface_of(m, table, t).provenance;
        assert(authored(all) == all.filter(pr));
        assert(pr(all.filter(pr)[j]));
    }
}

/// Names the calls made directly in `p`, and leaves all other names.
fn name_group(
    named: &Vec<Vec<ProvenanceFrame>>,
    names: &mut Vec<String>,
    p: &Vec<ProvenanceFrame>,
    Ghost(g): Ghost<int>,
)
    requires
        all_named(paths(named@)),
        strictly_ascending(paths(named@)),
        old(names)@.len() == named@.len(),
        0 <= g <= named@.len(),
        path(p@) == group_path(paths(named@), g),
        forall|h: int|
            0 <= h < g ==> #[trigger] group_named(paths(named@), texts(old(names)@), h),
    ensures
        final(names)@.len() == named@.len(),
        forall|h: int|
            0 <= h < g + 1 ==> #[trigger] group_named(paths(named@), texts(final(names)@), h),
{
    let ghost nv = paths(named@);
    let ghost pv = path(p@);
    let sibs = children_in(named, p);
    let ghost sv = children_of(nv, pv);
    proof {
        lemma_children(nv, pv, nv.len() as int);
    }
    let mut bases: Vec<String> = Vec::new();
    let mut k: usize = 0;
    while k < sibs.len()
        invariant
            nv == paths(named@),
            all_named(nv),
            sv == positions(sibs@),
            forall|k: int| 0 <= k < sv.len() ==> 0 <= #[trigger] sv[k] < nv.len(),
            k <= sibs@.len(),
            texts(bases@) =~= sibling_bases(nv, sv).take(k as int),
        decreases sibs.len() - k,
    {
        let j: usize = sibs[k];
        assert(sv[k as int] == j);
        let c = &named[j];
        assert(nv[j as int] == path(c@));
        assert(nv[j as int].len() > 0);
        assert(nv[j as int].last() == c@.last()@);
        let base = match &c[c.len() - 1].module_name {
            Some(n) => humanize_identifier(n.as_str()),
            None => String::new(),
        };
        let ghost before = texts(bases@);
        bases.push(base);
        assert(texts(bases@) =~= before.push(sibling_bases(nv, sv)[k as int]));
        k = k + 1;
    }
    assert(sibling_bases(nv, sv).take(sv.len() as int) =~= sibling_bases(nv, sv));
    let given = number_names(&bases);
    let ghost before = texts(names@);
    assert(texts(given@).len() == sv.len());
    let mut k: usize = 0;
    while k < sibs.len()
        invariant
            sv == positions(sibs@),
            forall|k: int| 0 <= k < sv.len() ==> 0 <= #[trigger] sv[k] < nv.len(),
            forall|a: int, b: int|
                #![trigger sv[a], sv[b]]
                0 <= a < b < sv.len() ==> sv[a] < sv[b],
            k <= sibs@.len(),
            names@.len() == nv.len(),
            before.len() == nv.len(),
            texts(given@) == numbered_names(sibling_bases(nv, sv)),
            given@.len() == sv.len(),
            forall|a: int|
                0 <= a < k ==> texts(names@)[#[trigger] sv[a]] == numbered_name(
                    sibling_bases(nv, sv),
                    a,
                ),
            forall|i: int|
                0 <= i < nv.len() && (forall|a: int| 0 <= a < sv.len() ==> #[trigger] sv[a] != i)
                    ==> #[trigger] texts(names@)[i] == before[i],
        decreases sibs.len() - k,
    {
        let j: usize = sibs[k];
        assert(sv[k as int] == j);
        let ghost had = texts(names@);
        names.set(j, given[k].clone());
        proof {
            assert(texts(given@)[k as int] == given@[k as int]@);
            assert(texts(names@) =~= had.update(j as int, given@[k as int]@));
        }
        k = k + 1;
    }
    proof {
        assert forall|h: int| 0 <= h < g + 1 implies #[trigger] group_named(
            nv,
            texts(names@),
            h,
        ) by {
            if h < g {
                let hp = group_path(nv, h);
                let hs = children_of(nv, hp);
                lemma_children(nv, hp, nv.len() as int);
                assert(group_named(nv, before, h));
                assert forall|k: int| 0 <= k < hs.len() implies texts(names@)[#[trigger] hs[k]]
                    == numbered_name(sibling_bases(nv, hs), k) by {
                    let i = hs[k];
                    assert forall|a: int| 0 <= a < sv.len() implies #[trigger] sv[a] != i by {
                        if sv[a] == i {
                            assert(is_child(nv[i], pv));
                            assert(is_child(nv[i], hp));
                            assert(hp =~= pv);
                            if h > 0 {
                                assert(nv[h - 1] == nv[g - 1]);
                            } else {
                                assert(nv[g - 1].len() > 0);
                            }
                        }
                    }
                    assert(texts(names@)[i] == before[i]);
                }
            } else {
                assert(group_path(nv, h) == pv);
            }
        }
    }
}

/// The names of all calls: a module's name as words, numbered where calls made
/// in the same place share it.
fn semantic_sibling_names(named: &Vec<Vec<ProvenanceFrame>>) -> (r: Vec<String>)
    requires
        all_named(paths(named@)),
        strictly_ascending(paths(named@)),
    ensures
        r@.len() == named@.len(),
        forall|g: int|
            0 <= g <= named@.len() ==> #[trigger] group_named(paths(named@), texts(r@), g),
{
    let ghost nv = paths(named@);
    let mut names: Vec<String> = Vec::new();
    for i in 0..named.len()
        invariant
            names@.len() == i,
    {
        names.push(String::new());
    }
    let scene: Vec<ProvenanceFrame> = Vec::new();
    assert(path(scene@) =~= Seq::empty());
    name_group(named, &mut names, &scene, Ghost(0));
    let mut g: usize = 0;
    while g < named.len()
        invariant
            nv == paths(named@),
            all_named(nv),
            strictly_ascending(nv),
            names@.len() == nv.len(),
            g <= nv.len(),
            forall|h: int| 0 <= h < g + 1 ==> #[trigger] group_named(nv, texts(names@), h),
        decreases nv.len() - g,
    {
        assert(nv[g as int] == path(named@[g as int]@));
        name_group(named, &mut names, &named[g], Ghost(g + 1));
        g = g + 1;
    }
    names
}

// ---- components -----------------------------------------------------------------------------------

/// The triangles of one material in a component.
#[derive(Debug)]
pub struct Primitive {
    pub selection: MeshSelection,
    pub material: MaterialKey,
}

/// A node of the scene.
#[derive(Debug)]
pub struct Component {
    /// The call that made it; none for a loose solid.
    pub frame: Option<ProvenanceFrame>,
    pub children: Vec<usize>,
    pub name: String,
    pub primitives: Vec<Primitive>,
    /// What feature edges are found in: all its triangles together.
    pub edge_groups: Vec<MeshSelection>,
    pub attribution: AttributionStatus,
    pub contributors: Vec<Vec<ProvenanceFrame>>,
}

/// A scene as components.
#[derive(Debug)]
pub struct CompiledGlb {
    pub components: Vec<Component>,
    pub roots: Vec<usize>,
}

/// Some listed triangle's surface has the contributor `p`.
pub open spec fn contributed(
    m: AttributedView,
    table: Seq<SurfaceView>,
    list: Seq<u32>,
    p: Seq<FrameView>,
) -> bool {
    exists|i: int|
        0 <= i < list.len() && surface_of(m, table, #[trigger] list[i] as int).contributors.contains(p)
}

/// `r` lists the contributors of the listed triangles in order, each once.
pub open spec fn gathers(
    m: AttributedView,
    table: Seq<SurfaceView>,
    list: Seq<u32>,
    r: Seq<Seq<FrameView>>,
) -> bool {
    &&& strictly_ascending(r)
    &&& forall|p: Seq<FrameView>| #[trigger] r.contains(p) <==> contributed(m, table, list, p)
}

/// Each bucket of the split became a primitive.
pub open spec fn made_primitives(
    m: AttributedView,
    table: Seq<SurfaceView>,
    split: Seq<(MaterialKey, Seq<u32>)>,
    r: Seq<Primitive>,
) -> bool {
    &&& r.len() == split.len()
    &&& forall|i: int|
        0 <= i < r.len() ==> (#[trigger] r[i]).material == split[i].0 && selects(
            m,
            table,
            split[i].1,
            r[i].selection,
        )
}

/// The primitives are those of the listed triangles.
pub open spec fn has_primitives(
    m: AttributedView,
    table: Seq<SurfaceView>,
    keys: Seq<MaterialKey>,
    list: Seq<u32>,
    r: Seq<Primitive>,
) -> bool {
    exists|split: Seq<(MaterialKey, Seq<u32>)>| #[trigger]
        is_split(list, keys, split) && made_primitives(m, table, split, r)
}

/// `c` is the component of the `i`-th call.
pub open spec fn is_call_component(
    m: AttributedView,
    table: Seq<SurfaceView>,
    keys: Seq<MaterialKey>,
    named: Seq<Seq<FrameView>>,
    i: int,
    c: Component,
) -> bool {
    let list = with_key(all_triangles(m.mesh.tris.len()), owners(m, table), named[i]);
    &&& c.frame is Some && c.frame->0@ == named[i].last()
    &&& positions(c.children@) == children_of(named, named[i])
    &&& has_primitives(m, table, keys, list, c.primitives@)
    &&& c.edge_groups@.len() == if list.len() == 0 {
        0nat
    } else {
        1nat
    }
    &&& list.len() > 0 ==> selects(m, table, list, c.edge_groups@[0])
    &&& c.attribution == if any_ambiguous(m, table, list) {
        AttributionStatus::Ambiguous
    } else {
        AttributionStatus::Exact
    }
    &&& gathers(m, table, list, paths(c.contributors@))
}

fn gather_contributors(
    exact: &AttributedMesh,
    table: &Vec<SurfaceAttribution>,
    list: &Vec<u32>,
) -> (r: Vec<Vec<ProvenanceFrame>>)
    requires
        attributed(exact@, surface_views(table@)),
        listed(exact.mesh.tris@, list@),
    ensures
        gathers(exact@, surface_views(table@), list@, paths(r@)),
{
    let ghost m = exact@;
    let ghost tv = surface_views(table@);
    let mut all: Vec<Vec<ProvenanceFrame>> = Vec::new();
    let mut last: Option<u32> = None;
    let mut i: usize = 0;
    assert(paths(all@) =~= Seq::empty());
    while i < list.len()
        invariant
            m == exact@,
            tv == surface_views(table@),
            attributed(m, tv),
            listed(exact.mesh.tris@, list@),
            i <= list@.len(),
            last is Some ==> exists|k: int|
                0 <= k < i && m.surface_ids[#[trigger] list@[k] as int].0 == last->0,
            forall|p: Seq<FrameView>| #[trigger]
                paths(all@).contains(p) <==> contributed(m, tv, list@.take(i as int), p),
        decreases list.len() - i,
    {
        let t: usize = list[i] as usize;
        assert(list@[i as int] < exact.mesh.tris@.len());
        let id: u32 = exact.surface_ids[t].0;
        assert(m.surface_ids[t as int].0 < tv.len());
        let ghost start = paths(all@);
        let ghost sv = surface_of(m, tv, t as int);
        let fresh: bool = match last {
            Some(l) => l != id,
            None => true,
        };
        if fresh {
            let surface = &table[id as usize];
            assert(surface@ == sv);
            let mut j: usize = 0;
            while j < surface.contributors.len()
                invariant
                    j <= surface.contributors@.len(),
                    forall|p: Seq<FrameView>| #[trigger]
                        paths(all@).contains(p) <==> start.contains(p) || paths(
                            surface.contributors@,
                        ).take(j as int).contains(p),
                decreases surface.contributors.len() - j,
            {
                let ghost before = paths(all@);
                let c = copy_path(&surface.contributors[j]);
                let ghost cv = path(c@);
                all.push(c);
                proof {
                    let cs = paths(surface.contributors@);
                    assert(paths(all@) =~= before.push(cv));
                    assert(cs.take(j + 1) =~= cs.take(j as int).push(cv));
                    assert forall|p: Seq<FrameView>| #[trigger]
                        paths(all@).contains(p) <==> start.contains(p) || cs.take(j + 1).contains(
                            p,
                        ) by {
                        crate::surfaces::lemma_push_contains(before, cv, p);
                        crate::surfaces::lemma_push_contains(cs.take(j as int), cv, p);
                    }
                }
                j = j + 1;
            }
            assert(paths(surface.contributors@).take(surface.contributors@.len() as int) =~= paths(
                surface.contributors@,
            ));
        }
        proof {
            let now = paths(all@);
            let t0 = list@.take(i as int);
            let t1 = list@.take(i + 1);
            assert forall|p: Seq<FrameView>| #[trigger] now.contains(p) <==> contributed(
                m,
                tv,
                t1,
                p,
            ) by {
                if contributed(m, tv, t0, p) {
                    let k = choose|k: int|
                        0 <= k < t0.len() && surface_of(
                            m,
                            tv,
                            #[trigger] t0[k] as int,
                        ).contributors.contains(p);
                    assert(t1[k] == t0[k]);
                }
                if sv.contributors.contains(p) {
                    assert(t1[i as int] == t);
                }
                if contributed(m, tv, t1, p) {
                    let k = choose|k: int|
                        0 <= k < t1.len() && surface_of(
                            m,
                            tv,
                            #[trigger] t1[k] as int,
                        ).contributors.contains(p);
                    if k < i {
                        assert(t0[k] == t1[k]);
                        assert(contributed(m, tv, t0, p));
                    } else {
                        assert(sv.contributors.contains(p));
                    }
                }
                if !fresh && sv.contributors.contains(p) {
                    let k = choose|k: int|
                        0 <= k < i && m.surface_ids[#[trigger] list@[k] as int].0 == last->0;
                    assert(t0[k] == list@[k]);
                    assert(surface_of(m, tv, t0[k] as int) == sv);
                    assert(contributed(m, tv, t0, p));
                }
                assert(start.contains(p) <==> contributed(m, tv, t0, p));
            }
            assert(m.surface_ids[list@[i as int] as int].0 == id);
        }
        last = Some(id);
        i = i + 1;
    }
    assert(list@.take(list@.len() as int) =~= list@);
    arrange_paths(all)
}

fn ambiguous_in(exact: &AttributedMesh, table: &Vec<SurfaceAttribution>, list: &Vec<u32>) -> (r:
    AttributionStatus)
    requires
        attributed(exact@, surface_views(table@)),
        listed(exact.mesh.tris@, list@),
    ensures
        r == if any_ambiguous(exact@, surface_views(table@), list@) {
            AttributionStatus::Ambiguous
        } else {
            AttributionStatus::Exact
        },
{
    let ghost m = exact@;
    let ghost tv = surface_views(table@);
    let mut i: usize = 0;
    while i < list.len()
        invariant
            m == exact@,
            tv == surface_views(table@),
            attributed(m, tv),
            listed(exact.mesh.tris@, list@),
            i <= list@.len(),
            forall|k: int|
                0 <= k < i ==> surface_of(m, tv, #[trigger] list@[k] as int).status
                    != AttributionStatus::Ambiguous,
        decreases list.len() - i,
    {
        let t: usize = list[i] as usize;
        assert(list@[i as int] < exact.mesh.tris@.len());
        assert(m.surface_ids[t as int].0 < tv.len());
        let surface = &table[exact.surface_ids[t].0 as usize];
        assert(surface@ == surface_of(m, tv, list@[i as int] as int));
        if surface.status == AttributionStatus::Ambiguous {
            return AttributionStatus::Ambiguous;
        }
        i = i + 1;
    }
    AttributionStatus::Exact
}

fn copy_list(v: &Vec<u32>) -> (r: Vec<u32>)
    ensures
        r@ == v@,
{
    let mut out: Vec<u32> = Vec::new();
    for i in 0..v.len()
        invariant
            out@ =~= v@.take(i as int),
    {
        out.push(v[i]);
    }
    assert(v@.take(v@.len() as int) =~= v@);
    out
}

fn primitives_of(
    exact: &AttributedMesh,
    table: &Vec<SurfaceAttribution>,
    keys: &Vec<MaterialKey>,
    list: &Vec<u32>,
) -> (r: Vec<Primitive>)
    requires
        exact.mesh@.indexed(),
        attributed(exact@, surface_views(table@)),
        listed(exact.mesh.tris@, list@),
        keys@.len() == exact.mesh.tris@.len(),
    ensures
        has_primitives(exact@, surface_views(table@), keys@, list@, r@),
{
    let split = split_by_material(list, keys);
    let ghost m = exact@;
    let ghost tv = surface_views(table@);
    let ghost sv = buckets(split@);
    let mut out: Vec<Primitive> = Vec::new();
    let mut i: usize = 0;
    while i < split.len()
        invariant
            m == exact@,
            tv == surface_views(table@),
            exact.mesh@.indexed(),
            attributed(m, tv),
            listed(exact.mesh.tris@, list@),
            sv == buckets(split@),
            is_split(list@, keys@, sv),
            i <= split@.len(),
            out@.len() == i,
            forall|k: int|
                0 <= k < i ==> (#[trigger] out@[k]).material == sv[k].0 && selects(
                    m,
                    tv,
                    sv[k].1,
                    out@[k].selection,
                ),
        decreases split.len() - i,
    {
        let part = copy_list(&split[i].1);
        proof {
            assert(sv[i as int] == (split@[i as int].0, split@[i as int].1@));
            lemma_with_key_listed(exact.mesh.tris@.len(), list@, keys@, sv[i as int].0);
        }
        let selection = make_selection(exact, table, part);
        out.push(Primitive { selection, material: split[i].0 });
        i = i + 1;
    }
    assert(is_split(list@, keys@, sv) && made_primitives(m, tv, sv, out@));
    out
}

// ---- loose solids ------------------------------------------------------------------------------------

/// A solid that no authored module made, of one material.
#[derive(Debug)]
pub struct Loose {
    pub material: MaterialKey,
    pub selection: MeshSelection,
}

/// What loose solids are ordered by: material, then place.
pub open spec fn loose_key(l: Loose) -> Seq<int> {
    seq![l.material.number()] + spatial_key(l.selection)
}

fn loose_numbers(l: &Loose) -> (r: Vec<u64>)
    ensures
        as_ints(r@) == loose_key(*l),
{
    let mut out: Vec<u64> = Vec::new();
    out.push(l.material.to_number());
    let place = spatial_numbers(&l.selection);
    assert(as_ints(out@) =~= seq![l.material.number()]);
    for i in 0..place.len()
        invariant
            as_ints(out@) =~= seq![l.material.number()] + as_ints(place@).take(i as int),
    {
        let ghost before = as_ints(out@);
        out.push(place[i]);
        assert(as_ints(out@) =~= before.push(as_ints(place@)[i as int]));
    }
    assert(as_ints(place@).take(place@.len() as int) =~= as_ints(place@));
    out
}

impl Ranked for Loose {
    open spec fn rank_le(&self, other: &Self) -> bool {
        dictionary_le(loose_key(*self), loose_key(*other), plain())
    }

    proof fn rank_total(a: &Self, b: &Self) {
        lemma_dictionary_total(loose_key(*a), loose_key(*b), plain());
    }

    proof fn rank_transitive(a: &Self, b: &Self, c: &Self) {
        lemma_dictionary_transitive(loose_key(*a), loose_key(*b), loose_key(*c), plain());
    }

    fn ranks_before(&self, other: &Self) -> (r: bool) {
        let a = loose_numbers(self);
        let b = loose_numbers(other);
        let r = ints_at_most(&a, &b);
        assert(self.rank_le(other) == dictionary_le(loose_key(*self), loose_key(*other), plain()));
        r
    }
}

/// The connected pieces of one bucket.
pub open spec fn bucket_pieces(
    m: AttributedView,
    bucket: (MaterialKey, Seq<u32>),
) -> Seq<(MaterialKey, Seq<u32>)> {
    groups(bucket.1, labels(m.mesh.tris, bucket.1), m.mesh.tris.len() as int).map_values(
        |g: Seq<u32>| (bucket.0, g),
    )
}

/// The connected pieces of the buckets, bucket by bucket.
pub open spec fn pieces(
    m: AttributedView,
    split: Seq<(MaterialKey, Seq<u32>)>,
) -> Seq<(MaterialKey, Seq<u32>)>
    decreases split.len(),
{
    if split.len() == 0 {
        Seq::empty()
    } else {
        pieces(m, split.drop_last()) + bucket_pieces(m, split.last())
    }
}

/// Each piece became a loose solid.
pub open spec fn made_loose(
    m: AttributedView,
    table: Seq<SurfaceView>,
    parts: Seq<(MaterialKey, Seq<u32>)>,
    r: Seq<Loose>,
) -> bool {
    &&& r.len() == parts.len()
    &&& forall|i: int|
        0 <= i < r.len() ==> (#[trigger] r[i]).material == parts[i].0 && selects(
            m,
            table,
            parts[i].1,
            r[i].selection,
        )
}

/// `raw` holds the loose solids among the listed triangles.
pub open spec fn raw_loose(
    m: AttributedView,
    table: Seq<SurfaceView>,
    keys: Seq<MaterialKey>,
    list: Seq<u32>,
    raw: Seq<Loose>,
) -> bool {
    exists|split: Seq<(MaterialKey, Seq<u32>)>| #[trigger]
        is_split(list, keys, split) && made_loose(m, table, pieces(m, split), raw)
}

/// `loose` holds the loose solids of the scene, by material and place.
pub open spec fn is_loose(
    m: AttributedView,
    table: Seq<SurfaceView>,
    keys: Seq<MaterialKey>,
    loose: Seq<Loose>,
) -> bool {
    let list = with_key(all_triangles(m.mesh.tris.len()), owners(m, table), Seq::empty());
    &&& ascending(loose)
    &&& exists|raw: Seq<Loose>| #[trigger]
        raw_loose(m, table, keys, list, raw) && raw.to_multiset() =~= loose.to_multiset()
}

fn loose_solids(
    exact: &AttributedMesh,
    table: &Vec<SurfaceAttribution>,
    keys: &Vec<MaterialKey>,
    list: &Vec<u32>,
) -> (r: Vec<Loose>)
    requires
        exact.mesh@.indexed(),
        attributed(exact@, surface_views(table@)),
        listed(exact.mesh.tris@, list@),
        keys@.len() == exact.mesh.tris@.len(),
    ensures
        raw_loose(exact@, surface_views(table@), keys@, list@, r@),
{
    let split = split_by_material(list, keys);
    let ghost m = exact@;
    let ghost tv = surface_views(table@);
    let ghost sv = buckets(split@);
    let mut out: Vec<Loose> = Vec::new();
    let mut i: usize = 0;
    assert(sv.take(0) =~= Seq::empty());
    while i < split.len()
        invariant
            m == exact@,
            tv == surface_views(table@),
            exact.mesh@.indexed(),
            attributed(m, tv),
            listed(exact.mesh.tris@, list@),
            sv == buckets(split@),
            is_split(list@, keys@, sv),
            i <= split@.len(),
            made_loose(m, tv, pieces(m, sv.take(i as int)), out@),
        decreases split.len() - i,
    {
        let ghost bucket = sv[i as int];
        let ghost base = pieces(m, sv.take(i as int));
        let ghost more = bucket_pieces(m, bucket);
        proof {
            assert(bucket == (split@[i as int].0, split@[i as int].1@));
            lemma_with_key_listed(exact.mesh.tris@.len(), list@, keys@, bucket.0);
            assert(sv.take(i + 1).drop_last() =~= sv.take(i as int));
            assert(sv.take(i + 1).last() == bucket);
        }
        let part = &split[i].1;
        let material = split[i].0;
        let cut = components_for_triangles(&exact.mesh, part);
        let ghost cv = groups(part@, labels(exact.mesh.tris@, part@), exact.mesh.tris@.len() as int);
        let mut j: usize = 0;
        while j < cut.len()
            invariant
                m == exact@,
                tv == surface_views(table@),
                exact.mesh@.indexed(),
                attributed(m, tv),
                listed(exact.mesh.tris@, part@),
                bucket == (material, part@),
                cv == groups(
                    part@,
                    labels(exact.mesh.tris@, part@),
                    exact.mesh.tris@.len() as int,
                ),
                lists(cut@) == cv,
                more == bucket_pieces(m, bucket),
                j <= cut@.len(),
                made_loose(m, tv, base + more.take(j as int), out@),
            decreases cut.len() - j,
        {
            proof {
                lemma_members_listed(
                    exact.mesh.tris@,
                    part@,
                    labels(exact.mesh.tris@, part@),
                    exact.mesh.tris@.len() as int,
                    j as int,
                );
                assert(lists(cut@)[j as int] == cut@[j as int]@);
                assert(more[j as int] == (material, cv[j as int]));
            }
            let selection = make_selection(exact, table, copy_list(&cut[j]));
            let ghost had = base + more.take(j as int);
            out.push(Loose { material, selection });
            assert(base + more.take(j + 1) =~= had.push(more[j as int]));
            j = j + 1;
        }
        assert(more.take(cut@.len() as int) =~= more);
        i = i + 1;
    }
    assert(sv.take(split@.len() as int) =~= sv);
    assert(is_split(list@, keys@, sv) && made_loose(m, tv, pieces(m, sv), out@));
    out
}

/// The name of the `k`-th loose solid: its color and its number among those of
/// that color.
pub open spec fn loose_name(colors: Seq<Color>, k: int) -> Seq<char> {
    hex_color(colors[k]) + " Shape"@ + seq![' '] + decimal_text(tally(colors.take(k + 1), colors[k]))
}

/// The colors of loose solids.
pub open spec fn loose_colors(loose: Seq<Loose>) -> Seq<Color> {
    loose.map_values(|l: Loose| l.material.rgba)
}

fn fallback_name(loose: &Vec<Loose>, k: usize) -> (r: String)
    requires
        k < loose@.len(),
    ensures
        r@ == loose_name(loose_colors(loose@), k as int),
{
    let color = loose[k].material.rgba;
    let ghost colors = loose_colors(loose@);
    let mut count: usize = 0;
    let known: usize = loose.len();
    assert(k < known);
    for i in 0..k + 1
        invariant
            k < loose@.len(),
            colors == loose_colors(loose@),
            count <= i,
            count == tally(colors.take(i as int), color),
    {
        proof {
            let t = colors.take(i + 1);
            assert(t.drop_last() =~= colors.take(i as int));
            assert(t.last() == loose@[i as int].material.rgba);
        }
        if loose[i].material.rgba == color {
            count = count + 1;
        }
    }
    let mut base = rgba_hex(color);
    base.append(" Shape");
    let r = append_number(base.as_str(), count as u64);
    assert(r@ =~= loose_name(colors, k as int));
    r
}

/// Two selections say the same.
pub open spec fn same_selection(a: MeshSelection, b: MeshSelection) -> bool {
    &&& a.triangles@ == b.triangles@
    &&& a.bounds == b.bounds
    &&& path(a.provenance@) == path(b.provenance@)
    &&& a.attribution == b.attribution
    &&& a.geometry_hash == b.geometry_hash
}

fn copy_selection(s: &MeshSelection) -> (r: MeshSelection)
    ensures
        same_selection(r, *s),
{
    MeshSelection {
        triangles: copy_list(&s.triangles),
        bounds: s.bounds,
        provenance: copy_path(&s.provenance),
        attribution: s.attribution,
        geometry_hash: s.geometry_hash,
    }
}

/// `c` is the component of the `k`-th loose solid.
pub open spec fn is_loose_component(
    m: AttributedView,
    table: Seq<SurfaceView>,
    loose: Seq<Loose>,
    k: int,
    c: Component,
) -> bool {
    &&& c.frame is None
    &&& c.children@.len() == 0
    &&& c.name@ == loose_name(loose_colors(loose), k)
    &&& c.primitives@.len() == 1
    &&& c.primitives@[0].material == loose[k].material
    &&& same_selection(c.primitives@[0].selection, loose[k].selection)
    &&& c.edge_groups@.len() == 1
    &&& same_selection(c.edge_groups@[0], loose[k].selection)
    &&& c.attribution == loose[k].selection.attribution
    &&& gathers(m, table, loose[k].selection.triangles@, paths(c.contributors@))
}

// ---- the whole scene ---------------------------------------------------------------------------------

/// The material of each triangle.
pub open spec fn triangle_materials(
    m: AttributedView,
    materials: Seq<MaterialKey>,
) -> Seq<MaterialKey> {
    Seq::new(m.mesh.tris.len(), |t: int| materials[m.surface_ids[t].0 as int])
}

/// The names of components.
pub open spec fn component_names(c: Seq<Component>) -> Seq<Seq<char>> {
    c.map_values(|c: Component| c.name@)
}

/// The scene is cut into the calls `named` and the solids `loose`: the calls
/// first, outer before inner, then the solids; the roots are the outermost
/// calls and the solids.
pub open spec fn is_scene(
    m: AttributedView,
    table: Seq<SurfaceView>,
    materials: Seq<MaterialKey>,
    named: Seq<Seq<FrameView>>,
    loose: Seq<Loose>,
    r: CompiledGlb,
) -> bool {
    let keys = triangle_materials(m, materials);
    let cs = r.components@;
    &&& is_tree(owners(m, table), named)
    &&& is_loose(m, table, keys, loose)
    &&& cs.len() == named.len() + loose.len()
    &&& forall|i: int|
        0 <= i < named.len() ==> is_call_component(m, table, keys, named, i, #[trigger] cs[i])
    &&& forall|g: int|
        0 <= g <= named.len() ==> #[trigger] group_named(named, component_names(cs), g)
    &&& forall|k: int|
        0 <= k < loose.len() ==> is_loose_component(
            m,
            table,
            loose,
            k,
            #[trigger] cs[named.len() + k],
        )
    &&& positions(r.roots@) == children_of(named, Seq::empty()) + Seq::new(
        loose.len(),
        |k: int| named.len() + k,
    )
}

/// `r` is the scene as components.
pub open spec fn compiled(
    m: AttributedView,
    table: Seq<SurfaceView>,
    materials: Seq<MaterialKey>,
    r: CompiledGlb,
) -> bool {
    exists|named: Seq<Seq<FrameView>>, loose: Seq<Loose>| #[trigger]
        is_scene(m, table, materials, named, loose, r)
}

/// Where each surface's triangles go: to a call, or to the loose ones.
fn slots(
    named: &Vec<Vec<ProvenanceFrame>>,
    owned_by: &Vec<Vec<ProvenanceFrame>>,
    used: &Vec<bool>,
    Ghost(m): Ghost<AttributedView>,
    Ghost(table): Ghost<Seq<SurfaceView>>,
) -> (r: Vec<usize>)
    requires
        attributed(m, table),
        paths(owned_by@) == surface_owners(table),
        used@.len() == table.len(),
        forall|s: int| 0 <= s < table.len() ==> #[trigger] used@[s] == in_use(m, s),
        is_tree(owners(m, table), paths(named@)),
    ensures
        r@.len() == table.len(),
        forall|s: int|
            0 <= s < table.len() && in_use(m, s) ==> (if surface_owners(table)[s].len() == 0 {
                #[trigger] r@[s] == named@.len()
            } else {
                r@[s] < named@.len() && paths(named@)[r@[s] as int] == surface_owners(table)[s]
            }),
{
    let ghost nv = paths(named@);
    let ghost so = surface_owners(table);
    let mut out: Vec<usize> = Vec::new();
    let mut s: usize = 0;
    while s < owned_by.len()
        invariant
            nv == paths(named@),
            so == paths(owned_by@),
            so == surface_owners(table),
            so.len() == table.len(),
            attributed(m, table),
            used@.len() == table.len(),
            forall|s: int| 0 <= s < table.len() ==> #[trigger] used@[s] == in_use(m, s),
            is_tree(owners(m, table), nv),
            s <= owned_by@.len(),
            out@.len() == s,
            forall|k: int|
                0 <= k < s && in_use(m, k) ==> (if so[k].len() == 0 {
                    #[trigger] out@[k] == named@.len()
                } else {
                    out@[k] < named@.len() && nv[out@[k] as int] == so[k]
                }),
        decreases owned_by.len() - s,
    {
        let o = &owned_by[s];
        assert(so[s as int] == path(o@));
        let mut place: usize = named.len();
        if used[s] && o.len() > 0 {
            let mut i: usize = 0;
            while i < named.len() && place == named.len()
                invariant
                    nv == paths(named@),
                    i <= nv.len(),
                    place <= nv.len(),
                    place == nv.len() ==> forall|k: int| 0 <= k < i ==> #[trigger] nv[k] != path(o@),
                    place < nv.len() ==> nv[place as int] == path(o@),
                decreases named.len() - i,
            {
                assert(nv[i as int] == path(named@[i as int]@));
                if same_path(&named[i], o) {
                    place = i;
                }
                i = i + 1;
            }
            proof {
                assert(in_use(m, s as int));
                let t = choose|t: int|
                    0 <= t < m.mesh.tris.len() && (#[trigger] m.surface_ids[t]).0 == s;
                let os = owners(m, table);
                assert(os[t] == so[s as int]);
                assert(path(o@).is_prefix_of(os[t])) by {
                    assert(path(o@) =~= os[t].subrange(0, os[t].len() as int));
                }
                assert(made_in(os, path(o@)));
                assert(nv.contains(path(o@)));
            }
        }
        out.push(place);
        s = s + 1;
    }
    out
}

/// The triangles of each slot below `k`, and those of slot `k`, in order.
fn fill(
    exact: &AttributedMesh,
    slot: &Vec<usize>,
    k: usize,
    Ghost(slots): Ghost<Seq<usize>>,
) -> (r: (Vec<Vec<u32>>, Vec<u32>))
    requires
        exact.mesh.tris@.len() <= u32::MAX,
        exact.surface_ids@.len() == exact.mesh.tris@.len(),
        slots == Seq::new(
            exact.mesh.tris@.len(),
            |t: int| slot@[exact.surface_ids@[t].0 as int],
        ),
        forall|t: int|
            0 <= t < slots.len() ==> #[trigger] slots[t] <= k && exact.surface_ids@[t].0 < slot@.len(),
    ensures
        r.0@.len() == k,
        forall|i: int|
            0 <= i < k ==> (#[trigger] r.0@[i])@ == with_key(
                all_triangles(exact.mesh.tris@.len()),
                slots,
                i as usize,
            ),
        r.1@ == with_key(all_triangles(exact.mesh.tris@.len()), slots, k),
{
    let ghost all = all_triangles(exact.mesh.tris@.len());
    let n: usize = exact.mesh.tris.len();
    let mut out: Vec<Vec<u32>> = Vec::new();
    let mut last: Vec<u32> = Vec::new();
    proof {
        reveal(Seq::filter);
        assert forall|i: usize| #[trigger] with_key(all.take(0), slots, i) =~= Seq::empty() by {}
    }
    let mut i: usize = 0;
    while i < k
        invariant
            i <= k,
            out@.len() == i,
            forall|i: usize| #[trigger] with_key(all.take(0), slots, i) =~= Seq::<u32>::empty(),
            forall|j: int|
                0 <= j < i ==> (#[trigger] out@[j])@ == with_key(all.take(0), slots, j as usize),
        decreases k - i,
    {
        out.push(Vec::new());
        assert(with_key(all.take(0), slots, i) =~= Seq::<u32>::empty());
        i = i + 1;
    }
    assert(last@ =~= with_key(all.take(0), slots, k));
    let mut t: usize = 0;
    while t < n
        invariant
            n == exact.mesh.tris@.len(),
            n <= u32::MAX,
            exact.surface_ids@.len() == n,
            slots == Seq::new(n as nat, |t: int| slot@[exact.surface_ids@[t].0 as int]),
            forall|t: int|
                0 <= t < slots.len() ==> #[trigger] slots[t] <= k && exact.surface_ids@[t].0
                    < slot@.len(),
            all == all_triangles(n as nat),
            t <= n,
            out@.len() == k,
            forall|j: int|
                0 <= j < k ==> (#[trigger] out@[j])@ == with_key(
                    all.take(t as int),
                    slots,
                    j as usize,
                ),
            last@ == with_key(all.take(t as int), slots, k),
        decreases n - t,
    {
        assert(slots[t as int] <= k);
        let place: usize = slot[exact.surface_ids[t].0 as usize];
        let ghost before = out@;
        if place < k {
            out[place].push(t as u32);
        } else {
            last.push(t as u32);
        }
        proof {
            lemma_with_key_step(all, slots, k, t as int);
            assert(all[t as int] == t as u32);
            assert(slots[t as int] == place);
            assert forall|j: int| 0 <= j < k implies (#[trigger] out@[j])@ == with_key(
                all.take(t + 1),
                slots,
                j as usize,
            ) by {
                lemma_with_key_step(all, slots, j as usize, t as int);
                assert(before[j]@ == with_key(all.take(t as int), slots, j as usize));
                if j == place {
                    assert(out@[j]@ == before[j]@.push(t as u32));
                } else {
                    assert(out@[j] == before[j]);
                }
            }
        }
        t = t + 1;
    }
    assert(all.take(n as int) =~= all);
    (out, last)
}

proof fn lemma_same_lists<K, L>(list: Seq<u32>, a: Seq<K>, x: K, b: Seq<L>, y: L)
    requires
        forall|i: int|
            0 <= i < list.len() ==> (a[#[trigger] list[i] as int] == x <==> b[list[i] as int] == y),
    ensures
        with_key(list, a, x) == with_key(list, b, y),
    decreases list.len(),
{
    reveal(Seq::filter);
    if list.len() > 0 {
        let rest = list.drop_last();
        assert forall|i: int| 0 <= i < rest.len() implies (a[#[trigger] rest[i] as int] == x
            <==> b[rest[i] as int] == y) by {
            assert(rest[i] == list[i]);
        }
        lemma_same_lists(rest, a, x, b, y);
        assert(list.last() == list[list.len() - 1]);
    } else {
        assert(with_key(list, a, x) =~= with_key(list, b, y));
    }
}

/// Cuts a scene into components, given the material of each surface.
pub fn compile_with(structured: &StructuredMesh, materials: &Vec<MaterialKey>) -> (r: CompiledGlb)
    requires
        structured.exact.mesh@.indexed(),
        structured.exact.mesh.tris@.len() <= u32::MAX,
        attributed(structured.exact@, surface_views(structured.attributions@)),
        materials@.len() == structured.attributions@.len(),
    ensures
        compiled(
            structured.exact@,
            surface_views(structured.attributions@),
            materials@,
            r,
        ),
{
    let exact = &structured.exact;
    let table = &structured.attributions;
    let ghost m = exact@;
    let ghost tv = surface_views(table@);
    let ghost os = owners(m, tv);
    let n: usize = exact.mesh.tris.len();
    let mut keys: Vec<MaterialKey> = Vec::new();
    for t in 0..n
        invariant
            n == exact.mesh.tris@.len(),
            m == exact@,
            tv == surface_views(table@),
            attributed(m, tv),
            materials@.len() == table@.len(),
            keys@ =~= triangle_materials(m, materials@).take(t as int),
    {
        assert(m.surface_ids[t as int].0 < tv.len());
        keys.push(materials[exact.surface_ids[t].0 as usize]);
    }
    let ghost kv = triangle_materials(m, materials@);
    assert(kv.take(n as int) =~= kv);
    let owned_by = owner_paths(table);
    assert forall|t: int| 0 <= t < exact.surface_ids@.len() implies (
    #[trigger] exact.surface_ids@[t]).0 < table@.len() by {
        assert(m.surface_ids[t].0 < tv.len());
    }
    let used = used_surfaces(exact, table.len());
    let named = call_tree(exact, &owned_by, &used, Ghost(tv));
    let ghost nv = paths(named@);
    proof {
        lemma_tree_named(m, tv, nv);
    }
    let slot = slots(&named, &owned_by, &used, Ghost(m), Ghost(tv));
    let ghost sv = Seq::new(m.mesh.tris.len(), |t: int| slot@[exact.surface_ids@[t].0 as int]);
    proof {
        assert forall|t: int| 0 <= t < sv.len() implies #[trigger] sv[t] <= nv.len()
            && exact.surface_ids@[t].0 < slot@.len() && (sv[t] == nv.len() <==> os[t].len() == 0) && (
        sv[t] < nv.len() ==> nv[sv[t] as int] == os[t]) by {
            let s = m.surface_ids[t].0 as int;
            assert(in_use(m, s));
            assert(os[t] == surface_owners(tv)[s]);
            assert(slot@[s] == sv[t]);
        }
    }
    let (lists_by, rest) = fill(exact, &slot, named.len(), Ghost(sv));
    let ghost all = all_triangles(m.mesh.tris.len());
    proof {
        assert forall|i: int| 0 <= i < nv.len() implies (#[trigger] lists_by@[i])@ == with_key(
            all,
            os,
            nv[i],
        ) && listed(m.mesh.tris, lists_by@[i]@) by {
            assert forall|k: int| 0 <= k < all.len() implies (sv[#[trigger] all[k] as int]
                == i as usize <==> os[all[k] as int] == nv[i]) by {
                let t = all[k] as int;
                assert(sv[t] <= nv.len());
                if os[t] == nv[i] {
                    assert(nv[i].len() > 0);
                    let a = sv[t] as int;
                    assert(nv[a] == nv[i]);
                    if a < i {
                        assert(nv[a] != nv[i]);
                    }
                    if i < a {
                        assert(nv[i] != nv[a]);
                    }
                }
            }
            lemma_same_lists(all, sv, i as usize, os, nv[i]);
            lemma_with_key_listed(m.mesh.tris.len(), all, os, nv[i]);
        }
        let none = Seq::<FrameView>::empty();
        assert forall|k: int| 0 <= k < all.len() implies (sv[#[trigger] all[k] as int]
            == nv.len() as usize <==> os[all[k] as int] == none) by {
            let t = all[k] as int;
            assert(sv[t] <= nv.len());
            if os[t].len() == 0 {
                assert(os[t] =~= none);
            }
        }
        lemma_same_lists(all, sv, nv.len() as usize, os, none);
        lemma_with_key_listed(m.mesh.tris.len(), all, os, none);
        assert(rest@ == with_key(all, os, none));
    }
    let names = semantic_sibling_names(&named);
    let mut components: Vec<Component> = Vec::new();
    let mut i: usize = 0;
    while i < named.len()
        invariant
            exact == structured.exact,
            table == structured.attributions,
            m == exact@,
            tv == surface_views(table@),
            os == owners(m, tv),
            kv == keys@,
            all == all_triangles(m.mesh.tris.len()),
            exact.mesh@.indexed(),
            attributed(m, tv),
            keys@.len() == exact.mesh.tris@.len(),
            nv == paths(named@),
            all_named(nv),
            names@.len() == nv.len(),
            lists_by@.len() == nv.len(),
            forall|i: int|
                0 <= i < nv.len() ==> (#[trigger] lists_by@[i])@ == with_key(all, os, nv[i])
                    && listed(m.mesh.tris, lists_by@[i]@),
            i <= nv.len(),
            components@.len() == i,
            forall|k: int|
                0 <= k < i ==> is_call_component(m, tv, kv, nv, k, #[trigger] components@[k]),
            forall|k: int| 0 <= k < i ==> (#[trigger] components@[k]).name@ == names@[k]@,
        decreases named.len() - i,
    {
        let p = &named[i];
        assert(nv[i as int] == path(p@));
        assert(nv[i as int].len() > 0);
        assert(nv[i as int].last() == p@.last()@);
        let frame = Some(p[p.len() - 1].duplicate());
        let children = children_in(&named, p);
        let list = &lists_by[i];
        assert(list@ == with_key(all, os, nv[i as int]));
        let primitives = primitives_of(exact, table, &keys, list);
        let mut edge_groups: Vec<MeshSelection> = Vec::new();
        if list.len() > 0 {
            edge_groups.push(make_selection(exact, table, copy_list(list)));
        }
        let attribution = ambiguous_in(exact, table, list);
        let contributors = gather_contributors(exact, table, list);
        let name = names[i].clone();
        components.push(
            Component { frame, children, name, primitives, edge_groups, attribution, contributors },
        );
        assert(is_call_component(m, tv, kv, nv, i as int, components@[i as int]));
        i = i + 1;
    }
    let raw = loose_solids(exact, table, &keys, &rest);
    let ghost rv = raw@;
    let loose = sorted(raw);
    assert(is_loose(m, tv, kv, loose@)) by {
        assert(raw_loose(m, tv, kv, with_key(all, os, Seq::empty()), rv));
    }
    proof {
        rv.to_multiset_ensures();
        loose@.to_multiset_ensures();
        assert forall|k: int| 0 <= k < loose@.len() implies listed(
            m.mesh.tris,
            (#[trigger] loose@[k]).selection.triangles@,
        ) by {
            assert(loose@.to_multiset().count(loose@[k]) > 0);
            assert(rv.contains(loose@[k]));
            let j = choose|j: int| 0 <= j < rv.len() && rv[j] == loose@[k];
            lemma_loose_listed(m, tv, kv, rest@, rv, j);
        }
    }
    let scene: Vec<ProvenanceFrame> = Vec::new();
    assert(path(scene@) =~= Seq::empty());
    let mut roots = children_in(&named, &scene);
    let ghost outer = positions(roots@);
    let ghost calls = components@;
    assert(Seq::new(0, |k: int| nv.len() + k) =~= Seq::<int>::empty());
    let mut k: usize = 0;
    while k < loose.len()
        invariant
            exact == structured.exact,
            table == structured.attributions,
            m == exact@,
            tv == surface_views(table@),
            attributed(m, tv),
            named@.len() == nv.len(),
            calls.len() == nv.len(),
            forall|k: int|
                0 <= k < loose@.len() ==> listed(
                    m.mesh.tris,
                    (#[trigger] loose@[k]).selection.triangles@,
                ),
            k <= loose@.len(),
            components@.len() == nv.len() + k,
            forall|i: int| 0 <= i < nv.len() ==> #[trigger] components@[i] == calls[i],
            forall|j: int|
                0 <= j < k ==> is_loose_component(
                    m,
                    tv,
                    loose@,
                    j,
                    #[trigger] components@[nv.len() + j],
                ),
            positions(roots@) =~= outer + Seq::new(k as nat, |k: int| nv.len() + k),
        decreases loose.len() - k,
    {
        let l = &loose[k];
        let ghost before = positions(roots@);
        roots.push(components.len());
        assert(positions(roots@) =~= before.push(nv.len() + k));
        let name = fallback_name(&loose, k);
        assert(listed(m.mesh.tris, loose@[k as int].selection.triangles@));
        let contributors = gather_contributors(exact, table, &l.selection.triangles);
        let mut primitives: Vec<Primitive> = Vec::new();
        primitives.push(Primitive { selection: copy_selection(&l.selection), material: l.material });
        let mut edge_groups: Vec<MeshSelection> = Vec::new();
        edge_groups.push(copy_selection(&l.selection));
        let ghost had = components@;
        components.push(
            Component {
                frame: None,
                children: Vec::new(),
                name,
                primitives,
                edge_groups,
                attribution: l.selection.attribution,
                contributors,
            },
        );
        proof {
            assert forall|j: int| 0 <= j < k + 1 implies is_loose_component(
                m,
                tv,
                loose@,
                j,
                #[trigger] components@[nv.len() + j],
            ) by {
                if j < k {
                    assert(components@[nv.len() + j] == had[nv.len() + j]);
                }
            }
        }
        k = k + 1;
    }
    let r = CompiledGlb { components, roots };
    proof {
        let cs = r.components@;
        let names_now = component_names(cs);
        assert forall|g: int| 0 <= g <= nv.len() implies #[trigger] group_named(
            nv,
            names_now,
            g,
        ) by {
            assert(group_named(nv, texts(names@), g));
            let sibs = children_of(nv, group_path(nv, g));
            lemma_children(nv, group_path(nv, g), nv.len() as int);
            assert forall|k: int| 0 <= k < sibs.len() implies names_now[#[trigger] sibs[k]]
                == numbered_name(sibling_bases(nv, sibs), k) by {
                let i = sibs[k];
                assert(cs[i] == calls[i]);
                assert(calls[i].name@ == names@[i]@);
                assert(texts(names@)[i] == names@[i]@);
            }
        }
        assert forall|i: int| 0 <= i < nv.len() implies is_call_component(
            m,
            tv,
            kv,
            nv,
            i,
            #[trigger] cs[i],
        ) by {
            assert(cs[i] == calls[i]);
        }
        assert(is_scene(m, tv, materials@, nv, loose@, r));
    }
    r
}

proof fn lemma_loose_listed(
    m: AttributedView,
    table: Seq<SurfaceView>,
    keys: Seq<MaterialKey>,
    list: Seq<u32>,
    raw: Seq<Loose>,
    j: int,
)
    requires
        listed(m.mesh.tris, list),
        raw_loose(m, table, keys, list, raw),
        0 <= j < raw.len(),
    ensures
        listed(m.mesh.tris, raw[j].selection.triangles@),
        raw[j].selection.triangles@.len() <= list.len(),
{
    let split = choose|split: Seq<(MaterialKey, Seq<u32>)>| #[trigger]
        is_split(list, keys, split) && made_loose(m, table, pieces(m, split), raw);
    lemma_pieces_listed(m, list, keys, split, j);
    let part = pieces(m, split)[j];
    crate::solid::lemma_listed_permuted(m.mesh.tris, part.1, raw[j].selection.triangles@);
    part.1.to_multiset_ensures();
    raw[j].selection.triangles@.to_multiset_ensures();
}

proof fn lemma_pieces_listed(
    m: AttributedView,
    list: Seq<u32>,
    keys: Seq<MaterialKey>,
    split: Seq<(MaterialKey, Seq<u32>)>,
    j: int,
)
    requires
        listed(m.mesh.tris, list),
        forall|i: int|
            0 <= i < split.len() ==> (#[trigger] split[i]).1 == with_key(list, keys, split[i].0),
        0 <= j < pieces(m, split).len(),
    ensures
        listed(m.mesh.tris, pieces(m, split)[j].1),
        pieces(m, split)[j].1.len() <= list.len(),
    decreases split.len(),
{
    if split.len() > 0 {
        let rest = split.drop_last();
        let before = pieces(m, rest);
        if j < before.len() {
            lemma_pieces_listed(m, list, keys, rest, j);
            assert(pieces(m, split)[j] == before[j]);
        } else {
            let b = split.last();
            assert(b == split[split.len() - 1]);
            lemma_with_key_listed(m.mesh.tris.len(), list, keys, b.0);
            let g = j - before.len();
            assert(pieces(m, split)[j] == bucket_pieces(m, b)[g]);
            lemma_members_listed(
                m.mesh.tris,
                b.1,
                labels(m.mesh.tris, b.1),
                m.mesh.tris.len() as int,
                g,
            );
            lemma_with_key_shorter(list, keys, b.0);
            lemma_groups_shorter(b.1, labels(m.mesh.tris, b.1), m.mesh.tris.len() as int, g);
        }
    }
}

proof fn lemma_with_key_shorter<K>(list: Seq<u32>, keys: Seq<K>, k: K)
    ensures
        with_key(list, keys, k).len() <= list.len(),
    decreases list.len(),
{
    reveal(Seq::filter);
    if list.len() > 0 {
        lemma_with_key_shorter(list.drop_last(), keys, k);
    }
}

pub(crate) proof fn lemma_groups_shorter(list: Seq<u32>, label: Seq<int>, n: int, g: int)
    requires
        0 <= g < groups(list, label, n).len(),
    ensures
        0 < groups(list, label, n)[g].len() <= list.len(),
    decreases n,
{
    broadcast use vstd::seq::Seq::lemma_filter_len;

    if n > 0 {
        let part = crate::components::members(list, label, n - 1);
        if !(part.len() > 0 && g == groups(list, label, n).len() - 1) {
            lemma_groups_shorter(list, label, n - 1, g);
        }
    }
}

/// The selection names triangles of the mesh, none too often.
pub open spec fn selection_fits(m: AttributedView, s: MeshSelection) -> bool {
    listed(m.mesh.tris, s.triangles@) && s.triangles@.len() <= m.mesh.tris.len()
}

/// All selections of a component fit the mesh.
pub open spec fn component_fits(m: AttributedView, c: Component) -> bool {
    &&& forall|i: int|
        0 <= i < c.primitives@.len() ==> selection_fits(m, (#[trigger] c.primitives@[i]).selection)
    &&& forall|i: int|
        0 <= i < c.edge_groups@.len() ==> selection_fits(m, #[trigger] c.edge_groups@[i])
}

proof fn lemma_selected_fits(
    m: AttributedView,
    table: Seq<SurfaceView>,
    list: Seq<u32>,
    s: MeshSelection,
)
    requires
        selects(m, table, list, s),
        listed(m.mesh.tris, list),
        list.len() <= m.mesh.tris.len(),
    ensures
        selection_fits(m, s),
{
    crate::solid::lemma_listed_permuted(m.mesh.tris, list, s.triangles@);
    list.to_multiset_ensures();
    s.triangles@.to_multiset_ensures();
}

/// The selections of a compiled scene fit its mesh.
pub proof fn lemma_scene_fits(
    m: AttributedView,
    table: Seq<SurfaceView>,
    materials: Seq<MaterialKey>,
    r: CompiledGlb,
)
    requires
        compiled(m, table, materials, r),
        m.mesh.tris.len() <= u32::MAX,
    ensures
        forall|i: int|
            0 <= i < r.components@.len() ==> component_fits(m, #[trigger] r.components@[i]),
{
    let (named, loose) = choose|named: Seq<Seq<FrameView>>, loose: Seq<Loose>| #[trigger]
        is_scene(m, table, materials, named, loose, r);
    let keys = triangle_materials(m, materials);
    let all = all_triangles(m.mesh.tris.len());
    let os = owners(m, table);
    let cs = r.components@;
    assert forall|i: int| 0 <= i < cs.len() implies component_fits(m, #[trigger] cs[i]) by {
        let c = cs[i];
        if i < named.len() {
            assert(is_call_component(m, table, keys, named, i, cs[i]));
            let list = with_key(all, os, named[i]);
            lemma_with_key_listed(m.mesh.tris.len(), all, os, named[i]);
            lemma_with_key_shorter(all, os, named[i]);
            let split = choose|split: Seq<(MaterialKey, Seq<u32>)>| #[trigger]
                is_split(list, keys, split) && made_primitives(m, table, split, c.primitives@);
            assert forall|k: int| 0 <= k < c.primitives@.len() implies selection_fits(
                m,
                (#[trigger] c.primitives@[k]).selection,
            ) by {
                assert(split[k].1 == with_key(list, keys, split[k].0));
                lemma_with_key_listed(m.mesh.tris.len(), list, keys, split[k].0);
                lemma_with_key_shorter(list, keys, split[k].0);
                lemma_selected_fits(m, table, split[k].1, c.primitives@[k].selection);
            }
            if list.len() > 0 {
                lemma_selected_fits(m, table, list, c.edge_groups@[0]);
            }
        } else {
            let k = i - named.len();
            assert(is_loose_component(m, table, loose, k, cs[named.len() + k]));
            let none = Seq::<FrameView>::empty();
            let list = with_key(all, os, none);
            lemma_with_key_listed(m.mesh.tris.len(), all, os, none);
            lemma_with_key_shorter(all, os, none);
            let raw = choose|raw: Seq<Loose>| #[trigger]
                raw_loose(m, table, keys, list, raw) && raw.to_multiset() =~= loose.to_multiset();
            raw.to_multiset_ensures();
            loose.to_multiset_ensures();
            assert(loose.to_multiset().count(loose[k]) > 0);
            assert(raw.contains(loose[k]));
            let j = choose|j: int| 0 <= j < raw.len() && raw[j] == loose[k];
            lemma_loose_listed(m, table, keys, list, raw, j);
        }
    }
}

/// Cuts a scene into components.
pub fn compile_glb<A: Arithmetic>(calc: &mut Calc<A>, structured: &StructuredMesh) -> (r: CompiledGlb)
    requires
        structured.exact.mesh@.indexed(),
        structured.exact.mesh.tris@.len() <= u32::MAX,
        attributed(structured.exact@, surface_views(structured.attributions@)),
    ensures
        forall|m: Reading| #[trigger]
            final(calc).agrees(m) ==> old(calc).agrees(m) && compiled(
                structured.exact@,
                surface_views(structured.attributions@),
                materials_of(m, surface_views(structured.attributions@)),
                r,
            ),
{
    let keys = materials(calc, &structured.attributions);
    compile_with(structured, &keys)
}

} // verus!
