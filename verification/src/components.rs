//! Connected components of triangles that share vertices.

use crate::mesh::{Mesh, Triangle};
use crate::unionfind::{law_union_merges_exactly, SetsView, UnionFind};
use std::collections::HashMap;
use vstd::prelude::*;

verus! {

broadcast use vstd::std_specs::hash::group_hash_axioms;

/// The sets of joined triangles, and for each vertex the triangle that named it
/// last.
pub struct Links {
    pub sets: SetsView,
    pub last: Map<u32, int>,
}

/// Joins triangle `t` to the triangle that named vertex `v` before.
pub open spec fn link_vertex(l: Links, v: u32, t: int) -> Links {
    Links {
        sets: if l.last.contains_key(v) {
            l.sets.joined(l.last[v], t)
        } else {
            l.sets
        },
        last: l.last.insert(v, t),
    }
}

/// Joins triangle `t` through each of its corners.
pub open spec fn link_triangle(l: Links, tri: Triangle, t: int) -> Links {
    link_vertex(link_vertex(link_vertex(l, tri.a, t), tri.b, t), tri.c, t)
}

/// The links after the first `i` listed triangles.
pub open spec fn linked(tris: Seq<Triangle>, list: Seq<u32>, i: int) -> Links
    decreases i,
{
    if i <= 0 {
        Links { sets: SetsView::singletons(tris.len()), last: Map::empty() }
    } else {
        link_triangle(
            linked(tris, list, i - 1),
            tris[list[i - 1] as int],
            list[i - 1] as int,
        )
    }
}

/// The listed triangles whose set has this representative, in list order.
pub open spec fn members(list: Seq<u32>, label: Seq<int>, l: int) -> Seq<u32> {
    list.filter(|t: u32| label[t as int] == l)
}

/// The non-empty sets with a representative below `n`, by representative.
pub open spec fn groups(list: Seq<u32>, label: Seq<int>, n: int) -> Seq<Seq<u32>>
    decreases n,
{
    if n <= 0 {
        Seq::empty()
    } else if members(list, label, n - 1).len() == 0 {
        groups(list, label, n - 1)
    } else {
        groups(list, label, n - 1).push(members(list, label, n - 1))
    }
}

/// Every listed triangle exists.
pub open spec fn listed(tris: Seq<Triangle>, list: Seq<u32>) -> bool {
    forall|i: int| 0 <= i < list.len() ==> #[trigger] list[i] < tris.len()
}

/// The representative of each triangle after all listed ones are linked.
pub open spec fn labels(tris: Seq<Triangle>, list: Seq<u32>) -> Seq<int> {
    linked(tris, list, list.len() as int).sets.label
}

/// The contents of a list of index lists.
pub open spec fn lists(v: Seq<Vec<u32>>) -> Seq<Seq<u32>> {
    v.map_values(|l: Vec<u32>| l@)
}

/// What the executable maps hold of the links.
spec fn matches_links(u: UnionFind, last: Map<u32, usize>, l: Links) -> bool {
    &&& u@ == l.sets
    &&& last.dom() =~= l.last.dom()
    &&& forall|v: u32| #[trigger] last.contains_key(v) ==> last[v] as int == l.last[v]
}

fn link_corner(u: &mut UnionFind, last: &mut HashMap<u32, usize>, v: u32, t: usize, Ghost(l): Ghost<Links>)
    requires
        old(u).wf(),
        matches_links(*old(u), old(last)@, l),
        t < old(u).size(),
        forall|w: u32| #[trigger] old(last)@.contains_key(w) ==> old(last)@[w] < old(u).size(),
    ensures
        final(u).wf(),
        matches_links(*final(u), final(last)@, link_vertex(l, v, t as int)),
        final(u).size() == old(u).size(),
        forall|w: u32| #[trigger]
            final(last)@.contains_key(w) ==> final(last)@[w] < final(u).size(),
{
    if let Some(first) = last.insert(v, t) {
        u.union(first, t);
    }
}

/// Joins the listed triangles that share a vertex.
fn link_all(mesh: &Mesh, triangles: &Vec<u32>) -> (r: UnionFind)
    requires
        listed(mesh.tris@, triangles@),
    ensures
        r.wf(),
        r.size() == mesh.tris@.len(),
        r@.label == labels(mesh.tris@, triangles@),
{
    let n: usize = mesh.tris.len();
    let mut u = UnionFind::new(n);
    let mut last: HashMap<u32, usize> = HashMap::new();
    let ghost tris = mesh.tris@;
    for i in 0..triangles.len()
        invariant
            n == mesh.tris@.len(),
            tris == mesh.tris@,
            listed(tris, triangles@),
            u.wf(),
            u.size() == n,
            matches_links(u, last@, linked(tris, triangles@, i as int)),
            forall|w: u32| #[trigger] last@.contains_key(w) ==> last@[w] < n,
    {
        let t: usize = triangles[i] as usize;
        let ghost l0 = linked(tris, triangles@, i as int);
        assert(triangles@[i as int] < tris.len());
        let tri = mesh.tris[t];
        link_corner(&mut u, &mut last, tri.a, t, Ghost(l0));
        link_corner(&mut u, &mut last, tri.b, t, Ghost(link_vertex(l0, tri.a, t as int)));
        link_corner(
            &mut u,
            &mut last,
            tri.c,
            t,
            Ghost(link_vertex(link_vertex(l0, tri.a, t as int), tri.b, t as int)),
        );
        assert(linked(tris, triangles@, i + 1) == link_triangle(l0, tri, t as int));
    }
    u
}

/// The representative of each triangle after all listed ones are linked.
pub fn triangle_labels(mesh: &Mesh, triangles: &Vec<u32>) -> (r: Vec<usize>)
    requires
        listed(mesh.tris@, triangles@),
    ensures
        r@.len() == mesh.tris@.len(),
        forall|t: int|
            0 <= t < r@.len() ==> (#[trigger] r@[t]) as int == labels(mesh.tris@, triangles@)[t]
                && r@[t] < r@.len(),
{
    let n: usize = mesh.tris.len();
    let mut u = link_all(mesh, triangles);
    let ghost label = labels(mesh.tris@, triangles@);
    let mut out: Vec<usize> = Vec::new();
    let mut t: usize = 0;
    while t < n
        invariant
            u.wf(),
            u.size() == n,
            u@.label == label,
            t <= n,
            out@.len() == t,
            forall|k: int| 0 <= k < t ==> (#[trigger] out@[k]) as int == label[k] && out@[k] < n,
        decreases n - t,
    {
        out.push(u.find(t));
        t = t + 1;
    }
    out
}

/// The components of the listed triangles: triangles that share a vertex are
/// together. Components come by representative, and keep the list's order.
pub fn components_for_triangles(mesh: &Mesh, triangles: &Vec<u32>) -> (r: Vec<Vec<u32>>)
    requires
        listed(mesh.tris@, triangles@),
    ensures
        lists(r@) == groups(
            triangles@,
            labels(mesh.tris@, triangles@),
            mesh.tris@.len() as int,
        ),
{
    let n: usize = mesh.tris.len();
    let mut u = link_all(mesh, triangles);
    let ghost tris = mesh.tris@;
    let ghost label = labels(tris, triangles@);
    let mut buckets: Vec<Vec<u32>> = Vec::new();
    for l in 0..n
        invariant
            buckets@.len() == l,
            forall|k: int| 0 <= k < l ==> (#[trigger] buckets@[k])@.len() == 0,
    {
        buckets.push(Vec::new());
    }
    proof {
        assert forall|k: int| 0 <= k < n implies (#[trigger] buckets@[k])@ == members(
            triangles@.take(0),
            label,
            k,
        ) by {
            reveal(Seq::filter);
            assert(buckets@[k]@ =~= members(triangles@.take(0), label, k));
        }
    }
    for i in 0..triangles.len()
        invariant
            n == tris.len(),
            listed(tris, triangles@),
            u.wf(),
            u.size() == n,
            u@.label == label,
            buckets@.len() == n,
            forall|k: int|
                0 <= k < n ==> (#[trigger] buckets@[k])@ == members(
                    triangles@.take(i as int),
                    label,
                    k,
                ),
    {
        let t: u32 = triangles[i];
        assert(triangles@[i as int] < tris.len());
        let l: usize = u.find(t as usize);
        let ghost before = buckets@;
        let mut b: Vec<u32> = Vec::new();
        std::mem::swap(&mut b, &mut buckets[l]);
        b.push(t);
        buckets.set(l, b);
        proof {
            assert forall|k: int| 0 <= k < n implies (#[trigger] buckets@[k])@ == members(
                triangles@.take(i + 1),
                label,
                k,
            ) by {
                reveal(Seq::filter);
                let s = triangles@.take(i + 1);
                assert(s.drop_last() =~= triangles@.take(i as int));
                assert(s.last() == t);
                assert(before[k]@ == members(triangles@.take(i as int), label, k));
            }
        }
    }
    assert(triangles@.take(triangles@.len() as int) =~= triangles@);
    let mut rev: Vec<Vec<u32>> = Vec::new();
    let mut out: Vec<Vec<u32>> = Vec::new();
    // Taken from the back, then turned round.
    while buckets.len() > 0
        invariant
            buckets@.len() + rev@.len() == n,
            forall|k: int|
                0 <= k < buckets@.len() ==> (#[trigger] buckets@[k])@ == members(
                    triangles@,
                    label,
                    k,
                ),
            forall|k: int|
                0 <= k < rev@.len() ==> (#[trigger] rev@[k])@ == members(
                    triangles@,
                    label,
                    n - 1 - k,
                ),
        decreases buckets.len(),
    {
        if let Some(b) = buckets.pop() {
            rev.push(b);
        }
    }
    assert(lists(out@) =~= groups(triangles@, label, 0));
    while rev.len() > 0
        invariant
            rev@.len() <= n,
            forall|k: int|
                0 <= k < rev@.len() ==> (#[trigger] rev@[k])@ == members(
                    triangles@,
                    label,
                    n - 1 - k,
                ),
            lists(out@) =~= groups(triangles@, label, n - rev@.len()),
        decreases rev.len(),
    {
        let ghost at = n - rev@.len();
        let ghost before = out@;
        if let Some(b) = rev.pop() {
            assert(b@ == members(triangles@, label, at));
            if b.len() > 0 {
                out.push(b);
                assert(lists(out@) =~= lists(before).push(members(triangles@, label, at)));
            }
        }
    }
    out
}

// ---- what the components are -------------------------------------------------------

/// `v` is a corner of the triangle.
pub open spec fn corner(t: Triangle, v: u32) -> bool {
    v == t.a || v == t.b || v == t.c
}

/// Two listed triangles share the vertex `v`.
pub open spec fn meet_at(tris: Seq<Triangle>, list: Seq<u32>, a: int, b: int, v: u32) -> bool {
    &&& 0 <= a < tris.len() && list.contains(a as u32)
    &&& 0 <= b < tris.len() && list.contains(b as u32)
    &&& corner(tris[a], v)
    &&& corner(tris[b], v)
}

/// Two listed triangles share a vertex.
pub open spec fn touching(tris: Seq<Triangle>, list: Seq<u32>, a: int, b: int) -> bool {
    exists|v: u32| #[trigger] meet_at(tris, list, a, b, v)
}

/// Each triangle on the way touches the next.
pub open spec fn chain(tris: Seq<Triangle>, list: Seq<u32>, way: Seq<int>) -> bool {
    &&& way.len() > 0
    &&& forall|i: int| 0 <= i < way.len() - 1 ==> touching(tris, list, #[trigger] way[i], way[i + 1])
}

/// A way leads from `a` to `b`.
pub open spec fn leads(
    tris: Seq<Triangle>,
    list: Seq<u32>,
    way: Seq<int>,
    a: int,
    b: int,
) -> bool {
    chain(tris, list, way) && way[0] == a && way.last() == b
}

/// Some way of touching triangles leads from `a` to `b`.
pub open spec fn connected(tris: Seq<Triangle>, list: Seq<u32>, a: int, b: int) -> bool {
    exists|way: Seq<int>| #[trigger] leads(tris, list, way, a, b)
}

proof fn lemma_connected_self(tris: Seq<Triangle>, list: Seq<u32>, a: int)
    ensures
        connected(tris, list, a, a),
{
    assert(leads(tris, list, seq![a], a, a));
}

proof fn lemma_connected_back(tris: Seq<Triangle>, list: Seq<u32>, a: int, b: int)
    requires
        connected(tris, list, a, b),
    ensures
        connected(tris, list, b, a),
{
    let way = choose|way: Seq<int>| #[trigger] leads(tris, list, way, a, b);
    let back = way.reverse();
    assert forall|i: int| 0 <= i < back.len() - 1 implies touching(
        tris,
        list,
        #[trigger] back[i],
        back[i + 1],
    ) by {
        let j = way.len() - 2 - i;
        assert(touching(tris, list, way[j], way[j + 1]));
        let v = choose|v: u32| #[trigger] meet_at(tris, list, way[j], way[j + 1], v);
        assert(meet_at(tris, list, back[i], back[i + 1], v));
    }
    assert(leads(tris, list, back, b, a));
}

proof fn lemma_connected_on(tris: Seq<Triangle>, list: Seq<u32>, a: int, b: int, c: int)
    requires
        connected(tris, list, a, b),
        connected(tris, list, b, c),
    ensures
        connected(tris, list, a, c),
{
    let p = choose|way: Seq<int>| #[trigger] leads(tris, list, way, a, b);
    let q = choose|way: Seq<int>| #[trigger] leads(tris, list, way, b, c);
    let way = p + q.skip(1);
    assert forall|i: int| 0 <= i < way.len() - 1 implies touching(
        tris,
        list,
        #[trigger] way[i],
        way[i + 1],
    ) by {
        if i < p.len() - 1 {
            assert(touching(tris, list, p[i], p[i + 1]));
        } else {
            let j = i - (p.len() - 1);
            assert(way[i] == q[j]);
            assert(way[i + 1] == q[j + 1]);
            assert(touching(tris, list, q[j], q[j + 1]));
        }
    }
    assert(leads(tris, list, way, a, c));
}

/// Only connected triangles are together, and each vertex is remembered with a
/// listed triangle that has it.
spec fn sound(tris: Seq<Triangle>, list: Seq<u32>, l: Links) -> bool {
    &&& l.sets.wf()
    &&& l.sets.label.len() == tris.len()
    &&& forall|a: int, b: int|
        #![trigger l.sets.label[a], l.sets.label[b]]
        0 <= a < tris.len() && 0 <= b < tris.len() && l.sets.label[a] == l.sets.label[b]
            ==> connected(tris, list, a, b)
    &&& forall|v: u32| #[trigger]
        l.last.contains_key(v) ==> 0 <= l.last[v] < tris.len() && list.contains(l.last[v] as u32)
            && corner(tris[l.last[v]], v)
}

/// Each triangle in `done` is together with the one remembered for the vertex.
spec fn complete(l: Links, done: Set<(int, u32)>) -> bool {
    forall|x: int, v: u32| #[trigger]
        done.contains((x, v)) ==> l.last.contains_key(v) && 0 <= x < l.sets.label.len()
            && l.sets.label[x] == l.sets.label[l.last[v]]
}

proof fn lemma_link_vertex(
    tris: Seq<Triangle>,
    list: Seq<u32>,
    l: Links,
    v: u32,
    t: int,
    done: Set<(int, u32)>,
)
    requires
        sound(tris, list, l),
        complete(l, done),
        0 <= t < tris.len(),
        list.contains(t as u32),
        corner(tris[t], v),
    ensures
        sound(tris, list, link_vertex(l, v, t)),
        complete(link_vertex(l, v, t), done.insert((t, v))),
{
    let m = link_vertex(l, v, t);
    if l.last.contains_key(v) {
        let p = l.last[v];
        assert(meet_at(tris, list, p, t, v));
        assert(touching(tris, list, p, t));
        assert(leads(tris, list, seq![p, t], p, t));
        lemma_connected_back(tris, list, p, t);
        law_union_merges_exactly(l.sets, p, t, p, t);
        assert forall|a: int, b: int|
            #![trigger m.sets.label[a], m.sets.label[b]]
            0 <= a < tris.len() && 0 <= b < tris.len() && m.sets.label[a]
                == m.sets.label[b] implies connected(tris, list, a, b) by {
            law_union_merges_exactly(l.sets, p, t, a, b);
            let (la, lb, lp, lt) = (
                l.sets.label[a],
                l.sets.label[b],
                l.sets.label[p],
                l.sets.label[t],
            );
            if la == lb {
            } else if la == lp && lb == lt {
                lemma_connected_on(tris, list, a, p, t);
                lemma_connected_on(tris, list, a, t, b);
            } else {
                lemma_connected_on(tris, list, a, t, p);
                lemma_connected_on(tris, list, a, p, b);
            }
        }
        assert forall|x: int, w: u32| #[trigger]
            done.insert((t, v)).contains((x, w)) implies m.last.contains_key(w) && 0 <= x
            < m.sets.label.len() && m.sets.label[x] == m.sets.label[m.last[w]] by {
            if (x, w) == (t, v) {
            } else {
                assert(done.contains((x, w)));
                law_union_merges_exactly(l.sets, p, t, x, l.last[w]);
                if w == v {
                    law_union_merges_exactly(l.sets, p, t, x, t);
                }
            }
        }
    } else {
        assert forall|x: int, w: u32| #[trigger]
            done.insert((t, v)).contains((x, w)) implies m.last.contains_key(w) && 0 <= x
            < m.sets.label.len() && m.sets.label[x] == m.sets.label[m.last[w]] by {
            if (x, w) != (t, v) {
                assert(done.contains((x, w)));
            }
        }
    }
}

/// The corners of the first `i` listed triangles.
spec fn corners_of(tris: Seq<Triangle>, list: Seq<u32>, i: int) -> Set<(int, u32)>
    decreases i,
{
    if i <= 0 {
        Set::empty()
    } else {
        let t = list[i - 1] as int;
        corners_of(tris, list, i - 1).insert((t, tris[t].a)).insert((t, tris[t].b)).insert(
            (t, tris[t].c),
        )
    }
}

proof fn lemma_corners_of(tris: Seq<Triangle>, list: Seq<u32>, i: int, j: int, v: u32)
    requires
        0 <= j < i <= list.len(),
        corner(tris[list[j] as int], v),
    ensures
        corners_of(tris, list, i).contains((list[j] as int, v)),
    decreases i,
{
    if j < i - 1 {
        lemma_corners_of(tris, list, i - 1, j, v);
    }
}

proof fn lemma_linked(tris: Seq<Triangle>, list: Seq<u32>, i: int)
    requires
        listed(tris, list),
        0 <= i <= list.len(),
    ensures
        sound(tris, list, linked(tris, list, i)),
        complete(linked(tris, list, i), corners_of(tris, list, i)),
    decreases i,
{
    if i == 0 {
        let l = linked(tris, list, 0);
        assert forall|a: int, b: int|
            #![trigger l.sets.label[a], l.sets.label[b]]
            0 <= a < tris.len() && 0 <= b < tris.len() && l.sets.label[a]
                == l.sets.label[b] implies connected(tris, list, a, b) by {
            lemma_connected_self(tris, list, a);
        }
    } else {
        lemma_linked(tris, list, i - 1);
        let l = linked(tris, list, i - 1);
        let t = list[i - 1] as int;
        let tri = tris[t];
        let d = corners_of(tris, list, i - 1);
        assert(list[i - 1] < tris.len());
        lemma_link_vertex(tris, list, l, tri.a, t, d);
        let l1 = link_vertex(l, tri.a, t);
        let d1 = d.insert((t, tri.a));
        lemma_link_vertex(tris, list, l1, tri.b, t, d1);
        let l2 = link_vertex(l1, tri.b, t);
        let d2 = d1.insert((t, tri.b));
        lemma_link_vertex(tris, list, l2, tri.c, t, d2);
    }
}

proof fn lemma_chain_together(tris: Seq<Triangle>, list: Seq<u32>, way: Seq<int>)
    requires
        listed(tris, list),
        tris.len() <= u32::MAX,
        chain(tris, list, way),
    ensures
        labels(tris, list)[way[0]] == labels(tris, list)[way.last()],
    decreases way.len(),
{
    if way.len() > 1 {
        let front = way.drop_last();
        assert forall|i: int| 0 <= i < front.len() - 1 implies touching(
            tris,
            list,
            #[trigger] front[i],
            front[i + 1],
        ) by {
            assert(touching(tris, list, way[i], way[i + 1]));
        }
        lemma_chain_together(tris, list, front);
        let k = way.len() - 2;
        assert(touching(tris, list, way[k], way[k + 1]));
        let v = choose|v: u32| #[trigger] meet_at(tris, list, way[k], way[k + 1], v);
        let n = list.len() as int;
        lemma_linked(tris, list, n);
        let i = choose|i: int| 0 <= i < list.len() && list[i] == way[k] as u32;
        let j = choose|j: int| 0 <= j < list.len() && list[j] == way[k + 1] as u32;
        assert(list[i] < tris.len() && list[j] < tris.len());
        lemma_corners_of(tris, list, n, i, v);
        lemma_corners_of(tris, list, n, j, v);
        assert(corners_of(tris, list, n).contains((list[i] as int, v)));
        assert(corners_of(tris, list, n).contains((list[j] as int, v)));
    }
}

/// Two listed triangles are in one component exactly when a chain of listed
/// triangles, each sharing a vertex with the next, leads from one to the other.
pub proof fn law_components_are_connectivity(tris: Seq<Triangle>, list: Seq<u32>, a: int, b: int)
    requires
        listed(tris, list),
        tris.len() <= u32::MAX,
        0 <= a < tris.len(),
        0 <= b < tris.len(),
    ensures
        labels(tris, list)[a] == labels(tris, list)[b] <==> connected(tris, list, a, b),
{
    lemma_linked(tris, list, list.len() as int);
    if connected(tris, list, a, b) {
        let way = choose|way: Seq<int>| #[trigger] leads(tris, list, way, a, b);
        lemma_chain_together(tris, list, way);
    }
}

proof fn lemma_groups(list: Seq<u32>, label: Seq<int>, n: int, t: u32)
    requires
        list.contains(t),
        0 <= label[t as int] < n,
    ensures
        exists|g: int| #![trigger groups(list, label, n)[g]]
            0 <= g < groups(list, label, n).len() && groups(list, label, n)[g].contains(t)
                && groups(list, label, n)[g] == members(list, label, label[t as int]),
    decreases n,
{
    let l = n - 1;
    let p = |x: u32| label[x as int] == l;
    broadcast use vstd::seq_lib::group_filter_ensures;

    if label[t as int] == l {
        let i = choose|i: int| 0 <= i < list.len() && list[i] == t;
        list.lemma_filter_contains(p, i);
        assert(members(list, label, l).contains(t));
        let g = groups(list, label, n).len() - 1;
        assert(groups(list, label, n)[g] == members(list, label, l));
    } else {
        lemma_groups(list, label, n - 1, t);
        let g = choose|g: int| #![trigger groups(list, label, n - 1)[g]]
            0 <= g < groups(list, label, n - 1).len() && groups(list, label, n - 1)[g].contains(t)
                && groups(list, label, n - 1)[g] == members(list, label, label[t as int]);
        assert(groups(list, label, n)[g] == groups(list, label, n - 1)[g]);
    }
}

/// Every listed triangle is in a component: the one of all listed triangles that
/// are together with it.
pub proof fn law_components_cover(tris: Seq<Triangle>, list: Seq<u32>, t: u32)
    requires
        listed(tris, list),
        list.contains(t),
    ensures
        exists|g: int|
            #![trigger groups(list, labels(tris, list), tris.len() as int)[g]]
            {
                let all = groups(list, labels(tris, list), tris.len() as int);
                0 <= g < all.len() && all[g].contains(t) && all[g] == members(
                    list,
                    labels(tris, list),
                    labels(tris, list)[t as int],
                )
            },
{
    lemma_linked(tris, list, list.len() as int);
    let i = choose|i: int| 0 <= i < list.len() && list[i] == t;
    assert(list[i] < tris.len());
    let label = labels(tris, list);
    assert(0 <= label[t as int] < tris.len());
    lemma_groups(list, label, tris.len() as int, t);
}

} // verus!
