//! Rendering a whole scene: its surfaces, its solids, and what is to be
//! reported.

use crate::blob::texts;
use crate::error::{GeomError, GeomFault};
use crate::mesh::{Mesh, MeshView};
use crate::node::Node;
use crate::num::{Arithmetic, Reading};
use crate::rank::{ascending, sorted, Ranked};
use crate::relation::AttributedView;
use crate::scene::{
    concatenate_scene, concatenated, meshed, render_relation, sc, too_many, Active, active_of,
    Answers, Ask, Geometry, Out, Reply, Scene, St,
};
use crate::solid::{partition, partition_fault, partitioned, StructuredMesh};
use crate::surfaces::{surface_views, ActiveSurface, DisplayMode, Rgba};
use crate::text::{code, lemma_dictionary_antisymmetric, same_text, text_le};
use vstd::prelude::*;

verus! {

// ---- reports -------------------------------------------------------------------------------

/// `r` lists the texts of `from` in order, each once.
pub open spec fn arranged(from: Seq<Seq<char>>, r: Seq<Seq<char>>) -> bool {
    &&& forall|p: Seq<char>| #[trigger] r.contains(p) <==> from.contains(p)
    &&& forall|i: int, j: int|
        #![trigger r[i], r[j]]
        0 <= i < j < r.len() ==> text_le(r[i], r[j]) && r[i] != r[j]
}

proof fn lemma_sorted_texts(a: Seq<String>, b: Seq<String>, p: Seq<char>)
    requires
        a.to_multiset() =~= b.to_multiset(),
    ensures
        texts(a).contains(p) <==> texts(b).contains(p),
{
    a.to_multiset_ensures();
    b.to_multiset_ensures();
    if texts(a).contains(p) {
        let i = choose|i: int| 0 <= i < texts(a).len() && texts(a)[i] == p;
        assert(a.to_multiset().count(a[i]) > 0);
        assert(b.contains(a[i]));
        let j = choose|j: int| 0 <= j < b.len() && b[j] == a[i];
        assert(texts(b)[j] == p);
    }
    if texts(b).contains(p) {
        let i = choose|i: int| 0 <= i < texts(b).len() && texts(b)[i] == p;
        assert(b.to_multiset().count(b[i]) > 0);
        assert(a.contains(b[i]));
        let j = choose|j: int| 0 <= j < a.len() && a[j] == b[i];
        assert(texts(a)[j] == p);
    }
}

/// Lists texts in order, each once.
pub fn arrange_texts(list: Vec<String>) -> (r: Vec<String>)
    ensures
        arranged(texts(list@), texts(r@)),
{
    let ghost before = list@;
    let in_order = sorted(list);
    let ghost all = texts(in_order@);
    let mut out: Vec<String> = Vec::new();
    let mut i: usize = 0;
    assert(all.take(0) =~= Seq::empty());
    while i < in_order.len()
        invariant
            ascending(in_order@),
            all == texts(in_order@),
            i <= in_order@.len(),
            forall|p: Seq<char>| #[trigger]
                texts(out@).contains(p) <==> all.take(i as int).contains(p),
            forall|a: int, b: int|
                #![trigger texts(out@)[a], texts(out@)[b]]
                0 <= a < b < out@.len() ==> text_le(texts(out@)[a], texts(out@)[b]) && texts(
                    out@,
                )[a] != texts(out@)[b],
            out@.len() > 0 <==> i > 0,
            i > 0 ==> texts(out@).last() == all[i - 1],
        decreases in_order.len() - i,
    {
        let c = &in_order[i];
        let ghost cv = c@;
        assert(all[i as int] == cv);
        let ghost held = texts(out@);
        let fresh: bool = if out.len() == 0 {
            true
        } else {
            !same_text(out[out.len() - 1].as_str(), c.as_str())
        };
        proof {
            assert forall|a: int| 0 <= a < held.len() implies text_le(#[trigger] held[a], cv) by {
                assert(held.contains(held[a]));
                let k = choose|k: int| 0 <= k < all.take(i as int).len() && all.take(i as int)[k]
                    == held[a];
                assert(in_order@[k].rank_le(&in_order@[i as int]));
                assert(all[k] == held[a]);
            }
            if fresh && held.len() > 0 {
                assert forall|a: int| 0 <= a < held.len() implies #[trigger] held[a] != cv by {
                    if held[a] == cv {
                        let last = held.len() - 1;
                        assert(held[last] != cv);
                        assert(text_le(held[a], held[last]));
                        assert(text_le(held[last], cv));
                        lemma_dictionary_antisymmetric(held[last], cv, code());
                    }
                }
            }
        }
        if fresh {
            out.push(c.as_str().to_owned());
            assert(texts(out@) =~= held.push(cv));
        }
        proof {
            let t = all.take(i + 1);
            assert(t =~= all.take(i as int).push(cv));
            assert forall|p: Seq<char>| #[trigger] texts(out@).contains(p) <==> t.contains(p) by {
                crate::surfaces::lemma_push_contains(held, cv, p);
                crate::surfaces::lemma_push_contains(all.take(i as int), cv, p);
                if !fresh {
                    assert(held.last() == cv);
                    assert(held.contains(cv));
                }
            }
        }
        i = i + 1;
    }
    assert(all.take(in_order@.len() as int) =~= all);
    proof {
        assert forall|p: Seq<char>| #[trigger] texts(out@).contains(p) <==> texts(before).contains(
            p,
        ) by {
            lemma_sorted_texts(in_order@, before, p);
        }
    }
    out
}

// ---- the whole scene ---------------------------------------------------------------------------

/// What is active at the root of a scene.
pub open spec fn at_root(color: Rgba) -> Active {
    Active {
        rgba: color,
        color_explicit: false,
        mode: DisplayMode::Solid,
        provenance: Seq::empty(),
    }
}

/// A scene, and what is to be reported of it.
pub struct Structured {
    pub mesh: StructuredMesh,
    pub warnings: Vec<String>,
    pub errors: Vec<String>,
}

/// Nothing gathered yet.
pub open spec fn unrendered() -> St {
    St { table: Seq::empty(), next: 0, errors: Seq::empty() }
}

/// The mesh of the whole tree.
pub open spec fn aggregate_of(a: Answers, node: Node) -> Result<MeshView, GeomFault> {
    match a(Ask::Render(node)) {
        Reply::Mesh(r) => r,
        _ => Err(GeomFault::Invariant(Seq::empty())),
    }
}

/// What the scene is made of, or why it cannot be: all meshes side by side, and
/// beside them the mesh of the whole tree.
pub open spec fn assembled(a: Answers, o: Out, node: Node) -> Result<
    (AttributedView, MeshView),
    GeomFault,
> {
    match o.r {
        Err(f) => Err(f),
        Ok(ms) => match concatenated(ms) {
            Err(f) => Err(f),
            Ok(whole) => match aggregate_of(a, node) {
                Err(f) => Err(f),
                Ok(aggregate) => if whole.attributed.mesh.tris.len() > u32::MAX {
                    Err(too_many("triangles"@))
                } else {
                    match partition_fault(whole.attributed, o.st.table) {
                        Some(why) => Err(GeomFault::Invariant(why)),
                        None => Ok((whole.attributed, aggregate)),
                    }
                },
            },
        },
    }
}

/// `r` is the scene of a node.
pub open spec fn is_structured(
    m: Reading,
    a: Answers,
    color: Rgba,
    shown: bool,
    node: Node,
    r: Result<Structured, GeomError>,
) -> bool {
    let o = sc(m, a, unrendered(), shown, at_root(color), node);
    match assembled(a, o, node) {
        Err(f) => r matches Err(e) && e@ == f,
        Ok((exact, aggregate)) => r matches Ok(s) && {
            &&& s.mesh.exact@ == exact
            &&& s.mesh.aggregate@ == aggregate
            &&& s.mesh.include_display_modes == shown
            &&& surface_views(s.mesh.attributions@) == o.st.table
            &&& partitioned(exact, o.st.table, s.mesh.solid_components@)
            &&& a(Ask::Reports) matches Reply::Reports(warnings, errors) && arranged(
                warnings,
                texts(s.warnings@),
            ) && arranged(errors + o.st.errors, texts(s.errors@))
        },
    }
}

/// Renders a scene: every triangle with its surface and its patch, split into
/// solids, and what is to be reported, in order and without repeats.
pub fn render_structured_with<G: Geometry, A: Arithmetic>(
    s: &mut Scene<G, A>,
    color: Rgba,
    node: &Node,
) -> (r: Result<Structured, GeomError>)
    requires
        old(s).st() == unrendered(),
    ensures
        forall|m: Reading, a: Answers|
            #![trigger final(s).calc.agrees(m), final(s).log.agrees(a)]
            final(s).calc.agrees(m) && final(s).log.agrees(a) ==> old(s).calc.agrees(m) && old(
                s,
            ).log.agrees(a) && is_structured(m, a, color, old(s).shown, *node, r),
{
    let shown = s.shown;
    let root = ActiveSurface {
        rgba: color,
        color_explicit: false,
        mode: DisplayMode::Solid,
        provenance: Vec::new(),
    };
    proof {
        assert(active_of(root).provenance =~= Seq::empty());
        assert(active_of(root) == at_root(color));
        assert(s.table@ =~= Seq::empty());
        assert(s.table.wf());
    }
    let meshes = match render_relation(s, &root, node) {
        Ok(v) => v,
        Err(e) => return Err(e),
    };
    let ghost o_table = s.table@;
    let whole = match concatenate_scene(&meshes, Ghost(s.table@.len())) {
        Ok(m) => m,
        Err(e) => return Err(e),
    };
    let answer = s.host.render(node);
    let ghost q = Ask::Render(*node);
    let ghost said = Reply::Mesh(meshed(answer));
    s.log.note(Ghost(q), Ghost(said));
    let aggregate = match answer {
        Ok(mesh) => mesh,
        Err(e) => return Err(e),
    };
    if whole.attributed.mesh.tris.len() > 0xffff_ffff {
        return Err(crate::scene::many("triangles"));
    }
    let mut attributions = Vec::new();
    std::mem::swap(&mut attributions, &mut s.table.values);
    let mesh = match partition(whole.attributed, aggregate, shown, attributions) {
        Ok(mesh) => mesh,
        Err(e) => return Err(e),
    };
    let (warnings, reported) = s.host.reports();
    let ghost said2 = Reply::Reports(texts(warnings@), texts(reported@));
    s.log.note(Ghost(Ask::Reports), Ghost(said2));
    let ghost own = texts(s.errors@);
    let ghost theirs = texts(reported@);
    let mut errors = reported;
    errors.append(&mut s.errors);
    assert(texts(errors@) =~= theirs + own);
    Ok(Structured { mesh, warnings: arrange_texts(warnings), errors: arrange_texts(errors) })
}

} // verus!
