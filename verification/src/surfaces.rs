//! The surfaces of a scene: appearance, owner and contributors, interned into a
//! table.

use crate::provenance::{
    authored, authored_path, copy_path, is_common_prefix, law_common_prefix_unique,
    lemma_path_le_antisymmetric, lemma_strict_unique, longest_common_prefix, path, path_le, paths,
    same_path, same_paths, strictly_ascending, FrameView, ProvenanceFrame,
};
use crate::rank::{ascending, sorted, Ranked};
use crate::relation::SurfaceAttributionId;
use vstd::prelude::*;

verus! {

/// How a part is displayed.
#[derive(Clone, Copy, Debug, PartialEq, Eq, Structural)]
pub enum DisplayMode {
    Solid,
    Highlight,
    Background,
}

/// How a surface came about.
#[derive(Clone, Copy, Debug, PartialEq, Eq, Structural)]
pub enum ContributionKind {
    Boundary,
    DifferenceTool,
    IntersectionOperand,
    GeneratedOpaqueOperation,
}

/// Whether the owner of a surface is beyond doubt.
#[derive(Clone, Copy, Debug, PartialEq, Eq, Structural)]
pub enum AttributionStatus {
    Exact,
    Ambiguous,
}

/// A color, each channel as the bits of a single-precision float.
#[derive(Clone, Copy, Debug, PartialEq, Eq, Structural)]
pub struct Rgba {
    pub r: u32,
    pub g: u32,
    pub b: u32,
    pub a: u32,
}

/// What a surface looks like and where it comes from.
#[derive(Debug)]
pub struct SurfaceAttribution {
    pub rgba: Rgba,
    pub mode: DisplayMode,
    pub provenance: Vec<ProvenanceFrame>,
    pub contributors: Vec<Vec<ProvenanceFrame>>,
    pub contribution: ContributionKind,
    pub status: AttributionStatus,
}

/// What an attribution says.
pub struct SurfaceView {
    pub rgba: Rgba,
    pub mode: DisplayMode,
    pub provenance: Seq<FrameView>,
    pub contributors: Seq<Seq<FrameView>>,
    pub contribution: ContributionKind,
    pub status: AttributionStatus,
}

impl View for SurfaceAttribution {
    type V = SurfaceView;

    open spec fn view(&self) -> SurfaceView {
        SurfaceView {
            rgba: self.rgba,
            mode: self.mode,
            provenance: path(self.provenance@),
            contributors: paths(self.contributors@),
            contribution: self.contribution,
            status: self.status,
        }
    }
}

impl SurfaceAttribution {
    /// Whether two attributions say the same.
    pub fn same(&self, other: &SurfaceAttribution) -> (r: bool)
        ensures
            r == (self@ == other@),
    {
        self.rgba == other.rgba && self.mode == other.mode && self.contribution
            == other.contribution && self.status == other.status && same_path(
            &self.provenance,
            &other.provenance,
        ) && same_paths(&self.contributors, &other.contributors)
    }
}

/// What a list of attributions says.
pub open spec fn surface_views(v: Seq<SurfaceAttribution>) -> Seq<SurfaceView> {
    v.map_values(|s: SurfaceAttribution| s@)
}

/// Attributions by number, each listed once.
pub struct SurfaceTable {
    pub values: Vec<SurfaceAttribution>,
}

impl SurfaceTable {
    pub open spec fn view(&self) -> Seq<SurfaceView> {
        surface_views(self.values@)
    }

    pub open spec fn wf(&self) -> bool {
        self@.no_duplicates()
    }

    pub fn new() -> (r: Self)
        ensures
            r.wf(),
            r@ =~= Seq::empty(),
    {
        SurfaceTable { values: Vec::new() }
    }

    /// The number of an attribution, a new one where it has none.
    pub fn intern(&mut self, value: SurfaceAttribution) -> (r: SurfaceAttributionId)
        requires
            old(self).wf(),
            old(self)@.len() < u32::MAX,
        ensures
            final(self).wf(),
            r.0 < final(self)@.len(),
            final(self)@[r.0 as int] == value@,
            final(self)@ == if old(self)@.contains(value@) {
                old(self)@
            } else {
                old(self)@.push(value@)
            },
    {
        let mut i: usize = 0;
        while i < self.values.len()
            invariant
                self.values@ == old(self).values@,
                self.wf(),
                self@.len() < u32::MAX,
                i <= self.values@.len(),
                forall|k: int| 0 <= k < i ==> #[trigger] self@[k] != value@,
            decreases self.values.len() - i,
        {
            if self.values[i].same(&value) {
                assert(self@[i as int] == value@);
                return SurfaceAttributionId(i as u32);
            }
            assert(self@[i as int] != value@);
            i = i + 1;
        }
        let id = SurfaceAttributionId(self.values.len() as u32);
        let ghost before = self@;
        let ghost held = value@;
        self.values.push(value);
        assert(self@ =~= before.push(held));
        id
    }
}

/// What is active where geometry is made: color, display mode, call stack.
#[derive(Debug)]
pub struct ActiveSurface {
    pub rgba: Rgba,
    pub color_explicit: bool,
    pub mode: DisplayMode,
    pub provenance: Vec<ProvenanceFrame>,
}

impl ActiveSurface {
    /// A copy that says the same.
    pub fn duplicate(&self) -> (r: ActiveSurface)
        ensures
            r.rgba == self.rgba,
            r.color_explicit == self.color_explicit,
            r.mode == self.mode,
            path(r.provenance@) == path(self.provenance@),
    {
        ActiveSurface {
            rgba: self.rgba,
            color_explicit: self.color_explicit,
            mode: self.mode,
            provenance: copy_path(&self.provenance),
        }
    }
}

/// The surface of geometry made directly under what is active.
pub open spec fn active_surface(
    active: ActiveSurface,
    contribution: ContributionKind,
    status: AttributionStatus,
) -> SurfaceView {
    SurfaceView {
        rgba: active.rgba,
        mode: active.mode,
        provenance: path(active.provenance@),
        contributors: Seq::empty(),
        contribution,
        status,
    }
}

/// The table after one more attribution is interned.
pub open spec fn interned(table: Seq<SurfaceView>, v: SurfaceView) -> Seq<SurfaceView> {
    if table.contains(v) {
        table
    } else {
        table.push(v)
    }
}

/// Interns the surface of geometry made directly under what is active.
pub fn active_id(
    table: &mut SurfaceTable,
    active: &ActiveSurface,
    contribution: ContributionKind,
    status: AttributionStatus,
) -> (r: SurfaceAttributionId)
    requires
        old(table).wf(),
        old(table)@.len() < u32::MAX,
    ensures
        final(table).wf(),
        r.0 < final(table)@.len(),
        final(table)@ == interned(old(table)@, active_surface(*active, contribution, status)),
        final(table)@[r.0 as int] == active_surface(*active, contribution, status),
{
    let value = SurfaceAttribution {
        rgba: active.rgba,
        mode: active.mode,
        provenance: copy_path(&active.provenance),
        contributors: Vec::new(),
        contribution,
        status,
    };
    assert(value@.contributors =~= Seq::empty());
    table.intern(value)
}

/// The authored paths that a surface stands for.
pub open spec fn stands_for(s: SurfaceView) -> Seq<Seq<FrameView>> {
    if s.contributors.len() == 0 {
        seq![authored(s.provenance)]
    } else {
        s.contributors
    }
}

/// `p` is a non-empty path that one of the surfaces numbered in `ids` stands for.
pub open spec fn contributes(table: Seq<SurfaceView>, ids: Seq<u32>, p: Seq<FrameView>) -> bool {
    p.len() > 0 && exists|i: int|
        0 <= i < ids.len() && stands_for(table[#[trigger] ids[i] as int]).contains(p)
}

/// `list` names every contributing path, in order, without repeating a
/// neighbour.
pub open spec fn is_contributor_list(
    table: Seq<SurfaceView>,
    ids: Seq<u32>,
    list: Seq<Seq<FrameView>>,
) -> bool {
    &&& forall|p: Seq<FrameView>| #[trigger] list.contains(p) <==> contributes(table, ids, p)
    &&& forall|i: int, j: int|
        #![trigger list[i], list[j]]
        0 <= i < j < list.len() ==> path_le(list[i], list[j])
    &&& forall|i: int| 0 < i < list.len() ==> #[trigger] list[i] != list[i - 1]
}

/// `v` is the surface of a generated face: the appearance given, owned by what
/// is active or else by what all contributors share, and exact where there is
/// one contributor.
pub open spec fn is_generated(
    table: Seq<SurfaceView>,
    appearance: int,
    ids: Seq<u32>,
    active: Seq<FrameView>,
    contribution: ContributionKind,
    v: SurfaceView,
) -> bool {
    &&& v.rgba == table[appearance].rgba
    &&& v.mode == table[appearance].mode
    &&& v.contribution == contribution
    &&& is_contributor_list(table, ids, v.contributors)
    &&& if authored(active).len() > 0 {
        v.provenance == authored(active)
    } else {
        is_common_prefix(v.contributors, v.provenance)
    }
    &&& v.status == if v.contributors.len() == 1 {
        AttributionStatus::Exact
    } else {
        AttributionStatus::Ambiguous
    }
}

/// Collects the non-empty paths that the numbered surfaces stand for.
fn gather(table: &SurfaceTable, ids: &Vec<u32>) -> (r: Vec<Vec<ProvenanceFrame>>)
    requires
        forall|i: int| 0 <= i < ids@.len() ==> #[trigger] ids@[i] < table@.len(),
    ensures
        forall|p: Seq<FrameView>| #[trigger]
            paths(r@).contains(p) <==> contributes(table@, ids@, p),
{
    let mut out: Vec<Vec<ProvenanceFrame>> = Vec::new();
    let mut i: usize = 0;
    assert forall|p: Seq<FrameView>| #[trigger] paths(out@).contains(p) <==> contributes(
        table@,
        ids@.take(0),
        p,
    ) by {}
    while i < ids.len()
        invariant
            forall|k: int| 0 <= k < ids@.len() ==> #[trigger] ids@[k] < table@.len(),
            i <= ids@.len(),
            forall|p: Seq<FrameView>| #[trigger]
                paths(out@).contains(p) <==> contributes(table@, ids@.take(i as int), p),
        decreases ids.len() - i,
    {
        assert(ids@[i as int] < table@.len());
        let value = &table.values[ids[i] as usize];
        let ghost sv = table@[ids@[i as int] as int];
        assert(sv == value@);
        let ghost before = paths(out@);
        if value.contributors.len() == 0 {
            let p = authored_path(&value.provenance);
            let ghost pv = path(p@);
            if p.len() > 0 {
                let ghost o = out@;
                out.push(p);
                assert(paths(out@) =~= before.push(pv));
                proof {
                    assert forall|q: Seq<FrameView>| #[trigger] paths(out@).contains(q) <==> (
                    before.contains(q) || (q.len() > 0 && stands_for(sv).contains(q))) by {
                        lemma_push_contains(before, pv, q);
                        assert(stands_for(sv).contains(q) ==> q == pv);
                        assert(stands_for(sv)[0] == pv);
                    }
                }
            } else {
                proof {
                    assert forall|q: Seq<FrameView>| #[trigger] paths(out@).contains(q) <==> (
                    before.contains(q) || (q.len() > 0 && stands_for(sv).contains(q))) by {
                        assert(stands_for(sv).contains(q) ==> q == pv);
                    }
                }
            }
        } else {
            let mut j: usize = 0;
            let ghost all = sv.contributors;
            while j < value.contributors.len()
                invariant
                    all == paths(value.contributors@),
                    j <= all.len(),
                    forall|q: Seq<FrameView>| #[trigger]
                        paths(out@).contains(q) <==> (before.contains(q) || (q.len() > 0
                            && all.take(j as int).contains(q))),
                decreases value.contributors.len() - j,
            {
                let c = &value.contributors[j];
                let ghost mid = paths(out@);
                let ghost cv = path(c@);
                assert(all[j as int] == cv);
                if c.len() > 0 {
                    out.push(copy_path(c));
                    assert(paths(out@) =~= mid.push(cv));
                }
                proof {
                    let t = all.take(j + 1);
                    assert(t =~= all.take(j as int).push(cv));
                    assert forall|q: Seq<FrameView>| #[trigger] paths(out@).contains(q) <==> (
                    before.contains(q) || (q.len() > 0 && t.contains(q))) by {
                        lemma_push_contains(mid, cv, q);
                        lemma_push_contains(all.take(j as int), cv, q);
                    }
                }
                j = j + 1;
            }
            assert(all.take(all.len() as int) =~= all);
        }
        proof {
            let t = ids@.take(i + 1);
            let u = ids@.take(i as int);
            assert(t =~= u.push(ids@[i as int]));
            assert forall|q: Seq<FrameView>| #[trigger] paths(out@).contains(q) <==> contributes(
                table@,
                t,
                q,
            ) by {
                assert(before.contains(q) <==> contributes(table@, u, q));
                if contributes(table@, u, q) {
                    let k = choose|k: int|
                        0 <= k < u.len() && stands_for(table@[#[trigger] u[k] as int]).contains(q);
                    assert(t[k] == u[k]);
                }
                if q.len() > 0 && stands_for(sv).contains(q) {
                    assert(t[i as int] == ids@[i as int]);
                }
                if contributes(table@, t, q) {
                    let k = choose|k: int|
                        0 <= k < t.len() && stands_for(table@[#[trigger] t[k] as int]).contains(q);
                    if k < i {
                        assert(u[k] == t[k]);
                    }
                }
            }
        }
        i = i + 1;
    }
    assert(ids@.take(ids@.len() as int) =~= ids@);
    out
}

pub(crate) proof fn lemma_push_contains<T>(s: Seq<T>, x: T, y: T)
    ensures
        s.push(x).contains(y) <==> s.contains(y) || y == x,
{
    if s.contains(y) {
        let i = choose|i: int| 0 <= i < s.len() && s[i] == y;
        assert(s.push(x)[i] == y);
    }
    assert(s.push(x)[s.len() as int] == x);
    if s.push(x).contains(y) && y != x {
        let i = choose|i: int| 0 <= i < s.push(x).len() && s.push(x)[i] == y;
        assert(s[i] == y);
    }
}

/// Drops every element that repeats the one before it.
fn without_repeats(list: Vec<Vec<ProvenanceFrame>>) -> (r: Vec<Vec<ProvenanceFrame>>)
    requires
        ascending(list@),
    ensures
        forall|p: Seq<FrameView>| #[trigger] paths(r@).contains(p) <==> paths(list@).contains(p),
        forall|i: int, j: int|
            #![trigger paths(r@)[i], paths(r@)[j]]
            0 <= i < j < r@.len() ==> path_le(paths(r@)[i], paths(r@)[j]),
        forall|i: int| 0 < i < r@.len() ==> #[trigger] paths(r@)[i] != paths(r@)[i - 1],
{
    let mut out: Vec<Vec<ProvenanceFrame>> = Vec::new();
    let ghost all = paths(list@);
    let mut i: usize = 0;
    assert(all.take(0) =~= Seq::empty());
    while i < list.len()
        invariant
            ascending(list@),
            all == paths(list@),
            i <= list@.len(),
            forall|p: Seq<FrameView>| #[trigger]
                paths(out@).contains(p) <==> all.take(i as int).contains(p),
            forall|a: int, b: int|
                #![trigger paths(out@)[a], paths(out@)[b]]
                0 <= a < b < out@.len() ==> path_le(paths(out@)[a], paths(out@)[b]),
            forall|a: int| 0 < a < out@.len() ==> #[trigger] paths(out@)[a] != paths(out@)[a - 1],
            out@.len() > 0 <==> i > 0,
            i > 0 ==> paths(out@).last() == all[i - 1],
        decreases list.len() - i,
    {
        let c = &list[i];
        let ghost cv = path(c@);
        assert(all[i as int] == cv);
        let ghost before = paths(out@);
        let fresh: bool = if out.len() == 0 {
            true
        } else {
            !same_path(&out[out.len() - 1], c)
        };
        proof {
            assert forall|a: int| 0 <= a < before.len() implies path_le(
                #[trigger] before[a],
                cv,
            ) by {
                assert(before.contains(before[a]));
                let k = choose|k: int| 0 <= k < all.take(i as int).len() && all.take(i as int)[k]
                    == before[a];
                assert(list@[k].rank_le(&list@[i as int]));
                assert(all[k] == before[a]);
            }
        }
        if fresh {
            out.push(copy_path(c));
            assert(paths(out@) =~= before.push(cv));
        }
        proof {
            let t = all.take(i + 1);
            assert(t =~= all.take(i as int).push(cv));
            assert forall|p: Seq<FrameView>| #[trigger] paths(out@).contains(p) <==> t.contains(
                p,
            ) by {
                lemma_push_contains(before, cv, p);
                lemma_push_contains(all.take(i as int), cv, p);
                if !fresh {
                    assert(before.last() == cv);
                    assert(before.contains(cv));
                }
            }
        }
        i = i + 1;
    }
    assert(all.take(list@.len() as int) =~= all);
    out
}

proof fn lemma_sorted_paths(a: Seq<Vec<ProvenanceFrame>>, b: Seq<Vec<ProvenanceFrame>>, p: Seq<FrameView>)
    requires
        a.to_multiset() =~= b.to_multiset(),
    ensures
        paths(a).contains(p) <==> paths(b).contains(p),
{
    a.to_multiset_ensures();
    b.to_multiset_ensures();
    if paths(a).contains(p) {
        let i = choose|i: int| 0 <= i < paths(a).len() && paths(a)[i] == p;
        assert(a.to_multiset().count(a[i]) > 0);
        assert(b.contains(a[i]));
        let j = choose|j: int| 0 <= j < b.len() && b[j] == a[i];
        assert(paths(b)[j] == p);
    }
    if paths(b).contains(p) {
        let i = choose|i: int| 0 <= i < paths(b).len() && paths(b)[i] == p;
        assert(b.to_multiset().count(b[i]) > 0);
        assert(a.contains(b[i]));
        let j = choose|j: int| 0 <= j < a.len() && a[j] == b[i];
        assert(paths(a)[j] == p);
    }
}

/// Paths in order, each once.
pub fn arrange_paths(list: Vec<Vec<ProvenanceFrame>>) -> (r: Vec<Vec<ProvenanceFrame>>)
    ensures
        forall|p: Seq<FrameView>| #[trigger] paths(r@).contains(p) <==> paths(list@).contains(p),
        strictly_ascending(paths(r@)),
{
    let ghost before = list@;
    let in_order = sorted(list);
    let ghost middle = in_order@;
    let r = without_repeats(in_order);
    proof {
        let all = paths(r@);
        assert forall|p: Seq<FrameView>| #[trigger] all.contains(p) <==> paths(before).contains(p) by {
            lemma_sorted_paths(middle, before, p);
        }
        assert forall|i: int, j: int|
            #![trigger all[i], all[j]]
            0 <= i < j < all.len() implies path_le(all[i], all[j]) && all[i] != all[j] by {
            assert(paths(r@)[i + 1] != paths(r@)[i + 1 - 1]);
            if all[i] == all[j] {
                assert(path_le(paths(r@)[i], paths(r@)[i + 1]));
                if i + 1 < j {
                    assert(path_le(paths(r@)[i + 1], paths(r@)[j]));
                    lemma_path_le_antisymmetric(all[i], all[i + 1]);
                }
            }
        }
    }
    r
}

/// Interns the surface of faces that an operation generates.
pub fn generated_id(
    table: &mut SurfaceTable,
    appearance: SurfaceAttributionId,
    surface_ids: &Vec<u32>,
    active: &ActiveSurface,
    contribution: ContributionKind,
) -> (r: SurfaceAttributionId)
    requires
        old(table).wf(),
        old(table)@.len() < u32::MAX,
        appearance.0 < old(table)@.len(),
        forall|i: int|
            0 <= i < surface_ids@.len() ==> #[trigger] surface_ids@[i] < old(table)@.len(),
    ensures
        final(table).wf(),
        r.0 < final(table)@.len(),
        is_generated(
            old(table)@,
            appearance.0 as int,
            surface_ids@,
            path(active.provenance@),
            contribution,
            final(table)@[r.0 as int],
        ),
        final(table)@ == interned(old(table)@, final(table)@[r.0 as int]),
{
    let ghost t0 = table@;
    let rgba = table.values[appearance.0 as usize].rgba;
    let mode = table.values[appearance.0 as usize].mode;
    let gathered = gather(table, surface_ids);
    let ghost g0 = gathered@;
    let in_order = sorted(gathered);
    let ghost s0 = in_order@;
    let contributors = without_repeats(in_order);
    proof {
        assert forall|p: Seq<FrameView>| #[trigger] paths(contributors@).contains(p)
            <==> contributes(t0, surface_ids@, p) by {
            lemma_sorted_paths(s0, g0, p);
            assert(paths(s0).contains(p) <==> paths(contributors@).contains(p));
            assert(paths(g0).contains(p) <==> contributes(t0, surface_ids@, p));
        }
    }
    let active_owner = authored_path(&active.provenance);
    let provenance = if active_owner.len() == 0 {
        longest_common_prefix(&contributors)
    } else {
        active_owner
    };
    let status = if contributors.len() == 1 {
        AttributionStatus::Exact
    } else {
        AttributionStatus::Ambiguous
    };
    table.intern(
        SurfaceAttribution { rgba, mode, provenance, contributors, contribution, status },
    )
}

proof fn lemma_contributors_strict(
    table: Seq<SurfaceView>,
    ids: Seq<u32>,
    list: Seq<Seq<FrameView>>,
)
    requires
        is_contributor_list(table, ids, list),
    ensures
        strictly_ascending(list),
{
    assert forall|i: int, j: int|
        #![trigger list[i], list[j]]
        0 <= i < j < list.len() implies path_le(list[i], list[j]) && list[i] != list[j] by {
        assert(list[i + 1] != list[i + 1 - 1]);
        if list[i] == list[j] {
            assert(path_le(list[i], list[i + 1]));
            if i + 1 < j {
                assert(path_le(list[i + 1], list[j]));
                lemma_path_le_antisymmetric(list[i], list[i + 1]);
            }
        }
    }
}

/// There is one surface of a generated face.
pub proof fn lemma_generated_unique(
    table: Seq<SurfaceView>,
    appearance: int,
    ids: Seq<u32>,
    active: Seq<FrameView>,
    contribution: ContributionKind,
    a: SurfaceView,
    b: SurfaceView,
)
    requires
        is_generated(table, appearance, ids, active, contribution, a),
        is_generated(table, appearance, ids, active, contribution, b),
    ensures
        a == b,
{
    lemma_contributors_strict(table, ids, a.contributors);
    lemma_contributors_strict(table, ids, b.contributors);
    assert forall|p: Seq<FrameView>| #[trigger] a.contributors.contains(p)
        <==> b.contributors.contains(p) by {
        assert(a.contributors.contains(p) <==> contributes(table, ids, p));
        assert(b.contributors.contains(p) <==> contributes(table, ids, p));
    }
    lemma_strict_unique(a.contributors, b.contributors);
    if authored(active).len() == 0 {
        law_common_prefix_unique(a.contributors, a.provenance, b.provenance);
    }
}

/// The surface of a generated face.
pub open spec fn generated_surface(
    table: Seq<SurfaceView>,
    appearance: int,
    ids: Seq<u32>,
    active: Seq<FrameView>,
    contribution: ContributionKind,
) -> SurfaceView {
    choose|v: SurfaceView| is_generated(table, appearance, ids, active, contribution, v)
}

/// A number for each new patch, from `next` on: equal patches get equal
/// numbers, new ones the next number.
pub open spec fn renumbered(
    local: Seq<u64>,
    known: Map<u64, u64>,
    next: u64,
    i: int,
) -> (Seq<u64>, u64)
    decreases local.len() - i,
{
    if i < 0 || i >= local.len() {
        (Seq::empty(), next)
    } else if local[i] == UNCLASSIFIED_PATCH_ID {
        let (rest, end) = renumbered(local, known, next, i + 1);
        (seq![UNCLASSIFIED_PATCH_ID] + rest, end)
    } else if known.contains_key(local[i]) {
        let (rest, end) = renumbered(local, known, next, i + 1);
        (seq![known[local[i]]] + rest, end)
    } else {
        let (rest, end) = renumbered(
            local,
            known.insert(local[i], next),
            (next + 1) as u64,
            i + 1,
        );
        (seq![next] + rest, end)
    }
}

/// The patch of a triangle that belongs to no known face.
pub const UNCLASSIFIED_PATCH_ID: u64 = 0xffff_ffff_ffff_ffff;

/// Turns the patch numbers of one mesh into numbers of the whole scene.
pub fn global_patch_ids(local: &Vec<u64>, next_patch_id: &mut u64) -> (r: Vec<u64>)
    requires
        *old(next_patch_id) + local@.len() <= u64::MAX,
    ensures
        (r@, *final(next_patch_id)) == renumbered(local@, Map::empty(), *old(next_patch_id), 0),
{
    broadcast use vstd::std_specs::hash::group_hash_axioms;

    let mut known: std::collections::HashMap<u64, u64> = std::collections::HashMap::new();
    let mut out: Vec<u64> = Vec::new();
    let ghost whole = renumbered(local@, Map::empty(), *next_patch_id, 0);
    let mut i: usize = 0;
    assert(Seq::<u64>::empty() + whole.0 =~= whole.0);
    while i < local.len()
        invariant
            i <= local@.len(),
            *next_patch_id + (local@.len() - i) <= u64::MAX,
            whole.0 == out@ + renumbered(local@, known@, *next_patch_id, i as int).0,
            whole.1 == renumbered(local@, known@, *next_patch_id, i as int).1,
        decreases local.len() - i,
    {
        let patch: u64 = local[i];
        let ghost before = out@;
        let ghost rest = renumbered(local@, known@, *next_patch_id, i as int).0;
        if patch == UNCLASSIFIED_PATCH_ID {
            out.push(patch);
        } else {
            match known.get(&patch) {
                Some(id) => {
                    out.push(*id);
                },
                None => {
                    let id: u64 = *next_patch_id;
                    known.insert(patch, id);
                    *next_patch_id = id + 1;
                    out.push(id);
                },
            }
        }
        i = i + 1;
        assert(before + rest =~= out@ + renumbered(local@, known@, *next_patch_id, i as int).0);
    }
    assert(out@ + Seq::<u64>::empty() =~= out@);
    out
}

} // verus!
