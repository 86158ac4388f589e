//! The geometry cache: rendered meshes by structural key, with incremental
//! export, atomic import and least-recently-used trimming.

use crate::blob::{
    blob_bytes, decode, entries_bytes, entry_fits, entry_views, law_blob_round_trip, parse_blob,
    parse_entries, parse_entry, parse_points, parse_texts, parse_triangles, texts, write_entry,
    write_header, CacheEnvelope, CacheImportError, Entry, EntryView, Refusal,
};
use crate::mesh::{Mesh, MeshView};
use crate::rank::{ascending, sorted, Ranked};
use std::collections::HashMap;
use vstd::prelude::*;
use vstd::utf8::encode_utf8;

verus! {

broadcast use vstd::std_specs::hash::group_hash_axioms;

/// A resident mesh with the diagnostics of its rendering.
pub struct CachedNode {
    pub mesh: Mesh,
    pub warnings: Vec<String>,
    pub errors: Vec<String>,
    /// The export epoch in which the node was rendered; 0 where it was imported.
    pub epoch: u64,
    /// The tick of the last use.
    pub last_used: u64,
}

/// What a resident node holds.
pub struct NodeView {
    pub mesh: MeshView,
    pub warnings: Seq<Seq<char>>,
    pub errors: Seq<Seq<char>>,
    pub epoch: u64,
    pub last_used: u64,
}

impl View for CachedNode {
    type V = NodeView;

    open spec fn view(&self) -> NodeView {
        NodeView {
            mesh: self.mesh@,
            warnings: texts(self.warnings@),
            errors: texts(self.errors@),
            epoch: self.epoch,
            last_used: self.last_used,
        }
    }
}

/// Resident-cache accounting.
#[derive(Clone, Copy, Debug, PartialEq, Eq, Structural)]
pub struct CacheStats {
    pub entries: usize,
    /// Mesh payload bytes (vertices and triangles).
    pub bytes: usize,
    /// Current export epoch (see [`GeomCache::export_since`]).
    pub epoch: u64,
}

/// Outcome of a successful import.
#[derive(Clone, Copy, Debug, PartialEq, Eq, Structural)]
pub struct CacheImportReport {
    /// Entries added.
    pub imported: usize,
    /// Entries whose key was already resident (kept as they are).
    pub skipped: usize,
    /// Resident entries after the import.
    pub entries: usize,
    /// Resident payload bytes after the import.
    pub bytes: usize,
}

/// Meshes by structural key.
pub struct GeomCache {
    nodes: HashMap<u64, CachedNode>,
    epoch: u64,
    tick: u64,
    bytes: usize,
}

/// What a cache holds.
pub struct CacheView {
    pub nodes: Map<u64, NodeView>,
    pub epoch: u64,
    pub tick: u64,
}

/// The payload of the nodes of `m` whose keys are in `s`.
pub open spec fn payload_of(m: Map<u64, NodeView>, s: Set<u64>) -> nat
    decreases s.len(),
    when s.finite()
{
    if s.len() == 0 {
        0
    } else {
        let k = s.choose();
        m[k].mesh.payload() + payload_of(m, s.remove(k))
    }
}

/// The payload of all nodes.
pub open spec fn payload(m: Map<u64, NodeView>) -> nat {
    payload_of(m, m.dom())
}

/// The entry that stands for a node in a blob.
pub open spec fn entry_of(key: u64, n: NodeView) -> EntryView {
    EntryView { key, mesh: n.mesh, warnings: n.warnings, errors: n.errors }
}

/// `order` lists, least recently used first, the last use and the key of every
/// node rendered in epoch `since` or later.
pub open spec fn is_recency(m: Map<u64, NodeView>, since: u64, order: Seq<(u64, u64)>) -> bool {
    &&& ascending(order)
    &&& order.no_duplicates()
    &&& forall|l: u64, k: u64| #[trigger]
        order.contains((l, k)) <==> m.contains_key(k) && m[k].epoch >= since && m[k].last_used == l
}

/// The one such list.
pub open spec fn recency(m: Map<u64, NodeView>, since: u64) -> Seq<(u64, u64)> {
    choose|order: Seq<(u64, u64)>| is_recency(m, since, order)
}

/// The entries of the listed nodes, in the order of the list.
pub open spec fn entries_in(m: Map<u64, NodeView>, order: Seq<(u64, u64)>) -> Seq<EntryView> {
    order.map_values(|p: (u64, u64)| entry_of(p.1, m[p.1]))
}

/// The cache after taking in the entries from the `i`-th on: resident keys
/// win, and each new node carries epoch 0 and the next tick.
pub open spec fn taken_in(c: CacheView, entries: Seq<EntryView>, i: int) -> CacheView
    decreases entries.len() - i,
{
    if i < 0 || i >= entries.len() {
        c
    } else if c.nodes.contains_key(entries[i].key) {
        taken_in(c, entries, i + 1)
    } else {
        taken_in(
            CacheView {
                nodes: c.nodes.insert(
                    entries[i].key,
                    NodeView {
                        mesh: entries[i].mesh,
                        warnings: entries[i].warnings,
                        errors: entries[i].errors,
                        epoch: 0,
                        last_used: (c.tick + 1) as u64,
                    },
                ),
                epoch: c.epoch,
                tick: (c.tick + 1) as u64,
            },
            entries,
            i + 1,
        )
    }
}

/// How many of the entries from the `i`-th on are taken in.
pub open spec fn newcomers(c: CacheView, entries: Seq<EntryView>, i: int) -> nat
    decreases entries.len() - i,
{
    if i < 0 || i >= entries.len() {
        0
    } else if c.nodes.contains_key(entries[i].key) {
        newcomers(c, entries, i + 1)
    } else {
        1 + newcomers(
            CacheView {
                nodes: c.nodes.insert(
                    entries[i].key,
                    NodeView {
                        mesh: entries[i].mesh,
                        warnings: entries[i].warnings,
                        errors: entries[i].errors,
                        epoch: 0,
                        last_used: (c.tick + 1) as u64,
                    },
                ),
                epoch: c.epoch,
                tick: (c.tick + 1) as u64,
            },
            entries,
            i + 1,
        )
    }
}

/// The clock and the byte count have room for entries that are taken in.
pub open spec fn has_room(c: CacheView, entries: Seq<EntryView>) -> bool {
    &&& c.tick + newcomers(c, entries, 0) <= u64::MAX
    &&& payload(taken_in(c, entries, 0).nodes) <= usize::MAX
}

/// Both budgets hold.
pub open spec fn within_budget(m: Map<u64, NodeView>, max_entries: nat, max_bytes: nat) -> bool {
    m.len() <= max_entries && payload(m) <= max_bytes
}

/// The nodes after evicting, in the listed order from the `i`-th on, until both
/// budgets hold.
pub open spec fn evicted(
    m: Map<u64, NodeView>,
    order: Seq<(u64, u64)>,
    i: int,
    max_entries: nat,
    max_bytes: nat,
) -> Map<u64, NodeView>
    decreases order.len() - i,
{
    if i < 0 || i >= order.len() || within_budget(m, max_entries, max_bytes) {
        m
    } else {
        evicted(m.remove(order[i].1), order, i + 1, max_entries, max_bytes)
    }
}

// ---- the payload of a map ---------------------------------------------------

proof fn lemma_payload_agree(m1: Map<u64, NodeView>, m2: Map<u64, NodeView>, s: Set<u64>)
    requires
        s.finite(),
        forall|k: u64| s.contains(k) ==> #[trigger] m1[k] == m2[k],
    ensures
        payload_of(m1, s) == payload_of(m2, s),
    decreases s.len(),
{
    if s.len() != 0 {
        lemma_payload_agree(m1, m2, s.remove(s.choose()));
    }
}

proof fn lemma_payload_remove(m: Map<u64, NodeView>, s: Set<u64>, k: u64)
    requires
        s.finite(),
        s.contains(k),
    ensures
        payload_of(m, s) == m[k].mesh.payload() + payload_of(m, s.remove(k)),
    decreases s.len(),
{
    let c = s.choose();
    if c != k {
        lemma_payload_remove(m, s.remove(c), k);
        lemma_payload_remove(m, s.remove(k), c);
        assert(s.remove(c).remove(k) =~= s.remove(k).remove(c));
    }
}

proof fn lemma_payload_insert(m: Map<u64, NodeView>, k: u64, n: NodeView)
    requires
        m.dom().finite(),
        !m.contains_key(k),
    ensures
        payload(m.insert(k, n)) == payload(m) + n.mesh.payload(),
{
    let m2 = m.insert(k, n);
    lemma_payload_remove(m2, m2.dom(), k);
    assert(m2.dom().remove(k) =~= m.dom());
    lemma_payload_agree(m, m2, m.dom());
}

proof fn lemma_payload_drop(m: Map<u64, NodeView>, k: u64)
    requires
        m.dom().finite(),
        m.contains_key(k),
    ensures
        payload(m) == payload(m.remove(k)) + m[k].mesh.payload(),
{
    lemma_payload_remove(m, m.dom(), k);
    assert(m.remove(k).dom() =~= m.dom().remove(k));
    lemma_payload_agree(m, m.remove(k), m.dom().remove(k));
}

// ---- the recency list -------------------------------------------------------

proof fn lemma_recency_unique(
    m: Map<u64, NodeView>,
    since: u64,
    a: Seq<(u64, u64)>,
    b: Seq<(u64, u64)>,
)
    requires
        is_recency(m, since, a),
        is_recency(m, since, b),
    ensures
        a =~= b,
{
    assert forall|x: (u64, u64)| a.to_multiset().count(x) == b.to_multiset().count(x) by {
        a.to_multiset_ensures();
        b.to_multiset_ensures();
        a.lemma_multiset_has_no_duplicates();
        b.lemma_multiset_has_no_duplicates();
        assert(a.contains((x.0, x.1)) <==> b.contains((x.0, x.1)));
    }
    assert(a.to_multiset() =~= b.to_multiset());
    crate::rank::lemma_ascending_unique(a, b);
}

impl GeomCache {
    pub closed spec fn view(&self) -> CacheView {
        CacheView {
            nodes: self.nodes@.map_values(|n: CachedNode| n@),
            epoch: self.epoch,
            tick: self.tick,
        }
    }

    /// The byte count is the payload of the nodes, the epoch is 1 or later, and no
    /// node is from a later epoch or tick than the cache.
    pub closed spec fn wf(&self) -> bool {
        &&& self.bytes == payload(self.view().nodes)
        &&& self.view().nodes.dom().finite()
        &&& self.epoch >= 1
        &&& forall|k: u64| #[trigger]
            self.view().nodes.contains_key(k) ==> self.view().nodes[k].last_used <= self.tick
                && self.view().nodes[k].epoch <= self.epoch
    }

    proof fn lemma_dom(&self)
        ensures
            self.view().nodes.dom() =~= self.nodes@.dom(),
            self.view().nodes.len() == self.nodes@.len(),
            forall|k: u64| #[trigger]
                self.nodes@.contains_key(k) ==> self.view().nodes[k] == self.nodes@[k]@,
    {
        assert(self.view().nodes.dom() =~= self.nodes@.dom());
    }

    /// What the resident nodes occupy and when they were used, in the cache's
    /// own terms.
    pub proof fn lemma_wf(&self)
        requires
            self.wf(),
        ensures
            self@.nodes.dom().finite(),
            payload(self@.nodes) <= usize::MAX,
            self@.epoch >= 1,
            forall|k: u64| #[trigger]
                self@.nodes.contains_key(k) ==> self@.nodes[k].last_used <= self@.tick
                    && self@.nodes[k].epoch <= self@.epoch,
    {
    }

    /// An empty cache. The epoch starts at 1, so that imported entries (epoch
    /// 0) are left out of every incremental export.
    pub fn new() -> (r: Self)
        ensures
            r.wf(),
            r@.nodes =~= Map::empty(),
            r@.epoch == 1,
            r@.tick == 0,
    {
        let r = GeomCache { nodes: HashMap::new(), epoch: 1, tick: 0, bytes: 0 };
        proof {
            r.lemma_dom();
            assert(r.view().nodes =~= Map::empty());
        }
        r
    }

    /// The number of resident nodes.
    pub fn len(&self) -> (r: usize)
        ensures
            r == self@.nodes.len(),
    {
        proof {
            self.lemma_dom();
        }
        self.nodes.len()
    }

    /// Whether no node is resident.
    pub fn is_empty(&self) -> (r: bool)
        requires
            self.wf(),
        ensures
            r == (self@.nodes =~= Map::empty()),
    {
        proof {
            self.lemma_dom();
            if self.view().nodes.len() == 0 {
                assert(self.view().nodes.dom() =~= Set::empty());
                assert(self.view().nodes =~= Map::empty());
            }
        }
        self.nodes.len() == 0
    }

    /// The resident node with this key.
    pub fn get(&self, key: u64) -> (r: Option<&CachedNode>)
        ensures
            match r {
                Some(n) => self@.nodes.contains_key(key) && self@.nodes[key] == n@,
                None => !self@.nodes.contains_key(key),
            },
    {
        proof {
            self.lemma_dom();
        }
        self.nodes.get(&key)
    }

    /// Advances the clock.
    pub fn touch(&mut self) -> (r: u64)
        requires
            old(self).wf(),
            old(self)@.tick < u64::MAX,
        ensures
            final(self).wf(),
            final(self)@.nodes == old(self)@.nodes,
            final(self)@.epoch == old(self)@.epoch,
            final(self)@.tick == old(self)@.tick + 1,
            r == final(self)@.tick,
    {
        self.tick = self.tick + 1;
        self.tick
    }

    /// Removes a node and its payload.
    fn evict(&mut self, key: u64) -> (r: Option<CachedNode>)
        requires
            old(self).wf(),
        ensures
            final(self).wf(),
            final(self)@.nodes == old(self)@.nodes.remove(key),
            final(self)@.epoch == old(self)@.epoch,
            final(self)@.tick == old(self)@.tick,
            match r {
                Some(n) => old(self)@.nodes.contains_key(key) && n@ == old(self)@.nodes[key],
                None => !old(self)@.nodes.contains_key(key),
            },
    {
        proof {
            self.lemma_dom();
        }
        let ghost before = self.view().nodes;
        let gone = self.nodes.remove(&key);
        if let Some(node) = &gone {
            proof {
                lemma_payload_drop(before, key);
                assert(before[key].mesh.payload() == node.mesh@.payload());
            }
            self.bytes = self.bytes - (node.mesh.verts.len() * 24 + node.mesh.tris.len() * 12);
        }
        proof {
            self.lemma_dom();
            assert(self.view().nodes =~= before.remove(key));
            if gone is None {
                assert(before.remove(key) =~= before);
            }
        }
        gone
    }

    /// Adds a node that is not resident.
    fn admit_node(&mut self, key: u64, node: CachedNode)
        requires
            old(self).wf(),
            !old(self)@.nodes.contains_key(key),
            node.last_used <= old(self)@.tick,
            node.epoch <= old(self)@.epoch,
            payload(old(self)@.nodes) + node.mesh@.payload() <= usize::MAX,
        ensures
            final(self).wf(),
            final(self)@.nodes == old(self)@.nodes.insert(key, node@),
            final(self)@.epoch == old(self)@.epoch,
            final(self)@.tick == old(self)@.tick,
    {
        let ghost before = self.view().nodes;
        let ghost held = node@;
        proof {
            self.lemma_dom();
            lemma_payload_insert(before, key, held);
        }
        self.bytes = self.bytes + (node.mesh.verts.len() * 24 + node.mesh.tris.len() * 12);
        self.nodes.insert(key, node);
        proof {
            self.lemma_dom();
            assert(self.view().nodes =~= before.insert(key, held));
        }
    }

    /// Keeps a freshly rendered node under its key, as the most recent one of
    /// the current epoch.
    pub fn insert(&mut self, key: u64, mesh: Mesh, warnings: Vec<String>, errors: Vec<String>)
        requires
            old(self).wf(),
            old(self)@.tick < u64::MAX,
            payload(old(self)@.nodes) + mesh@.payload() <= usize::MAX,
        ensures
            final(self).wf(),
            final(self)@.nodes == old(self)@.nodes.insert(
                key,
                (NodeView {
                    mesh: mesh@,
                    warnings: texts(warnings@),
                    errors: texts(errors@),
                    epoch: old(self)@.epoch,
                    last_used: final(self)@.tick,
                }),
            ),
            final(self)@.epoch == old(self)@.epoch,
            final(self)@.tick == old(self)@.tick + 1,
    {
        let ghost before = self.view().nodes;
        proof {
            if before.contains_key(key) {
                lemma_payload_drop(before, key);
            } else {
                assert(before.remove(key) =~= before);
            }
        }
        self.evict(key);
        let last_used: u64 = self.touch();
        let epoch: u64 = self.epoch;
        self.admit_node(key, CachedNode { mesh, warnings, errors, epoch, last_used });
        assert(self.view().nodes =~= before.insert(key, self.view().nodes[key]));
    }

    /// Marks a resident node as the most recent one; says whether there was one.
    pub fn mark_used(&mut self, key: u64) -> (r: bool)
        requires
            old(self).wf(),
            old(self)@.tick < u64::MAX,
        ensures
            final(self).wf(),
            r == old(self)@.nodes.contains_key(key),
            !r ==> final(self)@ == old(self)@,
            r ==> final(self)@.nodes == old(self)@.nodes.insert(
                key,
                (NodeView {
                    last_used: (old(self)@.tick + 1) as u64,
                    ..old(self)@.nodes[key]
                }),
            ) && final(self)@.epoch == old(self)@.epoch && final(self)@.tick == old(self)@.tick + 1,
    {
        let ghost before = self.view().nodes;
        proof {
            if before.contains_key(key) {
                lemma_payload_drop(before, key);
            } else {
                assert(before.remove(key) =~= before);
            }
        }
        match self.evict(key) {
            None => false,
            Some(node) => {
                let last_used: u64 = self.touch();
                self.admit_node(
                    key,
                    CachedNode {
                        mesh: node.mesh,
                        warnings: node.warnings,
                        errors: node.errors,
                        epoch: node.epoch,
                        last_used,
                    },
                );
                assert(self.view().nodes =~= before.insert(key, self.view().nodes[key]));
                true
            },
        }
    }

    /// Drops every resident node; the epoch and the clock go on.
    pub fn clear(&mut self)
        requires
            old(self).wf(),
        ensures
            final(self).wf(),
            final(self)@.nodes =~= Map::<u64, NodeView>::empty(),
            final(self)@.epoch == old(self)@.epoch,
            final(self)@.tick == old(self)@.tick,
    {
        self.nodes.clear();
        self.bytes = 0;
        proof {
            self.lemma_dom();
            assert(self.view().nodes =~= Map::empty());
        }
    }

    /// Entry count, payload bytes and epoch.
    pub fn stats(&self) -> (r: CacheStats)
        requires
            self.wf(),
        ensures
            r.entries == self@.nodes.len(),
            r.bytes == payload(self@.nodes),
            r.epoch == self@.epoch,
            r.epoch >= 1,
    {
        proof {
            self.lemma_dom();
        }
        CacheStats { entries: self.nodes.len(), bytes: self.bytes, epoch: self.epoch }
    }

    /// Every resident key, ascending.
    pub fn keys(&self) -> (r: Vec<u64>)
        requires
            self.wf(),
        ensures
            forall|i: int, j: int| 0 <= i < j < r@.len() ==> #[trigger] r@[i] < #[trigger] r@[j],
            forall|k: u64| #[trigger] r@.contains(k) <==> self@.nodes.contains_key(k),
    {
        proof {
            self.lemma_dom();
        }
        let mut v: Vec<u64> = Vec::new();
        for k in it: self.nodes.keys()
            invariant
                it.seq().unref().to_set() == self.nodes@.dom(),
                it.seq().no_duplicates(),
                v@ =~= it.seq().unref().take(it.index() as int),
                it.index() == it.seq().len() ==> v@ =~= it.seq().unref(),
        {
            v.push(*k);
        }
        let ghost plain = v@;
        assert(plain.to_set() =~= self.nodes@.dom());
        proof {
            assert(v@.no_duplicates());
            v@.lemma_multiset_has_no_duplicates();
        }
        let r = sorted(v);
        proof {
            plain.to_multiset_ensures();
            r@.to_multiset_ensures();
            r@.lemma_multiset_has_no_duplicates_conv();
            assert forall|k: u64| #[trigger] r@.contains(k) <==> self@.nodes.contains_key(k) by {
                assert(r@.contains(k) <==> r@.to_multiset().count(k) > 0);
                assert(plain.contains(k) <==> plain.to_multiset().count(k) > 0);
            }
        }
        r
    }

    /// The last use and the key of every node rendered in epoch `since` or
    /// later, least recently used first.
    fn recency_list(&self, since: u64) -> (r: Vec<(u64, u64)>)
        requires
            self.wf(),
        ensures
            is_recency(self@.nodes, since, r@),
            r@ == recency(self@.nodes, since),
    {
        proof {
            self.lemma_dom();
        }
        let keys = self.keys();
        let ghost m = self.view().nodes;
        let mut v: Vec<(u64, u64)> = Vec::new();
        for i in 0..keys.len()
            invariant
                m == self.view().nodes,
                forall|a: int, b: int|
                    0 <= a < b < keys@.len() ==> #[trigger] keys@[a] < #[trigger] keys@[b],
                forall|k: u64| #[trigger] keys@.contains(k) <==> m.contains_key(k),
                forall|a: int, b: int|
                    0 <= a < b < v@.len() ==> (#[trigger] v@[a]).1 < (#[trigger] v@[b]).1,
                forall|a: int|
                    0 <= a < v@.len() ==> m.contains_key((#[trigger] v@[a]).1)
                        && m[v@[a].1].epoch >= since && m[v@[a].1].last_used == v@[a].0
                        && exists|b: int| 0 <= b < i && keys@[b] == v@[a].1,
                forall|b: int|
                    0 <= b < i && m[#[trigger] keys@[b]].epoch >= since ==> v@.contains(
                        (m[keys@[b]].last_used, keys@[b]),
                    ),
        {
            let key: u64 = keys[i];
            assert(keys@.contains(key));
            let ghost before = v@;
            if let Some(node) = self.get(key) {
                if node.epoch >= since {
                    v.push((node.last_used, key));
                    proof {
                        assert(v@[before.len() as int] == (node.last_used, key));
                        assert forall|b: int| 0 <= b <= i && m[#[trigger] keys@[b]].epoch
                            >= since implies v@.contains((m[keys@[b]].last_used, keys@[b])) by {
                            if b < i {
                                let x = (m[keys@[b]].last_used, keys@[b]);
                                let j = choose|j: int| 0 <= j < before.len() && before[j] == x;
                                assert(v@[j] == x);
                            }
                        }
                    }
                }
            }
        }
        let ghost plain = v@;
        proof {
            assert(plain.no_duplicates());
            plain.lemma_multiset_has_no_duplicates();
        }
        let r = sorted(v);
        proof {
            plain.to_multiset_ensures();
            r@.to_multiset_ensures();
            r@.lemma_multiset_has_no_duplicates_conv();
            assert forall|l: u64, k: u64| #[trigger]
                r@.contains((l, k)) <==> m.contains_key(k) && m[k].epoch >= since
                    && m[k].last_used == l by {
                assert(r@.contains((l, k)) <==> r@.to_multiset().count((l, k)) > 0);
                assert(plain.contains((l, k)) <==> plain.to_multiset().count((l, k)) > 0);
                if m.contains_key(k) {
                    assert(keys@.contains(k));
                }
            }
            assert(is_recency(m, since, r@));
            lemma_recency_unique(m, since, r@, recency(m, since));
        }
        r
    }

    /// Serializes every entry rendered in epoch `since_epoch` or later (0 for
    /// every entry, imported ones included) and advances the epoch, so that a
    /// host that passes the epoch reported before receives exactly the entries
    /// it has not seen. Entries are written least recently used first.
    pub fn export_since(&mut self, since_epoch: u64, envelope: &CacheEnvelope) -> (r: Vec<u8>)
        requires
            old(self).wf(),
            old(self)@.epoch < u64::MAX,
        ensures
            final(self).wf(),
            final(self)@.nodes == old(self)@.nodes,
            final(self)@.tick == old(self)@.tick,
            final(self)@.epoch == old(self)@.epoch + 1,
            is_recency(old(self)@.nodes, since_epoch, recency(old(self)@.nodes, since_epoch)),
            r@ == blob_bytes(
                envelope.engine_version@,
                envelope.kernel_id@,
                final(self)@.epoch,
                entries_in(old(self)@.nodes, recency(old(self)@.nodes, since_epoch)),
            ),
    {
        let order = self.recency_list(since_epoch);
        let ghost m = self.view().nodes;
        let ghost entries = entries_in(m, order@);
        self.epoch = self.epoch + 1;
        let mut out: Vec<u8> = Vec::new();
        write_header(&mut out, envelope, self.epoch, order.len() as u32);
        let ghost head = out@;
        assert(head + entries_bytes(entries, 0) =~= blob_bytes(
            envelope.engine_version@,
            envelope.kernel_id@,
            self.epoch,
            entries,
        ));
        let ghost whole = head + entries_bytes(entries, 0);
        for i in 0..order.len()
            invariant
                m == self.view().nodes,
                entries == entries_in(m, order@),
                is_recency(m, since_epoch, order@),
                whole =~= out@ + entries_bytes(entries, i as int),
        {
            let key: u64 = order[i].1;
            proof {
                assert(order@.contains((order@[i as int].0, key)));
                assert(entries[i as int] == entry_of(key, m[key]));
            }
            if let Some(node) = self.get(key) {
                write_entry(&mut out, key, &node.mesh, &node.warnings, &node.errors);
            }
        }
        out
    }

    /// Adds the entries of a blob that an engine with the same envelope
    /// exported. The import is atomic: a foreign, malformed or truncated blob
    /// changes nothing. Resident keys win, and imported entries carry epoch 0,
    /// so that no incremental export emits them again.
    pub fn import_bytes(&mut self, bytes: &[u8], envelope: &CacheEnvelope) -> (r: Result<
        CacheImportReport,
        CacheImportError,
    >)
        requires
            old(self).wf(),
            (old(self)@.tick + u32::MAX <= u64::MAX && payload(old(self)@.nodes) + bytes@.len()
                <= usize::MAX) || (parse_blob(
                bytes@,
                envelope.engine_version@,
                envelope.kernel_id@,
            ) matches Ok(entries) ==> has_room(old(self)@, entries)),
        ensures
            final(self).wf(),
            match r {
                Err(e) => {
                    &&& parse_blob(bytes@, envelope.engine_version@, envelope.kernel_id@) == Err::<
                        Seq<EntryView>,
                        Refusal,
                    >(e@)
                    &&& final(self)@ == old(self)@
                },
                Ok(report) => {
                    let entries = parse_blob(
                        bytes@,
                        envelope.engine_version@,
                        envelope.kernel_id@,
                    )->Ok_0;
                    &&& parse_blob(bytes@, envelope.engine_version@, envelope.kernel_id@) is Ok
                    &&& final(self)@ == taken_in(old(self)@, entries, 0)
                    &&& report.imported == newcomers(old(self)@, entries, 0)
                    &&& final(self)@.tick == old(self)@.tick + report.imported
                    &&& report.skipped == entries.len() - report.imported
                    &&& report.entries == final(self)@.nodes.len()
                    &&& report.bytes == payload(final(self)@.nodes)
                },
            },
    {
        let entries = match decode(bytes, envelope) {
            Ok(entries) => entries,
            Err(e) => return Err(e),
        };
        let ghost views = entry_views(entries@);
        let ghost start = self@;
        let ghost whole = taken_in(start, views, 0);
        let ghost n = entries@.len();
        proof {
            lemma_blob_payload(bytes@, envelope.engine_version@, envelope.kernel_id@);
            assert(entries_payload(views, 0) <= bytes@.len());
            assert(views.len() == n);
            lemma_room(start, views, 0);
        }
        let mut imported: usize = 0;
        let mut skipped: usize = 0;
        let mut queue = entries;
        let mut entries: Vec<Entry> = Vec::new();
        // Taken from the back, so that the first entry comes off first.
        while queue.len() > 0
            invariant
                queue@.len() + entries@.len() == n,
                forall|i: int|
                    0 <= i < queue@.len() ==> (#[trigger] queue@[i])@ == views[i],
                forall|i: int|
                    0 <= i < entries@.len() ==> (#[trigger] entries@[i])@ == views[n - 1 - i],
            decreases queue.len(),
        {
            if let Some(e) = queue.pop() {
                entries.push(e);
            }
        }
        while entries.len() > 0
            invariant
                self.wf(),
                n == views.len(),
                n <= u32::MAX,
                entries@.len() <= n,
                imported + skipped + entries@.len() == n,
                self@.tick == start.tick + imported,
                start.tick + newcomers(start, views, 0) <= u64::MAX,
                newcomers(start, views, 0) == imported + newcomers(
                    self@,
                    views,
                    n - entries@.len(),
                ),
                payload(whole.nodes) <= usize::MAX,
                whole == taken_in(self@, views, n - entries@.len()),
                forall|i: int|
                    0 <= i < entries@.len() ==> (#[trigger] entries@[i])@ == views[n - 1 - i],
            decreases entries.len(),
        {
            let ghost at = n - entries@.len();
            let ghost before = self@;
            if let Some(e) = entries.pop() {
                assert(e@ == views[at]);
                let resident: bool = self.get(e.key).is_some();
                if resident {
                    skipped = skipped + 1;
                } else {
                    proof {
                        let next = CacheView {
                            nodes: before.nodes.insert(
                                views[at].key,
                                NodeView {
                                    mesh: views[at].mesh,
                                    warnings: views[at].warnings,
                                    errors: views[at].errors,
                                    epoch: 0,
                                    last_used: (before.tick + 1) as u64,
                                },
                            ),
                            epoch: before.epoch,
                            tick: (before.tick + 1) as u64,
                        };
                        lemma_payload_insert(
                            before.nodes,
                            views[at].key,
                            next.nodes[views[at].key],
                        );
                        lemma_room(next, views, at + 1);
                        assert(whole == taken_in(next, views, at + 1));
                    }
                    let last_used: u64 = self.touch();
                    self.admit_node(
                        e.key,
                        CachedNode {
                            mesh: e.mesh,
                            warnings: e.warnings,
                            errors: e.errors,
                            epoch: 0,
                            last_used,
                        },
                    );
                    imported = imported + 1;
                }
            }
        }
        proof {
            self.lemma_dom();
        }
        Ok(CacheImportReport { imported, skipped, entries: self.nodes.len(), bytes: self.bytes })
    }

    /// Evicts least-recently-used entries until both budgets hold.
    pub fn trim_to(&mut self, max_entries: usize, max_bytes: usize)
        requires
            old(self).wf(),
        ensures
            final(self).wf(),
            is_recency(old(self)@.nodes, 0, recency(old(self)@.nodes, 0)),
            final(self)@.nodes == evicted(
                old(self)@.nodes,
                recency(old(self)@.nodes, 0),
                0,
                max_entries as nat,
                max_bytes as nat,
            ),
            within_budget(final(self)@.nodes, max_entries as nat, max_bytes as nat),
            final(self)@.epoch == old(self)@.epoch,
            final(self)@.tick == old(self)@.tick,
    {
        let order = self.recency_list(0);
        let ghost m = self@.nodes;
        let ghost whole = evicted(m, order@, 0, max_entries as nat, max_bytes as nat);
        proof {
            assert forall|k: u64| #[trigger] m.contains_key(k) implies exists|j: int|
                0 <= j < order@.len() && (#[trigger] order@[j]).1 == k by {
                let x = (m[k].last_used, k);
                assert(order@.contains(x));
                let j = choose|j: int| 0 <= j < order@.len() && order@[j] == x;
                assert(order@[j].1 == k);
            }
        }
        let mut i: usize = 0;
        while i < order.len() && (self.nodes.len() > max_entries || self.bytes > max_bytes)
            invariant
                self.wf(),
                i <= order@.len(),
                self@.epoch == old(self)@.epoch,
                self@.tick == old(self)@.tick,
                whole == evicted(
                    self@.nodes,
                    order@,
                    i as int,
                    max_entries as nat,
                    max_bytes as nat,
                ),
                forall|k: u64| #[trigger]
                    self@.nodes.contains_key(k) ==> exists|j: int|
                        i <= j < order@.len() && (#[trigger] order@[j]).1 == k,
            decreases order.len() - i,
        {
            proof {
                self.lemma_dom();
            }
            self.evict(order[i].1);
            i = i + 1;
        }
        proof {
            self.lemma_dom();
            if i == order@.len() {
                assert(self@.nodes.dom() =~= Set::empty());
            }
        }
    }
}

impl Default for GeomCache {
    fn default() -> (r: Self)
        ensures
            r.wf(),
            r@.nodes =~= Map::empty(),
            r@.epoch == 1,
            r@.tick == 0,
    {
        GeomCache::new()
    }
}

// ---- the payload of a blob --------------------------------------------------

/// The payload of the entries from the `i`-th on.
spec fn entries_payload(s: Seq<EntryView>, i: int) -> nat
    decreases s.len() - i,
{
    if i < 0 || i >= s.len() {
        0
    } else {
        s[i].mesh.payload() + entries_payload(s, i + 1)
    }
}

proof fn lemma_points_size(n: nat, b: Seq<u8>)
    ensures
        match parse_points(n, b) {
            Some((v, rest)) => v.len() == n && b.len() == rest.len() + n * 24,
            None => true,
        },
    decreases n,
{
    if n > 0 {
        if let Some((p, rest)) = crate::blob::parse_point(b) {
            lemma_points_size((n - 1) as nat, rest);
        }
    }
}

proof fn lemma_triangles_size(n: nat, b: Seq<u8>)
    ensures
        match parse_triangles(n, b) {
            Some((v, rest)) => v.len() == n && b.len() == rest.len() + n * 12,
            None => true,
        },
    decreases n,
{
    if n > 0 {
        if let Some((p, rest)) = crate::blob::parse_triangle(b) {
            lemma_triangles_size((n - 1) as nat, rest);
        }
    }
}

proof fn lemma_texts_size(n: nat, b: Seq<u8>)
    ensures
        match parse_texts(n, b) {
            Some((v, rest)) => v.len() == n && b.len() >= rest.len(),
            None => true,
        },
    decreases n,
{
    if n > 0 {
        if let Some((p, rest)) = crate::blob::parse_text32(b) {
            lemma_texts_size((n - 1) as nat, rest);
        }
    }
}

proof fn lemma_entry_size(b: Seq<u8>)
    ensures
        match parse_entry(b) {
            Some((e, rest)) => b.len() >= rest.len() + e.mesh.payload(),
            None => true,
        },
{
    if let Some(((key, nverts, ntris, nwarn, nerr), r0)) = crate::blob::parse_entry_head(b) {
        lemma_points_size(nverts as nat, r0);
        if let Some((verts, r1)) = parse_points(nverts as nat, r0) {
            lemma_triangles_size(ntris as nat, r1);
            if let Some((tris, r2)) = parse_triangles(ntris as nat, r1) {
                lemma_texts_size(nwarn as nat, r2);
                if let Some((w, r3)) = parse_texts(nwarn as nat, r2) {
                    lemma_texts_size(nerr as nat, r3);
                }
            }
        }
    }
}

proof fn lemma_payload_front(e: EntryView, s: Seq<EntryView>, i: int)
    requires
        i >= 0,
    ensures
        entries_payload(seq![e] + s, i + 1) == entries_payload(s, i),
    decreases s.len() - i,
{
    if i < s.len() {
        assert((seq![e] + s)[i + 1] == s[i]);
        lemma_payload_front(e, s, i + 1);
    }
}

proof fn lemma_entries_size(n: nat, b: Seq<u8>)
    ensures
        match parse_entries(n, b) {
            Some((v, rest)) => v.len() == n && b.len() >= rest.len() + entries_payload(v, 0),
            None => true,
        },
    decreases n,
{
    if n > 0 {
        lemma_entry_size(b);
        if let Some((e, rest)) = parse_entry(b) {
            lemma_entries_size((n - 1) as nat, rest);
            if let Some((v, rest2)) = parse_entries((n - 1) as nat, rest) {
                lemma_payload_front(e, v, 0);
                assert((seq![e] + v)[0] == e);
            }
        }
    }
}

/// The meshes that a blob yields are no larger than the blob.
proof fn lemma_blob_payload(bytes: Seq<u8>, engine: Seq<char>, kernel: Seq<char>)
    ensures
        match parse_blob(bytes, engine, kernel) {
            Ok(v) => v.len() <= u32::MAX && entries_payload(v, 0) <= bytes.len(),
            Err(_) => true,
        },
{
    if parse_blob(bytes, engine, kernel) is Ok {
        let r0 = bytes.skip(4);
        let r1 = r0.skip(4);
        let r2 = crate::blob::parse_field(r1, "hash algorithm"@, crate::blob::HASH_ALGO@)->Ok_0;
        let r3 = crate::blob::parse_field(r2, "engine version"@, engine)->Ok_0;
        let r4 = crate::blob::parse_field(r3, "kernel"@, kernel)->Ok_0;
        let r5 = r4.skip(8);
        let (count, r6) = crate::blob::parse_u32(r5)->0;
        lemma_entries_size(count as nat, r6);
    }
}

/// What is taken in adds to the payload, and no more than the entries hold.
proof fn lemma_room(c: CacheView, entries: Seq<EntryView>, i: int)
    requires
        0 <= i <= entries.len(),
        c.nodes.dom().finite(),
    ensures
        payload(c.nodes) <= payload(taken_in(c, entries, i).nodes),
        payload(taken_in(c, entries, i).nodes) <= payload(c.nodes) + entries_payload(entries, i),
        newcomers(c, entries, i) <= entries.len() - i,
    decreases entries.len() - i,
{
    if i < entries.len() {
        if c.nodes.contains_key(entries[i].key) {
            lemma_room(c, entries, i + 1);
        } else {
            let n = NodeView {
                mesh: entries[i].mesh,
                warnings: entries[i].warnings,
                errors: entries[i].errors,
                epoch: 0,
                last_used: (c.tick + 1) as u64,
            };
            let next = CacheView {
                nodes: c.nodes.insert(entries[i].key, n),
                epoch: c.epoch,
                tick: (c.tick + 1) as u64,
            };
            lemma_payload_insert(c.nodes, entries[i].key, n);
            lemma_room(next, entries, i + 1);
        }
    }
}

// ---- laws ---------------------------------------------------------------------

/// A node as an import stamps it: epoch 0 and a new last use.
pub open spec fn restamped(n: NodeView, last_used: int) -> NodeView {
    NodeView { epoch: 0, last_used: last_used as u64, ..n }
}

proof fn lemma_recency_keys(m: Map<u64, NodeView>, order: Seq<(u64, u64)>)
    requires
        is_recency(m, 0, order),
    ensures
        forall|i: int|
            0 <= i < order.len() ==> m.contains_key((#[trigger] order[i]).1) && order[i].0
                == m[order[i].1].last_used,
        forall|i: int, j: int|
            0 <= i < order.len() && 0 <= j < order.len() && i != j ==> (#[trigger] order[i]).1 != (
            #[trigger] order[j]).1,
        forall|k: u64| #[trigger]
            m.contains_key(k) ==> exists|j: int|
                0 <= j < order.len() && (#[trigger] order[j]).1 == k,
{
    assert forall|i: int| 0 <= i < order.len() implies m.contains_key((#[trigger] order[i]).1)
        && order[i].0 == m[order[i].1].last_used by {
        assert(order.contains((order[i].0, order[i].1)));
    }
    assert forall|k: u64| #[trigger] m.contains_key(k) implies exists|j: int|
        0 <= j < order.len() && (#[trigger] order[j]).1 == k by {
        let x = (m[k].last_used, k);
        assert(order.contains(x));
        let j = choose|j: int| 0 <= j < order.len() && order[j] == x;
        assert(order[j].1 == k);
    }
}

/// The nodes of the first `i` listed keys, restamped after tick `t`.
spec fn restored(
    d: Map<u64, NodeView>,
    m: Map<u64, NodeView>,
    order: Seq<(u64, u64)>,
    i: int,
    t: int,
) -> bool {
    &&& forall|k: u64| #[trigger]
        d.contains_key(k) ==> exists|j: int| 0 <= j < i && (#[trigger] order[j]).1 == k
    &&& forall|j: int|
        0 <= j < i ==> d.contains_key((#[trigger] order[j]).1) && d[order[j].1] == restamped(
            m[order[j].1],
            t + j + 1,
        )
}

proof fn lemma_taken_in_fresh(
    cur: CacheView,
    m: Map<u64, NodeView>,
    order: Seq<(u64, u64)>,
    i: int,
    t: int,
)
    requires
        is_recency(m, 0, order),
        0 <= i <= order.len(),
        0 <= t,
        t + order.len() <= u64::MAX,
        cur.tick == t + i,
        restored(cur.nodes, m, order, i, t),
    ensures
        restored(
            taken_in(cur, entries_in(m, order), i).nodes,
            m,
            order,
            order.len() as int,
            t,
        ),
        taken_in(cur, entries_in(m, order), i).tick == t + order.len(),
        taken_in(cur, entries_in(m, order), i).epoch == cur.epoch,
    decreases order.len() - i,
{
    let entries = entries_in(m, order);
    if i < order.len() {
        lemma_recency_keys(m, order);
        let k = order[i].1;
        assert(entries[i] == entry_of(k, m[k]));
        if cur.nodes.contains_key(k) {
            let j = choose|j: int| 0 <= j < i && (#[trigger] order[j]).1 == k;
            assert(false);
        }
        let next = CacheView {
            nodes: cur.nodes.insert(k, restamped(m[k], cur.tick + 1)),
            epoch: cur.epoch,
            tick: (cur.tick + 1) as u64,
        };
        assert(restored(next.nodes, m, order, i + 1, t)) by {
            assert forall|q: u64| #[trigger] next.nodes.contains_key(q) implies exists|j: int|
                0 <= j < i + 1 && (#[trigger] order[j]).1 == q by {
                if q == k {
                    assert(order[i].1 == q);
                } else {
                    assert(cur.nodes.contains_key(q));
                }
            }
        }
        lemma_taken_in_fresh(next, m, order, i + 1, t);
    }
}

/// A full export, imported into an empty cache, restores every key with its
/// exact mesh and diagnostics and the same payload; each restored node carries
/// epoch 0 and is stamped in the exporter's order of use.
pub proof fn law_export_import_restores(
    m: Map<u64, NodeView>,
    order: Seq<(u64, u64)>,
    fresh: CacheView,
)
    requires
        m.dom().finite(),
        is_recency(m, 0, order),
        fresh.nodes =~= Map::<u64, NodeView>::empty(),
        fresh.tick + order.len() <= u64::MAX,
    ensures
        ({
            let d = taken_in(fresh, entries_in(m, order), 0);
            &&& d.nodes.dom() =~= m.dom()
            &&& d.epoch == fresh.epoch
            &&& d.tick == fresh.tick + m.len()
            &&& payload(d.nodes) == payload(m)
            &&& forall|i: int|
                0 <= i < order.len() ==> d.nodes[(#[trigger] order[i]).1] == restamped(
                    m[order[i].1],
                    fresh.tick + i + 1,
                )
        }),
{
    let d = taken_in(fresh, entries_in(m, order), 0);
    lemma_taken_in_fresh(fresh, m, order, 0, fresh.tick as int);
    lemma_recency_keys(m, order);
    assert(d.nodes.dom() =~= m.dom());
    assert forall|k: u64| m.dom().contains(k) implies #[trigger] d.nodes[k].mesh == m[k].mesh by {
        let j = choose|j: int| 0 <= j < order.len() && (#[trigger] order[j]).1 == k;
        assert(order[j].1 == k);
    }
    lemma_same_payload(m, d.nodes, m.dom());
    let keys = order.map_values(|p: (u64, u64)| p.1);
    assert(keys.no_duplicates());
    keys.unique_seq_to_set();
    assert(keys.to_set() =~= m.dom()) by {
        assert forall|k: u64| keys.to_set().contains(k) <==> m.dom().contains(k) by {
            if m.dom().contains(k) {
                let j = choose|j: int| 0 <= j < order.len() && (#[trigger] order[j]).1 == k;
                assert(keys[j] == k);
            }
            if keys.contains(k) {
                let j = choose|j: int| 0 <= j < keys.len() && keys[j] == k;
                assert(order[j].1 == k);
            }
        }
    }
}

proof fn lemma_same_payload(m1: Map<u64, NodeView>, m2: Map<u64, NodeView>, s: Set<u64>)
    requires
        s.finite(),
        forall|k: u64| s.contains(k) ==> #[trigger] m2[k].mesh == m1[k].mesh,
    ensures
        payload_of(m1, s) == payload_of(m2, s),
    decreases s.len(),
{
    if s.len() != 0 {
        lemma_same_payload(m1, m2, s.remove(s.choose()));
    }
}

/// The recency list of an imported cache names the exporter's keys in the
/// exporter's order.
pub open spec fn relisted(order: Seq<(u64, u64)>, t: int) -> Seq<(u64, u64)> {
    Seq::new(order.len(), |i: int| ((t + i + 1) as u64, order[i].1))
}

proof fn lemma_evicted_alike(
    m: Map<u64, NodeView>,
    d: Map<u64, NodeView>,
    order: Seq<(u64, u64)>,
    t: int,
    i: int,
    max_entries: nat,
    max_bytes: nat,
)
    requires
        m.dom().finite(),
        m.dom() =~= d.dom(),
        forall|k: u64| #[trigger] m.contains_key(k) ==> d[k].mesh == m[k].mesh,
        0 <= i <= order.len(),
    ensures
        evicted(m, order, i, max_entries, max_bytes).dom() =~= evicted(
            d,
            relisted(order, t),
            i,
            max_entries,
            max_bytes,
        ).dom(),
    decreases order.len() - i,
{
    assert forall|k: u64| m.dom().contains(k) implies #[trigger] d[k].mesh == m[k].mesh by {
        assert(m.contains_key(k));
    }
    lemma_same_payload(m, d, m.dom());
    if i < order.len() {
        let k = order[i].1;
        assert(relisted(order, t)[i].1 == k);
        lemma_evicted_alike(
            m.remove(k),
            d.remove(k),
            order,
            t,
            i + 1,
            max_entries,
            max_bytes,
        );
    }
}

/// The exporter's order of use survives the round trip: trimming an imported
/// cache keeps exactly the keys that trimming the exporter keeps.
pub proof fn law_import_preserves_recency(
    m: Map<u64, NodeView>,
    order: Seq<(u64, u64)>,
    fresh: CacheView,
    max_entries: nat,
    max_bytes: nat,
)
    requires
        m.dom().finite(),
        is_recency(m, 0, order),
        fresh.nodes =~= Map::<u64, NodeView>::empty(),
        fresh.tick + order.len() <= u64::MAX,
    ensures
        ({
            let d = taken_in(fresh, entries_in(m, order), 0).nodes;
            &&& is_recency(d, 0, relisted(order, fresh.tick as int))
            &&& evicted(m, order, 0, max_entries, max_bytes).dom() =~= evicted(
                d,
                relisted(order, fresh.tick as int),
                0,
                max_entries,
                max_bytes,
            ).dom()
        }),
{
    let d = taken_in(fresh, entries_in(m, order), 0).nodes;
    let t = fresh.tick as int;
    let list = relisted(order, t);
    law_export_import_restores(m, order, fresh);
    lemma_recency_keys(m, order);
    assert forall|l: u64, k: u64| #[trigger]
        list.contains((l, k)) <==> d.contains_key(k) && d[k].epoch >= 0 && d[k].last_used == l by {
        if list.contains((l, k)) {
            let j = choose|j: int| 0 <= j < list.len() && list[j] == (l, k);
            assert(order[j].1 == k);
        }
        if d.contains_key(k) && d[k].last_used == l {
            assert(m.contains_key(k));
            let j = choose|j: int| 0 <= j < order.len() && (#[trigger] order[j]).1 == k;
            assert(list[j] == (l, k));
        }
    }
    assert forall|k: u64| #[trigger] m.contains_key(k) implies d[k].mesh == m[k].mesh by {
        let j = choose|j: int| 0 <= j < order.len() && (#[trigger] order[j]).1 == k;
        assert(order[j].1 == k);
    }
    lemma_evicted_alike(m, d, order, t, 0, max_entries, max_bytes);
}

/// An import never changes a resident node, never moves the epoch, and makes
/// every key of the blob resident.
pub proof fn law_resident_keys_win(c: CacheView, entries: Seq<EntryView>)
    ensures
        ({
            let d = taken_in(c, entries, 0);
            &&& d.epoch == c.epoch
            &&& forall|k: u64| #[trigger]
                c.nodes.contains_key(k) ==> d.nodes.contains_key(k) && d.nodes[k] == c.nodes[k]
            &&& forall|k: u64| #[trigger]
                d.nodes.contains_key(k) && !c.nodes.contains_key(k) ==> d.nodes[k].epoch == 0
            &&& forall|j: int|
                0 <= j < entries.len() ==> d.nodes.contains_key((#[trigger] entries[j]).key)
        }),
{
    lemma_keys_stay(c, entries, 0);
}

proof fn lemma_keys_stay(c: CacheView, entries: Seq<EntryView>, i: int)
    requires
        0 <= i <= entries.len(),
    ensures
        ({
            let d = taken_in(c, entries, i);
            &&& d.epoch == c.epoch
            &&& forall|k: u64| #[trigger]
                c.nodes.contains_key(k) ==> d.nodes.contains_key(k) && d.nodes[k] == c.nodes[k]
            &&& forall|k: u64| #[trigger]
                d.nodes.contains_key(k) && !c.nodes.contains_key(k) ==> d.nodes[k].epoch == 0
            &&& forall|j: int|
                i <= j < entries.len() ==> d.nodes.contains_key((#[trigger] entries[j]).key)
        }),
    decreases entries.len() - i,
{
    if i < entries.len() {
        if c.nodes.contains_key(entries[i].key) {
            lemma_keys_stay(c, entries, i + 1);
        } else {
            let next = CacheView {
                nodes: c.nodes.insert(
                    entries[i].key,
                    NodeView {
                        mesh: entries[i].mesh,
                        warnings: entries[i].warnings,
                        errors: entries[i].errors,
                        epoch: 0,
                        last_used: (c.tick + 1) as u64,
                    },
                ),
                epoch: c.epoch,
                tick: (c.tick + 1) as u64,
            };
            lemma_keys_stay(next, entries, i + 1);
            assert(next.nodes.contains_key(entries[i].key));
            let d = taken_in(c, entries, i);
            assert forall|k: u64| #[trigger] c.nodes.contains_key(k) implies d.nodes.contains_key(k)
                && d.nodes[k] == c.nodes[k] by {
                assert(next.nodes.contains_key(k));
            }
            assert forall|k: u64| #[trigger]
                d.nodes.contains_key(k) && !c.nodes.contains_key(k) implies d.nodes[k].epoch == 0 by {
                assert(next.nodes.contains_key(k) ==> k == entries[i].key);
            }
        }
    }
}

/// Importing the same entries again takes in none of them and changes nothing, and
/// there is always room for it.
pub proof fn law_import_idempotent(c: CacheView, entries: Seq<EntryView>)
    ensures
        taken_in(taken_in(c, entries, 0), entries, 0) == taken_in(c, entries, 0),
        newcomers(taken_in(c, entries, 0), entries, 0) == 0,
        payload(taken_in(c, entries, 0).nodes) <= usize::MAX ==> has_room(
            taken_in(c, entries, 0),
            entries,
        ),
{
    let d = taken_in(c, entries, 0);
    lemma_keys_stay(c, entries, 0);
    lemma_all_resident(d, entries, 0);
}

proof fn lemma_all_resident(d: CacheView, entries: Seq<EntryView>, i: int)
    requires
        0 <= i <= entries.len(),
        forall|j: int|
            i <= j < entries.len() ==> d.nodes.contains_key((#[trigger] entries[j]).key),
    ensures
        taken_in(d, entries, i) == d,
        newcomers(d, entries, i) == 0,
    decreases entries.len() - i,
{
    if i < entries.len() {
        lemma_all_resident(d, entries, i + 1);
    }
}

/// The incremental protocol: where no node is from a later epoch than the
/// cache, an export from the epoch after an export lists exactly the nodes that
/// were rendered since, and nothing if none were; imported nodes, whose epoch is
/// 0, are never listed by an export from epoch 1 or later.
pub proof fn law_incremental_export(
    before: CacheView,
    after: Map<u64, NodeView>,
    order: Seq<(u64, u64)>,
    since: u64,
)
    requires
        forall|k: u64| #[trigger]
            before.nodes.contains_key(k) ==> before.nodes[k].epoch <= before.epoch,
        since == before.epoch + 1,
        is_recency(after, since, order),
    ensures
        forall|k: u64|
            #![trigger after.contains_key(k)]
            after.contains_key(k) && before.nodes.contains_key(k) && after[k].epoch
                == before.nodes[k].epoch ==> !order.contains((after[k].last_used, k)),
        forall|k: u64|
            #![trigger after.contains_key(k)]
            after.contains_key(k) && after[k].epoch == since ==> order.contains(
                (after[k].last_used, k),
            ),
        forall|k: u64|
            #![trigger after.contains_key(k)]
            after.contains_key(k) && after[k].epoch == 0 ==> !order.contains(
                (after[k].last_used, k),
            ),
        after == before.nodes ==> order.len() == 0,
{
    if after == before.nodes && order.len() > 0 {
        let p = order[0];
        assert(order.contains((p.0, p.1)));
    }
}

/// Trimming is least recently used first, by key where two nodes were used at the
/// same time: what is evicted stands before anything that stays. Both budgets hold
/// afterwards, or nothing is left, and a budget was broken before the last
/// eviction.
pub proof fn law_trim_is_lru(
    m: Map<u64, NodeView>,
    order: Seq<(u64, u64)>,
    max_entries: nat,
    max_bytes: nat,
)
    requires
        is_recency(m, 0, order),
    ensures
        ({
            let d = evicted(m, order, 0, max_entries, max_bytes);
            &&& d.dom().subset_of(m.dom())
            &&& forall|k: u64| #[trigger] d.contains_key(k) ==> d[k] == m[k]
            &&& forall|gone: u64, kept: u64|
                #![trigger d.contains_key(gone), d.contains_key(kept)]
                m.contains_key(gone) && !d.contains_key(gone) && d.contains_key(kept)
                    ==> m[gone].last_used < m[kept].last_used || (m[gone].last_used
                    == m[kept].last_used && gone < kept)
            &&& within_budget(m, max_entries, max_bytes) ==> d == m
            &&& within_budget(d, max_entries, max_bytes) || d.dom() =~= Set::empty()
            &&& d != m ==> exists|last: u64|
                #![trigger m.contains_key(last)]
                m.contains_key(last) && !d.contains_key(last) && !within_budget(
                    d.insert(last, m[last]),
                    max_entries,
                    max_bytes,
                )
        }),
{
    lemma_recency_keys(m, order);
    lemma_trim_prefix(m, m, order, 0, max_entries, max_bytes);
    let d = evicted(m, order, 0, max_entries, max_bytes);
    let n = choose|n: int|
        0 <= n <= order.len() && #[trigger] dropped(m, d, order, n);
    assert forall|gone: u64, kept: u64|
        #![trigger d.contains_key(gone), d.contains_key(kept)]
        m.contains_key(gone) && !d.contains_key(gone) && d.contains_key(
            kept,
        ) implies m[gone].last_used < m[kept].last_used || (m[gone].last_used
        == m[kept].last_used && gone < kept) by {
        let i = choose|i: int| 0 <= i < order.len() && (#[trigger] order[i]).1 == gone;
        let j = choose|j: int| 0 <= j < order.len() && (#[trigger] order[j]).1 == kept;
        assert(order[i].1 == gone);
        assert(order[j].1 == kept);
        assert(i < n <= j);
        assert(order[i].rank_le(&order[j]));
    }
    lemma_trim_stops(m, m, order, 0, max_entries, max_bytes);
}

/// Where eviction stops.
proof fn lemma_trim_stops(
    m: Map<u64, NodeView>,
    cur: Map<u64, NodeView>,
    order: Seq<(u64, u64)>,
    i: int,
    max_entries: nat,
    max_bytes: nat,
)
    requires
        is_recency(m, 0, order),
        0 <= i <= order.len(),
        dropped(m, cur, order, i),
    ensures
        ({
            let d = evicted(cur, order, i, max_entries, max_bytes);
            &&& within_budget(d, max_entries, max_bytes) || d.dom() =~= Set::empty()
            &&& d != cur ==> exists|last: u64|
                #![trigger m.contains_key(last)]
                m.contains_key(last) && !d.contains_key(last) && !within_budget(
                    d.insert(last, m[last]),
                    max_entries,
                    max_bytes,
                )
        }),
    decreases order.len() - i,
{
    lemma_recency_keys(m, order);
    let d = evicted(cur, order, i, max_entries, max_bytes);
    if i >= order.len() {
        assert forall|k: u64| !#[trigger] cur.contains_key(k) by {
            if cur.contains_key(k) {
                assert(m.contains_key(k));
                let j = choose|j: int| 0 <= j < order.len() && (#[trigger] order[j]).1 == k;
                assert(!cur.contains_key(order[j].1));
            }
        }
        assert(cur.dom() =~= Set::empty());
    } else if !within_budget(cur, max_entries, max_bytes) {
        let gone = order[i].1;
        let next = cur.remove(gone);
        assert(dropped(m, next, order, i + 1));
        lemma_trim_stops(m, next, order, i + 1, max_entries, max_bytes);
        if d == next {
            assert(cur.contains_key(gone) && cur[gone] == m[gone]);
            assert(d.insert(gone, m[gone]) =~= cur);
            assert(m.contains_key(gone) && !d.contains_key(gone));
        }
    }
}

/// `d` is `m` without the first `n` listed keys.
spec fn dropped(
    m: Map<u64, NodeView>,
    d: Map<u64, NodeView>,
    order: Seq<(u64, u64)>,
    n: int,
) -> bool {
    &&& forall|j: int| 0 <= j < n ==> !d.contains_key((#[trigger] order[j]).1)
    &&& forall|j: int|
        n <= j < order.len() ==> d.contains_key((#[trigger] order[j]).1) && d[order[j].1]
            == m[order[j].1]
    &&& d.dom().subset_of(m.dom())
}

proof fn lemma_trim_prefix(
    m: Map<u64, NodeView>,
    cur: Map<u64, NodeView>,
    order: Seq<(u64, u64)>,
    i: int,
    max_entries: nat,
    max_bytes: nat,
)
    requires
        is_recency(m, 0, order),
        0 <= i <= order.len(),
        dropped(m, cur, order, i),
    ensures
        exists|n: int|
            0 <= n <= order.len() && #[trigger] dropped(
                m,
                evicted(cur, order, i, max_entries, max_bytes),
                order,
                n,
            ),
    decreases order.len() - i,
{
    if i < order.len() && !within_budget(cur, max_entries, max_bytes) {
        lemma_recency_keys(m, order);
        assert(dropped(m, cur.remove(order[i].1), order, i + 1));
        let next = cur.remove(order[i].1);
        lemma_trim_prefix(m, next, order, i + 1, max_entries, max_bytes);
        let d = evicted(next, order, i + 1, max_entries, max_bytes);
        let n = choose|n: int| 0 <= n <= order.len() && #[trigger] dropped(m, d, order, n);
        assert(evicted(cur, order, i, max_entries, max_bytes) == d);
        assert(dropped(m, evicted(cur, order, i, max_entries, max_bytes), order, n));
    } else {
        assert(dropped(m, evicted(cur, order, i, max_entries, max_bytes), order, i));
    }
}

/// What an import reads from a full export, written by an engine with the same
/// envelope, is the exporter's nodes in their order of use.
pub proof fn law_export_reads_back(
    engine: Seq<char>,
    kernel: Seq<char>,
    epoch: u64,
    m: Map<u64, NodeView>,
    order: Seq<(u64, u64)>,
)
    requires
        encode_utf8(engine).len() <= u16::MAX,
        encode_utf8(kernel).len() <= u16::MAX,
        order.len() <= u32::MAX,
        forall|i: int| 0 <= i < order.len() ==> entry_fits(#[trigger] entries_in(m, order)[i]),
    ensures
        parse_blob(
            blob_bytes(engine, kernel, epoch, entries_in(m, order)),
            engine,
            kernel,
        ) == Ok::<Seq<EntryView>, Refusal>(entries_in(m, order)),
{
    let blob = blob_bytes(engine, kernel, epoch, entries_in(m, order));
    law_blob_round_trip(engine, kernel, epoch, entries_in(m, order), Seq::empty());
    assert(blob + Seq::<u8>::empty() =~= blob);
}

/// The fields of a blob have room for the nodes: names, counts and texts are not
/// longer than the numbers that hold their lengths.
pub open spec fn writable(
    engine: Seq<char>,
    kernel: Seq<char>,
    m: Map<u64, NodeView>,
    order: Seq<(u64, u64)>,
) -> bool {
    &&& encode_utf8(engine).len() <= u16::MAX
    &&& encode_utf8(kernel).len() <= u16::MAX
    &&& order.len() <= u32::MAX
    &&& forall|i: int| 0 <= i < order.len() ==> entry_fits(#[trigger] entries_in(m, order)[i])
}

/// A full export that an empty cache imports restores the exporter: it is not
/// refused, every entry is taken in and none is skipped, the keys and the payload
/// are the exporter's, and every key has the exact mesh, warnings and errors.
pub proof fn law_export_import_round_trip(
    engine: Seq<char>,
    kernel: Seq<char>,
    epoch: u64,
    m: Map<u64, NodeView>,
    order: Seq<(u64, u64)>,
    fresh: CacheView,
)
    requires
        m.dom().finite(),
        is_recency(m, 0, order),
        writable(engine, kernel, m, order),
        fresh.nodes =~= Map::<u64, NodeView>::empty(),
        fresh.tick + u32::MAX <= u64::MAX,
    ensures
        ({
            let entries = entries_in(m, order);
            let d = taken_in(fresh, entries, 0);
            &&& parse_blob(blob_bytes(engine, kernel, epoch, entries), engine, kernel) == Ok::<
                Seq<EntryView>,
                Refusal,
            >(entries)
            &&& newcomers(fresh, entries, 0) == m.len()
            &&& entries.len() == m.len()
            &&& d.nodes.dom() =~= m.dom()
            &&& payload(d.nodes) == payload(m)
            &&& forall|k: u64| #[trigger]
                m.contains_key(k) ==> d.nodes[k].mesh == m[k].mesh && d.nodes[k].warnings
                    == m[k].warnings && d.nodes[k].errors == m[k].errors
        }),
{
    let entries = entries_in(m, order);
    let d = taken_in(fresh, entries, 0);
    law_export_reads_back(engine, kernel, epoch, m, order);
    law_export_import_restores(m, order, fresh);
    lemma_clock(fresh, entries, 0);
    lemma_room(fresh, entries, 0);
    lemma_taken_in_fresh(fresh, m, order, 0, fresh.tick as int);
    lemma_recency_keys(m, order);
    assert forall|k: u64| #[trigger] m.contains_key(k) implies d.nodes[k].mesh == m[k].mesh
        && d.nodes[k].warnings == m[k].warnings && d.nodes[k].errors == m[k].errors by {
        let j = choose|j: int| 0 <= j < order.len() && (#[trigger] order[j]).1 == k;
        assert(order[j].1 == k);
    }
}

/// Each entry that is taken in takes a tick.
proof fn lemma_clock(c: CacheView, entries: Seq<EntryView>, i: int)
    requires
        0 <= i <= entries.len(),
        c.tick + (entries.len() - i) <= u64::MAX,
    ensures
        taken_in(c, entries, i).tick == c.tick + newcomers(c, entries, i),
    decreases entries.len() - i,
{
    if i < entries.len() {
        if c.nodes.contains_key(entries[i].key) {
            lemma_clock(c, entries, i + 1);
        } else {
            let next = CacheView {
                nodes: c.nodes.insert(
                    entries[i].key,
                    NodeView {
                        mesh: entries[i].mesh,
                        warnings: entries[i].warnings,
                        errors: entries[i].errors,
                        epoch: 0,
                        last_used: (c.tick + 1) as u64,
                    },
                ),
                epoch: c.epoch,
                tick: (c.tick + 1) as u64,
            };
            lemma_clock(next, entries, i + 1);
        }
    }
}

/// An empty cache that has imported a full export evicts what the exporter would:
/// trimmed to the same budgets, both keep the same keys.
pub proof fn law_importer_evicts_alike(
    engine: Seq<char>,
    kernel: Seq<char>,
    epoch: u64,
    m: Map<u64, NodeView>,
    fresh: CacheView,
    max_entries: nat,
    max_bytes: nat,
)
    requires
        m.dom().finite(),
        is_recency(m, 0, recency(m, 0)),
        writable(engine, kernel, m, recency(m, 0)),
        fresh.nodes =~= Map::<u64, NodeView>::empty(),
        fresh.tick + u32::MAX <= u64::MAX,
    ensures
        ({
            let entries = entries_in(m, recency(m, 0));
            let d = taken_in(fresh, entries, 0).nodes;
            &&& parse_blob(blob_bytes(engine, kernel, epoch, entries), engine, kernel) == Ok::<
                Seq<EntryView>,
                Refusal,
            >(entries)
            &&& evicted(d, recency(d, 0), 0, max_entries, max_bytes).dom() =~= evicted(
                m,
                recency(m, 0),
                0,
                max_entries,
                max_bytes,
            ).dom()
        }),
{
    let order = recency(m, 0);
    let d = taken_in(fresh, entries_in(m, order), 0).nodes;
    law_export_reads_back(engine, kernel, epoch, m, order);
    law_import_preserves_recency(m, order, fresh, max_entries, max_bytes);
    let list = relisted(order, fresh.tick as int);
    assert(is_recency(d, 0, list));
    assert(is_recency(d, 0, recency(d, 0)));
    lemma_recency_unique(d, 0, list, recency(d, 0));
}

} // verus!
