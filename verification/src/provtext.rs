//! Where geometry comes from, as JSON.

use crate::blob::texts;
use crate::json::{array, json_array, json_field, json_object, json_quoted, object, put, quote};
use crate::provenance::{
    as_ints, ints_at_most, name_key, path, paths, plain, span_key, FrameView, ProvenanceFrame,
    SourceSpan,
};
use crate::text::{concat2, decimal, decimal_text, dictionary_le};
use vstd::prelude::*;

verus! {

/// How a source is named: by its key, or by its number where it has none.
pub open spec fn source_name(keys: Seq<Seq<char>>, id: u32) -> Seq<char> {
    if id < keys.len() {
        keys[id as int]
    } else {
        "source-"@ + decimal_text(id as nat)
    }
}

/// A span as JSON.
pub open spec fn span_text(s: SourceSpan, keys: Seq<Seq<char>>) -> Seq<char> {
    json_object(
        seq![
            json_field("end"@, decimal_text(s.end as nat)),
            json_field("source"@, json_quoted(source_name(keys, s.source_id))),
            json_field("sourceId"@, decimal_text(s.source_id as nat)),
            json_field("start"@, decimal_text(s.start as nat)),
        ],
    )
}

pub open spec fn definition_text(d: Option<SourceSpan>, keys: Seq<Seq<char>>) -> Seq<char> {
    match d {
        Some(s) => span_text(s, keys),
        None => "null"@,
    }
}

pub open spec fn module_text(name: Option<Seq<char>>) -> Seq<char> {
    match name {
        Some(s) => json_quoted(s),
        None => "null"@,
    }
}

/// A frame as JSON.
pub open spec fn frame_text(f: FrameView, keys: Seq<Seq<char>>) -> Seq<char> {
    json_object(
        seq![
            json_field("callSite"@, span_text(f.call_site, keys)),
            json_field("definitionSite"@, definition_text(f.definition_site, keys)),
            json_field("moduleName"@, module_text(f.module_name)),
        ],
    )
}

/// Frames as JSON, in order.
pub open spec fn frames_text(p: Seq<FrameView>, keys: Seq<Seq<char>>) -> Seq<char> {
    json_array(p.map_values(|f: FrameView| frame_text(f, keys)))
}

/// A span as JSON.
pub fn span_json(s: SourceSpan, keys: &Vec<String>) -> (r: String)
    ensures
        r@ == span_text(s, texts(keys@)),
{
    let mut fields: Vec<String> = Vec::new();
    let end = decimal(s.end as u64);
    put(&mut fields, "end", end.as_str());
    let source = if (s.source_id as usize) < keys.len() {
        assert(texts(keys@)[s.source_id as int] == keys@[s.source_id as int]@);
        quote(keys[s.source_id as usize].as_str())
    } else {
        let n = decimal(s.source_id as u64);
        let name = concat2("source-", n.as_str());
        quote(name.as_str())
    };
    put(&mut fields, "source", source.as_str());
    let id = decimal(s.source_id as u64);
    put(&mut fields, "sourceId", id.as_str());
    let start = decimal(s.start as u64);
    put(&mut fields, "start", start.as_str());
    assert(texts(fields@) =~= seq![
        json_field("end"@, decimal_text(s.end as nat)),
        json_field("source"@, json_quoted(source_name(texts(keys@), s.source_id))),
        json_field("sourceId"@, decimal_text(s.source_id as nat)),
        json_field("start"@, decimal_text(s.start as nat)),
    ]);
    object(&fields)
}

pub fn definition_json(d: Option<SourceSpan>, keys: &Vec<String>) -> (r: String)
    ensures
        r@ == definition_text(d, texts(keys@)),
{
    match d {
        Some(s) => span_json(s, keys),
        None => "null".to_owned(),
    }
}

pub fn module_json(name: &Option<String>) -> (r: String)
    ensures
        r@ == module_text(
            match *name {
                Some(s) => Some(s@),
                None => None,
            },
        ),
{
    match name {
        Some(s) => quote(s.as_str()),
        None => "null".to_owned(),
    }
}

/// A frame as JSON.
pub fn frame_json(f: &ProvenanceFrame, keys: &Vec<String>) -> (r: String)
    ensures
        r@ == frame_text(f@, texts(keys@)),
{
    let mut fields: Vec<String> = Vec::new();
    let call = span_json(f.call_site, keys);
    put(&mut fields, "callSite", call.as_str());
    let definition = definition_json(f.definition_site, keys);
    put(&mut fields, "definitionSite", definition.as_str());
    let module = module_json(&f.module_name);
    put(&mut fields, "moduleName", module.as_str());
    assert(texts(fields@) =~= seq![
        json_field("callSite"@, span_text(f@.call_site, texts(keys@))),
        json_field("definitionSite"@, definition_text(f@.definition_site, texts(keys@))),
        json_field("moduleName"@, module_text(f@.module_name)),
    ]);
    object(&fields)
}

/// Frames as JSON, in order.
pub fn ordered_provenance_json(frames: &Vec<ProvenanceFrame>, keys: &Vec<String>) -> (r: String)
    ensures
        r@ == frames_text(path(frames@), texts(keys@)),
{
    let mut items: Vec<String> = Vec::new();
    let ghost kv = texts(keys@);
    let ghost all = path(frames@).map_values(|f: FrameView| frame_text(f, kv));
    for i in 0..frames.len()
        invariant
            kv == texts(keys@),
            all == path(frames@).map_values(|f: FrameView| frame_text(f, kv)),
            texts(items@) =~= all.take(i as int),
    {
        let ghost before = texts(items@);
        items.push(frame_json(&frames[i], keys));
        assert(texts(items@) =~= before.push(all[i as int]));
    }
    assert(all.take(frames@.len() as int) =~= all);
    array(&items)
}

// ---- frames in order ---------------------------------------------------------------------

/// What frames are ordered by here: the call site, then the module name.
pub open spec fn site_key(f: FrameView) -> Seq<int> {
    span_key(f.call_site) + name_key(f.module_name)
}

pub open spec fn site_le(a: FrameView, b: FrameView) -> bool {
    dictionary_le(site_key(a), site_key(b), plain())
}

/// Puts a frame behind all that do not come after it.
pub open spec fn inserted(s: Seq<FrameView>, f: FrameView) -> Seq<FrameView>
    decreases s.len(),
{
    if s.len() == 0 || site_le(s.last(), f) {
        s.push(f)
    } else {
        inserted(s.drop_last(), f).push(s.last())
    }
}

/// Frames in order; equal ones keep theirs.
pub open spec fn by_site(p: Seq<FrameView>) -> Seq<FrameView>
    decreases p.len(),
{
    if p.len() == 0 {
        Seq::empty()
    } else {
        inserted(by_site(p.drop_last()), p.last())
    }
}

/// Drops every frame that repeats the one before it.
pub open spec fn without_echoes(p: Seq<FrameView>) -> Seq<FrameView>
    decreases p.len(),
{
    if p.len() == 0 {
        Seq::empty()
    } else if p.len() > 1 && p[p.len() - 2] == p.last() {
        without_echoes(p.drop_last())
    } else {
        without_echoes(p.drop_last()).push(p.last())
    }
}

/// Frames as JSON, in order of their call sites, repeated ones once.
pub open spec fn provenance_text(p: Seq<FrameView>, keys: Seq<Seq<char>>) -> Seq<char> {
    frames_text(without_echoes(by_site(p)), keys)
}

fn site_numbers(f: &ProvenanceFrame) -> (r: Vec<u64>)
    ensures
        as_ints(r@) == site_key(f@),
{
    let mut out: Vec<u64> = Vec::new();
    crate::provenance::push_span(&mut out, f.call_site);
    crate::provenance::push_name(&mut out, &f.module_name);
    assert(as_ints(out@) =~= site_key(f@));
    out
}

fn site_at_most(a: &ProvenanceFrame, b: &ProvenanceFrame) -> (r: bool)
    ensures
        r == site_le(a@, b@),
{
    let x = site_numbers(a);
    let y = site_numbers(b);
    ints_at_most(&x, &y)
}

proof fn lemma_inserted_at(s: Seq<FrameView>, f: FrameView, k: int)
    requires
        0 <= k <= s.len(),
        k == 0 || site_le(s[k - 1], f),
        forall|i: int| k <= i < s.len() ==> !site_le(#[trigger] s[i], f),
    ensures
        inserted(s, f) == s.insert(k, f),
    decreases s.len(),
{
    if s.len() == k {
        if s.len() > 0 {
            assert(s.last() == s[k - 1]);
        }
        assert(s.push(f) =~= s.insert(k, f));
    } else {
        assert(s.last() == s[s.len() - 1]);
        assert forall|i: int| k <= i < s.drop_last().len() implies !site_le(
            #[trigger] s.drop_last()[i],
            f,
        ) by {
            assert(s.drop_last()[i] == s[i]);
        }
        if k > 0 {
            assert(s.drop_last()[k - 1] == s[k - 1]);
        }
        lemma_inserted_at(s.drop_last(), f, k);
        assert(s.drop_last().insert(k, f).push(s.last()) =~= s.insert(k, f));
    }
}

fn sorted_by_site(frames: &Vec<ProvenanceFrame>) -> (r: Vec<ProvenanceFrame>)
    ensures
        path(r@) == by_site(path(frames@)),
{
    let mut out: Vec<ProvenanceFrame> = Vec::new();
    let ghost all = path(frames@);
    assert(all.take(0) =~= Seq::empty());
    assert(path(out@) =~= by_site(all.take(0)));
    let mut i: usize = 0;
    while i < frames.len()
        invariant
            all == path(frames@),
            i <= frames@.len(),
            path(out@) == by_site(all.take(i as int)),
        decreases frames.len() - i,
    {
        let f = &frames[i];
        let ghost fv = f@;
        let mut k: usize = out.len();
        while k > 0 && !site_at_most(&out[k - 1], f)
            invariant
                fv == f@,
                k <= out@.len(),
                forall|j: int| k <= j < out@.len() ==> !site_le(#[trigger] path(out@)[j], fv),
            decreases k,
        {
            assert(path(out@)[k - 1] == out@[k - 1]@);
            k = k - 1;
        }
        let ghost before = path(out@);
        proof {
            if k > 0 {
                assert(before[k - 1] == out@[k - 1]@);
            }
            lemma_inserted_at(before, fv, k as int);
            let t = all.take(i + 1);
            assert(t.drop_last() =~= all.take(i as int));
            assert(t.last() == fv);
        }
        let ghost had = out@;
        out.insert(k, f.duplicate());
        assert(path(out@) =~= before.insert(k as int, fv));
        i = i + 1;
    }
    assert(all.take(frames@.len() as int) =~= all);
    out
}

/// Frames as JSON, in order of their call sites, repeated ones once.
pub fn provenance_json(frames: &Vec<ProvenanceFrame>, keys: &Vec<String>) -> (r: String)
    ensures
        r@ == provenance_text(path(frames@), texts(keys@)),
{
    let order = sorted_by_site(frames);
    let ghost all = path(order@);
    let mut out: Vec<ProvenanceFrame> = Vec::new();
    assert(all.take(0) =~= Seq::empty());
    assert(path(out@) =~= without_echoes(all.take(0)));
    for i in 0..order.len()
        invariant
            all == path(order@),
            path(out@) == without_echoes(all.take(i as int)),
    {
        proof {
            let t = all.take(i + 1);
            assert(t.drop_last() =~= all.take(i as int));
            assert(t.last() == order@[i as int]@);
            if i > 0 {
                assert(t[t.len() - 2] == order@[i - 1]@);
            }
        }
        let echo: bool = i > 0 && order[i - 1].same(&order[i]);
        if !echo {
            let ghost before = path(out@);
            out.push(order[i].duplicate());
            assert(path(out@) =~= before.push(order@[i as int]@));
        }
    }
    assert(all.take(order@.len() as int) =~= all);
    ordered_provenance_json(&out, keys)
}

/// Several paths as JSON.
pub open spec fn paths_text(p: Seq<Seq<FrameView>>, keys: Seq<Seq<char>>) -> Seq<char> {
    json_array(p.map_values(|q: Seq<FrameView>| provenance_text(q, keys)))
}

/// Several paths as JSON.
pub fn paths_json(list: &Vec<Vec<ProvenanceFrame>>, keys: &Vec<String>) -> (r: String)
    ensures
        r@ == paths_text(paths(list@), texts(keys@)),
{
    let mut items: Vec<String> = Vec::new();
    let ghost kv = texts(keys@);
    let ghost all = paths(list@).map_values(|q: Seq<FrameView>| provenance_text(q, kv));
    for i in 0..list.len()
        invariant
            kv == texts(keys@),
            all == paths(list@).map_values(|q: Seq<FrameView>| provenance_text(q, kv)),
            texts(items@) =~= all.take(i as int),
    {
        let ghost before = texts(items@);
        items.push(provenance_json(&list[i], keys));
        assert(texts(items@) =~= before.push(all[i as int]));
    }
    assert(all.take(list@.len() as int) =~= all);
    array(&items)
}

/// Several paths as JSON, each in its own order.
pub open spec fn ordered_paths_text(p: Seq<Seq<FrameView>>, keys: Seq<Seq<char>>) -> Seq<char> {
    json_array(p.map_values(|q: Seq<FrameView>| frames_text(q, keys)))
}

/// Several paths as JSON, each in its own order.
pub fn ordered_paths_json(list: &Vec<Vec<ProvenanceFrame>>, keys: &Vec<String>) -> (r: String)
    ensures
        r@ == ordered_paths_text(paths(list@), texts(keys@)),
{
    let mut items: Vec<String> = Vec::new();
    let ghost kv = texts(keys@);
    let ghost all = paths(list@).map_values(|q: Seq<FrameView>| frames_text(q, kv));
    for i in 0..list.len()
        invariant
            kv == texts(keys@),
            all == paths(list@).map_values(|q: Seq<FrameView>| frames_text(q, kv)),
            texts(items@) =~= all.take(i as int),
    {
        let ghost before = texts(items@);
        items.push(ordered_provenance_json(&list[i], keys));
        assert(texts(items@) =~= before.push(all[i as int]));
    }
    assert(all.take(list@.len() as int) =~= all);
    array(&items)
}

/// The table of sources as JSON.
pub open spec fn sources_text(keys: Seq<Seq<char>>) -> Seq<char> {
    json_array(Seq::new(keys.len(), |i: int| source_entry(keys, i)))
}

pub open spec fn source_entry(keys: Seq<Seq<char>>, i: int) -> Seq<char> {
    json_object(
        seq![
            json_field("source"@, json_quoted(keys[i])),
            json_field("sourceId"@, decimal_text(i as nat)),
        ],
    )
}

/// The table of sources as JSON.
pub fn sources_json(keys: &Vec<String>) -> (r: String)
    ensures
        r@ == sources_text(texts(keys@)),
{
    let mut items: Vec<String> = Vec::new();
    let ghost kv = texts(keys@);
    let ghost all = Seq::new(kv.len(), |i: int| source_entry(kv, i));
    for i in 0..keys.len()
        invariant
            kv == texts(keys@),
            all == Seq::new(kv.len(), |i: int| source_entry(kv, i)),
            texts(items@) =~= all.take(i as int),
    {
        let mut fields: Vec<String> = Vec::new();
        let name = quote(keys[i].as_str());
        put(&mut fields, "source", name.as_str());
        let id = decimal(i as u64);
        put(&mut fields, "sourceId", id.as_str());
        assert(texts(fields@) =~= seq![
            json_field("source"@, json_quoted(kv[i as int])),
            json_field("sourceId"@, decimal_text(i as nat)),
        ]);
        let ghost before = texts(items@);
        items.push(object(&fields));
        assert(texts(items@) =~= before.push(all[i as int]));
    }
    assert(all.take(keys@.len() as int) =~= all);
    array(&items)
}

} // verus!
