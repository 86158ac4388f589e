//! Where geometry comes from: stacks of call sites, authored module paths.

use crate::rank::Ranked;
use crate::text::{
    chars_of, dictionary_le, lemma_dictionary_antisymmetric, lemma_dictionary_total,
    lemma_dictionary_transitive, same_text,
};
use vstd::prelude::*;

verus! {

/// A byte range of one of a request's sources.
#[derive(Clone, Copy, Debug, PartialEq, Eq, Structural)]
pub struct SourceSpan {
    pub source_id: u32,
    pub start: u32,
    pub end: u32,
}

/// One level of the call stack that made a piece of geometry.
#[derive(Debug)]
pub struct ProvenanceFrame {
    pub call_site: SourceSpan,
    /// Where the called module is defined, for an authored module.
    pub definition_site: Option<SourceSpan>,
    /// The authored module's name; nothing for a built-in statement.
    pub module_name: Option<String>,
}

/// What a frame says.
pub struct FrameView {
    pub call_site: SourceSpan,
    pub definition_site: Option<SourceSpan>,
    pub module_name: Option<Seq<char>>,
}

impl View for ProvenanceFrame {
    type V = FrameView;

    open spec fn view(&self) -> FrameView {
        FrameView {
            call_site: self.call_site,
            definition_site: self.definition_site,
            module_name: match self.module_name {
                Some(s) => Some(s@),
                None => None,
            },
        }
    }
}

/// What a stack of frames says.
pub open spec fn path(v: Seq<ProvenanceFrame>) -> Seq<FrameView> {
    v.map_values(|f: ProvenanceFrame| f@)
}

/// What a list of stacks says.
pub open spec fn paths(v: Seq<Vec<ProvenanceFrame>>) -> Seq<Seq<FrameView>> {
    v.map_values(|p: Vec<ProvenanceFrame>| path(p@))
}

impl ProvenanceFrame {
    /// A copy that says the same.
    pub fn duplicate(&self) -> (r: ProvenanceFrame)
        ensures
            r@ == self@,
    {
        ProvenanceFrame {
            call_site: self.call_site,
            definition_site: self.definition_site,
            module_name: match &self.module_name {
                Some(s) => Some(s.clone()),
                None => None,
            },
        }
    }

    /// Whether two frames say the same.
    pub fn same(&self, other: &ProvenanceFrame) -> (r: bool)
        ensures
            r == (self@ == other@),
    {
        if self.call_site != other.call_site {
            return false;
        }
        let definitions: bool = match (self.definition_site, other.definition_site) {
            (None, None) => true,
            (Some(a), Some(b)) => a == b,
            _ => false,
        };
        if !definitions {
            return false;
        }
        match (&self.module_name, &other.module_name) {
            (None, None) => true,
            (Some(a), Some(b)) => same_text(a.as_str(), b.as_str()),
            _ => false,
        }
    }
}

pub fn copy_path(v: &Vec<ProvenanceFrame>) -> (r: Vec<ProvenanceFrame>)
    ensures
        path(r@) == path(v@),
{
    let mut out: Vec<ProvenanceFrame> = Vec::new();
    for i in 0..v.len()
        invariant
            path(out@) =~= path(v@).take(i as int),
    {
        let ghost before = out@;
        out.push(v[i].duplicate());
        assert(path(out@) =~= path(before).push(path(v@)[i as int]));
    }
    assert(path(v@).take(v@.len() as int) =~= path(v@));
    out
}

pub fn copy_paths(v: &Vec<Vec<ProvenanceFrame>>) -> (r: Vec<Vec<ProvenanceFrame>>)
    ensures
        paths(r@) == paths(v@),
{
    let mut out: Vec<Vec<ProvenanceFrame>> = Vec::new();
    for i in 0..v.len()
        invariant
            paths(out@) =~= paths(v@).take(i as int),
    {
        let ghost before = out@;
        out.push(copy_path(&v[i]));
        assert(paths(out@) =~= paths(before).push(paths(v@)[i as int]));
    }
    assert(paths(v@).take(v@.len() as int) =~= paths(v@));
    out
}

pub fn same_path(a: &Vec<ProvenanceFrame>, b: &Vec<ProvenanceFrame>) -> (r: bool)
    ensures
        r == (path(a@) == path(b@)),
{
    if a.len() != b.len() {
        assert(path(a@).len() != path(b@).len());
        return false;
    }
    for i in 0..a.len()
        invariant
            a@.len() == b@.len(),
            forall|k: int| 0 <= k < i ==> (#[trigger] a@[k])@ == b@[k]@,
    {
        if !a[i].same(&b[i]) {
            assert(path(a@)[i as int] != path(b@)[i as int]);
            return false;
        }
    }
    assert(path(a@) =~= path(b@));
    true
}

pub fn same_paths(a: &Vec<Vec<ProvenanceFrame>>, b: &Vec<Vec<ProvenanceFrame>>) -> (r: bool)
    ensures
        r == (paths(a@) == paths(b@)),
{
    if a.len() != b.len() {
        assert(paths(a@).len() != paths(b@).len());
        return false;
    }
    for i in 0..a.len()
        invariant
            a@.len() == b@.len(),
            forall|k: int| 0 <= k < i ==> path((#[trigger] a@[k])@) == path(b@[k]@),
    {
        if !same_path(&a[i], &b[i]) {
            assert(paths(a@)[i as int] != paths(b@)[i as int]);
            return false;
        }
    }
    assert(paths(a@) =~= paths(b@));
    true
}

/// The frames of authored modules.
pub open spec fn authored(p: Seq<FrameView>) -> Seq<FrameView> {
    p.filter(|f: FrameView| f.module_name is Some)
}

/// Keeps the frames of authored modules, in order.
pub fn authored_path(frames: &Vec<ProvenanceFrame>) -> (r: Vec<ProvenanceFrame>)
    ensures
        path(r@) == authored(path(frames@)),
{
    let mut out: Vec<ProvenanceFrame> = Vec::new();
    let ghost keep = |f: FrameView| f.module_name is Some;
    assert(path(frames@).take(0).filter(keep) =~= Seq::empty()) by {
        reveal(Seq::filter);
    }
    assert(path(out@) =~= Seq::empty());
    for i in 0..frames.len()
        invariant
            keep == (|f: FrameView| f.module_name is Some),
            path(out@) == path(frames@).take(i as int).filter(keep),
    {
        proof {
            reveal(Seq::filter);
            let t = path(frames@).take(i + 1);
            assert(t.drop_last() =~= path(frames@).take(i as int));
            assert(t.last() == frames@[i as int]@);
        }
        let ghost before = out@;
        if frames[i].module_name.is_some() {
            out.push(frames[i].duplicate());
            assert(path(out@) =~= path(before).push(frames@[i as int]@));
        }
    }
    assert(path(frames@).take(frames@.len() as int) =~= path(frames@));
    out
}

// ---- the order of authored paths ---------------------------------------------------

pub open spec fn span_key(s: SourceSpan) -> Seq<int> {
    seq![s.source_id as int, s.start as int, s.end as int]
}

/// What a frame is ordered by: call site, then definition site, then name, an
/// absent one before any other. Each key ends before any longer one goes on.
pub open spec fn frame_key(f: FrameView) -> Seq<int> {
    span_key(f.call_site) + definition_key(f.definition_site) + name_key(f.module_name)
}

pub open spec fn definition_key(d: Option<SourceSpan>) -> Seq<int> {
    match d {
        None => seq![0int],
        Some(d) => seq![1int] + span_key(d),
    }
}

pub open spec fn name_key(name: Option<Seq<char>>) -> Seq<int> {
    match name {
        None => seq![0int],
        Some(s) => seq![1int] + s.map_values(|c: char| c as u32 + 1) + seq![0int],
    }
}

/// What a path is ordered by: its frames from the outermost on.
pub open spec fn path_key(p: Seq<FrameView>) -> Seq<int>
    decreases p.len(),
{
    if p.len() == 0 {
        Seq::empty()
    } else {
        path_key(p.drop_last()) + seq![1int] + frame_key(p.last())
    }
}

pub open spec fn plain() -> spec_fn(int) -> int {
    |n: int| n
}

/// `a` stands before or with `b`.
pub open spec fn path_le(a: Seq<FrameView>, b: Seq<FrameView>) -> bool {
    dictionary_le(path_key(a), path_key(b), plain())
}

pub open spec fn as_ints(v: Seq<u64>) -> Seq<int> {
    v.map_values(|n: u64| n as int)
}

pub(crate) fn push_span(out: &mut Vec<u64>, s: SourceSpan)
    ensures
        as_ints(final(out)@) =~= as_ints(old(out)@) + span_key(s),
{
    out.push(s.source_id as u64);
    out.push(s.start as u64);
    out.push(s.end as u64);
}

fn push_definition(out: &mut Vec<u64>, definition: Option<SourceSpan>)
    ensures
        as_ints(final(out)@) =~= as_ints(old(out)@) + definition_key(definition),
{
    match definition {
        None => {
            out.push(0);
        },
        Some(d) => {
            out.push(1);
            push_span(out, d);
        },
    }
}

pub(crate) fn push_name(out: &mut Vec<u64>, name: &Option<String>)
    ensures
        as_ints(final(out)@) =~= as_ints(old(out)@) + name_key(
            match *name {
                Some(s) => Some(s@),
                None => None,
            },
        ),
{
    match name {
        None => {
            out.push(0);
        },
        Some(s) => {
            out.push(1);
            let v = chars_of(s.as_str());
            let ghost before = as_ints(out@);
            let ghost codes = s@.map_values(|c: char| c as u32 + 1);
            for i in 0..v.len()
                invariant
                    v@ == s@,
                    codes == s@.map_values(|c: char| c as u32 + 1),
                    as_ints(out@) =~= before + codes.take(i as int),
            {
                let ch: char = v[i];
                let c: u32 = ch as u32;
                let ghost had = as_ints(out@);
                out.push(c as u64 + 1);
                proof {
                    assert(as_ints(out@) =~= had.push(c + 1));
                    assert(codes[i as int] == c + 1);
                    assert(codes.take(i + 1) =~= codes.take(i as int).push(codes[i as int]));
                }
            }
            assert(codes.take(v@.len() as int) =~= codes);
            let ghost had = as_ints(out@);
            out.push(0);
            assert(as_ints(out@) =~= had.push(0));
        },
    }
}

fn push_frame(out: &mut Vec<u64>, f: &ProvenanceFrame)
    ensures
        as_ints(final(out)@) =~= as_ints(old(out)@) + frame_key(f@),
{
    push_span(out, f.call_site);
    push_definition(out, f.definition_site);
    push_name(out, &f.module_name);
}

fn key_of(p: &Vec<ProvenanceFrame>) -> (r: Vec<u64>)
    ensures
        as_ints(r@) == path_key(path(p@)),
{
    let mut out: Vec<u64> = Vec::new();
    assert(as_ints(out@) =~= path_key(path(p@).take(0)));
    for i in 0..p.len()
        invariant
            as_ints(out@) == path_key(path(p@).take(i as int)),
    {
        proof {
            let t = path(p@).take(i + 1);
            assert(t.drop_last() =~= path(p@).take(i as int));
            assert(t.last() == p@[i as int]@);
        }
        let ghost before = as_ints(out@);
        out.push(1);
        assert(as_ints(out@) =~= before + seq![1int]);
        push_frame(&mut out, &p[i]);
    }
    assert(path(p@).take(p@.len() as int) =~= path(p@));
    out
}

/// Whether a sequence of numbers stands before or with another.
pub fn ints_at_most(x: &Vec<u64>, y: &Vec<u64>) -> (r: bool)
    ensures
        r == dictionary_le(as_ints(x@), as_ints(y@), plain()),
{
    let mut i: usize = 0;
    let ghost a = as_ints(x@);
    let ghost b = as_ints(y@);
    assert(a.skip(0) =~= a);
    assert(b.skip(0) =~= b);
    while i < x.len() && i < y.len() && x[i] == y[i]
        invariant
            a == as_ints(x@),
            b == as_ints(y@),
            i <= x@.len(),
            i <= y@.len(),
            dictionary_le(a, b, plain()) == dictionary_le(
                a.skip(i as int),
                b.skip(i as int),
                plain(),
            ),
        decreases x.len() - i,
    {
        assert(a.skip(i as int).skip(1) =~= a.skip(i + 1));
        assert(b.skip(i as int).skip(1) =~= b.skip(i + 1));
        assert(a.skip(i as int)[0] == x@[i as int]);
        assert(b.skip(i as int)[0] == y@[i as int]);
        i = i + 1;
    }
    proof {
        if i < x@.len() && i < y@.len() {
            assert(a.skip(i as int)[0] == x@[i as int]);
            assert(b.skip(i as int)[0] == y@[i as int]);
        }
    }
    if i >= x.len() {
        true
    } else if i >= y.len() {
        false
    } else {
        x[i] < y[i]
    }
}

impl Ranked for Vec<ProvenanceFrame> {
    open spec fn rank_le(&self, other: &Self) -> bool {
        path_le(path(self@), path(other@))
    }

    proof fn rank_total(a: &Self, b: &Self) {
        lemma_dictionary_total(path_key(path(a@)), path_key(path(b@)), plain());
    }

    proof fn rank_transitive(a: &Self, b: &Self, c: &Self) {
        lemma_dictionary_transitive(
            path_key(path(a@)),
            path_key(path(b@)),
            path_key(path(c@)),
            plain(),
        );
    }

    fn ranks_before(&self, other: &Self) -> (r: bool) {
        provenance_path_at_most(self, other)
    }
}

/// Whether a path stands before or with another.
pub fn provenance_path_at_most(left: &Vec<ProvenanceFrame>, right: &Vec<ProvenanceFrame>) -> (r:
    bool)
    ensures
        r == path_le(path(left@), path(right@)),
{
    let a = key_of(left);
    let b = key_of(right);
    ints_at_most(&a, &b)
}

// ---- keys tell paths apart ---------------------------------------------------------------

pub(crate) proof fn lemma_code_injective(a: char, b: char)
    requires
        a as u32 == b as u32,
    ensures
        a == b,
{
}

proof fn lemma_name_key(a: Option<Seq<char>>, b: Option<Seq<char>>, x: Seq<int>, y: Seq<int>)
    requires
        name_key(a) + x == name_key(b) + y,
    ensures
        a == b,
        x == y,
{
    let p = name_key(a) + x;
    let q = name_key(b) + y;
    assert(p[0] == name_key(a)[0]);
    assert(q[0] == name_key(b)[0]);
    match (a, b) {
        (Some(s), Some(t)) => {
            let cs = s.map_values(|c: char| c as u32 + 1);
            let ct = t.map_values(|c: char| c as u32 + 1);
            assert forall|i: int| 0 <= i < s.len() implies p[1 + i] == s[i] as u32 + 1 by {
                assert(cs[i] == s[i] as u32 + 1);
                assert(name_key(a)[1 + i] == cs[i]);
            }
            assert forall|i: int| 0 <= i < t.len() implies q[1 + i] == t[i] as u32 + 1 by {
                assert(ct[i] == t[i] as u32 + 1);
                assert(name_key(b)[1 + i] == ct[i]);
            }
            assert(p[1 + s.len() as int] == name_key(a)[1 + s.len() as int]);
            assert(q[1 + t.len() as int] == name_key(b)[1 + t.len() as int]);
            assert(s.len() == t.len());
            assert forall|i: int| 0 <= i < s.len() implies s[i] == t[i] by {
                assert(p[1 + i] == q[1 + i]);
                lemma_code_injective(s[i], t[i]);
            }
            assert(s =~= t);
            assert(x =~= p.skip(s.len() as int + 2));
            assert(y =~= q.skip(s.len() as int + 2));
        },
        (None, None) => {
            assert(x =~= p.skip(1));
            assert(y =~= q.skip(1));
        },
        _ => {},
    }
}

proof fn lemma_frame_key(f: FrameView, g: FrameView, x: Seq<int>, y: Seq<int>)
    requires
        frame_key(f) + x == frame_key(g) + y,
    ensures
        f == g,
        x == y,
{
    let p = frame_key(f) + x;
    let q = frame_key(g) + y;
    assert(p[0] == f.call_site.source_id && q[0] == g.call_site.source_id);
    assert(p[1] == f.call_site.start && q[1] == g.call_site.start);
    assert(p[2] == f.call_site.end && q[2] == g.call_site.end);
    assert(p[3] == definition_key(f.definition_site)[0]);
    assert(q[3] == definition_key(g.definition_site)[0]);
    let n: int = 3 + definition_key(f.definition_site).len() as int;
    match (f.definition_site, g.definition_site) {
        (Some(d), Some(e)) => {
            assert(p[4] == d.source_id && q[4] == e.source_id);
            assert(p[5] == d.start && q[5] == e.start);
            assert(p[6] == d.end && q[6] == e.end);
        },
        (None, None) => {},
        _ => {},
    }
    assert(f.definition_site == g.definition_site);
    assert(p.skip(n) =~= name_key(f.module_name) + x);
    assert(q.skip(n) =~= name_key(g.module_name) + y);
    lemma_name_key(f.module_name, g.module_name, x, y);
}

proof fn lemma_path_key_front(p: Seq<FrameView>)
    requires
        p.len() > 0,
    ensures
        path_key(p) == seq![1int] + (frame_key(p[0]) + path_key(p.skip(1))),
    decreases p.len(),
{
    if p.len() == 1 {
        assert(p.drop_last() =~= Seq::empty());
        assert(p.skip(1) =~= Seq::empty());
        assert(path_key(p) =~= seq![1int] + (frame_key(p[0]) + path_key(p.skip(1))));
    } else {
        lemma_path_key_front(p.drop_last());
        assert(p.drop_last().skip(1) =~= p.skip(1).drop_last());
        assert(p.skip(1).last() == p.last());
        assert(path_key(p) =~= seq![1int] + (frame_key(p[0]) + path_key(p.skip(1))));
    }
}

/// Different paths have different keys.
pub proof fn lemma_path_key_injective(p: Seq<FrameView>, q: Seq<FrameView>)
    requires
        path_key(p) == path_key(q),
    ensures
        p == q,
    decreases p.len(),
{
    if p.len() > 0 {
        lemma_path_key_front(p);
    }
    if q.len() > 0 {
        lemma_path_key_front(q);
    }
    if p.len() > 0 && q.len() > 0 {
        let x = frame_key(p[0]) + path_key(p.skip(1));
        let y = frame_key(q[0]) + path_key(q.skip(1));
        assert(x =~= path_key(p).skip(1));
        assert(y =~= path_key(q).skip(1));
        lemma_frame_key(p[0], q[0], path_key(p.skip(1)), path_key(q.skip(1)));
        lemma_path_key_injective(p.skip(1), q.skip(1));
        assert(p =~= seq![p[0]] + p.skip(1));
        assert(q =~= seq![q[0]] + q.skip(1));
    } else {
        assert(p =~= q);
    }
}

/// Of two paths that each stand before or with the other there is but one.
pub proof fn lemma_path_le_antisymmetric(p: Seq<FrameView>, q: Seq<FrameView>)
    requires
        path_le(p, q),
        path_le(q, p),
    ensures
        p == q,
{
    lemma_dictionary_antisymmetric(path_key(p), path_key(q), plain());
    lemma_path_key_injective(p, q);
}

/// Paths in order, each once.
pub open spec fn strictly_ascending(p: Seq<Seq<FrameView>>) -> bool {
    forall|i: int, j: int|
        #![trigger p[i], p[j]]
        0 <= i < j < p.len() ==> path_le(p[i], p[j]) && p[i] != p[j]
}

proof fn lemma_first_least(a: Seq<Seq<FrameView>>, p: Seq<FrameView>)
    requires
        strictly_ascending(a),
        a.contains(p),
    ensures
        path_le(a[0], p),
{
    let i = choose|i: int| 0 <= i < a.len() && a[i] == p;
    if i > 0 {
        assert(path_le(a[0], a[i]));
    } else {
        lemma_dictionary_total(path_key(p), path_key(p), plain());
    }
}

/// Two lists of the same paths, in order and each once, are the same.
pub proof fn lemma_strict_unique(a: Seq<Seq<FrameView>>, b: Seq<Seq<FrameView>>)
    requires
        strictly_ascending(a),
        strictly_ascending(b),
        forall|p: Seq<FrameView>| #[trigger] a.contains(p) <==> b.contains(p),
    ensures
        a == b,
    decreases a.len(),
{
    if a.len() == 0 {
        if b.len() > 0 {
            assert(b.contains(b[0]));
            assert(a.contains(b[0]));
        }
        assert(a =~= b);
    } else {
        assert(a.contains(a[0]));
        assert(b.contains(a[0]));
        assert(b.contains(b[0]));
        assert(a.contains(b[0]));
        lemma_first_least(a, b[0]);
        lemma_first_least(b, a[0]);
        lemma_path_le_antisymmetric(a[0], b[0]);
        let ra = a.skip(1);
        let rb = b.skip(1);
        assert forall|p: Seq<FrameView>| #[trigger] ra.contains(p) <==> rb.contains(p) by {
            if ra.contains(p) {
                let i = choose|i: int| 0 <= i < ra.len() && ra[i] == p;
                assert(a[i + 1] == p);
                assert(a[0] != a[i + 1]);
                assert(a.contains(p));
                assert(b.contains(p));
                let j = choose|j: int| 0 <= j < b.len() && b[j] == p;
                assert(rb[j - 1] == p);
            }
            if rb.contains(p) {
                let i = choose|i: int| 0 <= i < rb.len() && rb[i] == p;
                assert(b[i + 1] == p);
                assert(b[0] != b[i + 1]);
                assert(b.contains(p));
                assert(a.contains(p));
                let j = choose|j: int| 0 <= j < a.len() && a[j] == p;
                assert(ra[j - 1] == p);
            }
        }
        assert forall|i: int, j: int|
            #![trigger ra[i], ra[j]]
            0 <= i < j < ra.len() implies path_le(ra[i], ra[j]) && ra[i] != ra[j] by {
            assert(path_le(a[i + 1], a[j + 1]) && a[i + 1] != a[j + 1]);
        }
        assert forall|i: int, j: int|
            #![trigger rb[i], rb[j]]
            0 <= i < j < rb.len() implies path_le(rb[i], rb[j]) && rb[i] != rb[j] by {
            assert(path_le(b[i + 1], b[j + 1]) && b[i + 1] != b[j + 1]);
        }
        lemma_strict_unique(ra, rb);
        assert(a =~= seq![a[0]] + ra);
        assert(b =~= seq![b[0]] + rb);
    }
}

// ---- the common prefix ----------------------------------------------------------------

/// All paths start with the same `n` frames.
pub open spec fn shared(p: Seq<Seq<FrameView>>, n: int) -> bool {
    forall|i: int| 0 <= i < p.len() ==> n <= (#[trigger] p[i]).len() && p[i].take(n) == p[0].take(n)
}

/// `r` is the longest sequence of frames that every path starts with.
pub open spec fn is_common_prefix(p: Seq<Seq<FrameView>>, r: Seq<FrameView>) -> bool {
    if p.len() == 0 {
        r.len() == 0
    } else {
        &&& r.len() <= p[0].len()
        &&& r == p[0].take(r.len() as int)
        &&& shared(p, r.len() as int)
        &&& forall|n: int| 0 <= n && #[trigger] shared(p, n) ==> n <= r.len()
    }
}

/// How many frames two paths share from the outermost on, up to a limit.
fn matching(a: &Vec<ProvenanceFrame>, b: &Vec<ProvenanceFrame>, limit: usize) -> (n: usize)
    requires
        limit <= a@.len(),
    ensures
        n <= limit,
        n <= b@.len(),
        path(a@).take(n as int) == path(b@).take(n as int),
        n < limit ==> n == b@.len() || path(a@)[n as int] != path(b@)[n as int],
{
    let mut n: usize = 0;
    while n < limit && n < b.len() && a[n].same(&b[n])
        invariant
            limit <= a@.len(),
            n <= limit,
            n <= b@.len(),
            forall|k: int| 0 <= k < n ==> (#[trigger] a@[k])@ == b@[k]@,
        decreases limit - n,
    {
        n = n + 1;
    }
    assert(path(a@).take(n as int) =~= path(b@).take(n as int));
    n
}

/// The longest prefix that all paths share.
pub fn longest_common_prefix(list: &Vec<Vec<ProvenanceFrame>>) -> (r: Vec<ProvenanceFrame>)
    ensures
        is_common_prefix(paths(list@), path(r@)),
{
    if list.len() == 0 {
        return Vec::new();
    }
    let ghost views = paths(list@);
    let mut length: usize = list[0].len();
    proof {
        let t = views.take(1);
        assert(t[0] == path(list@[0]@));
        assert(shared(t, length as int));
        assert forall|n: int| 0 <= n && #[trigger] shared(t, n) implies n <= length by {
            assert(n <= t[0].len());
        }
    }
    let mut i: usize = 1;
    while i < list.len()
        invariant
            list@.len() > 0,
            views == paths(list@),
            length <= list@[0]@.len(),
            1 <= i <= list@.len(),
            shared(views.take(i as int), length as int),
            forall|n: int| 0 <= n && #[trigger] shared(views.take(i as int), n) ==> n <= length,
        decreases list.len() - i,
    {
        let ghost before = length;
        length = matching(&list[0], &list[i], length);
        proof {
            let t = views.take(i + 1);
            assert(views[0] == path(list@[0]@));
            assert(views[i as int] == path(list@[i as int]@));
            assert forall|k: int| 0 <= k < t.len() implies length <= (#[trigger] t[k]).len()
                && t[k].take(length as int) == t[0].take(length as int) by {
                if k < i {
                    let u = views.take(i as int);
                    assert(u[k] == t[k]);
                    assert(u[k].take(before as int) == u[0].take(before as int));
                    assert(t[k].take(length as int) =~= u[k].take(before as int).take(
                        length as int,
                    ));
                    assert(t[0].take(length as int) =~= u[0].take(before as int).take(
                        length as int,
                    ));
                }
            }
            assert forall|n: int| 0 <= n && #[trigger] shared(t, n) implies n <= length by {
                let u = views.take(i as int);
                assert forall|k: int| 0 <= k < u.len() implies n <= (#[trigger] u[k]).len()
                    && u[k].take(n) == u[0].take(n) by {
                    assert(t[k] == u[k]);
                    assert(t[0] == u[0]);
                }
                assert(shared(u, n));
                if n > length {
                    assert(t[i as int] == views[i as int]);
                    assert(n <= before);
                    assert(n <= t[i as int].len());
                    assert(t[i as int].take(n)[length as int] == t[0].take(n)[length as int]);
                    assert(t[i as int][length as int] == t[0][length as int]);
                }
            }
        }
        i = i + 1;
    }
    assert(views.take(list@.len() as int) =~= views);
    let mut out: Vec<ProvenanceFrame> = Vec::new();
    for k in 0..length
        invariant
            list@.len() > 0,
            views == paths(list@),
            length <= list@[0]@.len(),
            path(out@) =~= views[0].take(k as int),
    {
        let ghost before = out@;
        out.push(list[0][k].duplicate());
        assert(path(out@) =~= path(before).push(views[0][k as int]));
    }
    assert(path(out@).len() == length);
    out
}

/// There is only one longest common prefix.
pub proof fn law_common_prefix_unique(
    p: Seq<Seq<FrameView>>,
    a: Seq<FrameView>,
    b: Seq<FrameView>,
)
    requires
        is_common_prefix(p, a),
        is_common_prefix(p, b),
    ensures
        a =~= b,
{
    if p.len() > 0 {
        assert(shared(p, a.len() as int));
        assert(shared(p, b.len() as int));
    }
}

} // verus!
