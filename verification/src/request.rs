//! One request's inputs, the identity of its structured render, and the
//! in-memory files it brings along.

use crate::rank::{sorted, Ranked};
use crate::text::{
    bytes_at_most, bytes_le, code, copy_bytes, lemma_dictionary_antisymmetric,
    lemma_dictionary_total, lemma_dictionary_transitive, same_bytes, same_text, text_at_most,
    text_le, byte_value,
};
use vstd::prelude::*;

verus! {

/// One request's inputs. The lists are association lists, so that a host never
/// has to reproduce a map's order to get the same cache key.
#[derive(Debug)]
pub struct Request {
    pub source: String,
    /// Customizer overrides: `(name, literal)`, applied in order.
    pub params: Vec<(String, String)>,
    /// Sources and text assets: `(path, contents)`.
    pub files: Vec<(String, String)>,
    /// Binary assets: `(path, bytes)`.
    pub binary_files: Vec<(String, Vec<u8>)>,
    /// Font files to register before evaluation.
    pub font_files: Vec<Vec<u8>>,
}

/// The contents of a pair of strings.
pub open spec fn pair_view(p: (String, String)) -> (Seq<char>, Seq<char>) {
    (p.0@, p.1@)
}

/// The contents of a named asset.
pub open spec fn asset_view(p: (String, Vec<u8>)) -> (Seq<char>, Seq<u8>) {
    (p.0@, p.1@)
}

/// The contents of a byte vector.
pub open spec fn bytes_view(p: Vec<u8>) -> Seq<u8> {
    p@
}

pub open spec fn pair_views(v: Seq<(String, String)>) -> Seq<(Seq<char>, Seq<char>)> {
    v.map_values(|p: (String, String)| pair_view(p))
}

pub open spec fn asset_views(v: Seq<(String, Vec<u8>)>) -> Seq<(Seq<char>, Seq<u8>)> {
    v.map_values(|p: (String, Vec<u8>)| asset_view(p))
}

pub open spec fn byte_views(v: Seq<Vec<u8>>) -> Seq<Seq<u8>> {
    v.map_values(|p: Vec<u8>| bytes_view(p))
}

/// What a request holds.
pub struct RequestView {
    pub source: Seq<char>,
    pub params: Seq<(Seq<char>, Seq<char>)>,
    pub files: Seq<(Seq<char>, Seq<char>)>,
    pub binary_files: Seq<(Seq<char>, Seq<u8>)>,
    pub font_files: Seq<Seq<u8>>,
}

impl View for Request {
    type V = RequestView;

    open spec fn view(&self) -> RequestView {
        RequestView {
            source: self.source@,
            params: pair_views(self.params@),
            files: pair_views(self.files@),
            binary_files: asset_views(self.binary_files@),
            font_files: byte_views(self.font_files@),
        }
    }
}

// ---- orders on the parts of a request -------------------------------------------

pub open spec fn pair_le(a: (Seq<char>, Seq<char>), b: (Seq<char>, Seq<char>)) -> bool {
    if a.0 == b.0 {
        text_le(a.1, b.1)
    } else {
        text_le(a.0, b.0)
    }
}

pub open spec fn asset_le(a: (Seq<char>, Seq<u8>), b: (Seq<char>, Seq<u8>)) -> bool {
    if a.0 == b.0 {
        bytes_le(a.1, b.1)
    } else {
        text_le(a.0, b.0)
    }
}

impl Ranked for (String, String) {
    open spec fn rank_le(&self, other: &Self) -> bool {
        pair_le(pair_view(*self), pair_view(*other))
    }

    proof fn rank_total(a: &Self, b: &Self) {
        lemma_dictionary_total(a.0@, b.0@, code());
        lemma_dictionary_total(a.1@, b.1@, code());
    }

    proof fn rank_transitive(a: &Self, b: &Self, c: &Self) {
        if a.0@ == b.0@ && b.0@ == c.0@ {
            lemma_dictionary_transitive(a.1@, b.1@, c.1@, code());
        } else {
            lemma_dictionary_total(a.0@, a.0@, code());
            lemma_dictionary_total(b.0@, b.0@, code());
            lemma_dictionary_transitive(a.0@, b.0@, c.0@, code());
            if a.0@ == c.0@ {
                lemma_dictionary_antisymmetric(a.0@, b.0@, code());
            }
        }
    }

    fn ranks_before(&self, other: &Self) -> (r: bool) {
        if same_text(self.0.as_str(), other.0.as_str()) {
            text_at_most(self.1.as_str(), other.1.as_str())
        } else {
            text_at_most(self.0.as_str(), other.0.as_str())
        }
    }
}

impl Ranked for (String, Vec<u8>) {
    open spec fn rank_le(&self, other: &Self) -> bool {
        asset_le(asset_view(*self), asset_view(*other))
    }

    proof fn rank_total(a: &Self, b: &Self) {
        lemma_dictionary_total(a.0@, b.0@, code());
        lemma_dictionary_total(a.1@, b.1@, byte_value());
    }

    proof fn rank_transitive(a: &Self, b: &Self, c: &Self) {
        if a.0@ == b.0@ && b.0@ == c.0@ {
            lemma_dictionary_transitive(a.1@, b.1@, c.1@, byte_value());
        } else {
            lemma_dictionary_total(a.0@, a.0@, code());
            lemma_dictionary_total(b.0@, b.0@, code());
            lemma_dictionary_transitive(a.0@, b.0@, c.0@, code());
            if a.0@ == c.0@ {
                lemma_dictionary_antisymmetric(a.0@, b.0@, code());
            }
        }
    }

    fn ranks_before(&self, other: &Self) -> (r: bool) {
        if same_text(self.0.as_str(), other.0.as_str()) {
            bytes_at_most(&self.1, &other.1)
        } else {
            text_at_most(self.0.as_str(), other.0.as_str())
        }
    }
}

impl Ranked for Vec<u8> {
    open spec fn rank_le(&self, other: &Self) -> bool {
        bytes_le(self@, other@)
    }

    proof fn rank_total(a: &Self, b: &Self) {
        lemma_dictionary_total(a@, b@, byte_value());
    }

    proof fn rank_transitive(a: &Self, b: &Self, c: &Self) {
        lemma_dictionary_transitive(a@, b@, c@, byte_value());
    }

    fn ranks_before(&self, other: &Self) -> (r: bool) {
        bytes_at_most(self, other)
    }
}

/// `t` holds the elements of `s`, each as often, in ascending order.
pub open spec fn arranged<V>(s: Seq<V>, t: Seq<V>, le: spec_fn(V, V) -> bool) -> bool {
    &&& t.to_multiset() =~= s.to_multiset()
    &&& forall|i: int, j: int|
        #![trigger t[i], t[j]]
        0 <= i < j < t.len() ==> le(t[i], t[j])
}

/// Where no two different values may stand either way round, there is only one
/// arrangement, and it does not depend on the order of the elements.
pub proof fn lemma_arranged_unique<V>(
    s1: Seq<V>,
    t1: Seq<V>,
    s2: Seq<V>,
    t2: Seq<V>,
    le: spec_fn(V, V) -> bool,
)
    requires
        arranged(s1, t1, le),
        arranged(s2, t2, le),
        s1.to_multiset() =~= s2.to_multiset(),
        forall|x: V, y: V| #[trigger] le(x, y) && le(y, x) ==> x == y,
    ensures
        t1 =~= t2,
    decreases t1.len(),
{
    t1.to_multiset_ensures();
    t2.to_multiset_ensures();
    assert(t1.to_multiset().len() == t2.to_multiset().len());
    if t1.len() > 0 {
        let x = t1.last();
        let y = t2.last();
        assert(t1.to_multiset().count(x) > 0);
        assert(t2.contains(x));
        assert(t2.to_multiset().count(y) > 0);
        assert(t1.contains(y));
        let i = choose|i: int| 0 <= i < t2.len() && t2[i] == x;
        let j = choose|j: int| 0 <= j < t1.len() && t1[j] == y;
        if i != t2.len() - 1 && j != t1.len() - 1 {
            assert(le(t2[i], t2[t2.len() - 1]));
            assert(le(t1[j], t1[t1.len() - 1]));
        }
        assert(x == y);
        let a = t1.drop_last();
        let b = t2.drop_last();
        a.to_multiset_ensures();
        b.to_multiset_ensures();
        assert(t1 =~= a.push(x));
        assert(t2 =~= b.push(x));
        assert(a.to_multiset() =~= t1.to_multiset().remove(x));
        assert(b.to_multiset() =~= t2.to_multiset().remove(x));
        lemma_arranged_unique(a, a, b, b, le);
    }
}

proof fn lemma_map_multiset<T, V>(a: Seq<T>, b: Seq<T>, f: spec_fn(T) -> V)
    requires
        a.to_multiset() =~= b.to_multiset(),
    ensures
        a.map_values(f).to_multiset() =~= b.map_values(f).to_multiset(),
    decreases a.len(),
{
    a.to_multiset_ensures();
    b.to_multiset_ensures();
    if a.len() == 0 {
        assert(b.len() == 0);
        assert(a.map_values(f) =~= b.map_values(f));
    } else {
        let x = a.last();
        assert(a.to_multiset().count(x) > 0);
        assert(b.contains(x));
        let j = choose|j: int| 0 <= j < b.len() && b[j] == x;
        let a1 = a.drop_last();
        let b1 = b.remove(j);
        a1.to_multiset_ensures();
        assert(a =~= a1.push(x));
        assert(a1.to_multiset() =~= b1.to_multiset());
        lemma_map_multiset(a1, b1, f);
        let ma = a.map_values(f);
        let mb = b.map_values(f);
        ma.to_multiset_ensures();
        mb.to_multiset_ensures();
        a1.map_values(f).to_multiset_ensures();
        assert(ma =~= a1.map_values(f).push(f(x)));
        assert(mb.remove(j) =~= b1.map_values(f));
        assert(mb.to_multiset() =~= b1.map_values(f).to_multiset().insert(f(x)));
    }
}

// ---- parameters in order --------------------------------------------------------------

/// A list of names and values.
pub type Pairs = Seq<(Seq<char>, Seq<char>)>;

/// The values that a name is given, one after the other.
pub open spec fn values_given(s: Pairs, name: Seq<char>) -> Seq<Seq<char>>
    decreases s.len(),
{
    if s.len() == 0 {
        Seq::empty()
    } else if s.last().0 == name {
        values_given(s.drop_last(), name).push(s.last().1)
    } else {
        values_given(s.drop_last(), name)
    }
}

/// The names stand in ascending order.
pub open spec fn names_ascend(t: Pairs) -> bool {
    forall|i: int, j: int|
        #![trigger t[i], t[j]]
        0 <= i < j < t.len() ==> text_le(t[i].0, t[j].0)
}

/// Every name is given the same values in the same order.
pub open spec fn give_the_same(a: Pairs, b: Pairs) -> bool {
    forall|name: Seq<char>| #[trigger] values_given(a, name) == values_given(b, name)
}

/// `t` is `s` by ascending names, where what one name is given stays in order:
/// the last value of a name is the one that counts.
pub open spec fn ordered_by_name(s: Pairs, t: Pairs) -> bool {
    names_ascend(t) && give_the_same(s, t)
}

proof fn lemma_values_of_sum(a: Pairs, b: Pairs, name: Seq<char>)
    ensures
        values_given(a + b, name) == values_given(a, name) + values_given(b, name),
    decreases b.len(),
{
    if b.len() == 0 {
        assert(a + b =~= a);
        assert(values_given(a, name) + values_given(b, name) =~= values_given(a, name));
    } else {
        lemma_values_of_sum(a, b.drop_last(), name);
        assert((a + b).drop_last() =~= a + b.drop_last());
        assert((a + b).last() == b.last());
        if b.last().0 == name {
            assert(values_given(a, name) + values_given(b, name) =~= (values_given(a, name)
                + values_given(b.drop_last(), name)).push(b.last().1));
        }
    }
}

proof fn lemma_not_given(s: Pairs, name: Seq<char>)
    requires
        forall|i: int| 0 <= i < s.len() ==> (#[trigger] s[i]).0 != name,
    ensures
        values_given(s, name) =~= Seq::empty(),
    decreases s.len(),
{
    if s.len() > 0 {
        assert(s.last() == s[s.len() - 1]);
        assert forall|i: int| 0 <= i < s.drop_last().len() implies (#[trigger] s.drop_last()[i]).0
            != name by {
            assert(s.drop_last()[i] == s[i]);
        }
        lemma_not_given(s.drop_last(), name);
    }
}

/// There is only one way to order parameters by name.
pub proof fn lemma_ordered_unique(a: Pairs, b: Pairs)
    requires
        names_ascend(a),
        names_ascend(b),
        give_the_same(a, b),
    ensures
        a =~= b,
    decreases a.len(),
{
    if a.len() == 0 {
        if b.len() > 0 {
            assert(values_given(b, b.last().0) == values_given(a, b.last().0));
            assert(values_given(b, b.last().0).len() > 0);
        }
    } else {
        let x = a.last();
        assert(values_given(a, x.0) == values_given(b, x.0));
        assert(values_given(a, x.0).last() == x.1);
        if b.len() == 0 {
            assert(values_given(b, x.0).len() == 0);
        }
        let y = b.last();
        assert(values_given(a, y.0) == values_given(b, y.0));
        assert(values_given(b, y.0).last() == y.1);
        if x.0 != y.0 {
            if forall|i: int| 0 <= i < b.len() ==> (#[trigger] b[i]).0 != x.0 {
                lemma_not_given(b, x.0);
            }
            let i = choose|i: int| 0 <= i < b.len() && (#[trigger] b[i]).0 == x.0;
            if forall|j: int| 0 <= j < a.len() ==> (#[trigger] a[j]).0 != y.0 {
                lemma_not_given(a, y.0);
            }
            let j = choose|j: int| 0 <= j < a.len() && (#[trigger] a[j]).0 == y.0;
            assert(text_le(b[i].0, b[b.len() - 1].0));
            assert(text_le(a[j].0, a[a.len() - 1].0));
            lemma_dictionary_antisymmetric(x.0, y.0, code());
        }
        let c = a.drop_last();
        let d = b.drop_last();
        assert forall|name: Seq<char>| #[trigger] values_given(c, name) == values_given(d, name) by {
            assert(values_given(a, name) == values_given(b, name));
            if name == x.0 {
                assert(values_given(a, name).drop_last() =~= values_given(c, name));
                assert(values_given(b, name).drop_last() =~= values_given(d, name));
            }
        }
        assert(x.1 == y.1);
        assert forall|i: int, j: int|
            #![trigger c[i], c[j]]
            0 <= i < j < c.len() implies text_le(c[i].0, c[j].0) by {
            assert(text_le(a[i].0, a[j].0));
        }
        assert forall|i: int, j: int|
            #![trigger d[i], d[j]]
            0 <= i < j < d.len() implies text_le(d[i].0, d[j].0) by {
            assert(text_le(b[i].0, b[j].0));
        }
        lemma_ordered_unique(c, d);
        assert(a =~= c.push(x));
        assert(b =~= d.push(y));
    }
}

proof fn lemma_text_le_total(a: Seq<char>, b: Seq<char>)
    ensures
        text_le(a, b) || text_le(b, a),
        text_le(a, b) && text_le(b, a) ==> a == b,
{
    lemma_dictionary_total(a, b, code());
    if text_le(a, b) && text_le(b, a) {
        lemma_dictionary_antisymmetric(a, b, code());
    }
}

proof fn lemma_insert_keeps_order(before: Pairs, done: Pairs, x: (Seq<char>, Seq<char>), k: int)
    requires
        ordered_by_name(before, done),
        0 <= k <= done.len(),
        k == 0 || text_le(done[k - 1].0, x.0),
        forall|i: int| k <= i < done.len() ==> !text_le(#[trigger] done[i].0, x.0),
    ensures
        ordered_by_name(before.push(x), done.insert(k, x)),
{
    let t = done.insert(k, x);
    let l = done.take(k);
    let r = done.skip(k);
    assert(done =~= l + r);
    assert(t =~= l + (seq![x] + r));
    assert(before.push(x).drop_last() =~= before);
    assert forall|name: Seq<char>| #[trigger]
        values_given(before.push(x), name) == values_given(t, name) by {
        assert(values_given(before, name) == values_given(done, name));
        lemma_values_of_sum(l, r, name);
        lemma_values_of_sum(l, seq![x] + r, name);
        lemma_values_of_sum(seq![x], r, name);
        assert(seq![x].drop_last() =~= Seq::empty());
        assert(values_given(seq![x].drop_last(), name) =~= Seq::empty());
        if name == x.0 {
            assert forall|i: int| 0 <= i < r.len() implies (#[trigger] r[i]).0 != name by {
                assert(r[i] == done[k + i]);
                lemma_dictionary_total(name, name, code());
            }
            lemma_not_given(r, name);
            assert(values_given(seq![x], name) =~= seq![x.1]);
            assert(values_given(l, name) + values_given(r, name) =~= values_given(l, name));
            assert(seq![x.1] + values_given(r, name) =~= seq![x.1]);
            assert(values_given(l, name) + seq![x.1] =~= values_given(l, name).push(x.1));
        } else {
            assert(values_given(seq![x], name) =~= Seq::empty());
            assert(Seq::<Seq<char>>::empty() + values_given(r, name) =~= values_given(r, name));
        }
    }
    assert forall|i: int, j: int|
        #![trigger t[i], t[j]]
        0 <= i < j < t.len() implies text_le(t[i].0, t[j].0) by {
        if j < k {
            assert(text_le(done[i].0, done[j].0));
        } else if j == k {
            if i < k - 1 {
                assert(text_le(done[i].0, done[k - 1].0));
                lemma_dictionary_transitive(done[i].0, done[k - 1].0, x.0, code());
            }
        } else if i == k {
            assert(!text_le(done[j - 1].0, x.0));
            lemma_text_le_total(done[j - 1].0, x.0);
        } else if i < k {
            assert(text_le(done[i].0, done[j - 1].0));
        } else {
            assert(text_le(done[i - 1].0, done[j - 1].0));
        }
    }
}

/// Parameters by ascending names, what one name is given in the order in which it
/// is given.
fn by_name(v: &Vec<(String, String)>) -> (r: Vec<(String, String)>)
    ensures
        ordered_by_name(pair_views(v@), pair_views(r@)),
{
    let mut out: Vec<(String, String)> = Vec::new();
    let ghost all = pair_views(v@);
    assert(all.take(0) =~= Seq::empty());
    assert(pair_views(out@) =~= Seq::empty());
    for i in 0..v.len()
        invariant
            all == pair_views(v@),
            ordered_by_name(all.take(i as int), pair_views(out@)),
    {
        let ghost done = pair_views(out@);
        let mut k: usize = out.len();
        while k > 0 && !text_at_most(out[k - 1].0.as_str(), v[i].0.as_str())
            invariant
                k <= out@.len(),
                i < v@.len(),
                done == pair_views(out@),
                forall|j: int| k <= j < done.len() ==> !text_le(#[trigger] done[j].0, v@[i as int].0@),
            decreases k,
        {
            assert(done[k - 1] == pair_view(out@[k - 1]));
            k = k - 1;
        }
        proof {
            let x = pair_view(v@[i as int]);
            if k > 0 {
                assert(done[k - 1] == pair_view(out@[k - 1]));
            }
            lemma_insert_keeps_order(all.take(i as int), done, x, k as int);
            assert(all.take(i + 1) =~= all.take(i as int).push(x));
        }
        out.insert(k, (v[i].0.clone(), v[i].1.clone()));
        assert(pair_views(out@) =~= done.insert(k as int, pair_view(v@[i as int])));
    }
    assert(all.take(v@.len() as int) =~= all);
    out
}

// ---- the cache key -----------------------------------------------------------------

/// Identity of a structured render. Every list is stored sorted, so that two
/// hosts that were handed the same inputs in a different order get the same key.
/// Only the values that one parameter is given stay in order, since the last one
/// counts.
#[derive(Debug, PartialEq, Eq)]
pub struct StructuredCacheKey {
    source: String,
    params: Vec<(String, String)>,
    files: Vec<(String, String)>,
    binary_files: Vec<(String, Vec<u8>)>,
    font_files: Vec<Vec<u8>>,
    preview: bool,
}

/// What a key holds.
pub struct KeyView {
    pub request: RequestView,
    pub preview: bool,
}

pub open spec fn pair_order() -> spec_fn((Seq<char>, Seq<char>), (Seq<char>, Seq<char>)) -> bool {
    |a: (Seq<char>, Seq<char>), b: (Seq<char>, Seq<char>)| pair_le(a, b)
}

pub open spec fn asset_order() -> spec_fn((Seq<char>, Seq<u8>), (Seq<char>, Seq<u8>)) -> bool {
    |a: (Seq<char>, Seq<u8>), b: (Seq<char>, Seq<u8>)| asset_le(a, b)
}

pub open spec fn bytes_order() -> spec_fn(Seq<u8>, Seq<u8>) -> bool {
    |a: Seq<u8>, b: Seq<u8>| bytes_le(a, b)
}

/// `k` identifies the render of `r` with these preview semantics.
pub open spec fn identifies(k: KeyView, r: RequestView, preview: bool) -> bool {
    &&& k.preview == preview
    &&& k.request.source == r.source
    &&& ordered_by_name(r.params, k.request.params)
    &&& arranged(r.files, k.request.files, pair_order())
    &&& arranged(r.binary_files, k.request.binary_files, asset_order())
    &&& arranged(r.font_files, k.request.font_files, bytes_order())
}

fn copy_pairs(v: &Vec<(String, String)>) -> (r: Vec<(String, String)>)
    ensures
        r@ == v@,
{
    let mut out: Vec<(String, String)> = Vec::new();
    for i in 0..v.len()
        invariant
            out@ =~= v@.take(i as int),
    {
        out.push((v[i].0.clone(), v[i].1.clone()));
    }
    assert(v@.take(v@.len() as int) =~= v@);
    out
}

fn copy_assets(v: &Vec<(String, Vec<u8>)>) -> (r: Vec<(String, Vec<u8>)>)
    ensures
        asset_views(r@) == asset_views(v@),
{
    let mut out: Vec<(String, Vec<u8>)> = Vec::new();
    for i in 0..v.len()
        invariant
            asset_views(out@) =~= asset_views(v@.take(i as int)),
    {
        let ghost before = out@;
        out.push((v[i].0.clone(), copy_bytes(&v[i].1)));
        proof {
            assert(v@.take(i + 1) =~= v@.take(i as int).push(v@[i as int]));
            assert(asset_views(out@) =~= asset_views(before).push(asset_view(v@[i as int])));
            assert(asset_views(v@.take(i + 1)) =~= asset_views(v@.take(i as int)).push(
                asset_view(v@[i as int]),
            ));
        }
    }
    assert(v@.take(v@.len() as int) =~= v@);
    out
}

fn copy_byte_lists(v: &Vec<Vec<u8>>) -> (r: Vec<Vec<u8>>)
    ensures
        byte_views(r@) == byte_views(v@),
{
    let mut out: Vec<Vec<u8>> = Vec::new();
    for i in 0..v.len()
        invariant
            byte_views(out@) =~= byte_views(v@.take(i as int)),
    {
        let ghost before = out@;
        out.push(copy_bytes(&v[i]));
        proof {
            assert(v@.take(i + 1) =~= v@.take(i as int).push(v@[i as int]));
            assert(byte_views(out@) =~= byte_views(before).push(v@[i as int]@));
            assert(byte_views(v@.take(i + 1)) =~= byte_views(v@.take(i as int)).push(
                v@[i as int]@,
            ));
        }
    }
    assert(v@.take(v@.len() as int) =~= v@);
    out
}

impl StructuredCacheKey {
    pub closed spec fn view(&self) -> KeyView {
        KeyView {
            request: RequestView {
                source: self.source@,
                params: pair_views(self.params@),
                files: pair_views(self.files@),
                binary_files: asset_views(self.binary_files@),
                font_files: byte_views(self.font_files@),
            },
            preview: self.preview,
        }
    }

    /// The key of a request.
    pub fn new(request: &Request, preview: bool) -> (r: Self)
        ensures
            identifies(r@, request@, preview),
    {
        let files0 = copy_pairs(&request.files);
        let assets0 = copy_assets(&request.binary_files);
        let fonts0 = copy_byte_lists(&request.font_files);
        let ghost (f0, a0, b0) = (files0@, assets0@, fonts0@);
        let params = by_name(&request.params);
        let files = sorted(files0);
        let binary_files = sorted(assets0);
        let font_files = sorted(fonts0);
        proof {
            lemma_map_multiset(files@, f0, |p: (String, String)| pair_view(p));
            lemma_map_multiset(binary_files@, a0, |p: (String, Vec<u8>)| asset_view(p));
            lemma_map_multiset(font_files@, b0, |p: Vec<u8>| bytes_view(p));
            let t2 = pair_views(files@);
            assert forall|i: int, j: int|
                #![trigger t2[i], t2[j]]
                0 <= i < j < t2.len() implies pair_le(t2[i], t2[j]) by {
                assert(files@[i].rank_le(&files@[j]));
            }
            let t3 = asset_views(binary_files@);
            assert forall|i: int, j: int|
                #![trigger t3[i], t3[j]]
                0 <= i < j < t3.len() implies asset_le(t3[i], t3[j]) by {
                assert(binary_files@[i].rank_le(&binary_files@[j]));
            }
            let t4 = byte_views(font_files@);
            assert forall|i: int, j: int|
                #![trigger t4[i], t4[j]]
                0 <= i < j < t4.len() implies bytes_le(t4[i], t4[j]) by {
                assert(font_files@[i].rank_le(&font_files@[j]));
            }
        }
        StructuredCacheKey {
            source: request.source.clone(),
            params,
            files,
            binary_files,
            font_files,
            preview,
        }
    }

    /// Whether two keys hold the same.
    pub fn same(&self, other: &StructuredCacheKey) -> (r: bool)
        ensures
            r == (self@ == other@),
    {
        if self.preview != other.preview || !same_text(self.source.as_str(), other.source.as_str())
            || !same_pairs(&self.params, &other.params) || !same_pairs(&self.files, &other.files)
            || !same_assets(&self.binary_files, &other.binary_files) || !same_byte_lists(
            &self.font_files,
            &other.font_files,
        ) {
            return false;
        }
        true
    }
}

fn same_pairs(a: &Vec<(String, String)>, b: &Vec<(String, String)>) -> (r: bool)
    ensures
        r == (pair_views(a@) == pair_views(b@)),
{
    if a.len() != b.len() {
        assert(pair_views(a@).len() != pair_views(b@).len());
        return false;
    }
    for i in 0..a.len()
        invariant
            a@.len() == b@.len(),
            forall|k: int| 0 <= k < i ==> pair_view(#[trigger] a@[k]) == pair_view(b@[k]),
    {
        if !same_text(a[i].0.as_str(), b[i].0.as_str()) || !same_text(
            a[i].1.as_str(),
            b[i].1.as_str(),
        ) {
            assert(pair_views(a@)[i as int] != pair_views(b@)[i as int]);
            return false;
        }
    }
    assert(pair_views(a@) =~= pair_views(b@));
    true
}

fn same_assets(a: &Vec<(String, Vec<u8>)>, b: &Vec<(String, Vec<u8>)>) -> (r: bool)
    ensures
        r == (asset_views(a@) == asset_views(b@)),
{
    if a.len() != b.len() {
        assert(asset_views(a@).len() != asset_views(b@).len());
        return false;
    }
    for i in 0..a.len()
        invariant
            a@.len() == b@.len(),
            forall|k: int| 0 <= k < i ==> asset_view(#[trigger] a@[k]) == asset_view(b@[k]),
    {
        if !same_text(a[i].0.as_str(), b[i].0.as_str()) || !same_bytes(&a[i].1, &b[i].1) {
            assert(asset_views(a@)[i as int] != asset_views(b@)[i as int]);
            return false;
        }
    }
    assert(asset_views(a@) =~= asset_views(b@));
    true
}

fn same_byte_lists(a: &Vec<Vec<u8>>, b: &Vec<Vec<u8>>) -> (r: bool)
    ensures
        r == (byte_views(a@) == byte_views(b@)),
{
    if a.len() != b.len() {
        assert(byte_views(a@).len() != byte_views(b@).len());
        return false;
    }
    for i in 0..a.len()
        invariant
            a@.len() == b@.len(),
            forall|k: int| 0 <= k < i ==> bytes_view(#[trigger] a@[k]) == bytes_view(b@[k]),
    {
        if !same_bytes(&a[i], &b[i]) {
            assert(byte_views(a@)[i as int] != byte_views(b@)[i as int]);
            return false;
        }
    }
    assert(byte_views(a@) =~= byte_views(b@));
    true
}

/// Requests that hold the same inputs in any order have the same key, as long as
/// every parameter is given its values in the same order.
pub proof fn law_key_ignores_order(
    a: RequestView,
    b: RequestView,
    ka: KeyView,
    kb: KeyView,
    preview: bool,
)
    requires
        identifies(ka, a, preview),
        identifies(kb, b, preview),
        a.source == b.source,
        give_the_same(a.params, b.params),
        a.files.to_multiset() =~= b.files.to_multiset(),
        a.binary_files.to_multiset() =~= b.binary_files.to_multiset(),
        a.font_files.to_multiset() =~= b.font_files.to_multiset(),
    ensures
        ka == kb,
{
    assert forall|x: (Seq<char>, Seq<char>), y: (Seq<char>, Seq<char>)|
        #[trigger] pair_order()(x, y) && pair_order()(y, x) implies x == y by {
        if x.0 == y.0 {
            lemma_dictionary_antisymmetric(x.1, y.1, code());
        } else {
            lemma_dictionary_antisymmetric(x.0, y.0, code());
        }
    }
    assert forall|x: (Seq<char>, Seq<u8>), y: (Seq<char>, Seq<u8>)|
        #[trigger] asset_order()(x, y) && asset_order()(y, x) implies x == y by {
        if x.0 == y.0 {
            lemma_dictionary_antisymmetric(x.1, y.1, byte_value());
        } else {
            lemma_dictionary_antisymmetric(x.0, y.0, code());
        }
    }
    assert forall|x: Seq<u8>, y: Seq<u8>|
        #[trigger] bytes_order()(x, y) && bytes_order()(y, x) implies x == y by {
        lemma_dictionary_antisymmetric(x, y, byte_value());
    }
    assert forall|name: Seq<char>| #[trigger]
        values_given(ka.request.params, name) == values_given(kb.request.params, name) by {
        assert(values_given(a.params, name) == values_given(ka.request.params, name));
        assert(values_given(b.params, name) == values_given(kb.request.params, name));
        assert(values_given(a.params, name) == values_given(b.params, name));
    }
    lemma_ordered_unique(ka.request.params, kb.request.params);
    lemma_arranged_unique(a.files, ka.request.files, b.files, kb.request.files, pair_order());
    lemma_arranged_unique(
        a.binary_files,
        ka.request.binary_files,
        b.binary_files,
        kb.request.binary_files,
        asset_order(),
    );
    lemma_arranged_unique(
        a.font_files,
        ka.request.font_files,
        b.font_files,
        kb.request.font_files,
        bytes_order(),
    );
}

/// Two requests with the same key hold the same inputs, up to order: a key that
/// is found again never stands for other inputs or other preview semantics.
pub proof fn law_key_separates(a: RequestView, b: RequestView, k: KeyView, pa: bool, pb: bool)
    requires
        identifies(k, a, pa),
        identifies(k, b, pb),
    ensures
        pa == pb,
        a.source == b.source,
        give_the_same(a.params, b.params),
        a.files.to_multiset() =~= b.files.to_multiset(),
        a.binary_files.to_multiset() =~= b.binary_files.to_multiset(),
        a.font_files.to_multiset() =~= b.font_files.to_multiset(),
{
}

} // verus!
