//! Positions by key: which places of a list hold each key, keys in order.

use crate::rank::{sorted, Ranked};
use vstd::prelude::*;

verus! {

/// A key of two numbers.
pub open spec fn key_less(a: (u64, u64), b: (u64, u64)) -> bool {
    a.0 < b.0 || (a.0 == b.0 && a.1 < b.1)
}

/// The places below `n` that hold the key `k`, in order.
pub open spec fn places(keys: Seq<(u64, u64)>, k: (u64, u64), n: int) -> Seq<int>
    decreases n,
{
    if n <= 0 {
        Seq::empty()
    } else if keys[n - 1] == k {
        places(keys, k, n - 1).push(n - 1)
    } else {
        places(keys, k, n - 1)
    }
}

pub proof fn lemma_places(keys: Seq<(u64, u64)>, k: (u64, u64), n: int)
    requires
        0 <= n <= keys.len(),
    ensures
        forall|x: int|
            0 <= x < places(keys, k, n).len() ==> 0 <= (#[trigger] places(keys, k, n)[x]) < n
                && keys[places(keys, k, n)[x]] == k,
        forall|i: int| 0 <= i < n && keys[i] == k ==> #[trigger] places(keys, k, n).contains(i),
        forall|a: int, b: int|
            #![trigger places(keys, k, n)[a], places(keys, k, n)[b]]
            0 <= a < b < places(keys, k, n).len() ==> places(keys, k, n)[a] < places(keys, k, n)[b],
        places(keys, k, n).len() <= n,
    decreases n,
{
    if n > 0 {
        lemma_places(keys, k, n - 1);
        let before = places(keys, k, n - 1);
        assert forall|i: int| 0 <= i < n && keys[i] == k implies #[trigger] places(
            keys,
            k,
            n,
        ).contains(i) by {
            crate::surfaces::lemma_push_contains(before, n - 1, i);
            if i < n - 1 {
                assert(before.contains(i));
            }
        }
    }
}

proof fn lemma_places_gap(keys: Seq<(u64, u64)>, k: (u64, u64), a: int, b: int)
    requires
        0 <= a <= b <= keys.len(),
        forall|i: int| a <= i < b ==> #[trigger] keys[i] != k,
    ensures
        places(keys, k, b) == places(keys, k, a),
    decreases b - a,
{
    if a < b {
        lemma_places_gap(keys, k, a, b - 1);
    }
}

/// A list of places as integers.
pub open spec fn place_list(v: Seq<usize>) -> Seq<int> {
    v.map_values(|n: usize| n as int)
}

/// The places of one key.
#[derive(Debug)]
pub struct Group {
    pub key: (u64, u64),
    pub at: Vec<usize>,
}

/// Some group has the key.
pub open spec fn has_group(r: Seq<Group>, k: (u64, u64)) -> bool {
    exists|g: int| 0 <= g < r.len() && (#[trigger] r[g]).key == k
}

/// `r` holds the places of each key that occurs, keys in order.
pub open spec fn is_grouping(keys: Seq<(u64, u64)>, r: Seq<Group>) -> bool {
    &&& forall|a: int, b: int|
        #![trigger r[a], r[b]]
        0 <= a < b < r.len() ==> key_less(r[a].key, r[b].key)
    &&& forall|g: int|
        0 <= g < r.len() ==> place_list((#[trigger] r[g]).at@) == places(
            keys,
            r[g].key,
            keys.len() as int,
        ) && r[g].at@.len() > 0
    &&& forall|i: int| 0 <= i < keys.len() ==> has_group(r, #[trigger] keys[i])
}

struct Tagged {
    key: (u64, u64),
    at: usize,
}

impl Ranked for Tagged {
    closed spec fn rank_le(&self, other: &Self) -> bool {
        key_less(self.key, other.key) || (self.key == other.key && self.at <= other.at)
    }

    proof fn rank_total(a: &Self, b: &Self) {
    }

    proof fn rank_transitive(a: &Self, b: &Self, c: &Self) {
    }

    fn ranks_before(&self, other: &Self) -> (r: bool) {
        let r: bool = if self.key.0 != other.key.0 {
            self.key.0 < other.key.0
        } else if self.key.1 != other.key.1 {
            self.key.1 < other.key.1
        } else {
            self.at <= other.at
        };
        assert(self.rank_le(other) == (key_less(self.key, other.key) || (self.key == other.key
            && self.at <= other.at)));
        r
    }
}

/// Some tag holds the place `i` and its key.
spec fn tagged(ov: Seq<Tagged>, i: int, k: (u64, u64)) -> bool {
    exists|j: int| 0 <= j < ov.len() && (#[trigger] ov[j]).at == i && ov[j].key == k
}

/// The places of each key, keys in order.
pub fn group_by_key(keys: &Vec<(u64, u64)>) -> (r: Vec<Group>)
    ensures
        is_grouping(keys@, r@),
{
    let mut tags: Vec<Tagged> = Vec::new();
    let ghost kv = keys@;
    let n: usize = keys.len();
    let mut i: usize = 0;
    while i < n
        invariant
            kv == keys@,
            n == kv.len(),
            i <= n,
            tags@.len() == i,
            forall|j: int|
                0 <= j < i ==> (#[trigger] tags@[j]).key == kv[j] && tags@[j].at == j,
        decreases n - i,
    {
        tags.push(Tagged { key: keys[i], at: i });
        i = i + 1;
    }
    let ghost raw = tags@;
    let order = sorted(tags);
    let ghost ov = order@;
    proof {
        raw.to_multiset_ensures();
        ov.to_multiset_ensures();
        assert forall|j: int| 0 <= j < ov.len() implies (#[trigger] ov[j]).at < n && kv[ov[j].at as int]
            == ov[j].key by {
            assert(ov.to_multiset().count(ov[j]) > 0);
            assert(raw.contains(ov[j]));
            let k = choose|k: int| 0 <= k < raw.len() && raw[k] == ov[j];
            assert(raw[k].at == k);
        }
        assert forall|i: int| 0 <= i < n implies tagged(ov, i, #[trigger] kv[i]) by {
            assert(raw.contains(raw[i]));
            assert(raw.to_multiset().count(raw[i]) > 0);
            assert(ov.contains(raw[i]));
            let j = choose|j: int| 0 <= j < ov.len() && ov[j] == raw[i];
            assert(ov[j].at == i);
        }
        assert forall|a: int, b: int|
            #![trigger ov[a], ov[b]]
            0 <= a < b < ov.len() implies key_less(ov[a].key, ov[b].key) || (ov[a].key == ov[b].key
            && ov[a].at <= ov[b].at) by {
            assert(ov[a].rank_le(&ov[b]));
        }
        lemma_distinct(raw, ov);
    }
    let mut out: Vec<Group> = Vec::new();
    let mut i: usize = 0;
    while i < order.len()
        invariant
            n == kv.len(),
            kv == keys@,
            ov == order@,
            i <= ov.len(),
            forall|j: int|
                0 <= j < ov.len() ==> (#[trigger] ov[j]).at < n && kv[ov[j].at as int] == ov[j].key,
            forall|i: int| 0 <= i < n ==> tagged(ov, i, #[trigger] kv[i]),
            forall|a: int, b: int|
                #![trigger ov[a], ov[b]]
                0 <= a < b < ov.len() ==> key_less(ov[a].key, ov[b].key) || (ov[a].key == ov[b].key
                    && ov[a].at < ov[b].at),
            i == 0 <==> out@.len() == 0,
            i > 0 ==> out@.last().key == ov[i - 1].key && place_list(out@.last().at@) == places(
                kv,
                ov[i - 1].key,
                ov[i - 1].at + 1,
            ),
            forall|a: int, b: int|
                #![trigger out@[a], out@[b]]
                0 <= a < b < out@.len() ==> key_less(out@[a].key, out@[b].key),
            forall|g: int|
                0 <= g < out@.len() - 1 ==> place_list((#[trigger] out@[g]).at@) == places(
                    kv,
                    out@[g].key,
                    n as int,
                ),
            forall|g: int| 0 <= g < out@.len() ==> (#[trigger] out@[g]).at@.len() > 0,
            forall|j: int| 0 <= j < i ==> has_group(out@, (#[trigger] ov[j]).key),
        decreases order.len() - i,
    {
        let key = order[i].key;
        let at: usize = order[i].at;
        let ghost before = out@;
        let ghost old_i = i as int;
        let fresh: bool = if i == 0 {
            true
        } else {
            order[i - 1].key.0 != key.0 || order[i - 1].key.1 != key.1
        };
        proof {
            // Between two neighbours of the sorted list no place holds the key.
            let from: int = if fresh {
                0
            } else {
                ov[i - 1].at + 1
            };
            assert forall|p: int| from <= p < at implies #[trigger] kv[p] != key by {
                if kv[p] == key {
                    assert(tagged(ov, p, kv[p]));
                    let j = choose|j: int|
                        0 <= j < ov.len() && (#[trigger] ov[j]).at == p && ov[j].key == kv[p];
                    if j < i {
                        if j < i - 1 {
                            assert(key_less(ov[j].key, ov[i - 1].key) || (ov[j].key == ov[i - 1].key
                                && ov[j].at < ov[i - 1].at));
                            assert(key_less(ov[i - 1].key, ov[i as int].key) || (ov[i - 1].key
                                == ov[i as int].key));
                        }
                    } else if j > i {
                        assert(key_less(ov[i as int].key, ov[j].key) || (ov[i as int].key
                            == ov[j].key && ov[i as int].at < ov[j].at));
                    }
                }
            }
            lemma_places_gap(kv, key, from, at as int);
        }
        if fresh {
            let mut list: Vec<usize> = Vec::new();
            list.push(at);
            proof {
                assert(place_list(list@) =~= seq![at as int]);
                assert(places(kv, key, at + 1) =~= seq![at as int]);
                if i > 0 {
                    let last = ov[i - 1];
                    assert forall|p: int| last.at + 1 <= p < n implies #[trigger] kv[p]
                        != last.key by {
                        if kv[p] == last.key {
                            let j = choose|j: int|
                                0 <= j < ov.len() && (#[trigger] ov[j]).at == p && ov[j].key == kv[p];
                            if j < i - 1 {
                                assert(key_less(ov[j].key, ov[i - 1].key) || (ov[j].key
                                    == ov[i - 1].key && ov[j].at < ov[i - 1].at));
                            } else if j > i - 1 {
                                assert(key_less(ov[i - 1].key, ov[i as int].key));
                                if j > i {
                                    assert(key_less(ov[i as int].key, ov[j].key)
                                        || ov[i as int].key == ov[j].key);
                                }
                            }
                        }
                    }
                    lemma_places_gap(kv, last.key, last.at + 1, n as int);
                }
            }
            out.push(Group { key, at: list });
            proof {
                assert(out@ =~= before.push(out@.last()));
                assert forall|a: int, b: int|
                    #![trigger out@[a], out@[b]]
                    0 <= a < b < out@.len() implies key_less(out@[a].key, out@[b].key) by {
                    if b == before.len() {
                        if a < before.len() - 1 {
                            assert(key_less(before[a].key, before[before.len() - 1].key));
                        }
                        assert(key_less(ov[i - 1].key, ov[i as int].key));
                    } else {
                        assert(key_less(before[a].key, before[b].key));
                    }
                }
            }
        } else {
            let last: usize = out.len() - 1;
            let ghost had = place_list(out@[last as int].at@);
            out[last].at.push(at);
            proof {
                assert(place_list(out@[last as int].at@) =~= had.push(at as int));
                assert forall|g: int| 0 <= g < last implies #[trigger] out@[g] == before[g] by {}
                assert(out@[last as int].key == before[last as int].key);
            }
        }
        proof {
            assert forall|j: int| 0 <= j < i + 1 implies has_group(out@, (#[trigger] ov[j]).key) by {
                if j < i {
                    let g = choose|g: int| 0 <= g < before.len() && (#[trigger] before[g]).key
                        == ov[j].key;
                    assert(out@[g].key == ov[j].key);
                } else {
                    assert(out@[out@.len() - 1].key == ov[j].key);
                }
            }
        }
        i = i + 1;
    }
    proof {
        if out@.len() > 0 {
            let last = ov[ov.len() - 1];
            assert forall|p: int| last.at + 1 <= p < n implies #[trigger] kv[p] != last.key by {
                if kv[p] == last.key {
                    assert(tagged(ov, p, kv[p]));
                    let j = choose|j: int|
                        0 <= j < ov.len() && (#[trigger] ov[j]).at == p && ov[j].key == kv[p];
                    if j < ov.len() - 1 {
                        assert(key_less(ov[j].key, ov[ov.len() - 1].key) || (ov[j].key
                            == ov[ov.len() - 1].key && ov[j].at < ov[ov.len() - 1].at));
                    }
                }
            }
            lemma_places_gap(kv, last.key, last.at + 1, n as int);
        }
        assert forall|i: int| 0 <= i < kv.len() implies has_group(out@, #[trigger] kv[i]) by {
            assert(tagged(ov, i, kv[i]));
            let j = choose|j: int|
                0 <= j < ov.len() && (#[trigger] ov[j]).at == i && ov[j].key == kv[i];
            assert(has_group(out@, ov[j].key));
        }
    }
    out
}

proof fn lemma_distinct(raw: Seq<Tagged>, ov: Seq<Tagged>)
    requires
        raw.to_multiset() =~= ov.to_multiset(),
        forall|j: int| 0 <= j < raw.len() ==> (#[trigger] raw[j]).at == j,
    ensures
        forall|a: int, b: int|
            #![trigger ov[a], ov[b]]
            0 <= a < b < ov.len() ==> ov[a].at != ov[b].at,
{
    raw.to_multiset_ensures();
    ov.to_multiset_ensures();
    assert(raw.no_duplicates());
    raw.lemma_multiset_has_no_duplicates();
    assert(ov.no_duplicates()) by {
        ov.lemma_multiset_has_no_duplicates_conv();
    }
    assert forall|a: int, b: int|
        #![trigger ov[a], ov[b]]
        0 <= a < b < ov.len() implies ov[a].at != ov[b].at by {
        assert(ov[a] != ov[b]);
        assert(ov.contains(ov[a]) && ov.contains(ov[b]));
        assert(raw.contains(ov[a]) && raw.contains(ov[b])) by {
            assert(ov.to_multiset().count(ov[a]) > 0);
            assert(ov.to_multiset().count(ov[b]) > 0);
        }
        let x = choose|x: int| 0 <= x < raw.len() && raw[x] == ov[a];
        let y = choose|y: int| 0 <= y < raw.len() && raw[y] == ov[b];
        assert(raw[x].at == x && raw[y].at == y);
    }
}

} // verus!
