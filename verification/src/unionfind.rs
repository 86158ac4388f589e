//! Disjoint sets with union by rank and path compression.

use vstd::prelude::*;

verus! {

/// What a union-find structure holds: the representative of each element, and
/// the rank of each element.
pub struct SetsView {
    pub label: Seq<int>,
    pub rank: Seq<u8>,
}

impl SetsView {
    /// `n` elements, each alone.
    pub open spec fn singletons(n: nat) -> SetsView {
        SetsView { label: Seq::new(n, |i: int| i), rank: Seq::new(n, |i: int| 0u8) }
    }

    /// Representatives are elements that represent themselves.
    pub open spec fn wf(self) -> bool {
        &&& self.rank.len() == self.label.len()
        &&& forall|i: int|
            0 <= i < self.label.len() ==> 0 <= #[trigger] self.label[i] < self.label.len()
                && self.label[self.label[i]] == self.label[i]
    }

    /// The sets after those of `left` and `right` are joined: the representative
    /// of the higher rank stays, the left one where the ranks are equal, and in
    /// that case its rank grows.
    pub open spec fn joined(self, left: int, right: int) -> SetsView {
        let a = self.label[left];
        let b = self.label[right];
        if a == b {
            self
        } else {
            let (win, lose) = if self.rank[a] < self.rank[b] {
                (b, a)
            } else {
                (a, b)
            };
            SetsView {
                label: Seq::new(
                    self.label.len(),
                    |i: int|
                        if self.label[i] == lose {
                            win
                        } else {
                            self.label[i]
                        },
                ),
                rank: if self.rank[win] == self.rank[lose] && self.rank[win] < u8::MAX {
                    self.rank.update(win, (self.rank[win] + 1) as u8)
                } else {
                    self.rank
                },
            }
        }
    }
}

/// Disjoint sets over `0..n`.
pub struct UnionFind {
    parent: Vec<usize>,
    rank: Vec<u8>,
    label: Ghost<Seq<int>>,
    depth: Ghost<Seq<nat>>,
}

impl UnionFind {
    pub closed spec fn view(&self) -> SetsView {
        SetsView { label: self.label@, rank: self.rank@ }
    }

    /// Parents lead to the representative in finitely many steps.
    pub closed spec fn wf(&self) -> bool {
        let n = self.parent@.len();
        &&& self.rank@.len() == n
        &&& self.label@.len() == n
        &&& self.depth@.len() == n
        &&& forall|i: int|
            #![trigger self.parent@[i]]
            0 <= i < n ==> {
                let p = self.parent@[i] as int;
                &&& p < n
                &&& self.label@[p] == self.label@[i]
                &&& p == i ==> self.label@[i] == i && self.depth@[i] == 0
                &&& p != i ==> self.depth@[p] < self.depth@[i]
            }
        &&& forall|i: int|
            #![trigger self.label@[i]]
            0 <= i < n ==> {
                let l = self.label@[i];
                &&& 0 <= l < n
                &&& self.parent@[l] == l
                &&& self.label@[l] == l
            }
    }

    pub open spec fn size(&self) -> nat {
        self@.label.len()
    }

    /// Every state is one of well-formed sets.
    pub proof fn lemma_wf(&self)
        requires
            self.wf(),
        ensures
            self@.wf(),
    {
    }

    /// `len` elements, each alone.
    pub fn new(len: usize) -> (r: Self)
        ensures
            r.wf(),
            r@ == SetsView::singletons(len as nat),
    {
        let mut parent: Vec<usize> = Vec::new();
        let mut rank: Vec<u8> = Vec::new();
        for i in 0..len
            invariant
                parent@.len() == i,
                rank@.len() == i,
                forall|k: int| 0 <= k < i ==> parent@[k] == k,
                forall|k: int| 0 <= k < i ==> rank@[k] == 0,
        {
            parent.push(i);
            rank.push(0);
        }
        let r = UnionFind {
            parent,
            rank,
            label: Ghost(Seq::new(len as nat, |i: int| i)),
            depth: Ghost(Seq::new(len as nat, |i: int| 0nat)),
        };
        assert(r@.rank =~= SetsView::singletons(len as nat).rank);
        r
    }

    /// The representative of an element; shortens the way to it.
    pub fn find(&mut self, value: usize) -> (r: usize)
        requires
            old(self).wf(),
            value < old(self).size(),
        ensures
            final(self).wf(),
            final(self)@ == old(self)@,
            r == final(self)@.label[value as int],
            r < final(self).size(),
    {
        let mut root: usize = value;
        while self.parent[root] != root
            invariant
                self.wf(),
                *self == *old(self),
                value < self.parent@.len(),
                root < self.parent@.len(),
                self.label@[root as int] == self.label@[value as int],
            decreases self.depth@[root as int],
        {
            root = self.parent[root];
        }
        assert(self.label@[root as int] == root);
        let mut at: usize = value;
        while at != root
            invariant
                self.wf(),
                self@ == old(self)@,
                self.depth@ == old(self).depth@,
                at < self.parent@.len(),
                root < self.parent@.len(),
                self.parent@[root as int] == root,
                self.label@[root as int] == root,
                self.label@[at as int] == root,
            decreases self.depth@[at as int],
        {
            let next: usize = self.parent[at];
            assert(self.parent@[at as int] == next);
            assert(next != at);
            let ghost before = self.parent@;
            self.parent.set(at, root);
            proof {
                assert(self.depth@[root as int] == 0);
                assert forall|i: int|
                    #![trigger self.parent@[i]]
                    0 <= i < self.parent@.len() implies {
                    let p = self.parent@[i] as int;
                    &&& p < self.parent@.len()
                    &&& self.label@[p] == self.label@[i]
                    &&& p == i ==> self.label@[i] == i && self.depth@[i] == 0
                    &&& p != i ==> self.depth@[p] < self.depth@[i]
                } by {
                    assert(before[i] < before.len());
                }
                assert forall|i: int|
                    #![trigger self.label@[i]]
                    0 <= i < self.parent@.len() implies {
                    let l = self.label@[i];
                    &&& 0 <= l < self.parent@.len()
                    &&& self.parent@[l] == l
                    &&& self.label@[l] == l
                } by {
                    let l = self.label@[i];
                    assert(before[l] == l);
                    if l == at {
                        assert(self.label@[at as int] == at);
                    }
                }
            }
            at = next;
        }
        root
    }

    /// Joins the sets of two elements.
    pub fn union(&mut self, left: usize, right: usize)
        requires
            old(self).wf(),
            left < old(self).size(),
            right < old(self).size(),
        ensures
            final(self).wf(),
            final(self)@ == old(self)@.joined(left as int, right as int),
            final(self).size() == old(self).size(),
    {
        let ghost start = self@;
        let a: usize = self.find(left);
        let b: usize = self.find(right);
        if a == b {
            return;
        }
        let swap: bool = self.rank[a] < self.rank[b];
        let win: usize = if swap {
            b
        } else {
            a
        };
        let lose: usize = if swap {
            a
        } else {
            b
        };
        let ghost label = self.label@;
        let ghost depth = self.depth@;
        let ghost parent = self.parent@;
        proof {
            assert(label[label[left as int]] == label[left as int]);
            assert(label[label[right as int]] == label[right as int]);
            assert(parent[win as int] == win && parent[lose as int] == lose);
        }
        self.parent.set(lose, win);
        let grow: bool = self.rank[win] == self.rank[lose] && self.rank[win] < 255;
        if grow {
            let r: u8 = self.rank[win];
            self.rank.set(win, r + 1);
        }
        self.label = Ghost(
            Seq::new(
                label.len(),
                |i: int|
                    if label[i] == lose {
                        win as int
                    } else {
                        label[i]
                    },
            ),
        );
        self.depth = Ghost(
            Seq::new(
                depth.len(),
                |i: int|
                    if label[i] == lose {
                        depth[i] + 1
                    } else {
                        depth[i]
                    },
            ),
        );
        proof {
            assert(self@.label =~= start.joined(left as int, right as int).label);
            assert(self@.rank =~= start.joined(left as int, right as int).rank);
            assert forall|i: int|
                #![trigger self.parent@[i]]
                0 <= i < parent.len() implies {
                let p = self.parent@[i] as int;
                &&& p < parent.len()
                &&& self.label@[p] == self.label@[i]
                &&& p == i ==> self.label@[i] == i && self.depth@[i] == 0
                &&& p != i ==> self.depth@[p] < self.depth@[i]
            } by {
                assert(parent[i] < parent.len());
                assert(label[lose as int] == lose);
                assert(depth[lose as int] == 0);
                assert(depth[win as int] == 0);
            }
            assert forall|i: int|
                #![trigger self.label@[i]]
                0 <= i < parent.len() implies {
                let l = self.label@[i];
                &&& 0 <= l < parent.len()
                &&& self.parent@[l] == l
                &&& self.label@[l] == l
            } by {
                assert(parent[label[i]] == label[i]);
            }
        }
    }
}

/// Joining two elements puts them into one set, keeps together what was
/// together, and joins nothing else.
pub proof fn law_union_merges_exactly(s: SetsView, left: int, right: int, i: int, j: int)
    requires
        s.wf(),
        0 <= left < s.label.len(),
        0 <= right < s.label.len(),
        0 <= i < s.label.len(),
        0 <= j < s.label.len(),
    ensures
        s.joined(left, right).wf(),
        (s.joined(left, right).label[i] == s.joined(left, right).label[j]) <==> (s.label[i]
            == s.label[j] || (s.label[i] == s.label[left] && s.label[j] == s.label[right]) || (
        s.label[i] == s.label[right] && s.label[j] == s.label[left])),
{
    let t = s.joined(left, right);
    assert(s.label[s.label[left]] == s.label[left]);
    assert(s.label[s.label[right]] == s.label[right]);
    assert forall|k: int| 0 <= k < t.label.len() implies 0 <= #[trigger] t.label[k] < t.label.len()
        && t.label[t.label[k]] == t.label[k] by {
        assert(s.label[s.label[k]] == s.label[k]);
    }
}

} // verus!
