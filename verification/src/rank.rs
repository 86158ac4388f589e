//! Totally ordered values and a stable merge sort for them.

use vstd::prelude::*;

verus! {

/// A type with a total preorder that executable code can decide.
pub trait Ranked: Sized {
    /// Whether `self` may stand before `other`.
    spec fn rank_le(&self, other: &Self) -> bool;

    /// Any two values can be ordered.
    proof fn rank_total(a: &Self, b: &Self)
        ensures
            a.rank_le(b) || b.rank_le(a),
    ;

    /// The order can be chained.
    proof fn rank_transitive(a: &Self, b: &Self, c: &Self)
        requires
            a.rank_le(b),
            b.rank_le(c),
        ensures
            a.rank_le(c),
    ;

    /// Decides the order.
    fn ranks_before(&self, other: &Self) -> (r: bool)
        ensures
            r == self.rank_le(other),
    ;
}

/// Every element may stand before every later one.
pub open spec fn ascending<T: Ranked>(s: Seq<T>) -> bool {
    forall|i: int, j: int|
        #![trigger s[i], s[j]]
        0 <= i < j < s.len() ==> s[i].rank_le(&s[j])
}

/// Every element may stand after every later one.
spec fn descending<T: Ranked>(s: Seq<T>) -> bool {
    forall|i: int, j: int|
        #![trigger s[i], s[j]]
        0 <= i < j < s.len() ==> s[j].rank_le(&s[i])
}

/// Every element of `a` may stand before every element of `b`.
spec fn below<T: Ranked>(a: Seq<T>, b: Seq<T>) -> bool {
    forall|i: int, j: int|
        #![trigger a[i], b[j]]
        0 <= i < a.len() && 0 <= j < b.len() ==> a[i].rank_le(&b[j])
}

proof fn lemma_pop_multiset<T>(s: Seq<T>)
    requires
        s.len() > 0,
    ensures
        s.to_multiset() =~= s.drop_last().to_multiset().insert(s.last()),
{
    s.drop_last().to_multiset_ensures();
    assert(s =~= s.drop_last().push(s.last()));
}

/// Moves the last element of `from` to the end of `to`.
fn move_last<T>(from: &mut Vec<T>, to: &mut Vec<T>)
    requires
        old(from)@.len() > 0,
    ensures
        final(from)@ == old(from)@.drop_last(),
        final(to)@ == old(to)@.push(old(from)@.last()),
        forall|x: T|
            #![trigger final(from)@.to_multiset().count(x)]
            #![trigger final(to)@.to_multiset().count(x)]
            final(from)@.to_multiset().count(x) + final(to)@.to_multiset().count(x)
                == old(from)@.to_multiset().count(x) + old(to)@.to_multiset().count(x),
{
    proof {
        lemma_pop_multiset(from@);
        to@.to_multiset_ensures();
    }
    let x = from.pop();
    if let Some(x) = x {
        to.push(x);
    }
}

/// Merges two ascending vectors; of two elements that may stand either way
/// round, the one from `a` comes first.
fn merge<T: Ranked>(a: Vec<T>, b: Vec<T>) -> (out: Vec<T>)
    requires
        ascending(a@),
        ascending(b@),
    ensures
        ascending(out@),
        out@.to_multiset() =~= a@.to_multiset().add(b@.to_multiset()),
        out@.len() == a@.len() + b@.len(),
{
    let ghost all = a@.to_multiset().add(b@.to_multiset());
    let ghost count = a@.len() + b@.len();
    let mut a = a;
    let mut b = b;
    let mut rev: Vec<T> = Vec::new();
    proof {
        rev@.to_multiset_ensures();
    }
    while a.len() > 0 || b.len() > 0
        invariant
            ascending(a@),
            ascending(b@),
            descending(rev@),
            below(a@, rev@),
            below(b@, rev@),
            a@.len() + b@.len() + rev@.len() == count,
            forall|x: T| #[trigger]
                all.count(x) == a@.to_multiset().count(x) + b@.to_multiset().count(x)
                    + rev@.to_multiset().count(x),
        decreases a.len() + b.len(),
    {
        let from_b: bool = if a.len() == 0 {
            true
        } else if b.len() == 0 {
            false
        } else {
            a[a.len() - 1].ranks_before(&b[b.len() - 1])
        };
        let ghost (a0, b0, rev0) = (a@, b@, rev@);
        if from_b {
            proof {
                assert forall|i: int| 0 <= i < a0.len() implies (#[trigger] a0[i]).rank_le(&b0.last()) by {
                    if i < a0.len() - 1 {
                        T::rank_transitive(&a0[i], &a0.last(), &b0.last());
                    }
                }
            }
            move_last(&mut b, &mut rev);
        } else {
            proof {
                assert forall|i: int| 0 <= i < b0.len() implies (#[trigger] b0[i]).rank_le(&a0.last()) by {
                    T::rank_total(&a0.last(), &b0.last());
                    if i < b0.len() - 1 {
                        T::rank_transitive(&b0[i], &b0.last(), &a0.last());
                    }
                }
            }
            move_last(&mut a, &mut rev);
        }
    }
    let mut out: Vec<T> = Vec::new();
    proof {
        a@.to_multiset_ensures();
        b@.to_multiset_ensures();
        out@.to_multiset_ensures();
    }
    while rev.len() > 0
        invariant
            descending(rev@),
            ascending(out@),
            below(out@, rev@),
            rev@.len() + out@.len() == count,
            forall|x: T| #[trigger]
                all.count(x) == rev@.to_multiset().count(x) + out@.to_multiset().count(x),
        decreases rev.len(),
    {
        move_last(&mut rev, &mut out);
    }
    proof {
        rev@.to_multiset_ensures();
    }
    out
}

/// Sorts `v` so that every element may stand before every later one.
pub fn sorted<T: Ranked>(v: Vec<T>) -> (out: Vec<T>)
    ensures
        ascending(out@),
        out@.to_multiset() =~= v@.to_multiset(),
        out@.len() == v@.len(),
    decreases v@.len(),
{
    let mut left = v;
    let n: usize = left.len();
    if n < 2 {
        return left;
    }
    let ghost whole = left@;
    let right = left.split_off(n / 2);
    proof {
        assert(whole =~= left@ + right@);
        vstd::seq_lib::lemma_multiset_commutative(left@, right@);
    }
    merge(sorted(left), sorted(right))
}

/// Two ascending sequences of the same elements are the same sequence, where
/// no two different values may stand either way round.
pub proof fn lemma_ascending_unique<T: Ranked>(a: Seq<T>, b: Seq<T>)
    requires
        ascending(a),
        ascending(b),
        a.to_multiset() =~= b.to_multiset(),
        forall|x: T, y: T| #[trigger] x.rank_le(&y) && y.rank_le(&x) ==> x == y,
    ensures
        a =~= b,
    decreases a.len(),
{
    a.to_multiset_ensures();
    b.to_multiset_ensures();
    assert(a.len() == b.len());
    if a.len() > 0 {
        let x = a.last();
        let y = b.last();
        assert(a.to_multiset().count(x) > 0);
        assert(b.contains(x));
        assert(b.to_multiset().count(y) > 0);
        assert(a.contains(y));
        let i = choose|i: int| 0 <= i < b.len() && b[i] == x;
        let j = choose|j: int| 0 <= j < a.len() && a[j] == y;
        T::rank_total(&x, &x);
        T::rank_total(&y, &y);
        assert(x.rank_le(&y));
        assert(y.rank_le(&x));
        lemma_pop_multiset(a);
        lemma_pop_multiset(b);
        assert(a.drop_last().to_multiset() =~= a.to_multiset().remove(x));
        assert(b.drop_last().to_multiset() =~= b.to_multiset().remove(x));
        lemma_ascending_unique(a.drop_last(), b.drop_last());
        assert(a =~= a.drop_last().push(x));
        assert(b =~= b.drop_last().push(x));
    }
}

impl Ranked for u64 {
    open spec fn rank_le(&self, other: &Self) -> bool {
        *self <= *other
    }

    proof fn rank_total(a: &Self, b: &Self) {
    }

    proof fn rank_transitive(a: &Self, b: &Self, c: &Self) {
    }

    fn ranks_before(&self, other: &Self) -> (r: bool) {
        *self <= *other
    }
}

impl Ranked for (u64, u64) {
    open spec fn rank_le(&self, other: &Self) -> bool {
        self.0 < other.0 || (self.0 == other.0 && self.1 <= other.1)
    }

    proof fn rank_total(a: &Self, b: &Self) {
    }

    proof fn rank_transitive(a: &Self, b: &Self, c: &Self) {
    }

    fn ranks_before(&self, other: &Self) -> (r: bool) {
        self.0 < other.0 || (self.0 == other.0 && self.1 <= other.1)
    }
}

} // verus!
