//! Sets of surface numbers.

use crate::relation::SurfaceAttributionId;
use std::collections::HashSet;
use vstd::prelude::*;

verus! {

/// The numbers of surfaces.
pub open spec fn numbers(v: Seq<SurfaceAttributionId>) -> Seq<u32> {
    v.map_values(|s: SurfaceAttributionId| s.0)
}

/// `x` is the least of some numbers.
pub open spec fn is_least(v: Seq<u32>, x: u32) -> bool {
    v.contains(x) && forall|y: u32| #[trigger] v.contains(y) ==> x <= y
}

/// The least of some numbers.
pub open spec fn least(v: Seq<u32>) -> u32 {
    choose|x: u32| is_least(v, x)
}

/// Two lists hold the same numbers.
pub open spec fn same_members(a: Seq<u32>, b: Seq<u32>) -> bool {
    forall|x: u32| a.contains(x) <==> #[trigger] b.contains(x)
}

/// Numbers, each listed once.
pub struct Numbers {
    pub list: Vec<u32>,
    pub seen: HashSet<u32>,
}

impl Numbers {
    pub open spec fn wf(&self) -> bool {
        forall|x: u32| self.list@.contains(x) <==> #[trigger] self.seen@.contains(x)
    }

    pub fn new() -> (r: Self)
        ensures
            r.wf(),
            r.list@ =~= Seq::empty(),
    {
        broadcast use vstd::std_specs::hash::group_hash_axioms;

        Numbers { list: Vec::new(), seen: HashSet::new() }
    }

    pub fn contains(&self, x: u32) -> (r: bool)
        requires
            self.wf(),
        ensures
            r == self.list@.contains(x),
    {
        broadcast use vstd::std_specs::hash::group_hash_axioms;

        self.seen.contains(&x)
    }

    pub fn insert(&mut self, x: u32)
        requires
            old(self).wf(),
        ensures
            final(self).wf(),
            same_members(old(self).list@.push(x), final(self).list@),
    {
        broadcast use vstd::std_specs::hash::group_hash_axioms;

        let ghost before = self.list@;
        proof {
            assert forall|y: u32| #[trigger] before.push(x).contains(y) <==> before.contains(y) || y
                == x by {
                crate::surfaces::lemma_push_contains(before, x, y);
            }
        }
        if !self.seen.contains(&x) {
            self.seen.insert(x);
            self.list.push(x);
        }
        assert(same_members(before.push(x), self.list@)) by {
            assert forall|y: u32| before.push(x).contains(y) <==> #[trigger] self.list@.contains(
                y,
            ) by {
                assert(before.push(x).contains(y) <==> before.contains(y) || y == x);
            }
        }
    }

    /// Adds the numbers of surfaces.
    pub fn insert_all(&mut self, ids: &Vec<SurfaceAttributionId>)
        requires
            old(self).wf(),
        ensures
            final(self).wf(),
            same_members(old(self).list@ + numbers(ids@), final(self).list@),
    {
        let ghost before = self.list@;
        let ghost whole = numbers(ids@);
        let mut i: usize = 0;
        assert(before + whole.take(0) =~= before);
        while i < ids.len()
            invariant
                self.wf(),
                whole == numbers(ids@),
                i <= ids@.len(),
                same_members(before + whole.take(i as int), self.list@),
            decreases ids.len() - i,
        {
            let ghost held = self.list@;
            let x: u32 = ids[i].0;
            self.insert(x);
            proof {
                let a = before + whole.take(i as int);
                let b = before + whole.take(i + 1);
                assert(whole[i as int] == x);
                assert(b =~= a.push(x));
                assert forall|y: u32| b.contains(y) <==> #[trigger] self.list@.contains(y) by {
                    crate::surfaces::lemma_push_contains(a, x, y);
                    crate::surfaces::lemma_push_contains(held, x, y);
                    assert(held.push(x).contains(y) <==> self.list@.contains(y));
                    assert(a.contains(y) <==> held.contains(y));
                }
            }
            i = i + 1;
        }
        assert(whole.take(whole.len() as int) =~= whole);
    }

    /// The least number.
    pub fn least(&self) -> (r: u32)
        requires
            self.list@.len() > 0,
        ensures
            is_least(self.list@, r),
    {
        let mut r: u32 = self.list[0];
        let mut i: usize = 1;
        assert(self.list@.contains(self.list@[0]));
        while i < self.list.len()
            invariant
                1 <= i <= self.list@.len(),
                self.list@.contains(r),
                forall|k: int| 0 <= k < i ==> r <= #[trigger] self.list@[k],
            decreases self.list.len() - i,
        {
            if self.list[i] < r {
                r = self.list[i];
                assert(self.list@.contains(self.list@[i as int]));
            }
            i = i + 1;
        }
        r
    }
}

/// A list has one least number, whatever the order it is listed in.
pub proof fn lemma_least(a: Seq<u32>, b: Seq<u32>, x: u32)
    requires
        is_least(b, x),
        same_members(a, b),
    ensures
        least(a) == x,
{
    assert(is_least(a, x)) by {
        assert(a.contains(x) <==> b.contains(x));
        assert forall|y: u32| #[trigger] a.contains(y) implies x <= y by {
            assert(b.contains(y));
        }
    }
    let l = least(a);
    assert(is_least(a, l));
    assert(b.contains(l));
}

} // verus!
