//! Combining outlines of the plane.

use crate::contours::{
    copy_ring, group_contours, grouped, regions, rings, Region, RegionView,
};
use crate::node::Point2;
use crate::num::{equals, same, Arithmetic, Calc, Reading};
use vstd::prelude::*;

verus! {

// ---- the host that clips --------------------------------------------------------------------------

/// A boolean operation on two sets of regions. Unions are taken of any number
/// at once and have an operation of their own.
#[derive(Clone, Copy, Debug, PartialEq, Eq, Structural)]
pub enum Bop {
    Difference,
    Intersection,
}

/// A question to the host.
pub ghost enum PlaneAsk {
    Union(Seq<RegionView>, Seq<RegionView>),
    Boolean(Seq<RegionView>, Seq<RegionView>, Bop),
    /// The outlines in a drawing of the given format.
    Import(Seq<u8>, Seq<char>),
}

/// One reading of all answers. An import is answered with regions without
/// holes.
pub type PlaneReading = spec_fn(PlaneAsk) -> Seq<RegionView>;

/// A host that clips regions and reads drawings. Nothing is promised of it.
pub trait Clip {
    fn union(&mut self, a: &Vec<Region>, b: &Vec<Region>) -> Vec<Region>;

    fn boolean(&mut self, a: &Vec<Region>, b: &Vec<Region>, op: Bop) -> Vec<Region>;

    fn import(&mut self, data: &Vec<u8>, format: &str) -> Vec<Region>;
}

/// What the host has answered so far.
pub struct PlaneLog {
    entries: Ghost<Seq<(PlaneAsk, Seq<RegionView>)>>,
}

impl PlaneLog {
    /// Whether every answer so far is the one that `p` gives.
    pub closed spec fn agrees(&self, p: PlaneReading) -> bool {
        forall|i: int| 0 <= i < self.entries@.len() ==> (#[trigger] self.entries@[i]).1 == p(
            self.entries@[i].0,
        )
    }

    pub fn new() -> (r: Self)
        ensures
            forall|p: PlaneReading| #[trigger] r.agrees(p),
    {
        PlaneLog { entries: Ghost(Seq::empty()) }
    }

    fn note(&mut self, Ghost(q): Ghost<PlaneAsk>, Ghost(r): Ghost<Seq<RegionView>>)
        ensures
            forall|p: PlaneReading| #[trigger]
                final(self).agrees(p) ==> old(self).agrees(p) && p(q) == r,
    {
        let ghost before = self.entries@;
        self.entries = Ghost(self.entries@.push((q, r)));
        proof {
            assert forall|p: PlaneReading| #[trigger] self.agrees(p) implies old(self).agrees(p)
                && p(q) == r by {
                assert(self.entries@[before.len() as int] == (q, r));
                assert forall|i: int| 0 <= i < before.len() implies (#[trigger] before[i]).1 == p(
                    before[i].0,
                ) by {
                    assert(self.entries@[i] == before[i]);
                }
            }
        }
    }

    /// Asks the host for a union.
    pub fn union<C: Clip>(&mut self, host: &mut C, a: &Vec<Region>, b: &Vec<Region>) -> (r: Vec<Region>)
        ensures
            forall|p: PlaneReading| #[trigger]
                final(self).agrees(p) ==> old(self).agrees(p) && regions(r@) == p(
                    PlaneAsk::Union(regions(a@), regions(b@)),
                ),
    {
        let r = host.union(a, b);
        let ghost q = PlaneAsk::Union(regions(a@), regions(b@));
        self.note(Ghost(q), Ghost(regions(r@)));
        r
    }

    /// Asks the host for a boolean operation.
    pub fn boolean<C: Clip>(&mut self, host: &mut C, a: &Vec<Region>, b: &Vec<Region>, op: Bop) -> (r: Vec<
        Region,
    >)
        ensures
            forall|p: PlaneReading| #[trigger]
                final(self).agrees(p) ==> old(self).agrees(p) && regions(r@) == p(
                    PlaneAsk::Boolean(regions(a@), regions(b@), op),
                ),
    {
        let r = host.boolean(a, b, op);
        let ghost q = PlaneAsk::Boolean(regions(a@), regions(b@), op);
        self.note(Ghost(q), Ghost(regions(r@)));
        r
    }

    /// Asks the host for a drawing.
    pub fn import<C: Clip>(&mut self, host: &mut C, data: &Vec<u8>, format: &str) -> (r: Vec<Region>)
        ensures
            forall|p: PlaneReading| #[trigger]
                final(self).agrees(p) ==> old(self).agrees(p) && regions(r@) == p(
                    PlaneAsk::Import(data@, format@),
                ),
    {
        let r = host.import(data, format);
        let ghost q = PlaneAsk::Import(data@, format@);
        self.note(Ghost(q), Ghost(regions(r@)));
        r
    }
}

// ---- back to outlines ------------------------------------------------------------------------------

/// Two points are equal as numbers.
pub open spec fn same_point(a: Point2, b: Point2) -> bool {
    same(a.x, b.x) && same(a.y, b.y)
}

/// An outline without a last point that repeats the first.
pub open spec fn opened(c: Seq<Point2>) -> Seq<Point2> {
    if c.len() > 1 && same_point(c[0], c.last()) {
        c.drop_last()
    } else {
        c
    }
}

/// The outlines with one more, where that has three points.
pub open spec fn with_ring(done: Seq<Seq<Point2>>, c: Seq<Point2>) -> Seq<Seq<Point2>> {
    if opened(c).len() >= 3 {
        done.push(opened(c))
    } else {
        done
    }
}

/// The outlines with the first `n` others.
pub open spec fn with_rings(done: Seq<Seq<Point2>>, v: Seq<Seq<Point2>>, n: int) -> Seq<Seq<Point2>>
    decreases n,
{
    if n <= 0 {
        done
    } else {
        with_ring(with_rings(done, v, n - 1), v[n - 1])
    }
}

/// The outlines of the first `n` regions: of each its outline, and its holes
/// after it.
pub open spec fn outlines_below(v: Seq<RegionView>, n: int) -> Seq<Seq<Point2>>
    decreases n,
{
    if n <= 0 {
        Seq::empty()
    } else {
        with_rings(
            with_ring(outlines_below(v, n - 1), v[n - 1].outer),
            v[n - 1].holes,
            v[n - 1].holes.len() as int,
        )
    }
}

/// The outlines of regions.
pub open spec fn outlines(v: Seq<RegionView>) -> Seq<Seq<Point2>> {
    outlines_below(v, v.len() as int)
}

fn push_ring(out: &mut Vec<Vec<Point2>>, c: &Vec<Point2>)
    ensures
        rings(final(out)@) == with_ring(rings(old(out)@), c@),
{
    let mut one = copy_ring(c);
    let n: usize = one.len();
    if n > 1 && equals(one[0].x, one[n - 1].x) && equals(one[0].y, one[n - 1].y) {
        one.pop();
        assert(one@ =~= c@.drop_last());
    }
    assert(one@ == opened(c@));
    if one.len() >= 3 {
        let ghost held = rings(out@);
        let ghost ov = one@;
        out.push(one);
        assert(rings(out@) =~= held.push(ov));
    }
}

/// The outlines of regions.
pub fn from_regions(v: &Vec<Region>) -> (r: Vec<Vec<Point2>>)
    ensures
        rings(r@) == outlines(regions(v@)),
{
    let mut out: Vec<Vec<Point2>> = Vec::new();
    let mut i: usize = 0;
    assert(rings(out@) =~= Seq::empty());
    while i < v.len()
        invariant
            i <= v@.len(),
            rings(out@) == outlines_below(regions(v@), i as int),
        decreases v.len() - i,
    {
        let one = &v[i];
        assert(regions(v@)[i as int] == one@);
        push_ring(&mut out, &one.outer);
        let ghost held = rings(out@);
        let mut k: usize = 0;
        while k < one.holes.len()
            invariant
                k <= one.holes@.len(),
                rings(out@) == with_rings(held, rings(one.holes@), k as int),
            decreases one.holes.len() - k,
        {
            assert(rings(one.holes@)[k as int] == one.holes@[k as int]@);
            push_ring(&mut out, &one.holes[k]);
            k = k + 1;
        }
        i = i + 1;
    }
    out
}

// ---- unions of many --------------------------------------------------------------------------------

/// What sets of regions hold.
pub open spec fn sets_view(v: Seq<Vec<Region>>) -> Seq<Seq<RegionView>> {
    v.map_values(|s: Vec<Region>| regions(s@))
}

/// Neighbours joined two by two.
pub open spec fn joined_pairs(p: PlaneReading, v: Seq<Seq<RegionView>>) -> Seq<Seq<RegionView>> {
    Seq::new(
        (v.len() + 1) / 2,
        |k: int|
            if 2 * k + 1 < v.len() {
                p(PlaneAsk::Union(v[2 * k], v[2 * k + 1]))
            } else {
                v[2 * k]
            },
    )
}

/// All joined into one, neighbours first.
pub open spec fn joined_all(p: PlaneReading, v: Seq<Seq<RegionView>>) -> Seq<RegionView>
    decreases v.len(),
{
    if v.len() == 0 {
        Seq::empty()
    } else if v.len() == 1 {
        v[0]
    } else {
        joined_all(p, joined_pairs(p, v))
    }
}

fn join_pairs<C: Clip>(log: &mut PlaneLog, host: &mut C, v: Vec<Vec<Region>>) -> (r: Vec<Vec<Region>>)
    requires
        v@.len() >= 2,
    ensures
        r@.len() == (v@.len() + 1) / 2,
        forall|p: PlaneReading| #[trigger]
            final(log).agrees(p) ==> old(log).agrees(p) && sets_view(r@) == joined_pairs(
                p,
                sets_view(v@),
            ),
{
    let n: usize = v.len();
    let ghost vv = sets_view(v@);
    let mut out: Vec<Vec<Region>> = Vec::new();
    let mut k: usize = 0;
    while k < n - n / 2
        invariant
            n == v@.len(),
            n >= 2,
            vv == sets_view(v@),
            k <= n - n / 2,
            out@.len() == k,
            forall|p: PlaneReading| #[trigger]
                log.agrees(p) ==> old(log).agrees(p) && forall|i: int|
                    0 <= i < k ==> (#[trigger] sets_view(out@)[i]) == joined_pairs(p, vv)[i],
        decreases n - k,
    {
        let ghost l0 = *log;
        let ghost held = sets_view(out@);
        let one = if k < n / 2 {
            assert(vv[2 * k] == regions(v@[2 * k]@));
            assert(vv[2 * k + 1] == regions(v@[2 * k + 1]@));
            log.union(host, &v[2 * k], &v[2 * k + 1])
        } else {
            assert(vv[2 * k] == regions(v@[2 * k]@));
            copy_regions(&v[2 * k])
        };
        let ghost ov = regions(one@);
        out.push(one);
        proof {
            assert(sets_view(out@) =~= held.push(ov));
            assert forall|p: PlaneReading| #[trigger] log.agrees(p) implies forall|i: int|
                0 <= i < k + 1 ==> (#[trigger] sets_view(out@)[i]) == joined_pairs(p, vv)[i] by {
                assert(l0.agrees(p));
                assert forall|i: int| 0 <= i < k + 1 implies (#[trigger] sets_view(out@)[i])
                    == joined_pairs(p, vv)[i] by {
                    if i < k {
                        assert(sets_view(out@)[i] == held[i]);
                    }
                }
            }
        }
        k = k + 1;
    }
    proof {
        assert forall|p: PlaneReading| #[trigger] log.agrees(p) implies sets_view(out@)
            == joined_pairs(p, vv) by {
            assert(sets_view(out@) =~= joined_pairs(p, vv));
        }
    }
    out
}

fn copy_regions(v: &Vec<Region>) -> (r: Vec<Region>)
    ensures
        regions(r@) == regions(v@),
{
    let mut out: Vec<Region> = Vec::new();
    let mut i: usize = 0;
    while i < v.len()
        invariant
            i <= v@.len(),
            regions(out@) =~= regions(v@).take(i as int),
        decreases v.len() - i,
    {
        let ghost held = regions(out@);
        let one = copy_region(&v[i]);
        let ghost ov = one@;
        out.push(one);
        assert(regions(out@) =~= held.push(ov));
        i = i + 1;
    }
    assert(regions(out@) =~= regions(v@));
    out
}

fn copy_region(v: &Region) -> (r: Region)
    ensures
        r@ == v@,
{
    let mut holes: Vec<Vec<Point2>> = Vec::new();
    let mut i: usize = 0;
    while i < v.holes.len()
        invariant
            i <= v.holes@.len(),
            rings(holes@) =~= rings(v.holes@).take(i as int),
        decreases v.holes.len() - i,
    {
        let ghost held = rings(holes@);
        let one = copy_ring(&v.holes[i]);
        let ghost ov = one@;
        holes.push(one);
        assert(rings(holes@) =~= held.push(ov));
        i = i + 1;
    }
    let r = Region { outer: copy_ring(&v.outer), holes };
    assert(r@.holes =~= v@.holes);
    r
}

/// Joins sets of regions, neighbours first.
pub fn union_multi<C: Clip>(log: &mut PlaneLog, host: &mut C, v: Vec<Vec<Region>>) -> (r: Vec<Region>)
    ensures
        forall|p: PlaneReading| #[trigger]
            final(log).agrees(p) ==> old(log).agrees(p) && regions(r@) == joined_all(
                p,
                sets_view(v@),
            ),
{
    let ghost start = sets_view(v@);
    let mut items = v;
    while items.len() > 1
        invariant
            items@.len() > 0 || start.len() == 0,
            items@.len() == 0 ==> start.len() == 0,
            forall|p: PlaneReading| #[trigger]
                log.agrees(p) ==> old(log).agrees(p) && joined_all(p, start) == joined_all(
                    p,
                    sets_view(items@),
                ),
        decreases items.len(),
    {
        items = join_pairs(log, host, items);
    }
    match items.pop() {
        Some(one) => one,
        None => {
            let none: Vec<Region> = Vec::new();
            assert(regions(none@) =~= Seq::empty());
            none
        },
    }
}

/// What sets of outlines hold.
pub open spec fn ring_sets(v: Seq<Vec<Vec<Point2>>>) -> Seq<Seq<Seq<Point2>>> {
    v.map_values(|s: Vec<Vec<Point2>>| rings(s@))
}

/// The regions of the first `n` sets that are not empty.
pub open spec fn grouped_sets(m: Reading, v: Seq<Seq<Seq<Point2>>>, n: int) -> Seq<Seq<RegionView>>
    decreases n,
{
    if n <= 0 {
        Seq::empty()
    } else if v[n - 1].len() > 0 {
        grouped_sets(m, v, n - 1).push(grouped(m, v[n - 1]))
    } else {
        grouped_sets(m, v, n - 1)
    }
}

/// Sets of outlines joined.
pub open spec fn unioned(m: Reading, p: PlaneReading, v: Seq<Seq<Seq<Point2>>>) -> Seq<Seq<Point2>> {
    outlines(joined_all(p, grouped_sets(m, v, v.len() as int)))
}

/// Joins sets of outlines.
pub fn union_all<A: Arithmetic, C: Clip>(
    calc: &mut Calc<A>,
    log: &mut PlaneLog,
    host: &mut C,
    v: &Vec<Vec<Vec<Point2>>>,
) -> (r: Vec<Vec<Point2>>)
    ensures
        forall|m: Reading, p: PlaneReading|
            #![trigger final(calc).agrees(m), final(log).agrees(p)]
            final(calc).agrees(m) && final(log).agrees(p) ==> old(calc).agrees(m) && old(
                log,
            ).agrees(p) && rings(r@) == unioned(m, p, ring_sets(v@)),
{
    let ghost vv = ring_sets(v@);
    let mut sets: Vec<Vec<Region>> = Vec::new();
    let mut i: usize = 0;
    assert(sets_view(sets@) =~= Seq::empty());
    while i < v.len()
        invariant
            i <= v@.len(),
            vv == ring_sets(v@),
            forall|m: Reading| #[trigger]
                calc.agrees(m) ==> old(calc).agrees(m) && sets_view(sets@) == grouped_sets(
                    m,
                    vv,
                    i as int,
                ),
        decreases v.len() - i,
    {
        assert(vv[i as int] == rings(v@[i as int]@));
        assert(vv[i as int].len() == v@[i as int]@.len());
        if v[i].len() > 0 {
            let ghost held = sets_view(sets@);
            let one = group_contours(calc, &v[i]);
            let ghost ov = regions(one@);
            sets.push(one);
            assert(sets_view(sets@) =~= held.push(ov));
        }
        i = i + 1;
    }
    let joined = union_multi(log, host, sets);
    from_regions(&joined)
}

/// Two sets of outlines combined.
pub open spec fn combined(
    m: Reading,
    p: PlaneReading,
    a: Seq<Seq<Point2>>,
    b: Seq<Seq<Point2>>,
    op: Bop,
) -> Seq<Seq<Point2>> {
    outlines(p(PlaneAsk::Boolean(grouped(m, a), grouped(m, b), op)))
}

/// Combines two sets of outlines.
pub fn boolean_2d<A: Arithmetic, C: Clip>(
    calc: &mut Calc<A>,
    log: &mut PlaneLog,
    host: &mut C,
    a: &Vec<Vec<Point2>>,
    b: &Vec<Vec<Point2>>,
    op: Bop,
) -> (r: Vec<Vec<Point2>>)
    ensures
        forall|m: Reading, p: PlaneReading|
            #![trigger final(calc).agrees(m), final(log).agrees(p)]
            final(calc).agrees(m) && final(log).agrees(p) ==> old(calc).agrees(m) && old(
                log,
            ).agrees(p) && rings(r@) == combined(m, p, rings(a@), rings(b@), op),
{
    let ga = group_contours(calc, a);
    let gb = group_contours(calc, b);
    let r = log.boolean(host, &ga, &gb, op);
    from_regions(&r)
}

} // verus!
