//! Closed outlines of the plane: which lies inside which, and what is filled.

use crate::node::Point2;
use crate::num::{is_less, less, Arithmetic, Calc, NumOp, Reading, TWO, ZERO};
use crate::planar::{area_of, signed_area2};
use vstd::prelude::*;

verus! {

/// What outlines hold.
pub open spec fn rings(v: Seq<Vec<Point2>>) -> Seq<Seq<Point2>> {
    v.map_values(|c: Vec<Point2>| c@)
}

/// A copy of an outline.
pub fn copy_ring(c: &Vec<Point2>) -> (r: Vec<Point2>)
    ensures
        r@ == c@,
{
    let mut out: Vec<Point2> = Vec::new();
    for i in 0..c.len()
        invariant
            out@ =~= c@.take(i as int),
    {
        out.push(c[i]);
    }
    assert(out@ =~= c@);
    out
}

/// An outline the other way round.
pub fn reverse_ring(c: &Vec<Point2>) -> (r: Vec<Point2>)
    ensures
        r@ == c@.reverse(),
{
    let mut out: Vec<Point2> = Vec::new();
    let mut i: usize = c.len();
    while i > 0
        invariant
            i <= c@.len(),
            out@ =~= c@.reverse().take(c@.len() - i),
        decreases i,
    {
        i = i - 1;
        out.push(c[i]);
    }
    assert(out@ =~= c@.reverse());
    out
}

// ---- area and direction ----------------------------------------------------------------------

/// The area of an outline, positive where it runs counter-clockwise.
pub open spec fn area(m: Reading, c: Seq<Point2>) -> u64 {
    m.at(NumOp::Div, area_of(m, c, c.len() as int), TWO)
}

/// The area of an outline, positive where it runs counter-clockwise.
pub fn signed_area<A: Arithmetic>(calc: &mut Calc<A>, c: &Vec<Point2>) -> (r: u64)
    ensures
        forall|m: Reading| #[trigger]
            final(calc).agrees(m) ==> old(calc).agrees(m) && r == area(m, c@),
{
    let a: u64 = signed_area2(calc, c);
    calc.apply(NumOp::Div, a, TWO)
}

/// The outline in the wanted direction.
pub open spec fn directed(m: Reading, c: Seq<Point2>, ccw: bool) -> Seq<Point2> {
    if less(ZERO, area(m, c)) == ccw {
        c
    } else {
        c.reverse()
    }
}

/// The outline in the wanted direction.
pub fn orient_ring<A: Arithmetic>(calc: &mut Calc<A>, c: &Vec<Point2>, ccw: bool) -> (r: Vec<Point2>)
    ensures
        r@.len() == c@.len(),
        forall|m: Reading| #[trigger]
            final(calc).agrees(m) ==> old(calc).agrees(m) && r@ == directed(m, c@, ccw),
{
    let a: u64 = signed_area(calc, c);
    if is_less(ZERO, a) == ccw {
        copy_ring(c)
    } else {
        reverse_ring(c)
    }
}

// ---- inside and outside ------------------------------------------------------------------------

/// The edge that ends at `i` crosses the ray from a point to the right.
pub open spec fn edge_crosses(m: Reading, c: Seq<Point2>, p: Point2, i: int) -> bool {
    let a = c[i];
    let b = c[if i == 0 {
        c.len() - 1
    } else {
        i - 1
    }];
    (less(p.y, a.y) != less(p.y, b.y)) && less(
        p.x,
        m.at(
            NumOp::Add,
            m.at(
                NumOp::Div,
                m.at(NumOp::Mul, m.at(NumOp::Sub, b.x, a.x), m.at(NumOp::Sub, p.y, a.y)),
                m.at(NumOp::Sub, b.y, a.y),
            ),
            a.x,
        ),
    )
}

/// An odd number of the first `n` edges cross the ray.
pub open spec fn crossed(m: Reading, c: Seq<Point2>, p: Point2, n: int) -> bool
    decreases n,
{
    if n <= 0 {
        false
    } else {
        crossed(m, c, p, n - 1) != edge_crosses(m, c, p, n - 1)
    }
}

/// The point lies inside the outline.
pub open spec fn inside(m: Reading, c: Seq<Point2>, p: Point2) -> bool {
    crossed(m, c, p, c.len() as int)
}

fn test_edge<A: Arithmetic>(calc: &mut Calc<A>, c: &Vec<Point2>, p: Point2, i: usize) -> (r: bool)
    requires
        i < c@.len(),
    ensures
        forall|m: Reading| #[trigger]
            final(calc).agrees(m) ==> old(calc).agrees(m) && r == edge_crosses(m, c@, p, i as int),
{
    let a = c[i];
    let b = c[if i == 0 {
        c.len() - 1
    } else {
        i - 1
    }];
    if is_less(p.y, a.y) == is_less(p.y, b.y) {
        return false;
    }
    let dx: u64 = calc.apply(NumOp::Sub, b.x, a.x);
    let dy: u64 = calc.apply(NumOp::Sub, p.y, a.y);
    let s: u64 = calc.apply(NumOp::Mul, dx, dy);
    let h: u64 = calc.apply(NumOp::Sub, b.y, a.y);
    let t: u64 = calc.apply(NumOp::Div, s, h);
    let x: u64 = calc.apply(NumOp::Add, t, a.x);
    is_less(p.x, x)
}

/// Whether a point lies inside an outline.
pub fn point_in_polygon<A: Arithmetic>(calc: &mut Calc<A>, c: &Vec<Point2>, p: Point2) -> (r: bool)
    ensures
        forall|m: Reading| #[trigger]
            final(calc).agrees(m) ==> old(calc).agrees(m) && r == inside(m, c@, p),
{
    let mut odd: bool = false;
    let mut i: usize = 0;
    while i < c.len()
        invariant
            i <= c@.len(),
            forall|m: Reading| #[trigger]
                calc.agrees(m) ==> old(calc).agrees(m) && odd == crossed(m, c@, p, i as int),
        decreases c.len() - i,
    {
        let hit: bool = test_edge(calc, c, p, i);
        odd = odd != hit;
        i = i + 1;
    }
    odd
}

// ---- nesting -------------------------------------------------------------------------------------

/// The outlines among the first `n` that have at least three points.
pub open spec fn proper(v: Seq<Seq<Point2>>, n: int) -> Seq<Seq<Point2>>
    decreases n,
{
    if n <= 0 {
        Seq::empty()
    } else if v[n - 1].len() >= 3 {
        proper(v, n - 1).push(v[n - 1])
    } else {
        proper(v, n - 1)
    }
}

/// All outlines have at least three points.
pub open spec fn all_proper(v: Seq<Seq<Point2>>) -> bool {
    forall|i: int| 0 <= i < v.len() ==> (#[trigger] v[i]).len() >= 3
}

/// How many of the first `n` outlines hold the first point of the `i`-th.
pub open spec fn depth_below(m: Reading, v: Seq<Seq<Point2>>, i: int, n: int) -> nat
    decreases n,
{
    if n <= 0 {
        0
    } else if n - 1 != i && inside(m, v[n - 1], v[i][0]) {
        depth_below(m, v, i, n - 1) + 1
    } else {
        depth_below(m, v, i, n - 1)
    }
}

/// How deep an outline is nested.
pub open spec fn depth(m: Reading, v: Seq<Seq<Point2>>, i: int) -> nat {
    depth_below(m, v, i, v.len() as int)
}

/// The outline bounds what is filled, not a hole.
pub open spec fn is_outer(m: Reading, v: Seq<Seq<Point2>>, i: int) -> bool {
    depth(m, v, i) % 2 == 0
}

/// Keeps the outlines that have at least three points.
pub fn keep_proper(v: &Vec<Vec<Point2>>) -> (r: Vec<Vec<Point2>>)
    ensures
        rings(r@) == proper(rings(v@), v@.len() as int),
        all_proper(rings(r@)),
{
    let mut out: Vec<Vec<Point2>> = Vec::new();
    let mut i: usize = 0;
    assert(rings(out@) =~= Seq::empty());
    while i < v.len()
        invariant
            i <= v@.len(),
            rings(out@) == proper(rings(v@), i as int),
            all_proper(rings(out@)),
        decreases v.len() - i,
    {
        assert(rings(v@)[i as int] == v@[i as int]@);
        if v[i].len() >= 3 {
            let ghost held = rings(out@);
            let c = copy_ring(&v[i]);
            let ghost cv = c@;
            out.push(c);
            assert(rings(out@) =~= held.push(cv));
            assert(all_proper(held.push(cv)));
        }
        i = i + 1;
    }
    out
}

/// How deep each outline is nested.
pub fn depths<A: Arithmetic>(calc: &mut Calc<A>, v: &Vec<Vec<Point2>>) -> (r: Vec<usize>)
    requires
        all_proper(rings(v@)),
    ensures
        r@.len() == v@.len(),
        forall|i: int| 0 <= i < r@.len() ==> #[trigger] r@[i] <= v@.len(),
        forall|m: Reading| #[trigger]
            final(calc).agrees(m) ==> old(calc).agrees(m) && forall|i: int|
                0 <= i < r@.len() ==> #[trigger] r@[i] == depth(m, rings(v@), i),
{
    let n: usize = v.len();
    let ghost rv = rings(v@);
    let mut out: Vec<usize> = Vec::new();
    let mut i: usize = 0;
    while i < n
        invariant
            n == v@.len(),
            i <= n,
            rv == rings(v@),
            all_proper(rv),
            out@.len() == i,
            forall|k: int| 0 <= k < out@.len() ==> #[trigger] out@[k] <= n,
            forall|m: Reading| #[trigger]
                calc.agrees(m) ==> old(calc).agrees(m) && forall|k: int|
                    0 <= k < i ==> #[trigger] out@[k] == depth(m, rv, k),
        decreases n - i,
    {
        assert(rv[i as int] == v@[i as int]@);
        assert(rv[i as int].len() >= 3);
        let p = v[i][0];
        let ghost c0 = *calc;
        let mut d: usize = 0;
        let mut j: usize = 0;
        while j < n
            invariant
                n == v@.len(),
                i < n,
                j <= n,
                d <= j,
                rv == rings(v@),
                p == rv[i as int][0],
                forall|m: Reading| #[trigger]
                    calc.agrees(m) ==> c0.agrees(m) && d == depth_below(
                        m,
                        rv,
                        i as int,
                        j as int,
                    ),
            decreases n - j,
        {
            assert(rv[j as int] == v@[j as int]@);
            if j != i {
                if point_in_polygon(calc, &v[j], p) {
                    d = d + 1;
                }
            }
            j = j + 1;
        }
        out.push(d);
        i = i + 1;
    }
    out
}

/// An outline and the holes in it.
#[derive(Debug)]
pub struct Region {
    pub outer: Vec<Point2>,
    pub holes: Vec<Vec<Point2>>,
}

/// What a region holds.
pub ghost struct RegionView {
    pub outer: Seq<Point2>,
    pub holes: Seq<Seq<Point2>>,
}

impl View for Region {
    type V = RegionView;

    open spec fn view(&self) -> RegionView {
        RegionView { outer: self.outer@, holes: rings(self.holes@) }
    }
}

/// What regions hold.
pub open spec fn regions(v: Seq<Region>) -> Seq<RegionView> {
    v.map_values(|r: Region| r@)
}

/// The outline `p` is one level above `h` and holds it.
pub open spec fn encloses(m: Reading, v: Seq<Seq<Point2>>, p: int, h: int) -> bool {
    depth(m, v, p) + 1 == depth(m, v, h) && inside(m, v[p], v[h][0])
}

/// The first of the first `n` outlines that holds `h` one level above.
pub open spec fn parent_among(m: Reading, v: Seq<Seq<Point2>>, h: int, n: int) -> Option<int>
    decreases n,
{
    if n <= 0 {
        None
    } else {
        match parent_among(m, v, h, n - 1) {
            Some(p) => Some(p),
            None => if encloses(m, v, n - 1, h) {
                Some(n - 1)
            } else {
                None
            },
        }
    }
}

/// The holes among the first `n` outlines whose parent is `i`.
pub open spec fn holes_below(m: Reading, v: Seq<Seq<Point2>>, i: int, n: int) -> Seq<Seq<Point2>>
    decreases n,
{
    if n <= 0 {
        Seq::empty()
    } else {
        let done = holes_below(m, v, i, n - 1);
        if !is_outer(m, v, n - 1) && parent_among(m, v, n - 1, v.len() as int) == Some(i) {
            done.push(directed(m, v[n - 1], false))
        } else {
            done
        }
    }
}

/// The regions that the first `n` outlines bound.
pub open spec fn regions_below(m: Reading, v: Seq<Seq<Point2>>, n: int) -> Seq<RegionView>
    decreases n,
{
    if n <= 0 {
        Seq::empty()
    } else {
        let done = regions_below(m, v, n - 1);
        if is_outer(m, v, n - 1) {
            done.push(
                RegionView {
                    outer: directed(m, v[n - 1], true),
                    holes: holes_below(m, v, n - 1, v.len() as int),
                },
            )
        } else {
            done
        }
    }
}

/// The regions that outlines bound, by even and odd nesting: outlines
/// counter-clockwise, holes clockwise.
pub open spec fn grouped(m: Reading, contours: Seq<Seq<Point2>>) -> Seq<RegionView> {
    let v = proper(contours, contours.len() as int);
    regions_below(m, v, v.len() as int)
}

/// What is known of the nesting.
spec fn nesting_known(
    m: Reading,
    v: Seq<Seq<Point2>>,
    deep: Seq<usize>,
    parents: Seq<Option<usize>>,
    n: int,
) -> bool {
    &&& forall|i: int| 0 <= i < deep.len() ==> #[trigger] deep[i] == depth(m, v, i)
    &&& forall|i: int|
        0 <= i < n ==> parent_among(m, v, i, v.len() as int) == match #[trigger] parents[i] {
            Some(p) => Some(p as int),
            None => None,
        }
}

proof fn lemma_parent_stays(m: Reading, v: Seq<Seq<Point2>>, h: int, p: int, n: int)
    requires
        0 <= p < n,
        parent_among(m, v, h, p) is None,
        encloses(m, v, p, h),
    ensures
        parent_among(m, v, h, n) == Some(p),
    decreases n,
{
    if p < n - 1 {
        lemma_parent_stays(m, v, h, p, n - 1);
    }
}

fn find_parent<A: Arithmetic>(
    calc: &mut Calc<A>,
    v: &Vec<Vec<Point2>>,
    deep: &Vec<usize>,
    h: usize,
) -> (r: Option<usize>)
    requires
        all_proper(rings(v@)),
        deep@.len() == v@.len(),
        forall|i: int| 0 <= i < deep@.len() ==> #[trigger] deep@[i] <= v@.len(),
        h < v@.len(),
    ensures
        r matches Some(p) ==> p < v@.len(),
        forall|m: Reading| #[trigger]
            final(calc).agrees(m) ==> old(calc).agrees(m) && ((forall|i: int|
                0 <= i < deep@.len() ==> #[trigger] deep@[i] == depth(m, rings(v@), i))
                ==> parent_among(m, rings(v@), h as int, v@.len() as int) == match r {
                Some(p) => Some(p as int),
                None => None,
            }),
{
    let n: usize = v.len();
    let ghost rv = rings(v@);
    assert(rv[h as int] == v@[h as int]@);
    assert(rv[h as int].len() >= 3);
    let q = v[h][0];
    let mut p: usize = 0;
    while p < n
        invariant
            n == v@.len(),
            p <= n,
            h < n,
            rv == rings(v@),
            deep@.len() == n,
            forall|i: int| 0 <= i < deep@.len() ==> #[trigger] deep@[i] <= n,
            q == rv[h as int][0],
            forall|m: Reading| #[trigger]
                calc.agrees(m) ==> old(calc).agrees(m) && ((forall|i: int|
                    0 <= i < deep@.len() ==> #[trigger] deep@[i] == depth(m, rv, i))
                    ==> parent_among(m, rv, h as int, p as int) is None),
        decreases n - p,
    {
        assert(rv[p as int] == v@[p as int]@);
        let ghost c0 = *calc;
        if deep[h] > 0 && deep[p] == deep[h] - 1 {
            if point_in_polygon(calc, &v[p], q) {
                proof {
                    assert forall|m: Reading| #[trigger] calc.agrees(m) && (forall|i: int|
                        0 <= i < deep@.len() ==> #[trigger] deep@[i] == depth(m, rv, i)) implies
                        parent_among(m, rv, h as int, n as int) == Some(p as int) by {
                        assert(c0.agrees(m));
                        assert(deep@[p as int] == depth(m, rv, p as int));
                        assert(deep@[h as int] == depth(m, rv, h as int));
                        lemma_parent_stays(m, rv, h as int, p as int, n as int);
                    }
                }
                return Some(p);
            }
        }
        proof {
            assert forall|m: Reading| #[trigger] calc.agrees(m) && (forall|i: int|
                0 <= i < deep@.len() ==> #[trigger] deep@[i] == depth(m, rv, i)) implies
                parent_among(m, rv, h as int, p + 1) is None by {
                assert(c0.agrees(m));
                assert(deep@[p as int] == depth(m, rv, p as int));
                assert(deep@[h as int] == depth(m, rv, h as int));
            }
        }
        p = p + 1;
    }
    None
}

fn gather_holes<A: Arithmetic>(
    calc: &mut Calc<A>,
    v: &Vec<Vec<Point2>>,
    deep: &Vec<usize>,
    parents: &Vec<Option<usize>>,
    i: usize,
) -> (r: Vec<Vec<Point2>>)
    requires
        deep@.len() == v@.len(),
        parents@.len() == v@.len(),
    ensures
        forall|m: Reading| #[trigger]
            final(calc).agrees(m) ==> old(calc).agrees(m) && (nesting_known(
                m,
                rings(v@),
                deep@,
                parents@,
                v@.len() as int,
            ) ==> rings(r@) == holes_below(m, rings(v@), i as int, v@.len() as int)),
{
    let n: usize = v.len();
    let ghost rv = rings(v@);
    let mut out: Vec<Vec<Point2>> = Vec::new();
    let mut h: usize = 0;
    assert(rings(out@) =~= Seq::empty());
    while h < n
        invariant
            n == v@.len(),
            h <= n,
            rv == rings(v@),
            deep@.len() == n,
            parents@.len() == n,
            forall|m: Reading| #[trigger]
                calc.agrees(m) ==> old(calc).agrees(m) && (nesting_known(
                    m,
                    rv,
                    deep@,
                    parents@,
                    n as int,
                ) ==> rings(out@) == holes_below(m, rv, i as int, h as int)),
        decreases n - h,
    {
        assert(rv[h as int] == v@[h as int]@);
        let mine: bool = match parents[h] {
            Some(p) => p == i,
            None => false,
        };
        let ghost c0 = *calc;
        let ghost held = rings(out@);
        if deep[h] % 2 == 1 && mine {
            let c = orient_ring(calc, &v[h], false);
            let ghost cv = c@;
            out.push(c);
            assert(rings(out@) =~= held.push(cv));
        }
        proof {
            assert forall|m: Reading| #[trigger] calc.agrees(m) && nesting_known(
                m,
                rv,
                deep@,
                parents@,
                n as int,
            ) implies rings(out@) == holes_below(m, rv, i as int, h + 1) by {
                assert(c0.agrees(m));
                assert(deep@[h as int] == depth(m, rv, h as int));
                assert(parents@[h as int] == parents@[h as int]);
            }
        }
        h = h + 1;
    }
    out
}

/// The regions that outlines bound.
pub fn group_contours<A: Arithmetic>(calc: &mut Calc<A>, contours: &Vec<Vec<Point2>>) -> (r: Vec<Region>)
    ensures
        forall|m: Reading| #[trigger]
            final(calc).agrees(m) ==> old(calc).agrees(m) && regions(r@) == grouped(
                m,
                rings(contours@),
            ),
{
    let v = keep_proper(contours);
    let n: usize = v.len();
    let ghost rv = rings(v@);
    let deep = depths(calc, &v);
    let mut parents: Vec<Option<usize>> = Vec::new();
    let mut h: usize = 0;
    while h < n
        invariant
            n == v@.len(),
            h <= n,
            rv == rings(v@),
            all_proper(rv),
            deep@.len() == n,
            forall|i: int| 0 <= i < deep@.len() ==> #[trigger] deep@[i] <= n,
            parents@.len() == h,
            forall|m: Reading| #[trigger]
                calc.agrees(m) ==> old(calc).agrees(m) && nesting_known(
                    m,
                    rv,
                    deep@,
                    parents@,
                    h as int,
                ),
        decreases n - h,
    {
        let ghost c0 = *calc;
        let ghost held = parents@;
        let p = find_parent(calc, &v, &deep, h);
        parents.push(p);
        proof {
            assert forall|m: Reading| #[trigger] calc.agrees(m) implies nesting_known(
                m,
                rv,
                deep@,
                parents@,
                h + 1,
            ) by {
                assert(c0.agrees(m));
                assert(nesting_known(m, rv, deep@, held, h as int));
                assert forall|i: int| 0 <= i < h + 1 implies parent_among(
                    m,
                    rv,
                    i,
                    rv.len() as int,
                ) == match #[trigger] parents@[i] {
                    Some(p) => Some(p as int),
                    None => None,
                } by {
                    if i < h {
                        assert(held[i] == parents@[i]);
                    }
                }
            }
        }
        h = h + 1;
    }
    let mut out: Vec<Region> = Vec::new();
    let mut i: usize = 0;
    assert(regions(out@) =~= Seq::empty());
    while i < n
        invariant
            n == v@.len(),
            i <= n,
            rv == rings(v@),
            deep@.len() == n,
            parents@.len() == n,
            forall|m: Reading| #[trigger]
                calc.agrees(m) ==> old(calc).agrees(m) && nesting_known(
                    m,
                    rv,
                    deep@,
                    parents@,
                    n as int,
                ) && regions(out@) == regions_below(m, rv, i as int),
        decreases n - i,
    {
        let ghost c0 = *calc;
        let ghost held = regions(out@);
        assert(rv[i as int] == v@[i as int]@);
        if deep[i] % 2 == 0 {
            let outer = orient_ring(calc, &v[i], true);
            let holes = gather_holes(calc, &v, &deep, &parents, i);
            let one = Region { outer, holes };
            let ghost ov = one@;
            out.push(one);
            assert(regions(out@) =~= held.push(ov));
        }
        proof {
            assert forall|m: Reading| #[trigger] calc.agrees(m) implies regions(out@)
                == regions_below(m, rv, i + 1) by {
                assert(c0.agrees(m));
                assert(deep@[i as int] == depth(m, rv, i as int));
            }
        }
        i = i + 1;
    }
    out
}

} // verus!
