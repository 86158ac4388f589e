//! Filling outlines, and drawing them out into solids.

use crate::contours::{
    all_proper, copy_ring, depth, depths, directed, inside, is_outer, keep_proper, orient_ring,
    point_in_polygon, proper, rings,
};
use crate::faces::{EarLog, EarReading, Ears};
use crate::mesh::{Mesh, MeshView, Point3, Triangle};
use crate::node::Point2;
use crate::num::{
    absolute, at_most, is_at_most, negate, negative, Arithmetic, Calc, NumOp, Reading, ONE, TWO,
    ZERO,
};
use crate::planar::size_of;
use vstd::prelude::*;

verus! {

/// How close points of an outline may be before they count as one: 1e-7.
pub const WELD: u64 = 0x3e7a_d7f2_9abc_af48;

// ---- cleaning ------------------------------------------------------------------------------------

/// Two points count as one.
pub open spec fn close(m: Reading, a: Point2, b: Point2) -> bool {
    at_most(size_of(m.at(NumOp::Sub, a.x, b.x)), WELD) && at_most(
        size_of(m.at(NumOp::Sub, a.y, b.y)),
        WELD,
    )
}

/// The first `n` points without those that count as one with the point before.
pub open spec fn welded(m: Reading, c: Seq<Point2>, n: int) -> Seq<Point2>
    decreases n,
{
    if n <= 0 {
        Seq::empty()
    } else {
        let done = welded(m, c, n - 1);
        if done.len() == 0 || !close(m, done.last(), c[n - 1]) {
            done.push(c[n - 1])
        } else {
            done
        }
    }
}

/// An outline without edges of no length.
pub open spec fn cleaned(m: Reading, c: Seq<Point2>) -> Seq<Point2> {
    let w = welded(m, c, c.len() as int);
    if w.len() >= 2 && close(m, w[0], w.last()) {
        w.drop_last()
    } else {
        w
    }
}

fn test_close<A: Arithmetic>(calc: &mut Calc<A>, a: Point2, b: Point2) -> (r: bool)
    ensures
        forall|m: Reading| #[trigger]
            final(calc).agrees(m) ==> old(calc).agrees(m) && r == close(m, a, b),
{
    let dx: u64 = calc.apply(NumOp::Sub, a.x, b.x);
    let dy: u64 = calc.apply(NumOp::Sub, a.y, b.y);
    is_at_most(absolute(dx), WELD) && is_at_most(absolute(dy), WELD)
}

/// An outline without edges of no length.
pub fn dedup_consecutive<A: Arithmetic>(calc: &mut Calc<A>, c: &Vec<Point2>) -> (r: Vec<Point2>)
    ensures
        forall|m: Reading| #[trigger]
            final(calc).agrees(m) ==> old(calc).agrees(m) && r@ == cleaned(m, c@),
{
    let mut out: Vec<Point2> = Vec::new();
    let mut i: usize = 0;
    while i < c.len()
        invariant
            i <= c@.len(),
            forall|m: Reading| #[trigger]
                calc.agrees(m) ==> old(calc).agrees(m) && out@ == welded(m, c@, i as int),
        decreases c.len() - i,
    {
        let k: usize = out.len();
        if k == 0 {
            out.push(c[i]);
        } else if !test_close(calc, out[k - 1], c[i]) {
            out.push(c[i]);
        }
        i = i + 1;
    }
    let k: usize = out.len();
    if k >= 2 {
        let ghost all = out@;
        if test_close(calc, out[0], out[k - 1]) {
            out.pop();
            assert(out@ =~= all.drop_last());
        }
    }
    out
}

/// Every outline without edges of no length.
pub open spec fn all_cleaned(m: Reading, v: Seq<Seq<Point2>>) -> Seq<Seq<Point2>> {
    v.map_values(|c: Seq<Point2>| cleaned(m, c))
}

fn clean_all<A: Arithmetic>(calc: &mut Calc<A>, v: &Vec<Vec<Point2>>) -> (r: Vec<Vec<Point2>>)
    ensures
        forall|m: Reading| #[trigger]
            final(calc).agrees(m) ==> old(calc).agrees(m) && rings(r@) == all_cleaned(
                m,
                rings(v@),
            ),
{
    let mut out: Vec<Vec<Point2>> = Vec::new();
    let mut i: usize = 0;
    while i < v.len()
        invariant
            i <= v@.len(),
            out@.len() == i,
            forall|m: Reading| #[trigger]
                calc.agrees(m) ==> old(calc).agrees(m) && forall|k: int|
                    0 <= k < i ==> (#[trigger] out@[k])@ == cleaned(m, v@[k]@),
        decreases v.len() - i,
    {
        let c = dedup_consecutive(calc, &v[i]);
        out.push(c);
        i = i + 1;
    }
    proof {
        assert forall|m: Reading| #[trigger] calc.agrees(m) implies rings(out@) == all_cleaned(
            m,
            rings(v@),
        ) by {
            assert(rings(out@) =~= all_cleaned(m, rings(v@)));
        }
    }
    out
}

// ---- filling ---------------------------------------------------------------------------------------

/// Where the `i`-th outline begins among all points.
pub open spec fn start_of(v: Seq<Seq<Point2>>, i: int) -> nat
    decreases i,
{
    if i <= 0 {
        0
    } else {
        start_of(v, i - 1) + v[i - 1].len()
    }
}

/// The points of the first `n` outlines, each in its direction.
pub open spec fn points_below(m: Reading, v: Seq<Seq<Point2>>, n: int) -> Seq<Point2>
    decreases n,
{
    if n <= 0 {
        Seq::empty()
    } else {
        points_below(m, v, n - 1) + directed(m, v[n - 1], is_outer(m, v, n - 1))
    }
}

/// The places of an outline's points among all points.
pub open spec fn ring_places(v: Seq<Seq<Point2>>, i: int) -> Seq<u32> {
    Seq::new(v[i].len(), |k: int| (start_of(v, i) + k) as u32)
}

/// `h` is a hole of `i`: one level below, and inside it.
pub open spec fn is_hole_of(m: Reading, v: Seq<Seq<Point2>>, i: int, h: int) -> bool {
    depth(m, v, h) == depth(m, v, i) + 1 && inside(
        m,
        directed(m, v[i], is_outer(m, v, i)),
        v[h][0],
    )
}

/// An outline with holes, as places: the outline first, and where each hole
/// begins.
pub ghost struct Plan {
    pub places: Seq<u32>,
    pub starts: Seq<usize>,
}

/// An outline with its holes among the first `n`.
pub open spec fn plan_below(m: Reading, v: Seq<Seq<Point2>>, i: int, n: int) -> Plan
    decreases n,
{
    if n <= 0 {
        Plan { places: ring_places(v, i), starts: Seq::empty() }
    } else {
        let done = plan_below(m, v, i, n - 1);
        if is_hole_of(m, v, i, n - 1) {
            Plan {
                places: done.places + ring_places(v, n - 1),
                starts: done.starts.push(done.places.len() as usize),
            }
        } else {
            done
        }
    }
}

/// The first `n` cut triangles whose corners are places of the plan.
pub open spec fn ear_triangles(places: Seq<u32>, ears: Seq<usize>, n: int) -> Seq<Triangle>
    decreases n,
{
    if n <= 0 {
        Seq::empty()
    } else {
        let done = ear_triangles(places, ears, n - 1);
        let a = ears[3 * (n - 1)];
        let b = ears[3 * (n - 1) + 1];
        let c = ears[3 * (n - 1) + 2];
        if a < places.len() && b < places.len() && c < places.len() {
            done.push(
                Triangle { a: places[a as int], b: places[b as int], c: places[c as int] },
            )
        } else {
            done
        }
    }
}

/// The points at some places.
pub open spec fn points_at(points: Seq<Point2>, places: Seq<u32>) -> Seq<Point2> {
    places.map_values(|p: u32| points[p as int])
}

/// The triangles that fill an outline and leave out its holes.
pub open spec fn filled(m: Reading, e: EarReading, v: Seq<Seq<Point2>>, i: int) -> Seq<Triangle> {
    let n = v.len() as int;
    let plan = plan_below(m, v, i, n);
    match e(points_at(points_below(m, v, n), plan.places), plan.starts) {
        Some(ears) => ear_triangles(plan.places, ears, (ears.len() / 3) as int),
        None => Seq::empty(),
    }
}

/// The triangles that fill the outer ones of the first `n` outlines.
pub open spec fn caps_below(m: Reading, e: EarReading, v: Seq<Seq<Point2>>, n: int) -> Seq<Triangle>
    decreases n,
{
    if n <= 0 {
        Seq::empty()
    } else if is_outer(m, v, n - 1) {
        caps_below(m, e, v, n - 1) + filled(m, e, v, n - 1)
    } else {
        caps_below(m, e, v, n - 1)
    }
}

/// The outlines that are filled.
pub open spec fn shapes_of(m: Reading, contours: Seq<Seq<Point2>>) -> Seq<Seq<Point2>> {
    let c = all_cleaned(m, contours);
    proper(c, c.len() as int)
}

/// Outlines ready to be filled and drawn out: all points, where each outline
/// lies among them, and the triangles that fill them.
#[derive(Debug)]
pub struct Prepared {
    pub points: Vec<Point2>,
    /// Where each outline begins, and how many points it has.
    pub ranges: Vec<(usize, usize)>,
    pub caps: Vec<Triangle>,
}

/// The ranges of outlines.
pub open spec fn ranges_of(v: Seq<Seq<Point2>>) -> Seq<(usize, usize)> {
    Seq::new(v.len(), |i: int| (start_of(v, i) as usize, v[i].len() as usize))
}

/// `p` holds the outlines `v` ready to be filled.
pub open spec fn is_prepared(m: Reading, e: EarReading, v: Seq<Seq<Point2>>, p: Prepared) -> bool {
    let n = v.len() as int;
    &&& p.points@ == points_below(m, v, n)
    &&& p.ranges@ == ranges_of(v)
    &&& p.caps@ == caps_below(m, e, v, n)
}

/// The ranges and triangles stay within the points.
pub open spec fn prepared_wf(p: Prepared) -> bool {
    &&& p.points@.len() <= u32::MAX
    &&& forall|i: int|
        0 <= i < p.caps@.len() ==> (#[trigger] p.caps@[i]).within(p.points@.len())
    &&& forall|i: int|
        0 <= i < p.ranges@.len() ==> (#[trigger] p.ranges@[i]).0 + p.ranges@[i].1
            <= p.points@.len() && p.ranges@[i].1 >= 3
}

proof fn lemma_starts(v: Seq<Seq<Point2>>, i: int, n: int)
    requires
        0 <= i <= n <= v.len(),
    ensures
        start_of(v, i) <= start_of(v, n),
        i < n ==> start_of(v, i) + v[i].len() <= start_of(v, n),
    decreases n,
{
    if i < n {
        lemma_starts(v, i, n - 1);
    }
}

proof fn lemma_points_len(m: Reading, v: Seq<Seq<Point2>>, n: int)
    requires
        0 <= n <= v.len(),
    ensures
        points_below(m, v, n).len() == start_of(v, n),
    decreases n,
{
    if n > 0 {
        lemma_points_len(m, v, n - 1);
    }
}

fn countable(v: &Vec<Vec<Point2>>) -> (r: bool)
    ensures
        r == (start_of(rings(v@), v@.len() as int) <= u32::MAX),
{
    let ghost rv = rings(v@);
    let mut sum: usize = 0;
    let mut i: usize = 0;
    while i < v.len()
        invariant
            rv == rings(v@),
            i <= v@.len(),
            sum == start_of(rv, i as int),
            sum <= u32::MAX,
        decreases v.len() - i,
    {
        assert(rv[i as int] == v@[i as int]@);
        let more: usize = v[i].len();
        proof {
            lemma_starts(rv, i + 1, rv.len() as int);
        }
        if more > 0xffff_ffff - sum {
            return false;
        }
        sum = sum + more;
        i = i + 1;
    }
    true
}

fn push_places(places: &mut Vec<u32>, start: usize, len: usize, Ghost(v): Ghost<Seq<Seq<Point2>>>, Ghost(i): Ghost<int>)
    requires
        0 <= i < v.len(),
        start == start_of(v, i),
        len == v[i].len(),
        start + len <= u32::MAX,
    ensures
        final(places)@ == old(places)@ + ring_places(v, i),
{
    let ghost before = places@;
    let ghost whole = ring_places(v, i);
    let mut k: usize = 0;
    assert(before + whole.take(0) =~= before);
    while k < len
        invariant
            k <= len,
            start + len <= u32::MAX,
            start == start_of(v, i),
            len == v[i].len(),
            whole == ring_places(v, i),
            places@ == before + whole.take(k as int),
        decreases len - k,
    {
        places.push((start + k) as u32);
        assert(places@ =~= before + whole.take(k + 1));
        k = k + 1;
    }
    assert(whole.take(len as int) =~= whole);
}

/// Cuts one outline with its holes into triangles.
fn fill_one<A: Arithmetic, E: Ears>(
    calc: &mut Calc<A>,
    log: &mut EarLog,
    host: &mut E,
    v: &Vec<Vec<Point2>>,
    deep: &Vec<usize>,
    oriented: &Vec<Vec<Point2>>,
    points: &Vec<Point2>,
    ranges: &Vec<(usize, usize)>,
    i: usize,
) -> (r: Vec<Triangle>)
    requires
        i < v@.len(),
        all_proper(rings(v@)),
        deep@.len() == v@.len(),
        forall|k: int| 0 <= k < deep@.len() ==> #[trigger] deep@[k] <= v@.len(),
        oriented@.len() == v@.len(),
        ranges@ == ranges_of(rings(v@)),
        start_of(rings(v@), v@.len() as int) <= u32::MAX,
        points@.len() == start_of(rings(v@), v@.len() as int),
    ensures
        forall|k: int| 0 <= k < r@.len() ==> (#[trigger] r@[k]).within(points@.len()),
        forall|m: Reading, e: EarReading|
            #![trigger final(calc).agrees(m), final(log).agrees(e)]
            final(calc).agrees(m) && final(log).agrees(e) ==> old(calc).agrees(m) && old(
                log,
            ).agrees(e) && ((points@ == points_below(m, rings(v@), v@.len() as int) && (forall|
                k: int,
            |
                0 <= k < deep@.len() ==> #[trigger] deep@[k] == depth(m, rings(v@), k)) && (forall|
                k: int,
            |
                0 <= k < oriented@.len() ==> (#[trigger] oriented@[k])@ == directed(
                    m,
                    rings(v@)[k],
                    is_outer(m, rings(v@), k),
                ))) ==> r@ == filled(m, e, rings(v@), i as int)),
{
    let n: usize = v.len();
    let ghost rv = rings(v@);
    let mut places: Vec<u32> = Vec::new();
    let mut starts: Vec<usize> = Vec::new();
    proof {
        lemma_starts(rv, i as int, n as int);
        assert(rv[i as int] == v@[i as int]@);
        assert(ranges@[i as int] == (start_of(rv, i as int) as usize, rv[i as int].len() as usize));
    }
    let (s, len) = ranges[i];
    push_places(&mut places, s, len, Ghost(rv), Ghost(i as int));
    assert(places@ =~= ring_places(rv, i as int));
    assert(starts@ =~= Seq::empty());
    proof {
        assert forall|k: int| 0 <= k < places@.len() implies (#[trigger] places@[k])
            < points@.len() by {
            assert(places@[k] == ring_places(rv, i as int)[k]);
        }
    }
    let mut h: usize = 0;
    while h < n
        invariant
            n == v@.len(),
            h <= n,
            i < n,
            rv == rings(v@),
            all_proper(rv),
            deep@.len() == n,
            forall|k: int| 0 <= k < deep@.len() ==> #[trigger] deep@[k] <= n,
            oriented@.len() == n,
            ranges@ == ranges_of(rv),
            start_of(rv, n as int) <= u32::MAX,
            points@.len() == start_of(rv, n as int),
            forall|k: int| 0 <= k < places@.len() ==> (#[trigger] places@[k]) < points@.len(),
            forall|m: Reading| #[trigger]
                calc.agrees(m) ==> old(calc).agrees(m) && (((forall|k: int|
                    0 <= k < deep@.len() ==> #[trigger] deep@[k] == depth(m, rv, k)) && (forall|
                    k: int,
                |
                    0 <= k < oriented@.len() ==> (#[trigger] oriented@[k])@ == directed(
                        m,
                        rv[k],
                        is_outer(m, rv, k),
                    ))) ==> (Plan { places: places@, starts: starts@ }) == plan_below(
                    m,
                    rv,
                    i as int,
                    h as int,
                )),
        decreases n - h,
    {
        let ghost c0 = *calc;
        let ghost held = places@;
        proof {
            lemma_starts(rv, h as int, n as int);
            assert(rv[h as int] == v@[h as int]@);
            assert(rv[h as int].len() >= 3);
            assert(ranges@[h as int] == (
                start_of(rv, h as int) as usize,
                rv[h as int].len() as usize,
            ));
        }
        if deep[h] > 0 && deep[h] - 1 == deep[i] {
            let p = v[h][0];
            if point_in_polygon(calc, &oriented[i], p) {
                starts.push(places.len());
                let (hs, hlen) = ranges[h];
                push_places(&mut places, hs, hlen, Ghost(rv), Ghost(h as int));
                proof {
                    assert forall|k: int| 0 <= k < places@.len() implies (#[trigger] places@[k])
                        < points@.len() by {
                        if k < held.len() {
                            assert(places@[k] == held[k]);
                        } else {
                            assert(places@[k] == ring_places(rv, h as int)[k - held.len()]);
                        }
                    }
                }
            }
        }
        proof {
            assert forall|m: Reading| #[trigger] calc.agrees(m) && (forall|k: int|
                0 <= k < deep@.len() ==> #[trigger] deep@[k] == depth(m, rv, k)) && (forall|k: int|
                0 <= k < oriented@.len() ==> (#[trigger] oriented@[k])@ == directed(
                    m,
                    rv[k],
                    is_outer(m, rv, k),
                )) implies (Plan { places: places@, starts: starts@ }) == plan_below(
                m,
                rv,
                i as int,
                h + 1,
            ) by {
                assert(c0.agrees(m));
                assert(deep@[h as int] == depth(m, rv, h as int));
                assert(deep@[i as int] == depth(m, rv, i as int));
                assert(oriented@[i as int]@ == directed(
                    m,
                    rv[i as int],
                    is_outer(m, rv, i as int),
                ));
            }
        }
        h = h + 1;
    }
    let mut outline: Vec<Point2> = Vec::new();
    for k in 0..places.len()
        invariant
            forall|j: int| 0 <= j < places@.len() ==> (#[trigger] places@[j]) < points@.len(),
            outline@ =~= points_at(points@, places@).take(k as int),
    {
        assert(places@[k as int] < points@.len());
        outline.push(points[places[k] as usize]);
    }
    assert(outline@ =~= points_at(points@, places@));
    let ears = match log.cut(host, &outline, &starts) {
        Some(ears) => ears,
        None => {
            return Vec::new();
        },
    };
    take_ears(&places, &ears, Ghost(points@.len()))
}

fn take_ears(places: &Vec<u32>, ears: &Vec<usize>, Ghost(total): Ghost<nat>) -> (r: Vec<Triangle>)
    requires
        forall|k: int| 0 <= k < places@.len() ==> (#[trigger] places@[k]) < total,
    ensures
        r@ == ear_triangles(places@, ears@, (ears@.len() / 3) as int),
        forall|k: int| 0 <= k < r@.len() ==> (#[trigger] r@[k]).within(total),
{
    let count: usize = ears.len();
    let n: usize = count / 3;
    let mut out: Vec<Triangle> = Vec::new();
    let mut k: usize = 0;
    while k < n
        invariant
            k <= n,
            n == count / 3,
            count == ears@.len(),
            forall|j: int| 0 <= j < places@.len() ==> (#[trigger] places@[j]) < total,
            out@ =~= ear_triangles(places@, ears@, k as int),
            forall|j: int| 0 <= j < out@.len() ==> (#[trigger] out@[j]).within(total),
        decreases n - k,
    {
        assert(3 * k + 2 < count);
        let a: usize = ears[3 * k];
        let b: usize = ears[3 * k + 1];
        let c: usize = ears[3 * k + 2];
        if a < places.len() && b < places.len() && c < places.len() {
            assert(places@[a as int] < total);
            assert(places@[b as int] < total);
            assert(places@[c as int] < total);
            out.push(Triangle { a: places[a], b: places[b], c: places[c] });
        }
        k = k + 1;
    }
    out
}


/// Each outline in its direction.
spec fn oriented_all(m: Reading, v: Seq<Seq<Point2>>, oriented: Seq<Vec<Point2>>, n: int) -> bool {
    forall|k: int|
        0 <= k < n ==> (#[trigger] oriented[k])@ == directed(m, v[k], is_outer(m, v, k))
}

spec fn deep_all(m: Reading, v: Seq<Seq<Point2>>, deep: Seq<usize>) -> bool {
    forall|k: int| 0 <= k < deep.len() ==> #[trigger] deep[k] == depth(m, v, k)
}

/// Makes outlines ready to be filled and drawn out. `None` where they have more
/// points than can be numbered.
pub fn prepare<A: Arithmetic, E: Ears>(
    calc: &mut Calc<A>,
    log: &mut EarLog,
    host: &mut E,
    contours: &Vec<Vec<Point2>>,
) -> (r: Option<Prepared>)
    ensures
        r matches Some(p) ==> prepared_wf(p),
        forall|m: Reading, e: EarReading|
            #![trigger final(calc).agrees(m), final(log).agrees(e)]
            final(calc).agrees(m) && final(log).agrees(e) ==> old(calc).agrees(m) && old(
                log,
            ).agrees(e) && {
                let v = shapes_of(m, rings(contours@));
                match r {
                    Some(p) => start_of(v, v.len() as int) <= u32::MAX && is_prepared(m, e, v, p),
                    None => start_of(v, v.len() as int) > u32::MAX,
                }
            },
{
    let clean = clean_all(calc, contours);
    let v = keep_proper(&clean);
    let ghost rv = rings(v@);
    if !countable(&v) {
        return None;
    }
    let n: usize = v.len();
    let deep = depths(calc, &v);
    let ghost c1 = *calc;
    let mut oriented: Vec<Vec<Point2>> = Vec::new();
    let mut points: Vec<Point2> = Vec::new();
    let mut ranges: Vec<(usize, usize)> = Vec::new();
    let mut i: usize = 0;
    while i < n
        invariant
            n == v@.len(),
            i <= n,
            rv == rings(v@),
            all_proper(rv),
            deep@.len() == n,
            start_of(rv, n as int) <= u32::MAX,
            oriented@.len() == i,
            points@.len() == start_of(rv, i as int),
            ranges@ =~= ranges_of(rv).take(i as int),
            forall|m: Reading| #[trigger]
                calc.agrees(m) ==> c1.agrees(m) && (deep_all(m, rv, deep@) ==> points@
                    == points_below(m, rv, i as int) && oriented_all(
                    m,
                    rv,
                    oriented@,
                    i as int,
                )),
        decreases n - i,
    {
        let ghost c0 = *calc;
        let ghost held = oriented@;
        let ghost before = points@;
        assert(rv[i as int] == v@[i as int]@);
        proof {
            lemma_starts(rv, i as int, n as int);
        }
        let c = orient_ring(calc, &v[i], deep[i] % 2 == 0);
        ranges.push((points.len(), c.len()));
        let mut more = copy_ring(&c);
        points.append(&mut more);
        let ghost cv = c@;
        oriented.push(c);
        proof {
            assert(points@ =~= before + cv);
            assert(ranges_of(rv)[i as int] == (before.len() as usize, rv[i as int].len() as usize));
            assert forall|m: Reading| #[trigger] calc.agrees(m) && deep_all(m, rv, deep@) implies
                points@ == points_below(m, rv, i + 1) && oriented_all(m, rv, oriented@, i + 1) by {
                assert(c0.agrees(m));
                assert(deep@[i as int] == depth(m, rv, i as int));
                assert(cv == directed(m, rv[i as int], is_outer(m, rv, i as int)));
                assert forall|k: int| 0 <= k < i + 1 implies (#[trigger] oriented@[k])@ == directed(
                    m,
                    rv[k],
                    is_outer(m, rv, k),
                ) by {
                    if k < i {
                        assert(oriented@[k] == held[k]);
                        assert(held[k]@ == directed(m, rv[k], is_outer(m, rv, k)));
                    }
                }
            }
        }
        i = i + 1;
    }
    assert(ranges@ =~= ranges_of(rv));
    let mut caps: Vec<Triangle> = Vec::new();
    let mut i: usize = 0;
    while i < n
        invariant
            n == v@.len(),
            i <= n,
            rv == rings(v@),
            all_proper(rv),
            deep@.len() == n,
            forall|k: int| 0 <= k < deep@.len() ==> #[trigger] deep@[k] <= n,
            oriented@.len() == n,
            ranges@ == ranges_of(rv),
            start_of(rv, n as int) <= u32::MAX,
            points@.len() == start_of(rv, n as int),
            forall|k: int| 0 <= k < caps@.len() ==> (#[trigger] caps@[k]).within(points@.len()),
            forall|m: Reading, e: EarReading|
                #![trigger calc.agrees(m), log.agrees(e)]
                calc.agrees(m) && log.agrees(e) ==> c1.agrees(m) && old(log).agrees(e) && (
                deep_all(m, rv, deep@) ==> points@ == points_below(m, rv, n as int)
                    && oriented_all(m, rv, oriented@, n as int) && caps@ == caps_below(
                    m,
                    e,
                    rv,
                    i as int,
                )),
        decreases n - i,
    {
        let ghost c0 = *calc;
        let ghost l0 = *log;
        let ghost held = caps@;
        let outer: bool = deep[i] % 2 == 0;
        if outer {
            let mut more = fill_one(calc, log, host, &v, &deep, &oriented, &points, &ranges, i);
            let ghost added = more@;
            caps.append(&mut more);
            assert(caps@ =~= held + added);
            proof {
                assert forall|k: int| 0 <= k < caps@.len() implies (#[trigger] caps@[k]).within(
                    points@.len(),
                ) by {
                    if k < held.len() {
                        assert(held[k].within(points@.len()));
                    } else {
                        assert(added[k - held.len()].within(points@.len()));
                    }
                }
                assert forall|m: Reading, e: EarReading|
                    #![trigger calc.agrees(m), log.agrees(e)]
                    calc.agrees(m) && log.agrees(e) && deep_all(m, rv, deep@) implies caps@
                    == caps_below(m, e, rv, i + 1) by {
                    assert(c0.agrees(m) && l0.agrees(e));
                    assert(oriented_all(m, rv, oriented@, n as int));
                    assert(deep@[i as int] == depth(m, rv, i as int));
                    assert(added == filled(m, e, rv, i as int));
                }
            }
        } else {
            proof {
                assert forall|m: Reading, e: EarReading|
                    #![trigger calc.agrees(m), log.agrees(e)]
                    calc.agrees(m) && log.agrees(e) && deep_all(m, rv, deep@) implies caps@
                    == caps_below(m, e, rv, i + 1) by {
                    assert(deep@[i as int] == depth(m, rv, i as int));
                }
            }
        }
        i = i + 1;
    }
    let out = Prepared { points, ranges, caps };
    proof {
        assert forall|k: int| 0 <= k < out.ranges@.len() implies (#[trigger] out.ranges@[k]).0
            + out.ranges@[k].1 <= out.points@.len() && out.ranges@[k].1 >= 3 by {
            lemma_starts(rv, k, n as int);
            assert(rv[k].len() >= 3);
        }
        assert forall|m: Reading| #[trigger] c1.agrees(m) implies rv == shapes_of(
            m,
            rings(contours@),
        ) && deep_all(m, rv, deep@) by {}
    }
    Some(out)
}

/// A flat mesh over outlines, with the holes cut out.
pub open spec fn flat_of(m: Reading, e: EarReading, contours: Seq<Seq<Point2>>) -> Option<MeshView> {
    let v = shapes_of(m, contours);
    let n = v.len() as int;
    if start_of(v, n) > u32::MAX {
        None
    } else {
        Some(
            MeshView {
                verts: points_below(m, v, n).map_values(
                    |p: Point2| Point3 { x: p.x, y: p.y, z: ZERO },
                ),
                tris: caps_below(m, e, v, n),
            },
        )
    }
}

/// A flat mesh over outlines, with the holes cut out. `None` where it has more
/// points than can be numbered.
pub fn flat_mesh<A: Arithmetic, E: Ears>(
    calc: &mut Calc<A>,
    log: &mut EarLog,
    host: &mut E,
    contours: &Vec<Vec<Point2>>,
) -> (r: Option<Mesh>)
    ensures
        r matches Some(mesh) ==> mesh@.indexed(),
        forall|m: Reading, e: EarReading|
            #![trigger final(calc).agrees(m), final(log).agrees(e)]
            final(calc).agrees(m) && final(log).agrees(e) ==> old(calc).agrees(m) && old(
                log,
            ).agrees(e) && flat_of(m, e, rings(contours@)) == match r {
                Some(mesh) => Some(mesh@),
                None => None,
            },
{
    let p = match prepare(calc, log, host, contours) {
        Some(p) => p,
        None => {
            return None;
        },
    };
    let ghost whole = p.points@.map_values(|q: Point2| Point3 { x: q.x, y: q.y, z: ZERO });
    let mut verts: Vec<Point3> = Vec::new();
    for i in 0..p.points.len()
        invariant
            whole == p.points@.map_values(|q: Point2| Point3 { x: q.x, y: q.y, z: ZERO }),
            verts@ =~= whole.take(i as int),
    {
        verts.push(Point3 { x: p.points[i].x, y: p.points[i].y, z: ZERO });
    }
    assert(verts@ =~= whole);
    Some(Mesh { verts, tris: p.caps })
}

// ---- drawing out straight ------------------------------------------------------------------------

/// How an outline is drawn out.
#[derive(Clone, Copy, Debug, PartialEq, Eq, Structural)]
pub struct Draw {
    pub height: u64,
    pub center: bool,
    pub twist: u64,
    pub scale: Point2,
    pub slices: u32,
}

/// What all points of one layer share: the sine and the cosine of its turn, its
/// scale, and its height.
pub struct Layer {
    pub s: u64,
    pub c: u64,
    pub sx: u64,
    pub sy: u64,
    pub z: u64,
}

pub open spec fn slices_of(d: Draw) -> u32 {
    if d.slices < 1 {
        1
    } else {
        d.slices
    }
}

/// The layer number `k`.
pub open spec fn layer_of(m: Reading, d: Draw, k: int) -> Layer {
    let t = m.at(
        NumOp::Div,
        m.at(NumOp::FromInt, k as u64, 0),
        m.at(NumOp::FromInt, slices_of(d) as u64, 0),
    );
    let ang = m.at(NumOp::ToRadians, m.at(NumOp::Mul, negative(d.twist), t), 0);
    let z0 = if d.center {
        m.at(NumOp::Div, negative(d.height), TWO)
    } else {
        ZERO
    };
    Layer {
        s: m.at(NumOp::Sin, ang, 0),
        c: m.at(NumOp::Cos, ang, 0),
        sx: m.at(NumOp::Add, ONE, m.at(NumOp::Mul, m.at(NumOp::Sub, d.scale.x, ONE), t)),
        sy: m.at(NumOp::Add, ONE, m.at(NumOp::Mul, m.at(NumOp::Sub, d.scale.y, ONE), t)),
        z: m.at(NumOp::Add, z0, m.at(NumOp::Mul, d.height, t)),
    }
}

/// A point in a layer.
pub open spec fn in_layer(m: Reading, l: Layer, p: Point2) -> Point3 {
    let x = m.at(NumOp::Mul, p.x, l.sx);
    let y = m.at(NumOp::Mul, p.y, l.sy);
    Point3 {
        x: m.at(NumOp::Sub, m.at(NumOp::Mul, x, l.c), m.at(NumOp::Mul, y, l.s)),
        y: m.at(NumOp::Add, m.at(NumOp::Mul, x, l.s), m.at(NumOp::Mul, y, l.c)),
        z: l.z,
    }
}

/// The points of the first `n` layers.
pub open spec fn layers_below(m: Reading, d: Draw, points: Seq<Point2>, n: int) -> Seq<Point3>
    decreases n,
{
    if n <= 0 {
        Seq::empty()
    } else {
        layers_below(m, d, points, n - 1) + points.map_values(
            |p: Point2| in_layer(m, layer_of(m, d, n - 1), p),
        )
    }
}

/// The first `k` squares of one loop between two layers.
pub open spec fn loop_walls(range: (usize, usize), low: int, high: int, k: int) -> Seq<Triangle>
    decreases k,
{
    if k <= 0 {
        Seq::empty()
    } else {
        let i = range.0 + k - 1;
        let j = range.0 + if k < range.1 {
            k
        } else {
            0
        };
        let a = (low + i) as u32;
        let b = (low + j) as u32;
        let c = (high + j) as u32;
        let d = (high + i) as u32;
        loop_walls(range, low, high, k - 1).push((Triangle { a, b, c })).push(
            (Triangle { a, b: c, c: d }),
        )
    }
}

/// The walls of one loop between the first `k` pairs of layers of `n` points.
pub open spec fn range_walls(range: (usize, usize), n: int, k: int) -> Seq<Triangle>
    decreases k,
{
    if k <= 0 {
        Seq::empty()
    } else {
        range_walls(range, n, k - 1) + loop_walls(range, (k - 1) * n, k * n, range.1 as int)
    }
}

/// The walls of the first `i` loops.
pub open spec fn all_walls(ranges: Seq<(usize, usize)>, n: int, slices: int, i: int) -> Seq<Triangle>
    decreases i,
{
    if i <= 0 {
        Seq::empty()
    } else {
        all_walls(ranges, n, slices, i - 1) + range_walls(ranges[i - 1], n, slices)
    }
}

/// The first `i` triangles of the fill, below turned round and above.
pub open spec fn end_caps(caps: Seq<Triangle>, top: int, i: int) -> Seq<Triangle>
    decreases i,
{
    if i <= 0 {
        Seq::empty()
    } else {
        let t = caps[i - 1];
        end_caps(caps, top, i - 1).push((Triangle { a: t.a, b: t.c, c: t.b })).push(
            (Triangle { a: (top + t.a) as u32, b: (top + t.b) as u32, c: (top + t.c) as u32 }),
        )
    }
}

/// Outlines drawn out straight. `None` where the solid has more points than can
/// be numbered. The triangles face outward where the height is positive.
pub open spec fn extruded(m: Reading, e: EarReading, contours: Seq<Seq<Point2>>, d: Draw) -> Option<
    MeshView,
> {
    let v = shapes_of(m, contours);
    let n = start_of(v, v.len() as int) as int;
    let slices = slices_of(d) as int;
    if n > u32::MAX || n * (slices + 1) > u32::MAX {
        None
    } else {
        Some(
            MeshView {
                verts: layers_below(m, d, points_below(m, v, v.len() as int), slices + 1),
                tris: all_walls(ranges_of(v), n, slices, v.len() as int) + end_caps(
                    caps_below(m, e, v, v.len() as int),
                    slices * n,
                    caps_below(m, e, v, v.len() as int).len() as int,
                ),
            },
        )
    }
}

fn find_layer<A: Arithmetic>(calc: &mut Calc<A>, d: Draw, k: u32) -> (l: Layer)
    ensures
        forall|m: Reading| #[trigger]
            final(calc).agrees(m) ==> old(calc).agrees(m) && l == layer_of(m, d, k as int),
{
    let slices: u32 = if d.slices < 1 {
        1
    } else {
        d.slices
    };
    let at: u64 = calc.apply(NumOp::FromInt, k as u64, 0);
    let all: u64 = calc.apply(NumOp::FromInt, slices as u64, 0);
    let t: u64 = calc.apply(NumOp::Div, at, all);
    let turn: u64 = calc.apply(NumOp::Mul, negate(d.twist), t);
    let ang: u64 = calc.apply(NumOp::ToRadians, turn, 0);
    let s: u64 = calc.apply(NumOp::Sin, ang, 0);
    let c: u64 = calc.apply(NumOp::Cos, ang, 0);
    let gx: u64 = calc.apply(NumOp::Sub, d.scale.x, ONE);
    let hx: u64 = calc.apply(NumOp::Mul, gx, t);
    let sx: u64 = calc.apply(NumOp::Add, ONE, hx);
    let gy: u64 = calc.apply(NumOp::Sub, d.scale.y, ONE);
    let hy: u64 = calc.apply(NumOp::Mul, gy, t);
    let sy: u64 = calc.apply(NumOp::Add, ONE, hy);
    let mut z0: u64 = ZERO;
    if d.center {
        z0 = calc.apply(NumOp::Div, negate(d.height), TWO);
    }
    let up: u64 = calc.apply(NumOp::Mul, d.height, t);
    let z: u64 = calc.apply(NumOp::Add, z0, up);
    Layer { s, c, sx, sy, z }
}

fn place_in_layer<A: Arithmetic>(calc: &mut Calc<A>, l: &Layer, p: Point2) -> (r: Point3)
    ensures
        forall|m: Reading| #[trigger]
            final(calc).agrees(m) ==> old(calc).agrees(m) && r == in_layer(m, *l, p),
{
    let x: u64 = calc.apply(NumOp::Mul, p.x, l.sx);
    let y: u64 = calc.apply(NumOp::Mul, p.y, l.sy);
    let xc: u64 = calc.apply(NumOp::Mul, x, l.c);
    let ys: u64 = calc.apply(NumOp::Mul, y, l.s);
    let px: u64 = calc.apply(NumOp::Sub, xc, ys);
    let xs: u64 = calc.apply(NumOp::Mul, x, l.s);
    let yc: u64 = calc.apply(NumOp::Mul, y, l.c);
    let py: u64 = calc.apply(NumOp::Add, xs, yc);
    Point3 { x: px, y: py, z: l.z }
}

fn push_layers<A: Arithmetic>(calc: &mut Calc<A>, points: &Vec<Point2>, d: Draw, slices: u32) -> (r: Vec<
    Point3,
>)
    requires
        slices == slices_of(d),
    ensures
        r@.len() == points@.len() * (slices + 1),
        forall|m: Reading| #[trigger]
            final(calc).agrees(m) ==> old(calc).agrees(m) && r@ == layers_below(
                m,
                d,
                points@,
                slices + 1,
            ),
{
    let mut out: Vec<Point3> = Vec::new();
    let mut k: u64 = 0;
    let last: u64 = slices as u64 + 1;
    let ghost n = points@.len() as int;
    assert(n * 0 == 0);
    while k < last
        invariant
            k <= last,
            last == slices + 1,
            n == points@.len(),
            out@.len() == n * k,
            forall|m: Reading| #[trigger]
                calc.agrees(m) ==> old(calc).agrees(m) && out@ == layers_below(
                    m,
                    d,
                    points@,
                    k as int,
                ),
        decreases last - k,
    {
        let ghost c0 = *calc;
        let ghost held = out@;
        let l = find_layer(calc, d, k as u32);
        let ghost c1 = *calc;
        let mut i: usize = 0;
        while i < points.len()
            invariant
                i <= points@.len(),
                out@.len() == held.len() + i,
                forall|j: int| 0 <= j < held.len() ==> #[trigger] out@[j] == held[j],
                forall|m: Reading| #[trigger]
                    calc.agrees(m) ==> c1.agrees(m) && forall|j: int|
                        held.len() <= j < out@.len() ==> #[trigger] out@[j] == in_layer(
                            m,
                            l,
                            points@[j - held.len()],
                        ),
            decreases points.len() - i,
        {
            let q = place_in_layer(calc, &l, points[i]);
            out.push(q);
            i = i + 1;
        }
        proof {
            assert(n * (k + 1) == n * k + n) by (nonlinear_arith);
            assert forall|m: Reading| #[trigger] calc.agrees(m) implies out@ == layers_below(
                m,
                d,
                points@,
                k + 1,
            ) by {
                assert(c1.agrees(m));
                assert(c0.agrees(m));
                assert(out@ =~= layers_below(m, d, points@, k + 1));
            }
        }
        k = k + 1;
    }
    out
}

pub(crate) fn push_loop(tris: &mut Vec<Triangle>, range: (usize, usize), low: u32, high: u32, Ghost(total): Ghost<nat>)
    requires
        total <= u32::MAX,
        low + range.0 + range.1 <= total,
        high + range.0 + range.1 <= total,
        forall|k: int| 0 <= k < old(tris)@.len() ==> (#[trigger] old(tris)@[k]).within(total),
    ensures
        final(tris)@ == old(tris)@ + loop_walls(range, low as int, high as int, range.1 as int),
        forall|k: int| 0 <= k < final(tris)@.len() ==> (#[trigger] final(tris)@[k]).within(total),
{
    let ghost before = tris@;
    let (start, len) = range;
    let mut k: usize = 0;
    assert(before + loop_walls(range, low as int, high as int, 0) =~= before);
    while k < len
        invariant
            k <= len,
            range == (start, len),
            total <= u32::MAX,
            low + range.0 + range.1 <= total,
            high + range.0 + range.1 <= total,
            forall|j: int| 0 <= j < tris@.len() ==> (#[trigger] tris@[j]).within(total),
            tris@ == before + loop_walls(range, low as int, high as int, k as int),
        decreases len - k,
    {
        let i: u32 = (start + k) as u32;
        let j: u32 = if k < len - 1 {
            (start + k + 1) as u32
        } else {
            start as u32
        };
        let a: u32 = low + i;
        let b: u32 = low + j;
        let c: u32 = high + j;
        let d: u32 = high + i;
        tris.push(Triangle { a, b, c });
        tris.push(Triangle { a, b: c, c: d });
        assert(tris@ =~= before + loop_walls(range, low as int, high as int, k + 1));
        k = k + 1;
    }
}

fn push_walls(
    tris: &mut Vec<Triangle>,
    ranges: &Vec<(usize, usize)>,
    n: u32,
    slices: u32,
    Ghost(total): Ghost<nat>,
)
    requires
        total == n * (slices + 1),
        total <= u32::MAX,
        forall|i: int|
            0 <= i < ranges@.len() ==> (#[trigger] ranges@[i]).0 + ranges@[i].1 <= n,
        old(tris)@.len() == 0,
    ensures
        final(tris)@ == all_walls(ranges@, n as int, slices as int, ranges@.len() as int),
        forall|k: int| 0 <= k < final(tris)@.len() ==> (#[trigger] final(tris)@[k]).within(total),
{
    let mut i: usize = 0;
    assert(tris@ =~= Seq::empty());
    while i < ranges.len()
        invariant
            i <= ranges@.len(),
            total == n * (slices + 1),
            total <= u32::MAX,
            forall|k: int|
                0 <= k < ranges@.len() ==> (#[trigger] ranges@[k]).0 + ranges@[k].1 <= n,
            tris@ == all_walls(ranges@, n as int, slices as int, i as int),
            forall|k: int| 0 <= k < tris@.len() ==> (#[trigger] tris@[k]).within(total),
        decreases ranges.len() - i,
    {
        let ghost before = tris@;
        let range = ranges[i];
        let mut k: u32 = 0;
        let mut low: u32 = 0;
        assert(before + range_walls(range, n as int, 0) =~= before);
        while k < slices
            invariant
                k <= slices,
                low == k * n,
                total == n * (slices + 1),
                total <= u32::MAX,
                range.0 + range.1 <= n,
                tris@ == before + range_walls(range, n as int, k as int),
                forall|j: int| 0 <= j < tris@.len() ==> (#[trigger] tris@[j]).within(total),
            decreases slices - k,
        {
            proof {
                assert((k + 1) * n == k * n + n) by (nonlinear_arith);
                assert(k * n + 2 * n <= n * (slices + 1)) by (nonlinear_arith)
                    requires
                        k + 1 <= slices,
                        0 <= n,
                ;
            }
            let high: u32 = low + n;
            push_loop(tris, range, low, high, Ghost(total));
            assert(tris@ =~= before + range_walls(range, n as int, k + 1));
            low = high;
            k = k + 1;
        }
        i = i + 1;
    }
}

fn push_caps(
    tris: &mut Vec<Triangle>,
    caps: &Vec<Triangle>,
    n: u32,
    top: u32,
    Ghost(total): Ghost<nat>,
)
    requires
        top + n <= total,
        total <= u32::MAX,
        forall|i: int| 0 <= i < caps@.len() ==> (#[trigger] caps@[i]).within(n as nat),
        forall|k: int| 0 <= k < old(tris)@.len() ==> (#[trigger] old(tris)@[k]).within(total),
    ensures
        final(tris)@ == old(tris)@ + end_caps(caps@, top as int, caps@.len() as int),
        forall|k: int| 0 <= k < final(tris)@.len() ==> (#[trigger] final(tris)@[k]).within(total),
{
    let ghost before = tris@;
    let mut i: usize = 0;
    assert(before + end_caps(caps@, top as int, 0) =~= before);
    while i < caps.len()
        invariant
            i <= caps@.len(),
            top + n <= total,
            total <= u32::MAX,
            forall|k: int| 0 <= k < caps@.len() ==> (#[trigger] caps@[k]).within(n as nat),
            forall|k: int| 0 <= k < tris@.len() ==> (#[trigger] tris@[k]).within(total),
            tris@ == before + end_caps(caps@, top as int, i as int),
        decreases caps.len() - i,
    {
        let t = caps[i];
        assert(caps@[i as int].within(n as nat));
        tris.push(Triangle { a: t.a, b: t.c, c: t.b });
        tris.push(Triangle { a: top + t.a, b: top + t.b, c: top + t.c });
        assert(tris@ =~= before + end_caps(caps@, top as int, i + 1));
        i = i + 1;
    }
}

/// Draws outlines out straight, with their holes, turned and scaled by layers.
/// `None` where the solid has more points than can be numbered.
pub fn linear_extrude<A: Arithmetic, E: Ears>(
    calc: &mut Calc<A>,
    log: &mut EarLog,
    host: &mut E,
    contours: &Vec<Vec<Point2>>,
    d: Draw,
) -> (r: Option<Mesh>)
    ensures
        r matches Some(mesh) ==> mesh@.indexed(),
        forall|m: Reading, e: EarReading|
            #![trigger final(calc).agrees(m), final(log).agrees(e)]
            final(calc).agrees(m) && final(log).agrees(e) ==> old(calc).agrees(m) && old(
                log,
            ).agrees(e) && extruded(m, e, rings(contours@), d) == match r {
                Some(mesh) => Some(mesh@),
                None => None,
            },
{
    let p = match prepare(calc, log, host, contours) {
        Some(p) => p,
        None => {
            return None;
        },
    };
    let ghost c1 = *calc;
    let ghost l1 = *log;
    let n: u32 = p.points.len() as u32;
    let slices: u32 = if d.slices < 1 {
        1
    } else {
        d.slices
    };
    proof {
        assert forall|m: Reading, e: EarReading|
            #![trigger c1.agrees(m), l1.agrees(e)]
            c1.agrees(m) && l1.agrees(e) implies n == start_of(
            shapes_of(m, rings(contours@)),
            shapes_of(m, rings(contours@)).len() as int,
        ) by {
            let v = shapes_of(m, rings(contours@));
            assert(is_prepared(m, e, v, p));
            lemma_points_len(m, v, v.len() as int);
        }
        assert(n * (slices + 1) <= 0xffff_ffff * 0x1_0000_0000) by (nonlinear_arith)
            requires
                0 <= n <= 0xffff_ffff,
                0 <= slices <= 0xffff_ffff,
        ;
    }
    let total: u64 = n as u64 * (slices as u64 + 1);
    if total > 0xffff_ffff {
        return None;
    }
    let verts = push_layers(calc, &p.points, d, slices);
    let mut tris: Vec<Triangle> = Vec::new();
    push_walls(&mut tris, &p.ranges, n, slices, Ghost(total as nat));
    proof {
        assert(n * (slices + 1) == slices * n + n) by (nonlinear_arith);
    }
    let top: u32 = slices * n;
    push_caps(&mut tris, &p.caps, n, top, Ghost(total as nat));
    Some(Mesh { verts, tris })
}

} // verus!
