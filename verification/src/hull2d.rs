//! Convex hulls in the plane.

use crate::clip::same_point;
use crate::contours::rings;
use crate::node::Point2;
use crate::num::{equals, is_at_most, at_most, place, Arithmetic, Calc, Reading, SIGN, ZERO};
use crate::planar::{cross2, turn_of};
use crate::rank::{sorted, Ranked};
use vstd::prelude::*;

verus! {

/// The `i`-th point stands before the `j`-th: by x, by y, and else as listed.
pub open spec fn stands_before(pts: Seq<Point2>, i: int, j: int) -> bool {
    let a = pts[i];
    let b = pts[j];
    place(a.x) < place(b.x) || (place(a.x) == place(b.x) && (place(a.y) < place(b.y) || (place(a.y)
        == place(b.y) && i < j)))
}

/// `order` lists all points, each once, in order.
pub open spec fn is_order(pts: Seq<Point2>, order: Seq<int>) -> bool {
    &&& forall|i: int| #[trigger] order.contains(i) <==> 0 <= i < pts.len()
    &&& forall|i: int, j: int|
        #![trigger order[i], order[j]]
        0 <= i < j < order.len() ==> stands_before(pts, order[i], order[j])
}

/// The places of the points in order.
pub open spec fn order_of(pts: Seq<Point2>) -> Seq<int> {
    choose|o: Seq<int>| is_order(pts, o)
}

/// The points in order.
pub open spec fn in_order(pts: Seq<Point2>) -> Seq<Point2> {
    order_of(pts).map_values(|i: int| pts[i])
}

/// The first `n` points without those equal to the point before.
pub open spec fn distinct(v: Seq<Point2>, n: int) -> Seq<Point2>
    decreases n,
{
    if n <= 0 {
        Seq::empty()
    } else {
        let done = distinct(v, n - 1);
        if done.len() > 0 && same_point(done.last(), v[n - 1]) {
            done
        } else {
            done.push(v[n - 1])
        }
    }
}

/// A chain without the points at its end that do not turn left towards `p`.
pub open spec fn bent_back(m: Reading, chain: Seq<Point2>, p: Point2) -> Seq<Point2>
    decreases chain.len(),
{
    let n = chain.len() as int;
    if n >= 2 && at_most(turn_of(m, chain[n - 2], chain[n - 1], p), ZERO) {
        bent_back(m, chain.drop_last(), p)
    } else {
        chain
    }
}

/// The chain that turns left all along, over the first `n` points.
pub open spec fn chain_of(m: Reading, v: Seq<Point2>, n: int) -> Seq<Point2>
    decreases n,
{
    if n <= 0 {
        Seq::empty()
    } else {
        bent_back(m, chain_of(m, v, n - 1), v[n - 1]).push(v[n - 1])
    }
}

/// The hull of points as outlines: one, counter-clockwise, or none where there
/// are less than three different points.
pub open spec fn flat_hull(m: Reading, pts: Seq<Point2>) -> Seq<Seq<Point2>> {
    let s = in_order(pts);
    let v = distinct(s, s.len() as int);
    if v.len() < 3 {
        Seq::empty()
    } else {
        let n = v.len() as int;
        seq![chain_of(m, v, n).drop_last() + chain_of(m, v.reverse(), n).drop_last()]
    }
}

struct Tagged {
    point: Point2,
    at: usize,
}

impl Ranked for Tagged {
    closed spec fn rank_le(&self, other: &Self) -> bool {
        place(self.point.x) < place(other.point.x) || (place(self.point.x) == place(other.point.x)
            && (place(self.point.y) < place(other.point.y) || (place(self.point.y) == place(
            other.point.y,
        ) && self.at <= other.at)))
    }

    proof fn rank_total(a: &Self, b: &Self) {
    }

    proof fn rank_transitive(a: &Self, b: &Self, c: &Self) {
    }

    fn ranks_before(&self, other: &Self) -> (r: bool) {
        let x: i8 = sides(self.point.x, other.point.x);
        let y: i8 = sides(self.point.y, other.point.y);
        let r: bool = x < 0 || (x == 0 && (y < 0 || (y == 0 && self.at <= other.at)));
        assert(self.rank_le(other) == r);
        r
    }
}

/// Which of two numbers stands first: -1, 0 or 1.
fn sides(a: u64, b: u64) -> (r: i8)
    ensures
        place(a) < place(b) ==> r == -1,
        place(a) == place(b) ==> r == 0,
        place(a) > place(b) ==> r == 1,
{
    if a >= SIGN {
        let x: u64 = a - SIGN;
        if b >= SIGN {
            let y: u64 = b - SIGN;
            if x > y {
                -1
            } else if x == y {
                0
            } else {
                1
            }
        } else if x == 0 && b == 0 {
            0
        } else {
            -1
        }
    } else {
        if b >= SIGN {
            let y: u64 = b - SIGN;
            if y == 0 && a == 0 {
                0
            } else {
                1
            }
        } else if a < b {
            -1
        } else if a == b {
            0
        } else {
            1
        }
    }
}

proof fn lemma_order_unique(pts: Seq<Point2>, a: Seq<int>, b: Seq<int>)
    requires
        forall|i: int, j: int|
            #![trigger a[i], a[j]]
            0 <= i < j < a.len() ==> stands_before(pts, a[i], a[j]),
        forall|i: int, j: int|
            #![trigger b[i], b[j]]
            0 <= i < j < b.len() ==> stands_before(pts, b[i], b[j]),
        forall|w: int| #[trigger] a.contains(w) <==> b.contains(w),
    ensures
        a == b,
    decreases a.len(),
{
    if a.len() == 0 {
        if b.len() > 0 {
            assert(b.contains(b[0]));
            assert(a.contains(b[0]));
        }
        assert(a =~= b);
    } else if b.len() == 0 {
        assert(a.contains(a[0]));
    } else {
        let x = a.last();
        let y = b.last();
        assert(a.contains(x));
        assert(b.contains(y));
        assert(a.contains(y));
        let i = choose|i: int| 0 <= i < b.len() && b[i] == x;
        let j = choose|j: int| 0 <= j < a.len() && a[j] == y;
        assert(x == y) by {
            if i < b.len() - 1 {
                assert(stands_before(pts, b[i], b[b.len() - 1]));
                if j < a.len() - 1 {
                    assert(stands_before(pts, a[j], a[a.len() - 1]));
                }
            }
        }
        let c = a.drop_last();
        let d = b.drop_last();
        assert forall|w: int| #[trigger] c.contains(w) <==> d.contains(w) by {
            if c.contains(w) {
                let k = choose|k: int| 0 <= k < c.len() && c[k] == w;
                assert(stands_before(pts, a[k], a[a.len() - 1]));
                assert(a[k] == w);
                assert(a.contains(w));
                let l = choose|l: int| 0 <= l < b.len() && b[l] == w;
                assert(l < b.len() - 1);
                assert(d[l] == w);
            }
            if d.contains(w) {
                let k = choose|k: int| 0 <= k < d.len() && d[k] == w;
                assert(stands_before(pts, b[k], b[b.len() - 1]));
                assert(b[k] == w);
                assert(b.contains(w));
                assert(a.contains(w));
                let l = choose|l: int| 0 <= l < a.len() && a[l] == w;
                assert(l < a.len() - 1);
                assert(c[l] == w);
            }
        }
        lemma_order_unique(pts, c, d);
        assert(a =~= c.push(x));
        assert(b =~= d.push(y));
    }
}

/// The tags of points.
spec fn tags_of(pts: Seq<Point2>) -> Seq<Tagged> {
    Seq::new(pts.len(), |i: int| Tagged { point: pts[i], at: i as usize })
}

fn arrange(pts: &Vec<Point2>) -> (r: Vec<Point2>)
    ensures
        r@ == in_order(pts@),
{
    let mut tags: Vec<Tagged> = Vec::new();
    for i in 0..pts.len()
        invariant
            tags@ =~= tags_of(pts@).take(i as int),
    {
        tags.push(Tagged { point: pts[i], at: i });
    }
    assert(tags@ =~= tags_of(pts@));
    let list = sorted(tags);
    let ghost lv = list@;
    let ghost order = Seq::new(lv.len(), |i: int| lv[i].at as int);
    let ghost tv = tags_of(pts@);
    proof {
        lv.to_multiset_ensures();
        tv.to_multiset_ensures();
        assert forall|i: int| 0 <= i < lv.len() implies 0 <= (#[trigger] lv[i]).at < pts@.len()
            && lv[i].point == pts@[lv[i].at as int] by {
            assert(lv.to_multiset().count(lv[i]) > 0);
            assert(tv.contains(lv[i]));
        }
        lemma_distinct(tv, lv);
        assert forall|i: int, j: int|
            #![trigger order[i], order[j]]
            0 <= i < j < order.len() implies stands_before(pts@, order[i], order[j]) by {
            assert(lv[i].rank_le(&lv[j]));
            assert(lv[i].at != lv[j].at);
            assert(lv[i].point == pts@[lv[i].at as int]);
            assert(lv[j].point == pts@[lv[j].at as int]);
        }
        assert forall|i: int| #[trigger] order.contains(i) <==> 0 <= i < pts@.len() by {
            if order.contains(i) {
                let k = choose|k: int| 0 <= k < order.len() && order[k] == i;
                assert(lv[k].at == i);
            }
            if 0 <= i < pts@.len() {
                assert(tv.to_multiset().count(tv[i]) > 0);
                assert(lv.contains(tv[i]));
                let k = choose|k: int| 0 <= k < lv.len() && lv[k] == tv[i];
                assert(order[k] == i);
            }
        }
        assert(is_order(pts@, order));
        let o = order_of(pts@);
        assert(is_order(pts@, o));
        assert forall|w: int| #[trigger] o.contains(w) <==> order.contains(w) by {
            assert(order.contains(w) <==> 0 <= w < pts@.len());
        }
        lemma_order_unique(pts@, o, order);
    }
    let mut out: Vec<Point2> = Vec::new();
    for i in 0..list.len()
        invariant
            lv == list@,
            out@.len() == i,
            forall|k: int| 0 <= k < i ==> #[trigger] out@[k] == lv[k].point,
    {
        out.push(list[i].point);
    }
    proof {
        assert forall|k: int| 0 <= k < out@.len() implies #[trigger] out@[k] == in_order(pts@)[k] by {
            assert(lv[k].point == pts@[lv[k].at as int]);
            assert(order[k] == lv[k].at);
        }
        assert(out@ =~= in_order(pts@));
    }
    out
}

proof fn lemma_distinct(raw: Seq<Tagged>, out: Seq<Tagged>)
    requires
        raw.to_multiset() =~= out.to_multiset(),
        forall|i: int| 0 <= i < raw.len() ==> (#[trigger] raw[i]).at == i,
    ensures
        forall|i: int, j: int|
            #![trigger out[i], out[j]]
            0 <= i < j < out.len() ==> out[i].at != out[j].at,
{
    raw.to_multiset_ensures();
    out.to_multiset_ensures();
    assert(raw.no_duplicates());
    raw.lemma_multiset_has_no_duplicates();
    assert forall|x: Tagged| out.to_multiset().contains(x) implies out.to_multiset().count(x) == 1 by {
        assert(raw.to_multiset().contains(x));
    }
    out.lemma_multiset_has_no_duplicates_conv();
    assert forall|i: int, j: int|
        #![trigger out[i], out[j]]
        0 <= i < j < out.len() implies out[i].at != out[j].at by {
        if out[i].at == out[j].at {
            assert(out.to_multiset().count(out[i]) > 0);
            assert(raw.to_multiset().count(out[i]) > 0);
            assert(raw.contains(out[i]));
            assert(out.to_multiset().count(out[j]) > 0);
            assert(raw.contains(out[j]));
            let a = choose|a: int| 0 <= a < raw.len() && raw[a] == out[i];
            let b = choose|b: int| 0 <= b < raw.len() && raw[b] == out[j];
            assert(a == b);
            assert(out[i] == out[j]);
        }
    }
}

fn drop_repeats(v: &Vec<Point2>) -> (r: Vec<Point2>)
    ensures
        r@ == distinct(v@, v@.len() as int),
{
    let mut out: Vec<Point2> = Vec::new();
    let mut i: usize = 0;
    while i < v.len()
        invariant
            i <= v@.len(),
            out@ =~= distinct(v@, i as int),
        decreases v.len() - i,
    {
        let n: usize = out.len();
        let repeat: bool = n > 0 && equals(out[n - 1].x, v[i].x) && equals(out[n - 1].y, v[i].y);
        if !repeat {
            out.push(v[i]);
        }
        i = i + 1;
    }
    out
}

fn build_chain<A: Arithmetic>(calc: &mut Calc<A>, v: &Vec<Point2>, backward: bool) -> (r: Vec<Point2>)
    ensures
        v@.len() > 0 ==> r@.len() > 0,
        forall|m: Reading| #[trigger]
            final(calc).agrees(m) ==> old(calc).agrees(m) && r@ == chain_of(
                m,
                if backward {
                    v@.reverse()
                } else {
                    v@
                },
                v@.len() as int,
            ),
{
    let n: usize = v.len();
    let ghost vv = if backward {
        v@.reverse()
    } else {
        v@
    };
    let mut chain: Vec<Point2> = Vec::new();
    let mut i: usize = 0;
    while i < n
        invariant
            n == v@.len(),
            i <= n,
            vv == (if backward {
                v@.reverse()
            } else {
                v@
            }),
            i > 0 ==> chain@.len() > 0,
            forall|m: Reading| #[trigger]
                calc.agrees(m) ==> old(calc).agrees(m) && chain@ == chain_of(m, vv, i as int),
        decreases n - i,
    {
        let p = if backward {
            v[n - 1 - i]
        } else {
            v[i]
        };
        assert(p == vv[i as int]);
        let ghost c0 = *calc;
        let ghost start = chain@;
        let mut going: bool = true;
        while going && chain.len() >= 2
            invariant
                forall|m: Reading| #[trigger]
                    calc.agrees(m) ==> c0.agrees(m) && bent_back(m, start, p) == if going {
                        bent_back(m, chain@, p)
                    } else {
                        chain@
                    },
            decreases chain.len() + if going {
                1int
            } else {
                0int
            },
        {
            let k: usize = chain.len();
            let t: u64 = cross2(calc, chain[k - 2], chain[k - 1], p);
            if is_at_most(t, ZERO) {
                let ghost held = chain@;
                chain.pop();
                assert(chain@ =~= held.drop_last());
            } else {
                going = false;
            }
        }
        chain.push(p);
        i = i + 1;
    }
    chain
}

/// The hull of points as outlines: one, or none where there are less than three
/// different points.
pub fn hull_2d<A: Arithmetic>(calc: &mut Calc<A>, pts: &Vec<Point2>) -> (r: Vec<Vec<Point2>>)
    ensures
        forall|m: Reading| #[trigger]
            final(calc).agrees(m) ==> old(calc).agrees(m) && rings(r@) == flat_hull(m, pts@),
{
    let s = arrange(pts);
    let v = drop_repeats(&s);
    let mut out: Vec<Vec<Point2>> = Vec::new();
    if v.len() < 3 {
        assert(rings(out@) =~= Seq::empty());
        return out;
    }
    let mut lower = build_chain(calc, &v, false);
    let mut upper = build_chain(calc, &v, true);
    let ghost lv = lower@;
    let ghost uv = upper@;
    lower.pop();
    upper.pop();
    lower.append(&mut upper);
    assert(lower@ =~= lv.drop_last() + uv.drop_last());
    let ghost ring = lower@;
    out.push(lower);
    assert(rings(out@) =~= seq![ring]);
    out
}

} // verus!
