//! The geometry kernel interface and the balanced reduction that kernels share.

use crate::error::GeomError;
use crate::mesh::{Mesh, Point3};
use vstd::arithmetic::power2::{lemma2_to64, lemma_pow2_unfold, pow2};
use vstd::prelude::*;

verus! {

/// A constructive-solid-geometry kernel over triangle meshes. Hosts supply
/// their own; nothing is promised of them.
pub trait Kernel {
    fn union(&self, meshes: Vec<Mesh>) -> Result<Mesh, GeomError>;

    fn difference(&self, base: Mesh, tools: Vec<Mesh>) -> Result<Mesh, GeomError>;

    fn intersection(&self, meshes: Vec<Mesh>) -> Result<Mesh, GeomError>;

    /// Convex hull of all vertices in the given meshes.
    fn hull(&self, meshes: Vec<Mesh>) -> Result<Mesh, GeomError>;
}

/// Names the portable kernel, which runs on every target.
#[derive(Clone, Copy, Debug, PartialEq, Eq, Structural)]
pub struct RustManifoldKernel;

impl RustManifoldKernel {
    pub fn new() -> (r: Self)
        ensures
            r == RustManifoldKernel,
    {
        RustManifoldKernel
    }
}

/// Names the native kernel.
#[derive(Clone, Copy, Debug, PartialEq, Eq, Structural)]
pub struct ManifoldKernel;

impl ManifoldKernel {
    pub fn new() -> (r: Self)
        ensures
            r == ManifoldKernel,
    {
        ManifoldKernel
    }
}

/// The vertices of the first `n` meshes, mesh after mesh.
pub open spec fn vertices_of(meshes: Seq<Mesh>, n: int) -> Seq<Point3>
    decreases n,
{
    if n <= 0 {
        Seq::empty()
    } else {
        vertices_of(meshes, n - 1) + meshes[n - 1]@.verts
    }
}

/// Collects every vertex from a set of meshes.
pub fn all_points(meshes: &Vec<Mesh>) -> (r: Vec<Point3>)
    ensures
        r@ == vertices_of(meshes@, meshes@.len() as int),
{
    let mut out: Vec<Point3> = Vec::new();
    for i in 0..meshes.len()
        invariant
            out@ == vertices_of(meshes@, i as int),
    {
        let ghost before = out@;
        let verts = &meshes[i].verts;
        for j in 0..verts.len()
            invariant
                out@ =~= before + verts@.take(j as int),
        {
            out.push(verts[j]);
        }
        assert(verts@.take(verts@.len() as int) =~= verts@);
    }
    out
}

/// `next` holds the neighbours of `items` combined two by two, and a last one
/// that has no neighbour as it is.
pub open spec fn paired<T, F: Fn(&T, &T) -> Result<T, GeomError>>(
    combine: F,
    items: Seq<T>,
    next: Seq<T>,
) -> bool {
    &&& next.len() == (items.len() + 1) / 2
    &&& forall|i: int|
        #![trigger next[i]]
        0 <= i && 2 * i + 1 < items.len() ==> call_ensures(
            combine,
            (&items[2 * i], &items[2 * i + 1]),
            Ok(next[i]),
        )
    &&& items.len() % 2 == 1 ==> next.last() == items.last()
}

/// Combining neighbours again and again can leave `out`.
pub open spec fn reduces<T, F: Fn(&T, &T) -> Result<T, GeomError>>(
    combine: F,
    items: Seq<T>,
    out: T,
) -> bool
    decreases items.len(),
{
    if items.len() == 0 {
        false
    } else if items.len() == 1 {
        out == items[0]
    } else {
        exists|next: Seq<T>|
            next.len() < items.len() && #[trigger] paired(combine, items, next) && reduces(
                combine,
                next,
                out,
            )
    }
}

/// The `i`-th two neighbours of `items` combine.
pub open spec fn pair_combines<T, F: Fn(&T, &T) -> Result<T, GeomError>>(
    combine: F,
    items: Seq<T>,
    i: int,
) -> bool {
    exists|c: T| #[trigger] call_ensures(combine, (&items[2 * i], &items[2 * i + 1]), Ok(c))
}

/// The first `k` neighbours of `items` combine, and the next two fail.
pub open spec fn pair_fails<T, F: Fn(&T, &T) -> Result<T, GeomError>>(
    combine: F,
    items: Seq<T>,
    k: int,
    e: GeomError,
) -> bool {
    &&& 0 <= k && 2 * k + 1 < items.len()
    &&& forall|i: int| 0 <= i < k ==> #[trigger] pair_combines(combine, items, i)
    &&& call_ensures(combine, (&items[2 * k], &items[2 * k + 1]), Err(e))
}

/// Combining neighbours again and again can fail with `e`.
pub open spec fn fails<T, F: Fn(&T, &T) -> Result<T, GeomError>>(
    combine: F,
    items: Seq<T>,
    e: GeomError,
) -> bool
    decreases items.len(),
{
    if items.len() < 2 {
        false
    } else {
        ||| exists|k: int| #[trigger] pair_fails(combine, items, k, e)
        ||| exists|next: Seq<T>|
            next.len() < items.len() && #[trigger] paired(combine, items, next) && fails(
                combine,
                next,
                e,
            )
    }
}

/// Combines neighbours two by two.
fn pair_up<T, F: Fn(&T, &T) -> Result<T, GeomError>>(items: Vec<T>, combine: &F) -> (r: Result<
    Vec<T>,
    GeomError,
>)
    requires
        forall|a: T, b: T| call_requires(combine, (&a, &b)),
    ensures
        match r {
            Ok(next) => paired(*combine, items@, next@),
            Err(e) => exists|k: int| #[trigger] pair_fails(*combine, items@, k, e),
        },
{
    let ghost all = items@;
    let n: usize = items.len();
    let mut rev: Vec<T> = Vec::new();
    let mut left = items;
    // Turned round, so that the first item comes off first.
    while left.len() > 0
        invariant
            n == all.len(),
            left@.len() + rev@.len() == n,
            forall|i: int| 0 <= i < left@.len() ==> #[trigger] left@[i] == all[i],
            forall|i: int| 0 <= i < rev@.len() ==> #[trigger] rev@[i] == all[n - 1 - i],
        decreases left.len(),
    {
        if let Some(x) = left.pop() {
            rev.push(x);
        }
    }
    let mut next: Vec<T> = Vec::new();
    while rev.len() > 1
        invariant
            all == items@,
            n == all.len(),
            forall|a: T, b: T| call_requires(combine, (&a, &b)),
            2 * next@.len() + rev@.len() == n,
            forall|i: int| 0 <= i < rev@.len() ==> #[trigger] rev@[i] == all[n - 1 - i],
            forall|i: int|
                0 <= i < next@.len() ==> call_ensures(
                    *combine,
                    (&all[2 * i], &all[2 * i + 1]),
                    Ok(#[trigger] next@[i]),
                ),
        decreases rev.len(),
    {
        let ghost k = next@.len() as int;
        let a = rev.pop();
        let b = rev.pop();
        if let Some(a) = a {
            if let Some(b) = b {
                assert(a == all[2 * k]);
                assert(b == all[2 * k + 1]);
                match combine(&a, &b) {
                    Ok(c) => {
                        next.push(c);
                    },
                    Err(e) => {
                        proof {
                            assert forall|i: int| 0 <= i < k implies #[trigger] pair_combines(
                                *combine,
                                all,
                                i,
                            ) by {
                                assert(call_ensures(
                                    *combine,
                                    (&all[2 * i], &all[2 * i + 1]),
                                    Ok(next@[i]),
                                ));
                            }
                        }
                        assert(pair_fails(*combine, all, k, e));
                        return Err(e);
                    },
                }
            }
        }
    }
    if let Some(a) = rev.pop() {
        next.push(a);
    }
    Ok(next)
}

/// Combines items pairwise in a balanced tree rather than one after another:
/// the intermediate operands stay small, and each item takes part in about as
/// many combinations as the number of items has binary digits.
pub fn balanced_reduce<T, F: Fn(&T, &T) -> Result<T, GeomError>>(
    items: Vec<T>,
    combine: F,
) -> (r: Result<Option<T>, GeomError>)
    requires
        forall|a: T, b: T| call_requires(combine, (&a, &b)),
    ensures
        match r {
            Ok(None) => items@.len() == 0,
            Ok(Some(out)) => reduces(combine, items@, out),
            Err(e) => fails(combine, items@, e),
        },
{
    reduce(items, &combine)
}

fn reduce<T, F: Fn(&T, &T) -> Result<T, GeomError>>(items: Vec<T>, combine: &F) -> (r: Result<
    Option<T>,
    GeomError,
>)
    requires
        forall|a: T, b: T| call_requires(combine, (&a, &b)),
    ensures
        match r {
            Ok(None) => items@.len() == 0,
            Ok(Some(out)) => reduces(*combine, items@, out),
            Err(e) => fails(*combine, items@, e),
        },
    decreases items@.len(),
{
    let mut items = items;
    if items.len() == 0 {
        return Ok(None);
    }
    if items.len() == 1 {
        return Ok(items.pop());
    }
    let ghost all = items@;
    match pair_up(items, combine) {
        Ok(next) => {
            assert(paired(*combine, all, next@));
            reduce(next, combine)
        },
        Err(e) => Err(e),
    }
}

/// Nothing combines to nothing, one item to itself, and two items to their
/// combination.
pub proof fn law_small_reductions<T, F: Fn(&T, &T) -> Result<T, GeomError>>(
    combine: F,
    a: T,
    b: T,
    out: T,
)
    ensures
        !reduces(combine, Seq::<T>::empty(), out),
        reduces(combine, seq![a], out) <==> out == a,
        reduces(combine, seq![a, b], out) <==> call_ensures(combine, (&a, &b), Ok(out)),
{
    reveal_with_fuel(reduces, 3);
    let two = seq![a, b];
    if reduces(combine, two, out) {
        let next = choose|next: Seq<T>|
            next.len() < two.len() && #[trigger] paired(combine, two, next) && reduces(
                combine,
                next,
                out,
            );
        assert(next[0] == out);
        assert(two[0] == a && two[1] == b);
    }
    if call_ensures(combine, (&a, &b), Ok(out)) {
        let next = seq![out];
        assert forall|i: int|
            #![trigger next[i]]
            0 <= i && 2 * i + 1 < two.len() implies call_ensures(
            combine,
            (&two[2 * i], &two[2 * i + 1]),
            Ok(next[i]),
        ) by {
            assert(i == 0);
        }
        assert(paired(combine, two, next));
        assert(reduces(combine, next, out));
    }
}

/// How many combinations reducing `n` items takes.
pub open spec fn combinations(n: nat) -> nat
    decreases n,
{
    if n < 2 {
        0
    } else {
        n / 2 + combinations((n + 1) / 2)
    }
}

/// How many rounds of combining neighbours reducing `n` items takes, which is how
/// deeply combinations are nested.
pub open spec fn rounds(n: nat) -> nat
    decreases n,
{
    if n < 2 {
        0
    } else {
        1 + rounds((n + 1) / 2)
    }
}

/// Reducing some items takes one combination less than there are items.
pub proof fn law_combinations(n: nat)
    requires
        n > 0,
    ensures
        combinations(n) == n - 1,
    decreases n,
{
    if n >= 2 {
        law_combinations((n + 1) / 2);
    }
}

/// Combinations are nested no deeper than the number of times that the number of
/// items can be halved, rounding up: `rounds` is its binary logarithm, rounded up.
pub proof fn law_rounds(n: nat)
    requires
        n > 0,
    ensures
        n <= pow2(rounds(n)),
        n > 1 ==> pow2((rounds(n) - 1) as nat) < n,
    decreases n,
{
    if n < 2 {
        lemma2_to64();
    } else {
        let half: nat = (n + 1) / 2;
        law_rounds(half);
        lemma_pow2_unfold(rounds(n));
        if half > 1 {
            lemma_pow2_unfold(rounds(half));
        } else {
            lemma2_to64();
        }
    }
}

/// One operation after the other, from the left.
pub open spec fn folded<T>(f: spec_fn(T, T) -> T, items: Seq<T>) -> T
    recommends
        items.len() > 0,
    decreases items.len(),
{
    if items.len() < 2 {
        items[0]
    } else {
        f(folded(f, items.drop_last()), items.last())
    }
}

proof fn lemma_pairs_fold<T, F: Fn(&T, &T) -> Result<T, GeomError>>(
    combine: F,
    f: spec_fn(T, T) -> T,
    items: Seq<T>,
    next: Seq<T>,
    k: int,
)
    requires
        paired(combine, items, next),
        forall|a: T, b: T, c: T| #[trigger] call_ensures(combine, (&a, &b), Ok(c)) ==> c == f(a, b),
        forall|a: T, b: T, c: T| #[trigger] f(f(a, b), c) == f(a, f(b, c)),
        1 <= k && 2 * k <= items.len(),
    ensures
        folded(f, next.take(k)) == folded(f, items.take(2 * k)),
    decreases k,
{
    let x = items[2 * k - 2];
    let y = items[2 * k - 1];
    assert(call_ensures(
        combine,
        (&items[2 * (k - 1)], &items[2 * (k - 1) + 1]),
        Ok(next[k - 1]),
    ));
    assert(next[k - 1] == f(x, y));
    let all = items.take(2 * k);
    assert(all.drop_last() =~= items.take(2 * k - 1));
    assert(all.drop_last().drop_last() =~= items.take(2 * k - 2));
    assert(next.take(k).drop_last() =~= next.take(k - 1));
    if k == 1 {
        reveal_with_fuel(folded, 3);
    } else {
        lemma_pairs_fold(combine, f, items, next, k - 1);
        assert(folded(f, all) == f(folded(f, all.drop_last()), y));
        assert(folded(f, all.drop_last()) == f(folded(f, all.drop_last().drop_last()), x));
        let head = folded(f, items.take(2 * k - 2));
        assert(f(f(head, x), y) == f(head, f(x, y)));
    }
}

/// Where the combination is associative, reducing gives what combining one item
/// after the other gives.
pub proof fn law_reduction_is_a_fold<T, F: Fn(&T, &T) -> Result<T, GeomError>>(
    combine: F,
    f: spec_fn(T, T) -> T,
    items: Seq<T>,
    out: T,
)
    requires
        forall|a: T, b: T, c: T| #[trigger] call_ensures(combine, (&a, &b), Ok(c)) ==> c == f(a, b),
        forall|a: T, b: T, c: T| #[trigger] f(f(a, b), c) == f(a, f(b, c)),
        reduces(combine, items, out),
    ensures
        out == folded(f, items),
    decreases items.len(),
{
    if items.len() > 1 {
        let next = choose|next: Seq<T>|
            next.len() < items.len() && #[trigger] paired(combine, items, next) && reduces(
                combine,
                next,
                out,
            );
        law_reduction_is_a_fold(combine, f, next, out);
        let k: int = (items.len() / 2) as int;
        lemma_pairs_fold(combine, f, items, next, k);
        if items.len() % 2 == 0 {
            assert(next.take(k) =~= next);
            assert(items.take(2 * k) =~= items);
        } else {
            assert(next.drop_last() =~= next.take(k));
            assert(items.drop_last() =~= items.take(2 * k));
        }
    }
}

} // verus!
