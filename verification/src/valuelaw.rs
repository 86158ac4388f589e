//! What operators and functions of the language are for, in exact arithmetic where
//! they compute.

use crate::builtins::{
    between, builtin_of, char_of, char_text, chrs_of, concatenated, cosine, drawn, first_pair, hits,
    is_scalar, last_pair, lemma_numbers_from, matches_of, norm_of, numbers, numbers_of, of_one,
    pair_above, pair_below, reduced, sine, squares, turned_once, version_number, Builtin,
    SearchPlan, TablePair, DEG180, DEG270, DEG90, HUNDRED, TEN_THOUSAND, TWO53,
};
use crate::exact::{
    exact, lemma_add, lemma_div, lemma_mul, lemma_neg, lemma_own, lemma_products, lemma_ring,
    lemma_same, lemma_sub, Numbers,
};
use crate::iterate::{in_range, indexed, place_of, range_from, range_item};
use crate::num::{at_most, less, nan, negative, same, zero, NumOp, Reading, ONE, ZERO};
use crate::value::{
    all_numbers, binary_of, column_sum, dot_sum, dottable, is_matrix, number_of, row,
    rows_of_length, unary_of, BinOp, UnOp, Val,
};
use crate::vector::MINUS_ONE;
use vstd::prelude::*;

verus! {

// ---- operators ---------------------------------------------------------------------------------

/// The value is a number, this one.
pub open spec fn counts(n: Numbers, v: Val, a: int) -> bool {
    v matches Val::Number(x) && n.same((n.of)(x), a)
}

/// Of two numbers, the operators give the sum, the difference, the product and the
/// quotient.
pub proof fn law_number_operators(m: Reading, n: Numbers, a: u64, b: u64)
    requires
        exact(m, n),
    ensures
        ({
            let (x, y) = (Val::Number(a), Val::Number(b));
            let (p, q) = ((n.of)(a), (n.of)(b));
            &&& counts(n, binary_of(m, BinOp::Add, x, y), p + q)
            &&& counts(n, binary_of(m, BinOp::Sub, x, y), p - q)
            &&& counts(n, binary_of(m, BinOp::Mul, x, y), p * q)
            &&& n.divides(q) ==> (binary_of(m, BinOp::Div, x, y) matches Val::Number(r) && n.same(
                (n.of)(r) * q,
                p,
            ))
            &&& counts(n, unary_of(UnOp::Neg, x), -p)
            &&& unary_of(UnOp::Pos, x) == x
        }),
{
    lemma_own(m, n);
    lemma_add(m, n, a, b, (n.of)(a), (n.of)(b));
    lemma_sub(m, n, a, b, (n.of)(a), (n.of)(b));
    lemma_mul(m, n, a, b, (n.of)(a), (n.of)(b));
    lemma_neg(m, n, a, (n.of)(a));
    if n.divides((n.of)(b)) {
        lemma_div(m, n, a, b, (n.of)(a), (n.of)(b));
    }
}

/// The operator works item by item.
pub open spec fn item_by_item(m: Reading, op: BinOp, x: Seq<Val>, y: Seq<Val>, r: Val) -> bool {
    r matches Val::Vector(v) && v.len() == x.len() && forall|i: int|
        0 <= i < x.len() ==> #[trigger] v[i] == binary_of(m, op, x[i], y[i])
}

/// Lists of the same length are added and subtracted item by item; others not at
/// all.
pub proof fn law_lists_add(m: Reading, x: Seq<Val>, y: Seq<Val>)
    ensures
        x.len() == y.len() ==> item_by_item(
            m,
            BinOp::Add,
            x,
            y,
            binary_of(m, BinOp::Add, Val::Vector(x), Val::Vector(y)),
        ),
        x.len() == y.len() ==> item_by_item(
            m,
            BinOp::Sub,
            x,
            y,
            binary_of(m, BinOp::Sub, Val::Vector(x), Val::Vector(y)),
        ),
        x.len() != y.len() ==> binary_of(m, BinOp::Add, Val::Vector(x), Val::Vector(y))
            == Val::Undef && binary_of(m, BinOp::Sub, Val::Vector(x), Val::Vector(y)) == Val::Undef,
{
}

/// A list times a number, from either side, a list divided by one, and a list with
/// the other sign are so item by item.
pub proof fn law_lists_scale(m: Reading, s: u64, x: Seq<Val>, i: int)
    requires
        0 <= i < x.len(),
        x[i] is Number || x[i] is Vector,
    ensures
        ({
            let (k, v) = (Val::Number(s), Val::Vector(x));
            &&& binary_of(m, BinOp::Mul, k, v) == binary_of(m, BinOp::Mul, v, k)
            &&& binary_of(m, BinOp::Mul, k, v) matches Val::Vector(r) && r.len() == x.len() && r[i]
                == binary_of(m, BinOp::Mul, k, x[i])
            &&& binary_of(m, BinOp::Div, v, k) matches Val::Vector(r) && r.len() == x.len() && r[i]
                == binary_of(m, BinOp::Div, x[i], k)
            &&& unary_of(UnOp::Neg, v) matches Val::Vector(r) && r.len() == x.len() && r[i]
                == unary_of(UnOp::Neg, x[i])
        }),
{
}

/// The number in a value.
pub open spec fn worth(n: Numbers, v: Val) -> int {
    (n.of)(v->Number_0)
}

/// The sum of the products of the first `k` items.
pub open spec fn product_sum(n: Numbers, a: Seq<Val>, b: Seq<Val>, k: int) -> int
    decreases k,
{
    if k <= 0 {
        0
    } else {
        product_sum(n, a, b, k - 1) + worth(n, a[k - 1]) * worth(n, b[k - 1])
    }
}

proof fn lemma_dot_sum(m: Reading, n: Numbers, a: Seq<Val>, b: Seq<Val>, k: int)
    requires
        exact(m, n),
    ensures
        n.same((n.of)(dot_sum(m, a, b, k)), product_sum(n, a, b, k)),
    decreases k,
{
    lemma_own(m, n);
    if k > 0 {
        lemma_dot_sum(m, n, a, b, k - 1);
        let (x, y) = (a[k - 1]->Number_0, b[k - 1]->Number_0);
        lemma_mul(m, n, x, y, (n.of)(x), (n.of)(y));
        lemma_add(
            m,
            n,
            dot_sum(m, a, b, k - 1),
            m.at(NumOp::Mul, x, y),
            product_sum(n, a, b, k - 1),
            (n.of)(x) * (n.of)(y),
        );
    }
}

/// The product of two lists of numbers is their scalar product.
pub proof fn law_vectors_multiply(m: Reading, n: Numbers, a: Seq<Val>, b: Seq<Val>)
    requires
        exact(m, n),
        dottable(a, b),
    ensures
        counts(
            n,
            binary_of(m, BinOp::Mul, Val::Vector(a), Val::Vector(b)),
            product_sum(n, a, b, a.len() as int),
        ),
{
    assert(a[0] is Number && b[0] is Number);
    lemma_dot_sum(m, n, a, b, a.len() as int);
}

/// A matrix times a vector holds the product of each row with the vector.
pub proof fn law_matrix_times_vector(m: Reading, a: Seq<Val>, b: Seq<Val>, i: int)
    requires
        0 <= i < a.len(),
        forall|k: int| 0 <= k < a.len() ==> (#[trigger] a[k]) is Vector && dottable(row(a, k), b),
    ensures
        binary_of(m, BinOp::Mul, Val::Vector(a), Val::Vector(b)) matches Val::Vector(r) && r.len()
            == a.len() && r[i] == binary_of(m, BinOp::Mul, a[i], Val::Vector(b)),
{
    assert(a[0] is Vector && dottable(row(a, 0), b));
    assert(a[i] is Vector && dottable(row(a, i), b));
    assert(row(a, i)[0] is Number);
    assert(b[0] is Number);
}

/// A matrix times a matrix holds the product of each row with the second matrix.
pub proof fn law_matrices_multiply(m: Reading, a: Seq<Val>, b: Seq<Val>, i: int)
    requires
        0 <= i < a.len(),
        is_matrix(a),
        is_matrix(b),
        rows_of_length(a, b.len() as int),
        rows_of_length(b, row(b, 0).len() as int),
    ensures
        binary_of(m, BinOp::Mul, Val::Vector(a), Val::Vector(b)) matches Val::Vector(r) && r.len()
            == a.len() && r[i] == binary_of(m, BinOp::Mul, a[i], Val::Vector(b)),
{
    assert(a[0] is Vector && b[0] is Vector && a[i] is Vector);
    assert(row(a, i).len() == b.len());
    assert(row(a, i)[0] is Number);
}

/// The sum of the products of weights with a column of a matrix.
pub open spec fn weighted_sum(n: Numbers, w: Seq<Val>, b: Seq<Val>, j: int, k: int) -> int
    decreases k,
{
    if k <= 0 {
        0
    } else {
        weighted_sum(n, w, b, j, k - 1) + worth(n, w[k - 1]) * worth(n, row(b, k - 1)[j])
    }
}

proof fn lemma_column_sum(m: Reading, n: Numbers, w: Seq<Val>, b: Seq<Val>, j: int, k: int)
    requires
        exact(m, n),
    ensures
        n.same((n.of)(column_sum(m, w, b, j, k)), weighted_sum(n, w, b, j, k)),
    decreases k,
{
    lemma_own(m, n);
    if k > 0 {
        lemma_column_sum(m, n, w, b, j, k - 1);
        let (x, y) = (w[k - 1]->Number_0, row(b, k - 1)[j]->Number_0);
        lemma_mul(m, n, x, y, (n.of)(x), (n.of)(y));
        lemma_add(
            m,
            n,
            column_sum(m, w, b, j, k - 1),
            m.at(NumOp::Mul, x, y),
            weighted_sum(n, w, b, j, k - 1),
            (n.of)(x) * (n.of)(y),
        );
    }
}

/// A vector times a matrix holds, for each column, the sum of the products of the
/// vector with the column.
pub proof fn law_vector_times_matrix(m: Reading, n: Numbers, w: Seq<Val>, b: Seq<Val>, j: int)
    requires
        exact(m, n),
        is_matrix(b),
        w.len() == b.len(),
        all_numbers(w),
        rows_of_length(b, row(b, 0).len() as int),
        0 <= j < row(b, 0).len(),
    ensures
        binary_of(m, BinOp::Mul, Val::Vector(w), Val::Vector(b)) matches Val::Vector(r) && r.len()
            == row(b, 0).len() && counts(n, r[j], weighted_sum(n, w, b, j, b.len() as int)),
{
    assert(w[0] is Number && b[0] is Vector);
    lemma_column_sum(m, n, w, b, j, b.len() as int);
}

/// Logic: the negation of a conjunction is the disjunction of the negations, two
/// negations are none, and inequality is the negation of equality.
pub proof fn law_logic(m: Reading, a: Val, b: Val)
    ensures
        unary_of(UnOp::Not, binary_of(m, BinOp::And, a, b)) == binary_of(
            m,
            BinOp::Or,
            unary_of(UnOp::Not, a),
            unary_of(UnOp::Not, b),
        ),
        binary_of(m, BinOp::And, a, Val::Bool(true)) == unary_of(
            UnOp::Not,
            unary_of(UnOp::Not, a),
        ),
        binary_of(m, BinOp::Or, a, Val::Bool(false)) == unary_of(UnOp::Not, unary_of(UnOp::Not, a)),
        binary_of(m, BinOp::And, a, Val::Bool(false)) == Val::Bool(false),
        binary_of(m, BinOp::Ne, a, b) == unary_of(UnOp::Not, binary_of(m, BinOp::Eq, a, b)),
{
}

/// Two numbers compare by their size: exactly one of less, equal and greater holds,
/// and the others are made of these.
pub proof fn law_numbers_compare(m: Reading, a: u64, b: u64)
    requires
        !nan(a),
        !nan(b),
    ensures
        ({
            let (x, y) = (Val::Number(a), Val::Number(b));
            let is = |op: BinOp, l: Val, r: Val| binary_of(m, op, l, r) == Val::Bool(true);
            &&& is(BinOp::Lt, x, y) <==> less(a, b)
            &&& is(BinOp::Gt, x, y) <==> less(b, a)
            &&& is(BinOp::Eq, x, y) <==> !less(a, b) && !less(b, a)
            &&& is(BinOp::Le, x, y) <==> is(BinOp::Lt, x, y) || is(BinOp::Eq, x, y)
            &&& is(BinOp::Ge, x, y) <==> is(BinOp::Gt, x, y) || is(BinOp::Eq, x, y)
            &&& is(BinOp::Ge, x, y) <==> is(BinOp::Le, y, x)
        }),
{
}

// ---- numbers -----------------------------------------------------------------------------------

proof fn lemma_minus_one(m: Reading, n: Numbers)
    requires
        exact(m, n),
    ensures
        n.same((n.of)(MINUS_ONE), -1),
{
    lemma_neg(m, n, ONE, 1);
    assert(negative(ONE) == MINUS_ONE);
}

/// A number is its size with its sign.
pub proof fn law_sign_and_size(m: Reading, n: Numbers, x: u64)
    requires
        exact(m, n),
        !nan(x),
    ensures
        of_one(m, Builtin::Abs, x) matches Some(size) && of_one(m, Builtin::Sign, x) matches Some(
            sign,
        ) && n.same((n.of)(sign) * (n.of)(size), (n.of)(x)) && !less(size, ZERO),
{
    lemma_own(m, n);
    lemma_minus_one(m, n);
    let size = of_one(m, Builtin::Abs, x)->0;
    let sign = of_one(m, Builtin::Sign, x)->0;
    let a = (n.of)(x);
    if less(ZERO, x) {
        assert(size == x);
        lemma_ring(n, (n.of)(sign), 1, (n.of)(size), a);
    } else if less(x, ZERO) {
        assert(size == negative(x));
        lemma_neg(m, n, x, a);
        lemma_ring(n, (n.of)(sign), -1, (n.of)(size), -a);
        assert((-1) * (-a) == a);
    } else {
        assert(zero(x));
        let s = (n.of)(size);
        lemma_same(n, s, s, s);
        lemma_ring(n, (n.of)(sign), 0, s, s);
        assert(0 * s == 0);
        lemma_same(n, a, 0, 0);
        lemma_same(n, (n.of)(sign) * s, 0, a);
    }
}

/// The sine and the cosine of every angle lie on the unit circle, where those of the
/// machine do, and are exact at the quadrants.
pub proof fn law_sine_and_cosine(m: Reading, n: Numbers, x: u64)
    requires
        exact(m, n),
        forall|t: u64|
            n.same(
                (n.of)(#[trigger] m.at(NumOp::Sin, t, 0)) * (n.of)(m.at(NumOp::Sin, t, 0)) + (n.of)(
                    m.at(NumOp::Cos, t, 0),
                ) * (n.of)(m.at(NumOp::Cos, t, 0)),
                1,
            ),
    ensures
        n.same(
            (n.of)(sine(m, x)) * (n.of)(sine(m, x)) + (n.of)(cosine(m, x)) * (n.of)(cosine(m, x)),
            1,
        ),
        same(turned_once(m, x), ZERO) ==> sine(m, x) == ZERO && cosine(m, x) == ONE,
        same(turned_once(m, x), DEG90) ==> sine(m, x) == ONE && cosine(m, x) == ZERO,
        same(turned_once(m, x), DEG180) ==> sine(m, x) == ZERO && cosine(m, x) == MINUS_ONE,
        same(turned_once(m, x), DEG270) ==> sine(m, x) == MINUS_ONE && cosine(m, x) == ZERO,
{
    lemma_own(m, n);
    lemma_minus_one(m, n);
    let (z, o, w) = ((n.of)(ZERO), (n.of)(ONE), (n.of)(MINUS_ONE));
    lemma_products(n, z, z, o, o, 0, 0, 1, 1);
    lemma_products(n, o, o, z, z, 1, 1, 0, 0);
    lemma_products(n, z, z, w, w, 0, 0, -1, -1);
    lemma_products(n, w, w, z, z, -1, -1, 0, 0);
    assert((-1int) * (-1int) == 1);
}

/// An angle is brought into one turn by whole turns: it is the remainder, with one
/// turn added where that is negative.
pub proof fn law_one_turn(m: Reading, n: Numbers, x: u64)
    requires
        exact(m, n),
    ensures
        ({
            let rest = m.at(NumOp::Rem, x, crate::tessellate::FULL_TURN);
            let a = (n.of)(turned_once(m, x));
            let turn = (n.of)(crate::tessellate::FULL_TURN);
            &&& less(rest, ZERO) ==> n.same(a, (n.of)(rest) + turn)
            &&& !less(rest, ZERO) ==> n.same(a, (n.of)(rest))
        }),
{
    lemma_own(m, n);
    let rest = m.at(NumOp::Rem, x, crate::tessellate::FULL_TURN);
    let turn = crate::tessellate::FULL_TURN;
    lemma_add(m, n, rest, turn, (n.of)(rest), (n.of)(turn));
}

/// The greatest of some numbers is one of them, and none is greater; and so for the
/// least.
pub proof fn law_extremes(v: Seq<u64>, up: bool, k: int)
    requires
        0 < k <= v.len(),
        forall|i: int| 0 <= i < v.len() ==> !nan(#[trigger] v[i]),
    ensures
        exists|i: int| 0 <= i < k && #[trigger] v[i] == reduced(v, up, k),
        forall|i: int|
            0 <= i < k ==> if up {
                !less(reduced(v, up, k), #[trigger] v[i])
            } else {
                !less(v[i], reduced(v, up, k))
            },
    decreases k,
{
    assert(!nan(v[0]));
    if k > 1 {
        law_extremes(v, up, k - 1);
        let j = choose|i: int| 0 <= i < k - 1 && #[trigger] v[i] == reduced(v, up, k - 1);
        assert(!nan(v[j]) && !nan(v[k - 1]));
        assert(v[j] == reduced(v, up, k - 1));
        assert forall|i: int| 0 <= i < k implies if up {
            !less(reduced(v, up, k), #[trigger] v[i])
        } else {
            !less(v[i], reduced(v, up, k))
        } by {
            assert(!nan(v[i]));
        }
        if reduced(v, up, k) == v[k - 1] {
            assert(v[k - 1] == reduced(v, up, k));
        } else {
            assert(v[j] == reduced(v, up, k));
        }
    } else {
        assert(v[0] == reduced(v, up, k));
    }
}

/// The sum of the squares of the first `k` numbers.
pub open spec fn square_sum(n: Numbers, v: Seq<u64>, k: int) -> int
    decreases k,
{
    if k <= 0 {
        0
    } else {
        square_sum(n, v, k - 1) + (n.of)(v[k - 1]) * (n.of)(v[k - 1])
    }
}

/// The norm of a vector is the square root of the sum of its squares.
pub proof fn law_norm(m: Reading, n: Numbers, items: Seq<Val>, v: Seq<u64>)
    requires
        exact(m, n),
        numbers_of(items) == Some(v),
    ensures
        exists|q: u64|
            n.same((n.of)(q), square_sum(n, v, v.len() as int)) && norm_of(m, Val::Vector(items))
                == Val::Number(#[trigger] m.at(NumOp::Sqrt, q, 0)),
{
    lemma_squares(m, n, v, v.len() as int);
    let q = squares(m, v, v.len() as int);
    assert(norm_of(m, Val::Vector(items)) == Val::Number(m.at(NumOp::Sqrt, q, 0)));
}

proof fn lemma_squares(m: Reading, n: Numbers, v: Seq<u64>, k: int)
    requires
        exact(m, n),
    ensures
        n.same((n.of)(squares(m, v, k)), square_sum(n, v, k)),
    decreases k,
{
    lemma_own(m, n);
    if k > 0 {
        lemma_squares(m, n, v, k - 1);
        let x = v[k - 1];
        lemma_mul(m, n, x, x, (n.of)(x), (n.of)(x));
        lemma_add(
            m,
            n,
            squares(m, v, k - 1),
            m.at(NumOp::Mul, x, x),
            square_sum(n, v, k - 1),
            (n.of)(x) * (n.of)(x),
        );
    }
}

// ---- tables ------------------------------------------------------------------------------------

/// Between two entries of a table the value goes evenly: it lies as far from the
/// first value as the key lies from the first key.
pub proof fn law_lookup_goes_evenly(m: Reading, n: Numbers, key: u64, lo: TablePair, hi: TablePair)
    requires
        exact(m, n),
        n.divides((n.of)(hi.key) - (n.of)(lo.key)),
    ensures
        n.same(
            ((n.of)(between(m, key, lo, hi)) - (n.of)(lo.value)) * ((n.of)(hi.key) - (n.of)(lo.key)),
            ((n.of)(key) - (n.of)(lo.key)) * ((n.of)(hi.value) - (n.of)(lo.value)),
        ),
{
    let (k, a, b) = ((n.of)(key), (n.of)(lo.key), (n.of)(hi.key));
    let (u, v) = ((n.of)(lo.value), (n.of)(hi.value));
    lemma_own(m, n);
    lemma_sub(m, n, key, lo.key, k, a);
    lemma_sub(m, n, hi.key, lo.key, b, a);
    lemma_sub(m, n, hi.value, lo.value, v, u);
    let (x, y) = (m.at(NumOp::Sub, key, lo.key), m.at(NumOp::Sub, hi.key, lo.key));
    lemma_div(m, n, x, y, k - a, b - a);
    let bt = m.at(NumOp::Div, x, y);
    let t = (n.of)(bt);
    let z = m.at(NumOp::Sub, hi.value, lo.value);
    lemma_mul(m, n, bt, z, t, v - u);
    lemma_add(m, n, lo.value, m.at(NumOp::Mul, bt, z), u, t * (v - u));
    let r = (n.of)(between(m, key, lo, hi));
    lemma_ring(n, r, u + t * (v - u), u, u);
    lemma_same(n, b - a, b - a, b - a);
    lemma_ring(n, r - u, t * (v - u), b - a, b - a);
    assert((t * (v - u)) * (b - a) == (t * (b - a)) * (v - u)) by (nonlinear_arith);
    lemma_same(n, v - u, v - u, v - u);
    lemma_ring(n, t * (b - a), k - a, v - u, v - u);
    lemma_same(n, (r - u) * (b - a), (t * (b - a)) * (v - u), (k - a) * (v - u));
}

/// The entries next to a key: the one below has a key below it, the one above has
/// one that is not, and no other key lies closer on its side.
pub proof fn law_nearest_entries(p: Seq<TablePair>, key: u64, k: int)
    requires
        0 <= k <= p.len(),
        !nan(key),
        forall|i: int| 0 <= i < p.len() ==> !nan((#[trigger] p[i]).key),
    ensures
        match pair_below(p, key, k) {
            Some(b) => 0 <= b < k && less(p[b].key, key) && forall|i: int|
                0 <= i < k && less((#[trigger] p[i]).key, key) ==> !less(p[b].key, p[i].key),
            None => forall|i: int| 0 <= i < k ==> !less((#[trigger] p[i]).key, key),
        },
        match pair_above(p, key, k) {
            Some(a) => 0 <= a < k && at_most(key, p[a].key) && forall|i: int|
                0 <= i < k && at_most(key, (#[trigger] p[i]).key) ==> !less(p[i].key, p[a].key),
            None => forall|i: int| 0 <= i < k ==> less((#[trigger] p[i]).key, key),
        },
    decreases k,
{
    if k > 0 {
        law_nearest_entries(p, key, k - 1);
        assert(!nan(p[k - 1].key));
    }
}

/// The first entry has the least key of all, and the last entry the greatest.
pub proof fn law_outermost_entries(p: Seq<TablePair>, k: int)
    requires
        0 < k <= p.len(),
        forall|i: int| 0 <= i < p.len() ==> !nan((#[trigger] p[i]).key),
    ensures
        0 <= first_pair(p, k) < k,
        0 <= last_pair(p, k) < k,
        forall|i: int| 0 <= i < k ==> !less((#[trigger] p[i]).key, p[first_pair(p, k)].key),
        forall|i: int| 0 <= i < k ==> !less(p[last_pair(p, k)].key, (#[trigger] p[i]).key),
    decreases k,
{
    assert(!nan(p[0].key));
    if k > 1 {
        law_outermost_entries(p, k - 1);
        assert(!nan(p[k - 1].key));
        assert(!nan(p[first_pair(p, k - 1)].key));
        assert(!nan(p[last_pair(p, k - 1)].key));
        assert forall|i: int| 0 <= i < k implies !less(
            (#[trigger] p[i]).key,
            p[first_pair(p, k)].key,
        ) by {
            assert(!nan(p[i].key));
        }
        assert forall|i: int| 0 <= i < k implies !less(
            p[last_pair(p, k)].key,
            (#[trigger] p[i]).key,
        ) by {
            assert(!nan(p[i].key));
        }
    }
}

// ---- ranges and random numbers -----------------------------------------------------------------

/// The numbers of a range start where it starts and are a step apart.
pub proof fn law_range_steps(m: Reading, n: Numbers, start: u64, step: u64, i: nat)
    requires
        exact(m, n),
        i <= u64::MAX,
    ensures
        range_item(m, start, step, 0) == start,
        n.same((n.of)(range_item(m, start, step, i)), (n.of)(start) + (i as int) * (n.of)(step)),
{
    let (s, d, k) = ((n.of)(start), (n.of)(step), i as int);
    lemma_own(m, n);
    let at = m.at(NumOp::FromInt, i as u64, 0);
    lemma_mul(m, n, step, at, d, k);
    lemma_add(m, n, start, m.at(NumOp::Mul, step, at), s, d * k);
    assert(d * k == k * d) by (nonlinear_arith);
    assert(0 * d == 0);
}

/// A loop over a range runs through its numbers in order, up to the first that has
/// passed the end.
pub proof fn law_range_runs(m: Reading, start: u64, step: u64, end: u64, i: nat, j: int)
    requires
        i <= crate::iterate::MAX_RANGE_ITERS,
        range_from(m, start, step, end, i) is Some,
    ensures
        ({
            let v = range_from(m, start, step, end, i)->0;
            &&& 0 <= j < v.len() ==> v[j] == Val::Number(range_item(m, start, step, (i + j) as nat))
                && in_range(m, range_item(m, start, step, (i + j) as nat), step, end)
            &&& !in_range(m, range_item(m, start, step, (i + v.len()) as nat), step, end)
        }),
    decreases crate::iterate::MAX_RANGE_ITERS + 1 - i,
{
    let x = range_item(m, start, step, i);
    if in_range(m, x, step, end) {
        law_range_runs(m, start, step, end, i + 1, j - 1);
    }
}

/// A random number lies as far between its limits as the state says: at the share of
/// the way that the upper 53 bits of the state are of all of them.
pub proof fn law_random_between(m: Reading, n: Numbers, s: u64, min: u64, max: u64)
    requires
        exact(m, n),
        n.same((n.of)(TWO53), 0x20_0000_0000_0000),
        n.divides(0x20_0000_0000_0000),
    ensures
        n.same(
            ((n.of)(drawn(m, s, min, max)) - (n.of)(min)) * 0x20_0000_0000_0000,
            ((s >> 11u64) as int) * ((n.of)(max) - (n.of)(min)),
        ),
{
    let (a, b) = ((n.of)(min), (n.of)(max));
    let k = (s >> 11u64) as int;
    let all = 0x20_0000_0000_0000int;
    lemma_own(m, n);
    let x = m.at(NumOp::FromInt, s >> 11u64, 0);
    lemma_div(m, n, x, TWO53, k, all);
    let bu = m.at(NumOp::Div, x, TWO53);
    let u = (n.of)(bu);
    lemma_sub(m, n, max, min, b, a);
    let d = m.at(NumOp::Sub, max, min);
    lemma_mul(m, n, bu, d, u, b - a);
    lemma_add(m, n, min, m.at(NumOp::Mul, bu, d), a, u * (b - a));
    let r = (n.of)(drawn(m, s, min, max));
    lemma_ring(n, r, a + u * (b - a), a, a);
    lemma_same(n, all, all, all);
    lemma_ring(n, r - a, u * (b - a), all, all);
    assert((u * (b - a)) * all == (u * all) * (b - a)) by (nonlinear_arith);
    lemma_same(n, b - a, b - a, b - a);
    lemma_ring(n, u * all, k, b - a, b - a);
    lemma_same(n, (r - a) * all, (u * all) * (b - a), k * (b - a));
}

// ---- lists and searching -----------------------------------------------------------------------

/// Joining lists keeps their items in order: those of the first lists, and behind
/// them those of the last; what is no list is one item.
pub proof fn law_lists_join(args: Seq<Val>, k: int, i: int)
    requires
        0 < k <= args.len(),
    ensures
        ({
            let v = concatenated(args, k);
            let w = concatenated(args, k - 1);
            &&& 0 <= i < w.len() ==> v[i] == w[i]
            &&& match args[k - 1] {
                Val::Vector(items) => v.len() == w.len() + items.len() && (0 <= i < items.len()
                    ==> v[w.len() + i] == items[i]),
                other => v.len() == w.len() + 1 && v[w.len() as int] == other,
            }
        }),
{
}

/// A search finds exactly the places of the entries that match, in order.
pub proof fn law_search_finds(
    entries: Seq<Val>,
    needle: Val,
    whole: bool,
    column: u64,
    k: int,
    i: int,
)
    requires
        0 <= k <= entries.len(),
    ensures
        ({
            let v = matches_of(entries, needle, whole, column, k);
            &&& v.contains(i) <==> 0 <= i < k && crate::value::equal_values(
                crate::builtins::compared(entries[i], whole, column),
                needle,
            )
            &&& forall|a: int, b: int|
                0 <= a < b < v.len() ==> #[trigger] v[a] < #[trigger] v[b]
            &&& forall|a: int| 0 <= a < v.len() ==> 0 <= #[trigger] v[a] < k
        }),
    decreases k,
{
    if k > 0 {
        law_search_finds(entries, needle, whole, column, k - 1, i);
        let w = matches_of(entries, needle, whole, column, k - 1);
        let v = matches_of(entries, needle, whole, column, k);
        if v.len() > w.len() {
            assert(v == w.push(k - 1));
            assert(v[w.len() as int] == k - 1);
            if w.contains(i) {
                let a = w.index_of(i);
                assert(v[a] == i);
            }
            if v.contains(i) && i != k - 1 {
                let a = v.index_of(i);
                assert(w[a] == i);
            }
        }
    }
}

/// Where so many matches are wanted, the first ones are taken.
pub proof fn law_search_limit(entries: Seq<Val>, needle: Val, plan: SearchPlan)
    ensures
        ({
            let all = hits(entries, needle, (SearchPlan { limit: 0, ..plan }));
            let some = hits(entries, needle, plan);
            &&& some.is_prefix_of(all)
            &&& plan.limit == 0 || all.len() <= plan.limit ==> some == all
            &&& plan.limit != 0 && all.len() > plan.limit ==> some.len() == plan.limit
        }),
{
}

proof fn lemma_char(c: char)
    ensures
        char_of(c as u32) == c,
        is_scalar(c as int),
        c as u64 as u32 == c as u32,
        (c as u64) as int == c as int,
{
    let k = c as u32;
    assert(numbers(c, k));
    let d = char_of(k);
    assert(numbers(d, k));
    assert(d as u32 == c as u32);
}

/// The code of a character gives the character back, where whole numbers are kept as
/// numbers.
pub proof fn law_chr_undoes_ord(
    m: Reading,
    functions: Seq<Seq<char>>,
    state: u64,
    s: Seq<char>,
)
    requires
        s.len() > 0,
        s[0] as int != 0,
        forall|k: u64| m.at(NumOp::ToInt, #[trigger] m.at(NumOp::FromInt, k, 0), 0) == k,
    ensures
        ({
            let code = builtin_of(m, functions, state, Builtin::Ord, seq![Val::Str(s)]).0;
            builtin_of(m, functions, state, Builtin::Chr, seq![code]).0 == Val::Str(seq![s[0]])
        }),
{
    let code = builtin_of(m, functions, state, Builtin::Ord, seq![Val::Str(s)]).0;
    let args = seq![code];
    let x = m.at(NumOp::FromInt, s[0] as u64, 0);
    assert(args[0] == Val::Number(x));
    assert(m.at(NumOp::ToInt, x, 0) == s[0] as u64);
    lemma_char(s[0]);
    assert(char_text(m, x) =~= seq![s[0]]);
    assert(chrs_of(m, args, 0) =~= Seq::empty());
    assert(chrs_of(m, args, 1) =~= char_text(m, x));
}

/// A version is its year, its month and its day in groups of two digits.
pub proof fn law_version_digits(m: Reading, n: Numbers, y: u64, mo: u64, d: u64)
    requires
        exact(m, n),
        n.same((n.of)(TEN_THOUSAND), 10000),
        n.same((n.of)(HUNDRED), 100),
    ensures
        ({
            let list = Val::Vector(seq![Val::Number(y), Val::Number(mo), Val::Number(d)]);
            counts(
                n,
                version_number(m, seq![list]),
                10000 * (n.of)(y) + 100 * (n.of)(mo) + (n.of)(d),
            )
        }),
{
    let items = seq![Val::Number(y), Val::Number(mo), Val::Number(d)];
    let args = seq![Val::Vector(items)];
    assert(args[0] == Val::Vector(items));
    lemma_numbers_from(items, 0);
    let v = numbers_of(items)->0;
    assert(forall|i: int| 0 <= i < 3 ==> number_of(#[trigger] items[i]) is Some);
    assert(v.len() == 3);
    assert(number_of(items[0int + 0]) == Some(v[0]));
    assert(number_of(items[0int + 1]) == Some(v[1]));
    assert(number_of(items[0int + 2]) == Some(v[2]));
    lemma_own(m, n);
    let (a, b, c) = ((n.of)(y), (n.of)(mo), (n.of)(d));
    lemma_mul(m, n, y, TEN_THOUSAND, a, 10000);
    lemma_mul(m, n, mo, HUNDRED, b, 100);
    let (p, q) = (m.at(NumOp::Mul, y, TEN_THOUSAND), m.at(NumOp::Mul, mo, HUNDRED));
    lemma_add(m, n, p, q, a * 10000, b * 100);
    lemma_add(m, n, m.at(NumOp::Add, p, q), d, a * 10000 + b * 100, c);
}

/// An item of a list is found under its place, counted from zero; behind the last
/// there is none.
pub proof fn law_items_by_place(m: Reading, items: Seq<Val>, i: u64)
    requires
        place_of(m, m.at(NumOp::FromInt, i, 0)) == Some(i),
    ensures
        indexed(m, Val::Vector(items), Val::Number(m.at(NumOp::FromInt, i, 0))) == if i
            < items.len() {
            items[i as int]
        } else {
            Val::Undef
        },
{
}

} // verus!
