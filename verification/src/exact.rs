//! Exact arithmetic. Doubles round, so what a formula is for is stated of readings
//! that do not round: those that compute with whole numbers modulo some number,
//! where every sum, difference and product is exact. A relation that holds modulo
//! every number is one of algebra, and rounding is all that parts a double from it.

use crate::num::{negative, zero, NumOp, Reading, ONE, TWO, ZERO};
use vstd::arithmetic::div_mod::{lemma_fundamental_div_mod, lemma_mod_multiples_basic};
use vstd::prelude::*;

verus! {

/// The whole number that bits stand for, the one that the bits of a single number
/// stand for, and the number that all of them count modulo.
pub ghost struct Numbers {
    pub of: spec_fn(u64) -> int,
    pub single: spec_fn(u32) -> int,
    pub modulus: int,
}

impl Numbers {
    /// Two numbers are the same.
    pub open spec fn same(self, a: int, b: int) -> bool {
        (a - b) % self.modulus == 0
    }

    /// Something can be divided by the number.
    pub open spec fn divides(self, a: int) -> bool {
        exists|b: int| #[trigger] self.inverse(a, b)
    }

    pub open spec fn inverse(self, a: int, b: int) -> bool {
        self.same(a * b, 1)
    }
}

/// The operations of a reading are those of arithmetic.
pub open spec fn exact(m: Reading, n: Numbers) -> bool {
    &&& n.modulus > 0
    &&& n.same((n.of)(ONE), 1)
    &&& n.same((n.of)(TWO), 2)
    &&& forall|x: u64| #[trigger] zero(x) ==> n.same((n.of)(x), 0)
    &&& forall|x: u64| n.same(#[trigger] (n.of)(negative(x)), -(n.of)(x))
    &&& forall|x: u64, y: u64|
        n.same((n.of)(#[trigger] m.at(NumOp::Add, x, y)), (n.of)(x) + (n.of)(y))
    &&& forall|x: u64, y: u64|
        n.same((n.of)(#[trigger] m.at(NumOp::Sub, x, y)), (n.of)(x) - (n.of)(y))
    &&& forall|x: u64, y: u64|
        n.same((n.of)(#[trigger] m.at(NumOp::Mul, x, y)), (n.of)(x) * (n.of)(y))
    &&& forall|x: u64, y: u64|
        n.divides((n.of)(y)) ==> n.same(
            (n.of)(#[trigger] m.at(NumOp::Div, x, y)) * (n.of)(y),
            (n.of)(x),
        )
    &&& forall|x: u64, y: u64| n.same((n.of)(#[trigger] m.at(NumOp::FromInt, x, y)), x as int)
    &&& forall|x: u64, y: u64|
        n.same(
            (n.single)((#[trigger] m.at(NumOp::ToSingle, x, y) % 0x1_0000_0000) as u32),
            (n.of)(x),
        )
    &&& forall|x: u32| n.same((n.single)(#[trigger] flipped(x)), -(n.single)(x))
}

/// A single number with the opposite sign.
pub open spec fn flipped(x: u32) -> u32 {
    if x >= 0x8000_0000 {
        (x - 0x8000_0000) as u32
    } else {
        (x + 0x8000_0000) as u32
    }
}

// ---- being the same ----------------------------------------------------------------------------

proof fn lemma_multiple(a: int, k: int, m: int)
    requires
        m > 0,
        a == k * m,
    ensures
        a % m == 0,
{
    lemma_mod_multiples_basic(k, m);
}

proof fn lemma_quotient(a: int, m: int) -> (k: int)
    requires
        m > 0,
        a % m == 0,
    ensures
        a == k * m,
{
    lemma_fundamental_div_mod(a, m);
    assert(a == (a / m) * m) by (nonlinear_arith)
        requires
            a == m * (a / m) + a % m,
            a % m == 0,
    ;
    a / m
}

/// A number is the same as itself, both ways, and as what the same is.
pub proof fn lemma_same(n: Numbers, a: int, b: int, c: int)
    requires
        n.modulus > 0,
    ensures
        n.same(a, a),
        n.same(a, b) ==> n.same(b, a),
        n.same(a, b) && n.same(b, c) ==> n.same(a, c),
{
    lemma_multiple(0, 0, n.modulus);
    if n.same(a, b) {
        let k = lemma_quotient(a - b, n.modulus);
        assert(b - a == (-k) * n.modulus) by (nonlinear_arith)
            requires
                a - b == k * n.modulus,
        ;
        lemma_multiple(b - a, -k, n.modulus);
        if n.same(b, c) {
            let j = lemma_quotient(b - c, n.modulus);
            assert(a - c == (k + j) * n.modulus) by (nonlinear_arith)
                requires
                    a - b == k * n.modulus,
                    b - c == j * n.modulus,
            ;
            lemma_multiple(a - c, k + j, n.modulus);
        }
    }
}

/// Sums, differences, products and opposites of the same are the same.
pub proof fn lemma_ring(n: Numbers, a: int, b: int, c: int, d: int)
    requires
        n.modulus > 0,
        n.same(a, b),
        n.same(c, d),
    ensures
        n.same(a + c, b + d),
        n.same(a - c, b - d),
        n.same(a * c, b * d),
        n.same(-a, -b),
{
    let m = n.modulus;
    let k = lemma_quotient(a - b, m);
    let j = lemma_quotient(c - d, m);
    assert((a + c) - (b + d) == (k + j) * m) by (nonlinear_arith)
        requires
            a - b == k * m,
            c - d == j * m,
    ;
    lemma_multiple((a + c) - (b + d), k + j, m);
    assert((a - c) - (b - d) == (k - j) * m) by (nonlinear_arith)
        requires
            a - b == k * m,
            c - d == j * m,
    ;
    lemma_multiple((a - c) - (b - d), k - j, m);
    assert(a * c - b * d == (c * k + b * j) * m) by (nonlinear_arith)
        requires
            a - b == k * m,
            c - d == j * m,
    ;
    lemma_multiple(a * c - b * d, c * k + b * j, m);
    assert(-a - (-b) == (-k) * m) by (nonlinear_arith)
        requires
            a - b == k * m,
    ;
    lemma_multiple(-a - (-b), -k, m);
}

/// What can be divided by can be cancelled.
pub proof fn lemma_cancel(n: Numbers, a: int, b: int, c: int)
    requires
        n.modulus > 0,
        n.divides(c),
        n.same(a * c, b * c),
    ensures
        n.same(a, b),
{
    let d = choose|d: int| #[trigger] n.inverse(c, d);
    lemma_same(n, d, d, d);
    lemma_ring(n, a * c, b * c, d, d);
    lemma_same(n, a, a, a);
    lemma_same(n, b, b, b);
    lemma_ring(n, a, a, c * d, 1);
    lemma_ring(n, b, b, c * d, 1);
    assert(a * c * d == a * (c * d)) by (nonlinear_arith);
    assert(b * c * d == b * (c * d)) by (nonlinear_arith);
    lemma_same(n, a * (c * d), a * 1, a);
    lemma_same(n, a, a * c * d, b * c * d);
    lemma_same(n, a, b * c * d, b);
}

/// What can be divided by is still so where it is written another way.
pub proof fn lemma_divides(n: Numbers, a: int, b: int)
    requires
        n.modulus > 0,
        n.same(a, b),
        n.divides(b),
    ensures
        n.divides(a),
{
    let d = choose|d: int| #[trigger] n.inverse(b, d);
    lemma_same(n, d, d, d);
    lemma_ring(n, a, b, d, d);
    lemma_same(n, a * d, b * d, 1);
    assert(n.inverse(a, d));
}

/// A sum and a difference of two products.
pub proof fn lemma_products(
    n: Numbers,
    a: int,
    b: int,
    c: int,
    d: int,
    a1: int,
    b1: int,
    c1: int,
    d1: int,
)
    requires
        n.modulus > 0,
        n.same(a, a1),
        n.same(b, b1),
        n.same(c, c1),
        n.same(d, d1),
    ensures
        n.same(a * b + c * d, a1 * b1 + c1 * d1),
        n.same(a * b - c * d, a1 * b1 - c1 * d1),
{
    lemma_ring(n, a, a1, b, b1);
    lemma_ring(n, c, c1, d, d1);
    lemma_ring(n, a * b, a1 * b1, c * d, c1 * d1);
}

/// A product with what is the same as one is the same as the other factor.
pub proof fn lemma_unit(n: Numbers, a: int, u: int)
    requires
        n.modulus > 0,
        n.same(u, 1),
    ensures
        n.same(a * u, a),
{
    lemma_same(n, a, a, a);
    lemma_ring(n, a, a, u, 1);
    assert(a * 1 == a);
}

// ---- operations --------------------------------------------------------------------------------

/// A sum.
pub proof fn lemma_add(m: Reading, n: Numbers, x: u64, y: u64, a: int, b: int)
    requires
        exact(m, n),
        n.same((n.of)(x), a),
        n.same((n.of)(y), b),
    ensures
        n.same((n.of)(m.at(NumOp::Add, x, y)), a + b),
{
    let r = m.at(NumOp::Add, x, y);
    lemma_ring(n, (n.of)(x), a, (n.of)(y), b);
    lemma_same(n, (n.of)(r), (n.of)(x) + (n.of)(y), a + b);
}

/// A difference.
pub proof fn lemma_sub(m: Reading, n: Numbers, x: u64, y: u64, a: int, b: int)
    requires
        exact(m, n),
        n.same((n.of)(x), a),
        n.same((n.of)(y), b),
    ensures
        n.same((n.of)(m.at(NumOp::Sub, x, y)), a - b),
{
    let r = m.at(NumOp::Sub, x, y);
    lemma_ring(n, (n.of)(x), a, (n.of)(y), b);
    lemma_same(n, (n.of)(r), (n.of)(x) - (n.of)(y), a - b);
}

/// A product.
pub proof fn lemma_mul(m: Reading, n: Numbers, x: u64, y: u64, a: int, b: int)
    requires
        exact(m, n),
        n.same((n.of)(x), a),
        n.same((n.of)(y), b),
    ensures
        n.same((n.of)(m.at(NumOp::Mul, x, y)), a * b),
{
    let r = m.at(NumOp::Mul, x, y);
    lemma_ring(n, (n.of)(x), a, (n.of)(y), b);
    lemma_same(n, (n.of)(r), (n.of)(x) * (n.of)(y), a * b);
}

/// A quotient, times what it was divided by.
pub proof fn lemma_div(m: Reading, n: Numbers, x: u64, y: u64, a: int, b: int)
    requires
        exact(m, n),
        n.same((n.of)(x), a),
        n.same((n.of)(y), b),
        n.divides(b),
    ensures
        n.same((n.of)(m.at(NumOp::Div, x, y)) * b, a),
{
    let q = (n.of)(m.at(NumOp::Div, x, y));
    lemma_divides(n, (n.of)(y), b);
    lemma_same(n, q, q, q);
    lemma_ring(n, q, q, (n.of)(y), b);
    lemma_same(n, q * (n.of)(y), q * b, 0);
    lemma_same(n, q * b, q * (n.of)(y), (n.of)(x));
    lemma_same(n, q * b, (n.of)(x), a);
}

/// An opposite.
pub proof fn lemma_neg(m: Reading, n: Numbers, x: u64, a: int)
    requires
        exact(m, n),
        n.same((n.of)(x), a),
    ensures
        n.same((n.of)(negative(x)), -a),
{
    lemma_ring(n, (n.of)(x), a, 0, 0);
    lemma_same(n, (n.of)(negative(x)), -(n.of)(x), -a);
}

/// Bits stand for what they stand for.
pub proof fn lemma_own(m: Reading, n: Numbers)
    requires
        exact(m, n),
    ensures
        forall|x: u64| n.same(#[trigger] (n.of)(x), (n.of)(x)),
        n.same((n.of)(ZERO), 0),
        n.same((n.of)(ONE), 1),
        n.same((n.of)(TWO), 2),
{
    assert forall|x: u64| n.same(#[trigger] (n.of)(x), (n.of)(x)) by {
        lemma_same(n, (n.of)(x), 0, 0);
    }
    assert(zero(ZERO));
}

} // verus!
