//! Identities of whole numbers that the laws of shapes come down to.

use vstd::prelude::*;

verus! {

/// Four factors in another order.
pub proof fn lemma_swap(a: int, b: int, c: int, d: int)
    ensures
        (a * b) * (c * d) == (a * c) * (b * d),
        (a * b) * (c * d) == (a * d) * (b * c),
        (a * b) * (c * d) == (c * d) * (a * b),
{
    assert((a * b) * (c * d) == (a * c) * (b * d)) by (nonlinear_arith);
    assert((a * b) * (c * d) == (a * d) * (b * c)) by (nonlinear_arith);
    assert((a * b) * (c * d) == (c * d) * (a * b)) by (nonlinear_arith);
}

/// Two sums, or differences, multiplied out.
pub proof fn lemma_spread(a: int, b: int, c: int, d: int)
    ensures
        (a + b) * (c + d) == a * c + a * d + b * c + b * d,
        (a - b) * (c + d) == a * c + a * d - b * c - b * d,
        (a + b) * (c - d) == a * c - a * d + b * c - b * d,
        (a - b) * (c - d) == a * c - a * d - b * c + b * d,
{
    assert((a + b) * (c + d) == a * c + a * d + b * c + b * d) by (nonlinear_arith);
    assert((a - b) * (c + d) == a * c + a * d - b * c - b * d) by (nonlinear_arith);
    assert((a + b) * (c - d) == a * c - a * d + b * c - b * d) by (nonlinear_arith);
    assert((a - b) * (c - d) == a * c - a * d - b * c + b * d) by (nonlinear_arith);
}

/// Two vectors turned by one sine and cosine: their scalar product and their
/// wedge product.
pub proof fn lemma_turned_pair(x: int, y: int, u: int, v: int, s: int, c: int)
    ensures
        (x * c - y * s) * (u * c - v * s) + (x * s + y * c) * (u * s + v * c) == (x * u + y * v) * (
        s * s + c * c),
        (x * c - y * s) * (u * s + v * c) - (x * s + y * c) * (u * c - v * s) == (x * v - y * u) * (
        s * s + c * c),
{
    lemma_spread(x * c, y * s, u * c, v * s);
    lemma_spread(x * s, y * c, u * s, v * c);
    lemma_spread(x * c, y * s, u * s, v * c);
    lemma_spread(x * s, y * c, u * c, v * s);
    lemma_spread(x * u, y * v, s * s, c * c);
    lemma_spread(x * v, y * u, s * s, c * c);
    lemma_swap(x, c, u, c);
    lemma_swap(x, c, v, s);
    lemma_swap(y, s, u, c);
    lemma_swap(y, s, v, s);
    lemma_swap(x, s, u, s);
    lemma_swap(x, s, v, c);
    lemma_swap(y, c, u, s);
    lemma_swap(y, c, v, c);
    lemma_swap(x, c, u, s);
    lemma_swap(x, c, v, c);
    lemma_swap(y, s, u, s);
    lemma_swap(y, s, v, c);
    lemma_swap(x, s, u, c);
    lemma_swap(x, s, v, s);
    lemma_swap(y, c, u, c);
    lemma_swap(y, c, v, s);
    assert(s * c == c * s) by (nonlinear_arith);
}

} // verus!
