//! Double-precision numbers as bit patterns.
//!
//! A number is the `u64` that encodes it: one sign bit, eleven exponent bits and
//! fifty-two fraction bits. Everything that can be read off the pattern (sign,
//! zero, infinity, not-a-number, order) is computed here. Everything that needs
//! a floating-point unit is asked of a host-supplied [`Arithmetic`] through a
//! [`Calc`], and contracts are stated for every reading of the operations that
//! the unit's answers agree with.

use vstd::prelude::*;

verus! {

/// The sign bit.
pub const SIGN: u64 = 0x8000_0000_0000_0000;

/// Positive infinity; a larger magnitude is not a number.
pub const INFINITY: u64 = 0x7ff0_0000_0000_0000;

/// The not-a-number pattern that this library itself produces.
pub const NAN: u64 = 0x7ff8_0000_0000_0000;

/// Zero.
pub const ZERO: u64 = 0;

/// One.
pub const ONE: u64 = 0x3ff0_0000_0000_0000;

/// Two.
pub const TWO: u64 = 0x4000_0000_0000_0000;

/// The pattern without its sign bit.
pub open spec fn magnitude(b: u64) -> int {
    if b >= SIGN {
        b - SIGN
    } else {
        b as int
    }
}

/// Whether the pattern encodes no number.
pub open spec fn nan(b: u64) -> bool {
    magnitude(b) > INFINITY
}

/// Whether the pattern encodes a finite number.
pub open spec fn finite(b: u64) -> bool {
    magnitude(b) < INFINITY
}

/// Whether the pattern encodes positive or negative zero.
pub open spec fn zero(b: u64) -> bool {
    magnitude(b) == 0
}

/// Where the number stands among all numbers; both zeros stand at 0.
pub open spec fn place(b: u64) -> int {
    if b >= SIGN {
        -magnitude(b)
    } else {
        magnitude(b)
    }
}

/// Numeric equality: false where either side is not a number.
pub open spec fn same(a: u64, b: u64) -> bool {
    !nan(a) && !nan(b) && place(a) == place(b)
}

/// Numeric order: false where either side is not a number.
pub open spec fn less(a: u64, b: u64) -> bool {
    !nan(a) && !nan(b) && place(a) < place(b)
}

/// Numeric order or equality: false where either side is not a number.
pub open spec fn at_most(a: u64, b: u64) -> bool {
    !nan(a) && !nan(b) && place(a) <= place(b)
}

/// The number with the opposite sign.
pub open spec fn negative(b: u64) -> u64 {
    if b >= SIGN {
        (b - SIGN) as u64
    } else {
        (b + SIGN) as u64
    }
}

/// Where the pattern stands in the total order of all patterns, in which
/// negative zero stands below zero and every pattern has a place of its own.
pub open spec fn total_place(b: u64) -> int {
    if b >= SIGN {
        -1 - magnitude(b)
    } else {
        magnitude(b)
    }
}

/// Whether bits stand for no number.
pub fn is_nan(b: u64) -> (r: bool)
    ensures
        r == nan(b),
{
    if b >= SIGN {
        b - SIGN > INFINITY
    } else {
        b > INFINITY
    }
}

/// Whether bits stand for a finite number.
pub fn is_finite(b: u64) -> (r: bool)
    ensures
        r == finite(b),
{
    if b >= SIGN {
        b - SIGN < INFINITY
    } else {
        b < INFINITY
    }
}

pub fn is_zero(b: u64) -> (r: bool)
    ensures
        r == zero(b),
{
    b == 0 || b == SIGN
}

pub fn equals(a: u64, b: u64) -> (r: bool)
    ensures
        r == same(a, b),
{
    !is_nan(a) && !is_nan(b) && (a == b || (is_zero(a) && is_zero(b)))
}

pub fn is_less(a: u64, b: u64) -> (r: bool)
    ensures
        r == less(a, b),
{
    if is_nan(a) || is_nan(b) {
        return false;
    }
    if a >= SIGN {
        if b >= SIGN {
            a > b
        } else {
            a != SIGN || b != 0
        }
    } else {
        if b >= SIGN {
            false
        } else {
            a < b
        }
    }
}

pub fn is_at_most(a: u64, b: u64) -> (r: bool)
    ensures
        r == at_most(a, b),
{
    is_less(a, b) || equals(a, b)
}

pub fn negate(b: u64) -> (r: u64)
    ensures
        r == negative(b),
{
    if b >= SIGN {
        b - SIGN
    } else {
        b + SIGN
    }
}

pub fn absolute(b: u64) -> (r: u64)
    ensures
        r == magnitude(b),
{
    if b >= SIGN {
        b - SIGN
    } else {
        b
    }
}

/// Negating twice gives the number back.
pub proof fn law_negate_involutive(b: u64)
    ensures
        negative(negative(b)) == b,
        nan(negative(b)) == nan(b),
        place(negative(b)) == -place(b),
{
}

/// Of two numbers exactly one of less, equal and greater holds; none holds
/// where either side is not a number.
pub proof fn law_trichotomy(a: u64, b: u64)
    ensures
        !nan(a) && !nan(b) ==> (less(a, b) || same(a, b) || less(b, a)),
        less(a, b) ==> !same(a, b) && !less(b, a),
        same(a, b) ==> !less(a, b) && !less(b, a),
        nan(a) || nan(b) ==> !less(a, b) && !same(a, b) && !less(b, a),
{
}

/// An operation of the floating-point unit. Operations of one operand ignore
/// the second. Numbers are bit patterns: of 64 bits, or of 32 bits where the
/// operation says single.
#[derive(Clone, Copy, Debug, PartialEq, Eq, Structural)]
pub enum NumOp {
    Add,
    Sub,
    Mul,
    Div,
    /// The remainder with the sign of the first operand.
    Rem,
    Pow,
    Min,
    Max,
    Hypot,
    Atan2,
    Sqrt,
    Exp,
    Ln,
    Log10,
    Floor,
    Ceil,
    Round,
    Sin,
    Cos,
    Tan,
    Asin,
    Acos,
    Atan,
    ToRadians,
    ToDegrees,
    /// The number nearest to an unsigned integer.
    FromInt,
    /// The unsigned integer that a number truncates to, clamped to the range;
    /// not-a-number gives 0.
    ToInt,
    /// The single number nearest to a number.
    ToSingle,
    /// The number equal to a single number.
    FromSingle,
    /// The single number nearest to an unsigned integer.
    SingleFromInt,
    /// The unsigned integer that a single number truncates to, clamped.
    SingleToInt,
    SingleAdd,
    SingleMul,
    SingleDiv,
    SinglePow,
    SingleMin,
    SingleMax,
    /// The nearest whole single number, halves away from zero.
    SingleRound,
}

/// A way to write a number as text.
#[derive(Clone, Copy, Debug, PartialEq, Eq, Structural)]
pub enum TextOp {
    /// As a JSON number, `null` where it is not finite.
    Json,
    /// A single number as a JSON number, `null` where it is not finite.
    JsonSingle,
    /// The shortest decimal text, without an exponent.
    Plain,
    /// The shortest digits in scientific notation, such as `1.25e9`.
    Scientific,
}

/// One reading of all the operations: what each gives on each operand pair.
pub ghost struct Reading {
    pub num: spec_fn(NumOp, u64, u64) -> u64,
    pub text: spec_fn(TextOp, u64, u64) -> Seq<char>,
}

impl Reading {
    /// What an operation gives.
    pub open spec fn at(self, op: NumOp, x: u64, y: u64) -> u64 {
        (self.num)(op, x, y)
    }

    /// How a number is written.
    pub open spec fn written(self, op: TextOp, x: u64, y: u64) -> Seq<char> {
        (self.text)(op, x, y)
    }
}

/// A floating-point unit supplied by the host. Nothing is promised of it.
pub trait Arithmetic {
    fn apply(&mut self, op: NumOp, x: u64, y: u64) -> u64;

    fn write(&mut self, op: TextOp, x: u64, y: u64) -> String;
}

/// A unit together with the ghost record of what it has answered.
pub struct Calc<A> {
    unit: A,
    answers: Ghost<Seq<(NumOp, u64, u64, u64)>>,
    texts: Ghost<Seq<(TextOp, u64, u64, Seq<char>)>>,
}

impl<A: Arithmetic> Calc<A> {
    spec fn answered(&self, m: Reading) -> bool {
        forall|i: int|
            0 <= i < self.answers@.len() ==> (#[trigger] self.answers@[i]).3 == m.at(
                self.answers@[i].0,
                self.answers@[i].1,
                self.answers@[i].2,
            )
    }

    spec fn wrote(&self, m: Reading) -> bool {
        forall|i: int|
            0 <= i < self.texts@.len() ==> (#[trigger] self.texts@[i]).3 == m.written(
                self.texts@[i].0,
                self.texts@[i].1,
                self.texts@[i].2,
            )
    }

    /// Whether every answer so far is the one that the reading `m` gives.
    pub closed spec fn agrees(&self, m: Reading) -> bool {
        self.answered(m) && self.wrote(m)
    }

    /// A calculator over `unit` that has asked nothing yet.
    pub fn new(unit: A) -> (r: Self)
        ensures
            forall|m: Reading| #[trigger] r.agrees(m),
    {
        Calc { unit, answers: Ghost(Seq::empty()), texts: Ghost(Seq::empty()) }
    }

    /// Asks the unit. Whatever reading agrees with all answers from now on
    /// agreed before, and gives this answer here.
    pub fn apply(&mut self, op: NumOp, x: u64, y: u64) -> (r: u64)
        ensures
            forall|m: Reading| #[trigger]
                final(self).agrees(m) ==> old(self).agrees(m) && r == m.at(op, x, y),
    {
        let r: u64 = self.unit.apply(op, x, y);
        let ghost before = self.answers@;
        self.answers = Ghost(self.answers@.push((op, x, y, r)));
        proof {
            assert forall|m: Reading| #[trigger] self.agrees(m) implies old(self).agrees(m) && r
                == m.at(op, x, y) by {
                assert(self.answers@[before.len() as int] == (op, x, y, r));
                assert forall|i: int| 0 <= i < before.len() implies (#[trigger] before[i]).3
                    == m.at(before[i].0, before[i].1, before[i].2) by {
                    assert(self.answers@[i] == before[i]);
                }
                assert(old(self).answered(m));
                assert(self.wrote(m));
                assert(self.texts@ == old(self).texts@);
                assert forall|i: int| 0 <= i < old(self).texts@.len() implies (
                #[trigger] old(self).texts@[i]).3 == m.written(
                    old(self).texts@[i].0,
                    old(self).texts@[i].1,
                    old(self).texts@[i].2,
                ) by {
                    assert(self.texts@[i].3 == old(self).texts@[i].3);
                }
            }
        }
        r
    }

    /// Has the unit write a number. Whatever reading agrees from now on agreed
    /// before, and writes it so.
    pub fn write(&mut self, op: TextOp, x: u64, y: u64) -> (r: String)
        ensures
            forall|m: Reading| #[trigger]
                final(self).agrees(m) ==> old(self).agrees(m) && r@ == m.written(op, x, y),
    {
        let r = self.unit.write(op, x, y);
        let ghost before = self.texts@;
        self.texts = Ghost(self.texts@.push((op, x, y, r@)));
        proof {
            assert forall|m: Reading| #[trigger] self.agrees(m) implies old(self).agrees(m) && r@
                == m.written(op, x, y) by {
                assert(self.texts@[before.len() as int] == (op, x, y, r@));
                assert forall|i: int| 0 <= i < before.len() implies (#[trigger] before[i]).3
                    == m.written(before[i].0, before[i].1, before[i].2) by {
                    assert(self.texts@[i] == before[i]);
                }
                assert(old(self).wrote(m));
                assert(self.answered(m));
                assert(self.answers@ == old(self).answers@);
                assert forall|i: int| 0 <= i < old(self).answers@.len() implies (
                #[trigger] old(self).answers@[i]).3 == m.at(
                    old(self).answers@[i].0,
                    old(self).answers@[i].1,
                    old(self).answers@[i].2,
                ) by {
                    assert(self.answers@[i].3 == old(self).answers@[i].3);
                }
            }
        }
        r
    }
}

} // verus!
