//! The built-in functions of the language.

use crate::blob::texts;
use crate::format::str_of;
use crate::iterate::{char_vals, copy_values, iter_values, iterated, text_values};
use crate::num::{
    absolute, at_most, equals, is_at_most, is_less, is_nan, less, nan, same, Arithmetic, Calc,
    NumOp, Reading, INFINITY, ONE, ZERO,
};
use crate::planar::size_of;
use crate::provenance::lemma_code_injective;
use crate::solid::{greater, lesser, max_of, min_of, NEG_INFINITY};
use crate::tessellate::FULL_TURN;
use crate::text::{chars_of, same_text};
use crate::value::{equal_values, number_of, vals, value_eq, vector, Val, Value};
use crate::vector::{minor, MINUS_ONE};
use vstd::prelude::*;

verus! {

// ---- names ------------------------------------------------------------------------------------

/// A built-in function.
#[derive(Clone, Copy, Debug, PartialEq, Eq, Structural)]
pub enum Builtin {
    Abs,
    Sign,
    Floor,
    Ceil,
    Round,
    Sqrt,
    Exp,
    Ln,
    Log,
    Sin,
    Cos,
    Tan,
    Asin,
    Acos,
    Atan,
    Atan2,
    Pow,
    Max,
    Min,
    Len,
    Norm,
    Cross,
    Concat,
    IsUndef,
    IsNum,
    IsBool,
    IsString,
    IsList,
    IsFunction,
    IsRange,
    Rands,
    Version,
    VersionNum,
    Lookup,
    Search,
    Str,
    Chr,
    Ord,
}

/// The built-in function of a name.
pub open spec fn builtin_named(name: Seq<char>) -> Option<Builtin> {
    if name == "abs"@ {
        Some(Builtin::Abs)
    } else if name == "sign"@ {
        Some(Builtin::Sign)
    } else if name == "floor"@ {
        Some(Builtin::Floor)
    } else if name == "ceil"@ {
        Some(Builtin::Ceil)
    } else if name == "round"@ {
        Some(Builtin::Round)
    } else if name == "sqrt"@ {
        Some(Builtin::Sqrt)
    } else if name == "exp"@ {
        Some(Builtin::Exp)
    } else if name == "ln"@ {
        Some(Builtin::Ln)
    } else if name == "log"@ {
        Some(Builtin::Log)
    } else if name == "sin"@ {
        Some(Builtin::Sin)
    } else if name == "cos"@ {
        Some(Builtin::Cos)
    } else if name == "tan"@ {
        Some(Builtin::Tan)
    } else if name == "asin"@ {
        Some(Builtin::Asin)
    } else if name == "acos"@ {
        Some(Builtin::Acos)
    } else if name == "atan"@ {
        Some(Builtin::Atan)
    } else if name == "atan2"@ {
        Some(Builtin::Atan2)
    } else if name == "pow"@ {
        Some(Builtin::Pow)
    } else if name == "max"@ {
        Some(Builtin::Max)
    } else if name == "min"@ {
        Some(Builtin::Min)
    } else {
        other_builtin(name)
    }
}

/// The built-in function of a name that is not of plain arithmetic.
pub open spec fn other_builtin(name: Seq<char>) -> Option<Builtin> {
    if name == "len"@ {
        Some(Builtin::Len)
    } else if name == "norm"@ {
        Some(Builtin::Norm)
    } else if name == "cross"@ {
        Some(Builtin::Cross)
    } else if name == "concat"@ {
        Some(Builtin::Concat)
    } else if name == "is_undef"@ {
        Some(Builtin::IsUndef)
    } else if name == "is_num"@ {
        Some(Builtin::IsNum)
    } else if name == "is_bool"@ {
        Some(Builtin::IsBool)
    } else if name == "is_string"@ {
        Some(Builtin::IsString)
    } else if name == "is_list"@ {
        Some(Builtin::IsList)
    } else if name == "is_function"@ {
        Some(Builtin::IsFunction)
    } else if name == "is_range"@ {
        Some(Builtin::IsRange)
    } else if name == "rands"@ {
        Some(Builtin::Rands)
    } else if name == "version"@ {
        Some(Builtin::Version)
    } else if name == "version_num"@ {
        Some(Builtin::VersionNum)
    } else if name == "lookup"@ {
        Some(Builtin::Lookup)
    } else if name == "search"@ {
        Some(Builtin::Search)
    } else if name == "str"@ {
        Some(Builtin::Str)
    } else if name == "chr"@ {
        Some(Builtin::Chr)
    } else if name == "ord"@ {
        Some(Builtin::Ord)
    } else {
        None
    }
}

fn find_other(name: &str) -> (r: Option<Builtin>)
    ensures
        r == other_builtin(name@),
{
    if same_text(name, "len") {
        Some(Builtin::Len)
    } else if same_text(name, "norm") {
        Some(Builtin::Norm)
    } else if same_text(name, "cross") {
        Some(Builtin::Cross)
    } else if same_text(name, "concat") {
        Some(Builtin::Concat)
    } else if same_text(name, "is_undef") {
        Some(Builtin::IsUndef)
    } else if same_text(name, "is_num") {
        Some(Builtin::IsNum)
    } else if same_text(name, "is_bool") {
        Some(Builtin::IsBool)
    } else if same_text(name, "is_string") {
        Some(Builtin::IsString)
    } else if same_text(name, "is_list") {
        Some(Builtin::IsList)
    } else if same_text(name, "is_function") {
        Some(Builtin::IsFunction)
    } else if same_text(name, "is_range") {
        Some(Builtin::IsRange)
    } else if same_text(name, "rands") {
        Some(Builtin::Rands)
    } else if same_text(name, "version") {
        Some(Builtin::Version)
    } else if same_text(name, "version_num") {
        Some(Builtin::VersionNum)
    } else if same_text(name, "lookup") {
        Some(Builtin::Lookup)
    } else if same_text(name, "search") {
        Some(Builtin::Search)
    } else if same_text(name, "str") {
        Some(Builtin::Str)
    } else if same_text(name, "chr") {
        Some(Builtin::Chr)
    } else if same_text(name, "ord") {
        Some(Builtin::Ord)
    } else {
        None
    }
}

/// The built-in function of a name.
pub fn find_builtin(name: &str) -> (r: Option<Builtin>)
    ensures
        r == builtin_named(name@),
{
    if same_text(name, "abs") {
        Some(Builtin::Abs)
    } else if same_text(name, "sign") {
        Some(Builtin::Sign)
    } else if same_text(name, "floor") {
        Some(Builtin::Floor)
    } else if same_text(name, "ceil") {
        Some(Builtin::Ceil)
    } else if same_text(name, "round") {
        Some(Builtin::Round)
    } else if same_text(name, "sqrt") {
        Some(Builtin::Sqrt)
    } else if same_text(name, "exp") {
        Some(Builtin::Exp)
    } else if same_text(name, "ln") {
        Some(Builtin::Ln)
    } else if same_text(name, "log") {
        Some(Builtin::Log)
    } else if same_text(name, "sin") {
        Some(Builtin::Sin)
    } else if same_text(name, "cos") {
        Some(Builtin::Cos)
    } else if same_text(name, "tan") {
        Some(Builtin::Tan)
    } else if same_text(name, "asin") {
        Some(Builtin::Asin)
    } else if same_text(name, "acos") {
        Some(Builtin::Acos)
    } else if same_text(name, "atan") {
        Some(Builtin::Atan)
    } else if same_text(name, "atan2") {
        Some(Builtin::Atan2)
    } else if same_text(name, "pow") {
        Some(Builtin::Pow)
    } else if same_text(name, "max") {
        Some(Builtin::Max)
    } else if same_text(name, "min") {
        Some(Builtin::Min)
    } else {
        find_other(name)
    }
}

// ---- angles in degrees ----------------------------------------------------------------------------

pub const DEG45: u64 = 0x4046_8000_0000_0000;
pub const DEG90: u64 = 0x4056_8000_0000_0000;
pub const DEG135: u64 = 0x4060_e000_0000_0000;
pub const DEG180: u64 = 0x4066_8000_0000_0000;
pub const DEG225: u64 = 0x406c_2000_0000_0000;
pub const DEG270: u64 = 0x4070_e000_0000_0000;
pub const DEG315: u64 = 0x4073_b000_0000_0000;

/// An angle from 0 up to a full turn.
pub open spec fn turned_once(m: Reading, x: u64) -> u64 {
    let a = m.at(NumOp::Rem, x, FULL_TURN);
    if less(a, ZERO) {
        m.at(NumOp::Add, a, FULL_TURN)
    } else {
        a
    }
}

/// The sine of an angle in degrees, exact at the quadrants.
pub open spec fn sine(m: Reading, x: u64) -> u64 {
    let a = turned_once(m, x);
    if same(a, ZERO) || same(a, DEG180) {
        ZERO
    } else if same(a, DEG90) {
        ONE
    } else if same(a, DEG270) {
        MINUS_ONE
    } else {
        m.at(NumOp::Sin, m.at(NumOp::ToRadians, a, 0), 0)
    }
}

/// The cosine of an angle in degrees, exact at the quadrants.
pub open spec fn cosine(m: Reading, x: u64) -> u64 {
    let a = turned_once(m, x);
    if same(a, ZERO) {
        ONE
    } else if same(a, DEG90) || same(a, DEG270) {
        ZERO
    } else if same(a, DEG180) {
        MINUS_ONE
    } else {
        m.at(NumOp::Cos, m.at(NumOp::ToRadians, a, 0), 0)
    }
}

/// The tangent of an angle in degrees, exact at multiples of 45.
pub open spec fn tangent(m: Reading, x: u64) -> u64 {
    let a = turned_once(m, x);
    if same(a, ZERO) || same(a, DEG180) {
        ZERO
    } else if same(a, DEG45) || same(a, DEG225) {
        ONE
    } else if same(a, DEG135) || same(a, DEG315) {
        MINUS_ONE
    } else if same(a, DEG90) {
        INFINITY
    } else if same(a, DEG270) {
        NEG_INFINITY
    } else {
        m.at(NumOp::Tan, m.at(NumOp::ToRadians, a, 0), 0)
    }
}

/// An angle in degrees, brought into one turn.
pub fn norm_deg<A: Arithmetic>(calc: &mut Calc<A>, x: u64) -> (r: u64)
    ensures
        forall|m: Reading| #[trigger]
            final(calc).agrees(m) ==> old(calc).agrees(m) && r == turned_once(m, x),
{
    let a: u64 = calc.apply(NumOp::Rem, x, FULL_TURN);
    if is_less(a, ZERO) {
        calc.apply(NumOp::Add, a, FULL_TURN)
    } else {
        a
    }
}

fn of_radians<A: Arithmetic>(calc: &mut Calc<A>, op: NumOp, a: u64) -> (r: u64)
    ensures
        forall|m: Reading| #[trigger]
            final(calc).agrees(m) ==> old(calc).agrees(m) && r == m.at(
                op,
                m.at(NumOp::ToRadians, a, 0),
                0,
            ),
{
    let rad: u64 = calc.apply(NumOp::ToRadians, a, 0);
    calc.apply(op, rad, 0)
}

/// The sine of an angle in degrees, exact where it can be.
pub fn sin_deg<A: Arithmetic>(calc: &mut Calc<A>, x: u64) -> (r: u64)
    ensures
        forall|m: Reading| #[trigger]
            final(calc).agrees(m) ==> old(calc).agrees(m) && r == sine(m, x),
{
    let a: u64 = norm_deg(calc, x);
    if equals(a, ZERO) || equals(a, DEG180) {
        ZERO
    } else if equals(a, DEG90) {
        ONE
    } else if equals(a, DEG270) {
        MINUS_ONE
    } else {
        of_radians(calc, NumOp::Sin, a)
    }
}

/// The cosine of an angle in degrees, exact where it can be.
pub fn cos_deg<A: Arithmetic>(calc: &mut Calc<A>, x: u64) -> (r: u64)
    ensures
        forall|m: Reading| #[trigger]
            final(calc).agrees(m) ==> old(calc).agrees(m) && r == cosine(m, x),
{
    let a: u64 = norm_deg(calc, x);
    if equals(a, ZERO) {
        ONE
    } else if equals(a, DEG90) || equals(a, DEG270) {
        ZERO
    } else if equals(a, DEG180) {
        MINUS_ONE
    } else {
        of_radians(calc, NumOp::Cos, a)
    }
}

/// The tangent of an angle in degrees, exact where it can be.
pub fn tan_deg<A: Arithmetic>(calc: &mut Calc<A>, x: u64) -> (r: u64)
    ensures
        forall|m: Reading| #[trigger]
            final(calc).agrees(m) ==> old(calc).agrees(m) && r == tangent(m, x),
{
    let a: u64 = norm_deg(calc, x);
    if equals(a, ZERO) || equals(a, DEG180) {
        ZERO
    } else if equals(a, DEG45) || equals(a, DEG225) {
        ONE
    } else if equals(a, DEG135) || equals(a, DEG315) {
        MINUS_ONE
    } else if equals(a, DEG90) {
        INFINITY
    } else if equals(a, DEG270) {
        NEG_INFINITY
    } else {
        of_radians(calc, NumOp::Tan, a)
    }
}

// ---- numbers --------------------------------------------------------------------------------------

/// The sign of a number.
pub open spec fn sign_of(x: u64) -> u64 {
    if less(ZERO, x) {
        ONE
    } else if less(x, ZERO) {
        MINUS_ONE
    } else {
        ZERO
    }
}

/// What a function of one number gives; `None` for all others.
pub open spec fn of_one(m: Reading, b: Builtin, x: u64) -> Option<u64> {
    match b {
        Builtin::Abs => Some(size_of(x)),
        Builtin::Sign => Some(sign_of(x)),
        Builtin::Floor => Some(m.at(NumOp::Floor, x, 0)),
        Builtin::Ceil => Some(m.at(NumOp::Ceil, x, 0)),
        Builtin::Round => Some(m.at(NumOp::Round, x, 0)),
        Builtin::Sqrt => Some(m.at(NumOp::Sqrt, x, 0)),
        Builtin::Exp => Some(m.at(NumOp::Exp, x, 0)),
        Builtin::Ln => Some(m.at(NumOp::Ln, x, 0)),
        Builtin::Log => Some(m.at(NumOp::Log10, x, 0)),
        Builtin::Sin => Some(sine(m, x)),
        Builtin::Cos => Some(cosine(m, x)),
        Builtin::Tan => Some(tangent(m, x)),
        Builtin::Asin => Some(m.at(NumOp::ToDegrees, m.at(NumOp::Asin, x, 0), 0)),
        Builtin::Acos => Some(m.at(NumOp::ToDegrees, m.at(NumOp::Acos, x, 0), 0)),
        Builtin::Atan => Some(m.at(NumOp::ToDegrees, m.at(NumOp::Atan, x, 0), 0)),
        _ => None,
    }
}

fn apply_one<A: Arithmetic>(calc: &mut Calc<A>, b: Builtin, x: u64) -> (r: Option<u64>)
    ensures
        forall|m: Reading| #[trigger]
            final(calc).agrees(m) ==> old(calc).agrees(m) && r == of_one(m, b, x),
{
    match b {
        Builtin::Abs => Some(absolute(x)),
        Builtin::Sign => if is_less(ZERO, x) {
            Some(ONE)
        } else if is_less(x, ZERO) {
            Some(MINUS_ONE)
        } else {
            Some(ZERO)
        },
        Builtin::Floor => Some(calc.apply(NumOp::Floor, x, 0)),
        Builtin::Ceil => Some(calc.apply(NumOp::Ceil, x, 0)),
        Builtin::Round => Some(calc.apply(NumOp::Round, x, 0)),
        Builtin::Sqrt => Some(calc.apply(NumOp::Sqrt, x, 0)),
        Builtin::Exp => Some(calc.apply(NumOp::Exp, x, 0)),
        Builtin::Ln => Some(calc.apply(NumOp::Ln, x, 0)),
        Builtin::Log => Some(calc.apply(NumOp::Log10, x, 0)),
        Builtin::Sin => Some(sin_deg(calc, x)),
        Builtin::Cos => Some(cos_deg(calc, x)),
        Builtin::Tan => Some(tan_deg(calc, x)),
        Builtin::Asin => {
            let a: u64 = calc.apply(NumOp::Asin, x, 0);
            Some(calc.apply(NumOp::ToDegrees, a, 0))
        },
        Builtin::Acos => {
            let a: u64 = calc.apply(NumOp::Acos, x, 0);
            Some(calc.apply(NumOp::ToDegrees, a, 0))
        },
        Builtin::Atan => {
            let a: u64 = calc.apply(NumOp::Atan, x, 0);
            Some(calc.apply(NumOp::ToDegrees, a, 0))
        },
        _ => None,
    }
}

/// The numbers of a list, where all its items are numbers.
pub open spec fn numbers_from(items: Seq<Val>, i: int) -> Option<Seq<u64>>
    decreases items.len() - i,
{
    if i < 0 || i >= items.len() {
        Some(Seq::empty())
    } else {
        match (number_of(items[i]), numbers_from(items, i + 1)) {
            (Some(n), Some(rest)) => Some(seq![n] + rest),
            _ => None,
        }
    }
}

/// The numbers of a list, where all its items are numbers.
pub open spec fn numbers_of(items: Seq<Val>) -> Option<Seq<u64>> {
    numbers_from(items, 0)
}

pub(crate) proof fn lemma_numbers_from(items: Seq<Val>, i: int)
    requires
        0 <= i <= items.len(),
    ensures
        numbers_from(items, i) is Some <==> forall|k: int|
            i <= k < items.len() ==> number_of(#[trigger] items[k]) is Some,
        numbers_from(items, i) matches Some(v) ==> v.len() == items.len() - i && forall|k: int|
            0 <= k < v.len() ==> number_of(items[i + k]) == Some(#[trigger] v[k]),
    decreases items.len() - i,
{
    if i < items.len() {
        lemma_numbers_from(items, i + 1);
        match (number_of(items[i]), numbers_from(items, i + 1)) {
            (Some(n), Some(rest)) => {
                let v = seq![n] + rest;
                assert forall|k: int| 0 <= k < v.len() implies number_of(items[i + k]) == Some(
                    #[trigger] v[k],
                ) by {
                    if k > 0 {
                        assert(v[k] == rest[k - 1]);
                        assert(number_of(items[i + 1 + (k - 1)]) == Some(rest[k - 1]));
                    }
                }
            },
            _ => {},
        }
    }
}

fn gather_numbers(list: &Vec<Value>) -> (r: Option<Vec<u64>>)
    ensures
        match r {
            Some(v) => numbers_of(vals(list@)) == Some(v@),
            None => numbers_of(vals(list@)) is None,
        },
{
    let ghost items = vals(list@);
    let mut out: Vec<u64> = Vec::new();
    let mut i: usize = 0;
    proof {
        lemma_numbers_from(items, 0);
    }
    while i < list.len()
        invariant
            items == vals(list@),
            i <= list@.len(),
            out@.len() == i,
            forall|k: int| 0 <= k < i ==> number_of(items[k]) == Some(#[trigger] out@[k]),
            numbers_from(items, 0) is Some <==> forall|k: int|
                0 <= k < items.len() ==> number_of(#[trigger] items[k]) is Some,
        decreases list.len() - i,
    {
        assert(items[i as int] == list@[i as int]@);
        match list[i].as_number() {
            Some(n) => {
                out.push(n);
            },
            None => {
                assert(number_of(items[i as int]) is None);
                return None;
            },
        }
        i = i + 1;
    }
    proof {
        lemma_numbers_from(items, 0);
        assert forall|k: int| 0 <= k < items.len() implies number_of(#[trigger] items[k]) is Some by {
            assert(number_of(items[k]) == Some(out@[k]));
        }
        let v = numbers_from(items, 0)->0;
        assert forall|k: int| 0 <= k < out@.len() implies #[trigger] out@[k] == v[k] by {
            assert(number_of(items[0 + k]) == Some(v[k]));
        }
        assert(out@ =~= v);
    }
    Some(out)
}

/// The greatest or the least of the first `n` numbers.
pub open spec fn reduced(v: Seq<u64>, up: bool, n: int) -> u64
    decreases n,
{
    if n <= 1 {
        v[0]
    } else if up {
        greater(reduced(v, up, n - 1), v[n - 1])
    } else {
        lesser(reduced(v, up, n - 1), v[n - 1])
    }
}

/// The list in a value that is one.
pub open spec fn items_of(v: Val) -> Option<Seq<Val>> {
    match v {
        Val::Vector(items) => Some(items),
        _ => None,
    }
}

/// The greatest or the least of the arguments, or of the items of a single list.
pub open spec fn extreme(args: Seq<Val>, up: bool) -> Val {
    let nums = if args.len() == 1 && items_of(args[0]) is Some {
        numbers_of(items_of(args[0])->0)
    } else {
        numbers_of(args)
    };
    match nums {
        Some(v) => if v.len() == 0 {
            Val::Undef
        } else {
            Val::Number(reduced(v, up, v.len() as int))
        },
        None => Val::Undef,
    }
}

fn single_list(args: &Vec<Value>) -> (r: Option<&Vec<Value>>)
    ensures
        match r {
            Some(list) => vals(args@).len() == 1 && items_of(vals(args@)[0]) == Some(vals(list@)),
            None => !(vals(args@).len() == 1 && items_of(vals(args@)[0]) is Some),
        },
{
    if args.len() == 1 {
        assert(vals(args@)[0] == args@[0]@);
        as_list(&args[0])
    } else {
        None
    }
}

fn as_list(v: &Value) -> (r: Option<&Vec<Value>>)
    ensures
        match r {
            Some(list) => items_of(v@) == Some(vals(list@)),
            None => items_of(v@) is None,
        },
{
    match v {
        Value::Vector(items) => {
            let list: &Vec<Value> = &**items;
            assert(v@ matches Val::Vector(s) && s =~= vals(list@));
            Some(list)
        },
        _ => None,
    }
}

/// The least or the greatest of numbers or of a list of them; undefined where any is no number.
pub fn reduce_num(args: &Vec<Value>, up: bool) -> (r: Value)
    ensures
        r@ == extreme(vals(args@), up),
{
    let nums = match single_list(args) {
        Some(list) => gather_numbers(list),
        None => gather_numbers(args),
    };
    let v = match nums {
        Some(v) => v,
        None => {
            return Value::Undef;
        },
    };
    if v.len() == 0 {
        return Value::Undef;
    }
    let mut best: u64 = v[0];
    let mut i: usize = 1;
    while i < v.len()
        invariant
            1 <= i <= v@.len(),
            best == reduced(v@, up, i as int),
        decreases v.len() - i,
    {
        best = if up {
            max_of(best, v[i])
        } else {
            min_of(best, v[i])
        };
        i = i + 1;
    }
    Value::Number(best)
}

/// The sum of the squares of the first `n` numbers.
pub open spec fn squares(m: Reading, v: Seq<u64>, n: int) -> u64
    decreases n,
{
    if n <= 0 {
        ZERO
    } else {
        m.at(NumOp::Add, squares(m, v, n - 1), m.at(NumOp::Mul, v[n - 1], v[n - 1]))
    }
}

/// The length of a list of numbers as a vector.
pub open spec fn norm_of(m: Reading, v: Val) -> Val {
    match items_of(v) {
        Some(items) => match numbers_of(items) {
            Some(nums) => Val::Number(
                m.at(NumOp::Sqrt, squares(m, nums, nums.len() as int), 0),
            ),
            None => Val::Undef,
        },
        None => Val::Undef,
    }
}

fn norm_value<A: Arithmetic>(calc: &mut Calc<A>, v: &Value) -> (r: Value)
    ensures
        forall|m: Reading| #[trigger]
            final(calc).agrees(m) ==> old(calc).agrees(m) && r@ == norm_of(m, v@),
{
    let list = match as_list(v) {
        Some(list) => list,
        None => {
            return Value::Undef;
        },
    };
    let nums = match gather_numbers(list) {
        Some(nums) => nums,
        None => {
            return Value::Undef;
        },
    };
    let mut sum: u64 = ZERO;
    let mut i: usize = 0;
    while i < nums.len()
        invariant
            i <= nums@.len(),
            forall|m: Reading| #[trigger]
                calc.agrees(m) ==> old(calc).agrees(m) && sum == squares(m, nums@, i as int),
        decreases nums.len() - i,
    {
        let s: u64 = calc.apply(NumOp::Mul, nums[i], nums[i]);
        sum = calc.apply(NumOp::Add, sum, s);
        i = i + 1;
    }
    Value::Number(calc.apply(NumOp::Sqrt, sum, 0))
}

/// The cross product of two lists of three numbers, or of two.
pub open spec fn cross_of(m: Reading, a: Val, b: Val) -> Val {
    match (items_of(a), items_of(b)) {
        (Some(x), Some(y)) => match (numbers_of(x), numbers_of(y)) {
            (Some(u), Some(v)) => if u.len() == 3 && v.len() == 3 {
                Val::Vector(
                    seq![
                        Val::Number(minor(m, u[1], v[2], u[2], v[1])),
                        Val::Number(minor(m, u[2], v[0], u[0], v[2])),
                        Val::Number(minor(m, u[0], v[1], u[1], v[0])),
                    ],
                )
            } else if u.len() == 2 && v.len() == 2 {
                Val::Number(minor(m, u[0], v[1], u[1], v[0]))
            } else {
                Val::Undef
            },
            _ => Val::Undef,
        },
        _ => Val::Undef,
    }
}

fn minor_of<A: Arithmetic>(calc: &mut Calc<A>, a: u64, b: u64, c: u64, d: u64) -> (r: u64)
    ensures
        forall|m: Reading| #[trigger]
            final(calc).agrees(m) ==> old(calc).agrees(m) && r == minor(m, a, b, c, d),
{
    let p: u64 = calc.apply(NumOp::Mul, a, b);
    let q: u64 = calc.apply(NumOp::Mul, c, d);
    calc.apply(NumOp::Sub, p, q)
}

/// The cross product of two vectors of two or three numbers.
pub fn cross<A: Arithmetic>(calc: &mut Calc<A>, a: &Value, b: &Value) -> (r: Value)
    ensures
        forall|m: Reading| #[trigger]
            final(calc).agrees(m) ==> old(calc).agrees(m) && r@ == cross_of(m, a@, b@),
{
    let (x, y) = match (as_list(a), as_list(b)) {
        (Some(x), Some(y)) => (x, y),
        _ => {
            return Value::Undef;
        },
    };
    let (u, v) = match (gather_numbers(x), gather_numbers(y)) {
        (Some(u), Some(v)) => (u, v),
        _ => {
            return Value::Undef;
        },
    };
    if u.len() == 3 && v.len() == 3 {
        let p: u64 = minor_of(calc, u[1], v[2], u[2], v[1]);
        let q: u64 = minor_of(calc, u[2], v[0], u[0], v[2]);
        let s: u64 = minor_of(calc, u[0], v[1], u[1], v[0]);
        let mut out: Vec<Value> = Vec::new();
        out.push(Value::Number(p));
        out.push(Value::Number(q));
        out.push(Value::Number(s));
        assert(vals(out@) =~= seq![Val::Number(p), Val::Number(q), Val::Number(s)]);
        vector(out)
    } else if u.len() == 2 && v.len() == 2 {
        Value::Number(minor_of(calc, u[0], v[1], u[1], v[0]))
    } else {
        Value::Undef
    }
}

// ---- lists ------------------------------------------------------------------------------------------

/// The items of the first `n` arguments: those of a list, or the argument
/// itself.
pub open spec fn concatenated(args: Seq<Val>, n: int) -> Seq<Val>
    decreases n,
{
    if n <= 0 {
        Seq::empty()
    } else {
        concatenated(args, n - 1) + match items_of(args[n - 1]) {
            Some(items) => items,
            None => seq![args[n - 1]],
        }
    }
}

/// The items of lists one after the other; what is no list is an item.
pub fn concat(args: &Vec<Value>) -> (r: Value)
    ensures
        r@ == Val::Vector(concatenated(vals(args@), args@.len() as int)),
{
    let mut out: Vec<Value> = Vec::new();
    let mut i: usize = 0;
    assert(vals(out@) =~= Seq::empty());
    while i < args.len()
        invariant
            i <= args@.len(),
            vals(out@) == concatenated(vals(args@), i as int),
        decreases args.len() - i,
    {
        assert(vals(args@)[i as int] == args@[i as int]@);
        let ghost held = vals(out@);
        match as_list(&args[i]) {
            Some(list) => {
                let mut more = copy_values(list);
                let ghost added = vals(more@);
                out.append(&mut more);
                assert(vals(out@) =~= held + added);
            },
            None => {
                out.push(args[i].duplicate());
                assert(vals(out@) =~= held + seq![args@[i as int]@]);
            },
        }
        i = i + 1;
    }
    vector(out)
}

/// A key and its value.
#[derive(Clone, Copy, Debug, PartialEq, Eq, Structural)]
pub struct TablePair {
    pub key: u64,
    pub value: u64,
}

/// The key and the value of a row, where it has both.
pub open spec fn pair_of(row: Val) -> Option<TablePair> {
    match items_of(row) {
        Some(items) => if items.len() >= 2 {
            match (number_of(items[0]), number_of(items[1])) {
                (Some(key), Some(value)) => Some(TablePair { key, value }),
                _ => None,
            }
        } else {
            None
        },
        None => None,
    }
}

/// The keys and values of the first `n` rows.
pub open spec fn pairs_of(rows: Seq<Val>, n: int) -> Seq<TablePair>
    decreases n,
{
    if n <= 0 {
        Seq::empty()
    } else {
        match pair_of(rows[n - 1]) {
            Some(p) => pairs_of(rows, n - 1).push(p),
            None => pairs_of(rows, n - 1),
        }
    }
}

/// The first pair with the least key.
pub open spec fn first_pair(p: Seq<TablePair>, n: int) -> int
    decreases n,
{
    if n <= 1 {
        0
    } else {
        let f = first_pair(p, n - 1);
        if less(p[n - 1].key, p[f].key) {
            n - 1
        } else {
            f
        }
    }
}

/// The last pair with the greatest key.
pub open spec fn last_pair(p: Seq<TablePair>, n: int) -> int
    decreases n,
{
    if n <= 1 {
        0
    } else {
        let l = last_pair(p, n - 1);
        if less(p[n - 1].key, p[l].key) {
            l
        } else {
            n - 1
        }
    }
}

/// The last pair with the greatest key below `key`.
pub open spec fn pair_below(p: Seq<TablePair>, key: u64, n: int) -> Option<int>
    decreases n,
{
    if n <= 0 {
        None
    } else {
        let b = pair_below(p, key, n - 1);
        if less(p[n - 1].key, key) && (b is None || !less(p[n - 1].key, p[b->0].key)) {
            Some(n - 1)
        } else {
            b
        }
    }
}

/// The first pair with the least key not below `key`.
pub open spec fn pair_above(p: Seq<TablePair>, key: u64, n: int) -> Option<int>
    decreases n,
{
    if n <= 0 {
        None
    } else {
        let a = pair_above(p, key, n - 1);
        if at_most(key, p[n - 1].key) && (a is None || less(p[n - 1].key, p[a->0].key)) {
            Some(n - 1)
        } else {
            a
        }
    }
}

/// The value between two pairs.
pub open spec fn between(m: Reading, key: u64, lo: TablePair, hi: TablePair) -> u64 {
    let t = m.at(
        NumOp::Div,
        m.at(NumOp::Sub, key, lo.key),
        m.at(NumOp::Sub, hi.key, lo.key),
    );
    m.at(NumOp::Add, lo.value, m.at(NumOp::Mul, t, m.at(NumOp::Sub, hi.value, lo.value)))
}

/// The value for a key in a table: interpolated between the nearest keys, and
/// that of the nearest key outside them.
pub open spec fn looked_up(m: Reading, key: Val, table: Val) -> Val {
    match (number_of(key), items_of(table)) {
        (Some(k), Some(rows)) => {
            let p = pairs_of(rows, rows.len() as int);
            let n = p.len() as int;
            if n == 0 {
                Val::Undef
            } else if at_most(k, p[first_pair(p, n)].key) {
                Val::Number(p[first_pair(p, n)].value)
            } else if at_most(p[last_pair(p, n)].key, k) {
                Val::Number(p[last_pair(p, n)].value)
            } else {
                match (pair_below(p, k, n), pair_above(p, k, n)) {
                    (Some(b), Some(a)) => Val::Number(between(m, k, p[b], p[a])),
                    _ => Val::Undef,
                }
            }
        },
        _ => Val::Undef,
    }
}

fn read_pair(row: &Value) -> (r: Option<TablePair>)
    ensures
        r == pair_of(row@),
{
    match as_list(row) {
        Some(items) => if items.len() >= 2 {
            assert(vals(items@)[0] == items@[0]@);
            assert(vals(items@)[1] == items@[1]@);
            match (items[0].as_number(), items[1].as_number()) {
                (Some(key), Some(value)) => Some(TablePair { key, value }),
                _ => None,
            }
        } else {
            None
        },
        None => None,
    }
}

/// Where pairs stand.
struct Nearest {
    first: usize,
    last: usize,
    below: Option<usize>,
    above: Option<usize>,
}

spec fn placed(o: Option<usize>) -> Option<int> {
    match o {
        Some(i) => Some(i as int),
        None => None,
    }
}

fn nearest(p: &Vec<TablePair>, key: u64) -> (r: Nearest)
    requires
        p@.len() > 0,
    ensures
        r.first < p@.len(),
        r.last < p@.len(),
        r.below matches Some(b) ==> b < p@.len(),
        r.above matches Some(a) ==> a < p@.len(),
        r.first == first_pair(p@, p@.len() as int),
        r.last == last_pair(p@, p@.len() as int),
        placed(r.below) == pair_below(p@, key, p@.len() as int),
        placed(r.above) == pair_above(p@, key, p@.len() as int),
{
    let mut s = Nearest { first: 0, last: 0, below: None, above: None };
    let mut i: usize = 0;
    while i < p.len()
        invariant
            i <= p@.len(),
            p@.len() > 0,
            s.first < p@.len(),
            s.last < p@.len(),
            s.below matches Some(b) ==> b < p@.len(),
            s.above matches Some(a) ==> a < p@.len(),
            s.first == first_pair(p@, i as int),
            s.last == last_pair(p@, i as int),
            placed(s.below) == pair_below(p@, key, i as int),
            placed(s.above) == pair_above(p@, key, i as int),
        decreases p.len() - i,
    {
        let k: u64 = p[i].key;
        if i > 0 {
            if is_less(k, p[s.first].key) {
                s.first = i;
            }
            if !is_less(k, p[s.last].key) {
                s.last = i;
            }
        }
        if is_less(k, key) {
            let nearer: bool = match s.below {
                Some(b) => !is_less(k, p[b].key),
                None => true,
            };
            if nearer {
                s.below = Some(i);
            }
        }
        if is_at_most(key, k) {
            let nearer: bool = match s.above {
                Some(a) => is_less(k, p[a].key),
                None => true,
            };
            if nearer {
                s.above = Some(i);
            }
        }
        i = i + 1;
    }
    s
}

fn read_pairs(rows: &Vec<Value>) -> (r: Vec<TablePair>)
    ensures
        r@ == pairs_of(vals(rows@), rows@.len() as int),
{
    let mut out: Vec<TablePair> = Vec::new();
    let mut i: usize = 0;
    while i < rows.len()
        invariant
            i <= rows@.len(),
            out@ =~= pairs_of(vals(rows@), i as int),
        decreases rows.len() - i,
    {
        assert(vals(rows@)[i as int] == rows@[i as int]@);
        match read_pair(&rows[i]) {
            Some(p) => {
                out.push(p);
            },
            None => {},
        }
        i = i + 1;
    }
    out
}

/// The value for a key in a table.
pub fn lookup<A: Arithmetic>(calc: &mut Calc<A>, key: &Value, table: &Value) -> (r: Value)
    ensures
        forall|m: Reading| #[trigger]
            final(calc).agrees(m) ==> old(calc).agrees(m) && r@ == looked_up(m, key@, table@),
{
    let k: u64 = match key.as_number() {
        Some(k) => k,
        None => {
            return Value::Undef;
        },
    };
    let rows = match as_list(table) {
        Some(rows) => rows,
        None => {
            return Value::Undef;
        },
    };
    let p = read_pairs(rows);
    if p.len() == 0 {
        return Value::Undef;
    }
    let s = nearest(&p, k);
    if is_at_most(k, p[s.first].key) {
        return Value::Number(p[s.first].value);
    }
    if is_at_most(p[s.last].key, k) {
        return Value::Number(p[s.last].value);
    }
    match (s.below, s.above) {
        (Some(b), Some(a)) => {
            let d: u64 = calc.apply(NumOp::Sub, k, p[b].key);
            let w: u64 = calc.apply(NumOp::Sub, p[a].key, p[b].key);
            let t: u64 = calc.apply(NumOp::Div, d, w);
            let h: u64 = calc.apply(NumOp::Sub, p[a].value, p[b].value);
            let u: u64 = calc.apply(NumOp::Mul, t, h);
            Value::Number(calc.apply(NumOp::Add, p[b].value, u))
        },
        _ => Value::Undef,
    }
}

// ---- searching --------------------------------------------------------------------------------------

/// What of an entry is compared: the whole of it, or one column of a row.
pub open spec fn compared(entry: Val, whole: bool, column: u64) -> Val {
    if whole {
        entry
    } else {
        match entry {
            Val::Vector(row) => if column < row.len() {
                row[column as int]
            } else {
                Val::Undef
            },
            other => other,
        }
    }
}

/// The places among the first `n` entries that match.
pub open spec fn matches_of(entries: Seq<Val>, needle: Val, whole: bool, column: u64, n: int) -> Seq<int>
    decreases n,
{
    if n <= 0 {
        Seq::empty()
    } else {
        let done = matches_of(entries, needle, whole, column, n - 1);
        if equal_values(compared(entries[n - 1], whole, column), needle) {
            done.push(n - 1)
        } else {
            done
        }
    }
}

/// How a search goes.
#[derive(Clone, Copy, Debug, PartialEq, Eq, Structural)]
pub struct SearchPlan {
    /// How many matches are wanted, 0 for all.
    pub limit: u64,
    pub column: u64,
    /// Whether the column was asked for.
    pub given: bool,
}

/// The places that match, as many as are wanted.
pub open spec fn hits(entries: Seq<Val>, needle: Val, plan: SearchPlan) -> Seq<int> {
    let whole = !plan.given && needle is Vector;
    let all = matches_of(entries, needle, whole, plan.column, entries.len() as int);
    if plan.limit != 0 && plan.limit < all.len() {
        all.take(plan.limit as int)
    } else {
        all
    }
}

/// Places as numbers.
pub open spec fn place_values(m: Reading, at: Seq<int>) -> Seq<Val> {
    at.map_values(|i: int| Val::Number(m.at(NumOp::FromInt, i as u64, 0)))
}

/// The result for one needle: its first place or an empty list where one match
/// is wanted, else all places.
pub open spec fn packed(m: Reading, at: Seq<int>, limit: u64) -> Val {
    if limit == 1 && at.len() > 0 {
        place_values(m, at)[0]
    } else if limit == 1 {
        Val::Vector(Seq::empty())
    } else {
        Val::Vector(place_values(m, at))
    }
}

/// The results for the first `n` needles; without those that are not found where
/// `skip` says so.
pub open spec fn found_each(
    m: Reading,
    entries: Seq<Val>,
    needles: Seq<Val>,
    plan: SearchPlan,
    skip: bool,
    n: int,
) -> Seq<Val>
    decreases n,
{
    if n <= 0 {
        Seq::empty()
    } else {
        let done = found_each(m, entries, needles, plan, skip, n - 1);
        let at = hits(entries, needles[n - 1], plan);
        if skip && at.len() == 0 {
            done
        } else {
            done.push(packed(m, at, plan.limit))
        }
    }
}

/// What can be searched: the items of a list, the characters of a text.
pub open spec fn entries_of(list: Val) -> Option<Seq<Val>> {
    match list {
        Val::Vector(items) => Some(items),
        Val::Str(s) => Some(char_vals(s)),
        _ => None,
    }
}

/// What searching gives: for a number or a truth value its places; for a text
/// or a list one result for each character or item, where a text leaves out
/// what is not found if one match is wanted.
pub open spec fn searched(m: Reading, find: Val, list: Val, plan: SearchPlan) -> Val {
    match entries_of(list) {
        None => Val::Undef,
        Some(entries) => match find {
            Val::Number(_) => Val::Vector(place_values(m, hits(entries, find, plan))),
            Val::Bool(_) => Val::Vector(place_values(m, hits(entries, find, plan))),
            Val::Str(s) => Val::Vector(
                found_each(
                    m,
                    entries,
                    char_vals(s),
                    plan,
                    plan.limit == 1,
                    char_vals(s).len() as int,
                ),
            ),
            Val::Vector(items) => Val::Vector(
                found_each(m, entries, items, plan, false, items.len() as int),
            ),
            _ => Val::Undef,
        },
    }
}

fn compare_entry(entry: &Value, needle: &Value, whole: bool, column: u64) -> (r: bool)
    ensures
        r == equal_values(compared(entry@, whole, column), needle@),
{
    if whole {
        return value_eq(entry, needle);
    }
    match as_list(entry) {
        Some(row) => if column < row.len() as u64 {
            assert(vals(row@)[column as int] == row@[column as int]@);
            value_eq(&row[column as usize], needle)
        } else {
            let none = Value::Undef;
            value_eq(&none, needle)
        },
        None => value_eq(entry, needle),
    }
}

proof fn lemma_matches_grow(
    entries: Seq<Val>,
    needle: Val,
    whole: bool,
    column: u64,
    i: int,
    n: int,
)
    requires
        0 <= i <= n,
    ensures
        matches_of(entries, needle, whole, column, i).len() <= i,
        matches_of(entries, needle, whole, column, i).len() <= matches_of(
            entries,
            needle,
            whole,
            column,
            n,
        ).len(),
        matches_of(entries, needle, whole, column, n).take(
            matches_of(entries, needle, whole, column, i).len() as int,
        ) =~= matches_of(entries, needle, whole, column, i),
    decreases n, i,
{
    if i > 0 {
        lemma_matches_grow(entries, needle, whole, column, i - 1, i - 1);
    }
    if i < n {
        lemma_matches_grow(entries, needle, whole, column, i, n - 1);
    }
}

/// Places as whole numbers.
spec fn as_places(v: Seq<usize>) -> Seq<int> {
    v.map_values(|i: usize| i as int)
}

fn find_hits(entries: &Vec<Value>, needle: &Value, plan: SearchPlan) -> (r: Vec<usize>)
    ensures
        as_places(r@) == hits(vals(entries@), needle@, plan),
{
    let ghost ev = vals(entries@);
    let is_list: bool = match needle {
        Value::Vector(_) => true,
        _ => false,
    };
    let whole: bool = !plan.given && is_list;
    assert(whole == (!plan.given && needle@ is Vector));
    let mut out: Vec<usize> = Vec::new();
    let mut i: usize = 0;
    assert(as_places(out@) =~= Seq::empty());
    while i < entries.len()
        invariant
            ev == vals(entries@),
            i <= entries@.len(),
            out@.len() <= i,
            whole == (!plan.given && needle@ is Vector),
            plan.limit != 0 ==> out@.len() < plan.limit,
            as_places(out@) == matches_of(ev, needle@, whole, plan.column, i as int),
        decreases entries.len() - i,
    {
        assert(ev[i as int] == entries@[i as int]@);
        if compare_entry(&entries[i], needle, whole, plan.column) {
            let ghost held = as_places(out@);
            out.push(i);
            proof {
                assert(as_places(out@) =~= held.push(i as int));
                lemma_matches_grow(
                    ev,
                    needle@,
                    whole,
                    plan.column,
                    i + 1,
                    ev.len() as int,
                );
            }
            if plan.limit != 0 && out.len() as u64 >= plan.limit {
                assert(as_places(out@).len() == plan.limit);
                assert(as_places(out@) =~= hits(ev, needle@, plan));
                return out;
            }
        }
        i = i + 1;
    }
    out
}

fn number_places<A: Arithmetic>(calc: &mut Calc<A>, at: &Vec<usize>) -> (r: Vec<Value>)
    ensures
        r@.len() == at@.len(),
        forall|m: Reading| #[trigger]
            final(calc).agrees(m) ==> old(calc).agrees(m) && vals(r@) == place_values(
                m,
                as_places(at@),
            ),
{
    let mut out: Vec<Value> = Vec::new();
    let mut i: usize = 0;
    while i < at.len()
        invariant
            i <= at@.len(),
            out@.len() == i,
            forall|m: Reading| #[trigger]
                calc.agrees(m) ==> old(calc).agrees(m) && forall|k: int|
                    0 <= k < i ==> (#[trigger] vals(out@)[k]) == place_values(
                        m,
                        as_places(at@),
                    )[k],
        decreases at.len() - i,
    {
        let n: u64 = calc.apply(NumOp::FromInt, at[i] as u64, 0);
        let ghost held = vals(out@);
        out.push(Value::Number(n));
        assert(vals(out@) =~= held.push(Val::Number(n)));
        i = i + 1;
    }
    proof {
        assert forall|m: Reading| #[trigger] calc.agrees(m) implies vals(out@) == place_values(
            m,
            as_places(at@),
        ) by {
            assert(vals(out@) =~= place_values(m, as_places(at@)));
        }
    }
    out
}

fn pack<A: Arithmetic>(calc: &mut Calc<A>, at: &Vec<usize>, limit: u64) -> (r: Value)
    ensures
        forall|m: Reading| #[trigger]
            final(calc).agrees(m) ==> old(calc).agrees(m) && r@ == packed(
                m,
                as_places(at@),
                limit,
            ),
{
    let list = number_places(calc, at);
    if limit == 1 {
        if list.len() > 0 {
            assert(vals(list@)[0] == list@[0]@);
            list[0].duplicate()
        } else {
            let none: Vec<Value> = Vec::new();
            assert(vals(none@) =~= Seq::empty());
            vector(none)
        }
    } else {
        vector(list)
    }
}

fn find_each<A: Arithmetic>(
    calc: &mut Calc<A>,
    entries: &Vec<Value>,
    needles: &Vec<Value>,
    plan: SearchPlan,
    skip: bool,
) -> (r: Vec<Value>)
    ensures
        forall|m: Reading| #[trigger]
            final(calc).agrees(m) ==> old(calc).agrees(m) && vals(r@) == found_each(
                m,
                vals(entries@),
                vals(needles@),
                plan,
                skip,
                needles@.len() as int,
            ),
{
    let mut out: Vec<Value> = Vec::new();
    let mut i: usize = 0;
    assert(vals(out@) =~= Seq::empty());
    while i < needles.len()
        invariant
            i <= needles@.len(),
            forall|m: Reading| #[trigger]
                calc.agrees(m) ==> old(calc).agrees(m) && vals(out@) == found_each(
                    m,
                    vals(entries@),
                    vals(needles@),
                    plan,
                    skip,
                    i as int,
                ),
        decreases needles.len() - i,
    {
        assert(vals(needles@)[i as int] == needles@[i as int]@);
        let at = find_hits(entries, &needles[i], plan);
        assert(as_places(at@).len() == at@.len());
        if !(skip && at.len() == 0) {
            let v = pack(calc, &at, plan.limit);
            let ghost vv = v@;
            let ghost held = vals(out@);
            out.push(v);
            assert(vals(out@) =~= held.push(vv));
        }
        i = i + 1;
    }
    out
}

/// Searches a list or a text.
pub fn search<A: Arithmetic>(calc: &mut Calc<A>, find: &Value, list: &Value, plan: SearchPlan) -> (r:
    Value)
    ensures
        forall|m: Reading| #[trigger]
            final(calc).agrees(m) ==> old(calc).agrees(m) && r@ == searched(
                m,
                find@,
                list@,
                plan,
            ),
{
    let entries = match list {
        Value::Vector(items) => {
            let v: &Vec<Value> = &**items;
            assert(list@ matches Val::Vector(s) && s =~= vals(v@));
            copy_values(v)
        },
        Value::Str(s) => text_values(s.as_str()),
        _ => {
            return Value::Undef;
        },
    };
    match find {
        Value::Number(_) => {
            let at = find_hits(&entries, find, plan);
            let out = number_places(calc, &at);
            vector(out)
        },
        Value::Bool(_) => {
            let at = find_hits(&entries, find, plan);
            let out = number_places(calc, &at);
            vector(out)
        },
        Value::Str(s) => {
            let needles = text_values(s.as_str());
            let out = find_each(calc, &entries, &needles, plan, plan.limit == 1);
            vector(out)
        },
        Value::Vector(items) => {
            let needles: &Vec<Value> = &**items;
            assert(find@ matches Val::Vector(s) && s =~= vals(needles@));
            let out = find_each(calc, &entries, needles, plan, false);
            vector(out)
        },
        _ => Value::Undef,
    }
}

// ---- texts -----------------------------------------------------------------------------------------

/// A number is that of a character.
pub open spec fn is_scalar(n: int) -> bool {
    0 <= n <= 0x10_ffff && !(0xd800 <= n <= 0xdfff)
}

/// `char::from_u32` of std: the character of a number, for every number up to
/// 0x10FFFF that is no surrogate.
pub assume_specification[ char::from_u32 ](i: u32) -> (r: Option<char>)
    ensures
        match r {
            Some(c) => is_scalar(i as int) && c as u32 == i,
            None => !is_scalar(i as int),
        },
;

/// A character has a number.
pub open spec fn numbers(c: char, n: u32) -> bool {
    c as u32 == n
}

/// The character of a number.
pub open spec fn char_of(n: u32) -> char {
    choose|c: char| numbers(c, n)
}

/// The character of a number as text; nothing for 0 and for what is no
/// character's number.
pub open spec fn char_text(m: Reading, n: u64) -> Seq<char> {
    let k = m.at(NumOp::ToInt, n, 0);
    if k != 0 && is_scalar(k as int) {
        seq![char_of(k as u32)]
    } else {
        Seq::empty()
    }
}

/// The characters of the numbers among the first `n` items.
pub open spec fn chars_text(m: Reading, items: Seq<Val>, n: int) -> Seq<char>
    decreases n,
{
    if n <= 0 {
        Seq::empty()
    } else {
        chars_text(m, items, n - 1) + match number_of(items[n - 1]) {
            Some(x) => char_text(m, x),
            None => Seq::empty(),
        }
    }
}

/// The characters that one argument stands for.
pub open spec fn chr_of(m: Reading, v: Val) -> Seq<char> {
    match v {
        Val::Number(n) => char_text(m, n),
        Val::Vector(items) => chars_text(m, items, items.len() as int),
        Val::Range { .. } => match iterated(m, v) {
            Some(items) => chars_text(m, items, items.len() as int),
            None => Seq::empty(),
        },
        _ => Seq::empty(),
    }
}

/// The characters that the first `n` arguments stand for.
pub open spec fn chrs_of(m: Reading, args: Seq<Val>, n: int) -> Seq<char>
    decreases n,
{
    if n <= 0 {
        Seq::empty()
    } else {
        chrs_of(m, args, n - 1) + chr_of(m, args[n - 1])
    }
}

fn push_char<A: Arithmetic>(calc: &mut Calc<A>, s: &mut String, n: u64)
    ensures
        forall|m: Reading| #[trigger]
            final(calc).agrees(m) ==> old(calc).agrees(m) && final(s)@ == old(s)@ + char_text(m, n),
{
    let k: u64 = calc.apply(NumOp::ToInt, n, 0);
    let ghost before = s@;
    if k != 0 && k <= 0x10_ffff {
        match char::from_u32(k as u32) {
            Some(c) => {
                proof {
                    let d = char_of(k as u32);
                    assert(numbers(c, k as u32));
                    assert(d as u32 == k as u32);
                    lemma_code_injective(c, d);
                }
                s.push(c);
                assert(s@ =~= before + seq![char_of(k as u32)]);
            },
            None => {
                assert(before + Seq::<char>::empty() =~= before);
            },
        }
    } else {
        assert(before + Seq::<char>::empty() =~= before);
    }
}

fn push_chars<A: Arithmetic>(calc: &mut Calc<A>, s: &mut String, items: &Vec<Value>)
    ensures
        forall|m: Reading| #[trigger]
            final(calc).agrees(m) ==> old(calc).agrees(m) && final(s)@ == old(s)@ + chars_text(
                m,
                vals(items@),
                items@.len() as int,
            ),
{
    let ghost before = s@;
    let mut i: usize = 0;
    assert(before + Seq::<char>::empty() =~= before);
    while i < items.len()
        invariant
            i <= items@.len(),
            forall|m: Reading| #[trigger]
                calc.agrees(m) ==> old(calc).agrees(m) && s@ == before + chars_text(
                    m,
                    vals(items@),
                    i as int,
                ),
        decreases items.len() - i,
    {
        assert(vals(items@)[i as int] == items@[i as int]@);
        let ghost held = s@;
        let ghost c0 = *calc;
        match items[i].as_number() {
            Some(n) => {
                push_char(calc, s, n);
                proof {
                    assert forall|m: Reading| #[trigger] calc.agrees(m) implies s@ == before
                        + chars_text(m, vals(items@), i + 1) by {
                        assert(c0.agrees(m));
                        assert(s@ =~= before + chars_text(m, vals(items@), i + 1));
                    }
                }
            },
            None => {
                proof {
                    assert forall|m: Reading| #[trigger] calc.agrees(m) implies s@ == before
                        + chars_text(m, vals(items@), i + 1) by {
                        assert(s@ =~= before + chars_text(m, vals(items@), i + 1));
                    }
                }
            },
        }
        i = i + 1;
    }
}

fn push_chr<A: Arithmetic>(calc: &mut Calc<A>, s: &mut String, v: &Value)
    ensures
        forall|m: Reading| #[trigger]
            final(calc).agrees(m) ==> old(calc).agrees(m) && final(s)@ == old(s)@ + chr_of(m, v@),
{
    assert(s@ + Seq::<char>::empty() =~= s@);
    match v {
        Value::Number(n) => {
            push_char(calc, s, *n);
        },
        Value::Vector(items) => {
            let list: &Vec<Value> = &**items;
            assert(v@ matches Val::Vector(x) && x =~= vals(list@));
            push_chars(calc, s, list);
        },
        Value::Range { .. } => {
            match iter_values(calc, v) {
                Some(list) => {
                    push_chars(calc, s, &list);
                },
                None => {},
            }
        },
        _ => {},
    }
}

/// The text of the characters that the arguments stand for.
pub fn chr<A: Arithmetic>(calc: &mut Calc<A>, args: &Vec<Value>) -> (r: Value)
    ensures
        forall|m: Reading| #[trigger]
            final(calc).agrees(m) ==> old(calc).agrees(m) && r@ == Val::Str(
                chrs_of(m, vals(args@), args@.len() as int),
            ),
{
    let mut s = String::new();
    let mut i: usize = 0;
    assert(s@ =~= Seq::empty());
    while i < args.len()
        invariant
            i <= args@.len(),
            forall|m: Reading| #[trigger]
                calc.agrees(m) ==> old(calc).agrees(m) && s@ == chrs_of(
                    m,
                    vals(args@),
                    i as int,
                ),
        decreases args.len() - i,
    {
        assert(vals(args@)[i as int] == args@[i as int]@);
        push_chr(calc, &mut s, &args[i]);
        i = i + 1;
    }
    Value::Str(s)
}

/// The texts of the first `n` arguments, one after the other.
pub open spec fn strung(m: Reading, args: Seq<Val>, functions: Seq<Seq<char>>, n: int) -> Seq<char>
    decreases n,
{
    if n <= 0 {
        Seq::empty()
    } else {
        strung(m, args, functions, n - 1) + str_of(m, args[n - 1], functions)
    }
}

/// The texts of the arguments, one after the other.
pub fn string_of<A: Arithmetic>(calc: &mut Calc<A>, functions: &Vec<String>, args: &Vec<Value>) -> (r:
    Value)
    ensures
        forall|m: Reading| #[trigger]
            final(calc).agrees(m) ==> old(calc).agrees(m) && r@ == Val::Str(
                strung(m, vals(args@), texts(functions@), args@.len() as int),
            ),
{
    let mut s = String::new();
    let mut i: usize = 0;
    assert(s@ =~= Seq::empty());
    while i < args.len()
        invariant
            i <= args@.len(),
            forall|m: Reading| #[trigger]
                calc.agrees(m) ==> old(calc).agrees(m) && s@ == strung(
                    m,
                    vals(args@),
                    texts(functions@),
                    i as int,
                ),
        decreases args.len() - i,
    {
        assert(vals(args@)[i as int] == args@[i as int]@);
        let t = args[i].to_str(calc, functions);
        s.append(t.as_str());
        i = i + 1;
    }
    Value::Str(s)
}

// ---- random numbers -----------------------------------------------------------------------------------

/// What the generator starts from.
pub const RANDOM_START: u64 = 0x9e37_79b9_7f4a_7c15;

/// What a seed is mixed with.
pub const RANDOM_MIX: u64 = 0x2545_f491_4f6c_dd1d;

/// The most numbers in one call.
pub const MAX_RANDS: u64 = 1_000_000;

/// 2^53.
pub const TWO53: u64 = 0x4340_0000_0000_0000;

/// The state after one step of the generator.
pub open spec fn stirred(s: u64) -> u64 {
    let a = s ^ (s << 13u64);
    let b = a ^ (a >> 7u64);
    b ^ (b << 17u64)
}

/// The state after `n` steps.
pub open spec fn stirred_times(s: u64, n: int) -> u64
    decreases n,
{
    if n <= 0 {
        s
    } else {
        stirred(stirred_times(s, n - 1))
    }
}

/// The number for a state, between two limits.
pub open spec fn drawn(m: Reading, s: u64, min: u64, max: u64) -> u64 {
    let u = m.at(NumOp::Div, m.at(NumOp::FromInt, s >> 11u64, 0), TWO53);
    m.at(NumOp::Add, min, m.at(NumOp::Mul, u, m.at(NumOp::Sub, max, min)))
}

/// The `i`-th argument as a number.
pub open spec fn num_at(args: Seq<Val>, i: int) -> Option<u64> {
    if 0 <= i < args.len() {
        number_of(args[i])
    } else {
        None
    }
}

/// The `i`-th argument as a number, or else another.
pub open spec fn num_or(args: Seq<Val>, i: int, other: u64) -> u64 {
    match num_at(args, i) {
        Some(n) => n,
        None => other,
    }
}

/// How many numbers are asked for.
pub open spec fn rands_count(m: Reading, args: Seq<Val>) -> u64 {
    let n = m.at(NumOp::ToInt, greater(num_or(args, 2, ONE), ZERO), 0);
    if n > MAX_RANDS {
        MAX_RANDS
    } else {
        n
    }
}

/// What the generator goes on from: the seed, or where it stopped.
pub open spec fn rands_from(args: Seq<Val>, state: u64) -> u64 {
    let s = match num_at(args, 3) {
        Some(seed) => seed ^ RANDOM_MIX,
        None => state,
    };
    if s == 0 {
        1
    } else {
        s
    }
}

/// Random numbers, and the state that the generator is left in.
pub open spec fn rands_of(m: Reading, args: Seq<Val>, state: u64) -> (Val, u64) {
    let n = rands_count(m, args);
    let s = rands_from(args, state);
    (
        Val::Vector(
            Seq::new(
                n as nat,
                |i: int|
                    Val::Number(
                        drawn(
                            m,
                            stirred_times(s, i + 1),
                            num_or(args, 0, ZERO),
                            num_or(args, 1, ONE),
                        ),
                    ),
            ),
        ),
        stirred_times(s, n as int),
    )
}

fn arg_number(args: &Vec<Value>, i: usize) -> (r: Option<u64>)
    ensures
        r == num_at(vals(args@), i as int),
{
    if i < args.len() {
        assert(vals(args@)[i as int] == args@[i as int]@);
        args[i].as_number()
    } else {
        None
    }
}

fn arg_or(args: &Vec<Value>, i: usize, other: u64) -> (r: u64)
    ensures
        r == num_or(vals(args@), i as int, other),
{
    match arg_number(args, i) {
        Some(n) => n,
        None => other,
    }
}

fn stir(s: u64) -> (r: u64)
    ensures
        r == stirred(s),
{
    let a: u64 = s ^ (s << 13u64);
    let b: u64 = a ^ (a >> 7u64);
    b ^ (b << 17u64)
}

fn draw<A: Arithmetic>(calc: &mut Calc<A>, s: u64, min: u64, max: u64) -> (r: u64)
    ensures
        forall|m: Reading| #[trigger]
            final(calc).agrees(m) ==> old(calc).agrees(m) && r == drawn(m, s, min, max),
{
    let top: u64 = calc.apply(NumOp::FromInt, s >> 11u64, 0);
    let u: u64 = calc.apply(NumOp::Div, top, TWO53);
    let w: u64 = calc.apply(NumOp::Sub, max, min);
    let d: u64 = calc.apply(NumOp::Mul, u, w);
    calc.apply(NumOp::Add, min, d)
}

/// A list of random numbers. The generator goes on where the last call left it,
/// unless a seed is given.
pub fn rands_fn<A: Arithmetic>(calc: &mut Calc<A>, state: &mut u64, args: &Vec<Value>) -> (r: Value)
    ensures
        forall|m: Reading| #[trigger]
            final(calc).agrees(m) ==> old(calc).agrees(m) && (r@, *final(state)) == rands_of(
                m,
                vals(args@),
                *old(state),
            ),
{
    let min: u64 = arg_or(args, 0, ZERO);
    let max: u64 = arg_or(args, 1, ONE);
    let wanted: u64 = calc.apply(NumOp::ToInt, max_of(arg_or(args, 2, ONE), ZERO), 0);
    let n: u64 = if wanted > MAX_RANDS {
        MAX_RANDS
    } else {
        wanted
    };
    let mixed: u64 = match arg_number(args, 3) {
        Some(seed) => seed ^ RANDOM_MIX,
        None => *state,
    };
    let start: u64 = if mixed == 0 {
        1
    } else {
        mixed
    };
    assert(start == rands_from(vals(args@), *state));
    let mut s: u64 = start;
    let mut out: Vec<Value> = Vec::new();
    let mut i: u64 = 0;
    let ghost c0 = *calc;
    while i < n
        invariant
            i <= n,
            n <= MAX_RANDS,
            out@.len() == i,
            s == stirred_times(start, i as int),
            forall|m: Reading| #[trigger]
                calc.agrees(m) ==> c0.agrees(m) && forall|k: int|
                    0 <= k < i ==> (#[trigger] vals(out@)[k]) == Val::Number(
                        drawn(m, stirred_times(start, k + 1), min, max),
                    ),
        decreases n - i,
    {
        s = stir(s);
        let x: u64 = draw(calc, s, min, max);
        let ghost held = vals(out@);
        out.push(Value::Number(x));
        assert(vals(out@) =~= held.push(Val::Number(x)));
        i = i + 1;
    }
    *state = s;
    proof {
        assert forall|m: Reading| #[trigger] calc.agrees(m) implies Val::Vector(vals(out@))
            == rands_of(m, vals(args@), *old(state)).0 by {
            assert(vals(out@) =~= Seq::new(
                n as nat,
                |i: int| Val::Number(drawn(m, stirred_times(start, i + 1), min, max)),
            ));
        }
    }
    vector(out)
}

// ---- versions -----------------------------------------------------------------------------------------

/// 2021.
pub const VERSION_YEAR: u64 = 0x409f_9400_0000_0000;

/// 20210100.
pub const VERSION_NUMBER: u64 = 0x4173_461b_4000_0000;

/// 10000.
pub const TEN_THOUSAND: u64 = 0x40c3_8800_0000_0000;

/// 100.
pub const HUNDRED: u64 = 0x4059_0000_0000_0000;

/// A version of year, month and maybe day as one number.
pub open spec fn version_number(m: Reading, args: Seq<Val>) -> Val {
    if args.len() == 0 {
        Val::Number(VERSION_NUMBER)
    } else {
        match items_of(args[0]) {
            Some(v) => if v.len() != 2 && v.len() != 3 {
                Val::Undef
            } else {
                match numbers_of(v) {
                    Some(n) => Val::Number(
                        m.at(
                            NumOp::Add,
                            m.at(
                                NumOp::Add,
                                m.at(NumOp::Mul, n[0], TEN_THOUSAND),
                                m.at(NumOp::Mul, n[1], HUNDRED),
                            ),
                            if n.len() == 3 {
                                n[2]
                            } else {
                                ZERO
                            },
                        ),
                    ),
                    None => Val::Undef,
                }
            },
            None => Val::Undef,
        }
    }
}

/// A version as one number.
pub fn version_num<A: Arithmetic>(calc: &mut Calc<A>, args: &Vec<Value>) -> (r: Value)
    ensures
        forall|m: Reading| #[trigger]
            final(calc).agrees(m) ==> old(calc).agrees(m) && r@ == version_number(m, vals(args@)),
{
    if args.len() == 0 {
        return Value::Number(VERSION_NUMBER);
    }
    assert(vals(args@)[0] == args@[0]@);
    let list = match as_list(&args[0]) {
        Some(list) => list,
        None => {
            return Value::Undef;
        },
    };
    if list.len() != 2 && list.len() != 3 {
        return Value::Undef;
    }
    proof {
        lemma_numbers_from(vals(list@), 0);
    }
    match gather_numbers(list) {
        Some(n) => {
            let y: u64 = calc.apply(NumOp::Mul, n[0], TEN_THOUSAND);
            let mo: u64 = calc.apply(NumOp::Mul, n[1], HUNDRED);
            let s: u64 = calc.apply(NumOp::Add, y, mo);
            let day: u64 = if n.len() == 3 {
                n[2]
            } else {
                ZERO
            };
            Value::Number(calc.apply(NumOp::Add, s, day))
        },
        None => Value::Undef,
    }
}

// ---- calling a built-in function --------------------------------------------------------------------

/// The first argument; without arguments, undefined.
pub open spec fn first_arg(args: Seq<Val>) -> Val {
    if args.len() > 0 {
        args[0]
    } else {
        Val::Undef
    }
}

/// The `i`-th argument; without it, undefined.
pub open spec fn arg_at(args: Seq<Val>, i: int) -> Val {
    if i < args.len() {
        args[i]
    } else {
        Val::Undef
    }
}

/// How the arguments say to search.
pub open spec fn plan_of(m: Reading, args: Seq<Val>) -> SearchPlan {
    SearchPlan {
        limit: m.at(NumOp::ToInt, num_or(args, 2, ONE), 0),
        column: m.at(NumOp::ToInt, num_or(args, 3, ZERO), 0),
        given: num_at(args, 3) is Some,
    }
}

/// What a built-in function gives, and the state of the generator after it.
pub open spec fn builtin_of(
    m: Reading,
    functions: Seq<Seq<char>>,
    state: u64,
    b: Builtin,
    args: Seq<Val>,
) -> (Val, u64) {
    match b {
        Builtin::Atan2 => (
            match (num_at(args, 0), num_at(args, 1)) {
                (Some(y), Some(x)) => Val::Number(
                    m.at(NumOp::ToDegrees, m.at(NumOp::Atan2, y, x), 0),
                ),
                _ => Val::Undef,
            },
            state,
        ),
        Builtin::Pow => (
            match (num_at(args, 0), num_at(args, 1)) {
                (Some(x), Some(y)) => Val::Number(m.at(NumOp::Pow, x, y)),
                _ => Val::Undef,
            },
            state,
        ),
        Builtin::Max => (extreme(args, true), state),
        Builtin::Min => (extreme(args, false), state),
        Builtin::Len => (
            match first_arg(args) {
                Val::Vector(v) => Val::Number(m.at(NumOp::FromInt, v.len() as u64, 0)),
                Val::Str(s) => Val::Number(m.at(NumOp::FromInt, s.len() as u64, 0)),
                _ => Val::Undef,
            },
            state,
        ),
        Builtin::Norm => (norm_of(m, first_arg(args)), state),
        Builtin::Cross => (cross_of(m, first_arg(args), arg_at(args, 1)), state),
        Builtin::Concat => (Val::Vector(concatenated(args, args.len() as int)), state),
        Builtin::IsUndef => (Val::Bool(first_arg(args) is Undef), state),
        Builtin::IsNum => (
            Val::Bool(first_arg(args) matches Val::Number(n) && !nan(n)),
            state,
        ),
        Builtin::IsBool => (Val::Bool(first_arg(args) is Bool), state),
        Builtin::IsString => (Val::Bool(first_arg(args) is Str), state),
        Builtin::IsList => (Val::Bool(first_arg(args) is Vector), state),
        Builtin::IsFunction => (Val::Bool(first_arg(args) is Function), state),
        Builtin::IsRange => (Val::Bool(first_arg(args) is Range), state),
        Builtin::Rands => rands_of(m, args, state),
        Builtin::Version => (
            Val::Vector(
                seq![Val::Number(VERSION_YEAR), Val::Number(ONE), Val::Number(ZERO)],
            ),
            state,
        ),
        Builtin::VersionNum => (version_number(m, args), state),
        Builtin::Lookup => (looked_up(m, first_arg(args), arg_at(args, 1)), state),
        Builtin::Search => (
            if args.len() < 2 {
                Val::Undef
            } else {
                searched(m, args[0], args[1], plan_of(m, args))
            },
            state,
        ),
        Builtin::Str => (
            Val::Str(strung(m, args, functions, args.len() as int)),
            state,
        ),
        Builtin::Chr => (Val::Str(chrs_of(m, args, args.len() as int)), state),
        Builtin::Ord => (
            match first_arg(args) {
                Val::Str(s) => if s.len() > 0 {
                    Val::Number(m.at(NumOp::FromInt, s[0] as u64, 0))
                } else {
                    Val::Undef
                },
                _ => Val::Undef,
            },
            state,
        ),
        _ => (
            match num_at(args, 0) {
                Some(x) => match of_one(m, b, x) {
                    Some(y) => Val::Number(y),
                    None => Val::Undef,
                },
                None => Val::Undef,
            },
            state,
        ),
    }
}

/// What calling a name gives: for an unknown name a warning and undefined.
pub ghost struct BuiltinResult {
    pub value: Val,
    pub state: u64,
    pub warnings: Seq<Seq<char>>,
}

/// What calling a name gives.
pub open spec fn builtin_call(
    m: Reading,
    functions: Seq<Seq<char>>,
    state: u64,
    warnings: Seq<Seq<char>>,
    name: Seq<char>,
    args: Seq<Val>,
) -> BuiltinResult {
    match builtin_named(name) {
        Some(b) => {
            let (value, after) = builtin_of(m, functions, state, b, args);
            BuiltinResult { value, state: after, warnings }
        },
        None => BuiltinResult {
            value: Val::Undef,
            state,
            warnings: warnings.push("Ignoring unknown function '"@ + name + "'"@),
        },
    }
}


/// The length of a list or a text.
fn length_value<A: Arithmetic>(calc: &mut Calc<A>, args: &Vec<Value>) -> (r: Value)
    ensures
        forall|m: Reading| #[trigger]
            final(calc).agrees(m) ==> old(calc).agrees(m) && r@ == match first_arg(vals(args@)) {
                Val::Vector(v) => Val::Number(m.at(NumOp::FromInt, v.len() as u64, 0)),
                Val::Str(s) => Val::Number(m.at(NumOp::FromInt, s.len() as u64, 0)),
                _ => Val::Undef,
            },
{
    if args.len() == 0 {
        return Value::Undef;
    }
    let v = &args[0];
    assert(vals(args@)[0] == v@);
    match v {
        Value::Vector(items) => {
            let list: &Vec<Value> = &**items;
            assert(v@ matches Val::Vector(x) && x =~= vals(list@));
            Value::Number(calc.apply(NumOp::FromInt, list.len() as u64, 0))
        },
        Value::Str(s) => {
            let chars = chars_of(s.as_str());
            Value::Number(calc.apply(NumOp::FromInt, chars.len() as u64, 0))
        },
        _ => Value::Undef,
    }
}

/// The number of a text's first character.
fn ord_value<A: Arithmetic>(calc: &mut Calc<A>, args: &Vec<Value>) -> (r: Value)
    ensures
        forall|m: Reading| #[trigger]
            final(calc).agrees(m) ==> old(calc).agrees(m) && r@ == match first_arg(vals(args@)) {
                Val::Str(s) => if s.len() > 0 {
                    Val::Number(m.at(NumOp::FromInt, s[0] as u64, 0))
                } else {
                    Val::Undef
                },
                _ => Val::Undef,
            },
{
    if args.len() == 0 {
        return Value::Undef;
    }
    let v = &args[0];
    assert(vals(args@)[0] == v@);
    match v {
        Value::Str(s) => {
            let chars = chars_of(s.as_str());
            if chars.len() > 0 {
                Value::Number(calc.apply(NumOp::FromInt, chars[0] as u64, 0))
            } else {
                Value::Undef
            }
        },
        _ => Value::Undef,
    }
}

/// What kind of value the first argument is.
fn kind_test(b: Builtin, args: &Vec<Value>) -> (r: bool)
    ensures
        b == Builtin::IsUndef ==> r == (first_arg(vals(args@)) is Undef),
        b == Builtin::IsNum ==> r == (first_arg(vals(args@)) matches Val::Number(n) && !nan(n)),
        b == Builtin::IsBool ==> r == (first_arg(vals(args@)) is Bool),
        b == Builtin::IsString ==> r == (first_arg(vals(args@)) is Str),
        b == Builtin::IsList ==> r == (first_arg(vals(args@)) is Vector),
        b == Builtin::IsFunction ==> r == (first_arg(vals(args@)) is Function),
        b == Builtin::IsRange ==> r == (first_arg(vals(args@)) is Range),
{
    if args.len() == 0 {
        return b == Builtin::IsUndef;
    }
    let v = &args[0];
    assert(vals(args@)[0] == v@);
    match v {
        Value::Undef => b == Builtin::IsUndef,
        Value::Bool(_) => b == Builtin::IsBool,
        Value::Number(n) => b == Builtin::IsNum && !is_nan(*n),
        Value::Str(_) => b == Builtin::IsString,
        Value::Vector(_) => b == Builtin::IsList,
        Value::Range { .. } => b == Builtin::IsRange,
        Value::Function(_) => b == Builtin::IsFunction,
    }
}

fn arg_copy(args: &Vec<Value>, i: usize) -> (r: Value)
    ensures
        r@ == arg_at(vals(args@), i as int),
{
    if i < args.len() {
        assert(vals(args@)[i as int] == args@[i as int]@);
        args[i].duplicate()
    } else {
        Value::Undef
    }
}

/// Calls a built-in function.
pub fn apply_builtin<A: Arithmetic>(
    calc: &mut Calc<A>,
    functions: &Vec<String>,
    state: &mut u64,
    b: Builtin,
    args: &Vec<Value>,
) -> (r: Value)
    ensures
        forall|m: Reading| #[trigger]
            final(calc).agrees(m) ==> old(calc).agrees(m) && (r@, *final(state)) == builtin_of(
                m,
                texts(functions@),
                *old(state),
                b,
                vals(args@),
            ),
{
    match b {
        Builtin::Atan2 => match (arg_number(args, 0), arg_number(args, 1)) {
            (Some(y), Some(x)) => {
                let a: u64 = calc.apply(NumOp::Atan2, y, x);
                Value::Number(calc.apply(NumOp::ToDegrees, a, 0))
            },
            _ => Value::Undef,
        },
        Builtin::Pow => match (arg_number(args, 0), arg_number(args, 1)) {
            (Some(x), Some(y)) => Value::Number(calc.apply(NumOp::Pow, x, y)),
            _ => Value::Undef,
        },
        Builtin::Max => reduce_num(args, true),
        Builtin::Min => reduce_num(args, false),
        Builtin::Len => length_value(calc, args),
        Builtin::Norm => {
            let v = arg_copy(args, 0);
            norm_value(calc, &v)
        },
        Builtin::Cross => {
            let x = arg_copy(args, 0);
            let y = arg_copy(args, 1);
            cross(calc, &x, &y)
        },
        Builtin::Concat => concat(args),
        Builtin::IsUndef => Value::Bool(kind_test(b, args)),
        Builtin::IsNum => Value::Bool(kind_test(b, args)),
        Builtin::IsBool => Value::Bool(kind_test(b, args)),
        Builtin::IsString => Value::Bool(kind_test(b, args)),
        Builtin::IsList => Value::Bool(kind_test(b, args)),
        Builtin::IsFunction => Value::Bool(kind_test(b, args)),
        Builtin::IsRange => Value::Bool(kind_test(b, args)),
        Builtin::Rands => rands_fn(calc, state, args),
        Builtin::Version => {
            let mut v: Vec<Value> = Vec::new();
            v.push(Value::Number(VERSION_YEAR));
            v.push(Value::Number(ONE));
            v.push(Value::Number(ZERO));
            assert(vals(v@) =~= seq![
                Val::Number(VERSION_YEAR),
                Val::Number(ONE),
                Val::Number(ZERO),
            ]);
            vector(v)
        },
        Builtin::VersionNum => version_num(calc, args),
        Builtin::Lookup => {
            let x = arg_copy(args, 0);
            let y = arg_copy(args, 1);
            lookup(calc, &x, &y)
        },
        Builtin::Search => {
            if args.len() < 2 {
                return Value::Undef;
            }
            assert(vals(args@)[0] == args@[0]@);
            assert(vals(args@)[1] == args@[1]@);
            let limit: u64 = calc.apply(NumOp::ToInt, arg_or(args, 2, ONE), 0);
            let column: u64 = calc.apply(NumOp::ToInt, arg_or(args, 3, ZERO), 0);
            let given: bool = arg_number(args, 3).is_some();
            search(calc, &args[0], &args[1], SearchPlan { limit, column, given })
        },
        Builtin::Str => string_of(calc, functions, args),
        Builtin::Chr => chr(calc, args),
        Builtin::Ord => ord_value(calc, args),
        _ => match arg_number(args, 0) {
            Some(x) => match apply_one(calc, b, x) {
                Some(y) => Value::Number(y),
                None => Value::Undef,
            },
            None => Value::Undef,
        },
    }
}

/// Calls a built-in function by its name; an unknown name is warned of.
pub fn builtin_fn<A: Arithmetic>(
    calc: &mut Calc<A>,
    functions: &Vec<String>,
    state: &mut u64,
    warnings: &mut Vec<String>,
    name: &str,
    args: &Vec<Value>,
) -> (r: Value)
    ensures
        forall|m: Reading| #[trigger]
            final(calc).agrees(m) ==> old(calc).agrees(m) && (BuiltinResult {
                value: r@,
                state: *final(state),
                warnings: texts(final(warnings)@),
            }) == builtin_call(
                m,
                texts(functions@),
                *old(state),
                texts(old(warnings)@),
                name@,
                vals(args@),
            ),
{
    match find_builtin(name) {
        Some(b) => apply_builtin(calc, functions, state, b, args),
        None => {
            let mut s = "Ignoring unknown function '".to_owned();
            s.append(name);
            s.append("'");
            let ghost before = texts(warnings@);
            let ghost sv = s@;
            warnings.push(s);
            assert(texts(warnings@) =~= before.push(sv));
            Value::Undef
        },
    }
}

/// The name of a module that is being called, counted from the innermost one.
pub open spec fn parent_of(m: Reading, modules: Seq<Seq<char>>, args: Seq<Val>) -> Val {
    if args.len() > 0 && !(args[0] is Number) {
        Val::Undef
    } else if args.len() > 0 && at_most(args[0]->Number_0, MINUS_ONE) {
        Val::Undef
    } else {
        let i = if args.len() == 0 {
            1
        } else {
            m.at(NumOp::ToInt, args[0]->Number_0, 0)
        };
        if i < modules.len() {
            Val::Str(modules[modules.len() - 1 - i])
        } else {
            Val::Undef
        }
    }
}

/// The name of a module that is being called, counted from the innermost one.
pub fn parent_module<A: Arithmetic>(calc: &mut Calc<A>, modules: &Vec<String>, args: &Vec<Value>) -> (r: Value)
    ensures
        forall|m: Reading| #[trigger]
            final(calc).agrees(m) ==> old(calc).agrees(m) && r@ == parent_of(
                m,
                texts(modules@),
                vals(args@),
            ),
{
    let mut i: u64 = 1;
    if args.len() > 0 {
        assert(vals(args@)[0] == args@[0]@);
        match args[0].as_number() {
            Some(n) => {
                if is_at_most(n, MINUS_ONE) {
                    return Value::Undef;
                }
                i = calc.apply(NumOp::ToInt, n, 0);
            },
            None => {
                return Value::Undef;
            },
        }
    }
    let n: usize = modules.len();
    if i < n as u64 {
        let at: usize = n - 1 - i as usize;
        assert(texts(modules@)[at as int] == modules@[at as int]@);
        Value::Str(modules[at].clone())
    } else {
        Value::Undef
    }
}

/// What calling a built-in name inside modules gives.
pub open spec fn builtin_inside(
    m: Reading,
    functions: Seq<Seq<char>>,
    modules: Seq<Seq<char>>,
    state: u64,
    warnings: Seq<Seq<char>>,
    name: Seq<char>,
    args: Seq<Val>,
) -> BuiltinResult {
    if name == "parent_module"@ {
        BuiltinResult { value: parent_of(m, modules, args), state, warnings }
    } else {
        builtin_call(m, functions, state, warnings, name, args)
    }
}

/// Calls a built-in function by its name, inside the modules that are being
/// called.
pub fn call_builtin_fn<A: Arithmetic>(
    calc: &mut Calc<A>,
    functions: &Vec<String>,
    modules: &Vec<String>,
    state: &mut u64,
    warnings: &mut Vec<String>,
    name: &str,
    args: &Vec<Value>,
) -> (r: Value)
    ensures
        forall|m: Reading| #[trigger]
            final(calc).agrees(m) ==> old(calc).agrees(m) && (BuiltinResult {
                value: r@,
                state: *final(state),
                warnings: texts(final(warnings)@),
            }) == builtin_inside(
                m,
                texts(functions@),
                texts(modules@),
                *old(state),
                texts(old(warnings)@),
                name@,
                vals(args@),
            ),
{
    if same_text(name, "parent_module") {
        parent_module(calc, modules, args)
    } else {
        builtin_fn(calc, functions, state, warnings, name, args)
    }
}

/// Two calls in a row go on where the first one stopped: asking for numbers
/// twice without a seed leaves the generator where asking for all of them at
/// once does.
pub proof fn law_rands_continue(s: u64, a: nat, b: nat)
    ensures
        stirred_times(stirred_times(s, a as int), b as int) == stirred_times(s, (a + b) as int),
    decreases b,
{
    if b > 0 {
        law_rands_continue(s, a, (b - 1) as nat);
    }
}

/// A seed decides the numbers, whatever was drawn before.
pub proof fn law_seed_decides(m: Reading, args: Seq<Val>, s: u64, t: u64)
    requires
        num_at(args, 3) is Some,
    ensures
        rands_of(m, args, s) == rands_of(m, args, t),
{
}

} // verus!
