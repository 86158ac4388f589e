//! Runtime values and their operational semantics.

use crate::num::{
    equals, is_less, is_nan, is_zero, less, nan, negate, negative, same, zero, Arithmetic, Calc,
    NumOp, Reading, ZERO,
};
use crate::text::{same_text, text_at_most, text_le};
use std::rc::Rc;
use vstd::prelude::*;

verus! {

/// A runtime value.
#[derive(Debug)]
pub enum Value {
    Undef,
    Bool(bool),
    /// A number, as its bits.
    Number(u64),
    Str(String),
    /// A list, shared so that a copy costs nothing.
    Vector(Rc<Vec<Value>>),
    /// A numeric range `[start : step : end]`.
    Range { start: u64, step: u64, end: u64 },
    /// A function value, by the number of its closure.
    Function(usize),
}

/// What a value is.
pub enum Val {
    Undef,
    Bool(bool),
    Number(u64),
    Str(Seq<char>),
    Vector(Seq<Val>),
    Range { start: u64, step: u64, end: u64 },
    Function(usize),
}

impl View for Value {
    type V = Val;

    open spec fn view(&self) -> Val {
        val(*self)
    }
}

/// What a value is.
pub open spec fn val(v: Value) -> Val
    decreases v,
{
    match v {
        Value::Undef => Val::Undef,
        Value::Bool(b) => Val::Bool(b),
        Value::Number(n) => Val::Number(n),
        Value::Str(s) => Val::Str(s@),
        Value::Vector(items) => Val::Vector(
            Seq::new(
                items@.len(),
                |i: int|
                    if 0 <= i < items@.len() {
                        val(items@[i])
                    } else {
                        Val::Undef
                    },
            ),
        ),
        Value::Range { start, step, end } => Val::Range { start, step, end },
        Value::Function(f) => Val::Function(f),
    }
}

/// What a list of values is.
pub open spec fn vals(v: Seq<Value>) -> Seq<Val> {
    v.map_values(|x: Value| val(x))
}

impl Value {
    /// A copy of the value.
    pub fn duplicate(&self) -> (r: Value)
        ensures
            r@ == self@,
    {
        match self {
            Value::Undef => Value::Undef,
            Value::Bool(b) => Value::Bool(*b),
            Value::Number(n) => Value::Number(*n),
            Value::Str(s) => Value::Str(s.clone()),
            Value::Vector(items) => Value::Vector(items.clone()),
            Value::Range { start, step, end } => Value::Range {
                start: *start,
                step: *step,
                end: *end,
            },
            Value::Function(f) => Value::Function(*f),
        }
    }
}

/// A list value from its items.
pub fn vector(v: Vec<Value>) -> (r: Value)
    ensures
        r@ == Val::Vector(vals(v@)),
{
    let ghost items = v@;
    let r = Value::Vector(Rc::new(v));
    assert(val(r) matches Val::Vector(s) && s =~= vals(items));
    r
}

// ---- truth and equality ---------------------------------------------------------------------

/// Whether a value counts as true: every number but zero, also one that is not
/// a number; a text or list that is not empty; any range or function.
pub open spec fn truth(v: Val) -> bool {
    match v {
        Val::Undef => false,
        Val::Bool(b) => b,
        Val::Number(n) => !zero(n),
        Val::Str(s) => s.len() > 0,
        Val::Vector(items) => items.len() > 0,
        Val::Range { .. } => true,
        Val::Function(_) => true,
    }
}

/// Whether two values are equal. Numbers compare as numbers, lists item by
/// item, functions by identity; values of different kinds are never equal.
pub open spec fn equal_values(a: Val, b: Val) -> bool
    decreases a,
{
    match (a, b) {
        (Val::Number(x), Val::Number(y)) => same(x, y),
        (Val::Bool(x), Val::Bool(y)) => x == y,
        (Val::Str(x), Val::Str(y)) => x == y,
        (Val::Undef, Val::Undef) => true,
        (Val::Vector(x), Val::Vector(y)) => x.len() == y.len() && forall|i: int|
            0 <= i < x.len() ==> equal_values(#[trigger] x[i], y[i]),
        (
            Val::Range { start: a, step: b, end: c },
            Val::Range { start: d, step: e, end: f },
        ) => same(a, d) && same(b, e) && same(c, f),
        (Val::Function(x), Val::Function(y)) => x == y,
        _ => false,
    }
}

impl Value {
    /// Whether the value counts as true.
    pub fn truthy(&self) -> (r: bool)
        ensures
            r == truth(self@),
    {
        match self {
            Value::Undef => false,
            Value::Bool(b) => *b,
            Value::Number(n) => !is_zero(*n),
            Value::Str(s) => s.as_str().unicode_len() > 0,
            Value::Vector(items) => {
                assert(self@ matches Val::Vector(s) && s.len() == items@.len());
                let list: &Vec<Value> = &**items;
                list.len() > 0
            },
            Value::Range { .. } => true,
            Value::Function(_) => true,
        }
    }

    /// The number, where the value is one.
    pub fn as_number(&self) -> (r: Option<u64>)
        ensures
            r == number_of(self@),
    {
        match self {
            Value::Number(n) => Some(*n),
            _ => None,
        }
    }

    /// Three numbers: those of a list, with zeros for what is missing or not a
    /// number, or one number three times.
    pub fn as_vec3(&self) -> (r: Option<(u64, u64, u64)>)
        ensures
            r == vec3_of(self@),
    {
        match self {
            Value::Number(n) => Some((*n, *n, *n)),
            Value::Vector(items) => {
                let list: &Vec<Value> = &**items;
                let x: u64 = component(list, 0);
                let y: u64 = component(list, 1);
                let z: u64 = component(list, 2);
                assert(self@ matches Val::Vector(s) && s =~= vals(list@));
                Some((x, y, z))
            },
            _ => None,
        }
    }
}

/// The number, where the value is one.
pub open spec fn number_of(v: Val) -> Option<u64> {
    match v {
        Val::Number(n) => Some(n),
        _ => None,
    }
}

/// The `i`-th item as a number, else zero.
pub open spec fn item_or_zero(items: Seq<Val>, i: int) -> u64 {
    if i < items.len() {
        match items[i] {
            Val::Number(n) => n,
            _ => ZERO,
        }
    } else {
        ZERO
    }
}

/// Three numbers from a value.
pub open spec fn vec3_of(v: Val) -> Option<(u64, u64, u64)> {
    match v {
        Val::Number(n) => Some((n, n, n)),
        Val::Vector(items) => Some(
            (item_or_zero(items, 0), item_or_zero(items, 1), item_or_zero(items, 2)),
        ),
        _ => None,
    }
}

fn component(list: &Vec<Value>, i: usize) -> (r: u64)
    ensures
        r == item_or_zero(vals(list@), i as int),
{
    if i < list.len() {
        assert(vals(list@)[i as int] == list@[i as int]@);
        match &list[i] {
            Value::Number(n) => *n,
            _ => ZERO,
        }
    } else {
        ZERO
    }
}

/// Whether two values are equal.
pub fn value_eq(a: &Value, b: &Value) -> (r: bool)
    ensures
        r == equal_values(a@, b@),
    decreases *a,
{
    match (a, b) {
        (Value::Number(x), Value::Number(y)) => equals(*x, *y),
        (Value::Bool(x), Value::Bool(y)) => *x == *y,
        (Value::Str(x), Value::Str(y)) => same_text(x.as_str(), y.as_str()),
        (Value::Undef, Value::Undef) => true,
        (Value::Vector(x), Value::Vector(y)) => {
            let p: &Vec<Value> = &**x;
            let q: &Vec<Value> = &**y;
            let ghost pv = a@->Vector_0;
            let ghost qv = b@->Vector_0;
            if p.len() != q.len() {
                return false;
            }
            let mut i: usize = 0;
            while i < p.len()
                invariant
                    *a matches Value::Vector(l) && l@ == p@,
                    a@ == Val::Vector(pv),
                    b@ == Val::Vector(qv),
                    pv.len() == p@.len(),
                    qv.len() == q@.len(),
                    p@.len() == q@.len(),
                    forall|k: int| 0 <= k < p@.len() ==> pv[k] == val(#[trigger] p@[k]),
                    forall|k: int| 0 <= k < q@.len() ==> qv[k] == val(#[trigger] q@[k]),
                    i <= p@.len(),
                    forall|k: int| 0 <= k < i ==> equal_values(#[trigger] pv[k], qv[k]),
                decreases p.len() - i,
            {
                assert(pv[i as int] == val(p@[i as int]));
                assert(qv[i as int] == val(q@[i as int]));
                if !value_eq(&p[i], &q[i]) {
                    assert(!equal_values(pv[i as int], qv[i as int]));
                    return false;
                }
                i = i + 1;
            }
            true
        },
        (
            Value::Range { start: a, step: b, end: c },
            Value::Range { start: d, step: e, end: f },
        ) => equals(*a, *d) && equals(*b, *e) && equals(*c, *f),
        (Value::Function(x), Value::Function(y)) => *x == *y,
        _ => false,
    }
}

// ---- order -------------------------------------------------------------------------------------

/// How two values stand to each other.
#[derive(Clone, Copy, Debug, PartialEq, Eq, Structural)]
pub enum Standing {
    Less,
    Equal,
    Greater,
}

/// How two numbers stand.
pub open spec fn whole_standing(a: int, b: int) -> Standing {
    if a < b {
        Standing::Less
    } else if a == b {
        Standing::Equal
    } else {
        Standing::Greater
    }
}

/// How two values stand: numbers by size, texts and lists in dictionary order;
/// other pairs do not compare.
pub open spec fn value_standing(a: Val, b: Val) -> Option<Standing>
    decreases a, 0int,
{
    match (a, b) {
        (Val::Number(x), Val::Number(y)) => if nan(x) || nan(y) {
            None
        } else if less(x, y) {
            Some(Standing::Less)
        } else if same(x, y) {
            Some(Standing::Equal)
        } else {
            Some(Standing::Greater)
        },
        (Val::Bool(x), Val::Bool(y)) => Some(
            if x == y {
                Standing::Equal
            } else if y {
                Standing::Less
            } else {
                Standing::Greater
            },
        ),
        (Val::Str(x), Val::Str(y)) => Some(
            if x == y {
                Standing::Equal
            } else if text_le(x, y) {
                Standing::Less
            } else {
                Standing::Greater
            },
        ),
        (Val::Vector(x), Val::Vector(y)) => list_standing(x, y, 0),
        _ => None,
    }
}

/// How two lists stand from the `i`-th item on.
pub open spec fn list_standing(x: Seq<Val>, y: Seq<Val>, i: int) -> Option<Standing>
    decreases x, x.len() - i,
{
    if i < 0 || i >= x.len() || i >= y.len() {
        Some(whole_standing(x.len() as int, y.len() as int))
    } else {
        match value_standing(x[i], y[i]) {
            Some(Standing::Equal) => list_standing(x, y, i + 1),
            other => other,
        }
    }
}

/// How two values stand to each other, where they compare.
pub fn value_order(a: &Value, b: &Value) -> (r: Option<Standing>)
    ensures
        r == value_standing(a@, b@),
    decreases *a,
{
    match (a, b) {
        (Value::Number(x), Value::Number(y)) => if is_nan(*x) || is_nan(*y) {
            None
        } else if is_less(*x, *y) {
            Some(Standing::Less)
        } else if equals(*x, *y) {
            Some(Standing::Equal)
        } else {
            Some(Standing::Greater)
        },
        (Value::Bool(x), Value::Bool(y)) => if *x == *y {
            Some(Standing::Equal)
        } else if *y {
            Some(Standing::Less)
        } else {
            Some(Standing::Greater)
        },
        (Value::Str(x), Value::Str(y)) => if same_text(x.as_str(), y.as_str()) {
            Some(Standing::Equal)
        } else if text_at_most(x.as_str(), y.as_str()) {
            Some(Standing::Less)
        } else {
            Some(Standing::Greater)
        },
        (Value::Vector(x), Value::Vector(y)) => {
            let p: &Vec<Value> = &**x;
            let q: &Vec<Value> = &**y;
            let ghost pv = a@->Vector_0;
            let ghost qv = b@->Vector_0;
            let ghost whole = list_standing(pv, qv, 0);
            let mut i: usize = 0;
            while i < p.len() && i < q.len()
                invariant
                    *a matches Value::Vector(l) && l@ == p@,
                    pv.len() == p@.len(),
                    qv.len() == q@.len(),
                    forall|k: int| 0 <= k < p@.len() ==> pv[k] == val(#[trigger] p@[k]),
                    forall|k: int| 0 <= k < q@.len() ==> qv[k] == val(#[trigger] q@[k]),
                    i <= p@.len(),
                    i <= q@.len(),
                    whole == list_standing(pv, qv, i as int),
                    whole == value_standing(a@, b@),
                decreases p.len() - i,
            {
                assert(pv[i as int] == val(p@[i as int]));
                assert(qv[i as int] == val(q@[i as int]));
                let here = value_order(&p[i], &q[i]);
                match here {
                    Some(Standing::Equal) => {},
                    other => return other,
                }
                i = i + 1;
            }
            if p.len() < q.len() {
                Some(Standing::Less)
            } else if p.len() == q.len() {
                Some(Standing::Equal)
            } else {
                Some(Standing::Greater)
            }
        },
        _ => None,
    }
}

// ---- operators -----------------------------------------------------------------------------------

/// A binary operator.
#[derive(Clone, Copy, Debug, PartialEq, Eq, Structural)]
pub enum BinOp {
    Add,
    Sub,
    Mul,
    Div,
    Mod,
    Pow,
    Eq,
    Ne,
    Lt,
    Le,
    Gt,
    Ge,
    And,
    Or,
}

/// A unary operator.
#[derive(Clone, Copy, Debug, PartialEq, Eq, Structural)]
pub enum UnOp {
    Neg,
    Not,
    Pos,
}

/// A value with the other sign, list by item.
pub open spec fn negated(v: Val) -> Val
    decreases v,
{
    match v {
        Val::Number(n) => Val::Number(negative(n)),
        Val::Vector(items) => Val::Vector(
            Seq::new(
                items.len(),
                |i: int|
                    if 0 <= i < items.len() {
                        negated(items[i])
                    } else {
                        Val::Undef
                    },
            ),
        ),
        _ => Val::Undef,
    }
}

/// What a unary operator gives.
pub open spec fn unary_of(op: UnOp, v: Val) -> Val {
    match op {
        UnOp::Pos => v,
        UnOp::Neg => negated(v),
        UnOp::Not => Val::Bool(!truth(v)),
    }
}

fn negate_value(v: &Value) -> (r: Value)
    ensures
        r@ == negated(v@),
    decreases *v,
{
    match v {
        Value::Number(n) => Value::Number(negate(*n)),
        Value::Vector(items) => {
            let list: &Vec<Value> = &**items;
            let ghost lv = v@->Vector_0;
            let mut out: Vec<Value> = Vec::new();
            let mut i: usize = 0;
            while i < list.len()
                invariant
                    *v matches Value::Vector(l) && l@ == list@,
                    lv.len() == list@.len(),
                    forall|k: int| 0 <= k < list@.len() ==> lv[k] == val(#[trigger] list@[k]),
                    i <= list@.len(),
                    out@.len() == i,
                    forall|k: int| 0 <= k < i ==> #[trigger] vals(out@)[k] == negated(lv[k]),
                decreases list.len() - i,
            {
                assert(lv[i as int] == val(list@[i as int]));
                let ghost before = vals(out@);
                let item = negate_value(&list[i]);
                out.push(item);
                assert(vals(out@) =~= before.push(item@));
                i = i + 1;
            }
            assert(vals(out@) =~= negated(v@)->Vector_0);
            vector(out)
        },
        _ => Value::Undef,
    }
}

/// Applies a unary operator.
pub fn unary(op: UnOp, v: Value) -> (r: Value)
    ensures
        r@ == unary_of(op, v@),
{
    match op {
        UnOp::Pos => v,
        UnOp::Neg => negate_value(&v),
        UnOp::Not => Value::Bool(!v.truthy()),
    }
}

/// A number times a value, list by item.
pub open spec fn scaled_by(m: Reading, s: u64, v: Val) -> Val
    decreases v,
{
    match v {
        Val::Number(n) => Val::Number(m.at(NumOp::Mul, s, n)),
        Val::Vector(items) => Val::Vector(
            Seq::new(
                items.len(),
                |i: int|
                    if 0 <= i < items.len() {
                        scaled_by(m, s, items[i])
                    } else {
                        Val::Undef
                    },
            ),
        ),
        _ => Val::Undef,
    }
}

/// A value divided by a number, list by item.
pub open spec fn divided_by(m: Reading, v: Val, s: u64) -> Val
    decreases v,
{
    match v {
        Val::Number(n) => Val::Number(m.at(NumOp::Div, n, s)),
        Val::Vector(items) => Val::Vector(
            Seq::new(
                items.len(),
                |i: int|
                    if 0 <= i < items.len() {
                        divided_by(m, items[i], s)
                    } else {
                        Val::Undef
                    },
            ),
        ),
        _ => Val::Undef,
    }
}

/// The sum or difference of two values; of lists of the same length item by
/// item.
pub open spec fn combined(m: Reading, op: NumOp, l: Val, r: Val) -> Val
    decreases l,
{
    match (l, r) {
        (Val::Number(a), Val::Number(b)) => Val::Number(m.at(op, a, b)),
        (Val::Vector(x), Val::Vector(y)) => if x.len() == y.len() {
            Val::Vector(
                Seq::new(
                    x.len(),
                    |i: int|
                        if 0 <= i < x.len() {
                            combined(m, op, x[i], y[i])
                        } else {
                            Val::Undef
                        },
                ),
            )
        } else {
            Val::Undef
        },
        _ => Val::Undef,
    }
}

/// All items are numbers.
pub open spec fn all_numbers(items: Seq<Val>) -> bool {
    forall|i: int| 0 <= i < items.len() ==> #[trigger] items[i] is Number
}

/// The sum of the first `n` products.
pub open spec fn dot_sum(m: Reading, a: Seq<Val>, b: Seq<Val>, n: int) -> u64
    decreases n,
{
    if n <= 0 {
        ZERO
    } else {
        m.at(
            NumOp::Add,
            dot_sum(m, a, b, n - 1),
            m.at(NumOp::Mul, a[n - 1]->Number_0, b[n - 1]->Number_0),
        )
    }
}

/// Two lists of the same length, not empty, and all of numbers.
pub open spec fn dottable(a: Seq<Val>, b: Seq<Val>) -> bool {
    a.len() > 0 && a.len() == b.len() && all_numbers(a) && all_numbers(b)
}

/// The dot product of two lists.
pub open spec fn dot_value(m: Reading, a: Seq<Val>, b: Seq<Val>) -> Val {
    if dottable(a, b) {
        Val::Number(dot_sum(m, a, b, a.len() as int))
    } else {
        Val::Undef
    }
}

/// The first item is a list.
pub open spec fn starts_with_list(a: Seq<Val>) -> bool {
    a.len() > 0 && a[0] is Vector
}

/// The items of a row.
pub open spec fn row(a: Seq<Val>, i: int) -> Seq<Val> {
    a[i]->Vector_0
}

/// Every row is a list of numbers, and not empty.
pub open spec fn is_matrix(a: Seq<Val>) -> bool {
    a.len() > 0 && forall|i: int|
        0 <= i < a.len() ==> (#[trigger] a[i]) is Vector && row(a, i).len() > 0 && all_numbers(
            row(a, i),
        )
}

/// Every row has `n` items.
pub open spec fn rows_of_length(a: Seq<Val>, n: int) -> bool {
    forall|i: int| 0 <= i < a.len() ==> (#[trigger] row(a, i)).len() == n
}

/// The `j`-th entry of a list of weights times a matrix, over its first `n`
/// rows.
pub open spec fn column_sum(m: Reading, weights: Seq<Val>, b: Seq<Val>, j: int, n: int) -> u64
    decreases n,
{
    if n <= 0 {
        ZERO
    } else {
        m.at(
            NumOp::Add,
            column_sum(m, weights, b, j, n - 1),
            m.at(NumOp::Mul, weights[n - 1]->Number_0, row(b, n - 1)[j]->Number_0),
        )
    }
}

/// A list of weights times a matrix.
pub open spec fn weighted(m: Reading, weights: Seq<Val>, b: Seq<Val>) -> Val {
    Val::Vector(
        Seq::new(
            row(b, 0).len(),
            |j: int| Val::Number(column_sum(m, weights, b, j, b.len() as int)),
        ),
    )
}

/// The product of two lists, each a vector of numbers or a matrix of rows:
/// a dot product, a matrix times a vector, a vector times a matrix, or a
/// matrix times a matrix. What does not fit gives nothing.
pub open spec fn list_product(m: Reading, a: Seq<Val>, b: Seq<Val>) -> Val {
    if !starts_with_list(a) && !starts_with_list(b) {
        dot_value(m, a, b)
    } else if starts_with_list(a) && !starts_with_list(b) {
        if forall|i: int|
            0 <= i < a.len() ==> (#[trigger] a[i]) is Vector && dottable(row(a, i), b) {
            Val::Vector(Seq::new(a.len(), |i: int| dot_value(m, row(a, i), b)))
        } else {
            Val::Undef
        }
    } else if !starts_with_list(a) {
        if is_matrix(b) && a.len() == b.len() && all_numbers(a) && rows_of_length(
            b,
            row(b, 0).len() as int,
        ) {
            weighted(m, a, b)
        } else {
            Val::Undef
        }
    } else {
        if is_matrix(a) && is_matrix(b) && rows_of_length(a, b.len() as int) && rows_of_length(
            b,
            row(b, 0).len() as int,
        ) {
            Val::Vector(Seq::new(a.len(), |i: int| weighted(m, row(a, i), b)))
        } else {
            Val::Undef
        }
    }
}

/// What a comparison gives.
pub open spec fn comparison(op: BinOp, a: Val, b: Val) -> Val {
    match value_standing(a, b) {
        None => Val::Undef,
        Some(s) => Val::Bool(
            match op {
                BinOp::Lt => s == Standing::Less,
                BinOp::Le => s != Standing::Greater,
                BinOp::Gt => s == Standing::Greater,
                _ => s != Standing::Less,
            },
        ),
    }
}

/// What a binary operator gives; what does not fit gives nothing.
pub open spec fn binary_of(m: Reading, op: BinOp, l: Val, r: Val) -> Val {
    match op {
        BinOp::And => Val::Bool(truth(l) && truth(r)),
        BinOp::Or => Val::Bool(truth(l) || truth(r)),
        BinOp::Eq => Val::Bool(equal_values(l, r)),
        BinOp::Ne => Val::Bool(!equal_values(l, r)),
        BinOp::Lt => comparison(op, l, r),
        BinOp::Le => comparison(op, l, r),
        BinOp::Gt => comparison(op, l, r),
        BinOp::Ge => comparison(op, l, r),
        BinOp::Add => combined(m, NumOp::Add, l, r),
        BinOp::Sub => combined(m, NumOp::Sub, l, r),
        BinOp::Mul => match (l, r) {
            (Val::Number(s), _) => scaled_by(m, s, r),
            (Val::Vector(_), Val::Number(s)) => scaled_by(m, s, l),
            (Val::Vector(a), Val::Vector(b)) => list_product(m, a, b),
            _ => Val::Undef,
        },
        BinOp::Div => match r {
            Val::Number(s) => divided_by(m, l, s),
            _ => Val::Undef,
        },
        BinOp::Mod => match (l, r) {
            (Val::Number(a), Val::Number(b)) => Val::Number(m.at(NumOp::Rem, a, b)),
            _ => Val::Undef,
        },
        BinOp::Pow => match (l, r) {
            (Val::Number(a), Val::Number(b)) => Val::Number(m.at(NumOp::Pow, a, b)),
            _ => Val::Undef,
        },
    }
}

/// The exec list of a vector value.
fn items_of(v: &Value) -> (r: Option<&Vec<Value>>)
    ensures
        match r {
            Some(list) => v@ == Val::Vector(vals(list@)) && (*v matches Value::Vector(l) && l@
                == list@),
            None => !(v@ is Vector),
        },
{
    match v {
        Value::Vector(items) => {
            let list: &Vec<Value> = &**items;
            assert(v@ matches Val::Vector(s) && s =~= vals(list@));
            Some(list)
        },
        _ => None,
    }
}

fn scale_value<A: Arithmetic>(calc: &mut Calc<A>, s: u64, v: &Value) -> (r: Value)
    ensures
        forall|m: Reading| #[trigger]
            final(calc).agrees(m) ==> old(calc).agrees(m) && r@ == scaled_by(m, s, v@),
    decreases *v,
{
    match v {
        Value::Number(n) => Value::Number(calc.apply(NumOp::Mul, s, *n)),
        Value::Vector(items) => {
            let list: &Vec<Value> = &**items;
            let ghost lv = v@->Vector_0;
            let mut out: Vec<Value> = Vec::new();
            let mut i: usize = 0;
            while i < list.len()
                invariant
                    *v matches Value::Vector(l) && l@ == list@,
                    lv.len() == list@.len(),
                    forall|k: int| 0 <= k < list@.len() ==> lv[k] == val(#[trigger] list@[k]),
                    i <= list@.len(),
                    out@.len() == i,
                    forall|m: Reading| #[trigger]
                        calc.agrees(m) ==> old(calc).agrees(m) && forall|k: int|
                            0 <= k < i ==> #[trigger] vals(out@)[k] == scaled_by(m, s, lv[k]),
                decreases list.len() - i,
            {
                assert(lv[i as int] == val(list@[i as int]));
                let ghost before = vals(out@);
                let item = scale_value(calc, s, &list[i]);
                out.push(item);
                assert(vals(out@) =~= before.push(item@));
                i = i + 1;
            }
            proof {
                assert forall|m: Reading| #[trigger] calc.agrees(m) implies Val::Vector(
                    vals(out@),
                ) == scaled_by(m, s, v@) by {
                    assert(vals(out@) =~= scaled_by(m, s, v@)->Vector_0);
                }
            }
            vector(out)
        },
        _ => Value::Undef,
    }
}

fn divide_value<A: Arithmetic>(calc: &mut Calc<A>, v: &Value, s: u64) -> (r: Value)
    ensures
        forall|m: Reading| #[trigger]
            final(calc).agrees(m) ==> old(calc).agrees(m) && r@ == divided_by(m, v@, s),
    decreases *v,
{
    match v {
        Value::Number(n) => Value::Number(calc.apply(NumOp::Div, *n, s)),
        Value::Vector(items) => {
            let list: &Vec<Value> = &**items;
            let ghost lv = v@->Vector_0;
            let mut out: Vec<Value> = Vec::new();
            let mut i: usize = 0;
            while i < list.len()
                invariant
                    *v matches Value::Vector(l) && l@ == list@,
                    lv.len() == list@.len(),
                    forall|k: int| 0 <= k < list@.len() ==> lv[k] == val(#[trigger] list@[k]),
                    i <= list@.len(),
                    out@.len() == i,
                    forall|m: Reading| #[trigger]
                        calc.agrees(m) ==> old(calc).agrees(m) && forall|k: int|
                            0 <= k < i ==> #[trigger] vals(out@)[k] == divided_by(m, lv[k], s),
                decreases list.len() - i,
            {
                assert(lv[i as int] == val(list@[i as int]));
                let ghost before = vals(out@);
                let item = divide_value(calc, &list[i], s);
                out.push(item);
                assert(vals(out@) =~= before.push(item@));
                i = i + 1;
            }
            proof {
                assert forall|m: Reading| #[trigger] calc.agrees(m) implies Val::Vector(
                    vals(out@),
                ) == divided_by(m, v@, s) by {
                    assert(vals(out@) =~= divided_by(m, v@, s)->Vector_0);
                }
            }
            vector(out)
        },
        _ => Value::Undef,
    }
}

fn combine_values<A: Arithmetic>(calc: &mut Calc<A>, op: NumOp, l: &Value, r: &Value) -> (v: Value)
    ensures
        forall|m: Reading| #[trigger]
            final(calc).agrees(m) ==> old(calc).agrees(m) && v@ == combined(m, op, l@, r@),
    decreases *l,
{
    match (l, r) {
        (Value::Number(a), Value::Number(b)) => Value::Number(calc.apply(op, *a, *b)),
        (Value::Vector(x), Value::Vector(y)) => {
            let p: &Vec<Value> = &**x;
            let q: &Vec<Value> = &**y;
            let ghost pv = l@->Vector_0;
            let ghost qv = r@->Vector_0;
            if p.len() != q.len() {
                return Value::Undef;
            }
            let mut out: Vec<Value> = Vec::new();
            let mut i: usize = 0;
            while i < p.len()
                invariant
                    *l matches Value::Vector(x) && x@ == p@,
                    pv.len() == p@.len(),
                    qv.len() == q@.len(),
                    p@.len() == q@.len(),
                    forall|k: int| 0 <= k < p@.len() ==> pv[k] == val(#[trigger] p@[k]),
                    forall|k: int| 0 <= k < q@.len() ==> qv[k] == val(#[trigger] q@[k]),
                    i <= p@.len(),
                    out@.len() == i,
                    forall|m: Reading| #[trigger]
                        calc.agrees(m) ==> old(calc).agrees(m) && forall|k: int|
                            0 <= k < i ==> #[trigger] vals(out@)[k] == combined(m, op, pv[k], qv[k]),
                decreases p.len() - i,
            {
                assert(pv[i as int] == val(p@[i as int]));
                assert(qv[i as int] == val(q@[i as int]));
                let ghost before = vals(out@);
                let item = combine_values(calc, op, &p[i], &q[i]);
                out.push(item);
                assert(vals(out@) =~= before.push(item@));
                i = i + 1;
            }
            proof {
                assert forall|m: Reading| #[trigger] calc.agrees(m) implies Val::Vector(
                    vals(out@),
                ) == combined(m, op, l@, r@) by {
                    assert(vals(out@) =~= combined(m, op, l@, r@)->Vector_0);
                }
            }
            vector(out)
        },
        _ => Value::Undef,
    }
}

/// The items as numbers, where all are.
fn numbers(list: &Vec<Value>) -> (r: Option<Vec<u64>>)
    ensures
        match r {
            Some(v) => all_numbers(vals(list@)) && v@.len() == list@.len() && forall|i: int|
                0 <= i < v@.len() ==> vals(list@)[i] == Val::Number(#[trigger] v@[i]),
            None => !all_numbers(vals(list@)),
        },
{
    let ghost lv = vals(list@);
    let mut out: Vec<u64> = Vec::new();
    let mut i: usize = 0;
    while i < list.len()
        invariant
            lv == vals(list@),
            i <= list@.len(),
            out@.len() == i,
            forall|k: int| 0 <= k < i ==> lv[k] == Val::Number(#[trigger] out@[k]),
        decreases list.len() - i,
    {
        assert(lv[i as int] == list@[i as int]@);
        match list[i].as_number() {
            Some(n) => out.push(n),
            None => {
                assert(!(lv[i as int] is Number));
                return None;
            },
        }
        i = i + 1;
    }
    assert(all_numbers(lv)) by {
        assert forall|i: int| 0 <= i < lv.len() implies #[trigger] lv[i] is Number by {
            assert(lv[i] == Val::Number(out@[i]));
        }
    }
    Some(out)
}

/// Numbers as values.
pub open spec fn number_vals(v: Seq<u64>) -> Seq<Val> {
    v.map_values(|n: u64| Val::Number(n))
}

fn number_list(v: &Vec<u64>) -> (r: Value)
    ensures
        r@ == Val::Vector(number_vals(v@)),
{
    let mut out: Vec<Value> = Vec::new();
    for i in 0..v.len()
        invariant
            vals(out@) =~= number_vals(v@).take(i as int),
    {
        let ghost before = vals(out@);
        out.push(Value::Number(v[i]));
        assert(vals(out@) =~= before.push(Val::Number(v@[i as int])));
    }
    assert(number_vals(v@).take(v@.len() as int) =~= number_vals(v@));
    vector(out)
}

/// The dot product of two lists.
fn dot<A: Arithmetic>(calc: &mut Calc<A>, a: &Vec<Value>, b: &Vec<Value>) -> (r: Value)
    ensures
        r@ is Undef <==> !dottable(vals(a@), vals(b@)),
        forall|m: Reading| #[trigger]
            final(calc).agrees(m) ==> old(calc).agrees(m) && r@ == dot_value(
                m,
                vals(a@),
                vals(b@),
            ),
{
    let ghost av = vals(a@);
    let ghost bv = vals(b@);
    if a.len() == 0 || a.len() != b.len() {
        return Value::Undef;
    }
    let x = match numbers(a) {
        Some(x) => x,
        None => return Value::Undef,
    };
    let y = match numbers(b) {
        Some(y) => y,
        None => return Value::Undef,
    };
    let mut sum: u64 = ZERO;
    let mut i: usize = 0;
    while i < x.len()
        invariant
            av == vals(a@),
            bv == vals(b@),
            x@.len() == av.len(),
            y@.len() == av.len(),
            av.len() == bv.len(),
            forall|k: int| 0 <= k < x@.len() ==> av[k] == Val::Number(#[trigger] x@[k]),
            forall|k: int| 0 <= k < y@.len() ==> bv[k] == Val::Number(#[trigger] y@[k]),
            i <= x@.len(),
            forall|m: Reading| #[trigger]
                calc.agrees(m) ==> old(calc).agrees(m) && sum == dot_sum(m, av, bv, i as int),
        decreases x.len() - i,
    {
        assert(av[i as int] == Val::Number(x@[i as int]));
        assert(bv[i as int] == Val::Number(y@[i as int]));
        let product: u64 = calc.apply(NumOp::Mul, x[i], y[i]);
        sum = calc.apply(NumOp::Add, sum, product);
        i = i + 1;
    }
    Value::Number(sum)
}

/// The `k`-th row holds the numbers `v`.
spec fn row_holds(rows: Seq<Val>, k: int, v: Seq<u64>) -> bool {
    rows[k] is Vector && row(rows, k) == number_vals(v) && v.len() > 0
}

/// The rows as lists of numbers, where they form a matrix.
fn as_matrix(rows: &Vec<Value>) -> (r: Option<Vec<Vec<u64>>>)
    ensures
        match r {
            Some(v) => is_matrix(vals(rows@)) && v@.len() == rows@.len() && forall|i: int|
                0 <= i < v@.len() ==> row(vals(rows@), i) == number_vals((#[trigger] v@[i])@),
            None => !is_matrix(vals(rows@)),
        },
{
    let ghost rv = vals(rows@);
    if rows.len() == 0 {
        return None;
    }
    let mut out: Vec<Vec<u64>> = Vec::new();
    let mut i: usize = 0;
    while i < rows.len()
        invariant
            rv == vals(rows@),
            i <= rows@.len(),
            out@.len() == i,
            forall|k: int| 0 <= k < i ==> row_holds(rv, k, (#[trigger] out@[k])@),
        decreases rows.len() - i,
    {
        assert(rv[i as int] == rows@[i as int]@);
        let list = match items_of(&rows[i]) {
            Some(list) => list,
            None => {
                assert(!(rv[i as int] is Vector));
                return None;
            },
        };
        assert(row(rv, i as int) == vals(list@));
        if list.len() == 0 {
            assert(rv[i as int] is Vector && row(rv, i as int).len() == 0);
            return None;
        }
        let v = match numbers(list) {
            Some(v) => v,
            None => {
                assert(rv[i as int] is Vector && !all_numbers(row(rv, i as int)));
                return None;
            },
        };
        let ghost nv = v@;
        let ghost before = out@;
        out.push(v);
        proof {
            assert forall|k: int| 0 <= k < nv.len() implies vals(list@)[k] == number_vals(nv)[k] by {
                assert(vals(list@)[k] == Val::Number(nv[k]));
            }
            assert(row(rv, i as int) =~= number_vals(nv));
            assert(out@[i as int]@ == nv);
            assert(row_holds(rv, i as int, nv));
            assert forall|k: int| 0 <= k < i + 1 implies row_holds(rv, k, (#[trigger] out@[k])@) by {
                if k < i {
                    assert(out@[k] == before[k]);
                }
            }
        }
        i = i + 1;
    }
    proof {
        assert forall|k: int| 0 <= k < rv.len() implies (#[trigger] rv[k]) is Vector && row(
            rv,
            k,
        ).len() > 0 && all_numbers(row(rv, k)) by {
            assert(row_holds(rv, k, out@[k]@));
        }
        assert forall|k: int| 0 <= k < out@.len() implies row(rv, k) == number_vals(
            (#[trigger] out@[k])@,
        ) by {
            assert(row_holds(rv, k, out@[k]@));
        }
    }
    Some(out)
}

/// Whether every row has `n` entries.
fn all_of_length(rows: &Vec<Vec<u64>>, n: usize) -> (r: bool)
    ensures
        r == forall|i: int| 0 <= i < rows@.len() ==> (#[trigger] rows@[i])@.len() == n,
{
    let mut i: usize = 0;
    while i < rows.len()
        invariant
            i <= rows@.len(),
            forall|k: int| 0 <= k < i ==> (#[trigger] rows@[k])@.len() == n,
        decreases rows.len() - i,
    {
        if rows[i].len() != n {
            assert(rows@[i as int]@.len() != n);
            return false;
        }
        i = i + 1;
    }
    true
}

/// A list of weights times a matrix.
fn weigh<A: Arithmetic>(
    calc: &mut Calc<A>,
    weights: &Vec<u64>,
    rows: &Vec<Vec<u64>>,
    Ghost(wv): Ghost<Seq<Val>>,
    Ghost(bv): Ghost<Seq<Val>>,
) -> (r: Value)
    requires
        wv == number_vals(weights@),
        weights@.len() == rows@.len(),
        rows@.len() > 0,
        bv.len() == rows@.len(),
        forall|i: int|
            0 <= i < rows@.len() ==> row(bv, i) == number_vals((#[trigger] rows@[i])@)
                && rows@[i]@.len() == rows@[0]@.len(),
    ensures
        forall|m: Reading| #[trigger]
            final(calc).agrees(m) ==> old(calc).agrees(m) && r@ == weighted(m, wv, bv),
{
    let cols: usize = rows[0].len();
    let mut out: Vec<u64> = Vec::new();
    let mut j: usize = 0;
    while j < cols
        invariant
            wv == number_vals(weights@),
            weights@.len() == rows@.len(),
            rows@.len() > 0,
            cols == rows@[0]@.len(),
            bv.len() == rows@.len(),
            forall|i: int|
                0 <= i < rows@.len() ==> row(bv, i) == number_vals((#[trigger] rows@[i])@)
                    && rows@[i]@.len() == rows@[0]@.len(),
            j <= cols,
            out@.len() == j,
            forall|m: Reading| #[trigger]
                calc.agrees(m) ==> old(calc).agrees(m) && forall|k: int|
                    0 <= k < j ==> #[trigger] out@[k] == column_sum(
                        m,
                        wv,
                        bv,
                        k,
                        bv.len() as int,
                    ),
        decreases cols - j,
    {
        let mut sum: u64 = ZERO;
        let mut i: usize = 0;
        while i < rows.len()
            invariant
                wv == number_vals(weights@),
                weights@.len() == rows@.len(),
                cols == rows@[0]@.len(),
                bv.len() == rows@.len(),
                forall|i: int|
                    0 <= i < rows@.len() ==> row(bv, i) == number_vals((#[trigger] rows@[i])@)
                        && rows@[i]@.len() == rows@[0]@.len(),
                j < cols,
                i <= rows@.len(),
                forall|m: Reading| #[trigger]
                    calc.agrees(m) ==> old(calc).agrees(m) && (forall|k: int|
                        0 <= k < j ==> #[trigger] out@[k] == column_sum(
                            m,
                            wv,
                            bv,
                            k,
                            bv.len() as int,
                        )) && sum == column_sum(m, wv, bv, j as int, i as int),
            decreases rows.len() - i,
        {
            assert(row(bv, i as int) == number_vals(rows@[i as int]@));
            assert(row(bv, i as int)[j as int] == Val::Number(rows@[i as int]@[j as int]));
            assert(wv[i as int] == Val::Number(weights@[i as int]));
            let cell: u64 = rows[i][j];
            let product: u64 = calc.apply(NumOp::Mul, weights[i], cell);
            sum = calc.apply(NumOp::Add, sum, product);
            i = i + 1;
        }
        out.push(sum);
        j = j + 1;
    }
    proof {
        assert forall|m: Reading| #[trigger] calc.agrees(m) implies Val::Vector(number_vals(out@))
            == weighted(m, wv, bv) by {
            assert(row(bv, 0) == number_vals(rows@[0]@));
            assert(number_vals(out@) =~= weighted(m, wv, bv)->Vector_0) by {
                assert forall|k: int| 0 <= k < out@.len() implies number_vals(out@)[k] == weighted(
                    m,
                    wv,
                    bv,
                )->Vector_0[k] by {
                    assert(out@[k] == column_sum(m, wv, bv, k, bv.len() as int));
                }
            }
        }
    }
    number_list(&out)
}

/// A matrix times a vector.
fn rows_dot<A: Arithmetic>(calc: &mut Calc<A>, a: &Vec<Value>, b: &Vec<Value>) -> (r: Value)
    ensures
        forall|m: Reading| #[trigger]
            final(calc).agrees(m) ==> old(calc).agrees(m) && r@ == if forall|i: int|
                0 <= i < a@.len() ==> (#[trigger] vals(a@)[i]) is Vector && dottable(
                    row(vals(a@), i),
                    vals(b@),
                ) {
                Val::Vector(Seq::new(a@.len(), |i: int| dot_value(m, row(vals(a@), i), vals(b@))))
            } else {
                Val::Undef
            },
{
    let ghost av = vals(a@);
    let ghost bv = vals(b@);
    let mut out: Vec<Value> = Vec::new();
    let mut i: usize = 0;
    while i < a.len()
        invariant
            av == vals(a@),
            bv == vals(b@),
            i <= a@.len(),
            out@.len() == i,
            forall|k: int| 0 <= k < i ==> (#[trigger] av[k]) is Vector && dottable(row(av, k), bv),
            forall|m: Reading| #[trigger]
                calc.agrees(m) ==> old(calc).agrees(m) && forall|k: int|
                    0 <= k < i ==> #[trigger] vals(out@)[k] == dot_value(m, row(av, k), bv),
        decreases a.len() - i,
    {
        assert(av[i as int] == a@[i as int]@);
        let list = match items_of(&a[i]) {
            Some(list) => list,
            None => {
                assert(!(av[i as int] is Vector));
                return Value::Undef;
            },
        };
        assert(row(av, i as int) == vals(list@));
        let product = dot(calc, list, b);
        match product {
            Value::Undef => {
                assert(av[i as int] is Vector && !dottable(row(av, i as int), bv));
                return Value::Undef;
            },
            _ => {},
        }
        let ghost before = vals(out@);
        out.push(product);
        assert(vals(out@) =~= before.push(product@));
        i = i + 1;
    }
    proof {
        assert forall|m: Reading| #[trigger] calc.agrees(m) implies vals(out@) =~= Seq::new(
            a@.len(),
            |i: int| dot_value(m, row(av, i), bv),
        ) by {
            assert forall|k: int| 0 <= k < out@.len() implies vals(out@)[k] == dot_value(
                m,
                row(av, k),
                bv,
            ) by {}
        }
    }
    vector(out)
}

/// Whether the first item is a list.
fn leads_with_list(a: &Vec<Value>) -> (r: bool)
    ensures
        r == starts_with_list(vals(a@)),
{
    if a.len() == 0 {
        return false;
    }
    assert(vals(a@)[0] == a@[0]@);
    match &a[0] {
        Value::Vector(_) => true,
        _ => false,
    }
}

/// The product of two lists.
fn mul_lists<A: Arithmetic>(calc: &mut Calc<A>, a: &Vec<Value>, b: &Vec<Value>) -> (r: Value)
    ensures
        forall|m: Reading| #[trigger]
            final(calc).agrees(m) ==> old(calc).agrees(m) && r@ == list_product(
                m,
                vals(a@),
                vals(b@),
            ),
{
    let ghost av = vals(a@);
    let ghost bv = vals(b@);
    let a_matrix: bool = leads_with_list(a);
    let b_matrix: bool = leads_with_list(b);
    if !a_matrix && !b_matrix {
        return dot(calc, a, b);
    }
    if a_matrix && !b_matrix {
        return rows_dot(calc, a, b);
    }
    let rows = match as_matrix(b) {
        Some(rows) => rows,
        None => return Value::Undef,
    };
    let cols: usize = rows[0].len();
    assert(row(bv, 0) == number_vals(rows@[0]@));
    let even: bool = all_of_length(&rows, cols);
    assert(even == rows_of_length(bv, cols as int)) by {
        if even {
            assert forall|i: int| 0 <= i < bv.len() implies (#[trigger] row(bv, i)).len()
                == cols by {
                assert(row(bv, i) == number_vals(rows@[i]@));
            }
        } else {
            let i = choose|i: int| 0 <= i < rows@.len() && (#[trigger] rows@[i])@.len() != cols;
            assert(row(bv, i) == number_vals(rows@[i]@));
            assert(row(bv, i).len() != cols);
        }
    }
    if !a_matrix {
        if a.len() != b.len() || !even {
            return Value::Undef;
        }
        let weights = match numbers(a) {
            Some(w) => w,
            None => return Value::Undef,
        };
        assert(av =~= number_vals(weights@)) by {
            assert forall|i: int| 0 <= i < av.len() implies av[i] == number_vals(weights@)[i] by {
                assert(av[i] == Val::Number(weights@[i]));
            }
        }
        return weigh(calc, &weights, &rows, Ghost(av), Ghost(bv));
    }
    let left = match as_matrix(a) {
        Some(left) => left,
        None => return Value::Undef,
    };
    let fits: bool = all_of_length(&left, rows.len());
    assert(fits == rows_of_length(av, bv.len() as int)) by {
        if fits {
            assert forall|i: int| 0 <= i < av.len() implies (#[trigger] row(av, i)).len()
                == bv.len() by {
                assert(row(av, i) == number_vals(left@[i]@));
            }
        } else {
            let i = choose|i: int| 0 <= i < left@.len() && (#[trigger] left@[i])@.len() != bv.len();
            assert(row(av, i) == number_vals(left@[i]@));
            assert(row(av, i).len() != bv.len());
        }
    }
    if !fits || !even {
        return Value::Undef;
    }
    let mut out: Vec<Value> = Vec::new();
    let mut i: usize = 0;
    while i < left.len()
        invariant
            av.len() == left@.len(),
            bv.len() == rows@.len(),
            rows@.len() > 0,
            forall|k: int|
                0 <= k < left@.len() ==> row(av, k) == number_vals((#[trigger] left@[k])@)
                    && left@[k]@.len() == rows@.len(),
            forall|k: int|
                0 <= k < rows@.len() ==> row(bv, k) == number_vals((#[trigger] rows@[k])@)
                    && rows@[k]@.len() == rows@[0]@.len(),
            i <= left@.len(),
            out@.len() == i,
            forall|m: Reading| #[trigger]
                calc.agrees(m) ==> old(calc).agrees(m) && forall|k: int|
                    0 <= k < i ==> #[trigger] vals(out@)[k] == weighted(m, row(av, k), bv),
        decreases left.len() - i,
    {
        assert(row(av, i as int) == number_vals(left@[i as int]@));
        let ghost before = vals(out@);
        let product = weigh(calc, &left[i], &rows, Ghost(row(av, i as int)), Ghost(bv));
        out.push(product);
        assert(vals(out@) =~= before.push(product@));
        i = i + 1;
    }
    proof {
        assert forall|m: Reading| #[trigger] calc.agrees(m) implies vals(out@) =~= Seq::new(
            av.len(),
            |i: int| weighted(m, row(av, i), bv),
        ) by {
            assert forall|k: int| 0 <= k < out@.len() implies vals(out@)[k] == weighted(
                m,
                row(av, k),
                bv,
            ) by {}
        }
    }
    vector(out)
}

/// What a comparison gives.
fn compare(op: BinOp, a: &Value, b: &Value) -> (r: Value)
    ensures
        r@ == comparison(op, a@, b@),
{
    match value_order(a, b) {
        None => Value::Undef,
        Some(s) => Value::Bool(
            match op {
                BinOp::Lt => s == Standing::Less,
                BinOp::Le => s != Standing::Greater,
                BinOp::Gt => s == Standing::Greater,
                _ => s != Standing::Less,
            },
        ),
    }
}

/// Applies a binary operator.
pub fn binary<A: Arithmetic>(calc: &mut Calc<A>, op: BinOp, l: &Value, r: &Value) -> (v: Value)
    ensures
        forall|m: Reading| #[trigger]
            final(calc).agrees(m) ==> old(calc).agrees(m) && v@ == binary_of(m, op, l@, r@),
{
    match op {
        BinOp::And => Value::Bool(l.truthy() && r.truthy()),
        BinOp::Or => Value::Bool(l.truthy() || r.truthy()),
        BinOp::Eq => Value::Bool(value_eq(l, r)),
        BinOp::Ne => Value::Bool(!value_eq(l, r)),
        BinOp::Lt => compare(op, l, r),
        BinOp::Le => compare(op, l, r),
        BinOp::Gt => compare(op, l, r),
        BinOp::Ge => compare(op, l, r),
        BinOp::Add => combine_values(calc, NumOp::Add, l, r),
        BinOp::Sub => combine_values(calc, NumOp::Sub, l, r),
        BinOp::Mul => match l {
            Value::Number(s) => scale_value(calc, *s, r),
            Value::Vector(_) => match r {
                Value::Number(s) => scale_value(calc, *s, l),
                _ => match (items_of(l), items_of(r)) {
                    (Some(a), Some(b)) => mul_lists(calc, a, b),
                    _ => Value::Undef,
                },
            },
            _ => Value::Undef,
        },
        BinOp::Div => match r {
            Value::Number(s) => divide_value(calc, l, *s),
            _ => Value::Undef,
        },
        BinOp::Mod => match (l, r) {
            (Value::Number(a), Value::Number(b)) => Value::Number(calc.apply(NumOp::Rem, *a, *b)),
            _ => Value::Undef,
        },
        BinOp::Pow => match (l, r) {
            (Value::Number(a), Value::Number(b)) => Value::Number(calc.apply(NumOp::Pow, *a, *b)),
            _ => Value::Undef,
        },
    }
}

// ---- laws ------------------------------------------------------------------------------------------

/// Equality of values is symmetric.
pub proof fn law_equality_symmetric(a: Val, b: Val)
    ensures
        equal_values(a, b) == equal_values(b, a),
    decreases a,
{
    match (a, b) {
        (Val::Vector(x), Val::Vector(y)) => {
            if x.len() == y.len() {
                assert forall|i: int| 0 <= i < x.len() implies equal_values(#[trigger] x[i], y[i])
                    == equal_values(y[i], x[i]) by {
                    law_equality_symmetric(x[i], y[i]);
                }
                if equal_values(a, b) {
                    assert forall|i: int| 0 <= i < y.len() implies equal_values(
                        #[trigger] y[i],
                        x[i],
                    ) by {
                        assert(equal_values(x[i], y[i]));
                    }
                }
                if equal_values(b, a) {
                    assert forall|i: int| 0 <= i < x.len() implies equal_values(
                        #[trigger] x[i],
                        y[i],
                    ) by {
                        assert(equal_values(y[i], x[i]));
                    }
                }
            }
        },
        _ => {},
    }
}

/// Comparing with something that is not a number gives nothing, and such a
/// number is not even equal to itself.
pub proof fn law_not_a_number(m: Reading, n: u64, v: u64)
    requires
        nan(n),
    ensures
        binary_of(m, BinOp::Lt, Val::Number(n), Val::Number(v)) == Val::Undef,
        binary_of(m, BinOp::Ge, Val::Number(v), Val::Number(n)) == Val::Undef,
        binary_of(m, BinOp::Eq, Val::Number(n), Val::Number(n)) == Val::Bool(false),
        truth(Val::Number(n)),
{
}

} // verus!
