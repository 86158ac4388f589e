//! Indexing values, and the sequences that loops run over.

use crate::num::{
    absolute, at_most, is_at_most, is_less, is_nan, is_zero, less, magnitude, nan, zero, Arithmetic,
    Calc, NumOp, Reading, ZERO,
};
use crate::text::chars_of;
use crate::value::{val, vals, Val, Value};
use vstd::prelude::*;

verus! {

/// The most iterations of one loop.
pub const MAX_RANGE_ITERS: usize = 10_000_000;

/// A millionth of a millionth: how far past its end a range may reach.
pub const SLACK: u64 = 0x3d71_9799_812d_ea11;

/// The place that a number names: the number without its fraction, unless that
/// is negative or not a number.
pub open spec fn place_of(m: Reading, n: u64) -> Option<u64> {
    if nan(n) {
        None
    } else {
        let whole = m.at(NumOp::ToInt, magnitude(n) as u64, 0);
        if less(n, ZERO) && whole > 0 {
            None
        } else {
            Some(whole)
        }
    }
}

/// The place that a number names.
pub fn to_place<A: Arithmetic>(calc: &mut Calc<A>, n: u64) -> (r: Option<u64>)
    ensures
        forall|m: Reading| #[trigger]
            final(calc).agrees(m) ==> old(calc).agrees(m) && r == place_of(m, n),
{
    if is_nan(n) {
        return None;
    }
    let whole: u64 = calc.apply(NumOp::ToInt, absolute(n), 0);
    if is_less(n, ZERO) && whole > 0 {
        None
    } else {
        Some(whole)
    }
}

/// What stands at a place of a value.
pub open spec fn item_at(base: Val, i: u64) -> Val {
    match base {
        Val::Vector(items) => if i < items.len() {
            items[i as int]
        } else {
            Val::Undef
        },
        Val::Str(s) => if i < s.len() {
            Val::Str(seq![s[i as int]])
        } else {
            Val::Undef
        },
        Val::Range { start, step, end } => if i == 0 {
            Val::Number(start)
        } else if i == 1 {
            Val::Number(step)
        } else if i == 2 {
            Val::Number(end)
        } else {
            Val::Undef
        },
        _ => Val::Undef,
    }
}

/// An item of a list, a character of a text, or a bound of a range.
pub open spec fn indexed(m: Reading, base: Val, index: Val) -> Val {
    match index {
        Val::Number(n) => match place_of(m, n) {
            Some(i) => item_at(base, i),
            None => Val::Undef,
        },
        _ => Val::Undef,
    }
}

/// What stands at a place of a value.
pub fn take_item(base: &Value, i: u64) -> (r: Value)
    ensures
        r@ == item_at(base@, i),
{
    match base {
        Value::Vector(items) => {
            let list: &Vec<Value> = &**items;
            assert(base@ matches Val::Vector(s) && s.len() == list@.len());
            if i < list.len() as u64 {
                assert(base@->Vector_0[i as int] == val(list@[i as int]));
                list[i as usize].duplicate()
            } else {
                Value::Undef
            }
        },
        Value::Str(s) => {
            let n: usize = s.as_str().unicode_len();
            if i < n as u64 {
                let c = s.as_str().get_char(i as usize);
                let mut t = String::new();
                t.push(c);
                assert(t@ =~= seq![s@[i as int]]);
                Value::Str(t)
            } else {
                Value::Undef
            }
        },
        Value::Range { start, step, end } => if i == 0 {
            Value::Number(*start)
        } else if i == 1 {
            Value::Number(*step)
        } else if i == 2 {
            Value::Number(*end)
        } else {
            Value::Undef
        },
        _ => Value::Undef,
    }
}

/// An item of a list, a character of a text, or a bound of a range.
pub fn index_value<A: Arithmetic>(calc: &mut Calc<A>, base: &Value, index: &Value) -> (r: Value)
    ensures
        forall|m: Reading| #[trigger]
            final(calc).agrees(m) ==> old(calc).agrees(m) && r@ == indexed(m, base@, index@),
{
    match index {
        Value::Number(n) => match to_place(calc, *n) {
            Some(i) => take_item(base, i),
            None => Value::Undef,
        },
        _ => Value::Undef,
    }
}

// ---- loops -----------------------------------------------------------------------------------

/// The `i`-th number of a range.
pub open spec fn range_item(m: Reading, start: u64, step: u64, i: nat) -> u64 {
    if i == 0 {
        start
    } else {
        m.at(NumOp::Add, start, m.at(NumOp::Mul, step, m.at(NumOp::FromInt, i as u64, 0)))
    }
}

/// A number of a range that has not passed its end.
pub open spec fn in_range(m: Reading, x: u64, step: u64, end: u64) -> bool {
    if less(ZERO, step) {
        at_most(x, m.at(NumOp::Add, end, SLACK))
    } else {
        at_most(m.at(NumOp::Sub, end, SLACK), x)
    }
}

/// The numbers of a range from the `i`-th on, unless there are too many.
pub open spec fn range_from(m: Reading, start: u64, step: u64, end: u64, i: nat) -> Option<Seq<Val>>
    decreases MAX_RANGE_ITERS + 1 - i,
{
    let x = range_item(m, start, step, i);
    if !in_range(m, x, step, end) {
        Some(Seq::empty())
    } else if i + 1 > MAX_RANGE_ITERS {
        None
    } else {
        match range_from(m, start, step, end, i + 1) {
            Some(rest) => Some(seq![Val::Number(x)] + rest),
            None => None,
        }
    }
}

/// A range that runs nowhere.
pub open spec fn idle_range(start: u64, step: u64, end: u64) -> bool {
    zero(step) || nan(start) || nan(end) || nan(step)
}

/// The characters of a text, each as a value.
pub open spec fn char_vals(s: Seq<char>) -> Seq<Val> {
    s.map_values(|c: char| Val::Str(seq![c]))
}

/// The values that a loop over `v` runs through: none for nothing, the items of
/// a list, the characters of a text, the numbers of a range, and any other
/// value once. A range can be too long.
pub open spec fn iterated(m: Reading, v: Val) -> Option<Seq<Val>> {
    match v {
        Val::Undef => Some(Seq::empty()),
        Val::Vector(items) => Some(items),
        Val::Str(s) => Some(char_vals(s)),
        Val::Range { start, step, end } => if idle_range(start, step, end) {
            Some(Seq::empty())
        } else {
            range_from(m, start, step, end, 0)
        },
        other => Some(seq![other]),
    }
}

/// The characters of a text, each as a value.
pub fn text_values(s: &str) -> (r: Vec<Value>)
    ensures
        vals(r@) == char_vals(s@),
{
    let v = chars_of(s);
    let mut out: Vec<Value> = Vec::new();
    for i in 0..v.len()
        invariant
            v@ == s@,
            vals(out@) =~= char_vals(s@).take(i as int),
    {
        let mut t = String::new();
        t.push(v[i]);
        assert(t@ =~= seq![s@[i as int]]);
        let ghost before = vals(out@);
        let item = Value::Str(t);
        out.push(item);
        assert(vals(out@) =~= before.push(Val::Str(seq![s@[i as int]])));
    }
    assert(char_vals(s@).take(v@.len() as int) =~= char_vals(s@));
    out
}

/// Copies of the items of a list.
pub fn copy_values(list: &Vec<Value>) -> (r: Vec<Value>)
    ensures
        vals(r@) == vals(list@),
{
    let mut out: Vec<Value> = Vec::new();
    for i in 0..list.len()
        invariant
            vals(out@) =~= vals(list@).take(i as int),
    {
        let ghost before = vals(out@);
        let item = list[i].duplicate();
        out.push(item);
        assert(vals(out@) =~= before.push(vals(list@)[i as int]));
    }
    assert(vals(list@).take(list@.len() as int) =~= vals(list@));
    out
}

fn range_values<A: Arithmetic>(calc: &mut Calc<A>, start: u64, step: u64, end: u64) -> (r: Option<
    Vec<Value>,
>)
    ensures
        forall|m: Reading| #[trigger]
            final(calc).agrees(m) ==> old(calc).agrees(m) && match r {
                Some(v) => range_from(m, start, step, end, 0) == Some(vals(v@)),
                None => range_from(m, start, step, end, 0) is None,
            },
{
    let mut out: Vec<Value> = Vec::new();
    let forward: bool = is_less(ZERO, step);
    let mut x: u64 = start;
    let mut i: usize = 0;
    let mut going: bool = true;
    assert(vals(out@) =~= Seq::empty());
    while going
        invariant
            forward == less(ZERO, step),
            i <= MAX_RANGE_ITERS,
            forall|m: Reading| #[trigger]
                calc.agrees(m) ==> old(calc).agrees(m) && x == range_item(m, start, step, i as nat)
                    && match range_from(m, start, step, end, i as nat) {
                    Some(rest) => range_from(m, start, step, end, 0) == Some(vals(out@) + rest),
                    None => range_from(m, start, step, end, 0) is None,
                } && (!going ==> range_from(m, start, step, end, i as nat) == Some(
                    Seq::<Val>::empty(),
                )),
        decreases MAX_RANGE_ITERS + 1 - i, going as int,
    {
        let inside: bool = if forward {
            let limit: u64 = calc.apply(NumOp::Add, end, SLACK);
            is_at_most(x, limit)
        } else {
            let limit: u64 = calc.apply(NumOp::Sub, end, SLACK);
            is_at_most(limit, x)
        };
        if !inside {
            going = false;
        } else {
            if i + 1 > MAX_RANGE_ITERS {
                return None;
            }
            let ghost before = vals(out@);
            out.push(Value::Number(x));
            assert(vals(out@) =~= before.push(Val::Number(x)));
            let ghost here = x;
            i = i + 1;
            let whole: u64 = calc.apply(NumOp::FromInt, i as u64, 0);
            let far: u64 = calc.apply(NumOp::Mul, step, whole);
            x = calc.apply(NumOp::Add, start, far);
            proof {
                assert forall|m: Reading| #[trigger] calc.agrees(m) implies match range_from(
                    m,
                    start,
                    step,
                    end,
                    i as nat,
                ) {
                    Some(rest) => range_from(m, start, step, end, 0) == Some(vals(out@) + rest),
                    None => range_from(m, start, step, end, 0) is None,
                } by {
                    match range_from(m, start, step, end, i as nat) {
                        Some(rest) => {
                            assert(before + (seq![Val::Number(here)] + rest) =~= vals(out@) + rest);
                        },
                        None => {},
                    }
                }
            }
        }
    }
    proof {
        assert forall|m: Reading| #[trigger] calc.agrees(m) implies range_from(
            m,
            start,
            step,
            end,
            0,
        ) == Some(vals(out@)) by {
            assert(vals(out@) + Seq::<Val>::empty() =~= vals(out@));
        }
    }
    Some(out)
}

/// The values that a loop over `v` runs through, or none where a range is too
/// long.
pub fn iter_values<A: Arithmetic>(calc: &mut Calc<A>, v: &Value) -> (r: Option<Vec<Value>>)
    ensures
        forall|m: Reading| #[trigger]
            final(calc).agrees(m) ==> old(calc).agrees(m) && match r {
                Some(out) => iterated(m, v@) == Some(vals(out@)),
                None => iterated(m, v@) is None,
            },
{
    match v {
        Value::Undef => {
            let out: Vec<Value> = Vec::new();
            assert(vals(out@) =~= Seq::empty());
            Some(out)
        },
        Value::Vector(items) => {
            let list: &Vec<Value> = &**items;
            assert(v@ matches Val::Vector(s) && s =~= vals(list@));
            Some(copy_values(list))
        },
        Value::Str(s) => Some(text_values(s.as_str())),
        Value::Range { start, step, end } => {
            if is_zero(*step) || is_nan(*start) || is_nan(*end) || is_nan(*step) {
                let out: Vec<Value> = Vec::new();
                assert(vals(out@) =~= Seq::empty());
                return Some(out);
            }
            range_values(calc, *start, *step, *end)
        },
        _ => {
            let mut out: Vec<Value> = Vec::new();
            out.push(v.duplicate());
            assert(vals(out@) =~= seq![v@]);
            Some(out)
        },
    }
}

} // verus!
