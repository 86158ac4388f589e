//! What expressions mean: the values they give, the questions they put to the
//! surrounding program, and the order of both.

use crate::ast::{Arg, Binding, Expr, ListElem, Param};
use crate::diag::NoteView;
use crate::iterate::{indexed, iterated, MAX_RANGE_ITERS};
use crate::num::{at_most, Reading, NAN, ONE, TWO, ZERO};
use crate::value::{binary_of, number_of, truth, unary_of, BinOp, Val};
use vstd::prelude::*;

verus! {

/// Names and their values, innermost last.
pub type Env = Seq<(Seq<char>, Val)>;

/// An argument as it is passed: its name, where it has one, and its value.
pub type Passed = Seq<(Option<Seq<char>>, Val)>;

/// A question that an expression puts to the surrounding program.
#[allow(inconsistent_fields)]
pub ghost enum Query {
    /// Call the closure `f`, with the dynamic names bound here.
    Closure { f: usize, args: Passed, specials: Env },
    /// Call a built-in function.
    Builtin { name: Seq<char>, args: Seq<Val> },
    /// Make a closure of a function literal.
    Close { params: Vec<Param>, body: Expr, env: Env },
    /// Print a line of values.
    Echo(Passed),
    /// Count an assertion.
    Asserted,
    /// Write a value as text.
    Text(Val),
}

/// A function value: its parameters and body, the scopes and names that it was
/// made in, and its name.
pub ghost struct ClosureView {
    pub params: Vec<Param>,
    pub body: Expr,
    pub open: Seq<usize>,
    pub locals: Env,
    pub name: Option<Seq<char>>,
}

/// What running expressions changes.
pub ghost struct Store {
    pub closures: Seq<ClosureView>,
    /// The text of each closure.
    pub texts: Seq<Seq<char>>,
    pub echoes: Seq<Seq<char>>,
    pub warnings: Seq<NoteView>,
    pub random: u64,
    pub asserts: u64,
    /// The steps that are left, where they are counted.
    pub fuel: u64,
}

/// What surrounds an expression: which closure a name stands for, what value a
/// name has outside of the expression, what each question comes to, and whether
/// steps are counted.
pub ghost struct Oracle {
    pub func: spec_fn(Seq<char>) -> Option<usize>,
    pub global: spec_fn(Seq<char>) -> Val,
    pub answer: spec_fn(Store, Query) -> Ev,
    pub limited: bool,
}

impl Oracle {
    /// The closure that a name stands for.
    pub open spec fn function(self, name: Seq<char>) -> Option<usize> {
        (self.func)(name)
    }

    /// The value of a name outside.
    pub open spec fn outside(self, name: Seq<char>) -> Val {
        (self.global)(name)
    }

    /// What a question comes to.
    pub open spec fn reply(self, k: Store, q: Query) -> Ev {
        (self.answer)(k, q)
    }
}

/// The outcome of an expression: its value or an error, and what is left behind.
pub ghost struct Ev {
    pub r: Result<Val, Seq<char>>,
    pub k: Store,
}

/// What a run that is out of steps says.
pub open spec fn exhausted() -> Seq<char> {
    "evaluation budget exhausted"@
}

/// The run is out of steps.
pub open spec fn starved<T>(r: Result<T, Seq<char>>) -> bool {
    r == Err::<T, Seq<char>>(exhausted())
}

/// One step less, unless steps are not counted; nothing where none is left.
pub open spec fn charged(o: Oracle, k: Store) -> Option<Store> {
    charge(o.limited, k)
}

/// One step less where steps are counted; nothing where none is left.
pub open spec fn charge(limited: bool, k: Store) -> Option<Store> {
    if !limited {
        Some(k)
    } else if k.fuel == 0 {
        None
    } else {
        Some(Store { fuel: (k.fuel - 1) as u64, ..k })
    }
}

/// The names that are in scope: ordinary ones, and dynamic ones.
pub ghost struct Names {
    pub env: Env,
    pub specials: Env,
}

/// A dynamic name starts with a dollar sign.
pub open spec fn is_special(name: Seq<char>) -> bool {
    name.len() > 0 && name[0] == '$'
}

/// The value of the innermost entry for a name.
pub open spec fn found(env: Env, name: Seq<char>) -> Option<Val>
    decreases env.len(),
{
    if env.len() == 0 {
        None
    } else if env.last().0 == name {
        Some(env.last().1)
    } else {
        found(env.drop_last(), name)
    }
}

/// The value of a name.
pub open spec fn variable(o: Oracle, n: Names, name: Seq<char>) -> Val {
    match found(
        if is_special(name) {
            n.specials
        } else {
            n.env
        },
        name,
    ) {
        Some(v) => v,
        None => o.outside(name),
    }
}

/// The scope with one more name.
pub open spec fn bound(n: Names, name: Seq<char>, v: Val) -> Names {
    if is_special(name) {
        Names { env: n.env, specials: n.specials.push((name, v)) }
    } else {
        Names { env: n.env.push((name, v)), specials: n.specials }
    }
}

/// The last place below `i` and from `base` on that holds a name.
pub open spec fn own_place(env: Env, name: Seq<char>, base: int, i: int) -> Option<int>
    decreases i,
{
    if i <= 0 || i <= base {
        None
    } else if env[i - 1].0 == name {
        Some(i - 1)
    } else {
        own_place(env, name, base, i - 1)
    }
}

/// The names with a new value for one of those from `base` on, or with one more
/// name.
pub open spec fn rebound_env(env: Env, base: int, name: Seq<char>, v: Val) -> Env {
    match own_place(env, name, base, env.len() as int) {
        Some(i) => env.update(i, (name, v)),
        None => env.push((name, v)),
    }
}

/// Where a scope of its own begins, for ordinary and for dynamic names.
pub ghost struct Base {
    pub env: int,
    pub specials: int,
}

/// The scope with a new value for a name of its own.
pub open spec fn rebound(n: Names, base: Base, name: Seq<char>, v: Val) -> Names {
    if is_special(name) {
        Names { env: n.env, specials: rebound_env(n.specials, base.specials, name, v) }
    } else {
        Names { env: rebound_env(n.env, base.env, name, v), specials: n.specials }
    }
}

/// A number, or something that is not one.
pub open spec fn number_or(v: Val, other: u64) -> u64 {
    match number_of(v) {
        Some(n) => n,
        None => other,
    }
}

/// A range of two bounds runs upwards, from the lower one.
pub open spec fn plain_range(a: Val, b: Val) -> Val {
    let s = number_or(a, NAN);
    let e = number_or(b, NAN);
    if at_most(s, e) {
        Val::Range { start: s, step: ONE, end: e }
    } else {
        Val::Range { start: e, step: ONE, end: s }
    }
}

/// A range with a step is kept as it is written.
pub open spec fn stepped_range(a: Val, b: Val, c: Val) -> Val {
    Val::Range { start: number_or(a, NAN), step: number_or(b, ONE), end: number_or(c, NAN) }
}

/// The number of a field: `x`, `y` or `z`.
pub open spec fn field_number(field: Seq<char>) -> Option<u64> {
    if field == "x"@ {
        Some(ZERO)
    } else if field == "y"@ {
        Some(ONE)
    } else if field == "z"@ {
        Some(TWO)
    } else {
        None
    }
}

/// A field of a value.
pub open spec fn member(m: Reading, base: Val, field: Seq<char>) -> Val {
    match field_number(field) {
        Some(i) => indexed(m, base, Val::Number(i)),
        None => Val::Undef,
    }
}

/// The values of passed arguments.
pub open spec fn passed_values(args: Passed) -> Seq<Val> {
    args.map_values(|a: (Option<Seq<char>>, Val)| a.1)
}

/// The closure that a call by name reaches: a function of that name, or the
/// function that a variable of that name holds.
pub open spec fn callee(o: Oracle, n: Names, name: Seq<char>) -> Option<usize> {
    match o.function(name) {
        Some(f) => Some(f),
        None => match variable(o, n, name) {
            Val::Function(f) => Some(f),
            _ => None,
        },
    }
}

/// What a call by name asks.
pub open spec fn call_query(o: Oracle, n: Names, name: Seq<char>, args: Passed) -> Query {
    match callee(o, n, name) {
        Some(f) => Query::Closure { f, args, specials: n.specials },
        None => Query::Builtin { name, args: passed_values(args) },
    }
}

/// Asks a question.
pub open spec fn asked(o: Oracle, k: Store, q: Query) -> Ev {
    o.reply(k, q)
}

/// The text that a reply holds.
pub open spec fn reply_text(r: Result<Val, Seq<char>>) -> Seq<char> {
    match r {
        Ok(Val::Str(s)) => s,
        _ => Seq::empty(),
    }
}

/// The name of an argument.
pub open spec fn arg_name(a: Arg) -> Option<Seq<char>> {
    match a.name {
        Some(n) => Some(n@),
        None => None,
    }
}

/// The outcome of a list of arguments.
pub ghost struct EvArgs {
    pub r: Result<Passed, Seq<char>>,
    pub k: Store,
}

/// The outcome of a list of items.
pub ghost struct EvItems {
    pub r: Result<Seq<Val>, Seq<char>>,
    pub k: Store,
}

/// The outcome of a list of bindings.
pub ghost struct EvNames {
    pub r: Result<Names, Seq<char>>,
    pub k: Store,
}

/// How wide a list element's own loop is.
pub open spec fn width(el: ListElem) -> int {
    match el {
        ListElem::For { bindings, .. } => 2 * bindings@.len() as int + 2,
        ListElem::CFor { .. } => 1,
        _ => 0,
    }
}

/// The arguments from the `i`-th on, after `done`.
pub open spec fn ev_args(m: Reading, o: Oracle, k: Store, n: Names, args: Vec<Arg>, i: int, done: Passed) -> EvArgs
    decreases args, args@.len() - i, 0int,
{
    if i < 0 || i >= args@.len() {
        EvArgs { r: Ok(done), k }
    } else {
        let v = ev(m, o, k, n, args@[i].value);
        match v.r {
            Ok(x) => ev_args(m, o, v.k, n, args, i + 1, done.push((arg_name(args@[i]), x))),
            Err(e) => EvArgs { r: Err(e), k: v.k },
        }
    }
}

/// The bindings from the `i`-th on, each seeing those before it.
pub open spec fn ev_bindings(m: Reading, o: Oracle, k: Store, n: Names, list: Vec<Binding>, i: int) -> EvNames
    decreases list, list@.len() - i, 0int,
{
    if i < 0 || i >= list@.len() {
        EvNames { r: Ok(n), k }
    } else {
        let v = ev(m, o, k, n, list@[i].value);
        match v.r {
            Ok(x) => ev_bindings(m, o, v.k, bound(n, list@[i].name@, x), list, i + 1),
            Err(e) => EvNames { r: Err(e), k: v.k },
        }
    }
}

/// The updates of a loop from the `i`-th on, each seeing those before it.
pub open spec fn ev_updates(
    m: Reading,
    o: Oracle,
    k: Store,
    n: Names,
    base: Base,
    list: Vec<Binding>,
    i: int,
) -> EvNames
    decreases list, list@.len() - i, 0int,
{
    if i < 0 || i >= list@.len() {
        EvNames { r: Ok(n), k }
    } else {
        let v = ev(m, o, k, n, list@[i].value);
        match v.r {
            Ok(x) => ev_updates(m, o, v.k, rebound(n, base, list@[i].name@, x), base, list, i + 1),
            Err(e) => EvNames { r: Err(e), k: v.k },
        }
    }
}

/// The elements from the `i`-th on, after `out`.
pub open spec fn ev_elems(
    m: Reading,
    o: Oracle,
    k: Store,
    n: Names,
    elems: Vec<ListElem>,
    i: int,
    out: Seq<Val>,
) -> EvItems
    decreases elems, elems@.len() - i, 0int,
{
    if i < 0 || i >= elems@.len() {
        EvItems { r: Ok(out), k }
    } else {
        let v = ev_elem(m, o, k, n, elems@[i], out);
        match v.r {
            Ok(more) => ev_elems(m, o, v.k, n, elems, i + 1, more),
            Err(e) => EvItems { r: Err(e), k: v.k },
        }
    }
}

/// The values that `each` makes of one value; none where a range is too long.
pub open spec fn spliced(m: Reading, v: Val) -> Option<Seq<Val>> {
    match v {
        Val::Vector(items) => Some(items),
        Val::Range { .. } => iterated(m, v),
        Val::Undef => Some(Seq::empty()),
        other => Some(seq![other]),
    }
}

/// The values that `each` makes of the values from the `i`-th on, after `out`.
pub open spec fn splice_from(m: Reading, items: Seq<Val>, i: int, out: Seq<Val>) -> Option<Seq<Val>>
    decreases items.len() - i,
{
    if i < 0 || i >= items.len() {
        Some(out)
    } else {
        match spliced(m, items[i]) {
            Some(more) => splice_from(m, items, i + 1, out + more),
            None => None,
        }
    }
}

/// What a list element adds to `out`.
pub open spec fn ev_elem(
    m: Reading,
    o: Oracle,
    k: Store,
    n: Names,
    el: ListElem,
    out: Seq<Val>,
) -> EvItems
    decreases el, width(el), 0int,
{
    match el {
        ListElem::Item(e) => {
            let v = ev(m, o, k, n, e);
            match v.r {
                Ok(x) => EvItems { r: Ok(out.push(x)), k: v.k },
                Err(e) => EvItems { r: Err(e), k: v.k },
            }
        },
        ListElem::Each(inner) => {
            let v = ev_elem(m, o, k, n, *inner, Seq::empty());
            match v.r {
                Ok(items) => match splice_from(m, items, 0, out) {
                    Some(r) => EvItems { r: Ok(r), k: v.k },
                    None => EvItems { r: Err("range too large"@), k: v.k },
                },
                Err(e) => EvItems { r: Err(e), k: v.k },
            }
        },
        ListElem::For { .. } => ev_for(m, o, k, n, el, 0, out),
        ListElem::CFor { init, .. } => {
            let b = ev_bindings(m, o, k, n, init, 0);
            match b.r {
                Ok(inner) => ev_cfor(
                    m,
                    o,
                    b.k,
                    inner,
                    (Base { env: n.env.len() as int, specials: n.specials.len() as int }),
                    el,
                    0,
                    out,
                ),
                Err(e) => EvItems { r: Err(e), k: b.k },
            }
        },
        ListElem::Let { bindings, body } => {
            let b = ev_bindings(m, o, k, n, bindings, 0);
            match b.r {
                Ok(inner) => ev_elem(m, o, b.k, inner, *body, out),
                Err(e) => EvItems { r: Err(e), k: b.k },
            }
        },
        ListElem::If { cond, yes, no } => {
            let c = ev(m, o, k, n, cond);
            match c.r {
                Ok(x) => if truth(x) {
                    ev_elem(m, o, c.k, n, *yes, out)
                } else {
                    match no {
                        Some(e) => ev_elem(m, o, c.k, n, *e, out),
                        None => EvItems { r: Ok(out), k: c.k },
                    }
                },
                Err(e) => EvItems { r: Err(e), k: c.k },
            }
        },
    }
}

/// The loops of a comprehension from the `i`-th on.
pub open spec fn ev_for(
    m: Reading,
    o: Oracle,
    k: Store,
    n: Names,
    el: ListElem,
    i: int,
    out: Seq<Val>,
) -> EvItems
    decreases el, 2 * (loops(el).len() - i) + 1, 0int,
{
    match el {
        ListElem::For { bindings, body } => if i < 0 || i >= bindings@.len() {
            ev_elem(m, o, k, n, *body, out)
        } else {
            let v = ev(m, o, k, n, bindings@[i].value);
            match v.r {
                Ok(x) => match iterated(m, x) {
                    Some(values) => ev_each(m, o, v.k, n, el, i, values, 0, out),
                    None => EvItems { r: Err("range too large"@), k: v.k },
                },
                Err(e) => EvItems { r: Err(e), k: v.k },
            }
        },
        _ => EvItems { r: Ok(out), k },
    }
}

/// The loops of a comprehension.
pub open spec fn loops(el: ListElem) -> Seq<Binding> {
    match el {
        ListElem::For { bindings, .. } => bindings@,
        _ => Seq::empty(),
    }
}

/// The passes of the `i`-th loop from the `j`-th on.
pub open spec fn ev_each(
    m: Reading,
    o: Oracle,
    k: Store,
    n: Names,
    el: ListElem,
    i: int,
    values: Seq<Val>,
    j: int,
    out: Seq<Val>,
) -> EvItems
    decreases el, 2 * (loops(el).len() - i), values.len() - j,
{
    if j < 0 || j >= values.len() || i < 0 || i >= loops(el).len() {
        EvItems { r: Ok(out), k }
    } else {
        let v = ev_for(m, o, k, bound(n, loops(el)[i].name@, values[j]), el, i + 1, out);
        match v.r {
            Ok(more) => ev_each(m, o, v.k, n, el, i, values, j + 1, more),
            Err(e) => EvItems { r: Err(e), k: v.k },
        }
    }
}

/// A loop with a condition, after `iters` passes.
pub open spec fn ev_cfor(
    m: Reading,
    o: Oracle,
    k: Store,
    n: Names,
    base: Base,
    el: ListElem,
    iters: int,
    out: Seq<Val>,
) -> EvItems
    decreases el, 0int, MAX_RANGE_ITERS + 1 - iters,
{
    match el {
        ListElem::CFor { cond, update, body, .. } => {
            let c = ev(m, o, k, n, cond);
            match c.r {
                Ok(x) => if !truth(x) {
                    EvItems { r: Ok(out), k: c.k }
                } else {
                    let b = ev_elem(m, o, c.k, n, *body, out);
                    match b.r {
                        Ok(more) => {
                            let u = ev_updates(m, o, b.k, n, base, update, 0);
                            match u.r {
                                Ok(next) => if iters + 1 > MAX_RANGE_ITERS {
                                    EvItems {
                                        r: Err("C-style for exceeded iteration limit"@),
                                        k: u.k,
                                    }
                                } else {
                                    ev_cfor(m, o, u.k, next, base, el, iters + 1, more)
                                },
                                Err(e) => EvItems { r: Err(e), k: u.k },
                            }
                        },
                        Err(e) => EvItems { r: Err(e), k: b.k },
                    }
                },
                Err(e) => EvItems { r: Err(e), k: c.k },
            }
        },
        _ => EvItems { r: Ok(out), k },
    }
}

/// The place of the first argument without a name, from the `i`-th on.
pub open spec fn first_unnamed(args: Seq<Arg>, i: int) -> Option<int>
    decreases args.len() - i,
{
    if i < 0 || i >= args.len() {
        None
    } else if args[i].name is None {
        Some(i)
    } else {
        first_unnamed(args, i + 1)
    }
}

/// An assertion: it holds where its first argument is true. An argument that
/// cannot be evaluated does not hold, unless it is steps that it lacks: a run that
/// is out of steps says so.
pub open spec fn ev_assert(m: Reading, o: Oracle, k: Store, n: Names, args: Vec<Arg>) -> Ev
    decreases args, 0int, 1int,
{
    let k1 = asked(o, k, Query::Asserted).k;
    let c = match first_unnamed(args@, 0) {
        Some(i) => if 0 <= i < args@.len() {
            ev(m, o, k1, n, args@[i].value)
        } else {
            Ev { r: Ok(Val::Undef), k: k1 }
        },
        None => Ev { r: Ok(Val::Undef), k: k1 },
    };
    let holds = match c.r {
        Ok(v) => truth(v),
        Err(_) => false,
    };
    if starved(c.r) {
        c
    } else if holds {
        Ev { r: Ok(Val::Undef), k: c.k }
    } else if args@.len() < 2 {
        Ev { r: Err("Assertion failed: "@), k: c.k }
    } else {
        let v = ev(m, o, c.k, n, args@[1].value);
        match v.r {
            Ok(x) => {
                let t = asked(o, v.k, Query::Text(x));
                Ev { r: Err("Assertion failed: "@ + reply_text(t.r)), k: t.k }
            },
            Err(e) => Ev { r: Err(e), k: v.k },
        }
    }
}

/// The value of an expression. Each expression takes a step.
pub open spec fn ev(m: Reading, o: Oracle, k: Store, n: Names, e: Expr) -> Ev
    decreases e, 2int, 0int,
{
    match charged(o, k) {
        Some(k1) => ev_body(m, o, k1, n, e),
        None => Ev { r: Err(exhausted()), k },
    }
}

/// The value of an expression whose step is taken.
pub open spec fn ev_body(m: Reading, o: Oracle, k: Store, n: Names, e: Expr) -> Ev
    decreases e, 1int, 0int,
{
    match e {
        Expr::Number(x) => Ev { r: Ok(Val::Number(x)), k },
        Expr::Bool(b) => Ev { r: Ok(Val::Bool(b)), k },
        Expr::Str(s) => Ev { r: Ok(Val::Str(s@)), k },
        Expr::Undef => Ev { r: Ok(Val::Undef), k },
        Expr::Ident(name) => Ev { r: Ok(variable(o, n, name@)), k },
        Expr::Vector(elems) => {
            let v = ev_elems(m, o, k, n, elems, 0, Seq::empty());
            match v.r {
                Ok(items) => Ev { r: Ok(Val::Vector(items)), k: v.k },
                Err(e) => Ev { r: Err(e), k: v.k },
            }
        },
        Expr::Range { start, step, end } => {
            let a = ev(m, o, k, n, *start);
            match a.r {
                Ok(x) => {
                    let b = ev(m, o, a.k, n, *end);
                    match b.r {
                        Ok(y) => match step {
                            Some(st) => {
                                let c = ev(m, o, b.k, n, *st);
                                match c.r {
                                    Ok(z) => Ev { r: Ok(stepped_range(x, z, y)), k: c.k },
                                    Err(e) => Ev { r: Err(e), k: c.k },
                                }
                            },
                            None => Ev { r: Ok(plain_range(x, y)), k: b.k },
                        },
                        Err(e) => Ev { r: Err(e), k: b.k },
                    }
                },
                Err(e) => Ev { r: Err(e), k: a.k },
            }
        },
        Expr::Unary { op, expr } => {
            let v = ev(m, o, k, n, *expr);
            match v.r {
                Ok(x) => Ev { r: Ok(unary_of(op, x)), k: v.k },
                Err(e) => Ev { r: Err(e), k: v.k },
            }
        },
        Expr::Binary { .. } => ev_binary(m, o, k, n, e),
        Expr::Ternary { cond, yes, no } => {
            let c = ev(m, o, k, n, *cond);
            match c.r {
                Ok(x) => if truth(x) {
                    ev(m, o, c.k, n, *yes)
                } else {
                    ev(m, o, c.k, n, *no)
                },
                Err(e) => Ev { r: Err(e), k: c.k },
            }
        },
        Expr::Index { base, index } => {
            let b = ev(m, o, k, n, *base);
            match b.r {
                Ok(x) => {
                    let i = ev(m, o, b.k, n, *index);
                    match i.r {
                        Ok(y) => Ev { r: Ok(indexed(m, x, y)), k: i.k },
                        Err(e) => Ev { r: Err(e), k: i.k },
                    }
                },
                Err(e) => Ev { r: Err(e), k: b.k },
            }
        },
        Expr::Member { base, field } => {
            let b = ev(m, o, k, n, *base);
            match b.r {
                Ok(x) => Ev { r: Ok(member(m, x, field@)), k: b.k },
                Err(e) => Ev { r: Err(e), k: b.k },
            }
        },
        Expr::Let { bindings, body } => {
            let b = ev_bindings(m, o, k, n, bindings, 0);
            match b.r {
                Ok(inner) => ev(m, o, b.k, inner, *body),
                Err(e) => Ev { r: Err(e), k: b.k },
            }
        },
        Expr::Call { name, args } => {
            let a = ev_args(m, o, k, n, args, 0, Seq::empty());
            match a.r {
                Ok(passed) => asked(o, a.k, call_query(o, n, name@, passed)),
                Err(e) => Ev { r: Err(e), k: a.k },
            }
        },
        Expr::FunctionLiteral { params, body } => asked(
            o,
            k,
            Query::Close { params: *params, body: *body, env: n.env },
        ),
        Expr::CallValue { callee, args } => {
            let c = ev(m, o, k, n, *callee);
            match c.r {
                Ok(Val::Function(f)) => {
                    let a = ev_args(m, o, c.k, n, args, 0, Seq::empty());
                    match a.r {
                        Ok(passed) => asked(
                            o,
                            a.k,
                            Query::Closure { f, args: passed, specials: n.specials },
                        ),
                        Err(e) => Ev { r: Err(e), k: a.k },
                    }
                },
                Ok(_) => Ev { r: Ok(Val::Undef), k: c.k },
                Err(e) => Ev { r: Err(e), k: c.k },
            }
        },
        Expr::Echo { args, body } => {
            let a = ev_args(m, o, k, n, args, 0, Seq::empty());
            match a.r {
                Ok(passed) => {
                    let t = asked(o, a.k, Query::Echo(passed));
                    match t.r {
                        Ok(_) => ev(m, o, t.k, n, *body),
                        Err(e) => Ev { r: Err(e), k: t.k },
                    }
                },
                Err(e) => Ev { r: Err(e), k: a.k },
            }
        },
        Expr::Assert { args, body } => {
            let a = ev_assert(m, o, k, n, args);
            match a.r {
                Ok(_) => ev(m, o, a.k, n, *body),
                Err(e) => Ev { r: Err(e), k: a.k },
            }
        },
    }
}

/// An operation of two operands. The right one of a logical operation is left
/// alone where the left one decides.
pub open spec fn ev_binary(m: Reading, o: Oracle, k: Store, n: Names, e: Expr) -> Ev
    decreases e, 0int, 0int,
{
    match e {
        Expr::Binary { op, lhs, rhs } => {
            let l = ev(m, o, k, n, *lhs);
            match l.r {
                Ok(x) => if op == BinOp::And && !truth(x) {
                    Ev { r: Ok(Val::Bool(false)), k: l.k }
                } else if op == BinOp::Or && truth(x) {
                    Ev { r: Ok(Val::Bool(true)), k: l.k }
                } else {
                    let r = ev(m, o, l.k, n, *rhs);
                    match r.r {
                        Ok(y) => Ev {
                            r: Ok(
                                if op == BinOp::And || op == BinOp::Or {
                                    Val::Bool(truth(y))
                                } else {
                                    binary_of(m, op, x, y)
                                },
                            ),
                            k: r.k,
                        },
                        Err(e) => Ev { r: Err(e), k: r.k },
                    }
                },
                Err(e) => Ev { r: Err(e), k: l.k },
            }
        },
        _ => Ev { r: Ok(Val::Undef), k },
    }
}

} // verus!
