//! What a budget of steps changes: nothing, as long as it lasts.

use crate::ast::{Arg, Binding, Expr, ListElem, Param};
use crate::calls::{
    bind_passed, ev_bind, ev_defaults, ev_loop, ev_tail, is_bound, no_names, EvTail, TailVal,
};
use crate::iterate::{iterated, MAX_RANGE_ITERS};
use crate::meaning::{
    answered, bound_names, called_in, filled, inside, lemma_called_in, only_params, oracle, outcome,
    ran, Site,
};
use crate::num::Reading;
use crate::resources::MAX_CALL_DEPTH;
use crate::sem::{
    arg_name, asked, bound, call_query, charged, ev, ev_args, ev_assert, ev_binary, ev_bindings,
    ev_body, ev_cfor, ev_each, ev_elem, ev_elems, ev_for, ev_updates, exhausted, first_unnamed,
    loops, rebound, starved, variable, width, Base, ClosureView, Env, Ev, EvArgs, EvItems, EvNames,
    Names, Oracle, Passed, Query, Store,
};
use crate::value::Val;
use crate::vm::{
    after, compiled_fn, halts, positional, step, stepped, upper, Code, Mach, Op, Stepped,
};
use crate::vmlaw::{at_start, is_own};
use vstd::prelude::*;

verus! {

/// The same with more steps left, or with no steps counted.
pub open spec fn fed(k: Store, d: Option<nat>) -> Store {
    Store {
        fuel: match d {
            Some(more) => (k.fuel + more) as u64,
            None => u64::MAX,
        },
        ..k
    }
}

/// So many steps more can be counted.
pub open spec fn fits(k: Store, d: Option<nat>) -> bool {
    match d {
        Some(more) => k.fuel + more <= u64::MAX,
        None => true,
    }
}

/// Where `a` is a value, `b` is the same value, with more steps left.
pub open spec fn same_value(a: Ev, b: Ev, k: Store, d: Option<nat>) -> bool {
    !starved(a.r) ==> a.k.fuel <= k.fuel && b == (Ev { r: a.r, k: fed(a.k, d) })
}

spec fn same_args(a: EvArgs, b: EvArgs, k: Store, d: Option<nat>) -> bool {
    !starved(a.r) ==> a.k.fuel <= k.fuel && b == (EvArgs { r: a.r, k: fed(a.k, d) })
}

pub open spec fn same_names(a: EvNames, b: EvNames, k: Store, d: Option<nat>) -> bool {
    !starved(a.r) ==> a.k.fuel <= k.fuel && b == (EvNames { r: a.r, k: fed(a.k, d) })
}

spec fn same_items(a: EvItems, b: EvItems, k: Store, d: Option<nat>) -> bool {
    !starved(a.r) ==> a.k.fuel <= k.fuel && b == (EvItems { r: a.r, k: fed(a.k, d) })
}

spec fn same_tail(a: EvTail, b: EvTail, k: Store, d: Option<nat>) -> bool {
    !starved(a.r) ==> a.k.fuel <= k.fuel && b == (EvTail { r: a.r, k: fed(a.k, d) })
}

/// More steps do not change what a question comes to.
pub open spec fn lasts(o: Oracle, p: Oracle, k: Store, q: Query, d: Option<nat>) -> bool {
    fits(k, d) ==> same_value(asked(o, k, q), asked(p, fed(k, d), q), k, d)
}

/// Steps are counted in `o`, and more of them in `p`, or none at all; names and
/// questions come to the same in both.
pub open spec fn steady(o: Oracle, p: Oracle, d: Option<nat>) -> bool {
    &&& o.limited
    &&& p.limited == (d is Some)
    &&& forall|name: Seq<char>| #[trigger] p.function(name) == o.function(name)
    &&& forall|name: Seq<char>| #[trigger] p.outside(name) == o.outside(name)
    &&& forall|k: Store, q: Query| #[trigger] lasts(o, p, k, q, d)
    &&& forall|k: Store| (#[trigger] asked(o, k, Query::Asserted)).r is Ok
    &&& forall|k: Store, v: Val| (#[trigger] asked(o, k, Query::Text(v))).r is Ok
}

/// A name is found in both alike.
proof fn lemma_query(o: Oracle, p: Oracle, n: Names, name: Seq<char>, args: Passed, d: Option<nat>)
    requires
        steady(o, p, d),
    ensures
        call_query(p, n, name, args) == call_query(o, n, name, args),
        variable(p, n, name) == variable(o, n, name),
{
    assert(p.function(name) == o.function(name));
    assert(p.outside(name) == o.outside(name));
}

pub(crate) proof fn lemma_ev(
    m: Reading,
    o: Oracle,
    p: Oracle,
    k: Store,
    n: Names,
    e: Expr,
    d: Option<nat>,
)
    requires
        steady(o, p, d),
        fits(k, d),
    ensures
        same_value(ev(m, o, k, n, e), ev(m, p, fed(k, d), n, e), k, d),
    decreases e, 3int, 0int,
{
    if k.fuel > 0 {
        let k1 = Store { fuel: (k.fuel - 1) as u64, ..k };
        assert(charged(p, fed(k, d)) == Some(fed(k1, d)));
        lemma_body(m, o, p, k1, n, e, d);
    }
}

proof fn lemma_body(m: Reading, o: Oracle, p: Oracle, k: Store, n: Names, e: Expr, d: Option<nat>)
    requires
        steady(o, p, d),
        fits(k, d),
    ensures
        same_value(ev_body(m, o, k, n, e), ev_body(m, p, fed(k, d), n, e), k, d),
    decreases e, 2int, 0int,
{
    match e {
        Expr::Vector(elems) => {
            lemma_elems(m, o, p, k, n, elems, 0, Seq::empty(), d);
        },
        Expr::Range { start, step, end } => {
            lemma_ev(m, o, p, k, n, *start, d);
            let a = ev(m, o, k, n, *start);
            if a.r is Ok {
                lemma_ev(m, o, p, a.k, n, *end, d);
                let b = ev(m, o, a.k, n, *end);
                if b.r is Ok {
                    match step {
                        Some(st) => {
                            lemma_ev(m, o, p, b.k, n, *st, d);
                        },
                        None => {},
                    }
                }
            }
        },
        Expr::Unary { op, expr } => {
            lemma_ev(m, o, p, k, n, *expr, d);
        },
        Expr::Binary { .. } => {
            lemma_binary(m, o, p, k, n, e, d);
        },
        Expr::Ternary { cond, yes, no } => {
            lemma_ev(m, o, p, k, n, *cond, d);
            let c = ev(m, o, k, n, *cond);
            if c.r is Ok {
                lemma_ev(m, o, p, c.k, n, *yes, d);
                lemma_ev(m, o, p, c.k, n, *no, d);
            }
        },
        Expr::Index { base, index } => {
            lemma_ev(m, o, p, k, n, *base, d);
            let b = ev(m, o, k, n, *base);
            if b.r is Ok {
                lemma_ev(m, o, p, b.k, n, *index, d);
            }
        },
        Expr::Member { base, .. } => {
            lemma_ev(m, o, p, k, n, *base, d);
        },
        Expr::Let { bindings, body } => {
            lemma_bindings(m, o, p, k, n, bindings, 0, d);
            let b = ev_bindings(m, o, k, n, bindings, 0);
            if let Ok(inner) = b.r {
                lemma_ev(m, o, p, b.k, inner, *body, d);
            }
        },
        Expr::Call { name, args } => {
            lemma_args(m, o, p, k, n, args, 0, Seq::empty(), d);
            let a = ev_args(m, o, k, n, args, 0, Seq::empty());
            if let Ok(passed) = a.r {
                lemma_query(o, p, n, name@, passed, d);
                assert(lasts(o, p, a.k, call_query(o, n, name@, passed), d));
            }
        },
        Expr::FunctionLiteral { params, body } => {
            assert(lasts(o, p, k, (Query::Close { params: *params, body: *body, env: n.env }), d));
        },
        Expr::CallValue { callee, args } => {
            lemma_ev(m, o, p, k, n, *callee, d);
            let c = ev(m, o, k, n, *callee);
            if let Ok(Val::Function(f)) = c.r {
                lemma_args(m, o, p, c.k, n, args, 0, Seq::empty(), d);
                let a = ev_args(m, o, c.k, n, args, 0, Seq::empty());
                if let Ok(passed) = a.r {
                    assert(lasts(
                        o,
                        p,
                        a.k,
                        (Query::Closure { f, args: passed, specials: n.specials }),
                        d,
                    ));
                }
            }
        },
        Expr::Echo { args, body } => {
            lemma_args(m, o, p, k, n, args, 0, Seq::empty(), d);
            let a = ev_args(m, o, k, n, args, 0, Seq::empty());
            if let Ok(passed) = a.r {
                assert(lasts(o, p, a.k, Query::Echo(passed), d));
                let t = asked(o, a.k, Query::Echo(passed));
                if t.r is Ok {
                    lemma_ev(m, o, p, t.k, n, *body, d);
                }
            }
        },
        Expr::Assert { args, body } => {
            lemma_assert(m, o, p, k, n, args, d);
            let a = ev_assert(m, o, k, n, args);
            if a.r is Ok {
                lemma_ev(m, o, p, a.k, n, *body, d);
            }
        },
        Expr::Ident(name) => {
            lemma_query(o, p, n, name@, Seq::empty(), d);
        },
        _ => {},
    }
}

proof fn lemma_binary(m: Reading, o: Oracle, p: Oracle, k: Store, n: Names, e: Expr, d: Option<nat>)
    requires
        steady(o, p, d),
        fits(k, d),
    ensures
        same_value(ev_binary(m, o, k, n, e), ev_binary(m, p, fed(k, d), n, e), k, d),
    decreases e, 1int, 0int,
{
    if let Expr::Binary { op, lhs, rhs } = e {
        lemma_ev(m, o, p, k, n, *lhs, d);
        let l = ev(m, o, k, n, *lhs);
        if l.r is Ok {
            lemma_ev(m, o, p, l.k, n, *rhs, d);
        }
    }
}

proof fn lemma_args(
    m: Reading,
    o: Oracle,
    p: Oracle,
    k: Store,
    n: Names,
    args: Vec<Arg>,
    i: int,
    done: Passed,
    d: Option<nat>,
)
    requires
        steady(o, p, d),
        fits(k, d),
    ensures
        same_args(
            ev_args(m, o, k, n, args, i, done),
            ev_args(m, p, fed(k, d), n, args, i, done),
            k,
            d,
        ),
    decreases args, args@.len() - i, 0int,
{
    if 0 <= i < args@.len() {
        lemma_ev(m, o, p, k, n, args@[i].value, d);
        let v = ev(m, o, k, n, args@[i].value);
        if let Ok(x) = v.r {
            lemma_args(m, o, p, v.k, n, args, i + 1, done.push((arg_name(args@[i]), x)), d);
        }
    }
}

proof fn lemma_bindings(
    m: Reading,
    o: Oracle,
    p: Oracle,
    k: Store,
    n: Names,
    list: Vec<Binding>,
    i: int,
    d: Option<nat>,
)
    requires
        steady(o, p, d),
        fits(k, d),
    ensures
        same_names(
            ev_bindings(m, o, k, n, list, i),
            ev_bindings(m, p, fed(k, d), n, list, i),
            k,
            d,
        ),
    decreases list, list@.len() - i, 0int,
{
    if 0 <= i < list@.len() {
        lemma_ev(m, o, p, k, n, list@[i].value, d);
        let v = ev(m, o, k, n, list@[i].value);
        if let Ok(x) = v.r {
            lemma_bindings(m, o, p, v.k, bound(n, list@[i].name@, x), list, i + 1, d);
        }
    }
}

proof fn lemma_updates(
    m: Reading,
    o: Oracle, p: Oracle,
    k: Store,
    n: Names,
    base: Base,
    list: Vec<Binding>,
    i: int,
    d: Option<nat>,
)
    requires
        steady(o, p, d),
        fits(k, d),
    ensures
        same_names(
            ev_updates(m, o, k, n, base, list, i),
            ev_updates(m, p, fed(k, d), n, base, list, i),
            k,
            d,
        ),
    decreases list, list@.len() - i, 0int,
{
    if 0 <= i < list@.len() {
        lemma_ev(m, o, p, k, n, list@[i].value, d);
        let v = ev(m, o, k, n, list@[i].value);
        if let Ok(x) = v.r {
            lemma_updates(m, o, p, v.k, rebound(n, base, list@[i].name@, x), base, list, i + 1, d);
        }
    }
}

proof fn lemma_elems(
    m: Reading,
    o: Oracle, p: Oracle,
    k: Store,
    n: Names,
    elems: Vec<ListElem>,
    i: int,
    out: Seq<Val>,
    d: Option<nat>,
)
    requires
        steady(o, p, d),
        fits(k, d),
    ensures
        same_items(
            ev_elems(m, o, k, n, elems, i, out),
            ev_elems(m, p, fed(k, d), n, elems, i, out),
            k,
            d,
        ),
    decreases elems, elems@.len() - i, 0int,
{
    if 0 <= i < elems@.len() {
        lemma_elem(m, o, p, k, n, elems@[i], out, d);
        let v = ev_elem(m, o, k, n, elems@[i], out);
        if let Ok(more) = v.r {
            lemma_elems(m, o, p, v.k, n, elems, i + 1, more, d);
        }
    }
}

proof fn lemma_elem(
    m: Reading,
    o: Oracle,
    p: Oracle,
    k: Store,
    n: Names,
    el: ListElem,
    out: Seq<Val>,
    d: Option<nat>,
)
    requires
        steady(o, p, d),
        fits(k, d),
    ensures
        same_items(ev_elem(m, o, k, n, el, out), ev_elem(m, p, fed(k, d), n, el, out), k, d),
    decreases el, width(el), 0int,
{
    match el {
        ListElem::Item(e) => {
            lemma_ev(m, o, p, k, n, e, d);
        },
        ListElem::Each(inner) => {
            lemma_elem(m, o, p, k, n, *inner, Seq::empty(), d);
        },
        ListElem::For { .. } => {
            lemma_for(m, o, p, k, n, el, 0, out, d);
        },
        ListElem::CFor { init, .. } => {
            lemma_bindings(m, o, p, k, n, init, 0, d);
            let b = ev_bindings(m, o, k, n, init, 0);
            if let Ok(inner) = b.r {
                lemma_cfor(
                    m,
                    o,
                    p,
                    b.k,
                    inner,
                    (Base { env: n.env.len() as int, specials: n.specials.len() as int }),
                    el,
                    0,
                    out,
                    d,
                );
            }
        },
        ListElem::Let { bindings, body } => {
            lemma_bindings(m, o, p, k, n, bindings, 0, d);
            let b = ev_bindings(m, o, k, n, bindings, 0);
            if let Ok(inner) = b.r {
                lemma_elem(m, o, p, b.k, inner, *body, out, d);
            }
        },
        ListElem::If { cond, yes, no } => {
            lemma_ev(m, o, p, k, n, cond, d);
            let c = ev(m, o, k, n, cond);
            if c.r is Ok {
                lemma_elem(m, o, p, c.k, n, *yes, out, d);
                match no {
                    Some(e) => {
                        lemma_elem(m, o, p, c.k, n, *e, out, d);
                    },
                    None => {},
                }
            }
        },
    }
}

proof fn lemma_for(
    m: Reading,
    o: Oracle,
    p: Oracle,
    k: Store,
    n: Names,
    el: ListElem,
    i: int,
    out: Seq<Val>,
    d: Option<nat>,
)
    requires
        steady(o, p, d),
        fits(k, d),
    ensures
        same_items(ev_for(m, o, k, n, el, i, out), ev_for(m, p, fed(k, d), n, el, i, out), k, d),
    decreases el, 2 * (loops(el).len() - i) + 1, 0int,
{
    if let ListElem::For { bindings, body } = el {
        if i < 0 || i >= bindings@.len() {
            lemma_elem(m, o, p, k, n, *body, out, d);
        } else {
            lemma_ev(m, o, p, k, n, bindings@[i].value, d);
            let v = ev(m, o, k, n, bindings@[i].value);
            if let Ok(x) = v.r {
                if let Some(values) = iterated(m, x) {
                    lemma_each(m, o, p, v.k, n, el, i, values, 0, out, d);
                }
            }
        }
    }
}

proof fn lemma_each(
    m: Reading,
    o: Oracle, p: Oracle,
    k: Store,
    n: Names,
    el: ListElem,
    i: int,
    values: Seq<Val>,
    j: int,
    out: Seq<Val>,
    d: Option<nat>,
)
    requires
        steady(o, p, d),
        fits(k, d),
    ensures
        same_items(
            ev_each(m, o, k, n, el, i, values, j, out),
            ev_each(m, p, fed(k, d), n, el, i, values, j, out),
            k,
            d,
        ),
    decreases el, 2 * (loops(el).len() - i), values.len() - j,
{
    if 0 <= j < values.len() && 0 <= i < loops(el).len() {
        let inner = bound(n, loops(el)[i].name@, values[j]);
        lemma_for(m, o, p, k, inner, el, i + 1, out, d);
        let v = ev_for(m, o, k, inner, el, i + 1, out);
        if let Ok(more) = v.r {
            lemma_each(m, o, p, v.k, n, el, i, values, j + 1, more, d);
        }
    }
}

proof fn lemma_cfor(
    m: Reading,
    o: Oracle, p: Oracle,
    k: Store,
    n: Names,
    base: Base,
    el: ListElem,
    iters: int,
    out: Seq<Val>,
    d: Option<nat>,
)
    requires
        steady(o, p, d),
        fits(k, d),
    ensures
        same_items(
            ev_cfor(m, o, k, n, base, el, iters, out),
            ev_cfor(m, p, fed(k, d), n, base, el, iters, out),
            k,
            d,
        ),
    decreases el, 0int, MAX_RANGE_ITERS + 1 - iters,
{
    if let ListElem::CFor { cond, update, body, .. } = el {
        lemma_ev(m, o, p, k, n, cond, d);
        let c = ev(m, o, k, n, cond);
        if c.r is Ok {
            lemma_elem(m, o, p, c.k, n, *body, out, d);
            let b = ev_elem(m, o, c.k, n, *body, out);
            if let Ok(more) = b.r {
                lemma_updates(m, o, p, b.k, n, base, update, 0, d);
                let u = ev_updates(m, o, b.k, n, base, update, 0);
                if let Ok(next) = u.r {
                    if iters + 1 <= MAX_RANGE_ITERS {
                        lemma_cfor(m, o, p, u.k, next, base, el, iters + 1, more, d);
                    }
                }
            }
        }
    }
}

/// What the condition of an assertion comes to.
spec fn condition(m: Reading, o: Oracle, k: Store, n: Names, args: Vec<Arg>) -> Ev {
    match first_unnamed(args@, 0) {
        Some(i) => if 0 <= i < args@.len() {
            ev(m, o, k, n, args@[i].value)
        } else {
            Ev { r: Ok(Val::Undef), k }
        },
        None => Ev { r: Ok(Val::Undef), k },
    }
}

pub(crate) proof fn lemma_assert(
    m: Reading,
    o: Oracle,
    p: Oracle,
    k: Store,
    n: Names,
    args: Vec<Arg>,
    d: Option<nat>,
)
    requires
        steady(o, p, d),
        fits(k, d),
    ensures
        same_value(ev_assert(m, o, k, n, args), ev_assert(m, p, fed(k, d), n, args), k, d),
    decreases args, 0int, 1int,
{
    assert(lasts(o, p, k, Query::Asserted, d));
    assert(asked(o, k, Query::Asserted).r is Ok);
    let k1 = asked(o, k, Query::Asserted).k;
    if let Some(i) = first_unnamed(args@, 0) {
        if 0 <= i < args@.len() {
            lemma_ev(m, o, p, k1, n, args@[i].value, d);
        }
    }
    let c = condition(m, o, k1, n, args);
    if !starved(c.r) && args@.len() >= 2 {
        lemma_ev(m, o, p, c.k, n, args@[1].value, d);
        let v = ev(m, o, c.k, n, args@[1].value);
        if let Ok(x) = v.r {
            assert(asked(o, v.k, Query::Text(x)).r is Ok);
            assert(lasts(o, p, v.k, Query::Text(x), d));
        }
    }
}

// ---- calls -------------------------------------------------------------------------------------

proof fn lemma_defaults(
    m: Reading,
    o: Oracle, p: Oracle,
    k: Store,
    dn: Names,
    params: Vec<Param>,
    i: int,
    acc: Names,
    d: Option<nat>,
)
    requires
        steady(o, p, d),
        fits(k, d),
    ensures
        same_names(
            ev_defaults(m, o, k, dn, params, i, acc),
            ev_defaults(m, p, fed(k, d), dn, params, i, acc),
            k,
            d,
        ),
    decreases params@.len() - i,
{
    if 0 <= i < params@.len() {
        let name = params@[i].name@;
        if is_bound(acc, name) {
            lemma_defaults(m, o, p, k, dn, params, i + 1, acc, d);
        } else {
            match params@[i].default {
                Some(e) => {
                    lemma_ev(m, o, p, k, dn, e, d);
                    let v = ev(m, o, k, dn, e);
                    if let Ok(x) = v.r {
                        lemma_defaults(m, o, p, v.k, dn, params, i + 1, bound(acc, name, x), d);
                    }
                },
                None => {
                    lemma_defaults(
                        m,
                        o,
                        p,
                        k,
                        dn,
                        params,
                        i + 1,
                        bound(acc, name, Val::Undef),
                        d,
                    );
                },
            }
        }
    }
}

pub(crate) proof fn lemma_bind(
    m: Reading,
    o: Oracle,
    p: Oracle,
    k: Store,
    specials: Env,
    params: Vec<Param>,
    args: Passed,
    d: Option<nat>,
)
    requires
        steady(o, p, d),
        fits(k, d),
    ensures
        same_names(
            ev_bind(m, o, k, specials, params, args),
            ev_bind(m, p, fed(k, d), specials, params, args),
            k,
            d,
        ),
{
    lemma_defaults(
        m,
        o,
        p,
        k,
        (Names { env: Seq::empty(), specials }),
        params,
        0,
        bind_passed(params@, args, 0, 0, no_names()),
        d,
    );
}

proof fn lemma_tail(
    m: Reading,
    o: Oracle, p: Oracle,
    k: Store,
    n: Names,
    e: Expr,
    f: usize,
    params: Vec<Param>,
    d: Option<nat>,
)
    requires
        steady(o, p, d),
        fits(k, d),
    ensures
        same_tail(
            ev_tail(m, o, k, n, e, f, params),
            ev_tail(m, p, fed(k, d), n, e, f, params),
            k,
            d,
        ),
    decreases e,
{
    match e {
        Expr::Ternary { cond, yes, no } => {
            lemma_ev(m, o, p, k, n, *cond, d);
            let c = ev(m, o, k, n, *cond);
            if c.r is Ok {
                lemma_tail(m, o, p, c.k, n, *yes, f, params, d);
                lemma_tail(m, o, p, c.k, n, *no, f, params, d);
            }
        },
        Expr::Let { bindings, body } => {
            lemma_bindings(m, o, p, k, n, bindings, 0, d);
            let b = ev_bindings(m, o, k, n, bindings, 0);
            if let Ok(inner) = b.r {
                lemma_tail(m, o, p, b.k, inner, *body, f, params, d);
            }
        },
        Expr::Echo { args, body } => {
            lemma_args(m, o, p, k, n, args, 0, Seq::empty(), d);
            let a = ev_args(m, o, k, n, args, 0, Seq::empty());
            if let Ok(list) = a.r {
                assert(lasts(o, p, a.k, Query::Echo(list), d));
                let t = asked(o, a.k, Query::Echo(list));
                if t.r is Ok {
                    lemma_tail(m, o, p, t.k, n, *body, f, params, d);
                }
            }
        },
        Expr::Assert { args, body } => {
            lemma_assert(m, o, p, k, n, args, d);
            let a = ev_assert(m, o, k, n, args);
            if a.r is Ok {
                lemma_tail(m, o, p, a.k, n, *body, f, params, d);
            }
        },
        Expr::Call { name, args } => {
            assert(p.function(name@) == o.function(name@));
            if o.function(name@) == Some(f) {
                lemma_args(m, o, p, k, n, args, 0, Seq::empty(), d);
                let a = ev_args(m, o, k, n, args, 0, Seq::empty());
                if let Ok(list) = a.r {
                    lemma_bind(m, o, p, a.k, n.specials, params, list, d);
                }
            } else {
                lemma_ev(m, o, p, k, n, e, d);
            }
        },
        _ => {
            lemma_ev(m, o, p, k, n, e, d);
        },
    }
}

proof fn lemma_loop(
    m: Reading,
    o: Oracle, p: Oracle,
    k: Store,
    n: Names,
    f: usize,
    params: Vec<Param>,
    body: Expr,
    iters: int,
    d: Option<nat>,
)
    requires
        steady(o, p, d),
        fits(k, d),
    ensures
        same_value(
            ev_loop(m, o, k, n, f, params, body, iters),
            ev_loop(m, p, fed(k, d), n, f, params, body, iters),
            k,
            d,
        ),
    decreases MAX_RANGE_ITERS + 1 - iters,
{
    lemma_tail(m, o, p, k, n, body, f, params, d);
    let t = ev_tail(m, o, k, n, body, f, params);
    if let Ok(TailVal::Again(next)) = t.r {
        if iters + 1 <= MAX_RANGE_ITERS {
            lemma_loop(m, o, p, t.k, next, f, params, body, iters + 1, d);
        }
    }
}

// ---- the machine ---------------------------------------------------------------------------------

/// The same machine with more steps left.
spec fn fed_mach(s: Mach, d: Option<nat>) -> Mach {
    Mach { k: fed(s.k, d), ..s }
}

/// A step with more steps left: the next state, or the same value.
spec fn same_step(a: Stepped, b: Stepped, k: Store, d: Option<nat>) -> bool {
    match a {
        Stepped::Next(t) => t.k.fuel <= k.fuel && b == Stepped::Next(fed_mach(t, d)),
        Stepped::Done(e) => !starved(e.r) ==> e.k.fuel <= k.fuel && b == Stepped::Done(
            Ev { r: e.r, k: fed(e.k, d) },
        ),
    }
}

proof fn lemma_stepped(
    m: Reading,
    o: Oracle,
    p: Oracle,
    ch: Code,
    own: bool,
    s: Mach,
    d: Option<nat>,
)
    requires
        steady(o, p, d),
        fits(s.k, d),
    ensures
        same_step(stepped(m, o, ch, own, s), stepped(m, p, ch, own, fed_mach(s, d)), s.k, d),
{
    match ch.code[s.ip] {
        Op::Call(name, argc) => {
            let q = call_query(
                o,
                no_names(),
                ch.names[name as int],
                positional(upper(s.stack, argc as int)),
            );
            lemma_query(
                o,
                p,
                no_names(),
                ch.names[name as int],
                positional(upper(s.stack, argc as int)),
                d,
            );
            assert(lasts(o, p, s.k, q, d));
        },
        Op::TailCall(name, argc) => {
            let q = call_query(
                o,
                no_names(),
                ch.names[name as int],
                positional(upper(s.stack, argc as int)),
            );
            lemma_query(
                o,
                p,
                no_names(),
                ch.names[name as int],
                positional(upper(s.stack, argc as int)),
                d,
            );
            assert(lasts(o, p, s.k, q, d));
        },
        Op::LoadName(i) => {
            lemma_query(o, p, no_names(), ch.names[i as int], Seq::empty(), d);
        },
        _ => {},
    }
}

proof fn lemma_step(m: Reading, o: Oracle, p: Oracle, ch: Code, own: bool, s: Mach, d: Option<nat>)
    requires
        steady(o, p, d),
        fits(s.k, d),
    ensures
        same_step(step(m, o, ch, own, s), step(m, p, ch, own, fed_mach(s, d)), s.k, d),
        step(m, o, ch, own, s) matches Stepped::Next(t) ==> t.k.fuel < s.k.fuel,
{
    if s.k.fuel > 0 {
        let k1 = Store { fuel: (s.k.fuel - 1) as u64, ..s.k };
        let s1 = Mach { k: k1, ..s };
        assert(charged(p, fed(s.k, d)) == Some(fed(k1, d)));
        lemma_stepped(m, o, p, ch, own, s1, d);
    }
}

proof fn lemma_after(
    m: Reading,
    o: Oracle,
    p: Oracle,
    ch: Code,
    own: bool,
    s: Mach,
    i: nat,
    d: Option<nat>,
)
    requires
        steady(o, p, d),
        fits(s.k, d),
    ensures
        same_step(after(m, o, ch, own, s, i), after(m, p, ch, own, fed_mach(s, d), i), s.k, d),
        after(m, o, ch, own, s, i) matches Stepped::Next(t) ==> t.k.fuel + i <= s.k.fuel,
    decreases i,
{
    if i > 0 {
        lemma_after(m, o, p, ch, own, s, (i - 1) as nat, d);
        if let Stepped::Next(t) = after(m, o, ch, own, s, (i - 1) as nat) {
            lemma_step(m, o, p, ch, own, t, d);
        }
    }
}

/// A machine that is done stays so.
proof fn lemma_done_stays(m: Reading, o: Oracle, ch: Code, own: bool, s: Mach, i: nat, j: nat)
    requires
        i <= j,
        after(m, o, ch, own, s, i) is Done,
    ensures
        after(m, o, ch, own, s, j) == after(m, o, ch, own, s, i),
    decreases j,
{
    if i < j {
        lemma_done_stays(m, o, ch, own, s, i, (j - 1) as nat);
    }
}

/// The machine comes to one outcome.
proof fn lemma_one_outcome(m: Reading, o: Oracle, ch: Code, own: bool, s: Mach, e: Ev)
    requires
        halts(m, o, ch, own, s, e),
    ensures
        outcome(m, o, ch, own, s) == e,
{
    let x = outcome(m, o, ch, own, s);
    assert(halts(m, o, ch, own, s, x));
    let i = choose|i: nat| #[trigger] after(m, o, ch, own, s, i) == Stepped::Done(e);
    let j = choose|j: nat| #[trigger] after(m, o, ch, own, s, j) == Stepped::Done(x);
    if i <= j {
        lemma_done_stays(m, o, ch, own, s, i, j);
    } else {
        lemma_done_stays(m, o, ch, own, s, j, i);
    }
}

proof fn lemma_outcome(
    m: Reading,
    o: Oracle,
    p: Oracle,
    ch: Code,
    own: bool,
    s: Mach,
    d: Option<nat>,
)
    requires
        steady(o, p, d),
        fits(s.k, d),
    ensures
        same_value(
            outcome(m, o, ch, own, s),
            outcome(m, p, ch, own, fed_mach(s, d)),
            s.k,
            d,
        ),
{
    let i: nat = (s.k.fuel + 1) as nat;
    lemma_after(m, o, p, ch, own, s, i, d);
    if let Stepped::Done(e) = after(m, o, ch, own, s, i) {
        assert(halts(m, o, ch, own, s, e));
        lemma_one_outcome(m, o, ch, own, s, e);
        if !starved(e.r) {
            let more = Ev { r: e.r, k: fed(e.k, d) };
            assert(halts(m, p, ch, own, fed_mach(s, d), more));
            lemma_one_outcome(m, p, ch, own, fed_mach(s, d), more);
        }
    }
}

// ---- what surrounds expressions --------------------------------------------------------------------

proof fn lemma_ran(
    m: Reading,
    o: Oracle,
    p: Oracle,
    k: Store,
    f: usize,
    c: ClosureView,
    names: Names,
    d: Option<nat>,
)
    requires
        steady(o, p, d),
        fits(k, d),
    ensures
        same_value(ran(m, o, k, f, c, names), ran(m, p, fed(k, d), f, c, names), k, d),
{
    reveal(ran);
    match compiled_fn(c.params@, c.body, c.name) {
        Some(ch) if only_params(names, c.params@) => {
            let s = at_start(filled(names, c.params@, ch.n_locals), k, 0);
            assert(fed_mach(s, d) == at_start(
                filled(names, c.params@, ch.n_locals),
                fed(k, d),
                0,
            ));
            if let Some(name) = c.name {
                assert(p.function(name) == o.function(name));
            }
            assert(is_own(p, f, c.name) == is_own(o, f, c.name));
            lemma_outcome(m, o, p, ch, is_own(o, f, c.name), s, d);
        },
        _ => {
            lemma_loop(m, o, p, k, names, f, c.params, c.body, 0, d);
        },
    }
}

proof fn lemma_called_in_lasts(
    m: Reading,
    l: nat,
    b: nat,
    place: Site,
    k: Store,
    f: usize,
    c: ClosureView,
    args: Passed,
    d: Option<nat>,
)
    requires
        fits(k, d),
    ensures
        same_value(
            called_in(m, true, l, b, place, k, f, c, args),
            called_in(m, d is Some, l, b, place, fed(k, d), f, c, args),
            k,
            d,
        ),
    decreases l, b, 0int,
{
    if b > 0 {
        let o = oracle(m, true, l, (b - 1) as nat, place);
        let p = oracle(m, d is Some, l, (b - 1) as nat, place);
        lemma_steady(m, l, (b - 1) as nat, place, d);
        let n = bound_names(m, o, k, c.params, args);
        let n2 = bound_names(m, p, fed(k, d), c.params, args);
        assert(same_names(n, n2, k, d)) by {
            reveal(bound_names);
            lemma_bind(m, o, p, k, Seq::empty(), c.params, args, d);
        }
        lemma_called_in(m, true, l, b, place, k, f, c, args, n);
        lemma_called_in(m, d is Some, l, b, place, fed(k, d), f, c, args, n2);
        if let Ok(names) = n.r {
            if l > 0 {
                let inner = oracle(m, true, (l - 1) as nat, MAX_CALL_DEPTH as nat, place);
                let outer = oracle(m, d is Some, (l - 1) as nat, MAX_CALL_DEPTH as nat, place);
                lemma_steady(m, (l - 1) as nat, MAX_CALL_DEPTH as nat, place, d);
                lemma_ran(m, inner, outer, n.k, f, c, names, d);
            }
        }
    }
}

/// More steps do not change what the questions of an expression come to.
pub(crate) proof fn lemma_steady(m: Reading, l: nat, b: nat, site: Site, d: Option<nat>)
    ensures
        steady(oracle(m, true, l, b, site), oracle(m, d is Some, l, b, site), d),
    decreases l, b, 1int,
{
    reveal(oracle);
    let o = oracle(m, true, l, b, site);
    let p = oracle(m, d is Some, l, b, site);
    assert forall|k: Store, q: Query| #[trigger] lasts(o, p, k, q, d) by {
        if fits(k, d) {
            assert(asked(o, k, q) == answered(m, true, l, b, site, k, q));
            assert(asked(p, fed(k, d), q) == answered(m, d is Some, l, b, site, fed(k, d), q));
            if let Query::Closure { f, args, specials } = q {
                if f < k.closures.len() {
                    let c = k.closures[f as int];
                    lemma_called_in_lasts(
                        m,
                        l,
                        b,
                        inside(site, c, specials),
                        k,
                        f,
                        c,
                        args,
                        d,
                    );
                }
            }
        }
    }
    assert forall|k: Store| (#[trigger] asked(o, k, Query::Asserted)).r is Ok by {
        assert(asked(o, k, Query::Asserted) == answered(m, true, l, b, site, k, Query::Asserted));
    }
    assert forall|k: Store, v: Val| (#[trigger] asked(o, k, Query::Text(v))).r is Ok by {
        assert(asked(o, k, Query::Text(v)) == answered(m, true, l, b, site, k, Query::Text(v)));
    }
}

/// An expression that does not run out of its budget of steps comes to the same
/// value, or the same error, within any larger one, leaves the same behind, and
/// takes as many steps.
pub proof fn law_larger_budget(
    m: Reading,
    depth: nat,
    binds: nat,
    site: Site,
    k: Store,
    n: Names,
    e: Expr,
    more: nat,
)
    requires
        k.fuel + more <= u64::MAX,
        !starved(ev(m, oracle(m, true, depth, binds, site), k, n, e).r),
    ensures
        ({
            let o = oracle(m, true, depth, binds, site);
            let a = ev(m, o, k, n, e);
            let b = ev(m, o, (Store { fuel: (k.fuel + more) as u64, ..k }), n, e);
            &&& b.r == a.r
            &&& a.k.fuel <= k.fuel
            &&& b.k == (Store { fuel: (a.k.fuel + more) as u64, ..a.k })
        }),
{
    let o = oracle(m, true, depth, binds, site);
    lemma_steady(m, depth, binds, site, Some(more));
    lemma_ev(m, o, o, k, n, e, Some(more));
}

/// An expression that does not run out of its budget of steps comes to the same
/// value, or the same error, where steps are not counted, and leaves the same
/// behind.
pub proof fn law_budget_or_none(
    m: Reading,
    depth: nat,
    binds: nat,
    site: Site,
    k: Store,
    n: Names,
    e: Expr,
)
    requires
        !starved(ev(m, oracle(m, true, depth, binds, site), k, n, e).r),
    ensures
        ({
            let a = ev(m, oracle(m, true, depth, binds, site), k, n, e);
            let b = ev(
                m,
                oracle(m, false, depth, binds, site),
                (Store { fuel: u64::MAX, ..k }),
                n,
                e,
            );
            &&& b.r == a.r
            &&& b.k == (Store { fuel: u64::MAX, ..a.k })
        }),
{
    lemma_steady(m, depth, binds, site, None);
    lemma_ev(
        m,
        oracle(m, true, depth, binds, site),
        oracle(m, false, depth, binds, site),
        k,
        n,
        e,
        None,
    );
}

/// Without a step left no expression comes to anything.
pub proof fn law_no_steps(
    m: Reading,
    depth: nat,
    binds: nat,
    site: Site,
    k: Store,
    n: Names,
    e: Expr,
)
    requires
        k.fuel == 0,
    ensures
        ev(m, oracle(m, true, depth, binds, site), k, n, e) == (Ev { r: Err(exhausted()), k }),
{
    reveal(oracle);
}

} // verus!
