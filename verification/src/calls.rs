//! Calls of functions: how arguments are bound, and how a call in tail position
//! becomes another pass of the same frame.

use crate::ast::{Expr, Param};
use crate::eval::{
    do_assert, entries, eval_args, eval_bindings, eval_expr, passed, said, Entry, PassedArg, Scope,
};
use crate::interp::{lemma_same_oracle, Interp};
use crate::iterate::MAX_RANGE_ITERS;
use crate::num::{Arithmetic, Reading};
use crate::sem::{
    asked, bound, ev, ev_args, ev_assert, ev_bindings, found, is_special, Env, Ev, EvNames, Names,
    Oracle, Passed, Query, Store,
};
use crate::value::{truth, Val, Value};
use vstd::prelude::*;

verus! {

// ---- binding ----------------------------------------------------------------------------------

/// A scope without names.
pub open spec fn no_names() -> Names {
    Names { env: Seq::empty(), specials: Seq::empty() }
}

/// The arguments from the `i`-th on, bound: by name where they have one, else
/// to the parameters in turn. An argument too many is dropped.
pub open spec fn bind_passed(
    params: Seq<Param>,
    args: Passed,
    i: int,
    pos: int,
    acc: Names,
) -> Names
    decreases args.len() - i,
{
    if i < 0 || i >= args.len() {
        acc
    } else {
        match args[i].0 {
            Some(name) => bind_passed(params, args, i + 1, pos, bound(acc, name, args[i].1)),
            None => bind_passed(
                params,
                args,
                i + 1,
                pos + 1,
                if pos < params.len() {
                    bound(acc, params[pos].name@, args[i].1)
                } else {
                    acc
                },
            ),
        }
    }
}

/// The name is bound.
pub open spec fn is_bound(n: Names, name: Seq<char>) -> bool {
    found(
        if is_special(name) {
            n.specials
        } else {
            n.env
        },
        name,
    ) is Some
}

/// The parameters from the `i`-th on that have no argument get their defaults,
/// evaluated in the scope `dn`; without a default they are bound to nothing, so
/// that they still hide an outer name.
pub open spec fn ev_defaults(
    m: Reading,
    o: Oracle,
    k: Store,
    dn: Names,
    params: Vec<Param>,
    i: int,
    acc: Names,
) -> EvNames
    decreases params@.len() - i,
{
    if i < 0 || i >= params@.len() {
        EvNames { r: Ok(acc), k }
    } else if is_bound(acc, params@[i].name@) {
        ev_defaults(m, o, k, dn, params, i + 1, acc)
    } else {
        match params@[i].default {
            Some(d) => {
                let v = ev(m, o, k, dn, d);
                match v.r {
                    Ok(x) => ev_defaults(
                        m,
                        o,
                        v.k,
                        dn,
                        params,
                        i + 1,
                        bound(acc, params@[i].name@, x),
                    ),
                    Err(e) => EvNames { r: Err(e), k: v.k },
                }
            },
            None => ev_defaults(
                m,
                o,
                k,
                dn,
                params,
                i + 1,
                bound(acc, params@[i].name@, Val::Undef),
            ),
        }
    }
}

/// The names that a call binds: its arguments, and the defaults of the
/// parameters without one. Defaults see the dynamic names, but not the caller's
/// ordinary ones.
pub open spec fn ev_bind(
    m: Reading,
    o: Oracle,
    k: Store,
    specials: Env,
    params: Vec<Param>,
    args: Passed,
) -> EvNames {
    ev_defaults(
        m,
        o,
        k,
        (Names { env: Seq::empty(), specials }),
        params,
        0,
        bind_passed(params@, args, 0, 0, no_names()),
    )
}

fn bind_all(params: &Vec<Param>, args: &Vec<PassedArg>) -> (r: Scope)
    ensures
        r@ == bind_passed(params@, passed(args@), 0, 0, no_names()),
{
    let ghost av = passed(args@);
    let mut scope = Scope::new();
    let mut pos: usize = 0;
    let mut i: usize = 0;
    while i < args.len()
        invariant
            av == passed(args@),
            pos <= i <= args@.len(),
            bind_passed(params@, av, 0, 0, no_names()) == bind_passed(
                params@,
                av,
                i as int,
                pos as int,
                scope@,
            ),
        decreases args.len() - i,
    {
        let v = args[i].value.duplicate();
        match &args[i].name {
            Some(name) => {
                scope.bind(name.as_str(), v);
            },
            None => {
                if pos < params.len() {
                    scope.bind(params[pos].name.as_str(), v);
                }
                pos = pos + 1;
            },
        }
        i = i + 1;
    }
    scope
}

/// Binds the arguments of a call and fills in defaults.
pub fn bind_params<A: Arithmetic>(
    it: &mut Interp<A>,
    specials: &Vec<Entry>,
    params: &Vec<Param>,
    args: &Vec<PassedArg>,
) -> (r: Result<Scope, String>)
    requires
        old(it).wf(),
    ensures
        final(it).wf(),
        final(it).stays(*old(it)),
        forall|m: Reading| #[trigger]
            final(it).calc.agrees(m) ==> old(it).calc.agrees(m) && (ev_bind(
                m,
                old(it).oracle(m),
                old(it).store(),
                entries(specials@),
                *params,
                passed(args@),
            ) == (EvNames { r: scoped(r), k: final(it).store() })),
    decreases old(it).depth, old(it).binds, 5int,
{
    let mut acc = bind_all(params, args);
    let ghost acc0 = acc@;
    let mut inner = Scope::new();
    let mut j: usize = 0;
    while j < specials.len()
        invariant
            j <= specials@.len(),
            entries(inner.env@) =~= Seq::empty(),
            entries(inner.specials@) =~= entries(specials@).take(j as int),
        decreases specials.len() - j,
    {
        let ghost before = entries(inner.specials@);
        inner.specials.push(
            Entry { name: specials[j].name.clone(), value: specials[j].value.duplicate() },
        );
        assert(entries(inner.specials@) =~= before.push(entries(specials@)[j as int]));
        j = j + 1;
    }
    let ghost dn = Names { env: Seq::empty(), specials: entries(specials@) };
    assert(entries(specials@).take(specials@.len() as int) =~= entries(specials@));
    assert(inner@ == dn);
    let ghost k0 = it.store();
    let mut i: usize = 0;
    while i < params.len()
        invariant
            inner@ == dn,
            dn == (Names { env: Seq::empty(), specials: entries(specials@) }),
            acc0 == bind_passed(params@, passed(args@), 0, 0, no_names()),
            k0 == old(it).store(),
            i <= params@.len(),
            it.wf(),
            it.stays(*old(it)),
            forall|m: Reading| #[trigger]
            it.calc.agrees(m) ==> old(it).calc.agrees(m) && ev_defaults(m, old(it).oracle(m), k0, dn, *params, 0, acc0)
                    == ev_defaults(m, old(it).oracle(m), it.store(), dn, *params, i as int, acc@),
        decreases params.len() - i,
    {
        let name = params[i].name.as_str();
        if !holds(&acc, name) {
            match &params[i].default {
                Some(d) => {
                    let v = match eval_expr(it, &mut inner, d) {
                        Ok(v) => v,
                        Err(e) => return Err(e),
                    };
                    acc.bind(name, v);
                },
                None => {
                    acc.bind(name, Value::Undef);
                },
            }
        }
        i = i + 1;
    }
    Ok(acc)
}

/// The outcome of binding a scope.
pub open spec fn scoped(r: Result<Scope, String>) -> Result<Names, Seq<char>> {
    match r {
        Ok(s) => Ok(s@),
        Err(e) => Err(e@),
    }
}

fn holds(scope: &Scope, name: &str) -> (r: bool)
    ensures
        r == is_bound(scope@, name@),
{
    let here = if crate::eval::special(name) {
        crate::eval::find(&scope.specials, name)
    } else {
        crate::eval::find(&scope.env, name)
    };
    here.is_some()
}

// ---- tail position --------------------------------------------------------------------------------

/// What an expression in tail position comes to: a value, or another pass with
/// other names.
pub ghost enum TailVal {
    Value(Val),
    Again(Names),
}

/// The outcome of an expression in tail position.
pub ghost struct EvTail {
    pub r: Result<TailVal, Seq<char>>,
    pub k: Store,
}

/// An outcome that is a value.
pub open spec fn as_tail(e: Ev) -> EvTail {
    EvTail {
        r: match e.r {
            Ok(v) => Ok(TailVal::Value(v)),
            Err(e) => Err(e),
        },
        k: e.k,
    }
}

/// The outcome of an expression in tail position of the closure `f`: a call of
/// `f` itself asks for another pass.
pub open spec fn ev_tail(
    m: Reading,
    o: Oracle,
    k: Store,
    n: Names,
    e: Expr,
    f: usize,
    params: Vec<Param>,
) -> EvTail
    decreases e,
{
    match e {
        Expr::Ternary { cond, yes, no } => {
            let c = ev(m, o, k, n, *cond);
            match c.r {
                Ok(x) => if truth(x) {
                    ev_tail(m, o, c.k, n, *yes, f, params)
                } else {
                    ev_tail(m, o, c.k, n, *no, f, params)
                },
                Err(e) => EvTail { r: Err(e), k: c.k },
            }
        },
        Expr::Let { bindings, body } => {
            let b = ev_bindings(m, o, k, n, bindings, 0);
            match b.r {
                Ok(inner) => ev_tail(m, o, b.k, inner, *body, f, params),
                Err(e) => EvTail { r: Err(e), k: b.k },
            }
        },
        Expr::Echo { args, body } => {
            let a = ev_args(m, o, k, n, args, 0, Seq::empty());
            match a.r {
                Ok(list) => {
                    let t = asked(o, a.k, Query::Echo(list));
                    match t.r {
                        Ok(_) => ev_tail(m, o, t.k, n, *body, f, params),
                        Err(e) => EvTail { r: Err(e), k: t.k },
                    }
                },
                Err(e) => EvTail { r: Err(e), k: a.k },
            }
        },
        Expr::Assert { args, body } => {
            let a = ev_assert(m, o, k, n, args);
            match a.r {
                Ok(_) => ev_tail(m, o, a.k, n, *body, f, params),
                Err(e) => EvTail { r: Err(e), k: a.k },
            }
        },
        Expr::Call { name, args } => if o.function(name@) == Some(f) {
            let a = ev_args(m, o, k, n, args, 0, Seq::empty());
            match a.r {
                Ok(list) => {
                    let b = ev_bind(m, o, a.k, n.specials, params, list);
                    EvTail {
                        r: match b.r {
                            Ok(next) => Ok(TailVal::Again(next)),
                            Err(e) => Err(e),
                        },
                        k: b.k,
                    }
                },
                Err(e) => EvTail { r: Err(e), k: a.k },
            }
        } else {
            as_tail(ev(m, o, k, n, e))
        },
        _ => as_tail(ev(m, o, k, n, e)),
    }
}

/// The outcome of the closure `f` with its names bound, after `iters` passes.
pub open spec fn ev_loop(
    m: Reading,
    o: Oracle,
    k: Store,
    n: Names,
    f: usize,
    params: Vec<Param>,
    body: Expr,
    iters: int,
) -> Ev
    decreases MAX_RANGE_ITERS + 1 - iters,
{
    let t = ev_tail(m, o, k, n, body, f, params);
    match t.r {
        Ok(TailVal::Value(v)) => Ev { r: Ok(v), k: t.k },
        Ok(TailVal::Again(next)) => if iters + 1 > MAX_RANGE_ITERS {
            Ev { r: Err("tail recursion exceeded iteration limit"@), k: t.k }
        } else {
            ev_loop(m, o, t.k, next, f, params, body, iters + 1)
        },
        Err(e) => Ev { r: Err(e), k: t.k },
    }
}

/// What an expression in tail position comes to.
pub enum TailResult {
    Value(Value),
    /// Another pass of the same function, with these names.
    TailCall(Scope),
}

/// What the outcome of an expression in tail position says.
pub open spec fn tail_said(r: Result<TailResult, String>) -> Result<TailVal, Seq<char>> {
    match r {
        Ok(TailResult::Value(v)) => Ok(TailVal::Value(v@)),
        Ok(TailResult::TailCall(s)) => Ok(TailVal::Again(s@)),
        Err(e) => Err(e@),
    }
}

fn as_value(r: Result<Value, String>) -> (t: Result<TailResult, String>)
    ensures
        tail_said(t) == (match said(r) {
            Ok(v) => Ok(TailVal::Value(v)),
            Err(e) => Err(e),
        }),
        r is Err ==> t is Err && t->Err_0 == r->Err_0,
{
    match r {
        Ok(v) => Ok(TailResult::Value(v)),
        Err(e) => Err(e),
    }
}

/// Evaluates an expression in tail position of the closure `f`.
pub fn eval_tail<A: Arithmetic>(
    it: &mut Interp<A>,
    scope: &mut Scope,
    expr: &Expr,
    f: usize,
    params: &Vec<Param>,
) -> (r: Result<TailResult, String>)
    requires
        old(it).wf(),
    ensures
        final(scope)@ == old(scope)@,
        final(it).wf(),
        final(it).stays(*old(it)),
        forall|m: Reading| #[trigger]
            final(it).calc.agrees(m) ==> old(it).calc.agrees(m) && (ev_tail(
                m,
                old(it).oracle(m),
                old(it).store(),
                old(scope)@,
                *expr,
                f,
                *params,
            ) == (EvTail { r: tail_said(r), k: final(it).store() })),
    decreases old(it).depth, old(it).binds, 6int, *expr,
{
    let ghost n = scope@;
    match expr {
        Expr::Ternary { cond, yes, no } => {
            let c = match eval_expr(it, scope, cond) {
                Ok(v) => v,
                Err(e) => return Err(e),
            };
            if c.truthy() {
                eval_tail(it, scope, yes, f, params)
            } else {
                eval_tail(it, scope, no, f, params)
            }
        },
        Expr::Let { bindings, body } => {
            let env: usize = scope.env.len();
            let specials: usize = scope.specials.len();
            proof {
                assert(n.env =~= n.env.subrange(0, n.env.len() as int));
                assert(n.specials =~= n.specials.subrange(0, n.specials.len() as int));
            }
            match eval_bindings(it, scope, bindings, Ghost(n)) {
                Ok(_) => {},
                Err(e) => {
                    scope.leave(env, specials, Ghost(n));
                    return Err(e);
                },
            }
            let r = eval_tail(it, scope, body, f, params);
            scope.leave(env, specials, Ghost(n));
            r
        },
        Expr::Echo { args, body } => {
            let list = match eval_args(it, scope, args) {
                Ok(v) => v,
                Err(e) => return Err(e),
            };
            proof {
                lemma_same_oracle(*it, *old(it));
            }
            it.echo(&list);
            eval_tail(it, scope, body, f, params)
        },
        Expr::Assert { args, body } => {
            match do_assert(it, scope, args) {
                Ok(_) => {},
                Err(e) => return Err(e),
            }
            eval_tail(it, scope, body, f, params)
        },
        Expr::Call { name, args } => {
            let target = it.function(name.as_str());
            let own: bool = match target {
                Some(g) => g == f,
                None => false,
            };
            if own {
                let list = match eval_args(it, scope, args) {
                    Ok(v) => v,
                    Err(e) => return Err(e),
                };
                match bind_params(it, &scope.specials, params, &list) {
                    Ok(next) => Ok(TailResult::TailCall(next)),
                    Err(e) => Err(e),
                }
            } else {
                as_value(eval_expr(it, scope, expr))
            }
        },
        _ => as_value(eval_expr(it, scope, expr)),
    }
}

/// Runs the closure `f` with its names bound. A call of itself in tail position
/// is another pass, so that such a recursion takes no room.
pub fn run_bound<A: Arithmetic>(
    it: &mut Interp<A>,
    start: Scope,
    f: usize,
    params: &Vec<Param>,
    body: &Expr,
) -> (r: Result<Value, String>)
    requires
        old(it).wf(),
    ensures
        final(it).wf(),
        final(it).stays(*old(it)),
        forall|m: Reading| #[trigger]
            final(it).calc.agrees(m) ==> old(it).calc.agrees(m) && ev_loop(
                m,
                old(it).oracle(m),
                old(it).store(),
                start@,
                f,
                *params,
                *body,
                0,
            ) == (Ev { r: said(r), k: final(it).store() }),
    decreases old(it).depth, old(it).binds, 7int,
{
    let ghost n0 = start@;
    let ghost k0 = it.store();
    let mut scope = start;
    let mut iters: usize = 0;
    loop
        invariant
            n0 == start@,
            k0 == old(it).store(),
            iters <= MAX_RANGE_ITERS,
            it.wf(),
            it.stays(*old(it)),
            forall|m: Reading| #[trigger]
            it.calc.agrees(m) ==> old(it).calc.agrees(m) && ev_loop(m, old(it).oracle(m), k0, n0, f, *params, *body, 0)
                    == ev_loop(m, old(it).oracle(m), it.store(), scope@, f, *params, *body, iters as int),
        decreases MAX_RANGE_ITERS + 1 - iters,
    {
        match eval_tail(it, &mut scope, body, f, params) {
            Ok(TailResult::Value(v)) => return Ok(v),
            Ok(TailResult::TailCall(next)) => {
                scope = next;
                if iters + 1 > MAX_RANGE_ITERS {
                    return Err("tail recursion exceeded iteration limit".to_owned());
                }
                iters = iters + 1;
            },
            Err(e) => return Err(e),
        }
    }
}

} // verus!
