//! A compiled function gives what the evaluator gives.

use crate::ast::{Expr, Param};
use crate::calls::{
    as_tail, bind_passed, ev_bind, ev_defaults, ev_loop, ev_tail, no_names, run_bound, EvTail,
    TailVal,
};
use crate::eval::{entries, said, Scope};
use crate::interp::{
    callable, closure_of, closure_view, compiles, lemma_function_named, shared, Closure, Interp,
};
use crate::iterate::MAX_RANGE_ITERS;
use crate::meaning::{filled, is_param, only_params, oracle, outcome, ran};
use crate::num::{Arithmetic, Reading};
use crate::scopes::function_of;
use crate::sem::{
    asked, call_query, ev, ev_args, ev_bindings, found, is_special, variable, Env, Ev, EvNames,
    Names, Oracle, Store,
};
use crate::text::same_text;
use crate::value::{truth, vals, Val, Value};
use crate::vm::{
    after, compiled_fn, gen, gen_args, gen_lets, gen_tail, halts, lemma_one_outcome, name_place,
    op_fits, overwritten, param_slots, plain_params, positional, run_chunk, runnable, slot_of,
    step, with_name, with_op, Bound, Code, Mach, Op, Own, Slots, Stepped,
};
use crate::vmproof::{
    fits_at, grown, lemma_gen, lemma_gen_args, lemma_gen_lets, lemma_grown_trans, lemma_joined_ways,
    lemma_with_name, lemma_with_op, sized, slots_below,
};
use crate::vmsim::{
    all_held, carries, held, holds, kept, lands, lemma_chain, lemma_found, lemma_grows3, lemma_kept,
    lemma_kept_trans, lemma_one, lemma_part, lemma_patched_part, lemma_stack, lemma_upper,
    lemma_ways, lemma_arg_len, plain, sim_args, sim_expr, sim_lets,
};
use vstd::prelude::*;

verus! {

/// The parameters with their values.
pub open spec fn paired(params: Seq<Param>, vs: Seq<Val>) -> Env {
    Seq::new(vs.len(), |i: int| (params[i].name@, vs[i]))
}

/// The function `f` is found under its own name only.
pub open spec fn registered(o: Oracle, f: usize, name: Option<Seq<char>>) -> bool {
    forall|n: Seq<char>| #[trigger] o.function(n) == Some(f) ==> name == Some(n)
}

/// The function's own name still stands for it.
pub open spec fn is_own(o: Oracle, f: usize, name: Option<Seq<char>>) -> bool {
    name is Some && o.function(name->0) == Some(f)
}

/// Compiling in tail position adds instructions that fit.
proof fn lemma_gen_tail(g: Code, sc: Slots, e: Expr, own: Own)
    requires
        slots_below(sc, g.n_locals),
    ensures
        gen_tail(g, sc, e, own) matches Some(h) ==> grown(g, h),
    decreases e,
{
    match e {
        Expr::Ternary { cond, yes, no } => {
            lemma_gen(g, sc, *cond);
            match gen(g, sc, *cond) {
                Some(g1) => {
                    let g2 = with_op(g1, Op::JumpIfFalse(0));
                    lemma_gen_tail(g2, sc, *yes, own);
                    match gen_tail(g2, sc, *yes, own) {
                        Some(g3) => {
                            let g4 = with_op(g3, Op::Jump(0));
                            lemma_gen_tail(g4, sc, *no, own);
                            match gen_tail(g4, sc, *no, own) {
                                Some(g5) => {
                                    lemma_joined_ways(g, g1, g3, g5);
                                },
                                None => {},
                            }
                        },
                        None => {},
                    }
                },
                None => {},
            }
        },
        Expr::Let { bindings, body } => {
            let b = Bound { g, sc };
            lemma_gen_lets(b, bindings, 0);
            match gen_lets(b, bindings, 0) {
                Some(c) => {
                    lemma_gen_tail(c.g, c.sc, *body, own);
                    match gen_tail(c.g, c.sc, *body, own) {
                        Some(h) => {
                            lemma_grown_trans(g, c.g, h);
                        },
                        None => {},
                    }
                },
                None => {},
            }
        },
        Expr::Call { name, args } => {
            if own.name == Some(name@) {
                lemma_gen_args(g, sc, args, 0);
                match gen_args(g, sc, args, 0) {
                    Some(g1) => {
                        lemma_with_name(g1, name@);
                        let w = with_name(g1, name@);
                        let op = Op::TailCall(name_place(g1, name@) as usize, args@.len() as usize);
                        lemma_grown_trans(g, g1, w);
                        lemma_with_op(w, op);
                        lemma_grown_trans(g, w, with_op(w, op));
                    },
                    None => {},
                }
            } else {
                lemma_gen(g, sc, e);
            }
        },
        _ => {
            lemma_gen(g, sc, e);
        },
    }
}

// ---- binding ---------------------------------------------------------------------------------

proof fn lemma_bind_each(params: Seq<Param>, vs: Seq<Val>, i: int)
    requires
        plain_params(params),
        vs.len() == params.len(),
        0 <= i <= vs.len(),
    ensures
        bind_passed(params, positional(vs), i, i, plain(paired(params, vs).take(i))) == plain(
            paired(params, vs),
        ),
    decreases vs.len() - i,
{
    let z = paired(params, vs);
    if i >= vs.len() {
        assert(z.take(i) =~= z);
    } else {
        assert(!is_special(params[i].name@));
        assert(z.take(i).push((params[i].name@, vs[i])) =~= z.take(i + 1));
        lemma_bind_each(params, vs, i + 1);
    }
}

proof fn lemma_found_pair(params: Seq<Param>, vs: Seq<Val>, n: int, i: int)
    requires
        0 <= i < n <= vs.len(),
        vs.len() == params.len(),
        plain_params(params),
    ensures
        found(paired(params, vs).take(n), params[i].name@) == Some(vs[i]),
    decreases n,
{
    let t = paired(params, vs).take(n);
    assert(t.last() == (params[n - 1].name@, vs[n - 1]));
    if i < n - 1 {
        assert(params[i].name@ != params[n - 1].name@);
        assert(t.drop_last() =~= paired(params, vs).take(n - 1));
        lemma_found_pair(params, vs, n - 1, i);
    }
}

proof fn lemma_no_defaults(
    m: Reading,
    o: Oracle,
    k: Store,
    dn: Names,
    params: Vec<Param>,
    i: int,
    vs: Seq<Val>,
)
    requires
        !o.limited,
        plain_params(params@),
        vs.len() == params@.len(),
        0 <= i <= params@.len(),
    ensures
        ev_defaults(m, o, k, dn, params, i, plain(paired(params@, vs))) == (EvNames {
            r: Ok(plain(paired(params@, vs))),
            k,
        }),
    decreases params@.len() - i,
{
    if i < params@.len() {
        let z = paired(params@, vs);
        assert(z.take(vs.len() as int) =~= z);
        lemma_found_pair(params@, vs, vs.len() as int, i);
        assert(!is_special(params@[i].name@));
        lemma_no_defaults(m, o, k, dn, params, i + 1, vs);
    }
}

/// Where each parameter has its argument, a call binds just those.
proof fn lemma_bind_all(
    m: Reading,
    o: Oracle,
    k: Store,
    specials: Env,
    params: Vec<Param>,
    vs: Seq<Val>,
)
    requires
        !o.limited,
        plain_params(params@),
        vs.len() == params@.len(),
    ensures
        ev_bind(m, o, k, specials, params, positional(vs)) == (EvNames {
            r: Ok(plain(paired(params@, vs))),
            k,
        }),
{
    lemma_bind_each(params@, vs, 0);
    assert(paired(params@, vs).take(0) =~= Seq::empty());
    lemma_no_defaults(m, o, k, (Names { env: Seq::empty(), specials }), params, 0, vs);
}

/// The slot of a name among the first `n` parameters is its place.
proof fn lemma_param_slot(params: Seq<Param>, n: int, name: Seq<char>)
    requires
        0 <= n <= params.len(),
    ensures
        match slot_of(param_slots(params, n), name) {
            Some(p) => 0 <= p < n && params[p].name@ == name,
            None => forall|j: int| 0 <= j < n ==> (#[trigger] params[j]).name@ != name,
        },
    decreases n,
{
    if n > 0 {
        let sc = param_slots(params, n);
        assert(sc.drop_last() =~= param_slots(params, n - 1));
        assert(sc.last() == (params[n - 1].name@, n - 1));
        lemma_param_slot(params, n - 1, name);
    }
}

/// A name that has a value is on the list.
proof fn lemma_found_listed(env: Env, name: Seq<char>)
    ensures
        found(env, name) is Some ==> exists|i: int|
            0 <= i < env.len() && (#[trigger] env[i]).0 == name,
    decreases env.len(),
{
    if env.len() > 0 {
        assert(env.last() == env[env.len() - 1]);
        if env.last().0 != name {
            lemma_found_listed(env.drop_last(), name);
            if found(env, name) is Some {
                let i = choose|i: int|
                    0 <= i < env.drop_last().len() && (#[trigger] env.drop_last()[i]).0 == name;
                assert(env[i].0 == name);
            }
        }
    }
}

/// Slots that hold the parameters hold what their names stand for.
proof fn lemma_names_hold(params: Seq<Param>, n: Names, locals: Seq<Val>)
    requires
        plain_params(params),
        only_params(n, params),
        params.len() <= locals.len(),
        forall|i: int|
            0 <= i < params.len() ==> found(n.env, (#[trigger] params[i]).name@) == Some(locals[i]),
    ensures
        holds(param_slots(params, params.len() as int), n.env, locals, params.len() as int),
{
    reveal(all_held);
    let sc = param_slots(params, params.len() as int);
    assert forall|name: Seq<char>| #[trigger] held(sc, n.env, locals, name) by {
        lemma_param_slot(params, params.len() as int, name);
        lemma_found_listed(n.env, name);
        match slot_of(sc, name) {
            Some(p) => {
                assert(!is_special(params[p].name@));
            },
            None => {
                if found(n.env, name) is Some {
                    let i = choose|i: int| 0 <= i < n.env.len() && (#[trigger] n.env[i]).0 == name;
                    assert(is_param(params, n.env[i].0));
                }
            },
        }
    }
}

/// The parameters with their values are bound, and nothing else is.
proof fn lemma_pairs_are_params(params: Seq<Param>, vs: Seq<Val>)
    requires
        plain_params(params),
        vs.len() == params.len(),
    ensures
        only_params(plain(paired(params, vs)), params),
        forall|i: int|
            0 <= i < params.len() ==> found(
                paired(params, vs),
                (#[trigger] params[i]).name@,
            ) == Some(vs[i]),
{
    let env = paired(params, vs);
    assert forall|i: int| 0 <= i < params.len() implies found(
        env,
        (#[trigger] params[i]).name@,
    ) == Some(vs[i]) by {
        lemma_found_pair(params, vs, params.len() as int, i);
        assert(env.take(params.len() as int) =~= env);
    }
    assert forall|i: int| 0 <= i < env.len() implies is_param(params, (#[trigger] env[i]).0) by {
        assert(params[i].name@ == env[i].0);
    }
}

proof fn lemma_params_hold(params: Seq<Param>, vs: Seq<Val>, locals: Seq<Val>)
    requires
        plain_params(params),
        vs.len() == params.len(),
        params.len() <= locals.len(),
        forall|i: int| 0 <= i < vs.len() ==> #[trigger] locals[i] == vs[i],
    ensures
        holds(
            param_slots(params, params.len() as int),
            paired(params, vs),
            locals,
            params.len() as int,
        ),
{
    lemma_pairs_are_params(params, vs);
    lemma_names_hold(params, plain(paired(params, vs)), locals);
}

// ---- tail position ------------------------------------------------------------------------------

/// The machine has done what an expression in tail position comes to.
spec fn tail_lands(
    m: Reading,
    o: Oracle,
    ch: Code,
    own: bool,
    s: Mach,
    g: Code,
    h: Code,
    params: Seq<Param>,
    v: EvTail,
    n: nat,
    t: Mach,
    vs: Seq<Val>,
) -> bool {
    match v.r {
        Ok(TailVal::Value(x)) => lands(
            m,
            o,
            ch,
            own,
            s,
            g,
            h,
            (Ev { r: Ok(x), k: v.k }),
            n,
            t,
        ),
        Err(x) => after(m, o, ch, own, s, n) == Stepped::Done((Ev { r: Err(x), k: v.k })),
        Ok(TailVal::Again(names)) => {
            &&& vs.len() == params.len()
            &&& names == plain(paired(params, vs))
            &&& if s.iters + 1 > MAX_RANGE_ITERS {
                after(m, o, ch, own, s, n) == Stepped::Done(
                    (Ev { r: Err("tail recursion exceeded iteration limit"@), k: v.k }),
                )
            } else {
                &&& after(m, o, ch, own, s, n) == Stepped::Next(t)
                &&& t.ip == 0
                &&& t.stack == s.stack
                &&& t.k == v.k
                &&& t.iters == s.iters + 1
                &&& t.locals.len() == s.locals.len()
                &&& holds(
                    param_slots(params, params.len() as int),
                    paired(params, vs),
                    t.locals,
                    params.len() as int,
                )
            }
        },
    }
}

proof fn sim_tail(
    m: Reading,
    o: Oracle,
    ch: Code,
    own: bool,
    g: Code,
    sc: Slots,
    e: Expr,
    env: Env,
    s: Mach,
    f: usize,
    params: Vec<Param>,
    name: Option<Seq<char>>,
) -> (r: (nat, Mach, Seq<Val>))
    requires
        !o.limited,
        plain_params(params@),
        gen_tail(g, sc, e, (Own { name, params: params@.len() as int })) is Some,
        carries(ch, g, gen_tail(g, sc, e, (Own { name, params: params@.len() as int }))->0),
        holds(sc, env, s.locals, g.n_locals),
        s.locals.len() == ch.n_locals,
        params@.len() <= ch.n_locals,
        s.ip == g.code.len(),
        own == is_own(o, f, name),
        registered(o, f, name),
    ensures
        tail_lands(
            m,
            o,
            ch,
            own,
            s,
            g,
            gen_tail(g, sc, e, (Own { name, params: params@.len() as int }))->0,
            params@,
            ev_tail(m, o, s.k, plain(env), e, f, params),
            r.0,
            r.1,
            r.2,
        ),
    decreases e,
{
    let me = Own { name, params: params@.len() as int };
    let h = gen_tail(g, sc, e, me)->0;
    lemma_gen_tail(g, sc, e, me);
    let none = Seq::<Val>::empty();
    match e {
        Expr::Ternary { cond, yes, no } => {
            let g1 = gen(g, sc, *cond)->0;
            let g2 = with_op(g1, Op::JumpIfFalse(0));
            let g3 = gen_tail(g2, sc, *yes, me)->0;
            let g4 = with_op(g3, Op::Jump(0));
            let g5 = gen_tail(g4, sc, *no, me)->0;
            lemma_gen(g, sc, *cond);
            lemma_gen_tail(g2, sc, *yes, me);
            lemma_gen_tail(g4, sc, *no, me);
            lemma_ways(g, g1, g3, g5);
            let a = g1.code.len() as int;
            let b = g3.code.len() as int;
            lemma_patched_part(ch, g, g, g1, g5, h);
            lemma_patched_part(ch, g, g2, g3, g5, h);
            lemma_patched_part(ch, g, g4, g5, g5, h);
            let (n1, t1) = sim_expr(m, o, ch, own, g, sc, *cond, env, s);
            let v1 = ev(m, o, s.k, plain(env), *cond);
            match v1.r {
                Ok(x) => {
                    assert(ch.code[t1.ip] == h.code[a]);
                    lemma_one(m, o, ch, own, s, n1, t1);
                    lemma_stack(s.stack, x, x);
                    if truth(x) {
                        let t2 = Mach { ip: a + 1, stack: s.stack, ..t1 };
                        assert(step(m, o, ch, own, t1) == Stepped::Next(t2));
                        lemma_kept(sc, env, s.locals, t1.locals, g.n_locals, g2.n_locals);
                        let (n3, t3, vs) = sim_tail(
                            m,
                            o,
                            ch,
                            own,
                            g2,
                            sc,
                            *yes,
                            env,
                            t2,
                            f,
                            params,
                            name,
                        );
                        let v3 = ev_tail(m, o, t2.k, plain(env), *yes, f, params);
                        lemma_chain(m, o, ch, own, s, n1 + 1, t2, n3);
                        match v3.r {
                            Ok(TailVal::Value(y)) => {
                                lemma_kept_trans(
                                    s.locals,
                                    t1.locals,
                                    t3.locals,
                                    g.n_locals,
                                    g2.n_locals,
                                );
                                assert(ch.code[b] == h.code[b]);
                                lemma_one(m, o, ch, own, s, n1 + 1 + n3, t3);
                                (n1 + 1 + n3 + 1, Mach { ip: h.code.len() as int, ..t3 }, vs)
                            },
                            _ => (n1 + 1 + n3, t3, vs),
                        }
                    } else {
                        let t2 = Mach { ip: b + 1, stack: s.stack, ..t1 };
                        assert(step(m, o, ch, own, t1) == Stepped::Next(t2));
                        lemma_kept(sc, env, s.locals, t1.locals, g.n_locals, g4.n_locals);
                        let (n3, t3, vs) = sim_tail(
                            m,
                            o,
                            ch,
                            own,
                            g4,
                            sc,
                            *no,
                            env,
                            t2,
                            f,
                            params,
                            name,
                        );
                        lemma_chain(m, o, ch, own, s, n1 + 1, t2, n3);
                        if kept(t1.locals, t3.locals, g4.n_locals) {
                            lemma_kept_trans(
                                s.locals,
                                t1.locals,
                                t3.locals,
                                g.n_locals,
                                g4.n_locals,
                            );
                        }
                        (n1 + 1 + n3, t3, vs)
                    }
                },
                Err(_) => (n1, t1, none),
            }
        },
        Expr::Let { bindings, body } => {
            let b = Bound { g, sc };
            let c = gen_lets(b, bindings, 0)->0;
            lemma_gen_lets(b, bindings, 0);
            lemma_gen_tail(c.g, c.sc, *body, me);
            lemma_part(ch, g, g, c.g, h);
            lemma_part(ch, g, c.g, h, h);
            let (n1, t1, env1) = sim_lets(m, o, ch, own, b, bindings, 0, env, s);
            let v = ev_bindings(m, o, s.k, plain(env), bindings, 0);
            match v.r {
                Ok(names) => {
                    let (n2, t2, vs) = sim_tail(
                        m,
                        o,
                        ch,
                        own,
                        c.g,
                        c.sc,
                        *body,
                        env1,
                        t1,
                        f,
                        params,
                        name,
                    );
                    lemma_chain(m, o, ch, own, s, n1, t1, n2);
                    if kept(t1.locals, t2.locals, c.g.n_locals) {
                        lemma_kept_trans(s.locals, t1.locals, t2.locals, g.n_locals, c.g.n_locals);
                    }
                    (n1 + n2, t2, vs)
                },
                Err(_) => (n1, t1, none),
            }
        },
        Expr::Call { name: callee, args } => {
            if name == Some(callee@) {
                sim_tail_call(m, o, ch, own, g, sc, e, env, s, f, params, name)
            } else {
                assert(o.function(callee@) != Some(f));
                let (n1, t1) = sim_expr(m, o, ch, own, g, sc, e, env, s);
                (n1, t1, none)
            }
        },
        Expr::Echo { .. } => (0, s, none),
        Expr::Assert { .. } => (0, s, none),
        _ => {
            let (n1, t1) = sim_expr(m, o, ch, own, g, sc, e, env, s);
            (n1, t1, none)
        },
    }
}

proof fn sim_tail_call(
    m: Reading,
    o: Oracle,
    ch: Code,
    own: bool,
    g: Code,
    sc: Slots,
    e: Expr,
    env: Env,
    s: Mach,
    f: usize,
    params: Vec<Param>,
    name: Option<Seq<char>>,
) -> (r: (nat, Mach, Seq<Val>))
    requires
        !o.limited,
        plain_params(params@),
        e matches Expr::Call { name: callee, .. } && name == Some(callee@),
        gen_tail(g, sc, e, (Own { name, params: params@.len() as int })) is Some,
        carries(ch, g, gen_tail(g, sc, e, (Own { name, params: params@.len() as int }))->0),
        holds(sc, env, s.locals, g.n_locals),
        s.locals.len() == ch.n_locals,
        params@.len() <= ch.n_locals,
        s.ip == g.code.len(),
        own == is_own(o, f, name),
        registered(o, f, name),
    ensures
        tail_lands(
            m,
            o,
            ch,
            own,
            s,
            g,
            gen_tail(g, sc, e, (Own { name, params: params@.len() as int }))->0,
            params@,
            ev_tail(m, o, s.k, plain(env), e, f, params),
            r.0,
            r.1,
            r.2,
        ),
{
    let me = Own { name, params: params@.len() as int };
    let h = gen_tail(g, sc, e, me)->0;
    match e {
        Expr::Call { name: callee, args } => {
            let g1 = gen_args(g, sc, args, 0)->0;
            lemma_gen_args(g, sc, args, 0);
            lemma_with_name(g1, callee@);
            let w = with_name(g1, callee@);
            let place = name_place(g1, callee@);
            lemma_with_op(w, Op::TailCall(place as usize, args@.len() as usize));
            lemma_grows3(g1, w, h);
            lemma_part(ch, g, g, g1, h);
            assert(s.stack =~= s.stack + Seq::<Val>::empty());
            assert(positional(Seq::<Val>::empty()) =~= Seq::<(Option<Seq<char>>, Val)>::empty());
            let (n1, t1, vs) = sim_args(
                m,
                o,
                ch,
                own,
                g,
                sc,
                args,
                0,
                env,
                s,
                s.stack,
                Seq::empty(),
            );
            let v = ev_args(m, o, s.k, plain(env), args, 0, Seq::empty());
            lemma_arg_len(args);
            match v.r {
                Ok(p) => {
                    assert(h.code[g1.code.len() as int] == Op::TailCall(
                        place as usize,
                        args@.len() as usize,
                    ));
                    assert(ch.code[t1.ip] == h.code[t1.ip]);
                    assert(ch.names[place] == h.names[place]);
                    lemma_one(m, o, ch, own, s, n1, t1);
                    lemma_upper(s.stack, vs);
                    if own {
                        lemma_bind_all(m, o, v.k, Seq::empty(), params, vs);
                        let locals = overwritten(t1.locals, vs);
                        lemma_params_hold(params@, vs, locals);
                        (
                            n1 + 1,
                            Mach {
                                ip: 0,
                                stack: s.stack,
                                locals,
                                k: v.k,
                                iters: s.iters + 1,
                            },
                            vs,
                        )
                    } else {
                        lemma_found(sc, env, s.locals, g.n_locals, callee@);
                        assert(found(Seq::<(Seq<char>, Val)>::empty(), callee@) is None);
                        assert(variable(o, plain(env), callee@) == variable(
                            o,
                            no_names(),
                            callee@,
                        ));
                        let q = call_query(o, plain(env), callee@, p);
                        assert(q == call_query(o, no_names(), callee@, positional(vs)));
                        let a = asked(o, v.k, q);
                        let x = match a.r {
                            Ok(x) => x,
                            Err(_) => Val::Undef,
                        };
                        assert(ev_tail(m, o, s.k, plain(env), e, f, params) == as_tail(
                            ev(m, o, s.k, plain(env), e),
                        ));
                        assert(ev(m, o, s.k, plain(env), e) == a);
                        (
                            n1 + 1,
                            Mach { ip: t1.ip + 1, stack: s.stack.push(x), k: a.k, ..t1 },
                            vs,
                        )
                    }
                },
                Err(x) => {
                    assert(ev(m, o, s.k, plain(env), e) == (Ev { r: Err(x), k: v.k }));
                    (n1, t1, vs)
                },
            }
        },
        _ => (0, s, Seq::empty()),
    }
}

// ---- whole functions --------------------------------------------------------------------------------

/// A compiled function can be run.
pub(crate) proof fn lemma_runnable(params: Seq<Param>, body: Expr, name: Option<Seq<char>>, ch: Code)
    requires
        compiled_fn(params, body, name) == Some(ch),
        sized(ch),
    ensures
        runnable(ch),
        params.len() <= ch.n_locals,
{
    let g = Code {
        code: Seq::empty(),
        consts: Seq::empty(),
        names: Seq::empty(),
        n_locals: params.len() as int,
    };
    let sc = param_slots(params, params.len() as int);
    let me = Own { name, params: params.len() as int };
    let g1 = gen_tail(g, sc, body, me)->0;
    assert(slots_below(sc, g.n_locals)) by {
        assert forall|i: int| 0 <= i < sc.len() implies 0 <= (#[trigger] sc[i]).1 < g.n_locals by {}
    }
    lemma_gen_tail(g, sc, body, me);
    assert(sized(g1));
    assert forall|ip: int| 0 <= ip < ch.code.len() implies #[trigger] op_fits(ch, ip) by {
        if ip < g1.code.len() {
            assert(ch.code[ip] == g1.code[ip]);
            assert(fits_at(g1.code[ip], ip, g1));
        }
    }
}

/// The state in which a pass begins.
pub open spec fn at_start(locals: Seq<Val>, k: Store, iters: int) -> Mach {
    Mach { ip: 0, stack: Seq::empty(), locals, k, iters }
}

proof fn lemma_passes(
    m: Reading,
    o: Oracle,
    ch: Code,
    own: bool,
    s: Mach,
    env: Env,
    f: usize,
    params: Vec<Param>,
    body: Expr,
    name: Option<Seq<char>>,
) -> (n: nat)
    requires
        !o.limited,
        compiled_fn(params@, body, name) == Some(ch),
        sized(ch),
        own == is_own(o, f, name),
        registered(o, f, name),
        s.ip == 0,
        s.stack.len() == 0,
        s.locals.len() == ch.n_locals,
        holds(param_slots(params@, params@.len() as int), env, s.locals, params@.len() as int),
        s.iters <= MAX_RANGE_ITERS,
    ensures
        after(m, o, ch, own, s, n) == Stepped::Done(
            ev_loop(m, o, s.k, plain(env), f, params, body, s.iters),
        ),
    decreases MAX_RANGE_ITERS + 1 - s.iters,
{
    let g = Code {
        code: Seq::empty(),
        consts: Seq::empty(),
        names: Seq::empty(),
        n_locals: params@.len() as int,
    };
    let sc = param_slots(params@, params@.len() as int);
    let me = Own { name, params: params@.len() as int };
    let g1 = gen_tail(g, sc, body, me)->0;
    lemma_runnable(params@, body, name, ch);
    lemma_gen_tail(g, sc, body, me);
    assert(carries(ch, g, g1)) by {
        assert forall|i: int| 0 <= i < g1.code.len() implies #[trigger] ch.code[i] == g1.code[i] by {}
    }
    let (n1, t1, vs2) = sim_tail(m, o, ch, own, g, sc, body, env, s, f, params, name);
    let v = ev_tail(m, o, s.k, plain(env), body, f, params);
    match v.r {
        Ok(TailVal::Value(x)) => {
            assert(ch.code[t1.ip] == Op::Return);
            lemma_one(m, o, ch, own, s, n1, t1);
            lemma_stack(s.stack, x, x);
            n1 + 1
        },
        Err(_) => n1,
        Ok(TailVal::Again(names)) => {
            if s.iters + 1 > MAX_RANGE_ITERS {
                n1
            } else {
                let n2 = lemma_passes(
                    m,
                    o,
                    ch,
                    own,
                    t1,
                    paired(params@, vs2),
                    f,
                    params,
                    body,
                    name,
                );
                lemma_chain(m, o, ch, own, s, n1, t1, n2);
                n1 + n2
            }
        },
    }
}

/// A compiled function, run on slots that hold its names, comes to what the
/// evaluator gives.
proof fn lemma_machine(
    m: Reading,
    o: Oracle,
    ch: Code,
    locals: Seq<Val>,
    env: Env,
    k: Store,
    f: usize,
    params: Vec<Param>,
    body: Expr,
    name: Option<Seq<char>>,
)
    requires
        !o.limited,
        compiled_fn(params@, body, name) == Some(ch),
        sized(ch),
        registered(o, f, name),
        locals.len() == ch.n_locals,
        holds(param_slots(params@, params@.len() as int), env, locals, params@.len() as int),
    ensures
        halts(
            m,
            o,
            ch,
            is_own(o, f, name),
            at_start(locals, k, 0),
            ev_loop(m, o, k, plain(env), f, params, body, 0),
        ),
{
    lemma_runnable(params@, body, name, ch);
    let own = is_own(o, f, name);
    let n = lemma_passes(m, o, ch, own, at_start(locals, k, 0), env, f, params, body, name);
}

/// In a sound interpreter each function is found under its own name only.
proof fn lemma_registered<A: Arithmetic>(it: Interp<A>, m: Reading, f: usize)
    requires
        it.wf(),
        f < it.store().closures.len(),
    ensures
        registered(it.oracle(m), f, it.store().closures[f as int].name),
{
    reveal(oracle);
    let o = it.oracle(m);
    let layers = it.site().scopes.layers;
    let open = it.site().scopes.open;
    assert forall|n: Seq<char>| #[trigger] o.function(n) == Some(f) implies it.store().closures[f as int].name
        == Some(n) by {
        lemma_function_named(layers, open, it.store().closures, n);
    }
}

/// The code of a closure is not longer than memory.
proof fn lemma_sized<A: Arithmetic>(it: Interp<A>, f: usize)
    requires
        it.wf(),
        f < it.store().closures.len(),
    ensures
        ({
            let c = it.store().closures[f as int];
            compiled_fn(c.params@, c.body, c.name) matches Some(ch) ==> sized(ch)
        }),
{
    let c = it.closures@[f as int];
    assert(callable(*c, it.scopes@.layers.len()));
    assert(it.store().closures[f as int] == closure_of(c));
    match c.chunk {
        Some(ch) => {
            let (a, b, n): (usize, usize, usize) = (
                ch.code.len(),
                ch.consts.len(),
                ch.names.len(),
            );
            assert(ch.code@.len() == a);
            assert(vals(ch.consts@).len() == b);
            assert(crate::blob::texts(ch.names@).len() == n);
        },
        None => {},
    }
}

/// The bytecode machine never changes a result: where steps are not counted, a
/// closure whose names are bound comes to just the outcome that the evaluator
/// gives, with the same left behind.
pub proof fn law_machine_keeps_results<A: Arithmetic>(it: Interp<A>, m: Reading, f: usize, names: Names)
    requires
        it.wf(),
        !it.limited,
        f < it.store().closures.len(),
    ensures
        ({
            let c = it.store().closures[f as int];
            ran(m, it.oracle(m), it.store(), f, c, names) == ev_loop(
                m,
                it.oracle(m),
                it.store(),
                names,
                f,
                c.params,
                c.body,
                0,
            )
        }),
{
    reveal(ran);
    let c = it.store().closures[f as int];
    let o = it.oracle(m);
    assert(!o.limited) by {
        reveal(oracle);
    }
    if let Some(ch) = compiled_fn(c.params@, c.body, c.name) {
        if only_params(names, c.params@) {
            let locals = filled(names, c.params@, ch.n_locals);
            lemma_sized(it, f);
            lemma_registered(it, m, f);
            lemma_runnable(c.params@, c.body, c.name, ch);
            assert forall|i: int| 0 <= i < c.params@.len() implies found(
                names.env,
                (#[trigger] c.params@[i]).name@,
            ) == Some(locals[i]) by {}
            lemma_names_hold(c.params@, names, locals);
            lemma_machine(m, o, ch, locals, names.env, it.store(), f, c.params, c.body, c.name);
            assert(plain(names.env) == names) by {
                assert(names.specials =~= Seq::empty());
            }
            let e = ev_loop(m, o, it.store(), names, f, c.params, c.body, 0);
            let own = is_own(o, f, c.name);
            let s = at_start(locals, it.store(), 0);
            assert(halts(m, o, ch, own, s, outcome(m, o, ch, own, s)));
            lemma_one_outcome(m, o, ch, own, s, outcome(m, o, ch, own, s), e);
        }
    }
}

/// The code of a closure, run where steps are not counted on slots that hold its
/// arguments, comes to just the outcome that the evaluator gives with the
/// parameters bound to them by name.
pub proof fn law_code_keeps_results<A: Arithmetic>(
    it: Interp<A>,
    m: Reading,
    f: usize,
    ch: Code,
    locals: Seq<Val>,
    vs: Seq<Val>,
    e: Ev,
)
    requires
        it.wf(),
        !it.limited,
        f < it.store().closures.len(),
        compiled_fn(
            it.store().closures[f as int].params@,
            it.store().closures[f as int].body,
            it.store().closures[f as int].name,
        ) == Some(ch),
        vs.len() == it.store().closures[f as int].params@.len(),
        locals.len() == ch.n_locals,
        forall|i: int| 0 <= i < vs.len() ==> #[trigger] locals[i] == vs[i],
    ensures
        ({
            let c = it.store().closures[f as int];
            let o = it.oracle(m);
            halts(m, o, ch, is_own(o, f, c.name), at_start(locals, it.store(), 0), e) <==> e
                == ev_loop(
                m,
                o,
                it.store(),
                plain(paired(c.params@, vs)),
                f,
                c.params,
                c.body,
                0,
            )
        }),
{
    let c = it.store().closures[f as int];
    let o = it.oracle(m);
    assert(!o.limited) by {
        reveal(oracle);
    }
    lemma_sized(it, f);
    lemma_registered(it, m, f);
    lemma_runnable(c.params@, c.body, c.name, ch);
    lemma_params_hold(c.params@, vs, locals);
    let env = paired(c.params@, vs);
    lemma_machine(m, o, ch, locals, env, it.store(), f, c.params, c.body, c.name);
    let own = is_own(o, f, c.name);
    let s = at_start(locals, it.store(), 0);
    let right = ev_loop(m, o, it.store(), plain(env), f, c.params, c.body, 0);
    if halts(m, o, ch, own, s, e) {
        lemma_one_outcome(m, o, ch, own, s, e, right);
    }
}

/// Whether every parameter is bound, and no other name is.
fn are_params(scope: &Scope, params: &Vec<Param>) -> (r: bool)
    ensures
        r == only_params(scope@, params@),
{
    if scope.specials.len() > 0 {
        return false;
    }
    let ghost env = entries(scope.env@);
    let mut i: usize = 0;
    while i < scope.env.len()
        invariant
            i <= scope.env@.len(),
            env == entries(scope.env@),
            forall|a: int| 0 <= a < i ==> is_param(params@, (#[trigger] env[a]).0),
        decreases scope.env.len() - i,
    {
        let mut j: usize = 0;
        while j < params.len() && !same_text(params[j].name.as_str(), scope.env[i].name.as_str())
            invariant
                i < scope.env@.len(),
                j <= params@.len(),
                forall|a: int|
                    0 <= a < j ==> (#[trigger] params@[a]).name@ != scope.env@[i as int].name@,
            decreases params.len() - j,
        {
            j = j + 1;
        }
        assert(env[i as int].0 == scope.env@[i as int].name@);
        if j >= params.len() {
            assert(!is_param(params@, env[i as int].0));
            return false;
        }
        assert(params@[j as int].name@ == env[i as int].0);
        i = i + 1;
    }
    let mut j: usize = 0;
    while j < params.len()
        invariant
            j <= params@.len(),
            env == entries(scope.env@),
            forall|a: int| 0 <= a < j ==> found(env, (#[trigger] params@[a]).name@) is Some,
        decreases params.len() - j,
    {
        match crate::eval::find(&scope.env, params[j].name.as_str()) {
            Some(_) => {},
            None => return false,
        }
        j = j + 1;
    }
    assert(entries(scope.env@).len() == scope.env@.len());
    assert(entries(scope.specials@).len() == scope.specials@.len());
    true
}

/// Fills the slots of a compiled function.
fn fill(scope: &Scope, params: &Vec<Param>, n: usize) -> (r: Vec<Value>)
    ensures
        vals(r@) == filled(scope@, params@, n as int),
        r@.len() == n,
{
    let mut out: Vec<Value> = Vec::new();
    let ghost all = filled(scope@, params@, n as int);
    let mut i: usize = 0;
    while i < n
        invariant
            i <= n,
            all == filled(scope@, params@, n as int),
            vals(out@) =~= all.take(i as int),
        decreases n - i,
    {
        let v = if i < params.len() {
            match crate::eval::find(&scope.env, params[i].name.as_str()) {
                Some(v) => v,
                None => Value::Undef,
            }
        } else {
            Value::Undef
        };
        let ghost before = vals(out@);
        let ghost x = v@;
        out.push(v);
        assert(x == all[i as int]);
        assert(vals(out@) =~= before.push(x));
        i = i + 1;
    }
    assert(all.take(n as int) =~= all);
    out
}

/// Runs a closure with its names bound: on the machine where it can be compiled
/// and nothing besides its parameters is bound, else by evaluation.
pub fn run_closure<A: Arithmetic>(it: &mut Interp<A>, scope: Scope, f: usize, c: &Closure) -> (r: Result<
    Value,
    String,
>)
    requires
        old(it).wf(),
        compiles(*c),
    ensures
        final(it).wf(),
        final(it).stays(*old(it)),
        forall|m: Reading| #[trigger]
            final(it).calc.agrees(m) ==> old(it).calc.agrees(m) && ran(
                m,
                old(it).oracle(m),
                old(it).store(),
                f,
                closure_view(*c),
                scope@,
            ) == (Ev { r: said(r), k: final(it).store() }),
    decreases old(it).depth, old(it).binds, 8int,
{
    proof {
        reveal(ran);
    }
    let ghost nv = crate::names::text_view(c.name);
    if !are_params(&scope, &*c.params) {
        return run_bound(it, scope, f, &*c.params, &*c.body);
    }
    match &c.chunk {
        Some(ch) => {
            let own: bool = match &c.name {
                Some(n) => match it.function(n.as_str()) {
                    Some(g) => g == f,
                    None => false,
                },
                None => false,
            };
            let code_len: usize = ch.code.len();
            let const_len: usize = ch.consts.len();
            let name_len: usize = ch.names.len();
            proof {
                assert(vals(ch.consts@).len() == const_len);
                assert(crate::blob::texts(ch.names@).len() == name_len);
                assert(sized(ch@));
                lemma_runnable(c.params@, shared(c.body), nv, ch@);
                assert forall|m: Reading| own == #[trigger] is_own(it.oracle(m), f, nv) by {
                    if nv is Some {
                        assert(it.oracle(m).function(nv->0) == function_of(
                            it.site().scopes.layers,
                            it.site().scopes.open,
                            nv->0,
                        ));
                    }
                }
            }
            let locals = fill(&scope, &*c.params, ch.n_locals);
            let ghost s0 = at_start(vals(locals@), it.store(), 0);
            let r = run_chunk(it, ch, locals, own);
            proof {
                let e = Ev { r: said(r), k: it.store() };
                assert forall|m: Reading| #[trigger] it.calc.agrees(m) implies outcome(
                    m,
                    old(it).oracle(m),
                    ch@,
                    own,
                    s0,
                ) == e by {
                    let o = old(it).oracle(m);
                    assert(halts(m, o, ch@, own, s0, e));
                    assert(halts(m, o, ch@, own, s0, outcome(m, o, ch@, own, s0)));
                    lemma_one_outcome(m, o, ch@, own, s0, outcome(m, o, ch@, own, s0), e);
                }
                assert forall|m: Reading| #[trigger] it.calc.agrees(m) implies ran(
                    m,
                    old(it).oracle(m),
                    old(it).store(),
                    f,
                    closure_view(*c),
                    scope@,
                ) == e by {
                    assert(own == is_own(old(it).oracle(m), f, nv));
                }
            }
            r
        },
        None => run_bound(it, scope, f, &*c.params, &*c.body),
    }
}

} // verus!
