//! What compiled code does is what its expression means.

use crate::ast::{Arg, Binding, Expr, ListElem};
use crate::calls::no_names;
use crate::num::Reading;
use crate::sem::{
    asked, bound, call_query, ev, ev_args, ev_binary, ev_bindings, ev_elem, ev_elems, found,
    is_special, member, plain_range, stepped_range, variable, Env, Ev, Names, Oracle,
};
use crate::value::{binary_of, truth, unary_of, BinOp, Val};
use crate::vm::{
    after, below, field_code, field_of, gen, gen_args, gen_elems, gen_lets, joined_ways,
    lemma_after_add, lower, name_place, positional, slot_of, step, top, upper, with_const, with_op,
    with_slot, Bound, Code, Mach, Op, Slots, Stepped,
};
use crate::vmproof::{
    grown, grows, lemma_gen, lemma_gen_args, lemma_gen_elems, lemma_gen_lets, lemma_slot_below,
    lemma_with_name, lemma_with_slot, sized, slots_below,
};
use vstd::prelude::*;

verus! {

/// Ordinary names only.
pub open spec fn plain(env: Env) -> Names {
    Names { env, specials: Seq::empty() }
}

/// A name has the value that its slot holds, or neither a value nor a slot.
pub open spec fn held(sc: Slots, env: Env, locals: Seq<Val>, name: Seq<char>) -> bool {
    match slot_of(sc, name) {
        Some(p) => found(env, name) == Some(locals[p]) && !is_special(name),
        None => found(env, name) is None,
    }
}

/// The slots hold the values of the names.
pub open spec fn holds(sc: Slots, env: Env, locals: Seq<Val>, n: int) -> bool {
    &&& n <= locals.len()
    &&& slots_below(sc, n)
    &&& all_held(sc, env, locals)
}

/// Every name has the value that its slot holds.
#[verifier::opaque]
pub open spec fn all_held(sc: Slots, env: Env, locals: Seq<Val>) -> bool {
    forall|name: Seq<char>| #[trigger] held(sc, env, locals, name)
}

/// The chunk holds the code that `h` has beyond `g`.
pub open spec fn carries(ch: Code, g: Code, h: Code) -> bool {
    &&& sized(ch)
    &&& h.code.len() <= ch.code.len()
    &&& forall|i: int| g.code.len() <= i < h.code.len() ==> #[trigger] ch.code[i] == h.code[i]
    &&& h.consts.len() <= ch.consts.len()
    &&& forall|i: int| 0 <= i < h.consts.len() ==> #[trigger] ch.consts[i] == h.consts[i]
    &&& h.names.len() <= ch.names.len()
    &&& forall|i: int| 0 <= i < h.names.len() ==> #[trigger] ch.names[i] == h.names[i]
    &&& h.n_locals <= ch.n_locals
}

/// Slots below `n` are unchanged.
pub open spec fn kept(a: Seq<Val>, b: Seq<Val>, n: int) -> bool {
    a.len() == b.len() && forall|i: int| 0 <= i < n ==> #[trigger] b[i] == a[i]
}

/// After `n` steps from `s` the machine stands at `t`, behind the code of `h`,
/// with the outcome's value on top; or it has halted with the outcome's error.
pub open spec fn lands(
    m: Reading,
    o: Oracle,
    ch: Code,
    own: bool,
    s: Mach,
    g: Code,
    h: Code,
    v: Ev,
    n: nat,
    t: Mach,
) -> bool {
    match v.r {
        Ok(x) => {
            &&& after(m, o, ch, own, s, n) == Stepped::Next(t)
            &&& t.ip == h.code.len()
            &&& t.stack == s.stack.push(x)
            &&& t.k == v.k
            &&& t.iters == s.iters
            &&& kept(s.locals, t.locals, g.n_locals)
        },
        Err(_) => after(m, o, ch, own, s, n) == Stepped::Done(v),
    }
}

pub proof fn lemma_found(sc: Slots, env: Env, locals: Seq<Val>, n: int, name: Seq<char>)
    requires
        holds(sc, env, locals, n),
    ensures
        slot_of(sc, name) matches Some(p) ==> 0 <= p < n && found(env, name) == Some(locals[p])
            && !is_special(name),
        slot_of(sc, name) is None ==> found(env, name) is None,
{
    reveal(all_held);
    assert(held(sc, env, locals, name));
    lemma_slot_below(sc, name, n);
}

pub proof fn lemma_kept(sc: Slots, env: Env, a: Seq<Val>, b: Seq<Val>, n: int, k: int)
    requires
        holds(sc, env, a, n),
        kept(a, b, n),
        n <= k <= a.len(),
    ensures
        holds(sc, env, b, k),
{
    reveal(all_held);
    assert forall|name: Seq<char>| #[trigger] held(sc, env, b, name) by {
        lemma_found(sc, env, a, n, name);
    }
}

pub proof fn lemma_kept_trans(a: Seq<Val>, b: Seq<Val>, c: Seq<Val>, n: int, k: int)
    requires
        kept(a, b, n),
        kept(b, c, k),
        n <= k,
    ensures
        kept(a, c, n),
{
    assert forall|i: int| 0 <= i < n implies #[trigger] c[i] == a[i] by {
        assert(b[i] == a[i]);
    }
}

/// A part of what a chunk carries.
pub proof fn lemma_part(ch: Code, g: Code, a: Code, b: Code, h: Code)
    requires
        carries(ch, g, h),
        grows(g, a),
        grows(a, b),
        grows(b, h),
    ensures
        carries(ch, a, b),
{
    assert forall|i: int| a.code.len() <= i < b.code.len() implies #[trigger] ch.code[i]
        == b.code[i] by {
        assert(h.code[i] == b.code[i]);
        assert(ch.code[i] == h.code[i]);
    }
    assert forall|i: int| 0 <= i < b.consts.len() implies #[trigger] ch.consts[i] == b.consts[i] by {
        assert(h.consts[i] == b.consts[i]);
    }
    assert forall|i: int| 0 <= i < b.names.len() implies #[trigger] ch.names[i] == b.names[i] by {
        assert(h.names[i] == b.names[i]);
    }
}

/// A part of what a chunk carries, beside instructions that were replaced.
pub proof fn lemma_patched_part(ch: Code, g: Code, a: Code, b: Code, c: Code, h: Code)
    requires
        carries(ch, g, h),
        g.code.len() <= a.code.len(),
        grows(b, c),
        c.consts == h.consts,
        c.names == h.names,
        c.n_locals == h.n_locals,
        b.code.len() <= h.code.len(),
        forall|i: int| a.code.len() <= i < b.code.len() ==> #[trigger] h.code[i] == c.code[i],
    ensures
        carries(ch, a, b),
{
    assert forall|i: int| a.code.len() <= i < b.code.len() implies #[trigger] ch.code[i]
        == b.code[i] by {
        assert(ch.code[i] == h.code[i]);
        assert(c.code[i] == b.code[i]);
    }
    assert forall|i: int| 0 <= i < b.consts.len() implies #[trigger] ch.consts[i] == b.consts[i] by {
        assert(c.consts[i] == b.consts[i]);
    }
    assert forall|i: int| 0 <= i < b.names.len() implies #[trigger] ch.names[i] == b.names[i] by {
        assert(c.names[i] == b.names[i]);
    }
}

/// Two stretches of steps are one.
pub proof fn lemma_chain(m: Reading, o: Oracle, ch: Code, own: bool, s: Mach, a: nat, t: Mach, b: nat)
    requires
        after(m, o, ch, own, s, a) == Stepped::Next(t),
    ensures
        after(m, o, ch, own, s, a + b) == after(m, o, ch, own, t, b),
{
    lemma_after_add(m, o, ch, own, s, a, t, b);
}

/// One step more.
pub proof fn lemma_one(m: Reading, o: Oracle, ch: Code, own: bool, s: Mach, a: nat, t: Mach)
    requires
        !o.limited,
        after(m, o, ch, own, s, a) == Stepped::Next(t),
    ensures
        after(m, o, ch, own, s, a + 1) == step(m, o, ch, own, t),
{
    assert((a + 1 - 1) as nat == a);
}

pub proof fn lemma_stack(s: Seq<Val>, x: Val, y: Val)
    ensures
        top(s.push(x)) == x,
        below(s.push(x)) == s,
        top(s.push(x).push(y)) == y,
        below(s.push(x).push(y)) == s.push(x),
{
    assert(s.push(x).drop_last() =~= s);
    assert(s.push(x).push(y).drop_last() =~= s.push(x));
}

pub proof fn lemma_upper(b: Seq<Val>, vs: Seq<Val>)
    ensures
        upper(b + vs, vs.len() as int) == vs,
        lower(b + vs, vs.len() as int) == b,
{
    assert((b + vs).skip(b.len() as int) =~= vs);
    assert((b + vs).take(b.len() as int) =~= b);
}

/// The arguments from the `i`-th on land on the stack.
pub proof fn sim_args(
    m: Reading,
    o: Oracle,
    ch: Code,
    own: bool,
    g: Code,
    sc: Slots,
    args: Vec<Arg>,
    i: int,
    env: Env,
    s: Mach,
    base: Seq<Val>,
    vs: Seq<Val>,
) -> (r: (nat, Mach, Seq<Val>))
    requires
        !o.limited,
        0 <= i <= args@.len(),
        gen_args(g, sc, args, i) is Some,
        carries(ch, g, gen_args(g, sc, args, i)->0),
        holds(sc, env, s.locals, g.n_locals),
        s.locals.len() == ch.n_locals,
        s.ip == g.code.len(),
        s.stack == base + vs,
    ensures
        ({
            let h = gen_args(g, sc, args, i)->0;
            let v = ev_args(m, o, s.k, plain(env), args, i, positional(vs));
            match v.r {
                Ok(p) => {
                    &&& p == positional(r.2)
                    &&& r.2.len() == vs.len() + args@.len() - i
                    &&& after(m, o, ch, own, s, r.0) == Stepped::Next(r.1)
                    &&& r.1.ip == h.code.len()
                    &&& r.1.stack == base + r.2
                    &&& r.1.k == v.k
                    &&& r.1.iters == s.iters
                    &&& kept(s.locals, r.1.locals, g.n_locals)
                },
                Err(e) => after(m, o, ch, own, s, r.0) == Stepped::Done((Ev { r: Err(e), k: v.k })),
            }
        }),
    decreases args, args@.len() - i,
{
    if i >= args@.len() {
        (0, s, vs)
    } else {
        let h = gen_args(g, sc, args, i)->0;
        let g1 = gen(g, sc, args@[i].value)->0;
        lemma_gen(g, sc, args@[i].value);
        lemma_gen_args(g1, sc, args, i + 1);
        lemma_part(ch, g, g, g1, h);
        lemma_part(ch, g, g1, h, h);
        let (n1, t1) = sim_expr(m, o, ch, own, g, sc, args@[i].value, env, s);
        let v = ev(m, o, s.k, plain(env), args@[i].value);
        match v.r {
            Ok(x) => {
                lemma_kept(sc, env, s.locals, t1.locals, g.n_locals, g1.n_locals);
                assert(t1.stack =~= base + vs.push(x));
                assert(positional(vs).push((None::<Seq<char>>, x)) =~= positional(vs.push(x)));
                let (n2, t2, vs2) = sim_args(
                    m,
                    o,
                    ch,
                    own,
                    g1,
                    sc,
                    args,
                    i + 1,
                    env,
                    t1,
                    base,
                    vs.push(x),
                );
                lemma_chain(m, o, ch, own, s, n1, t1, n2);
                lemma_kept_ok(m, o, args, i, env, vs, x, v, t1, t2, s, g, g1);
                (n1 + n2, t2, vs2)
            },
            Err(e) => (n1, t1, vs),
        }
    }
}

proof fn lemma_kept_ok(
    m: Reading,
    o: Oracle,
    args: Vec<Arg>,
    i: int,
    env: Env,
    vs: Seq<Val>,
    x: Val,
    v: Ev,
    t1: Mach,
    t2: Mach,
    s: Mach,
    g: Code,
    g1: Code,
)
    requires
        !o.limited,
        kept(s.locals, t1.locals, g.n_locals),
        g.n_locals <= g1.n_locals,
    ensures
        kept(t1.locals, t2.locals, g1.n_locals) ==> kept(s.locals, t2.locals, g.n_locals),
{
    if kept(t1.locals, t2.locals, g1.n_locals) {
        lemma_kept_trans(s.locals, t1.locals, t2.locals, g.n_locals, g1.n_locals);
    }
}

/// The items from the `i`-th on land on the stack.
proof fn sim_elems(
    m: Reading,
    o: Oracle,
    ch: Code,
    own: bool,
    g: Code,
    sc: Slots,
    elems: Vec<ListElem>,
    i: int,
    env: Env,
    s: Mach,
    base: Seq<Val>,
    vs: Seq<Val>,
) -> (r: (nat, Mach, Seq<Val>))
    requires
        !o.limited,
        0 <= i <= elems@.len(),
        gen_elems(g, sc, elems, i) is Some,
        carries(ch, g, gen_elems(g, sc, elems, i)->0),
        holds(sc, env, s.locals, g.n_locals),
        s.locals.len() == ch.n_locals,
        s.ip == g.code.len(),
        s.stack == base + vs,
    ensures
        ({
            let h = gen_elems(g, sc, elems, i)->0;
            let v = ev_elems(m, o, s.k, plain(env), elems, i, vs);
            match v.r {
                Ok(p) => {
                    &&& p == r.2
                    &&& r.2.len() == vs.len() + elems@.len() - i
                    &&& after(m, o, ch, own, s, r.0) == Stepped::Next(r.1)
                    &&& r.1.ip == h.code.len()
                    &&& r.1.stack == base + r.2
                    &&& r.1.k == v.k
                    &&& r.1.iters == s.iters
                    &&& kept(s.locals, r.1.locals, g.n_locals)
                },
                Err(e) => after(m, o, ch, own, s, r.0) == Stepped::Done((Ev { r: Err(e), k: v.k })),
            }
        }),
    decreases elems, elems@.len() - i,
{
    if i >= elems@.len() {
        (0, s, vs)
    } else {
        match elems@[i] {
            ListElem::Item(e) => {
                let h = gen_elems(g, sc, elems, i)->0;
                let g1 = gen(g, sc, e)->0;
                lemma_gen(g, sc, e);
                lemma_gen_elems(g1, sc, elems, i + 1);
                lemma_part(ch, g, g, g1, h);
                lemma_part(ch, g, g1, h, h);
                let (n1, t1) = sim_expr(m, o, ch, own, g, sc, e, env, s);
                let v = ev(m, o, s.k, plain(env), e);
                let w = ev_elem(m, o, s.k, plain(env), elems@[i], vs);
                assert(w.k == v.k);
                assert(w.r == (match v.r {
                    Ok(x) => Ok(vs.push(x)),
                    Err(x) => Err(x),
                }));
                match v.r {
                    Ok(x) => {
                        lemma_kept(sc, env, s.locals, t1.locals, g.n_locals, g1.n_locals);
                        assert(t1.stack =~= base + vs.push(x));
                        let (n2, t2, vs2) = sim_elems(
                            m,
                            o,
                            ch,
                            own,
                            g1,
                            sc,
                            elems,
                            i + 1,
                            env,
                            t1,
                            base,
                            vs.push(x),
                        );
                        lemma_chain(m, o, ch, own, s, n1, t1, n2);
                        if kept(t1.locals, t2.locals, g1.n_locals) {
                            lemma_kept_trans(
                                s.locals,
                                t1.locals,
                                t2.locals,
                                g.n_locals,
                                g1.n_locals,
                            );
                        }
                        (n1 + n2, t2, vs2)
                    },
                    Err(x) => (n1, t1, vs),
                }
            },
            _ => (0, s, vs),
        }
    }
}

/// The bindings from the `i`-th on land in new slots.
pub proof fn sim_lets(
    m: Reading,
    o: Oracle,
    ch: Code,
    own: bool,
    b: Bound,
    list: Vec<Binding>,
    i: int,
    env: Env,
    s: Mach,
) -> (r: (nat, Mach, Env))
    requires
        !o.limited,
        0 <= i <= list@.len(),
        gen_lets(b, list, i) is Some,
        carries(ch, b.g, (gen_lets(b, list, i)->0).g),
        holds(b.sc, env, s.locals, b.g.n_locals),
        s.locals.len() == ch.n_locals,
        s.ip == b.g.code.len(),
    ensures
        ({
            let h = gen_lets(b, list, i)->0;
            let v = ev_bindings(m, o, s.k, plain(env), list, i);
            match v.r {
                Ok(names) => {
                    &&& names == plain(r.2)
                    &&& holds(h.sc, r.2, r.1.locals, h.g.n_locals)
                    &&& after(m, o, ch, own, s, r.0) == Stepped::Next(r.1)
                    &&& r.1.ip == h.g.code.len()
                    &&& r.1.stack == s.stack
                    &&& r.1.k == v.k
                    &&& r.1.iters == s.iters
                    &&& kept(s.locals, r.1.locals, b.g.n_locals)
                },
                Err(e) => after(m, o, ch, own, s, r.0) == Stepped::Done((Ev { r: Err(e), k: v.k })),
            }
        }),
    decreases list, list@.len() - i,
{
    if i >= list@.len() {
        (0, s, env)
    } else {
        let h = gen_lets(b, list, i)->0;
        let e = list@[i].value;
        let name = list@[i].name@;
        let g1 = gen(b.g, b.sc, e)->0;
        lemma_gen(b.g, b.sc, e);
        let c = Bound { g: g1, sc: b.sc };
        lemma_with_slot(c, name);
        let d = with_slot(c, name);
        lemma_gen_lets(d, list, i + 1);
        lemma_grows3(b.g, g1, d.g);
        lemma_grows3(g1, d.g, h.g);
        lemma_part(ch, b.g, b.g, g1, h.g);
        lemma_part(ch, b.g, d.g, h.g, h.g);
        let (n1, t1) = sim_expr(m, o, ch, own, b.g, b.sc, e, env, s);
        let v = ev(m, o, s.k, plain(env), e);
        match v.r {
            Ok(x) => {
                let slot = g1.n_locals;
                assert(d.g.code[g1.code.len() as int] == Op::StoreLocal(slot as usize));
                assert(h.g.code[g1.code.len() as int] == d.g.code[g1.code.len() as int]);
                assert(ch.code[t1.ip] == Op::StoreLocal(slot as usize));
                lemma_one(m, o, ch, own, s, n1, t1);
                lemma_stack(s.stack, x, x);
                let t2 = Mach {
                    ip: t1.ip + 1,
                    stack: s.stack,
                    locals: t1.locals.update(slot, x),
                    ..t1
                };
                assert(step(m, o, ch, own, t1) == Stepped::Next(t2));
                let env2 = env.push((name, x));
                assert(bound(plain(env), name, x) == plain(env2));
                lemma_kept(b.sc, env, s.locals, t1.locals, b.g.n_locals, g1.n_locals);
                assert(holds(d.sc, env2, t2.locals, d.g.n_locals)) by {
                    reveal(all_held);
                    assert forall|j: int| 0 <= j < d.sc.len() implies 0 <= (#[trigger] d.sc[j]).1
                        < d.g.n_locals by {
                        if j < b.sc.len() {
                            assert(d.sc[j] == b.sc[j]);
                        }
                    }
                    assert(d.sc.drop_last() =~= b.sc);
                    assert(env2.drop_last() =~= env);
                    assert forall|other: Seq<char>| #[trigger]
                        held(d.sc, env2, t2.locals, other) by {
                        lemma_found(b.sc, env, t1.locals, g1.n_locals, other);
                    }
                }
                let (n3, t3, env3) = sim_lets(m, o, ch, own, d, list, i + 1, env2, t2);
                lemma_chain(m, o, ch, own, s, n1 + 1, t2, n3);
                if kept(t2.locals, t3.locals, d.g.n_locals) {
                    assert(kept(s.locals, t3.locals, b.g.n_locals)) by {
                        assert forall|j: int| 0 <= j < b.g.n_locals implies #[trigger] t3.locals[j]
                            == s.locals[j] by {
                            assert(t2.locals[j] == t1.locals[j]);
                            assert(t1.locals[j] == s.locals[j]);
                        }
                    }
                }
                (n1 + 1 + n3, t3, env3)
            },
            Err(x) => (n1, t1, env),
        }
    }
}

pub proof fn lemma_grows3(a: Code, b: Code, c: Code)
    requires
        grows(a, b),
        grows(b, c),
    ensures
        grows(a, c),
{
    assert forall|i: int| 0 <= i < a.code.len() implies #[trigger] c.code[i] == a.code[i] by {
        assert(b.code[i] == a.code[i]);
    }
    assert forall|i: int| 0 <= i < a.consts.len() implies #[trigger] c.consts[i] == a.consts[i] by {
        assert(b.consts[i] == a.consts[i]);
    }
    assert forall|i: int| 0 <= i < a.names.len() implies #[trigger] c.names[i] == a.names[i] by {
        assert(b.names[i] == a.names[i]);
    }
}

/// The code of an expression pushes its value, or halts with its error.
pub proof fn sim_expr(
    m: Reading,
    o: Oracle,
    ch: Code,
    own: bool,
    g: Code,
    sc: Slots,
    e: Expr,
    env: Env,
    s: Mach,
) -> (r: (nat, Mach))
    requires
        !o.limited,
        gen(g, sc, e) is Some,
        carries(ch, g, gen(g, sc, e)->0),
        holds(sc, env, s.locals, g.n_locals),
        s.locals.len() == ch.n_locals,
        s.ip == g.code.len(),
    ensures
        lands(
            m,
            o,
            ch,
            own,
            s,
            g,
            gen(g, sc, e)->0,
            ev(m, o, s.k, plain(env), e),
            r.0,
            r.1,
        ),
    decreases e, 1int,
{
    let h = gen(g, sc, e)->0;
    lemma_gen(g, sc, e);
    lemma_one(m, o, ch, own, s, 0, s);
    let at = g.code.len() as int;
    match e {
        Expr::Number(x) => sim_leaf(m, o, ch, own, g, h, s, Val::Number(x)),
        Expr::Bool(b) => {
            assert(h.code[at] == Op::PushBool(b));
            assert(ch.code[at] == h.code[at]);
            (1, Mach { ip: s.ip + 1, stack: s.stack.push(Val::Bool(b)), ..s })
        },
        Expr::Str(x) => sim_leaf(m, o, ch, own, g, h, s, Val::Str(x@)),
        Expr::Undef => sim_leaf(m, o, ch, own, g, h, s, Val::Undef),
        Expr::Ident(name) => {
            lemma_found(sc, env, s.locals, g.n_locals, name@);
            let v = variable(o, plain(env), name@);
            assert(ch.code[at] == h.code[at]);
            match slot_of(sc, name@) {
                Some(p) => {
                    assert(h.code[at] == Op::LoadLocal(p as usize));
                    (1, Mach { ip: s.ip + 1, stack: s.stack.push(v), ..s })
                },
                None => {
                    lemma_with_name(g, name@);
                    let p = name_place(g, name@);
                    assert(h.code[at] == Op::LoadName(p as usize));
                    assert(ch.names[p] == h.names[p]);
                    assert(found(Seq::<(Seq<char>, Val)>::empty(), name@) is None);
                    (1, Mach { ip: s.ip + 1, stack: s.stack.push(v), ..s })
                },
            }
        },
        Expr::Vector(elems) => {
            let g1 = gen_elems(g, sc, elems, 0)->0;
            lemma_gen_elems(g, sc, elems, 0);
            lemma_part(ch, g, g, g1, h);
            assert(s.stack =~= s.stack + Seq::<Val>::empty());
            let (n1, t1, vs) = sim_elems(
                m,
                o,
                ch,
                own,
                g,
                sc,
                elems,
                0,
                env,
                s,
                s.stack,
                Seq::empty(),
            );
            let v = ev_elems(m, o, s.k, plain(env), elems, 0, Seq::empty());
            lemma_vec_len(elems);
            match v.r {
                Ok(items) => {
                    assert(h.code[g1.code.len() as int] == Op::MakeVector(elems@.len() as usize));
                    assert(ch.code[t1.ip] == h.code[t1.ip]);
                    lemma_one(m, o, ch, own, s, n1, t1);
                    lemma_upper(s.stack, vs);
                    (n1 + 1, Mach { ip: t1.ip + 1, stack: s.stack.push(Val::Vector(vs)), ..t1 })
                },
                Err(_) => (n1, t1),
            }
        },
        Expr::Range { start, step: st, end } => sim_range(m, o, ch, own, g, sc, e, env, s),
        Expr::Unary { op, expr } => {
            let g1 = gen(g, sc, *expr)->0;
            lemma_gen(g, sc, *expr);
            lemma_part(ch, g, g, g1, h);
            let (n1, t1) = sim_expr(m, o, ch, own, g, sc, *expr, env, s);
            let v = ev(m, o, s.k, plain(env), *expr);
            match v.r {
                Ok(x) => {
                    assert(h.code[g1.code.len() as int] == Op::Unary(op));
                    assert(ch.code[t1.ip] == h.code[t1.ip]);
                    lemma_one(m, o, ch, own, s, n1, t1);
                    lemma_stack(s.stack, x, x);
                    (n1 + 1, Mach { ip: t1.ip + 1, stack: s.stack.push(unary_of(op, x)), ..t1 })
                },
                Err(_) => (n1, t1),
            }
        },
        Expr::Binary { op, lhs, rhs } => {
            if op == BinOp::And || op == BinOp::Or {
                sim_logic(m, o, ch, own, g, sc, e, env, s)
            } else {
                sim_binary(m, o, ch, own, g, sc, e, env, s)
            }
        },
        Expr::Ternary { cond, yes, no } => sim_ternary(m, o, ch, own, g, sc, e, env, s),
        Expr::Index { base, index } => {
            let g1 = gen(g, sc, *base)->0;
            let g2 = gen(g1, sc, *index)->0;
            lemma_gen(g, sc, *base);
            lemma_gen(g1, sc, *index);
            lemma_part(ch, g, g, g1, h) ;
            lemma_part(ch, g, g1, g2, h);
            let (n1, t1) = sim_expr(m, o, ch, own, g, sc, *base, env, s);
            let v1 = ev(m, o, s.k, plain(env), *base);
            match v1.r {
                Ok(x) => {
                    lemma_kept(sc, env, s.locals, t1.locals, g.n_locals, g1.n_locals);
                    let (n2, t2) = sim_expr(m, o, ch, own, g1, sc, *index, env, t1);
                    let v2 = ev(m, o, t1.k, plain(env), *index);
                    lemma_chain(m, o, ch, own, s, n1, t1, n2);
                    match v2.r {
                        Ok(y) => {
                            assert(h.code[g2.code.len() as int] == Op::Index);
                            assert(ch.code[t2.ip] == h.code[t2.ip]);
                            lemma_one(m, o, ch, own, s, n1 + n2, t2);
                            lemma_stack(s.stack, x, y);
                            lemma_kept_trans(
                                s.locals,
                                t1.locals,
                                t2.locals,
                                g.n_locals,
                                g1.n_locals,
                            );
                            (
                                n1 + n2 + 1,
                                Mach {
                                    ip: t2.ip + 1,
                                    stack: s.stack.push(crate::iterate::indexed(m, x, y)),
                                    ..t2
                                },
                            )
                        },
                        Err(_) => (n1 + n2, t2),
                    }
                },
                Err(_) => (n1, t1),
            }
        },
        Expr::Member { base, field } => {
            let g1 = gen(g, sc, *base)->0;
            lemma_gen(g, sc, *base);
            lemma_part(ch, g, g, g1, h);
            let (n1, t1) = sim_expr(m, o, ch, own, g, sc, *base, env, s);
            let v = ev(m, o, s.k, plain(env), *base);
            match v.r {
                Ok(x) => {
                    assert(h.code[g1.code.len() as int] == Op::Member(field_code(field@)));
                    assert(ch.code[t1.ip] == h.code[t1.ip]);
                    lemma_one(m, o, ch, own, s, n1, t1);
                    lemma_stack(s.stack, x, x);
                    assert(field_of(m, x, field_code(field@)) == member(m, x, field@));
                    (
                        n1 + 1,
                        Mach { ip: t1.ip + 1, stack: s.stack.push(member(m, x, field@)), ..t1 },
                    )
                },
                Err(_) => (n1, t1),
            }
        },
        Expr::Let { bindings, body } => {
            let b = Bound { g, sc };
            let c = gen_lets(b, bindings, 0)->0;
            lemma_gen_lets(b, bindings, 0);
            lemma_gen(c.g, c.sc, *body);
            lemma_part(ch, g, g, c.g, h);
            lemma_part(ch, g, c.g, h, h);
            let (n1, t1, env1) = sim_lets(m, o, ch, own, b, bindings, 0, env, s);
            let v = ev_bindings(m, o, s.k, plain(env), bindings, 0);
            match v.r {
                Ok(names) => {
                    let (n2, t2) = sim_expr(m, o, ch, own, c.g, c.sc, *body, env1, t1);
                    lemma_chain(m, o, ch, own, s, n1, t1, n2);
                    if kept(t1.locals, t2.locals, c.g.n_locals) {
                        lemma_kept_trans(s.locals, t1.locals, t2.locals, g.n_locals, c.g.n_locals);
                    }
                    (n1 + n2, t2)
                },
                Err(_) => (n1, t1),
            }
        },
        Expr::Call { name, args } => {
            let g1 = gen_args(g, sc, args, 0)->0;
            lemma_gen_args(g, sc, args, 0);
            lemma_with_name(g1, name@);
            lemma_part(ch, g, g, g1, h);
            assert(s.stack =~= s.stack + Seq::<Val>::empty());
            assert(positional(Seq::<Val>::empty()) =~= Seq::<(Option<Seq<char>>, Val)>::empty());
            let (n1, t1, vs) = sim_args(
                m,
                o,
                ch,
                own,
                g,
                sc,
                args,
                0,
                env,
                s,
                s.stack,
                Seq::empty(),
            );
            let v = ev_args(m, o, s.k, plain(env), args, 0, Seq::empty());
            lemma_arg_len(args);
            match v.r {
                Ok(p) => {
                    let place = name_place(g1, name@);
                    assert(h.code[g1.code.len() as int] == Op::Call(
                        place as usize,
                        args@.len() as usize,
                    ));
                    assert(ch.code[t1.ip] == h.code[t1.ip]);
                    assert(ch.names[place] == h.names[place]);
                    lemma_one(m, o, ch, own, s, n1, t1);
                    lemma_upper(s.stack, vs);
                    lemma_found(sc, env, s.locals, g.n_locals, name@);
                    assert(found(Seq::<(Seq<char>, Val)>::empty(), name@) is None);
                    assert(variable(o, plain(env), name@) == variable(o, no_names(), name@));
                    let q = call_query(o, plain(env), name@, p);
                    assert(q == call_query(o, no_names(), name@, positional(vs)));
                    let a = asked(o, v.k, q);
                    let x = match a.r {
                        Ok(x) => x,
                        Err(_) => Val::Undef,
                    };
                    (
                        n1 + 1,
                        Mach { ip: t1.ip + 1, stack: s.stack.push(x), k: a.k, ..t1 },
                    )
                },
                Err(_) => (n1, t1),
            }
        },
        _ => (0, s),
    }
}

proof fn lemma_vec_len(v: Vec<ListElem>)
    ensures
        v@.len() <= usize::MAX,
{
    let n = v.len();
}

pub proof fn lemma_arg_len(v: Vec<Arg>)
    ensures
        v@.len() <= usize::MAX,
{
    let n = v.len();
}

proof fn sim_leaf(m: Reading, o: Oracle, ch: Code, own: bool, g: Code, h: Code, s: Mach, v: Val) -> (r: (
    nat,
    Mach,
))
    requires
        !o.limited,
        h == with_const(g, v),
        carries(ch, g, h),
        s.ip == g.code.len(),
    ensures
        lands(m, o, ch, own, s, g, h, (Ev { r: Ok(v), k: s.k }), r.0, r.1),
{
    lemma_one(m, o, ch, own, s, 0, s);
    let at = g.code.len() as int;
    assert(h.code[at] == Op::Const(g.consts.len() as usize));
    assert(ch.code[at] == h.code[at]);
    assert(ch.consts[g.consts.len() as int] == h.consts[g.consts.len() as int]);
    (1, Mach { ip: s.ip + 1, stack: s.stack.push(v), ..s })
}

proof fn sim_range(
    m: Reading,
    o: Oracle,
    ch: Code,
    own: bool,
    g: Code,
    sc: Slots,
    e: Expr,
    env: Env,
    s: Mach,
) -> (r: (nat, Mach))
    requires
        !o.limited,
        e is Range,
        gen(g, sc, e) is Some,
        carries(ch, g, gen(g, sc, e)->0),
        holds(sc, env, s.locals, g.n_locals),
        s.locals.len() == ch.n_locals,
        s.ip == g.code.len(),
    ensures
        lands(
            m,
            o,
            ch,
            own,
            s,
            g,
            gen(g, sc, e)->0,
            ev(m, o, s.k, plain(env), e),
            r.0,
            r.1,
        ),
    decreases e, 0int,
{
    let h = gen(g, sc, e)->0;
    match e {
        Expr::Range { start, step: st, end } => {
            let g1 = gen(g, sc, *start)->0;
            let g2 = gen(g1, sc, *end)->0;
            lemma_gen(g, sc, *start);
            lemma_gen(g1, sc, *end);
            let g3 = match st {
                Some(x) => gen(g2, sc, *x)->0,
                None => g2,
            };
            match st {
                Some(x) => {
                    lemma_gen(g2, sc, *x);
                },
                None => {},
            }
            lemma_grows3(g1, g2, g3);
            lemma_grows3(g2, g3, h);
            lemma_grows3(g1, g2, h);
            lemma_grows3(g, g1, g2);
            lemma_part(ch, g, g, g1, h);
            lemma_part(ch, g, g1, g2, h);
            lemma_part(ch, g, g2, g3, h);
            let (n1, t1) = sim_expr(m, o, ch, own, g, sc, *start, env, s);
            let v1 = ev(m, o, s.k, plain(env), *start);
            match v1.r {
                Ok(x) => {
                    lemma_kept(sc, env, s.locals, t1.locals, g.n_locals, g1.n_locals);
                    let (n2, t2) = sim_expr(m, o, ch, own, g1, sc, *end, env, t1);
                    let v2 = ev(m, o, t1.k, plain(env), *end);
                    lemma_chain(m, o, ch, own, s, n1, t1, n2);
                    match v2.r {
                        Ok(y) => {
                            lemma_kept_trans(
                                s.locals,
                                t1.locals,
                                t2.locals,
                                g.n_locals,
                                g1.n_locals,
                            );
                            match st {
                                Some(w) => {
                                    lemma_kept(
                                        sc,
                                        env,
                                        s.locals,
                                        t2.locals,
                                        g.n_locals,
                                        g2.n_locals,
                                    );
                                    let (n3, t3) = sim_expr(
                                        m,
                                        o,
                                        ch,
                                        own,
                                        g2,
                                        sc,
                                        *w,
                                        env,
                                        t2,
                                    );
                                    let v3 = ev(m, o, t2.k, plain(env), *w);
                                    lemma_chain(m, o, ch, own, s, n1 + n2, t2, n3);
                                    match v3.r {
                                        Ok(z) => {
                                            assert(h.code[g3.code.len() as int] == Op::MakeRange3);
                                            assert(ch.code[t3.ip] == h.code[t3.ip]);
                                            lemma_one(m, o, ch, own, s, n1 + n2 + n3, t3);
                                            lemma_stack(s.stack.push(x), y, z);
                                            lemma_stack(s.stack, x, y);
                                            lemma_kept_trans(
                                                s.locals,
                                                t2.locals,
                                                t3.locals,
                                                g.n_locals,
                                                g2.n_locals,
                                            );
                                            (
                                                n1 + n2 + n3 + 1,
                                                Mach {
                                                    ip: t3.ip + 1,
                                                    stack: s.stack.push(stepped_range(x, z, y)),
                                                    ..t3
                                                },
                                            )
                                        },
                                        Err(_) => (n1 + n2 + n3, t3),
                                    }
                                },
                                None => {
                                    assert(h.code[g2.code.len() as int] == Op::MakeRange2);
                                    assert(ch.code[t2.ip] == h.code[t2.ip]);
                                    lemma_one(m, o, ch, own, s, n1 + n2, t2);
                                    lemma_stack(s.stack, x, y);
                                    (
                                        n1 + n2 + 1,
                                        Mach {
                                            ip: t2.ip + 1,
                                            stack: s.stack.push(plain_range(x, y)),
                                            ..t2
                                        },
                                    )
                                },
                            }
                        },
                        Err(_) => (n1 + n2, t2),
                    }
                },
                Err(_) => (n1, t1),
            }
        },
        _ => (0, s),
    }
}

proof fn sim_binary(
    m: Reading,
    o: Oracle,
    ch: Code,
    own: bool,
    g: Code,
    sc: Slots,
    e: Expr,
    env: Env,
    s: Mach,
) -> (r: (nat, Mach))
    requires
        !o.limited,
        e matches Expr::Binary { op, .. } && op != BinOp::And && op != BinOp::Or,
        gen(g, sc, e) is Some,
        carries(ch, g, gen(g, sc, e)->0),
        holds(sc, env, s.locals, g.n_locals),
        s.locals.len() == ch.n_locals,
        s.ip == g.code.len(),
    ensures
        lands(
            m,
            o,
            ch,
            own,
            s,
            g,
            gen(g, sc, e)->0,
            ev(m, o, s.k, plain(env), e),
            r.0,
            r.1,
        ),
    decreases e, 0int,
{
    let h = gen(g, sc, e)->0;
    match e {
        Expr::Binary { op, lhs, rhs } => {
            reveal_with_fuel(ev, 2);
            let g1 = gen(g, sc, *lhs)->0;
            let g2 = gen(g1, sc, *rhs)->0;
            lemma_gen(g, sc, *lhs);
            lemma_gen(g1, sc, *rhs);
            lemma_part(ch, g, g, g1, h);
            lemma_part(ch, g, g1, g2, h);
            let (n1, t1) = sim_expr(m, o, ch, own, g, sc, *lhs, env, s);
            let v1 = ev(m, o, s.k, plain(env), *lhs);
            assert(ev(m, o, s.k, plain(env), e) == ev_binary(m, o, s.k, plain(env), e));
            match v1.r {
                Ok(x) => {
                    lemma_kept(sc, env, s.locals, t1.locals, g.n_locals, g1.n_locals);
                    let (n2, t2) = sim_expr(m, o, ch, own, g1, sc, *rhs, env, t1);
                    let v2 = ev(m, o, t1.k, plain(env), *rhs);
                    lemma_chain(m, o, ch, own, s, n1, t1, n2);
                    match v2.r {
                        Ok(y) => {
                            assert(h.code[g2.code.len() as int] == Op::Bin(op));
                            assert(ch.code[t2.ip] == h.code[t2.ip]);
                            lemma_one(m, o, ch, own, s, n1 + n2, t2);
                            lemma_stack(s.stack, x, y);
                            lemma_kept_trans(
                                s.locals,
                                t1.locals,
                                t2.locals,
                                g.n_locals,
                                g1.n_locals,
                            );
                            (
                                n1 + n2 + 1,
                                Mach {
                                    ip: t2.ip + 1,
                                    stack: s.stack.push(binary_of(m, op, x, y)),
                                    ..t2
                                },
                            )
                        },
                        Err(_) => (n1 + n2, t2),
                    }
                },
                Err(_) => (n1, t1),
            }
        },
        _ => (0, s),
    }
}

proof fn sim_logic(
    m: Reading,
    o: Oracle,
    ch: Code,
    own: bool,
    g: Code,
    sc: Slots,
    e: Expr,
    env: Env,
    s: Mach,
) -> (r: (nat, Mach))
    requires
        !o.limited,
        e matches Expr::Binary { op, .. } && (op == BinOp::And || op == BinOp::Or),
        gen(g, sc, e) is Some,
        carries(ch, g, gen(g, sc, e)->0),
        holds(sc, env, s.locals, g.n_locals),
        s.locals.len() == ch.n_locals,
        s.ip == g.code.len(),
    ensures
        lands(
            m,
            o,
            ch,
            own,
            s,
            g,
            gen(g, sc, e)->0,
            ev(m, o, s.k, plain(env), e),
            r.0,
            r.1,
        ),
    decreases e, 0int,
{
    let h = gen(g, sc, e)->0;
    match e {
        Expr::Binary { op, lhs, rhs } => {
            reveal_with_fuel(ev, 2);
            let or = op == BinOp::Or;
            let jump = if or {
                Op::JumpIfTrue(0)
            } else {
                Op::JumpIfFalse(0)
            };
            let g1 = gen(g, sc, *lhs)->0;
            let g2 = with_op(g1, jump);
            let g3 = gen(g2, sc, *rhs)->0;
            lemma_gen(g, sc, *lhs);
            lemma_gen(g2, sc, *rhs);
            lemma_grows3(g1, g2, g3);
            let a = g1.code.len() as int;
            let b = g3.code.len() as int;
            assert(h.code.len() == b + 3);
            assert(h.code[b] == Op::ToBool);
            assert(h.code[b + 1] == Op::Jump((b + 3) as usize));
            assert(h.code[b + 2] == Op::PushBool(or));
            lemma_patched_part(ch, g, g, g1, g3, h);
            lemma_patched_part(ch, g, g2, g3, g3, h);
            let (n1, t1) = sim_expr(m, o, ch, own, g, sc, *lhs, env, s);
            let v1 = ev(m, o, s.k, plain(env), *lhs);
            assert(ev(m, o, s.k, plain(env), e) == ev_binary(m, o, s.k, plain(env), e));
            match v1.r {
                Ok(x) => {
                    assert(ch.code[t1.ip] == h.code[a]);
                    lemma_one(m, o, ch, own, s, n1, t1);
                    lemma_stack(s.stack, x, x);
                    if truth(x) == or {
                        let t2 = Mach { ip: b + 2, stack: s.stack, ..t1 };
                        assert(step(m, o, ch, own, t1) == Stepped::Next(t2));
                        assert(ch.code[b + 2] == h.code[b + 2]);
                        lemma_one(m, o, ch, own, s, n1 + 1, t2);
                        (n1 + 2, Mach { ip: b + 3, stack: s.stack.push(Val::Bool(or)), ..t1 })
                    } else {
                        let t2 = Mach { ip: a + 1, stack: s.stack, ..t1 };
                        assert(step(m, o, ch, own, t1) == Stepped::Next(t2));
                        lemma_kept(sc, env, s.locals, t1.locals, g.n_locals, g2.n_locals);
                        let (n3, t3) = sim_expr(m, o, ch, own, g2, sc, *rhs, env, t2);
                        let v3 = ev(m, o, t2.k, plain(env), *rhs);
                        lemma_chain(m, o, ch, own, s, n1 + 1, t2, n3);
                        match v3.r {
                            Ok(y) => {
                                lemma_kept_trans(
                                    s.locals,
                                    t1.locals,
                                    t3.locals,
                                    g.n_locals,
                                    g2.n_locals,
                                );
                                assert(ch.code[b] == h.code[b]);
                                assert(ch.code[b + 1] == h.code[b + 1]);
                                lemma_stack(s.stack, y, y);
                                lemma_one(m, o, ch, own, s, n1 + 1 + n3, t3);
                                let t4 = Mach {
                                    ip: b + 1,
                                    stack: s.stack.push(Val::Bool(truth(y))),
                                    ..t3
                                };
                                assert(step(m, o, ch, own, t3) == Stepped::Next(t4));
                                lemma_one(m, o, ch, own, s, n1 + 1 + n3 + 1, t4);
                                (n1 + 1 + n3 + 2, Mach { ip: b + 3, ..t4 })
                            },
                            Err(_) => (n1 + 1 + n3, t3),
                        }
                    }
                },
                Err(_) => (n1, t1),
            }
        },
        _ => (0, s),
    }
}

proof fn sim_ternary(
    m: Reading,
    o: Oracle,
    ch: Code,
    own: bool,
    g: Code,
    sc: Slots,
    e: Expr,
    env: Env,
    s: Mach,
) -> (r: (nat, Mach))
    requires
        !o.limited,
        e is Ternary,
        gen(g, sc, e) is Some,
        carries(ch, g, gen(g, sc, e)->0),
        holds(sc, env, s.locals, g.n_locals),
        s.locals.len() == ch.n_locals,
        s.ip == g.code.len(),
    ensures
        lands(
            m,
            o,
            ch,
            own,
            s,
            g,
            gen(g, sc, e)->0,
            ev(m, o, s.k, plain(env), e),
            r.0,
            r.1,
        ),
    decreases e, 0int,
{
    let h = gen(g, sc, e)->0;
    match e {
        Expr::Ternary { cond, yes, no } => {
            let g1 = gen(g, sc, *cond)->0;
            let g2 = with_op(g1, Op::JumpIfFalse(0));
            let g3 = gen(g2, sc, *yes)->0;
            let g4 = with_op(g3, Op::Jump(0));
            let g5 = gen(g4, sc, *no)->0;
            lemma_gen(g, sc, *cond);
            lemma_gen(g2, sc, *yes);
            lemma_gen(g4, sc, *no);
            lemma_ways(g, g1, g3, g5);
            let a = g1.code.len() as int;
            let b = g3.code.len() as int;
            lemma_patched_part(ch, g, g, g1, g5, h);
            lemma_patched_part(ch, g, g2, g3, g5, h);
            lemma_patched_part(ch, g, g4, g5, g5, h);
            let (n1, t1) = sim_expr(m, o, ch, own, g, sc, *cond, env, s);
            let v1 = ev(m, o, s.k, plain(env), *cond);
            match v1.r {
                Ok(x) => {
                    assert(ch.code[t1.ip] == h.code[a]);
                    lemma_one(m, o, ch, own, s, n1, t1);
                    lemma_stack(s.stack, x, x);
                    if truth(x) {
                        let t2 = Mach { ip: a + 1, stack: s.stack, ..t1 };
                        assert(step(m, o, ch, own, t1) == Stepped::Next(t2));
                        lemma_kept(sc, env, s.locals, t1.locals, g.n_locals, g2.n_locals);
                        let (n3, t3) = sim_expr(m, o, ch, own, g2, sc, *yes, env, t2);
                        let v3 = ev(m, o, t2.k, plain(env), *yes);
                        lemma_chain(m, o, ch, own, s, n1 + 1, t2, n3);
                        match v3.r {
                            Ok(y) => {
                                lemma_kept_trans(
                                    s.locals,
                                    t1.locals,
                                    t3.locals,
                                    g.n_locals,
                                    g2.n_locals,
                                );
                                assert(ch.code[b] == h.code[b]);
                                lemma_one(m, o, ch, own, s, n1 + 1 + n3, t3);
                                (n1 + 1 + n3 + 1, Mach { ip: h.code.len() as int, ..t3 })
                            },
                            Err(_) => (n1 + 1 + n3, t3),
                        }
                    } else {
                        let t2 = Mach { ip: b + 1, stack: s.stack, ..t1 };
                        assert(step(m, o, ch, own, t1) == Stepped::Next(t2));
                        lemma_kept(sc, env, s.locals, t1.locals, g.n_locals, g4.n_locals);
                        let (n3, t3) = sim_expr(m, o, ch, own, g4, sc, *no, env, t2);
                        lemma_chain(m, o, ch, own, s, n1 + 1, t2, n3);
                        if kept(t1.locals, t3.locals, g4.n_locals) {
                            lemma_kept_trans(
                                s.locals,
                                t1.locals,
                                t3.locals,
                                g.n_locals,
                                g4.n_locals,
                            );
                        }
                        (n1 + 1 + n3, t3)
                    }
                },
                Err(_) => (n1, t1),
            }
        },
        _ => (0, s),
    }
}

/// The parts of a choice grow one from the other.
pub proof fn lemma_ways(g: Code, g1: Code, g3: Code, g5: Code)
    requires
        grown(g, g1),
        grown(with_op(g1, Op::JumpIfFalse(0)), g3),
        grown(with_op(g3, Op::Jump(0)), g5),
    ensures
        grows(g1, g5),
        grows(g3, g5),
        g1.n_locals <= g3.n_locals <= g5.n_locals,
        ({
            let h = joined_ways(g1, g3, g5);
            let a = g1.code.len() as int;
            let b = g3.code.len() as int;
            &&& a < b < h.code.len() || (a < b && b < h.code.len())
            &&& h.code.len() == g5.code.len()
            &&& h.code[a] == Op::JumpIfFalse((b + 1) as usize)
            &&& h.code[b] == Op::Jump(h.code.len() as usize)
            &&& forall|i: int|
                0 <= i < h.code.len() && i != a && i != b ==> #[trigger] h.code[i] == g5.code[i]
        }),
{
    let g2 = with_op(g1, Op::JumpIfFalse(0));
    let g4 = with_op(g3, Op::Jump(0));
    assert(grows(g1, g2));
    assert(grows(g3, g4));
    lemma_grows3(g1, g2, g3);
    lemma_grows3(g3, g4, g5);
    lemma_grows3(g1, g3, g5);
}

} // verus!
