//! The expression evaluator.

use crate::ast::{Arg, Binding, Expr, ListElem};
use crate::interp::{call_function, lemma_closure_answer, lemma_same_oracle, Interp};
use crate::iterate::{index_value, iter_values, MAX_RANGE_ITERS};
use crate::num::{is_at_most, Arithmetic, Calc, Reading, NAN, ONE, TWO, ZERO};
use crate::sem::{
    arg_name, asked, bound, call_query, callee, ev, ev_args, ev_assert, ev_binary, ev_bindings,
    ev_body, ev_cfor, ev_each, ev_elem, ev_elems, ev_for, ev_updates, first_unnamed, found,
    is_special, loops, member, own_place, passed_values, plain_range, rebound, rebound_env,
    splice_from, spliced, stepped_range, variable, width, Base, Env, Ev, EvArgs, EvItems, EvNames,
    Names, Passed,
};
use crate::text::same_text;
use crate::value::{binary, unary, vals, vector, BinOp, Val, Value};
use vstd::prelude::*;

verus! {

// ---- the surrounding program ---------------------------------------------------------------

/// An argument that is passed: its name, where it has one, and its value.
#[derive(Debug)]
pub struct PassedArg {
    pub name: Option<String>,
    pub value: Value,
}

/// What passed arguments say.
pub open spec fn passed(v: Seq<PassedArg>) -> Passed {
    v.map_values(
        |a: PassedArg|
            (
                match a.name {
                    Some(n) => Some(n@),
                    None => None,
                },
                a.value@,
            ),
    )
}

/// A name and its value.
#[derive(Debug)]
pub struct Entry {
    pub name: String,
    pub value: Value,
}

/// What names say.
pub open spec fn entries(v: Seq<Entry>) -> Env {
    v.map_values(|e: Entry| (e.name@, e.value@))
}

/// What a result says.
pub open spec fn said(r: Result<Value, String>) -> Result<Val, Seq<char>> {
    match r {
        Ok(v) => Ok(v@),
        Err(e) => Err(e@),
    }
}

/// The outcome of adding to a list.
pub open spec fn added(r: Result<(), String>, out: Seq<Value>) -> Result<Seq<Val>, Seq<char>> {
    match r {
        Ok(_) => Ok(vals(out)),
        Err(e) => Err(e@),
    }
}

/// The outcome of binding names.
pub open spec fn named(r: Result<(), String>, n: Names) -> Result<Names, Seq<char>> {
    match r {
        Ok(_) => Ok(n),
        Err(e) => Err(e@),
    }
}

/// The outcome of a list of arguments.
pub open spec fn given(r: Result<Vec<PassedArg>, String>) -> Result<Passed, Seq<char>> {
    match r {
        Ok(v) => Ok(passed(v@)),
        Err(e) => Err(e@),
    }
}

// ---- scopes -----------------------------------------------------------------------------------

/// The names that are in scope: ordinary ones, and dynamic ones.
#[derive(Debug)]
pub struct Scope {
    pub env: Vec<Entry>,
    pub specials: Vec<Entry>,
}

impl View for Scope {
    type V = Names;

    open spec fn view(&self) -> Names {
        Names { env: entries(self.env@), specials: entries(self.specials@) }
    }
}

pub(crate) fn special(name: &str) -> (r: bool)
    ensures
        r == is_special(name@),
{
    name.unicode_len() > 0 && name.get_char(0) == '$'
}

pub(crate) fn find(list: &Vec<Entry>, name: &str) -> (r: Option<Value>)
    ensures
        match r {
            Some(v) => found(entries(list@), name@) == Some(v@),
            None => found(entries(list@), name@) is None,
        },
{
    let mut i: usize = list.len();
    let ghost all = entries(list@);
    assert(all.take(i as int) =~= all);
    while i > 0
        invariant
            all == entries(list@),
            i <= list@.len(),
            found(all, name@) == found(all.take(i as int), name@),
        decreases i,
    {
        proof {
            let t = all.take(i as int);
            assert(t.drop_last() =~= all.take(i - 1));
            assert(t.last() == (list@[i - 1].name@, list@[i - 1].value@));
        }
        if same_text(list[i - 1].name.as_str(), name) {
            return Some(list[i - 1].value.duplicate());
        }
        i = i - 1;
    }
    assert(all.take(0) =~= Seq::empty());
    None
}

fn push_entry(list: &mut Vec<Entry>, name: &str, value: Value)
    ensures
        entries(final(list)@) == entries(old(list)@).push((name@, value@)),
        final(list)@.len() == old(list)@.len() + 1,
{
    let ghost before = entries(list@);
    let ghost v = value@;
    list.push(Entry { name: name.to_owned(), value });
    assert(entries(list@) =~= before.push((name@, v)));
}

fn set_entry(list: &mut Vec<Entry>, base: usize, name: &str, value: Value)
    requires
        base <= old(list)@.len(),
    ensures
        entries(final(list)@) == rebound_env(entries(old(list)@), base as int, name@, value@),
        final(list)@.len() >= old(list)@.len(),
{
    let ghost all = entries(list@);
    let ghost v = value@;
    let mut i: usize = list.len();
    while i > base && !same_text(list[i - 1].name.as_str(), name)
        invariant
            all == entries(list@),
            base <= i <= list@.len(),
            own_place(all, name@, base as int, all.len() as int) == own_place(
                all,
                name@,
                base as int,
                i as int,
            ),
        decreases i,
    {
        assert(all[i - 1].0 == list@[i - 1].name@);
        i = i - 1;
    }
    if i > base {
        assert(all[i - 1].0 == list@[i - 1].name@);
        list.set(i - 1, Entry { name: name.to_owned(), value });
        assert(entries(list@) =~= all.update(i - 1, (name@, v)));
    } else {
        push_entry(list, name, value);
    }
}

fn cut(list: &mut Vec<Entry>, n: usize)
    requires
        n <= old(list)@.len(),
    ensures
        entries(final(list)@) == entries(old(list)@).take(n as int),
{
    let ghost all = entries(list@);
    list.truncate(n);
    assert(entries(list@) =~= all.take(n as int));
}

/// The scope begins with the names of `outer`.
pub open spec fn extends(outer: Names, inner: Names) -> bool {
    outer.env.is_prefix_of(inner.env) && outer.specials.is_prefix_of(inner.specials)
}

impl Scope {
    /// A scope without names.
    pub fn new() -> (r: Self)
        ensures
            r@ == (Names { env: Seq::empty(), specials: Seq::empty() }),
    {
        let r = Scope { env: Vec::new(), specials: Vec::new() };
        assert(entries(r.env@) =~= Seq::empty());
        assert(entries(r.specials@) =~= Seq::empty());
        r
    }

    /// Binds a name.
    pub fn bind(&mut self, name: &str, value: Value)
        ensures
            final(self)@ == bound(old(self)@, name@, value@),
    {
        if special(name) {
            push_entry(&mut self.specials, name, value);
        } else {
            push_entry(&mut self.env, name, value);
        }
    }

    /// Gives a name of the scope's own a new value.
    fn rebind(&mut self, env: usize, specials: usize, name: &str, value: Value)
        requires
            env <= old(self).env@.len(),
            specials <= old(self).specials@.len(),
        ensures
            final(self)@ == rebound(
                old(self)@,
                (Base { env: env as int, specials: specials as int }),
                name@,
                value@,
            ),
            final(self).env@.len() >= old(self).env@.len(),
            final(self).specials@.len() >= old(self).specials@.len(),
    {
        if special(name) {
            set_entry(&mut self.specials, specials, name, value);
        } else {
            set_entry(&mut self.env, env, name, value);
        }
    }

    /// Drops the names beyond the given numbers.
    pub(crate) fn leave(&mut self, env: usize, specials: usize, Ghost(outer): Ghost<Names>)
        requires
            extends(outer, old(self)@),
            outer.env.len() == env,
            outer.specials.len() == specials,
        ensures
            final(self)@ == outer,
    {
        cut(&mut self.env, env);
        cut(&mut self.specials, specials);
        assert(self@.env =~= outer.env);
        assert(self@.specials =~= outer.specials);
    }
}

proof fn lemma_bound_extends(outer: Names, n: Names, name: Seq<char>, v: Val)
    requires
        extends(outer, n),
    ensures
        extends(outer, bound(n, name, v)),
{
    let b = bound(n, name, v);
    assert(outer.env =~= b.env.subrange(0, outer.env.len() as int));
    assert(outer.specials =~= b.specials.subrange(0, outer.specials.len() as int));
}

proof fn lemma_own_place(env: Env, name: Seq<char>, base: int, i: int)
    requires
        0 <= base <= i <= env.len(),
    ensures
        own_place(env, name, base, i) matches Some(p) ==> base <= p < i,
    decreases i,
{
    if i > 0 && i > base && env[i - 1].0 != name {
        lemma_own_place(env, name, base, i - 1);
    }
}

proof fn lemma_rebound_extends(outer: Names, n: Names, name: Seq<char>, v: Val)
    requires
        extends(outer, n),
    ensures
        extends(
            outer,
            rebound(
                n,
                (Base { env: outer.env.len() as int, specials: outer.specials.len() as int }),
                name,
                v,
            ),
        ),
{
    let base = Base { env: outer.env.len() as int, specials: outer.specials.len() as int };
    let b = rebound(n, base, name, v);
    lemma_own_place(n.env, name, base.env, n.env.len() as int);
    lemma_own_place(n.specials, name, base.specials, n.specials.len() as int);
    assert(outer.env =~= b.env.subrange(0, outer.env.len() as int));
    assert(outer.specials =~= b.specials.subrange(0, outer.specials.len() as int));
}

// ---- names and calls --------------------------------------------------------------------------

/// The value of a name.
pub fn lookup_var<A: Arithmetic>(it: &Interp<A>, scope: &Scope, name: &str) -> (r: Value)
    requires
        it.wf(),
    ensures
        forall|m: Reading| r@ == #[trigger] variable(it.oracle(m), scope@, name@),
{
    let here = if special(name) {
        find(&scope.specials, name)
    } else {
        find(&scope.env, name)
    };
    match here {
        Some(v) => v,
        None => it.outside(name),
    }
}

fn values_of(args: &Vec<PassedArg>) -> (r: Vec<Value>)
    ensures
        vals(r@) == passed_values(passed(args@)),
{
    let mut out: Vec<Value> = Vec::new();
    let ghost all = passed_values(passed(args@));
    for i in 0..args.len()
        invariant
            all == passed_values(passed(args@)),
            vals(out@) =~= all.take(i as int),
    {
        let ghost before = vals(out@);
        out.push(args[i].value.duplicate());
        assert(vals(out@) =~= before.push(all[i as int]));
    }
    assert(all.take(args@.len() as int) =~= all);
    out
}

/// Calls by name: a function of that name, the function that a variable of
/// that name holds, or a built-in one.
pub fn call_named<A: Arithmetic>(
    it: &mut Interp<A>,
    scope: &Scope,
    name: &str,
    args: &Vec<PassedArg>,
) -> (r: Result<Value, String>)
    requires
        old(it).wf(),
    ensures
        final(it).wf(),
        final(it).stays(*old(it)),
        forall|m: Reading| #[trigger]
            final(it).calc.agrees(m) ==> old(it).calc.agrees(m) && asked(
                old(it).oracle(m),
                old(it).store(),
                call_query(old(it).oracle(m), scope@, name@, passed(args@)),
            ) == (Ev { r: said(r), k: final(it).store() }),
    decreases old(it).depth, old(it).binds, 3int,
{
    proof {
        lemma_closure_answer(*it);
    }
    let direct = it.function(name);
    let target = match direct {
        Some(f) => Some(f),
        None => match lookup_var(it, scope, name) {
            Value::Function(f) => Some(f),
            _ => None,
        },
    };
    proof {
        assert forall|m: Reading| target == #[trigger] callee(it.oracle(m), scope@, name@) by {
            assert(it.oracle(m).function(name@) == direct);
        }
    }
    match target {
        Some(f) => call_function(it, f, args, &scope.specials),
        None => {
            let list = values_of(args);
            Ok(it.call_builtin(name, &list))
        },
    }
}

// ---- evaluation ------------------------------------------------------------------------------------

/// Evaluates arguments from left to right.
pub fn eval_args<A: Arithmetic>(
    it: &mut Interp<A>,
    scope: &mut Scope,
    args: &Vec<Arg>,
) -> (r: Result<Vec<PassedArg>, String>)
    requires
        old(it).wf(),
    ensures
        final(scope)@ == old(scope)@,
        final(it).wf(),
        final(it).stays(*old(it)),
        forall|m: Reading| #[trigger]
            final(it).calc.agrees(m) ==> old(it).calc.agrees(m) && (ev_args(
                m,
                old(it).oracle(m),
                old(it).store(),
                old(scope)@,
                *args,
                0,
                Seq::empty(),
            ) == (EvArgs { r: given(r), k: final(it).store() })),
    decreases old(it).depth, old(it).binds, 4int, *args, 0int, 0int,
{
    let mut out: Vec<PassedArg> = Vec::new();
    let ghost n = scope@;
    let ghost k0 = it.store();
    assert(passed(out@) =~= Seq::empty());
    let mut i: usize = 0;
    while i < args.len()
        invariant
            n == scope@,
            n == old(scope)@,
            k0 == old(it).store(),
            i <= args@.len(),
            it.wf(),
            it.stays(*old(it)),
            forall|m: Reading| #[trigger]
            it.calc.agrees(m) ==> old(it).calc.agrees(m) && ev_args(m, old(it).oracle(m), k0, n, *args, 0, Seq::empty()) == ev_args(
                    m,
                    old(it).oracle(m),
                    it.store(),
                    n,
                    *args,
                    i as int,
                    passed(out@),
                ),
        decreases args.len() - i,
    {
        let v = match eval_expr(it, scope, &args[i].value) {
            Ok(v) => v,
            Err(e) => return Err(e),
        };
        let name = match &args[i].name {
            Some(t) => Some(t.clone()),
            None => None,
        };
        let ghost before = passed(out@);
        let ghost pair = (arg_name(args@[i as int]), v@);
        out.push(PassedArg { name, value: v });
        assert(passed(out@) =~= before.push(pair));
        i = i + 1;
    }
    Ok(out)
}

/// Binds names from left to right, each value seeing the names before it.
pub(crate) fn eval_bindings<A: Arithmetic>(
    it: &mut Interp<A>,
    scope: &mut Scope,
    list: &Vec<Binding>,
    Ghost(outer): Ghost<Names>,
) -> (r: Result<(), String>)
    requires
        old(it).wf(),
        extends(outer, old(scope)@),
    ensures
        extends(outer, final(scope)@),
        final(it).wf(),
        final(it).stays(*old(it)),
        forall|m: Reading| #[trigger]
            final(it).calc.agrees(m) ==> old(it).calc.agrees(m) && (ev_bindings(
                m,
                old(it).oracle(m),
                old(it).store(),
                old(scope)@,
                *list,
                0,
            ) == (EvNames { r: named(r, final(scope)@), k: final(it).store() })),
    decreases old(it).depth, old(it).binds, 4int, *list, 0int, 0int,
{
    let ghost n0 = scope@;
    let ghost k0 = it.store();
    let mut i: usize = 0;
    while i < list.len()
        invariant
            n0 == old(scope)@,
            k0 == old(it).store(),
            extends(outer, scope@),
            i <= list@.len(),
            it.wf(),
            it.stays(*old(it)),
            forall|m: Reading| #[trigger]
            it.calc.agrees(m) ==> old(it).calc.agrees(m) && ev_bindings(m, old(it).oracle(m), k0, n0, *list, 0) == ev_bindings(
                    m,
                    old(it).oracle(m),
                    it.store(),
                    scope@,
                    *list,
                    i as int,
                ),
        decreases list.len() - i,
    {
        let v = match eval_expr(it, scope, &list[i].value) {
            Ok(v) => v,
            Err(e) => return Err(e),
        };
        proof {
            lemma_bound_extends(outer, scope@, list@[i as int].name@, v@);
        }
        scope.bind(list[i].name.as_str(), v);
        i = i + 1;
    }
    Ok(())
}

/// Gives the names of a loop new values.
fn eval_updates<A: Arithmetic>(
    it: &mut Interp<A>,
    scope: &mut Scope,
    env: usize,
    specials: usize,
    list: &Vec<Binding>,
    Ghost(outer): Ghost<Names>,
) -> (r: Result<(), String>)
    requires
        old(it).wf(),
        extends(outer, old(scope)@),
        outer.env.len() == env,
        outer.specials.len() == specials,
    ensures
        extends(outer, final(scope)@),
        final(it).wf(),
        final(it).stays(*old(it)),
        forall|m: Reading| #[trigger]
            final(it).calc.agrees(m) ==> old(it).calc.agrees(m) && (ev_updates(
                m,
                old(it).oracle(m),
                old(it).store(),
                old(scope)@,
                (Base { env: env as int, specials: specials as int }),
                *list,
                0,
            ) == (EvNames { r: named(r, final(scope)@), k: final(it).store() })),
    decreases old(it).depth, old(it).binds, 4int, *list, 0int, 0int,
{
    let ghost n0 = scope@;
    let ghost k0 = it.store();
    let ghost base = Base { env: env as int, specials: specials as int };
    let mut i: usize = 0;
    while i < list.len()
        invariant
            n0 == old(scope)@,
            k0 == old(it).store(),
            base == (Base { env: env as int, specials: specials as int }),
            extends(outer, scope@),
            outer.env.len() == env,
            outer.specials.len() == specials,
            i <= list@.len(),
            it.wf(),
            it.stays(*old(it)),
            forall|m: Reading| #[trigger]
            it.calc.agrees(m) ==> old(it).calc.agrees(m) && ev_updates(m, old(it).oracle(m), k0, n0, base, *list, 0) == ev_updates(
                    m,
                    old(it).oracle(m),
                    it.store(),
                    scope@,
                    base,
                    *list,
                    i as int,
                ),
        decreases list.len() - i,
    {
        let v = match eval_expr(it, scope, &list[i].value) {
            Ok(v) => v,
            Err(e) => return Err(e),
        };
        proof {
            lemma_rebound_extends(outer, scope@, list@[i as int].name@, v@);
            assert(scope@.env.len() == scope.env@.len());
            assert(scope@.specials.len() == scope.specials@.len());
        }
        scope.rebind(env, specials, list[i].name.as_str(), v);
        i = i + 1;
    }
    Ok(())
}

/// Adds what `each` makes of a value.
fn splice<A: Arithmetic>(calc: &mut Calc<A>, v: &Value, out: &mut Vec<Value>) -> (r: bool)
    ensures
        forall|m: Reading| #[trigger]
            final(calc).agrees(m) ==> old(calc).agrees(m) && match spliced(m, v@) {
                Some(more) => r && vals(final(out)@) == vals(old(out)@) + more,
                None => !r,
            },
{
    let ghost start = vals(out@);
    match v {
        Value::Vector(items) => {
            let list: &Vec<Value> = &**items;
            assert(v@ matches Val::Vector(s) && s =~= vals(list@));
            let mut more = crate::iterate::copy_values(list);
            let ghost mv = more@;
            let ghost ov = out@;
            out.append(&mut more);
            assert(vals(out@) =~= start + vals(mv));
            true
        },
        Value::Range { .. } => match iter_values(calc, v) {
            Some(more) => {
                let mut more = more;
                let ghost mv = more@;
                out.append(&mut more);
                assert(vals(out@) =~= start + vals(mv));
                true
            },
            None => false,
        },
        Value::Undef => {
            assert(start =~= start + Seq::<Val>::empty());
            true
        },
        _ => {
            out.push(v.duplicate());
            assert(vals(out@) =~= start + seq![v@]);
            true
        },
    }
}

/// Adds what `each` makes of some values; whether no range was too long.
fn splice_all<A: Arithmetic>(calc: &mut Calc<A>, items: &Vec<Value>, out: &mut Vec<Value>) -> (r:
    bool)
    ensures
        forall|m: Reading| #[trigger]
            final(calc).agrees(m) ==> old(calc).agrees(m) && splice_from(
                m,
                vals(items@),
                0,
                vals(old(out)@),
            ) == if r {
                Some(vals(final(out)@))
            } else {
                None
            },
{
    let ghost iv = vals(items@);
    let ghost start = vals(out@);
    let mut i: usize = 0;
    while i < items.len()
        invariant
            iv == vals(items@),
            start == vals(old(out)@),
            i <= items@.len(),
            forall|m: Reading| #[trigger]
                calc.agrees(m) ==> old(calc).agrees(m) && splice_from(m, iv, 0, start)
                    == splice_from(m, iv, i as int, vals(out@)),
        decreases items.len() - i,
    {
        assert(iv[i as int] == items@[i as int]@);
        if !splice(calc, &items[i], out) {
            return false;
        }
        i = i + 1;
    }
    true
}

/// Adds the values of a list element.
pub fn eval_list_elem<A: Arithmetic>(
    it: &mut Interp<A>,
    scope: &mut Scope,
    el: &ListElem,
    out: &mut Vec<Value>,
) -> (r: Result<(), String>)
    requires
        old(it).wf(),
    ensures
        final(scope)@ == old(scope)@,
        final(it).wf(),
        final(it).stays(*old(it)),
        forall|m: Reading| #[trigger]
            final(it).calc.agrees(m) ==> old(it).calc.agrees(m) && (ev_elem(
                m,
                old(it).oracle(m),
                old(it).store(),
                old(scope)@,
                *el,
                vals(old(out)@),
            ) == (EvItems { r: added(r, final(out)@), k: final(it).store() })),
    decreases old(it).depth, old(it).binds, 4int, *el, width(*el), 0int,
{
    let ghost n = scope@;
    let ghost k0 = it.store();
    let ghost start = vals(out@);
    match el {
        ListElem::Item(e) => {
            let v = match eval_expr(it, scope, e) {
                Ok(v) => v,
                Err(e) => return Err(e),
            };
            let ghost x = v@;
            out.push(v);
            assert(vals(out@) =~= start.push(x));
            Ok(())
        },
        ListElem::Each(inner) => {
            let mut items: Vec<Value> = Vec::new();
            assert(vals(items@) =~= Seq::empty());
            match eval_list_elem(it, scope, inner, &mut items) {
                Ok(_) => {},
                Err(e) => return Err(e),
            }
            if !splice_all(&mut it.calc, &items, out) {
                return Err("range too large".to_owned());
            }
            Ok(())
        },
        ListElem::For { .. } => eval_for(it, scope, el, 0, out),
        ListElem::CFor { init, cond, update, body } => {
            let env: usize = scope.env.len();
            let specials: usize = scope.specials.len();
            let ghost base = Base { env: env as int, specials: specials as int };
            proof {
                assert(n.env =~= n.env.subrange(0, n.env.len() as int));
                assert(n.specials =~= n.specials.subrange(0, n.specials.len() as int));
            }
            match eval_bindings(it, scope, init, Ghost(n)) {
                Ok(_) => {},
                Err(e) => {
                    scope.leave(env, specials, Ghost(n));
                    return Err(e);
                },
            }
            let mut iters: usize = 0;
            let mut going: bool = true;
            while going
                invariant
                    *el matches ListElem::CFor { init: i0, cond: c0, update: u0, body: b0 } && i0
                        == *init && c0 == *cond && u0 == *update && b0 == *body,
                    n == old(scope)@,
                    k0 == old(it).store(),
                    start == vals(old(out)@),
                    base == (Base { env: env as int, specials: specials as int }),
                    n.env.len() == env,
                    n.specials.len() == specials,
                    extends(n, scope@),
                    iters <= MAX_RANGE_ITERS,
                    it.wf(),
            it.stays(*old(it)),
            forall|m: Reading| #[trigger]
            it.calc.agrees(m) ==> old(it).calc.agrees(m) && ev_elem(m, old(it).oracle(m), k0, n, *el, start) == (if going {
                        ev_cfor(
                            m,
                            old(it).oracle(m),
                            it.store(),
                            scope@,
                            base,
                            *el,
                            iters as int,
                            vals(out@),
                        )
                    } else {
                        EvItems { r: Ok(vals(out@)), k: it.store() }
                    }),
                decreases MAX_RANGE_ITERS + 1 - iters, going as int,
            {
                let c = match eval_expr(it, scope, cond) {
                    Ok(c) => c,
                    Err(e) => {
                        scope.leave(env, specials, Ghost(n));
                        return Err(e);
                    },
                };
                if !c.truthy() {
                    going = false;
                } else {
                    match eval_list_elem(it, scope, body, out) {
                        Ok(_) => {},
                        Err(e) => {
                            scope.leave(env, specials, Ghost(n));
                            return Err(e);
                        },
                    }
                    match eval_updates(it, scope, env, specials, update, Ghost(n)) {
                        Ok(_) => {},
                        Err(e) => {
                            scope.leave(env, specials, Ghost(n));
                            return Err(e);
                        },
                    }
                    if iters + 1 > MAX_RANGE_ITERS {
                        scope.leave(env, specials, Ghost(n));
                        return Err("C-style for exceeded iteration limit".to_owned());
                    }
                    iters = iters + 1;
                }
            }
            scope.leave(env, specials, Ghost(n));
            Ok(())
        },
        ListElem::Let { bindings, body } => {
            let env: usize = scope.env.len();
            let specials: usize = scope.specials.len();
            proof {
                assert(n.env =~= n.env.subrange(0, n.env.len() as int));
                assert(n.specials =~= n.specials.subrange(0, n.specials.len() as int));
            }
            match eval_bindings(it, scope, bindings, Ghost(n)) {
                Ok(_) => {},
                Err(e) => {
                    scope.leave(env, specials, Ghost(n));
                    return Err(e);
                },
            }
            let r = eval_list_elem(it, scope, body, out);
            scope.leave(env, specials, Ghost(n));
            r
        },
        ListElem::If { cond, yes, no } => {
            let c = match eval_expr(it, scope, cond) {
                Ok(c) => c,
                Err(e) => return Err(e),
            };
            if c.truthy() {
                eval_list_elem(it, scope, yes, out)
            } else {
                match no {
                    Some(e) => eval_list_elem(it, scope, e, out),
                    None => Ok(()),
                }
            }
        },
    }
}

/// Runs the loops of a comprehension from the `i`-th on.
fn eval_for<A: Arithmetic>(
    it: &mut Interp<A>,
    scope: &mut Scope,
    el: &ListElem,
    i: usize,
    out: &mut Vec<Value>,
) -> (r: Result<(), String>)
    requires
        old(it).wf(),
        *el is For,
        i <= loops(*el).len(),
    ensures
        final(scope)@ == old(scope)@,
        final(it).wf(),
        final(it).stays(*old(it)),
        forall|m: Reading| #[trigger]
            final(it).calc.agrees(m) ==> old(it).calc.agrees(m) && (ev_for(
                m,
                old(it).oracle(m),
                old(it).store(),
                old(scope)@,
                *el,
                i as int,
                vals(old(out)@),
            ) == (EvItems { r: added(r, final(out)@), k: final(it).store() })),
    decreases old(it).depth, old(it).binds, 4int, *el, 2 * (loops(*el).len() - i) + 1, 0int,
{
    let ghost n = scope@;
    let ghost k0 = it.store();
    let ghost start = vals(out@);
    match el {
        ListElem::For { bindings, body } => {
            if i >= bindings.len() {
                return eval_list_elem(it, scope, body, out);
            }
            let v = match eval_expr(it, scope, &bindings[i].value) {
                Ok(v) => v,
                Err(e) => return Err(e),
            };
            let values = match iter_values(&mut it.calc, &v) {
                Some(values) => values,
                None => return Err("range too large".to_owned()),
            };
            let ghost vv = vals(values@);
            let total: usize = bindings.len();
            let env: usize = scope.env.len();
            let specials: usize = scope.specials.len();
            proof {
                assert(n.env =~= n.env.subrange(0, n.env.len() as int));
                assert(n.specials =~= n.specials.subrange(0, n.specials.len() as int));
            }
            let mut j: usize = 0;
            while j < values.len()
                invariant
                    *el matches ListElem::For { bindings: s0, body: b0 } && s0 == *bindings && b0
                        == *body,
                    i < bindings@.len(),
                    bindings@.len() == total,
                    n == old(scope)@,
                    n == scope@,
                    n.env.len() == env,
                    n.specials.len() == specials,
                    extends(n, n),
                    k0 == old(it).store(),
                    start == vals(old(out)@),
                    vv == vals(values@),
                    j <= values@.len(),
            it.wf(),
            it.stays(*old(it)),
            forall|m: Reading| #[trigger]
            it.calc.agrees(m) ==> old(it).calc.agrees(m) && ev_for(m, old(it).oracle(m), k0, n, *el, i as int, start) == ev_each(
                        m,
                        old(it).oracle(m),
                        it.store(),
                        n,
                        *el,
                        i as int,
                        vv,
                        j as int,
                        vals(out@),
                    ),
                decreases values.len() - j,
            {
                assert(vv[j as int] == values@[j as int]@);
                assert(loops(*el)[i as int] == bindings@[i as int]);
                proof {
                    lemma_bound_extends(n, n, bindings@[i as int].name@, vv[j as int]);
                }
                scope.bind(bindings[i].name.as_str(), values[j].duplicate());
                let r = eval_for(it, scope, el, i + 1, out);
                scope.leave(env, specials, Ghost(n));
                match r {
                    Ok(_) => {},
                    Err(e) => return Err(e),
                }
                j = j + 1;
            }
            Ok(())
        },
        _ => Ok(()),
    }
}

/// Evaluates an assertion: an error where it does not hold.
pub(crate) fn do_assert<A: Arithmetic>(
    it: &mut Interp<A>,
    scope: &mut Scope,
    args: &Vec<Arg>,
) -> (r: Result<Value, String>)
    requires
        old(it).wf(),
    ensures
        final(scope)@ == old(scope)@,
        final(it).wf(),
        final(it).stays(*old(it)),
        forall|m: Reading| #[trigger]
            final(it).calc.agrees(m) ==> old(it).calc.agrees(m) && ev_assert(
                m,
                old(it).oracle(m),
                old(it).store(),
                old(scope)@,
                *args,
            ) == (Ev { r: said(r), k: final(it).store() }),
    decreases old(it).depth, old(it).binds, 4int, *args, 0int, 1int,
{
    let ghost n = scope@;
    it.count_assert();
    let mut i: usize = 0;
    while i < args.len() && args[i].name.is_some()
        invariant
            i <= args@.len(),
            first_unnamed(args@, 0) == first_unnamed(args@, i as int),
        decreases args.len() - i,
    {
        i = i + 1;
    }
    let holds: bool = if i < args.len() {
        match eval_expr(it, scope, &args[i].value) {
            Ok(v) => v.truthy(),
            Err(e) => {
                if same_text(e.as_str(), "evaluation budget exhausted") {
                    return Err(e);
                }
                false
            },
        }
    } else {
        false
    };
    if holds {
        return Ok(Value::Undef);
    }
    if args.len() < 2 {
        return Err("Assertion failed: ".to_owned());
    }
    let v = match eval_expr(it, scope, &args[1].value) {
        Ok(v) => v,
        Err(e) => return Err(e),
    };
    proof {
        lemma_same_oracle(*it, *old(it));
    }
    let t = it.text(&v);
    let mut message = "Assertion failed: ".to_owned();
    message.append(t.as_str());
    Err(message)
}

/// Evaluates an expression.
pub fn eval_expr<A: Arithmetic>(it: &mut Interp<A>, scope: &mut Scope, expr: &Expr) -> (r: Result<
    Value,
    String,
>)
    requires
        old(it).wf(),
    ensures
        final(scope)@ == old(scope)@,
        final(it).wf(),
        final(it).stays(*old(it)),
        forall|m: Reading| #[trigger]
            final(it).calc.agrees(m) ==> old(it).calc.agrees(m) && ev(
                m,
                old(it).oracle(m),
                old(it).store(),
                old(scope)@,
                *expr,
            ) == (Ev { r: said(r), k: final(it).store() }),
    decreases old(it).depth, old(it).binds, 4int, *expr, 2int, 0int,
{
    if !it.burn() {
        return Err("evaluation budget exhausted".to_owned());
    }
    eval_paid(it, scope, expr)
}

/// Evaluates an expression whose step is taken.
fn eval_paid<A: Arithmetic>(it: &mut Interp<A>, scope: &mut Scope, expr: &Expr) -> (r: Result<
    Value,
    String,
>)
    requires
        old(it).wf(),
    ensures
        final(scope)@ == old(scope)@,
        final(it).wf(),
        final(it).stays(*old(it)),
        forall|m: Reading| #[trigger]
            final(it).calc.agrees(m) ==> old(it).calc.agrees(m) && ev_body(
                m,
                old(it).oracle(m),
                old(it).store(),
                old(scope)@,
                *expr,
            ) == (Ev { r: said(r), k: final(it).store() }),
    decreases old(it).depth, old(it).binds, 4int, *expr, 1int, 0int,
{
    let ghost n = scope@;
    match expr {
        Expr::Number(x) => Ok(Value::Number(*x)),
        Expr::Bool(b) => Ok(Value::Bool(*b)),
        Expr::Str(s) => Ok(Value::Str(s.clone())),
        Expr::Undef => Ok(Value::Undef),
        Expr::Ident(name) => Ok(lookup_var(it, scope, name.as_str())),
        Expr::Vector(elems) => eval_vector(it, scope, elems),
        Expr::Range { start, step, end } => {
            let a = match eval_expr(it, scope, start) {
                Ok(v) => v,
                Err(e) => return Err(e),
            };
            let b = match eval_expr(it, scope, end) {
                Ok(v) => v,
                Err(e) => return Err(e),
            };
            match step {
                Some(st) => {
                    let c = match eval_expr(it, scope, st) {
                        Ok(v) => v,
                        Err(e) => return Err(e),
                    };
                    Ok(range3(&a, &c, &b))
                },
                None => Ok(range2(&a, &b)),
            }
        },
        Expr::Unary { op, expr } => {
            let v = match eval_expr(it, scope, expr) {
                Ok(v) => v,
                Err(e) => return Err(e),
            };
            Ok(unary(*op, v))
        },
        Expr::Binary { .. } => eval_binary(it, scope, expr),
        Expr::Ternary { cond, yes, no } => {
            let c = match eval_expr(it, scope, cond) {
                Ok(v) => v,
                Err(e) => return Err(e),
            };
            if c.truthy() {
                eval_expr(it, scope, yes)
            } else {
                eval_expr(it, scope, no)
            }
        },
        Expr::Index { base, index } => {
            let b = match eval_expr(it, scope, base) {
                Ok(v) => v,
                Err(e) => return Err(e),
            };
            let i = match eval_expr(it, scope, index) {
                Ok(v) => v,
                Err(e) => return Err(e),
            };
            Ok(index_value(&mut it.calc, &b, &i))
        },
        Expr::Member { base, field } => {
            let b = match eval_expr(it, scope, base) {
                Ok(v) => v,
                Err(e) => return Err(e),
            };
            Ok(member_value(&mut it.calc, &b, field.as_str()))
        },
        Expr::Let { bindings, body } => {
            let env: usize = scope.env.len();
            let specials: usize = scope.specials.len();
            proof {
                assert(n.env =~= n.env.subrange(0, n.env.len() as int));
                assert(n.specials =~= n.specials.subrange(0, n.specials.len() as int));
            }
            match eval_bindings(it, scope, bindings, Ghost(n)) {
                Ok(_) => {},
                Err(e) => {
                    scope.leave(env, specials, Ghost(n));
                    return Err(e);
                },
            }
            let r = eval_expr(it, scope, body);
            scope.leave(env, specials, Ghost(n));
            r
        },
        Expr::Call { name, args } => {
            let list = match eval_args(it, scope, args) {
                Ok(v) => v,
                Err(e) => return Err(e),
            };
            proof {
                lemma_same_oracle(*it, *old(it));
            }
            call_named(it, scope, name.as_str(), &list)
        },
        Expr::FunctionLiteral { params, body } => {
            Ok(it.close(params, body, &scope.env))
        },
        Expr::CallValue { callee, args } => {
            let c = match eval_expr(it, scope, callee) {
                Ok(v) => v,
                Err(e) => return Err(e),
            };
            match c {
                Value::Function(f) => {
                    let list = match eval_args(it, scope, args) {
                        Ok(v) => v,
                        Err(e) => return Err(e),
                    };
                    proof {
                        lemma_same_oracle(*it, *old(it));
                        lemma_closure_answer(*it);
                    }
                    call_function(it, f, &list, &scope.specials)
                },
                _ => Ok(Value::Undef),
            }
        },
        Expr::Echo { args, body } => {
            let list = match eval_args(it, scope, args) {
                Ok(v) => v,
                Err(e) => return Err(e),
            };
            proof {
                lemma_same_oracle(*it, *old(it));
            }
            it.echo(&list);
            proof {
                lemma_same_oracle(*it, *old(it));
            }
            eval_expr(it, scope, body)
        },
        Expr::Assert { args, body } => {
            match do_assert(it, scope, args) {
                Ok(_) => {},
                Err(e) => return Err(e),
            }
            eval_expr(it, scope, body)
        },
    }
}

/// Evaluates a list.
fn eval_vector<A: Arithmetic>(
    it: &mut Interp<A>,
    scope: &mut Scope,
    elems: &Vec<ListElem>,
) -> (r: Result<Value, String>)
    requires
        old(it).wf(),
    ensures
        final(scope)@ == old(scope)@,
        final(it).wf(),
        final(it).stays(*old(it)),
        forall|m: Reading| #[trigger]
            final(it).calc.agrees(m) ==> old(it).calc.agrees(m) && (({
                let v = ev_elems(m, old(it).oracle(m), old(it).store(), old(scope)@, *elems, 0, Seq::empty());
                v.k == final(it).store() && said(r) == match v.r {
                    Ok(items) => Ok(Val::Vector(items)),
                    Err(e) => Err(e),
                }
            })),
    decreases old(it).depth, old(it).binds, 4int, *elems, 0int, 0int,
{
    let ghost n = scope@;
    let ghost k0 = it.store();
    let mut out: Vec<Value> = Vec::new();
    assert(vals(out@) =~= Seq::empty());
    let mut i: usize = 0;
    while i < elems.len()
        invariant
            n == scope@,
            n == old(scope)@,
            k0 == old(it).store(),
            i <= elems@.len(),
            it.wf(),
            it.stays(*old(it)),
            forall|m: Reading| #[trigger]
            it.calc.agrees(m) ==> old(it).calc.agrees(m) && ev_elems(m, old(it).oracle(m), k0, n, *elems, 0, Seq::empty()) == ev_elems(
                    m,
                    old(it).oracle(m),
                    it.store(),
                    n,
                    *elems,
                    i as int,
                    vals(out@),
                ),
        decreases elems.len() - i,
    {
        match eval_list_elem(it, scope, &elems[i], &mut out) {
            Ok(_) => {},
            Err(e) => return Err(e),
        }
        i = i + 1;
    }
    Ok(vector(out))
}

/// Evaluates an operation of two operands. The right one of a logical operation
/// is left alone where the left one decides.
fn eval_binary<A: Arithmetic>(
    it: &mut Interp<A>,
    scope: &mut Scope,
    expr: &Expr,
) -> (r: Result<Value, String>)
    requires
        old(it).wf(),
    ensures
        final(scope)@ == old(scope)@,
        final(it).wf(),
        final(it).stays(*old(it)),
        forall|m: Reading| #[trigger]
            final(it).calc.agrees(m) ==> old(it).calc.agrees(m) && ev_binary(
                m,
                old(it).oracle(m),
                old(it).store(),
                old(scope)@,
                *expr,
            ) == (Ev { r: said(r), k: final(it).store() }),
    decreases old(it).depth, old(it).binds, 4int, *expr, 0int, 0int,
{
    let (op, lhs, rhs) = match expr {
        Expr::Binary { op, lhs, rhs } => (*op, lhs, rhs),
        _ => return Ok(Value::Undef),
    };
    let l = match eval_expr(it, scope, lhs) {
        Ok(v) => v,
        Err(e) => return Err(e),
    };
    if op == BinOp::And && !l.truthy() {
        return Ok(Value::Bool(false));
    }
    if op == BinOp::Or && l.truthy() {
        return Ok(Value::Bool(true));
    }
    let r = match eval_expr(it, scope, rhs) {
        Ok(v) => v,
        Err(e) => return Err(e),
    };
    if op == BinOp::And || op == BinOp::Or {
        Ok(Value::Bool(r.truthy()))
    } else {
        Ok(binary(&mut it.calc, op, &l, &r))
    }
}

/// A range of two bounds.
pub fn range2(a: &Value, b: &Value) -> (r: Value)
    ensures
        r@ == plain_range(a@, b@),
{
    let s: u64 = match a.as_number() {
        Some(n) => n,
        None => NAN,
    };
    let e: u64 = match b.as_number() {
        Some(n) => n,
        None => NAN,
    };
    if is_at_most(s, e) {
        Value::Range { start: s, step: ONE, end: e }
    } else {
        Value::Range { start: e, step: ONE, end: s }
    }
}

/// A range of two bounds and a step.
pub fn range3(a: &Value, b: &Value, c: &Value) -> (r: Value)
    ensures
        r@ == stepped_range(a@, b@, c@),
{
    let s: u64 = match a.as_number() {
        Some(n) => n,
        None => NAN,
    };
    let st: u64 = match b.as_number() {
        Some(n) => n,
        None => ONE,
    };
    let e: u64 = match c.as_number() {
        Some(n) => n,
        None => NAN,
    };
    Value::Range { start: s, step: st, end: e }
}

/// A field of a value.
pub fn member_value<A: Arithmetic>(calc: &mut Calc<A>, base: &Value, field: &str) -> (r: Value)
    ensures
        forall|m: Reading| #[trigger]
            final(calc).agrees(m) ==> old(calc).agrees(m) && r@ == member(m, base@, field@),
{
    let at: u64 = if same_text(field, "x") {
        ZERO
    } else if same_text(field, "y") {
        ONE
    } else if same_text(field, "z") {
        TWO
    } else {
        return Value::Undef;
    };
    index_value(calc, base, &Value::Number(at))
}

} // verus!
