//! What a budget of steps changes in a program: nothing, as long as it lasts.

use crate::ast::{Arg, Binding, Expr};
use crate::budget::{fed, fits, lemma_assert, lemma_bind, lemma_ev, lemma_steady, same_value};
use crate::calls::{ev_bind, no_names};
use crate::diag::{NoteView, Span};
use crate::iterate::iterated;
use crate::nodeview::Tree;
use crate::num::Reading;
use crate::output::{at_first, first_level, ran_program, Manner};
use crate::play::{
    around, body_ran, child_drawn, chosen, drawn_children, drawn_resource, drew, file_ran,
    instantiated, listing, module_call, own_names, picked, ran_spliced, resource_drawn,
    resource_names, stage_world, staged, standing, used, values_passed, Given, Level, Listing,
    ModuleView, Prog,
};
use crate::program::{
    evaluated, is_local, overwritten, place_of, slots_below, whole_span, Modifier, Spanned, Stmt,
};
use crate::provenance::SourceSpan;
use crate::resources::MAX_CALL_DEPTH;
use crate::scopes::{begun, module_of, ScopesView};
use crate::sem::{ev, exhausted, first_unnamed, found, Env, Names, Passed};
use crate::splice::{file_number, FileAsk, FileOracle, FileSaid};
use crate::stage::{
    arg_label, asked_around, assigned_name, assigned_value, defines, env_of, grouped_tree,
    has_splice, known, marked, next, reply, said_done, said_given, said_value, site_of, st_args,
    st_assigns, st_call, st_color, st_dead, st_defs, st_dispatch, st_each, st_fineness, st_for,
    st_geom, st_geoms, st_inner, st_lets, st_locals, st_meet, st_meet_each, st_moved, st_stmts,
    ArgsOut, CallOut, Ctx, Known, Outcome, StageAsk, StageOracle, StageSaid, StepOut,
};
use crate::value::Val;
use std::rc::Rc;
use vstd::prelude::*;

verus! {

/// The same program with more steps left.
pub open spec fn fed_prog(t: Prog, d: Option<nat>) -> Prog {
    Prog { k: fed(t.k, d), ..t }
}

/// The same level where steps are counted, or where they are not.
pub open spec fn loosened(v: Level, d: Option<nat>) -> Level {
    Level { limited: d is Some, ..v }
}

/// It is steps that are lacking.
pub open spec fn ran_out<T>(r: Result<T, NoteView>) -> bool {
    r matches Err(e) && e.message == exhausted()
}

/// An answer other than that steps are lacking.
pub open spec fn lasted(s: StageSaid) -> bool {
    match s {
        StageSaid::Val(r) => !ran_out(r),
        StageSaid::Done(r) => !ran_out(r),
        StageSaid::Nodes(r) => !ran_out(r),
        StageSaid::Called(r) => !ran_out(r),
        _ => true,
    }
}

/// A question that takes no steps.
pub open spec fn harmless(q: StageAsk) -> bool {
    match q {
        StageAsk::Eval(_) => false,
        StageAsk::Define(_) => false,
        StageAsk::Spliced(_) => false,
        StageAsk::Call { .. } => false,
        StageAsk::Burn => false,
        StageAsk::Check(_) => false,
        _ => true,
    }
}

/// An answer of the kind that the question asks for.
pub open spec fn answers(q: StageAsk, s: StageSaid) -> bool {
    match q {
        StageAsk::Eval(_) => s is Val,
        StageAsk::Check(_) => s is Val,
        StageAsk::Define(_) => s is Done,
        StageAsk::Burn => s is Done,
        StageAsk::Spliced(_) => s is Nodes,
        StageAsk::Call { .. } => s is Called,
        _ => true,
    }
}

/// More steps do not change what a question comes to.
pub open spec fn paces(
    w: StageOracle,
    u: StageOracle,
    t: Prog,
    q: StageAsk,
    d: Option<nat>,
) -> bool {
    fits(t.k, d) && lasted(reply(w, t, q)) ==> {
        &&& next(w, t, q).k.fuel <= t.k.fuel
        &&& reply(u, fed_prog(t, d), q) == reply(w, t, q)
        &&& next(u, fed_prog(t, d), q) == fed_prog(next(w, t, q), d)
    }
}

/// More steps do not change what questions come to.
pub open spec fn paced(w: StageOracle, u: StageOracle, d: Option<nat>) -> bool {
    &&& forall|t: Prog, q: StageAsk| #[trigger] paces(w, u, t, q, d)
    &&& forall|t: Prog, q: StageAsk| harmless(q) ==> lasted(#[trigger] reply(w, t, q))
    &&& forall|t: Prog, q: StageAsk| answers(q, #[trigger] reply(w, t, q))
}

spec fn same_out(a: Outcome, b: Outcome, t: Prog, d: Option<nat>) -> bool {
    !ran_out(a.r) ==> a.t.k.fuel <= t.k.fuel && b == (Outcome { r: a.r, t: fed_prog(a.t, d) })
}

spec fn same_done(a: StepOut, b: StepOut, t: Prog, d: Option<nat>) -> bool {
    !ran_out(a.r) ==> a.t.k.fuel <= t.k.fuel && b == (StepOut { r: a.r, t: fed_prog(a.t, d) })
}

spec fn same_args(a: ArgsOut, b: ArgsOut, t: Prog, d: Option<nat>) -> bool {
    !ran_out(a.r) ==> a.t.k.fuel <= t.k.fuel && b == (ArgsOut { r: a.r, t: fed_prog(a.t, d) })
}

spec fn same_call(a: CallOut, b: CallOut, t: Prog, d: Option<nat>) -> bool {
    !ran_out(a.r) ==> a.t.k.fuel <= t.k.fuel && b == (CallOut { r: a.r, t: fed_prog(a.t, d) })
}

spec fn same_answer(a: (StageSaid, Prog), b: (StageSaid, Prog), t: Prog, d: Option<nat>) -> bool {
    lasted(a.0) ==> a.1.k.fuel <= t.k.fuel && b == (a.0, fed_prog(a.1, d))
}

/// What a statement says.
spec fn stmt_of(s: Spanned) -> Stmt {
    *s.node
}

/// What a shared block holds.
spec fn block_of(v: Rc<Vec<Spanned>>) -> Vec<Spanned> {
    *v
}

/// Asks a question of the program with fewer steps, and of the one with more.
proof fn ask(w: StageOracle, u: StageOracle, t: Prog, q: StageAsk, d: Option<nat>) -> (r: Prog)
    requires
        paced(w, u, d),
        fits(t.k, d),
    ensures
        r == next(w, t, q),
        lasted(reply(w, t, q)) ==> r.k.fuel <= t.k.fuel && reply(u, fed_prog(t, d), q) == reply(
            w,
            t,
            q,
        ) && next(u, fed_prog(t, d), q) == fed_prog(r, d),
        harmless(q) ==> lasted(reply(w, t, q)),
        answers(q, reply(w, t, q)),
{
    assert(paces(w, u, t, q, d));
    assert(harmless(q) ==> lasted(reply(w, t, q)));
    assert(answers(q, reply(w, t, q)));
    next(w, t, q)
}

proof fn lemma_args(
    w: StageOracle,
    u: StageOracle,
    t: Prog,
    args: Vec<Arg>,
    i: int,
    done: Passed,
    d: Option<nat>,
)
    requires
        paced(w, u, d),
        fits(t.k, d),
    ensures
        same_args(
            st_args(w, t, args, i, done),
            st_args(u, fed_prog(t, d), args, i, done),
            t,
            d,
        ),
    decreases args@.len() - i,
{
    if 0 <= i < args@.len() {
        let q = StageAsk::Eval(args@[i].value);
        let t1 = ask(w, u, t, q, d);
        if let Ok(v) = said_value(reply(w, t, q)) {
            lemma_args(w, u, t1, args, i + 1, done.push((arg_label(args@[i]), v)), d);
        }
    }
}

proof fn lemma_defs(
    w: StageOracle,
    u: StageOracle,
    t: Prog,
    stmts: Vec<Spanned>,
    i: int,
    d: Option<nat>,
)
    requires
        paced(w, u, d),
        fits(t.k, d),
    ensures
        same_done(
            st_defs(w, t, stmts, i),
            st_defs(u, fed_prog(t, d), stmts, i),
            t,
            d,
        ),
    decreases stmts@.len() - i,
{
    if 0 <= i < stmts@.len() {
        if defines(stmt_of(stmts@[i])) {
            let q = StageAsk::Define(stmts@[i]);
            let t1 = ask(w, u, t, q, d);
            if said_done(reply(w, t, q)) is Ok {
                lemma_defs(w, u, t1, stmts, i + 1, d);
            }
        } else {
            lemma_defs(w, u, t, stmts, i + 1, d);
        }
    }
}

proof fn lemma_dead(
    w: StageOracle,
    u: StageOracle,
    c: Ctx,
    t: Prog,
    stmts: Vec<Spanned>,
    dead: Seq<int>,
    i: int,
    d: Option<nat>,
)
    requires
        paced(w, u, d),
        fits(t.k, d),
    ensures
        st_dead(w, c, t, stmts, dead, i).k.fuel <= t.k.fuel,
        st_dead(u, c, fed_prog(t, d), stmts, dead, i) == fed_prog(
            st_dead(w, c, t, stmts, dead, i),
            d,
        ),
    decreases dead.len() - i,
{
    if 0 <= i < dead.len() {
        let s = stmts@[dead[i]];
        let t1 = ask(w, u, t, StageAsk::Dead(assigned_name(s), place_of(c.in_main, s)), d);
        lemma_dead(w, u, c, t1, stmts, dead, i + 1, d);
    }
}

proof fn lemma_assigns(
    w: StageOracle,
    u: StageOracle,
    c: Ctx,
    t: Prog,
    top: bool,
    here: Option<Span>,
    stmts: Vec<Spanned>,
    run: Seq<int>,
    i: int,
    d: Option<nat>,
)
    requires
        paced(w, u, d),
        fits(t.k, d),
    ensures
        same_done(
            st_assigns(w, c, t, top, here, stmts, run, i),
            st_assigns(u, c, fed_prog(t, d), top, here, stmts, run, i),
            t,
            d,
        ),
    decreases run.len() - i,
{
    if 0 <= i < run.len() {
        let s = stmts@[run[i]];
        let name = assigned_name(s);
        let t1 = ask(w, u, t, StageAsk::At(place_of(c.in_main, s)), d);
        let t2 = if top {
            ask(w, u, t1, StageAsk::Given(name), d)
        } else {
            t1
        };
        let given = if top {
            said_given(reply(w, t1, StageAsk::Given(name)))
        } else {
            None
        };
        let q = StageAsk::Eval(assigned_value(s));
        match given {
            Some(v) => {
                let t4 = ask(w, u, t2, StageAsk::At(here), d);
                let t5 = ask(w, u, t4, StageAsk::Bind(name, v), d);
                lemma_assigns(w, u, c, t5, top, here, stmts, run, i + 1, d);
            },
            None => {
                let t3 = ask(w, u, t2, q, d);
                if lasted(reply(w, t2, q)) {
                    let t4 = ask(w, u, t3, StageAsk::At(here), d);
                }
                if let Ok(v) = said_value(reply(w, t2, q)) {
                    let t4 = ask(w, u, t3, StageAsk::At(here), d);
                    let t5 = ask(w, u, t4, StageAsk::Bind(name, v), d);
                    lemma_assigns(w, u, c, t5, top, here, stmts, run, i + 1, d);
                }
            },
        }
    }
}

proof fn lemma_locals(
    w: StageOracle,
    u: StageOracle,
    c: Ctx,
    t: Prog,
    top: bool,
    here: Option<Span>,
    stmts: Vec<Spanned>,
    d: Option<nat>,
)
    requires
        paced(w, u, d),
        fits(t.k, d),
    ensures
        same_done(
            st_locals(w, c, t, top, here, stmts),
            st_locals(u, c, fed_prog(t, d), top, here, stmts),
            t,
            d,
        ),
{
    lemma_defs(w, u, t, stmts, 0, d);
    let x = st_defs(w, t, stmts, 0);
    if x.r is Ok {
        let dead = overwritten(stmts@, stmts@.len() as int);
        lemma_dead(w, u, c, x.t, stmts, dead, 0, d);
        let t1 = st_dead(w, c, x.t, stmts, dead, 0);
        lemma_assigns(w, u, c, t1, top, here, stmts, evaluated(stmts@), 0, d);
    }
}

proof fn lemma_stmts(
    m: Reading,
    w: StageOracle,
    u: StageOracle,
    c: Ctx,
    t: Prog,
    top: bool,
    here: Option<Span>,
    stmts: Vec<Spanned>,
    d: Option<nat>,
)
    requires
        paced(w, u, d),
        fits(t.k, d),
    ensures
        same_out(
            st_stmts(m, w, c, t, top, here, stmts),
            st_stmts(m, u, c, fed_prog(t, d), top, here, stmts),
            t,
            d,
        ),
    decreases stmts, 3int, 0int, 0int,
{
    if has_splice(stmts@) {
        let t1 = ask(w, u, t, StageAsk::Spliced(stmts), d);
    } else {
        lemma_locals(w, u, c, t, top, here, stmts, d);
        let l = st_locals(w, c, t, top, here, stmts);
        if l.r is Ok {
            lemma_geoms(m, w, u, c, l.t, here, stmts, 0, Seq::empty(), d);
        }
    }
}

proof fn lemma_geoms(
    m: Reading,
    w: StageOracle,
    u: StageOracle,
    c: Ctx,
    t: Prog,
    here: Option<Span>,
    stmts: Vec<Spanned>,
    i: int,
    done: Seq<Tree>,
    d: Option<nat>,
)
    requires
        paced(w, u, d),
        fits(t.k, d),
    ensures
        same_out(
            st_geoms(m, w, c, t, here, stmts, i, done),
            st_geoms(m, u, c, fed_prog(t, d), here, stmts, i, done),
            t,
            d,
        ),
    decreases stmts, 2int, stmts@.len() - i, 0int,
{
    if 0 <= i < stmts@.len() {
        let s = stmts@[i];
        if is_local(stmt_of(s)) {
            lemma_geoms(m, w, u, c, t, here, stmts, i + 1, done, d);
        } else {
            let place = place_of(c.in_main, s);
            let t1 = ask(w, u, t, StageAsk::At(place), d);
            lemma_geom(m, w, u, c, t1, place, site_of(c, s), stmt_of(s), d);
            let g = st_geom(m, w, c, t1, place, site_of(c, s), stmt_of(s));
            if !ran_out(g.r) {
                let t2 = ask(w, u, g.t, StageAsk::At(here), d);
            }
            if let Ok(v) = g.r {
                let t2 = ask(w, u, g.t, StageAsk::At(here), d);
                lemma_geoms(m, w, u, c, t2, here, stmts, i + 1, done + v, d);
            }
        }
    }
}

proof fn lemma_inner(
    m: Reading,
    w: StageOracle,
    u: StageOracle,
    c: Ctx,
    t: Prog,
    here: Option<Span>,
    stmts: Vec<Spanned>,
    d: Option<nat>,
)
    requires
        paced(w, u, d),
        fits(t.k, d),
    ensures
        same_out(
            st_inner(m, w, c, t, here, stmts),
            st_inner(m, u, c, fed_prog(t, d), here, stmts),
            t,
            d,
        ),
    decreases stmts, 4int, 0int, 0int,
{
    let t1 = ask(w, u, t, StageAsk::Enter, d);
    lemma_stmts(m, w, u, c, t1, false, here, stmts, d);
    let g = st_stmts(m, w, c, t1, false, here, stmts);
    if !ran_out(g.r) {
        let t2 = ask(w, u, g.t, StageAsk::Leave, d);
    }
}

proof fn lemma_lets(
    w: StageOracle,
    u: StageOracle,
    t: Prog,
    list: Vec<Binding>,
    i: int,
    d: Option<nat>,
)
    requires
        paced(w, u, d),
        fits(t.k, d),
    ensures
        same_done(
            st_lets(w, t, list, i),
            st_lets(u, fed_prog(t, d), list, i),
            t,
            d,
        ),
    decreases list@.len() - i,
{
    if 0 <= i < list@.len() {
        let q = StageAsk::Eval(list@[i].value);
        let t1 = ask(w, u, t, q, d);
        if let Ok(v) = said_value(reply(w, t, q)) {
            let t2 = ask(w, u, t1, StageAsk::Bind(list@[i].name@, v), d);
            lemma_lets(w, u, t2, list, i + 1, d);
        }
    }
}

proof fn lemma_geom(
    m: Reading,
    w: StageOracle,
    u: StageOracle,
    c: Ctx,
    t: Prog,
    here: Option<Span>,
    site: Option<SourceSpan>,
    s: Stmt,
    d: Option<nat>,
)
    requires
        paced(w, u, d),
        fits(t.k, d),
    ensures
        same_out(
            st_geom(m, w, c, t, here, site, s),
            st_geom(m, u, c, fed_prog(t, d), here, site, s),
            t,
            d,
        ),
    decreases s, 0int, 0int, 0int,
{
    match s {
        Stmt::Block(stmts) => {
            lemma_inner(m, w, u, c, t, here, stmts, d);
        },
        Stmt::If { cond, yes, no } => {
            let t1 = ask(w, u, t, StageAsk::Eval(cond), d);
            if said_value(reply(w, t, StageAsk::Eval(cond))) is Ok {
                lemma_inner(m, w, u, c, t1, here, yes, d);
                lemma_inner(m, w, u, c, t1, here, no, d);
            }
        },
        Stmt::For { bindings, body } => {
            lemma_for(m, w, u, c, t, here, bindings, body, 0, Seq::empty(), d);
        },
        Stmt::Let { bindings, body } => {
            let t1 = ask(w, u, t, StageAsk::Enter, d);
            lemma_lets(w, u, t1, bindings, 0, d);
            let l = st_lets(w, t1, bindings, 0);
            if l.r is Ok {
                lemma_stmts(m, w, u, c, l.t, false, here, body, d);
                let g = st_stmts(m, w, c, l.t, false, here, body);
                if !ran_out(g.r) {
                    let t2 = ask(w, u, g.t, StageAsk::Leave, d);
                }
            } else if !ran_out(l.r) {
                let t2 = ask(w, u, l.t, StageAsk::Leave, d);
            }
        },
        Stmt::ModuleCall { modifier, name, args, children } => {
            lemma_call(m, w, u, c, t, here, site, modifier, name@, args, block_of(children), d);
        },
        _ => {},
    }
}

proof fn lemma_for(
    m: Reading,
    w: StageOracle,
    u: StageOracle,
    c: Ctx,
    t: Prog,
    here: Option<Span>,
    bindings: Vec<Binding>,
    body: Vec<Spanned>,
    b: int,
    done: Seq<Tree>,
    d: Option<nat>,
)
    requires
        paced(w, u, d),
        fits(t.k, d),
    ensures
        same_out(
            st_for(m, w, c, t, here, bindings, body, b, done),
            st_for(m, u, c, fed_prog(t, d), here, bindings, body, b, done),
            t,
            d,
        ),
    decreases body, 5int, bindings@.len() - b, 0int,
{
    if b < 0 || b >= bindings@.len() {
        lemma_inner(m, w, u, c, t, here, body, d);
    } else {
        let q = StageAsk::Eval(bindings@[b].value);
        let t1 = ask(w, u, t, q, d);
        if let Ok(v) = said_value(reply(w, t, q)) {
            if let Some(values) = iterated(m, v) {
                lemma_each(m, w, u, c, t1, here, bindings, body, b, values, 0, done, d);
            }
        }
    }
}

proof fn lemma_each(
    m: Reading,
    w: StageOracle,
    u: StageOracle,
    c: Ctx,
    t: Prog,
    here: Option<Span>,
    bindings: Vec<Binding>,
    body: Vec<Spanned>,
    b: int,
    values: Seq<Val>,
    i: int,
    done: Seq<Tree>,
    d: Option<nat>,
)
    requires
        paced(w, u, d),
        fits(t.k, d),
    ensures
        same_out(
            st_each(m, w, c, t, here, bindings, body, b, values, i, done),
            st_each(m, u, c, fed_prog(t, d), here, bindings, body, b, values, i, done),
            t,
            d,
        ),
    decreases body, 5int, bindings@.len() - b - 1, values.len() - i + 1,
{
    if 0 <= i < values.len() && 0 <= b < bindings@.len() {
        let t1 = ask(w, u, t, StageAsk::Burn, d);
        if said_done(reply(w, t, StageAsk::Burn)) is Ok {
            let t2 = ask(w, u, t1, StageAsk::Enter, d);
            let t3 = ask(w, u, t2, StageAsk::Bind(bindings@[b].name@, values[i]), d);
            lemma_for(m, w, u, c, t3, here, bindings, body, b + 1, done, d);
            let g = st_for(m, w, c, t3, here, bindings, body, b + 1, done);
            if !ran_out(g.r) {
                let t4 = ask(w, u, g.t, StageAsk::Leave, d);
            }
            if let Ok(v) = g.r {
                let t4 = ask(w, u, g.t, StageAsk::Leave, d);
                lemma_each(m, w, u, c, t4, here, bindings, body, b, values, i + 1, v, d);
            }
        }
    }
}

proof fn lemma_meet(
    m: Reading,
    w: StageOracle,
    u: StageOracle,
    c: Ctx,
    t: Prog,
    here: Option<Span>,
    args: Vec<Arg>,
    children: Vec<Spanned>,
    a: int,
    done: Seq<Tree>,
    d: Option<nat>,
)
    requires
        paced(w, u, d),
        fits(t.k, d),
    ensures
        same_out(
            st_meet(m, w, c, t, here, args, children, a, done),
            st_meet(m, u, c, fed_prog(t, d), here, args, children, a, done),
            t,
            d,
        ),
    decreases children, 5int, args@.len() - a, 0int,
{
    if a < 0 || a >= args@.len() {
        lemma_inner(m, w, u, c, t, here, children, d);
    } else {
        let q = StageAsk::Eval(args@[a].value);
        let t1 = ask(w, u, t, q, d);
        if let Ok(v) = said_value(reply(w, t, q)) {
            if let Some(values) = iterated(m, v) {
                lemma_meet_each(m, w, u, c, t1, here, args, children, a, values, 0, done, d);
            }
        }
    }
}

proof fn lemma_meet_each(
    m: Reading,
    w: StageOracle,
    u: StageOracle,
    c: Ctx,
    t: Prog,
    here: Option<Span>,
    args: Vec<Arg>,
    children: Vec<Spanned>,
    a: int,
    values: Seq<Val>,
    i: int,
    done: Seq<Tree>,
    d: Option<nat>,
)
    requires
        paced(w, u, d),
        fits(t.k, d),
    ensures
        same_out(
            st_meet_each(m, w, c, t, here, args, children, a, values, i, done),
            st_meet_each(m, u, c, fed_prog(t, d), here, args, children, a, values, i, done),
            t,
            d,
        ),
    decreases children, 5int, args@.len() - a - 1, values.len() - i + 1,
{
    if 0 <= i < values.len() && 0 <= a < args@.len() {
        let t1 = ask(w, u, t, StageAsk::Burn, d);
        if said_done(reply(w, t, StageAsk::Burn)) is Ok {
            let t2 = ask(w, u, t1, StageAsk::Enter, d);
            let t3 = match arg_label(args@[a]) {
                Some(name) => ask(w, u, t2, StageAsk::Bind(name, values[i]), d),
                None => t2,
            };
            lemma_meet(m, w, u, c, t3, here, args, children, a + 1, done, d);
            let g = st_meet(m, w, c, t3, here, args, children, a + 1, done);
            if !ran_out(g.r) {
                let t4 = ask(w, u, g.t, StageAsk::Leave, d);
            }
            if let Ok(v) = g.r {
                let t4 = ask(w, u, g.t, StageAsk::Leave, d);
                lemma_meet_each(m, w, u, c, t4, here, args, children, a, values, i + 1, v, d);
            }
        }
    }
}

proof fn lemma_fineness(w: StageOracle, u: StageOracle, t: Prog, d: Option<nat>)
    requires
        paced(w, u, d),
        fits(t.k, d),
    ensures
        asked_around(w, t).k.fuel <= t.k.fuel,
        asked_around(u, fed_prog(t, d)) == fed_prog(asked_around(w, t), d),
        forall|e: Env| #[trigger]
            st_fineness(u, fed_prog(t, d), e) == st_fineness(w, t, e),
{
    let t1 = ask(w, u, t, StageAsk::Around("$fn"@), d);
    let t2 = ask(w, u, t1, StageAsk::Around("$fa"@), d);
    let t3 = ask(w, u, t2, StageAsk::Around("$fs"@), d);
}

proof fn lemma_color(
    m: Reading,
    w: StageOracle,
    u: StageOracle,
    t: Prog,
    e: Env,
    child: Tree,
    d: Option<nat>,
)
    requires
        paced(w, u, d),
        fits(t.k, d),
    ensures
        same_call(
            st_color(m, w, t, e, child),
            st_color(m, u, fed_prog(t, d), e, child),
            t,
            d,
        ),
{
    let alpha = crate::modules::number_arg(e, "alpha"@);
    if let Some(v) = found(e, "c"@) {
        let t1 = ask(w, u, t, StageAsk::Tint(v, alpha), d);
        let t2 = ask(w, u, t1, StageAsk::UnknownColor(v), d);
    }
}

proof fn lemma_moved(
    m: Reading,
    w: StageOracle,
    u: StageOracle,
    t: Prog,
    k: Known,
    args: Vec<Arg>,
    child: Tree,
    d: Option<nat>,
)
    requires
        paced(w, u, d),
        fits(t.k, d),
    ensures
        same_call(
            st_moved(m, w, t, k, args, child),
            st_moved(m, u, fed_prog(t, d), k, args, child),
            t,
            d,
        ),
{
    lemma_args(w, u, t, args, 0, Seq::empty(), d);
}

proof fn lemma_dispatch(
    m: Reading,
    w: StageOracle,
    u: StageOracle,
    c: Ctx,
    t: Prog,
    here: Option<Span>,
    name: Seq<char>,
    args: Vec<Arg>,
    children: Vec<Spanned>,
    d: Option<nat>,
)
    requires
        paced(w, u, d),
        fits(t.k, d),
    ensures
        same_call(
            st_dispatch(m, w, c, t, here, name, args, children),
            st_dispatch(m, u, c, fed_prog(t, d), here, name, args, children),
            t,
            d,
        ),
    decreases children, 6int, 0int, 0int,
{
    let k = known(name);
    match k {
        Known::Solid(_) => {
            lemma_args(w, u, t, args, 0, Seq::empty(), d);
            let a = st_args(w, t, args, 0, Seq::empty());
            if a.r is Ok {
                lemma_fineness(w, u, a.t, d);
            }
        },
        Known::Wrap(_) => {
            lemma_args(w, u, t, args, 0, Seq::empty(), d);
            let a = st_args(w, t, args, 0, Seq::empty());
            if a.r is Ok {
                lemma_fineness(w, u, a.t, d);
                lemma_inner(m, w, u, c, asked_around(w, a.t), here, children, d);
            }
        },
        Known::Color => {
            lemma_args(w, u, t, args, 0, Seq::empty(), d);
            let a = st_args(w, t, args, 0, Seq::empty());
            if let Ok(p) = a.r {
                lemma_inner(m, w, u, c, a.t, here, children, d);
                let g = st_inner(m, w, c, a.t, here, children);
                if let Ok(v) = g.r {
                    lemma_color(m, w, u, g.t, env_of(k, p), grouped_tree(v), d);
                }
            }
        },
        Known::IntersectionFor => {
            lemma_meet(m, w, u, c, t, here, args, children, 0, Seq::empty(), d);
        },
        Known::Echo => {
            lemma_args(w, u, t, args, 0, Seq::empty(), d);
            let a = st_args(w, t, args, 0, Seq::empty());
            if let Ok(p) = a.r {
                let t1 = ask(w, u, a.t, StageAsk::Echo(p), d);
                lemma_inner(m, w, u, c, t1, here, children, d);
            }
        },
        Known::Assert => {
            let t1 = ask(w, u, t, StageAsk::Check(args), d);
            if said_value(reply(w, t, StageAsk::Check(args))) is Ok {
                lemma_inner(m, w, u, c, t1, here, children, d);
            }
        },
        Known::Other => {
            let t1 = ask(w, u, t, (StageAsk::Call { name, args, children }), d);
        },
        _ => {
            lemma_inner(m, w, u, c, t, here, children, d);
            let g = st_inner(m, w, c, t, here, children);
            if let Ok(v) = g.r {
                lemma_moved(m, w, u, g.t, k, args, grouped_tree(v), d);
            }
        },
    }
}

proof fn lemma_call(
    m: Reading,
    w: StageOracle,
    u: StageOracle,
    c: Ctx,
    t: Prog,
    here: Option<Span>,
    site: Option<SourceSpan>,
    modifier: Option<Modifier>,
    name: Seq<char>,
    args: Vec<Arg>,
    children: Vec<Spanned>,
    d: Option<nat>,
)
    requires
        paced(w, u, d),
        fits(t.k, d),
    ensures
        same_out(
            st_call(m, w, c, t, here, site, modifier, name, args, children),
            st_call(m, u, c, fed_prog(t, d), here, site, modifier, name, args, children),
            t,
            d,
        ),
    decreases children, 7int, 0int, 0int,
{
    lemma_dispatch(m, w, u, c, t, here, name, args, children, d);
    let x = st_dispatch(m, w, c, t, here, name, args, children);
    if let Ok((node, def)) = x.r {
        let t1 = ask(w, u, x.t, StageAsk::Root(marked(modifier, site, name, node, def)), d);
    }
}

// ---- the surrounding program -----------------------------------------------------------------------

proof fn lemma_values(
    m: Reading,
    v: Level,
    t: Prog,
    args: Vec<Arg>,
    i: int,
    done: Passed,
    d: Option<nat>,
)
    requires
        v.limited,
        fits(t.k, d),
    ensures
        !ran_out(values_passed(m, v, t, args, i, done).0) ==> {
            let a = values_passed(m, v, t, args, i, done);
            &&& a.1.k.fuel <= t.k.fuel
            &&& values_passed(m, loosened(v, d), fed_prog(t, d), args, i, done) == (a.0, fed_prog(a.1, d))
        },
    decreases args@.len() - i,
{
    if 0 <= i < args@.len() {
        lemma_expr(m, v, t, args@[i].value, d);
        let x = ev(m, around(m, v, t), t.k, no_names(), args@[i].value);
        if let Ok(val) = x.r {
            lemma_values(
                m,
                v,
                Prog { k: x.k, ..t },
                args,
                i + 1,
                done.push((arg_label(args@[i]), val)),
                d,
            );
        }
    }
}

proof fn lemma_expr(m: Reading, v: Level, t: Prog, e: Expr, d: Option<nat>)
    requires
        v.limited,
        fits(t.k, d),
    ensures
        same_value(
            ev(m, around(m, v, t), t.k, no_names(), e),
            ev(m, around(m, loosened(v, d), fed_prog(t, d)), fed(t.k, d), no_names(), e),
            t.k,
            d,
        ),
{
    lemma_steady(m, v.depth, MAX_CALL_DEPTH as nat, standing(t), d);
    assert(standing(fed_prog(t, d)) == standing(t));
    lemma_ev(
        m,
        around(m, v, t),
        around(m, loosened(v, d), fed_prog(t, d)),
        t.k,
        no_names(),
        e,
        d,
    );
}

proof fn lemma_listing(
    o: FileOracle,
    v: Level,
    t: Prog,
    stmts: Seq<Spanned>,
    inner: bool,
    d: Option<nat>,
)
    requires
        fits(t.k, d),
    ensures
        listing(o, v, t, stmts, inner).t.k.fuel == t.k.fuel,
        listing(o, loosened(v, d), fed_prog(t, d), stmts, inner) == (Listing {
            r: listing(o, v, t, stmts, inner).r,
            t: fed_prog(listing(o, v, t, stmts, inner).t, d),
        }),
{
    reveal(listing);
}

proof fn lemma_spliced(
    m: Reading,
    o: FileOracle,
    v: Level,
    t: Prog,
    stmts: Seq<Spanned>,
    d: Option<nat>,
)
    requires
        v.limited,
        fits(t.k, d),
    ensures
        same_answer(
            ran_spliced(m, o, v, t, stmts),
            ran_spliced(m, o, loosened(v, d), fed_prog(t, d), stmts),
            t,
            d,
        ),
    decreases v.nesting, v.depth, v.frames, 0int,
{
    reveal(stage_world);
    if v.nesting > 0 {
        let v1 = Level { nesting: (v.nesting - 1) as nat, ..v };
        lemma_listing(o, v, t, stmts, false, d);
        let l = listing(o, v, t, stmts, false);
        if let Ok(list) = l.r {
            lemma_paced(m, o, v1, d);
            lemma_stmts(
                m,
                stage_world(m, o, v1),
                stage_world(m, o, loosened(v1, d)),
                Ctx { in_main: t.in_main, detailed: v.detailed },
                l.t,
                t.scopes.open.len() == 1,
                t.here,
                list,
                d,
            );
        }
    }
}

proof fn lemma_used(m: Reading, o: FileOracle, v: Level, t: Prog, path: Seq<char>, d: Option<nat>)
    requires
        v.limited,
        fits(t.k, d),
    ensures
        same_answer(used(m, o, v, t, path), used(m, o, loosened(v, d), fed_prog(t, d), path), t, d),
    decreases v.nesting, v.depth, v.frames, 0int,
{
    reveal(stage_world);
    if let FileSaid::Loaded(Some(f)) = o(t.asked, FileAsk::Load(path, t.dir)) {
        let n = file_number(v.detailed, t.sources, f.key);
        if let FileSaid::Parsed(Ok(inside)) = o(t.asked + 1, FileAsk::Parse(f.source, n.0)) {
            if v.nesting > 0 && !t.loading.contains(f.key) {
                let v1 = Level { nesting: (v.nesting - 1) as nat, ..v };
                let w = stage_world(m, o, v1);
                let u = stage_world(m, o, loosened(v1, d));
                let c = Ctx { in_main: false, detailed: v.detailed };
                let t1 = Prog {
                    scopes: begun(t.scopes, seq![t.scopes.open[0]], Seq::empty()),
                    dir: f.dir,
                    in_main: false,
                    loading: t.loading.push(f.key),
                    asked: t.asked + 2,
                    sources: n.1,
                    ..t
                };
                lemma_listing(o, v, t1, inside, true, d);
                let l = listing(o, v, t1, inside, true);
                assert(same_done(
                    file_ran(w, c, l, t.here),
                    file_ran(u, c, listing(o, loosened(v, d), fed_prog(t1, d), inside, true), t.here),
                    t1,
                    d,
                )) by {
                    reveal(file_ran);
                    if let Ok(list) = l.r {
                        lemma_paced(m, o, v1, d);
                        lemma_locals(w, u, c, l.t, false, t.here, list, d);
                    }
                }
            }
        }
    }
}

proof fn lemma_body_ran(
    m: Reading,
    w: StageOracle,
    u: StageOracle,
    detailed: bool,
    t: Prog,
    x: ModuleView,
    names: Names,
    children: Vec<Spanned>,
    d: Option<nat>,
)
    requires
        paced(w, u, d),
        fits(t.k, d),
    ensures
        same_out(
            body_ran(m, w, detailed, t, x, names, children),
            body_ran(m, u, detailed, fed_prog(t, d), x, names, children),
            t,
            d,
        ),
{
    reveal(body_ran);
    let inner = Prog {
        scopes: begun(t.scopes, x.open, own_names(m, names, children, t.running.len())),
        frames: t.frames.push(Given { kids: children, open: t.scopes.open, main: t.in_main }),
        in_main: x.main,
        ..t
    };
    lemma_stmts(m, w, u, Ctx { in_main: x.main, detailed }, inner, false, t.here, x.body, d);
}

proof fn lemma_instantiated(
    m: Reading,
    o: FileOracle,
    v: Level,
    t: Prog,
    name: Seq<char>,
    x: ModuleView,
    args: Vec<Arg>,
    children: Vec<Spanned>,
    d: Option<nat>,
)
    requires
        v.limited,
        fits(t.k, d),
    ensures
        same_answer(
            instantiated(m, o, v, t, name, x, args, children),
            instantiated(m, o, loosened(v, d), fed_prog(t, d), name, x, args, children),
            t,
            d,
        ),
    decreases v.nesting, v.depth, v.frames, 0int,
{
    reveal(stage_world);
    if v.depth > 0 {
        let v1 = Level { depth: (v.depth - 1) as nat, ..v };
        let v2 = Level { frames: v.frames + 1, ..v1 };
        let t0 = Prog { running: t.running.push(name), ..t };
        lemma_values(m, v1, t0, args, 0, Seq::empty(), d);
        let a = values_passed(m, v1, t0, args, 0, Seq::empty());
        if let Ok(p) = a.0 {
            let place = Prog { scopes: ScopesView { open: x.open, ..a.1.scopes }, ..a.1 };
            let w = around(m, v1, place);
            let u = around(m, loosened(v1, d), fed_prog(place, d));
            lemma_steady(m, v1.depth, MAX_CALL_DEPTH as nat, standing(place), d);
            assert(standing(fed_prog(place, d)) == standing(place));
            lemma_bind(m, w, u, a.1.k, Seq::empty(), x.params, p, d);
            let n = ev_bind(m, w, a.1.k, Seq::empty(), x.params, p);
            if let Ok(names) = n.r {
                lemma_paced(m, o, v2, d);
                lemma_body_ran(
                    m,
                    stage_world(m, o, v2),
                    stage_world(m, o, loosened(v2, d)),
                    v.detailed,
                    Prog { k: n.k, ..a.1 },
                    x,
                    names,
                    children,
                    d,
                );
            }
        }
    }
}

proof fn lemma_picked(
    m: Reading,
    w: StageOracle,
    u: StageOracle,
    c: Ctx,
    t: Prog,
    here: Option<Span>,
    slots: Seq<Spanned>,
    numbers: Seq<u64>,
    i: int,
    done: Seq<Tree>,
    d: Option<nat>,
)
    requires
        paced(w, u, d),
        fits(t.k, d),
    ensures
        same_out(
            picked(m, w, c, t, here, slots, numbers, i, done),
            picked(m, u, c, fed_prog(t, d), here, slots, numbers, i, done),
            t,
            d,
        ),
    decreases numbers.len() - i,
{
    if 0 <= i < numbers.len() {
        if numbers[i] >= slots.len() {
            lemma_picked(m, w, u, c, t, here, slots, numbers, i + 1, done, d);
        } else {
            let s = slots[numbers[i] as int];
            assert(same_out(
                child_drawn(m, w, c, t, here, s),
                child_drawn(m, u, c, fed_prog(t, d), here, s),
                t,
                d,
            )) by {
                reveal(child_drawn);
                let site = if c.detailed {
                    Some(whole_span(s))
                } else {
                    None
                };
                lemma_geom(m, w, u, c, t, here, site, stmt_of(s), d);
            }
            let g = child_drawn(m, w, c, t, here, s);
            if let Ok(list) = g.r {
                lemma_picked(m, w, u, c, g.t, here, slots, numbers, i + 1, done + list, d);
            }
        }
    }
}

proof fn lemma_drew(
    m: Reading,
    w: StageOracle,
    u: StageOracle,
    c: Ctx,
    t: Prog,
    kids: Vec<Spanned>,
    which: Option<Seq<u64>>,
    d: Option<nat>,
)
    requires
        paced(w, u, d),
        fits(t.k, d),
    ensures
        same_out(
            drew(m, w, c, t, kids, which),
            drew(m, u, c, fed_prog(t, d), kids, which),
            t,
            d,
        ),
{
    reveal(drew);
    match which {
        None => {
            lemma_stmts(m, w, u, c, t, false, t.here, kids, d);
        },
        Some(numbers) => {
            lemma_locals(w, u, c, t, false, t.here, kids, d);
            let l = st_locals(w, c, t, false, t.here, kids);
            if l.r is Ok {
                lemma_picked(
                    m,
                    w,
                    u,
                    c,
                    l.t,
                    t.here,
                    slots_below(kids, kids@.len() as int),
                    numbers,
                    0,
                    Seq::empty(),
                    d,
                );
            }
        },
    }
}

proof fn lemma_chosen(m: Reading, v: Level, t: Prog, args: Vec<Arg>, d: Option<nat>)
    requires
        v.limited,
        fits(t.k, d),
    ensures
        !ran_out(chosen(m, v, t, args).0) ==> {
            let a = chosen(m, v, t, args);
            &&& a.1.k.fuel <= t.k.fuel
            &&& a.1 == (Prog { k: a.1.k, ..t })
            &&& chosen(m, loosened(v, d), fed_prog(t, d), args) == (a.0, fed_prog(a.1, d))
        },
{
    if args@.len() > 0 {
        if let Some(i) = first_unnamed(args@, 0) {
            if 0 <= i < args@.len() {
                lemma_expr(m, v, t, args@[i].value, d);
            }
        }
    }
}

proof fn lemma_drawn_children(
    m: Reading,
    o: FileOracle,
    v: Level,
    t: Prog,
    args: Vec<Arg>,
    d: Option<nat>,
)
    requires
        v.limited,
        fits(t.k, d),
    ensures
        same_answer(
            drawn_children(m, o, v, t, args),
            drawn_children(m, o, loosened(v, d), fed_prog(t, d), args),
            t,
            d,
        ),
    decreases v.nesting, v.depth, v.frames, 0int,
{
    reveal(stage_world);
    if v.frames > 0 && t.frames.len() > 0 {
        let f = t.frames.last();
        let v1 = Level { frames: (v.frames - 1) as nat, ..v };
        lemma_chosen(m, v, t, args, d);
        let x = chosen(m, v, t, args);
        if let Ok(which) = x.0 {
            lemma_paced(m, o, v1, d);
            let inner = Prog {
                scopes: begun(x.1.scopes, f.open, Seq::empty()),
                frames: t.frames.drop_last(),
                in_main: f.main,
                ..x.1
            };
            lemma_drew(
                m,
                stage_world(m, o, v1),
                stage_world(m, o, loosened(v1, d)),
                Ctx { in_main: f.main, detailed: v.detailed },
                inner,
                f.kids,
                which,
                d,
            );
        }
    }
}

proof fn lemma_module_call(
    m: Reading,
    o: FileOracle,
    v: Level,
    t: Prog,
    name: Seq<char>,
    args: Vec<Arg>,
    children: Vec<Spanned>,
    d: Option<nat>,
)
    requires
        v.limited,
        fits(t.k, d),
    ensures
        same_answer(
            module_call(m, o, v, t, name, args, children),
            module_call(m, o, loosened(v, d), fed_prog(t, d), name, args, children),
            t,
            d,
        ),
    decreases v.nesting, v.depth, v.frames, 1int,
{
    if name == "children"@ {
        lemma_drawn_children(m, o, v, t, args, d);
    } else if resource_names(name) is Some {
        lemma_values(m, v, t, args, 0, Seq::empty(), d);
        reveal(resource_drawn);
    } else if let Some(id) = module_of(t.scopes.layers, t.scopes.open, name) {
        if id < t.modules.len() {
            lemma_instantiated(m, o, v, t, name, t.modules[id as int], args, children, d);
        }
    }
}

proof fn lemma_staged(m: Reading, o: FileOracle, v: Level, t: Prog, q: StageAsk, d: Option<nat>)
    requires
        v.limited,
        fits(t.k, d),
    ensures
        same_answer(staged(m, o, v, t, q), staged(m, o, loosened(v, d), fed_prog(t, d), q), t, d),
    decreases v.nesting, v.depth, v.frames, 2int,
{
    match q {
        StageAsk::Eval(e) => {
            lemma_expr(m, v, t, e, d);
        },
        StageAsk::Check(args) => {
            lemma_steady(m, v.depth, MAX_CALL_DEPTH as nat, standing(t), d);
            assert(standing(fed_prog(t, d)) == standing(t));
            lemma_assert(
                m,
                around(m, v, t),
                around(m, loosened(v, d), fed_prog(t, d)),
                t.k,
                no_names(),
                args,
                d,
            );
        },
        StageAsk::Define(s) => {
            if let Some(path) = use_path(s) {
                lemma_used(m, o, v, t, path, d);
            }
        },
        StageAsk::Spliced(stmts) => {
            lemma_spliced(m, o, v, t, stmts@, d);
        },
        StageAsk::Call { name, args, children } => {
            lemma_module_call(m, o, v, t, name, args, children, d);
        },
        _ => {},
    }
}

/// The path that a statement imports.
spec fn use_path(s: Spanned) -> Option<Seq<char>> {
    match *s.node {
        Stmt::Use { path } => Some(path@),
        _ => None,
    }
}

/// Every answer is of the kind that the question asks for.
proof fn lemma_answers(m: Reading, o: FileOracle, v: Level, t: Prog, q: StageAsk)
    ensures
        answers(q, staged(m, o, v, t, q).0),
{
    reveal(stage_world);
    reveal(resource_drawn);
    match q {
        StageAsk::Define(d) => {
            if let Some(path) = use_path(d) {
                assert(used(m, o, v, t, path).0 is Done);
            }
        },
        StageAsk::Spliced(stmts) => {
            assert(ran_spliced(m, o, v, t, stmts@).0 is Nodes);
        },
        StageAsk::Call { name, args, children } => {
            assert(drawn_children(m, o, v, t, args).0 is Called);
            assert(resource_names(name) is Some ==> drawn_resource(
                m,
                o,
                v,
                t,
                name,
                resource_names(name)->0,
                args,
            ).0 is Called);
            if let Some(id) = module_of(t.scopes.layers, t.scopes.open, name) {
                if id < t.modules.len() {
                    assert(instantiated(m, o, v, t, name, t.modules[id as int], args, children).0
                        is Called);
                }
            }
            assert(module_call(m, o, v, t, name, args, children).0 is Called);
        },
        _ => {},
    }
}

/// More steps do not change what the questions of statements come to.
proof fn lemma_paced(m: Reading, o: FileOracle, v: Level, d: Option<nat>)
    requires
        v.limited,
    ensures
        paced(stage_world(m, o, v), stage_world(m, o, loosened(v, d)), d),
    decreases v.nesting, v.depth, v.frames, 3int,
{
    reveal(stage_world);
    let w = stage_world(m, o, v);
    let u = stage_world(m, o, loosened(v, d));
    assert forall|t: Prog, q: StageAsk| answers(q, #[trigger] reply(w, t, q)) by {
        lemma_answers(m, o, v, t, q);
    }
    assert forall|t: Prog, q: StageAsk| #[trigger] paces(w, u, t, q, d) by {
        if fits(t.k, d) {
            lemma_staged(m, o, v, t, q, d);
        }
    }
}

/// A program that does not run out of its budget of steps draws the same within
/// any larger one, or fails with the same error, and prints and warns of the same.
pub proof fn law_larger_program_budget(
    m: Reading,
    o: FileOracle,
    how: Manner,
    program: Vec<Spanned>,
    more: nat,
)
    requires
        how.fuel + more < u64::MAX,
        !ran_out(ran_program(m, o, how, program).r),
    ensures
        ({
            let a = ran_program(m, o, how, program);
            let b = ran_program(
                m,
                o,
                (Manner { fuel: (how.fuel + more) as u64, ..how }),
                program,
            );
            &&& b.r == a.r
            &&& a.t.k.fuel <= how.fuel
            &&& b.t == fed_prog(a.t, Some(more))
        }),
{
    let large = Manner { fuel: (how.fuel + more) as u64, ..how };
    lemma_program(m, o, how, large, program, Some(more));
}

/// A program that does not run out of its budget of steps draws the same where
/// steps are not counted, or fails with the same error, and prints and warns of the
/// same.
pub proof fn law_program_budget_or_none(
    m: Reading,
    o: FileOracle,
    how: Manner,
    program: Vec<Spanned>,
)
    requires
        how.fuel < u64::MAX,
        !ran_out(ran_program(m, o, how, program).r),
    ensures
        ({
            let a = ran_program(m, o, how, program);
            let b = ran_program(m, o, (Manner { fuel: u64::MAX, ..how }), program);
            &&& b.r == a.r
            &&& b.t == fed_prog(a.t, None)
        }),
{
    let free = Manner { fuel: u64::MAX, ..how };
    lemma_program(m, o, how, free, program, None);
}

proof fn lemma_program(
    m: Reading,
    o: FileOracle,
    how: Manner,
    other: Manner,
    program: Vec<Spanned>,
    d: Option<nat>,
)
    requires
        how.fuel < u64::MAX,
        fits(at_first(how).k, d),
        other == (Manner { fuel: fed(at_first(how).k, d).fuel, ..how }),
        d is Some ==> other.fuel < u64::MAX,
    ensures
        same_out(
            ran_program(m, o, how, program),
            ran_program(m, o, other, program),
            at_first(how),
            d,
        ),
{
    reveal(ran_program);
    let t = at_first(how);
    assert(at_first(other) == fed_prog(t, d));
    assert(first_level(other) == loosened(first_level(how), d));
    lemma_paced(m, o, first_level(how), d);
    lemma_stmts(
        m,
        stage_world(m, o, first_level(how)),
        stage_world(m, o, first_level(other)),
        Ctx { in_main: true, detailed: how.detailed },
        t,
        true,
        None,
        program,
        d,
    );
}

} // verus!
