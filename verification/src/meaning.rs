//! What calling a function means: the tower of meanings that calls within calls
//! go down, one level for each call.

use crate::ast::{function_text, Expr, Param};
use crate::builtins::builtin_inside;
use crate::calls::{ev_bind, ev_loop};
use crate::diag::{NoteView, Span};
use crate::format::str_of;
use crate::num::Reading;
use crate::resources::MAX_CALL_DEPTH;
use crate::scopes::{dynamic_value, function_of, lexical_value, ScopesView};
use crate::sem::{
    found, is_special, ClosureView, Env, Ev, EvNames, Names, Oracle, Passed, Query, Store,
};
use crate::value::Val;
use crate::viewport::echoed;
use crate::vm::{compiled_fn, halts, Code, Mach};
use crate::vmlaw::{at_start, is_own};
use vstd::prelude::*;

verus! {

/// Where an expression stands: the scopes and frames that are open, the names
/// that its closure was made with, the modules that run, and the statement that
/// runs.
pub ghost struct Site {
    pub scopes: ScopesView,
    pub locals: Env,
    pub running: Seq<Seq<char>>,
    pub here: Option<Span>,
}

/// The value of a name outside of the expression.
pub open spec fn outside_value(site: Site, name: Seq<char>) -> Val {
    let v = if is_special(name) {
        dynamic_value(site.scopes.dynamic, name)
    } else {
        match found(site.locals, name) {
            Some(v) => Some(v),
            None => lexical_value(site.scopes.layers, site.scopes.open, name),
        }
    };
    match v {
        Some(v) => v,
        None => Val::Undef,
    }
}

/// What surrounds an expression at a place, where `d` calls may still be nested,
/// and `b` bindings of arguments.
#[verifier::opaque]
pub open spec fn oracle(m: Reading, limited: bool, d: nat, b: nat, site: Site) -> Oracle
    decreases d, b, 3int,
{
    Oracle {
        func: |name: Seq<char>| function_of(site.scopes.layers, site.scopes.open, name),
        global: |name: Seq<char>| outside_value(site, name),
        answer: |k: Store, q: Query| answered(m, limited, d, b, site, k, q),
        limited,
    }
}

/// Some messages as warnings of the statement that runs.
pub open spec fn warned_at(w: Seq<NoteView>, messages: Seq<Seq<char>>, here: Option<Span>) -> Seq<NoteView> {
    w + messages.map_values(|t: Seq<char>| NoteView { message: t, span: here })
}

/// One more, as long as it can be counted.
pub open spec fn one_more(n: u64) -> u64 {
    if n == u64::MAX {
        n
    } else {
        (n + 1) as u64
    }
}

/// What a question of an expression comes to.
pub open spec fn answered(m: Reading, limited: bool, d: nat, b: nat, site: Site, k: Store, q: Query) -> Ev
    decreases d, b, 2int,
{
    match q {
        Query::Closure { f, args, specials } => called(m, limited, d, b, site, k, f, args, specials),
        Query::Builtin { name, args } => {
            let r = builtin_inside(m, k.texts, site.running, k.random, Seq::empty(), name, args);
            Ev {
                r: Ok(r.value),
                k: Store {
                    random: r.state,
                    warnings: warned_at(k.warnings, r.warnings, site.here),
                    ..k
                },
            }
        },
        Query::Close { params, body, env } => Ev {
            r: Ok(Val::Function(k.closures.len() as usize)),
            k: closed_over(m, k, params, body, site.scopes.open, site.locals + env, None),
        },
        Query::Echo(args) => Ev {
            r: Ok(Val::Undef),
            k: Store { echoes: k.echoes.push(echoed(m, k.texts, args)), ..k },
        },
        Query::Asserted => Ev {
            r: Ok(Val::Undef),
            k: Store { asserts: one_more(k.asserts), ..k },
        },
        Query::Text(v) => Ev { r: Ok(Val::Str(str_of(m, v, k.texts))), k },
    }
}

/// One more closure.
pub open spec fn closed_over(
    m: Reading,
    k: Store,
    params: Vec<Param>,
    body: Expr,
    open: Seq<usize>,
    locals: Env,
    name: Option<Seq<char>>,
) -> Store {
    Store {
        closures: k.closures.push(ClosureView { params, body, open, locals, name }),
        texts: k.texts.push(function_text(m, params, body)),
        ..k
    }
}

/// Where the body of a closure stands: in the scopes and with the names that it
/// was made with, but with the frames of its caller, and on top of them the
/// dynamic names that the calling expression has bound.
pub open spec fn inside(site: Site, c: ClosureView, specials: Env) -> Site {
    Site {
        scopes: ScopesView {
            open: c.open,
            dynamic: site.scopes.dynamic.push(specials),
            ..site.scopes
        },
        locals: c.locals,
        ..site
    }
}

/// The error of calls that are nested too deeply.
pub open spec fn too_deep() -> Seq<char> {
    "maximum call depth exceeded"@
}

/// What calling the closure `f` comes to: its arguments are bound, and its body
/// runs, in the place where the closure was made.
pub open spec fn called(
    m: Reading,
    limited: bool,
    d: nat,
    b: nat,
    site: Site,
    k: Store,
    f: usize,
    args: Passed,
    specials: Env,
) -> Ev
    decreases d, b, 1int,
{
    if f >= k.closures.len() {
        Ev { r: Ok(Val::Undef), k }
    } else {
        let c = k.closures[f as int];
        called_in(m, limited, d, b, inside(site, c, specials), k, f, c, args)
    }
}

/// The names that a call binds in the place where the body stands.
#[verifier::opaque]
pub open spec fn bound_names(m: Reading, o: Oracle, k: Store, params: Vec<Param>, args: Passed) -> EvNames {
    ev_bind(m, o, k, Seq::empty(), params, args)
}

/// What calling the closure `c`, whose number is `f`, comes to in the place where
/// its body stands.
pub open spec fn called_in(
    m: Reading,
    limited: bool,
    d: nat,
    b: nat,
    place: Site,
    k: Store,
    f: usize,
    c: ClosureView,
    args: Passed,
) -> Ev
    decreases d, b, 0int,
{
    if b == 0 {
        Ev { r: Err(too_deep()), k }
    } else {
        let n = bound_names(
            m,
            oracle(m, limited, d, (b - 1) as nat, place),
            k,
            c.params,
            args,
        );
        match n.r {
            Err(e) => Ev { r: Err(e), k: n.k },
            Ok(names) => if d == 0 {
                Ev { r: Err(too_deep()), k: n.k }
            } else {
                ran(
                    m,
                    oracle(m, limited, (d - 1) as nat, MAX_CALL_DEPTH as nat, place),
                    n.k,
                    f,
                    c,
                    names,
                )
            },
        }
    }
}

/// How a call goes where its names are bound.
pub proof fn lemma_called_in(
    m: Reading,
    limited: bool,
    d: nat,
    b: nat,
    place: Site,
    k: Store,
    f: usize,
    c: ClosureView,
    args: Passed,
    n: EvNames,
)
    requires
        b > 0,
        n == bound_names(m, oracle(m, limited, d, (b - 1) as nat, place), k, c.params, args),
    ensures
        called_in(m, limited, d, b, place, k, f, c, args) == (match n.r {
            Err(e) => Ev { r: Err(e), k: n.k },
            Ok(names) => if d == 0 {
                Ev { r: Err(too_deep()), k: n.k }
            } else {
                ran(
                    m,
                    oracle(m, limited, (d - 1) as nat, MAX_CALL_DEPTH as nat, place),
                    n.k,
                    f,
                    c,
                    names,
                )
            },
        }),
{
    reveal(oracle);
}

/// The slots of a compiled function: its parameters, and nothing else yet.
pub open spec fn filled(names: Names, params: Seq<Param>, n: int) -> Seq<Val> {
    Seq::new(
        n as nat,
        |i: int|
            if i < params.len() {
                match found(names.env, params[i].name@) {
                    Some(v) => v,
                    None => Val::Undef,
                }
            } else {
                Val::Undef
            },
    )
}

/// What the machine comes to.
pub open spec fn outcome(m: Reading, o: Oracle, ch: Code, own: bool, s: Mach) -> Ev {
    choose|e: Ev| halts(m, o, ch, own, s, e)
}

/// A parameter has the name.
pub open spec fn is_param(params: Seq<Param>, name: Seq<char>) -> bool {
    exists|j: int| 0 <= j < params.len() && (#[trigger] params[j]).name@ == name
}

/// Every parameter is bound, and no other name is.
pub open spec fn only_params(n: Names, params: Seq<Param>) -> bool {
    &&& n.specials.len() == 0
    &&& forall|i: int| 0 <= i < n.env.len() ==> is_param(params, (#[trigger] n.env[i]).0)
    &&& forall|j: int|
        0 <= j < params.len() ==> found(n.env, (#[trigger] params[j]).name@) is Some
}

/// What a closure with its names bound comes to: on the machine where it can be
/// compiled, else by evaluation. The machine has slots for parameters alone, so
/// that a call that gives names besides them is evaluated.
#[verifier::opaque]
pub open spec fn ran(m: Reading, o: Oracle, k: Store, f: usize, c: ClosureView, names: Names) -> Ev {
    match compiled_fn(c.params@, c.body, c.name) {
        Some(ch) => if only_params(names, c.params@) {
            outcome(
                m,
                o,
                ch,
                is_own(o, f, c.name),
                at_start(filled(names, c.params@, ch.n_locals), k, 0),
            )
        } else {
            ev_loop(m, o, k, names, f, c.params, c.body, 0)
        },
        None => ev_loop(m, o, k, names, f, c.params, c.body, 0),
    }
}

} // verus!
