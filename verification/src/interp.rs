//! The interpreter: what expressions run in, and calls.

use crate::ast::{format_function, Expr, Param};
use crate::blob::texts;
use crate::builtins::call_builtin_fn;
use crate::calls::{bind_params, scoped};
use crate::diag::{notes, NoteView, Span, Warning};
use crate::eval::{entries, find, passed, said, special, Entry, PassedArg, Scope};
use crate::meaning::{
    bound_names, called, called_in, closed_over, inside, lemma_called_in, oracle, outside_value,
    ran, warned_at, Site,
};
use crate::names::text_view;
use crate::num::{Arithmetic, Calc, Reading};
use crate::resources::MAX_CALL_DEPTH;
use crate::scopes::{
    blank, defined, function_of, same_functions, with_definitions, with_function, within, LayerView,
    Scopes, ScopesView, Table,
};
use crate::sem::{charge, charged, ClosureView, Env, Ev, EvNames, Oracle, Passed, Query, Store};
use crate::value::{vals, Value};
use crate::viewport::echo_line;
use crate::vm::{compile_fn, compiled_fn, Chunk};
use crate::vmlaw::run_closure;
use std::rc::Rc;
use vstd::prelude::*;

verus! {

/// A function value.
pub struct Closure {
    pub params: Rc<Vec<Param>>,
    pub body: Rc<Expr>,
    /// The scopes that were open where it was made.
    pub open: Vec<usize>,
    /// The names of the expression that it was made in.
    pub locals: Rc<Vec<Entry>>,
    pub name: Option<String>,
    /// The compiled body, where it can be compiled.
    pub chunk: Option<Chunk>,
}

/// What a closure is.
pub open spec fn closure_view(c: Closure) -> ClosureView {
    ClosureView {
        params: *c.params,
        body: *c.body,
        open: c.open@,
        locals: entries(c.locals@),
        name: text_view(c.name),
    }
}

/// The compiled body is that of the closure.
pub open spec fn compiles(c: Closure) -> bool {
    match c.chunk {
        Some(ch) => compiled_fn(c.params@, *c.body, text_view(c.name)) == Some(ch@),
        None => compiled_fn(c.params@, *c.body, text_view(c.name)) is None,
    }
}

/// The closure can be called.
pub open spec fn callable(c: Closure, layers: nat) -> bool {
    compiles(c) && c.open@.len() > 0 && within(c.open@, layers)
}

/// What a shared closure is.
pub open spec fn closure_of(c: Rc<Closure>) -> ClosureView {
    closure_view(*c)
}

/// A shared expression.
pub open spec fn shared(e: Rc<Expr>) -> Expr {
    *e
}

/// What closures are.
pub open spec fn closure_views(v: Seq<Rc<Closure>>) -> Seq<ClosureView> {
    v.map_values(|c: Rc<Closure>| closure_view(*c))
}

/// A definition stands for the closure of that name.
pub open spec fn names_its_closure(closures: Seq<ClosureView>, d: (Seq<char>, usize)) -> bool {
    d.1 < closures.len() && closures[d.1 as int].name == Some(d.0)
}

/// Every definition stands for the closure of that name.
pub open spec fn all_named(closures: Seq<ClosureView>, t: Table) -> bool {
    forall|i: int| 0 <= i < t.len() ==> names_its_closure(closures, #[trigger] t[i])
}

/// Every definition of every scope stands for the closure of that name.
pub open spec fn rightly_named(layers: Seq<LayerView>, closures: Seq<ClosureView>) -> bool {
    forall|l: int| 0 <= l < layers.len() ==> all_named(closures, (#[trigger] layers[l]).funcs)
}

/// What a name stands for has that name.
pub proof fn lemma_function_named(
    layers: Seq<LayerView>,
    open: Seq<usize>,
    closures: Seq<ClosureView>,
    name: Seq<char>,
)
    requires
        rightly_named(layers, closures),
        within(open, layers.len()),
    ensures
        function_of(layers, open, name) matches Some(f) ==> names_its_closure(closures, (name, f)),
    decreases open.len(),
{
    if open.len() > 0 {
        let l = open.last() as int;
        assert(open[open.len() - 1] < layers.len());
        lemma_defined_named(layers[l].funcs, closures, name);
        assert forall|i: int| 0 <= i < open.drop_last().len() implies #[trigger] open.drop_last()[i]
            < layers.len() by {
            assert(open.drop_last()[i] == open[i]);
        }
        lemma_function_named(layers, open.drop_last(), closures, name);
    }
}

proof fn lemma_defined_named(t: Table, closures: Seq<ClosureView>, name: Seq<char>)
    requires
        all_named(closures, t),
    ensures
        defined(t, name) matches Some(f) ==> names_its_closure(closures, (name, f)),
    decreases t.len(),
{
    if t.len() > 0 {
        assert(names_its_closure(closures, t[t.len() - 1]));
        assert forall|i: int| 0 <= i < t.drop_last().len() implies names_its_closure(
            closures,
            #[trigger] t.drop_last()[i],
        ) by {
            assert(names_its_closure(closures, t[i]));
        }
        lemma_defined_named(t.drop_last(), closures, name);
    }
}

/// Scopes that define the same functions name them as rightly.
pub proof fn lemma_same_functions(a: Seq<LayerView>, b: Seq<LayerView>, closures: Seq<ClosureView>)
    requires
        rightly_named(a, closures),
        same_functions(a, b),
    ensures
        rightly_named(b, closures),
{
    assert forall|l: int| 0 <= l < b.len() implies all_named(closures, (#[trigger] b[l]).funcs) by {
        if l < a.len() {
            assert(all_named(closures, a[l].funcs));
        }
    }
}

/// A function that is defined under the name of its closure is named rightly.
pub proof fn lemma_function_defined(
    s: ScopesView,
    name: Seq<char>,
    id: usize,
    closures: Seq<ClosureView>,
)
    requires
        s.wf(),
        rightly_named(s.layers, closures),
        names_its_closure(closures, (name, id)),
    ensures
        rightly_named(with_function(s, name, id).layers, closures),
{
    let t = with_function(s, name, id);
    assert(s.open[s.open.len() - 1] < s.layers.len());
    assert forall|l: int| 0 <= l < t.layers.len() implies all_named(
        closures,
        (#[trigger] t.layers[l]).funcs,
    ) by {
        let old_funcs = s.layers[l].funcs;
        let funcs = t.layers[l].funcs;
        assert(all_named(closures, old_funcs));
        assert forall|i: int| 0 <= i < funcs.len() implies names_its_closure(
            closures,
            #[trigger] funcs[i],
        ) by {
            if i < old_funcs.len() {
                assert(names_its_closure(closures, old_funcs[i]));
            }
        }
    }
}

/// Definitions that are taken in from another scope are named as rightly.
pub proof fn lemma_definitions_taken(s: ScopesView, from: int, closures: Seq<ClosureView>)
    requires
        s.wf(),
        0 <= from < s.layers.len(),
        rightly_named(s.layers, closures),
    ensures
        rightly_named(with_definitions(s, from).layers, closures),
{
    let t = with_definitions(s, from);
    assert(s.open[s.open.len() - 1] < s.layers.len());
    assert(all_named(closures, s.layers[from].funcs));
    assert forall|l: int| 0 <= l < t.layers.len() implies all_named(
        closures,
        (#[trigger] t.layers[l]).funcs,
    ) by {
        let own = s.layers[l].funcs;
        let more = s.layers[from].funcs;
        let funcs = t.layers[l].funcs;
        assert(all_named(closures, own));
        assert forall|i: int| 0 <= i < funcs.len() implies names_its_closure(
            closures,
            #[trigger] funcs[i],
        ) by {
            if i < own.len() {
                assert(names_its_closure(closures, own[i]));
            } else {
                assert(names_its_closure(closures, more[i - own.len()]));
            }
        }
    }
}

/// More closures change no names.
pub proof fn lemma_more_closures(
    layers: Seq<LayerView>,
    few: Seq<ClosureView>,
    many: Seq<ClosureView>,
)
    requires
        rightly_named(layers, few),
        few.len() <= many.len(),
        forall|i: int| 0 <= i < few.len() ==> many[i] == #[trigger] few[i],
    ensures
        rightly_named(layers, many),
{
    assert forall|l: int| 0 <= l < layers.len() implies all_named(many, (#[trigger] layers[l]).funcs) by {
        let t = layers[l].funcs;
        assert(all_named(few, t));
        assert forall|i: int| 0 <= i < t.len() implies names_its_closure(many, #[trigger] t[i]) by {
            assert(names_its_closure(few, t[i]));
            assert(many[t[i].1 as int] == few[t[i].1 as int]);
        }
    }
}

/// What a call puts aside.
struct Outer {
    open: Vec<usize>,
    locals: Rc<Vec<Entry>>,
}

/// The interpreter.
pub struct Interp<A> {
    pub calc: Calc<A>,
    /// Whether steps are counted, and how many are left.
    pub limited: bool,
    pub fuel: u64,
    /// How many calls, and how many bindings of arguments, may still be nested.
    pub depth: usize,
    pub binds: usize,
    pub scopes: Scopes,
    /// The names that the closure that runs was made with.
    pub locals: Rc<Vec<Entry>>,
    /// The modules that run, innermost last.
    pub running: Vec<String>,
    /// The statement that runs, where it stands in the main source.
    pub here: Option<Span>,
    pub closures: Vec<Rc<Closure>>,
    pub texts: Vec<String>,
    pub echoes: Vec<String>,
    pub warnings: Vec<Warning>,
    pub random: u64,
    pub asserts: u64,
}

impl<A: Arithmetic> Interp<A> {
    /// Some scope is open, every closure can be called, and every definition of a
    /// function stands for the closure of that name.
    pub open spec fn wf(&self) -> bool {
        &&& self.scopes@.wf()
        &&& rightly_named(self.scopes@.layers, closure_views(self.closures@))
        &&& forall|i: int|
            0 <= i < self.closures@.len() ==> callable(
                *(#[trigger] self.closures@[i]),
                self.scopes@.layers.len(),
            )
    }

    /// What running expressions changes.
    pub open spec fn store(&self) -> Store {
        Store {
            closures: closure_views(self.closures@),
            texts: texts(self.texts@),
            echoes: texts(self.echoes@),
            warnings: notes(self.warnings@),
            random: self.random,
            asserts: self.asserts,
            fuel: self.fuel,
        }
    }

    /// Where the expression that runs stands.
    pub open spec fn site(&self) -> Site {
        Site {
            scopes: self.scopes@,
            locals: entries(self.locals@),
            running: texts(self.running@),
            here: self.here,
        }
    }

    /// What surrounds the expression that runs.
    pub open spec fn oracle(&self, m: Reading) -> Oracle {
        oracle(m, self.limited, self.depth as nat, self.binds as nat, self.site())
    }

    /// What running an expression leaves as it is.
    pub open spec fn stays(&self, from: Interp<A>) -> bool {
        &&& self.site() == from.site()
        &&& self.limited == from.limited
        &&& self.depth == from.depth
        &&& self.binds == from.binds
    }

    /// An interpreter with some dynamic names, and so many steps; the largest
    /// number means that they are not counted. Random numbers go on from `random`.
    pub fn new(unit: A, base: Vec<Entry>, fuel: u64, random: u64) -> (r: Self)
        ensures
            r.wf(),
            r.limited == (fuel != u64::MAX),
            r.depth == MAX_CALL_DEPTH,
            r.binds == MAX_CALL_DEPTH,
            r.site().locals =~= Seq::empty(),
            r.site().running =~= Seq::empty(),
            r.site().here is None,
            r.scopes@.layers =~= seq![blank()],
            r.scopes@.layers =~= seq![blank()],
            r.scopes@.open =~= seq![0usize],
            r.scopes@.dynamic =~= seq![entries(base@)],
            r.store().closures =~= Seq::empty(),
            r.store().texts =~= Seq::empty(),
            r.store().echoes =~= Seq::empty(),
            r.store().warnings =~= Seq::empty(),
            r.store().random == random,
            r.store().asserts == 0,
            r.store().fuel == fuel,
            forall|m: Reading| #[trigger] r.calc.agrees(m),
    {
        Interp {
            calc: Calc::new(unit),
            limited: fuel != 0xffff_ffff_ffff_ffff,
            fuel,
            depth: MAX_CALL_DEPTH,
            binds: MAX_CALL_DEPTH,
            scopes: Scopes::new(base),
            locals: Rc::new(Vec::new()),
            running: Vec::new(),
            here: None,
            closures: Vec::new(),
            texts: Vec::new(),
            echoes: Vec::new(),
            warnings: Vec::new(),
            random,
            asserts: 0,
        }
    }

    /// Takes a step; whether there was one to take.
    pub fn burn(&mut self) -> (r: bool)
        requires
            old(self).wf(),
        ensures
            final(self).wf(),
            final(self).stays(*old(self)),
            final(self).calc == old(self).calc,
            final(self).closures == old(self).closures,
            charge(old(self).limited, old(self).store()) == if r {
                Some(final(self).store())
            } else {
                None
            },
            forall|m: Reading|
                #![trigger old(self).oracle(m)]
                charged(old(self).oracle(m), old(self).store()) == if r {
                    Some(final(self).store())
                } else {
                    None
                },
            !r ==> final(self).store() == old(self).store(),
    {
        proof {
            reveal(oracle);
        }
        if !self.limited {
            return true;
        }
        if self.fuel == 0 {
            return false;
        }
        self.fuel = self.fuel - 1;
        true
    }

    /// The value of a name outside of the expression.
    pub fn outside(&self, name: &str) -> (r: Value)
        requires
            self.wf(),
        ensures
            r@ == outside_value(self.site(), name@),
            forall|m: Reading| r@ == #[trigger] self.oracle(m).outside(name@),
    {
        proof {
            reveal(oracle);
        }
        if special(name) {
            return self.scopes.lookup_var(name);
        }
        match find(&*self.locals, name) {
            Some(v) => v,
            None => self.scopes.lookup_var(name),
        }
    }

    /// The closure that a name stands for.
    pub fn function(&self, name: &str) -> (r: Option<usize>)
        requires
            self.wf(),
        ensures
            r == function_of(self.site().scopes.layers, self.site().scopes.open, name@),
            forall|m: Reading| r == #[trigger] self.oracle(m).function(name@),
    {
        proof {
            reveal(oracle);
        }
        self.scopes.lookup_func(name)
    }

    /// Counts an assertion.
    pub fn count_assert(&mut self)
        requires
            old(self).wf(),
        ensures
            final(self).wf(),
            final(self).stays(*old(self)),
            final(self).calc == old(self).calc,
            forall|m: Reading| (Ev { r: Ok(crate::value::Val::Undef), k: final(self).store() }) == #[trigger]
                old(self).oracle(m).reply(old(self).store(), Query::Asserted),
    {
        proof {
            reveal(oracle);
        }
        if self.asserts < 0xffff_ffff_ffff_ffff {
            self.asserts = self.asserts + 1;
        }
    }

    /// A value as text.
    pub fn text(&mut self, v: &Value) -> (r: String)
        requires
            old(self).wf(),
        ensures
            final(self).wf(),
            final(self).stays(*old(self)),
            final(self).store() == old(self).store(),
            forall|m: Reading| #[trigger]
                final(self).calc.agrees(m) ==> old(self).calc.agrees(m) && old(self).oracle(m).reply(
                    old(self).store(),
                    Query::Text(v@),
                ) == (Ev { r: Ok(crate::value::Val::Str(r@)), k: final(self).store() }),
    {
        proof {
            reveal(oracle);
        }
        v.to_str(&mut self.calc, &self.texts)
    }

    /// Prints a line of values.
    pub fn echo(&mut self, args: &Vec<PassedArg>)
        requires
            old(self).wf(),
        ensures
            final(self).wf(),
            final(self).stays(*old(self)),
            forall|m: Reading| #[trigger]
                final(self).calc.agrees(m) ==> old(self).calc.agrees(m) && old(self).oracle(m).reply(
                    old(self).store(),
                    Query::Echo(passed(args@)),
                ) == (Ev { r: Ok(crate::value::Val::Undef), k: final(self).store() }),
    {
        proof {
            reveal(oracle);
        }
        let line = echo_line(&mut self.calc, &self.texts, args);
        let ghost before = texts(self.echoes@);
        let ghost l = line@;
        self.echoes.push(line);
        assert(texts(self.echoes@) =~= before.push(l));
    }

    /// Warns, in the name of the statement that runs.
    pub fn warn(&mut self, message: String)
        requires
            old(self).wf(),
        ensures
            final(self).wf(),
            final(self).stays(*old(self)),
            final(self).calc == old(self).calc,
            final(self).store() == (Store {
                warnings: old(self).store().warnings.push(
                    NoteView { message: message@, span: old(self).here },
                ),
                ..old(self).store()
            }),
    {
        let ghost before = notes(self.warnings@);
        let ghost said = NoteView { message: message@, span: self.here };
        self.warnings.push(Warning { message, span: self.here });
        assert(notes(self.warnings@) =~= before.push(said));
    }

    /// Calls a built-in function.
    pub fn call_builtin(&mut self, name: &str, args: &Vec<Value>) -> (r: Value)
        requires
            old(self).wf(),
        ensures
            final(self).wf(),
            final(self).stays(*old(self)),
            forall|m: Reading| #[trigger]
                final(self).calc.agrees(m) ==> old(self).calc.agrees(m) && old(self).oracle(m).reply(
                    old(self).store(),
                    Query::Builtin { name: name@, args: vals(args@) },
                ) == (Ev { r: Ok(r@), k: final(self).store() }),
    {
        proof {
            reveal(oracle);
        }
        let mut said: Vec<String> = Vec::new();
        let ghost w0 = notes(self.warnings@);
        assert(texts(said@) =~= Seq::empty());
        let r = call_builtin_fn(
            &mut self.calc,
            &self.texts,
            &self.running,
            &mut self.random,
            &mut said,
            name,
            args,
        );
        let ghost all = texts(said@);
        let here = self.here;
        let mut i: usize = 0;
        let ghost before = *self;
        assert(warned_at(w0, all.take(0), here) =~= w0);
        while i < said.len()
            invariant
                i <= said@.len(),
                all == texts(said@),
                here == self.here,
                self.wf(),
                self.calc == before.calc,
                self.stays(before),
                self.store() == (Store {
                    warnings: warned_at(w0, all.take(i as int), here),
                    ..before.store()
                }),
            decreases said.len() - i,
        {
            let ghost held = self.store();
            self.warn(said[i].clone());
            proof {
                assert(all.take(i + 1) =~= all.take(i as int).push(all[i as int]));
                assert(warned_at(w0, all.take(i + 1), here) =~= held.warnings.push(
                    NoteView { message: all[i as int], span: here },
                ));
            }
            i = i + 1;
        }
        assert(all.take(said@.len() as int) =~= all);
        r
    }

    /// Keeps a function as a closure; its number.
    pub fn keep(
        &mut self,
        params: &Rc<Vec<Param>>,
        body: &Rc<Expr>,
        locals: Vec<Entry>,
        name: Option<String>,
    ) -> (r: usize)
        requires
            old(self).wf(),
        ensures
            final(self).wf(),
            final(self).stays(*old(self)),
            r == old(self).store().closures.len(),
            final(self).store().closures == old(self).store().closures.push(
                ClosureView {
                    params: **params,
                    body: **body,
                    open: old(self).site().scopes.open,
                    locals: entries(locals@),
                    name: text_view(name),
                },
            ),
            forall|m: Reading| #[trigger]
                final(self).calc.agrees(m) ==> old(self).calc.agrees(m) && final(self).store()
                    == closed_over(
                    m,
                    old(self).store(),
                    **params,
                    **body,
                    old(self).site().scopes.open,
                    entries(locals@),
                    text_view(name),
                ),
    {
        let ghost before = self.store();
        let ghost c0 = self.closures@;
        let n: usize = self.closures.len();
        let text = format_function(&mut self.calc, &**params, &**body);
        let ghost tv = text@;
        let chunk = compile_fn(&**params, &**body, &name);
        let open = self.scopes.captured();
        let c = Closure {
            params: params.clone(),
            body: body.clone(),
            open,
            locals: Rc::new(locals),
            name,
            chunk,
        };
        let ghost cv = closure_view(c);
        let rc = Rc::new(c);
        self.closures.push(rc);
        self.texts.push(text);
        proof {
            assert(closure_views(self.closures@) =~= before.closures.push(cv));
            assert(texts(self.texts@) =~= before.texts.push(tv));
            lemma_more_closures(
                self.scopes@.layers,
                before.closures,
                closure_views(self.closures@),
            );
            assert forall|i: int| 0 <= i < self.closures@.len() implies callable(
                *(#[trigger] self.closures@[i]),
                self.scopes@.layers.len(),
            ) by {
                if i < c0.len() {
                    assert(self.closures@[i] == c0[i]);
                }
            }
        }
        n
    }

    /// Goes to where the body of a closure stands.
    fn enter(&mut self, c: &Closure, specials: &Vec<Entry>) -> (r: Outer)
        requires
            old(self).wf(),
            callable(*c, old(self).scopes@.layers.len()),
        ensures
            final(self).wf(),
            final(self).site() == inside(old(self).site(), closure_view(*c), entries(specials@)),
            final(self).store() == old(self).store(),
            final(self).calc == old(self).calc,
            final(self).limited == old(self).limited,
            final(self).depth == old(self).depth,
            final(self).binds == old(self).binds,
            r.open@ == old(self).site().scopes.open,
            entries(r.locals@) == old(self).site().locals,
    {
        let open = self.scopes.captured();
        self.scopes.reopen(copy_numbers(&c.open));
        self.scopes.push_frame(copy_entries(specials));
        let locals = self.locals.clone();
        self.locals = c.locals.clone();
        Outer { open, locals }
    }

    /// Goes back.
    fn leave(&mut self, outer: Outer, Ghost(site): Ghost<Site>, Ghost(specials): Ghost<Env>)
        requires
            old(self).wf(),
            site.scopes.wf(),
            old(self).site().scopes.layers == site.scopes.layers,
            old(self).site().scopes.dynamic == site.scopes.dynamic.push(specials),
            old(self).site().running == site.running,
            old(self).site().here == site.here,
            outer.open@ == site.scopes.open,
            entries(outer.locals@) == site.locals,
        ensures
            final(self).wf(),
            final(self).site() == site,
            final(self).store() == old(self).store(),
            final(self).calc == old(self).calc,
            final(self).limited == old(self).limited,
            final(self).depth == old(self).depth,
            final(self).binds == old(self).binds,
    {
        self.scopes.pop_frame();
        self.scopes.reopen(outer.open);
        self.locals = outer.locals;
        assert(self.scopes@.dynamic =~= site.scopes.dynamic);
    }

    /// Makes a closure of a function literal.
    pub fn close(
        &mut self,
        params: &Rc<Vec<Param>>,
        body: &Rc<Expr>,
        env: &Vec<Entry>,
    ) -> (r: Value)
        requires
            old(self).wf(),
        ensures
            final(self).wf(),
            final(self).stays(*old(self)),
            forall|m: Reading| #[trigger]
                final(self).calc.agrees(m) ==> old(self).calc.agrees(m) && old(self).oracle(m).reply(
                    old(self).store(),
                    Query::Close { params: **params, body: **body, env: entries(env@) },
                ) == (Ev { r: Ok(r@), k: final(self).store() }),
    {
        proof {
            reveal(oracle);
        }
        let mut locals = copy_entries(&*self.locals);
        let mut own = copy_entries(env);
        let ghost (a, b) = (entries(locals@), entries(own@));
        locals.append(&mut own);
        assert(entries(locals@) =~= a + b);
        Value::Function(self.keep(params, body, locals, None))
    }
}

/// A copy of names and their values.
pub fn copy_entries(v: &Vec<Entry>) -> (r: Vec<Entry>)
    ensures
        entries(r@) == entries(v@),
{
    let mut out: Vec<Entry> = Vec::new();
    let ghost all = entries(v@);
    for i in 0..v.len()
        invariant
            all == entries(v@),
            entries(out@) =~= all.take(i as int),
    {
        let ghost before = entries(out@);
        out.push(Entry { name: v[i].name.clone(), value: v[i].value.duplicate() });
        assert(entries(out@) =~= before.push(all[i as int]));
    }
    assert(all.take(v@.len() as int) =~= all);
    out
}

/// A copy of numbers.
pub fn copy_numbers(v: &Vec<usize>) -> (r: Vec<usize>)
    ensures
        r@ == v@,
{
    let mut out: Vec<usize> = Vec::new();
    for i in 0..v.len()
        invariant
            out@ =~= v@.take(i as int),
    {
        out.push(v[i]);
    }
    assert(v@.take(v@.len() as int) =~= v@);
    out
}

/// What surrounds an expression does not change while it runs.
pub proof fn lemma_same_oracle<A: Arithmetic>(a: Interp<A>, b: Interp<A>)
    requires
        a.stays(b),
    ensures
        forall|m: Reading| #![trigger b.oracle(m)] a.oracle(m) == b.oracle(m),
        forall|m: Reading| #![trigger a.oracle(m)] a.oracle(m) == b.oracle(m),
{
}

/// What asking for a call comes to.
pub proof fn lemma_closure_answer<A: Arithmetic>(it: Interp<A>)
    ensures
        forall|m: Reading, k: Store, f: usize, args: Passed, specials: Env|
            #![trigger it.oracle(m).reply(k, (Query::Closure { f, args, specials }))]
            it.oracle(m).reply(k, (Query::Closure { f, args, specials })) == called(
                m,
                it.limited,
                it.depth as nat,
                it.binds as nat,
                it.site(),
                k,
                f,
                args,
                specials,
            ),
{
    reveal(oracle);
}

/// Calls a closure: binds its arguments and runs its body where the closure was
/// made, with the dynamic names of the caller.
pub fn call_function<A: Arithmetic>(
    it: &mut Interp<A>,
    f: usize,
    args: &Vec<PassedArg>,
    specials: &Vec<Entry>,
) -> (r: Result<Value, String>)
    requires
        old(it).wf(),
    ensures
        final(it).wf(),
        final(it).stays(*old(it)),
        forall|m: Reading| #[trigger]
            final(it).calc.agrees(m) ==> old(it).calc.agrees(m) && called(
                m,
                old(it).limited,
                old(it).depth as nat,
                old(it).binds as nat,
                old(it).site(),
                old(it).store(),
                f,
                passed(args@),
                entries(specials@),
            ) == (Ev { r: said(r), k: final(it).store() }),
    decreases old(it).depth, old(it).binds, 2int,
{
    let count: usize = it.closures.len();
    assert(it.store().closures.len() == count);
    if f >= count {
        return Ok(Value::Undef);
    }
    let ghost site0 = it.site();
    let ghost k0 = it.store();
    let ghost c0 = it.closures@;
    assert(callable(*it.closures@[f as int], it.scopes@.layers.len()));
    let c = it.closures[f].clone();
    assert(k0.closures[f as int] == closure_of(c));
    let outer = it.enter(&*c, specials);
    assert(it.store() == k0);
    let ghost inner = *it;
    let r = call_here(it, f, &*c, args);
    assert(it.site() == inner.site());
    it.leave(outer, Ghost(site0), Ghost(entries(specials@)));
    r
}

/// Calls a closure in the place where its body stands.
fn call_here<A: Arithmetic>(
    it: &mut Interp<A>,
    f: usize,
    c: &Closure,
    args: &Vec<PassedArg>,
) -> (r: Result<
    Value,
    String,
>)
    requires
        old(it).wf(),
        compiles(*c),
    ensures
        final(it).wf(),
        final(it).stays(*old(it)),
        forall|m: Reading| #[trigger]
            final(it).calc.agrees(m) ==> old(it).calc.agrees(m) && called_in(
                m,
                old(it).limited,
                old(it).depth as nat,
                old(it).binds as nat,
                old(it).site(),
                old(it).store(),
                f,
                closure_view(*c),
                passed(args@),
            ) == (Ev { r: said(r), k: final(it).store() }),
    decreases old(it).depth, old(it).binds, 1int,
{
    if it.binds == 0 {
        return Err("maximum call depth exceeded".to_owned());
    }
    let ghost i0 = *it;
    let bound = bind_here(it, c, args);
    let ghost i1 = *it;
    let ghost n = EvNames { r: scoped(bound), k: i1.store() };
    proof {
        assert forall|m: Reading| #[trigger] i1.calc.agrees(m) implies i0.calc.agrees(m)
            && called_in(
            m,
            i0.limited,
            i0.depth as nat,
            i0.binds as nat,
            i0.site(),
            i0.store(),
            f,
            closure_view(*c),
            passed(args@),
        ) == (match n.r {
            Err(e) => Ev { r: Err(e), k: n.k },
            Ok(names) => if i0.depth == 0 {
                Ev { r: Err(crate::meaning::too_deep()), k: n.k }
            } else {
                ran(
                    m,
                    oracle(
                        m,
                        i0.limited,
                        (i0.depth - 1) as nat,
                        MAX_CALL_DEPTH as nat,
                        i0.site(),
                    ),
                    n.k,
                    f,
                    closure_view(*c),
                    names,
                )
            },
        }) by {
            lemma_called_in(
                m,
                i0.limited,
                i0.depth as nat,
                i0.binds as nat,
                i0.site(),
                i0.store(),
                f,
                closure_view(*c),
                passed(args@),
                n,
            );
        }
    }
    match bound {
        Err(e) => Err(e),
        Ok(names) => {
            if it.depth == 0 {
                Err("maximum call depth exceeded".to_owned())
            } else {
                run_here(it, names, f, c)
            }
        },
    }
}

/// Binds the arguments of a call in the place where the body stands.
fn bind_here<A: Arithmetic>(it: &mut Interp<A>, c: &Closure, args: &Vec<PassedArg>) -> (r: Result<
    Scope,
    String,
>)
    requires
        old(it).wf(),
        old(it).binds > 0,
    ensures
        final(it).wf(),
        final(it).stays(*old(it)),
        forall|m: Reading| #[trigger]
            final(it).calc.agrees(m) ==> old(it).calc.agrees(m) && bound_names(
                m,
                oracle(
                    m,
                    old(it).limited,
                    old(it).depth as nat,
                    (old(it).binds - 1) as nat,
                    old(it).site(),
                ),
                old(it).store(),
                *c.params,
                passed(args@),
            ) == (EvNames { r: scoped(r), k: final(it).store() }),
    decreases old(it).depth, old(it).binds, 0int,
{
    proof {
        reveal(bound_names);
    }
    let b: usize = it.binds;
    it.binds = b - 1;
    let none: Vec<Entry> = Vec::new();
    assert(entries(none@) =~= Seq::empty());
    let r = bind_params(it, &none, &*c.params, args);
    it.binds = b;
    r
}

/// Runs the body of a closure whose names are bound, one call deeper.
fn run_here<A: Arithmetic>(it: &mut Interp<A>, names: Scope, f: usize, c: &Closure) -> (r: Result<
    Value,
    String,
>)
    requires
        old(it).wf(),
        old(it).depth > 0,
        compiles(*c),
    ensures
        final(it).wf(),
        final(it).stays(*old(it)),
        forall|m: Reading| #[trigger]
            final(it).calc.agrees(m) ==> old(it).calc.agrees(m) && ran(
                m,
                oracle(
                    m,
                    old(it).limited,
                    (old(it).depth - 1) as nat,
                    MAX_CALL_DEPTH as nat,
                    old(it).site(),
                ),
                old(it).store(),
                f,
                closure_view(*c),
                names@,
            ) == (Ev { r: said(r), k: final(it).store() }),
    decreases old(it).depth, old(it).binds, 0int,
{
    let d: usize = it.depth;
    let b: usize = it.binds;
    it.depth = d - 1;
    it.binds = MAX_CALL_DEPTH;
    let r = run_closure(it, names, f, c);
    it.depth = d;
    it.binds = b;
    r
}

} // verus!
