//! The scopes of a running program. An ordinary name is looked up where the code
//! stands, a name that starts with `$` where it is called from.

use crate::blob::texts;
use crate::eval::{entries, find, special, Entry};
use crate::sem::{found, is_special, Env};
use crate::text::same_text;
use crate::value::{Val, Value};
use vstd::prelude::*;

verus! {

/// A definition: a name, and the number of what it stands for.
#[derive(Debug)]
pub struct Named {
    pub name: String,
    pub id: usize,
}

/// Definitions, the last one of a name counting.
pub type Table = Seq<(Seq<char>, usize)>;

/// What definitions say.
pub open spec fn table(v: Seq<Named>) -> Table {
    v.map_values(|n: Named| (n.name@, n.id))
}

/// What a name stands for.
pub open spec fn defined(t: Table, name: Seq<char>) -> Option<usize>
    decreases t.len(),
{
    if t.len() == 0 {
        None
    } else if t.last().0 == name {
        Some(t.last().1)
    } else {
        defined(t.drop_last(), name)
    }
}

/// One scope.
#[derive(Debug)]
pub struct Layer {
    pub vars: Vec<Entry>,
    pub funcs: Vec<Named>,
    pub modules: Vec<Named>,
}

/// What a scope holds.
pub ghost struct LayerView {
    pub vars: Env,
    pub funcs: Table,
    pub modules: Table,
}

/// What a scope holds.
pub open spec fn layer_of(l: Layer) -> LayerView {
    LayerView { vars: entries(l.vars@), funcs: table(l.funcs@), modules: table(l.modules@) }
}

/// A scope without names.
pub open spec fn blank() -> LayerView {
    LayerView { vars: Seq::empty(), funcs: Seq::empty(), modules: Seq::empty() }
}

/// What frames of dynamic names hold.
pub open spec fn frames(v: Seq<Vec<Entry>>) -> Seq<Env> {
    v.map_values(|f: Vec<Entry>| entries(f@))
}

/// All scopes by their numbers, which of them are open, innermost last, and the
/// frames of dynamic names, latest last.
pub struct Scopes {
    layers: Vec<Layer>,
    open: Vec<usize>,
    dynamic: Vec<Vec<Entry>>,
}

/// What scopes hold.
pub ghost struct ScopesView {
    pub layers: Seq<LayerView>,
    pub open: Seq<usize>,
    pub dynamic: Seq<Env>,
}

impl ScopesView {
    /// Some scope and some frame are open, and every open scope is there.
    pub open spec fn wf(self) -> bool {
        &&& self.open.len() > 0
        &&& self.dynamic.len() > 0
        &&& within(self.open, self.layers.len())
    }

    /// The number of the innermost scope.
    pub open spec fn top(self) -> int {
        self.open.last() as int
    }
}

/// The numbers are those of scopes.
pub open spec fn within(open: Seq<usize>, n: nat) -> bool {
    forall|i: int| 0 <= i < open.len() ==> #[trigger] open[i] < n
}

// ---- what the operations do --------------------------------------------------------------------

/// One more scope is open, with one more frame.
pub open spec fn opened(s: ScopesView) -> ScopesView {
    ScopesView {
        layers: s.layers.push(blank()),
        open: s.open.push(s.layers.len() as usize),
        dynamic: s.dynamic.push(Seq::empty()),
    }
}

/// The innermost scope and the latest frame are closed.
pub open spec fn closed(s: ScopesView) -> ScopesView {
    ScopesView { layers: s.layers, open: s.open.drop_last(), dynamic: s.dynamic.drop_last() }
}

/// A name is given a value: a dynamic one in the latest frame, any other in the
/// innermost scope.
pub open spec fn with_value(s: ScopesView, name: Seq<char>, v: Val) -> ScopesView {
    if is_special(name) {
        ScopesView {
            dynamic: s.dynamic.update(s.dynamic.len() - 1, s.dynamic.last().push((name, v))),
            ..s
        }
    } else {
        let l = s.layers[s.top()];
        ScopesView {
            layers: s.layers.update(s.top(), LayerView { vars: l.vars.push((name, v)), ..l }),
            ..s
        }
    }
}

/// A function is defined in the innermost scope.
pub open spec fn with_function(s: ScopesView, name: Seq<char>, id: usize) -> ScopesView {
    let l = s.layers[s.top()];
    ScopesView {
        layers: s.layers.update(s.top(), LayerView { funcs: l.funcs.push((name, id)), ..l }),
        ..s
    }
}

/// A module is defined in the innermost scope.
pub open spec fn with_module(s: ScopesView, name: Seq<char>, id: usize) -> ScopesView {
    let l = s.layers[s.top()];
    ScopesView {
        layers: s.layers.update(s.top(), LayerView { modules: l.modules.push((name, id)), ..l }),
        ..s
    }
}

/// The innermost scope has the definitions of scope `from` too, but not its
/// variables.
pub open spec fn with_definitions(s: ScopesView, from: int) -> ScopesView {
    let l = s.layers[s.top()];
    let f = s.layers[from];
    ScopesView {
        layers: s.layers.update(
            s.top(),
            LayerView { vars: l.vars, funcs: l.funcs + f.funcs, modules: l.modules + f.modules },
        ),
        ..s
    }
}

/// The first `n` names of a list are given their values one after the other.
pub open spec fn with_values(s: ScopesView, list: Env, n: int) -> ScopesView
    decreases n,
{
    if n <= 0 {
        s
    } else {
        with_value(with_values(s, list, n - 1), list[n - 1].0, list[n - 1].1)
    }
}

/// A call has begun: the scopes that the callee was defined in are open, and one
/// of its own with what it is given.
pub open spec fn begun(s: ScopesView, env: Seq<usize>, given: Env) -> ScopesView {
    with_values(opened(ScopesView { open: env, ..s }), given, given.len() as int)
}

/// A call has ended: the caller's scopes are open again.
pub open spec fn ended(s: ScopesView, callers: Seq<usize>) -> ScopesView {
    ScopesView { open: callers, ..closed(s) }
}

/// The scopes define the same functions, and scopes that are new define none.
pub open spec fn same_functions(a: Seq<LayerView>, b: Seq<LayerView>) -> bool {
    &&& a.len() <= b.len()
    &&& forall|l: int| 0 <= l < a.len() ==> (#[trigger] b[l]).funcs == a[l].funcs
    &&& forall|l: int| a.len() <= l < b.len() ==> (#[trigger] b[l]).funcs.len() == 0
}

/// Giving names values defines no function.
pub proof fn lemma_values_functions(s: ScopesView, list: Env, n: int)
    requires
        0 <= s.top() < s.layers.len(),
    ensures
        with_values(s, list, n).layers.len() == s.layers.len(),
        with_values(s, list, n).open == s.open,
        same_functions(s.layers, with_values(s, list, n).layers),
    decreases n,
{
    if n > 0 {
        lemma_values_functions(s, list, n - 1);
        let t = with_values(s, list, n - 1);
        let u = with_values(s, list, n);
        assert forall|l: int| 0 <= l < t.layers.len() implies (#[trigger] u.layers[l]).funcs
            == t.layers[l].funcs by {
            if l == t.top() && !is_special(list[n - 1].0) {
                assert(u.layers[l].funcs == t.layers[t.top()].funcs);
            }
        }
    }
}

/// Beginning a call defines no function.
pub proof fn lemma_begun_functions(s: ScopesView, env: Seq<usize>, given: Env)
    ensures
        same_functions(s.layers, begun(s, env, given).layers),
{
    let t = opened(ScopesView { open: env, ..s });
    lemma_values_functions(t, given, given.len() as int);
    let u = begun(s, env, given);
    assert forall|l: int| 0 <= l < s.layers.len() implies (#[trigger] u.layers[l]).funcs
        == s.layers[l].funcs by {
        assert(t.layers[l] == s.layers[l]);
    }
    assert forall|l: int| s.layers.len() <= l < u.layers.len() implies (
    #[trigger] u.layers[l]).funcs.len() == 0 by {
        if l < t.layers.len() {
            assert(t.layers[l] == blank());
        }
    }
}

/// The value of a dynamic name: that of the latest frame that has one.
pub open spec fn dynamic_value(d: Seq<Env>, name: Seq<char>) -> Option<Val>
    decreases d.len(),
{
    if d.len() == 0 {
        None
    } else {
        match found(d.last(), name) {
            Some(v) => Some(v),
            None => dynamic_value(d.drop_last(), name),
        }
    }
}

/// The value of an ordinary name: that of the innermost open scope that has one.
pub open spec fn lexical_value(layers: Seq<LayerView>, open: Seq<usize>, name: Seq<char>) -> Option<Val>
    decreases open.len(),
{
    if open.len() == 0 {
        None
    } else {
        match found(layers[open.last() as int].vars, name) {
            Some(v) => Some(v),
            None => lexical_value(layers, open.drop_last(), name),
        }
    }
}

/// The value of a name; undefined where it has none.
pub open spec fn value_of(s: ScopesView, name: Seq<char>) -> Val {
    let v = if is_special(name) {
        dynamic_value(s.dynamic, name)
    } else {
        lexical_value(s.layers, s.open, name)
    };
    match v {
        Some(v) => v,
        None => Val::Undef,
    }
}

/// The function that a name stands for.
pub open spec fn function_of(layers: Seq<LayerView>, open: Seq<usize>, name: Seq<char>) -> Option<usize>
    decreases open.len(),
{
    if open.len() == 0 {
        None
    } else {
        match defined(layers[open.last() as int].funcs, name) {
            Some(f) => Some(f),
            None => function_of(layers, open.drop_last(), name),
        }
    }
}

/// The module that a name stands for.
pub open spec fn module_of(layers: Seq<LayerView>, open: Seq<usize>, name: Seq<char>) -> Option<usize>
    decreases open.len(),
{
    if open.len() == 0 {
        None
    } else {
        match defined(layers[open.last() as int].modules, name) {
            Some(f) => Some(f),
            None => module_of(layers, open.drop_last(), name),
        }
    }
}

fn find_named(list: &Vec<Named>, name: &str) -> (r: Option<usize>)
    ensures
        r == defined(table(list@), name@),
{
    let ghost t = table(list@);
    let mut i: usize = list.len();
    assert(t.take(list@.len() as int) =~= t);
    while i > 0
        invariant
            i <= list@.len(),
            t == table(list@),
            defined(t, name@) == defined(t.take(i as int), name@),
        decreases i,
    {
        proof {
            assert(t.take(i as int).last() == t[i - 1]);
            assert(t.take(i as int).drop_last() =~= t.take(i - 1));
            assert(t[i - 1] == (list@[i - 1].name@, list@[i - 1].id));
        }
        if same_text(list[i - 1].name.as_str(), name) {
            return Some(list[i - 1].id);
        }
        i = i - 1;
    }
    None
}

fn copy_named(from: &Vec<Named>, to: &mut Vec<Named>)
    ensures
        table(final(to)@) == table(old(to)@) + table(from@),
{
    let ghost before = table(to@);
    let mut i: usize = 0;
    assert(before + table(from@).take(0) =~= before);
    while i < from.len()
        invariant
            i <= from@.len(),
            table(to@) == before + table(from@).take(i as int),
        decreases from.len() - i,
    {
        let ghost held = table(to@);
        to.push(Named { name: from[i].name.clone(), id: from[i].id });
        proof {
            let t = table(from@);
            assert(t[i as int] == (from@[i as int].name@, from@[i as int].id));
            assert(table(to@) =~= held.push(t[i as int]));
            assert(before + t.take(i + 1) =~= (before + t.take(i as int)).push(t[i as int]));
        }
        i = i + 1;
    }
    assert(table(from@).take(from@.len() as int) =~= table(from@));
}

impl Scopes {
    pub closed spec fn view(&self) -> ScopesView {
        ScopesView {
            layers: self.layers@.map_values(|l: Layer| layer_of(l)),
            open: self.open@,
            dynamic: frames(self.dynamic@),
        }
    }

    /// One open scope without names, and one frame.
    pub fn new(base: Vec<Entry>) -> (r: Self)
        ensures
            r@.wf(),
            r@.layers =~= seq![blank()],
            r@.open =~= seq![0usize],
            r@.dynamic =~= seq![entries(base@)],
    {
        let mut s = Scopes { layers: Vec::new(), open: Vec::new(), dynamic: Vec::new() };
        let l = Layer { vars: Vec::new(), funcs: Vec::new(), modules: Vec::new() };
        assert(layer_of(l).vars =~= Seq::empty());
        assert(layer_of(l).funcs =~= Seq::empty());
        assert(layer_of(l).modules =~= Seq::empty());
        s.layers.push(l);
        s.open.push(0);
        s.dynamic.push(base);
        s
    }

    /// Opens a scope and a frame.
    pub fn push_scope(&mut self)
        requires
            old(self)@.wf(),
        ensures
            final(self)@ == opened(old(self)@),
            final(self)@.wf(),
    {
        let ghost before = self@;
        let n: usize = self.layers.len();
        let l = Layer { vars: Vec::new(), funcs: Vec::new(), modules: Vec::new() };
        let ghost lv = layer_of(l);
        assert(lv.vars =~= Seq::empty());
        assert(lv.funcs =~= Seq::empty());
        assert(lv.modules =~= Seq::empty());
        let f: Vec<Entry> = Vec::new();
        let ghost fv = entries(f@);
        assert(fv =~= Seq::empty());
        self.layers.push(l);
        self.open.push(n);
        self.dynamic.push(f);
        proof {
            assert(self@.layers =~= before.layers.push(lv));
            assert(self@.open =~= before.open.push(n));
            assert(self@.dynamic =~= before.dynamic.push(fv));
            assert forall|i: int| 0 <= i < self@.open.len() implies #[trigger] self@.open[i]
                < self@.layers.len() by {
                if i < before.open.len() {
                    assert(before.open[i] < before.layers.len());
                }
            }
        }
    }

    /// Closes the innermost scope and the latest frame.
    pub fn pop_scope(&mut self)
        requires
            old(self)@.wf(),
            old(self)@.open.len() > 1,
            old(self)@.dynamic.len() > 1,
        ensures
            final(self)@ == closed(old(self)@),
            final(self)@.wf(),
    {
        let ghost before = self@;
        self.open.pop();
        self.dynamic.pop();
        proof {
            assert(self@.layers =~= before.layers);
            assert(self@.open =~= before.open.drop_last());
            assert(self@.dynamic =~= before.dynamic.drop_last());
            assert forall|i: int| 0 <= i < self@.open.len() implies #[trigger] self@.open[i]
                < self@.layers.len() by {
                assert(before.open[i] < before.layers.len());
            }
        }
    }

    /// Opens a frame of dynamic names alone.
    pub fn push_frame(&mut self, frame: Vec<Entry>)
        requires
            old(self)@.wf(),
        ensures
            final(self)@ == (ScopesView {
                dynamic: old(self)@.dynamic.push(entries(frame@)),
                ..old(self)@
            }),
            final(self)@.wf(),
    {
        let ghost before = self@;
        let ghost f = entries(frame@);
        self.dynamic.push(frame);
        proof {
            assert(self@.layers =~= before.layers);
            assert(self@.dynamic =~= before.dynamic.push(f));
        }
    }

    /// Closes the latest frame alone.
    pub fn pop_frame(&mut self)
        requires
            old(self)@.wf(),
            old(self)@.dynamic.len() > 1,
        ensures
            final(self)@ == (ScopesView { dynamic: old(self)@.dynamic.drop_last(), ..old(self)@ }),
            final(self)@.wf(),
    {
        let ghost before = self@;
        self.dynamic.pop();
        proof {
            assert(self@.layers =~= before.layers);
            assert(self@.dynamic =~= before.dynamic.drop_last());
        }
    }

    /// The scopes that are open, as a function or a module defined here keeps
    /// them.
    pub fn captured(&self) -> (r: Vec<usize>)
        ensures
            r@ == self@.open,
    {
        let mut out: Vec<usize> = Vec::new();
        for i in 0..self.open.len()
            invariant
                out@ =~= self.open@.take(i as int),
        {
            out.push(self.open[i]);
        }
        assert(self.open@.take(self.open@.len() as int) =~= self.open@);
        out
    }

    /// Opens the scopes that were captured in place of those that are open.
    pub fn reopen(&mut self, open: Vec<usize>)
        requires
            old(self)@.wf(),
            open@.len() > 0,
            within(open@, old(self)@.layers.len()),
        ensures
            final(self)@ == (ScopesView { open: open@, ..old(self)@ }),
            final(self)@.wf(),
    {
        self.open = open;
    }

    /// Begins a call: opens the scopes that the callee was defined in, and one of
    /// its own with the names it is given. What was open before is returned.
    pub fn begin_call(&mut self, env: Vec<usize>, given: Vec<Entry>) -> (r: Vec<usize>)
        requires
            old(self)@.wf(),
            env@.len() > 0,
            within(env@, old(self)@.layers.len()),
        ensures
            r@ == old(self)@.open,
            final(self)@ == begun(old(self)@, env@, entries(given@)),
            final(self)@.wf(),
            final(self)@.open.len() == env@.len() + 1,
            final(self)@.dynamic.len() == old(self)@.dynamic.len() + 1,
            final(self)@.layers.len() == old(self)@.layers.len() + 1,
    {
        let callers = self.captured();
        self.reopen(env);
        self.push_scope();
        let ghost start = self@;
        let ghost list = entries(given@);
        let mut i: usize = 0;
        while i < given.len()
            invariant
                i <= given@.len(),
                list == entries(given@),
                self@ == with_values(start, list, i as int),
                self@.wf(),
                self@.open == start.open,
                self@.dynamic.len() == start.dynamic.len(),
                self@.layers.len() == start.layers.len(),
            decreases given.len() - i,
        {
            assert(list[i as int] == (given@[i as int].name@, given@[i as int].value@));
            self.set_var(given[i].name.as_str(), given[i].value.duplicate());
            i = i + 1;
        }
        callers
    }

    /// Ends a call.
    pub fn end_call(&mut self, callers: Vec<usize>)
        requires
            old(self)@.wf(),
            old(self)@.open.len() > 1,
            old(self)@.dynamic.len() > 1,
            callers@.len() > 0,
            within(callers@, old(self)@.layers.len()),
        ensures
            final(self)@ == ended(old(self)@, callers@),
            final(self)@.wf(),
    {
        self.pop_scope();
        self.reopen(callers);
    }

    /// Gives a name a value.
    pub fn set_var(&mut self, name: &str, value: Value)
        requires
            old(self)@.wf(),
        ensures
            final(self)@ == with_value(old(self)@, name@, value@),
            final(self)@.wf(),
    {
        let ghost before = self@;
        let ghost v = value@;
        let e = Entry { name: name.to_owned(), value };
        if special(name) {
            let n: usize = self.dynamic.len();
            let ghost ov = self.dynamic@;
            match self.dynamic.pop() {
                Some(frame) => {
                    let mut frame = frame;
                    let ghost fv = entries(frame@);
                    assert(before.dynamic.last() == fv);
                    frame.push(e);
                    assert(entries(frame@) =~= fv.push((name@, v)));
                    self.dynamic.push(frame);
                    assert(self@.layers =~= before.layers);
                    assert(self@.dynamic =~= before.dynamic.update(n - 1, fv.push((name@, v))));
                },
                None => {},
            }
        } else {
            let k: usize = self.open[self.open.len() - 1];
            let mut l = Layer { vars: Vec::new(), funcs: Vec::new(), modules: Vec::new() };
            let ghost lv = before.layers[k as int];
            assert(before.open[before.open.len() - 1] < before.layers.len());
            std::mem::swap(&mut self.layers[k], &mut l);
            assert(layer_of(l) == lv);
            l.vars.push(e);
            assert(entries(l.vars@) =~= lv.vars.push((name@, v)));
            std::mem::swap(&mut self.layers[k], &mut l);
            proof {
                let want = with_value(before, name@, v);
                assert(self@.layers =~= want.layers);
                assert(self@.dynamic =~= before.dynamic);
            }
        }
    }

    /// Defines a function in the innermost scope.
    pub fn set_func(&mut self, name: &str, id: usize)
        requires
            old(self)@.wf(),
        ensures
            final(self)@ == with_function(old(self)@, name@, id),
            final(self)@.wf(),
    {
        let ghost before = self@;
        let k: usize = self.open[self.open.len() - 1];
        let mut l = Layer { vars: Vec::new(), funcs: Vec::new(), modules: Vec::new() };
        let ghost lv = before.layers[k as int];
        assert(before.open[before.open.len() - 1] < before.layers.len());
        std::mem::swap(&mut self.layers[k], &mut l);
        assert(layer_of(l) == lv);
        l.funcs.push(Named { name: name.to_owned(), id });
        assert(table(l.funcs@) =~= lv.funcs.push((name@, id)));
        std::mem::swap(&mut self.layers[k], &mut l);
        proof {
            assert(self@.layers =~= with_function(before, name@, id).layers);
            assert(self@.dynamic =~= before.dynamic);
        }
    }

    /// Defines a module in the innermost scope.
    pub fn set_module(&mut self, name: &str, id: usize)
        requires
            old(self)@.wf(),
        ensures
            final(self)@ == with_module(old(self)@, name@, id),
            final(self)@.wf(),
    {
        let ghost before = self@;
        let k: usize = self.open[self.open.len() - 1];
        let mut l = Layer { vars: Vec::new(), funcs: Vec::new(), modules: Vec::new() };
        let ghost lv = before.layers[k as int];
        assert(before.open[before.open.len() - 1] < before.layers.len());
        std::mem::swap(&mut self.layers[k], &mut l);
        assert(layer_of(l) == lv);
        l.modules.push(Named { name: name.to_owned(), id });
        assert(table(l.modules@) =~= lv.modules.push((name@, id)));
        std::mem::swap(&mut self.layers[k], &mut l);
        proof {
            assert(self@.layers =~= with_module(before, name@, id).layers);
            assert(self@.dynamic =~= before.dynamic);
        }
    }

    /// Takes the definitions of another scope into the innermost one.
    pub fn import_definitions(&mut self, from: usize)
        requires
            old(self)@.wf(),
            from < old(self)@.layers.len(),
        ensures
            final(self)@ == with_definitions(old(self)@, from as int),
            final(self)@.wf(),
    {
        let ghost before = self@;
        let k: usize = self.open[self.open.len() - 1];
        assert(before.open[before.open.len() - 1] < before.layers.len());
        let mut funcs: Vec<Named> = Vec::new();
        let mut modules: Vec<Named> = Vec::new();
        let ghost fv = before.layers[from as int];
        assert(fv == layer_of(self.layers@[from as int]));
        copy_named(&self.layers[from].funcs, &mut funcs);
        copy_named(&self.layers[from].modules, &mut modules);
        assert(table(funcs@) =~= fv.funcs);
        assert(table(modules@) =~= fv.modules);
        let mut l = Layer { vars: Vec::new(), funcs: Vec::new(), modules: Vec::new() };
        let ghost lv = before.layers[k as int];
        std::mem::swap(&mut self.layers[k], &mut l);
        assert(layer_of(l) == lv);
        copy_named(&funcs, &mut l.funcs);
        copy_named(&modules, &mut l.modules);
        std::mem::swap(&mut self.layers[k], &mut l);
        proof {
            assert(self@.layers =~= with_definitions(before, from as int).layers);
            assert(self@.dynamic =~= before.dynamic);
        }
    }

    /// The value of a name.
    pub fn lookup_var(&self, name: &str) -> (r: Value)
        requires
            self@.wf(),
        ensures
            r@ == value_of(self@, name@),
    {
        let ghost s = self@;
        if special(name) {
            let mut i: usize = self.dynamic.len();
            assert(s.dynamic.take(s.dynamic.len() as int) =~= s.dynamic);
            while i > 0
                invariant
                    i <= self.dynamic@.len(),
                    s == self@,
                    s.dynamic == frames(self.dynamic@),
                    dynamic_value(s.dynamic, name@) == dynamic_value(s.dynamic.take(i as int), name@),
                    is_special(name@),
                decreases i,
            {
                proof {
                    assert(s.dynamic.take(i as int).last() == s.dynamic[i - 1]);
                    assert(s.dynamic.take(i as int).drop_last() =~= s.dynamic.take(i - 1));
                    assert(s.dynamic[i - 1] == entries(self.dynamic@[i - 1]@));
                }
                match find(&self.dynamic[i - 1], name) {
                    Some(v) => return v,
                    None => {},
                }
                i = i - 1;
            }
        } else {
            let mut i: usize = self.open.len();
            assert(s.open.take(s.open.len() as int) =~= s.open);
            while i > 0
                invariant
                    i <= self.open@.len(),
                    s == self@,
                    s.wf(),
                    s.open == self.open@,
                    s.layers == self.layers@.map_values(|l: Layer| layer_of(l)),
                    lexical_value(s.layers, s.open, name@) == lexical_value(
                        s.layers,
                        s.open.take(i as int),
                        name@,
                    ),
                    !is_special(name@),
                decreases i,
            {
                let k: usize = self.open[i - 1];
                proof {
                    assert(s.open.take(i as int).last() == k);
                    assert(s.open.take(i as int).drop_last() =~= s.open.take(i - 1));
                    assert(s.open[i - 1] < s.layers.len());
                    assert(s.layers[k as int] == layer_of(self.layers@[k as int]));
                }
                match find(&self.layers[k].vars, name) {
                    Some(v) => return v,
                    None => {},
                }
                i = i - 1;
            }
        }
        Value::Undef
    }

    /// The function that a name stands for.
    pub fn lookup_func(&self, name: &str) -> (r: Option<usize>)
        requires
            self@.wf(),
        ensures
            r == function_of(self@.layers, self@.open, name@),
    {
        let ghost s = self@;
        let mut i: usize = self.open.len();
        assert(s.open.take(s.open.len() as int) =~= s.open);
        while i > 0
            invariant
                i <= self.open@.len(),
                s == self@,
                s.wf(),
                s.open == self.open@,
                s.layers == self.layers@.map_values(|l: Layer| layer_of(l)),
                function_of(s.layers, s.open, name@) == function_of(
                    s.layers,
                    s.open.take(i as int),
                    name@,
                ),
            decreases i,
        {
            let k: usize = self.open[i - 1];
            proof {
                assert(s.open.take(i as int).last() == k);
                assert(s.open.take(i as int).drop_last() =~= s.open.take(i - 1));
                assert(s.open[i - 1] < s.layers.len());
                assert(s.layers[k as int] == layer_of(self.layers@[k as int]));
            }
            match find_named(&self.layers[k].funcs, name) {
                Some(f) => return Some(f),
                None => {},
            }
            i = i - 1;
        }
        None
    }

    /// The module that a name stands for.
    pub fn lookup_module(&self, name: &str) -> (r: Option<usize>)
        requires
            self@.wf(),
        ensures
            r == module_of(self@.layers, self@.open, name@),
    {
        let ghost s = self@;
        let mut i: usize = self.open.len();
        assert(s.open.take(s.open.len() as int) =~= s.open);
        while i > 0
            invariant
                i <= self.open@.len(),
                s == self@,
                s.wf(),
                s.open == self.open@,
                s.layers == self.layers@.map_values(|l: Layer| layer_of(l)),
                module_of(s.layers, s.open, name@) == module_of(
                    s.layers,
                    s.open.take(i as int),
                    name@,
                ),
            decreases i,
        {
            let k: usize = self.open[i - 1];
            proof {
                assert(s.open.take(i as int).last() == k);
                assert(s.open.take(i as int).drop_last() =~= s.open.take(i - 1));
                assert(s.open[i - 1] < s.layers.len());
                assert(s.layers[k as int] == layer_of(self.layers@[k as int]));
            }
            match find_named(&self.layers[k].modules, name) {
                Some(f) => return Some(f),
                None => {},
            }
            i = i - 1;
        }
        None
    }

    /// How many scopes are open.
    pub fn depth(&self) -> (r: usize)
        ensures
            r == self@.open.len(),
    {
        self.open.len()
    }

    /// The innermost scope's number.
    pub fn innermost(&self) -> (r: usize)
        requires
            self@.wf(),
        ensures
            r == self@.top(),
    {
        self.open[self.open.len() - 1]
    }
}

// ---- laws --------------------------------------------------------------------------------------

/// A name has the value it was given last, and no other name changes its value.
pub proof fn law_value_is_what_was_set(s: ScopesView, name: Seq<char>, v: Val, other: Seq<char>)
    requires
        s.wf(),
    ensures
        value_of(with_value(s, name, v), name) == v,
        other != name ==> value_of(with_value(s, name, v), other) == value_of(s, other),
{
    let t = with_value(s, name, v);
    if is_special(name) {
        let f = s.dynamic.last().push((name, v));
        assert(t.dynamic.last() == f);
        assert(f.drop_last() =~= s.dynamic.last());
        assert(found(f, name) == Some(v));
        assert(t.dynamic.drop_last() =~= s.dynamic.drop_last());
        if other != name {
            assert(found(f, other) == found(s.dynamic.last(), other));
        }
    } else {
        let k = s.top();
        let vars = s.layers[k].vars.push((name, v));
        assert(s.open[s.open.len() - 1] < s.layers.len());
        assert(t.layers[k].vars == vars);
        assert(vars.drop_last() =~= s.layers[k].vars);
        assert(found(vars, name) == Some(v));
        if other != name {
            assert(found(vars, other) == found(s.layers[k].vars, other));
            lemma_lexical_same(s.layers, t.layers, s.open, other);
        }
    }
}

proof fn lemma_lexical_same(a: Seq<LayerView>, b: Seq<LayerView>, open: Seq<usize>, name: Seq<char>)
    requires
        forall|i: int|
            0 <= i < open.len() ==> found(a[#[trigger] open[i] as int].vars, name) == found(
                b[open[i] as int].vars,
                name,
            ),
    ensures
        lexical_value(a, open, name) == lexical_value(b, open, name),
    decreases open.len(),
{
    if open.len() > 0 {
        assert(open.last() == open[open.len() - 1]);
        let o = open.drop_last();
        assert forall|i: int| 0 <= i < o.len() implies found(a[#[trigger] o[i] as int].vars, name)
            == found(b[o[i] as int].vars, name) by {
            assert(o[i] == open[i]);
        }
        lemma_lexical_same(a, b, o, name);
    }
}

/// What happens to a name in a scope of its own is over when the scope is
/// closed.
pub proof fn law_scope_ends(s: ScopesView, name: Seq<char>, v: Val, other: Seq<char>)
    requires
        s.wf(),
        s.layers.len() < usize::MAX,
    ensures
        value_of(closed(with_value(opened(s), name, v)), other) == value_of(s, other),
{
    let o = opened(s);
    let t = closed(with_value(o, name, v));
    assert(o.open.last() == s.layers.len());
    assert(t.open =~= s.open);
    if is_special(name) {
        assert(t.dynamic =~= s.dynamic);
        assert(t.layers == o.layers);
    } else {
        assert(t.dynamic =~= s.dynamic);
    }
    assert forall|i: int| 0 <= i < s.open.len() implies found(
        s.layers[#[trigger] s.open[i] as int].vars,
        other,
    ) == found(t.layers[s.open[i] as int].vars, other) by {
        assert(s.open[i] < s.layers.len());
        assert(t.layers[s.open[i] as int] == s.layers[s.open[i] as int]);
    }
    lemma_lexical_same(s.layers, t.layers, s.open, other);
}

proof fn lemma_given_stays_inside(s: ScopesView, list: Env, n: int)
    requires
        s.wf(),
        s.open.len() > 0,
        0 <= n <= list.len(),
    ensures
        with_values(s, list, n).open == s.open,
        with_values(s, list, n).layers.len() == s.layers.len(),
        with_values(s, list, n).dynamic.len() == s.dynamic.len(),
        with_values(s, list, n).dynamic.drop_last() =~= s.dynamic.drop_last(),
        forall|k: int|
            0 <= k < s.layers.len() && k != s.top() ==> #[trigger] with_values(s, list, n).layers[k]
                == s.layers[k],
    decreases n,
{
    if n > 0 {
        lemma_given_stays_inside(s, list, n - 1);
        let t = with_values(s, list, n - 1);
        let u = with_values(s, list, n);
        assert(s.open[s.open.len() - 1] < s.layers.len());
        assert(u.dynamic.drop_last() =~= t.dynamic.drop_last());
    }
}

/// A call leaves no trace in the names of its caller, whatever it is given.
pub proof fn law_call_leaves_no_trace(s: ScopesView, env: Seq<usize>, given: Env, name: Seq<char>)
    requires
        s.wf(),
        s.layers.len() < usize::MAX,
        env.len() > 0,
        within(env, s.layers.len()),
    ensures
        value_of(ended(begun(s, env, given), s.open), name) == value_of(s, name),
{
    let o = opened(ScopesView { open: env, ..s });
    assert forall|i: int| 0 <= i < o.open.len() implies #[trigger] o.open[i] < o.layers.len() by {
        if i < env.len() {
            assert(env[i] < s.layers.len());
        }
    }
    lemma_given_stays_inside(o, given, given.len() as int);
    let b = begun(s, env, given);
    let t = ended(b, s.open);
    assert(o.top() == s.layers.len());
    assert(o.dynamic.drop_last() =~= s.dynamic);
    assert(t.dynamic =~= s.dynamic);
    assert forall|i: int| 0 <= i < s.open.len() implies found(
        s.layers[#[trigger] s.open[i] as int].vars,
        name,
    ) == found(t.layers[s.open[i] as int].vars, name) by {
        let k = s.open[i] as int;
        assert(s.open[i] < s.layers.len());
        assert(b.layers[k] == o.layers[k]);
        assert(o.layers[k] == s.layers[k]);
    }
    lemma_lexical_same(s.layers, t.layers, s.open, name);
}

/// An ordinary name is lexical: what its value is depends on the scopes that the
/// code stands in, not on the frames of its callers. A dynamic name is the
/// reverse.
pub proof fn law_two_kinds_of_names(s: ScopesView, t: ScopesView, name: Seq<char>)
    ensures
        !is_special(name) && s.layers == t.layers && s.open == t.open ==> value_of(s, name)
            == value_of(t, name),
        is_special(name) && s.dynamic == t.dynamic ==> value_of(s, name) == value_of(t, name),
{
}

// ---- sources -----------------------------------------------------------------------------------

/// The place of a key from the `i`-th on.
pub open spec fn key_place(keys: Seq<Seq<char>>, key: Seq<char>, i: int) -> Option<int>
    decreases keys.len() - i,
{
    if i < 0 || i >= keys.len() {
        None
    } else if keys[i] == key {
        Some(i)
    } else {
        key_place(keys, key, i + 1)
    }
}

/// A place as the number of a source, cut to 32 bits.
pub open spec fn source_number(place: int) -> u32 {
    (place % 0x1_0000_0000) as u32
}

/// The number of a source, and the list of keys with it. The first key is that of
/// the main source, which no file is looked up as.
pub open spec fn numbered(keys: Seq<Seq<char>>, key: Seq<char>) -> (u32, Seq<Seq<char>>) {
    match key_place(keys, key, 1) {
        Some(p) => (source_number(p), keys),
        None => (source_number(keys.len() as int), keys.push(key)),
    }
}

/// The number of a source: the place of its key in the list, which grows by a
/// key that is not in it.
pub fn register_source(keys: &mut Vec<String>, key: &str) -> (r: u32)
    ensures
        (r, texts(final(keys)@)) == numbered(texts(old(keys)@), key@),
{
    let ghost before = texts(keys@);
    let n: usize = keys.len();
    let mut i: usize = 1;
    while i < n
        invariant
            1 <= i,
            n == keys@.len(),
            before == texts(keys@),
            *keys == *old(keys),
            key_place(before, key@, 1) == key_place(before, key@, i as int),
        decreases n - i,
    {
        assert(before[i as int] == keys@[i as int]@);
        if same_text(keys[i].as_str(), key) {
            return (i as u64 % 0x1_0000_0000) as u32;
        }
        i = i + 1;
    }
    keys.push(key.to_owned());
    assert(texts(keys@) =~= before.push(key@));
    (n as u64 % 0x1_0000_0000) as u32
}

/// Keys that were numbered keep their numbers, and another key changes none.
pub proof fn law_numbers_stay(keys: Seq<Seq<char>>, key: Seq<char>, other: Seq<char>)
    requires
        keys.len() > 0,
    ensures
        ({
            let after = numbered(keys, key).1;
            &&& numbered(after, key) == (numbered(keys, key).0, after)
            &&& key_place(keys, other, 1) is Some ==> numbered(after, other).0 == numbered(
                keys,
                other,
            ).0
            &&& after[0] == keys[0]
        }),
{
    lemma_key_pushed(keys, key, key, 1);
    lemma_key_pushed(keys, key, other, 1);
}

proof fn lemma_key_pushed(keys: Seq<Seq<char>>, key: Seq<char>, other: Seq<char>, i: int)
    requires
        0 <= i <= keys.len(),
    ensures
        key_place(keys.push(key), other, i) == match key_place(keys, other, i) {
            Some(p) => Some(p),
            None => if key == other {
                Some(keys.len() as int)
            } else {
                None
            },
        },
    decreases keys.len() - i,
{
    if i < keys.len() {
        lemma_key_pushed(keys, key, other, i + 1);
        assert(keys.push(key)[i] == keys[i]);
    } else {
        assert(key_place(keys.push(key), other, i + 1) is None);
    }
}

} // verus!
