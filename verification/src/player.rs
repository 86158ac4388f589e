//! The program that statements run in: it keeps what is defined, loads files, and
//! calls modules.

use crate::ast::{Arg, Expr, Param};
use crate::blob::texts;
use crate::calls::{bind_params, ev_bind, scoped};
use crate::diag::{notes, EvalError, NoteView, Span};
use crate::eval::{do_assert, entries, eval_expr, find, passed, Entry, PassedArg, Scope};
use crate::heightmap::png_heightmap;
use crate::interp::{
    callable, closure_views, copy_numbers, lemma_definitions_taken, lemma_function_defined,
    lemma_same_functions, rightly_named, Interp,
};
use crate::meaning::{oracle, warned_at};
use crate::modules::{bind_named, names_of};
use crate::node::Node;
use crate::nodeview::{copy_node, lists_of, tree, tree_list, Tree};
use crate::num::{Arithmetic, Reading};
use crate::play::{
    around, body_ran, child_drawn, chosen, drawn_children, drawn_import, drawn_resource, drawn_text,
    drew, file_ran, image_surfaced, instantiated, listing, note, picked, resource_drawn,
    resource_names, stage_world, standing, surfaced, table_surfaced, used, values_passed, warned_of,
    Given, Level, Listing, ModuleView, Prog,
};
use crate::program::{
    behind, collect_child_slots, select_children, share_block, slots_below, source_span,
    warn_overwritten, warned_view, warning_views, Spanned, Stmt, Warned,
};
use crate::provenance::SourceSpan;
use crate::resources::{
    file_of, import_node, lines_of, missing_file, module_frame, rows_among, surface_ask,
    surface_rows, surface_words, text_ask, text_node, unusable_image, MAX_CALL_DEPTH,
};
use crate::scopes::{lemma_begun_functions, register_source, same_functions, within, ScopesView};
use crate::sem::{first_unnamed, EvNames};
use crate::splice::{
    bytes_read, expand, listed, loaded, parsed, pieces, unparsed_text, FileAsk, FileLog, FileOracle,
    FileSaid, Library,
};
use crate::stage::{
    arg_label, args_note, call_note, done_note, draw_group, eval_geom, eval_stmts, given_note,
    nodes_note, run_locals, value_note, Ctx, Definition, Outcome, StageAsk, StageOracle, StageSaid,
    StepOut,
};
use crate::surface::surface_polyhedron;
use crate::surfaces::Rgba;
use crate::text::same_text;
use crate::value::Value;
use std::rc::Rc;
use vstd::prelude::*;

verus! {

/// A module of the program.
pub struct Module {
    pub params: Rc<Vec<Param>>,
    pub body: Rc<Vec<Spanned>>,
    /// The scopes that were open where it was defined.
    pub open: Vec<usize>,
    /// Whether it was defined in the main source.
    pub main: bool,
    pub site: Option<SourceSpan>,
}

/// What a module is.
pub open spec fn module_view(d: Module) -> ModuleView {
    ModuleView { params: *d.params, body: *d.body, open: d.open@, main: d.main, site: d.site }
}

/// What a shared module is.
pub open spec fn module_at(d: Rc<Module>) -> ModuleView {
    module_view(*d)
}

/// The children that a module was given, and where they stand.
pub struct Frame {
    pub kids: Rc<Vec<Spanned>>,
    pub open: Vec<usize>,
    pub main: bool,
}

/// What a module was given.
pub open spec fn given_by(f: Frame) -> Given {
    Given { kids: *f.kids, open: f.open@, main: f.main }
}

/// The scopes are there, and some are open.
pub open spec fn placed(open: Seq<usize>, layers: nat) -> bool {
    open.len() > 0 && within(open, layers)
}

/// A running program.
pub struct Stage<L, A> {
    pub it: Interp<A>,
    pub host: L,
    pub log: FileLog,
    pub modules: Vec<Rc<Module>>,
    pub frames: Vec<Frame>,
    /// Whether the statements that run stand in the main source.
    pub in_main: bool,
    /// Whether it is kept where everything comes from.
    pub detailed: bool,
    pub root: Option<Node>,
    pub warned: Vec<Warned>,
    /// The values that assignments of the main source are given instead.
    pub overrides: Vec<Entry>,
    pub loading: Vec<String>,
    pub dir: String,
    /// The keys of the sources that have numbers; none unless places are kept.
    pub sources: Vec<String>,
    /// What splicing a file is called in messages.
    pub kind: String,
    /// How many files may still be nested.
    pub nesting: usize,
}

impl<L: Library, A: Arithmetic> Stage<L, A> {
    /// The interpreter is sound, and the scopes that modules and children stand
    /// in are there.
    pub open spec fn wf(&self) -> bool {
        &&& self.it.wf()
        &&& self.it.binds == MAX_CALL_DEPTH
        &&& entries(self.it.locals@) == Seq::<(Seq<char>, crate::value::Val)>::empty()
        &&& forall|i: int|
            0 <= i < self.frames@.len() ==> placed(
                (#[trigger] self.frames@[i]).open@,
                self.it.scopes@.layers.len(),
            )
        &&& forall|i: int|
            0 <= i < self.modules@.len() ==> placed(
                (#[trigger] self.modules@[i]).open@,
                self.it.scopes@.layers.len(),
            )
    }

    /// The running program.
    pub open spec fn prog(&self) -> Prog {
        Prog {
            k: self.it.store(),
            scopes: self.it.scopes@,
            running: texts(self.it.running@),
            here: self.it.here,
            frames: self.frames@.map_values(|f: Frame| given_by(f)),
            modules: self.modules@.map_values(|d: Rc<Module>| module_view(*d)),
            in_main: self.in_main,
            root: match self.root {
                Some(n) => Some(tree(n)),
                None => None,
            },
            warned: warned_view(self.warned@),
            loading: texts(self.loading@),
            dir: self.dir@,
            sources: texts(self.sources@),
            asked: self.log.count(),
        }
    }

    /// How it runs.
    pub open spec fn level(&self) -> Level {
        Level {
            limited: self.it.limited,
            detailed: self.detailed,
            overrides: entries(self.overrides@),
            kind: self.kind@,
            nesting: self.nesting as nat,
            depth: self.it.depth as nat,
            frames: self.frames@.len(),
        }
    }

    /// What surrounds its statements.
    pub open spec fn world(&self, m: Reading, o: FileOracle) -> StageOracle {
        stage_world(m, o, self.level())
    }

    pub open spec fn ctx(&self) -> Ctx {
        Ctx { in_main: self.in_main, detailed: self.detailed }
    }

    /// What running statements leaves as it is, but for the scopes.
    pub open spec fn rests(&self, from: Stage<L, A>) -> bool {
        &&& self.level() == from.level()
        &&& self.in_main == from.in_main
        &&& self.prog().frames == from.prog().frames
        &&& self.prog().running == from.prog().running
        &&& self.prog().loading == from.prog().loading
        &&& self.dir@ == from.dir@
        &&& self.nesting == from.nesting
        &&& self.it.depth == from.it.depth
        &&& self.frames@.len() == from.frames@.len()
        &&& self.it.scopes@.layers.len() >= from.it.scopes@.layers.len()
    }

    /// What running statements leaves as it is.
    pub open spec fn keeps(&self, from: Stage<L, A>) -> bool {
        &&& self.rests(from)
        &&& self.it.scopes@.open == from.it.scopes@.open
        &&& self.it.scopes@.dynamic.len() == from.it.scopes@.dynamic.len()
    }

    /// What surrounds the expressions of its statements.
    proof fn lemma_around(self)
        requires
            self.wf(),
        ensures
            self.it.site() == standing(self.prog()),
            forall|m: Reading| #[trigger] self.it.oracle(m) == around(m, self.level(), self.prog()),
    {
        assert(self.it.site().locals =~= Seq::empty());
    }

    /// Evaluates an expression of a statement.
    pub(crate) fn ask_eval(&mut self, e: &Expr) -> (r: Result<Value, EvalError>)
        requires
            old(self).wf(),
        ensures
            final(self).wf(),
            final(self).keeps(*old(self)),
            forall|m: Reading, o: FileOracle|
                #![trigger final(self).it.calc.agrees(m), final(self).log.agrees(o)]
                final(self).it.calc.agrees(m) && final(self).log.agrees(o) ==> old(
                    self,
                ).it.calc.agrees(m) && old(self).log.agrees(o) && old(self).world(m, o)(
                    old(self).prog(),
                    StageAsk::Eval(*e),
                ) == (StageSaid::Val(value_note(r)), final(self).prog()),
    {
        proof {
            reveal(stage_world);
            self.lemma_around();
        }
        let mut names = Scope::new();
        match eval_expr(&mut self.it, &mut names, e) {
            Ok(v) => Ok(v),
            Err(message) => Err(EvalError::new(message)),
        }
    }

    /// Gives a name a value.
    pub(crate) fn ask_bind(&mut self, name: &str, value: &Value)
        requires
            old(self).wf(),
        ensures
            final(self).wf(),
            final(self).keeps(*old(self)),
            forall|m: Reading, o: FileOracle|
                #![trigger final(self).it.calc.agrees(m), final(self).log.agrees(o)]
                final(self).it.calc.agrees(m) && final(self).log.agrees(o) ==> old(
                    self,
                ).it.calc.agrees(m) && old(self).log.agrees(o) && old(self).world(m, o)(
                    old(self).prog(),
                    StageAsk::Bind(name@, value@),
                ) == (StageSaid::Done(Ok(())), final(self).prog()),
    {
        proof {
            reveal(stage_world);
        }
        let ghost before = *self;
        self.it.scopes.set_var(name, value.duplicate());
        proof {
            lemma_grows(before, *self);
        }
    }

    /// Opens a scope.
    pub(crate) fn ask_enter(&mut self)
        requires
            old(self).wf(),
        ensures
            final(self).wf(),
            final(self).rests(*old(self)),
            final(self).it.scopes@.open.len() == old(self).it.scopes@.open.len() + 1,
            final(self).it.scopes@.open.drop_last() == old(self).it.scopes@.open,
            final(self).it.scopes@.dynamic.len() == old(self).it.scopes@.dynamic.len() + 1,
            forall|m: Reading, o: FileOracle|
                #![trigger final(self).it.calc.agrees(m), final(self).log.agrees(o)]
                final(self).it.calc.agrees(m) && final(self).log.agrees(o) ==> old(
                    self,
                ).it.calc.agrees(m) && old(self).log.agrees(o) && old(self).world(m, o)(
                    old(self).prog(),
                    StageAsk::Enter,
                ) == (StageSaid::Done(Ok(())), final(self).prog()),
    {
        proof {
            reveal(stage_world);
        }
        let ghost before = *self;
        self.it.scopes.push_scope();
        proof {
            lemma_grows(before, *self);
        }
    }

    /// Closes a scope.
    pub(crate) fn ask_leave(&mut self)
        requires
            old(self).wf(),
            old(self).it.scopes@.open.len() > 1,
            old(self).it.scopes@.dynamic.len() > 1,
        ensures
            final(self).wf(),
            final(self).rests(*old(self)),
            final(self).it.scopes@.open == old(self).it.scopes@.open.drop_last(),
            final(self).it.scopes@.dynamic.len() == old(self).it.scopes@.dynamic.len() - 1,
            forall|m: Reading, o: FileOracle|
                #![trigger final(self).it.calc.agrees(m), final(self).log.agrees(o)]
                final(self).it.calc.agrees(m) && final(self).log.agrees(o) ==> old(
                    self,
                ).it.calc.agrees(m) && old(self).log.agrees(o) && old(self).world(m, o)(
                    old(self).prog(),
                    StageAsk::Leave,
                ) == (StageSaid::Done(Ok(())), final(self).prog()),
    {
        proof {
            reveal(stage_world);
        }
        let ghost before = *self;
        self.it.scopes.pop_scope();
        proof {
            lemma_grows(before, *self);
        }
    }

    /// The value of a name.
    pub(crate) fn ask_around(&mut self, name: &str) -> (r: Value)
        requires
            old(self).wf(),
        ensures
            final(self).wf(),
            final(self).keeps(*old(self)),
            forall|m: Reading, o: FileOracle|
                #![trigger final(self).it.calc.agrees(m), final(self).log.agrees(o)]
                final(self).it.calc.agrees(m) && final(self).log.agrees(o) ==> old(
                    self,
                ).it.calc.agrees(m) && old(self).log.agrees(o) && old(self).world(m, o)(
                    old(self).prog(),
                    StageAsk::Around(name@),
                ) == (StageSaid::Val(Ok(r@)), final(self).prog()),
    {
        proof {
            reveal(stage_world);
        }
        self.it.scopes.lookup_var(name)
    }

    /// Takes a step.
    pub(crate) fn ask_burn(&mut self) -> (r: Result<(), EvalError>)
        requires
            old(self).wf(),
        ensures
            final(self).wf(),
            final(self).keeps(*old(self)),
            forall|m: Reading, o: FileOracle|
                #![trigger final(self).it.calc.agrees(m), final(self).log.agrees(o)]
                final(self).it.calc.agrees(m) && final(self).log.agrees(o) ==> old(
                    self,
                ).it.calc.agrees(m) && old(self).log.agrees(o) && old(self).world(m, o)(
                    old(self).prog(),
                    StageAsk::Burn,
                ) == (StageSaid::Done(done_note(r)), final(self).prog()),
    {
        proof {
            reveal(stage_world);
        }
        if self.it.burn() {
            Ok(())
        } else {
            Err(EvalError::new("evaluation budget exhausted".to_owned()))
        }
    }

    /// Draws a node in place of everything else.
    pub(crate) fn ask_root(&mut self, node: &Node)
        requires
            old(self).wf(),
        ensures
            final(self).wf(),
            final(self).keeps(*old(self)),
            forall|m: Reading, o: FileOracle|
                #![trigger final(self).it.calc.agrees(m), final(self).log.agrees(o)]
                final(self).it.calc.agrees(m) && final(self).log.agrees(o) ==> old(
                    self,
                ).it.calc.agrees(m) && old(self).log.agrees(o) && old(self).world(m, o)(
                    old(self).prog(),
                    StageAsk::Root(tree(*node)),
                ) == (StageSaid::Done(Ok(())), final(self).prog()),
    {
        proof {
            reveal(stage_world);
        }
        self.root = Some(copy_node(node));
    }

    /// The color that a value stands for.
    pub(crate) fn ask_tint(&mut self, c: &Value, alpha: Option<u64>) -> (r: Option<Rgba>)
        requires
            old(self).wf(),
        ensures
            final(self).wf(),
            final(self).keeps(*old(self)),
            forall|m: Reading, o: FileOracle|
                #![trigger final(self).it.calc.agrees(m), final(self).log.agrees(o)]
                final(self).it.calc.agrees(m) && final(self).log.agrees(o) ==> old(
                    self,
                ).it.calc.agrees(m) && old(self).log.agrees(o) && old(self).world(m, o)(
                    old(self).prog(),
                    StageAsk::Tint(c@, alpha),
                ) == (StageSaid::Tint(r), final(self).prog()),
    {
        proof {
            reveal(stage_world);
        }
        let r = self.host.tint(c, alpha);
        let ghost q = FileAsk::Tint(c@, alpha);
        let ghost said = FileSaid::Tint(r);
        self.log.note(Ghost(q), Ghost(said));
        r
    }

    /// Warns of a color that is none.
    pub(crate) fn ask_unknown_color(&mut self, c: &Value)
        requires
            old(self).wf(),
        ensures
            final(self).wf(),
            final(self).keeps(*old(self)),
            forall|m: Reading, o: FileOracle|
                #![trigger final(self).it.calc.agrees(m), final(self).log.agrees(o)]
                final(self).it.calc.agrees(m) && final(self).log.agrees(o) ==> old(
                    self,
                ).it.calc.agrees(m) && old(self).log.agrees(o) && old(self).world(m, o)(
                    old(self).prog(),
                    StageAsk::UnknownColor(c@),
                ) == (StageSaid::Done(Ok(())), final(self).prog()),
    {
        proof {
            reveal(stage_world);
        }
        let shown = c.repr(&mut self.it.calc, &self.it.texts);
        let mut message = "color: unknown color ".to_owned();
        message.append(shown.as_str());
        self.warn_one(message);
    }

    /// Goes to a statement.
    pub(crate) fn ask_at(&mut self, span: Option<Span>)
        requires
            old(self).wf(),
        ensures
            final(self).wf(),
            final(self).keeps(*old(self)),
            forall|m: Reading, o: FileOracle|
                #![trigger final(self).it.calc.agrees(m), final(self).log.agrees(o)]
                final(self).it.calc.agrees(m) && final(self).log.agrees(o) ==> old(
                    self,
                ).it.calc.agrees(m) && old(self).log.agrees(o) && old(self).world(m, o)(
                    old(self).prog(),
                    StageAsk::At(span),
                ) == (StageSaid::Done(Ok(())), final(self).prog()),
    {
        proof {
            reveal(stage_world);
        }
        self.it.here = span;
    }

    /// Warns of a dead assignment.
    pub(crate) fn ask_dead(&mut self, name: &str, span: Option<Span>)
        requires
            old(self).wf(),
        ensures
            final(self).wf(),
            final(self).keeps(*old(self)),
            forall|m: Reading, o: FileOracle|
                #![trigger final(self).it.calc.agrees(m), final(self).log.agrees(o)]
                final(self).it.calc.agrees(m) && final(self).log.agrees(o) ==> old(
                    self,
                ).it.calc.agrees(m) && old(self).log.agrees(o) && old(self).world(m, o)(
                    old(self).prog(),
                    StageAsk::Dead(name@, span),
                ) == (StageSaid::Done(Ok(())), final(self).prog()),
    {
        proof {
            reveal(stage_world);
        }
        assert(warning_views(self.it.warnings@) == notes(self.it.warnings@));
        warn_overwritten(&mut self.it.warnings, &mut self.warned, name, span);
        assert(warning_views(self.it.warnings@) == notes(self.it.warnings@));
    }

    /// The value that a name is given from outside.
    pub(crate) fn ask_given(&mut self, name: &str) -> (r: Option<Value>)
        requires
            old(self).wf(),
        ensures
            final(self).wf(),
            final(self).keeps(*old(self)),
            forall|m: Reading, o: FileOracle|
                #![trigger final(self).it.calc.agrees(m), final(self).log.agrees(o)]
                final(self).it.calc.agrees(m) && final(self).log.agrees(o) ==> old(
                    self,
                ).it.calc.agrees(m) && old(self).log.agrees(o) && old(self).world(m, o)(
                    old(self).prog(),
                    StageAsk::Given(name@),
                ) == (StageSaid::Given(given_note(r)), final(self).prog()),
    {
        proof {
            reveal(stage_world);
        }
        find(&self.overrides, name)
    }

    /// Prints a line of values.
    pub(crate) fn ask_echo(&mut self, args: &Vec<PassedArg>)
        requires
            old(self).wf(),
        ensures
            final(self).wf(),
            final(self).keeps(*old(self)),
            forall|m: Reading, o: FileOracle|
                #![trigger final(self).it.calc.agrees(m), final(self).log.agrees(o)]
                final(self).it.calc.agrees(m) && final(self).log.agrees(o) ==> old(
                    self,
                ).it.calc.agrees(m) && old(self).log.agrees(o) && old(self).world(m, o)(
                    old(self).prog(),
                    StageAsk::Echo(passed(args@)),
                ) == (StageSaid::Done(Ok(())), final(self).prog()),
    {
        proof {
            reveal(stage_world);
            reveal(oracle);
        }
        self.it.echo(args);
    }

    /// Checks an assertion.
    pub(crate) fn ask_check(&mut self, args: &Vec<Arg>) -> (r: Result<Value, EvalError>)
        requires
            old(self).wf(),
        ensures
            final(self).wf(),
            final(self).keeps(*old(self)),
            forall|m: Reading, o: FileOracle|
                #![trigger final(self).it.calc.agrees(m), final(self).log.agrees(o)]
                final(self).it.calc.agrees(m) && final(self).log.agrees(o) ==> old(
                    self,
                ).it.calc.agrees(m) && old(self).log.agrees(o) && old(self).world(m, o)(
                    old(self).prog(),
                    StageAsk::Check(*args),
                ) == (StageSaid::Val(value_note(r)), final(self).prog()),
    {
        proof {
            reveal(stage_world);
            self.lemma_around();
        }
        let mut names = Scope::new();
        match do_assert(&mut self.it, &mut names, args) {
            Ok(v) => Ok(v),
            Err(message) => Err(EvalError::new(message)),
        }
    }

    /// Warns, in the name of the statement that runs.
    fn warn_one(&mut self, message: String)
        requires
            old(self).wf(),
        ensures
            final(self).wf(),
            final(self).keeps(*old(self)),
            final(self).it.calc == old(self).it.calc,
            final(self).log == old(self).log,
            final(self).prog() == warned_of(old(self).prog(), seq![message@]),
    {
        let ghost w = self.it.store().warnings;
        let ghost here = self.it.here;
        let ghost said = message@;
        self.it.warn(message);
        assert(self.it.store().warnings =~= warned_at(w, seq![said], here));
    }

    /// Warns of some things.
    fn warn_all(&mut self, messages: &Vec<String>)
        requires
            old(self).wf(),
        ensures
            final(self).wf(),
            final(self).keeps(*old(self)),
            final(self).it.calc == old(self).it.calc,
            final(self).log == old(self).log,
            final(self).prog() == warned_of(old(self).prog(), texts(messages@)),
    {
        let ghost start = *self;
        let ghost all = texts(messages@);
        let mut i: usize = 0;
        assert(warned_at(start.it.store().warnings, all.take(0), start.it.here)
            =~= start.it.store().warnings);
        while i < messages.len()
            invariant
                i <= messages@.len(),
                all == texts(messages@),
                self.wf(),
                self.keeps(start),
                self.it.calc == start.it.calc,
                self.log == start.log,
                self.prog() == warned_of(start.prog(), all.take(i as int)),
            decreases messages.len() - i,
        {
            let ghost before = self.prog();
            self.warn_one(messages[i].clone());
            proof {
                assert(all.take(i + 1) =~= all.take(i as int).push(all[i as int]));
                assert(warned_of(before, seq![all[i as int]]).k.warnings =~= warned_of(
                    start.prog(),
                    all.take(i + 1),
                ).k.warnings);
            }
            i = i + 1;
        }
        assert(all.take(messages@.len() as int) =~= all);
    }
}

/// More scopes do no harm to what stands in those that were there.
proof fn lemma_grows<L: Library, A: Arithmetic>(a: Stage<L, A>, b: Stage<L, A>)
    requires
        a.wf(),
        b.it.scopes@.wf(),
        same_functions(a.it.scopes@.layers, b.it.scopes@.layers),
        b.it.closures == a.it.closures,
        b.it.binds == a.it.binds,
        b.it.locals == a.it.locals,
        b.frames@ == a.frames@,
        b.modules@ == a.modules@,
    ensures
        b.wf(),
{
    lemma_same_functions(
        a.it.scopes@.layers,
        b.it.scopes@.layers,
        closure_views(a.it.closures@),
    );
    lemma_stands(a, b);
}

/// Other scopes do no harm where functions are named rightly.
proof fn lemma_stands<L: Library, A: Arithmetic>(a: Stage<L, A>, b: Stage<L, A>)
    requires
        a.wf(),
        b.it.scopes@.wf(),
        rightly_named(b.it.scopes@.layers, closure_views(b.it.closures@)),
        b.it.scopes@.layers.len() >= a.it.scopes@.layers.len(),
        b.it.closures == a.it.closures,
        b.it.binds == a.it.binds,
        b.it.locals == a.it.locals,
        b.frames@ == a.frames@,
        b.modules@ == a.modules@,
    ensures
        b.wf(),
{
    let n = b.it.scopes@.layers.len();
    assert forall|i: int| 0 <= i < b.it.closures@.len() implies callable(
        *(#[trigger] b.it.closures@[i]),
        n,
    ) by {
        lemma_placed(a.it.closures@[i].open@, a.it.scopes@.layers.len(), n);
    }
    assert forall|i: int| 0 <= i < b.frames@.len() implies placed(
        (#[trigger] b.frames@[i]).open@,
        n,
    ) by {
        lemma_placed(a.frames@[i].open@, a.it.scopes@.layers.len(), n);
    }
    assert forall|i: int| 0 <= i < b.modules@.len() implies placed(
        (#[trigger] b.modules@[i]).open@,
        n,
    ) by {
        lemma_placed(a.modules@[i].open@, a.it.scopes@.layers.len(), n);
    }
}

proof fn lemma_placed(open: Seq<usize>, few: nat, many: nat)
    requires
        placed(open, few),
        few <= many,
    ensures
        placed(open, many),
        within(open, many),
{
    assert forall|i: int| 0 <= i < open.len() implies #[trigger] open[i] < many by {
        assert(open[i] < few);
    }
}

/// What a list of statements is to statements.
pub open spec fn list_note(r: Result<Vec<Spanned>, EvalError>) -> Result<Vec<Spanned>, NoteView> {
    match r {
        Ok(v) => Ok(v),
        Err(e) => Err(e@),
    }
}

/// Which children are asked for.
pub open spec fn which_note(
    r: Result<Option<Vec<u64>>, EvalError>,
) -> Result<Option<Seq<u64>>, NoteView> {
    match r {
        Ok(Some(v)) => Ok(Some(v@)),
        Ok(None) => Ok(None),
        Err(e) => Err(e@),
    }
}

/// Some numbers, if any.
pub open spec fn numbers_of(r: Option<Vec<u64>>) -> Option<Seq<u64>> {
    match r {
        Some(v) => Some(v@),
        None => None,
    }
}

/// Evaluates the arguments of a call.
fn run_values<L: Library, A: Arithmetic>(s: &mut Stage<L, A>, args: &Vec<Arg>) -> (r: Result<
    Vec<PassedArg>,
    EvalError,
>)
    requires
        old(s).wf(),
    ensures
        final(s).wf(),
        final(s).keeps(*old(s)),
        final(s).log == old(s).log,
        forall|m: Reading| #[trigger]
            final(s).it.calc.agrees(m) ==> old(s).it.calc.agrees(m) && values_passed(
                m,
                old(s).level(),
                old(s).prog(),
                *args,
                0,
                Seq::empty(),
            ) == (args_note(r), final(s).prog()),
{
    let ghost s0 = *s;
    let mut out: Vec<PassedArg> = Vec::new();
    let mut i: usize = 0;
    assert(passed(out@) =~= Seq::empty());
    while i < args.len()
        invariant
            *old(s) == s0,
            i <= args@.len(),
            s.wf(),
            s.keeps(s0),
            s.log == s0.log,
            forall|m: Reading| #[trigger]
                s.it.calc.agrees(m) ==> s0.it.calc.agrees(m) && values_passed(
                    m,
                    s0.level(),
                    s0.prog(),
                    *args,
                    0,
                    Seq::empty(),
                ) == values_passed(m, s0.level(), s.prog(), *args, i as int, passed(out@)),
        decreases args.len() - i,
    {
        let ghost s1 = *s;
        proof {
            s.lemma_around();
        }
        let mut names = Scope::new();
        let v = eval_expr(&mut s.it, &mut names, &args[i].value);
        assert(s.prog() == (Prog { k: s.it.store(), ..s1.prog() }));
        match v {
            Ok(value) => {
                let ghost held = passed(out@);
                let ghost vv = value@;
                let name = match &args[i].name {
                    Some(n) => Some(n.clone()),
                    None => None,
                };
                out.push(PassedArg { name, value });
                assert(passed(out@) =~= held.push((arg_label(args@[i as int]), vv)));
            },
            Err(e) => return Err(EvalError::new(e)),
        }
        i = i + 1;
    }
    Ok(out)
}

/// Splices the files that statements name.
fn expand_files<L: Library, A: Arithmetic>(
    s: &mut Stage<L, A>,
    stmts: Vec<Spanned>,
    inner: bool,
) -> (r: Result<
    Vec<Spanned>,
    EvalError,
>)
    requires
        old(s).wf(),
    ensures
        final(s).wf(),
        final(s).keeps(*old(s)),
        final(s).it.calc == old(s).it.calc,
        final(s).prog().scopes == old(s).prog().scopes,
        final(s).it.here == old(s).it.here,
        forall|o: FileOracle| #[trigger]
            final(s).log.agrees(o) ==> old(s).log.agrees(o) && listing(
                o,
                old(s).level(),
                old(s).prog(),
                stmts@,
                inner,
            ) == (Listing { r: list_note(r), t: final(s).prog() }),
{
    proof {
        reveal(listing);
    }
    let ghost s0 = *s;
    let mut warnings: Vec<String> = Vec::new();
    let mut loading: Vec<String> = Vec::new();
    let ghost all = texts(s.loading@);
    for i in 0..s.loading.len()
        invariant
            *s == s0,
            all == texts(s.loading@),
            texts(loading@) =~= all.take(i as int),
    {
        let ghost held = texts(loading@);
        let one = s.loading[i].clone();
        let ghost ov = one@;
        loading.push(one);
        assert(texts(loading@) =~= held.push(ov));
    }
    assert(all.take(s.loading@.len() as int) =~= all);
    assert(texts(warnings@) =~= Seq::empty());
    let r = expand(
        &mut s.host,
        &mut s.log,
        &mut warnings,
        &mut s.sources,
        &mut loading,
        s.kind.as_str(),
        s.detailed,
        inner,
        s.dir.as_str(),
        stmts,
    );
    let ghost s1 = *s;
    assert(s1.prog() == (Prog {
        asked: s1.log.count(),
        sources: texts(s1.sources@),
        ..s0.prog()
    }));
    s.warn_all(&warnings);
    assert(s.prog() == (Prog {
        asked: s1.log.count(),
        sources: texts(s1.sources@),
        ..warned_of(s0.prog(), texts(warnings@))
    }));
    match r {
        Ok(list) => {
            let ghost q = FileAsk::Held(pieces(list@));
            let ghost said = FileSaid::Held(list);
            s.log.note(Ghost(q), Ghost(said));
            Ok(list)
        },
        Err(e) => Err(EvalError::new(e)),
    }
}

/// Runs statements that name files.
pub(crate) fn ask_spliced<L: Library, A: Arithmetic>(
    s: &mut Stage<L, A>,
    stmts: &Vec<Spanned>,
) -> (r: Result<
    Vec<Node>,
    EvalError,
>)
    requires
        old(s).wf(),
    ensures
        final(s).wf(),
        final(s).keeps(*old(s)),
        forall|m: Reading, o: FileOracle|
            #![trigger final(s).it.calc.agrees(m), final(s).log.agrees(o)]
            final(s).it.calc.agrees(m) && final(s).log.agrees(o) ==> old(s).it.calc.agrees(m) && old(
                s,
            ).log.agrees(o) && old(s).world(m, o)(old(s).prog(), StageAsk::Spliced(*stmts)) == (
                StageSaid::Nodes(nodes_note(r)),
                final(s).prog(),
            ),
    decreases old(s).nesting, old(s).it.depth, old(s).frames@.len(), 6int,
{
    proof {
        reveal(stage_world);
    }
    if s.nesting == 0 {
        return Err(EvalError::new("files are nested too deeply".to_owned()));
    }
    let list = match expand_files(s, share_block(stmts), false) {
        Ok(list) => list,
        Err(e) => return Err(e),
    };
    let n: usize = s.nesting;
    s.nesting = n - 1;
    let top: bool = s.it.scopes.depth() == 1;
    let here = s.it.here;
    let ghost s1 = *s;
    assert(s1.level() == (Level { nesting: (old(s).nesting - 1) as nat, ..old(s).level() }));
    let r = eval_stmts(s, top, here, &list);
    s.nesting = n;
    r
}

/// Imports the definitions of a file.
#[verifier::spinoff_prover]
#[verifier::rlimit(60)]
pub fn import_use<L: Library, A: Arithmetic>(
    s: &mut Stage<L, A>,
    path: &str,
) -> (r: Result<(), EvalError>)
    requires
        old(s).wf(),
    ensures
        final(s).wf(),
        final(s).keeps(*old(s)),
        forall|m: Reading, o: FileOracle|
            #![trigger final(s).it.calc.agrees(m), final(s).log.agrees(o)]
            final(s).it.calc.agrees(m) && final(s).log.agrees(o) ==> old(s).it.calc.agrees(m) && old(
                s,
            ).log.agrees(o) && used(m, o, old(s).level(), old(s).prog(), path@) == (
                StageSaid::Done(done_note(r)),
                final(s).prog(),
            ),
    decreases old(s).nesting, old(s).it.depth, old(s).frames@.len(), 5int,
{
    let ghost s0 = *s;
    let file = s.host.load(path, s.dir.as_str());
    let ghost q = FileAsk::Load(path@, s.dir@);
    s.log.note(Ghost(q), Ghost(loaded(file)));
    let f = match file {
        None => {
            s.warn_one(missing_file("'use'", path));
            return Ok(());
        },
        Some(f) => f,
    };
    if listed(&s.loading, f.key.as_str()) {
        return Ok(());
    }
    let id: u32 = if s.detailed {
        register_source(&mut s.sources, f.key.as_str())
    } else {
        0
    };
    let statements = s.host.parse(f.source.as_str(), id);
    let ghost q2 = FileAsk::Parse(f.source@, id);
    s.log.note(Ghost(q2), Ghost(parsed(statements)));
    let stmts = match statements {
        Err(why) => return Err(EvalError::new(unparsed_text("use", path, why.as_str()))),
        Ok(stmts) => stmts,
    };
    if s.nesting == 0 {
        return Err(EvalError::new("files are nested too deeply".to_owned()));
    }
    let ghost inside = stmts@;
    let n: usize = s.nesting;
    let ghost l0 = texts(s.loading@);
    let ghost key = f.key@;
    let ghost s1 = *s;
    let open = s.it.scopes.captured();
    let mut base: Vec<usize> = Vec::new();
    base.push(open[0]);
    assert(base@ =~= seq![s0.prog().scopes.open[0]]);
    let none: Vec<Entry> = Vec::new();
    assert(entries(none@) =~= Seq::empty());
    let callers = s.it.scopes.begin_call(base, none);
    let own: usize = s.it.scopes.innermost();
    proof {
        lemma_begun_functions(s1.it.scopes@, base@, Seq::empty());
        lemma_grows(s1, *s);
    }
    let mut dir = f.dir;
    std::mem::swap(&mut s.dir, &mut dir);
    s.loading.push(f.key);
    assert(texts(s.loading@) =~= l0.push(key));
    let main = s.in_main;
    s.in_main = false;
    let here = s.it.here;
    let ghost s2 = *s;
    assert(s2.it.scopes@.open[s2.it.scopes@.open.len() - 1] < s2.it.scopes@.layers.len());
    let x = use_file(s, stmts);
    let ghost s3 = *s;
    s.in_main = main;
    std::mem::swap(&mut s.dir, &mut dir);
    s.loading.pop();
    assert(texts(s.loading@) =~= l0.push(key).drop_last());
    assert(l0.push(key).drop_last() =~= l0);
    proof {
        lemma_placed(callers@, s0.it.scopes@.layers.len(), s.it.scopes@.layers.len());
    }
    s.it.scopes.end_call(callers);
    proof {
        lemma_grows(s3, *s);
    }
    match x {
        Err(e) => Err(e),
        Ok(_) => {
            let ghost s4 = *s;
            s.it.scopes.import_definitions(own);
            proof {
                lemma_definitions_taken(
                    s4.it.scopes@,
                    own as int,
                    closure_views(s4.it.closures@),
                );
                lemma_stands(s4, *s);
            }
            Ok(())
        },
    }
}

/// Runs the definitions and assignments of a file, one file deeper.
fn use_file<L: Library, A: Arithmetic>(
    s: &mut Stage<L, A>,
    stmts: Vec<Spanned>,
) -> (r: Result<(), EvalError>)
    requires
        old(s).wf(),
        old(s).nesting > 0,
    ensures
        final(s).wf(),
        final(s).keeps(*old(s)),
        forall|m: Reading, o: FileOracle|
            #![trigger final(s).it.calc.agrees(m), final(s).log.agrees(o)]
            final(s).it.calc.agrees(m) && final(s).log.agrees(o) ==> old(s).it.calc.agrees(m) && old(
                s,
            ).log.agrees(o) && (StepOut { r: done_note(r), t: final(s).prog() }) == file_ran(
                stage_world(
                    m,
                    o,
                    Level { nesting: (old(s).nesting - 1) as nat, ..old(s).level() },
                ),
                old(s).ctx(),
                listing(o, old(s).level(), old(s).prog(), stmts@, true),
                old(s).it.here,
            ),
    decreases old(s).nesting, old(s).it.depth, old(s).frames@.len(), 4int,
{
    proof {
        reveal(file_ran);
    }
    let list = match expand_files(s, stmts, true) {
        Ok(list) => list,
        Err(e) => return Err(e),
    };
    let n: usize = s.nesting;
    s.nesting = n - 1;
    let here = s.it.here;
    assert(s.level() == (Level { nesting: (old(s).nesting - 1) as nat, ..old(s).level() }));
    let r = run_locals(s, false, here, &list);
    s.nesting = n;
    r
}

/// Takes in a definition.
pub(crate) fn ask_define<L: Library, A: Arithmetic>(
    s: &mut Stage<L, A>,
    d: &Spanned,
) -> (r: Result<(), EvalError>)
    requires
        old(s).wf(),
    ensures
        final(s).wf(),
        final(s).keeps(*old(s)),
        forall|m: Reading, o: FileOracle|
            #![trigger final(s).it.calc.agrees(m), final(s).log.agrees(o)]
            final(s).it.calc.agrees(m) && final(s).log.agrees(o) ==> old(s).it.calc.agrees(m) && old(
                s,
            ).log.agrees(o) && old(s).world(m, o)(old(s).prog(), StageAsk::Define(*d)) == (
                StageSaid::Done(done_note(r)),
                final(s).prog(),
            ),
    decreases old(s).nesting, old(s).it.depth, old(s).frames@.len(), 6int,
{
    proof {
        reveal(stage_world);
    }
    let ghost s0 = *s;
    match &*d.node {
        Stmt::FunctionDef { name, params, body } => {
            let none: Vec<Entry> = Vec::new();
            assert(entries(none@) =~= Seq::empty());
            let f: usize = s.it.keep(params, body, none, Some(name.clone()));
            let ghost s1 = *s;
            s.it.scopes.set_func(name.as_str(), f);
            proof {
                lemma_function_defined(
                    s1.it.scopes@,
                    name@,
                    f,
                    closure_views(s1.it.closures@),
                );
                lemma_stands(s1, *s);
            }
            Ok(())
        },
        Stmt::ModuleDef { name, params, body } => {
            let site = if s.detailed {
                Some(source_span(d))
            } else {
                None
            };
            let one = Module {
                params: params.clone(),
                body: body.clone(),
                open: s.it.scopes.captured(),
                main: s.in_main,
                site,
            };
            let ghost ov = module_view(one);
            let n: usize = s.modules.len();
            let ghost m0 = s0.prog().modules;
            let rc = Rc::new(one);
            s.modules.push(rc);
            assert(s.prog().modules =~= m0.push(ov));
            let ghost s1 = *s;
            assert(s1.wf()) by {
                assert forall|i: int| 0 <= i < s1.modules@.len() implies placed(
                    (#[trigger] s1.modules@[i]).open@,
                    s1.it.scopes@.layers.len(),
                ) by {
                    if i < s0.modules@.len() {
                        assert(s1.modules@[i] == s0.modules@[i]);
                    }
                }
            }
            s.it.scopes.set_module(name.as_str(), n);
            proof {
                lemma_grows(s1, *s);
            }
            Ok(())
        },
        Stmt::Use { path } => import_use(s, path.as_str()),
        _ => Ok(()),
    }
}

fn positional_of(name: &str) -> (r: Option<Vec<String>>)
    ensures
        match r {
            Some(v) => resource_names(name@) == Some(names_of(v@)),
            None => resource_names(name@) is None,
        },
{
    let mut v: Vec<String> = Vec::new();
    if same_text(name, "import") {
        v.push("file".to_owned());
        assert(names_of(v@) =~= seq!["file"@]);
    } else if same_text(name, "surface") {
        v.push("file".to_owned());
        v.push("center".to_owned());
        v.push("convexity".to_owned());
        v.push("invert".to_owned());
        assert(names_of(v@) =~= seq!["file"@, "center"@, "convexity"@, "invert"@]);
    } else if same_text(name, "text") {
        v.push("text".to_owned());
        v.push("size".to_owned());
        v.push("font".to_owned());
        v.push("direction".to_owned());
        v.push("language".to_owned());
        v.push("script".to_owned());
        v.push("halign".to_owned());
        v.push("valign".to_owned());
        v.push("spacing".to_owned());
        assert(names_of(v@) =~= seq![
            "text"@,
            "size"@,
            "font"@,
            "direction"@,
            "language"@,
            "script"@,
            "halign"@,
            "valign"@,
            "spacing"@,
        ]);
    } else {
        return None;
    }
    Some(v)
}

/// What a call that no module of the program answers comes to.
pub open spec fn node_called(
    r: Result<Node, EvalError>,
) -> Result<(Tree, Option<Definition>), NoteView> {
    match r {
        Ok(n) => Ok((tree(n), None)),
        Err(e) => Err(e@),
    }
}

/// Imports a mesh or a drawing.
fn draw_import<L: Library, A: Arithmetic>(s: &mut Stage<L, A>, e: &Vec<Entry>) -> (r: Result<
    Node,
    EvalError,
>)
    requires
        old(s).wf(),
    ensures
        final(s).wf(),
        final(s).keeps(*old(s)),
        forall|m: Reading, o: FileOracle|
            #![trigger final(s).it.calc.agrees(m), final(s).log.agrees(o)]
            final(s).it.calc.agrees(m) && final(s).log.agrees(o) ==> old(s).it.calc.agrees(m) && old(
                s,
            ).log.agrees(o) && drawn_import(o, old(s).prog(), entries(e@)) == (
                StageSaid::Called(node_called(r)),
                final(s).prog(),
            ),
{
    let path = match file_of(e) {
        Some(path) => path,
        None => return Ok(Node::Empty),
    };
    let data = s.host.bytes(path.as_str(), s.dir.as_str());
    let ghost q = FileAsk::Bytes(path@, s.dir@);
    s.log.note(Ghost(q), Ghost(bytes_read(data)));
    let (node, warning) = import_node(path.as_str(), data);
    match warning {
        Some(w) => s.warn_one(w),
        None => {},
    }
    Ok(node)
}

/// Draws a text.
fn draw_text<L: Library, A: Arithmetic>(
    s: &mut Stage<L, A>,
    e: &Vec<Entry>,
) -> (r: Result<Node, EvalError>)
    requires
        old(s).wf(),
    ensures
        final(s).wf(),
        final(s).keeps(*old(s)),
        forall|m: Reading, o: FileOracle|
            #![trigger final(s).it.calc.agrees(m), final(s).log.agrees(o)]
            final(s).it.calc.agrees(m) && final(s).log.agrees(o) ==> old(s).it.calc.agrees(m) && old(
                s,
            ).log.agrees(o) && drawn_text(m, o, old(s).prog(), entries(e@)) == (
                StageSaid::Called(node_called(r)),
                final(s).prog(),
            ),
{
    let around = s.it.scopes.lookup_var("$fn");
    let ask = text_ask(&mut s.it.calc, &s.it.texts, e, &around);
    let (points, paths, at_hand) = s.host.outlines(&ask);
    let ghost q = FileAsk::Outlines(ask@);
    let ghost said = FileSaid::Outlines(points@, lists_of(paths@), at_hand);
    s.log.note(Ghost(q), Ghost(said));
    let (node, warning) = text_node(points, paths, ask.font.as_str(), at_hand);
    match warning {
        Some(w) => s.warn_one(w),
        None => {},
    }
    Ok(node)
}

/// Draws the surface over some rows.
fn draw_rows<L: Library, A: Arithmetic>(
    s: &mut Stage<L, A>,
    rows: Vec<Vec<u64>>,
    center: bool,
    image: bool,
) -> (r: Result<
    Node,
    EvalError,
>)
    requires
        old(s).wf(),
    ensures
        final(s).wf(),
        final(s).keeps(*old(s)),
        forall|m: Reading, o: FileOracle|
            #![trigger final(s).it.calc.agrees(m), final(s).log.agrees(o)]
            final(s).it.calc.agrees(m) && final(s).log.agrees(o) ==> old(s).it.calc.agrees(m) && old(
                s,
            ).log.agrees(o) && surfaced(m, o, old(s).prog(), rows, center, image) == (
                StageSaid::Called(node_called(r)),
                final(s).prog(),
            ),
{
    match surface_polyhedron(&mut s.it.calc, &rows, center, image) {
        None => Err(EvalError::new("surface too large".to_owned())),
        Some(node) => {
            let ghost q = FileAsk::Surface(rows, center, image);
            let ghost said = FileSaid::Surface(node);
            s.log.note(Ghost(q), Ghost(said));
            Ok(node)
        },
    }
}

/// Draws the surface over the heights of an image.
fn draw_image<L: Library, A: Arithmetic>(
    s: &mut Stage<L, A>,
    path: &str,
    center: bool,
    invert: bool,
) -> (r: Result<
    Node,
    EvalError,
>)
    requires
        old(s).wf(),
    ensures
        final(s).wf(),
        final(s).keeps(*old(s)),
        forall|m: Reading, o: FileOracle|
            #![trigger final(s).it.calc.agrees(m), final(s).log.agrees(o)]
            final(s).it.calc.agrees(m) && final(s).log.agrees(o) ==> old(s).it.calc.agrees(m) && old(
                s,
            ).log.agrees(o) && image_surfaced(m, o, old(s).prog(), path@, center, invert) == (
                StageSaid::Called(node_called(r)),
                final(s).prog(),
            ),
{
    let data = s.host.bytes(path, s.dir.as_str());
    let ghost q = FileAsk::Bytes(path@, s.dir@);
    s.log.note(Ghost(q), Ghost(bytes_read(data)));
    match data {
        None => {
            s.warn_one(missing_file("surface", path));
            Ok(Node::Empty)
        },
        Some(bytes) => {
            let heights = png_heightmap(&mut s.it.calc, &bytes, invert);
            let ghost q2 = FileAsk::Heights(bytes@, invert);
            let ghost said = FileSaid::Heights(heights);
            s.log.note(Ghost(q2), Ghost(said));
            match heights {
                Ok(rows) => draw_rows(s, rows, center, true),
                Err(why) => {
                    s.warn_one(unusable_image(why.as_str(), path));
                    Ok(Node::Empty)
                },
            }
        },
    }
}

/// Draws the surface over a table of numbers.
fn draw_table<L: Library, A: Arithmetic>(
    s: &mut Stage<L, A>,
    path: &str,
    center: bool,
) -> (r: Result<
    Node,
    EvalError,
>)
    requires
        old(s).wf(),
    ensures
        final(s).wf(),
        final(s).keeps(*old(s)),
        forall|m: Reading, o: FileOracle|
            #![trigger final(s).it.calc.agrees(m), final(s).log.agrees(o)]
            final(s).it.calc.agrees(m) && final(s).log.agrees(o) ==> old(s).it.calc.agrees(m) && old(
                s,
            ).log.agrees(o) && table_surfaced(m, o, old(s).prog(), path@, center) == (
                StageSaid::Called(node_called(r)),
                final(s).prog(),
            ),
{
    let file = s.host.load(path, s.dir.as_str());
    let ghost q = FileAsk::Load(path@, s.dir@);
    s.log.note(Ghost(q), Ghost(loaded(file)));
    match file {
        None => {
            s.warn_one(missing_file("surface", path));
            Ok(Node::Empty)
        },
        Some(f) => {
            let words = surface_words(f.source.as_str());
            let read = s.host.numbers(&words);
            let ghost q2 = FileAsk::Numbers(lines_of(words@));
            let ghost said = FileSaid::Numbers(read@);
            s.log.note(Ghost(q2), Ghost(said));
            let rows = surface_rows(&read);
            let ghost q3 = FileAsk::Rows(rows_among(read@));
            let ghost held = FileSaid::Rows(rows);
            s.log.note(Ghost(q3), Ghost(held));
            draw_rows(s, rows, center, false)
        },
    }
}

/// Draws what a file or a font says, with some arguments.
fn draw_given<L: Library, A: Arithmetic>(
    s: &mut Stage<L, A>,
    name: &str,
    e: &Vec<Entry>,
) -> (r: Result<
    Node,
    EvalError,
>)
    requires
        old(s).wf(),
    ensures
        final(s).wf(),
        final(s).keeps(*old(s)),
        forall|m: Reading, o: FileOracle|
            #![trigger final(s).it.calc.agrees(m), final(s).log.agrees(o)]
            final(s).it.calc.agrees(m) && final(s).log.agrees(o) ==> old(s).it.calc.agrees(m) && old(
                s,
            ).log.agrees(o) && resource_drawn(m, o, old(s).prog(), name@, entries(e@)) == (
                StageSaid::Called(node_called(r)),
                final(s).prog(),
            ),
{
    proof {
        reveal(resource_drawn);
    }
    if same_text(name, "import") {
        return draw_import(s, e);
    }
    if same_text(name, "text") {
        return draw_text(s, e);
    }
    match surface_ask(e) {
        None => Ok(Node::Empty),
        Some(ask) => if ask.image {
            draw_image(s, ask.path.as_str(), ask.center, ask.invert)
        } else {
            draw_table(s, ask.path.as_str(), ask.center)
        },
    }
}

/// Draws what a file or a font says.
fn draw_resource<L: Library, A: Arithmetic>(
    s: &mut Stage<L, A>,
    name: &str,
    names: &Vec<String>,
    args: &Vec<Arg>,
) -> (r: Result<(Node, Option<Definition>), EvalError>)
    requires
        old(s).wf(),
    ensures
        final(s).wf(),
        final(s).keeps(*old(s)),
        forall|m: Reading, o: FileOracle|
            #![trigger final(s).it.calc.agrees(m), final(s).log.agrees(o)]
            final(s).it.calc.agrees(m) && final(s).log.agrees(o) ==> old(s).it.calc.agrees(m) && old(
                s,
            ).log.agrees(o) && drawn_resource(
                m,
                o,
                old(s).level(),
                old(s).prog(),
                name@,
                names_of(names@),
                *args,
            ) == (StageSaid::Called(call_note(r)), final(s).prog()),
{
    let p = match run_values(s, args) {
        Ok(p) => p,
        Err(e) => return Err(e),
    };
    let e = bind_named(names, &p);
    match draw_given(s, name, &e) {
        Ok(n) => Ok((n, None)),
        Err(e) => Err(e),
    }
}

/// Calls a module of the program, or one that reads files.
#[verifier::spinoff_prover]
#[verifier::rlimit(60)]
pub(crate) fn ask_call<L: Library, A: Arithmetic>(
    s: &mut Stage<L, A>,
    name: &str,
    args: &Vec<Arg>,
    children: &Rc<Vec<Spanned>>,
) -> (r: Result<(Node, Option<Definition>), EvalError>)
    requires
        old(s).wf(),
    ensures
        final(s).wf(),
        final(s).keeps(*old(s)),
        forall|m: Reading, o: FileOracle|
            #![trigger final(s).it.calc.agrees(m), final(s).log.agrees(o)]
            final(s).it.calc.agrees(m) && final(s).log.agrees(o) ==> old(s).it.calc.agrees(m) && old(
                s,
            ).log.agrees(o) && old(s).world(m, o)(
                old(s).prog(),
                (StageAsk::Call { name: name@, args: *args, children: **children }),
            ) == (StageSaid::Called(call_note(r)), final(s).prog()),
    decreases old(s).nesting, old(s).it.depth, old(s).frames@.len(), 6int,
{
    proof {
        reveal(stage_world);
    }
    if same_text(name, "children") {
        return match draw_children(s, args) {
            Ok(n) => Ok((n, None)),
            Err(e) => Err(e),
        };
    }
    match positional_of(name) {
        Some(names) => return draw_resource(s, name, &names, args),
        None => {},
    }
    let found: Option<usize> = s.it.scopes.lookup_module(name);
    let count: usize = s.modules.len();
    assert(s.prog().modules.len() == count);
    match found {
        Some(id) => {
            if id < count {
                let d = s.modules[id].clone();
                assert(s.prog().modules[id as int] == module_at(d));
                assert(placed(s.modules@[id as int].open@, s.it.scopes@.layers.len()));
                return instantiate_module(s, name, &*d, args, children);
            }
        },
        None => {},
    }
    let mut message = "Ignoring unknown module '".to_owned();
    message.append(name);
    message.append("'");
    s.warn_one(message);
    Ok((Node::Empty, None))
}

/// Calls a module: evaluates its arguments where the call stands, and runs its
/// body where the module was defined.
#[verifier::spinoff_prover]
#[verifier::rlimit(60)]
pub fn instantiate_module<L: Library, A: Arithmetic>(
    s: &mut Stage<L, A>,
    name: &str,
    d: &Module,
    args: &Vec<Arg>,
    children: &Rc<Vec<Spanned>>,
) -> (r: Result<(Node, Option<Definition>), EvalError>)
    requires
        old(s).wf(),
        placed(d.open@, old(s).it.scopes@.layers.len()),
    ensures
        final(s).wf(),
        final(s).keeps(*old(s)),
        forall|m: Reading, o: FileOracle|
            #![trigger final(s).it.calc.agrees(m), final(s).log.agrees(o)]
            final(s).it.calc.agrees(m) && final(s).log.agrees(o) ==> old(s).it.calc.agrees(m) && old(
                s,
            ).log.agrees(o) && instantiated(
                m,
                o,
                old(s).level(),
                old(s).prog(),
                name@,
                module_view(*d),
                *args,
                **children,
            ) == (StageSaid::Called(call_note(r)), final(s).prog()),
    decreases old(s).nesting, old(s).it.depth, old(s).frames@.len(), 5int,
{
    let depth: usize = s.it.depth;
    if depth == 0 {
        return Err(EvalError::new("maximum module recursion depth exceeded".to_owned()));
    }
    let ghost s0 = *s;
    let ghost r0 = texts(s.it.running@);
    s.it.depth = depth - 1;
    s.it.running.push(name.to_owned());
    assert(texts(s.it.running@) =~= r0.push(name@));
    let ghost s1 = *s;
    assert(s1.prog() == (Prog { running: r0.push(name@), ..s0.prog() }));
    assert(s1.level() == (Level { depth: (s0.level().depth - 1) as nat, ..s0.level() }));
    let p = run_values(s, args);
    let ghost s2 = *s;
    let r = match p {
        Err(e) => Err(e),
        Ok(p) => match bind_module(s, d, &p) {
            Err(e) => Err(EvalError::new(e)),
            Ok(names) => match run_module(s, d, names, children) {
                Err(e) => Err(e),
                Ok(list) => {
                    let site = if s.detailed {
                        Some(Definition { site: d.site })
                    } else {
                        None
                    };
                    Ok((draw_group(list), site))
                },
            },
        },
    };
    let ghost s3 = *s;
    assert(texts(s3.it.running@) == r0.push(name@));
    s.it.running.pop();
    s.it.depth = depth;
    assert(texts(s.it.running@) =~= r0.push(name@).drop_last());
    assert(r0.push(name@).drop_last() =~= r0);
    r
}

/// Binds the parameters of a module.
fn bind_module<L: Library, A: Arithmetic>(
    s: &mut Stage<L, A>,
    d: &Module,
    args: &Vec<PassedArg>,
) -> (r: Result<
    Scope,
    String,
>)
    requires
        old(s).wf(),
        placed(d.open@, old(s).it.scopes@.layers.len()),
    ensures
        final(s).wf(),
        final(s).keeps(*old(s)),
        final(s).log == old(s).log,
        final(s).prog() == (Prog { k: final(s).it.store(), ..old(s).prog() }),
        forall|m: Reading| #[trigger]
            final(s).it.calc.agrees(m) ==> old(s).it.calc.agrees(m) && ev_bind(
                m,
                around(
                    m,
                    old(s).level(),
                    Prog {
                        scopes: ScopesView { open: d.open@, ..old(s).prog().scopes },
                        ..old(s).prog()
                    },
                ),
                old(s).it.store(),
                Seq::empty(),
                *d.params,
                passed(args@),
            ) == (EvNames { r: scoped(r), k: final(s).it.store() }),
{
    let ghost s0 = *s;
    let callers = s.it.scopes.captured();
    s.it.scopes.reopen(copy_numbers(&d.open));
    proof {
        lemma_grows(s0, *s);
        s.lemma_around();
    }
    let ghost s1 = *s;
    let none: Vec<Entry> = Vec::new();
    assert(entries(none@) =~= Seq::empty());
    let r = bind_params(&mut s.it, &none, &*d.params, args);
    let ghost s2 = *s;
    s.it.scopes.reopen(callers);
    proof {
        lemma_grows(s2, *s);
        assert(s.it.scopes@ == s0.it.scopes@);
    }
    r
}

/// Runs the body of a module whose parameters are bound.
#[verifier::spinoff_prover]
#[verifier::rlimit(60)]
fn run_module<L: Library, A: Arithmetic>(
    s: &mut Stage<L, A>,
    d: &Module,
    names: Scope,
    children: &Rc<Vec<Spanned>>,
) -> (r: Result<Vec<Node>, EvalError>)
    requires
        old(s).wf(),
        placed(d.open@, old(s).it.scopes@.layers.len()),
    ensures
        final(s).wf(),
        final(s).keeps(*old(s)),
        forall|m: Reading, o: FileOracle|
            #![trigger final(s).it.calc.agrees(m), final(s).log.agrees(o)]
            final(s).it.calc.agrees(m) && final(s).log.agrees(o) ==> old(s).it.calc.agrees(m) && old(
                s,
            ).log.agrees(o) && body_ran(
                m,
                stage_world(
                    m,
                    o,
                    Level { frames: old(s).level().frames + 1, ..old(s).level() },
                ),
                old(s).detailed,
                old(s).prog(),
                module_view(*d),
                names@,
                **children,
            ) == (Outcome { r: nodes_note(r), t: final(s).prog() }),
    decreases old(s).nesting, old(s).it.depth, old(s).frames@.len() + 1, 10int,
{
    proof {
        reveal(body_ran);
    }
    let ghost s0 = *s;
    let ghost f0 = s0.prog().frames;
    let mut given = names.env;
    let mut more = names.specials;
    let ghost (ga, gb) = (entries(given@), entries(more@));
    given.append(&mut more);
    assert(entries(given@) =~= ga + gb);
    let running: usize = s.it.running.len();
    let frame = module_frame(&mut s.it.calc, given, &**children, running);
    let ghost s1 = *s;
    let ghost fe = entries(frame@);
    let callers = s.it.scopes.begin_call(copy_numbers(&d.open), frame);
    proof {
        lemma_begun_functions(s1.it.scopes@, d.open@, fe);
        lemma_grows(s1, *s);
    }
    let f = Frame { kids: children.clone(), open: copy_numbers(&callers), main: s.in_main };
    let ghost fv = given_by(f);
    let ghost s2 = *s;
    s.frames.push(f);
    let main = s.in_main;
    s.in_main = d.main;
    let here = s.it.here;
    proof {
        assert(s.prog().frames =~= f0.push(fv));
        lemma_placed(callers@, s0.it.scopes@.layers.len(), s.it.scopes@.layers.len());
        assert forall|i: int| 0 <= i < s.frames@.len() implies placed(
            (#[trigger] s.frames@[i]).open@,
            s.it.scopes@.layers.len(),
        ) by {
            if i < s2.frames@.len() {
                assert(s.frames@[i] == s2.frames@[i]);
            }
        }
    }
    let ghost s3 = *s;
    let r = eval_stmts(s, false, here, &*d.body);
    let ghost s4 = *s;
    proof {
        lemma_placed(callers@, s0.it.scopes@.layers.len(), s.it.scopes@.layers.len());
    }
    s.it.scopes.end_call(callers);
    proof {
        lemma_grows(s4, *s);
    }
    s.frames.pop();
    s.in_main = main;
    proof {
        assert(s.prog().frames =~= f0.push(fv).drop_last());
        assert(f0.push(fv).drop_last() =~= f0);
        assert(s.frames@ =~= s4.frames@.drop_last());
        assert forall|i: int| 0 <= i < s.frames@.len() implies placed(
            (#[trigger] s.frames@[i]).open@,
            s.it.scopes@.layers.len(),
        ) by {
            assert(s.frames@[i] == s4.frames@[i]);
        }
    }
    r
}

/// Finds out which children are asked for.
fn choose_children<L: Library, A: Arithmetic>(s: &mut Stage<L, A>, args: &Vec<Arg>) -> (r: Result<
    Option<Vec<u64>>,
    EvalError,
>)
    requires
        old(s).wf(),
    ensures
        final(s).wf(),
        final(s).keeps(*old(s)),
        final(s).log == old(s).log,
        final(s).frames == old(s).frames,
        final(s).it.scopes@ == old(s).it.scopes@,
        final(s).in_main == old(s).in_main,
        forall|m: Reading| #[trigger]
            final(s).it.calc.agrees(m) ==> old(s).it.calc.agrees(m) && chosen(
                m,
                old(s).level(),
                old(s).prog(),
                *args,
            ) == (which_note(r), final(s).prog()),
{
    if args.len() == 0 {
        return Ok(None);
    }
    let ghost s0 = *s;
    proof {
        s.lemma_around();
    }
    let mut i: usize = 0;
    while i < args.len() && args[i].name.is_some()
        invariant
            i <= args@.len(),
            first_unnamed(args@, 0) == first_unnamed(args@, i as int),
        decreases args.len() - i,
    {
        i = i + 1;
    }
    let v = if i < args.len() {
        let mut names = Scope::new();
        match eval_expr(&mut s.it, &mut names, &args[i].value) {
            Ok(v) => v,
            Err(e) => {
                assert(s.prog() == (Prog { k: s.it.store(), ..s0.prog() }));
                return Err(EvalError::new(e));
            },
        }
    } else {
        Value::Undef
    };
    assert(s.prog() == (Prog { k: s.it.store(), ..s0.prog() }));
    match select_children(&mut s.it.calc, &v) {
        Some(list) => Ok(Some(list)),
        None => Err(EvalError::new("range too large".to_owned())),
    }
}

/// Draws children, all or some of them, in the place where they stand.
fn draw_chosen<L: Library, A: Arithmetic>(
    s: &mut Stage<L, A>,
    kids: &Vec<Spanned>,
    which: &Option<Vec<u64>>,
) -> (r: Result<Vec<Node>, EvalError>)
    requires
        old(s).wf(),
    ensures
        final(s).wf(),
        final(s).keeps(*old(s)),
        forall|m: Reading, o: FileOracle|
            #![trigger final(s).it.calc.agrees(m), final(s).log.agrees(o)]
            final(s).it.calc.agrees(m) && final(s).log.agrees(o) ==> old(s).it.calc.agrees(m) && old(
                s,
            ).log.agrees(o) && drew(
                m,
                old(s).world(m, o),
                old(s).ctx(),
                old(s).prog(),
                *kids,
                numbers_of(*which),
            ) == (Outcome { r: nodes_note(r), t: final(s).prog() }),
    decreases old(s).nesting, old(s).it.depth, old(s).frames@.len(), 12int,
{
    proof {
        reveal(drew);
    }
    let here = s.it.here;
    match which {
        None => eval_stmts(s, false, here, kids),
        Some(numbers) => {
            match run_locals(s, false, here, kids) {
                Ok(_) => {},
                Err(e) => return Err(e),
            }
            draw_picked(s, here, kids, numbers)
        },
    }
}

/// Draws one child.
fn draw_child<L: Library, A: Arithmetic>(
    s: &mut Stage<L, A>,
    here: Option<Span>,
    one: &Spanned,
) -> (r: Result<
    Vec<Node>,
    EvalError,
>)
    requires
        old(s).wf(),
    ensures
        final(s).wf(),
        final(s).keeps(*old(s)),
        forall|m: Reading, o: FileOracle|
            #![trigger final(s).it.calc.agrees(m), final(s).log.agrees(o)]
            final(s).it.calc.agrees(m) && final(s).log.agrees(o) ==> old(s).it.calc.agrees(m) && old(
                s,
            ).log.agrees(o) && child_drawn(
                m,
                old(s).world(m, o),
                old(s).ctx(),
                old(s).prog(),
                here,
                *one,
            ) == (Outcome { r: nodes_note(r), t: final(s).prog() }),
    decreases old(s).nesting, old(s).it.depth, old(s).frames@.len(), 10int,
{
    proof {
        reveal(child_drawn);
    }
    let site = if s.detailed {
        Some(source_span(one))
    } else {
        None
    };
    eval_geom(s, here, site, &*one.node)
}

/// Draws the children with some numbers.
#[verifier::spinoff_prover]
#[verifier::rlimit(60)]
fn draw_picked<L: Library, A: Arithmetic>(
    s: &mut Stage<L, A>,
    here: Option<Span>,
    kids: &Vec<Spanned>,
    numbers: &Vec<u64>,
) -> (r: Result<Vec<Node>, EvalError>)
    requires
        old(s).wf(),
    ensures
        final(s).wf(),
        final(s).keeps(*old(s)),
        forall|m: Reading, o: FileOracle|
            #![trigger final(s).it.calc.agrees(m), final(s).log.agrees(o)]
            final(s).it.calc.agrees(m) && final(s).log.agrees(o) ==> old(s).it.calc.agrees(m) && old(
                s,
            ).log.agrees(o) && picked(
                m,
                old(s).world(m, o),
                old(s).ctx(),
                old(s).prog(),
                here,
                slots_below(*kids, kids@.len() as int),
                numbers@,
                0,
                Seq::empty(),
            ) == (Outcome { r: nodes_note(r), t: final(s).prog() }),
    decreases old(s).nesting, old(s).it.depth, old(s).frames@.len(), 11int,
{
    let ghost s0 = *s;
    let mut slots = Vec::new();
    collect_child_slots(kids, &mut slots);
    let ghost sv = slots_below(*kids, kids@.len() as int);
    assert(behind(slots@) =~= sv);
    let mut out: Vec<Node> = Vec::new();
    assert(tree_list(out@) =~= Seq::empty());
    let mut i: usize = 0;
    while i < numbers.len()
        invariant
            *old(s) == s0,
            i <= numbers@.len(),
            behind(slots@) == sv,
            sv == slots_below(*kids, kids@.len() as int),
            s.wf(),
            s.keeps(s0),
            forall|m: Reading, o: FileOracle|
                #![trigger s.it.calc.agrees(m), s.log.agrees(o)]
                s.it.calc.agrees(m) && s.log.agrees(o) ==> s0.it.calc.agrees(m) && s0.log.agrees(o)
                    && picked(
                    m,
                    s0.world(m, o),
                    s0.ctx(),
                    s0.prog(),
                    here,
                    sv,
                    numbers@,
                    0,
                    Seq::empty(),
                ) == picked(
                    m,
                    s0.world(m, o),
                    s0.ctx(),
                    s.prog(),
                    here,
                    sv,
                    numbers@,
                    i as int,
                    tree_list(out@),
                ),
        decreases numbers.len() - i,
    {
        let k: u64 = numbers[i];
        assert(sv.len() == slots@.len());
        if k < slots.len() as u64 {
            let one: &Spanned = slots[k as usize];
            assert(sv[k as int] == *one);
            let ghost s1 = *s;
            let child = draw_child(s, here, one);
            proof {
                assert forall|m: Reading, o: FileOracle|
                    #![trigger s.it.calc.agrees(m), s.log.agrees(o)]
                    s.it.calc.agrees(m) && s.log.agrees(o) implies s1.it.calc.agrees(m)
                    && s1.log.agrees(o) && child_drawn(
                    m,
                    s0.world(m, o),
                    s0.ctx(),
                    s1.prog(),
                    here,
                    sv[numbers@[i as int] as int],
                ) == (Outcome { r: nodes_note(child), t: s.prog() }) by {
                    assert(s1.world(m, o) == s0.world(m, o));
                    assert(s1.ctx() == s0.ctx());
                }
            }
            match child {
                Ok(list) => {
                    let ghost held = tree_list(out@);
                    let ghost added = tree_list(list@);
                    let mut more = list;
                    out.append(&mut more);
                    assert(tree_list(out@) =~= held + added);
                },
                Err(e) => return Err(e),
            }
        }
        i = i + 1;
    }
    Ok(out)
}

/// Draws the children of the module that runs.
#[verifier::spinoff_prover]
#[verifier::rlimit(60)]
pub fn draw_children<L: Library, A: Arithmetic>(s: &mut Stage<L, A>, args: &Vec<Arg>) -> (r: Result<
    Node,
    EvalError,
>)
    requires
        old(s).wf(),
    ensures
        final(s).wf(),
        final(s).keeps(*old(s)),
        forall|m: Reading, o: FileOracle|
            #![trigger final(s).it.calc.agrees(m), final(s).log.agrees(o)]
            final(s).it.calc.agrees(m) && final(s).log.agrees(o) ==> old(s).it.calc.agrees(m) && old(
                s,
            ).log.agrees(o) && drawn_children(m, o, old(s).level(), old(s).prog(), *args) == (
                StageSaid::Called(
                    match r {
                        Ok(n) => Ok((tree(n), None)),
                        Err(e) => Err(e@),
                    },
                ),
                final(s).prog(),
            ),
    decreases old(s).nesting, old(s).it.depth, old(s).frames@.len(), 5int,
{
    let ghost s0 = *s;
    let ghost f0 = s0.prog().frames;
    assert(f0.len() == s.frames@.len());
    if s.frames.len() == 0 {
        return Ok(Node::Empty);
    }
    let which = match choose_children(s, args) {
        Ok(w) => w,
        Err(e) => return Err(e),
    };
    let ghost s1 = *s;
    assert(s1.frames@ == s0.frames@);
    assert(placed(s1.frames@[s1.frames@.len() - 1].open@, s1.it.scopes@.layers.len()));
    let f = match s.frames.pop() {
        Some(f) => f,
        None => return Ok(Node::Empty),
    };
    let ghost s2 = *s;
    proof {
        assert(given_by(f) == f0.last());
        assert(s2.prog().frames =~= f0.drop_last());
        assert forall|i: int| 0 <= i < s2.frames@.len() implies placed(
            (#[trigger] s2.frames@[i]).open@,
            s2.it.scopes@.layers.len(),
        ) by {
            assert(s2.frames@[i] == s1.frames@[i]);
        }
        assert(s2.wf());
    }
    let none: Vec<Entry> = Vec::new();
    assert(entries(none@) =~= Seq::empty());
    let callers = s.it.scopes.begin_call(copy_numbers(&f.open), none);
    proof {
        lemma_begun_functions(s2.it.scopes@, f.open@, Seq::empty());
        lemma_grows(s2, *s);
    }
    let main = s.in_main;
    s.in_main = f.main;
    let ghost s3 = *s;
    assert(s3.level() == (Level { frames: (s0.level().frames - 1) as nat, ..s0.level() }));
    let r = draw_chosen(s, &*f.kids, &which);
    let ghost s4 = *s;
    proof {
        lemma_placed(callers@, s0.it.scopes@.layers.len(), s.it.scopes@.layers.len());
        lemma_placed(f.open@, s0.it.scopes@.layers.len(), s.it.scopes@.layers.len());
    }
    s.it.scopes.end_call(callers);
    proof {
        lemma_grows(s4, *s);
    }
    s.in_main = main;
    let ghost s5 = *s;
    let ghost fv = given_by(f);
    s.frames.push(f);
    proof {
        assert(s.prog().frames =~= f0.drop_last().push(fv));
        assert(f0.drop_last().push(f0.last()) =~= f0);
        assert forall|i: int| 0 <= i < s.frames@.len() implies placed(
            (#[trigger] s.frames@[i]).open@,
            s.it.scopes@.layers.len(),
        ) by {
            if i < s5.frames@.len() {
                assert(s.frames@[i] == s5.frames@[i]);
            }
        }
    }
    match r {
        Ok(list) => Ok(draw_group(list)),
        Err(e) => Err(e),
    }
}

} // verus!
