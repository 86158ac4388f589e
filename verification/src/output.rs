//! Running whole programs. A run takes in where the random numbers stand, and hands
//! back where they stand after it, so that one program goes on from another.

use crate::ast::{Arg, Expr};
use crate::blob::texts;
use crate::calls::no_names;
use crate::diag::{notes, EvalError, NoteView, Warning};
use crate::eval::{entries, Entry};
use crate::interp::Interp;
use crate::meaning::{one_more, oracle};
use crate::modules::program_node;
use crate::node::Node;
use crate::nodeview::{lemma_trees, tree, Tree};
use crate::num::{Arithmetic, Reading};
use crate::play::{
    around, body_ran, drawn_children, drew, instantiated, stage_world, used,
    values_passed, warned_of, Level, ModuleView, Prog,
};
use crate::player::Stage;
use crate::program::Spanned;
use crate::resources::{missing, MAX_CALL_DEPTH};
use crate::scopes::{
    begun, blank, dynamic_value, lexical_value, opened, value_of, with_value, ScopesView,
};
use crate::sem::{ev, ev_assert, exhausted, first_unnamed, is_special, Env, Passed, Store};
use crate::splice::{FileAsk, FileLog, FileOracle, FileSaid, FileView, Library};
use crate::stage::{
    arg_label, eval_stmts, grouped_tree, st_stmts, Ctx, Outcome, StageAsk, StageSaid,
};
use crate::value::{Val, Value};
use crate::viewport::{
    first_names, initial_specials, number_at, vector_at, viewport_of, with_overrides, Viewport,
};
use vstd::prelude::*;

verus! {

/// The ratio of a circle's circumference to its diameter.
pub const PI_BITS: u64 = 0x4009_21fb_5444_2d18;

/// How a program is run.
pub struct Setting {
    /// The directory that paths are relative to.
    pub dir: String,
    /// What splicing a file is called in messages.
    pub kind: String,
    /// The values that top-level assignments are given instead.
    pub overrides: Vec<Entry>,
    pub preview: bool,
    /// Whether it is kept where everything comes from.
    pub detailed: bool,
    /// How many steps it may take; the largest number means any number.
    pub fuel: u64,
    /// Where the random numbers go on from.
    pub random: u64,
}

/// How a program is run.
pub ghost struct Manner {
    pub dir: Seq<char>,
    pub kind: Seq<char>,
    pub overrides: Env,
    pub preview: bool,
    pub detailed: bool,
    pub fuel: u64,
    pub random: u64,
}

impl View for Setting {
    type V = Manner;

    open spec fn view(&self) -> Manner {
        Manner {
            dir: self.dir@,
            kind: self.kind@,
            overrides: entries(self.overrides@),
            preview: self.preview,
            detailed: self.detailed,
            fuel: self.fuel,
            random: self.random,
        }
    }
}

/// The scopes that a program starts with.
pub open spec fn first_scopes(preview: bool, overrides: Env) -> ScopesView {
    with_value(
        ScopesView {
            layers: seq![blank()],
            open: seq![0usize],
            dynamic: seq![with_overrides(first_names(preview), overrides, overrides.len() as int)],
        },
        "PI"@,
        Val::Number(PI_BITS),
    )
}

/// The sources that have numbers at first: the main one, where places are kept.
pub open spec fn first_sources(detailed: bool) -> Seq<Seq<char>> {
    if detailed {
        seq!["<main>"@]
    } else {
        Seq::empty()
    }
}

/// A program that has not run yet.
pub open spec fn at_first(how: Manner) -> Prog {
    Prog {
        k: Store {
            closures: Seq::empty(),
            texts: Seq::empty(),
            echoes: Seq::empty(),
            warnings: Seq::empty(),
            random: how.random,
            asserts: 0,
            fuel: how.fuel,
        },
        scopes: first_scopes(how.preview, how.overrides),
        running: Seq::empty(),
        here: None,
        frames: Seq::empty(),
        modules: Seq::empty(),
        in_main: true,
        root: None,
        warned: Seq::empty(),
        loading: Seq::empty(),
        dir: how.dir,
        sources: first_sources(how.detailed),
        asked: 0,
    }
}

/// How a program starts.
pub open spec fn first_level(how: Manner) -> Level {
    Level {
        limited: how.fuel != u64::MAX,
        detailed: how.detailed,
        overrides: how.overrides,
        kind: how.kind,
        nesting: usize::MAX as nat,
        depth: MAX_CALL_DEPTH as nat,
        frames: 0,
    }
}

/// What running a program comes to.
#[verifier::opaque]
pub open spec fn ran_program(
    m: Reading,
    o: FileOracle,
    how: Manner,
    program: Vec<Spanned>,
) -> Outcome {
    st_stmts(
        m,
        stage_world(m, o, first_level(how)),
        Ctx { in_main: true, detailed: how.detailed },
        at_first(how),
        true,
        None,
        program,
    )
}

/// What a program comes to.
#[derive(Debug)]
pub struct EvalOutput {
    pub node: Node,
    /// The keys of the sources by their numbers; none unless places are kept.
    pub source_keys: Vec<String>,
    pub echoes: Vec<String>,
    pub warnings: Vec<Warning>,
    /// How many assertions were checked.
    pub asserts_run: u64,
    pub viewport: Viewport,
}

/// The dynamic names that say where the camera is.
pub open spec fn camera_names(s: ScopesView) -> Env {
    seq![
        ("$vpr"@, value_of(s, "$vpr"@)),
        ("$vpt"@, value_of(s, "$vpt"@)),
        ("$vpd"@, value_of(s, "$vpd"@)),
        ("$vpf"@, value_of(s, "$vpf"@)),
    ]
}

/// The output, or the error, is what the program came to: what is drawn is the
/// node that replaces all others where there is one.
pub open spec fn is_output(x: Outcome, r: Result<EvalOutput, EvalError>) -> bool {
    match r {
        Err(e) => x.r == Err::<Seq<Tree>, NoteView>(e@),
        Ok(out) => match x.r {
            Err(_) => false,
            Ok(list) => {
                &&& tree(out.node) == match x.t.root {
                    Some(n) => n,
                    None => grouped_tree(list),
                }
                &&& texts(out.source_keys@) == x.t.sources
                &&& texts(out.echoes@) == x.t.k.echoes
                &&& notes(out.warnings@) == x.t.k.warnings
                &&& out.asserts_run == x.t.k.asserts
                &&& out.viewport == (Viewport {
                    vpr: vector_at(camera_names(x.t.scopes), "$vpr"@),
                    vpt: vector_at(camera_names(x.t.scopes), "$vpt"@),
                    vpd: number_at(camera_names(x.t.scopes), "$vpd"@),
                    vpf: number_at(camera_names(x.t.scopes), "$vpf"@),
                })
            },
        },
    }
}

/// The output is what the program came to, and the random numbers go on from
/// where the program has left them, whether it has failed or not.
pub open spec fn is_run(x: Outcome, r: Result<EvalOutput, EvalError>, random: u64) -> bool {
    is_output(x, r) && random == x.t.k.random
}

/// A stage on which nothing has run yet.
pub fn open_stage<L: Library, A: Arithmetic>(unit: A, host: L, how: Setting) -> (r: Stage<L, A>)
    ensures
        r.wf(),
        r.prog() == at_first(how@),
        r.level() == first_level(how@),
        r.in_main,
        r.detailed == how.detailed,
        r.host == host,
        forall|m: Reading| #[trigger] r.it.calc.agrees(m),
        forall|o: FileOracle| #[trigger] r.log.agrees(o),
{
    let base = initial_specials(how.preview, &how.overrides);
    let mut it = Interp::new(unit, base, how.fuel, how.random);
    let ghost v0 = it.scopes@;
    assert(v0 == (ScopesView {
        layers: seq![blank()],
        open: seq![0usize],
        dynamic: seq![
            with_overrides(
                first_names(how.preview),
                entries(how.overrides@),
                how.overrides@.len() as int,
            ),
        ],
    }));
    it.scopes.set_var("PI", Value::Number(PI_BITS));
    assert(it.scopes@ == first_scopes(how.preview, entries(how.overrides@)));
    let mut sources: Vec<String> = Vec::new();
    if how.detailed {
        sources.push("<main>".to_owned());
    }
    assert(texts(sources@) =~= first_sources(how.detailed));
    let s = Stage {
        it,
        host,
        log: FileLog::new(),
        modules: Vec::new(),
        frames: Vec::new(),
        in_main: true,
        detailed: how.detailed,
        root: None,
        warned: Vec::new(),
        overrides: how.overrides,
        loading: Vec::new(),
        dir: how.dir,
        sources,
        kind: how.kind,
        nesting: usize::MAX,
    };
    proof {
        assert(s.prog().k.closures =~= Seq::empty());
        assert(s.prog().k.texts =~= Seq::empty());
        assert(s.prog().k.echoes =~= Seq::empty());
        assert(s.prog().k.warnings =~= Seq::empty());
        assert(s.prog().running =~= Seq::empty());
        assert(s.prog().frames =~= Seq::empty());
        assert(s.prog().modules =~= Seq::empty());
        assert(s.prog().warned =~= Seq::empty());
        assert(s.prog().loading =~= Seq::empty());
        assert(entries(s.it.locals@) =~= Seq::empty());
    }
    s
}

/// Where the camera is.
fn camera<L: Library, A: Arithmetic>(s: &Stage<L, A>) -> (r: Viewport)
    requires
        s.wf(),
    ensures
        r == (Viewport {
            vpr: vector_at(camera_names(s.prog().scopes), "$vpr"@),
            vpt: vector_at(camera_names(s.prog().scopes), "$vpt"@),
            vpd: number_at(camera_names(s.prog().scopes), "$vpd"@),
            vpf: number_at(camera_names(s.prog().scopes), "$vpf"@),
        }),
{
    let mut names: Vec<Entry> = Vec::new();
    names.push(Entry { name: "$vpr".to_owned(), value: s.it.scopes.lookup_var("$vpr") });
    names.push(Entry { name: "$vpt".to_owned(), value: s.it.scopes.lookup_var("$vpt") });
    names.push(Entry { name: "$vpd".to_owned(), value: s.it.scopes.lookup_var("$vpd") });
    names.push(Entry { name: "$vpf".to_owned(), value: s.it.scopes.lookup_var("$vpf") });
    assert(entries(names@) =~= camera_names(s.prog().scopes));
    viewport_of(&names)
}

/// Runs a program on a stage on which nothing has run yet.
fn run_program<L: Library, A: Arithmetic>(
    s: &mut Stage<L, A>,
    program: &Vec<Spanned>,
    Ghost(how): Ghost<Manner>,
) -> (r: Result<EvalOutput, EvalError>)
    requires
        old(s).wf(),
        old(s).prog() == at_first(how),
        old(s).level() == first_level(how),
        old(s).in_main,
        old(s).detailed == how.detailed,
    ensures
        final(s).wf(),
        forall|m: Reading, o: FileOracle|
            #![trigger final(s).it.calc.agrees(m), final(s).log.agrees(o)]
            final(s).it.calc.agrees(m) && final(s).log.agrees(o) ==> old(s).it.calc.agrees(m) && old(
                s,
            ).log.agrees(o) && is_output(ran_program(m, o, how, *program), r) && final(s).it.random
                == ran_program(m, o, how, *program).t.k.random,
{
    proof {
        reveal(ran_program);
    }
    let nodes = match eval_stmts(s, true, None, program) {
        Ok(v) => v,
        Err(e) => return Err(e),
    };
    let viewport = camera(s);
    let mut root: Option<Node> = None;
    let ghost s1 = *s;
    std::mem::swap(&mut s.root, &mut root);
    let mut source_keys: Vec<String> = Vec::new();
    std::mem::swap(&mut s.sources, &mut source_keys);
    let mut echoes: Vec<String> = Vec::new();
    std::mem::swap(&mut s.it.echoes, &mut echoes);
    let mut warnings: Vec<Warning> = Vec::new();
    std::mem::swap(&mut s.it.warnings, &mut warnings);
    proof {
        lemma_trees(nodes);
    }
    let node = program_node(root, nodes);
    Ok(EvalOutput { node, source_keys, echoes, warnings, asserts_run: s.it.asserts, viewport })
}

/// Runs a program from the current directory.
pub fn eval_program<L: Library, A: Arithmetic>(
    unit: A,
    program: &Vec<Spanned>,
    host: L,
    kind: String,
    random: u64,
) -> (r: (Result<EvalOutput, EvalError>, Stage<L, A>))
    ensures
        forall|m: Reading, o: FileOracle|
            #![trigger r.1.it.calc.agrees(m), r.1.log.agrees(o)]
            r.1.it.calc.agrees(m) && r.1.log.agrees(o) ==> is_run(
                ran_program(
                    m,
                    o,
                    (Manner {
                        dir: "."@,
                        kind: kind@,
                        overrides: Seq::empty(),
                        preview: true,
                        detailed: false,
                        fuel: u64::MAX,
                        random,
                    }),
                    *program,
                ),
                r.0,
                r.1.it.random,
            ),
{
    let none: Vec<Entry> = Vec::new();
    assert(entries(none@) =~= Seq::empty());
    let how = Setting {
        dir: ".".to_owned(),
        kind,
        overrides: none,
        preview: true,
        detailed: false,
        fuel: u64::MAX,
        random,
    };
    let ghost h = how@;
    let mut s = open_stage(unit, host, how);
    let r = run_program(&mut s, program, Ghost(h));
    (r, s)
}

/// Runs a program from a directory.
pub fn eval_program_with<L: Library, A: Arithmetic>(
    unit: A,
    program: &Vec<Spanned>,
    host: L,
    kind: String,
    random: u64,
    dir: String,
) -> (r: (Result<EvalOutput, EvalError>, Stage<L, A>))
    ensures
        forall|m: Reading, o: FileOracle|
            #![trigger r.1.it.calc.agrees(m), r.1.log.agrees(o)]
            r.1.it.calc.agrees(m) && r.1.log.agrees(o) ==> is_run(
                ran_program(
                    m,
                    o,
                    (Manner {
                        dir: dir@,
                        kind: kind@,
                        overrides: Seq::empty(),
                        preview: true,
                        detailed: false,
                        fuel: u64::MAX,
                        random,
                    }),
                    *program,
                ),
                r.0,
                r.1.it.random,
            ),
{
    let none: Vec<Entry> = Vec::new();
    assert(entries(none@) =~= Seq::empty());
    let how = Setting {
        dir,
        kind,
        overrides: none,
        preview: true,
        detailed: false,
        fuel: u64::MAX,
        random,
    };
    let ghost h = how@;
    let mut s = open_stage(unit, host, how);
    let r = run_program(&mut s, program, Ghost(h));
    (r, s)
}

/// Runs a program that may take only so many steps.
pub fn eval_program_with_budget<L: Library, A: Arithmetic>(
    unit: A,
    program: &Vec<Spanned>,
    host: L,
    kind: String,
    random: u64,
    dir: String,
    budget: u64,
) -> (r: (Result<EvalOutput, EvalError>, Stage<L, A>))
    ensures
        forall|m: Reading, o: FileOracle|
            #![trigger r.1.it.calc.agrees(m), r.1.log.agrees(o)]
            r.1.it.calc.agrees(m) && r.1.log.agrees(o) ==> is_run(
                ran_program(
                    m,
                    o,
                    (Manner {
                        dir: dir@,
                        kind: kind@,
                        overrides: Seq::empty(),
                        preview: true,
                        detailed: false,
                        fuel: budget,
                        random,
                    }),
                    *program,
                ),
                r.0,
                r.1.it.random,
            ),
{
    let none: Vec<Entry> = Vec::new();
    assert(entries(none@) =~= Seq::empty());
    let how = Setting {
        dir,
        kind,
        overrides: none,
        preview: true,
        detailed: false,
        fuel: budget,
        random,
    };
    let ghost h = how@;
    let mut s = open_stage(unit, host, how);
    let r = run_program(&mut s, program, Ghost(h));
    (r, s)
}

/// Runs a program with some of its parameters set.
pub fn eval_program_with_params<L: Library, A: Arithmetic>(
    unit: A,
    program: &Vec<Spanned>,
    host: L,
    kind: String,
    random: u64,
    dir: String,
    overrides: Vec<Entry>,
) -> (r: (Result<EvalOutput, EvalError>, Stage<L, A>))
    ensures
        forall|m: Reading, o: FileOracle|
            #![trigger r.1.it.calc.agrees(m), r.1.log.agrees(o)]
            r.1.it.calc.agrees(m) && r.1.log.agrees(o) ==> is_run(
                ran_program(
                    m,
                    o,
                    (Manner {
                        dir: dir@,
                        kind: kind@,
                        overrides: entries(overrides@),
                        preview: true,
                        detailed: false,
                        fuel: u64::MAX,
                        random,
                    }),
                    *program,
                ),
                r.0,
                r.1.it.random,
            ),
{
    let how = Setting {
        dir,
        kind,
        overrides,
        preview: true,
        detailed: false,
        fuel: u64::MAX,
        random,
    };
    let ghost h = how@;
    let mut s = open_stage(unit, host, how);
    let r = run_program(&mut s, program, Ghost(h));
    (r, s)
}

/// Runs a program for export.
pub fn eval_program_with_params_export<L: Library, A: Arithmetic>(
    unit: A,
    program: &Vec<Spanned>,
    host: L,
    kind: String,
    random: u64,
    dir: String,
    overrides: Vec<Entry>,
) -> (r: (Result<EvalOutput, EvalError>, Stage<L, A>))
    ensures
        forall|m: Reading, o: FileOracle|
            #![trigger r.1.it.calc.agrees(m), r.1.log.agrees(o)]
            r.1.it.calc.agrees(m) && r.1.log.agrees(o) ==> is_run(
                ran_program(
                    m,
                    o,
                    (Manner {
                        dir: dir@,
                        kind: kind@,
                        overrides: entries(overrides@),
                        preview: false,
                        detailed: false,
                        fuel: u64::MAX,
                        random,
                    }),
                    *program,
                ),
                r.0,
                r.1.it.random,
            ),
{
    let how = Setting {
        dir,
        kind,
        overrides,
        preview: false,
        detailed: false,
        fuel: u64::MAX,
        random,
    };
    let ghost h = how@;
    let mut s = open_stage(unit, host, how);
    let r = run_program(&mut s, program, Ghost(h));
    (r, s)
}

/// Runs a program and keeps where everything comes from.
pub fn eval_program_with_params_detailed<L: Library, A: Arithmetic>(
    unit: A,
    program: &Vec<Spanned>,
    host: L,
    kind: String,
    random: u64,
    dir: String,
    overrides: Vec<Entry>,
) -> (r: (Result<EvalOutput, EvalError>, Stage<L, A>))
    ensures
        forall|m: Reading, o: FileOracle|
            #![trigger r.1.it.calc.agrees(m), r.1.log.agrees(o)]
            r.1.it.calc.agrees(m) && r.1.log.agrees(o) ==> is_run(
                ran_program(
                    m,
                    o,
                    (Manner {
                        dir: dir@,
                        kind: kind@,
                        overrides: entries(overrides@),
                        preview: true,
                        detailed: true,
                        fuel: u64::MAX,
                        random,
                    }),
                    *program,
                ),
                r.0,
                r.1.it.random,
            ),
{
    let how = Setting {
        dir,
        kind,
        overrides,
        preview: true,
        detailed: true,
        fuel: u64::MAX,
        random,
    };
    let ghost h = how@;
    let mut s = open_stage(unit, host, how);
    let r = run_program(&mut s, program, Ghost(h));
    (r, s)
}

/// Runs a program for export and keeps where everything comes from.
pub fn eval_program_with_params_detailed_export<L: Library, A: Arithmetic>(
    unit: A,
    program: &Vec<Spanned>,
    host: L,
    kind: String,
    random: u64,
    dir: String,
    overrides: Vec<Entry>,
) -> (r: (Result<EvalOutput, EvalError>, Stage<L, A>))
    ensures
        forall|m: Reading, o: FileOracle|
            #![trigger r.1.it.calc.agrees(m), r.1.log.agrees(o)]
            r.1.it.calc.agrees(m) && r.1.log.agrees(o) ==> is_run(
                ran_program(
                    m,
                    o,
                    (Manner {
                        dir: dir@,
                        kind: kind@,
                        overrides: entries(overrides@),
                        preview: false,
                        detailed: true,
                        fuel: u64::MAX,
                        random,
                    }),
                    *program,
                ),
                r.0,
                r.1.it.random,
            ),
{
    let how = Setting {
        dir,
        kind,
        overrides,
        preview: false,
        detailed: true,
        fuel: u64::MAX,
        random,
    };
    let ghost h = how@;
    let mut s = open_stage(unit, host, how);
    let r = run_program(&mut s, program, Ghost(h));
    (r, s)
}

// ---- laws ----------------------------------------------------------------------------------------------

/// Calling a module leaves the open scopes, the children at hand, the modules
/// that run, the files being read and the main source as they were.
pub proof fn law_module_call_restores(
    m: Reading,
    o: FileOracle,
    v: Level,
    t: Prog,
    name: Seq<char>,
    d: ModuleView,
    args: Vec<Arg>,
    children: Vec<Spanned>,
)
    ensures
        ({
            let after = instantiated(m, o, v, t, name, d, args, children).1;
            &&& after.scopes.open == t.scopes.open
            &&& after.frames == t.frames
            &&& after.running == t.running
            &&& after.in_main == t.in_main
        }),
{
    reveal(body_ran);
    lemma_values_passed(
        m,
        Level { depth: (v.depth - 1) as nat, ..v },
        Prog { running: t.running.push(name), ..t },
        args,
        0,
        Seq::empty(),
    );
}

/// Arguments change nothing but what expressions change.
proof fn lemma_values_passed(m: Reading, v: Level, t: Prog, args: Vec<Arg>, i: int, done: Passed)
    ensures
        ({
            let after = values_passed(m, v, t, args, i, done).1;
            after == (Prog { k: after.k, ..t })
        }),
    decreases args@.len() - i,
{
    if 0 <= i < args@.len() {
        let x = ev(m, around(m, v, t), t.k, no_names(), args@[i].value);
        match x.r {
            Ok(val) => {
                lemma_values_passed(
                    m,
                    v,
                    Prog { k: x.k, ..t },
                    args,
                    i + 1,
                    done.push((arg_label(args@[i]), val)),
                );
            },
            Err(_) => {},
        }
    }
}

/// Children are drawn in the scopes in which the call of the module stands, not
/// in those of the module that draws them, and afterwards everything is open and
/// at hand that was.
pub proof fn law_children_belong_to_the_caller(
    m: Reading,
    o: FileOracle,
    v: Level,
    t: Prog,
    args: Vec<Arg>,
)
    requires
        args@.len() == 0,
        v.frames > 0,
        t.frames.len() > 0,
    ensures
        ({
            let f = t.frames.last();
            let g = drew(
                m,
                stage_world(m, o, Level { frames: (v.frames - 1) as nat, ..v }),
                Ctx { in_main: f.main, detailed: v.detailed },
                Prog {
                    scopes: opened(ScopesView { open: f.open, ..t.scopes }),
                    frames: t.frames.drop_last(),
                    in_main: f.main,
                    ..t
                },
                f.kids,
                None,
            );
            let x = drawn_children(m, o, v, t, args);
            &&& x.0 == StageSaid::Called(
                match g.r {
                    Ok(list) => Ok((grouped_tree(list), None)),
                    Err(e) => Err(e),
                },
            )
            &&& x.1.scopes.open == t.scopes.open
            &&& x.1.frames == t.frames
            &&& x.1.in_main == t.in_main
        }),
{
    reveal(stage_world);
    assert(begun(t.scopes, t.frames.last().open, Seq::empty()) == opened(
        ScopesView { open: t.frames.last().open, ..t.scopes },
    ));
}

/// A name that is read outside of expressions is looked up where the code stands
/// where it is an ordinary one, and where it is called from where it is dynamic:
/// a module sees the former of its definition, and the latter of its caller.
pub proof fn law_scoping(m: Reading, o: FileOracle, v: Level, t: Prog, name: Seq<char>)
    ensures
        stage_world(m, o, v)(t, StageAsk::Around(name)) == (
            StageSaid::Val(
                Ok(
                    match if is_special(name) {
                        dynamic_value(t.scopes.dynamic, name)
                    } else {
                        lexical_value(t.scopes.layers, t.scopes.open, name)
                    } {
                        Some(x) => x,
                        None => Val::Undef,
                    },
                ),
            ),
            t,
        ),
{
    reveal(stage_world);
}

/// Where steps are not counted, an expression of a statement that is a name comes
/// to the value of the name, and reading it changes nothing.
pub proof fn law_name_is_read(m: Reading, o: FileOracle, v: Level, t: Prog, name: String)
    requires
        !v.limited,
    ensures
        stage_world(m, o, v)(t, StageAsk::Eval(Expr::Ident(name))) == (
            StageSaid::Val(Ok(value_of(t.scopes, name@))),
            t,
        ),
{
    reveal(stage_world);
    reveal(oracle);
}

/// Without a step left no expression of a statement comes to anything, no pass of
/// a loop begins, and no assertion is decided: all fail for want of steps, and
/// change nothing, but that the assertion is counted.
pub proof fn law_empty_budget(m: Reading, o: FileOracle, v: Level, t: Prog, e: Expr, args: Vec<Arg>)
    requires
        v.limited,
        t.k.fuel == 0,
    ensures
        stage_world(m, o, v)(t, StageAsk::Eval(e)) == (
            StageSaid::Val(Err((NoteView { message: exhausted(), span: None }))),
            t,
        ),
        stage_world(m, o, v)(t, StageAsk::Burn) == (
            StageSaid::Done(Err((NoteView { message: exhausted(), span: None }))),
            t,
        ),
        first_unnamed(args@, 0) is Some ==> stage_world(m, o, v)(t, StageAsk::Check(args)) == (
            StageSaid::Val(Err((NoteView { message: exhausted(), span: None }))),
            (Prog { k: Store { asserts: one_more(t.k.asserts), ..t.k }, ..t }),
        ),
{
    reveal(stage_world);
    reveal(oracle);
    lemma_first_unnamed(args@, 0);
    reveal_with_fuel(ev_assert, 2);
}

proof fn lemma_first_unnamed(args: Seq<Arg>, i: int)
    ensures
        first_unnamed(args, i) matches Some(j) ==> 0 <= j < args.len(),
    decreases args.len() - i,
{
    if 0 <= i < args.len() {
        lemma_first_unnamed(args, i + 1);
    }
}

/// A file that is not there is warned of, and changes nothing else.
pub proof fn law_missing_file_is_warned_of(
    m: Reading,
    o: FileOracle,
    v: Level,
    t: Prog,
    path: Seq<char>,
)
    requires
        o(t.asked, FileAsk::Load(path, t.dir)) == FileSaid::Loaded(None),
    ensures
        used(m, o, v, t, path) == (
            StageSaid::Done(Ok(())),
            (Prog { asked: t.asked + 1, ..warned_of(t, seq![missing("'use'"@, path)]) }),
        ),
{
}

/// A file that imports itself, at any distance, is read once.
pub proof fn law_import_cycle_ends(
    m: Reading,
    o: FileOracle,
    v: Level,
    t: Prog,
    path: Seq<char>,
    f: FileView,
)
    requires
        o(t.asked, FileAsk::Load(path, t.dir)) == FileSaid::Loaded(Some(f)),
        t.loading.contains(f.key),
    ensures
        used(m, o, v, t, path) == (
            StageSaid::Done(Ok(())),
            (Prog { asked: t.asked + 1, ..t }),
        ),
{
}

} // verus!
