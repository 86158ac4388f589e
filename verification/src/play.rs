//! What running statements means: the tower of meanings that modules within
//! modules, children of children and files within files go down.

use crate::ast::{Arg, Param};
use crate::calls::{ev_bind, no_names};
use crate::diag::{NoteView, Span};
use crate::format::repr_of;
use crate::heightmap::{is_heightmap, png_decoded};
use crate::meaning::{closed_over, oracle, warned_at, Site};
use crate::modules::{bound_args, truth_arg};
use crate::nodeview::{tree, Tree};
use crate::num::Reading;
use crate::program::{dead_text, selected, slots_below, whole_span, Spanned, Stmt};
use crate::provenance::SourceSpan;
use crate::resources::{
    after_dot, file_arg, font_missing, frame_of, lowered, missing, names_image, rows_among, rows_of,
    shown_text, table_of, text_wanted, unusable, MAX_CALL_DEPTH,
};
use crate::scopes::{
    begun, closed, ended, module_of, opened, value_of, with_definitions, with_function, with_module,
    with_value, ScopesView,
};
use crate::sem::{
    charge, ev, ev_assert, exhausted, first_unnamed, found, Env, Ev, Names, Oracle, Passed, Store,
};
use crate::splice::{
    file_number, pieces, spliced, too_deep, unparsed, FileAsk, FileOracle, FileSaid, How,
};
use crate::stage::{
    arg_label, grouped_tree, range_fault, st_geom, st_locals, st_stmts, Ctx, Definition, Outcome,
    StageAsk, StageOracle, StageSaid, StepOut,
};
use crate::surface::{is_surface, too_fine};
use crate::value::Val;
use crate::viewport::echoed;
use vstd::prelude::*;

verus! {

/// The children that a module was given, where they stand, and whether that is
/// in the main source.
pub ghost struct Given {
    pub kids: Vec<Spanned>,
    pub open: Seq<usize>,
    pub main: bool,
}

/// A module: what it is made of, where it was defined, and whether that is in
/// the main source.
pub ghost struct ModuleView {
    pub params: Vec<Param>,
    pub body: Vec<Spanned>,
    pub open: Seq<usize>,
    pub main: bool,
    pub site: Option<SourceSpan>,
}

/// A running program.
pub ghost struct Prog {
    pub k: Store,
    pub scopes: ScopesView,
    /// The modules that run, innermost last.
    pub running: Seq<Seq<char>>,
    /// The statement that runs.
    pub here: Option<Span>,
    pub frames: Seq<Given>,
    pub modules: Seq<ModuleView>,
    pub in_main: bool,
    /// What is drawn in place of everything else.
    pub root: Option<Tree>,
    pub warned: Seq<(Seq<char>, usize)>,
    /// The files that are being read, and the directory of the latest.
    pub loading: Seq<Seq<char>>,
    pub dir: Seq<char>,
    /// The keys of the sources that have numbers.
    pub sources: Seq<Seq<char>>,
    /// How many answers the library of files has given.
    pub asked: int,
}

/// What does not change while statements run: how they are run, and how many
/// files, calls and lists of children may still be nested.
pub ghost struct Level {
    pub limited: bool,
    pub detailed: bool,
    pub overrides: Env,
    pub kind: Seq<char>,
    pub nesting: nat,
    pub depth: nat,
    pub frames: nat,
}

/// Where the expressions of a statement stand.
pub open spec fn standing(t: Prog) -> Site {
    Site { scopes: t.scopes, locals: Seq::empty(), running: t.running, here: t.here }
}

/// What surrounds the expressions of a statement.
pub open spec fn around(m: Reading, v: Level, t: Prog) -> Oracle {
    oracle(m, v.limited, v.depth, MAX_CALL_DEPTH as nat, standing(t))
}

/// An error that no statement is named for yet.
pub open spec fn note(message: Seq<char>) -> NoteView {
    NoteView { message, span: None }
}

/// What a value or an error is to statements.
pub open spec fn noted(r: Result<Val, Seq<char>>) -> Result<Val, NoteView> {
    match r {
        Ok(v) => Ok(v),
        Err(e) => Err(note(e)),
    }
}

/// What an expression has left behind.
pub open spec fn after(t: Prog, x: Ev) -> Prog {
    Prog { k: x.k, ..t }
}

/// The program has warned of some things.
pub open spec fn warned_of(t: Prog, messages: Seq<Seq<char>>) -> Prog {
    Prog { k: Store { warnings: warned_at(t.k.warnings, messages, t.here), ..t.k }, ..t }
}

/// What surrounds statements.
#[verifier::opaque]
pub open spec fn stage_world(m: Reading, o: FileOracle, v: Level) -> StageOracle
    decreases v.nesting, v.depth, v.frames, 2int,
{
    |t: Prog, q: StageAsk| staged(m, o, v, t, q)
}

/// What a question of a statement comes to, and the program after it.
pub open spec fn staged(
    m: Reading,
    o: FileOracle,
    v: Level,
    t: Prog,
    q: StageAsk,
) -> (StageSaid, Prog)
    decreases v.nesting, v.depth, v.frames, 1int,
{
    match q {
        StageAsk::Eval(e) => {
            let x = ev(m, around(m, v, t), t.k, no_names(), e);
            (StageSaid::Val(noted(x.r)), after(t, x))
        },
        StageAsk::Bind(name, x) => (
            StageSaid::Done(Ok(())),
            Prog { scopes: with_value(t.scopes, name, x), ..t },
        ),
        StageAsk::Enter => (StageSaid::Done(Ok(())), Prog { scopes: opened(t.scopes), ..t }),
        StageAsk::Leave => (StageSaid::Done(Ok(())), Prog { scopes: closed(t.scopes), ..t }),
        StageAsk::Define(d) => match *d.node {
            Stmt::FunctionDef { name, params, body } => (
                StageSaid::Done(Ok(())),
                Prog {
                    k: closed_over(
                        m,
                        t.k,
                        *params,
                        *body,
                        t.scopes.open,
                        Seq::empty(),
                        Some(name@),
                    ),
                    scopes: with_function(t.scopes, name@, t.k.closures.len() as usize),
                    ..t
                },
            ),
            Stmt::ModuleDef { name, params, body } => (
                StageSaid::Done(Ok(())),
                Prog {
                    modules: t.modules.push(
                        ModuleView {
                            params: *params,
                            body: *body,
                            open: t.scopes.open,
                            main: t.in_main,
                            site: if v.detailed {
                                Some(whole_span(d))
                            } else {
                                None
                            },
                        },
                    ),
                    scopes: with_module(t.scopes, name@, t.modules.len() as usize),
                    ..t
                },
            ),
            Stmt::Use { path } => used(m, o, v, t, path@),
            _ => (StageSaid::Done(Ok(())), t),
        },
        StageAsk::Spliced(stmts) => ran_spliced(m, o, v, t, stmts@),
        StageAsk::Call { name, args, children } => module_call(m, o, v, t, name, args, children),
        StageAsk::Around(name) => (StageSaid::Val(Ok(value_of(t.scopes, name))), t),
        StageAsk::Burn => match charge(v.limited, t.k) {
            Some(k) => (StageSaid::Done(Ok(())), Prog { k, ..t }),
            None => (StageSaid::Done(Err(note(exhausted()))), t),
        },
        StageAsk::Root(n) => (StageSaid::Done(Ok(())), Prog { root: Some(n), ..t }),
        StageAsk::Tint(c, alpha) => (
            StageSaid::Tint(
                match o(t.asked, FileAsk::Tint(c, alpha)) {
                    FileSaid::Tint(r) => r,
                    _ => None,
                },
            ),
            Prog { asked: t.asked + 1, ..t },
        ),
        StageAsk::UnknownColor(c) => (
            StageSaid::Done(Ok(())),
            warned_of(t, seq![unknown_color(repr_of(m, c, t.k.texts))]),
        ),
        StageAsk::At(span) => (StageSaid::Done(Ok(())), Prog { here: span, ..t }),
        StageAsk::Dead(name, span) => (StageSaid::Done(Ok(())), overwritten_warned(t, name, span)),
        StageAsk::Given(name) => (StageSaid::Given(found(v.overrides, name)), t),
        StageAsk::Echo(args) => (
            StageSaid::Done(Ok(())),
            Prog { k: Store { echoes: t.k.echoes.push(echoed(m, t.k.texts, args)), ..t.k }, ..t },
        ),
        StageAsk::Check(args) => {
            let x = ev_assert(m, around(m, v, t), t.k, no_names(), args);
            (StageSaid::Val(noted(x.r)), after(t, x))
        },
    }
}

/// The warning of a color that is none.
pub open spec fn unknown_color(shown: Seq<char>) -> Seq<char> {
    "color: unknown color "@ + shown
}

/// The warning of a module that is none.
pub open spec fn unknown_module(name: Seq<char>) -> Seq<char> {
    "Ignoring unknown module '"@ + name + "'"@
}

/// A dead assignment is warned of, once for each name and place.
pub open spec fn overwritten_warned(t: Prog, name: Seq<char>, span: Option<Span>) -> Prog {
    match span {
        None => t,
        Some(s) => if t.warned.contains((name, s.start)) {
            t
        } else {
            Prog {
                k: Store {
                    warnings: t.k.warnings.push(
                        NoteView { message: dead_text(name), span: Some(s) },
                    ),
                    ..t.k
                },
                warned: t.warned.push((name, s.start)),
                ..t
            }
        },
    }
}

/// Statements whose files are spliced in, and the program after that.
pub ghost struct Listing {
    pub r: Result<Vec<Spanned>, NoteView>,
    pub t: Prog,
}

/// The list that holds some statements. Lists that hold the same are told apart,
/// so the answer says which one it is.
#[verifier::opaque]
pub open spec fn listing(
    o: FileOracle,
    v: Level,
    t: Prog,
    stmts: Seq<Spanned>,
    inner: bool,
) -> Listing {
    let x = spliced(
        o,
        How { kind: v.kind, detailed: v.detailed, inner, dir: t.dir },
        usize::MAX as nat,
        t.loading,
        stmts,
        0,
        Seq::empty(),
        t.asked,
        Seq::empty(),
        t.sources,
    );
    let t1 = Prog { asked: x.k, sources: x.sources, ..warned_of(t, x.warnings) };
    match x.r {
        Err(e) => Listing { r: Err(note(e)), t: t1 },
        Ok(p) => match o(x.k, FileAsk::Held(p)) {
            FileSaid::Held(list) => if pieces(list@) == p {
                Listing { r: Ok(list), t: Prog { asked: x.k + 1, ..t1 } }
            } else {
                Listing { r: Err(note(Seq::empty())), t: t1 }
            },
            _ => Listing { r: Err(note(Seq::empty())), t: t1 },
        },
    }
}

/// What statements that name files come to.
pub open spec fn ran_spliced(
    m: Reading,
    o: FileOracle,
    v: Level,
    t: Prog,
    stmts: Seq<Spanned>,
) -> (StageSaid, Prog)
    decreases v.nesting, v.depth, v.frames, 0int,
{
    if v.nesting == 0 {
        (StageSaid::Nodes(Err(note(too_deep()))), t)
    } else {
        let l = listing(o, v, t, stmts, false);
        match l.r {
            Err(e) => (StageSaid::Nodes(Err(e)), l.t),
            Ok(list) => {
                let g = st_stmts(
                    m,
                    stage_world(m, o, Level { nesting: (v.nesting - 1) as nat, ..v }),
                    Ctx { in_main: t.in_main, detailed: v.detailed },
                    l.t,
                    t.scopes.open.len() == 1,
                    t.here,
                    list,
                );
                (StageSaid::Nodes(g.r), g.t)
            },
        }
    }
}

/// What the definitions and assignments of a file come to.
#[verifier::opaque]
pub open spec fn file_ran(w: StageOracle, c: Ctx, l: Listing, here: Option<Span>) -> StepOut {
    match l.r {
        Err(e) => StepOut { r: Err(e), t: l.t },
        Ok(list) => st_locals(w, c, l.t, false, here, list),
    }
}

/// What importing a file comes to: its definitions and assignments run in a
/// scope of their own, and the definitions are taken in. A file that is not
/// there is warned of, and one that is being read already is passed over.
pub open spec fn used(
    m: Reading,
    o: FileOracle,
    v: Level,
    t: Prog,
    path: Seq<char>,
) -> (StageSaid, Prog)
    decreases v.nesting, v.depth, v.frames, 0int,
{
    match o(t.asked, FileAsk::Load(path, t.dir)) {
        FileSaid::Loaded(Some(f)) => if t.loading.contains(f.key) {
            (StageSaid::Done(Ok(())), Prog { asked: t.asked + 1, ..t })
        } else {
            let n = file_number(v.detailed, t.sources, f.key);
            let t0 = Prog { asked: t.asked + 2, sources: n.1, ..t };
            match o(t.asked + 1, FileAsk::Parse(f.source, n.0)) {
                FileSaid::Parsed(Err(why)) => (
                    StageSaid::Done(Err(note(unparsed("use"@, path, why)))),
                    t0,
                ),
                FileSaid::Parsed(Ok(inside)) => if v.nesting == 0 {
                    (StageSaid::Done(Err(note(too_deep()))), t0)
                } else {
                    let t1 = Prog {
                        scopes: begun(t.scopes, seq![t.scopes.open[0]], Seq::empty()),
                        dir: f.dir,
                        in_main: false,
                        loading: t.loading.push(f.key),
                        ..t0
                    };
                    let l = listing(o, v, t1, inside, true);
                    let x = file_ran(
                        stage_world(m, o, Level { nesting: (v.nesting - 1) as nat, ..v }),
                        Ctx { in_main: false, detailed: v.detailed },
                        l,
                        t.here,
                    );
                    let t2 = Prog {
                        scopes: ended(x.t.scopes, t.scopes.open),
                        dir: t.dir,
                        in_main: t.in_main,
                        loading: t.loading,
                        ..x.t
                    };
                    match x.r {
                        Err(e) => (StageSaid::Done(Err(e)), t2),
                        Ok(_) => (
                            StageSaid::Done(Ok(())),
                            Prog {
                                scopes: with_definitions(t2.scopes, t1.scopes.top()),
                                ..t2
                            },
                        ),
                    }
                },
                _ => (StageSaid::Done(Err(note(Seq::empty()))), t0),
            }
        },
        _ => (
            StageSaid::Done(Ok(())),
            Prog { asked: t.asked + 1, ..warned_of(t, seq![missing("'use'"@, path)]) },
        ),
    }
}

/// The positional parameters of the modules that read files or fonts.
pub open spec fn resource_names(name: Seq<char>) -> Option<Seq<Seq<char>>> {
    if name == "import"@ {
        Some(seq!["file"@])
    } else if name == "surface"@ {
        Some(seq!["file"@, "center"@, "convexity"@, "invert"@])
    } else if name == "text"@ {
        Some(
            seq![
                "text"@,
                "size"@,
                "font"@,
                "direction"@,
                "language"@,
                "script"@,
                "halign"@,
                "valign"@,
                "spacing"@,
            ],
        )
    } else {
        None
    }
}

/// What calling a module of the program comes to, or one that reads files.
pub open spec fn module_call(
    m: Reading,
    o: FileOracle,
    v: Level,
    t: Prog,
    name: Seq<char>,
    args: Vec<Arg>,
    children: Vec<Spanned>,
) -> (StageSaid, Prog)
    decreases v.nesting, v.depth, v.frames, 0int, 1int,
{
    if name == "children"@ {
        drawn_children(m, o, v, t, args)
    } else if resource_names(name) is Some {
        drawn_resource(m, o, v, t, name, resource_names(name)->0, args)
    } else {
        match module_of(t.scopes.layers, t.scopes.open, name) {
            Some(id) => if id < t.modules.len() {
                instantiated(m, o, v, t, name, t.modules[id as int], args, children)
            } else {
                (
                    StageSaid::Called(Ok((Tree::Empty, None))),
                    warned_of(t, seq![unknown_module(name)]),
                )
            },
            None => (
                StageSaid::Called(Ok((Tree::Empty, None))),
                warned_of(t, seq![unknown_module(name)]),
            ),
        }
    }
}

/// The arguments of a call from the `i`-th on, after `done`.
pub open spec fn values_passed(
    m: Reading,
    v: Level,
    t: Prog,
    args: Vec<Arg>,
    i: int,
    done: Passed,
) -> (Result<
    Passed,
    NoteView,
>, Prog)
    decreases args@.len() - i,
{
    if i < 0 || i >= args@.len() {
        (Ok(done), t)
    } else {
        let x = ev(m, around(m, v, t), t.k, no_names(), args@[i].value);
        match x.r {
            Ok(val) => values_passed(
                m,
                v,
                after(t, x),
                args,
                i + 1,
                done.push((arg_label(args@[i]), val)),
            ),
            Err(e) => (Err(note(e)), after(t, x)),
        }
    }
}

/// What importing a mesh or a drawing draws.
pub open spec fn drawn_import(o: FileOracle, t: Prog, e: Env) -> (StageSaid, Prog) {
    match file_arg(e) {
        None => (StageSaid::Called(Ok((Tree::Empty, None))), t),
        Some(path) => {
            let t1 = Prog { asked: t.asked + 1, ..t };
            match o(t.asked, FileAsk::Bytes(path, t.dir)) {
                FileSaid::Bytes(Some(data)) => (
                    StageSaid::Called(
                        Ok((Tree::Import { data, format: lowered(after_dot(path)) }, None)),
                    ),
                    t1,
                ),
                _ => (
                    StageSaid::Called(Ok((Tree::Empty, None))),
                    warned_of(t1, seq![missing("import"@, path)]),
                ),
            }
        },
    }
}

/// What a text draws.
pub open spec fn drawn_text(m: Reading, o: FileOracle, t: Prog, e: Env) -> (StageSaid, Prog) {
    let ask = text_wanted(m, e, t.k.texts, value_of(t.scopes, "$fn"@));
    let t1 = Prog { asked: t.asked + 1, ..t };
    match o(t.asked, FileAsk::Outlines(ask)) {
        FileSaid::Outlines(points, paths, at_hand) => (
            StageSaid::Called(Ok((Tree::Polygon { points, paths: Some(paths) }, None))),
            if ask.font.len() > 0 && !at_hand {
                warned_of(t1, seq![font_missing(shown_text(ask.font))])
            } else {
                t1
            },
        ),
        _ => (StageSaid::Called(Err(note(Seq::empty()))), t1),
    }
}

/// What the surface over some rows draws.
pub open spec fn surfaced(
    m: Reading,
    o: FileOracle,
    t: Prog,
    rows: Vec<Vec<u64>>,
    center: bool,
    image: bool,
) -> (
    StageSaid,
    Prog,
) {
    if too_fine(rows@) {
        (StageSaid::Called(Err(note("surface too large"@))), t)
    } else {
        match o(t.asked, FileAsk::Surface(rows, center, image)) {
            FileSaid::Surface(node) => if is_surface(m, rows@, center, image, node) {
                (StageSaid::Called(Ok((tree(node), None))), Prog { asked: t.asked + 1, ..t })
            } else {
                (StageSaid::Called(Err(note(Seq::empty()))), t)
            },
            _ => (StageSaid::Called(Err(note(Seq::empty()))), t),
        }
    }
}

/// What the surface over the heights of an image draws.
pub open spec fn image_surfaced(
    m: Reading,
    o: FileOracle,
    t: Prog,
    path: Seq<char>,
    center: bool,
    invert: bool,
) -> (
    StageSaid,
    Prog,
) {
    match o(t.asked, FileAsk::Bytes(path, t.dir)) {
        FileSaid::Bytes(Some(data)) => {
            let t1 = Prog { asked: t.asked + 2, ..t };
            match o(t.asked + 1, FileAsk::Heights(data, invert)) {
                FileSaid::Heights(r) => if is_heightmap(m, png_decoded(data), invert, r) {
                    match r {
                        Ok(rows) => surfaced(m, o, t1, rows, center, true),
                        Err(why) => (
                            StageSaid::Called(Ok((Tree::Empty, None))),
                            warned_of(t1, seq![unusable(why@, path)]),
                        ),
                    }
                } else {
                    (StageSaid::Called(Err(note(Seq::empty()))), t1)
                },
                _ => (StageSaid::Called(Err(note(Seq::empty()))), t1),
            }
        },
        _ => (
            StageSaid::Called(Ok((Tree::Empty, None))),
            warned_of(Prog { asked: t.asked + 1, ..t }, seq![missing("surface"@, path)]),
        ),
    }
}

/// What the surface over a table of numbers draws.
pub open spec fn table_surfaced(
    m: Reading,
    o: FileOracle,
    t: Prog,
    path: Seq<char>,
    center: bool,
) -> (
    StageSaid,
    Prog,
) {
    match o(t.asked, FileAsk::Load(path, t.dir)) {
        FileSaid::Loaded(Some(f)) => {
            let t1 = Prog { asked: t.asked + 3, ..t };
            match o(t.asked + 1, FileAsk::Numbers(table_of(f.source))) {
                FileSaid::Numbers(read) => match o(t.asked + 2, FileAsk::Rows(rows_among(read))) {
                    FileSaid::Rows(rows) => if rows_of(rows@) == rows_among(read) {
                        surfaced(m, o, t1, rows, center, false)
                    } else {
                        (StageSaid::Called(Err(note(Seq::empty()))), t1)
                    },
                    _ => (StageSaid::Called(Err(note(Seq::empty()))), t1),
                },
                _ => (StageSaid::Called(Err(note(Seq::empty()))), t1),
            }
        },
        _ => (
            StageSaid::Called(Ok((Tree::Empty, None))),
            warned_of(Prog { asked: t.asked + 1, ..t }, seq![missing("surface"@, path)]),
        ),
    }
}

/// What a module that reads files or fonts draws.
pub open spec fn drawn_resource(
    m: Reading,
    o: FileOracle,
    v: Level,
    t: Prog,
    name: Seq<char>,
    names: Seq<Seq<char>>,
    args: Vec<Arg>,
) -> (StageSaid, Prog) {
    let a = values_passed(m, v, t, args, 0, Seq::empty());
    match a.0 {
        Err(e) => (StageSaid::Called(Err(e)), a.1),
        Ok(p) => resource_drawn(m, o, a.1, name, bound_args(names, p, p.len() as int)),
    }
}

/// What a module that reads files or fonts draws with some arguments.
#[verifier::opaque]
pub open spec fn resource_drawn(
    m: Reading,
    o: FileOracle,
    t: Prog,
    name: Seq<char>,
    e: Env,
) -> (StageSaid, Prog) {
    if name == "import"@ {
        drawn_import(o, t, e)
    } else if name == "text"@ {
        drawn_text(m, o, t, e)
    } else {
        match file_arg(e) {
            None => (StageSaid::Called(Ok((Tree::Empty, None))), t),
            Some(path) => if names_image(path) {
                image_surfaced(m, o, t, path, truth_arg(e, "center"@), truth_arg(e, "invert"@))
            } else {
                table_surfaced(m, o, t, path, truth_arg(e, "center"@))
            },
        }
    }
}

/// The error of modules that are nested too deeply.
pub open spec fn modules_too_deep() -> Seq<char> {
    "maximum module recursion depth exceeded"@
}

/// What a module finds bound.
pub open spec fn own_names(m: Reading, n: Names, children: Vec<Spanned>, running: nat) -> Env {
    frame_of(
        m,
        n.env + n.specials,
        slots_below(children, children@.len() as int).len() as usize,
        running as usize,
    )
}

/// What the body of a module comes to. It runs in the scopes that the module was
/// defined in, and its children are at hand; then those are open again that were.
#[verifier::opaque]
pub open spec fn body_ran(
    m: Reading,
    w: StageOracle,
    detailed: bool,
    t: Prog,
    d: ModuleView,
    names: Names,
    children: Vec<Spanned>,
) -> Outcome {
    let g = st_stmts(
        m,
        w,
        Ctx { in_main: d.main, detailed },
        Prog {
            scopes: begun(t.scopes, d.open, own_names(m, names, children, t.running.len())),
            frames: t.frames.push(Given { kids: children, open: t.scopes.open, main: t.in_main }),
            in_main: d.main,
            ..t
        },
        false,
        t.here,
        d.body,
    );
    Outcome {
        r: g.r,
        t: Prog {
            scopes: ended(g.t.scopes, t.scopes.open),
            frames: t.frames,
            in_main: t.in_main,
            ..g.t
        },
    }
}

/// What calling a module comes to. Its arguments are evaluated where the call
/// stands, its body runs where the module was defined, one call deeper, and its
/// children are at hand while it runs.
pub open spec fn instantiated(
    m: Reading,
    o: FileOracle,
    v: Level,
    t: Prog,
    name: Seq<char>,
    d: ModuleView,
    args: Vec<Arg>,
    children: Vec<Spanned>,
) -> (StageSaid, Prog)
    decreases v.nesting, v.depth, v.frames, 0int, 0int,
{
    if v.depth == 0 {
        (StageSaid::Called(Err(note(modules_too_deep()))), t)
    } else {
        let v1 = Level { depth: (v.depth - 1) as nat, ..v };
        let t0 = Prog { running: t.running.push(name), ..t };
        let a = values_passed(m, v1, t0, args, 0, Seq::empty());
        match a.0 {
            Err(e) => (StageSaid::Called(Err(e)), Prog { running: t.running, ..a.1 }),
            Ok(p) => {
                let n = ev_bind(
                    m,
                    around(
                        m,
                        v1,
                        Prog { scopes: ScopesView { open: d.open, ..a.1.scopes }, ..a.1 },
                    ),
                    a.1.k,
                    Seq::empty(),
                    d.params,
                    p,
                );
                match n.r {
                    Err(e) => (
                        StageSaid::Called(Err(note(e))),
                        Prog { k: n.k, running: t.running, ..a.1 },
                    ),
                    Ok(names) => {
                        let g = body_ran(
                            m,
                            stage_world(m, o, Level { frames: v.frames + 1, ..v1 }),
                            v.detailed,
                            Prog { k: n.k, ..a.1 },
                            d,
                            names,
                            children,
                        );
                        (
                            StageSaid::Called(
                                match g.r {
                                    Ok(list) => Ok(
                                        (
                                            grouped_tree(list),
                                            if v.detailed {
                                                Some(Definition { site: d.site })
                                            } else {
                                                None
                                            },
                                        ),
                                    ),
                                    Err(e) => Err(e),
                                },
                            ),
                            Prog { running: t.running, ..g.t },
                        )
                    },
                }
            },
        }
    }
}

/// Which children are asked for: all of them, or some by their numbers.
pub open spec fn chosen(m: Reading, v: Level, t: Prog, args: Vec<Arg>) -> (Result<
    Option<Seq<u64>>,
    NoteView,
>, Prog) {
    if args@.len() == 0 {
        (Ok(None), t)
    } else {
        let x = match first_unnamed(args@, 0) {
            Some(i) => if 0 <= i < args@.len() {
                ev(m, around(m, v, t), t.k, no_names(), args@[i].value)
            } else {
                Ev { r: Ok(Val::Undef), k: t.k }
            },
            None => Ev { r: Ok(Val::Undef), k: t.k },
        };
        match x.r {
            Err(e) => (Err(note(e)), after(t, x)),
            Ok(val) => match selected(m, val) {
                Some(list) => (Ok(Some(list)), after(t, x)),
                None => (Err(range_fault()), after(t, x)),
            },
        }
    }
}

/// What one child draws.
#[verifier::opaque]
pub open spec fn child_drawn(
    m: Reading,
    w: StageOracle,
    c: Ctx,
    t: Prog,
    here: Option<Span>,
    s: Spanned,
) -> Outcome {
    let site = if c.detailed {
        Some(whole_span(s))
    } else {
        None
    };
    st_geom(m, w, c, t, here, site, *s.node)
}

/// The children with some numbers from the `i`-th on, after `done`. A number
/// that no child has is passed over.
pub open spec fn picked(
    m: Reading,
    w: StageOracle,
    c: Ctx,
    t: Prog,
    here: Option<Span>,
    slots: Seq<Spanned>,
    numbers: Seq<u64>,
    i: int,
    done: Seq<Tree>,
) -> Outcome
    decreases numbers.len() - i,
{
    if i < 0 || i >= numbers.len() {
        Outcome { r: Ok(done), t }
    } else if numbers[i] >= slots.len() {
        picked(m, w, c, t, here, slots, numbers, i + 1, done)
    } else {
        let g = child_drawn(m, w, c, t, here, slots[numbers[i] as int]);
        match g.r {
            Ok(list) => picked(m, w, c, g.t, here, slots, numbers, i + 1, done + list),
            Err(e) => Outcome { r: Err(e), t: g.t },
        }
    }
}

/// What children draw, all or some of them.
#[verifier::opaque]
pub open spec fn drew(
    m: Reading,
    w: StageOracle,
    c: Ctx,
    t: Prog,
    kids: Vec<Spanned>,
    which: Option<Seq<u64>>,
) -> Outcome {
    match which {
        None => st_stmts(m, w, c, t, false, t.here, kids),
        Some(numbers) => {
            let l = st_locals(w, c, t, false, t.here, kids);
            match l.r {
                Err(e) => Outcome { r: Err(e), t: l.t },
                Ok(_) => picked(
                    m,
                    w,
                    c,
                    l.t,
                    t.here,
                    slots_below(kids, kids@.len() as int),
                    numbers,
                    0,
                    Seq::empty(),
                ),
            }
        },
    }
}

/// What drawing the children of the module that runs comes to: they stand where
/// the call of the module stands, and while they are drawn the children of the
/// module around it are at hand.
pub open spec fn drawn_children(
    m: Reading,
    o: FileOracle,
    v: Level,
    t: Prog,
    args: Vec<Arg>,
) -> (StageSaid, Prog)
    decreases v.nesting, v.depth, v.frames, 0int, 0int,
{
    if v.frames == 0 || t.frames.len() == 0 {
        (StageSaid::Called(Ok((Tree::Empty, None))), t)
    } else {
        let f = t.frames.last();
        let x = chosen(m, v, t, args);
        match x.0 {
            Err(e) => (StageSaid::Called(Err(e)), x.1),
            Ok(which) => {
                let g = drew(
                    m,
                    stage_world(m, o, Level { frames: (v.frames - 1) as nat, ..v }),
                    Ctx { in_main: f.main, detailed: v.detailed },
                    Prog {
                        scopes: begun(x.1.scopes, f.open, Seq::empty()),
                        frames: t.frames.drop_last(),
                        in_main: f.main,
                        ..x.1
                    },
                    f.kids,
                    which,
                );
                (
                    StageSaid::Called(
                        match g.r {
                            Ok(list) => Ok((grouped_tree(list), None)),
                            Err(e) => Err(e),
                        },
                    ),
                    Prog {
                        scopes: ended(g.t.scopes, t.scopes.open),
                        frames: t.frames,
                        in_main: t.in_main,
                        ..g.t
                    },
                )
            },
        }
    }
}

} // verus!
