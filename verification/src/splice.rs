//! Splicing the statements of files into a program.

use crate::blob::texts;
use crate::files::{dir_joined, join_dir, LoadedFile};
use crate::node::{Node, Point2};
use crate::program::{Spanned, Stmt, NOWHERE};
use crate::resources::{missing, missing_file, TextAsk, TextView};
use crate::scopes::{numbered, register_source};
use crate::surfaces::Rgba;
use crate::text::same_text;
use crate::value::{Val, Value};
use std::rc::Rc;
use vstd::prelude::*;

verus! {

// ---- the library of files ----------------------------------------------------------------------

/// What a file holds.
pub ghost struct FileView {
    pub key: Seq<char>,
    pub source: Seq<char>,
    pub dir: Seq<char>,
}

/// A question to the library of files.
pub ghost enum FileAsk {
    /// The file at a path, as seen from a directory.
    Load(Seq<char>, Seq<char>),
    /// The statements of a source that has a number.
    Parse(Seq<char>, u32),
    /// The color that a value stands for, with some transparency.
    Tint(Val, Option<u64>),
    /// The bytes of the file at a path, as seen from a directory.
    Bytes(Seq<char>, Seq<char>),
    /// The outlines of a text.
    Outlines(TextView),
    /// The numbers that words stand for, line by line.
    Numbers(Seq<Seq<Seq<char>>>),
    /// Which list holds some statements.
    Held(Seq<Piece>),
    /// Which rows hold some numbers.
    Rows(Seq<Seq<u64>>),
    /// Which rows hold the heights of an image.
    Heights(Seq<u8>, bool),
    /// Which node is the surface over some rows.
    Surface(Vec<Vec<u64>>, bool, bool),
}

/// An answer of the library of files.
pub ghost enum FileSaid {
    Loaded(Option<FileView>),
    Parsed(Result<Seq<Spanned>, Seq<char>>),
    Tint(Option<Rgba>),
    Bytes(Option<Seq<u8>>),
    /// The points, the paths through them, and whether the font is at hand.
    Outlines(Seq<Point2>, Seq<Seq<u32>>, bool),
    Numbers(Seq<Vec<Option<u64>>>),
    Held(Vec<Spanned>),
    Rows(Vec<Vec<u64>>),
    Heights(Result<Vec<Vec<u64>>, String>),
    Surface(Node),
}

/// One reading of all answers, by their places.
pub type FileOracle = spec_fn(int, FileAsk) -> FileSaid;

/// The library of files. Nothing is promised of it.
pub trait Library {
    fn load(&mut self, path: &str, dir: &str) -> Option<LoadedFile>;

    fn parse(&mut self, source: &str, id: u32) -> Result<Vec<Spanned>, String>;

    fn tint(&mut self, c: &Value, alpha: Option<u64>) -> Option<Rgba>;

    fn bytes(&mut self, path: &str, dir: &str) -> Option<Vec<u8>>;

    fn outlines(&mut self, ask: &TextAsk) -> (Vec<Point2>, Vec<Vec<u32>>, bool);

    fn numbers(&mut self, words: &Vec<Vec<String>>) -> Vec<Vec<Option<u64>>>;
}

/// The bytes that were read.
pub open spec fn bytes_read(r: Option<Vec<u8>>) -> FileSaid {
    FileSaid::Bytes(
        match r {
            Some(d) => Some(d@),
            None => None,
        },
    )
}

/// What was loaded.
pub open spec fn loaded(r: Option<LoadedFile>) -> FileSaid {
    FileSaid::Loaded(
        match r {
            Some(f) => Some(FileView { key: f.key@, source: f.source@, dir: f.dir@ }),
            None => None,
        },
    )
}

/// What was parsed.
pub open spec fn parsed(r: Result<Vec<Spanned>, String>) -> FileSaid {
    FileSaid::Parsed(
        match r {
            Ok(v) => Ok(v@),
            Err(e) => Err(e@),
        },
    )
}

/// What the library of files has answered so far.
pub struct FileLog {
    entries: Ghost<Seq<(FileAsk, FileSaid)>>,
}

impl FileLog {
    /// Whether every answer so far is the one that `o` gives.
    pub closed spec fn agrees(&self, o: FileOracle) -> bool {
        forall|i: int| 0 <= i < self.entries@.len() ==> (#[trigger] self.entries@[i]).1 == o(
            i,
            self.entries@[i].0,
        )
    }

    /// How many answers there were.
    pub closed spec fn count(&self) -> int {
        self.entries@.len() as int
    }

    pub fn new() -> (r: Self)
        ensures
            r.count() == 0,
            forall|o: FileOracle| #[trigger] r.agrees(o),
    {
        FileLog { entries: Ghost(Seq::empty()) }
    }

    pub(crate) fn note(&mut self, Ghost(q): Ghost<FileAsk>, Ghost(r): Ghost<FileSaid>)
        ensures
            final(self).count() == old(self).count() + 1,
            forall|o: FileOracle| #[trigger]
                final(self).agrees(o) ==> old(self).agrees(o) && o(old(self).count(), q) == r,
    {
        let ghost before = self.entries@;
        self.entries = Ghost(self.entries@.push((q, r)));
        proof {
            assert forall|o: FileOracle| #[trigger] self.agrees(o) implies old(self).agrees(o) && o(
                old(self).count(),
                q,
            ) == r by {
                assert(self.entries@[before.len() as int] == (q, r));
                assert forall|i: int| 0 <= i < before.len() implies (#[trigger] before[i]).1 == o(
                    i,
                    before[i].0,
                ) by {
                    assert(self.entries@[i] == before[i]);
                }
            }
        }
    }
}

// ---- what splicing gives -----------------------------------------------------------------------

/// A statement, the path of an import by its characters.
pub ghost enum Shape {
    Use(Seq<char>),
    Other(Stmt),
}

/// A statement and where it stands.
pub ghost struct Piece {
    pub shape: Shape,
    pub start: usize,
    pub end: usize,
    pub source_id: u32,
}

/// A statement and where it stands.
pub open spec fn piece(s: Spanned) -> Piece {
    Piece {
        shape: match *s.node {
            Stmt::Use { path } => Shape::Use(path@),
            other => Shape::Other(other),
        },
        start: s.start,
        end: s.end,
        source_id: s.source_id,
    }
}

/// Statements and where they stand.
pub open spec fn pieces(v: Seq<Spanned>) -> Seq<Piece> {
    v.map_values(|s: Spanned| piece(s))
}

/// How statements are spliced.
pub ghost struct How {
    /// What splicing is called in messages.
    pub kind: Seq<char>,
    /// Whether statements keep their places in the files they come from.
    pub detailed: bool,
    /// Whether the statements come from a file.
    pub inner: bool,
    pub dir: Seq<char>,
}

/// What becomes of a statement that is not replaced: one from a file loses its
/// place unless places are kept, and imports relative to that file.
pub open spec fn carried(s: Spanned, how: How) -> Piece {
    let p = piece(s);
    let shape = match p.shape {
        Shape::Use(path) => if how.inner {
            Shape::Use(dir_joined(how.dir, path))
        } else {
            p.shape
        },
        other => other,
    };
    if how.detailed || !how.inner {
        Piece { shape, ..p }
    } else {
        Piece { shape, start: NOWHERE, end: NOWHERE, source_id: 0 }
    }
}

/// The error of a file that cannot be parsed.
pub open spec fn unparsed(kind: Seq<char>, path: Seq<char>, why: Seq<char>) -> Seq<char> {
    "in "@ + kind + " '"@ + path + "': "@ + why
}

/// The error of files that are nested too deeply.
pub open spec fn too_deep() -> Seq<char> {
    "files are nested too deeply"@
}

/// What splicing comes to: the statements or an error, the number of answers,
/// and the warnings.
pub ghost struct Spliced {
    pub r: Result<Seq<Piece>, Seq<char>>,
    pub k: int,
    pub warnings: Seq<Seq<char>>,
    /// The keys of the sources that have numbers.
    pub sources: Seq<Seq<char>>,
}

/// The number that a file is parsed with, and the keys of the sources that have
/// numbers. Sources have numbers only where statements keep their places.
pub open spec fn file_number(detailed: bool, sources: Seq<Seq<char>>, key: Seq<char>) -> (
    u32,
    Seq<Seq<char>>,
) {
    if detailed {
        numbered(sources, key)
    } else {
        (0, sources)
    }
}

/// The statements from the `i`-th on, after `done`: a statement that names a file
/// is replaced by those of the file; it is dropped with a warning where there is
/// no such file, and without one where that file is being spliced already.
pub open spec fn spliced(
    o: FileOracle,
    how: How,
    depth: nat,
    loading: Seq<Seq<char>>,
    stmts: Seq<Spanned>,
    i: int,
    done: Seq<Piece>,
    k: int,
    w: Seq<Seq<char>>,
    src: Seq<Seq<char>>,
) -> Spliced
    decreases depth, stmts.len() - i,
{
    if i < 0 || i >= stmts.len() {
        Spliced { r: Ok(done), k, warnings: w, sources: src }
    } else {
        match *stmts[i].node {
            Stmt::Splice { path } => match o(k, FileAsk::Load(path@, how.dir)) {
                FileSaid::Loaded(Some(f)) => if loading.contains(f.key) {
                    spliced(o, how, depth, loading, stmts, i + 1, done, k + 1, w, src)
                } else {
                    let n = file_number(how.detailed, src, f.key);
                    match o(k + 1, FileAsk::Parse(f.source, n.0)) {
                        FileSaid::Parsed(Ok(inside)) => if depth == 0 {
                            Spliced { r: Err(too_deep()), k: k + 2, warnings: w, sources: n.1 }
                        } else {
                            let x = spliced(
                                o,
                                How { inner: true, dir: f.dir, ..how },
                                (depth - 1) as nat,
                                loading.push(f.key),
                                inside,
                                0,
                                done,
                                k + 2,
                                w,
                                n.1,
                            );
                            match x.r {
                                Ok(more) => spliced(
                                    o,
                                    how,
                                    depth,
                                    loading,
                                    stmts,
                                    i + 1,
                                    more,
                                    x.k,
                                    x.warnings,
                                    x.sources,
                                ),
                                Err(_) => x,
                            }
                        },
                        FileSaid::Parsed(Err(why)) => Spliced {
                            r: Err(unparsed(how.kind, path@, why)),
                            k: k + 2,
                            warnings: w,
                            sources: n.1,
                        },
                        _ => Spliced { r: Err(Seq::empty()), k: k + 2, warnings: w, sources: n.1 },
                    }
                },
                _ => spliced(
                    o,
                    how,
                    depth,
                    loading,
                    stmts,
                    i + 1,
                    done,
                    k + 1,
                    w.push(missing(how.kind, path@)),
                    src,
                ),
            },
            _ => spliced(
                o,
                how,
                depth,
                loading,
                stmts,
                i + 1,
                done.push(carried(stmts[i], how)),
                k,
                w,
                src,
            ),
        }
    }
}

pub(crate) fn unparsed_text(kind: &str, path: &str, why: &str) -> (r: String)
    ensures
        r@ == unparsed(kind@, path@, why@),
{
    let mut s = "in ".to_owned();
    s.append(kind);
    s.append(" '");
    s.append(path);
    s.append("': ");
    s.append(why);
    s
}

pub(crate) fn listed(v: &Vec<String>, key: &str) -> (r: bool)
    ensures
        r == texts(v@).contains(key@),
{
    let ghost t = texts(v@);
    for i in 0..v.len()
        invariant
            t == texts(v@),
            forall|j: int| 0 <= j < i ==> #[trigger] t[j] != key@,
    {
        assert(t[i as int] == v@[i as int]@);
        if same_text(v[i].as_str(), key) {
            return true;
        }
    }
    false
}

/// The same list, last first.
fn turned(list: Vec<Spanned>) -> (r: Vec<Spanned>)
    ensures
        r@ == list@.reverse(),
{
    let mut rest = list;
    let ghost whole = list@;
    let mut out: Vec<Spanned> = Vec::new();
    while rest.len() > 0
        invariant
            rest@.len() <= whole.len(),
            rest@ == whole.take(rest@.len() as int),
            out@ =~= whole.skip(rest@.len() as int).reverse(),
        decreases rest.len(),
    {
        let ghost k = rest@.len() - 1;
        if let Some(x) = rest.pop() {
            proof {
                assert(whole.take(k + 1).drop_last() =~= whole.take(k));
                assert(whole.take(k + 1).last() == whole[k]);
            }
            out.push(x);
            assert(out@ =~= whole.skip(k).reverse());
        }
    }
    assert(whole.skip(0) =~= whole);
    out
}

/// What becomes of a statement that is not replaced.
fn carry(s: Spanned, detailed: bool, inner: bool, dir: &str, Ghost(how): Ghost<How>) -> (r: Spanned)
    requires
        how.detailed == detailed,
        how.inner == inner,
        how.dir == dir@,
    ensures
        piece(r) == carried(s, how),
{
    let ghost whole = s;
    let keep: bool = detailed || !inner;
    let start: usize = if keep {
        s.start
    } else {
        NOWHERE
    };
    let end: usize = if keep {
        s.end
    } else {
        NOWHERE
    };
    let source_id: u32 = if keep {
        s.source_id
    } else {
        0
    };
    match &*s.node {
        Stmt::Use { path } => {
            if inner {
                let path = join_dir(dir, path.as_str());
                Spanned { node: Rc::new(Stmt::Use { path }), start, end, source_id }
            } else {
                Spanned { node: s.node.clone(), start, end, source_id }
            }
        },
        _ => Spanned { node: s.node.clone(), start, end, source_id },
    }
}

/// Adds statements to `out`, those that name files replaced by the statements of
/// the files.
fn splice_into<L: Library>(
    host: &mut L,
    log: &mut FileLog,
    warnings: &mut Vec<String>,
    sources: &mut Vec<String>,
    loading: &mut Vec<String>,
    kind: &str,
    detailed: bool,
    inner: bool,
    dir: &str,
    depth: usize,
    stmts: Vec<Spanned>,
    out: &mut Vec<Spanned>,
) -> (r: Result<(), String>)
    ensures
        r is Ok ==> texts(final(loading)@) == texts(old(loading)@),
        forall|o: FileOracle| #[trigger]
            final(log).agrees(o) ==> {
                let how = How { kind: kind@, detailed, inner, dir: dir@ };
                let x = spliced(
                    o,
                    how,
                    depth as nat,
                    texts(old(loading)@),
                    stmts@,
                    0,
                    pieces(old(out)@),
                    old(log).count(),
                    texts(old(warnings)@),
                    texts(old(sources)@),
                );
                &&& old(log).agrees(o)
                &&& final(log).count() == x.k
                &&& texts(final(warnings)@) == x.warnings
                &&& texts(final(sources)@) == x.sources
                &&& match r {
                    Ok(_) => x.r == Ok::<Seq<Piece>, Seq<char>>(pieces(final(out)@)),
                    Err(e) => x.r == Err::<Seq<Piece>, Seq<char>>(e@),
                }
            },
    decreases depth,
{
    let ghost how = How { kind: kind@, detailed, inner, dir: dir@ };
    let ghost whole = stmts@;
    let ghost l0 = texts(loading@);
    let ghost p0 = pieces(out@);
    let ghost k0 = log.count();
    let ghost w0 = texts(warnings@);
    let ghost s0 = texts(sources@);
    let ghost n = stmts@.len() as int;
    let mut rest = turned(stmts);
    let ghost mut i: int = 0;
    assert(rest@ =~= whole.skip(0).reverse());
    while rest.len() > 0
        invariant
            how == (How { kind: kind@, detailed, inner, dir: dir@ }),
            0 <= i <= whole.len(),
            rest@ == whole.skip(i).reverse(),
            texts(loading@) == l0,
            forall|o: FileOracle| #[trigger]
                log.agrees(o) ==> old(log).agrees(o) && spliced(
                    o,
                    how,
                    depth as nat,
                    l0,
                    whole,
                    0,
                    p0,
                    k0,
                    w0,
                    s0,
                ) == spliced(
                    o,
                    how,
                    depth as nat,
                    l0,
                    whole,
                    i,
                    pieces(out@),
                    log.count(),
                    texts(warnings@),
                    texts(sources@),
                ),
            l0 == texts(old(loading)@),
            p0 == pieces(old(out)@),
            k0 == old(log).count(),
            w0 == texts(old(warnings)@),
            s0 == texts(old(sources)@),
            whole == stmts@,
        decreases rest.len(),
    {
        proof {
            assert(rest@.len() == whole.len() - i);
            assert(rest@.last() == whole.skip(i).reverse()[rest@.len() - 1]);
            assert(rest@.last() == whole[i]);
            assert(rest@.drop_last() =~= whole.skip(i + 1).reverse());
        }
        if let Some(s) = rest.pop() {
            assert(s == whole[i]);
            let ghost before = pieces(out@);
            let ghost k1 = log.count();
            let ghost w1 = texts(warnings@);
            let path = match &*s.node {
                Stmt::Splice { path } => Some(path.clone()),
                _ => None,
            };
            match path {
                None => {
                    let c = carry(s, detailed, inner, dir, Ghost(how));
                    let ghost cp = piece(c);
                    out.push(c);
                    assert(pieces(out@) =~= before.push(cp));
                },
                Some(path) => {
                    assert(*whole[i].node matches Stmt::Splice { path: q } && q@ == path@);
                    let file = host.load(path.as_str(), dir);
                    let ghost q = FileAsk::Load(path@, dir@);
                    log.note(Ghost(q), Ghost(loaded(file)));
                    match file {
                        None => {
                            let text = missing_file(kind, path.as_str());
                            let ghost tv = text@;
                            warnings.push(text);
                            assert(texts(warnings@) =~= w1.push(tv));
                        },
                        Some(f) => {
                            if !listed(loading, f.key.as_str()) {
                                let id: u32 = if detailed {
                                    register_source(sources, f.key.as_str())
                                } else {
                                    0
                                };
                                let parsed_file = host.parse(f.source.as_str(), id);
                                let ghost q2 = FileAsk::Parse(f.source@, id);
                                log.note(Ghost(q2), Ghost(parsed(parsed_file)));
                                match parsed_file {
                                    Err(why) => {
                                        return Err(unparsed_text(kind, path.as_str(), why.as_str()));
                                    },
                                    Ok(inside) => {
                                        if depth == 0 {
                                            return Err("files are nested too deeply".to_owned());
                                        }
                                        let ghost key = f.key@;
                                        loading.push(f.key);
                                        assert(texts(loading@) =~= l0.push(key));
                                        let r = splice_into(
                                            host,
                                            log,
                                            warnings,
                                            sources,
                                            loading,
                                            kind,
                                            detailed,
                                            true,
                                            f.dir.as_str(),
                                            depth - 1,
                                            inside,
                                            out,
                                        );
                                        match r {
                                            Ok(_) => {},
                                            Err(e) => return Err(e),
                                        }
                                        loading.pop();
                                        assert(texts(loading@) =~= l0.push(key).drop_last());
                                        assert(l0.push(key).drop_last() =~= l0);
                                    },
                                }
                            }
                        },
                    }
                },
            }
            proof {
                i = i + 1;
            }
        }
    }
    Ok(())
}

/// The statements of a program, those that name files replaced by the statements
/// of the files. `loading` holds the keys of the files that are being spliced.
pub fn expand<L: Library>(
    host: &mut L,
    log: &mut FileLog,
    warnings: &mut Vec<String>,
    sources: &mut Vec<String>,
    loading: &mut Vec<String>,
    kind: &str,
    detailed: bool,
    inner: bool,
    dir: &str,
    stmts: Vec<Spanned>,
) -> (r: Result<Vec<Spanned>, String>)
    ensures
        r is Ok ==> texts(final(loading)@) == texts(old(loading)@),
        forall|o: FileOracle| #[trigger]
            final(log).agrees(o) ==> {
                let x = spliced(
                    o,
                    How { kind: kind@, detailed, inner, dir: dir@ },
                    usize::MAX as nat,
                    texts(old(loading)@),
                    stmts@,
                    0,
                    Seq::empty(),
                    old(log).count(),
                    texts(old(warnings)@),
                    texts(old(sources)@),
                );
                &&& old(log).agrees(o)
                &&& final(log).count() == x.k
                &&& texts(final(warnings)@) == x.warnings
                &&& texts(final(sources)@) == x.sources
                &&& match r {
                    Ok(v) => x.r == Ok::<Seq<Piece>, Seq<char>>(pieces(v@)),
                    Err(e) => x.r == Err::<Seq<Piece>, Seq<char>>(e@),
                }
            },
{
    let mut out: Vec<Spanned> = Vec::new();
    assert(pieces(out@) =~= Seq::empty());
    match splice_into(
        host,
        log,
        warnings,
        sources,
        loading,
        kind,
        detailed,
        inner,
        dir,
        usize::MAX,
        stmts,
        &mut out,
    ) {
        Ok(_) => Ok(out),
        Err(e) => Err(e),
    }
}

/// A program that names no files is left as it is.
pub proof fn law_nothing_to_splice(
    o: FileOracle,
    how: How,
    depth: nat,
    loading: Seq<Seq<char>>,
    stmts: Seq<Spanned>,
    i: int,
    done: Seq<Piece>,
    k: int,
    w: Seq<Seq<char>>,
    src: Seq<Seq<char>>,
)
    requires
        0 <= i <= stmts.len(),
        !how.inner,
        forall|j: int| 0 <= j < stmts.len() ==> !(*(#[trigger] stmts[j]).node is Splice),
    ensures
        spliced(o, how, depth, loading, stmts, i, done, k, w, src) == (Spliced {
            r: Ok(done + pieces(stmts.skip(i))),
            k,
            warnings: w,
            sources: src,
        }),
    decreases stmts.len() - i,
{
    if i == stmts.len() {
        assert(pieces(stmts.skip(i)) =~= Seq::empty());
        assert(done + pieces(stmts.skip(i)) =~= done);
    } else {
        assert(!(*stmts[i].node is Splice));
        let next = done.push(carried(stmts[i], how));
        law_nothing_to_splice(o, how, depth, loading, stmts, i + 1, next, k, w, src);
        assert(carried(stmts[i], how) == piece(stmts[i]));
        assert(next + pieces(stmts.skip(i + 1)) =~= done + pieces(stmts.skip(i)));
    }
}

/// A file that is being spliced is not spliced again: naming it adds nothing.
pub proof fn law_cycles_end(
    o: FileOracle,
    how: How,
    depth: nat,
    loading: Seq<Seq<char>>,
    stmts: Seq<Spanned>,
    i: int,
    done: Seq<Piece>,
    k: int,
    w: Seq<Seq<char>>,
    src: Seq<Seq<char>>,
    path: String,
    file: FileView,
)
    requires
        0 <= i < stmts.len(),
        *stmts[i].node == (Stmt::Splice { path }),
        o(k, FileAsk::Load(path@, how.dir)) == FileSaid::Loaded(Some(file)),
        loading.contains(file.key),
    ensures
        spliced(o, how, depth, loading, stmts, i, done, k, w, src) == spliced(
            o,
            how,
            depth,
            loading,
            stmts,
            i + 1,
            done,
            k + 1,
            w,
            src,
        ),
{
}

} // verus!
