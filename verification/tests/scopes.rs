use openrscad::ast::Expr;
use openrscad::eval::Entry;
use openrscad::files::LoadedFile;
use openrscad::node::Point2;
use openrscad::patches::number_keys;
use openrscad::program::{Spanned, Stmt, NOWHERE};
use openrscad::resources::TextAsk;
use openrscad::scopes::{register_source, Scopes};
use openrscad::splice::{expand, FileLog, Library};
use openrscad::surfaces::Rgba;
use openrscad::value::Value;
use std::rc::Rc;

fn truth(v: Value) -> Option<bool> {
    match v {
        Value::Bool(b) => Some(b),
        _ => None,
    }
}

#[test]
fn names_end_with_their_scope() {
    let mut s = Scopes::new(Vec::new());
    s.set_var("x", Value::Bool(true));
    s.set_var("$d", Value::Bool(true));
    s.push_scope();
    s.set_var("x", Value::Bool(false));
    s.set_var("$d", Value::Bool(false));
    assert_eq!(truth(s.lookup_var("x")), Some(false));
    assert_eq!(truth(s.lookup_var("$d")), Some(false));
    s.pop_scope();
    assert_eq!(truth(s.lookup_var("x")), Some(true));
    assert_eq!(truth(s.lookup_var("$d")), Some(true));
    assert!(matches!(s.lookup_var("y"), Value::Undef));
}

#[test]
fn ordinary_names_are_lexical_and_special_ones_dynamic() {
    let mut s = Scopes::new(Vec::new());
    s.set_var("x", Value::Bool(true));
    s.set_var("$d", Value::Bool(true));
    let definition = s.captured();
    s.push_scope();
    s.set_var("x", Value::Bool(false));
    s.set_var("$d", Value::Bool(false));
    let given = vec![Entry { name: "y".to_string(), value: Value::Bool(true) }];
    let callers = s.begin_call(definition, given);
    assert_eq!(truth(s.lookup_var("x")), Some(true));
    assert_eq!(truth(s.lookup_var("$d")), Some(false));
    assert_eq!(truth(s.lookup_var("y")), Some(true));
    s.end_call(callers);
    assert_eq!(truth(s.lookup_var("x")), Some(false));
    assert!(matches!(s.lookup_var("y"), Value::Undef));
}

#[test]
fn definitions_are_taken_over_without_variables() {
    let mut s = Scopes::new(Vec::new());
    let callers = s.begin_call(vec![0], Vec::new());
    s.set_func("f", 7);
    s.set_module("m", 8);
    s.set_var("x", Value::Bool(true));
    let own = s.innermost();
    s.end_call(callers);
    assert_eq!((s.lookup_func("f"), s.lookup_module("m")), (None, None));
    s.import_definitions(own);
    assert_eq!((s.lookup_func("f"), s.lookup_module("m")), (Some(7), Some(8)));
    assert!(matches!(s.lookup_var("x"), Value::Undef));
    assert_eq!(s.depth(), 1);
}

#[test]
fn sources_are_numbered_once() {
    let mut keys = vec!["<main>".to_string()];
    assert_eq!(register_source(&mut keys, "a"), 1);
    assert_eq!(register_source(&mut keys, "b"), 2);
    assert_eq!(register_source(&mut keys, "a"), 1);
    assert_eq!(keys, ["<main>", "a", "b"]);
    assert_eq!(register_source(&mut keys, "<main>"), 3);
    assert_eq!(register_source(&mut keys, "<main>"), 3);
    assert_eq!(keys, ["<main>", "a", "b", "<main>"]);
}

fn statement(node: Stmt, start: usize) -> Spanned {
    Spanned { node: Rc::new(node), start, end: start + 1, source_id: 3 }
}

fn assign(name: &str, start: usize) -> Spanned {
    statement(Stmt::Assign { name: name.to_string(), value: Expr::Undef }, start)
}

fn splice(path: &str) -> Spanned {
    statement(Stmt::Splice { path: path.to_string() }, 0)
}

struct Shelf;

impl Library for Shelf {
    fn load(&mut self, path: &str, dir: &str) -> Option<LoadedFile> {
        let key = if dir == "." { path.to_string() } else { format!("{dir}/{path}") };
        let dir = match key.rsplit_once('/') {
            Some((dir, _)) => dir.to_string(),
            None => ".".to_string(),
        };
        if key == "none" {
            return None;
        }
        Some(LoadedFile { source: key.clone(), key, dir })
    }

    fn parse(&mut self, source: &str, _id: u32) -> Result<Vec<Spanned>, String> {
        match source {
            "lib/a" => Ok(vec![
                assign("a", 5),
                splice("b"),
                statement(Stmt::Use { path: "c".to_string() }, 7),
            ]),
            "lib/b" => Ok(vec![splice("a"), assign("b", 9)]),
            _ => Err("unexpected end".to_string()),
        }
    }

    fn tint(&mut self, _c: &Value, _alpha: Option<u64>) -> Option<Rgba> {
        None
    }

    fn bytes(&mut self, _path: &str, _dir: &str) -> Option<Vec<u8>> {
        None
    }

    fn outlines(&mut self, _ask: &TextAsk) -> (Vec<Point2>, Vec<Vec<u32>>, bool) {
        (Vec::new(), Vec::new(), true)
    }

    fn numbers(&mut self, _words: &Vec<Vec<String>>) -> Vec<Vec<Option<u64>>> {
        Vec::new()
    }
}

fn spliced(detailed: bool, stmts: Vec<Spanned>) -> (Result<Vec<Spanned>, String>, Vec<String>) {
    let mut warnings = Vec::new();
    let mut loading = Vec::new();
    let mut sources = vec!["<main>".to_string()];
    let log = &mut FileLog::new();
    let r = expand(
        &mut Shelf,
        log,
        &mut warnings,
        &mut sources,
        &mut loading,
        "include",
        detailed,
        false,
        ".",
        stmts,
    );
    let known = if detailed && r.is_ok() { vec!["<main>", "lib/a", "lib/b"] } else { vec!["<main>"] };
    assert!(known.iter().all(|k| sources.iter().any(|s| s == k)));
    (r, warnings)
}

fn shown(v: &Vec<Spanned>) -> Vec<(String, usize, u32)> {
    v.iter()
        .map(|s| {
            let name = match &*s.node {
                Stmt::Assign { name, .. } => name.clone(),
                Stmt::Use { path } => format!("use {path}"),
                other => panic!("unexpected: {other:?}"),
            };
            (name, s.start, s.source_id)
        })
        .collect()
}

#[test]
fn files_are_spliced_in_place_and_cycles_end() {
    let program = || vec![assign("x", 1), splice("lib/a"), splice("none"), assign("y", 2)];
    let (r, warnings) = spliced(false, program());
    let at = |name: &str, start: usize, id: u32| (name.to_string(), start, id);
    assert_eq!(
        shown(&r.unwrap()),
        vec![
            at("x", 1, 3),
            at("a", NOWHERE, 0),
            at("b", NOWHERE, 0),
            at("use lib/c", NOWHERE, 0),
            at("y", 2, 3),
        ]
    );
    assert_eq!(warnings, ["Can't open include file 'none'"]);
    let (r, _) = spliced(true, program());
    assert_eq!(
        shown(&r.unwrap()),
        vec![at("x", 1, 3), at("a", 5, 3), at("b", 9, 3), at("use lib/c", 7, 3), at("y", 2, 3)]
    );
}

#[test]
fn files_that_do_not_parse_are_errors() {
    let (r, _) = spliced(false, vec![splice("bad")]);
    assert_eq!(r.unwrap_err(), "in include 'bad': unexpected end");
    let (r, warnings) = spliced(false, vec![assign("x", 1)]);
    assert_eq!(r.unwrap().len(), 1);
    assert!(warnings.is_empty());
}

#[test]
fn equal_keys_share_a_number() {
    assert_eq!(
        number_keys(&vec![Some(9), None, Some(4), Some(9), Some(4)]),
        vec![0, u64::MAX, 1, 0, 1]
    );
}
