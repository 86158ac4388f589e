use openrscad::ast::{Arg, Binding, Expr, ListElem, Param};
use openrscad::builtins::RANDOM_START;
use openrscad::diag::{diagnostics_json, Diagnostic, EvalError, Span, Warning};
use openrscad::eval::Entry;
use openrscad::files::{FileResolver, LoadedFile, NullResolver};
use openrscad::mesh::Point3;
use openrscad::node::{Node, Point2};
use openrscad::num::{Arithmetic, Calc, NumOp, TextOp};
use openrscad::output;
use openrscad::program::{Modifier, Spanned, Stmt};
use openrscad::provenance::{ProvenanceFrame, SourceSpan};
use openrscad::resources::TextAsk;
use openrscad::splice::Library;
use openrscad::surfaces::Rgba;
use openrscad::value::{BinOp, UnOp, Value};
use openrscad::viewport::Viewport;
use std::collections::HashMap;
use std::rc::Rc;

struct Unit;

fn f(b: u64) -> f64 {
    f64::from_bits(b)
}

fn s(b: u64) -> f32 {
    f32::from_bits(b as u32)
}

impl Arithmetic for Unit {
    fn apply(&mut self, op: NumOp, x: u64, y: u64) -> u64 {
        let (a, b) = (f(x), f(y));
        let one = |v: f64| v.to_bits();
        let single = |v: f32| v.to_bits() as u64;
        match op {
            NumOp::Add => one(a + b),
            NumOp::Sub => one(a - b),
            NumOp::Mul => one(a * b),
            NumOp::Div => one(a / b),
            NumOp::Rem => one(a % b),
            NumOp::Pow => one(libm::pow(a, b)),
            NumOp::Min => one(a.min(b)),
            NumOp::Max => one(a.max(b)),
            NumOp::Hypot => one(a.hypot(b)),
            NumOp::Atan2 => one(libm::atan2(a, b)),
            NumOp::Sqrt => one(a.sqrt()),
            NumOp::Exp => one(libm::exp(a)),
            NumOp::Ln => one(libm::log(a)),
            NumOp::Log10 => one(libm::log10(a)),
            NumOp::Floor => one(a.floor()),
            NumOp::Ceil => one(a.ceil()),
            NumOp::Round => one(a.round()),
            NumOp::Sin => one(libm::sin(a)),
            NumOp::Cos => one(libm::cos(a)),
            NumOp::Tan => one(libm::tan(a)),
            NumOp::Asin => one(libm::asin(a)),
            NumOp::Acos => one(libm::acos(a)),
            NumOp::Atan => one(libm::atan(a)),
            NumOp::ToRadians => one(a.to_radians()),
            NumOp::ToDegrees => one(a.to_degrees()),
            NumOp::FromInt => one(x as f64),
            NumOp::ToInt => a as u64,
            NumOp::ToSingle => single(a as f32),
            NumOp::FromSingle => one(s(x) as f64),
            NumOp::SingleFromInt => single(x as f32),
            NumOp::SingleToInt => s(x) as u64,
            NumOp::SingleAdd => single(s(x) + s(y)),
            NumOp::SingleMul => single(s(x) * s(y)),
            NumOp::SingleDiv => single(s(x) / s(y)),
            NumOp::SinglePow => single(s(x).powf(s(y))),
            NumOp::SingleMin => single(s(x).min(s(y))),
            NumOp::SingleMax => single(s(x).max(s(y))),
            NumOp::SingleRound => single(s(x).round()),
        }
    }

    fn write(&mut self, op: TextOp, x: u64, _y: u64) -> String {
        match op {
            TextOp::Json => serde_json::to_string(&f(x)).unwrap(),
            TextOp::JsonSingle => serde_json::to_string(&s(x)).unwrap(),
            TextOp::Plain => format!("{}", f(x)),
            TextOp::Scientific => format!("{:e}", f(x)),
        }
    }
}

fn calc() -> Calc<Unit> {
    Calc::new(Unit)
}

fn b(v: f64) -> u64 {
    v.to_bits()
}

fn p3(x: f64, y: f64, z: f64) -> Point3 {
    Point3 { x: b(x), y: b(y), z: b(z) }
}

fn p2(x: f64, y: f64) -> Point2 {
    Point2 { x: b(x), y: b(y) }
}

/// The library of files that a program runs with.
struct Host {
    resolver: Box<dyn FileResolver>,
}

impl Library for Host {
    fn load(&mut self, path: &str, dir: &str) -> Option<LoadedFile> {
        self.resolver.load(path, dir)
    }

    fn parse(&mut self, source: &str, id: u32) -> Result<Vec<Spanned>, String> {
        parse_source(source, id)
    }

    fn tint(&mut self, c: &Value, alpha: Option<u64>) -> Option<Rgba> {
        color_value(c, alpha)
    }

    fn bytes(&mut self, path: &str, dir: &str) -> Option<Vec<u8>> {
        self.resolver.load_bytes(path, dir)
    }

    fn outlines(&mut self, ask: &TextAsk) -> (Vec<Point2>, Vec<Vec<u32>>, bool) {
        outlines(ask)
    }

    fn numbers(&mut self, words: &Vec<Vec<String>>) -> Vec<Vec<Option<u64>>> {
        let number = |w: &String| w.parse::<f64>().ok().map(b);
        words.iter().map(|line| line.iter().map(number).collect()).collect()
    }
}

/// How a program is run.
struct Setting {
    resolver: Box<dyn FileResolver>,
    dir: String,
    overrides: Vec<Entry>,
    preview: bool,
    detailed: bool,
    fuel: u64,
    random: u64,
}

/// What a program comes to.
#[derive(Debug)]
struct Output {
    node: Node,
    sources: Vec<String>,
    echoes: Vec<String>,
    warnings: Vec<Warning>,
    asserts: usize,
    viewport: Viewport,
    random: u64,
}

/// Runs a program.
fn run_program(stmts: &Vec<Spanned>, how: Setting) -> Result<Output, EvalError> {
    let host = Host { resolver: how.resolver };
    let (kind, dir, set) = ("include".to_string(), how.dir, how.overrides);
    let start = how.random;
    let (r, stage) = if how.fuel != u64::MAX {
        output::eval_program_with_budget(Unit, stmts, host, kind, start, dir, how.fuel)
    } else {
        match (how.detailed, how.preview) {
            (false, true) => {
                output::eval_program_with_params(Unit, stmts, host, kind, start, dir, set)
            }
            (false, false) => {
                output::eval_program_with_params_export(Unit, stmts, host, kind, start, dir, set)
            }
            (true, true) => {
                output::eval_program_with_params_detailed(Unit, stmts, host, kind, start, dir, set)
            }
            (true, false) => {
                output::eval_program_with_params_detailed_export(Unit, stmts, host, kind, start, dir, set)
            }
        }
    };
    let out = r?;
    Ok(Output {
        node: out.node,
        sources: out.source_keys,
        echoes: out.echoes,
        warnings: out.warnings,
        asserts: out.asserts_run as usize,
        viewport: out.viewport,
        random: stage.it.random,
    })
}

#[derive(Clone, Debug, PartialEq)]
enum Token {
    Number(f64),
    Text(String),
    Word(String),
    Path(String),
    Sign(&'static str),
}

struct Lexed {
    token: Token,
    start: usize,
    end: usize,
}

const SIGNS: [&str; 30] = [
    "<=", ">=", "==", "!=", "&&", "||", "(", ")", "[", "]", "{", "}", ";", ",", "=", "<", ">", "+",
    "-", "*", "/", "%", "^", "!", "?", ":", ".", "#", "&", "|",
];

fn number_end(rest: &str) -> usize {
    let bytes = rest.as_bytes();
    let digits = |mut i: usize| {
        while i < bytes.len() && bytes[i].is_ascii_digit() {
            i += 1;
        }
        i
    };
    let mut i = digits(0);
    if i < bytes.len() && bytes[i] == b'.' {
        i = digits(i + 1);
    }
    if i < bytes.len() && (bytes[i] == b'e' || bytes[i] == b'E') {
        let signed = i + 1 < bytes.len() && (bytes[i + 1] == b'+' || bytes[i + 1] == b'-');
        let from = if signed { i + 2 } else { i + 1 };
        let to = digits(from);
        if to > from {
            i = to;
        }
    }
    i
}

fn lex(source: &str) -> Result<Vec<Lexed>, String> {
    let mut out: Vec<Lexed> = Vec::new();
    let mut at = 0;
    while at < source.len() {
        let rest = &source[at..];
        let c = rest.chars().next().unwrap();
        let start = at;
        if c.is_whitespace() {
            at += c.len_utf8();
            continue;
        }
        if rest.starts_with("//") {
            at += rest.find('\n').unwrap_or(rest.len());
            continue;
        }
        if rest.starts_with("/*") {
            at += rest.find("*/").map_or(rest.len(), |k| k + 2);
            continue;
        }
        let file = match out.last() {
            Some(Lexed { token: Token::Word(w), .. }) => c == '<' && (w == "use" || w == "include"),
            _ => false,
        };
        let token = if file {
            let k = rest.find('>').ok_or("unterminated path")?;
            at += k + 1;
            Token::Path(rest[1..k].to_string())
        } else if c == '"' {
            let mut text = String::new();
            let mut chars = rest.char_indices().skip(1);
            loop {
                match chars.next() {
                    None => return Err("unterminated string".to_string()),
                    Some((k, '"')) => {
                        at += k + 1;
                        break;
                    }
                    Some((_, '\\')) => match chars.next() {
                        Some((_, 'n')) => text.push('\n'),
                        Some((_, 't')) => text.push('\t'),
                        Some((_, 'r')) => text.push('\r'),
                        Some((_, other)) => text.push(other),
                        None => return Err("unterminated string".to_string()),
                    },
                    Some((_, other)) => text.push(other),
                }
            }
            Token::Text(text)
        } else if c.is_ascii_digit() {
            let k = number_end(rest);
            at += k;
            Token::Number(rest[..k].parse().map_err(|_| "bad number".to_string())?)
        } else if c.is_ascii_alphabetic() || c == '_' || c == '$' {
            let word = |d: char| d.is_ascii_alphanumeric() || d == '_' || d == '$';
            let k = rest.find(|d: char| !word(d)).unwrap_or(rest.len());
            at += k;
            Token::Word(rest[..k].to_string())
        } else {
            let sign = SIGNS.iter().find(|s| rest.starts_with(**s)).ok_or("unexpected character")?;
            at += sign.len();
            Token::Sign(sign)
        };
        out.push(Lexed { token, start, end: at });
    }
    Ok(out)
}

struct Parser {
    tokens: Vec<Lexed>,
    at: usize,
    id: u32,
}

type Parsed<T> = Result<T, String>;

fn boxed(e: Expr) -> Box<Expr> {
    Box::new(e)
}

impl Parser {
    fn is(&self, sign: &'static str) -> bool {
        self.at < self.tokens.len() && self.tokens[self.at].token == Token::Sign(sign)
    }

    fn is_word(&self, word: &str) -> bool {
        matches!(self.tokens.get(self.at), Some(Lexed { token: Token::Word(w), .. }) if w == word)
    }

    fn eat(&mut self, sign: &'static str) -> bool {
        let r = self.is(sign);
        self.at += r as usize;
        r
    }

    fn eat_word(&mut self, word: &str) -> bool {
        let r = self.is_word(word);
        self.at += r as usize;
        r
    }

    fn need(&mut self, sign: &'static str) -> Parsed<()> {
        if self.eat(sign) {
            Ok(())
        } else {
            Err(format!("expected '{sign}'"))
        }
    }

    fn word(&mut self) -> Parsed<String> {
        match self.tokens.get(self.at) {
            Some(Lexed { token: Token::Word(w), .. }) => {
                self.at += 1;
                Ok(w.clone())
            }
            _ => Err("expected a name".to_string()),
        }
    }

    fn statements(&mut self) -> Parsed<Vec<Spanned>> {
        let mut out = Vec::new();
        while self.at < self.tokens.len() && !self.is("}") {
            if !self.eat(";") {
                out.push(self.statement()?);
            }
        }
        Ok(out)
    }

    fn body(&mut self) -> Parsed<Vec<Spanned>> {
        if self.eat(";") {
            return Ok(Vec::new());
        }
        if self.eat("{") {
            let v = self.statements()?;
            self.need("}")?;
            return Ok(v);
        }
        Ok(vec![self.statement()?])
    }

    fn statement(&mut self) -> Parsed<Spanned> {
        let start = match self.tokens.get(self.at) {
            Some(t) => t.start,
            None => return Err("unexpected end".to_string()),
        };
        let node = self.stmt()?;
        Ok(Spanned { node: Rc::new(node), start, end: self.tokens[self.at - 1].end, source_id: self.id })
    }

    fn path(&mut self) -> Parsed<String> {
        match self.tokens.get(self.at) {
            Some(Lexed { token: Token::Path(p), .. }) => {
                self.at += 1;
                Ok(p.clone())
            }
            _ => Err("expected a path".to_string()),
        }
    }

    fn stmt(&mut self) -> Parsed<Stmt> {
        if self.eat("{") {
            let v = self.statements()?;
            self.need("}")?;
            return Ok(Stmt::Block(v));
        }
        for (sign, modifier) in [
            ("*", Modifier::Disable),
            ("!", Modifier::Root),
            ("#", Modifier::Highlight),
            ("%", Modifier::Background),
        ] {
            if self.eat(sign) {
                return self.call(Some(modifier));
            }
        }
        if self.eat_word("use") {
            return Ok(Stmt::Use { path: self.path()? });
        }
        if self.eat_word("include") {
            return Ok(Stmt::Splice { path: self.path()? });
        }
        if self.eat_word("module") {
            let name = self.word()?;
            let params = self.params()?;
            return Ok(Stmt::ModuleDef { name, params: Rc::new(params), body: Rc::new(self.body()?) });
        }
        if self.eat_word("function") {
            let name = self.word()?;
            let params = self.params()?;
            self.need("=")?;
            let body = self.expr()?;
            self.need(";")?;
            return Ok(Stmt::FunctionDef { name, params: Rc::new(params), body: Rc::new(body) });
        }
        if self.eat_word("if") {
            self.need("(")?;
            let cond = self.expr()?;
            self.need(")")?;
            let yes = self.body()?;
            let no = if self.eat_word("else") { self.body()? } else { Vec::new() };
            return Ok(Stmt::If { cond, yes, no });
        }
        if self.eat_word("for") {
            self.need("(")?;
            let bindings = self.bindings()?;
            self.need(")")?;
            return Ok(Stmt::For { bindings, body: self.body()? });
        }
        if self.eat_word("let") {
            self.need("(")?;
            let bindings = self.bindings()?;
            self.need(")")?;
            return Ok(Stmt::Let { bindings, body: self.body()? });
        }
        let back = self.at;
        let name = self.word()?;
        if self.eat("=") {
            let value = self.expr()?;
            self.need(";")?;
            return Ok(Stmt::Assign { name, value });
        }
        self.at = back;
        self.call(None)
    }

    fn call(&mut self, modifier: Option<Modifier>) -> Parsed<Stmt> {
        let name = self.word()?;
        let args = self.args()?;
        Ok(Stmt::ModuleCall { modifier, name, args, children: Rc::new(self.body()?) })
    }

    fn params(&mut self) -> Parsed<Vec<Param>> {
        self.need("(")?;
        let mut out = Vec::new();
        while !self.is(")") {
            let name = self.word()?;
            let default = if self.eat("=") { Some(self.expr()?) } else { None };
            out.push(Param { name, default });
            if !self.eat(",") {
                break;
            }
        }
        self.need(")")?;
        Ok(out)
    }

    fn args(&mut self) -> Parsed<Vec<Arg>> {
        self.need("(")?;
        let mut out = Vec::new();
        while !self.is(")") {
            let back = self.at;
            let name = match self.word() {
                Ok(w) if self.eat("=") => Some(w),
                _ => {
                    self.at = back;
                    None
                }
            };
            out.push(Arg { name, value: self.expr()? });
            if !self.eat(",") {
                break;
            }
        }
        self.need(")")?;
        Ok(out)
    }

    fn bindings(&mut self) -> Parsed<Vec<Binding>> {
        let mut out = Vec::new();
        while !self.is(")") && !self.is(";") {
            let name = self.word()?;
            self.need("=")?;
            out.push(Binding { name, value: self.expr()? });
            if !self.eat(",") {
                break;
            }
        }
        Ok(out)
    }

    /// What follows `echo(..)` or `assert(..)` in an expression.
    fn rest(&mut self) -> Parsed<Expr> {
        let ends = [")", "]", ",", ";", ":", "}", "?"].iter().any(|s| self.is(s));
        if ends || self.at >= self.tokens.len() {
            Ok(Expr::Undef)
        } else {
            self.expr()
        }
    }

    fn expr(&mut self) -> Parsed<Expr> {
        if self.eat_word("let") {
            self.need("(")?;
            let bindings = self.bindings()?;
            self.need(")")?;
            return Ok(Expr::Let { bindings, body: boxed(self.expr()?) });
        }
        if self.eat_word("echo") {
            let args = self.args()?;
            return Ok(Expr::Echo { args, body: boxed(self.rest()?) });
        }
        if self.eat_word("assert") {
            let args = self.args()?;
            return Ok(Expr::Assert { args, body: boxed(self.rest()?) });
        }
        if self.eat_word("function") {
            let params = self.params()?;
            return Ok(Expr::FunctionLiteral { params: Rc::new(params), body: Rc::new(self.expr()?) });
        }
        let cond = self.binary(0)?;
        if !self.eat("?") {
            return Ok(cond);
        }
        let yes = self.expr()?;
        self.need(":")?;
        let no = self.expr()?;
        Ok(Expr::Ternary { cond: boxed(cond), yes: boxed(yes), no: boxed(no) })
    }

    fn binary(&mut self, level: usize) -> Parsed<Expr> {
        let levels: [&[(&'static str, BinOp)]; 6] = [
            &[("||", BinOp::Or)],
            &[("&&", BinOp::And)],
            &[("==", BinOp::Eq), ("!=", BinOp::Ne)],
            &[("<=", BinOp::Le), (">=", BinOp::Ge), ("<", BinOp::Lt), (">", BinOp::Gt)],
            &[("+", BinOp::Add), ("-", BinOp::Sub)],
            &[("*", BinOp::Mul), ("/", BinOp::Div), ("%", BinOp::Mod)],
        ];
        if level == levels.len() {
            return self.unary();
        }
        let mut lhs = self.binary(level + 1)?;
        loop {
            let mut found = None;
            for (sign, op) in levels[level] {
                if self.eat(sign) {
                    found = Some(*op);
                    break;
                }
            }
            let Some(op) = found else {
                return Ok(lhs);
            };
            let rhs = self.binary(level + 1)?;
            lhs = Expr::Binary { op, lhs: boxed(lhs), rhs: boxed(rhs) };
        }
    }

    fn unary(&mut self) -> Parsed<Expr> {
        for (sign, op) in [("-", UnOp::Neg), ("!", UnOp::Not), ("+", UnOp::Pos)] {
            if self.eat(sign) {
                return Ok(Expr::Unary { op, expr: boxed(self.unary()?) });
            }
        }
        let lhs = self.postfix()?;
        if self.eat("^") {
            let rhs = self.unary()?;
            return Ok(Expr::Binary { op: BinOp::Pow, lhs: boxed(lhs), rhs: boxed(rhs) });
        }
        Ok(lhs)
    }

    fn postfix(&mut self) -> Parsed<Expr> {
        let mut e = self.primary()?;
        loop {
            if self.is("(") {
                let args = self.args()?;
                e = match e {
                    Expr::Ident(name) => Expr::Call { name, args },
                    other => Expr::CallValue { callee: boxed(other), args },
                };
            } else if self.eat("[") {
                let index = self.expr()?;
                self.need("]")?;
                e = Expr::Index { base: boxed(e), index: boxed(index) };
            } else if self.eat(".") {
                e = Expr::Member { base: boxed(e), field: self.word()? };
            } else {
                return Ok(e);
            }
        }
    }

    fn primary(&mut self) -> Parsed<Expr> {
        if self.eat("(") {
            let e = self.expr()?;
            self.need(")")?;
            return Ok(e);
        }
        if self.eat("[") {
            return self.list();
        }
        let Some(t) = self.tokens.get(self.at) else {
            return Err("unexpected end".to_string());
        };
        let e = match &t.token {
            Token::Number(n) => Expr::Number(n.to_bits()),
            Token::Text(s) => Expr::Str(s.clone()),
            Token::Word(w) => match w.as_str() {
                "true" => Expr::Bool(true),
                "false" => Expr::Bool(false),
                "undef" => Expr::Undef,
                _ => Expr::Ident(w.clone()),
            },
            _ => return Err("unexpected token".to_string()),
        };
        self.at += 1;
        Ok(e)
    }

    fn list(&mut self) -> Parsed<Expr> {
        let mut items = Vec::new();
        while !self.is("]") {
            let item = self.element()?;
            if items.is_empty() && self.eat(":") {
                let ListElem::Item(start) = item else {
                    return Err("unexpected ':'".to_string());
                };
                let second = self.expr()?;
                let (step, end) = if self.eat(":") {
                    (Some(boxed(second)), self.expr()?)
                } else {
                    (None, second)
                };
                self.need("]")?;
                return Ok(Expr::Range { start: boxed(start), step, end: boxed(end) });
            }
            items.push(item);
            if !self.eat(",") {
                break;
            }
        }
        self.need("]")?;
        Ok(Expr::Vector(items))
    }

    fn element(&mut self) -> Parsed<ListElem> {
        if self.eat_word("each") {
            return Ok(ListElem::Each(Box::new(self.element()?)));
        }
        if self.eat_word("for") {
            self.need("(")?;
            let init = self.bindings()?;
            if self.eat(";") {
                let cond = self.expr()?;
                self.need(";")?;
                let update = self.bindings()?;
                self.need(")")?;
                return Ok(ListElem::CFor { init, cond, update, body: Box::new(self.element()?) });
            }
            self.need(")")?;
            return Ok(ListElem::For { bindings: init, body: Box::new(self.element()?) });
        }
        if self.eat_word("if") {
            self.need("(")?;
            let cond = self.expr()?;
            self.need(")")?;
            let yes = Box::new(self.element()?);
            let no = if self.eat_word("else") { Some(Box::new(self.element()?)) } else { None };
            return Ok(ListElem::If { cond, yes, no });
        }
        if self.eat_word("let") {
            self.need("(")?;
            let bindings = self.bindings()?;
            self.need(")")?;
            return Ok(ListElem::Let { bindings, body: Box::new(self.element()?) });
        }
        Ok(ListElem::Item(self.expr()?))
    }
}

fn parse_source(source: &str, id: u32) -> Result<Vec<Spanned>, String> {
    let mut p = Parser { tokens: lex(source)?, at: 0, id };
    let out = p.statements()?;
    if p.at < p.tokens.len() {
        return Err("unexpected token".to_string());
    }
    Ok(out)
}

fn tinted(r: f32, g: f32, b: f32, a: f32) -> Rgba {
    Rgba { r: r.to_bits(), g: g.to_bits(), b: b.to_bits(), a: a.to_bits() }
}

fn color_value(c: &Value, alpha: Option<u64>) -> Option<Rgba> {
    let over = alpha.map(|a| f(a) as f32);
    match c {
        Value::Str(name) if name == "red" => Some(tinted(1.0, 0.0, 0.0, over.unwrap_or(1.0))),
        Value::Vector(v) if v.len() >= 3 => {
            let at = |i: usize| v.get(i).and_then(|n| n.as_number()).map(|n| f(n) as f32);
            Some(tinted(at(0)?, at(1)?, at(2)?, over.or(at(3)).unwrap_or(1.0)))
        }
        _ => None,
    }
}

/// A square for every letter.
fn outlines(ask: &TextAsk) -> (Vec<Point2>, Vec<Vec<u32>>, bool) {
    let side = f(ask.size) * f(ask.spacing);
    let mut points = Vec::new();
    let mut paths = Vec::new();
    for i in 0..ask.text.chars().count() as u32 {
        let x = side * i as f64;
        points.extend([p2(x, 0.0), p2(x + side, 0.0), p2(x + side, side), p2(x, side)]);
        paths.push(vec![4 * i, 4 * i + 1, 4 * i + 2, 4 * i + 3]);
    }
    (points, paths, ask.font.is_empty() || ask.font.starts_with("Liberation"))
}

fn xyz(p: Point3) -> [f64; 3] {
    [f(p.x), f(p.y), f(p.z)]
}

fn rows(m: &Vec<u64>) -> Vec<Vec<f64>> {
    m.chunks(4).map(|r| r.iter().map(|v| f(*v)).collect()).collect()
}

fn assert_same(a: &Node, b: &Node) {
    assert_eq!(format!("{a:?}"), format!("{b:?}"));
}

fn strip_provenance(node: Node) -> Node {
    let one = |n: Box<Node>| Box::new(strip_provenance(*n));
    let each = |v: Vec<Node>| v.into_iter().map(strip_provenance).collect();
    match node {
        Node::Provenance { child, .. } => strip_provenance(*child),
        Node::Group(v) => Node::Group(each(v)),
        Node::Union(v) => Node::Union(each(v)),
        Node::Difference(v) => Node::Difference(each(v)),
        Node::Intersection(v) => Node::Intersection(each(v)),
        Node::Translate { v, child } => Node::Translate { v, child: one(child) },
        Node::Rotate { deg, child } => Node::Rotate { deg, child: one(child) },
        Node::Scale { v, child } => Node::Scale { v, child: one(child) },
        Node::Mirror { v, child } => Node::Mirror { v, child: one(child) },
        Node::MultMatrix { m, child } => Node::MultMatrix { m, child: one(child) },
        Node::Color { rgba, child } => Node::Color { rgba, child: one(child) },
        Node::Highlight(child) => Node::Highlight(one(child)),
        Node::Background(child) => Node::Background(one(child)),
        leaf => leaf,
    }
}

#[derive(Clone)]
struct Files(HashMap<String, String>);

impl FileResolver for Files {
    fn load(&self, path: &str, _from: &str) -> Option<LoadedFile> {
        self.0.get(path).map(|s| LoadedFile {
            key: path.to_string(),
            source: s.clone(),
            dir: ".".to_string(),
        })
    }

    fn load_bytes(&self, path: &str, _from: &str) -> Option<Vec<u8>> {
        self.0.get(path).map(|s| s.as_bytes().to_vec())
    }
}

struct R;

impl FileResolver for R {
    fn load(&self, path: &str, from: &str) -> Option<LoadedFile> {
        let files = [
            ("lib/a.scad", "use <b.scad>\nfunction val() = sz();"),
            ("lib/b.scad", "function sz() = 7;"),
        ];
        let full = if from.is_empty() || from == "." {
            path.to_string()
        } else {
            format!("{from}/{path}")
        };
        files.iter().find(|(k, _)| *k == full || *k == path).map(|(k, v)| {
            let dir = k.rsplit_once('/').map(|(d, _)| d.to_string()).unwrap_or_default();
            LoadedFile { key: k.to_string(), source: v.to_string(), dir }
        })
    }

    fn load_bytes(&self, _path: &str, _from: &str) -> Option<Vec<u8>> {
        None
    }
}

fn setting(resolver: Box<dyn FileResolver>) -> Setting {
    Setting {
        resolver,
        dir: ".".to_string(),
        overrides: Vec::new(),
        preview: true,
        detailed: false,
        fuel: u64::MAX,
        random: RANDOM_START,
    }
}

fn parse(source: &str) -> Result<Vec<Spanned>, String> {
    parse_source(source, 0)
}

fn given(name: &str, value: Value) -> Vec<Entry> {
    vec![Entry { name: name.to_string(), value }]
}

fn eval_program(stmts: &Vec<Spanned>) -> Result<Output, EvalError> {
    run_program(stmts, setting(Box::new(NullResolver)))
}

fn eval_program_with(
    stmts: &Vec<Spanned>,
    resolver: impl FileResolver + 'static,
) -> Result<Output, EvalError> {
    run_program(stmts, setting(Box::new(resolver)))
}

fn eval_program_with_budget(stmts: &Vec<Spanned>, fuel: u64) -> Result<Output, EvalError> {
    run_program(stmts, Setting { fuel, ..setting(Box::new(NullResolver)) })
}

fn eval_program_with_params(
    stmts: &Vec<Spanned>,
    overrides: Vec<Entry>,
    preview: bool,
) -> Result<Output, EvalError> {
    run_program(stmts, Setting { overrides, preview, ..setting(Box::new(NullResolver)) })
}

fn eval_program_detailed(
    stmts: &Vec<Spanned>,
    resolver: impl FileResolver + 'static,
) -> Result<Output, EvalError> {
    run_program(stmts, Setting { detailed: true, ..setting(Box::new(resolver)) })
}

fn eval(source: &str) -> Output {
    let mut out = eval_program(&parse(source).unwrap()).unwrap();
    out.node = strip_provenance(out.node);
    out
}

#[test]
fn budget_bounds_runaway_evaluation() {
    let prog = parse("for(i=[0:999999]) for(j=[0:999999]) cube(1);").unwrap();
    let err = eval_program_with_budget(&prog, 100_000).unwrap_err();
    assert!(
        err.message.contains("budget exhausted"),
        "expected a budget-exhausted error, got: {:?}",
        err.message
    );
}

#[test]
fn budget_generous_matches_unbudgeted() {
    let src = "for(i=[0:9]) translate([i,0,0]) cube(1); echo([for(i=[0:100]) i*i]);";
    let prog = parse(src).unwrap();
    let budgeted = eval_program_with_budget(&prog, 10_000_000).unwrap();
    assert_eq!(budgeted.echoes, eval_program(&prog).unwrap().echoes);
}

#[test]
fn single_cube() {
    let out = eval("cube(10);");
    assert_same(&out.node, &Node::Cube {
            size: p3(10.0, 10.0, 10.0),
            center: false
        });
}


#[test]
fn transforms_bind_named_args() {
    match eval("translate(v=[1,2,3]) cube(1);").node {
        Node::Translate { v, .. } => assert_eq!(xyz(v), [1.0, 2.0, 3.0]),
        other => panic!("translate(v=): {other:?}"),
    }
    match eval("scale(v=2) cube(1);").node {
        Node::Scale { v, .. } => assert_eq!(xyz(v), [2.0, 2.0, 2.0]),
        other => panic!("scale(v=): {other:?}"),
    }
    match eval("mirror(v=[1,0,0]) cube(1);").node {
        Node::Mirror { v, .. } => assert_eq!(xyz(v), [1.0, 0.0, 0.0]),
        other => panic!("mirror(v=): {other:?}"),
    }
    match eval("rotate(a=45) cube(1);").node {
        Node::Rotate { deg, .. } => assert_eq!(xyz(deg), [0.0, 0.0, 45.0]),
        other => panic!("rotate(a=): {other:?}"),
    }
}

#[test]
fn transforms_positional_forms_unchanged() {
    match eval("translate([1,2]) cube(1);").node {
        Node::Translate { v, .. } => assert_eq!(xyz(v), [1.0, 2.0, 0.0]),
        other => panic!("translate([x,y]): {other:?}"),
    }
    match eval("scale([2,3]) cube(1);").node {
        Node::Scale { v, .. } => assert_eq!(xyz(v), [2.0, 3.0, 1.0]),
        other => panic!("scale([x,y]): {other:?}"),
    }
    match eval("rotate([45,0,0]) cube(1);").node {
        Node::Rotate { deg, .. } => assert_eq!(xyz(deg), [45.0, 0.0, 0.0]),
        other => panic!("rotate([x,y,z]): {other:?}"),
    }
}

#[test]
fn rotate_axis_angle_lowers_to_multmatrix() {
    let m = match eval("rotate(90, [1,0,0]) cube(1);").node {
        Node::MultMatrix { m, .. } => rows(&m),
        other => panic!("rotate(90,[1,0,0]): {other:?}"),
    };
    let expect = [[1.0, 0.0, 0.0], [0.0, 0.0, -1.0], [0.0, 1.0, 0.0]];
    for r in 0..3 {
        for c in 0..3 {
            assert!(
                (m[r][c] - expect[r][c]).abs() < 1e-12,
                "m[{r}][{c}]={}",
                m[r][c]
            );
        }
    }
    assert_eq!(
        [m[0][3], m[1][3], m[2][3]],
        [0.0, 0.0, 0.0],
        "no translation"
    );
    assert_eq!(m[3], [0.0, 0.0, 0.0, 1.0], "affine bottom row");

    assert_same(
        &eval("rotate(a=90, v=[1,0,0]) cube(1);").node,
        &eval("rotate(90, [1,0,0]) cube(1);").node,
    );

    let m = match eval("rotate(45, [1,1,0]) cube(1);").node {
        Node::MultMatrix { m, .. } => rows(&m),
        other => panic!("rotate(45,[1,1,0]): {other:?}"),
    };
    let axis = [1.0, 1.0, 0.0];
    let mapped = [
        m[0][0] * axis[0] + m[0][1] * axis[1] + m[0][2] * axis[2],
        m[1][0] * axis[0] + m[1][1] * axis[1] + m[1][2] * axis[2],
        m[2][0] * axis[0] + m[2][1] * axis[1] + m[2][2] * axis[2],
    ];
    for i in 0..3 {
        assert!(
            (mapped[i] - axis[i]).abs() < 1e-12,
            "axis not fixed: {mapped:?}"
        );
    }
}

#[test]
fn rotate_zero_axis_falls_back_to_euler() {
    match eval("rotate(45, [0,0,0]) cube(1);").node {
        Node::Rotate { deg, .. } => assert_eq!(xyz(deg), [0.0, 0.0, 45.0]),
        other => panic!("rotate(45,[0,0,0]): {other:?}"),
    }
}

#[test]
fn difference_tree() {
    let out = eval("difference() { cube(10, center=true); sphere(6); }");
    match out.node {
        Node::Difference(children) => assert_eq!(children.len(), 2),
        other => panic!("unexpected: {other:?}"),
    }
}

#[test]
fn for_loop_produces_group() {
    let out = eval("for (i = [0:2]) translate([i*10, 0, 0]) cube(1);");
    match out.node {
        Node::Group(children) => assert_eq!(children.len(), 3),
        other => panic!("unexpected: {other:?}"),
    }
}

#[test]
fn intersection_for_uses_dependent_cartesian_bindings() {
    let out = eval(
        "intersection_for(i=[1,2], j=[i,i+10]) \
         translate([i,j,0]) cube(1);",
    );
    let Node::Intersection(operands) = out.node else {
        panic!("expected intersection_for to lower to Intersection");
    };
    let translations: Vec<[f64; 3]> = operands
        .into_iter()
        .map(|node| match node {
            Node::Translate { v, .. } => xyz(v),
            other => panic!("expected translated operand, got {other:?}"),
        })
        .collect();
    assert_eq!(
        translations,
        [
            [1.0, 1.0, 0.0],
            [1.0, 11.0, 0.0],
            [2.0, 2.0, 0.0],
            [2.0, 12.0, 0.0],
        ]
    );
}

#[test]
fn last_assignment_wins() {
    let out = eval("x = 1; cube(x); x = 2;");
    assert_same(&out.node, &Node::Cube {
            size: p3(2.0, 2.0, 2.0),
            center: false
        });
}

#[test]
fn user_function() {
    let out = eval("function sq(a) = a * a; cube(sq(3));");
    assert_same(&out.node, &Node::Cube {
            size: p3(9.0, 9.0, 9.0),
            center: false
        });
}

#[test]
fn user_module() {
    let out = eval("module box(s) { cube(s, center=true); } box(4);");
    assert_same(&out.node, &Node::Cube {
            size: p3(4.0, 4.0, 4.0),
            center: true
        });
}

#[test]
fn echo_collected() {
    let out = eval("echo(\"hello\", 1 + 2);");
    assert_eq!(out.echoes, vec!["ECHO: \"hello\", 3".to_string()]);
}

#[test]
fn recursion() {
    let out = eval("function fib(n) = n < 2 ? n : fib(n-1) + fib(n-2); cube(fib(10));");
    assert_same(&out.node, &Node::Cube {
            size: p3(55.0, 55.0, 55.0),
            center: false
        });
}

#[test]
fn if_else() {
    let out = eval("if (1 > 2) cube(1); else sphere(3);");
    assert!(matches!(out.node, Node::Sphere { .. }));
}

#[test]
fn cylinder_d_and_center() {
    let out = eval("cylinder(h=10, d=8, center=true);");
    match out.node {
        Node::Cylinder {
            h, r1, r2, center, ..
        } => {
            assert_eq!(f(h), 10.0);
            assert_eq!(f(r1), 4.0);
            assert_eq!(f(r2), 4.0);
            assert!(center);
        }
        other => panic!("unexpected: {other:?}"),
    }
}

#[test]
fn cylinder_binds_fourth_positional_center() {
    match eval("cylinder(10, 2, 3, true);").node {
        Node::Cylinder {
            h, r1, r2, center, ..
        } => {
            assert_eq!((f(h), f(r1), f(r2)), (10.0, 2.0, 3.0));
            assert!(center);
        }
        other => panic!("unexpected: {other:?}"),
    }
}

#[test]
fn multmatrix_binds_named_m() {
    let matrix = "[[1,0,0,4],[0,1,0,5],[0,0,1,6],[0,0,0,1]]";
    assert_same(
        &eval(&format!("multmatrix({matrix}) cube(1);")).node,
        &eval(&format!("multmatrix(m={matrix}) cube(1);")).node,
    );
}

#[test]
fn text_binds_full_positional_signature_and_named_forms() {
    let positional = &["text(\"AB\", 12, \"Liberation Sans\", \"rtl\", \"en\", \"latin\", ", "\"center\", \"top\", 1.25);"].concat();
    let named = &["text(text=\"AB\", size=12, font=\"Liberation Sans\", direction=\"rtl\", ", "language=\"en\", script=\"latin\", halign=\"center\", valign=\"top\", ", "spacing=1.25);"].concat();
    let positional = eval(positional);
    let named = eval(named);
    assert_same(&positional.node, &named.node);
    assert!(positional.warnings.is_empty());
    assert!(named.warnings.is_empty());
}

fn echoes(src: &str) -> Vec<String> {
    eval(src).echoes
}

#[test]
fn function_literal_serializes_like_openscad() {
    assert_eq!(
        echoes(&["echo(str(function(x) x));\n", "echo(str(function(x, y) x + y * 2));\n", "echo(str(function(x) -x));\n", "echo(str(function(a, b) a == undef ? b : a));\n", "echo(str(function(x) f(x, 2)));\n", "echo(str(function(x) g(a=x, b=2)));\n", "echo(str(function(x) [1, x, 3]));\n", "echo(str(function(x) x[0]));\n", "echo(str(function(x = 5) x));\n", "echo(str(function(x) function(y) x + y));\n"].concat()),
        vec![
            "ECHO: \"function(x) x\"",
            "ECHO: \"function(x, y) (x + (y * 2))\"",
            "ECHO: \"function(x) -x\"",
            "ECHO: \"function(a, b) ((a == undef) ? b : a)\"",
            "ECHO: \"function(x) f(x, 2)\"",
            "ECHO: \"function(x) g(a = x, b = 2)\"",
            "ECHO: \"function(x) [1, x, 3]\"",
            "ECHO: \"function(x) x[0]\"",
            "ECHO: \"function(x = 5) x\"",
            "ECHO: \"function(x) function(y) (x + y)\"",
        ]
    );
}

#[test]
fn is_num_rejects_nan_but_accepts_inf() {
    assert_eq!(
        echoes("echo(is_num(0/0), is_num(1/0), is_num(3));"),
        vec!["ECHO: false, true, true"]
    );
}

#[test]
fn nan_truthiness_and_indexing_match_openscad() {
    assert_eq!(
        echoes("echo(!(0/0), (0/0) ? 1 : 2, (0/0) && true, (0/0) || false);"),
        vec!["ECHO: false, 1, true, true"]
    );
    assert_eq!(
        echoes("echo([10,20][0/0], \"ab\"[0/0], [1:2:5][0/0]);"),
        vec!["ECHO: undef, undef, undef"]
    );
}

#[test]
fn tan_is_exact_at_45_degree_multiples() {
    assert_eq!(
        echoes("echo(tan(45), tan(135), tan(225), tan(315), tan(90), tan(270));"),
        vec!["ECHO: 1, -1, 1, -1, inf, -inf"]
    );
}


#[test]
fn assignment_last_write_wins_is_visible_to_earlier_reads() {
    assert_eq!(
        echoes("p = 1; q = p; p = 5; echo(q, p);"),
        vec!["ECHO: 5, 5"]
    );
    assert_eq!(
        echoes("p = 1; p = 2; q = p; p = 3; echo(q, p);"),
        vec!["ECHO: 3, 3"]
    );
}

#[test]
fn assignment_has_no_forward_references() {
    assert_eq!(echoes("y = x; x = 5; echo(y, x);"), vec!["ECHO: undef, 5"]);
    assert_eq!(
        echoes("a = b + 1; b = c * 2; c = 10; echo(a, b, c);"),
        vec!["ECHO: undef, undef, 10"]
    );
}

#[test]
fn assignment_final_expr_referencing_later_var_is_undef() {
    assert_eq!(
        echoes("a = 1; c = a; b = 2; a = b; echo(a, b, c);"),
        vec!["ECHO: undef, 2, undef"]
    );
    assert_eq!(echoes("x = x + 1; echo(x);"), vec!["ECHO: undef"]);
}

#[test]
fn assignment_overwritten_rhs_is_not_evaluated() {
    assert_eq!(
        echoes("x = echo(\"dead\") 1; x = 2; echo(x);"),
        vec!["ECHO: 2"]
    );
}

#[test]
fn assignment_hoisting_falls_through_to_outer_scope() {
    assert_eq!(
        echoes("x = 99; module m() { y = x; x = 5; echo(y, x); } m();"),
        vec!["ECHO: 99, 5"]
    );
}

fn warnings_of(src: &str) -> Vec<String> {
    eval(src).warnings.into_iter().map(|w| w.message).collect()
}

#[test]
fn overwritten_assignment_warns() {
    assert_eq!(
        warnings_of("z = 1; z = 2; z = 3; echo(z);"),
        vec![
            "variable 'z' is assigned again later; this assignment is overwritten",
            "variable 'z' is assigned again later; this assignment is overwritten",
        ]
    );
    assert!(warnings_of("z = 1; echo(z);").is_empty());
}

#[test]
fn overwritten_warning_dedups_across_module_reentry() {
    assert_eq!(
        warnings_of("module m() { z = 1; z = 2; echo(z); } m(); m();"),
        vec!["variable 'z' is assigned again later; this assignment is overwritten"]
    );
}

#[test]
fn bare_assert_is_undef_not_unknown_function() {
    let out = eval("y = assert(1 < 2, \"ok\"); echo(y);");
    assert_eq!(out.echoes, vec!["ECHO: undef"]);
    assert!(
        out.warnings.is_empty(),
        "unexpected warnings: {:?}",
        out.warnings
    );
    let prog = parse("z = assert(1 > 2); echo(z);").unwrap();
    assert!(eval_program(&prog).is_err(), "failing assert should error");
}

#[test]
fn omitted_param_shadows_global_through_assert_guard() {
    let out = eval(
        "function f(p, mod) = assert(true) is_undef(p);\n\
         p = 9;\n\
         echo(f(mod = 2));",
    );
    assert_eq!(out.echoes, vec!["ECHO: true"]);
}

#[test]
fn defaults_are_lazy_lexical_and_keep_specials_dynamic() {
    assert_eq!(
        echoes(&["x=10; $d=1;", "function f(a=echo(\"f-default\")x,b=$d,c=echo(\"f-dead\")3)=[a,b,c];", "function g(a=echo(\"g-default\")x,b=$d,c=echo(\"g-dead\")3)=", "assert(true)[a,b,c];", "module m(a=echo(\"m-default\")x,b=$d,c=echo(\"m-dead\")3){", "echo(\"m\",a,b,c);}", "module caller(){x=20;$d=7;", "echo(\"f\",f(c=echo(\"f-arg\")x));", "echo(\"g\",g(c=echo(\"g-arg\")x));", "m(c=echo(\"m-arg\")x);}", "caller();"].concat()),
        vec![
            "ECHO: \"f-arg\"",
            "ECHO: \"f-default\"",
            "ECHO: \"f\", [10, 7, 20]",
            "ECHO: \"g-arg\"",
            "ECHO: \"g-default\"",
            "ECHO: \"g\", [10, 7, 20]",
            "ECHO: \"m-arg\"",
            "ECHO: \"m-default\"",
            "ECHO: \"m\", 10, 7, 20",
        ]
    );
}

#[test]
fn module_defaults_observe_dynamic_instantiation_context() {
    assert_eq!(
        echoes(&["module a(){b();}", "module b(depth=$parent_modules,current=parent_module(0)){", "echo(depth,current,$parent_modules,parent_module(0));}", "a();"].concat()),
        vec!["ECHO: 1, \"b\", 2, \"b\""]
    );
}

#[test]
fn cross_2d_is_scalar_3d_is_vector() {
    assert_eq!(echoes("echo(cross([1,2],[3,4]));"), vec!["ECHO: -2"]);
    assert_eq!(
        echoes("echo(cross([2,3,4],[5,6,7]));"),
        vec!["ECHO: [-3, 6, -3]"]
    );
    assert_eq!(echoes("echo(cross([1,2],[3,4,5]));"), vec!["ECHO: undef"]);
}

#[test]
fn unseeded_rands_advances() {
    let out = echoes("a=rands(0,1,3); b=rands(0,1,3); echo(a==b);");
    assert_eq!(out, vec!["ECHO: false"]);
    assert_eq!(
        echoes("echo(rands(0,1,2,42)==rands(0,1,2,42));"),
        vec!["ECHO: true"]
    );
}

#[test]
fn comprehensions() {
    assert_eq!(
        echoes("echo([for(i=[0:4]) i*i]);"),
        vec!["ECHO: [0, 1, 4, 9, 16]"]
    );
    assert_eq!(
        echoes("echo([for(i=[0:5]) if(i%2==0) i]);"),
        vec!["ECHO: [0, 2, 4]"]
    );
    assert_eq!(
        echoes("echo([for(i=[1:3]) let(sq=i*i) sq]);"),
        vec!["ECHO: [1, 4, 9]"]
    );
    assert_eq!(
        echoes("echo([each [1,2], each [3,4]]);"),
        vec!["ECHO: [1, 2, 3, 4]"]
    );
    assert_eq!(
        echoes("echo([for(i=[0:2], j=[0:2]) i*10+j]);"),
        vec!["ECHO: [0, 1, 2, 10, 11, 12, 20, 21, 22]"]
    );
}

#[test]
fn parameter_overrides() {
    let prog = parse("w=10; h=20; echo(w, h);").unwrap();
    let out = eval_program_with_params(&prog, given("w", Value::Number(b(30.0))), true)
    .unwrap();
    assert_eq!(out.echoes, vec!["ECHO: 30, 20"]);

    let prog2 = parse("function f()=let(w=5) w; w=1; echo(f(), w);").unwrap();
    let out2 = eval_program_with_params(&prog2, given("w", Value::Number(b(99.0))), true)
    .unwrap();
    assert_eq!(out2.echoes, vec!["ECHO: 5, 99"]);
}

#[test]
fn vm_recursion_and_tce() {
    assert_eq!(
        echoes("function f(n)=n<2?1:n*f(n-1); echo(f(6));"),
        vec!["ECHO: 720"]
    );
    assert_eq!(
        echoes("function s(n,a=0)=n==0?a:s(n-1,a+n); echo(s(100000));"),
        vec!["ECHO: 5.00005e+9"]
    );
    assert_eq!(
        echoes("function h(n)=n==0?0:g(n-1); function g(n)=n==0?1:h(n-1); echo(g(7), h(7));"),
        vec!["ECHO: 0, 1"]
    );
}

#[test]
fn vm_internal_call_defaults_use_callee_definition_scope() {
    assert_eq!(
        echoes(&["x=10; $d=1; function inner(a=x,b=$d)=[a,b]; function outer()=inner();", "module caller(){x=20; $d=7; echo(inner(),outer());} caller();"].concat()),
        vec!["ECHO: [10, 7], [10, 7]"]
    );
}

#[test]
fn vm_paths_do_not_run_supplied_defaults() {
    assert_eq!(
        echoes(&["function fast(a=echo(\"fast-dead\")1)=a;", "function callee(a=echo(\"callee-dead\")1)=a;", "function via_vm()=callee(echo(\"vm-arg\")3);", "echo(fast(echo(\"fast-arg\")2)); echo(via_vm());"].concat()),
        vec![
            "ECHO: \"fast-arg\"",
            "ECHO: 2",
            "ECHO: \"vm-arg\"",
            "ECHO: 3",
        ]
    );
}

#[test]
fn tree_walk_tco_refills_omitted_defaults() {
    assert_eq!(
        echoes(&["function down(n,step=1)=assert(true) ", "n<=0 ? 0 : down(n-step); echo(down(20000));"].concat()),
        vec!["ECHO: 0"]
    );
}

#[test]
fn vm_let_shadowing_and_free_vars() {
    assert_eq!(
        echoes("function f(x)=let(a=x+1,b=a*2) let(x=b) x+a; echo(f(3));"),
        vec!["ECHO: 12"] // a=4, b=8, inner x=8 -> 8+4
    );
    assert_eq!(
        echoes("K=10; function f(x)=x+K; echo(f(5));"),
        vec!["ECHO: 15"]
    );
    assert_eq!(
        echoes("$q=7; function f(x)=x+$q; echo(f(1));"),
        vec!["ECHO: 8"]
    );
}

#[test]
fn vm_vectors_ranges_index() {
    assert_eq!(
        echoes("function f(v)=v[0]+v.y+v[2]; echo(f([1,2,3]));"),
        vec!["ECHO: 6"]
    );
    assert_eq!(
        echoes("function mk(a,b)=[a,b,a+b]; echo(mk(2,3));"),
        vec!["ECHO: [2, 3, 5]"]
    );
    assert_eq!(
        echoes("function r(n)=[0:n]; echo([for(i=r(3)) i]);"),
        vec!["ECHO: [0, 1, 2, 3]"]
    );
}

#[test]
fn vm_falls_back_for_unsupported_bodies() {
    assert_eq!(
        echoes("function sq(n)=[for(i=[1:n]) i*i]; echo(sq(4));"),
        vec!["ECHO: [1, 4, 9, 16]"]
    );
    assert_eq!(
        echoes("function adder(k)=function(x) x+k; echo(adder(10)(5));"),
        vec!["ECHO: 15"]
    );
    assert_eq!(
        echoes("function t(a,b)=a && b; echo(t(true,false), t(true,true));"),
        vec!["ECHO: false, true"]
    );
}

#[test]
fn use_inside_included_file_resolves_relative() {
    let prog = parse("include <lib/a.scad>\necho(val());").unwrap();
    let out = eval_program_with(&prog, R).unwrap();
    assert_eq!(out.echoes, vec!["ECHO: 7"]);
}

#[test]
fn nested_children_forwarding() {
    let out = eval(
        "module outer() { children(); }\n\
         module wrap() { outer() children(); }\n\
         wrap() cube(2);",
    );
    assert!(!matches!(out.node, Node::Empty), "forwarded cube was lost");
}

#[test]
fn parent_module_stack_tracks_nested_user_modules() {
    assert_eq!(
        echoes(&["echo(\"top\", $parent_modules, parent_module(0));", "module a() { translate([0,0,0]) b(); }", "module b() { echo(\"nested\", $parent_modules, parent_module(0), ", "parent_module(1), parent_module()); }", "a();"].concat()),
        vec![
            "ECHO: \"top\", undef, undef",
            "ECHO: \"nested\", 2, \"b\", \"a\", \"a\"",
        ]
    );
}

#[test]
fn parent_module_stack_survives_children_forwarding() {
    assert_eq!(
        echoes(&["module direct() { children(); }", "module forward() { direct() children(); }", "module outer() { forward() children(); }", "outer() echo(\"child\", $parent_modules, parent_module(0), ", "parent_module(1), parent_module(2), parent_module(3));"].concat()),
        vec!["ECHO: \"child\", 3, \"direct\", \"forward\", \"outer\", undef"]
    );
}

#[test]
fn viewport_vars_report_final_values() {
    let out = eval_program(&parse("$vpd = 99; $vpr = [1,2,3]; cube(1);").unwrap()).unwrap();
    assert_eq!(out.viewport.vpd, Some(b(99.0)));
    assert_eq!(out.viewport.vpr, Some((b(1.0), b(2.0), b(3.0))));
    let out = eval_program(&parse("cube(1);").unwrap()).unwrap();
    assert_eq!(out.viewport.vpd, Some(b(140.0)));
    assert_eq!(out.viewport.vpt, Some((b(0.0), b(0.0), b(0.0))));
}

#[test]
fn text_font_warns_when_unavailable() {
    let src = "text(\"A\", font=\"Arial\");";
    let out = eval_program(&parse(src).unwrap()).unwrap();
    assert!(matches!(strip_provenance(out.node), Node::Polygon { .. }));
    let w = out
        .warnings
        .iter()
        .find(|w| w.message.contains("font"))
        .expect("font warning");
    let span = w.span.expect("warning should carry a span");
    assert_eq!(&src[span.start..span.end], src);
    for font in [
        "Liberation Sans:style=Regular",
        "Liberation Sans:style=Bold",
        "Liberation Serif",
        "Liberation Mono:style=Bold Italic",
    ] {
        let src = format!("text(\"A\", font=\"{font}\");");
        let out = eval_program(&parse(&src).unwrap()).unwrap();
        assert!(out.warnings.is_empty(), "{font}: {:?}", out.warnings);
    }
}

#[test]
fn range_indexing() {
    assert_eq!(
        echoes("r=[1:2:9]; echo(r[0], r[1], r[2], r[3]);"),
        vec!["ECHO: 1, 2, 9, undef"]
    );
    assert_eq!(
        echoes("r=[3:7]; echo(r[0], r[1], r[2]);"),
        vec!["ECHO: 3, 1, 7"]
    );
}

#[test]
fn undef_iterable_has_no_iterations() {
    assert_eq!(
        echoes("echo([for (i=undef) i]); for (i=undef) echo(i);"),
        vec!["ECHO: []"]
    );
}

#[test]
fn matrix_multiplication() {
    assert_eq!(echoes("echo([1,2,3]*[4,5,6]);"), vec!["ECHO: 32"]);
    assert_eq!(echoes("echo([[1,2],[3,4]]*[5,6]);"), vec!["ECHO: [17, 39]"]);
    assert_eq!(echoes("echo([1,2]*[[5,6],[7,8]]);"), vec!["ECHO: [19, 22]"]);
    assert_eq!(
        echoes("echo([[1,2],[3,4]]*[[5,6],[7,8]]);"),
        vec!["ECHO: [[19, 22], [43, 50]]"]
    );
    assert_eq!(echoes("echo([1,2,3]*[[1,2],[3,4]]);"), vec!["ECHO: undef"]);
}

#[test]
fn search_vector_needle_and_undef_index() {
    assert_eq!(
        echoes("echo(search([[0,0,1]],[[0,0,1],[1,0,0],[0,1,0]],num_returns_per_match=1));"),
        vec!["ECHO: [0]"]
    );
    assert_eq!(
        echoes("echo(search([[1,0,0]],[[0,0,1],[1,0,0]],1,undef));"),
        vec!["ECHO: [1]"]
    );
    assert_eq!(
        echoes("echo(search([3],[[0,3],[1,4]]));"),
        vec!["ECHO: [[]]"]
    );
}

#[test]
fn string_repr_and_builtins() {
    assert_eq!(echoes("echo(\"hi\");"), vec!["ECHO: \"hi\""]);
    assert_eq!(
        echoes("echo(chr(65), ord(\"A\"));"),
        vec!["ECHO: \"A\", 65"]
    );
    assert_eq!(
        echoes("echo(str(\"n=\", 5, true));"),
        vec!["ECHO: \"n=5true\""]
    );
    assert_eq!(
        echoes("echo([\"a\", \"b\"]);"),
        vec!["ECHO: [\"a\", \"b\"]"]
    );
    assert_eq!(echoes("s=\"abc\"; echo(s[1]);"), vec!["ECHO: \"b\""]);
}

#[test]
fn strict_numeric_reducers_and_extended_builtins() {
    assert_eq!(
        echoes(&["echo(max([1,\"x\",3]), min([1,undef,3]), max(1,\"x\",3));", "echo(norm([3,\"x\",4]), norm([3,undef,4]), norm([]));"].concat()),
        vec!["ECHO: undef, undef, undef", "ECHO: undef, undef, 0"]
    );

    assert_eq!(
        echoes(&["echo(chr(65,66), chr([65,\"x\",66],67), chr([65:67],68));", "echo(version_num([1,2]), version_num([1,2,3]), version_num([1]));"].concat()),
        vec![
            "ECHO: \"AB\", \"ABC\", \"ABCD\"",
            "ECHO: 10200, 10203, undef"
        ]
    );
}

#[test]
fn number_formatting() {
    assert_eq!(
        echoes("echo(1/3, 1e10, 1000000, 3.0, 0);"),
        vec!["ECHO: 0.333333, 1e+10, 1e+6, 3, 0"]
    );
    assert_eq!(
        echoes("echo(sign(-4), sign(0), sign(4));"),
        vec!["ECHO: -1, 0, 1"]
    );
}

#[test]
fn function_literals() {
    assert_eq!(echoes("f = function(x) x*x; echo(f(5));"), vec!["ECHO: 25"]);
    assert_eq!(
        echoes("g = function(a,b) a+b; echo(g(3,4), is_function(g), is_function(3));"),
        vec!["ECHO: 7, true, false"]
    );
    assert_eq!(
        echoes("f = function(x) x*x; echo([for(i=[1:4]) f(i)]);"),
        vec!["ECHO: [1, 4, 9, 16]"]
    );
    assert_eq!(
        echoes("h = function(n) n<=1 ? 1 : n*h(n-1); echo(h(5));"),
        vec!["ECHO: 120"]
    );
}

#[test]
fn include_and_use() {
    let mut files = std::collections::HashMap::new();
    files.insert(
        "lib.scad".to_string(),
        "function sqr(x)=x*x; K=7; echo(\"libran\");".to_string(),
    );
    let resolver = Files(files);

    let prog = parse("use <lib.scad>\necho(sqr(5), is_undef(K));").unwrap();
    let out = eval_program_with(&prog, resolver.clone()).unwrap();
    assert_eq!(out.echoes, vec!["ECHO: 25, true"]);

    let prog = parse("include <lib.scad>\necho(sqr(4), K);").unwrap();
    let out = eval_program_with(&prog, resolver.clone()).unwrap();
    assert_eq!(out.echoes, vec!["ECHO: \"libran\"", "ECHO: 16, 7"]);
}

fn collect_provenance_frames<'a>(
    node: &'a Node,
    frames: &mut Vec<&'a ProvenanceFrame>,
) {
    match node {
        Node::Provenance { frame, child } => {
            frames.push(frame);
            collect_provenance_frames(child, frames);
        }
        Node::Group(children) | Node::Union(children) => {
            for child in children {
                collect_provenance_frames(child, frames);
            }
        }
        Node::Translate { child, .. } => collect_provenance_frames(child, frames),
        _ => {}
    }
}

#[test]
fn ordinary_eval_skips_detailed_provenance() {
    let source = "module part() { cube(1); } part();";
    let output = eval_program(&parse(source).unwrap()).unwrap();
    let mut frames = Vec::new();
    collect_provenance_frames(&output.node, &mut frames);

    assert!(output.sources.is_empty());
    assert!(frames.iter().all(|frame| frame.module_name.is_none()));
    assert!(frames.iter().all(|frame| frame.definition_site.is_none()));
}

#[test]
fn api_mode_owns_preview_even_when_params_try_to_override_it() {
    let program = parse("if ($preview) cube(1); else sphere(1);").unwrap();
    let force_false = given("$preview", Value::Bool(false));
    let preview = eval_program_with_params(&program, force_false, true).unwrap();
    let force_true = given("$preview", Value::Bool(true));
    let export =
        eval_program_with_params(&program, force_true, false).unwrap();

    assert!(matches!(strip_provenance(preview.node), Node::Cube { .. }));
    assert!(matches!(strip_provenance(export.node), Node::Sphere { .. }));
}

#[test]
fn provenance_keeps_nested_user_module_names_and_main_source_spans() {
    let source = "module inner() { cube(1); } module outer() { inner(); } outer();";
    let output = eval_program_detailed(&parse(source).unwrap(), NullResolver)
    .unwrap();
    let mut frames = Vec::new();
    collect_provenance_frames(&output.node, &mut frames);

    assert_eq!(output.sources, vec!["<main>"]);
    assert_eq!(frames[0].module_name.as_deref(), Some("outer"));
    assert_eq!(frames[1].module_name.as_deref(), Some("inner"));
    assert_eq!(frames[2].module_name, None);
    assert_eq!(frames[0].call_site.source_id, 0);
    assert_eq!(
        &source[frames[0].call_site.start as usize..frames[0].call_site.end as usize],
        "outer();"
    );
}

#[test]
fn provenance_keeps_use_definition_and_call_sources() {
    let mut files = std::collections::HashMap::new();
    files.insert(
        "lib.scad".to_string(),
        "module part() { cube(1); }".to_string(),
    );
    let source = "use <lib.scad>\npart();";
    let output = eval_program_detailed(&parse(source).unwrap(), Files(files))
    .unwrap();
    let mut frames = Vec::new();
    collect_provenance_frames(&output.node, &mut frames);

    assert_eq!(output.sources, vec!["<main>", "lib.scad"]);
    assert_eq!(frames[0].module_name.as_deref(), Some("part"));
    assert_eq!(frames[0].call_site.source_id, 0);
    assert_eq!(frames[0].definition_site.as_ref().unwrap().source_id, 1);
    assert_eq!(frames[1].call_site.source_id, 1);
}

#[test]
fn provenance_keeps_included_top_level_source() {
    let mut files = std::collections::HashMap::new();
    files.insert("included.scad".to_string(), "cube(1);".to_string());
    let output = eval_program_detailed(&parse("include <included.scad>").unwrap(), Files(files))
    .unwrap();
    let mut frames = Vec::new();
    collect_provenance_frames(&output.node, &mut frames);

    assert_eq!(output.sources, vec!["<main>", "included.scad"]);
    assert_eq!(frames.len(), 1);
    assert_eq!(frames[0].call_site.source_id, 1);
    assert_eq!(frames[0].module_name, None);
}

#[test]
fn repeated_module_calls_keep_distinct_call_sites() {
    let source = "module part() { cube(1); } part(); translate([0,0,2]) part();";
    let output = eval_program_detailed(&parse(source).unwrap(), NullResolver)
    .unwrap();
    let mut frames = Vec::new();
    collect_provenance_frames(&output.node, &mut frames);
    let calls: Vec<_> = frames
        .into_iter()
        .filter(|frame| frame.module_name.as_deref() == Some("part"))
        .map(|frame| frame.call_site)
        .collect();

    assert_eq!(calls.len(), 2);
    assert_ne!(calls[0], calls[1]);
    assert_eq!(calls[0].source_id, 0);
    assert_eq!(calls[1].source_id, 0);
}


#[test]
fn eval_error_carries_main_statement_span() {
    let src = "cube(1);\nassert(false);";
    let prog = parse(src).unwrap();
    let e = eval_program(&prog).unwrap_err();
    let span = e.span.expect("eval error should carry a span");
    assert_eq!(&src[span.start..span.end], "assert(false);");
}

#[test]
fn warning_carries_main_statement_span() {
    let src = "nope();";
    let prog = parse(src).unwrap();
    let out = eval_program(&prog).unwrap();
    let w = out
        .warnings
        .iter()
        .find(|w| w.message.contains("nope"))
        .expect("unknown-module warning");
    let span = w.span.expect("warning should carry a span");
    assert_eq!(&src[span.start..span.end], "nope();");
}

#[test]
fn library_error_attributes_to_main_call_site() {
    let mut files = std::collections::HashMap::new();
    files.insert(
        "lib.scad".to_string(),
        "module boom() { assert(false); }".to_string(),
    );
    let resolver = Files(files);
    let src = "use <lib.scad>\nboom();";
    let prog = parse(src).unwrap();
    let e = eval_program_with(&prog, resolver.clone()).unwrap_err();
    let span = e.span.expect("should attribute to the main call site");
    assert_eq!(&src[span.start..span.end], "boom();");
}

#[test]
fn diagnostics_json_serializes_error_and_warnings() {
    let err = Diagnostic::from_span("error", "boom".into(), &Some(Span { start: 3, end: 8 }));
    let warns = vec![Warning {
        message: "w".into(),
        span: None,
    }];
    let json = diagnostics_json(Some(&err), &warns);
    assert!(json.contains("\"severity\":\"error\""), "{json}");
    assert!(json.contains("\"start\":3"), "{json}");
    assert!(json.contains("\"end\":8"), "{json}");
    assert!(json.contains("\"severity\":\"warning\""), "{json}");
    assert!(json.contains("\"start\":-1"), "{json}");
}

#[test]
fn lexical_scoping() {
    assert_eq!(
        echoes("a=10; function f()=a; module m(){a=20; echo(f(),a);} m();"),
        vec!["ECHO: 10, 20"]
    );
    assert_eq!(
        echoes("a=10; function g(x)=x+a; module n(a){echo(g(1));} n(99);"),
        vec!["ECHO: 11"]
    );
    assert_eq!(
        echoes("x=5; lit=function() x; module m(){x=99; echo(lit());} m();"),
        vec!["ECHO: 5"]
    );
    assert_eq!(
        echoes("$fn=8; module r(){echo($fn);} module s(){$fn=16; r();} s(); r();"),
        vec!["ECHO: 16", "ECHO: 8"]
    );
}

#[test]
fn power_operator() {
    assert_eq!(
        echoes("echo(2^10, -2^2, 2^-3, 2^3^2, 3*2^2);"),
        vec!["ECHO: 1024, -4, 0.125, 512, 12"]
    );
}

#[test]
fn cstyle_for() {
    assert_eq!(
        echoes("echo([for(k=0,s=0;k<=3;k=k+1,s=s+k) s]);"),
        vec!["ECHO: [0, 1, 3, 6]"]
    );
    assert_eq!(
        echoes("echo([for(a=1,b=1;a<=5;a=a+1,b=b*a) b]);"),
        vec!["ECHO: [1, 2, 6, 24, 120]"]
    );
}

#[test]
fn polyhedron_node() {
    let out = eval(
        "polyhedron(points=[[0,0,0],[1,0,0],[0,1,0],[0,0,1]], \
         faces=[[0,1,2],[0,1,3],[1,2,3],[0,2,3]]);",
    );
    match out.node {
        Node::Polyhedron { points, faces } => {
            assert_eq!(points.len(), 4);
            assert_eq!(faces.len(), 4);
            assert_eq!(xyz(points[1]), [1.0, 0.0, 0.0]);
        }
        other => panic!("unexpected: {other:?}"),
    }
}

#[test]
fn module_children() {
    let out = eval("module m() { translate([1,0,0]) children(); } m() { cube(2); sphere(3); }");
    match out.node {
        Node::Translate { child, .. } => match *child {
            Node::Group(c) => assert_eq!(c.len(), 2),
            other => panic!("unexpected: {other:?}"),
        },
        other => panic!("unexpected: {other:?}"),
    }
}

#[test]
fn children_count_and_index() {
    let out = eval(
        "module m() { echo($children); children(1); } m() { cube(1); sphere(2); cube(3); }",
    );
    assert_eq!(out.echoes, vec!["ECHO: 3"]);
    assert!(matches!(out.node, Node::Sphere { .. }));
}

#[test]
fn list_builtins() {
    assert_eq!(echoes("echo(search(3,[1,2,3,4]));"), vec!["ECHO: [2]"]);
    assert_eq!(echoes("echo(search(\"b\",\"abcabc\"));"), vec!["ECHO: [1]"]);
    assert_eq!(
        echoes("echo(lookup(2.5,[[0,0],[1,10],[2,20],[3,30]]));"),
        vec!["ECHO: 25"]
    );
    assert_eq!(
        echoes("echo(is_undef(undef), is_list([1]), is_num(1), is_string(\"s\"));"),
        vec!["ECHO: true, true, true, true"]
    );
}

#[test]
fn color_wraps_child() {
    let out = eval("color(\"red\") cube(2);");
    match out.node {
        Node::Color { rgba, child } => {
            assert_eq!(rgba, tinted(1.0, 0.0, 0.0, 1.0));
            assert_same(&child, &Node::Cube {
                    size: p3(2.0, 2.0, 2.0),
                    center: false
                });
        }
        other => panic!("unexpected: {other:?}"),
    }
}

#[test]
fn color_vector_and_alpha() {
    let out = eval("color([0,0,1], 0.5) cube(1);");
    match out.node {
        Node::Color { rgba, .. } => assert_eq!(rgba, tinted(0.0, 0.0, 1.0, 0.5)),
        other => panic!("unexpected: {other:?}"),
    }
}

#[test]
fn unknown_color_warns_and_passes_through() {
    let out = eval("color(\"chartreusey\") cube(1);");
    assert!(matches!(out.node, Node::Cube { .. }));
    assert!(out
        .warnings
        .iter()
        .any(|w| w.message.contains("unknown color")));
}

#[test]
fn highlight_and_background_wrap() {
    match eval("#cube(1);").node {
        Node::Highlight(c) => assert!(matches!(*c, Node::Cube { .. })),
        other => panic!("unexpected: {other:?}"),
    }
    match eval("%sphere(2);").node {
        Node::Background(c) => assert!(matches!(*c, Node::Sphere { .. })),
        other => panic!("unexpected: {other:?}"),
    }
}

#[test]
fn disable_modifier() {
    let out = eval("union() { cube(1); *sphere(5); }");
    match out.node {
        Node::Union(children) => assert_eq!(children.len(), 1),
        other => panic!("unexpected: {other:?}"),
    }
}

#[test]
fn odd_inputs_fail_gracefully() {
    let cases = [
        "x=1e999999; echo(x);",
        "echo(1/0); echo(0/0); echo(5%0);",
        "function f(x)=f(x); echo(f(1));",
        "a=[]; echo(a[999999999999]);",
        "echo(chr(-1), chr(1114112)); echo(\"abc\"[-5]);",
        "echo([for(i=[0:1:1e9]) i]);",
        "echo(2^2^2^2^2);",
        "echo(\"\u{65e5}\u{672c}\u{8a9e}\"[1]); echo(len(\"\u{1f389}\"));",
        "polygon([[0,0]]); linear_extrude(-5) square(10);",
        "echo(concat(), str(), lookup(5,[]));",
        "for(i=[0:-1:10]) cube(1);",
        "",
        "\u{0}\u{1}garbage \" unterminated",
    ];
    for source in cases {
        if let Ok(program) = parse(source) {
            let _ = eval_program(&program);
        }
    }
    assert_eq!(echoes("echo(chr(127881), ord(chr(127881)));"), vec!["ECHO: \"\u{1f389}\", 127881"]);
}

#[test]
fn seeds_decide_and_numbers_go_on() {
    assert_eq!(
        echoes("a=rands(0,1,4,7); b=concat(rands(0,1,2,7),rands(0,1,2)); echo(a==b);"),
        vec!["ECHO: true"]
    );
}

#[test]
fn modules_see_their_children_and_leave_nothing_behind() {
    let src = "module outer(){ echo($children, $parent_modules); children(); }
        outer(){ cube(1); x = 2; { cube(x); } }
        echo($children);";
    assert_eq!(echoes(src), ["2, 1", "undef"].map(|l| format!("ECHO: {l}")));
}

#[test]
fn children_are_drawn_where_they_are_written() {
    let src = "x = 1; module m(){ x = 2; children(); } m() cube(x);";
    assert_same(&eval(src).node, &eval("cube(1);").node);
    let src = "module m(){ children(1); } m(){ cube(1); sphere(2); cube(3); }";
    assert_same(&eval(src).node, &eval("sphere(2);").node);
    let src = "module m(){ children([0, 2]); } m(){ cube(1); sphere(2); cube(3); }";
    assert_same(&eval(src).node, &eval("group(){ cube(1); cube(3); }").node);
    assert!(matches!(eval("children();").node, Node::Empty));
}

#[test]
fn no_steps_are_too_few() {
    let prog = parse("x = 1;").unwrap();
    let err = eval_program_with_budget(&prog, 0).unwrap_err();
    assert_eq!(err.message, "evaluation budget exhausted");
    assert!(eval_program_with_budget(&prog, 1).is_ok());
    let prog = parse("echo(1 + 2);").unwrap();
    assert!(eval_program_with_budget(&prog, 2).is_err());
    assert_eq!(eval_program_with_budget(&prog, 3).unwrap().echoes, eval_program(&prog).unwrap().echoes);
    let nested = parse("function f(n) = n == 0 ? 0 : 1 + f(n - 1); x = f(50);").unwrap();
    assert!(eval_program_with_budget(&nested, 60).is_err());
    assert!(eval_program_with_budget(&nested, 10_000).is_ok());
}

#[test]
fn the_usual_names_are_there() {
    assert_eq!(echoes("echo(PI, abs(-1), $fa);"), ["ECHO: 3.14159, 1, 12"]);
}

#[test]
fn unknown_names_are_warned_of() {
    assert_eq!(warnings_of("nothing();"), ["Ignoring unknown module 'nothing'"]);
    let out = eval_program_with(&parse("use <none.scad>").unwrap(), Files(HashMap::new())).unwrap();
    assert_eq!(out.warnings[0].message, "Can't open 'use' file 'none.scad'");
}

#[test]
fn files_that_import_each_other_are_read_once() {
    let mut files = HashMap::new();
    files.insert("a".to_string(), "use <b>\nfunction one() = 1;".to_string());
    files.insert("b".to_string(), "use <a>\nfunction two() = 2;".to_string());
    let out = eval_program_with(&parse("use <a>\necho(one(), two());").unwrap(), Files(files)).unwrap();
    assert_eq!(out.echoes.len(), 1);
    assert!(out.echoes[0].starts_with("ECHO: 1"));
}

#[test]
fn files_are_spliced_wherever_they_are_named() {
    let mut files = HashMap::new();
    files.insert("part".to_string(), "w = 4; cube(w);".to_string());
    let src = "module m(){ include <part>\n sphere(w); } m();";
    let out = eval_program_with(&parse(src).unwrap(), Files(files)).unwrap();
    let wanted = eval("module m(){ w = 4; cube(w); sphere(w); } m();").node;
    assert_same(&strip_provenance(out.node), &wanted);
}

#[test]
fn a_root_replaces_everything() {
    assert_same(&eval("cube(1); ! sphere(2); cube(3);").node, &eval("sphere(2);").node);
}

#[test]
fn failed_assertions_say_why() {
    let err = eval_program(&parse("assert(1 > 2, \"no\");").unwrap()).unwrap_err();
    assert_eq!(err.message, "Assertion failed: no");
    let err = eval_program(&parse("assert(false);").unwrap()).unwrap_err();
    assert_eq!(err.message, "Assertion failed: ");
    assert_eq!(eval("assert(true) cube(1); assert(true);").asserts, 2);
}

#[test]
fn files_are_drawn_as_they_are_read() {
    let mut files = HashMap::new();
    files.insert("part.STL".to_string(), "solid".to_string());
    files.insert("heights.dat".to_string(), "# a table\n1 2\n3 x 4\n".to_string());
    let run = |src: &str| eval_program_with(&parse(src).unwrap(), Files(files.clone())).unwrap();
    match strip_provenance(run("import(\"part.STL\");").node) {
        Node::Import { data, format } => assert_eq!((data, format.as_str()), (b"solid".to_vec(), "stl")),
        other => panic!("{other:?}"),
    }
    let none = run("import(\"none.stl\"); surface(\"none.dat\"); surface(\"none.png\"); import(7);");
    let said: Vec<String> = none.warnings.into_iter().map(|w| w.message).collect();
    assert_eq!(
        said,
        [
            "Can't open import file 'none.stl'",
            "Can't open surface file 'none.dat'",
            "Can't open surface file 'none.png'",
        ]
    );
    assert!(matches!(none.node, Node::Empty));
    match strip_provenance(run("surface(\"heights.dat\");").node) {
        Node::Polyhedron { points, .. } => assert!(points.len() > 4),
        other => panic!("{other:?}"),
    }
    let bad = run("surface(\"part.STL.png\");");
    assert_eq!(bad.warnings.len(), 1);
}

#[test]
fn assertions_run_out_of_steps_as_such() {
    let prog = parse("assert(true);").unwrap();
    let err = eval_program_with_budget(&prog, 0).unwrap_err();
    assert_eq!(err.message, "evaluation budget exhausted");
    assert!(eval_program_with_budget(&prog, 1).is_ok());
    let prog = parse("x = assert(1 + 1 == 2) 7; echo(x);").unwrap();
    for fuel in 0..7 {
        let err = eval_program_with_budget(&prog, fuel).unwrap_err();
        assert_eq!(err.message, "evaluation budget exhausted", "{fuel}");
    }
    assert_eq!(eval_program_with_budget(&prog, 8).unwrap().echoes, ["ECHO: 7"]);
}

#[test]
fn errors_do_not_depend_on_the_budget() {
    let prog = parse("echo(1); assert(1 > 2, str(\"a\", \"b\")); echo(2);").unwrap();
    let free = eval_program(&prog).unwrap_err();
    assert_eq!(free.message, "Assertion failed: ab");
    let mut starved = 0;
    for fuel in 0..40 {
        let err = eval_program_with_budget(&prog, fuel).unwrap_err();
        if err.message == "evaluation budget exhausted" {
            starved = fuel;
        } else {
            assert_eq!((err.message, err.span), (free.message.clone(), free.span), "{fuel}");
        }
    }
    assert!(starved < 20);
}

#[test]
fn random_numbers_go_on_from_program_to_program() {
    let prog = parse("echo(rands(0, 1, 3));").unwrap();
    let first = eval_program(&prog).unwrap();
    let again = eval_program(&prog).unwrap();
    assert_eq!(first.echoes, again.echoes);
    let how = Setting { random: first.random, ..setting(Box::new(NullResolver)) };
    let second = run_program(&prog, how).unwrap();
    assert_ne!(first.echoes, second.echoes);
    let both = eval("echo(rands(0, 1, 3)); echo(rands(0, 1, 3));");
    assert_eq!(both.echoes, [first.echoes[0].clone(), second.echoes[0].clone()]);
    assert_eq!(both.random, second.random);
}

#[test]
fn names_besides_the_parameters_are_local_to_a_call() {
    assert_eq!(echoes("function f(x) = x + z; echo(f(1, z=5), f(z=2, x=3));"), ["ECHO: 6, 5"]);
    assert_eq!(echoes("function f(x) = x + $k; echo(f(1, $k=4));"), ["ECHO: 5"]);
    assert_eq!(echoes("function f(x, x2=2) = x * x2; echo(f(3), f(3, x2=5));"), ["ECHO: 6, 15"]);
}
