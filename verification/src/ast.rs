//! The expressions of the language, and their text.

use crate::blob::texts;
use crate::format::{format_number, number_text};
use crate::num::{Arithmetic, Calc, Reading};
use crate::text::{chars_of, join, joined};
use crate::value::{BinOp, UnOp};
use std::rc::Rc;
use vstd::prelude::*;

verus! {

/// A parameter of a function or module.
#[derive(Debug)]
pub struct Param {
    pub name: String,
    pub default: Option<Expr>,
}

/// An argument of a call.
#[derive(Debug)]
pub struct Arg {
    pub name: Option<String>,
    pub value: Expr,
}

/// A name given a value.
#[derive(Debug)]
pub struct Binding {
    pub name: String,
    pub value: Expr,
}

/// An element of a list: an item, or a comprehension.
#[derive(Debug)]
pub enum ListElem {
    Item(Expr),
    Each(Box<ListElem>),
    For { bindings: Vec<Binding>, body: Box<ListElem> },
    CFor { init: Vec<Binding>, cond: Expr, update: Vec<Binding>, body: Box<ListElem> },
    If { cond: Expr, yes: Box<ListElem>, no: Option<Box<ListElem>> },
    Let { bindings: Vec<Binding>, body: Box<ListElem> },
}

/// An expression.
#[allow(inconsistent_fields)]
#[derive(Debug)]
pub enum Expr {
    /// A number, as its bits.
    Number(u64),
    Bool(bool),
    Str(String),
    Undef,
    Ident(String),
    Vector(Vec<ListElem>),
    Range { start: Box<Expr>, step: Option<Box<Expr>>, end: Box<Expr> },
    Unary { op: UnOp, expr: Box<Expr> },
    Binary { op: BinOp, lhs: Box<Expr>, rhs: Box<Expr> },
    Ternary { cond: Box<Expr>, yes: Box<Expr>, no: Box<Expr> },
    Index { base: Box<Expr>, index: Box<Expr> },
    Member { base: Box<Expr>, field: String },
    Call { name: String, args: Vec<Arg> },
    CallValue { callee: Box<Expr>, args: Vec<Arg> },
    Let { bindings: Vec<Binding>, body: Box<Expr> },
    /// A function; shared, so that a closure of it costs nothing.
    FunctionLiteral { params: Rc<Vec<Param>>, body: Rc<Expr> },
    Echo { args: Vec<Arg>, body: Box<Expr> },
    Assert { args: Vec<Arg>, body: Box<Expr> },
}

// ---- text -------------------------------------------------------------------------------------

/// How a character stands in a quoted text.
pub open spec fn escaped_char(c: char) -> Seq<char> {
    if c == '\\' {
        seq!['\\', '\\']
    } else if c == '"' {
        seq!['\\', '"']
    } else if c == '\t' {
        seq!['\\', 't']
    } else if c == '\n' {
        seq!['\\', 'n']
    } else if c == '\r' {
        seq!['\\', 'r']
    } else {
        seq![c]
    }
}

pub open spec fn escaped(s: Seq<char>) -> Seq<char>
    decreases s.len(),
{
    if s.len() == 0 {
        Seq::empty()
    } else {
        escaped(s.drop_last()) + escaped_char(s.last())
    }
}

/// A text in quotes.
pub open spec fn quoted_text(s: Seq<char>) -> Seq<char> {
    seq!['"'] + escaped(s) + seq!['"']
}

/// A text in quotes, with what would end it escaped.
pub fn quote_string(s: &str) -> (r: String)
    ensures
        r@ == quoted_text(s@),
{
    let v = chars_of(s);
    let mut out = String::new();
    out.push('"');
    assert(v@.take(0) =~= Seq::empty());
    assert(out@ =~= seq!['"'] + escaped(v@.take(0)));
    for i in 0..v.len()
        invariant
            v@ == s@,
            out@ =~= seq!['"'] + escaped(v@.take(i as int)),
    {
        let c = v[i];
        let ghost before = out@;
        proof {
            let t = v@.take(i + 1);
            assert(t.drop_last() =~= v@.take(i as int));
            assert(t.last() == c);
        }
        if c == '\\' {
            out.push('\\');
            out.push('\\');
        } else if c == '"' {
            out.push('\\');
            out.push('"');
        } else if c == '\t' {
            out.push('\\');
            out.push('t');
        } else if c == '\n' {
            out.push('\\');
            out.push('n');
        } else if c == '\r' {
            out.push('\\');
            out.push('r');
        } else {
            out.push(c);
        }
        assert(out@ =~= before + escaped_char(c));
    }
    assert(v@.take(v@.len() as int) =~= v@);
    out.push('"');
    assert(out@ =~= quoted_text(s@));
    out
}

pub open spec fn bool_text(b: bool) -> Seq<char> {
    if b {
        "true"@
    } else {
        "false"@
    }
}

pub open spec fn binop_text(op: BinOp) -> Seq<char> {
    match op {
        BinOp::Add => "+"@,
        BinOp::Sub => "-"@,
        BinOp::Mul => "*"@,
        BinOp::Div => "/"@,
        BinOp::Mod => "%"@,
        BinOp::Pow => "^"@,
        BinOp::Eq => "=="@,
        BinOp::Ne => "!="@,
        BinOp::Lt => "<"@,
        BinOp::Le => "<="@,
        BinOp::Gt => ">"@,
        BinOp::Ge => ">="@,
        BinOp::And => "&&"@,
        BinOp::Or => "||"@,
    }
}

/// How an operator is written.
pub fn binop_str(op: BinOp) -> (r: &'static str)
    ensures
        r@ == binop_text(op),
{
    match op {
        BinOp::Add => "+",
        BinOp::Sub => "-",
        BinOp::Mul => "*",
        BinOp::Div => "/",
        BinOp::Mod => "%",
        BinOp::Pow => "^",
        BinOp::Eq => "==",
        BinOp::Ne => "!=",
        BinOp::Lt => "<",
        BinOp::Le => "<=",
        BinOp::Gt => ">",
        BinOp::Ge => ">=",
        BinOp::And => "&&",
        BinOp::Or => "||",
    }
}

/// Texts with a comma and a space between any two.
pub open spec fn comma_joined(parts: Seq<Seq<char>>) -> Seq<char> {
    joined(parts, ", "@)
}

/// A name given a text.
pub open spec fn assigned(name: Seq<char>, value: Seq<char>) -> Seq<char> {
    name + " = "@ + value
}

pub open spec fn param_text(m: Reading, p: Param) -> Seq<char>
    decreases p,
{
    match p.default {
        Some(d) => assigned(p.name@, expr_text(m, d)),
        None => p.name@,
    }
}

pub open spec fn params_parts(m: Reading, v: Vec<Param>) -> Seq<Seq<char>>
    decreases v,
{
    Seq::new(
        v@.len(),
        |i: int|
            if 0 <= i < v@.len() {
                param_text(m, v@[i])
            } else {
                Seq::empty()
            },
    )
}

pub open spec fn arg_text(m: Reading, a: Arg) -> Seq<char>
    decreases a,
{
    match a.name {
        Some(n) => assigned(n@, expr_text(m, a.value)),
        None => expr_text(m, a.value),
    }
}

pub open spec fn args_parts(m: Reading, v: Vec<Arg>) -> Seq<Seq<char>>
    decreases v,
{
    Seq::new(
        v@.len(),
        |i: int|
            if 0 <= i < v@.len() {
                arg_text(m, v@[i])
            } else {
                Seq::empty()
            },
    )
}

pub open spec fn binding_text(m: Reading, b: Binding) -> Seq<char>
    decreases b,
{
    assigned(b.name@, expr_text(m, b.value))
}

pub open spec fn bindings_parts(m: Reading, v: Vec<Binding>) -> Seq<Seq<char>>
    decreases v,
{
    Seq::new(
        v@.len(),
        |i: int|
            if 0 <= i < v@.len() {
                binding_text(m, v@[i])
            } else {
                Seq::empty()
            },
    )
}

pub open spec fn elems_parts(m: Reading, v: Vec<ListElem>) -> Seq<Seq<char>>
    decreases v,
{
    Seq::new(
        v@.len(),
        |i: int|
            if 0 <= i < v@.len() {
                elem_text(m, v@[i])
            } else {
                Seq::empty()
            },
    )
}

/// The text of a list element. The body of a comprehension stands in
/// parentheses of its own.
pub open spec fn elem_text(m: Reading, el: ListElem) -> Seq<char>
    decreases el,
{
    match el {
        ListElem::Item(e) => expr_text(m, e),
        ListElem::Each(inner) => "each "@ + elem_text(m, *inner),
        ListElem::For { bindings, body } => "for("@ + comma_joined(bindings_parts(m, bindings)) + ") ("@
            + elem_text(m, *body) + ")"@,
        ListElem::CFor { init, cond, update, body } => "for("@ + comma_joined(bindings_parts(m, init)) + "; "@
            + expr_text(m, cond) + "; "@ + comma_joined(bindings_parts(m, update)) + ") ("@ + elem_text(m, *body)
            + ")"@,
        ListElem::If { cond, yes, no } => match no {
            Some(e) => "if("@ + expr_text(m, cond) + ") ("@ + elem_text(m, *yes) + ") else ("@
                + elem_text(m, *e) + ")"@,
            None => "if("@ + expr_text(m, cond) + ") ("@ + elem_text(m, *yes) + ")"@,
        },
        ListElem::Let { bindings, body } => "let("@ + comma_joined(bindings_parts(m, bindings)) + ") "@
            + elem_text(m, *body),
    }
}

/// The text of a function.
pub open spec fn function_text(m: Reading, params: Vec<Param>, body: Expr) -> Seq<char>
    decreases params, body,
{
    "function("@ + comma_joined(params_parts(m, params)) + ") "@ + expr_text(m, body)
}

/// The text of an expression. Operations of two or three operands stand in
/// parentheses; a plus sign before an operand is dropped.
pub open spec fn expr_text(m: Reading, e: Expr) -> Seq<char>
    decreases e,
{
    match e {
        Expr::Number(n) => number_text(m, n),
        Expr::Bool(b) => bool_text(b),
        Expr::Str(s) => quoted_text(s@),
        Expr::Undef => "undef"@,
        Expr::Ident(n) => n@,
        Expr::Vector(elems) => "["@ + comma_joined(elems_parts(m, elems)) + "]"@,
        Expr::Range { start, step, end } => match step {
            Some(s) => "["@ + expr_text(m, *start) + " : "@ + expr_text(m, *s) + " : "@
                + expr_text(m, *end) + "]"@,
            None => "["@ + expr_text(m, *start) + " : "@ + expr_text(m, *end) + "]"@,
        },
        Expr::Unary { op, expr } => match op {
            UnOp::Neg => "-"@ + expr_text(m, *expr),
            UnOp::Not => "!"@ + expr_text(m, *expr),
            UnOp::Pos => expr_text(m, *expr),
        },
        Expr::Binary { op, lhs, rhs } => "("@ + expr_text(m, *lhs) + " "@ + binop_text(op) + " "@
            + expr_text(m, *rhs) + ")"@,
        Expr::Ternary { cond, yes, no } => "("@ + expr_text(m, *cond) + " ? "@ + expr_text(m, *yes)
            + " : "@ + expr_text(m, *no) + ")"@,
        Expr::Index { base, index } => expr_text(m, *base) + "["@ + expr_text(m, *index) + "]"@,
        Expr::Member { base, field } => expr_text(m, *base) + "."@ + field@,
        Expr::Call { name, args } => name@ + "("@ + comma_joined(args_parts(m, args)) + ")"@,
        Expr::CallValue { callee, args } => expr_text(m, *callee) + "("@ + comma_joined(args_parts(m, args))
            + ")"@,
        Expr::Let { bindings, body } => "let("@ + comma_joined(bindings_parts(m, bindings)) + ") "@ + expr_text(
            m,
            *body,
        ),
        Expr::FunctionLiteral { params, body } => "function("@ + comma_joined(params_parts(m, *params)) + ") "@
            + expr_text(m, *body),
        Expr::Echo { args, body } => "echo("@ + comma_joined(args_parts(m, args)) + ") "@ + expr_text(m, *body),
        Expr::Assert { args, body } => "assert("@ + comma_joined(args_parts(m, args)) + ") "@ + expr_text(
            m,
            *body,
        ),
    }
}

/// A name given a text.
fn assignment(name: &str, value: &str) -> (r: String)
    ensures
        r@ == assigned(name@, value@),
{
    let mut s = name.to_owned();
    s.append(" = ");
    s.append(value);
    s
}

fn fmt_param<A: Arithmetic>(calc: &mut Calc<A>, p: &Param) -> (r: String)
    ensures
        forall|m: Reading| #[trigger]
            final(calc).agrees(m) ==> old(calc).agrees(m) && r@ == param_text(m, *p),
    decreases *p,
{
    match &p.default {
        Some(d) => {
            let t = fmt_expr(calc, d);
            assignment(p.name.as_str(), t.as_str())
        },
        None => p.name.clone(),
    }
}

fn fmt_params<A: Arithmetic>(calc: &mut Calc<A>, v: &Vec<Param>) -> (r: String)
    ensures
        forall|m: Reading| #[trigger]
            final(calc).agrees(m) ==> old(calc).agrees(m) && r@ == comma_joined(params_parts(m, *v)),
    decreases *v,
{
    let mut parts: Vec<String> = Vec::new();
    let mut i: usize = 0;
    while i < v.len()
        invariant
            i <= v@.len(),
            parts@.len() == i,
            forall|m: Reading| #[trigger]
                calc.agrees(m) ==> old(calc).agrees(m) && forall|k: int|
                    0 <= k < i ==> #[trigger] texts(parts@)[k] == param_text(m, v@[k]),
        decreases v.len() - i,
    {
        let ghost before = texts(parts@);
        let part = fmt_param(calc, &v[i]);
        parts.push(part);
        assert(texts(parts@) =~= before.push(part@));
        i = i + 1;
    }
    let r = join(&parts, ", ");
    proof {
        assert forall|m: Reading| #[trigger] calc.agrees(m) implies r@ == comma_joined(params_parts(m, *v)) by {
            let all = params_parts(m, *v);
            assert forall|k: int| 0 <= k < parts@.len() implies texts(parts@)[k] == all[k] by {}
            assert(texts(parts@) =~= all);
        }
    }
    r
}

fn fmt_arg<A: Arithmetic>(calc: &mut Calc<A>, a: &Arg) -> (r: String)
    ensures
        forall|m: Reading| #[trigger]
            final(calc).agrees(m) ==> old(calc).agrees(m) && r@ == arg_text(m, *a),
    decreases *a,
{
    let t = fmt_expr(calc, &a.value);
    match &a.name {
        Some(n) => assignment(n.as_str(), t.as_str()),
        None => t,
    }
}

fn fmt_args<A: Arithmetic>(calc: &mut Calc<A>, v: &Vec<Arg>) -> (r: String)
    ensures
        forall|m: Reading| #[trigger]
            final(calc).agrees(m) ==> old(calc).agrees(m) && r@ == comma_joined(args_parts(m, *v)),
    decreases *v,
{
    let mut parts: Vec<String> = Vec::new();
    let mut i: usize = 0;
    while i < v.len()
        invariant
            i <= v@.len(),
            parts@.len() == i,
            forall|m: Reading| #[trigger]
                calc.agrees(m) ==> old(calc).agrees(m) && forall|k: int|
                    0 <= k < i ==> #[trigger] texts(parts@)[k] == arg_text(m, v@[k]),
        decreases v.len() - i,
    {
        let ghost before = texts(parts@);
        let part = fmt_arg(calc, &v[i]);
        parts.push(part);
        assert(texts(parts@) =~= before.push(part@));
        i = i + 1;
    }
    let r = join(&parts, ", ");
    proof {
        assert forall|m: Reading| #[trigger] calc.agrees(m) implies r@ == comma_joined(args_parts(m, *v)) by {
            let all = args_parts(m, *v);
            assert forall|k: int| 0 <= k < parts@.len() implies texts(parts@)[k] == all[k] by {}
            assert(texts(parts@) =~= all);
        }
    }
    r
}

fn fmt_binding<A: Arithmetic>(calc: &mut Calc<A>, b: &Binding) -> (r: String)
    ensures
        forall|m: Reading| #[trigger]
            final(calc).agrees(m) ==> old(calc).agrees(m) && r@ == binding_text(m, *b),
    decreases *b,
{
    let t = fmt_expr(calc, &b.value);
    assignment(b.name.as_str(), t.as_str())
}

fn fmt_bindings<A: Arithmetic>(calc: &mut Calc<A>, v: &Vec<Binding>) -> (r: String)
    ensures
        forall|m: Reading| #[trigger]
            final(calc).agrees(m) ==> old(calc).agrees(m) && r@ == comma_joined(bindings_parts(m, *v)),
    decreases *v,
{
    let mut parts: Vec<String> = Vec::new();
    let mut i: usize = 0;
    while i < v.len()
        invariant
            i <= v@.len(),
            parts@.len() == i,
            forall|m: Reading| #[trigger]
                calc.agrees(m) ==> old(calc).agrees(m) && forall|k: int|
                    0 <= k < i ==> #[trigger] texts(parts@)[k] == binding_text(m, v@[k]),
        decreases v.len() - i,
    {
        let ghost before = texts(parts@);
        let part = fmt_binding(calc, &v[i]);
        parts.push(part);
        assert(texts(parts@) =~= before.push(part@));
        i = i + 1;
    }
    let r = join(&parts, ", ");
    proof {
        assert forall|m: Reading| #[trigger] calc.agrees(m) implies r@ == comma_joined(bindings_parts(m, *v)) by {
            let all = bindings_parts(m, *v);
            assert forall|k: int| 0 <= k < parts@.len() implies texts(parts@)[k] == all[k] by {}
            assert(texts(parts@) =~= all);
        }
    }
    r
}

fn fmt_elems<A: Arithmetic>(calc: &mut Calc<A>, v: &Vec<ListElem>) -> (r: String)
    ensures
        forall|m: Reading| #[trigger]
            final(calc).agrees(m) ==> old(calc).agrees(m) && r@ == comma_joined(elems_parts(m, *v)),
    decreases *v,
{
    let mut parts: Vec<String> = Vec::new();
    let mut i: usize = 0;
    while i < v.len()
        invariant
            i <= v@.len(),
            parts@.len() == i,
            forall|m: Reading| #[trigger]
                calc.agrees(m) ==> old(calc).agrees(m) && forall|k: int|
                    0 <= k < i ==> #[trigger] texts(parts@)[k] == elem_text(m, v@[k]),
        decreases v.len() - i,
    {
        let ghost before = texts(parts@);
        let part = fmt_listelem(calc, &v[i]);
        parts.push(part);
        assert(texts(parts@) =~= before.push(part@));
        i = i + 1;
    }
    let r = join(&parts, ", ");
    proof {
        assert forall|m: Reading| #[trigger] calc.agrees(m) implies r@ == comma_joined(elems_parts(m, *v)) by {
            let all = elems_parts(m, *v);
            assert forall|k: int| 0 <= k < parts@.len() implies texts(parts@)[k] == all[k] by {}
            assert(texts(parts@) =~= all);
        }
    }
    r
}

/// The text of a list element.
pub fn fmt_listelem<A: Arithmetic>(calc: &mut Calc<A>, el: &ListElem) -> (r: String)
    ensures
        forall|m: Reading| #[trigger]
            final(calc).agrees(m) ==> old(calc).agrees(m) && r@ == elem_text(m, *el),
    decreases *el,
{
    match el {
        ListElem::Item(e) => fmt_expr(calc, e),
        ListElem::Each(inner) => {
            let t = fmt_listelem(calc, inner);
            let mut s = "each ".to_owned();
            s.append(t.as_str());
            s
        },
        ListElem::For { bindings, body } => {
            let b = fmt_bindings(calc, bindings);
            let t = fmt_listelem(calc, body);
            let mut s = "for(".to_owned();
            s.append(b.as_str());
            s.append(") (");
            s.append(t.as_str());
            s.append(")");
            s
        },
        ListElem::CFor { init, cond, update, body } => {
            let a = fmt_bindings(calc, init);
            let c = fmt_expr(calc, cond);
            let u = fmt_bindings(calc, update);
            let t = fmt_listelem(calc, body);
            let mut s = "for(".to_owned();
            s.append(a.as_str());
            s.append("; ");
            s.append(c.as_str());
            s.append("; ");
            s.append(u.as_str());
            s.append(") (");
            s.append(t.as_str());
            s.append(")");
            s
        },
        ListElem::If { cond, yes, no } => {
            let c = fmt_expr(calc, cond);
            let y = fmt_listelem(calc, yes);
            let mut s = "if(".to_owned();
            s.append(c.as_str());
            s.append(") (");
            s.append(y.as_str());
            match no {
                Some(e) => {
                    let n = fmt_listelem(calc, e);
                    s.append(") else (");
                    s.append(n.as_str());
                    s.append(")");
                },
                None => {
                    s.append(")");
                },
            }
            s
        },
        ListElem::Let { bindings, body } => {
            let b = fmt_bindings(calc, bindings);
            let t = fmt_listelem(calc, body);
            let mut s = "let(".to_owned();
            s.append(b.as_str());
            s.append(") ");
            s.append(t.as_str());
            s
        },
    }
}

fn bracketed(head: &str, inner: &str, tail: &str, rest: &str) -> (r: String)
    ensures
        r@ == head@ + inner@ + tail@ + rest@,
{
    let mut s = head.to_owned();
    s.append(inner);
    s.append(tail);
    s.append(rest);
    s
}

/// The text of a function.
pub fn format_function<A: Arithmetic>(calc: &mut Calc<A>, params: &Vec<Param>, body: &Expr) -> (r:
    String)
    ensures
        forall|m: Reading| #[trigger]
            final(calc).agrees(m) ==> old(calc).agrees(m) && r@ == function_text(m, *params, *body),
{
    let p = fmt_params(calc, params);
    let b = fmt_expr(calc, body);
    bracketed("function(", p.as_str(), ") ", b.as_str())
}

/// The text of an expression.
pub fn fmt_expr<A: Arithmetic>(calc: &mut Calc<A>, e: &Expr) -> (r: String)
    ensures
        forall|m: Reading| #[trigger]
            final(calc).agrees(m) ==> old(calc).agrees(m) && r@ == expr_text(m, *e),
    decreases *e,
{
    match e {
        Expr::Number(n) => format_number(calc, *n),
        Expr::Bool(b) => if *b {
            "true".to_owned()
        } else {
            "false".to_owned()
        },
        Expr::Str(s) => quote_string(s.as_str()),
        Expr::Undef => "undef".to_owned(),
        Expr::Ident(n) => n.clone(),
        Expr::Vector(elems) => {
            let t = fmt_elems(calc, elems);
            let mut s = "[".to_owned();
            s.append(t.as_str());
            s.append("]");
            s
        },
        Expr::Range { start, step, end } => {
            let a = fmt_expr(calc, start);
            match step {
                Some(st) => {
                    let b = fmt_expr(calc, st);
                    let c = fmt_expr(calc, end);
                    let mut s = "[".to_owned();
                    s.append(a.as_str());
                    s.append(" : ");
                    s.append(b.as_str());
                    s.append(" : ");
                    s.append(c.as_str());
                    s.append("]");
                    s
                },
                None => {
                    let c = fmt_expr(calc, end);
                    let mut s = "[".to_owned();
                    s.append(a.as_str());
                    s.append(" : ");
                    s.append(c.as_str());
                    s.append("]");
                    s
                },
            }
        },
        Expr::Unary { op, expr } => {
            let t = fmt_expr(calc, expr);
            match op {
                UnOp::Neg => {
                    let mut s = "-".to_owned();
                    s.append(t.as_str());
                    s
                },
                UnOp::Not => {
                    let mut s = "!".to_owned();
                    s.append(t.as_str());
                    s
                },
                UnOp::Pos => t,
            }
        },
        Expr::Binary { op, lhs, rhs } => {
            let l = fmt_expr(calc, lhs);
            let r = fmt_expr(calc, rhs);
            let mut s = "(".to_owned();
            s.append(l.as_str());
            s.append(" ");
            s.append(binop_str(*op));
            s.append(" ");
            s.append(r.as_str());
            s.append(")");
            s
        },
        Expr::Ternary { cond, yes, no } => {
            let c = fmt_expr(calc, cond);
            let y = fmt_expr(calc, yes);
            let n = fmt_expr(calc, no);
            let mut s = "(".to_owned();
            s.append(c.as_str());
            s.append(" ? ");
            s.append(y.as_str());
            s.append(" : ");
            s.append(n.as_str());
            s.append(")");
            s
        },
        Expr::Index { base, index } => {
            let b = fmt_expr(calc, base);
            let i = fmt_expr(calc, index);
            bracketed(b.as_str(), "[", i.as_str(), "]")
        },
        Expr::Member { base, field } => {
            let mut s = fmt_expr(calc, base);
            s.append(".");
            s.append(field.as_str());
            s
        },
        Expr::Call { name, args } => {
            let a = fmt_args(calc, args);
            bracketed(name.as_str(), "(", a.as_str(), ")")
        },
        Expr::CallValue { callee, args } => {
            let c = fmt_expr(calc, callee);
            let a = fmt_args(calc, args);
            bracketed(c.as_str(), "(", a.as_str(), ")")
        },
        Expr::Let { bindings, body } => {
            let b = fmt_bindings(calc, bindings);
            let t = fmt_expr(calc, body);
            bracketed("let(", b.as_str(), ") ", t.as_str())
        },
        Expr::FunctionLiteral { params, body } => {
            let p = fmt_params(calc, &**params);
            let t = fmt_expr(calc, &**body);
            bracketed("function(", p.as_str(), ") ", t.as_str())
        },
        Expr::Echo { args, body } => {
            let a = fmt_args(calc, args);
            let t = fmt_expr(calc, body);
            bracketed("echo(", a.as_str(), ") ", t.as_str())
        },
        Expr::Assert { args, body } => {
            let a = fmt_args(calc, args);
            let t = fmt_expr(calc, body);
            bracketed("assert(", a.as_str(), ") ", t.as_str())
        },
    }
}

} // verus!
