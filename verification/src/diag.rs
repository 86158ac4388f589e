//! Evaluation errors, warnings, and the diagnostics document built from them.

use crate::json::{json_quoted, quote};
use crate::text::{integer, integer_text, join, joined};
use vstd::prelude::*;

verus! {

/// A byte range of the main source.
#[derive(Clone, Copy, Debug, PartialEq, Eq, Structural)]
pub struct Span {
    pub start: usize,
    pub end: usize,
}

/// An evaluation error, with the span of the statement that produced it where
/// that is known.
#[derive(Debug)]
pub struct EvalError {
    pub message: String,
    pub span: Option<Span>,
}

/// A warning, with the span of the statement that produced it where that is
/// known.
#[derive(Debug)]
pub struct Warning {
    pub message: String,
    pub span: Option<Span>,
}

/// A structured diagnostic. `start` and `end` are byte offsets into the main
/// source, or -1 when no span is available.
#[derive(Debug)]
pub struct Diagnostic {
    pub severity: &'static str,
    pub message: String,
    pub start: i64,
    pub end: i64,
}

/// What a diagnostic says.
pub struct DiagnosticView {
    pub severity: Seq<char>,
    pub message: Seq<char>,
    pub start: i64,
    pub end: i64,
}

/// The message and span of a warning or an error.
pub struct NoteView {
    pub message: Seq<char>,
    pub span: Option<Span>,
}

impl View for Warning {
    type V = NoteView;

    open spec fn view(&self) -> NoteView {
        NoteView { message: self.message@, span: self.span }
    }
}

impl View for EvalError {
    type V = NoteView;

    open spec fn view(&self) -> NoteView {
        NoteView { message: self.message@, span: self.span }
    }
}

impl View for Diagnostic {
    type V = DiagnosticView;

    open spec fn view(&self) -> DiagnosticView {
        DiagnosticView {
            severity: self.severity@,
            message: self.message@,
            start: self.start,
            end: self.end,
        }
    }
}

/// The diagnostic for a note of this severity.
pub open spec fn diagnosed(severity: Seq<char>, note: NoteView) -> DiagnosticView {
    match note.span {
        Some(r) => DiagnosticView {
            severity,
            message: note.message,
            start: r.start as i64,
            end: r.end as i64,
        },
        None => DiagnosticView { severity, message: note.message, start: (-1) as i64, end: (-1) as i64 },
    }
}

impl EvalError {
    /// An error without a span.
    pub fn new(message: String) -> (r: EvalError)
        ensures
            r@ == (NoteView { message: message@, span: None }),
    {
        EvalError { message, span: None }
    }

    /// Fills in the span if there is none yet: the innermost statement wins.
    pub fn or_span(self, span: Option<Span>) -> (r: EvalError)
        ensures
            r@ == (NoteView {
                message: self@.message,
                span: if self@.span is Some {
                    self@.span
                } else {
                    span
                },
            }),
    {
        match self.span {
            Some(_) => self,
            None => EvalError { message: self.message, span },
        }
    }
}

impl Diagnostic {
    pub fn from_span(severity: &'static str, message: String, span: &Option<Span>) -> (r: Diagnostic)
        ensures
            r@ == diagnosed(severity@, (NoteView { message: message@, span: *span })),
    {
        match span {
            Some(r) => Diagnostic {
                severity,
                message,
                start: r.start as i64,
                end: r.end as i64,
            },
            None => Diagnostic { severity, message, start: -1, end: -1 },
        }
    }
}

/// A diagnostic as a JSON object.
pub open spec fn diagnostic_text(d: DiagnosticView) -> Seq<char> {
    "{\"severity\":"@ + json_quoted(d.severity) + ",\"message\":"@ + json_quoted(d.message)
        + ",\"start\":"@ + integer_text(d.start as int) + ",\"end\":"@ + integer_text(d.end as int)
        + "}"@
}

fn diagnostic_object(d: &Diagnostic) -> (r: String)
    ensures
        r@ == diagnostic_text(d@),
{
    let mut s = String::new();
    s.append("{\"severity\":");
    let severity = quote(d.severity);
    s.append(severity.as_str());
    s.append(",\"message\":");
    let message = quote(d.message.as_str());
    s.append(message.as_str());
    s.append(",\"start\":");
    let start = integer(d.start);
    s.append(start.as_str());
    s.append(",\"end\":");
    let end = integer(d.end);
    s.append(end.as_str());
    s.append("}");
    assert(s@ =~= diagnostic_text(d@));
    s
}

/// The objects of an error, where there is one, and of the warnings after it.
pub open spec fn diagnostic_parts(
    error: Option<DiagnosticView>,
    warnings: Seq<NoteView>,
) -> Seq<Seq<char>> {
    (match error {
        Some(e) => seq![diagnostic_text(e)],
        None => Seq::empty(),
    }) + warnings.map_values(|w: NoteView| diagnostic_text(diagnosed("warning"@, w)))
}

/// The diagnostics document: a JSON array of an optional error and the warnings.
pub open spec fn diagnostics_text(
    error: Option<DiagnosticView>,
    warnings: Seq<NoteView>,
) -> Seq<char> {
    "["@ + joined(diagnostic_parts(error, warnings), ","@) + "]"@
}

/// The contents of a list of warnings.
pub open spec fn notes(v: Seq<Warning>) -> Seq<NoteView> {
    v.map_values(|w: Warning| w@)
}

pub open spec fn maybe_diagnostic(e: Option<&Diagnostic>) -> Option<DiagnosticView> {
    match e {
        Some(d) => Some(d@),
        None => None,
    }
}

/// Serializes an optional error and the warnings into the diagnostics document.
pub fn diagnostics_json(error: Option<&Diagnostic>, warnings: &Vec<Warning>) -> (r: String)
    ensures
        r@ == diagnostics_text(maybe_diagnostic(error), notes(warnings@)),
{
    let mut parts: Vec<String> = Vec::new();
    if let Some(e) = error {
        parts.push(diagnostic_object(e));
    }
    let ghost lead = crate::blob::texts(parts@);
    proof {
        match error {
            Some(e) => assert(lead =~= seq![diagnostic_text(e@)]),
            None => assert(lead =~= Seq::empty()),
        }
    }
    let ghost rest = notes(warnings@).map_values(
        |w: NoteView| diagnostic_text(diagnosed("warning"@, w)),
    );
    for i in 0..warnings.len()
        invariant
            rest == notes(warnings@).map_values(
                |w: NoteView| diagnostic_text(diagnosed("warning"@, w)),
            ),
            crate::blob::texts(parts@) =~= lead + rest.take(i as int),
    {
        let w = &warnings[i];
        let d = Diagnostic::from_span("warning", w.message.clone(), &w.span);
        let ghost before = parts@;
        parts.push(diagnostic_object(&d));
        proof {
            assert(notes(warnings@)[i as int] == w@);
            assert(rest[i as int] == diagnostic_text(d@));
            assert(crate::blob::texts(parts@) =~= crate::blob::texts(before).push(
                diagnostic_text(d@),
            ));
        }
    }
    assert(rest.take(warnings@.len() as int) =~= rest);
    let body = join(&parts, ",");
    let mut s = String::new();
    s.append("[");
    s.append(body.as_str());
    s.append("]");
    assert(s@ =~= diagnostics_text(maybe_diagnostic(error), notes(warnings@)));
    s
}

/// The diagnostic for a parse error.
pub fn parse_error_diagnostic(message: String, span: Span) -> (r: Diagnostic)
    ensures
        r@ == diagnosed("error"@, (NoteView { message: message@, span: Some(span) })),
{
    Diagnostic::from_span("error", message, &Some(span))
}

/// The diagnostic for an evaluation error.
pub fn eval_error_diagnostic(err: &EvalError) -> (r: Diagnostic)
    ensures
        r@ == diagnosed("error"@, err@),
{
    Diagnostic::from_span("error", err.message.clone(), &err.span)
}

/// The innermost statement that has a span wins, however many enclosing
/// statements offer theirs afterwards.
pub proof fn law_innermost_span_wins(inner: Option<Span>, outer: Seq<Option<Span>>)
    ensures
        inner is Some ==> offered(inner, outer) == inner,
    decreases outer.len(),
{
    if outer.len() > 0 {
        law_innermost_span_wins(inner, outer.drop_last());
    }
}

/// The span after each enclosing statement, innermost first, has offered its own.
pub open spec fn offered(inner: Option<Span>, outer: Seq<Option<Span>>) -> Option<Span>
    decreases outer.len(),
{
    if outer.len() == 0 {
        inner
    } else {
        let kept = offered(inner, outer.drop_last());
        if kept is Some {
            kept
        } else {
            outer.last()
        }
    }
}

} // verus!
