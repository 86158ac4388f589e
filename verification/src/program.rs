//! The statements of a program, and what is decided before they run.

use crate::ast::{Arg, Binding, Expr, Param};
use crate::diag::{NoteView, Span, Warning};
use crate::iterate::{iter_values, iterated};
use crate::num::{Arithmetic, Calc, NumOp, Reading};
use crate::provenance::SourceSpan;
use crate::text::same_text;
use crate::value::{number_of, vals, Val, Value};
use std::rc::Rc;
use vstd::prelude::*;

verus! {

// ---- statements -----------------------------------------------------------------------------------

/// What a module call is marked with.
#[derive(Clone, Copy, Debug, PartialEq, Eq, Structural)]
pub enum Modifier {
    Disable,
    Root,
    Highlight,
    Background,
}

/// A statement, and where it stands. A statement that was spliced in from
/// another file has the largest position.
#[derive(Debug)]
pub struct Spanned {
    pub node: Rc<Stmt>,
    pub start: usize,
    pub end: usize,
    pub source_id: u32,
}

/// A statement.
#[allow(inconsistent_fields)]
#[derive(Debug)]
pub enum Stmt {
    Assign { name: String, value: Expr },
    FunctionDef { name: String, params: Rc<Vec<Param>>, body: Rc<Expr> },
    ModuleDef { name: String, params: Rc<Vec<Param>>, body: Rc<Vec<Spanned>> },
    Use { path: String },
    Splice { path: String },
    Block(Vec<Spanned>),
    If { cond: Expr, yes: Vec<Spanned>, no: Vec<Spanned> },
    For { bindings: Vec<Binding>, body: Vec<Spanned> },
    Let { bindings: Vec<Binding>, body: Vec<Spanned> },
    ModuleCall {
        modifier: Option<Modifier>,
        name: String,
        args: Vec<Arg>,
        children: Rc<Vec<Spanned>>,
    },
}

/// The position of a statement that was spliced in.
pub const NOWHERE: usize = usize::MAX;

/// Where a diagnostic on a statement points: nowhere unless it stands in the
/// main source.
pub open spec fn place_of(in_main: bool, s: Spanned) -> Option<Span> {
    if in_main && s.source_id == 0 && s.start != NOWHERE {
        Some(Span { start: s.start, end: s.end })
    } else {
        None
    }
}

/// Where a diagnostic on a statement points.
pub fn stmt_span(in_main: bool, s: &Spanned) -> (r: Option<Span>)
    ensures
        r == place_of(in_main, *s),
{
    if in_main && s.source_id == 0 && s.start != NOWHERE {
        Some(Span { start: s.start, end: s.end })
    } else {
        None
    }
}

/// The statement's place in its own source, positions cut to 32 bits.
pub open spec fn whole_span(s: Spanned) -> SourceSpan {
    SourceSpan {
        source_id: s.source_id,
        start: (s.start as int % 0x1_0000_0000) as u32,
        end: (s.end as int % 0x1_0000_0000) as u32,
    }
}

/// The statement's place in its own source.
pub fn source_span(s: &Spanned) -> (r: SourceSpan)
    ensures
        r == whole_span(*s),
        r.source_id == s.source_id,
        r.start == s.start as int % 0x1_0000_0000,
        r.end == s.end as int % 0x1_0000_0000,
{
    let start: u64 = s.start as u64;
    let end: u64 = s.end as u64;
    SourceSpan {
        source_id: s.source_id,
        start: (start % 0x1_0000_0000) as u32,
        end: (end % 0x1_0000_0000) as u32,
    }
}

// ---- children -----------------------------------------------------------------------------------------

/// A statement defines something or assigns, and draws nothing.
pub open spec fn is_local(s: Stmt) -> bool {
    match s {
        Stmt::Assign { .. } => true,
        Stmt::FunctionDef { .. } => true,
        Stmt::ModuleDef { .. } => true,
        Stmt::Use { .. } => true,
        Stmt::Splice { .. } => true,
        _ => false,
    }
}

/// The children among the first `n` statements: what defines something is left
/// out, and a bare block counts as what it holds.
pub open spec fn slots_below(kids: Vec<Spanned>, n: int) -> Seq<Spanned>
    decreases kids, n,
{
    if n <= 0 || n > kids@.len() {
        Seq::empty()
    } else {
        slots_below(kids, n - 1) + slots_of(kids@[n - 1])
    }
}

/// The children that a statement stands for.
pub open spec fn slots_of(s: Spanned) -> Seq<Spanned>
    decreases s, 0int,
{
    match *s.node {
        Stmt::Block(inner) => slots_below(inner, inner@.len() as int),
        _ => if is_local(*s.node) {
            Seq::empty()
        } else {
            seq![s]
        },
    }
}

/// The statements behind references.
pub open spec fn behind<'a>(v: Seq<&'a Spanned>) -> Seq<Spanned> {
    v.map_values(|s: &'a Spanned| *s)
}

/// The same statements again.
pub fn share_block(v: &Vec<Spanned>) -> (r: Vec<Spanned>)
    ensures
        r@ == v@,
{
    let mut out: Vec<Spanned> = Vec::new();
    for i in 0..v.len()
        invariant
            out@ =~= v@.take(i as int),
    {
        let s = Spanned {
            node: v[i].node.clone(),
            start: v[i].start,
            end: v[i].end,
            source_id: v[i].source_id,
        };
        assert(s == v@[i as int]);
        out.push(s);
    }
    assert(v@.take(v@.len() as int) =~= v@);
    out
}

/// Adds the children of a child block.
pub fn collect_child_slots<'a>(kids: &'a Vec<Spanned>, out: &mut Vec<&'a Spanned>)
    ensures
        behind(final(out)@) == behind(old(out)@) + slots_below(*kids, kids@.len() as int),
    decreases *kids,
{
    let ghost before = behind(out@);
    let mut i: usize = 0;
    assert(before + slots_below(*kids, 0) =~= before);
    while i < kids.len()
        invariant
            i <= kids@.len(),
            behind(out@) == before + slots_below(*kids, i as int),
        decreases kids.len() - i,
    {
        let s = &kids[i];
        let ghost held = behind(out@);
        match &*s.node {
            Stmt::Block(inner) => {
                collect_child_slots(inner, out);
            },
            Stmt::Assign { .. } => {},
            Stmt::FunctionDef { .. } => {},
            Stmt::ModuleDef { .. } => {},
            Stmt::Use { .. } => {},
            Stmt::Splice { .. } => {},
            _ => {
                out.push(s);
                assert(behind(out@) =~= held.push(*s));
            },
        }
        assert(behind(out@) =~= held + slots_of(*s));
        assert(behind(out@) =~= before + slots_below(*kids, i + 1));
        i = i + 1;
    }
}

/// The whole numbers among the first `n` items.
pub open spec fn wholes(m: Reading, items: Seq<Val>, n: int) -> Seq<u64>
    decreases n,
{
    if n <= 0 {
        Seq::empty()
    } else {
        match number_of(items[n - 1]) {
            Some(x) => wholes(m, items, n - 1).push(m.at(NumOp::ToInt, x, 0)),
            None => wholes(m, items, n - 1),
        }
    }
}

/// The children that a selector names: one, or those of a list or a range.
/// `None` where the range is too large.
pub open spec fn selected(m: Reading, v: Val) -> Option<Seq<u64>> {
    match v {
        Val::Number(n) => Some(seq![m.at(NumOp::ToInt, n, 0)]),
        Val::Vector(items) => Some(wholes(m, items, items.len() as int)),
        Val::Range { .. } => match iterated(m, v) {
            Some(items) => Some(wholes(m, items, items.len() as int)),
            None => None,
        },
        _ => Some(Seq::empty()),
    }
}

fn take_wholes<A: Arithmetic>(calc: &mut Calc<A>, items: &Vec<Value>) -> (r: Vec<u64>)
    ensures
        forall|m: Reading| #[trigger]
            final(calc).agrees(m) ==> old(calc).agrees(m) && r@ == wholes(
                m,
                vals(items@),
                items@.len() as int,
            ),
{
    let mut out: Vec<u64> = Vec::new();
    let mut i: usize = 0;
    while i < items.len()
        invariant
            i <= items@.len(),
            forall|m: Reading| #[trigger]
                calc.agrees(m) ==> old(calc).agrees(m) && out@ == wholes(
                    m,
                    vals(items@),
                    i as int,
                ),
        decreases items.len() - i,
    {
        assert(vals(items@)[i as int] == items@[i as int]@);
        match items[i].as_number() {
            Some(n) => {
                let k: u64 = calc.apply(NumOp::ToInt, n, 0);
                out.push(k);
            },
            None => {},
        }
        i = i + 1;
    }
    out
}

/// The children that a selector names.
pub fn select_children<A: Arithmetic>(calc: &mut Calc<A>, v: &Value) -> (r: Option<Vec<u64>>)
    ensures
        forall|m: Reading| #[trigger]
            final(calc).agrees(m) ==> old(calc).agrees(m) && selected(m, v@) == match r {
                Some(list) => Some(list@),
                None => None,
            },
{
    match v {
        Value::Number(n) => {
            let k: u64 = calc.apply(NumOp::ToInt, *n, 0);
            let mut out: Vec<u64> = Vec::new();
            out.push(k);
            assert(out@ =~= seq![k]);
            Some(out)
        },
        Value::Vector(items) => {
            let list: &Vec<Value> = &**items;
            assert(v@ matches Val::Vector(s) && s =~= vals(list@));
            Some(take_wholes(calc, list))
        },
        Value::Range { .. } => match iter_values(calc, v) {
            Some(list) => Some(take_wholes(calc, &list)),
            None => None,
        },
        _ => {
            let out: Vec<u64> = Vec::new();
            assert(out@ =~= Seq::empty());
            Some(out)
        },
    }
}

// ---- assignments --------------------------------------------------------------------------------------

/// The name that a statement assigns.
pub open spec fn assigned(s: Spanned) -> Option<Seq<char>> {
    match *s.node {
        Stmt::Assign { name, .. } => Some(name@),
        _ => None,
    }
}

/// The last statement before the `n`-th that assigns a name.
pub open spec fn last_before(stmts: Seq<Spanned>, name: Seq<char>, n: int) -> Option<int>
    decreases n,
{
    if n <= 0 {
        None
    } else if assigned(stmts[n - 1]) == Some(name) {
        Some(n - 1)
    } else {
        last_before(stmts, name, n - 1)
    }
}

/// The statements among the first `n` that introduce a name.
pub open spec fn introductions(stmts: Seq<Spanned>, n: int) -> Seq<int>
    decreases n,
{
    if n <= 0 {
        Seq::empty()
    } else {
        let done = introductions(stmts, n - 1);
        match assigned(stmts[n - 1]) {
            Some(name) => if last_before(stmts, name, n - 1) is None {
                done.push(n - 1)
            } else {
                done
            },
            None => done,
        }
    }
}

/// The assignments among the first `n` statements that a later one overwrites,
/// in the order in which they are overwritten.
pub open spec fn overwritten(stmts: Seq<Spanned>, n: int) -> Seq<int>
    decreases n,
{
    if n <= 0 {
        Seq::empty()
    } else {
        let done = overwritten(stmts, n - 1);
        match assigned(stmts[n - 1]) {
            Some(name) => match last_before(stmts, name, n - 1) {
                Some(j) => done.push(j),
                None => done,
            },
            None => done,
        }
    }
}

/// The assignments that are evaluated: for each name its last one, names in the
/// order in which they are introduced.
pub open spec fn evaluated(stmts: Seq<Spanned>) -> Seq<int> {
    introductions(stmts, stmts.len() as int).map_values(
        |i: int|
            match assigned(stmts[i]) {
                Some(name) => match last_before(stmts, name, stmts.len() as int) {
                    Some(j) => j,
                    None => i,
                },
                None => i,
            },
    )
}

/// Which assignments of a scope are evaluated, in order, and which are dead.
pub struct AssignmentPlan {
    pub run: Vec<usize>,
    pub dead: Vec<usize>,
}

/// Places as whole numbers.
pub open spec fn as_places(v: Seq<usize>) -> Seq<int> {
    v.map_values(|i: usize| i as int)
}

fn assigned_name(s: &Spanned) -> (r: Option<&String>)
    ensures
        assigned(*s) == match r {
            Some(n) => Some(n@),
            None => None,
        },
{
    match &*s.node {
        Stmt::Assign { name, .. } => Some(name),
        _ => None,
    }
}

fn find_last(stmts: &Vec<Spanned>, name: &String, n: usize) -> (r: Option<usize>)
    requires
        n <= stmts@.len(),
    ensures
        r matches Some(j) ==> j < n,
        last_before(stmts@, name@, n as int) == match r {
            Some(j) => Some(j as int),
            None => None,
        },
{
    let mut i: usize = n;
    while i > 0
        invariant
            i <= n <= stmts@.len(),
            last_before(stmts@, name@, n as int) == last_before(stmts@, name@, i as int),
        decreases i,
    {
        match assigned_name(&stmts[i - 1]) {
            Some(other) => {
                if same_text(other.as_str(), name.as_str()) {
                    return Some(i - 1);
                }
            },
            None => {},
        }
        i = i - 1;
    }
    None
}

/// Plans the assignments of a scope: only the last one of a name is evaluated,
/// where the name is first introduced.
pub fn plan_assignments(stmts: &Vec<Spanned>) -> (r: AssignmentPlan)
    ensures
        as_places(r.run@) == evaluated(stmts@),
        as_places(r.dead@) == overwritten(stmts@, stmts@.len() as int),
        forall|i: int| 0 <= i < r.run@.len() ==> (#[trigger] r.run@[i]) < stmts@.len(),
        forall|i: int| 0 <= i < r.dead@.len() ==> (#[trigger] r.dead@[i]) < stmts@.len(),
{
    let mut first: Vec<usize> = Vec::new();
    let mut dead: Vec<usize> = Vec::new();
    let mut i: usize = 0;
    assert(as_places(first@) =~= Seq::empty());
    assert(as_places(dead@) =~= Seq::empty());
    while i < stmts.len()
        invariant
            i <= stmts@.len(),
            as_places(first@) == introductions(stmts@, i as int),
            as_places(dead@) == overwritten(stmts@, i as int),
            forall|k: int|
                0 <= k < first@.len() ==> (#[trigger] first@[k]) < stmts@.len() && assigned(
                    stmts@[first@[k] as int],
                ) is Some,
            forall|k: int| 0 <= k < dead@.len() ==> (#[trigger] dead@[k]) < stmts@.len(),
        decreases stmts.len() - i,
    {
        match assigned_name(&stmts[i]) {
            Some(name) => {
                match find_last(stmts, name, i) {
                    Some(j) => {
                        let ghost held = as_places(dead@);
                        dead.push(j);
                        assert(as_places(dead@) =~= held.push(j as int));
                    },
                    None => {
                        let ghost held = as_places(first@);
                        first.push(i);
                        assert(as_places(first@) =~= held.push(i as int));
                    },
                }
            },
            None => {},
        }
        i = i + 1;
    }
    let ghost whole = evaluated(stmts@);
    let n: usize = stmts.len();
    let mut run: Vec<usize> = Vec::new();
    let mut k: usize = 0;
    assert(as_places(run@) =~= whole.take(0));
    while k < first.len()
        invariant
            k <= first@.len(),
            n == stmts@.len(),
            whole == evaluated(stmts@),
            as_places(first@) == introductions(stmts@, n as int),
            forall|j: int|
                0 <= j < first@.len() ==> (#[trigger] first@[j]) < stmts@.len() && assigned(
                    stmts@[first@[j] as int],
                ) is Some,
            as_places(run@) == whole.take(k as int),
            forall|j: int| 0 <= j < run@.len() ==> (#[trigger] run@[j]) < stmts@.len(),
        decreases first.len() - k,
    {
        let at: usize = first[k];
        let ghost held = as_places(run@);
        assert(first@[k as int] < stmts@.len());
        assert(as_places(first@)[k as int] == at);
        let last: usize = match assigned_name(&stmts[at]) {
            Some(name) => match find_last(stmts, name, n) {
                Some(j) => j,
                None => at,
            },
            None => at,
        };
        run.push(last);
        assert(whole[k as int] == last);
        assert(as_places(run@) =~= held.push(last as int));
        assert(as_places(run@) =~= whole.take(k + 1));
        k = k + 1;
    }
    assert(whole.take(whole.len() as int) =~= whole);
    AssignmentPlan { run, dead }
}

/// The last write wins: of every name that is assigned one assignment is
/// evaluated, no later one follows it, and no two are of one name.
pub proof fn law_last_write_wins(stmts: Seq<Spanned>, i: int)
    requires
        0 <= i < stmts.len(),
        assigned(stmts[i]) is Some,
    ensures
        exists|k: int|
            0 <= k < evaluated(stmts).len() && i <= #[trigger] evaluated(stmts)[k] < stmts.len()
                && assigned(stmts[evaluated(stmts)[k]]) == assigned(stmts[i]),
{
    let name = assigned(stmts[i])->0;
    let n = stmts.len() as int;
    lemma_introduced(stmts, name, i, n);
    let k = choose|k: int|
        0 <= k < introductions(stmts, n).len() && 0 <= #[trigger] introductions(stmts, n)[k] < n
            && assigned(stmts[introductions(stmts, n)[k]]) == Some(name);
    lemma_last(stmts, name, i, n);
    let j = last_before(stmts, name, n)->0;
    assert(evaluated(stmts)[k] == j);
}

proof fn lemma_last(stmts: Seq<Spanned>, name: Seq<char>, i: int, n: int)
    requires
        0 <= i < n <= stmts.len(),
        assigned(stmts[i]) == Some(name),
    ensures
        last_before(stmts, name, n) matches Some(j) && i <= j < n && assigned(stmts[j]) == Some(
            name,
        ),
    decreases n,
{
    if assigned(stmts[n - 1]) != Some(name) {
        lemma_last(stmts, name, i, n - 1);
    }
}

proof fn lemma_introduced(stmts: Seq<Spanned>, name: Seq<char>, i: int, n: int)
    requires
        0 <= i < n <= stmts.len(),
        assigned(stmts[i]) == Some(name),
    ensures
        exists|k: int|
            0 <= k < introductions(stmts, n).len() && 0 <= #[trigger] introductions(stmts, n)[k]
                < n && assigned(stmts[introductions(stmts, n)[k]]) == Some(name),
    decreases n,
{
    let done = introductions(stmts, n - 1);
    let all = introductions(stmts, n);
    if i < n - 1 {
        lemma_introduced(stmts, name, i, n - 1);
        let k = choose|k: int|
            0 <= k < done.len() && 0 <= #[trigger] done[k] < n - 1 && assigned(stmts[done[k]])
                == Some(name);
        assert(all[k] == done[k]);
    } else if last_before(stmts, name, n - 1) is None {
        assert(all[done.len() as int] == n - 1);
    } else {
        lemma_last_is(stmts, name, n - 1);
        let j = last_before(stmts, name, n - 1)->0;
        lemma_introduced(stmts, name, j, n - 1);
        let k = choose|k: int|
            0 <= k < done.len() && 0 <= #[trigger] done[k] < n - 1 && assigned(stmts[done[k]])
                == Some(name);
        assert(all[k] == done[k]);
    }
}

proof fn lemma_last_is(stmts: Seq<Spanned>, name: Seq<char>, n: int)
    requires
        0 <= n <= stmts.len(),
        last_before(stmts, name, n) is Some,
    ensures
        0 <= last_before(stmts, name, n)->0 < n,
        assigned(stmts[last_before(stmts, name, n)->0]) == Some(name),
    decreases n,
{
    if assigned(stmts[n - 1]) != Some(name) {
        lemma_last_is(stmts, name, n - 1);
    }
}

// ---- dead assignments ------------------------------------------------------------------------------------

/// A dead assignment that was warned of: its name, and where it starts.
#[derive(Debug)]
pub struct Warned {
    pub name: String,
    pub start: usize,
}

/// What is on the list of warnings given.
pub open spec fn warned_view(v: Seq<Warned>) -> Seq<(Seq<char>, usize)> {
    v.map_values(|w: Warned| (w.name@, w.start))
}

/// What a warning list says.
pub open spec fn warning_views(v: Seq<Warning>) -> Seq<NoteView> {
    v.map_values(|w: Warning| w@)
}

/// The warning of a dead assignment.
pub open spec fn dead_text(name: Seq<char>) -> Seq<char> {
    "variable '"@ + name + "' is assigned again later; this assignment is overwritten"@
}

/// Warns of a dead assignment, once for each name and place; one outside the
/// main source is passed over.
pub fn warn_overwritten(
    warnings: &mut Vec<Warning>,
    given: &mut Vec<Warned>,
    name: &str,
    span: Option<Span>,
)
    ensures
        match span {
            None => warning_views(final(warnings)@) == warning_views(old(warnings)@) && warned_view(
                final(given)@,
            ) == warned_view(old(given)@),
            Some(s) => if warned_view(old(given)@).contains((name@, s.start)) {
                warning_views(final(warnings)@) == warning_views(old(warnings)@) && warned_view(
                    final(given)@,
                ) == warned_view(old(given)@)
            } else {
                warning_views(final(warnings)@) == warning_views(old(warnings)@).push(
                    (NoteView { message: dead_text(name@), span: Some(s) }),
                ) && warned_view(final(given)@) == warned_view(old(given)@).push((name@, s.start))
            },
        },
{
    let s = match span {
        None => {
            return;
        },
        Some(s) => s,
    };
    let ghost gv = warned_view(given@);
    let mut i: usize = 0;
    while i < given.len()
        invariant
            *given == *old(given),
            *warnings == *old(warnings),
            gv == warned_view(given@),
            span == Some(s),
            i <= given@.len(),
            forall|k: int| 0 <= k < i ==> gv[k] != (name@, s.start),
        decreases given.len() - i,
    {
        if given[i].start == s.start && same_text(given[i].name.as_str(), name) {
            assert(gv[i as int] == (name@, s.start));
            assert(gv.contains((name@, s.start)));
            return;
        }
        assert(gv[i as int] != (name@, s.start));
        i = i + 1;
    }
    assert(!gv.contains((name@, s.start)));
    let mut message = "variable '".to_owned();
    message.append(name);
    message.append("' is assigned again later; this assignment is overwritten");
    let ghost text = message@;
    let ghost wv = warning_views(warnings@);
    warnings.push(Warning { message, span: Some(s) });
    assert(warning_views(warnings@) =~= wv.push((NoteView { message: text, span: Some(s) })));
    given.push(Warned { name: name.to_owned(), start: s.start });
    assert(warned_view(given@) =~= gv.push((name@, s.start)));
}

} // verus!
