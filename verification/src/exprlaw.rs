//! What expressions are for: which of them mean the same.

use crate::ast::{Arg, Binding, Expr, ListElem};
use crate::builtins::{builtin_of, of_one, Builtin};
use crate::diag::{NoteView, Span};
use crate::exact::{exact, Numbers};
use crate::iterate::iterated;
use crate::num::{at_most, less, NumOp, Reading, ONE, TWO, ZERO};
use crate::play::Prog;
use crate::program::{Modifier, Spanned, Stmt};
use crate::provenance::SourceSpan;
use crate::sem::{
    bound, ev, ev_binary, ev_bindings, ev_body, ev_each, ev_elem, ev_for, loops, variable, Ev,
    EvItems, Names, Oracle, Store,
};
use crate::stage::{next, reply, said_value, st_call, st_geom, Ctx, Outcome, StageAsk, StageOracle};
use crate::value::{binary_of, truth, BinOp, UnOp, Val};
use vstd::prelude::*;

verus! {

// ---- choices -----------------------------------------------------------------------------------

/// A choice means its first branch where the condition holds, and its second one where
/// it does not; the other one is not evaluated.
pub proof fn law_choice(m: Reading, o: Oracle, k: Store, n: Names, e: Expr, v: Val)
    requires
        !o.limited,
        e matches Expr::Ternary { cond, .. } && ev(m, o, k, n, *cond).r == Ok::<Val, Seq<char>>(v),
    ensures
        e matches Expr::Ternary { cond, yes, no } && {
            let after = ev(m, o, k, n, *cond).k;
            &&& truth(v) ==> ev(m, o, k, n, e) == ev(m, o, after, n, *yes)
            &&& !truth(v) ==> ev(m, o, k, n, e) == ev(m, o, after, n, *no)
        },
{
}

/// A choice on the opposite condition has its branches swapped.
pub proof fn law_choice_negated(
    m: Reading,
    o: Oracle,
    k: Store,
    n: Names,
    cond: Box<Expr>,
    yes: Box<Expr>,
    no: Box<Expr>,
)
    requires
        !o.limited,
    ensures
        ev(
            m,
            o,
            k,
            n,
            Expr::Ternary { cond: Box::new(Expr::Unary { op: UnOp::Not, expr: cond }), yes, no },
        ) == ev(m, o, k, n, Expr::Ternary { cond, yes: no, no: yes }),
{
    reveal_with_fuel(ev, 3);
    reveal_with_fuel(ev_body, 3);
}

/// An operator means its value on the values of its sides, where both have one; a
/// conjunction whose left side fails, and a disjunction whose left side holds, leave
/// the right side alone.
pub proof fn law_operator(
    m: Reading,
    o: Oracle,
    k: Store,
    n: Names,
    op: BinOp,
    lhs: Box<Expr>,
    rhs: Box<Expr>,
    x: Val,
)
    requires
        !o.limited,
        ev(m, o, k, n, *lhs).r == Ok::<Val, Seq<char>>(x),
    ensures
        ({
            let e = Expr::Binary { op, lhs, rhs };
            let left = ev(m, o, k, n, *lhs);
            let right = ev(m, o, left.k, n, *rhs);
            let settled = (op == BinOp::And && !truth(x)) || (op == BinOp::Or && truth(x));
            &&& settled ==> ev(m, o, k, n, e) == (Ev { r: Ok(Val::Bool(truth(x))), k: left.k })
            &&& !settled ==> ev(m, o, k, n, e).k == right.k
            &&& !settled ==> (right.r matches Ok(y) ==> ev(m, o, k, n, e).r == Ok::<Val, Seq<char>>(
                binary_of(m, op, x, y),
            ))
            &&& !settled ==> (right.r matches Err(w) ==> ev(m, o, k, n, e).r == Err::<Val, Seq<char>>(
                w,
            ))
        }),
{
    let e = Expr::Binary { op, lhs, rhs };
    assert(crate::sem::charged(o, k) == Some(k));
    assert(ev(m, o, k, n, e) == ev_body(m, o, k, n, e));
    assert(ev_body(m, o, k, n, e) == ev_binary(m, o, k, n, e));
    let left = ev(m, o, k, n, *lhs);
    let right = ev(m, o, left.k, n, *rhs);
    let whole = ev_binary(m, o, k, n, e);
    if op == BinOp::And && !truth(x) {
        assert(whole == (Ev { r: Ok(Val::Bool(false)), k: left.k }));
    } else if op == BinOp::Or && truth(x) {
        assert(whole == (Ev { r: Ok(Val::Bool(true)), k: left.k }));
    } else {
        match right.r {
            Ok(y) => {
                let r = if op == BinOp::And || op == BinOp::Or {
                    Val::Bool(truth(y))
                } else {
                    binary_of(m, op, x, y)
                };
                assert(whole == (Ev { r: Ok(r), k: right.k }));
                assert(r == binary_of(m, op, x, y));
            },
            Err(w) => {
                assert(whole == (Ev { r: Err(w), k: right.k }));
            },
        }
    }
}

// ---- names -------------------------------------------------------------------------------------

/// A name that was just bound has the value it was bound to, and every other name the
/// one it had.
pub proof fn law_bound_name(o: Oracle, n: Names, name: Seq<char>, v: Val, other: Seq<char>)
    ensures
        variable(o, bound(n, name, v), name) == v,
        other != name ==> variable(o, bound(n, name, v), other) == variable(o, n, other),
{
    let b = bound(n, name, v);
    assert(n.specials.push((name, v)).drop_last() =~= n.specials);
    assert(n.env.push((name, v)).drop_last() =~= n.env);
}

/// A name that is let be a value means that value.
pub proof fn law_let_means_value(
    m: Reading,
    o: Oracle,
    k: Store,
    n: Names,
    bindings: Vec<Binding>,
    name: String,
)
    requires
        !o.limited,
        bindings@.len() == 1,
        bindings@[0].name@ == name@,
    ensures
        ev(m, o, k, n, Expr::Let { bindings, body: Box::new(Expr::Ident(name)) }) == ev(
            m,
            o,
            k,
            n,
            bindings@[0].value,
        ),
{
    reveal_with_fuel(ev, 3);
    reveal_with_fuel(ev_body, 3);
    reveal_with_fuel(ev_bindings, 3);
    let v = ev(m, o, k, n, bindings@[0].value);
    if let Ok(x) = v.r {
        law_bound_name(o, n, name@, x, name@);
    }
}

// ---- parts -------------------------------------------------------------------------------------

/// The members `x`, `y` and `z` are the items at the places 0, 1 and 2.
pub proof fn law_members_are_items(
    m: Reading,
    o: Oracle,
    k: Store,
    n: Names,
    base: Box<Expr>,
    field: String,
)
    requires
        !o.limited,
    ensures
        field@ == "x"@ ==> ev(m, o, k, n, Expr::Member { base, field }) == ev(
            m,
            o,
            k,
            n,
            Expr::Index { base, index: Box::new(Expr::Number(ZERO)) },
        ),
        field@ == "y"@ ==> ev(m, o, k, n, Expr::Member { base, field }) == ev(
            m,
            o,
            k,
            n,
            Expr::Index { base, index: Box::new(Expr::Number(ONE)) },
        ),
        field@ == "z"@ ==> ev(m, o, k, n, Expr::Member { base, field }) == ev(
            m,
            o,
            k,
            n,
            Expr::Index { base, index: Box::new(Expr::Number(TWO)) },
        ),
{
    reveal_with_fuel(ev, 3);
    reveal_with_fuel(ev_body, 3);
    reveal_strlit("x");
    reveal_strlit("y");
    reveal_strlit("z");
    assert("x"@[0] == 'x' && "y"@[0] == 'y' && "z"@[0] == 'z');
}

/// A range of numbers has its start, its step and its end where they are written; one
/// without a step goes up by ones, from the smaller number to the larger.
pub proof fn law_ranges(m: Reading, o: Oracle, k: Store, n: Names, a: u64, s: u64, b: u64)
    requires
        !o.limited,
    ensures
        ({
            let (start, end) = (Box::new(Expr::Number(a)), Box::new(Expr::Number(b)));
            let stepped = ev(
                m,
                o,
                k,
                n,
                Expr::Range { start, step: Some(Box::new(Expr::Number(s))), end },
            );
            let plain = ev(m, o, k, n, Expr::Range { start, step: None, end });
            &&& stepped.r == Ok::<Val, Seq<char>>(Val::Range { start: a, step: s, end: b })
            &&& at_most(a, b) ==> plain.r == Ok::<Val, Seq<char>>(
                Val::Range { start: a, step: ONE, end: b },
            )
            &&& less(b, a) ==> plain.r == Ok::<Val, Seq<char>>(
                Val::Range { start: b, step: ONE, end: a },
            )
        }),
{
    reveal_with_fuel(ev, 3);
    reveal_with_fuel(ev_body, 3);
}

// ---- lists -------------------------------------------------------------------------------------

/// An element of a list that is one item adds its value at the end.
pub proof fn law_item_added(m: Reading, o: Oracle, k: Store, n: Names, e: Expr, out: Seq<Val>)
    ensures
        ev(m, o, k, n, e).r matches Ok(x) ==> ev_elem(m, o, k, n, ListElem::Item(e), out).r == Ok::<
            Seq<Val>,
            Seq<char>,
        >(out.push(x)),
        ev(m, o, k, n, e).r matches Err(w) ==> ev_elem(m, o, k, n, ListElem::Item(e), out).r
            == Err::<Seq<Val>, Seq<char>>(w),
{
}

/// An element of a list on a condition adds what its branch adds: the first one where
/// the condition holds, else the second, and nothing where there is none.
pub proof fn law_element_on_condition(
    m: Reading,
    o: Oracle,
    k: Store,
    n: Names,
    cond: Expr,
    yes: Box<ListElem>,
    no: Option<Box<ListElem>>,
    out: Seq<Val>,
    v: Val,
)
    requires
        ev(m, o, k, n, cond).r == Ok::<Val, Seq<char>>(v),
    ensures
        ({
            let after = ev(m, o, k, n, cond).k;
            let r = ev_elem(m, o, k, n, ListElem::If { cond, yes, no }, out);
            &&& truth(v) ==> r == ev_elem(m, o, after, n, *yes, out)
            &&& !truth(v) ==> (no matches Some(e) ==> r == ev_elem(m, o, after, n, *e, out))
            &&& !truth(v) && no is None ==> r.r == Ok::<Seq<Val>, Seq<char>>(out)
        }),
{
}

proof fn lemma_each_copies(
    m: Reading,
    o: Oracle,
    k: Store,
    n: Names,
    bindings: Vec<Binding>,
    name: String,
    values: Seq<Val>,
    j: int,
    out: Seq<Val>,
)
    requires
        !o.limited,
        bindings@.len() == 1,
        bindings@[0].name@ == name@,
        0 <= j <= values.len(),
    ensures
        ({
            let el = ListElem::For {
                bindings,
                body: Box::new(ListElem::Item(Expr::Ident(name))),
            };
            ev_each(m, o, k, n, el, 0, values, j, out) == (EvItems {
                r: Ok(out + values.skip(j)),
                k,
            })
        }),
    decreases values.len() - j,
{
    reveal_with_fuel(ev, 2);
    reveal_with_fuel(ev_body, 2);
    reveal_with_fuel(ev_for, 2);
    reveal_with_fuel(ev_elem, 2);
    reveal_with_fuel(ev_each, 2);
    let el = ListElem::For { bindings, body: Box::new(ListElem::Item(Expr::Ident(name))) };
    if j < values.len() {
        let inner = bound(n, loops(el)[0].name@, values[j]);
        law_bound_name(o, n, name@, values[j], name@);
        let one = ev_for(m, o, k, inner, el, 1, out);
        let item = ListElem::Item(Expr::Ident(name));
        assert(loops(el)[0].name@ == name@);
        assert(variable(o, inner, name@) == values[j]);
        assert(crate::sem::charged(o, k) == Some(k));
        assert(ev(m, o, k, inner, Expr::Ident(name)) == ev_body(
            m,
            o,
            k,
            inner,
            Expr::Ident(name),
        ));
        assert(ev_elem(m, o, k, inner, item, out) == (EvItems { r: Ok(out.push(values[j])), k }));
        assert(one == ev_elem(m, o, k, inner, item, out));
        assert(one == (EvItems { r: Ok(out.push(values[j])), k }));
        lemma_each_copies(m, o, k, n, bindings, name, values, j + 1, out.push(values[j]));
        assert(out.push(values[j]) + values.skip(j + 1) =~= out + values.skip(j));
    } else {
        assert(out + values.skip(j) =~= out);
    }
}

/// A loop in a list that gives each value of something back adds these values, in
/// order.
pub proof fn law_loop_copies(
    m: Reading,
    o: Oracle,
    k: Store,
    n: Names,
    bindings: Vec<Binding>,
    name: String,
    v: Val,
    values: Seq<Val>,
    out: Seq<Val>,
)
    requires
        !o.limited,
        bindings@.len() == 1,
        bindings@[0].name@ == name@,
        ev(m, o, k, n, bindings@[0].value).r == Ok::<Val, Seq<char>>(v),
        iterated(m, v) == Some(values),
    ensures
        ({
            let el = ListElem::For {
                bindings,
                body: Box::new(ListElem::Item(Expr::Ident(name))),
            };
            ev_elem(m, o, k, n, el, out).r == Ok::<Seq<Val>, Seq<char>>(out + values)
        }),
{
    let el = ListElem::For { bindings, body: Box::new(ListElem::Item(Expr::Ident(name))) };
    let after = ev(m, o, k, n, bindings@[0].value).k;
    lemma_each_copies(m, o, after, n, bindings, name, values, 0, out);
    assert(values.skip(0) =~= values);
    assert(ev_elem(m, o, k, n, el, out) == ev_for(m, o, k, n, el, 0, out));
    assert(ev_for(m, o, k, n, el, 0, out) == ev_each(m, o, after, n, el, 0, values, 0, out));
}

// ---- functions of numbers ----------------------------------------------------------------------

/// Powers by the operator and by the function are the same.
pub proof fn law_powers_agree(
    m: Reading,
    functions: Seq<Seq<char>>,
    state: u64,
    x: u64,
    y: u64,
)
    ensures
        builtin_of(
            m,
            functions,
            state,
            Builtin::Pow,
            seq![Val::Number(x), Val::Number(y)],
        ).0 == binary_of(m, BinOp::Pow, Val::Number(x), Val::Number(y)),
{
    let args = seq![Val::Number(x), Val::Number(y)];
    assert(args[0] == Val::Number(x) && args[1] == Val::Number(y));
}

/// A machine that rounds down and up, takes roots and logarithms, and turns degrees to
/// radians and back as these are meant.
pub open spec fn true_functions(m: Reading, n: Numbers) -> bool {
    &&& forall|x: u64| !less(x, #[trigger] m.at(NumOp::Floor, x, 0))
    &&& forall|x: u64| !less(#[trigger] m.at(NumOp::Ceil, x, 0), x)
    &&& forall|x: u64|
        n.same(
            (n.of)(#[trigger] m.at(NumOp::Sqrt, x, 0)) * (n.of)(m.at(NumOp::Sqrt, x, 0)),
            (n.of)(x),
        )
    &&& forall|x: u64| m.at(NumOp::Ln, #[trigger] m.at(NumOp::Exp, x, 0), 0) == x
    &&& forall|x: u64| m.at(NumOp::ToRadians, #[trigger] m.at(NumOp::ToDegrees, x, 0), 0) == x
    &&& forall|x: u64| m.at(NumOp::Sin, #[trigger] m.at(NumOp::Asin, x, 0), 0) == x
    &&& forall|x: u64| m.at(NumOp::Cos, #[trigger] m.at(NumOp::Acos, x, 0), 0) == x
    &&& forall|x: u64| m.at(NumOp::Tan, #[trigger] m.at(NumOp::Atan, x, 0), 0) == x
}

/// Rounding down never goes up, and rounding up never down; the square of a square root
/// is the number; the logarithm undoes the exponential; and the angles, in degrees, that
/// the inverse functions give have the sine, the cosine and the tangent asked for.
pub proof fn law_functions_undone(m: Reading, n: Numbers, x: u64)
    requires
        exact(m, n),
        true_functions(m, n),
    ensures
        of_one(m, Builtin::Floor, x) matches Some(r) && !less(x, r),
        of_one(m, Builtin::Ceil, x) matches Some(r) && !less(r, x),
        of_one(m, Builtin::Sqrt, x) matches Some(r) && n.same((n.of)(r) * (n.of)(r), (n.of)(x)),
        of_one(m, Builtin::Exp, x) matches Some(e) && of_one(m, Builtin::Ln, e) == Some(x),
        of_one(m, Builtin::Asin, x) matches Some(a) && m.at(
            NumOp::Sin,
            m.at(NumOp::ToRadians, a, 0),
            0,
        ) == x,
        of_one(m, Builtin::Acos, x) matches Some(a) && m.at(
            NumOp::Cos,
            m.at(NumOp::ToRadians, a, 0),
            0,
        ) == x,
        of_one(m, Builtin::Atan, x) matches Some(a) && m.at(
            NumOp::Tan,
            m.at(NumOp::ToRadians, a, 0),
            0,
        ) == x,
{
}

/// The angle of a point, in degrees, leads to the point: its sine goes with the first
/// argument and its cosine with the second.
pub proof fn law_angle_of_point(
    m: Reading,
    n: Numbers,
    functions: Seq<Seq<char>>,
    state: u64,
    y: u64,
    x: u64,
)
    requires
        exact(m, n),
        true_functions(m, n),
        forall|b: u64, a: u64|
            n.same(
                (n.of)(m.at(NumOp::Sin, #[trigger] m.at(NumOp::Atan2, b, a), 0)) * (n.of)(
                    m.at(NumOp::Hypot, a, b),
                ),
                (n.of)(b),
            ) && n.same(
                (n.of)(m.at(NumOp::Cos, m.at(NumOp::Atan2, b, a), 0)) * (n.of)(
                    m.at(NumOp::Hypot, a, b),
                ),
                (n.of)(a),
            ),
    ensures
        builtin_of(
            m,
            functions,
            state,
            Builtin::Atan2,
            seq![Val::Number(y), Val::Number(x)],
        ).0 matches Val::Number(d) && {
            let t = m.at(NumOp::ToRadians, d, 0);
            let far = (n.of)(m.at(NumOp::Hypot, x, y));
            &&& n.same((n.of)(m.at(NumOp::Sin, t, 0)) * far, (n.of)(y))
            &&& n.same((n.of)(m.at(NumOp::Cos, t, 0)) * far, (n.of)(x))
        },
{
    let args = seq![Val::Number(y), Val::Number(x)];
    assert(args[0] == Val::Number(y) && args[1] == Val::Number(x));
}

// ---- statements --------------------------------------------------------------------------------

/// A statement on a condition draws its first block where the condition holds, and its
/// second one where it does not.
pub proof fn law_statement_on_condition(
    m: Reading,
    o: StageOracle,
    c: Ctx,
    t: Prog,
    here: Option<Span>,
    site: Option<SourceSpan>,
    cond: Expr,
    yes: Vec<Spanned>,
    no: Vec<Spanned>,
    v: Val,
)
    requires
        said_value(reply(o, t, StageAsk::Eval(cond))) == Ok::<Val, NoteView>(v),
    ensures
        ({
            let after = next(o, t, StageAsk::Eval(cond));
            st_geom(m, o, c, t, here, site, Stmt::If { cond, yes, no }) == st_geom(
                m,
                o,
                c,
                after,
                here,
                site,
                Stmt::Block(
                    if truth(v) {
                        yes
                    } else {
                        no
                    },
                ),
            )
        }),
{
    reveal_with_fuel(st_geom, 2);
}

/// A call that is disabled draws nothing and asks nothing.
pub proof fn law_disabled_draws_nothing(
    m: Reading,
    o: StageOracle,
    c: Ctx,
    t: Prog,
    here: Option<Span>,
    site: Option<SourceSpan>,
    name: Seq<char>,
    args: Vec<Arg>,
    children: Vec<Spanned>,
)
    ensures
        st_call(m, o, c, t, here, site, Some(Modifier::Disable), name, args, children) == (Outcome {
            r: Ok(Seq::empty()),
            t,
        }),
{
}

} // verus!
