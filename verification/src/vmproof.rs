//! The bytecode machine gives what the evaluator gives.

use crate::ast::{Arg, Binding, Expr, ListElem};
use crate::value::{BinOp, Val};
use crate::vm::{
    can_bind, gen, gen_args, gen_elems, gen_lets, joined_ways, name_place, place_from,
    short_circuit, slot_of, step, with_const, with_name, with_op, with_slot, Bound, Code, Op, Slots,
    MAX_LOCALS,
};
use vstd::prelude::*;

verus! {

// ---- code only grows, and fits its tables ---------------------------------------------------

/// `h` begins with what `g` holds.
pub open spec fn grows(g: Code, h: Code) -> bool {
    &&& g.code.len() <= h.code.len()
    &&& forall|i: int| 0 <= i < g.code.len() ==> #[trigger] h.code[i] == g.code[i]
    &&& g.consts.len() <= h.consts.len()
    &&& forall|i: int| 0 <= i < g.consts.len() ==> #[trigger] h.consts[i] == g.consts[i]
    &&& g.names.len() <= h.names.len()
    &&& forall|i: int| 0 <= i < g.names.len() ==> #[trigger] h.names[i] == g.names[i]
    &&& g.n_locals <= h.n_locals
}

/// An instruction at `i` fits the tables of `h`, and goes forward in it.
pub open spec fn fits_at(op: Op, i: int, h: Code) -> bool {
    match op {
        Op::Const(c) => c < h.consts.len(),
        Op::LoadLocal(s) => s < h.n_locals,
        Op::StoreLocal(s) => s < h.n_locals,
        Op::LoadName(c) => c < h.names.len(),
        Op::Call(c, _) => c < h.names.len(),
        Op::TailCall(c, _) => c < h.names.len(),
        Op::Jump(t) => i < t <= h.code.len(),
        Op::JumpIfFalse(t) => i < t <= h.code.len(),
        Op::JumpIfTrue(t) => i < t <= h.code.len(),
        _ => true,
    }
}

/// The instructions from `from` on fit.
pub open spec fn fits_from(from: int, h: Code) -> bool {
    forall|i: int| from <= i < h.code.len() ==> fits_at(#[trigger] h.code[i], i, h)
}

/// The tables are not longer than memory.
pub open spec fn sized(g: Code) -> bool {
    &&& g.code.len() <= usize::MAX
    &&& g.consts.len() <= usize::MAX
    &&& g.names.len() <= usize::MAX
    &&& g.n_locals <= usize::MAX
}

/// All slots in scope have been given out.
pub open spec fn slots_below(sc: Slots, n: int) -> bool {
    0 <= n && forall|i: int| 0 <= i < sc.len() ==> 0 <= (#[trigger] sc[i]).1 < n
}

/// `h` grew from `g` by instructions that fit.
pub open spec fn grown(g: Code, h: Code) -> bool {
    grows(g, h) && (sized(h) ==> fits_from(g.code.len() as int, h)) && (g.n_locals <= MAX_LOCALS
        ==> h.n_locals <= MAX_LOCALS)
}

pub proof fn lemma_grown_trans(a: Code, b: Code, c: Code)
    requires
        grown(a, b),
        grown(b, c),
    ensures
        grown(a, c),
{
    if sized(c) {
        assert forall|i: int| a.code.len() <= i < c.code.len() implies fits_at(
            #[trigger] c.code[i],
            i,
            c,
        ) by {
            if i < b.code.len() {
                assert(c.code[i] == b.code[i]);
                assert(fits_at(b.code[i], i, b));
            }
        }
    }
    assert forall|i: int| 0 <= i < a.code.len() implies #[trigger] c.code[i] == a.code[i] by {
        assert(b.code[i] == a.code[i]);
    }
    assert forall|i: int| 0 <= i < a.consts.len() implies #[trigger] c.consts[i] == a.consts[i] by {
        assert(b.consts[i] == a.consts[i]);
    }
    assert forall|i: int| 0 <= i < a.names.len() implies #[trigger] c.names[i] == a.names[i] by {
        assert(b.names[i] == a.names[i]);
    }
}

pub proof fn lemma_with_op(g: Code, op: Op)
    requires
        sized(with_op(g, op)) ==> fits_at(op, g.code.len() as int, with_op(g, op)),
    ensures
        grown(g, with_op(g, op)),
{
}

proof fn lemma_with_const(g: Code, v: Val)
    ensures
        grown(g, with_const(g, v)),
{
    let h = with_const(g, v);
    assert forall|i: int| 0 <= i < g.code.len() implies #[trigger] h.code[i] == g.code[i] by {}
    if sized(h) {
        assert forall|i: int| g.code.len() <= i < h.code.len() implies fits_at(
            #[trigger] h.code[i],
            i,
            h,
        ) by {
            assert(h.code[i] == Op::Const(g.consts.len() as usize));
        }
    }
}

pub proof fn lemma_place(names: Seq<Seq<char>>, name: Seq<char>, i: int)
    requires
        0 <= i,
    ensures
        place_from(names, name, i) matches Some(p) ==> i <= p < names.len() && names[p] == name,
    decreases names.len() - i,
{
    if i < names.len() && names[i] != name {
        lemma_place(names, name, i + 1);
    }
}

/// The table holds the name where it is said to.
pub proof fn lemma_with_name(g: Code, name: Seq<char>)
    ensures
        grown(g, with_name(g, name)),
        with_name(g, name).code == g.code,
        with_name(g, name).consts == g.consts,
        with_name(g, name).n_locals == g.n_locals,
        0 <= name_place(g, name) < with_name(g, name).names.len(),
        with_name(g, name).names[name_place(g, name)] == name,
{
    lemma_place(g.names, name, 0);
}

pub proof fn lemma_slot_below(sc: Slots, name: Seq<char>, n: int)
    requires
        slots_below(sc, n),
    ensures
        slot_of(sc, name) matches Some(p) ==> 0 <= p < n,
    decreases sc.len(),
{
    if sc.len() > 0 {
        assert(sc.last() == sc[sc.len() - 1]);
        if sc.last().0 != name {
            assert forall|i: int| 0 <= i < sc.drop_last().len() implies 0 <= (
            #[trigger] sc.drop_last()[i]).1 < n by {
                assert(sc.drop_last()[i] == sc[i]);
            }
            lemma_slot_below(sc.drop_last(), name, n);
        }
    }
}

pub proof fn lemma_joined_ways(g: Code, g1: Code, g3: Code, g5: Code)
    requires
        grown(g, g1),
        grown(with_op(g1, Op::JumpIfFalse(0)), g3),
        grown(with_op(g3, Op::Jump(0)), g5),
    ensures
        grown(g, joined_ways(g1, g3, g5)),
{
    let h = joined_ways(g1, g3, g5);
    let a = g1.code.len() as int;
    let b = g3.code.len() as int;
    let g2 = with_op(g1, Op::JumpIfFalse(0));
    let g4 = with_op(g3, Op::Jump(0));
    assert forall|i: int| 0 <= i < h.code.len() && i != a && i != b implies #[trigger] h.code[i]
        == g5.code[i] by {}
    assert forall|i: int| 0 <= i < g.code.len() implies #[trigger] h.code[i] == g.code[i] by {
        assert(g1.code[i] == g.code[i]);
        assert(g2.code[i] == g1.code[i]);
        assert(g3.code[i] == g2.code[i]);
        assert(g4.code[i] == g3.code[i]);
        assert(g5.code[i] == g4.code[i]);
    }
    assert forall|i: int| 0 <= i < g.consts.len() implies #[trigger] h.consts[i] == g.consts[i] by {
        assert(g1.consts[i] == g.consts[i]);
        assert(g3.consts[i] == g2.consts[i]);
        assert(g5.consts[i] == g4.consts[i]);
    }
    assert forall|i: int| 0 <= i < g.names.len() implies #[trigger] h.names[i] == g.names[i] by {
        assert(g1.names[i] == g.names[i]);
        assert(g3.names[i] == g2.names[i]);
        assert(g5.names[i] == g4.names[i]);
    }
    if sized(h) {
        assert forall|i: int| g.code.len() <= i < h.code.len() implies fits_at(
            #[trigger] h.code[i],
            i,
            h,
        ) by {
            if i == a {
            } else if i == b {
            } else if i < a {
                assert(g1.code[i] == g2.code[i]);
                assert(g3.code[i] == g2.code[i]);
                assert(g4.code[i] == g3.code[i]);
                assert(g5.code[i] == g4.code[i]);
                assert(fits_at(g1.code[i], i, g1));
            } else if i < b {
                assert(g4.code[i] == g3.code[i]);
                assert(g5.code[i] == g4.code[i]);
                assert(fits_at(g3.code[i], i, g3));
            } else {
                assert(fits_at(g5.code[i], i, g5));
            }
        }
    }
}

proof fn lemma_short_circuit(g: Code, g1: Code, jump: Op, g3: Code, on_true: bool)
    requires
        grown(g, g1),
        grown(with_op(g1, jump), g3),
    ensures
        grown(g, short_circuit(g1, g3, on_true)),
{
    let h = short_circuit(g1, g3, on_true);
    let a = g1.code.len() as int;
    let b = g3.code.len() as int + 1;
    let g2 = with_op(g1, jump);
    assert forall|i: int| 0 <= i < g3.code.len() && i != a implies #[trigger] h.code[i]
        == g3.code[i] by {}
    assert forall|i: int| 0 <= i < g.code.len() implies #[trigger] h.code[i] == g.code[i] by {
        assert(g1.code[i] == g.code[i]);
        assert(g2.code[i] == g1.code[i]);
        assert(g3.code[i] == g2.code[i]);
    }
    assert forall|i: int| 0 <= i < g.consts.len() implies #[trigger] h.consts[i] == g.consts[i] by {
        assert(g1.consts[i] == g.consts[i]);
        assert(g3.consts[i] == g2.consts[i]);
    }
    assert forall|i: int| 0 <= i < g.names.len() implies #[trigger] h.names[i] == g.names[i] by {
        assert(g1.names[i] == g.names[i]);
        assert(g3.names[i] == g2.names[i]);
    }
    if sized(h) {
        assert forall|i: int| g.code.len() <= i < h.code.len() implies fits_at(
            #[trigger] h.code[i],
            i,
            h,
        ) by {
            if i == a || i == b {
            } else if i < a {
                assert(g1.code[i] == g2.code[i]);
                assert(g3.code[i] == g2.code[i]);
                assert(fits_at(g1.code[i], i, g1));
            } else if i < g3.code.len() {
                assert(fits_at(g3.code[i], i, g3));
            }
        }
    }
}

pub proof fn lemma_gen_args(g: Code, sc: Slots, args: Vec<Arg>, i: int)
    requires
        slots_below(sc, g.n_locals),
    ensures
        gen_args(g, sc, args, i) matches Some(h) ==> grown(g, h),
    decreases args, args@.len() - i,
{
    if 0 <= i < args@.len() && args@[i].name is None {
        lemma_gen(g, sc, args@[i].value);
        match gen(g, sc, args@[i].value) {
            Some(g1) => {
                lemma_gen_args(g1, sc, args, i + 1);
                match gen_args(g1, sc, args, i + 1) {
                    Some(h) => {
                        lemma_grown_trans(g, g1, h);
                    },
                    None => {},
                }
            },
            None => {},
        }
    }
}

pub proof fn lemma_gen_elems(g: Code, sc: Slots, elems: Vec<ListElem>, i: int)
    requires
        slots_below(sc, g.n_locals),
    ensures
        gen_elems(g, sc, elems, i) matches Some(h) ==> grown(g, h),
    decreases elems, elems@.len() - i,
{
    if 0 <= i < elems@.len() {
        match elems@[i] {
            ListElem::Item(e) => {
                lemma_gen(g, sc, e);
                match gen(g, sc, e) {
                    Some(g1) => {
                        lemma_gen_elems(g1, sc, elems, i + 1);
                        match gen_elems(g1, sc, elems, i + 1) {
                            Some(h) => {
                                lemma_grown_trans(g, g1, h);
                            },
                            None => {},
                        }
                    },
                    None => {},
                }
            },
            _ => {},
        }
    }
}

pub proof fn lemma_with_slot(b: Bound, name: Seq<char>)
    requires
        slots_below(b.sc, b.g.n_locals),
        0 <= b.g.n_locals < MAX_LOCALS,
    ensures
        grown(b.g, with_slot(b, name).g),
        slots_below(with_slot(b, name).sc, with_slot(b, name).g.n_locals),
{
    let c = with_slot(b, name);
    assert forall|i: int| 0 <= i < c.sc.len() implies 0 <= (#[trigger] c.sc[i]).1 < c.g.n_locals by {
        if i < b.sc.len() {
            assert(c.sc[i] == b.sc[i]);
        }
    }
}

pub proof fn lemma_gen_lets(b: Bound, list: Vec<Binding>, i: int)
    requires
        slots_below(b.sc, b.g.n_locals),
    ensures
        gen_lets(b, list, i) matches Some(h) ==> grown(b.g, h.g) && slots_below(
            h.sc,
            h.g.n_locals,
        ),
    decreases list, list@.len() - i,
{
    if 0 <= i < list@.len() {
        lemma_gen(b.g, b.sc, list@[i].value);
        match gen(b.g, b.sc, list@[i].value) {
            Some(g1) => {
                if can_bind(g1, list@[i].name@) {
                    let c = Bound { g: g1, sc: b.sc };
                    lemma_slots_grow(b.sc, b.g, g1);
                    lemma_with_slot(c, list@[i].name@);
                    let d = with_slot(c, list@[i].name@);
                    lemma_grown_trans(b.g, g1, d.g);
                    lemma_gen_lets(d, list, i + 1);
                    match gen_lets(d, list, i + 1) {
                        Some(h) => {
                            lemma_grown_trans(b.g, d.g, h.g);
                        },
                        None => {},
                    }
                }
            },
            None => {},
        }
    }
}

proof fn lemma_slots_grow(sc: Slots, g: Code, h: Code)
    requires
        slots_below(sc, g.n_locals),
        grown(g, h),
    ensures
        slots_below(sc, h.n_locals),
{
}

/// Compiling an expression adds instructions that fit.
pub proof fn lemma_gen(g: Code, sc: Slots, e: Expr)
    requires
        slots_below(sc, g.n_locals),
    ensures
        gen(g, sc, e) matches Some(h) ==> grown(g, h),
    decreases e, 0int,
{
    match e {
        Expr::Number(x) => {
            lemma_with_const(g, Val::Number(x));
        },
        Expr::Bool(b) => {
            lemma_with_op(g, Op::PushBool(b));
        },
        Expr::Str(s) => {
            lemma_with_const(g, Val::Str(s@));
        },
        Expr::Undef => {
            lemma_with_const(g, Val::Undef);
        },
        Expr::Ident(name) => {
            lemma_slot_below(sc, name@, g.n_locals);
            match slot_of(sc, name@) {
                Some(p) => {
                    lemma_cast_below(p, g.n_locals);
                    lemma_with_op(g, Op::LoadLocal(p as usize));
                    assert(gen(g, sc, e) == Some(with_op(g, Op::LoadLocal(p as usize))));
                },
                None => {
                    lemma_with_name(g, name@);
                    let w = with_name(g, name@);
                    lemma_with_op(w, Op::LoadName(name_place(g, name@) as usize));
                    lemma_grown_trans(g, w, with_op(w, Op::LoadName(name_place(g, name@) as usize)));
                    assert(gen(g, sc, e) == Some(
                        with_op(w, Op::LoadName(name_place(g, name@) as usize)),
                    ));
                },
            }
        },
        Expr::Vector(elems) => {
            lemma_gen_elems(g, sc, elems, 0);
            match gen_elems(g, sc, elems, 0) {
                Some(g1) => {
                    let op = Op::MakeVector(elems@.len() as usize);
                    lemma_with_op(g1, op);
                    lemma_grown_trans(g, g1, with_op(g1, op));
                },
                None => {},
            }
        },
        Expr::Range { start, step, end } => {
            lemma_gen(g, sc, *start);
            match gen(g, sc, *start) {
                Some(g1) => {
                    lemma_slots_grow(sc, g, g1);
                    lemma_gen(g1, sc, *end);
                    match gen(g1, sc, *end) {
                        Some(g2) => {
                            lemma_grown_trans(g, g1, g2);
                            lemma_slots_grow(sc, g1, g2);
                            match step {
                                Some(st) => {
                                    lemma_gen(g2, sc, *st);
                                    match gen(g2, sc, *st) {
                                        Some(g3) => {
                                            lemma_grown_trans(g, g2, g3);
                                            lemma_with_op(g3, Op::MakeRange3);
                                            lemma_grown_trans(g, g3, with_op(g3, Op::MakeRange3));
                                        },
                                        None => {},
                                    }
                                },
                                None => {
                                    lemma_with_op(g2, Op::MakeRange2);
                                    lemma_grown_trans(g, g2, with_op(g2, Op::MakeRange2));
                                },
                            }
                        },
                        None => {},
                    }
                },
                None => {},
            }
        },
        Expr::Unary { op, expr } => {
            lemma_gen(g, sc, *expr);
            match gen(g, sc, *expr) {
                Some(g1) => {
                    lemma_with_op(g1, Op::Unary(op));
                    lemma_grown_trans(g, g1, with_op(g1, Op::Unary(op)));
                },
                None => {},
            }
        },
        Expr::Binary { op, lhs, rhs } => {
            lemma_gen(g, sc, *lhs);
            match gen(g, sc, *lhs) {
                Some(g1) => {
                    lemma_slots_grow(sc, g, g1);
                    if op == BinOp::And || op == BinOp::Or {
                        let jump = if op == BinOp::Or {
                            Op::JumpIfTrue(0)
                        } else {
                            Op::JumpIfFalse(0)
                        };
                        let g2 = with_op(g1, jump);
                        lemma_gen(g2, sc, *rhs);
                        match gen(g2, sc, *rhs) {
                            Some(g3) => {
                                lemma_short_circuit(g, g1, jump, g3, op == BinOp::Or);
                            },
                            None => {},
                        }
                    } else {
                        lemma_gen(g1, sc, *rhs);
                        match gen(g1, sc, *rhs) {
                            Some(g2) => {
                                lemma_grown_trans(g, g1, g2);
                                lemma_with_op(g2, Op::Bin(op));
                                lemma_grown_trans(g, g2, with_op(g2, Op::Bin(op)));
                            },
                            None => {},
                        }
                    }
                },
                None => {},
            }
        },
        Expr::Ternary { cond, yes, no } => {
            lemma_gen(g, sc, *cond);
            match gen(g, sc, *cond) {
                Some(g1) => {
                    lemma_slots_grow(sc, g, g1);
                    let g2 = with_op(g1, Op::JumpIfFalse(0));
                    lemma_gen(g2, sc, *yes);
                    match gen(g2, sc, *yes) {
                        Some(g3) => {
                            lemma_slots_grow(sc, g2, g3);
                            let g4 = with_op(g3, Op::Jump(0));
                            lemma_gen(g4, sc, *no);
                            match gen(g4, sc, *no) {
                                Some(g5) => {
                                    lemma_joined_ways(g, g1, g3, g5);
                                },
                                None => {},
                            }
                        },
                        None => {},
                    }
                },
                None => {},
            }
        },
        Expr::Index { base, index } => {
            lemma_gen(g, sc, *base);
            match gen(g, sc, *base) {
                Some(g1) => {
                    lemma_slots_grow(sc, g, g1);
                    lemma_gen(g1, sc, *index);
                    match gen(g1, sc, *index) {
                        Some(g2) => {
                            lemma_grown_trans(g, g1, g2);
                            lemma_with_op(g2, Op::Index);
                            lemma_grown_trans(g, g2, with_op(g2, Op::Index));
                        },
                        None => {},
                    }
                },
                None => {},
            }
        },
        Expr::Member { base, field } => {
            lemma_gen(g, sc, *base);
            match gen(g, sc, *base) {
                Some(g1) => {
                    let op = Op::Member(crate::vm::field_code(field@));
                    lemma_with_op(g1, op);
                    lemma_grown_trans(g, g1, with_op(g1, op));
                },
                None => {},
            }
        },
        Expr::Let { bindings, body } => {
            let b = Bound { g, sc };
            lemma_gen_lets(b, bindings, 0);
            match gen_lets(b, bindings, 0) {
                Some(c) => {
                    lemma_gen(c.g, c.sc, *body);
                    match gen(c.g, c.sc, *body) {
                        Some(h) => {
                            lemma_grown_trans(g, c.g, h);
                        },
                        None => {},
                    }
                },
                None => {},
            }
        },
        Expr::Call { name, args } => {
            lemma_gen_args(g, sc, args, 0);
            match gen_args(g, sc, args, 0) {
                Some(g1) => {
                    lemma_with_name(g1, name@);
                    let w = with_name(g1, name@);
                    let op = Op::Call(name_place(g1, name@) as usize, args@.len() as usize);
                    lemma_grown_trans(g, g1, w);
                    lemma_with_op(w, op);
                    lemma_grown_trans(g, w, with_op(w, op));
                },
                None => {},
            }
        },
        _ => {},
    }
}

proof fn lemma_cast_below(p: int, n: int)
    requires
        0 <= p < n,
    ensures
        p <= usize::MAX ==> (p as usize) < n,
        p > usize::MAX ==> (p as usize) < n,
{
}

} // verus!
