//! A bytecode machine for function bodies.
//!
//! A body is compiled once, with its parameters and `let` bindings in numbered
//! slots. What the compiler does not know, it leaves to the evaluator.

use crate::ast::{Arg, Binding, Expr, ListElem, Param};
use crate::blob::texts;
use crate::calls::no_names;
use crate::eval::{
    call_named, lookup_var, passed, range2, range3, said, special, PassedArg, Scope,
};
use crate::interp::{lemma_same_oracle, Interp};
use crate::iterate::{index_value, indexed, MAX_RANGE_ITERS};
use crate::num::{Arithmetic, Reading, ONE, TWO, ZERO};
use crate::sem::{
    asked, call_query, charged, exhausted, is_special, plain_range, stepped_range, variable, Ev,
    Oracle, Passed, Store,
};
use crate::text::same_text;
use crate::value::{
    binary, binary_of, truth, unary, unary_of, vals, vector, BinOp, UnOp, Val, Value,
};
use crate::vmlaw::lemma_runnable;
use vstd::prelude::*;

verus! {

/// The most slots of one function.
pub const MAX_LOCALS: usize = 0xffff;

/// An instruction. Operands are places in the tables of the chunk, slots, or
/// places to go to.
#[derive(Clone, Copy, Debug, PartialEq, Eq, Structural)]
pub enum Op {
    Const(usize),
    LoadLocal(usize),
    /// The value of a name outside of the function.
    LoadName(usize),
    StoreLocal(usize),
    Unary(UnOp),
    Bin(BinOp),
    Index,
    /// A field: 0, 1 or 2 for `x`, `y` or `z`; any other gives nothing.
    Member(u8),
    MakeVector(usize),
    MakeRange2,
    /// A range from its start, end and step.
    MakeRange3,
    PushBool(bool),
    ToBool,
    Jump(usize),
    JumpIfFalse(usize),
    JumpIfTrue(usize),
    /// Calls a name with so many arguments.
    Call(usize, usize),
    /// Calls the function's own name in tail position.
    TailCall(usize, usize),
    Return,
}

/// A compiled function body.
#[derive(Debug)]
pub struct Chunk {
    pub code: Vec<Op>,
    pub consts: Vec<Value>,
    pub names: Vec<String>,
    pub n_locals: usize,
}

/// What a chunk holds.
pub ghost struct Code {
    pub code: Seq<Op>,
    pub consts: Seq<Val>,
    pub names: Seq<Seq<char>>,
    pub n_locals: int,
}

impl View for Chunk {
    type V = Code;

    open spec fn view(&self) -> Code {
        Code {
            code: self.code@,
            consts: vals(self.consts@),
            names: texts(self.names@),
            n_locals: self.n_locals as int,
        }
    }
}

// ---- the machine ------------------------------------------------------------------------------

/// The state of the machine.
pub ghost struct Mach {
    pub ip: int,
    pub stack: Seq<Val>,
    pub locals: Seq<Val>,
    /// What is left behind so far.
    pub k: Store,
    /// How many passes have been made.
    pub iters: int,
}

/// What a step comes to.
pub ghost enum Stepped {
    Next(Mach),
    Done(Ev),
}

pub open spec fn top(s: Seq<Val>) -> Val {
    if s.len() == 0 {
        Val::Undef
    } else {
        s.last()
    }
}

pub open spec fn below(s: Seq<Val>) -> Seq<Val> {
    if s.len() == 0 {
        s
    } else {
        s.drop_last()
    }
}

/// The upper `n` values.
pub open spec fn upper(s: Seq<Val>, n: int) -> Seq<Val> {
    if n <= s.len() {
        s.skip(s.len() - n)
    } else {
        s
    }
}

/// What is under the upper `n` values.
pub open spec fn lower(s: Seq<Val>, n: int) -> Seq<Val> {
    if n <= s.len() {
        s.take(s.len() - n)
    } else {
        Seq::empty()
    }
}

/// Values as arguments without names.
pub open spec fn positional(v: Seq<Val>) -> Passed {
    v.map_values(|x: Val| (None::<Seq<char>>, x))
}

/// The slots with new values from the first on.
pub open spec fn overwritten(locals: Seq<Val>, v: Seq<Val>) -> Seq<Val> {
    Seq::new(
        locals.len(),
        |i: int|
            if i < v.len() {
                v[i]
            } else {
                locals[i]
            },
    )
}

/// The state with another value on top, at the next instruction.
pub open spec fn pushed(s: Mach, stack: Seq<Val>, v: Val) -> Stepped {
    Stepped::Next(Mach { ip: s.ip + 1, stack: stack.push(v), ..s })
}

pub open spec fn jumped(s: Mach, stack: Seq<Val>, to: int) -> Stepped {
    Stepped::Next(Mach { ip: to, stack, ..s })
}

/// Calls a name with the upper values of the stack.
pub open spec fn called(o: Oracle, ch: Code, s: Mach, name: int, argc: int) -> Stepped {
    let e = asked(
        o,
        s.k,
        call_query(o, no_names(), ch.names[name], positional(upper(s.stack, argc))),
    );
    match e.r {
        Ok(v) => Stepped::Next(
            Mach { ip: s.ip + 1, stack: lower(s.stack, argc).push(v), k: e.k, ..s },
        ),
        Err(x) => Stepped::Done(e),
    }
}

/// The field that a number stands for.
pub open spec fn field_of(m: Reading, base: Val, field: u8) -> Val {
    if field == 0 {
        indexed(m, base, Val::Number(ZERO))
    } else if field == 1 {
        indexed(m, base, Val::Number(ONE))
    } else if field == 2 {
        indexed(m, base, Val::Number(TWO))
    } else {
        Val::Undef
    }
}

/// One step of the machine, which it pays for. `own` says whether the function's
/// own name still stands for it.
pub open spec fn step(m: Reading, o: Oracle, ch: Code, own: bool, s: Mach) -> Stepped {
    match charged(o, s.k) {
        Some(k) => stepped(m, o, ch, own, Mach { k, ..s }),
        None => Stepped::Done(Ev { r: Err(exhausted()), k: s.k }),
    }
}

/// One step of the machine that is paid for.
pub open spec fn stepped(m: Reading, o: Oracle, ch: Code, own: bool, s: Mach) -> Stepped {
    let a = top(s.stack);
    let under = below(s.stack);
    match ch.code[s.ip] {
        Op::Const(i) => pushed(s, s.stack, ch.consts[i as int]),
        Op::LoadLocal(i) => pushed(s, s.stack, s.locals[i as int]),
        Op::LoadName(i) => pushed(s, s.stack, variable(o, no_names(), ch.names[i as int])),
        Op::StoreLocal(i) => Stepped::Next(
            Mach { ip: s.ip + 1, stack: under, locals: s.locals.update(i as int, a), ..s },
        ),
        Op::Unary(op) => pushed(s, under, unary_of(op, a)),
        Op::Bin(op) => pushed(s, below(under), binary_of(m, op, top(under), a)),
        Op::Index => pushed(s, below(under), indexed(m, top(under), a)),
        Op::Member(f) => pushed(s, under, field_of(m, a, f)),
        Op::MakeVector(n) => pushed(
            s,
            lower(s.stack, n as int),
            Val::Vector(upper(s.stack, n as int)),
        ),
        Op::MakeRange2 => pushed(s, below(under), plain_range(top(under), a)),
        Op::MakeRange3 => pushed(
            s,
            below(below(under)),
            stepped_range(top(below(under)), a, top(under)),
        ),
        Op::PushBool(b) => pushed(s, s.stack, Val::Bool(b)),
        Op::ToBool => pushed(s, under, Val::Bool(truth(a))),
        Op::Jump(t) => jumped(s, s.stack, t as int),
        Op::JumpIfFalse(t) => jumped(
            s,
            under,
            if truth(a) {
                s.ip + 1
            } else {
                t as int
            },
        ),
        Op::JumpIfTrue(t) => jumped(
            s,
            under,
            if truth(a) {
                t as int
            } else {
                s.ip + 1
            },
        ),
        Op::Call(name, argc) => called(o, ch, s, name as int, argc as int),
        Op::TailCall(name, argc) => if own {
            if s.iters + 1 > MAX_RANGE_ITERS {
                Stepped::Done(
                    Ev { r: Err("tail recursion exceeded iteration limit"@), k: s.k },
                )
            } else {
                Stepped::Next(
                    Mach {
                        ip: 0,
                        stack: lower(s.stack, argc as int),
                        locals: overwritten(s.locals, upper(s.stack, argc as int)),
                        k: s.k,
                        iters: s.iters + 1,
                    },
                )
            }
        } else {
            called(o, ch, s, name as int, argc as int)
        },
        Op::Return => Stepped::Done(Ev { r: Ok(a), k: s.k }),
    }
}

/// The state after `n` steps.
pub open spec fn after(m: Reading, o: Oracle, ch: Code, own: bool, s: Mach, n: nat) -> Stepped
    decreases n,
{
    if n == 0 {
        Stepped::Next(s)
    } else {
        match after(m, o, ch, own, s, (n - 1) as nat) {
            Stepped::Next(t) => step(m, o, ch, own, t),
            done => done,
        }
    }
}

/// The machine comes to the outcome `e`.
pub open spec fn halts(m: Reading, o: Oracle, ch: Code, own: bool, s: Mach, e: Ev) -> bool {
    exists|n: nat| #[trigger] after(m, o, ch, own, s, n) == Stepped::Done(e)
}

/// An instruction at `ip` fits the tables, and goes forward.
pub open spec fn op_fits(ch: Code, ip: int) -> bool {
    match ch.code[ip] {
        Op::Const(i) => i < ch.consts.len(),
        Op::LoadLocal(i) => i < ch.n_locals,
        Op::StoreLocal(i) => i < ch.n_locals,
        Op::LoadName(i) => i < ch.names.len(),
        Op::Call(i, _) => i < ch.names.len(),
        Op::TailCall(i, n) => i < ch.names.len(),
        Op::Jump(t) => ip < t < ch.code.len(),
        Op::JumpIfFalse(t) => ip < t < ch.code.len(),
        Op::JumpIfTrue(t) => ip < t < ch.code.len(),
        _ => true,
    }
}

/// A chunk that the machine can run: every instruction fits, and the last one
/// returns.
pub open spec fn runnable(ch: Code) -> bool {
    &&& ch.code.len() > 0
    &&& ch.code.last() == Op::Return
    &&& forall|ip: int| 0 <= ip < ch.code.len() ==> #[trigger] op_fits(ch, ip)
}

pub(crate) proof fn lemma_after_add(
    m: Reading,
    o: Oracle,
    ch: Code,
    own: bool,
    s: Mach,
    n: nat,
    t: Mach,
    j: nat,
)
    requires
        after(m, o, ch, own, s, n) == Stepped::Next(t),
    ensures
        after(m, o, ch, own, s, n + j) == after(m, o, ch, own, t, j),
    decreases j,
{
    if j > 0 {
        lemma_after_add(m, o, ch, own, s, n, t, (j - 1) as nat);
        assert((n + j - 1) as nat == n + (j - 1) as nat);
    }
}

proof fn lemma_done_stays(
    m: Reading,
    o: Oracle,
    ch: Code,
    own: bool,
    s: Mach,
    n: nat,
    j: nat,
    e: Ev,
)
    requires
        after(m, o, ch, own, s, n) == Stepped::Done(e),
    ensures
        after(m, o, ch, own, s, n + j) == Stepped::Done(e),
    decreases j,
{
    if j > 0 {
        lemma_done_stays(m, o, ch, own, s, n, (j - 1) as nat, e);
        assert((n + j - 1) as nat == n + (j - 1) as nat);
    }
}

/// The machine comes to one outcome only.
pub proof fn lemma_one_outcome(m: Reading, o: Oracle, ch: Code, own: bool, s: Mach, a: Ev, b: Ev)
    requires
        halts(m, o, ch, own, s, a),
        halts(m, o, ch, own, s, b),
    ensures
        a == b,
{
    let n = choose|n: nat| #[trigger] after(m, o, ch, own, s, n) == Stepped::Done(a);
    let j = choose|j: nat| #[trigger] after(m, o, ch, own, s, j) == Stepped::Done(b);
    if n <= j {
        lemma_done_stays(m, o, ch, own, s, n, (j - n) as nat, a);
    } else {
        lemma_done_stays(m, o, ch, own, s, j, (n - j) as nat, b);
    }
}

fn pop(stack: &mut Vec<Value>) -> (r: Value)
    ensures
        r@ == top(vals(old(stack)@)),
        vals(final(stack)@) == below(vals(old(stack)@)),
{
    let ghost before = vals(stack@);
    match stack.pop() {
        Some(v) => {
            assert(vals(stack@) =~= before.drop_last());
            v
        },
        None => {
            assert(vals(stack@) =~= before);
            Value::Undef
        },
    }
}

fn push(stack: &mut Vec<Value>, v: Value)
    ensures
        vals(final(stack)@) == vals(old(stack)@).push(v@),
{
    let ghost before = vals(stack@);
    let ghost x = v@;
    stack.push(v);
    assert(vals(stack@) =~= before.push(x));
}

/// Takes the upper `n` values off.
fn take_upper(stack: &mut Vec<Value>, n: usize) -> (r: Vec<Value>)
    ensures
        vals(r@) == upper(vals(old(stack)@), n as int),
        vals(final(stack)@) == lower(vals(old(stack)@), n as int),
{
    let ghost before = vals(stack@);
    let start: usize = if n <= stack.len() {
        stack.len() - n
    } else {
        0
    };
    let r = stack.split_off(start);
    assert(vals(r@) =~= upper(before, n as int));
    assert(vals(stack@) =~= lower(before, n as int));
    r
}

fn without_names(v: Vec<Value>) -> (r: Vec<PassedArg>)
    ensures
        passed(r@) == positional(vals(v@)),
{
    let ghost all = positional(vals(v@));
    let mut out: Vec<PassedArg> = Vec::new();
    for i in 0..v.len()
        invariant
            all == positional(vals(v@)),
            passed(out@) =~= all.take(i as int),
    {
        let ghost before = passed(out@);
        out.push(PassedArg { name: None, value: v[i].duplicate() });
        assert(passed(out@) =~= before.push(all[i as int]));
    }
    assert(all.take(v@.len() as int) =~= all);
    out
}

fn overwrite(locals: &mut Vec<Value>, v: &Vec<Value>)
    ensures
        vals(final(locals)@) == overwritten(vals(old(locals)@), vals(v@)),
        final(locals)@.len() == old(locals)@.len(),
{
    let ghost before = vals(locals@);
    let n: usize = locals.len();
    let mut i: usize = 0;
    while i < n && i < v.len()
        invariant
            n == locals@.len(),
            before.len() == n,
            i <= n,
            i <= v@.len(),
            forall|j: int|
                0 <= j < n ==> #[trigger] vals(locals@)[j] == if j < i {
                    vals(v@)[j]
                } else {
                    before[j]
                },
        decreases n - i,
    {
        let ghost had = vals(locals@);
        let x = v[i].duplicate();
        locals.set(i, x);
        assert(vals(locals@) =~= had.update(i as int, vals(v@)[i as int]));
        i = i + 1;
    }
    assert(vals(locals@) =~= overwritten(before, vals(v@)));
}

fn field_value<A: Arithmetic>(calc: &mut crate::num::Calc<A>, base: &Value, field: u8) -> (r: Value)
    ensures
        forall|m: Reading| #[trigger]
            final(calc).agrees(m) ==> old(calc).agrees(m) && r@ == field_of(m, base@, field),
{
    if field == 0 {
        index_value(calc, base, &Value::Number(ZERO))
    } else if field == 1 {
        index_value(calc, base, &Value::Number(ONE))
    } else if field == 2 {
        index_value(calc, base, &Value::Number(TWO))
    } else {
        Value::Undef
    }
}

/// Runs a chunk on slots that hold its parameters.
pub fn run_chunk<A: Arithmetic>(
    it: &mut Interp<A>,
    chunk: &Chunk,
    start: Vec<Value>,
    own: bool,
) -> (r: Result<Value, String>)
    requires
        old(it).wf(),
        runnable(chunk@),
        start@.len() == chunk@.n_locals,
    ensures
        final(it).wf(),
        final(it).stays(*old(it)),
        forall|m: Reading| #[trigger]
            final(it).calc.agrees(m) ==> old(it).calc.agrees(m) && (halts(
                m,
                old(it).oracle(m),
                chunk@,
                own,
                (Mach {
                    ip: 0,
                    stack: Seq::empty(),
                    locals: vals(start@),
                    k: old(it).store(),
                    iters: 0,
                }),
                (Ev { r: said(r), k: final(it).store() }),
            )),
    decreases old(it).depth, old(it).binds, 5int,
{
    let ghost ch = chunk@;
    let ghost s0 = Mach {
        ip: 0,
        stack: Seq::empty(),
        locals: vals(start@),
        k: it.store(),
        iters: 0,
    };
    let mut locals = start;
    let mut stack: Vec<Value> = Vec::new();
    let mut ip: usize = 0;
    let mut iters: usize = 0;
    let scope = Scope::new();
    let ghost mut n: nat = 0;
    let length: usize = chunk.code.len();
    assert(vals(stack@) =~= Seq::empty());
    loop
        invariant
            ch == chunk@,
            length == ch.code.len(),
            runnable(ch),
            s0 == (Mach {
                ip: 0,
                stack: Seq::empty(),
                locals: vals(start@),
                k: old(it).store(),
                iters: 0,
            }),
            scope@ == no_names(),
            locals@.len() == ch.n_locals,
            ip < ch.code.len(),
            iters <= MAX_RANGE_ITERS,
            it.wf(),
            it.stays(*old(it)),
            forall|m: Reading| #[trigger]
            it.calc.agrees(m) ==> old(it).calc.agrees(m) && after(m, old(it).oracle(m), ch, own, s0, n) == Stepped::Next(
                    (Mach {
                        ip: ip as int,
                        stack: vals(stack@),
                        locals: vals(locals@),
                        k: it.store(),
                        iters: iters as int,
                    }),
                ),
        decreases MAX_RANGE_ITERS + 1 - iters, ch.code.len() - ip,
    {
        proof {
            n = n + 1;
        }
        let ghost before_burn = *it;
        if !it.burn() {
            proof {
                let e = Ev { r: Err(exhausted()), k: it.store() };
                assert forall|m: Reading| #[trigger] it.calc.agrees(m) implies halts(
                    m,
                    old(it).oracle(m),
                    ch,
                    own,
                    s0,
                    e,
                ) by {
                    let o = old(it).oracle(m);
                    assert(o == before_burn.oracle(m));
                    assert(charged(o, before_burn.store()) is None);
                    assert(after(m, old(it).oracle(m), ch, own, s0, n) == Stepped::Done(e));
                }
            }
            return Err("evaluation budget exhausted".to_owned());
        }
        assert(op_fits(ch, ip as int));
        let ghost s1 = Mach {
            ip: ip as int,
            stack: vals(stack@),
            locals: vals(locals@),
            k: it.store(),
            iters: iters as int,
        };
        proof {
            lemma_same_oracle(*it, *old(it));
            assert forall|m: Reading| #[trigger] it.calc.agrees(m) implies old(it).calc.agrees(m)
                && after(m, old(it).oracle(m), ch, own, s0, n) == stepped(
                m,
                old(it).oracle(m),
                ch,
                own,
                s1,
            ) by {
                let o = old(it).oracle(m);
                assert(o == before_burn.oracle(m));
                let t = Mach { k: before_burn.store(), ..s1 };
                assert(after(m, o, ch, own, s0, (n - 1) as nat) == Stepped::Next(t));
                assert(step(m, o, ch, own, t) == stepped(m, o, ch, own, s1)) by {
                    assert(charged(o, t.k) == Some(it.store()));
                }
            }
        }
        let op = chunk.code[ip];
        match op {
            Op::Const(i) => {
                assert(ch.consts[i as int] == chunk.consts@[i as int]@);
                push(&mut stack, chunk.consts[i].duplicate());
            },
            Op::LoadLocal(i) => {
                assert(vals(locals@)[i as int] == locals@[i as int]@);
                push(&mut stack, locals[i].duplicate());
            },
            Op::LoadName(i) => {
                assert(ch.names[i as int] == chunk.names@[i as int]@);
                let v = lookup_var(it, &scope, chunk.names[i].as_str());
                push(&mut stack, v);
            },
            Op::StoreLocal(i) => {
                let v = pop(&mut stack);
                let ghost before = vals(locals@);
                let ghost x = v@;
                locals.set(i, v);
                assert(vals(locals@) =~= before.update(i as int, x));
            },
            Op::Unary(op) => {
                let v = pop(&mut stack);
                push(&mut stack, unary(op, v));
            },
            Op::Bin(op) => {
                let r = pop(&mut stack);
                let l = pop(&mut stack);
                let v = binary(&mut it.calc, op, &l, &r);
                push(&mut stack, v);
            },
            Op::Index => {
                let i = pop(&mut stack);
                let b = pop(&mut stack);
                let v = index_value(&mut it.calc, &b, &i);
                push(&mut stack, v);
            },
            Op::Member(f) => {
                let b = pop(&mut stack);
                let v = field_value(&mut it.calc, &b, f);
                push(&mut stack, v);
            },
            Op::MakeVector(count) => {
                let items = take_upper(&mut stack, count);
                push(&mut stack, vector(items));
            },
            Op::MakeRange2 => {
                let e = pop(&mut stack);
                let s = pop(&mut stack);
                push(&mut stack, range2(&s, &e));
            },
            Op::MakeRange3 => {
                let st = pop(&mut stack);
                let e = pop(&mut stack);
                let s = pop(&mut stack);
                push(&mut stack, range3(&s, &st, &e));
            },
            Op::PushBool(b) => {
                push(&mut stack, Value::Bool(b));
            },
            Op::ToBool => {
                let v = pop(&mut stack);
                push(&mut stack, Value::Bool(v.truthy()));
            },
            Op::Jump(t) => {
                ip = t;
                continue;
            },
            Op::JumpIfFalse(t) => {
                let v = pop(&mut stack);
                if !v.truthy() {
                    ip = t;
                    continue;
                }
            },
            Op::JumpIfTrue(t) => {
                let v = pop(&mut stack);
                if v.truthy() {
                    ip = t;
                    continue;
                }
            },
            Op::Call(name, argc) => {
                assert(ch.names[name as int] == chunk.names@[name as int]@);
                let args = without_names(take_upper(&mut stack, argc));
                match call_named(it, &scope, chunk.names[name].as_str(), &args) {
                    Ok(v) => {
                        push(&mut stack, v);
                    },
                    Err(x) => {
                        proof {
                            let e = Ev { r: Err(x@), k: it.store() };
                            assert forall|m: Reading| #[trigger] it.calc.agrees(m) implies halts(m, old(it).oracle(m), ch, own, s0, e) by {
                                assert(after(m, old(it).oracle(m), ch, own, s0, n) == Stepped::Done(e));
                            }
                        }
                        return Err(x);
                    },
                }
            },
            Op::TailCall(name, argc) => {
                assert(ch.names[name as int] == chunk.names@[name as int]@);
                let args = take_upper(&mut stack, argc);
                if own {
                    if iters + 1 > MAX_RANGE_ITERS {
                        proof {
                            let e = Ev { r: Err("tail recursion exceeded iteration limit"@), k: it.store() };
                            assert forall|m: Reading| #[trigger] it.calc.agrees(m) implies halts(m, old(it).oracle(m), ch, own, s0, e) by {
                                assert(after(m, old(it).oracle(m), ch, own, s0, n) == Stepped::Done(e));
                            }
                        }
                        return Err("tail recursion exceeded iteration limit".to_owned());
                    }
                    overwrite(&mut locals, &args);
                    iters = iters + 1;
                    ip = 0;
                    continue;
                }
                let list = without_names(args);
                match call_named(it, &scope, chunk.names[name].as_str(), &list) {
                    Ok(v) => {
                        push(&mut stack, v);
                    },
                    Err(x) => {
                        proof {
                            let e = Ev { r: Err(x@), k: it.store() };
                            assert forall|m: Reading| #[trigger] it.calc.agrees(m) implies halts(m, old(it).oracle(m), ch, own, s0, e) by {
                                assert(after(m, old(it).oracle(m), ch, own, s0, n) == Stepped::Done(e));
                            }
                        }
                        return Err(x);
                    },
                }
            },
            Op::Return => {
                let v = pop(&mut stack);
                proof {
                    let e = Ev { r: Ok(v@), k: it.store() };
                    assert forall|m: Reading| #[trigger] it.calc.agrees(m) implies halts(m, old(it).oracle(m), ch, own, s0, e) by {
                        assert(after(m, old(it).oracle(m), ch, own, s0, n) == Stepped::Done(e));
                    }
                }
                return Ok(v);
            },
        }
        assert(ip + 1 < ch.code.len()) by {
            if ip + 1 == ch.code.len() {
                assert(ch.code[ip as int] == ch.code.last());
            }
        }
        ip = ip + 1;
    }
}

// ---- the compiler --------------------------------------------------------------------------------

/// Names in scope and their slots, innermost last.
pub type Slots = Seq<(Seq<char>, int)>;

/// The slot of a name.
pub open spec fn slot_of(sc: Slots, name: Seq<char>) -> Option<int>
    decreases sc.len(),
{
    if sc.len() == 0 {
        None
    } else if sc.last().0 == name {
        Some(sc.last().1)
    } else {
        slot_of(sc.drop_last(), name)
    }
}

/// The code with one more instruction.
pub open spec fn with_op(g: Code, op: Op) -> Code {
    Code { code: g.code.push(op), ..g }
}

/// The code with a constant and an instruction that pushes it.
pub open spec fn with_const(g: Code, v: Val) -> Code {
    with_op(Code { consts: g.consts.push(v), ..g }, Op::Const(g.consts.len() as usize))
}

/// The first place of a name from the `i`-th on.
pub open spec fn place_from(names: Seq<Seq<char>>, name: Seq<char>, i: int) -> Option<int>
    decreases names.len() - i,
{
    if i < 0 || i >= names.len() {
        None
    } else if names[i] == name {
        Some(i)
    } else {
        place_from(names, name, i + 1)
    }
}

/// The code with a name in its table.
pub open spec fn with_name(g: Code, name: Seq<char>) -> Code {
    match place_from(g.names, name, 0) {
        Some(_) => g,
        None => Code { names: g.names.push(name), ..g },
    }
}

/// The place of a name that `with_name` provides.
pub open spec fn name_place(g: Code, name: Seq<char>) -> int {
    match place_from(g.names, name, 0) {
        Some(i) => i,
        None => g.names.len() as int,
    }
}

/// The code with two instructions replaced.
pub open spec fn patched(g: Code, a: int, first: Op, b: int, second: Op) -> Code {
    Code { code: g.code.update(a, first).update(b, second), ..g }
}

/// The number of a field.
pub open spec fn field_code(field: Seq<char>) -> u8 {
    if field == "x"@ {
        0
    } else if field == "y"@ {
        1
    } else if field == "z"@ {
        2
    } else {
        255
    }
}

/// The arguments from the `i`-th on, none of them named.
pub open spec fn gen_args(g: Code, sc: Slots, args: Vec<Arg>, i: int) -> Option<Code>
    decreases args, args@.len() - i,
{
    if i < 0 || i >= args@.len() {
        Some(g)
    } else if args@[i].name is Some {
        None
    } else {
        match gen(g, sc, args@[i].value) {
            Some(g1) => gen_args(g1, sc, args, i + 1),
            None => None,
        }
    }
}

/// The items of a list from the `i`-th on, none of them a comprehension.
pub open spec fn gen_elems(g: Code, sc: Slots, elems: Vec<ListElem>, i: int) -> Option<Code>
    decreases elems, elems@.len() - i,
{
    if i < 0 || i >= elems@.len() {
        Some(g)
    } else {
        match elems@[i] {
            ListElem::Item(e) => match gen(g, sc, e) {
                Some(g1) => gen_elems(g1, sc, elems, i + 1),
                None => None,
            },
            _ => None,
        }
    }
}

/// The code and the scope after some bindings.
pub ghost struct Bound {
    pub g: Code,
    pub sc: Slots,
}

/// The code that stores the top of the stack in a new slot.
pub open spec fn with_slot(b: Bound, name: Seq<char>) -> Bound {
    Bound {
        g: with_op(
            Code { n_locals: b.g.n_locals + 1, ..b.g },
            Op::StoreLocal(b.g.n_locals as usize),
        ),
        sc: b.sc.push((name, b.g.n_locals)),
    }
}

/// A name that can have a slot: not a dynamic one, and while there are slots.
pub open spec fn can_bind(g: Code, name: Seq<char>) -> bool {
    !is_special(name) && g.n_locals < MAX_LOCALS
}

/// The bindings from the `i`-th on.
pub open spec fn gen_lets(b: Bound, list: Vec<Binding>, i: int) -> Option<Bound>
    decreases list, list@.len() - i,
{
    if i < 0 || i >= list@.len() {
        Some(b)
    } else {
        match gen(b.g, b.sc, list@[i].value) {
            Some(g1) => if can_bind(g1, list@[i].name@) {
                gen_lets(with_slot(Bound { g: g1, sc: b.sc }, list@[i].name@), list, i + 1)
            } else {
                None
            },
            None => None,
        }
    }
}

/// A choice: a condition, and two ways that meet again.
pub open spec fn joined_ways(g1: Code, g3: Code, g5: Code) -> Code {
    patched(
        g5,
        g1.code.len() as int,
        Op::JumpIfFalse((g3.code.len() + 1) as usize),
        g3.code.len() as int,
        Op::Jump(g5.code.len() as usize),
    )
}

/// A logical operation whose right side is skipped where the left one decides.
pub open spec fn short_circuit(g1: Code, g3: Code, on_true: bool) -> Code {
    let g6 = with_op(
        with_op(with_op(g3, Op::ToBool), Op::Jump(0)),
        Op::PushBool(on_true),
    );
    let past = (g3.code.len() + 2) as usize;
    patched(
        g6,
        g1.code.len() as int,
        if on_true {
            Op::JumpIfTrue(past)
        } else {
            Op::JumpIfFalse(past)
        },
        g3.code.len() as int + 1,
        Op::Jump(g6.code.len() as usize),
    )
}

/// The code of an expression behind `g`, or none where it is left to the
/// evaluator.
pub open spec fn gen(g: Code, sc: Slots, e: Expr) -> Option<Code>
    decreases e, 0int,
{
    match e {
        Expr::Number(x) => Some(with_const(g, Val::Number(x))),
        Expr::Bool(b) => Some(with_op(g, Op::PushBool(b))),
        Expr::Str(s) => Some(with_const(g, Val::Str(s@))),
        Expr::Undef => Some(with_const(g, Val::Undef)),
        Expr::Ident(name) => match slot_of(sc, name@) {
            Some(slot) => Some(with_op(g, Op::LoadLocal(slot as usize))),
            None => Some(
                with_op(with_name(g, name@), Op::LoadName(name_place(g, name@) as usize)),
            ),
        },
        Expr::Vector(elems) => match gen_elems(g, sc, elems, 0) {
            Some(g1) => Some(with_op(g1, Op::MakeVector(elems@.len() as usize))),
            None => None,
        },
        Expr::Range { start, step, end } => match gen(g, sc, *start) {
            Some(g1) => match gen(g1, sc, *end) {
                Some(g2) => match step {
                    Some(st) => match gen(g2, sc, *st) {
                        Some(g3) => Some(with_op(g3, Op::MakeRange3)),
                        None => None,
                    },
                    None => Some(with_op(g2, Op::MakeRange2)),
                },
                None => None,
            },
            None => None,
        },
        Expr::Unary { op, expr } => match gen(g, sc, *expr) {
            Some(g1) => Some(with_op(g1, Op::Unary(op))),
            None => None,
        },
        Expr::Binary { op, lhs, rhs } => match gen(g, sc, *lhs) {
            Some(g1) => if op == BinOp::And || op == BinOp::Or {
                let jump = if op == BinOp::Or {
                    Op::JumpIfTrue(0)
                } else {
                    Op::JumpIfFalse(0)
                };
                match gen(with_op(g1, jump), sc, *rhs) {
                    Some(g3) => Some(short_circuit(g1, g3, op == BinOp::Or)),
                    None => None,
                }
            } else {
                match gen(g1, sc, *rhs) {
                    Some(g2) => Some(with_op(g2, Op::Bin(op))),
                    None => None,
                }
            },
            None => None,
        },
        Expr::Ternary { cond, yes, no } => match gen(g, sc, *cond) {
            Some(g1) => match gen(with_op(g1, Op::JumpIfFalse(0)), sc, *yes) {
                Some(g3) => match gen(with_op(g3, Op::Jump(0)), sc, *no) {
                    Some(g5) => Some(joined_ways(g1, g3, g5)),
                    None => None,
                },
                None => None,
            },
            None => None,
        },
        Expr::Index { base, index } => match gen(g, sc, *base) {
            Some(g1) => match gen(g1, sc, *index) {
                Some(g2) => Some(with_op(g2, Op::Index)),
                None => None,
            },
            None => None,
        },
        Expr::Member { base, field } => match gen(g, sc, *base) {
            Some(g1) => Some(with_op(g1, Op::Member(field_code(field@)))),
            None => None,
        },
        Expr::Let { bindings, body } => match gen_lets(Bound { g, sc }, bindings, 0) {
            Some(b) => gen(b.g, b.sc, *body),
            None => None,
        },
        Expr::Call { name, args } => if slot_of(sc, name@) is Some || is_special(name@) {
            None
        } else {
            match gen_args(g, sc, args, 0) {
                Some(g1) => Some(
                    with_op(
                        with_name(g1, name@),
                        Op::Call(name_place(g1, name@) as usize, args@.len() as usize),
                    ),
                ),
                None => None,
            }
        },
        _ => None,
    }
}

/// The function that is compiled: its own name, and how many parameters it has.
pub ghost struct Own {
    pub name: Option<Seq<char>>,
    pub params: int,
}

/// The code of an expression in tail position. A call of the function's own
/// name is another pass where it gives each parameter its argument; else the
/// function is left to the evaluator.
pub open spec fn gen_tail(g: Code, sc: Slots, e: Expr, own: Own) -> Option<Code>
    decreases e,
{
    match e {
        Expr::Ternary { cond, yes, no } => match gen(g, sc, *cond) {
            Some(g1) => match gen_tail(with_op(g1, Op::JumpIfFalse(0)), sc, *yes, own) {
                Some(g3) => match gen_tail(with_op(g3, Op::Jump(0)), sc, *no, own) {
                    Some(g5) => Some(joined_ways(g1, g3, g5)),
                    None => None,
                },
                None => None,
            },
            None => None,
        },
        Expr::Let { bindings, body } => match gen_lets(Bound { g, sc }, bindings, 0) {
            Some(b) => gen_tail(b.g, b.sc, *body, own),
            None => None,
        },
        Expr::Call { name, args } => if own.name == Some(name@) {
            if args@.len() != own.params || is_special(name@) || slot_of(sc, name@) is Some {
                None
            } else {
                match gen_args(g, sc, args, 0) {
                    Some(g1) => Some(
                        with_op(
                            with_name(g1, name@),
                            Op::TailCall(name_place(g1, name@) as usize, args@.len() as usize),
                        ),
                    ),
                    None => None,
                }
            }
        } else {
            gen(g, sc, e)
        },
        _ => gen(g, sc, e),
    }
}

/// The scope of the first `n` parameters.
pub open spec fn param_slots(params: Seq<Param>, n: int) -> Slots {
    Seq::new(n as nat, |i: int| (params[i].name@, i))
}

/// Every parameter has an ordinary name of its own, and there are slots for all.
pub open spec fn plain_params(params: Seq<Param>) -> bool {
    &&& params.len() < MAX_LOCALS
    &&& forall|i: int| 0 <= i < params.len() ==> !is_special((#[trigger] params[i]).name@)
    &&& forall|i: int, j: int|
        #![trigger params[i], params[j]]
        0 <= i < j < params.len() ==> params[i].name@ != params[j].name@
}

/// The code of a function, or none where it is left to the evaluator.
pub open spec fn compiled_fn(params: Seq<Param>, body: Expr, name: Option<Seq<char>>) -> Option<
    Code,
> {
    if !plain_params(params) {
        None
    } else {
        let g = Code {
            code: Seq::empty(),
            consts: Seq::empty(),
            names: Seq::empty(),
            n_locals: params.len() as int,
        };
        match gen_tail(
            g,
            param_slots(params, params.len() as int),
            body,
            (Own { name, params: params.len() as int }),
        ) {
            Some(g1) => Some(with_op(g1, Op::Return)),
            None => None,
        }
    }
}

/// A name and its slot.
#[derive(Debug)]
pub struct Slot {
    pub name: String,
    pub at: usize,
}

/// What names and slots say.
pub open spec fn slots(v: Seq<Slot>) -> Slots {
    v.map_values(|s: Slot| (s.name@, s.at as int))
}

/// The state of the compiler.
struct Compiler {
    out: Chunk,
    scope: Vec<Slot>,
}

fn resolve(scope: &Vec<Slot>, name: &str) -> (r: Option<usize>)
    ensures
        match r {
            Some(at) => slot_of(slots(scope@), name@) == Some(at as int),
            None => slot_of(slots(scope@), name@) is None,
        },
{
    let ghost all = slots(scope@);
    let mut i: usize = scope.len();
    assert(all.take(i as int) =~= all);
    while i > 0
        invariant
            all == slots(scope@),
            i <= scope@.len(),
            slot_of(all, name@) == slot_of(all.take(i as int), name@),
        decreases i,
    {
        proof {
            let t = all.take(i as int);
            assert(t.drop_last() =~= all.take(i - 1));
            assert(t.last() == (scope@[i - 1].name@, scope@[i - 1].at as int));
        }
        if same_text(scope[i - 1].name.as_str(), name) {
            return Some(scope[i - 1].at);
        }
        i = i - 1;
    }
    assert(all.take(0) =~= Seq::empty());
    None
}

impl Compiler {
    spec fn g(&self) -> Code {
        self.out@
    }

    spec fn sc(&self) -> Slots {
        slots(self.scope@)
    }

    fn emit(&mut self, op: Op)
        ensures
            final(self).g() == with_op(old(self).g(), op),
            final(self).scope == old(self).scope,
    {
        self.out.code.push(op);
    }

    fn constant(&mut self, v: Value)
        ensures
            final(self).g() == with_const(old(self).g(), v@),
            final(self).scope == old(self).scope,
    {
        let i: usize = self.out.consts.len();
        let ghost before = vals(self.out.consts@);
        let ghost x = v@;
        self.out.consts.push(v);
        assert(vals(self.out.consts@) =~= before.push(x));
        self.emit(Op::Const(i));
    }

    fn name_index(&mut self, name: &str) -> (r: usize)
        ensures
            final(self).g() == with_name(old(self).g(), name@),
            final(self).scope == old(self).scope,
            r == name_place(old(self).g(), name@),
    {
        let ghost all = texts(self.out.names@);
        let mut i: usize = 0;
        while i < self.out.names.len()
            invariant
                *self == *old(self),
                all == texts(self.out.names@),
                i <= all.len(),
                place_from(all, name@, 0) == place_from(all, name@, i as int),
            decreases self.out.names.len() - i,
        {
            assert(all[i as int] == self.out.names@[i as int]@);
            if same_text(self.out.names[i].as_str(), name) {
                return i;
            }
            i = i + 1;
        }
        self.out.names.push(name.to_owned());
        assert(texts(self.out.names@) =~= all.push(name@));
        i
    }

    /// Replaces two instructions.
    fn patch(&mut self, a: usize, first: Op, b: usize, second: Op)
        requires
            a < old(self).g().code.len(),
            b < old(self).g().code.len(),
        ensures
            final(self).g() == patched(old(self).g(), a as int, first, b as int, second),
            final(self).scope == old(self).scope,
    {
        self.out.code.set(a, first);
        self.out.code.set(b, second);
    }

    fn compile_args(&mut self, args: &Vec<Arg>) -> (r: bool)
        ensures
            final(self).scope@ == old(self).scope@,
            gen_args(old(self).g(), old(self).sc(), *args, 0) == if r {
                Some(final(self).g())
            } else {
                None
            },
            r ==> final(self).g().code.len() >= old(self).g().code.len(),
        decreases *args, 0int,
    {
        let ghost g0 = self.g();
        let ghost sc = self.sc();
        let mut i: usize = 0;
        while i < args.len()
            invariant
                g0 == old(self).g(),
                sc == old(self).sc(),
                self.scope@ == old(self).scope@,
                i <= args@.len(),
                self.g().code.len() >= g0.code.len(),
                gen_args(g0, sc, *args, 0) == gen_args(self.g(), sc, *args, i as int),
            decreases args.len() - i,
        {
            if args[i].name.is_some() {
                return false;
            }
            if !self.compile_expr(&args[i].value) {
                return false;
            }
            i = i + 1;
        }
        true
    }

    fn compile_elems(&mut self, elems: &Vec<ListElem>) -> (r: bool)
        ensures
            final(self).scope@ == old(self).scope@,
            gen_elems(old(self).g(), old(self).sc(), *elems, 0) == if r {
                Some(final(self).g())
            } else {
                None
            },
            r ==> final(self).g().code.len() >= old(self).g().code.len(),
        decreases *elems, 0int,
    {
        let ghost g0 = self.g();
        let ghost sc = self.sc();
        let mut i: usize = 0;
        while i < elems.len()
            invariant
                g0 == old(self).g(),
                sc == old(self).sc(),
                self.scope@ == old(self).scope@,
                i <= elems@.len(),
                self.g().code.len() >= g0.code.len(),
                gen_elems(g0, sc, *elems, 0) == gen_elems(self.g(), sc, *elems, i as int),
            decreases elems.len() - i,
        {
            match &elems[i] {
                ListElem::Item(e) => {
                    if !self.compile_expr(e) {
                        return false;
                    }
                },
                _ => {
                    return false;
                },
            }
            i = i + 1;
        }
        true
    }

    fn compile_lets(&mut self, list: &Vec<Binding>) -> (r: bool)
        ensures
            old(self).scope@.is_prefix_of(final(self).scope@),
            gen_lets((Bound { g: old(self).g(), sc: old(self).sc() }), *list, 0) == if r {
                Some((Bound { g: final(self).g(), sc: final(self).sc() }))
            } else {
                None
            },
            r ==> final(self).g().code.len() >= old(self).g().code.len(),
        decreases *list, 0int,
    {
        let ghost b0 = Bound { g: self.g(), sc: self.sc() };
        let mut i: usize = 0;
        assert(old(self).scope@ =~= self.scope@.subrange(0, self.scope@.len() as int));
        while i < list.len()
            invariant
                b0 == (Bound { g: old(self).g(), sc: old(self).sc() }),
                old(self).scope@.is_prefix_of(self.scope@),
                i <= list@.len(),
                self.g().code.len() >= b0.g.code.len(),
                gen_lets(b0, *list, 0) == gen_lets(
                    (Bound { g: self.g(), sc: self.sc() }),
                    *list,
                    i as int,
                ),
            decreases list.len() - i,
        {
            if !self.compile_expr(&list[i].value) {
                return false;
            }
            if special(list[i].name.as_str()) || self.out.n_locals >= MAX_LOCALS {
                return false;
            }
            let at: usize = self.out.n_locals;
            let ghost before = self.scope@;
            let ghost sc = self.sc();
            self.scope.push(Slot { name: list[i].name.clone(), at });
            assert(self.sc() =~= sc.push((list@[i as int].name@, at as int)));
            assert(old(self).scope@ =~= self.scope@.subrange(0, old(self).scope@.len() as int));
            self.out.n_locals = at + 1;
            self.emit(Op::StoreLocal(at));
            i = i + 1;
        }
        true
    }

    /// Drops the names beyond the first `n`.
    fn leave(&mut self, n: usize, Ghost(outer): Ghost<Seq<Slot>>)
        requires
            outer.is_prefix_of(old(self).scope@),
            outer.len() == n,
        ensures
            final(self).scope@ == outer,
            final(self).g() == old(self).g(),
    {
        self.scope.truncate(n);
        assert(self.scope@ =~= outer);
    }

    /// Compiles an expression; whether that was possible.
    fn compile_expr(&mut self, e: &Expr) -> (r: bool)
        ensures
            final(self).scope@ == old(self).scope@,
            gen(old(self).g(), old(self).sc(), *e) == if r {
                Some(final(self).g())
            } else {
                None
            },
            r ==> final(self).g().code.len() >= old(self).g().code.len(),
        decreases *e, 0int,
    {
        match e {
            Expr::Number(x) => {
                self.constant(Value::Number(*x));
                true
            },
            Expr::Bool(b) => {
                self.emit(Op::PushBool(*b));
                true
            },
            Expr::Str(s) => {
                self.constant(Value::Str(s.clone()));
                true
            },
            Expr::Undef => {
                self.constant(Value::Undef);
                true
            },
            Expr::Ident(name) => {
                match resolve(&self.scope, name.as_str()) {
                    Some(at) => {
                        self.emit(Op::LoadLocal(at));
                    },
                    None => {
                        let i: usize = self.name_index(name.as_str());
                        self.emit(Op::LoadName(i));
                    },
                }
                true
            },
            Expr::Vector(elems) => {
                if !self.compile_elems(elems) {
                    return false;
                }
                self.emit(Op::MakeVector(elems.len()));
                true
            },
            Expr::Range { start, step, end } => {
                if !self.compile_expr(start) {
                    return false;
                }
                if !self.compile_expr(end) {
                    return false;
                }
                match step {
                    Some(st) => {
                        if !self.compile_expr(st) {
                            return false;
                        }
                        self.emit(Op::MakeRange3);
                    },
                    None => {
                        self.emit(Op::MakeRange2);
                    },
                }
                true
            },
            Expr::Unary { op, expr } => {
                if !self.compile_expr(expr) {
                    return false;
                }
                self.emit(Op::Unary(*op));
                true
            },
            Expr::Binary { op, lhs, rhs } => {
                if !self.compile_expr(lhs) {
                    return false;
                }
                if *op == BinOp::And || *op == BinOp::Or {
                    let or: bool = *op == BinOp::Or;
                    let at: usize = self.out.code.len();
                    self.emit(
                        if or {
                            Op::JumpIfTrue(0)
                        } else {
                            Op::JumpIfFalse(0)
                        },
                    );
                    if !self.compile_expr(rhs) {
                        return false;
                    }
                    self.emit(Op::ToBool);
                    let past: usize = self.out.code.len();
                    self.emit(Op::Jump(0));
                    let target: usize = self.out.code.len();
                    self.emit(Op::PushBool(or));
                    let end: usize = self.out.code.len();
                    self.patch(
                        at,
                        if or {
                            Op::JumpIfTrue(target)
                        } else {
                            Op::JumpIfFalse(target)
                        },
                        past,
                        Op::Jump(end),
                    );
                    true
                } else {
                    if !self.compile_expr(rhs) {
                        return false;
                    }
                    self.emit(Op::Bin(*op));
                    true
                }
            },
            Expr::Ternary { cond, yes, no } => {
                if !self.compile_expr(cond) {
                    return false;
                }
                let at: usize = self.out.code.len();
                self.emit(Op::JumpIfFalse(0));
                if !self.compile_expr(yes) {
                    return false;
                }
                let past: usize = self.out.code.len();
                self.emit(Op::Jump(0));
                let target: usize = self.out.code.len();
                if !self.compile_expr(no) {
                    return false;
                }
                let end: usize = self.out.code.len();
                self.patch(at, Op::JumpIfFalse(target), past, Op::Jump(end));
                true
            },
            Expr::Index { base, index } => {
                if !self.compile_expr(base) {
                    return false;
                }
                if !self.compile_expr(index) {
                    return false;
                }
                self.emit(Op::Index);
                true
            },
            Expr::Member { base, field } => {
                if !self.compile_expr(base) {
                    return false;
                }
                let k: u8 = if same_text(field.as_str(), "x") {
                    0
                } else if same_text(field.as_str(), "y") {
                    1
                } else if same_text(field.as_str(), "z") {
                    2
                } else {
                    255
                };
                self.emit(Op::Member(k));
                true
            },
            Expr::Let { bindings, body } => {
                let n: usize = self.scope.len();
                let ghost outer = self.scope@;
                let ok: bool = self.compile_lets(bindings);
                let ok: bool = ok && self.compile_expr(body);
                self.leave(n, Ghost(outer));
                ok
            },
            Expr::Call { name, args } => {
                if resolve(&self.scope, name.as_str()).is_some() || special(name.as_str()) {
                    return false;
                }
                if !self.compile_args(args) {
                    return false;
                }
                let i: usize = self.name_index(name.as_str());
                self.emit(Op::Call(i, args.len()));
                true
            },
            _ => false,
        }
    }

    /// Compiles an expression in tail position; whether that was possible.
    fn compile_tail(&mut self, e: &Expr, own_name: &Option<String>, params: usize) -> (r: bool)
        ensures
            final(self).scope@ == old(self).scope@,
            gen_tail(
                old(self).g(),
                old(self).sc(),
                *e,
                (Own { name: crate::names::text_view(*own_name), params: params as int }),
            ) == if r {
                Some(final(self).g())
            } else {
                None
            },
            r ==> final(self).g().code.len() >= old(self).g().code.len(),
        decreases *e,
    {
        match e {
            Expr::Ternary { cond, yes, no } => {
                if !self.compile_expr(cond) {
                    return false;
                }
                let at: usize = self.out.code.len();
                self.emit(Op::JumpIfFalse(0));
                if !self.compile_tail(yes, own_name, params) {
                    return false;
                }
                let past: usize = self.out.code.len();
                self.emit(Op::Jump(0));
                let target: usize = self.out.code.len();
                if !self.compile_tail(no, own_name, params) {
                    return false;
                }
                let end: usize = self.out.code.len();
                self.patch(at, Op::JumpIfFalse(target), past, Op::Jump(end));
                true
            },
            Expr::Let { bindings, body } => {
                let n: usize = self.scope.len();
                let ghost outer = self.scope@;
                let ok: bool = self.compile_lets(bindings);
                let ok: bool = ok && self.compile_tail(body, own_name, params);
                self.leave(n, Ghost(outer));
                ok
            },
            Expr::Call { name, args } => {
                let own: bool = match own_name {
                    Some(n) => same_text(n.as_str(), name.as_str()),
                    None => false,
                };
                if !own {
                    return self.compile_expr(e);
                }
                if args.len() != params || special(name.as_str()) || resolve(
                    &self.scope,
                    name.as_str(),
                ).is_some() {
                    return false;
                }
                if !self.compile_args(args) {
                    return false;
                }
                let i: usize = self.name_index(name.as_str());
                self.emit(Op::TailCall(i, args.len()));
                true
            },
            _ => self.compile_expr(e),
        }
    }
}

fn params_plain(params: &Vec<Param>) -> (r: bool)
    ensures
        r == plain_params(params@),
{
    if params.len() >= MAX_LOCALS {
        return false;
    }
    let mut i: usize = 0;
    while i < params.len()
        invariant
            params@.len() < MAX_LOCALS,
            i <= params@.len(),
            forall|a: int| 0 <= a < i ==> !is_special((#[trigger] params@[a]).name@),
            forall|a: int, b: int|
                #![trigger params@[a], params@[b]]
                0 <= a < b < i ==> params@[a].name@ != params@[b].name@,
        decreases params.len() - i,
    {
        if special(params[i].name.as_str()) {
            assert(is_special(params@[i as int].name@));
            return false;
        }
        let mut j: usize = 0;
        while j < i
            invariant
                i < params@.len(),
                j <= i,
                forall|a: int| 0 <= a < j ==> (#[trigger] params@[a]).name@ != params@[i as int].name@,
            decreases i - j,
        {
            if same_text(params[j].name.as_str(), params[i].name.as_str()) {
                assert(params@[j as int].name@ == params@[i as int].name@);
                return false;
            }
            j = j + 1;
        }
        i = i + 1;
    }
    true
}

/// Compiles a function, where that is possible; the machine can run what comes
/// out.
pub fn compile_fn(params: &Vec<Param>, body: &Expr, name: &Option<String>) -> (r: Option<Chunk>)
    ensures
        match r {
            Some(c) => {
                &&& compiled_fn(params@, *body, crate::names::text_view(*name)) == Some(c@)
                &&& runnable(c@)
                &&& params@.len() <= c@.n_locals
            },
            None => compiled_fn(params@, *body, crate::names::text_view(*name)) is None,
        },
{
    if !params_plain(params) {
        return None;
    }
    let n: usize = params.len();
    let mut scope: Vec<Slot> = Vec::new();
    for i in 0..n
        invariant
            n == params@.len(),
            slots(scope@) =~= param_slots(params@, i as int),
    {
        let ghost before = slots(scope@);
        scope.push(Slot { name: params[i].name.clone(), at: i });
        assert(slots(scope@) =~= before.push((params@[i as int].name@, i as int)));
    }
    let mut c = Compiler {
        out: Chunk { code: Vec::new(), consts: Vec::new(), names: Vec::new(), n_locals: n },
        scope,
    };
    assert(vals(c.out.consts@) =~= Seq::empty());
    assert(texts(c.out.names@) =~= Seq::empty());
    assert(c.out.code@ =~= Seq::empty());
    if !c.compile_tail(body, name, n) {
        return None;
    }
    c.emit(Op::Return);
    let out = c.out;
    let (code, consts, names): (usize, usize, usize) = (
        out.code.len(),
        out.consts.len(),
        out.names.len(),
    );
    proof {
        assert(out@.code.len() == code);
        assert(vals(out.consts@).len() == consts);
        assert(texts(out.names@).len() == names);
        lemma_runnable(params@, *body, crate::names::text_view(*name), out@);
    }
    Some(out)
}

} // verus!
