//! The stack machine that runs a program. A program's observable result is
//! the stack it leaves, bottom first: one value for each statement. A fault
//! ends the run and carries the span of the instruction that raised it.
use vstd::prelude::*;
use crate::token::{Span, Op, Instr, ParserToken, ParserTokenKind, instrs, label_of, label_or_default};

verus! {

/// A value on the stack.
#[derive(Clone, Debug, PartialEq, Eq)]
pub enum Value {
    Int(i64),
    Str(Vec<u8>),
}

/// The mathematical model of a `Value`.
pub enum Val {
    Int(i64),
    Str(Seq<u8>),
}

impl View for Value {
    type V = Val;

    open spec fn view(&self) -> Val {
        match self {
            Value::Int(n) => Val::Int(*n),
            Value::Str(s) => Val::Str(s@),
        }
    }
}

pub open spec fn vals(s: Seq<Value>) -> Seq<Val> {
    s.map_values(|v: Value| v@)
}

/// What went wrong when a run stopped.
#[derive(Clone, Copy, Debug, PartialEq, Eq, Structural)]
pub enum FaultKind {
    /// An instruction found fewer operands on the stack than it takes.
    StackUnderflow,
    /// An operator met a value of a type it does not take.
    TypeMismatch,
    DivisionByZero,
    /// An integer result does not fit in 64 bits.
    Overflow,
}

/// A fault, with the span of the instruction that raised it and the label
/// of the run.
#[derive(Clone, Debug, PartialEq, Eq)]
pub struct Fault {
    pub kind: FaultKind,
    pub span: Span,
    pub file: String,
}

/// The stack after one instruction, or the fault it raises.
pub open spec fn step(op: Op, st: Seq<Val>) -> Result<Seq<Val>, FaultKind> {
    match op {
        Op::PushConst(n) => Ok(st.push(Val::Int(n))),
        Op::PushStr(s) => Ok(st.push(Val::Str(s))),
        Op::Neg => {
            if st.len() < 1 {
                Err(FaultKind::StackUnderflow)
            } else {
                let rest = st.drop_last();
                match st.last() {
                    Val::Int(x) => if x == i64::MIN {
                        Err(FaultKind::Overflow)
                    } else {
                        Ok(rest.push(Val::Int((-x) as i64)))
                    },
                    Val::Str(_) => Err(FaultKind::TypeMismatch),
                }
            }
        },
        _ => {
            if st.len() < 2 {
                Err(FaultKind::StackUnderflow)
            } else {
                let rest = st.subrange(0, st.len() - 2);
                let a = st[st.len() - 2];
                let b = st[st.len() - 1];
                match (a, b) {
                    (Val::Int(x), Val::Int(y)) => {
                        let r = match op {
                            Op::Add => x.checked_add(y),
                            Op::Sub => x.checked_sub(y),
                            Op::Mul => x.checked_mul(y),
                            _ => x.checked_div(y),
                        };
                        if op is Div && y == 0 {
                            Err(FaultKind::DivisionByZero)
                        } else {
                            match r {
                                Some(z) => Ok(rest.push(Val::Int(z))),
                                None => Err(FaultKind::Overflow),
                            }
                        }
                    },
                    (Val::Str(x), Val::Str(y)) => if op is Add {
                        Ok(rest.push(Val::Str(x + y)))
                    } else {
                        Err(FaultKind::TypeMismatch)
                    },
                    _ => Err(FaultKind::TypeMismatch),
                }
            }
        },
    }
}

/// The outcome of running `p` from instruction `pc` on stack `st`.
pub open spec fn run_from(p: Seq<Instr>, pc: nat, st: Seq<Val>) -> Result<Seq<Val>, (FaultKind, Span)>
    decreases p.len() - pc,
{
    if pc >= p.len() {
        Ok(st)
    } else {
        match step(p[pc as int].op, st) {
            Err(k) => Err((k, p[pc as int].span)),
            Ok(next) => run_from(p, pc + 1, next),
        }
    }
}

/// The outcome of running `p` on an empty stack.
pub open spec fn run_program(p: Seq<Instr>) -> Result<Seq<Val>, (FaultKind, Span)> {
    run_from(p, 0, Seq::empty())
}

fn pop_value(st: &mut Vec<Value>) -> (r: Value)
    requires
        old(st)@.len() > 0,
    ensures
        final(st)@ == old(st)@.drop_last(),
        r == old(st)@.last(),
{
    match st.pop() {
        Some(v) => v,
        None => Value::Int(0),
    }
}

/// Applies one instruction to the stack.
fn apply(op: &ParserTokenKind, st: &mut Vec<Value>) -> (r: Result<(), FaultKind>)
    ensures
        match r {
            Ok(()) => step(op@, vals(old(st)@)) == Ok::<Seq<Val>, FaultKind>(vals(final(st)@)),
            Err(k) => step(op@, vals(old(st)@)) == Err::<Seq<Val>, FaultKind>(k),
        },
{
    let ghost s0 = st@;
    match op {
        ParserTokenKind::PushConst(n) => {
            st.push(Value::Int(*n));
            assert(vals(st@) =~= vals(s0).push(Val::Int(*n)));
            Ok(())
        },
        ParserTokenKind::PushStr(s) => {
            st.push(Value::Str(crate::token::copy_bytes(s)));
            assert(vals(st@) =~= vals(s0).push(Val::Str(s@)));
            Ok(())
        },
        ParserTokenKind::Neg => {
            if st.len() < 1 {
                return Err(FaultKind::StackUnderflow);
            }
            let v = pop_value(st);
            assert(vals(s0).drop_last() =~= vals(st@));
            match v {
                Value::Int(x) => {
                    if x == i64::MIN {
                        return Err(FaultKind::Overflow);
                    }
                    st.push(Value::Int(-x));
                    assert(vals(st@) =~= vals(s0).drop_last().push(Val::Int((-x) as i64)));
                    Ok(())
                },
                Value::Str(_) => Err(FaultKind::TypeMismatch),
            }
        },
        _ => {
            if st.len() < 2 {
                return Err(FaultKind::StackUnderflow);
            }
            let b = pop_value(st);
            let a = pop_value(st);
            let ghost rest = vals(s0).subrange(0, s0.len() - 2);
            assert(vals(st@) =~= rest);
            assert(vals(s0)[s0.len() - 2] == a@);
            assert(vals(s0)[s0.len() - 1] == b@);
            match (a, b) {
                (Value::Int(x), Value::Int(y)) => {
                    let r = match op {
                        ParserTokenKind::Add => x.checked_add(y),
                        ParserTokenKind::Sub => x.checked_sub(y),
                        ParserTokenKind::Mul => x.checked_mul(y),
                        _ => {
                            if y == 0 {
                                return Err(FaultKind::DivisionByZero);
                            }
                            x.checked_div(y)
                        },
                    };
                    match r {
                        Some(z) => {
                            st.push(Value::Int(z));
                            assert(vals(st@) =~= rest.push(Val::Int(z)));
                            Ok(())
                        },
                        None => Err(FaultKind::Overflow),
                    }
                },
                (Value::Str(x), Value::Str(y)) => {
                    match op {
                        ParserTokenKind::Add => {
                            let mut x = x;
                            let mut y = y;
                            let ghost xs = x@;
                            let ghost ys = y@;
                            x.append(&mut y);
                            st.push(Value::Str(x));
                            assert(vals(st@) =~= rest.push(Val::Str(xs + ys)));
                            Ok(())
                        },
                        _ => Err(FaultKind::TypeMismatch),
                    }
                },
                _ => Err(FaultKind::TypeMismatch),
            }
        },
    }
}

/// A program ready to run.
pub struct Run {
    pub program: Vec<ParserToken>,
}

impl Run {
    pub fn new(tokens: Vec<ParserToken>) -> (r: Run)
        ensures
            r.program@ == tokens@,
    {
        Run { program: tokens }
    }

    /// Runs the program: the values it leaves on the stack, or the fault that
    /// stopped it, labelled with `file` or the default label.
    pub fn run(self, file: Option<String>) -> (r: Result<Vec<Value>, Fault>)
        ensures
            r is Ok ==> run_program(instrs(self.program@)) == Ok::<Seq<Val>, (FaultKind, Span)>(
                vals(r->Ok_0@),
            ),
            r is Err ==> run_program(instrs(self.program@)) == Err::<Seq<Val>, (FaultKind, Span)>(
                (r->Err_0.kind, r->Err_0.span),
            ),
            r is Err ==> r->Err_0.file@ == label_of(file),
    {
        let p = self.program;
        let ghost q = instrs(p@);
        let mut st: Vec<Value> = Vec::new();
        let mut pc: usize = 0;
        assert(vals(st@) =~= Seq::<Val>::empty());
        while pc < p.len()
            invariant
                pc <= p@.len(),
                q == instrs(p@),
                q == instrs(self.program@),
                run_program(q) == run_from(q, pc as nat, vals(st@)),
            decreases p@.len() - pc,
        {
            let ghost before = vals(st@);
            assert(q[pc as int] == p@[pc as int]@);
            match apply(&p[pc].kind, &mut st) {
                Err(k) => {
                    assert(run_from(q, pc as nat, before) == Err::<Seq<Val>, (FaultKind, Span)>(
                        (k, p@[pc as int].span),
                    ));
                    let f = Fault { kind: k, span: p[pc].span, file: label_or_default(file) };
                    return Err(f);
                },
                Ok(()) => {},
            }
            pc += 1;
        }
        Ok(st)
    }
}

/// Programs with the same instructions, whatever their spans, run to the same
/// values or fault the same way; so running one program twice gives the same
/// outcome both times.
pub proof fn lemma_run_deterministic(p: Seq<Instr>, q: Seq<Instr>)
    requires
        p.len() == q.len(),
        forall|k: int| 0 <= k < p.len() ==> (#[trigger] p[k]).op == q[k].op,
    ensures
        run_program(p) is Ok <==> run_program(q) is Ok,
        run_program(p) is Ok ==> run_program(p) == run_program(q),
        run_program(p) is Err ==> run_program(p)->Err_0.0 == run_program(q)->Err_0.0,
{
    lemma_run_from_same_ops(p, q, 0, Seq::empty());
}

proof fn lemma_run_from_same_ops(p: Seq<Instr>, q: Seq<Instr>, pc: nat, st: Seq<Val>)
    requires
        p.len() == q.len(),
        forall|k: int| 0 <= k < p.len() ==> (#[trigger] p[k]).op == q[k].op,
    ensures
        run_from(p, pc, st) is Ok <==> run_from(q, pc, st) is Ok,
        run_from(p, pc, st) is Ok ==> run_from(p, pc, st) == run_from(q, pc, st),
        run_from(p, pc, st) is Err ==> run_from(p, pc, st)->Err_0.0 == run_from(q, pc, st)->Err_0.0,
    decreases p.len() - pc,
{
    if pc < p.len() {
        assert(p[pc as int].op == q[pc as int].op);
        match step(p[pc as int].op, st) {
            Ok(next) => lemma_run_from_same_ops(p, q, pc + 1, next),
            Err(_) => {},
        }
    }
}

} // verus!
