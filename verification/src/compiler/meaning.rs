use vstd::prelude::*;

use crate::opcode::{spec_op_byte, OpCode};
use crate::value::ValueModel;
use crate::vm::chunk::{spec_le_u16, Chunk};

verus! {

/// What straight-line code leaves in a register: a loaded value, or the
/// function with a given slot called on one or two such terms.
pub enum Term {
    Val(ValueModel),
    Call1(u16, Box<Term>),
    Call2(u16, Box<Term>, Box<Term>),
}

/// `a` is a prefix of `b`.
pub open spec fn prefix_of<T>(a: Seq<T>, b: Seq<T>) -> bool {
    &&& a.len() <= b.len()
    &&& forall|i: int| 0 <= i < a.len() ==> #[trigger] b[i] == a[i]
}

/// The effect of the instruction at `p` on the terms `env` of the registers:
/// where the next instruction starts and the new terms. Only loads and calls
/// of one or two arguments are followed.
pub open spec fn sym_step(code: Seq<u8>, consts: Seq<ValueModel>, p: int, env: Seq<Term>) -> Option<(int, Seq<Term>)> {
    if !(0 <= p < code.len()) || env.len() != 256 {
        None
    } else if code[p] == spec_op_byte(OpCode::LOADK) {
        if p + 4 <= code.len() && (spec_le_u16(code[p + 2], code[p + 3]) as int) < consts.len() {
            Some((p + 4, env.update(code[p + 1] as int, Term::Val(consts[spec_le_u16(code[p + 2], code[p + 3]) as int]))))
        } else {
            None
        }
    } else if code[p] == spec_op_byte(OpCode::LOADBOOL) {
        if p + 3 <= code.len() {
            Some((p + 3, env.update(code[p + 1] as int, Term::Val(ValueModel::Bool(code[p + 2] != 0)))))
        } else {
            None
        }
    } else if code[p] == spec_op_byte(OpCode::LOADNIL) {
        if p + 2 <= code.len() {
            Some((p + 2, env.update(code[p + 1] as int, Term::Val(ValueModel::Nil))))
        } else {
            None
        }
    } else if code[p] == spec_op_byte(OpCode::CALLK) {
        if p + 7 <= code.len() && code[p + 5] == 1 {
            Some((p + 7, env.update(code[p + 1] as int, Term::Call1(
                spec_le_u16(code[p + 2], code[p + 3]),
                Box::new(env[code[p + 6] as int]),
            ))))
        } else if p + 8 <= code.len() && code[p + 5] == 2 {
            Some((p + 8, env.update(code[p + 1] as int, Term::Call2(
                spec_le_u16(code[p + 2], code[p + 3]),
                Box::new(env[code[p + 6] as int]),
                Box::new(env[code[p + 7] as int]),
            ))))
        } else {
            None
        }
    } else {
        None
    }
}

/// The terms of the registers after the code from `p` to its end, run from
/// the terms `env`; `None` when it holds an instruction not followed.
pub open spec fn sym_run(code: Seq<u8>, consts: Seq<ValueModel>, p: int, env: Seq<Term>) -> Option<Seq<Term>>
    decreases code.len() - p,
{
    if p == code.len() {
        if env.len() == 256 { Some(env) } else { None }
    } else {
        match sym_step(code, consts, p, env) {
            Some((q, e)) => if p < q <= code.len() { sym_run(code, consts, q, e) } else { None },
            None => None,
        }
    }
}

/// A step reads only bytes before its end and constants it names, so it
/// is the same in longer code with more constants.
pub proof fn lemma_step_extend(
    a: Seq<u8>,
    b: Seq<u8>,
    c1: Seq<ValueModel>,
    c2: Seq<ValueModel>,
    p: int,
    env: Seq<Term>,
)
    requires
        prefix_of(a, b),
        prefix_of(c1, c2),
        sym_step(a, c1, p, env) is Some,
    ensures
        sym_step(b, c2, p, env) == sym_step(a, c1, p, env),
{
    assert(b[p] == a[p]);
    if a[p] == spec_op_byte(OpCode::LOADK) {
        assert(b[p + 1] == a[p + 1] && b[p + 2] == a[p + 2] && b[p + 3] == a[p + 3]);
        assert(c2[spec_le_u16(a[p + 2], a[p + 3]) as int] == c1[spec_le_u16(a[p + 2], a[p + 3]) as int]);
    } else if a[p] == spec_op_byte(OpCode::LOADBOOL) {
        assert(b[p + 1] == a[p + 1] && b[p + 2] == a[p + 2]);
    } else if a[p] == spec_op_byte(OpCode::LOADNIL) {
        assert(b[p + 1] == a[p + 1]);
    } else {
        assert(b[p + 1] == a[p + 1] && b[p + 2] == a[p + 2] && b[p + 3] == a[p + 3]);
        assert(b[p + 5] == a[p + 5] && b[p + 6] == a[p + 6]);
        if a[p + 5] == 2 {
            assert(b[p + 7] == a[p + 7]);
        }
    }
}

/// Running longer code from `p` first runs its prefix `a` to the end of `a`.
pub proof fn lemma_run_extend(
    a: Seq<u8>,
    b: Seq<u8>,
    c1: Seq<ValueModel>,
    c2: Seq<ValueModel>,
    p: int,
    env: Seq<Term>,
)
    requires
        prefix_of(a, b),
        prefix_of(c1, c2),
        sym_run(a, c1, p, env) is Some,
    ensures
        sym_run(b, c2, p, env) == sym_run(b, c2, a.len() as int, sym_run(a, c1, p, env)->Some_0),
    decreases a.len() - p,
{
    if p != a.len() {
        let (q, e) = sym_step(a, c1, p, env)->Some_0;
        lemma_step_extend(a, b, c1, c2, p, env);
        lemma_run_extend(a, b, c1, c2, q, e);
    }
}


/// One step that ends the code ends the run.
pub proof fn lemma_sym_one(code: Seq<u8>, consts: Seq<ValueModel>, p: int, env: Seq<Term>)
    requires
        sym_step(code, consts, p, env) is Some,
        sym_step(code, consts, p, env)->Some_0.0 == code.len(),
    ensures
        sym_run(code, consts, p, env) == Some(sym_step(code, consts, p, env)->Some_0.1),
        sym_step(code, consts, p, env)->Some_0.1.len() == 256,
{
    let (q, e) = sym_step(code, consts, p, env)->Some_0;
    assert(e.len() == 256);
    assert(sym_run(code, consts, q, e) == Some(e));
}

/// A run ends with the terms of all 256 registers.
pub proof fn lemma_sym_len(code: Seq<u8>, consts: Seq<ValueModel>, p: int, env: Seq<Term>)
    requires
        sym_run(code, consts, p, env) is Some,
    ensures
        sym_run(code, consts, p, env)->Some_0.len() == 256,
    decreases code.len() - p,
{
    if p != code.len() {
        let (q, e) = sym_step(code, consts, p, env)->Some_0;
        lemma_sym_len(code, consts, q, e);
    }
}

/// Being a prefix is transitive.
pub proof fn lemma_prefix_trans<T>(a: Seq<T>, b: Seq<T>, c: Seq<T>)
    requires
        prefix_of(a, b),
        prefix_of(b, c),
    ensures
        prefix_of(a, c),
{
    assert forall|i: int| 0 <= i < a.len() implies #[trigger] c[i] == a[i] by {
        assert(c[i] == b[i]);
    }
}


/// The code of `chunk` computes `t` into a register and then returns that
/// register: run from any terms of the registers, the code before the final
/// `RETURN r` leaves `t` in `r`.
pub open spec fn returns_term(chunk: Chunk, t: Term) -> bool {
    let code = chunk.code@;
    &&& code.len() >= 2
    &&& code[code.len() - 2] == spec_op_byte(OpCode::RETURN)
    &&& forall|env: Seq<Term>|
        env.len() == 256 ==> (#[trigger] sym_run(code.subrange(0, code.len() - 2), chunk.constants@, 0, env) matches Some(e)
            && e[code[code.len() - 1] as int] == t)
}


/// The code from `start` ends with `RETURN r`, and the code before it, run
/// from any terms of the registers, leaves `t` in `r`.
pub open spec fn code_returns(code: Seq<u8>, consts: Seq<ValueModel>, start: int, t: Term) -> bool {
    &&& code.len() >= start + 2
    &&& code[code.len() - 2] == spec_op_byte(OpCode::RETURN)
    &&& forall|env: Seq<Term>|
        env.len() == 256 ==> (#[trigger] sym_run(code.subrange(0, code.len() - 2), consts, start, env) matches Some(e)
            && e[code[code.len() - 1] as int] == t)
}

/// The code of `chunk` first computes `t` into a register and returns it:
/// a `RETURN r` at some `n`, the code before which, run from any terms of
/// the registers, leaves `t` in `r`.
pub open spec fn returns_first(chunk: Chunk, t: Term) -> bool {
    exists|n: int| 0 <= n && #[trigger] code_returns(chunk.code@.subrange(0, n + 2), chunk.constants@, 0, t) && n + 2 <= chunk.code@.len()
}

} // verus!
