use vstd::prelude::*;

use crate::compiler::register::{free_count, free_from, lemma_free_from_pos, lemma_free_from_same, lemma_free_from_update, live, RegisterModel, RegState};
use crate::constant::spec_find;
use crate::value::spec_value_eq;
use crate::compiler::meaning::{lemma_prefix_trans, lemma_run_extend, lemma_sym_len, lemma_sym_one, prefix_of, sym_run, sym_step, Term};
use crate::compiler::compile::{lemma_frees_keep_free, lemma_register_keeps, upvalue_reachable, CompileError, Compiler};
use crate::compiler::emit::{callk_code, const_slot, consts_after};
use crate::compiler::lexer::Token;
use crate::compiler::variables::spec_resolve_local;
use crate::opcode::{spec_op_byte, OpCode};
use crate::vm::chunk::{lemma_wide_roundtrip, spec_hi, spec_le_u16, spec_lo, Chunk};
use crate::vm::exec::{args_at, at_op, code_byte, field_values_at, reg_of, VM};
use crate::span::Span;
use crate::functions::FunctionRegistry;
use crate::functions::{FnEntry, FnKeyModel, FnLookupKey, FnTypeSig, LangItem};
use crate::text::{decimal, join, spec_decimal};
use crate::types::TypeId;
use crate::value::{Value, ValueModel};

verus! {

// ── Precedence levels (low → high) ──

pub const PREC_TERNARY: u8 = 10;
pub const PREC_OR: u8 = 20;
pub const PREC_AND: u8 = 30;
pub const PREC_EQUALITY: u8 = 40;
pub const PREC_COMPARISON: u8 = 50;
pub const PREC_TERM: u8 = 60;
pub const PREC_FACTOR: u8 = 70;
pub const PREC_UNARY: u8 = 80;
pub const PREC_CALL: u8 = 90;

#[derive(Clone, Copy, PartialEq, Eq, Structural)]
pub enum Assoc {
    Left,
    Right,
}

/// The binding power and associativity of an infix operator token.
pub open spec fn spec_infix(tok: Token) -> Option<(u8, Assoc)> {
    match tok {
        Token::Quest => Some((PREC_TERNARY, Assoc::Right)),
        Token::Or => Some((PREC_OR, Assoc::Left)),
        Token::And => Some((PREC_AND, Assoc::Left)),
        Token::Equal | Token::Neq => Some((PREC_EQUALITY, Assoc::Left)),
        Token::Lt | Token::Le | Token::Gt | Token::Ge => Some((PREC_COMPARISON, Assoc::Left)),
        Token::Plus | Token::Minus => Some((PREC_TERM, Assoc::Left)),
        Token::Star | Token::Slash | Token::Percent => Some((PREC_FACTOR, Assoc::Left)),
        Token::LParen => Some((PREC_CALL, Assoc::Left)),
        Token::Dot => Some((PREC_CALL, Assoc::Left)),
        _ => None,
    }
}

/// The operator a binary operator token calls.
pub open spec fn spec_binary_item(tok: Token) -> Option<LangItem> {
    match tok {
        Token::Plus => Some(LangItem::Add),
        Token::Minus => Some(LangItem::Sub),
        Token::Star => Some(LangItem::Mul),
        Token::Slash => Some(LangItem::Div),
        Token::Percent => Some(LangItem::Rem),
        Token::Equal => Some(LangItem::Eq),
        Token::Neq => Some(LangItem::Neq),
        Token::Lt => Some(LangItem::Lt),
        Token::Le => Some(LangItem::Le),
        Token::Gt => Some(LangItem::Gt),
        Token::Ge => Some(LangItem::Ge),
        _ => None,
    }
}

/// How the operator of lang item `item` is written.
pub open spec fn spec_item_symbol(item: LangItem) -> Seq<char> {
    match item {
        LangItem::Add => seq!['+'],
        LangItem::Sub => seq!['-'],
        LangItem::Mul => seq!['*'],
        LangItem::Div => seq!['/'],
        LangItem::Rem => seq!['%'],
        LangItem::Neg => seq!['-'],
        LangItem::Not => seq!['!'],
        LangItem::Eq => seq!['=', '='],
        LangItem::Neq => seq!['!', '='],
        LangItem::Lt => seq!['<'],
        LangItem::Gt => seq!['>'],
        LangItem::Le => seq!['<', '='],
        LangItem::Ge => seq!['>', '='],
    }
}

/// A binary operator token calls the lang item of the operator it is
/// written as, and no two operator tokens call the same lang item.
pub proof fn lemma_binary_item_is_its_operator(t: Token, u: Token)
    ensures
        spec_binary_item(t) matches Some(item) ==> t.spec_describe() == spec_item_symbol(item),
        spec_binary_item(t) is Some && spec_binary_item(t) == spec_binary_item(u) ==> t == u,
{
    reveal_strlit("+");
    reveal_strlit("-");
    reveal_strlit("*");
    reveal_strlit("/");
    reveal_strlit("%");
    reveal_strlit("==");
    reveal_strlit("!=");
    reveal_strlit("<");
    reveal_strlit("<=");
    reveal_strlit(">");
    reveal_strlit(">=");
}

/// The value a literal token stands for, with `names` the interned strings.
pub open spec fn lit_value(tok: Token, names: Seq<Seq<char>>) -> ValueModel {
    match tok {
        Token::Number(bits) => ValueModel::Number(bits),
        Token::String(sym) => ValueModel::Str(names[sym as int]),
        Token::BooleanLit(b) => ValueModel::Bool(b),
        _ => ValueModel::Nil,
    }
}

/// The binding power the right operand of an operator of power `bp` needs:
/// one more for a left-associative operator, so that an operator of the
/// same power ends the operand.
pub open spec fn spec_next_bp(bp: u8, assoc: Assoc) -> u8 {
    match assoc {
        Assoc::Left => (bp + 1) as u8,
        Assoc::Right => bp,
    }
}

/// An expression of literals, unary and binary operators and parentheses,
/// as parsed.
pub enum Expr {
    Lit(ValueModel),
    Un(LangItem, Box<Expr>),
    Bin(LangItem, Box<Expr>, Box<Expr>),
}

/// The slot of the function a language item calls: its first overload.
pub open spec fn item_slot(funcs: FunctionRegistry, item: LangItem) -> u16 {
    (funcs.overloads(FnKeyModel::LangItem(item))[0].1 % 0x10000) as u16
}

/// What code computing `e` leaves in a register: each operator becomes a
/// call of its function's slot in `funcs`.
pub open spec fn expr_term(e: Expr, funcs: FunctionRegistry) -> Term
    decreases e,
{
    match e {
        Expr::Lit(v) => Term::Val(v),
        Expr::Un(item, a) => Term::Call1(item_slot(funcs, item), Box::new(expr_term(*a, funcs))),
        Expr::Bin(item, a, b) => Term::Call2(item_slot(funcs, item), Box::new(expr_term(*a, funcs)), Box::new(expr_term(*b, funcs))),
    }
}

/// Every operator's language item has a function in `funcs`.
pub open spec fn ops_defined(funcs: FunctionRegistry) -> bool {
    &&& forall|t: Token| spec_binary_item(t) is Some ==> #[trigger] funcs.overloads(FnKeyModel::LangItem(spec_binary_item(t)->0)).len() > 0
    &&& funcs.overloads(FnKeyModel::LangItem(LangItem::Neg)).len() > 0
    &&& funcs.overloads(FnKeyModel::LangItem(LangItem::Not)).len() > 0
}

/// Parsing by binding power, after an operand `lhs`: each binary operator
/// from `p` on that binds at least as tightly as `min_bp` takes the operand
/// parsed at the power its associativity gives, and the tree built so far;
/// the result is the tree and where the expression ends. `None` when a
/// literal is missing or an operator binding that tightly is no binary
/// operator.
pub open spec fn chain_from(
    toks: Seq<(Token, Span)>,
    names: Seq<Seq<char>>,
    p: int,
    min_bp: u8,
    lhs: Expr,
) -> Option<(Expr, int)>
    decreases toks.len() - p, 0int,
{
    if !(0 <= p < toks.len()) {
        None
    } else {
        match spec_infix(toks[p].0) {
            None => Some((lhs, p)),
            Some((bp, assoc)) => if bp < min_bp {
                Some((lhs, p))
            } else if spec_binary_item(toks[p].0) is None {
                None
            } else {
                match operand_chain(toks, names, p + 1, spec_next_bp(bp, assoc)) {
                    Some((rhs, q)) => if p < q < toks.len() {
                        chain_from(toks, names, q, min_bp, Expr::Bin(spec_binary_item(toks[p].0)->0, Box::new(lhs), Box::new(rhs)))
                    } else {
                        None
                    },
                    None => None,
                }
            },
        }
    }
}

/// The tokens after the placeholder form an expression of literals and
/// binary operators, and there are few enough of them to give each a
/// register.
pub open spec fn chain_program(toks: Seq<(Token, Span)>, names: Seq<Seq<char>>) -> bool {
    &&& operand_chain(toks, names, 1, 0) is Some
    &&& toks.len() < 250
}

/// The tokens after the placeholder are `(` and an expression of literals
/// and operators that no `)` follows, few enough to give each a register.
pub open spec fn unclosed_program(toks: Seq<(Token, Span)>, names: Seq<Seq<char>>) -> bool {
    &&& toks.len() < 250
    &&& toks.len() > 1
    &&& toks[1].0 is LParen
    &&& operand_chain(toks, names, 2, 0) matches Some((e, q)) && q < toks.len() && !(toks[q].0 is RParen)
}

/// The operand at `p`: a literal; `-` or `!` applied to an operand and the
/// operators binding at least as tightly as unary ones; or an expression in
/// parentheses. The result is the tree and where the operand ends.
pub open spec fn prefix_operand(toks: Seq<(Token, Span)>, names: Seq<Seq<char>>, p: int) -> Option<(Expr, int)>
    decreases toks.len() - p, 1int,
{
    if !(0 <= p < toks.len()) {
        None
    } else if toks[p].0.spec_is_literal() {
        Some((Expr::Lit(lit_value(toks[p].0, names)), p + 1))
    } else if toks[p].0 is Minus || toks[p].0 is Bang {
        match operand_chain(toks, names, p + 1, PREC_UNARY) {
            Some((e, q)) => Some((Expr::Un(if toks[p].0 is Minus { LangItem::Neg } else { LangItem::Not }, Box::new(e)), q)),
            None => None,
        }
    } else if toks[p].0 is LParen {
        match operand_chain(toks, names, p + 1, 0) {
            Some((e, q)) => if 0 <= q < toks.len() && toks[q].0 is RParen { Some((e, q + 1)) } else { None },
            None => None,
        }
    } else {
        None
    }
}

/// An operand at `p` followed by the operators `chain_from` takes.
pub open spec fn operand_chain(
    toks: Seq<(Token, Span)>,
    names: Seq<Seq<char>>,
    p: int,
    min_bp: u8,
) -> Option<(Expr, int)>
    decreases toks.len() - p, 2int,
{
    match prefix_operand(toks, names, p) {
        Some((e, q)) => if p < q < toks.len() { chain_from(toks, names, q, min_bp, e) } else { None },
        None => None,
    }
}

/// The fields of a struct literal from `p` on: `name: e` pairs separated by
/// `,` and ended by `}`, each `e` an expression of literals, operators and
/// parentheses; the names with their trees, and where the literal ends
/// (after the `}`).
pub open spec fn struct_entries(toks: Seq<(Token, Span)>, names: Seq<Seq<char>>, p: int) -> Option<(Seq<(u32, Expr)>, int)>
    decreases toks.len() - p,
{
    if !(0 <= p && p + 2 < toks.len()) {
        None
    } else if toks[p].0 is Identifier && toks[p + 1].0 is Colon {
        match operand_chain(toks, names, p + 2, 0) {
            Some((e, q)) => if p + 2 < q < toks.len() {
                if toks[q].0 is RBrace {
                    Some((seq![(toks[p].0->Identifier_0, e)], q + 1))
                } else if toks[q].0 is Comma {
                    match struct_entries(toks, names, q + 1) {
                        Some((rest, end)) => Some((seq![(toks[p].0->Identifier_0, e)] + rest, end)),
                        None => None,
                    }
                } else {
                    None
                }
            } else {
                None
            },
            None => None,
        }
    } else {
        None
    }
}

/// The tree given for field `name` among `es`: that of the first entry
/// with that name.
pub open spec fn entry_value(es: Seq<(u32, Expr)>, name: u32) -> Expr
    decreases es.len(),
{
    if es.len() == 0 {
        Expr::Lit(ValueModel::Nil)
    } else if es[0].0 == name {
        es[0].1
    } else {
        entry_value(es.drop_first(), name)
    }
}

/// Field name `n` is given a value among `es`.
pub open spec fn named(es: Seq<(u32, Expr)>, n: u32) -> bool {
    exists|a: int| 0 <= a < es.len() && #[trigger] es[a].0 == n
}

/// The declared names are distinct.
pub open spec fn fields_distinct(fields: Seq<(u32, TypeId)>) -> bool {
    forall|i: int, j: int| 0 <= i < j < fields.len() ==> #[trigger] fields[i].0 != #[trigger] fields[j].0
}

/// `n` is the name of a declared field.
pub open spec fn declared(fields: Seq<(u32, TypeId)>, n: u32) -> bool {
    exists|k: int| 0 <= k < fields.len() && #[trigger] fields[k].0 == n
}

/// Entry `j` names a declared field that no earlier entry named.
pub open spec fn entry_ok(es: Seq<(u32, Expr)>, fields: Seq<(u32, TypeId)>, j: int) -> bool {
    &&& declared(fields, es[j].0)
    &&& forall|a: int| 0 <= a < j ==> #[trigger] es[a].0 != es[j].0
}

/// Each of the first `n` entries names a declared field not named before.
pub open spec fn ok_prefix(es: Seq<(u32, Expr)>, fields: Seq<(u32, TypeId)>, n: int) -> bool {
    forall|j: int| 0 <= j < n ==> #[trigger] entry_ok(es, fields, j)
}

/// Every declared field is given a value.
pub open spec fn all_named(es: Seq<(u32, Expr)>, fields: Seq<(u32, TypeId)>) -> bool {
    forall|k: int| 0 <= k < fields.len() ==> #[trigger] named(es, fields[k].0)
}

/// With distinct names, the value given for the name of entry `j` is that
/// entry's.
pub proof fn lemma_entry_value_at(es: Seq<(u32, Expr)>, j: int)
    requires
        0 <= j < es.len(),
        forall|a: int| 0 <= a < j ==> #[trigger] es[a].0 != es[j].0,
    ensures
        entry_value(es, es[j].0) == es[j].1,
    decreases j,
{
    if j > 0 {
        assert(es[0].0 != es[j].0);
        let t = es.drop_first();
        assert forall|a: int| 0 <= a < j - 1 implies #[trigger] t[a].0 != t[j - 1].0 by {
            assert(t[a] == es[a + 1] && t[j - 1] == es[j]);
        }
        lemma_entry_value_at(t, j - 1);
        assert(t[j - 1] == es[j]);
    }
}

/// A struct literal ends after its start, at most at the end of the tokens.
pub proof fn lemma_entries_bounds(toks: Seq<(Token, Span)>, names: Seq<Seq<char>>, p: int)
    requires
        struct_entries(toks, names, p) is Some,
    ensures
        p + 3 < struct_entries(toks, names, p)->Some_0.1 <= toks.len(),
        struct_entries(toks, names, p)->Some_0.0.len() >= 1,
    decreases toks.len() - p,
{
    let (e, q) = operand_chain(toks, names, p + 2, 0)->Some_0;
    if toks[q].0 is Comma {
        lemma_entries_bounds(toks, names, q + 1);
    }
}

/// The arguments from `p` on: expressions of literals, operators and
/// parentheses separated by `,` and ended by `)`; their trees, in source
/// order, and where the list ends (after the `)`).
pub open spec fn arg_exprs(toks: Seq<(Token, Span)>, names: Seq<Seq<char>>, p: int) -> Option<(Seq<Expr>, int)>
    decreases toks.len() - p,
{
    if !(0 <= p < toks.len()) {
        None
    } else {
        match operand_chain(toks, names, p, 0) {
            Some((e, q)) => if p < q < toks.len() {
                if toks[q].0 is RParen {
                    Some((seq![e], q + 1))
                } else if toks[q].0 is Comma {
                    match arg_exprs(toks, names, q + 1) {
                        Some((rest, end)) => Some((seq![e] + rest, end)),
                        None => None,
                    }
                } else {
                    None
                }
            } else {
                None
            },
            None => None,
        }
    }
}

/// An argument list ends after its start, at most at the end of the tokens,
/// and spends at least two tokens on each argument.
pub proof fn lemma_args_bounds(toks: Seq<(Token, Span)>, names: Seq<Seq<char>>, p: int)
    requires
        arg_exprs(toks, names, p) is Some,
    ensures
        p + 2 * arg_exprs(toks, names, p)->Some_0.0.len() <= arg_exprs(toks, names, p)->Some_0.1 <= toks.len(),
        arg_exprs(toks, names, p)->Some_0.0.len() >= 1,
    decreases toks.len() - p,
{
    let (e, q) = operand_chain(toks, names, p, 0)->Some_0;
    if toks[q].0 is Comma {
        lemma_args_bounds(toks, names, q + 1);
    }
}

/// One argument: an expression not starting with `)`, then either the
/// closing `)` after the last argument or `,` and the other arguments.
pub proof fn lemma_args_step(toks: Seq<(Token, Span)>, names: Seq<Seq<char>>, p: int, es: Seq<Expr>, j: int, q: int)
    requires
        0 <= j < es.len(),
        arg_exprs(toks, names, p) == Some((es.subrange(j, es.len() as int), q)),
    ensures
        0 <= p,
        !(toks[p].0 is RParen),
        operand_chain(toks, names, p, 0) is Some,
        operand_chain(toks, names, p, 0)->Some_0.0 == es[j],
        p < operand_chain(toks, names, p, 0)->Some_0.1 < q,
        q <= toks.len(),
        q >= p + 2 * (es.len() - j),
        ({
            let q1 = operand_chain(toks, names, p, 0)->Some_0.1;
            ||| toks[q1].0 is RParen && j + 1 == es.len() && q == q1 + 1
            ||| toks[q1].0 is Comma && j + 1 < es.len() && q1 + 3 <= q && arg_exprs(toks, names, q1 + 1) == Some(
                (es.subrange(j + 1, es.len() as int), q),
            )
        }),
{
    lemma_args_bounds(toks, names, p);
    let (e, q1) = operand_chain(toks, names, p, 0)->Some_0;
    assert(prefix_operand(toks, names, p) is Some);
    let tail = es.subrange(j, es.len() as int);
    assert(tail[0] == es[j]);
    if toks[q1].0 is Comma {
        let (rest, end) = arg_exprs(toks, names, q1 + 1)->Some_0;
        lemma_args_bounds(toks, names, q1 + 1);
        assert(tail == seq![e] + rest);
        assert(rest =~= es.subrange(j + 1, es.len() as int)) by {
            assert forall|i: int| 0 <= i < rest.len() implies rest[i] == es.subrange(j + 1, es.len() as int)[i] by {
                assert(tail[i + 1] == rest[i]);
            }
        }
    } else {
        assert(tail == seq![e]);
    }
}

/// The terms the trees of `es` stand for.
pub open spec fn arg_terms(es: Seq<Expr>, funcs: FunctionRegistry) -> Seq<Term> {
    Seq::new(es.len(), |k: int| expr_term(es[k], funcs))
}

/// Compiling one more argument keeps the registers of the earlier ones and
/// puts the argument's term in its own.
pub(crate) proof fn lemma_arg_step(start: Compiler, s: Compiler, a: Compiler, regs: Seq<u8>, terms: Seq<Term>, val_reg: u8)
    requires
        Compiler::args_computed(start, s, regs, terms),
        Compiler::computes(s, a, val_reg, terms[regs.len() as int]),
        prefix_of(s.code(), a.code()),
        prefix_of(s.cur_chunk().constants@, a.cur_chunk().constants@),
        forall|k: int| 0 <= k < regs.len() ==> live(s.regs(), #[trigger] regs[k] as int),
        forall|x: int| live(start.regs(), x) ==> live(s.regs(), x),
    ensures
        Compiler::args_computed(start, a, regs.push(val_reg), terms),
{
    let s0 = start.code().len() as int;
    let cs = s.cur_chunk().constants@;
    let ca = a.cur_chunk().constants@;
    let nr = regs.push(val_reg);
    assert forall|env: Seq<Term>| env.len() == 256 implies (#[trigger] sym_run(a.code(), ca, s0, env) matches Some(e) && e.len() == 256
        && (forall|k: int| 0 <= k < nr.len() ==> e[nr[k] as int] == terms[k])
        && forall|x: int| 0 <= x < 256 && live(start.regs(), x) ==> e[x] == env[x]) by {
        assert(sym_run(s.code(), cs, s0, env) is Some);
        let e1 = sym_run(s.code(), cs, s0, env)->Some_0;
        lemma_run_extend(s.code(), a.code(), cs, ca, s0, env);
        assert(sym_run(a.code(), ca, s.code().len() as int, e1) is Some);
        let e2 = sym_run(a.code(), ca, s.code().len() as int, e1)->Some_0;
        assert forall|k: int| 0 <= k < nr.len() implies e2[nr[k] as int] == terms[k] by {
            if k < regs.len() {
                assert(nr[k] == regs[k]);
                assert(live(s.regs(), regs[k] as int));
            }
        }
        assert forall|x: int| 0 <= x < 256 && live(start.regs(), x) implies e2[x] == env[x] by {
            assert(live(s.regs(), x));
        }
    }
}

/// When the VM reaches a `CALL` laid out as the compiler emits it, with the
/// argument registers `regs` after its header, it passes `regs.len()`
/// arguments and argument `k` is the value of register `regs[k]`: the
/// callee's parameters take the listed registers in their order.
pub proof fn lemma_call_passes_listed_registers(vm: VM, chunks: Seq<Chunk>, x: Seq<u8>, dst: u8, callee: u8, wm: u8, regs: Seq<u8>)
    requires
        0 <= vm.cur_chunk() < chunks.len(),
        Compiler::call_emitted(x, chunks[vm.cur_chunk()].code@, dst, callee, wm, regs),
        vm.cur_ip() == x.len(),
        regs.len() < 256,
    ensures
        at_op(vm, chunks, OpCode::CALL),
        code_byte(vm, chunks, 2) == callee,
        code_byte(vm, chunks, 4) == regs.len(),
        args_at(vm, chunks, 5, regs.len() as int).len() == regs.len(),
        forall|k: int| 0 <= k < regs.len() ==> #[trigger] args_at(vm, chunks, 5, regs.len() as int)[k] == reg_of(vm, regs[k]),
{
    let code = chunks[vm.cur_chunk()].code@;
    let h = seq![spec_op_byte(OpCode::CALL), dst, callee, wm, (regs.len() % 256) as u8];
    assert(code == x + h + regs);
    assert(code[x.len() as int] == h[0]);
    assert(code[x.len() + 2int] == h[2]);
    assert(code[x.len() + 4int] == h[4]);
    assert forall|k: int| 0 <= k < regs.len() implies #[trigger] args_at(vm, chunks, 5, regs.len() as int)[k] == reg_of(vm, regs[k]) by {
        assert(code[x.len() + 5 + k] == regs[k]);
    }
}

/// When the VM reaches a `NEWSTRUCT` laid out as the compiler emits it for
/// the field registers `regs`, the new instance's field `k` takes the value
/// of register `regs[k]`.
pub proof fn lemma_newstruct_takes_listed_registers(vm: VM, chunks: Seq<Chunk>, x: Seq<u8>, dst: u8, def_id: u16, regs: Seq<u8>)
    requires
        0 <= vm.cur_chunk() < chunks.len(),
        Compiler::newstruct_emitted(x, chunks[vm.cur_chunk()].code@, dst, def_id, regs, regs.len() as int),
        vm.cur_ip() == x.len(),
        regs.len() < 256,
    ensures
        at_op(vm, chunks, OpCode::NEWSTRUCT),
        code_byte(vm, chunks, 4) == regs.len(),
        field_values_at(vm, chunks, 5, regs.len() as int).len() == regs.len(),
        forall|k: int| 0 <= k < regs.len() ==> #[trigger] field_values_at(vm, chunks, 5, regs.len() as int)[k] == reg_of(vm, regs[k]),
{
    let code = chunks[vm.cur_chunk()].code@;
    let h = x + seq![spec_op_byte(OpCode::NEWSTRUCT), dst, spec_lo(def_id), spec_hi(def_id), (regs.len() % 256) as u8];
    assert(code.subrange(0, x.len() + 5int) == h);
    assert(code[x.len() as int] == code.subrange(0, x.len() + 5int)[x.len() as int]);
    assert(code[x.len() + 4int] == code.subrange(0, x.len() + 5int)[x.len() + 4int]);
    assert forall|k: int| 0 <= k < regs.len() implies #[trigger] field_values_at(vm, chunks, 5, regs.len() as int)[k] == reg_of(vm, regs[k]) by {
        assert(code[x.len() + 5 + 3 * k + 2] == regs[k]);
    }
}

/// One field of a struct literal: its name, `:` and its value, then either
/// the closing `}` after the last field or `,` and the other fields.
pub proof fn lemma_entries_step(toks: Seq<(Token, Span)>, names: Seq<Seq<char>>, p: int, es: Seq<(u32, Expr)>, j: int, q: int)
    requires
        0 <= j < es.len(),
        struct_entries(toks, names, p) == Some((es.subrange(j, es.len() as int), q)),
    ensures
        0 <= p,
        toks[p].0 == Token::Identifier(es[j].0),
        toks[p + 1].0 is Colon,
        operand_chain(toks, names, p + 2, 0) is Some,
        operand_chain(toks, names, p + 2, 0)->Some_0.0 == es[j].1,
        p + 2 < operand_chain(toks, names, p + 2, 0)->Some_0.1 < q,
        q <= toks.len(),
        ({
            let q1 = operand_chain(toks, names, p + 2, 0)->Some_0.1;
            ||| toks[q1].0 is RBrace && j + 1 == es.len() && q == q1 + 1
            ||| toks[q1].0 is Comma && j + 1 < es.len() && q1 + 4 < q && struct_entries(toks, names, q1 + 1) == Some(
                (es.subrange(j + 1, es.len() as int), q),
            )
        }),
{
    lemma_entries_bounds(toks, names, p);
    let (e, q1) = operand_chain(toks, names, p + 2, 0)->Some_0;
    let tail = es.subrange(j, es.len() as int);
    assert(tail[0] == es[j]);
    if toks[q1].0 is Comma {
        let (rest, end) = struct_entries(toks, names, q1 + 1)->Some_0;
        lemma_entries_bounds(toks, names, q1 + 1);
        assert(tail == seq![(toks[p].0->Identifier_0, e)] + rest);
        assert(rest =~= es.subrange(j + 1, es.len() as int)) by {
            assert forall|i: int| 0 <= i < rest.len() implies rest[i] == es.subrange(j + 1, es.len() as int)[i] by {
                assert(tail[i + 1] == rest[i]);
            }
        }
    } else {
        assert(tail == seq![(toks[p].0->Identifier_0, e)]);
    }
}

/// Compiling one more field's value keeps the others' registers and puts
/// the value's term in its own.
pub(crate) proof fn lemma_field_step(
    start: Compiler,
    s: Compiler,
    b: Compiler,
    a: Compiler,
    regs: Seq<u8>,
    seen: Seq<bool>,
    terms: Seq<Term>,
    idx: int,
    val_reg: u8,
)
    requires
        Compiler::fields_computed(start, s, regs, seen, terms),
        b.code() == s.code(),
        b.cur_chunk().constants == s.cur_chunk().constants,
        b.regs() == s.regs(),
        Compiler::computes(b, a, val_reg, terms[idx]),
        prefix_of(s.code(), a.code()),
        prefix_of(s.cur_chunk().constants@, a.cur_chunk().constants@),
        forall|k: int| 0 <= k < regs.len() && seen[k] ==> live(s.regs(), #[trigger] regs[k] as int),
        forall|x: int| live(start.regs(), x) ==> live(s.regs(), x),
        0 <= idx < regs.len(),
        regs.len() == seen.len(),
    ensures
        Compiler::fields_computed(start, a, regs.update(idx, val_reg), seen.update(idx, true), terms),
{
    let s0 = start.code().len() as int;
    let cs = s.cur_chunk().constants@;
    let ca = a.cur_chunk().constants@;
    assert forall|env: Seq<Term>| env.len() == 256 implies (#[trigger] sym_run(a.code(), ca, s0, env) matches Some(e) && e.len() == 256
        && (forall|k: int| 0 <= k < regs.len() && seen.update(idx, true)[k] ==> e[regs.update(idx, val_reg)[k] as int] == terms[k])
        && forall|x: int| 0 <= x < 256 && live(start.regs(), x) ==> e[x] == env[x]) by {
        assert(sym_run(s.code(), cs, s0, env) is Some);
        let e1 = sym_run(s.code(), cs, s0, env)->Some_0;
        lemma_run_extend(s.code(), a.code(), cs, ca, s0, env);
        assert(sym_run(a.code(), ca, b.code().len() as int, e1) is Some);
        let e2 = sym_run(a.code(), ca, b.code().len() as int, e1)->Some_0;
        assert forall|k: int| 0 <= k < regs.len() && seen.update(idx, true)[k] implies e2[regs.update(idx, val_reg)[k] as int] == terms[k] by {
            if k != idx {
                assert(live(s.regs(), regs[k] as int));
                assert(live(b.regs(), regs[k] as int));
            }
        }
        assert forall|x: int| 0 <= x < 256 && live(start.regs(), x) implies e2[x] == env[x] by {
            assert(live(b.regs(), x));
        }
    }
}

/// The slot of a constant for a number or a string holds that value, when
/// the table is not full.
pub(crate) proof fn lemma_const_slot(c: Seq<ValueModel>, v: ValueModel)
    requires
        c.len() < 0x10000,
        v is Number || v is Str,
    ensures
        (const_slot(c, v) as int) < consts_after(c, v).len(),
        consts_after(c, v)[const_slot(c, v) as int] == v,
        prefix_of(c, consts_after(c, v)),
        consts_after(c, v).len() <= c.len() + 1,
{
    match spec_find(c, v) {
        Some(i) => {
            assert(0 <= i < c.len() && spec_value_eq(c[i], v));
            assert(i % 0x10000 == i);
        },
        None => {
            assert(c.len() % 0x10000 == c.len());
        },
    }
}

/// Freeing the other argument `rhs` of a call whose result goes to `lhs`.
pub(crate) proof fn lemma_free_rhs(before: RegisterModel, after: RegisterModel, lhs: u8, rhs: u8)
    requires
        Compiler::frees_other_temps(before, after, lhs, seq![lhs, rhs], 2),
        before.held_pt <= rhs < before.state.len(),
        before.state[rhs as int] == RegState::Temp,
        lhs != rhs,
    ensures
        after.state == before.state.update(rhs as int, RegState::Free),
        free_count(after) == free_count(before) + 1,
{
    assert forall|k: int| 0 <= k < before.state.len() implies #[trigger] after.state[k] == before.state.update(
        rhs as int,
        RegState::Free,
    )[k] by {
        if k == rhs as int {
            assert(seq![lhs, rhs][1] as int == k);
        } else {
            if before.state[k] == RegState::Temp && k != lhs as int {
                assert(!(exists|j: int| 0 <= j < 2 && seq![lhs, rhs][j] as int == k));
            }
        }
    }
    assert(after.state =~= before.state.update(rhs as int, RegState::Free));
    lemma_free_from_update(before.state, before.held_pt as int, rhs as int, RegState::Free);
}

/// Loading a literal into a fresh register computes its value there.
pub(crate) proof fn lemma_literal_load(before: Compiler, after: Compiler, reg: u8)
    requires
        before.cur_tok().spec_is_literal(),
        before.cur_chunk().constants@.len() < 0x10000,
        live(after.regs(), reg as int),
        forall|x: int| live(before.regs(), x) ==> reg as int != x,
        (before.cur_tok() is Number || before.cur_tok() is String) ==> {
            let v = lit_value(before.cur_tok(), before.interner@);
            let k = const_slot(before.cur_chunk().constants@, v);
            &&& after.cur_chunk().constants@ == consts_after(before.cur_chunk().constants@, v)
            &&& after.code() == before.code() + seq![spec_op_byte(OpCode::LOADK), reg] + seq![spec_lo(k), spec_hi(k)]
        },
        before.cur_tok() is BooleanLit ==> after.cur_chunk().constants == before.cur_chunk().constants && after.code()
            == before.code() + seq![spec_op_byte(OpCode::LOADBOOL), reg] + seq![
            if before.cur_tok()->BooleanLit_0 { 1u8 } else { 0u8 },
        ],
        before.cur_tok() is Nil ==> after.cur_chunk().constants == before.cur_chunk().constants && after.code()
            == before.code() + seq![spec_op_byte(OpCode::LOADNIL), reg] + Seq::<u8>::empty(),
    ensures
        Compiler::computes(before, after, reg, Term::Val(lit_value(before.cur_tok(), before.interner@))),
        prefix_of(before.code(), after.code()),
        prefix_of(before.cur_chunk().constants@, after.cur_chunk().constants@),
        after.cur_chunk().constants@.len() <= before.cur_chunk().constants@.len() + 1,
{
    let tok = before.cur_tok();
    let v = lit_value(tok, before.interner@);
    let c = after.cur_chunk().constants@;
    let code = after.code();
    let p = before.code().len() as int;
    if tok is Number || tok is String {
        lemma_const_slot(before.cur_chunk().constants@, v);
        lemma_wide_roundtrip(const_slot(before.cur_chunk().constants@, v));
    }
    assert forall|env: Seq<Term>| env.len() == 256 implies (#[trigger] sym_run(code, c, p, env) matches Some(e) && e.len() == 256
        && e[reg as int] == Term::Val(v) && forall|x: int| 0 <= x < 256 && live(before.regs(), x) ==> e[x] == env[x]) by {
        assert(code[p] == code[p]);
        assert(code[p + 1] == reg);
        if tok is Number || tok is String {
            let k = const_slot(before.cur_chunk().constants@, v);
            assert(code[p] == spec_op_byte(OpCode::LOADK) && code[p + 2] == spec_lo(k) && code[p + 3] == spec_hi(k));
            assert(sym_step(code, c, p, env) == Some((code.len() as int, env.update(reg as int, Term::Val(v)))));
        } else if tok is BooleanLit {
            assert(code[p] == spec_op_byte(OpCode::LOADBOOL) && code[p + 2] == (if tok->BooleanLit_0 { 1u8 } else { 0u8 }));
            assert(sym_step(code, c, p, env) == Some((code.len() as int, env.update(reg as int, Term::Val(v)))));
        } else {
            assert(code[p] == spec_op_byte(OpCode::LOADNIL));
            assert(sym_step(code, c, p, env) == Some((code.len() as int, env.update(reg as int, Term::Val(v)))));
        }
        lemma_sym_one(code, c, p, env);
    }
    if tok is Number || tok is String {
    } else {
        assert(prefix_of(before.cur_chunk().constants@, c));
    }
}

/// Calling the operator's function on a register computed before the right
/// operand and on the right operand's register computes the call there.
pub(crate) proof fn lemma_binary_computes(
    start: Compiler,
    mid: Compiler,
    before: Compiler,
    after: Compiler,
    lhs: u8,
    rhs: u8,
    cur: Term,
    rt: Term,
    slot: usize,
    wm: u8,
)
    requires
        Compiler::computes(start, mid, lhs, cur),
        Compiler::computes(mid, before, rhs, rt),
        prefix_of(mid.code(), before.code()),
        prefix_of(mid.cur_chunk().constants@, before.cur_chunk().constants@),
        live(mid.regs(), lhs as int),
        forall|x: int| live(start.regs(), x) ==> live(mid.regs(), x) && x != lhs as int,
        after.code() == before.code() + callk_code(lhs, slot, wm, seq![lhs, rhs]),
        after.cur_chunk().constants == before.cur_chunk().constants,
    ensures
        Compiler::computes(start, after, lhs, Term::Call2((slot % 0x10000) as u16, Box::new(cur), Box::new(rt))),
        prefix_of(before.code(), after.code()),
{
    let m = mid.code();
    let b = before.code();
    let f = after.code();
    let cm = mid.cur_chunk().constants@;
    let cb = before.cur_chunk().constants@;
    let s0 = start.code().len() as int;
    let t = Term::Call2((slot % 0x10000) as u16, Box::new(cur), Box::new(rt));
    assert forall|i: int| 0 <= i < b.len() implies #[trigger] f[i] == b[i] by {}
    assert(prefix_of(b, f));
    lemma_prefix_trans(m, b, f);
    assert(prefix_of(cb, cb));
    lemma_wide_roundtrip((slot % 0x10000) as u16);
    assert forall|env: Seq<Term>| env.len() == 256 implies (#[trigger] sym_run(f, cb, s0, env) matches Some(e) && e.len() == 256
        && e[lhs as int] == t && forall|x: int| 0 <= x < 256 && live(start.regs(), x) ==> e[x] == env[x]) by {
        assert(sym_run(m, cm, s0, env) is Some);
        let e1 = sym_run(m, cm, s0, env)->Some_0;
        lemma_run_extend(m, f, cm, cb, s0, env);
        assert(sym_run(b, cb, m.len() as int, e1) is Some);
        let e2 = sym_run(b, cb, m.len() as int, e1)->Some_0;
        lemma_run_extend(b, f, cb, cb, m.len() as int, e1);
        let p = b.len() as int;
        assert(f[p] == spec_op_byte(OpCode::CALLK) && f[p + 1] == lhs && f[p + 5] == 2 && f[p + 6] == lhs && f[p + 7] == rhs);
        assert(f[p + 2] == spec_lo((slot % 0x10000) as u16) && f[p + 3] == spec_hi((slot % 0x10000) as u16));
        assert(e2[lhs as int] == e1[lhs as int]);
        assert(sym_step(f, cb, p, e2) == Some((f.len() as int, e2.update(lhs as int, t))));
        lemma_sym_one(f, cb, p, e2);
        assert forall|x: int| 0 <= x < 256 && live(start.regs(), x) implies sym_run(f, cb, s0, env)->Some_0[x] == env[x] by {
            assert(live(mid.regs(), x));
            assert(e2[x] == e1[x]);
        }
    }
}

/// Calling a one-argument function on a register computed before computes
/// the call there.
pub(crate) proof fn lemma_unary_computes(start: Compiler, before: Compiler, after: Compiler, reg: u8, t: Term, slot: usize, wm: u8)
    requires
        Compiler::computes(start, before, reg, t),
        !live(start.regs(), reg as int),
        after.code() == before.code() + callk_code(reg, slot, wm, seq![reg]),
        after.cur_chunk().constants == before.cur_chunk().constants,
    ensures
        Compiler::computes(start, after, reg, Term::Call1((slot % 0x10000) as u16, Box::new(t))),
        prefix_of(before.code(), after.code()),
{
    let b = before.code();
    let f = after.code();
    let cb = before.cur_chunk().constants@;
    let s0 = start.code().len() as int;
    let u = Term::Call1((slot % 0x10000) as u16, Box::new(t));
    assert forall|i: int| 0 <= i < b.len() implies #[trigger] f[i] == b[i] by {}
    assert(prefix_of(b, f));
    assert(prefix_of(cb, cb));
    lemma_wide_roundtrip((slot % 0x10000) as u16);
    assert forall|env: Seq<Term>| env.len() == 256 implies (#[trigger] sym_run(f, cb, s0, env) matches Some(e) && e.len() == 256
        && e[reg as int] == u && forall|x: int| 0 <= x < 256 && live(start.regs(), x) ==> e[x] == env[x]) by {
        assert(sym_run(b, cb, s0, env) is Some);
        let e1 = sym_run(b, cb, s0, env)->Some_0;
        lemma_run_extend(b, f, cb, cb, s0, env);
        let p = b.len() as int;
        assert(f[p] == spec_op_byte(OpCode::CALLK) && f[p + 1] == reg && f[p + 5] == 1 && f[p + 6] == reg);
        assert(f[p + 2] == spec_lo((slot % 0x10000) as u16) && f[p + 3] == spec_hi((slot % 0x10000) as u16));
        assert(sym_step(f, cb, p, e1) == Some((f.len() as int, e1.update(reg as int, u))));
        lemma_sym_one(f, cb, p, e1);
    }
}

/// Loading the literal operand at the cursor into a fresh register.
pub(crate) proof fn lemma_literal_done(before: Compiler, after: Compiler, r: Result<u8, CompileError>)
    requires
        before.operand_ready(None),
        before.cur_tok().spec_is_literal(),
        after.cursor == before.cursor + 1,
        Compiler::allocs_temp(before, after, r),
        r matches Ok(reg) ==> ((before.cur_tok() is Number || before.cur_tok() is String) ==> {
            let v = lit_value(before.cur_tok(), before.interner@);
            let k = const_slot(before.cur_chunk().constants@, v);
            &&& after.cur_chunk().constants@ == consts_after(before.cur_chunk().constants@, v)
            &&& after.code() == before.code() + seq![spec_op_byte(OpCode::LOADK), reg] + seq![spec_lo(k), spec_hi(k)]
        }),
        r matches Ok(reg) ==> (before.cur_tok() is BooleanLit ==> after.cur_chunk().constants == before.cur_chunk().constants
            && after.code() == before.code() + seq![spec_op_byte(OpCode::LOADBOOL), reg] + seq![
            if before.cur_tok()->BooleanLit_0 { 1u8 } else { 0u8 },
        ]),
        r matches Ok(reg) ==> (before.cur_tok() is Nil ==> after.cur_chunk().constants == before.cur_chunk().constants
            && after.code() == before.code() + seq![spec_op_byte(OpCode::LOADNIL), reg] + Seq::<u8>::empty()),
        after.frames@.last().chunk_idx == before.frames@.last().chunk_idx,
        after.funcs == before.funcs,
        after.interner@ == before.interner@,
    ensures
        Compiler::operand_done(before, after, r),
{
    reveal(Compiler::operand_ready);
    reveal(Compiler::operand_done);
    lemma_free_from_pos(before.regs().state, before.regs().held_pt as int);
    assert(before.has_free_temp());
    let reg = r->Ok_0;
    lemma_literal_load(before, after, reg);
    lemma_free_from_update(before.regs().state, before.regs().held_pt as int, reg as int, RegState::Temp);
}

/// What code computes depends only on the code, the constants and the
/// registers.
pub(crate) proof fn lemma_computes_congr(b1: Compiler, a1: Compiler, b2: Compiler, a2: Compiler, reg: u8, t: Term)
    requires
        Compiler::computes(b1, a1, reg, t),
        b1.code() == b2.code(),
        b1.regs() == b2.regs(),
        a1.code() == a2.code(),
        a1.cur_chunk().constants == a2.cur_chunk().constants,
    ensures
        Compiler::computes(b2, a2, reg, t),
{
    assert forall|env: Seq<Term>| env.len() == 256 implies (#[trigger] sym_run(a2.code(), a2.cur_chunk().constants@, b2.code().len() as int, env)
        matches Some(e) && e.len() == 256 && e[reg as int] == t && forall|x: int| 0 <= x < 256 && live(b2.regs(), x) ==> e[x] == env[x]) by {
        assert(sym_run(a1.code(), a1.cur_chunk().constants@, b1.code().len() as int, env) is Some);
    }
}

/// `-` or `!` applied to the operand after it, compiled into the operand's
/// register.
pub(crate) proof fn lemma_unary_done(
    before: Compiler,
    mid: Compiler,
    before_u: Compiler,
    after: Compiler,
    item: LangItem,
    inner: u8,
    r: Result<u8, CompileError>,
)
    requires
        before.operand_ready(None),
        before.cur_tok() is Minus || before.cur_tok() is Bang,
        item == (if before.cur_tok() is Minus { LangItem::Neg } else { LangItem::Not }),
        mid.cursor == before.cursor + 1,
        mid.toks@ == before.toks@,
        mid.interner@ == before.interner@,
        mid.funcs == before.funcs,
        mid.chunks == before.chunks,
        mid.frames == before.frames,
        mid.lex_failed == before.lex_failed,
        Compiler::chain_done(mid, before_u, Ok::<u8, CompileError>(inner), PREC_UNARY),
        Compiler::calls_lang_item(before_u, after, item, seq![inner], None, r),
        Compiler::reuses_first(before_u, after, item, seq![inner], None, r),
        after.cursor == before_u.cursor,
        after.regs().held_pt == before_u.regs().held_pt,
        after.regs().state.len() == before_u.regs().state.len(),
    ensures
        Compiler::operand_done(before, after, r),
{
    reveal(Compiler::operand_ready);
    reveal(Compiler::operand_done);
    reveal(Compiler::chain_done);
    let e = mid.chain_at(PREC_UNARY)->Some_0.0;
    let q = mid.chain_at(PREC_UNARY)->Some_0.1;
    assert(before.operand_at() == Some((Expr::Un(item, Box::new(e)), q)));
    assert(live(before_u.regs(), inner as int));
    assert(Compiler::reusable(before_u.regs(), inner));
    assert(before_u.funcs == before.funcs);
    assert(before_u.funcs.overloads(FnKeyModel::LangItem(item)).len() > 0);
    assert(r == Ok::<u8, CompileError>(inner));
    let ovs = before_u.funcs.overloads(FnKeyModel::LangItem(item));
    let args = seq![inner];
    let wm = choose|wm: u8| after.code() == before_u.code() + #[trigger] callk_code(inner, ovs[0].1, wm, args);
    lemma_computes_congr(mid, before_u, before, before_u, inner, expr_term(e, before.funcs));
    lemma_unary_computes(before, before_u, after, inner, expr_term(e, before.funcs), ovs[0].1, wm);
    assert forall|k: int| 0 <= k < before_u.regs().state.len() implies #[trigger] after.regs().state[k] == before_u.regs().state[k] by {
        if k != inner as int {
            assert(!(exists|j: int| 0 <= j < 1 && args[j] as int == k));
        }
    }
    assert(after.regs().state =~= before_u.regs().state);
    assert forall|x: int| live(before.regs(), x) implies #[trigger] live(after.regs(), x) by {
        assert(live(before_u.regs(), x));
    }
    lemma_prefix_trans(before.code(), before_u.code(), after.code());
    lemma_free_from_same(after.regs().state, before_u.regs().state, after.regs().held_pt as int);
}

/// Where a chain ends lies at or after its start, and before the last token.
pub proof fn lemma_chain_bounds(
    toks: Seq<(Token, Span)>,
    names: Seq<Seq<char>>,
    p: int,
    min_bp: u8,
    lhs: Expr,
)
    requires
        chain_from(toks, names, p, min_bp, lhs) is Some,
    ensures
        p <= chain_from(toks, names, p, min_bp, lhs)->Some_0.1 < toks.len(),
    decreases toks.len() - p, 0int,
{
    match spec_infix(toks[p].0) {
        None => {},
        Some((bp, assoc)) => {
            if bp >= min_bp {
                let (rhs, q) = operand_chain(toks, names, p + 1, spec_next_bp(bp, assoc))->Some_0;
                lemma_chain_bounds(toks, names, q, min_bp, Expr::Bin(spec_binary_item(toks[p].0)->0, Box::new(lhs), Box::new(rhs)));
            }
        },
    }
}

/// An operand with the operators after it ends after its start, before the
/// last token.
pub proof fn lemma_operand_bounds(toks: Seq<(Token, Span)>, names: Seq<Seq<char>>, p: int, min_bp: u8)
    requires
        operand_chain(toks, names, p, min_bp) is Some,
    ensures
        p < operand_chain(toks, names, p, min_bp)->Some_0.1 < toks.len(),
{
    let (e, q) = prefix_operand(toks, names, p)->Some_0;
    lemma_chain_bounds(toks, names, q, min_bp, e);
}


pub fn infix_bp_assoc(tok: &Token) -> (res: Option<(u8, Assoc)>)
    ensures
        res == spec_infix(*tok),
{
    match tok {
        Token::Quest => Some((PREC_TERNARY, Assoc::Right)),
        Token::Or => Some((PREC_OR, Assoc::Left)),
        Token::And => Some((PREC_AND, Assoc::Left)),
        Token::Equal | Token::Neq => Some((PREC_EQUALITY, Assoc::Left)),
        Token::Lt | Token::Le | Token::Gt | Token::Ge => Some((PREC_COMPARISON, Assoc::Left)),
        Token::Plus | Token::Minus => Some((PREC_TERM, Assoc::Left)),
        Token::Star | Token::Slash | Token::Percent => Some((PREC_FACTOR, Assoc::Left)),
        Token::LParen => Some((PREC_CALL, Assoc::Left)),
        Token::Dot => Some((PREC_CALL, Assoc::Left)),
        _ => None,
    }
}

/// The operator a binary operator token calls.
pub fn binary_op_lang_item(op: &Token) -> (res: LangItem)
    requires
        spec_binary_item(*op) is Some,
    ensures
        spec_binary_item(*op) == Some(res),
{
    match op {
        Token::Plus => LangItem::Add,
        Token::Minus => LangItem::Sub,
        Token::Star => LangItem::Mul,
        Token::Slash => LangItem::Div,
        Token::Percent => LangItem::Rem,
        Token::Equal => LangItem::Eq,
        Token::Neq => LangItem::Neq,
        Token::Lt => LangItem::Lt,
        Token::Le => LangItem::Le,
        Token::Gt => LangItem::Gt,
        _ => LangItem::Ge,
    }
}

/// The parameter names of an argument list.
pub fn param_names(args: &Vec<(u32, TypeId)>) -> (res: Vec<u32>)
    ensures
        res@.len() == args@.len(),
        forall|i: int| 0 <= i < args@.len() ==> #[trigger] res@[i] == args@[i].0,
{
    let mut res: Vec<u32> = Vec::new();
    let mut i: usize = 0;
    while i < args.len()
        invariant
            0 <= i <= args.len(),
            res@.len() == i,
            forall|j: int| 0 <= j < i ==> #[trigger] res@[j] == args@[j].0,
        decreases args.len() - i,
    {
        res.push(args[i].0);
        i = i + 1;
    }
    res
}

/// The signature of an argument list: its parameter types.
pub fn param_sig(args: &Vec<(u32, TypeId)>) -> (res: FnTypeSig)
    ensures
        res.params().len() == args@.len(),
        forall|i: int| 0 <= i < args@.len() ==> #[trigger] res.params()[i] == args@[i].1,
{
    let mut types: Vec<TypeId> = Vec::new();
    let mut i: usize = 0;
    while i < args.len()
        invariant
            0 <= i <= args.len(),
            types@.len() == i,
            forall|j: int| 0 <= j < i ==> #[trigger] types@[j] == args@[j].1,
        decreases args.len() - i,
    {
        types.push(args[i].1);
        i = i + 1;
    }
    FnTypeSig { param_types: types }
}

impl Compiler {
    /// The expression of literals and binary operators from the cursor, at
    /// binding power `min_bp`: its term and where it ends.
    pub(crate) open spec fn chain_at(&self, min_bp: u8) -> Option<(Expr, int)> {
        operand_chain(self.toks@, self.interner@, self.cursor as int, min_bp)
    }

    /// Such an expression starts at the cursor and can be compiled with no
    /// target: no unrecognized text inside it, a free register and room for
    /// a new constant per token.
    #[verifier::opaque]
    pub(crate) open spec fn chain_ready(&self, min_bp: u8, target: Option<u8>) -> bool {
        &&& target is None
        &&& ops_defined(self.funcs)
        &&& self.chain_at(min_bp) is Some
        &&& self.lex_failed ==> self.chain_at(min_bp)->Some_0.1 < self.toks@.len() - 1
        &&& free_count(self.regs()) >= self.chain_at(min_bp)->Some_0.1 - self.cursor
        &&& self.cur_chunk().constants@.len() + (self.chain_at(min_bp)->Some_0.1 - self.cursor) < 0x10000
    }

    /// The code `after` added to that of `before`, run from any terms of the
    /// registers, leaves `t` in `reg` and each register live in `before` as
    /// it was.
    pub(crate) open spec fn computes(before: Compiler, after: Compiler, reg: u8, t: Term) -> bool {
        forall|env: Seq<Term>|
            env.len() == 256 ==> (#[trigger] sym_run(after.code(), after.cur_chunk().constants@, before.code().len() as int, env)
                matches Some(e) && e.len() == 256 && e[reg as int] == t && forall|x: int| 0 <= x < 256 && live(before.regs(), x) ==> e[x] == env[x])
    }

    /// What compiling keeps: live registers, the registers above the held
    /// ones, the code and the constants so far (at most one new constant per
    /// token passed, up to `q`), the chunk and the functions.
    pub(crate) open spec fn keeps_frame(before: Compiler, after: Compiler, q: int) -> bool {
        &&& forall|x: int| live(before.regs(), x) ==> #[trigger] live(after.regs(), x)
        &&& after.regs().held_pt == before.regs().held_pt
        &&& after.regs().state.len() == before.regs().state.len()
        &&& prefix_of(before.code(), after.code())
        &&& prefix_of(before.cur_chunk().constants@, after.cur_chunk().constants@)
        &&& after.cur_chunk().constants@.len() <= before.cur_chunk().constants@.len() + (q - before.cursor)
        &&& after.frames@.last().chunk_idx == before.frames@.last().chunk_idx
        &&& after.funcs == before.funcs
    }

    /// Compiling the expression `chain_at(min_bp)` gave a register holding
    /// its term, newly live, with the cursor where the expression ends.
    #[verifier::opaque]
    pub(crate) open spec fn chain_done(before: Compiler, after: Compiler, r: Result<u8, CompileError>, min_bp: u8) -> bool {
        let t = before.chain_at(min_bp)->Some_0.0;
        let q = before.chain_at(min_bp)->Some_0.1;
        &&& r matches Ok(reg) && after.cursor == q && Compiler::computes(before, after, reg, expr_term(t, before.funcs)) && live(after.regs(), reg as int)
            && !live(before.regs(), reg as int) && before.regs().held_pt <= reg
        &&& Compiler::keeps_frame(before, after, q)
        &&& free_count(after.regs()) >= free_count(before.regs()) - 1
    }

    /// The operand at the cursor: its tree and where it ends.
    pub(crate) open spec fn operand_at(&self) -> Option<(Expr, int)> {
        prefix_operand(self.toks@, self.interner@, self.cursor as int)
    }

    /// The operand at the cursor can be compiled with no target, as for
    /// `chain_ready`.
    #[verifier::opaque]
    pub(crate) open spec fn operand_ready(&self, target: Option<u8>) -> bool {
        &&& target is None
        &&& ops_defined(self.funcs)
        &&& self.operand_at() is Some
        &&& self.lex_failed ==> self.operand_at()->Some_0.1 < self.toks@.len() - 1
        &&& free_count(self.regs()) >= self.operand_at()->Some_0.1 - self.cursor
        &&& self.cur_chunk().constants@.len() + (self.operand_at()->Some_0.1 - self.cursor) < 0x10000
    }

    /// The `(` at the cursor opens an expression that can be compiled as
    /// `chain_ready` asks and that no `)` follows.
    #[verifier::opaque]
    pub(crate) open spec fn unclosed_paren(&self, target: Option<u8>) -> bool {
        let c = operand_chain(self.toks@, self.interner@, self.cursor + 1, 0);
        let q = c->Some_0.1;
        &&& target is None
        &&& ops_defined(self.funcs)
        &&& self.cur_tok() is LParen
        &&& c is Some
        &&& q < self.toks@.len()
        &&& !(self.toks@[q].0 is RParen)
        &&& self.lex_failed ==> q < self.toks@.len() - 1
        &&& free_count(self.regs()) >= q - self.cursor
        &&& self.cur_chunk().constants@.len() + (q - self.cursor) < 0x10000
    }

    /// Compiling the operand at the cursor gave a register holding its term,
    /// newly live, with the cursor where the operand ends.
    #[verifier::opaque]
    pub(crate) open spec fn operand_done(before: Compiler, after: Compiler, r: Result<u8, CompileError>) -> bool {
        let t = before.operand_at()->Some_0.0;
        let q = before.operand_at()->Some_0.1;
        &&& r matches Ok(reg) && after.cursor == q && Compiler::computes(before, after, reg, expr_term(t, before.funcs))
            && live(after.regs(), reg as int) && !live(before.regs(), reg as int) && before.regs().held_pt <= reg
        &&& Compiler::keeps_frame(before, after, q)
        &&& free_count(after.regs()) >= free_count(before.regs()) - 1
    }

    /// The fields of the struct literal whose `{` is at the cursor.
    pub(crate) open spec fn struct_lit_at(&self) -> Option<(Seq<(u32, Expr)>, int)> {
        struct_entries(self.toks@, self.interner@, self.cursor + 1)
    }

    /// The declared fields of struct `name`.
    pub(crate) open spec fn struct_fields_of(&self, name: u32) -> Seq<(u32, TypeId)> {
        self.types.defs()[self.types.names()[name] as int].fields@
    }

    /// The terms the fields' values compute: for each declared field, the
    /// value given for it.
    pub(crate) open spec fn field_terms(&self, name: u32) -> Seq<Term> {
        Seq::new(
            self.struct_fields_of(name).len(),
            |k: int| expr_term(entry_value(self.struct_lit_at()->Some_0.0, self.struct_fields_of(name)[k].0), self.funcs),
        )
    }

    /// The struct literal at the cursor names each field of struct `name`
    /// once, with values compiled as `chain_ready` asks, and no target.
    #[verifier::opaque]
    pub(crate) open spec fn struct_lit_ready(&self, name: u32, target: Option<u8>) -> bool {
        let q = self.struct_lit_at()->Some_0.1;
        &&& target is None
        &&& ops_defined(self.funcs)
        &&& self.types.names().contains_key(name)
        &&& self.cur_tok() is LBrace
        &&& self.struct_lit_at() is Some
        &&& self.struct_lit_at()->Some_0.0.len() >= 1
        &&& fields_distinct(self.struct_fields_of(name))
        &&& self.lex_failed ==> q < self.toks@.len() - 1
        &&& free_count(self.regs()) >= q - self.cursor
        &&& self.cur_chunk().constants@.len() + (q - self.cursor) < 0x10000
    }

    /// The code `cur` added to that of `start` leaves, in each register of
    /// `regs` whose field is `seen`, the field's term, and each register live
    /// in `start` as it was.
    pub(crate) open spec fn fields_computed(start: Compiler, cur: Compiler, regs: Seq<u8>, seen: Seq<bool>, terms: Seq<Term>) -> bool {
        forall|env: Seq<Term>|
            env.len() == 256 ==> (#[trigger] sym_run(cur.code(), cur.cur_chunk().constants@, start.code().len() as int, env)
                matches Some(e) && e.len() == 256 && (forall|k: int| 0 <= k < regs.len() && seen[k] ==> e[regs[k] as int] == terms[k])
                && forall|x: int| 0 <= x < 256 && live(start.regs(), x) ==> e[x] == env[x])
    }

    /// The argument list from `p` on.
    pub(crate) open spec fn args_from(&self, p: int) -> Option<(Seq<Expr>, int)> {
        arg_exprs(self.toks@, self.interner@, p)
    }

    /// The arguments from `p` on (not before the cursor) can each be compiled
    /// as `chain_ready` asks, with no target.
    #[verifier::opaque]
    pub(crate) open spec fn args_ready(&self, p: int, target: Option<u8>) -> bool {
        let q = self.args_from(p)->Some_0.1;
        &&& target is None
        &&& ops_defined(self.funcs)
        &&& self.cursor <= p
        &&& self.args_from(p) is Some
        &&& self.lex_failed ==> q < self.toks@.len() - 1
        &&& free_count(self.regs()) >= q - p
        &&& self.cur_chunk().constants@.len() + (q - p) < 0x10000
    }

    /// The code `cur` added to that of `start` leaves the `k`-th term in the
    /// `k`-th register of `regs`, and each register live in `start` as it was.
    pub(crate) open spec fn args_computed(start: Compiler, cur: Compiler, regs: Seq<u8>, terms: Seq<Term>) -> bool {
        forall|env: Seq<Term>|
            env.len() == 256 ==> (#[trigger] sym_run(cur.code(), cur.cur_chunk().constants@, start.code().len() as int, env)
                matches Some(e) && e.len() == 256 && (forall|k: int| 0 <= k < regs.len() ==> e[regs[k] as int] == terms[k])
                && forall|x: int| 0 <= x < 256 && live(start.regs(), x) ==> e[x] == env[x])
    }

    /// `after` is `before` followed by `CALL dst reg wm n` and the `n` registers.
    pub open spec fn call_emitted(before: Seq<u8>, after: Seq<u8>, dst: u8, reg: u8, wm: u8, regs: Seq<u8>) -> bool {
        after == before + seq![spec_op_byte(OpCode::CALL), dst, reg, wm, (regs.len() % 256) as u8] + regs
    }

    /// Compiling the argument list at the cursor and the call gave `CALL dst
    /// lhs` listing one register per argument, in source order, that the code
    /// before it leaves holding that argument's term.
    #[verifier::opaque]
    pub(crate) open spec fn call_done(before: Compiler, after: Compiler, r: Result<u8, CompileError>, lhs: u8) -> bool {
        let es = before.args_from(before.cursor as int)->Some_0.0;
        &&& r matches Ok(dst) && after.cursor == before.args_from(before.cursor as int)->Some_0.1 && exists|x: Seq<u8>, c: Seq<ValueModel>, regs: Seq<u8>, wm: u8|
            #![trigger Compiler::call_emitted(x, after.code(), dst, lhs, wm, regs), prefix_of(c, after.cur_chunk().constants@)]
            regs.len() == es.len() && prefix_of(c, after.cur_chunk().constants@) && Compiler::call_emitted(x, after.code(), dst, lhs, wm, regs)
                && forall|env: Seq<Term>| env.len() == 256 ==> (#[trigger] sym_run(x, c, before.code().len() as int, env) matches Some(e)
                && forall|k: int| 0 <= k < regs.len() ==> e[regs[k] as int] == expr_term(es[k], before.funcs))
    }

    /// Compiling the positional struct literal gave `NEWSTRUCT dst def n`
    /// listing one register per argument, in source order, that the code
    /// before it leaves holding that argument's term: field `k` gets argument `k`.
    #[verifier::opaque]
    pub(crate) open spec fn positional_done(before: Compiler, after: Compiler, r: Result<u8, CompileError>, name: u32) -> bool {
        let es = before.args_from(before.cursor + 1)->Some_0.0;
        let n = before.struct_fields_of(name).len() as int;
        &&& r matches Ok(dst) && after.cursor == before.args_from(before.cursor + 1)->Some_0.1 && exists|x: Seq<u8>, c: Seq<ValueModel>, regs: Seq<u8>|
            #![trigger Compiler::newstruct_emitted(x, after.code(), dst, before.types.names()[name], regs, n), prefix_of(c, after.cur_chunk().constants@)]
            regs.len() == es.len() && prefix_of(c, after.cur_chunk().constants@) && Compiler::newstruct_emitted(
                x,
                after.code(),
                dst,
                before.types.names()[name],
                regs,
                n,
            ) && forall|env: Seq<Term>| env.len() == 256 ==> (#[trigger] sym_run(x, c, before.code().len() as int, env) matches Some(e)
                && forall|k: int| 0 <= k < regs.len() ==> e[regs[k] as int] == expr_term(es[k], before.funcs))
    }

    /// Compiling the struct literal gave `NEWSTRUCT dst def n` listing, in
    /// the order the fields are declared, registers that the code before it
    /// leaves holding the values given for those fields.
    #[verifier::opaque]
    pub(crate) open spec fn struct_lit_done(before: Compiler, after: Compiler, r: Result<u8, CompileError>, name: u32) -> bool {
        let fields = before.struct_fields_of(name);
        &&& r matches Ok(dst) && after.cursor == before.struct_lit_at()->Some_0.1 && exists|x: Seq<u8>, c: Seq<ValueModel>, regs: Seq<u8>|
            #![trigger Compiler::newstruct_emitted(x, after.code(), dst, before.types.names()[name], regs, fields.len() as int), prefix_of(c, after.cur_chunk().constants@)]
            regs.len() == fields.len() && prefix_of(c, after.cur_chunk().constants@) && Compiler::newstruct_emitted(
                x,
                after.code(),
                dst,
                before.types.names()[name],
                regs,
                fields.len() as int,
            ) && forall|env: Seq<Term>| env.len() == 256 ==> (#[trigger] sym_run(x, c, before.code().len() as int, env) matches Some(e)
                && forall|k: int| 0 <= k < fields.len() ==> e[regs[k] as int] == before.field_terms(name)[k])
    }

    /// The current token is a literal, the parser can move past it, no infix
    /// operator follows it, and a register is free for it.
    pub(crate) open spec fn at_lone_literal(&self) -> bool {
        &&& self.cur_tok().spec_is_literal()
        &&& !(self.lex_failed && self.cursor == self.toks@.len() - 2)
        &&& self.cursor + 1 < self.toks@.len()
        &&& spec_infix(self.toks@[self.cursor + 1].0) is None
        &&& self.has_free_temp()
    }

    /// `r` holds a new temporary above the locals, as loading a literal leaves it.
    pub(crate) open spec fn lone_literal_reg(before: Compiler, after: Compiler, r: Result<u8, CompileError>) -> bool {
        r matches Ok(reg) ==> {
            &&& before.regs().held_pt <= reg < before.regs().state.len()
            &&& after.regs().state == before.regs().state.update(reg as int, RegState::Temp)
            &&& after.regs().held_pt == before.regs().held_pt
        }
    }

    /// The code that loads the word literal `tok` (`true`, `false` or `nil`)
    /// into `reg`.
    pub(crate) open spec fn word_load(tok: Token, reg: u8) -> Seq<u8> {
        match tok {
            Token::BooleanLit(b) => seq![spec_op_byte(OpCode::LOADBOOL), reg, if b { 1u8 } else { 0u8 }],
            _ => seq![spec_op_byte(OpCode::LOADNIL), reg],
        }
    }

    /// A lone word literal compiles to the code that loads it, in the chunk
    /// of the current function.
    pub(crate) open spec fn loads_word(before: Compiler, after: Compiler, r: Result<u8, CompileError>) -> bool {
        before.at_lone_literal() && (before.cur_tok() is BooleanLit || before.cur_tok() is Nil) ==> {
            &&& r is Ok
            &&& after.code() == before.code() + Compiler::word_load(before.cur_tok(), r->Ok_0)
            &&& after.frames@.last().chunk_idx == before.frames@.last().chunk_idx
        }
    }

    /// The value of `tok`, a numeral or a string, with `names` the interned
    /// strings.
    pub(crate) open spec fn const_value(tok: Token, names: Seq<Seq<char>>) -> ValueModel {
        match tok {
            Token::Number(bits) => ValueModel::Number(bits),
            _ => ValueModel::Str(names[tok->String_0 as int]),
        }
    }

    /// A lone numeral or string compiles to a `LOADK` of its value, added to
    /// the constants of the current function's chunk.
    pub(crate) open spec fn loads_const(before: Compiler, after: Compiler, r: Result<u8, CompileError>) -> bool {
        before.at_lone_literal() && (before.cur_tok() is Number || before.cur_tok() is String) ==> {
            let v = Compiler::const_value(before.cur_tok(), before.interner@);
            let k = const_slot(before.cur_chunk().constants@, v);
            &&& r is Ok
            &&& after.code() == before.code() + seq![spec_op_byte(OpCode::LOADK), r->Ok_0, spec_lo(k), spec_hi(k)]
            &&& after.cur_chunk().constants@ == consts_after(before.cur_chunk().constants@, v)
            &&& after.frames@.last().chunk_idx == before.frames@.last().chunk_idx
        }
    }

    /// The current token starts no expression: it is no literal, `fn`,
    /// identifier, `-`, `!` or `(`.
    pub(crate) open spec fn starts_no_expr(&self) -> bool {
        !(self.cur_tok() is Number || self.cur_tok() is String || self.cur_tok() is BooleanLit
            || self.cur_tok() is Nil || self.cur_tok() is Fn || self.cur_tok() is Identifier
            || self.cur_tok() is Minus || self.cur_tok() is Bang || self.cur_tok() is LParen)
    }

    /// The current token is an identifier the parser can pass that names no
    /// struct and is bound to no local, upvalue or global.
    pub(crate) open spec fn at_undefined_name(&self) -> bool {
        &&& self.cur_tok() is Identifier
        &&& self.advances()
        &&& !self.types.names().contains_key(self.cur_tok()->Identifier_0)
        &&& Compiler::undefined_variable(*self, self.cur_tok()->Identifier_0)
    }

    /// At an undefined name, the error says which name, where.
    pub(crate) open spec fn undefined_error(before: Compiler, r: Result<u8, CompileError>) -> bool {
        before.at_undefined_name() ==> (r matches Err(CompileError::UndefinedVariable { name: n, diag })
            && n@ == before.interner@[before.cur_tok()->Identifier_0 as int] && diag.0 == before.toks@[
            before.cursor as int].1)
    }

    /// Two registers above the locals are free.
    pub(crate) open spec fn has_two_free_temps(&self) -> bool {
        exists|i: int, j: int|
            self.regs().held_pt <= i < j < self.regs().state.len() && #[trigger] self.regs().state[i] == RegState::Free
                && #[trigger] self.regs().state[j] == RegState::Free
    }

    /// The current token starts `lit op lit`, one binary operator that binds
    /// at least as tightly as `min_bp` between two literals, followed by no
    /// infix operator; the parser can pass all three tokens, two registers
    /// are free, and a function implements the operator.
    pub(crate) open spec fn at_lone_binary(&self, min_bp: u8) -> bool {
        &&& self.cur_tok().spec_is_literal()
        &&& spec_binary_item(self.tok_at(1)) is Some
        &&& spec_infix(self.tok_at(1)).unwrap().0 >= min_bp
        &&& self.lone_literal_at(2)
        &&& self.can_pass(3)
        &&& self.has_two_free_temps()
        &&& self.funcs.overloads(FnKeyModel::LangItem(spec_binary_item(self.tok_at(1))->0)).len() > 0
    }

    /// The token `k` places ahead is a literal that no infix operator follows.
    pub(crate) open spec fn lone_literal_at(&self, k: int) -> bool {
        &&& self.tok_at(k).spec_is_literal()
        &&& spec_infix(self.tok_at(k + 1)) is None
    }

    /// Compiles an expression; its value ends up in the returned register
    /// (`target` where the expression allows it).
    pub(crate) fn expression(&mut self, target: Option<u8>) -> (r: Result<u8, CompileError>)
        requires
            old(self).wf(),
        ensures
            old(self).parse_step(final(self), r is Ok),
            old(self).at_lone_literal() ==> r is Ok && final(self).cursor == old(self).cursor + 1,
            old(self).at_lone_literal() ==> final(self).frames@.drop_last() == old(self).frames@.drop_last(),
            old(self).at_lone_literal() ==> final(self).funcs == old(self).funcs,
            Compiler::loads_word(*old(self), *final(self), r),
            Compiler::loads_const(*old(self), *final(self), r),
            old(self).starts_no_expr() ==> (r matches Err(e) && old(self).expected_error(e, "expression"@)),
            Compiler::undefined_error(*old(self), r),
            old(self).chain_ready(0, target) ==> Compiler::chain_done(*old(self), *final(self), r, 0),
            // a `(` that no `)` closes
            old(self).unclosed_paren(target) ==> (r matches Err(e) && e is Unclosed),
        decreases old(self).remaining(), 10int,
    {
        self.record_locus();
        let ghost mid = *self;
        proof {
            reveal(Compiler::unclosed_paren);
            if old(self).unclosed_paren(target) {
                assert(mid.unclosed_paren(target));
            }
        }
        let r = self.parse_precedence(0, target);
        proof {
            reveal(Compiler::chain_done);
            reveal(Compiler::chain_ready);
        }
        r
    }

    /// Compiles a prefix expression followed by the infix operators that bind
    /// at least as tightly as `min_bp`.
    fn parse_precedence(&mut self, min_bp: u8, target: Option<u8>) -> (r: Result<u8, CompileError>)
        requires
            old(self).wf(),
        ensures
            old(self).parse_step(final(self), r is Ok),
            old(self).at_lone_literal() ==> r is Ok && final(self).cursor == old(self).cursor + 1,
            old(self).at_lone_literal() ==> Compiler::lone_literal_reg(*old(self), *final(self), r),
            old(self).at_lone_literal() ==> final(self).frames@.drop_last() == old(self).frames@.drop_last(),
            old(self).at_lone_literal() ==> final(self).funcs == old(self).funcs,
            // `lit op lit`: the operator's function called on the two values
            old(self).at_lone_binary(min_bp) ==> r is Ok && final(self).cursor == old(self).cursor + 3,
            Compiler::loads_word(*old(self), *final(self), r),
            Compiler::loads_const(*old(self), *final(self), r),
            old(self).starts_no_expr() ==> (r matches Err(e) && old(self).expected_error(e, "expression"@)),
            Compiler::undefined_error(*old(self), r),
            // literals and binary operators: the code computes the parse by binding power
            old(self).chain_ready(min_bp, target) ==> Compiler::chain_done(*old(self), *final(self), r, min_bp),
            old(self).unclosed_paren(target) ==> (r matches Err(e) && e is Unclosed),
        decreases old(self).remaining(), 9int,
    {
        proof {
            reveal(Compiler::chain_done);
            reveal(Compiler::chain_ready);
        }
        let ghost ready = old(self).chain_ready(min_bp, target);
        let ghost ct = old(self).chain_at(min_bp)->Some_0;
        proof {
            reveal(Compiler::operand_ready);
            reveal(Compiler::operand_done);
            if ready {
                let (e1, q1) = old(self).operand_at()->Some_0;
                lemma_chain_bounds(old(self).toks@, old(self).interner@, q1, min_bp, e1);
                assert(old(self).operand_ready(target));
            }
        }
        let mut lhs = self.parse_prefix(target)?;
        let ghost mut cur = old(self).operand_at()->Some_0.0;
        let ghost prefixed = *self;
        let ghost lhs0 = lhs;
        proof {
            if old(self).at_lone_literal() && (old(self).cur_tok() is BooleanLit || old(self).cur_tok() is Nil) {
                assert(old(self).advances());
                assert(prefixed.code() =~= old(self).code() + Compiler::word_load(old(self).cur_tok(), lhs0));
            }
            if old(self).at_lone_literal() && (old(self).cur_tok() is Number || old(self).cur_tok() is String) {
                let v = Compiler::const_value(old(self).cur_tok(), old(self).interner@);
                let k = const_slot(old(self).cur_chunk().constants@, v);
                assert(old(self).advances());
                assert(prefixed.code() =~= old(self).code() + seq![spec_op_byte(OpCode::LOADK), lhs0, spec_lo(k), spec_hi(k)]);
            }
        }
        let ghost bin = old(self).at_lone_binary(min_bp);
        proof {
            if bin {
                let (i, j) = choose|i: int, j: int| old(self).regs().held_pt <= i < j < old(self).regs().state.len()
                    && #[trigger] old(self).regs().state[i] == RegState::Free && #[trigger] old(self).regs().state[j]
                    == RegState::Free;
                if lhs as int == i {
                    assert(self.regs().state[j] == RegState::Free);
                } else {
                    assert(self.regs().state[i] == RegState::Free);
                }
                assert(self.has_free_temp());
            }
        }
        loop
            invariant
                !old(self).unclosed_paren(target),
                self.wf(),
                old(self).evolves(self),
                old(self).balanced(self),
                self.cursor > old(self).cursor,
                old(self).at_lone_literal() ==> self.cursor == old(self).cursor + 1,
                old(self).at_lone_literal() ==> Compiler::lone_literal_reg(*old(self), *self, Ok::<u8, CompileError>(lhs)),
                old(self).at_lone_literal() ==> self.frames@.drop_last() == old(self).frames@.drop_last(),
                old(self).at_lone_literal() ==> self.funcs == old(self).funcs,
                bin == old(self).at_lone_binary(min_bp),
                bin ==> (self.cursor == old(self).cursor + 1 && self.has_free_temp() && Compiler::reusable(self.regs(), lhs)
                    && self.funcs == old(self).funcs) || self.cursor == old(self).cursor + 3,
                old(self).at_lone_literal() ==> lhs == lhs0 && self.code() == prefixed.code()
                    && self.frames@.last().chunk_idx == prefixed.frames@.last().chunk_idx
                    && self.cur_chunk().constants == prefixed.cur_chunk().constants,
                !old(self).starts_no_expr(),
                !old(self).at_undefined_name(),
                ready == old(self).chain_ready(min_bp, target),
                ct == old(self).chain_at(min_bp)->Some_0,
                ready ==> chain_from(self.toks@, self.interner@, self.cursor as int, min_bp, cur) == Some(ct),
                ready ==> Compiler::computes(*old(self), *self, lhs, expr_term(cur, old(self).funcs)),
                ready ==> live(self.regs(), lhs as int) && !live(old(self).regs(), lhs as int) && old(self).regs().held_pt <= lhs,
                ready ==> Compiler::keeps_frame(*old(self), *self, self.cursor as int),
                ready ==> free_count(self.regs()) >= free_count(old(self).regs()) - 1,
            ensures
                self.wf(),
                old(self).evolves(self),
                old(self).balanced(self),
                self.cursor > old(self).cursor,
                old(self).at_lone_literal() ==> self.cursor == old(self).cursor + 1,
                old(self).at_lone_literal() ==> Compiler::lone_literal_reg(*old(self), *self, Ok::<u8, CompileError>(lhs)),
                old(self).at_lone_literal() ==> self.frames@.drop_last() == old(self).frames@.drop_last(),
                old(self).at_lone_literal() ==> self.funcs == old(self).funcs,
                bin ==> self.cursor == old(self).cursor + 3,
                old(self).at_lone_literal() ==> lhs == lhs0 && self.code() == prefixed.code()
                    && self.frames@.last().chunk_idx == prefixed.frames@.last().chunk_idx
                    && self.cur_chunk().constants == prefixed.cur_chunk().constants,
                ready ==> Compiler::chain_done(*old(self), *self, Ok::<u8, CompileError>(lhs), min_bp),
            decreases self.remaining(),
        {
            proof {
                reveal(Compiler::chain_done);
                reveal(Compiler::chain_ready);
            }
            let op = self.current();
            let ghost at_start = *self;
            let ghost p_op = self.cursor as int;
            let (bp, assoc) = match infix_bp_assoc(&op) {
                Some(p) => p,
                None => {
                    proof {
                        if ready {
                            assert(chain_from(self.toks@, self.interner@, p_op, min_bp, cur) == Some((cur, p_op)));
                        }
                    }
                    break;
                },
            };
            if bp < min_bp {
                proof {
                    if ready {
                        assert(chain_from(self.toks@, self.interner@, p_op, min_bp, cur) == Some((cur, p_op)));
                    }
                }
                break;
            }
            proof {
                if ready {
                    let names = self.interner@;
                    let toks = self.toks@;
                    let rq = operand_chain(toks, names, p_op + 1, spec_next_bp(bp, assoc))->Some_0;
                    assert(spec_binary_item(op) is Some);
                    assert(self.funcs.overloads(FnKeyModel::LangItem(spec_binary_item(op)->0)).len() > 0);
                    lemma_operand_bounds(toks, names, p_op + 1, spec_next_bp(bp, assoc));
                    lemma_chain_bounds(toks, names, rq.1, min_bp, Expr::Bin(spec_binary_item(op)->0, Box::new(cur), Box::new(rq.0)));
                }
            }
            self.advance()?;
            match op {
                Token::Quest => {
                    lhs = self.emit_ternary(lhs, target)?;
                },
                Token::And => {
                    lhs = self.emit_short_circuit_and(lhs, target)?;
                },
                Token::Or => {
                    lhs = self.emit_short_circuit_or(lhs, target)?;
                },
                Token::LParen => {
                    lhs = self.parse_call_expression(lhs, target)?;
                },
                Token::Dot => {
                    let field_name = match self.current() {
                        Token::Identifier(sym) => {
                            self.advance()?;
                            sym
                        },
                        _ => {
                            let msg = self.expected_found("field name after '.'");
                            return Err(self.unexpected(msg));
                        },
                    };
                    let dst = self.emit_getfield(lhs, field_name)?;
                    self.free_temp(lhs);
                    lhs = dst;
                },
                _ => {
                    let next_bp = match assoc {
                        Assoc::Left => bp + 1,
                        Assoc::Right => bp,
                    };
                    let ghost mid = *self;
                    proof {
                        if ready {
                            assert(next_bp == spec_next_bp(bp, assoc));
                            assert(mid.chain_ready(next_bp, target));
                        }
                    }
                    let rhs = self.parse_precedence(next_bp, target)?;
                    let ghost before_b = *self;
                    let ghost lhs_old = lhs;
                    proof {
                        if ready {
                            assert(live(before_b.regs(), lhs as int));
                            assert(Compiler::reusable(before_b.regs(), lhs));
                        }
                    }
                    lhs = self.emit_binary(&op, lhs, rhs, target)?;
                    proof {
                        if ready {
                            let rt = mid.chain_at(next_bp)->Some_0.0;
                            let ovs = before_b.funcs.overloads(FnKeyModel::LangItem(spec_binary_item(op)->0));
                            let args = seq![lhs, rhs];
                            let wm = choose|wm: u8| self.code() == before_b.code() + #[trigger] callk_code(lhs, ovs[0].1, wm, args);
                            lemma_binary_computes(*old(self), mid, before_b, *self, lhs, rhs, expr_term(cur, old(self).funcs), expr_term(rt, old(self).funcs), ovs[0].1, wm);
                            lemma_free_rhs(before_b.regs(), self.regs(), lhs, rhs);
                            lemma_prefix_trans(old(self).code(), mid.code(), before_b.code());
                            lemma_prefix_trans(old(self).code(), before_b.code(), self.code());
                            lemma_prefix_trans(old(self).cur_chunk().constants@, mid.cur_chunk().constants@, before_b.cur_chunk().constants@);
                            assert forall|x: int| live(old(self).regs(), x) implies #[trigger] live(self.regs(), x) by {
                                assert(live(mid.regs(), x));
                                assert(live(before_b.regs(), x));
                                assert(x != rhs as int);
                            }
                            assert(self.regs().held_pt == old(self).regs().held_pt);
                            assert(self.regs().state.len() == old(self).regs().state.len());
                            assert(prefix_of(old(self).code(), self.code()));
                            assert(prefix_of(old(self).cur_chunk().constants@, self.cur_chunk().constants@));
                            assert(self.cur_chunk().constants@.len() <= old(self).cur_chunk().constants@.len() + (self.cursor - old(self).cursor));
                            assert(self.frames@.last().chunk_idx == old(self).frames@.last().chunk_idx);
                            assert(self.funcs == old(self).funcs);
                            cur = Expr::Bin(spec_binary_item(op)->0, Box::new(cur), Box::new(rt));
                        }
                    }
                },
            }
        }
        Ok(lhs)
    }

    /// Compiles a literal, a variable, a struct literal, a closure, a unary
    /// operator applied to its operand, or a parenthesized expression.
    fn parse_prefix(&mut self, target: Option<u8>) -> (r: Result<u8, CompileError>)
        requires
            old(self).wf(),
        ensures
            old(self).parse_step(final(self), r is Ok),
            old(self).at_lone_literal() ==> r is Ok && final(self).cursor == old(self).cursor + 1,
            old(self).at_lone_literal() ==> Compiler::lone_literal_reg(*old(self), *final(self), r),
            old(self).at_lone_literal() ==> final(self).frames@.drop_last() == old(self).frames@.drop_last(),
            old(self).cur_tok().spec_is_literal() ==> final(self).funcs == old(self).funcs,
            // an operand of literals, operators and parentheses: the code computes its parse
            old(self).operand_ready(target) ==> Compiler::operand_done(*old(self), *final(self), r),
            // a `(` that no `)` closes
            old(self).unclosed_paren(target) ==> (r matches Err(e) && e is Unclosed),
            // a literal loads its value into a new temporary
            old(self).advances() && (old(self).cur_tok() is Number || old(self).cur_tok() is String) ==> {
                let v = match old(self).cur_tok() {
                    Token::Number(bits) => ValueModel::Number(bits),
                    _ => ValueModel::Str(old(self).interner@[old(self).cur_tok()->String_0 as int]),
                };
                &&& final(self).cursor == old(self).cursor + 1
                &&& final(self).cur_chunk().constants@ == consts_after(old(self).cur_chunk().constants@, v)
                &&& Compiler::loads_temp(*old(self), *final(self), r, OpCode::LOADK, {
                    let k = const_slot(old(self).cur_chunk().constants@, v);
                    seq![spec_lo(k), spec_hi(k)]
                })
            },
            old(self).advances() && old(self).cur_tok() is BooleanLit ==> final(self).cursor == old(self).cursor + 1
                && Compiler::loads_temp(
                *old(self),
                *final(self),
                r,
                OpCode::LOADBOOL,
                seq![if old(self).cur_tok()->BooleanLit_0 { 1u8 } else { 0u8 }],
            ),
            old(self).advances() && old(self).cur_tok() is Nil ==> final(self).cursor == old(self).cursor + 1
                && Compiler::loads_temp(*old(self), *final(self), r, OpCode::LOADNIL, Seq::empty()),
            old(self).advances() && old(self).cur_tok().spec_is_literal()
                ==> final(self).frames@.last().chunk_idx == old(self).frames@.last().chunk_idx,
            old(self).advances() && (old(self).cur_tok() is BooleanLit || old(self).cur_tok() is Nil)
                ==> final(self).cur_chunk().constants == old(self).cur_chunk().constants,
            // a variable that names no struct: its register, or loaded from its global
            old(self).cur_tok() matches Token::Identifier(name) ==> (old(self).advances()
                && !old(self).types.names().contains_key(name) ==> {
                &&& final(self).cursor == old(self).cursor + 1
                &&& spec_resolve_local(old(self).locals().locals(), name) matches Some(reg) ==> r == Ok::<u8, CompileError>(
                    reg,
                ) && final(self).code() == old(self).code()
                &&& Compiler::undefined_variable(*old(self), name) ==> (r matches Err(
                    CompileError::UndefinedVariable { name: n, diag },
                ) && n@ == old(self).interner@[name as int] && diag.0 == old(self).toks@[old(self).cursor as int].1
                    && diag.1@ == "undefined variable"@)
                &&& spec_resolve_local(old(self).locals().locals(), name) is None && !(old(self).frames@.len() > 1
                    && upvalue_reachable(old(self).frames@, old(self).frames@.len() - 1, name))
                    && old(self).globals.slots().contains_key(name) ==> Compiler::loads_temp(
                    *old(self),
                    *final(self),
                    r,
                    OpCode::GETGLB,
                    seq![spec_lo(old(self).globals.slots()[name]), spec_hi(old(self).globals.slots()[name])],
                )
            }),
            // any other token starts no expression
            old(self).starts_no_expr() ==> {
                &&& *final(self) == *old(self)
                &&& r matches Err(e) && old(self).expected_error(e, "expression"@)
            },
            Compiler::undefined_error(*old(self), r),
        decreases old(self).remaining(), 8int,
    {
        proof {
            reveal(Compiler::operand_ready);
            if old(self).operand_ready(target) {
                let toks = old(self).toks@;
                let p = old(self).cursor as int;
                if toks[p].0 is Minus || toks[p].0 is Bang {
                    lemma_operand_bounds(toks, old(self).interner@, p + 1, PREC_UNARY);
                } else if toks[p].0 is LParen {
                    lemma_operand_bounds(toks, old(self).interner@, p + 1, 0);
                }
                assert(old(self).advances());
            }
            reveal(Compiler::unclosed_paren);
            if old(self).unclosed_paren(target) {
                lemma_operand_bounds(old(self).toks@, old(self).interner@, old(self).cursor + 1, 0);
                assert(old(self).advances());
            }
        }
        let tok = self.current();
        match tok {
            Token::Number(bits) => {
                self.advance()?;
                let lr = self.emit_number(bits);
                proof {
                    if old(self).operand_ready(target) {
                        reveal(Compiler::operand_ready);
                        lemma_literal_done(*old(self), *self, lr);
                    }
                }
                lr
            },
            Token::String(sym) => {
                self.advance()?;
                let lr = self.emit_string(sym);
                proof {
                    if old(self).operand_ready(target) {
                        reveal(Compiler::operand_ready);
                        lemma_literal_done(*old(self), *self, lr);
                    }
                }
                lr
            },
            Token::BooleanLit(b) => {
                self.advance()?;
                let lr = self.emit_bool(b);
                proof {
                    if old(self).operand_ready(target) {
                        reveal(Compiler::operand_ready);
                        lemma_literal_done(*old(self), *self, lr);
                    }
                }
                lr
            },
            Token::Nil => {
                self.advance()?;
                let lr = self.emit_nil();
                proof {
                    if old(self).operand_ready(target) {
                        reveal(Compiler::operand_ready);
                        lemma_literal_done(*old(self), *self, lr);
                    }
                }
                lr
            },
            Token::Fn => {
                self.advance()?;
                self.parse_closure_expr(target)
            },
            Token::Identifier(name) => {
                self.advance()?;
                if self.types.resolve_struct(name).is_some() {
                    if self.check(&Token::LBrace) {
                        return self.parse_struct_literal_named(name, target);
                    }
                    if self.check(&Token::LParen) {
                        return self.parse_struct_literal_positional(name, target);
                    }
                }
                self.emit_identifier(name)
            },
            Token::Minus => {
                proof {
                    reveal(Compiler::operand_ready);
                    reveal(Compiler::chain_ready);
                    reveal(Compiler::chain_done);
                    if old(self).operand_ready(target) {
                        lemma_operand_bounds(old(self).toks@, old(self).interner@, old(self).cursor + 1, PREC_UNARY);
                    }
                }
                self.advance()?;
                let ghost mid_u = *self;
                let inner = self.parse_precedence(PREC_UNARY, target)?;
                let ghost before_u = *self;
                let ur = self.emit_unary(LangItem::Neg, inner, target);
                proof {
                    if old(self).operand_ready(target) {
                        lemma_unary_done(*old(self), mid_u, before_u, *self, LangItem::Neg, inner, ur);
                    }
                }
                ur
            },
            Token::Bang => {
                proof {
                    reveal(Compiler::operand_ready);
                    reveal(Compiler::chain_ready);
                    reveal(Compiler::chain_done);
                    if old(self).operand_ready(target) {
                        lemma_operand_bounds(old(self).toks@, old(self).interner@, old(self).cursor + 1, PREC_UNARY);
                    }
                }
                self.advance()?;
                let ghost mid_u = *self;
                let inner = self.parse_precedence(PREC_UNARY, target)?;
                let ghost before_u = *self;
                let ur = self.emit_unary(LangItem::Not, inner, target);
                proof {
                    if old(self).operand_ready(target) {
                        lemma_unary_done(*old(self), mid_u, before_u, *self, LangItem::Not, inner, ur);
                    }
                }
                ur
            },
            Token::LParen => {
                proof {
                    reveal(Compiler::operand_ready);
                    reveal(Compiler::chain_ready);
                    reveal(Compiler::chain_done);
                    reveal(Compiler::operand_done);
                    if old(self).operand_ready(target) {
                        lemma_operand_bounds(old(self).toks@, old(self).interner@, old(self).cursor + 1, 0);
                    }
                }
                let open_span = self.current_span();
                self.advance()?;
                let ghost mid = *self;
                proof {
                    if old(self).unclosed_paren(target) {
                        reveal(Compiler::unclosed_paren);
                        assert(mid.chain_ready(0, target));
                    }
                }
                let inner = self.expression(target)?;
                let ghost after_in = *self;
                proof {
                    if old(self).unclosed_paren(target) {
                        reveal(Compiler::unclosed_paren);
                        assert(!self.cur_tok().spec_same_kind(Token::RParen));
                    }
                }
                self.consume_close(&Token::RParen, open_span)?;
                proof {
                    if old(self).operand_ready(target) {
                        let e = mid.chain_at(0)->Some_0.0;
                        lemma_computes_congr(mid, after_in, *old(self), *self, inner, expr_term(e, old(self).funcs));
                        assert(old(self).operand_at()->Some_0.0 == e);
                    }
                }
                Ok(inner)
            },
            _ => {
                let msg = self.expected_found("expression");
                Err(self.unexpected(msg))
            },
        }
    }

    /// `fn(params) { body }` or `fn(params) expr`: compiles the body as a new
    /// function and leaves a closure of it in a register.
    #[verifier::spinoff_prover]
    fn parse_closure_expr(&mut self, target: Option<u8>) -> (r: Result<u8, CompileError>)
        requires
            old(self).wf(),
        ensures
            old(self).parse_step(final(self), r is Ok),
            old(self).cur_tok() is LParen && old(self).tok_at(1) is RParen && !(old(self).tok_at(2) is LBrace)
                && old(self).lone_literal_at(2) && old(self).can_pass(3) && old(self).has_free_temp() ==> r is Ok
                && final(self).cursor == old(self).cursor + 3,
        decreases old(self).remaining(), 11int,
    {
        let args = self.parse_arglist()?;
        let names = param_names(&args);
        let chunk_idx = self.new_frame(names.as_slice())?;
        if self.check(&Token::LBrace) {
            self.parse_block()?;
            self.emit_safety_net()?;
        } else {
            let reg = self.expression(None)?;
            self.emit_return(reg);
        }
        let upvalues = self.take_upvalues();
        self.exit_frame()?;
        let anon_id = self.anon_count;
        self.anon_count = if self.anon_count == u32::MAX { 0 } else { self.anon_count + 1 };
        let ghost pre = *self;
        let fn_id = self.funcs.register(FnLookupKey::Anon(anon_id), FnEntry::ChunkIdx(chunk_idx), param_sig(&args));
        proof {
            lemma_register_keeps(pre.funcs, self.funcs, FnEntry::ChunkIdx(chunk_idx), FnKeyModel::Anon(anon_id));
            assert(pre.evolves(self));
        }
        let upvalue_count = (upvalues.len() % 0x10000) as u16;
        let proto_idx = self.add_constant(Value::FnProto { fn_id, upvalue_count });
        let reg = self.emit_closure_temp(proto_idx, upvalues.as_slice())?;
        match target {
            Some(t) => {
                self.emit_move(t, reg);
                self.free_temp(reg);
                Ok(t)
            },
            None => Ok(reg),
        }
    }

    fn emit_binary(&mut self, op: &Token, lhs: u8, rhs: u8, target: Option<u8>) -> (r: Result<u8, CompileError>)
        requires
            old(self).wf(),
            spec_binary_item(*op) is Some,
        ensures
            final(self).wf(),
            old(self).evolves(final(self)),
            old(self).balanced(final(self)),
            final(self).cursor == old(self).cursor,
            Compiler::calls_lang_item(*old(self), *final(self), spec_binary_item(*op)->0, seq![lhs, rhs], target, r),
            Compiler::reuses_first(*old(self), *final(self), spec_binary_item(*op)->0, seq![lhs, rhs], target, r),
    {
        let args: Vec<u8> = vec![lhs, rhs];
        assert(args@ =~= seq![lhs, rhs]);
        self.emit_lang_item_call(binary_op_lang_item(op), args.as_slice(), target)
    }

    fn emit_unary(&mut self, item: LangItem, operand: u8, target: Option<u8>) -> (r: Result<u8, CompileError>)
        requires
            old(self).wf(),
        ensures
            final(self).wf(),
            old(self).evolves(final(self)),
            old(self).balanced(final(self)),
            final(self).cursor == old(self).cursor,
            Compiler::calls_lang_item(*old(self), *final(self), item, seq![operand], target, r),
            Compiler::reuses_first(*old(self), *final(self), item, seq![operand], target, r),
    {
        let args: Vec<u8> = vec![operand];
        assert(args@ =~= seq![operand]);
        self.emit_lang_item_call(item, args.as_slice(), target)
    }

    /// `test ? a : b`, after the `?`.
    fn emit_ternary(&mut self, test: u8, target: Option<u8>) -> (r: Result<u8, CompileError>)
        requires
            old(self).wf(),
        ensures
            old(self).parse_step(final(self), r is Ok),
            target matches Some(t) ==> (t < old(self).regs().held_pt && old(self).has_free_temp() && old(self).lone_literal_at(0)
                && old(self).tok_at(1) is Colon && old(self).lone_literal_at(2) && old(self).can_pass(3) ==> r == Ok::<
                u8,
                CompileError,
            >(t) && final(self).cursor == old(self).cursor + 3),
        decreases old(self).remaining(), 11int,
    {
        let skip_then = self.emit_forward_test(test);
        let tests: Vec<u8> = vec![test];
        let reg = self.target_or_reuse(target, tests.as_slice())?;
        let ghost pre0 = *self;
        self.free_other_temps(reg, tests.as_slice());
        proof {
            if pre0.has_free_temp() {
                lemma_frees_keep_free(pre0, *self, reg, tests@, tests@.len() as int);
            }
        }
        let ghost before_mid = *self;
        let mhs = self.parse_precedence(0, target)?;
        self.emit_move(reg, mhs);
        let skip_else = self.emit_forward_jmp();
        let mids: Vec<u8> = vec![mhs];
        let ghost pre = *self;
        self.free_other_temps(reg, mids.as_slice());
        proof {
            if target is Some && (reg as int) < old(self).regs().held_pt && old(self).lone_literal_at(0) && old(self).can_pass(3)
                && old(self).has_free_temp() {
                assert(before_mid.at_lone_literal());
                assert(mids@[0] == mhs);
                assert(pre.regs().state[mhs as int] == RegState::Temp);
                assert(self.regs().state[mhs as int] == RegState::Free);
            }
        }
        self.place_label(skip_then);
        self.consume(&Token::Colon)?;
        let rhs = self.parse_precedence(PREC_TERNARY, target)?;
        self.emit_move(reg, rhs);
        let rights: Vec<u8> = vec![rhs];
        self.free_other_temps(reg, rights.as_slice());
        self.place_label(skip_else);
        Ok(reg)
    }

    /// `lhs || rhs`, after the `||`: the value of `lhs` when it is truthy,
    /// else that of `rhs`.
    fn emit_short_circuit_or(&mut self, lhs: u8, target: Option<u8>) -> (r: Result<u8, CompileError>)
        requires
            old(self).wf(),
        ensures
            old(self).parse_step(final(self), r is Ok),
            target matches Some(t) ==> (old(self).has_free_temp() && old(self).lone_literal_at(0) && old(self).can_pass(1)
                ==> r == Ok::<u8, CompileError>(t) && final(self).cursor == old(self).cursor + 1),
        decreases old(self).remaining(), 11int,
    {
        let skip_rhs = self.emit_forward_test(lhs);
        let lefts: Vec<u8> = vec![lhs];
        let reg = self.target_or_reuse(target, lefts.as_slice())?;
        let ghost pre = *self;
        self.free_other_temps(reg, lefts.as_slice());
        proof {
            if pre.has_free_temp() {
                lemma_frees_keep_free(pre, *self, reg, lefts@, lefts@.len() as int);
            }
        }
        self.emit_move(reg, lhs);
        let skip_end = self.emit_forward_jmp();
        self.place_label(skip_rhs);
        let rhs = self.parse_precedence(PREC_OR + 1, target)?;
        self.emit_move(reg, rhs);
        let rights: Vec<u8> = vec![rhs];
        self.free_other_temps(reg, rights.as_slice());
        self.place_label(skip_end);
        Ok(reg)
    }

    /// `lhs && rhs`, after the `&&`: the value of `rhs` when `lhs` is truthy,
    /// else that of `lhs`.
    fn emit_short_circuit_and(&mut self, lhs: u8, target: Option<u8>) -> (r: Result<u8, CompileError>)
        requires
            old(self).wf(),
        ensures
            old(self).parse_step(final(self), r is Ok),
            target matches Some(t) ==> (old(self).has_free_temp() && old(self).lone_literal_at(0) && old(self).can_pass(1)
                ==> r == Ok::<u8, CompileError>(t) && final(self).cursor == old(self).cursor + 1),
        decreases old(self).remaining(), 11int,
    {
        let skip_rhs = self.emit_forward_test(lhs);
        let lefts: Vec<u8> = vec![lhs];
        let reg = self.target_or_reuse(target, lefts.as_slice())?;
        let ghost pre = *self;
        self.free_other_temps(reg, lefts.as_slice());
        proof {
            if pre.has_free_temp() {
                lemma_frees_keep_free(pre, *self, reg, lefts@, lefts@.len() as int);
            }
        }
        let rhs = self.parse_precedence(PREC_AND + 1, target)?;
        self.emit_move(reg, rhs);
        let skip_end = self.emit_forward_jmp();
        self.place_label(skip_rhs);
        self.emit_move(reg, lhs);
        let rights: Vec<u8> = vec![rhs];
        self.free_other_temps(reg, rights.as_slice());
        self.place_label(skip_end);
        Ok(reg)
    }

    /// `callee(args…)`, after the `(`: calls the function value in `lhs`.
    fn parse_call_expression(&mut self, lhs: u8, target: Option<u8>) -> (r: Result<u8, CompileError>)
        requires
            old(self).wf(),
        ensures
            old(self).parse_step(final(self), r is Ok),
            target matches Some(t) ==> (old(self).cur_tok() is RParen && old(self).can_pass(1) ==> r == Ok::<u8, CompileError>(t)
                && final(self).cursor == old(self).cursor + 1),
            // the `CALL` lists the arguments' registers in source order: argument
            // `k` of the source is argument `k` of the callee
            old(self).args_ready(old(self).cursor as int, target) ==> Compiler::call_done(*old(self), *final(self), r, lhs),
        decreases old(self).remaining(), 11int,
    {
        let ghost p0 = old(self).cursor as int;
        let ghost ready = old(self).args_ready(p0, target);
        let ghost es = old(self).args_from(p0)->Some_0.0;
        let ghost q = old(self).args_from(p0)->Some_0.1;
        let ghost terms = arg_terms(es, old(self).funcs);
        let ghost mut jj: int = 0;
        proof {
            reveal(Compiler::args_ready);
            if ready {
                lemma_args_bounds(old(self).toks@, old(self).interner@, p0);
            }
        }
        let mut args: Vec<u8> = Vec::new();
        loop
            invariant_except_break
                ready ==> jj < es.len() && self.cursor >= p0 + 2 * jj && arg_exprs(self.toks@, self.interner@, self.cursor as int) == Some(
                    (es.subrange(jj, es.len() as int), q),
                ),
            invariant
                self.wf(),
                old(self).evolves(self),
                old(self).balanced(self),
                old(self).cur_tok() is RParen ==> *self == *old(self),
                ready == old(self).args_ready(p0, target),
                p0 == old(self).cursor,
                ready ==> {
                    &&& es == old(self).args_from(p0)->Some_0.0
                    &&& q == old(self).args_from(p0)->Some_0.1
                    &&& terms == arg_terms(es, old(self).funcs)
                    &&& target is None
                    &&& ops_defined(self.funcs)
                    &&& self.funcs == old(self).funcs
                    &&& free_count(old(self).regs()) >= q - p0
                    &&& old(self).cur_chunk().constants@.len() + (q - p0) < 0x10000
                    &&& q >= p0 + 2 * es.len()
                    &&& (self.lex_failed ==> q < self.toks@.len() - 1)
                    &&& q <= self.toks@.len()
                    &&& 0 <= jj <= es.len()
                    &&& args@.len() == jj
                    &&& self.cursor + 1 >= p0 + 2 * jj
                    &&& self.cursor < q
                    &&& forall|k: int| 0 <= k < jj ==> live(self.regs(), #[trigger] args@[k] as int)
                    &&& forall|x: int| live(old(self).regs(), x) ==> #[trigger] live(self.regs(), x)
                    &&& Compiler::args_computed(*old(self), *self, args@, terms)
                    &&& prefix_of(old(self).code(), self.code())
                    &&& prefix_of(old(self).cur_chunk().constants@, self.cur_chunk().constants@)
                    &&& self.cur_chunk().constants@.len() <= old(self).cur_chunk().constants@.len() + (self.cursor - p0)
                    &&& self.frames@.last().chunk_idx == old(self).frames@.last().chunk_idx
                    &&& free_count(self.regs()) >= free_count(old(self).regs()) - jj
                    &&& (jj == es.len() ==> self.cursor == q - 1 && self.toks@[self.cursor as int].0 is RParen)
                },
            ensures
                self.wf(),
                old(self).evolves(self),
                old(self).balanced(self),
                old(self).cur_tok() is RParen ==> *self == *old(self),
                ready == old(self).args_ready(p0, target),
                p0 == old(self).cursor,
                ready ==> {
                    &&& es == old(self).args_from(p0)->Some_0.0
                    &&& q == old(self).args_from(p0)->Some_0.1
                    &&& terms == arg_terms(es, old(self).funcs)
                    &&& target is None
                    &&& ops_defined(self.funcs)
                    &&& self.funcs == old(self).funcs
                    &&& free_count(old(self).regs()) >= q - p0
                    &&& old(self).cur_chunk().constants@.len() + (q - p0) < 0x10000
                    &&& q >= p0 + 2 * es.len()
                    &&& (self.lex_failed ==> q < self.toks@.len() - 1)
                    &&& q <= self.toks@.len()
                    &&& 0 <= jj <= es.len()
                    &&& args@.len() == jj
                    &&& self.cursor + 1 >= p0 + 2 * jj
                    &&& self.cursor < q
                    &&& forall|k: int| 0 <= k < jj ==> live(self.regs(), #[trigger] args@[k] as int)
                    &&& forall|x: int| live(old(self).regs(), x) ==> #[trigger] live(self.regs(), x)
                    &&& Compiler::args_computed(*old(self), *self, args@, terms)
                    &&& prefix_of(old(self).code(), self.code())
                    &&& prefix_of(old(self).cur_chunk().constants@, self.cur_chunk().constants@)
                    &&& self.cur_chunk().constants@.len() <= old(self).cur_chunk().constants@.len() + (self.cursor - p0)
                    &&& self.frames@.last().chunk_idx == old(self).frames@.last().chunk_idx
                    &&& free_count(self.regs()) >= free_count(old(self).regs()) - jj
                    &&& (jj == es.len() ==> self.cursor == q - 1 && self.toks@[self.cursor as int].0 is RParen)
                },
                ready ==> jj == es.len(),
            decreases self.remaining(),
        {
            // Arguments are compiled into `target` as the language has always done.
            let ghost s = *self;
            proof {
                if ready {
                    lemma_args_step(self.toks@, self.interner@, self.cursor as int, es, jj, q);
                }
            }
            if self.check(&Token::RParen) {
                break;
            }
            proof {
                if ready {
                    reveal(Compiler::chain_ready);
                    assert(self.chain_ready(0, target));
                }
            }
            let er = self.expression(target);
            proof {
                reveal(Compiler::chain_done);
            }
            let arg = er?;
            let ghost a = *self;
            let ghost args0 = args@;
            args.push(arg);
            proof {
                if ready {
                    assert(terms[jj] == expr_term(es[jj], s.funcs));
                    lemma_arg_step(*old(self), s, a, args0, terms, arg);
                    lemma_prefix_trans(old(self).code(), s.code(), a.code());
                    lemma_prefix_trans(old(self).cur_chunk().constants@, s.cur_chunk().constants@, a.cur_chunk().constants@);
                    jj = jj + 1;
                }
            }
            if !self.matches(&Token::Comma)? {
                break;
            }
        }
        let ghost after_loop = *self;
        match self.consume(&Token::RParen) {
            Ok(()) => {},
            Err(_) => {
                return Err(self.unexpected("expect argument list to close here".to_owned()));
            },
        }
        let callees: Vec<u8> = vec![lhs];
        let ghost done = *self;
        proof {
            if ready {
                lemma_free_from_pos(self.regs().state, self.regs().held_pt as int);
            }
        }
        let dst = self.target_or_reuse(target, callees.as_slice())?;
        let wm = self.reg_watermark();
        let ghost x = self.code();
        let ghost c = self.cur_chunk().constants@;
        self.emit_call(dst, lhs, wm, args.as_slice());
        proof {
            reveal(Compiler::call_done);
            if ready {
                assert(x == done.code());
                assert(c == done.cur_chunk().constants@);
                assert(x == after_loop.code());
                assert(c == after_loop.cur_chunk().constants@);
                assert(Compiler::call_emitted(x, self.code(), dst, lhs, wm, args@));
                assert(prefix_of(c, self.cur_chunk().constants@));
                assert forall|env: Seq<Term>| env.len() == 256 implies (#[trigger] sym_run(x, c, old(self).code().len() as int, env) matches Some(e)
                    && forall|k: int| 0 <= k < args@.len() ==> e[args@[k] as int] == expr_term(es[k], old(self).funcs)) by {
                    assert(Compiler::args_computed(*old(self), after_loop, args@, terms));
                    assert(sym_run(after_loop.code(), after_loop.cur_chunk().constants@, old(self).code().len() as int, env) is Some);
                    assert(args@.len() == es.len());
                    let e = sym_run(x, c, old(self).code().len() as int, env)->Some_0;
                    assert forall|k: int| 0 <= k < args@.len() implies e[args@[k] as int] == expr_term(es[k], old(self).funcs) by {
                        assert(terms[k] == expr_term(es[k], old(self).funcs));
                        assert(e[args@[k] as int] == terms[k]);
                    }
                }
            }
        }
        Ok(dst)
    }

    /// The position of field `name` in `fields`.
    fn field_position(fields: &Vec<(u32, TypeId)>, name: u32) -> (res: Option<usize>)
        ensures
            res matches Some(i) ==> i < fields@.len() && fields@[i as int].0 == name,
            res is None ==> forall|i: int| 0 <= i < fields@.len() ==> fields@[i].0 != name,
    {
        let mut i: usize = 0;
        while i < fields.len()
            invariant
                0 <= i <= fields.len(),
                forall|j: int| 0 <= j < i ==> fields@[j].0 != name,
            decreases fields.len() - i,
        {
            if fields[i].0 == name {
                return Some(i);
            }
            i = i + 1;
        }
        None
    }

    /// `Name { field: expr, … }`: every field given once, in any order.
    #[verifier::spinoff_prover]
    #[verifier::rlimit(50)]
    fn parse_struct_literal_named(&mut self, struct_name: u32, target: Option<u8>) -> (r: Result<u8, CompileError>)
        requires
            old(self).wf(),
            struct_name < old(self).interner@.len(),
        ensures
            old(self).parse_step(final(self), r is Ok),
            !old(self).types.names().contains_key(struct_name) ==> {
                &&& *final(self) == *old(self)
                &&& r matches Err(CompileError::UndefinedVariable { name, diag })
                &&& name@ == old(self).interner@[struct_name as int]
                &&& diag.0 == old(self).prev_span
                &&& diag.1@ == "undefined struct type"@
            },
            old(self).types.names().contains_key(struct_name) && old(self).cur_tok() is LBrace && old(self).tok_at(1) is RBrace
                && old(self).can_pass(2) ==> {
                let fields = old(self).types.defs()[old(self).types.names()[struct_name] as int].fields@;
                &&& fields.len() == 0 ==> (target matches Some(t) ==> r == Ok::<u8, CompileError>(t) && final(self).cursor
                    == old(self).cursor + 2)
                &&& fields.len() > 0 ==> (r matches Err(CompileError::MissingField { field, struct_name: sn, .. }) && field@
                    == old(self).interner@[fields[0].0 as int] && sn@ == old(self).interner@[struct_name as int])
            },
            // the first field named is not one of the struct's
            old(self).types.names().contains_key(struct_name) && old(self).cur_tok() is LBrace && old(self).tok_at(1) is Identifier
                && old(self).tok_at(2) is Colon && old(self).lone_literal_at(3) && old(self).can_pass(4) && old(self).has_free_temp()
                ==> {
                let fields = old(self).types.defs()[old(self).types.names()[struct_name] as int].fields@;
                let f = old(self).tok_at(1)->Identifier_0;
                (forall|i: int| 0 <= i < fields.len() ==> #[trigger] fields[i].0 != f) ==> (r matches Err(
                    CompileError::Unexpected { token, diag },
                ) && token == Token::Identifier(f) && diag.1@ == "no field '"@ + old(self).interner@[f as int]
                    + "' in struct '"@ + old(self).interner@[struct_name as int] + "'"@)
            },
            // each field named once: `NEWSTRUCT` takes the values in declaration order
            old(self).struct_lit_ready(struct_name, target) && ok_prefix(
                old(self).struct_lit_at()->Some_0.0,
                old(self).struct_fields_of(struct_name),
                old(self).struct_lit_at()->Some_0.0.len() as int,
            ) && all_named(old(self).struct_lit_at()->Some_0.0, old(self).struct_fields_of(struct_name))
                ==> Compiler::struct_lit_done(*old(self), *final(self), r, struct_name),
            // the first entry naming no declared field, or one named before, is reported
            old(self).struct_lit_ready(struct_name, target) ==> {
                let es = old(self).struct_lit_at()->Some_0.0;
                let fields = old(self).struct_fields_of(struct_name);
                forall|j: int|
                    #![trigger entry_ok(es, fields, j)]
                    0 <= j < es.len() && ok_prefix(es, fields, j) && !entry_ok(es, fields, j) ==> {
                        let f = old(self).interner@[es[j].0 as int];
                        &&& r matches Err(CompileError::Unexpected { token, diag })
                        &&& token == Token::Identifier(es[j].0)
                        &&& diag.1@ == if declared(fields, es[j].0) {
                            "duplicate field '"@ + f + "'"@
                        } else {
                            "no field '"@ + f + "' in struct '"@ + old(self).interner@[struct_name as int] + "'"@
                        }
                    }
            },
            // a declared field given no value: the first such is reported
            old(self).struct_lit_ready(struct_name, target) && ok_prefix(
                old(self).struct_lit_at()->Some_0.0,
                old(self).struct_fields_of(struct_name),
                old(self).struct_lit_at()->Some_0.0.len() as int,
            ) && !all_named(old(self).struct_lit_at()->Some_0.0, old(self).struct_fields_of(struct_name))
                ==> {
                let es = old(self).struct_lit_at()->Some_0.0;
                let fields = old(self).struct_fields_of(struct_name);
                &&& r matches Err(CompileError::MissingField { field, struct_name: sn, .. })
                &&& sn@ == old(self).interner@[struct_name as int]
                &&& exists|m: int| #![auto] 0 <= m < fields.len() && field@ == old(self).interner@[fields[m].0 as int] && !named(es, fields[m].0)
                    && forall|f: int| 0 <= f < m ==> named(es, fields[f].0)
            },
        decreases old(self).remaining(), 11int,
    {
        let ghost ready = old(self).struct_lit_ready(struct_name, target);
        let ghost es = old(self).struct_lit_at()->Some_0.0;
        let ghost q = old(self).struct_lit_at()->Some_0.1;
        let ghost terms = old(self).field_terms(struct_name);
        let ghost c0 = old(self).cursor as int;
        proof {
            reveal(Compiler::struct_lit_ready);
            if ready {
                lemma_entries_bounds(old(self).toks@, old(self).interner@, c0 + 1);
            }
        }
        let def_id = match self.types.resolve_struct(struct_name) {
            Some(d) => d,
            None => {
                return Err(CompileError::UndefinedVariable {
                    name: self.interner.resolve(struct_name).to_owned(),
                    diag: (self.prev_span, "undefined struct type".to_owned()),
                });
            },
        };
        let def = self.types.get_struct(def_id).clone();
        assert(forall|f: int| 0 <= f < def.fields@.len() ==> (#[trigger] def.fields@[f]).0 < self.interner@.len()) by {
            assert forall|f: int| 0 <= f < def.fields@.len() implies (#[trigger] def.fields@[f]).0 < self.interner@.len() by {
                assert(self.types.defs()[def_id as int].fields@[f] == def.fields@[f]);
            }
        }
        let field_count = def.fields.len();
        self.consume(&Token::LBrace)?;
        let ghost pre_fields = *self;
        let ghost mut jj: int = 0;
        let mut field_regs: Vec<u8> = Vec::new();
        let mut seen: Vec<bool> = Vec::new();
        let mut i: usize = 0;
        while i < field_count
            invariant
                old(self).types.names().contains_key(struct_name),
                0 <= i <= field_count,
                field_regs@.len() == i,
                seen@.len() == i,
                forall|j: int| 0 <= j < i ==> !#[trigger] seen@[j],
            decreases field_count - i,
        {
            field_regs.push(0);
            seen.push(false);
            i = i + 1;
        }
        let ghost unknown_first = old(self).tok_at(1) is Identifier && old(self).tok_at(2) is Colon && old(self).lone_literal_at(3)
            && old(self).can_pass(4) && old(self).has_free_temp() && (forall|i: int| 0 <= i < def.fields@.len()
            ==> #[trigger] def.fields@[i].0 != old(self).tok_at(1)->Identifier_0);
        loop
            invariant_except_break
                ready ==> jj < es.len() && self.cursor >= c0 + 1 + 4 * jj && struct_entries(self.toks@, self.interner@, self.cursor as int) == Some(
                    (es.subrange(jj, es.len() as int), q),
                ),
            invariant
                old(self).types.names().contains_key(struct_name),
                self.wf(),
                old(self).evolves(self),
                old(self).balanced(self),
                self.cursor > old(self).cursor,
                field_regs@.len() == field_count,
                seen@.len() == field_count,
                field_count == def.fields@.len(),
                struct_name < self.interner@.len(),
                old(self).cur_tok() is LBrace,
                old(self).tok_at(1) is RBrace ==> self.cursor == old(self).cursor + 1 && *self == pre_fields && forall|j: int|
                    0 <= j < seen@.len() ==> !#[trigger] seen@[j],
                pre_fields.cursor == old(self).cursor + 1,
                pre_fields.toks@ == old(self).toks@,
                pre_fields.lex_failed == old(self).lex_failed,
                pre_fields.frames == old(self).frames,
                def.fields@ == old(self).types.defs()[old(self).types.names()[struct_name] as int].fields@,
                unknown_first == (old(self).tok_at(1) is Identifier && old(self).tok_at(2) is Colon && old(self).lone_literal_at(3)
                    && old(self).can_pass(4) && old(self).has_free_temp() && (forall|i: int| 0 <= i < def.fields@.len()
                    ==> #[trigger] def.fields@[i].0 != old(self).tok_at(1)->Identifier_0)),
                unknown_first ==> *self == pre_fields,
                ready == old(self).struct_lit_ready(struct_name, target),
                ready ==> {
                    &&& fields_distinct(def.fields@)
                    &&& ok_prefix(es, def.fields@, jj)
                    &&& free_count(pre_fields.regs()) >= q - c0
                    &&& pre_fields.cur_chunk().constants@.len() + (q - c0) < 0x10000
                    &&& (self.lex_failed ==> q < self.toks@.len() - 1)
                    &&& ops_defined(self.funcs)
                    &&& q <= self.toks@.len()
                    &&& pre_fields.funcs == old(self).funcs
                    &&& terms == old(self).field_terms(struct_name)
                    &&& es == old(self).struct_lit_at()->Some_0.0
                    &&& q == old(self).struct_lit_at()->Some_0.1
                    &&& old(self).struct_fields_of(struct_name) == def.fields@
                    &&& pre_fields.code() == old(self).code()
                    &&& c0 == old(self).cursor
                    &&& 0 <= jj <= es.len()
                    &&& self.cursor >= c0 + 4 * jj
                    &&& self.cursor < q
                    &&& forall|k: int| 0 <= k < field_count ==> (seen@[k] <==> exists|a: int| 0 <= a < jj && #[trigger] es[a].0 == def.fields@[k].0)
                    &&& forall|k: int| 0 <= k < field_count && seen@[k] ==> live(self.regs(), #[trigger] field_regs@[k] as int)
                    &&& forall|x: int| live(pre_fields.regs(), x) ==> #[trigger] live(self.regs(), x)
                    &&& Compiler::fields_computed(pre_fields, *self, field_regs@, seen@, terms)
                    &&& prefix_of(pre_fields.code(), self.code())
                    &&& prefix_of(pre_fields.cur_chunk().constants@, self.cur_chunk().constants@)
                    &&& self.cur_chunk().constants@.len() <= pre_fields.cur_chunk().constants@.len() + (self.cursor - pre_fields.cursor)
                    &&& self.frames@.last().chunk_idx == pre_fields.frames@.last().chunk_idx
                    &&& self.funcs == pre_fields.funcs
                    &&& free_count(self.regs()) >= free_count(pre_fields.regs()) - jj
                },
            ensures
                old(self).types.names().contains_key(struct_name),
                self.wf(),
                old(self).evolves(self),
                old(self).balanced(self),
                self.cursor > old(self).cursor,
                field_regs@.len() == field_count,
                seen@.len() == field_count,
                field_count == def.fields@.len(),
                struct_name < self.interner@.len(),
                old(self).cur_tok() is LBrace,
                old(self).tok_at(1) is RBrace ==> self.cursor == old(self).cursor + 1 && *self == pre_fields && forall|j: int|
                    0 <= j < seen@.len() ==> !#[trigger] seen@[j],
                pre_fields.cursor == old(self).cursor + 1,
                pre_fields.toks@ == old(self).toks@,
                pre_fields.lex_failed == old(self).lex_failed,
                pre_fields.frames == old(self).frames,
                def.fields@ == old(self).types.defs()[old(self).types.names()[struct_name] as int].fields@,
                !unknown_first,
                ready == old(self).struct_lit_ready(struct_name, target),
                ready ==> {
                    &&& fields_distinct(def.fields@)
                    &&& ok_prefix(es, def.fields@, jj)
                    &&& free_count(pre_fields.regs()) >= q - c0
                    &&& pre_fields.cur_chunk().constants@.len() + (q - c0) < 0x10000
                    &&& (self.lex_failed ==> q < self.toks@.len() - 1)
                    &&& ops_defined(self.funcs)
                    &&& q <= self.toks@.len()
                    &&& pre_fields.funcs == old(self).funcs
                    &&& terms == old(self).field_terms(struct_name)
                    &&& es == old(self).struct_lit_at()->Some_0.0
                    &&& q == old(self).struct_lit_at()->Some_0.1
                    &&& old(self).struct_fields_of(struct_name) == def.fields@
                    &&& pre_fields.code() == old(self).code()
                    &&& c0 == old(self).cursor
                    &&& 0 <= jj <= es.len()
                    &&& self.cursor >= c0 + 4 * jj
                    &&& self.cursor < q
                    &&& forall|k: int| 0 <= k < field_count ==> (seen@[k] <==> exists|a: int| 0 <= a < jj && #[trigger] es[a].0 == def.fields@[k].0)
                    &&& forall|k: int| 0 <= k < field_count && seen@[k] ==> live(self.regs(), #[trigger] field_regs@[k] as int)
                    &&& forall|x: int| live(pre_fields.regs(), x) ==> #[trigger] live(self.regs(), x)
                    &&& Compiler::fields_computed(pre_fields, *self, field_regs@, seen@, terms)
                    &&& prefix_of(pre_fields.code(), self.code())
                    &&& prefix_of(pre_fields.cur_chunk().constants@, self.cur_chunk().constants@)
                    &&& self.cur_chunk().constants@.len() <= pre_fields.cur_chunk().constants@.len() + (self.cursor - pre_fields.cursor)
                    &&& self.frames@.last().chunk_idx == pre_fields.frames@.last().chunk_idx
                    &&& self.funcs == pre_fields.funcs
                    &&& free_count(self.regs()) >= free_count(pre_fields.regs()) - jj
                },
                ready ==> jj == es.len() && self.cursor == q - 1 && self.toks@[self.cursor as int].0 is RBrace,
            decreases self.remaining(),
        {
            let ghost s = *self;
            proof {
                if ready {
                    lemma_entries_step(self.toks@, self.interner@, self.cursor as int, es, jj, q);
                    assert(self.cur_tok() == Token::Identifier(es[jj].0));
                    assert(self.advances());
                }
            }
            if self.check(&Token::RBrace) || self.check(&Token::Eof) {
                break;
            }
            let field_name = match self.current() {
                Token::Identifier(sym) => {
                    self.advance()?;
                    sym
                },
                _ => {
                    let msg = self.expected_found("field name");
                    return Err(self.unexpected(msg));
                },
            };
            self.consume(&Token::Colon)?;
            let ghost mid = *self;
            proof {
                if ready {
                    reveal(Compiler::chain_ready);
                    assert(mid.code() == s.code());
                    assert(mid.regs() == s.regs());
                    assert(mid.chain_ready(0, None));
                }
            }
            let er = self.expression(None);
            proof {
                reveal(Compiler::chain_done);
            }
            let val_reg = er?;
            let ghost a = *self;
            let idx = match Self::field_position(&def.fields, field_name) {
                Some(idx) => idx,
                None => {
                    proof {
                        if ready {
                            assert(es[jj as int].0 == field_name);
                            assert(!entry_ok(es, def.fields@, jj));
                        }
                    }
                    let a = join("no field '", self.interner.resolve(field_name));
                    let b = join(a.as_str(), "' in struct '");
                    let c = join(b.as_str(), self.interner.resolve(struct_name));
                    let msg = join(c.as_str(), "'");
                    return Err(CompileError::Unexpected {
                        token: Token::Identifier(field_name),
                        diag: (self.prev_span, msg),
                    });
                },
            };
            proof {
                if ready {
                    assert(es[jj as int].0 == field_name);
                    assert(declared(def.fields@, field_name));
                    if seen@[idx as int] {
                        let b = choose|b: int| 0 <= b < jj && #[trigger] es[b].0 == def.fields@[idx as int].0;
                        assert(es[b].0 == es[jj as int].0);
                        assert(!entry_ok(es, def.fields@, jj));
                    } else {
                        assert forall|b: int| 0 <= b < jj implies #[trigger] es[b].0 != es[jj as int].0 by {
                            if es[b].0 == es[jj as int].0 {
                                assert(es[b].0 == def.fields@[idx as int].0);
                            }
                        }
                        assert(entry_ok(es, def.fields@, jj));
                    }
                }
            }
            if seen[idx] {
                let a = join("duplicate field '", self.interner.resolve(field_name));
                let msg = join(a.as_str(), "'");
                return Err(CompileError::Unexpected {
                    token: Token::Identifier(field_name),
                    diag: (self.prev_span, msg),
                });
            }
            let ghost regs0 = field_regs@;
            let ghost seen0 = seen@;
            seen.set(idx, true);
            field_regs.set(idx, val_reg);
            proof {
                if ready {
                    assert(es[jj as int].0 == field_name);
                    lemma_entry_value_at(es, jj);
                    assert(terms[idx as int] == expr_term(es[jj as int].1, mid.funcs));
                    lemma_field_step(pre_fields, s, mid, a, regs0, seen0, terms, idx as int, val_reg);
                    lemma_prefix_trans(pre_fields.code(), s.code(), a.code());
                    lemma_prefix_trans(pre_fields.cur_chunk().constants@, s.cur_chunk().constants@, a.cur_chunk().constants@);
                    assert forall|k: int| 0 <= k < field_count implies (seen@[k] <==> exists|b: int| 0 <= b < jj + 1 && #[trigger] es[b].0 == def.fields@[k].0) by {
                        if seen@[k] && k != idx {
                            assert(seen0[k]);
                        }
                        if exists|b: int| 0 <= b < jj + 1 && #[trigger] es[b].0 == def.fields@[k].0 {
                            let b = choose|b: int| 0 <= b < jj + 1 && #[trigger] es[b].0 == def.fields@[k].0;
                            if b == jj && k != idx {
                                assert(def.fields@[k].0 == def.fields@[idx as int].0);
                                if k < idx {
                                    assert(def.fields@[k].0 != def.fields@[idx as int].0);
                                } else {
                                    assert(def.fields@[idx as int].0 != def.fields@[k].0);
                                }
                            }
                        }
                    }
                    jj = jj + 1;
                }
            }
            if self.check(&Token::Comma) {
                proof { self.lemma_not_last(); }
                self.advance()?;
            } else {
                break;
            }
        }
        self.consume(&Token::RBrace)?;
        proof {
            if ready {
                assert forall|f: int| 0 <= f < field_count implies (#[trigger] seen@[f] <==> named(es, def.fields@[f].0)) by {
                    assert(def.fields@[f] == def.fields@[f]);
                }
            }
        }
        let mut k: usize = 0;
        while k < field_count
            invariant
                old(self).types.names().contains_key(struct_name),
                0 <= k <= field_count,
                seen@.len() == field_count,
                field_count == def.fields@.len(),
                self.wf(),
                old(self).evolves(self),
                old(self).balanced(self),
                self.cursor > old(self).cursor,
                struct_name < self.interner@.len(),
                forall|f: int| 0 <= f < def.fields@.len() ==> (#[trigger] def.fields@[f]).0 < self.interner@.len(),
                def.fields@ == old(self).types.defs()[old(self).types.names()[struct_name] as int].fields@,
                unknown_first == (old(self).tok_at(1) is Identifier && old(self).tok_at(2) is Colon && old(self).lone_literal_at(3)
                    && old(self).can_pass(4) && old(self).has_free_temp() && (forall|i: int| 0 <= i < def.fields@.len()
                    ==> #[trigger] def.fields@[i].0 != old(self).tok_at(1)->Identifier_0)),
                !unknown_first,
                old(self).tok_at(1) is RBrace && old(self).can_pass(2) ==> k == 0 && self.cursor == old(self).cursor + 2
                    && forall|j: int| 0 <= j < seen@.len() ==> !#[trigger] seen@[j],
                ready == old(self).struct_lit_ready(struct_name, target),
                ready ==> forall|f: int| 0 <= f < field_count ==> (#[trigger] seen@[f] <==> named(es, def.fields@[f].0)),
                ready ==> forall|f: int| 0 <= f < k ==> #[trigger] named(es, def.fields@[f].0),
                ready ==> es == old(self).struct_lit_at()->Some_0.0 && old(self).struct_fields_of(struct_name) == def.fields@,
                ready ==> ok_prefix(es, def.fields@, es.len() as int),
            decreases field_count - k,
        {
            if !seen[k] {
                proof {
                    if ready {
                        assert(!named(es, def.fields@[k as int].0));
                    }
                }
                return Err(CompileError::MissingField {
                    field: self.interner.resolve(def.fields[k].0).to_owned(),
                    struct_name: self.interner.resolve(struct_name).to_owned(),
                    diag: (self.prev_span, "missing field".to_owned()),
                });
            }
            k = k + 1;
        }
        let ghost done = *self;
        proof {
            if ready {
                lemma_free_from_pos(self.regs().state, self.regs().held_pt as int);
                assert forall|f: int| 0 <= f < field_count implies #[trigger] seen@[f] by {
                    assert(named(es, def.fields@[f].0));
                }
            }
        }
        let dst = self.target_or_reuse(target, field_regs.as_slice())?;
        let ghost x = self.code();
        let ghost c = self.cur_chunk().constants@;
        self.emit_newstruct(dst, def_id, &def, field_regs.as_slice());
        self.free_other_temps(dst, field_regs.as_slice());
        proof {
            reveal(Compiler::struct_lit_done);
            if ready {
                assert(x == done.code());
                assert(c == done.cur_chunk().constants@);
                assert(self.cur_chunk().constants@ == c || prefix_of(c, self.cur_chunk().constants@));
                assert forall|env: Seq<Term>| env.len() == 256 implies (#[trigger] sym_run(x, c, old(self).code().len() as int, env) matches Some(e)
                    && forall|kk: int| 0 <= kk < field_count ==> e[field_regs@[kk] as int] == old(self).field_terms(struct_name)[kk]) by {
                    assert(sym_run(done.code(), done.cur_chunk().constants@, pre_fields.code().len() as int, env) is Some);
                }
                assert(Compiler::newstruct_emitted(x, self.code(), dst, old(self).types.names()[struct_name], field_regs@, field_count as int));
            }
        }
        Ok(dst)
    }

    /// `Name(expr, …)`: one expression per field, in declaration order.
    fn parse_struct_literal_positional(&mut self, struct_name: u32, target: Option<u8>) -> (r: Result<u8, CompileError>)
        requires
            old(self).wf(),
            struct_name < old(self).interner@.len(),
        ensures
            old(self).parse_step(final(self), r is Ok),
            !old(self).types.names().contains_key(struct_name) ==> {
                &&& *final(self) == *old(self)
                &&& r matches Err(CompileError::UndefinedVariable { name, diag })
                &&& name@ == old(self).interner@[struct_name as int]
                &&& diag.0 == old(self).prev_span
                &&& diag.1@ == "undefined struct type"@
            },
            old(self).types.names().contains_key(struct_name) && old(self).cur_tok() is LParen && old(self).tok_at(1) is RParen
                && old(self).can_pass(2) ==> {
                let n = old(self).types.defs()[old(self).types.names()[struct_name] as int].fields@.len();
                &&& n == 0 ==> (target matches Some(t) ==> r == Ok::<u8, CompileError>(t) && final(self).cursor == old(
                    self,
                ).cursor + 2)
                &&& n > 0 ==> (r matches Err(CompileError::Unexpected { diag, .. }) && diag.1@ == "struct '"@ + old(
                    self,
                ).interner@[struct_name as int] + "' expects "@ + spec_decimal(n) + " fields, got "@
                    + spec_decimal(0))
            },
            // field `k` of the new instance gets argument `k`; a count that
            // differs from the fields' is refused
            old(self).types.names().contains_key(struct_name) && old(self).cur_tok() is LParen && old(self).args_ready(
                old(self).cursor + 1,
                target,
            ) ==> {
                let es = old(self).args_from(old(self).cursor + 1)->Some_0.0;
                let n = old(self).struct_fields_of(struct_name).len();
                &&& es.len() == n ==> Compiler::positional_done(*old(self), *final(self), r, struct_name)
                &&& es.len() != n ==> (r matches Err(CompileError::Unexpected { diag, .. }) && diag.1@ == "struct '"@ + old(
                    self,
                ).interner@[struct_name as int] + "' expects "@ + spec_decimal(n) + " fields, got "@ + spec_decimal(es.len()))
            },
        decreases old(self).remaining(), 11int,
    {
        let ghost p0 = old(self).cursor + 1;
        let ghost ready = old(self).types.names().contains_key(struct_name) && old(self).cur_tok() is LParen
            && old(self).args_ready(p0, target);
        let ghost es = old(self).args_from(p0)->Some_0.0;
        let ghost q = old(self).args_from(p0)->Some_0.1;
        let ghost terms = arg_terms(es, old(self).funcs);
        let ghost mut jj: int = 0;
        proof {
            reveal(Compiler::args_ready);
            if ready {
                lemma_args_bounds(old(self).toks@, old(self).interner@, p0);
            }
        }
        let def_id = match self.types.resolve_struct(struct_name) {
            Some(d) => d,
            None => {
                return Err(CompileError::UndefinedVariable {
                    name: self.interner.resolve(struct_name).to_owned(),
                    diag: (self.prev_span, "undefined struct type".to_owned()),
                });
            },
        };
        let def = self.types.get_struct(def_id).clone();
        let field_count = def.fields.len();
        self.consume(&Token::LParen)?;
        let ghost pre_args = *self;
        let mut regs: Vec<u8> = Vec::new();
        loop
            invariant_except_break
                ready ==> jj < es.len() && self.cursor >= p0 + 2 * jj && arg_exprs(self.toks@, self.interner@, self.cursor as int) == Some(
                    (es.subrange(jj, es.len() as int), q),
                ),
            invariant
                old(self).types.names().contains_key(struct_name),
                self.wf(),
                old(self).evolves(self),
                old(self).balanced(self),
                self.cursor > old(self).cursor,
                old(self).cur_tok() is LParen,
                old(self).tok_at(1) is RParen ==> *self == pre_args && regs@.len() == 0,
                pre_args.toks@ == old(self).toks@ && pre_args.cursor == old(self).cursor + 1,
                ready == (old(self).types.names().contains_key(struct_name) && old(self).cur_tok() is LParen
                    && old(self).args_ready(p0, target)),
                p0 == old(self).cursor + 1,
                def.fields@ == old(self).struct_fields_of(struct_name),
                field_count == def.fields@.len(),
                def_id == old(self).types.names()[struct_name],
                ready ==> {
                    &&& es == old(self).args_from(p0)->Some_0.0
                    &&& q == old(self).args_from(p0)->Some_0.1
                    &&& terms == arg_terms(es, old(self).funcs)
                    &&& target is None
                    &&& pre_args.code() == old(self).code()
                    &&& pre_args.cur_chunk().constants == old(self).cur_chunk().constants
                    &&& pre_args.regs() == old(self).regs()
                    &&& pre_args.cursor == p0
                    &&& ops_defined(self.funcs)
                    &&& self.funcs == old(self).funcs
                    &&& free_count(pre_args.regs()) >= q - p0
                    &&& pre_args.cur_chunk().constants@.len() + (q - p0) < 0x10000
                    &&& q >= p0 + 2 * es.len()
                    &&& (self.lex_failed ==> q < self.toks@.len() - 1)
                    &&& q <= self.toks@.len()
                    &&& 0 <= jj <= es.len()
                    &&& regs@.len() == jj
                    &&& self.cursor + 1 >= p0 + 2 * jj
                    &&& self.cursor < q
                    &&& forall|k: int| 0 <= k < jj ==> live(self.regs(), #[trigger] regs@[k] as int)
                    &&& forall|x: int| live(pre_args.regs(), x) ==> #[trigger] live(self.regs(), x)
                    &&& Compiler::args_computed(pre_args, *self, regs@, terms)
                    &&& prefix_of(pre_args.code(), self.code())
                    &&& prefix_of(pre_args.cur_chunk().constants@, self.cur_chunk().constants@)
                    &&& self.cur_chunk().constants@.len() <= pre_args.cur_chunk().constants@.len() + (self.cursor - p0)
                    &&& self.frames@.last().chunk_idx == pre_args.frames@.last().chunk_idx
                    &&& free_count(self.regs()) >= free_count(pre_args.regs()) - jj
                    &&& (jj == es.len() ==> self.cursor == q - 1 && self.toks@[self.cursor as int].0 is RParen)
                },
            ensures
                old(self).types.names().contains_key(struct_name),
                self.wf(),
                old(self).evolves(self),
                old(self).balanced(self),
                self.cursor > old(self).cursor,
                old(self).cur_tok() is LParen,
                old(self).tok_at(1) is RParen ==> *self == pre_args && regs@.len() == 0,
                pre_args.toks@ == old(self).toks@ && pre_args.cursor == old(self).cursor + 1,
                ready == (old(self).types.names().contains_key(struct_name) && old(self).cur_tok() is LParen
                    && old(self).args_ready(p0, target)),
                p0 == old(self).cursor + 1,
                def.fields@ == old(self).struct_fields_of(struct_name),
                field_count == def.fields@.len(),
                def_id == old(self).types.names()[struct_name],
                ready ==> {
                    &&& es == old(self).args_from(p0)->Some_0.0
                    &&& q == old(self).args_from(p0)->Some_0.1
                    &&& terms == arg_terms(es, old(self).funcs)
                    &&& target is None
                    &&& pre_args.code() == old(self).code()
                    &&& pre_args.cur_chunk().constants == old(self).cur_chunk().constants
                    &&& pre_args.regs() == old(self).regs()
                    &&& pre_args.cursor == p0
                    &&& ops_defined(self.funcs)
                    &&& self.funcs == old(self).funcs
                    &&& free_count(pre_args.regs()) >= q - p0
                    &&& pre_args.cur_chunk().constants@.len() + (q - p0) < 0x10000
                    &&& q >= p0 + 2 * es.len()
                    &&& (self.lex_failed ==> q < self.toks@.len() - 1)
                    &&& q <= self.toks@.len()
                    &&& 0 <= jj <= es.len()
                    &&& regs@.len() == jj
                    &&& self.cursor + 1 >= p0 + 2 * jj
                    &&& self.cursor < q
                    &&& forall|k: int| 0 <= k < jj ==> live(self.regs(), #[trigger] regs@[k] as int)
                    &&& forall|x: int| live(pre_args.regs(), x) ==> #[trigger] live(self.regs(), x)
                    &&& Compiler::args_computed(pre_args, *self, regs@, terms)
                    &&& prefix_of(pre_args.code(), self.code())
                    &&& prefix_of(pre_args.cur_chunk().constants@, self.cur_chunk().constants@)
                    &&& self.cur_chunk().constants@.len() <= pre_args.cur_chunk().constants@.len() + (self.cursor - p0)
                    &&& self.frames@.last().chunk_idx == pre_args.frames@.last().chunk_idx
                    &&& free_count(self.regs()) >= free_count(pre_args.regs()) - jj
                    &&& (jj == es.len() ==> self.cursor == q - 1 && self.toks@[self.cursor as int].0 is RParen)
                },
                ready ==> jj == es.len(),
            decreases self.remaining(),
        {
            let ghost s = *self;
            proof {
                if ready {
                    lemma_args_step(self.toks@, self.interner@, self.cursor as int, es, jj, q);
                }
            }
            if self.check(&Token::RParen) {
                break;
            }
            proof {
                if ready {
                    reveal(Compiler::chain_ready);
                    assert(self.chain_ready(0, None));
                }
            }
            let er = self.expression(None);
            proof {
                reveal(Compiler::chain_done);
            }
            let arg = er?;
            let ghost a = *self;
            let ghost args0 = regs@;
            regs.push(arg);
            proof {
                if ready {
                    assert(terms[jj] == expr_term(es[jj], s.funcs));
                    lemma_arg_step(pre_args, s, a, args0, terms, arg);
                    lemma_prefix_trans(pre_args.code(), s.code(), a.code());
                    lemma_prefix_trans(pre_args.cur_chunk().constants@, s.cur_chunk().constants@, a.cur_chunk().constants@);
                    jj = jj + 1;
                }
            }
            if !self.matches(&Token::Comma)? {
                break;
            }
        }
        let ghost after_loop = *self;
        self.consume(&Token::RParen)?;
        if regs.len() != field_count {
            let a = join("struct '", self.interner.resolve(struct_name));
            let b = join(a.as_str(), "' expects ");
            let n = decimal(field_count);
            let c = join(b.as_str(), n.as_str());
            let d = join(c.as_str(), " fields, got ");
            let m = decimal(regs.len());
            let msg = join(d.as_str(), m.as_str());
            proof {
                if ready {
                    assert(regs@.len() == es.len());
                    assert(msg@ == "struct '"@ + old(self).interner@[struct_name as int] + "' expects "@ + spec_decimal(field_count as nat) + " fields, got "@ + spec_decimal(es.len()));
                }
            }
            return Err(self.unexpected(msg));
        }
        let ghost done = *self;
        proof {
            if ready {
                lemma_free_from_pos(self.regs().state, self.regs().held_pt as int);
            }
        }
        let dst = self.target_or_reuse(target, regs.as_slice())?;
        let ghost x = self.code();
        let ghost c = self.cur_chunk().constants@;
        self.emit_newstruct(dst, def_id, &def, regs.as_slice());
        self.free_other_temps(dst, regs.as_slice());
        proof {
            reveal(Compiler::positional_done);
            if ready {
                assert(prefix_of(c, self.cur_chunk().constants@));
                assert(self.cursor == q);
                assert(regs@.len() == es.len());
                assert(x == done.code());
                assert(c == done.cur_chunk().constants@);
                assert(x == after_loop.code());
                assert(c == after_loop.cur_chunk().constants@);
                assert(Compiler::newstruct_emitted(x, self.code(), dst, old(self).types.names()[struct_name], regs@, field_count as int));
                assert forall|env: Seq<Term>| env.len() == 256 implies (#[trigger] sym_run(x, c, old(self).code().len() as int, env) matches Some(e)
                    && forall|k: int| 0 <= k < regs@.len() ==> e[regs@[k] as int] == expr_term(es[k], old(self).funcs)) by {
                    assert(Compiler::args_computed(pre_args, after_loop, regs@, terms));
                    assert(sym_run(after_loop.code(), after_loop.cur_chunk().constants@, pre_args.code().len() as int, env) is Some);
                    assert(regs@.len() == es.len());
                    let e = sym_run(x, c, old(self).code().len() as int, env)->Some_0;
                    assert forall|k: int| 0 <= k < regs@.len() implies e[regs@[k] as int] == expr_term(es[k], old(self).funcs) by {
                        assert(terms[k] == expr_term(es[k], old(self).funcs));
                        assert(e[regs@[k] as int] == terms[k]);
                    }
                }
            }
        }
        Ok(dst)
    }
}

} // verus!
