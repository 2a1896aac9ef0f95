use vstd::prelude::*;

use crate::compiler::register::RegState;
use crate::compiler::compile::{lemma_register_keeps, upvalue_reachable, CompileError, Compiler};
use crate::compiler::variables::spec_resolve_local;
use crate::compiler::expr::{expr_term, lemma_operand_bounds, operand_chain, ops_defined, param_names, param_sig, Expr};
use crate::compiler::meaning::{code_returns, lemma_prefix_trans, prefix_of, Term};
use crate::compiler::register::free_count;
use crate::compiler::lexer::Token;
use crate::compiler::loop_tracker::lemma_push_pop_loop;
use crate::functions::{spec_lang_item_from_name, spec_overload_insert, FnEntry, FnKeyModel, FnLookupKey, FnModifier, LangItem};
use crate::opcode::{spec_op_byte, OpCode};
use crate::span::Span;
use crate::text::join;
use crate::types::{spec_builtin_type, TypeId};
use crate::value::Value;
use crate::vm::heap::str_eq;

verus! {

/// The fields of a struct body from token `p` on: `name: Type` pairs
/// separated by commas (a trailing comma allowed) up to a `}`; each pair as
/// the symbols of the name and the type, with the position of the `}`.
/// `None` when the tokens have another shape.
pub open spec fn struct_fields_at(toks: Seq<(Token, Span)>, p: int) -> Option<(Seq<(u32, u32)>, int)>
    decreases toks.len() - p,
{
    if p < 0 || p + 3 >= toks.len() {
        if 0 <= p < toks.len() && toks[p].0 is RBrace { Some((Seq::empty(), p)) } else { None }
    } else if toks[p].0 is RBrace {
        Some((Seq::empty(), p))
    } else if toks[p].0 is Identifier && toks[p + 1].0 is Colon && toks[p + 2].0 is Identifier {
        let field = (toks[p].0->Identifier_0, toks[p + 2].0->Identifier_0);
        if toks[p + 3].0 is RBrace {
            Some((seq![field], p + 3))
        } else if toks[p + 3].0 is Comma {
            match struct_fields_at(toks, p + 4) {
                Some((rest, e)) => Some((seq![field] + rest, e)),
                None => None,
            }
        } else {
            None
        }
    } else {
        None
    }
}

/// A struct body ends at or after where it starts, and it starts with a
/// field or with the `}`.
pub proof fn lemma_struct_fields_at(toks: Seq<(Token, Span)>, p: int)
    requires
        struct_fields_at(toks, p) is Some,
    ensures
        p <= struct_fields_at(toks, p).unwrap().1 < toks.len(),
        toks[p].0 is RBrace ==> struct_fields_at(toks, p) == Some((Seq::<(u32, u32)>::empty(), p)),
        !(toks[p].0 is RBrace) ==> {
            let rest = struct_fields_at(toks, p).unwrap().0;
            &&& p + 3 < toks.len()
            &&& toks[p].0 is Identifier
            &&& toks[p + 1].0 is Colon
            &&& toks[p + 2].0 is Identifier
            &&& rest.len() > 0
            &&& rest[0] == (toks[p].0->Identifier_0, toks[p + 2].0->Identifier_0)
            &&& p + 3 <= struct_fields_at(toks, p).unwrap().1
            &&& toks[p + 3].0 is RBrace ==> rest.len() == 1 && struct_fields_at(toks, p).unwrap().1 == p + 3
            &&& !(toks[p + 3].0 is RBrace) ==> toks[p + 3].0 is Comma && struct_fields_at(toks, p + 4) == Some((
                rest.drop_first(),
                struct_fields_at(toks, p).unwrap().1,
            ))
        },
    decreases toks.len() - p,
{
    if p + 3 < toks.len() && !(toks[p].0 is RBrace) && toks[p + 3].0 is Comma {
        lemma_struct_fields_at(toks, p + 4);
        let rest = struct_fields_at(toks, p).unwrap().0;
        let sub = struct_fields_at(toks, p + 4).unwrap().0;
        assert(rest.drop_first() =~= sub);
    }
}

/// The tokens after the placeholder are `return e;` and the end, with `e`
/// an expression of literals, operators and parentheses, and few enough of
/// them to give each a register.
pub open spec fn return_program(toks: Seq<(Token, Span)>, names: Seq<Seq<char>>) -> bool {
    &&& 2 <= toks.len() < 250
    &&& toks[1].0 is Return
    &&& operand_chain(toks, names, 2, 0) matches Some((e, q)) && q + 2 == toks.len() && toks[q].0 is Semicolon
}

impl Compiler {
    /// The type a type name denotes: a builtin type, else a declared struct.
    pub(crate) open spec fn spec_type_name(&self, sym: u32) -> Option<TypeId> {
        match spec_builtin_type(self.interner@[sym as int]) {
            Some(t) => Some(t),
            None => if self.types.names().contains_key(sym) {
                Some(TypeId::Struct(self.types.names()[sym]))
            } else {
                None
            },
        }
    }

    /// The fields `fs` with their types resolved.
    pub(crate) open spec fn typed_fields(&self, fs: Seq<(u32, u32)>) -> Seq<(u32, TypeId)> {
        fs.map_values(|f: (u32, u32)| (f.0, self.spec_type_name(f.1)->0))
    }

    /// The statement at the cursor is `return e;` with `e` an expression of
    /// literals, operators and parentheses that can be compiled as
    /// `chain_ready` asks: its tree and where it ends (at the `;`).
    pub(crate) open spec fn return_at(&self) -> Option<(Expr, int)> {
        if self.cur_tok() is Return {
            match operand_chain(self.toks@, self.interner@, self.cursor + 1, 0) {
                Some((e, q)) => if 0 <= q < self.toks@.len() && self.toks@[q].0 is Semicolon { Some((e, q)) } else { None },
                None => None,
            }
        } else {
            None
        }
    }

    #[verifier::opaque]
    pub(crate) open spec fn return_ready(&self) -> bool {
        &&& ops_defined(self.funcs)
        &&& self.return_at() is Some
        &&& self.lex_failed ==> self.return_at()->Some_0.1 + 1 < self.toks@.len() - 1
        &&& free_count(self.regs()) >= self.return_at()->Some_0.1 - self.cursor
        &&& self.cur_chunk().constants@.len() + (self.return_at()->Some_0.1 - self.cursor) < 0x10000
    }

    /// Compiling `return e;` added code that computes `e` and returns it,
    /// leaving the cursor after the `;` and the chunk and functions as they were.
    #[verifier::opaque]
    pub(crate) open spec fn return_done(before: Compiler, after: Compiler, r: Result<(), CompileError>) -> bool {
        let t = before.return_at()->Some_0.0;
        let q = before.return_at()->Some_0.1;
        &&& r is Ok
        &&& after.cursor == q + 1
        &&& prefix_of(before.code(), after.code())
        &&& code_returns(after.code(), after.cur_chunk().constants@, before.code().len() as int, expr_term(t, before.funcs))
        &&& after.frames@.last().chunk_idx == before.frames@.last().chunk_idx
        &&& after.funcs == before.funcs
        &&& free_count(after.regs()) >= free_count(before.regs()) - 1
    }

    /// The current token starts no statement: it starts no expression and is
    /// none of `let`, `struct`, `;`, `@`, `return`, `break`, `continue`, `{`,
    /// `if` and `while`.
    pub(crate) open spec fn starts_no_statement(&self) -> bool {
        &&& self.starts_no_expr()
        &&& !(self.cur_tok() is Let || self.cur_tok() is Struct || self.cur_tok() is Semicolon || self.cur_tok() is At
            || self.cur_tok() is Return || self.cur_tok() is Break || self.cur_tok() is Continue || self.cur_tok() is LBrace
            || self.cur_tok() is If || self.cur_tok() is While)
    }

    /// Compiles one statement.
    pub(crate) fn statement(&mut self) -> (r: Result<(), CompileError>)
        requires
            old(self).wf(),
        ensures
            old(self).parse_step(final(self), r is Ok),
            old(self).cur_tok() is Semicolon && old(self).can_pass(1) ==> r is Ok && final(self).cursor == old(self).cursor
                + 1,
            old(self).at_lone_literal() && old(self).tok_at(1) is Semicolon && old(self).can_pass(2) ==> r is Ok
                && final(self).cursor == old(self).cursor + 2,
            // a token that starts no statement
            old(self).starts_no_statement() ==> (r matches Err(e) && old(self).expected_error(e, "expression"@)),
            // `return e;`: code computing `e` and returning it
            old(self).return_ready() ==> Compiler::return_done(*old(self), *final(self), r),
        decreases old(self).remaining(), 19int,
    {
        self.clear_temp();
        self.record_locus();
        let ghost prepared = *self;
        proof {
            reveal(Compiler::return_ready);
            reveal(Compiler::return_done);
            if old(self).return_ready() {
                assert(prepared.return_ready());
            }
        }
        match self.current() {
            Token::Let => self.parse_let_decl(),
            Token::Fn => {
                let no_modifiers: Vec<FnModifier> = Vec::new();
                self.parse_fn_decl(no_modifiers)
            },
            Token::Struct => self.parse_struct_decl(),
            Token::Semicolon => {
                self.advance()?;
                Ok(())
            },
            Token::At => {
                let mut modifiers: Vec<FnModifier> = Vec::new();
                self.consume(&Token::At)?;
                let first = self.parse_modifier()?;
                modifiers.push(first);
                while self.check(&Token::At)
                    invariant
                        old(self).cur_tok() is At,
                        !old(self).return_ready(),
                        self.wf(),
                        old(self).evolves(self),
                        old(self).balanced(self),
                        self.cursor > old(self).cursor,
                    decreases self.remaining(),
                {
                    self.consume(&Token::At)?;
                    let m = self.parse_modifier()?;
                    modifiers.push(m);
                }
                self.parse_fn_decl(modifiers)
            },
            Token::Return => self.parse_return_stmt(),
            Token::Break => self.parse_jump(true),
            Token::Continue => self.parse_jump(false),
            Token::LBrace => self.parse_block(),
            Token::If => self.parse_if(),
            Token::While => self.parse_while(),
            Token::Identifier(id) => {
                let next = self.peek()?;
                if next == Token::Assign || next == Token::Dot {
                    self.advance()?;
                    self.parse_assign_lhs(id)?;
                    self.consume(&Token::Semicolon)?;
                    Ok(())
                } else {
                    self.parse_expr_stmt()
                }
            },
            _ => self.parse_expr_stmt(),
        }
    }

    /// `{ statement* }`: a block with its own scope.
    pub(crate) fn parse_block(&mut self) -> (r: Result<(), CompileError>)
        requires
            old(self).wf(),
        ensures
            old(self).parse_step(final(self), r is Ok),
            !(old(self).cur_tok() is LBrace) ==> (r matches Err(e) && e is Unexpected),
            old(self).cur_tok() is LBrace && old(self).tok_at(1) is RBrace && old(self).can_pass(2) ==> {
                &&& r is Ok
                &&& final(self).cursor == old(self).cursor + 2
                &&& final(self).funcs == old(self).funcs
                &&& final(self).globals == old(self).globals
                &&& old(self).has_free_temp() ==> final(self).has_free_temp()
            },
        decreases old(self).remaining(), 18int,
    {
        let open_span = self.current_span();
        self.consume(&Token::LBrace)?;
        self.enter_scope();
        while !self.check(&Token::RBrace) && !self.check(&Token::Eof)
            invariant
                self.wf(),
                old(self).evolves(self),
                old(self).balanced(self),
                self.cursor > old(self).cursor,
                old(self).cur_tok() is LBrace,
                old(self).tok_at(1) is RBrace ==> self.cursor == old(self).cursor + 1 && self.funcs == old(self).funcs
                    && self.globals == old(self).globals && self.regs() == old(self).regs(),
            decreases self.remaining(),
        {
            self.statement()?;
        }
        let ghost pre_exit = *self;
        self.exit_scope();
        proof {
            if old(self).tok_at(1) is RBrace && old(self).has_free_temp() {
                let i = choose|i: int| pre_exit.regs().held_pt <= i < pre_exit.regs().state.len()
                    && #[trigger] pre_exit.regs().state[i] == RegState::Free;
                assert(self.regs().state[i] == RegState::Free);
            }
        }
        self.consume_close(&Token::RBrace, open_span)?;
        Ok(())
    }

    /// An identifier, or an `Unexpected` error naming `what` was expected.
    fn expect_identifier(&mut self, what: &str) -> (r: Result<u32, CompileError>)
        requires
            old(self).wf(),
        ensures
            old(self).parse_step(final(self), r is Ok),
            r matches Ok(sym) ==> sym < final(self).interner@.len(),
            old(self).cur_tok() matches Token::Identifier(sym) ==> {
                &&& r is Err <==> old(self).lex_failed && old(self).cursor == old(self).toks@.len() - 2
                &&& r matches Ok(s) ==> s == sym
                &&& r matches Err(e) ==> e is Unrecognized
            },
            !(old(self).cur_tok() is Identifier) ==> {
                &&& *final(self) == *old(self)
                &&& r matches Err(e) && old(self).expected_error(e, what@)
            },
            final(self).frames == old(self).frames,
            final(self).chunks == old(self).chunks,
            final(self).globals == old(self).globals,
            final(self).funcs == old(self).funcs,
            final(self).types == old(self).types,
            r is Ok ==> final(self).cursor == old(self).cursor + 1,
    {
        match self.current() {
            Token::Identifier(sym) => {
                match self.advance() {
                    Ok(()) => Ok(sym),
                    Err(e) => Err(e),
                }
            },
            _ => {
                let msg = self.expected_found(what);
                Err(self.unexpected(msg))
            },
        }
    }

    /// `let name = expr;`: a global at the top level, else a local.
    fn parse_let_decl(&mut self) -> (r: Result<(), CompileError>)
        requires
            old(self).wf(),
        ensures
            old(self).parse_step(final(self), r is Ok),
            old(self).cur_tok() is Let && old(self).tok_at(1) is Identifier && old(self).tok_at(2) is Assign
                && old(self).lone_literal_at(3) && old(self).tok_at(4) is Semicolon && old(self).can_pass(5)
                && old(self).locals().depth() == 0 && old(self).has_free_temp() ==> {
                &&& r is Ok
                &&& final(self).cursor == old(self).cursor + 5
            },
        decreases old(self).remaining(), 18int,
    {
        self.consume(&Token::Let)?;
        let name = self.expect_identifier("identifier")?;
        self.consume(&Token::Assign)?;
        if self.is_top_level() {
            let slot = self.declare_global(name);
            let rhs = self.expression(None)?;
            self.free_temp(rhs);
            self.emit_op(OpCode::SETGLB);
            self.emit_wide(slot);
            self.emit(rhs);
        } else {
            let held = self.alloc_held()?;
            let rhs = self.expression(Some(held))?;
            self.emit_move(held, rhs);
            let rhss: Vec<u8> = vec![rhs];
            self.free_other_temps(held, rhss.as_slice());
            self.add_local(name, held);
        }
        self.consume(&Token::Semicolon)?;
        Ok(())
    }

    /// The type a parameter or field type name denotes: a builtin type or a
    /// declared struct.
    fn resolve_type_name(&self, sym: u32) -> (res: Option<TypeId>)
        requires
            self.wf(),
            sym < self.interner@.len(),
        ensures
            res == self.spec_type_name(sym),
    {
        match self.types.resolve_builtin_type_name(self.interner.resolve(sym)) {
            Some(t) => Some(t),
            None => match self.types.resolve_struct(sym) {
                Some(d) => Some(TypeId::Struct(d)),
                None => None,
            },
        }
    }

    /// An `Unexpected` error for an unknown type name `sym`, just read.
    fn unknown_type(&self, sym: u32) -> (e: CompileError)
        requires
            self.wf(),
            sym < self.interner@.len(),
        ensures
            e matches CompileError::Unexpected { token, diag } && token == Token::Identifier(sym) && diag.0
                == self.prev_span && diag.1@ == "unknown type: "@ + self.interner@[sym as int],
    {
        let msg = join("unknown type: ", self.interner.resolve(sym));
        CompileError::Unexpected { token: Token::Identifier(sym), diag: (self.prev_span, msg) }
    }

    /// `(name (: Type)?, …)`: the parameters with their types (`Any` when
    /// none is written).
    pub(crate) fn parse_arglist(&mut self) -> (r: Result<Vec<(u32, TypeId)>, CompileError>)
        requires
            old(self).wf(),
        ensures
            old(self).parse_step(final(self), r is Ok),
            !(old(self).cur_tok() is LParen) ==> (r matches Err(CompileError::Unexpected { diag, .. }) && diag.1@
                == "expect argument list"@),
            old(self).cur_tok() is LParen && old(self).tok_at(1) is RParen && old(self).can_pass(2) ==> (r matches Ok(args)
                && args@.len() == 0 && final(self).cursor == old(self).cursor + 2 && final(self).frames == old(self).frames
                && final(self).funcs == old(self).funcs && final(self).chunks == old(self).chunks),
            old(self).cur_tok() is LParen && old(self).tok_at(1) is Identifier && old(self).tok_at(2) is RParen
                && old(self).can_pass(3) ==> (r matches Ok(args) && args@ == seq![(old(self).tok_at(1)->Identifier_0, TypeId::Any)]
                && final(self).cursor == old(self).cursor + 3),
    {
        match self.consume(&Token::LParen) {
            Ok(()) => {},
            Err(_) => {
                return Err(self.unexpected("expect argument list".to_owned()));
            },
        }
        let mut args: Vec<(u32, TypeId)> = Vec::new();
        loop
            invariant_except_break
                old(self).tok_at(1) is Identifier && old(self).tok_at(2) is RParen && old(self).can_pass(3) ==> (
                self.cursor == old(self).cursor + 1 && args@.len() == 0),
            invariant
                self.wf(),
                old(self).evolves(self),
                old(self).balanced(self),
                self.cursor > old(self).cursor,
                old(self).cur_tok() is LParen,
                old(self).tok_at(1) is RParen ==> self.cursor == old(self).cursor + 1 && args@.len() == 0 && self.frames
                    == old(self).frames && self.funcs == old(self).funcs && self.chunks == old(self).chunks,
            ensures
                self.wf(),
                old(self).evolves(self),
                old(self).balanced(self),
                self.cursor > old(self).cursor,
                old(self).tok_at(1) is RParen ==> self.cursor == old(self).cursor + 1 && args@.len() == 0 && self.frames
                    == old(self).frames && self.funcs == old(self).funcs && self.chunks == old(self).chunks,
                old(self).tok_at(1) is Identifier && old(self).tok_at(2) is RParen && old(self).can_pass(3) ==> (self.cursor
                    == old(self).cursor + 2 && args@ == seq![(old(self).tok_at(1)->Identifier_0, TypeId::Any)]),
            decreases self.remaining(),
        {
            let id = match self.current() {
                Token::Identifier(id) => id,
                _ => {
                    break;
                },
            };
            self.advance()?;
            let ty = if self.check(&Token::Colon) {
                proof { self.lemma_not_last(); }
                self.advance()?;
                let tn = self.expect_identifier("type name")?;
                match self.resolve_type_name(tn) {
                    Some(t) => t,
                    None => {
                        return Err(self.unknown_type(tn));
                    },
                }
            } else {
                TypeId::Any
            };
            args.push((id, ty));
            if !self.matches(&Token::Comma)? {
                break;
            }
        }
        match self.consume(&Token::RParen) {
            Ok(()) => {},
            Err(_) => {
                return Err(self.unexpected("expect argument list to close here".to_owned()));
            },
        }
        Ok(args)
    }

    /// `fn name(params) { body }` (or `@intrinsic fn name(params);`): at the
    /// top level the function is registered under its name (and its lang
    /// item) and stored in a global; nested, it becomes a closure held in a
    /// local.
    #[verifier::spinoff_prover]
    fn parse_fn_decl(&mut self, modifiers: Vec<FnModifier>) -> (r: Result<(), CompileError>)
        requires
            old(self).wf(),
        ensures
            old(self).parse_step(final(self), r is Ok),
            (exists|j: int| 0 <= j < modifiers@.len() && #[trigger] modifiers@[j] is Intrinsic) && old(self).cur_tok() is Fn
                && old(self).tok_at(1) is Identifier && old(self).tok_at(2) is LParen && old(self).tok_at(3) is RParen && old(
                self,
            ).tok_at(4) is Semicolon && old(self).can_pass(5) && old(self).locals().depth() == 0 && old(self).has_free_temp()
                ==> {
                let name = old(self).tok_at(1)->Identifier_0;
                &&& old(self).funcs.overloads(FnKeyModel::Name(name)).len() > 0 ==> r is Ok && final(self).cursor == old(
                    self,
                ).cursor + 5
                &&& old(self).funcs.overloads(FnKeyModel::Name(name)).len() == 0 && old(self).funcs.overloads(
                    FnKeyModel::External(old(self).interner@[name as int]),
                ).len() == 0 ==> (r matches Err(CompileError::UndefinedFunction { name: n, .. }) && n@ == old(
                    self,
                ).interner@[name as int])
            },
            // `fn name() {}` at the top level: a new chunk registered under the
            // name, and the global of that name bound to it
            modifiers@.len() == 0 && old(self).cur_tok() is Fn && old(self).tok_at(1) is Identifier && old(self).tok_at(2) is LParen
                && old(self).tok_at(3) is RParen && old(self).tok_at(4) is LBrace && old(self).tok_at(5) is RBrace
                && old(self).can_pass(6) && old(self).locals().depth() == 0 && old(self).has_free_temp() ==> {
                let name = old(self).tok_at(1)->Identifier_0;
                &&& r is Ok
                &&& final(self).cursor == old(self).cursor + 6
                &&& final(self).funcs.entries() == old(self).funcs.entries().push(FnEntry::ChunkIdx(old(self).chunks@.len() as usize))
                &&& final(self).funcs.key_of() == old(self).funcs.key_of().push(FnKeyModel::Name(name))
                &&& final(self).globals.slots().contains_key(name)
            },
        decreases old(self).remaining(), 18int,
    {
        let ghost pat = modifiers@.len() == 0 && old(self).cur_tok() is Fn && old(self).tok_at(1) is Identifier
            && old(self).tok_at(2) is LParen && old(self).tok_at(3) is RParen && old(self).tok_at(4) is LBrace
            && old(self).tok_at(5) is RBrace && old(self).can_pass(6) && old(self).locals().depth() == 0
            && old(self).has_free_temp();
        self.consume(&Token::Fn)?;
        let name = self.expect_identifier("identifier")?;
        let args = self.parse_arglist()?;
        let mut is_intrinsic = false;
        let mut lang_item: Option<LangItem> = None;
        let mut i: usize = 0;
        while i < modifiers.len()
            invariant
                0 <= i <= modifiers.len(),
                i == 0 ==> lang_item is None,
                is_intrinsic == exists|j: int| 0 <= j < i && #[trigger] modifiers@[j] is Intrinsic,
            decreases modifiers.len() - i,
        {
            match modifiers[i] {
                FnModifier::Intrinsic => {
                    is_intrinsic = true;
                },
                FnModifier::LangItem(item) => {
                    if lang_item.is_none() {
                        lang_item = Some(item);
                    }
                },
            }
            i = i + 1;
        }
        let is_top = self.is_top_level();
        if is_top && is_intrinsic {
            let id = match self.funcs.get_id(&FnLookupKey::Name(name)) {
                Some(id) => id,
                None => {
                    let ext = FnLookupKey::External(self.interner.resolve(name).to_owned());
                    match self.funcs.get_id(&ext) {
                        Some(id) => id,
                        None => {
                            return Err(CompileError::UndefinedFunction {
                                name: self.interner.resolve(name).to_owned(),
                                diag: (
                                    self.current_span(),
                                    "intrinsic function not provided by runtime".to_owned(),
                                ),
                            });
                        },
                    }
                },
            };
            self.store_global_fn(name, id)?;
        } else if is_top {
            // The id the registry gives the function below (after its lang
            // item, if it has one); ids are stored in 16 bits.
            let next = self.funcs.len() % 0x10000;
            let id = if lang_item.is_some() { next + 1 } else { next };
            proof {
                if pat {
                    assert(self.cursor == old(self).cursor + 4);
                    assert(self.has_free_temp());
                    assert(self.funcs == old(self).funcs);
                }
            }
            self.store_global_fn(name, id)?;
            proof {
                if pat {
                    assert(self.globals.slots().contains_key(name));
                    assert(self.chunks@.len() == old(self).chunks@.len());
                }
            }
        }
        if is_intrinsic {
            self.consume(&Token::Semicolon)?;
        } else {
            let names = param_names(&args);
            let chunk_idx = self.new_frame(names.as_slice())?;
            if is_top {
                proof {
                    assert(self.frames@[self.frames@.len() - 1].chunk_idx < self.chunks@.len());
                }
                let _ = self.register_decl(name, lang_item, chunk_idx, &args);
            }
            proof {
                if pat {
                    assert(chunk_idx == old(self).chunks@.len());
                    assert(self.funcs.entries() == old(self).funcs.entries().push(FnEntry::ChunkIdx(chunk_idx)));
                    assert(self.has_free_temp());
                    assert(self.cursor == old(self).cursor + 4);
                }
            }
            self.parse_block()?;
            self.emit_safety_net()?;
            if is_top {
                self.exit_frame()?;
            } else {
                let upvalues = self.take_upvalues();
                self.exit_frame()?;
                let fn_id = self.register_decl(name, None, chunk_idx, &args);
                let upvalue_count = (upvalues.len() % 0x10000) as u16;
                let proto_idx = self.add_constant(Value::FnProto { fn_id, upvalue_count });
                self.emit_closure(name, proto_idx, upvalues.as_slice())?;
            }
        }
        Ok(())
    }

    /// Registers a declared function whose body compiles to chunk
    /// `chunk_idx`: under its lang item first, when it has one, then under its
    /// name; returns the id under its name.
    fn register_decl(&mut self, name: u32, lang_item: Option<LangItem>, chunk_idx: usize, args: &Vec<(u32, TypeId)>) -> (id: usize)
        requires
            old(self).wf(),
            chunk_idx < old(self).chunks@.len(),
        ensures
            final(self).wf(),
            old(self).evolves(final(self)),
            old(self).balanced(final(self)),
            final(self).cursor == old(self).cursor,
            final(self).frames == old(self).frames,
            final(self).globals == old(self).globals,
            final(self).chunks == old(self).chunks,
            lang_item is None ==> {
                &&& id == old(self).funcs.entries().len()
                &&& final(self).funcs.entries() == old(self).funcs.entries().push(FnEntry::ChunkIdx(chunk_idx))
                &&& final(self).funcs.key_of() == old(self).funcs.key_of().push(FnKeyModel::Name(name))
            },
            lang_item matches Some(item) ==> {
                &&& id == old(self).funcs.entries().len() + 1
                &&& final(self).funcs.entries() == old(self).funcs.entries().push(FnEntry::ChunkIdx(chunk_idx)).push(
                    FnEntry::ChunkIdx(chunk_idx),
                )
                &&& final(self).funcs.key_of() == old(self).funcs.key_of().push(FnKeyModel::LangItem(item)).push(
                    FnKeyModel::Name(name),
                )
            },
            final(self).funcs.overloads(FnKeyModel::Name(name)) == spec_overload_insert(
                old(self).funcs.overloads(FnKeyModel::Name(name)),
                args@.map_values(|a: (u32, TypeId)| a.1),
                id,
            ),
    {
        let ghost pre = *self;
        match lang_item {
            Some(item) => {
                self.funcs.register(FnLookupKey::LangItem(item), FnEntry::ChunkIdx(chunk_idx), param_sig(args));
                proof {
                    lemma_register_keeps(pre.funcs, self.funcs, FnEntry::ChunkIdx(chunk_idx), FnKeyModel::LangItem(item));
                }
            },
            None => {},
        }
        let ghost mid = *self;
        let sig = param_sig(args);
        assert(sig.params() =~= args@.map_values(|a: (u32, TypeId)| a.1));
        let id = self.funcs.register(FnLookupKey::Name(name), FnEntry::ChunkIdx(chunk_idx), sig);
        proof {
            lemma_register_keeps(mid.funcs, self.funcs, FnEntry::ChunkIdx(chunk_idx), FnKeyModel::Name(name));
        }
        id
    }

    /// `struct Name { field: Type, … }`.
    #[verifier::rlimit(60)]
    #[verifier::spinoff_prover]
    fn parse_struct_decl(&mut self) -> (r: Result<(), CompileError>)
        requires
            old(self).wf(),
        ensures
            old(self).parse_step(final(self), r is Ok),
            r is Err ==> final(self).types == old(self).types,
            // `struct Name { f1: T1, …, fk: Tk }` declares `Name` with those
            // fields in that order, when each type is known
            old(self).cur_tok() is Struct && old(self).tok_at(1) is Identifier && old(self).tok_at(2) is LBrace ==> (
            struct_fields_at(old(self).toks@, old(self).cursor + 3) matches Some((fs, e)) ==> {
                let name = old(self).tok_at(1)->Identifier_0;
                &&& (forall|i: int| 0 <= i < fs.len() ==> old(self).spec_type_name(#[trigger] fs[i].1) is Some) && old(
                    self,
                ).can_pass(e - old(self).cursor + 1) ==> {
                    &&& r is Ok
                    &&& final(self).cursor == e + 1
                    &&& final(self).types.names() == old(self).types.names().insert(
                        name,
                        (old(self).types.defs().len() % 0x10000) as u16,
                    )
                    &&& final(self).types.defs().len() == old(self).types.defs().len() + 1
                    &&& final(self).types.defs().last().name == name
                    &&& final(self).types.defs().last().fields@ == old(self).typed_fields(fs)
                }
                &&& (exists|i: int| 0 <= i < fs.len() && old(self).spec_type_name(#[trigger] fs[i].1) is None) ==> r is Err
            }),
    {
        self.consume(&Token::Struct)?;
        let name = self.expect_identifier("struct name")?;
        self.consume(&Token::LBrace)?;
        let ghost shape = struct_fields_at(old(self).toks@, old(self).cursor + 3);
        let ghost fs = shape.unwrap().0;
        let ghost e = shape.unwrap().1;
        let mut fields: Vec<(u32, TypeId)> = Vec::new();
        proof {
            if shape is Some {
                lemma_struct_fields_at(old(self).toks@, old(self).cursor + 3);
                assert(fs.skip(0) =~= fs);
                assert(old(self).typed_fields(fs.take(0)) =~= fields@);
            }
        }
        while !self.check(&Token::RBrace) && !self.check(&Token::Eof)
            invariant
                self.wf(),
                old(self).evolves(self),
                old(self).balanced(self),
                self.cursor > old(self).cursor,
                self.types == old(self).types,
                self.interner@ == old(self).interner@,
                forall|f: int| 0 <= f < fields@.len() ==> (#[trigger] fields@[f]).0 < self.interner@.len(),
                shape == struct_fields_at(old(self).toks@, old(self).cursor + 3),
                fs == shape.unwrap().0,
                e == shape.unwrap().1,
                shape is Some ==> {
                    &&& fields@.len() <= fs.len()
                    &&& self.cursor <= e
                    &&& struct_fields_at(self.toks@, self.cursor as int) == Some((fs.skip(fields@.len() as int), e))
                    &&& fields@ == old(self).typed_fields(fs.take(fields@.len() as int))
                    &&& forall|i: int| 0 <= i < fields@.len() ==> old(self).spec_type_name(#[trigger] fs[i].1) is Some
                },
            ensures
                self.wf(),
                old(self).evolves(self),
                old(self).balanced(self),
                self.cursor > old(self).cursor,
                self.types == old(self).types,
                self.interner@ == old(self).interner@,
                forall|f: int| 0 <= f < fields@.len() ==> (#[trigger] fields@[f]).0 < self.interner@.len(),
                shape is Some ==> {
                    &&& fields@.len() == fs.len()
                    &&& self.cursor == e
                    &&& fields@ == old(self).typed_fields(fs)
                    &&& forall|i: int| 0 <= i < fs.len() ==> old(self).spec_type_name(#[trigger] fs[i].1) is Some
                },
            decreases self.remaining(),
        {
            let ghost p = self.cursor as int;
            proof {
                if shape is Some {
                    lemma_struct_fields_at(self.toks@, p);
                    assert(!(self.toks@[p].0 is RBrace));
                    assert(fs.skip(fields@.len() as int)[0] == fs[fields@.len() as int]);
                }
            }
            let field_name = self.expect_identifier("field name")?;
            self.consume(&Token::Colon)?;
            let ty_sym = self.expect_identifier("type name")?;
            proof {
                if shape is Some {
                    assert(fs[fields@.len() as int] == (field_name, ty_sym));
                }
            }
            let type_id = match self.resolve_type_name(ty_sym) {
                Some(t) => t,
                None => {
                    proof {
                        if shape is Some {
                            assert(old(self).spec_type_name(fs[fields@.len() as int].1) is None);
                        }
                    }
                    return Err(self.unknown_type(ty_sym));
                },
            };
            let ghost k = fields@.len() as int;
            fields.push((field_name, type_id));
            proof {
                if shape is Some {
                    assert(fs[k] == (field_name, ty_sym));
                    assert(old(self).typed_fields(fs.take(k + 1)) =~= old(self).typed_fields(fs.take(k)).push(
                        (field_name, type_id),
                    ));
                }
            }
            if self.check(&Token::Comma) {
                proof { self.lemma_not_last(); }
                self.advance()?;
                proof {
                    if shape is Some {
                        assert(fs.skip(k + 1) =~= fs.skip(k).drop_first());
                        lemma_struct_fields_at(self.toks@, self.cursor as int);
                    }
                }
            } else {
                proof {
                    if shape is Some {
                        assert(fs.skip(k + 1) =~= fs.skip(k).drop_first());
                        assert(self.toks@[p + 3].0 is RBrace);
                        assert(fs.skip(k).len() == 1);
                        assert(fs.take(k + 1) =~= fs);
                    }
                }
                break;
            }
        }
        proof {
            if shape is Some {
                lemma_struct_fields_at(self.toks@, self.cursor as int);
            }
        }
        self.consume(&Token::RBrace)?;
        self.types.declare_struct(name, fields);
        Ok(())
    }

    /// The modifier after an `@`: `intrinsic` or `lang_item(name)`.
    fn parse_modifier(&mut self) -> (r: Result<FnModifier, CompileError>)
        requires
            old(self).wf(),
        ensures
            old(self).parse_step(final(self), r is Ok),
            !(old(self).cur_tok() is Identifier) ==> (r matches Err(CompileError::Unexpected { token, diag }) && token
                == old(self).cur_tok() && diag.0 == old(self).prev_span && diag.1@ == "expected modifier name after @"@),
            old(self).cur_tok() matches Token::Identifier(sym) ==> old(self).can_pass(1) ==> {
                let name = old(self).interner@[sym as int];
                &&& name == "intrinsic"@ ==> r == Ok::<FnModifier, CompileError>(FnModifier::Intrinsic) && final(self).cursor
                    == old(self).cursor + 1
                &&& name != "intrinsic"@ && name != "lang_item"@ ==> (r matches Err(CompileError::Unexpected { token, diag })
                    && token is Other && diag.1@ == "unknown modifier: @"@ + name)
                &&& name == "lang_item"@ && name != "intrinsic"@ && old(self).tok_at(1) is LParen && old(self).tok_at(3) is RParen
                    && old(self).can_pass(4) ==> (old(self).tok_at(2) matches Token::Identifier(item_sym) ==> (
                spec_lang_item_from_name(old(self).interner@[item_sym as int]) matches Some(item) ==> r == Ok::<
                    FnModifier,
                    CompileError,
                >(FnModifier::LangItem(item)) && final(self).cursor == old(self).cursor + 4))
                &&& name == "lang_item"@ && name != "intrinsic"@ ==> {
                    &&& !(old(self).tok_at(1) is LParen) ==> (r matches Err(CompileError::Unexpected { diag, .. })
                        && diag.1@ == "expected '(' after @lang_item"@)
                    &&& old(self).tok_at(1) is LParen && old(self).can_pass(2) && !(old(self).tok_at(2) is Identifier) ==> (
                    r matches Err(CompileError::Unexpected { diag, .. }) && diag.1@ == "expected lang item name"@)
                    &&& old(self).tok_at(1) is LParen && old(self).can_pass(3) ==> (old(self).tok_at(2) matches Token::Identifier(
                        item_sym,
                    ) ==> {
                        let item_name = old(self).interner@[item_sym as int];
                        &&& spec_lang_item_from_name(item_name) is None ==> (r matches Err(
                            CompileError::Unexpected { diag, .. },
                        ) && diag.1@ == "unknown lang item: "@ + item_name)
                        &&& spec_lang_item_from_name(item_name) is Some && !(old(self).tok_at(3) is RParen) ==> (
                        r matches Err(CompileError::Unexpected { diag, .. }) && diag.1@ == "expected ')' after @lang_item"@)
                    })
                }
            },
    {
        let sym = match self.current() {
            Token::Identifier(sym) => {
                self.advance()?;
                sym
            },
            _ => {
                return Err(CompileError::Unexpected {
                    token: self.current(),
                    diag: (self.prev_span, "expected modifier name after @".to_owned()),
                });
            },
        };
        if str_eq(self.interner.resolve(sym), "intrinsic") {
            Ok(FnModifier::Intrinsic)
        } else if str_eq(self.interner.resolve(sym), "lang_item") {
            match self.consume(&Token::LParen) {
                Ok(()) => {},
                Err(_) => {
                    return Err(CompileError::Unexpected {
                        token: self.current(),
                        diag: (self.prev_span, "expected '(' after @lang_item".to_owned()),
                    });
                },
            }
            let item_sym = match self.current() {
                Token::Identifier(s) => {
                    self.advance()?;
                    s
                },
                _ => {
                    return Err(CompileError::Unexpected {
                        token: self.current(),
                        diag: (self.prev_span, "expected lang item name".to_owned()),
                    });
                },
            };
            let item = match LangItem::from_name(self.interner.resolve(item_sym)) {
                Some(item) => item,
                None => {
                    let msg = join("unknown lang item: ", self.interner.resolve(item_sym));
                    return Err(CompileError::Unexpected {
                        token: self.current(),
                        diag: (self.prev_span, msg),
                    });
                },
            };
            match self.consume(&Token::RParen) {
                Ok(()) => {},
                Err(_) => {
                    return Err(CompileError::Unexpected {
                        token: self.current(),
                        diag: (self.prev_span, "expected ')' after @lang_item".to_owned()),
                    });
                },
            }
            Ok(FnModifier::LangItem(item))
        } else {
            let msg = join("unknown modifier: @", self.interner.resolve(sym));
            Err(CompileError::Unexpected { token: Token::Other, diag: (self.prev_span, msg) })
        }
    }

    /// After the identifier `id` of an assignment statement: `= expr`, or
    /// `.f1.f2… = expr`, or a field chain read as an expression statement.
    fn parse_assign_lhs(&mut self, id: u32) -> (r: Result<(), CompileError>)
        requires
            old(self).wf(),
            id < old(self).interner@.len(),
        ensures
            old(self).parse_step(final(self), r is Ok),
            old(self).cur_tok() is Assign && old(self).lone_literal_at(1) && old(self).can_pass(2) && spec_resolve_local(
                old(self).locals().locals(),
                id,
            ) is Some && old(self).has_free_temp() ==> r is Ok && final(self).cursor == old(self).cursor + 2,
        decreases old(self).remaining(), 12int,
    {
        let span = self.prev_span;
        if self.check(&Token::Assign) {
            proof { self.lemma_not_last(); }
            self.advance()?;
            return self.emit_simple_assign(id, span);
        }
        let mut fields: Vec<u32> = Vec::new();
        loop
            invariant
                self.wf(),
                old(self).evolves(self),
                old(self).balanced(self),
                id < self.interner@.len(),
                forall|f: int| 0 <= f < fields@.len() ==> #[trigger] fields@[f] < self.interner@.len(),
                !(old(self).cur_tok() is Assign),
            decreases self.remaining(),
        {
            self.consume(&Token::Dot)?;
            let field = self.expect_identifier("field name after '.'")?;
            fields.push(field);
            if self.check(&Token::Assign) {
                proof { self.lemma_not_last(); }
                self.advance()?;
                return self.emit_field_chain_assign(id, fields.as_slice());
            }
            if !self.check(&Token::Dot) {
                let reg = self.emit_field_chain_get(id, fields.as_slice())?;
                self.free_temp(reg);
                return Ok(());
            }
        }
    }

    /// `id = expr`, after the `=`.
    fn emit_simple_assign(&mut self, id: u32, span: crate::span::Span) -> (r: Result<(), CompileError>)
        requires
            old(self).wf(),
            id < old(self).interner@.len(),
        ensures
            old(self).parse_step(final(self), r is Ok),
            Compiler::undefined_variable(*old(self), id) ==> {
                &&& *final(self) == *old(self)
                &&& r matches Err(CompileError::UndefinedVariable { name, diag })
                &&& name@ == old(self).interner@[id as int]
                &&& diag.0 == span
                &&& diag.1@ == "undefined variable"@
            },
            spec_resolve_local(old(self).locals().locals(), id) is Some && old(self).at_lone_literal() ==> r is Ok
                && final(self).cursor == old(self).cursor + 1,
            Compiler::undefined_variable(*old(self), id) == false && spec_resolve_local(old(self).locals().locals(), id) is None
                && !(old(self).frames@.len() > 1 && upvalue_reachable(old(self).frames@, old(self).frames@.len() - 1, id))
                && old(self).at_lone_literal() ==> r is Ok && final(self).cursor == old(self).cursor + 1,
        decreases old(self).remaining(), 11int,
    {
        match self.try_resolve_local(id) {
            Some(local) => {
                let reg = self.expression(Some(local))?;
                self.emit_move(local, reg);
                self.free_temp(reg);
                return Ok(());
            },
            None => {},
        }
        match self.resolve_upvalue(id) {
            Some(upvalue) => {
                let reg = self.expression(None)?;
                self.emit_op(OpCode::SETUPVAL);
                self.emit(reg);
                self.emit_wide(upvalue as u16);
                self.free_temp(reg);
                return Ok(());
            },
            None => {},
        }
        match self.resolve_global(id) {
            Some(global) => {
                let reg = self.expression(None)?;
                self.emit_op(OpCode::SETGLB);
                self.emit_wide(global);
                self.emit(reg);
                self.free_temp(reg);
                Ok(())
            },
            None => Err(CompileError::UndefinedVariable {
                name: self.interner.resolve(id).to_owned(),
                diag: (span, "undefined variable".to_owned()),
            }),
        }
    }

    /// `base.f1.f2… = expr`, after the `=`: `GETFIELD`s down to the last
    /// field, then `SETFIELD`.
    fn emit_field_chain_assign(&mut self, base: u32, fields: &[u32]) -> (r: Result<(), CompileError>)
        requires
            old(self).wf(),
            fields@.len() >= 1,
            base < old(self).interner@.len(),
            forall|f: int| 0 <= f < fields@.len() ==> #[trigger] fields@[f] < old(self).interner@.len(),
        ensures
            old(self).parse_step(final(self), r is Ok),
            Compiler::undefined_variable(*old(self), base) ==> {
                &&& *final(self) == *old(self)
                &&& r matches Err(CompileError::UndefinedVariable { name, diag })
                &&& name@ == old(self).interner@[base as int]
            },
            fields@.len() == 1 && spec_resolve_local(old(self).locals().locals(), base) is Some && old(self).at_lone_literal()
                ==> r is Ok && final(self).cursor == old(self).cursor + 1,
        decreases old(self).remaining(), 11int,
    {
        let base_reg = self.emit_identifier(base)?;
        let mut cur_reg = base_reg;
        let last = fields.len() - 1;
        let mut i: usize = 0;
        while i < last
            invariant
                0 <= i <= last,
                last == fields@.len() - 1,
                forall|f: int| 0 <= f < fields@.len() ==> #[trigger] fields@[f] < self.interner@.len(),
                self.wf(),
                old(self).evolves(self),
                old(self).balanced(self),
                self.cursor == old(self).cursor,
                !Compiler::undefined_variable(*old(self), base),
                fields@.len() == 1 && spec_resolve_local(old(self).locals().locals(), base) is Some ==> *self == *old(self),
            decreases last - i,
        {
            let next_reg = self.emit_getfield(cur_reg, fields[i])?;
            self.free_temp(cur_reg);
            cur_reg = next_reg;
            i = i + 1;
        }
        let val_reg = self.expression(None)?;
        self.emit_setfield(cur_reg, fields[last], val_reg);
        self.free_temp(val_reg);
        self.free_temp(cur_reg);
        Ok(())
    }

    /// `return;` or `return expr;`.
    fn parse_return_stmt(&mut self) -> (r: Result<(), CompileError>)
        requires
            old(self).wf(),
        ensures
            old(self).parse_step(final(self), r is Ok),
            old(self).cur_tok() is Return && old(self).tok_at(1) is Semicolon && old(self).can_pass(2)
                && old(self).has_free_temp() ==> r is Ok && final(self).cursor == old(self).cursor + 2,
            old(self).return_ready() ==> Compiler::return_done(*old(self), *final(self), r),
        decreases old(self).remaining(), 18int,
    {
        proof {
            reveal(Compiler::return_ready);
            reveal(Compiler::chain_ready);
            if old(self).return_ready() {
                lemma_operand_bounds(old(self).toks@, old(self).interner@, old(self).cursor + 1, 0);
            }
        }
        self.consume(&Token::Return)?;
        let ghost mid = *self;
        if self.check(&Token::Semicolon) {
            self.consume(&Token::Semicolon)?;
            let reg = self.alloc_temp()?;
            self.emit_op(OpCode::LOADNIL);
            self.emit(reg);
            self.emit_return(reg);
        } else {
            proof {
                if old(self).return_ready() {
                    assert(mid.chain_ready(0, None));
                }
            }
            let er = self.expression(None);
            proof {
                reveal(Compiler::chain_done);
            }
            let reg = er?;
            let ghost after_e = *self;
            self.consume(&Token::Semicolon)?;
            self.emit_return(reg);
            proof {
                reveal(Compiler::return_done);
                if old(self).return_ready() {
                    let code = self.code();
                    assert(code.subrange(0, code.len() - 2) =~= after_e.code());
                    lemma_prefix_trans(old(self).code(), after_e.code(), self.code());
                }
            }
        }
        Ok(())
    }

    /// `expr;`: evaluated for its effects.
    fn parse_expr_stmt(&mut self) -> (r: Result<(), CompileError>)
        requires
            old(self).wf(),
        ensures
            old(self).parse_step(final(self), r is Ok),
            old(self).at_lone_literal() && old(self).tok_at(1) is Semicolon && old(self).can_pass(2) ==> r is Ok
                && final(self).cursor == old(self).cursor + 2,
            old(self).starts_no_expr() ==> (r matches Err(e) && old(self).expected_error(e, "expression"@)),
        decreases old(self).remaining(), 18int,
    {
        let reg = self.expression(None)?;
        self.free_temp(reg);
        self.consume(&Token::Semicolon)?;
        Ok(())
    }

    /// `if cond { … } (else if … | else { … })?`.
    fn parse_if(&mut self) -> (r: Result<(), CompileError>)
        requires
            old(self).wf(),
        ensures
            old(self).parse_step(final(self), r is Ok),
            old(self).cur_tok() is If && old(self).lone_literal_at(1) && old(self).tok_at(2) is LBrace && old(self).tok_at(3) is RBrace
                && !(old(self).tok_at(4) is Else) && old(self).can_pass(4) && old(self).has_free_temp() ==> r is Ok
                && final(self).cursor == old(self).cursor + 4,
        decreases old(self).remaining(), 18int,
    {
        self.consume(&Token::If)?;
        let test = self.expression(None)?;
        let skip_then = self.emit_forward_test(test);
        self.free_temp(test);
        self.parse_block()?;
        if self.matches(&Token::Else)? {
            let skip_else = self.emit_forward_jmp();
            self.place_label(skip_then);
            if self.check(&Token::If) {
                self.parse_if()?;
            } else if self.check(&Token::LBrace) {
                self.parse_block()?;
            } else {
                let msg = self.expected_found("else-if clause or else clause");
                return Err(self.unexpected(msg));
            }
            self.place_label(skip_else);
        } else {
            self.place_label(skip_then);
        }
        Ok(())
    }

    /// `break;` (when `is_break`) or `continue;`, inside a loop.
    fn parse_jump(&mut self, is_break: bool) -> (r: Result<(), CompileError>)
        requires
            old(self).wf(),
        ensures
            old(self).parse_step(final(self), r is Ok),
            (if is_break { old(self).cur_tok() is Break } else { old(self).cur_tok() is Continue }) ==> {
                &&& old(self).can_pass(1) && old(self).frames@.last().loops@.len() == 0 ==> (r matches Err(
                    CompileError::Unexpected { token, diag },
                ) && token == old(self).cur_tok() && diag.1@ == old(self).cur_tok().spec_describe() + " outside loop"@)
                &&& old(self).frames@.last().loops@.len() > 0 && old(self).tok_at(1) is Semicolon && old(self).can_pass(2)
                    ==> {
                    &&& r is Ok
                    &&& final(self).cursor == old(self).cursor + 2
                    &&& is_break ==> final(self).code() == old(self).code() + seq![spec_op_byte(OpCode::JMP), 0u8, 0u8]
                    &&& !is_break ==> final(self).code().len() == old(self).code().len() + 3
                }
            },
        decreases old(self).remaining(), 18int,
    {
        let token = if is_break { Token::Break } else { Token::Continue };
        self.consume(&token)?;
        if !self.in_loop() {
            let msg = join(token.describe(), " outside loop");
            return Err(CompileError::Unexpected { token, diag: (self.prev_span, msg) });
        }
        if is_break {
            let label = self.break_label();
            self.emit_forward_jmp_to(label);
        } else {
            let label = self.continue_label();
            self.emit_jmp_to(label);
        }
        self.consume(&Token::Semicolon)?;
        Ok(())
    }

    /// `while cond { … }`.
    fn parse_while(&mut self) -> (r: Result<(), CompileError>)
        requires
            old(self).wf(),
        ensures
            old(self).parse_step(final(self), r is Ok),
            old(self).cur_tok() is While && old(self).lone_literal_at(1) && old(self).tok_at(2) is LBrace && old(self).tok_at(3) is RBrace
                && old(self).can_pass(4) && old(self).has_free_temp() ==> r is Ok && final(self).cursor == old(self).cursor + 4,
        decreases old(self).remaining(), 18int,
    {
        self.consume(&Token::While)?;
        // The loop is entered before its condition: `break` and `continue`
        // cannot stand in an expression, so only the order of the steps changes.
        let cond = self.emit_here_label();
        let end = self.new_label();
        let ghost before = self.frames@.last().loops@;
        self.push_loop(end, cond);
        let test = self.expression(None)?;
        let skip = self.emit_forward_test(test);
        self.free_temp(test);
        self.parse_block()?;
        proof {
            let loops = self.frames@.last().loops@;
            assert(loops[loops.len() - 1] == crate::compiler::loop_tracker::LoopLabels { break_label: end, continue_label: cond });
        }
        self.emit_jmp_to(cond);
        self.pop_loop();
        proof {
            lemma_push_pop_loop(before, crate::compiler::loop_tracker::LoopLabels { break_label: end, continue_label: cond });
        }
        self.place_label(end);
        self.place_label(skip);
        Ok(())
    }
}

} // verus!
