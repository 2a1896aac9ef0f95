use vstd::prelude::*;
use crate::compiler::meaning::{lemma_prefix_trans, prefix_of};

use crate::compiler::compile::{new_upvalue, upvalue_reachable, CompileError, Compiler};
use crate::compiler::register::RegState;
use crate::compiler::variables::{spec_resolve_local, Local, UpvalueDescriptor};
use crate::constant::spec_find;
use crate::functions::{spec_key_text, FnKeyModel, FnLookupKey, LangItem};
use crate::opcode::{spec_op_byte, OpCode};
use crate::types::StructDef;
use crate::value::{Value, ValueModel};
use crate::vm::chunk::{spec_hi, spec_lo};

verus! {

/// The slot that a constant equal to `v` has once it is in the table
/// `consts` (as a 16-bit operand).
pub(crate) open spec fn const_slot(consts: Seq<ValueModel>, v: ValueModel) -> u16 {
    match spec_find(consts, v) {
        Some(i) => (i % 0x10000) as u16,
        None => (consts.len() % 0x10000) as u16,
    }
}

/// The table `consts` once `v` is in it: appended unless an equal constant
/// is there already.
pub(crate) open spec fn consts_after(consts: Seq<ValueModel>, v: ValueModel) -> Seq<ValueModel> {
    match spec_find(consts, v) {
        Some(_) => consts,
        None => consts.push(v),
    }
}

/// The operand bytes that list captured variables in a `CLOSURE`
/// instruction: for each, 1 for a register of the enclosing frame or 0 for an
/// upvalue of the enclosing closure, then its index.
pub(crate) open spec fn upvalue_pairs(ups: Seq<UpvalueDescriptor>) -> Seq<u8>
    decreases ups.len(),
{
    if ups.len() == 0 {
        Seq::empty()
    } else {
        upvalue_pairs(ups.drop_last()) + seq![if ups.last().is_local { 1u8 } else { 0u8 }, ups.last().index]
    }
}

/// `CALLK dst fn_slot frame_offset argc args…`.
pub(crate) open spec fn callk_code(dst: u8, fn_slot: usize, frame_offset: u8, args: Seq<u8>) -> Seq<u8> {
    seq![
        spec_op_byte(OpCode::CALLK),
        dst,
        spec_lo((fn_slot % 0x10000) as u16),
        spec_hi((fn_slot % 0x10000) as u16),
        frame_offset,
        (args.len() % 256) as u8,
    ] + args
}

impl Compiler {
    /// `after` is `before` with a new temporary `r` loaded by the
    /// instruction `op r operands…`; on a register overflow no code was
    /// added.
    pub(crate) open spec fn loads_temp(
        before: Compiler,
        after: Compiler,
        r: Result<u8, CompileError>,
        op: OpCode,
        operands: Seq<u8>,
    ) -> bool {
        &&& Compiler::allocs_temp(before, after, r)
        &&& r matches Ok(reg) ==> after.code() == before.code() + seq![spec_op_byte(op), reg] + operands
        &&& r is Err ==> after.code() == before.code()
        &&& r matches Err(e) ==> e is RegisterOverflow
    }

    /// `after` is `before` with a call of the operator `item` on `args`
    /// emitted into `r`: `target` when given; an undefined function error with
    /// nothing emitted when no function implements `item`.
    pub(crate) open spec fn calls_lang_item(
        before: Compiler,
        after: Compiler,
        item: LangItem,
        args: Seq<u8>,
        target: Option<u8>,
        r: Result<u8, CompileError>,
    ) -> bool {
        let ovs = before.funcs.overloads(FnKeyModel::LangItem(item));
        &&& ovs.len() == 0 ==> {
            &&& after == before
            &&& r matches Err(CompileError::UndefinedFunction { name, diag })
            &&& name@ == spec_key_text(FnKeyModel::LangItem(item))
            &&& diag.0 == before.toks@[before.cursor as int].1
            &&& diag.1@ == "this language item is not defined"@
        }
        &&& ovs.len() > 0 ==> {
            &&& target matches Some(t) ==> r == Ok::<u8, CompileError>(t)
            &&& (exists|i: int| 0 <= i < args.len() && Compiler::reusable(before.regs(), #[trigger] args[i]))
                || before.has_free_temp() ==> r is Ok
            &&& r matches Err(e) ==> e is RegisterOverflow && after.code() == before.code()
            &&& r matches Ok(reg) ==> exists|wm: u8| after.code() == before.code() + #[trigger] callk_code(reg, ovs[0].1, wm, args)
        }
    }

    /// A call with no target whose first argument may take the result puts
    /// it there and frees the other temporaries among the arguments, leaving
    /// the constants, the chunk and the functions as they were.
    pub(crate) open spec fn reuses_first(
        before: Compiler,
        after: Compiler,
        item: LangItem,
        args: Seq<u8>,
        target: Option<u8>,
        r: Result<u8, CompileError>,
    ) -> bool {
        target is None && args.len() > 0 && Compiler::reusable(before.regs(), args[0])
            && before.funcs.overloads(FnKeyModel::LangItem(item)).len() > 0 ==> {
            &&& r == Ok::<u8, CompileError>(args[0])
            &&& Compiler::frees_other_temps(before.regs(), after.regs(), args[0], args, args.len() as int)
            &&& after.regs().temp_first_run == before.regs().temp_first_run
            &&& after.frames@.last().chunk_idx == before.frames@.last().chunk_idx
            &&& after.cur_chunk().constants == before.cur_chunk().constants
            &&& after.funcs == before.funcs
        }
    }

    /// `name` is no local, no variable of an enclosing function and no global.
    pub(crate) open spec fn undefined_variable(before: Compiler, name: u32) -> bool {
        &&& spec_resolve_local(before.locals().locals(), name) is None
        &&& !(before.frames@.len() > 1 && upvalue_reachable(before.frames@, before.frames@.len() - 1, name))
        &&& !before.globals.slots().contains_key(name)
    }

    /// `after` is `before` followed by `NEWSTRUCT dst def_id count` and, for
    /// each of the first `n` of `regs`, a field-name constant and the register.
    pub open spec fn newstruct_emitted(before: Seq<u8>, after: Seq<u8>, dst: u8, def_id: u16, regs: Seq<u8>, n: int) -> bool {
        &&& after.len() == before.len() + 5 + 3 * n
        &&& after.subrange(0, before.len() + 5int) == before + seq![
            spec_op_byte(OpCode::NEWSTRUCT),
            dst,
            spec_lo(def_id),
            spec_hi(def_id),
            (regs.len() % 256) as u8,
        ]
        &&& forall|i: int| 0 <= i < n ==> #[trigger] after[before.len() + 5 + 3 * i + 2] == regs[i]
    }

    /// `after` is `before` with variable `name` made available in `r`: a
    /// local's own register with nothing emitted; else a new temporary loaded
    /// from a new upvalue of the current function when an enclosing function
    /// has `name` as a local; else from its global slot; else an undefined
    /// variable error.
    pub(crate) open spec fn loads_identifier(before: Compiler, after: Compiler, name: u32, r: Result<u8, CompileError>) -> bool {
        match spec_resolve_local(before.locals().locals(), name) {
            Some(reg) => r == Ok::<u8, CompileError>(reg) && after == before,
            None => if before.frames@.len() > 1 && upvalue_reachable(before.frames@, before.frames@.len() - 1, name) {
                let idx = before.frames@.last().upvalues@.len() % 256;
                &&& after.frames@.last().upvalues@ == before.frames@.last().upvalues@.push(
                    new_upvalue(before.frames@, before.frames@.len() - 1, name),
                )
                &&& Compiler::loads_temp(before, after, r, OpCode::GETUPVAL, seq![spec_lo(idx as u16), spec_hi(idx as u16)])
            } else if before.globals.slots().contains_key(name) {
                let slot = before.globals.slots()[name];
                Compiler::loads_temp(before, after, r, OpCode::GETGLB, seq![spec_lo(slot), spec_hi(slot)])
            } else {
                &&& after == before
                &&& r matches Err(CompileError::UndefinedVariable { name: n, diag })
                &&& n@ == before.interner@[name as int]
                &&& diag.0 == before.prev_span
                &&& diag.1@ == "undefined variable"@
            },
        }
    }
}

// ── Values ──

impl Compiler {
    /// The register holding variable `name`: a local's own register, or a
    /// temporary loaded by `GETUPVAL` or `GETGLB`.
    pub(crate) fn emit_identifier(&mut self, name: u32) -> (r: Result<u8, CompileError>)
        requires
            old(self).wf(),
            name < old(self).interner@.len(),
        ensures
            final(self).wf(),
            old(self).evolves(final(self)),
            old(self).balanced(final(self)),
            final(self).cursor == old(self).cursor,
            r matches Err(e) ==> e is UndefinedVariable || e is RegisterOverflow,
            Compiler::loads_identifier(*old(self), *final(self), name, r),
    {
        match self.try_resolve_local(name) {
            Some(reg) => {
                return Ok(reg);
            },
            None => {},
        }
        match self.resolve_upvalue(name) {
            Some(up_idx) => {
                let ghost c0 = self.code();
                let reg = match self.alloc_temp() {
                    Ok(reg) => reg,
                    Err(e) => return Err(e),
                };
                self.emit_op(OpCode::GETUPVAL);
                self.emit(reg);
                self.emit_wide(up_idx as u16);
                assert(self.code() =~= c0 + seq![spec_op_byte(OpCode::GETUPVAL), reg] + seq![
                    spec_lo(up_idx as u16),
                    spec_hi(up_idx as u16),
                ]);
                return Ok(reg);
            },
            None => {},
        }
        match self.resolve_global(name) {
            Some(slot) => {
                let reg = match self.alloc_temp() {
                    Ok(reg) => reg,
                    Err(e) => return Err(e),
                };
                self.emit_op(OpCode::GETGLB);
                self.emit(reg);
                self.emit_wide(slot);
                assert(self.code() =~= old(self).code() + seq![spec_op_byte(OpCode::GETGLB), reg] + seq![
                    spec_lo(slot),
                    spec_hi(slot),
                ]);
                Ok(reg)
            },
            None => Err(CompileError::UndefinedVariable {
                name: self.interner.resolve(name).to_owned(),
                diag: (self.prev_span, "undefined variable".to_owned()),
            }),
        }
    }

    /// Loads a constant into a new temporary: `LOADK r k`.
    pub(crate) fn emit_constant(&mut self, value: Value) -> (r: Result<u8, CompileError>)
        requires
            old(self).wf(),
        ensures
            final(self).wf(),
            old(self).evolves(final(self)),
            old(self).balanced(final(self)),
            final(self).cursor == old(self).cursor,
            r matches Err(e) ==> e is RegisterOverflow,
            old(self).has_free_temp() ==> r is Ok,
            final(self).cur_chunk().constants@ == consts_after(old(self).cur_chunk().constants@, value@),
            Compiler::loads_temp(*old(self), *final(self), r, OpCode::LOADK, {
                let k = const_slot(old(self).cur_chunk().constants@, value@);
                seq![spec_lo(k), spec_hi(k)]
            }),
            final(self).frames@.drop_last() == old(self).frames@.drop_last(),
            final(self).frames@.last().chunk_idx == old(self).frames@.last().chunk_idx,
            final(self).funcs == old(self).funcs,
    {
        let k = self.add_constant(value);
        let reg = match self.alloc_temp() {
            Ok(reg) => reg,
            Err(e) => return Err(e),
        };
        self.emit_op(OpCode::LOADK);
        self.emit(reg);
        self.emit_wide(k);
        assert(self.code() =~= old(self).code() + seq![spec_op_byte(OpCode::LOADK), reg] + seq![spec_lo(k), spec_hi(k)]);
        Ok(reg)
    }

    /// Loads the number with bit pattern `bits`.
    pub(crate) fn emit_number(&mut self, bits: u64) -> (r: Result<u8, CompileError>)
        requires
            old(self).wf(),
        ensures
            final(self).wf(),
            old(self).evolves(final(self)),
            old(self).balanced(final(self)),
            final(self).cursor == old(self).cursor,
            r matches Err(e) ==> e is RegisterOverflow,
            old(self).has_free_temp() ==> r is Ok,
            final(self).cur_chunk().constants@ == consts_after(old(self).cur_chunk().constants@, ValueModel::Number(bits)),
            Compiler::loads_temp(*old(self), *final(self), r, OpCode::LOADK, {
                let k = const_slot(old(self).cur_chunk().constants@, ValueModel::Number(bits));
                seq![spec_lo(k), spec_hi(k)]
            }),
            final(self).frames@.drop_last() == old(self).frames@.drop_last(),
            final(self).frames@.last().chunk_idx == old(self).frames@.last().chunk_idx,
            final(self).funcs == old(self).funcs,
    {
        self.emit_constant(Value::Number(bits))
    }

    /// Loads the string interned as `sym`.
    pub(crate) fn emit_string(&mut self, sym: u32) -> (r: Result<u8, CompileError>)
        requires
            old(self).wf(),
            sym < old(self).interner@.len(),
        ensures
            final(self).wf(),
            old(self).evolves(final(self)),
            old(self).balanced(final(self)),
            final(self).cursor == old(self).cursor,
            r matches Err(e) ==> e is RegisterOverflow,
            old(self).has_free_temp() ==> r is Ok,
            final(self).cur_chunk().constants@ == consts_after(
                old(self).cur_chunk().constants@,
                ValueModel::Str(old(self).interner@[sym as int]),
            ),
            Compiler::loads_temp(*old(self), *final(self), r, OpCode::LOADK, {
                let k = const_slot(old(self).cur_chunk().constants@, ValueModel::Str(old(self).interner@[sym as int]));
                seq![spec_lo(k), spec_hi(k)]
            }),
            final(self).frames@.drop_last() == old(self).frames@.drop_last(),
            final(self).frames@.last().chunk_idx == old(self).frames@.last().chunk_idx,
            final(self).funcs == old(self).funcs,
    {
        let s = self.interner.resolve(sym).to_owned();
        self.emit_constant(Value::String(s))
    }

    /// `LOADBOOL r b` in a new temporary.
    pub(crate) fn emit_bool(&mut self, b: bool) -> (r: Result<u8, CompileError>)
        requires
            old(self).wf(),
        ensures
            final(self).wf(),
            old(self).evolves(final(self)),
            old(self).balanced(final(self)),
            final(self).cursor == old(self).cursor,
            r matches Err(e) ==> e is RegisterOverflow,
            old(self).has_free_temp() ==> r is Ok,
            Compiler::loads_temp(*old(self), *final(self), r, OpCode::LOADBOOL, seq![if b { 1u8 } else { 0u8 }]),
            final(self).frames@.drop_last() == old(self).frames@.drop_last(),
            final(self).frames@.last().chunk_idx == old(self).frames@.last().chunk_idx,
            final(self).cur_chunk().constants == old(self).cur_chunk().constants,
            final(self).funcs == old(self).funcs,
    {
        let reg = match self.alloc_temp() {
            Ok(reg) => reg,
            Err(e) => return Err(e),
        };
        self.emit_op(OpCode::LOADBOOL);
        self.emit(reg);
        self.emit(if b { 1 } else { 0 });
        assert(self.code() =~= old(self).code() + seq![spec_op_byte(OpCode::LOADBOOL), reg] + seq![
            if b { 1u8 } else { 0u8 },
        ]);
        Ok(reg)
    }

    /// `LOADNIL r` in a new temporary.
    pub(crate) fn emit_nil(&mut self) -> (r: Result<u8, CompileError>)
        requires
            old(self).wf(),
        ensures
            final(self).wf(),
            old(self).evolves(final(self)),
            old(self).balanced(final(self)),
            final(self).cursor == old(self).cursor,
            r matches Err(e) ==> e is RegisterOverflow,
            old(self).has_free_temp() ==> r is Ok,
            Compiler::loads_temp(*old(self), *final(self), r, OpCode::LOADNIL, Seq::empty()),
            final(self).frames@.drop_last() == old(self).frames@.drop_last(),
            final(self).frames@.last().chunk_idx == old(self).frames@.last().chunk_idx,
            final(self).cur_chunk().constants == old(self).cur_chunk().constants,
            final(self).funcs == old(self).funcs,
    {
        let reg = match self.alloc_temp() {
            Ok(reg) => reg,
            Err(e) => return Err(e),
        };
        self.emit_op(OpCode::LOADNIL);
        self.emit(reg);
        assert(self.code() =~= old(self).code() + seq![spec_op_byte(OpCode::LOADNIL), reg] + Seq::<u8>::empty());
        Ok(reg)
    }

    // ── Function calls ──

    /// A call of the operator `item` on `args`, into `target` or a reused or
    /// new register.
    pub(crate) fn emit_lang_item_call(&mut self, item: LangItem, args: &[u8], target: Option<u8>) -> (r: Result<u8, CompileError>)
        requires
            old(self).wf(),
        ensures
            final(self).wf(),
            old(self).evolves(final(self)),
            old(self).balanced(final(self)),
            final(self).cursor == old(self).cursor,
            r matches Err(e) ==> e is UndefinedFunction || e is RegisterOverflow,
            Compiler::calls_lang_item(*old(self), *final(self), item, args@, target, r),
            Compiler::reuses_first(*old(self), *final(self), item, args@, target, r),
    {
        let key = FnLookupKey::LangItem(item);
        let fn_id = match self.funcs.get_id(&key) {
            Some(id) => id,
            None => {
                return Err(CompileError::UndefinedFunction {
                    name: key.describe(),
                    diag: (self.current_span(), "this language item is not defined".to_owned()),
                });
            },
        };
        let reg = match self.target_or_reuse(target, args) {
            Ok(reg) => reg,
            Err(e) => return Err(e),
        };
        let wm = self.reg_watermark();
        self.emit_callk(reg, fn_id, wm, args);
        self.free_other_temps(reg, args);
        assert(self.code() == old(self).code() + callk_code(reg, fn_id, wm, args@));
        Ok(reg)
    }

    // ── Closures ──

    /// Appends the (is_local, index) pairs of a `CLOSURE` instruction.
    fn emit_upvalue_pairs(&mut self, upvalues: &[UpvalueDescriptor])
        requires
            old(self).wf(),
        ensures
            final(self).wf(),
            old(self).evolves(final(self)),
            old(self).balanced(final(self)),
            final(self).cursor == old(self).cursor,
            final(self).frames == old(self).frames,
            final(self).globals == old(self).globals,
            final(self).cur_chunk().constants == old(self).cur_chunk().constants,
            final(self).code() == old(self).code() + upvalue_pairs(upvalues@),
    {
        let mut i: usize = 0;
        while i < upvalues.len()
            invariant
                0 <= i <= upvalues.len(),
                self.wf(),
                old(self).evolves(self),
                old(self).balanced(self),
                self.cursor == old(self).cursor,
                self.frames == old(self).frames,
                self.globals == old(self).globals,
                self.cur_chunk().constants == old(self).cur_chunk().constants,
                self.code() == old(self).code() + upvalue_pairs(upvalues@.take(i as int)),
            decreases upvalues.len() - i,
        {
            self.emit(if upvalues[i].is_local { 1 } else { 0 });
            self.emit(upvalues[i].index);
            assert(upvalues@.take(i + 1).drop_last() =~= upvalues@.take(i as int));
            i = i + 1;
        }
        assert(upvalues@.take(upvalues@.len() as int) =~= upvalues@);
    }

    /// `CLOSURE r proto pairs…` into a new held register, declared as local `name`.
    pub(crate) fn emit_closure(&mut self, name: u32, proto_idx: u16, upvalues: &[UpvalueDescriptor]) -> (r: Result<(), CompileError>)
        requires
            old(self).wf(),
        ensures
            final(self).wf(),
            old(self).evolves(final(self)),
            old(self).balanced(final(self)),
            final(self).cursor == old(self).cursor,
            r matches Err(e) ==> e is RegisterOverflow,
            old(self).regs().held_pt >= old(self).regs().state.len() ==> r is Err && final(self).code() == old(self).code()
                && final(self).regs() == old(self).regs(),
            old(self).regs().held_pt < old(self).regs().state.len() ==> {
                let reg = old(self).regs().held_pt as u8;
                &&& r is Ok
                &&& final(self).code() == old(self).code() + seq![spec_op_byte(OpCode::CLOSURE), reg, spec_lo(proto_idx), spec_hi(proto_idx)]
                    + upvalue_pairs(upvalues@)
                &&& final(self).regs().state == old(self).regs().state.update(reg as int, RegState::Held)
                &&& final(self).locals().locals() == old(self).locals().locals().push(
                    Local { id: name, reg, depth: old(self).locals().depth() as usize, captured: false },
                )
            },
    {
        let reg = match self.alloc_held() {
            Ok(reg) => reg,
            Err(e) => return Err(e),
        };
        self.emit_op(OpCode::CLOSURE);
        self.emit(reg);
        self.emit_wide(proto_idx);
        let ghost c1 = self.code();
        self.emit_upvalue_pairs(upvalues);
        self.add_local(name, reg);
        assert(c1 =~= old(self).code() + seq![spec_op_byte(OpCode::CLOSURE), reg, spec_lo(proto_idx), spec_hi(proto_idx)]);
        Ok(())
    }

    /// `CLOSURE r proto pairs…` into a new temporary, returned.
    pub(crate) fn emit_closure_temp(&mut self, proto_idx: u16, upvalues: &[UpvalueDescriptor]) -> (r: Result<u8, CompileError>)
        requires
            old(self).wf(),
        ensures
            final(self).wf(),
            old(self).evolves(final(self)),
            old(self).balanced(final(self)),
            final(self).cursor == old(self).cursor,
            r matches Err(e) ==> e is RegisterOverflow,
            Compiler::loads_temp(
                *old(self),
                *final(self),
                r,
                OpCode::CLOSURE,
                seq![spec_lo(proto_idx), spec_hi(proto_idx)] + upvalue_pairs(upvalues@),
            ),
    {
        let reg = match self.alloc_temp() {
            Ok(reg) => reg,
            Err(e) => return Err(e),
        };
        self.emit_op(OpCode::CLOSURE);
        self.emit(reg);
        self.emit_wide(proto_idx);
        let ghost c1 = self.code();
        self.emit_upvalue_pairs(upvalues);
        assert(c1 =~= old(self).code() + seq![spec_op_byte(OpCode::CLOSURE), reg, spec_lo(proto_idx), spec_hi(proto_idx)]);
        assert(self.code() =~= old(self).code() + seq![spec_op_byte(OpCode::CLOSURE), reg] + (seq![
            spec_lo(proto_idx),
            spec_hi(proto_idx),
        ] + upvalue_pairs(upvalues@)));
        Ok(reg)
    }

    // ── Structs ──

    /// The string constant holding the interned name `sym`.
    fn name_constant(&mut self, sym: u32) -> (k: u16)
        requires
            old(self).wf(),
            sym < old(self).interner@.len(),
        ensures
            final(self).wf(),
            old(self).evolves(final(self)),
            old(self).balanced(final(self)),
            final(self).cursor == old(self).cursor,
            final(self).code() == old(self).code(),
            final(self).frames == old(self).frames,
            final(self).globals == old(self).globals,
            final(self).funcs == old(self).funcs,
            k == const_slot(old(self).cur_chunk().constants@, ValueModel::Str(old(self).interner@[sym as int])),
            final(self).cur_chunk().constants@ == consts_after(
                old(self).cur_chunk().constants@,
                ValueModel::Str(old(self).interner@[sym as int]),
            ),
    {
        let s = self.interner.resolve(sym).to_owned();
        self.add_constant(Value::String(s))
    }

    /// `NEWSTRUCT dst def count {name_k reg}*`: field `i` of `def` gets `regs[i]`.
    pub(crate) fn emit_newstruct(&mut self, dst: u8, def_id: u16, def: &StructDef, regs: &[u8])
        requires
            old(self).wf(),
            regs@.len() <= def.fields@.len(),
            forall|f: int| 0 <= f < def.fields@.len() ==> (#[trigger] def.fields@[f]).0 < old(self).interner@.len(),
        ensures
            final(self).wf(),
            old(self).evolves(final(self)),
            old(self).balanced(final(self)),
            final(self).cursor == old(self).cursor,
            final(self).frames == old(self).frames,
            Compiler::newstruct_emitted(old(self).code(), final(self).code(), dst, def_id, regs@, regs@.len() as int),
            prefix_of(old(self).cur_chunk().constants@, final(self).cur_chunk().constants@),
            final(self).funcs == old(self).funcs,
    {
        self.emit_op(OpCode::NEWSTRUCT);
        self.emit(dst);
        self.emit_wide(def_id);
        self.emit((regs.len() % 256) as u8);
        assert(self.code().subrange(0, old(self).code().len() + 5int) =~= old(self).code() + seq![
            spec_op_byte(OpCode::NEWSTRUCT),
            dst,
            spec_lo(def_id),
            spec_hi(def_id),
            (regs@.len() % 256) as u8,
        ]);
        let mut i: usize = 0;
        while i < regs.len()
            invariant
                0 <= i <= regs.len(),
                regs@.len() <= def.fields@.len(),
                forall|f: int| 0 <= f < def.fields@.len() ==> (#[trigger] def.fields@[f]).0 < self.interner@.len(),
                self.wf(),
                old(self).evolves(self),
                old(self).balanced(self),
                self.cursor == old(self).cursor,
                self.frames == old(self).frames,
                Compiler::newstruct_emitted(old(self).code(), self.code(), dst, def_id, regs@, i as int),
                prefix_of(old(self).cur_chunk().constants@, self.cur_chunk().constants@),
                self.funcs == old(self).funcs,
            decreases regs.len() - i,
        {
            let ghost c0 = self.code();
            let ghost k0 = self.cur_chunk().constants@;
            let name_k = self.name_constant(def.fields[i].0);
            proof {
                let v = ValueModel::Str(self.interner@[def.fields@[i as int].0 as int]);
                assert(prefix_of(k0, consts_after(k0, v)));
                lemma_prefix_trans(old(self).cur_chunk().constants@, k0, self.cur_chunk().constants@);
            }
            self.emit_wide(name_k);
            self.emit(regs[i]);
            assert(self.code() =~= c0 + seq![spec_lo(name_k), spec_hi(name_k), regs@[i as int]]);
            assert(self.code().subrange(0, old(self).code().len() + 5int) =~= c0.subrange(0, old(self).code().len() + 5int));
            assert forall|j: int| 0 <= j < i + 1 implies #[trigger] self.code()[old(self).code().len() + 5 + 3 * j + 2]
                == regs@[j] by {
                if j < i {
                    assert(self.code()[old(self).code().len() + 5 + 3 * j + 2] == c0[old(self).code().len() + 5 + 3 * j + 2]);
                }
            }
            i = i + 1;
        }
    }

    /// `GETFIELD dst obj name_k`: reads field `field` of the struct in `obj_reg`
    /// into a new temporary.
    pub(crate) fn emit_getfield(&mut self, obj_reg: u8, field: u32) -> (r: Result<u8, CompileError>)
        requires
            old(self).wf(),
            field < old(self).interner@.len(),
        ensures
            final(self).wf(),
            old(self).evolves(final(self)),
            old(self).balanced(final(self)),
            final(self).cursor == old(self).cursor,
            r matches Err(e) ==> e is RegisterOverflow,
            final(self).cur_chunk().constants@ == consts_after(
                old(self).cur_chunk().constants@,
                ValueModel::Str(old(self).interner@[field as int]),
            ),
            Compiler::loads_temp(*old(self), *final(self), r, OpCode::GETFIELD, {
                let k = const_slot(old(self).cur_chunk().constants@, ValueModel::Str(old(self).interner@[field as int]));
                seq![obj_reg, spec_lo(k), spec_hi(k)]
            }),
    {
        let name_k = self.name_constant(field);
        let dst = match self.alloc_temp() {
            Ok(dst) => dst,
            Err(e) => return Err(e),
        };
        self.emit_op(OpCode::GETFIELD);
        self.emit(dst);
        self.emit(obj_reg);
        self.emit_wide(name_k);
        assert(self.code() =~= old(self).code() + seq![spec_op_byte(OpCode::GETFIELD), dst] + seq![
            obj_reg,
            spec_lo(name_k),
            spec_hi(name_k),
        ]);
        Ok(dst)
    }

    /// `SETFIELD obj name_k src`: writes `val_reg` into field `field` of the
    /// struct in `obj_reg`.
    pub(crate) fn emit_setfield(&mut self, obj_reg: u8, field: u32, val_reg: u8)
        requires
            old(self).wf(),
            field < old(self).interner@.len(),
        ensures
            final(self).wf(),
            old(self).evolves(final(self)),
            old(self).balanced(final(self)),
            final(self).cursor == old(self).cursor,
            final(self).frames == old(self).frames,
            final(self).cur_chunk().constants@ == consts_after(
                old(self).cur_chunk().constants@,
                ValueModel::Str(old(self).interner@[field as int]),
            ),
            final(self).code() == old(self).code() + {
                let k = const_slot(old(self).cur_chunk().constants@, ValueModel::Str(old(self).interner@[field as int]));
                seq![spec_op_byte(OpCode::SETFIELD), obj_reg, spec_lo(k), spec_hi(k), val_reg]
            },
    {
        let name_k = self.name_constant(field);
        self.emit_op(OpCode::SETFIELD);
        self.emit(obj_reg);
        self.emit_wide(name_k);
        self.emit(val_reg);
        assert(self.code() =~= old(self).code() + seq![
            spec_op_byte(OpCode::SETFIELD),
            obj_reg,
            spec_lo(name_k),
            spec_hi(name_k),
            val_reg,
        ]);
    }

    /// Reads `base.f1.f2…` through a chain of `GETFIELD`s; returns the
    /// register holding the last field.
    pub(crate) fn emit_field_chain_get(&mut self, base: u32, fields: &[u32]) -> (r: Result<u8, CompileError>)
        requires
            old(self).wf(),
            base < old(self).interner@.len(),
            forall|f: int| 0 <= f < fields@.len() ==> #[trigger] fields@[f] < old(self).interner@.len(),
        ensures
            final(self).wf(),
            old(self).evolves(final(self)),
            old(self).balanced(final(self)),
            final(self).cursor == old(self).cursor,
            r matches Err(e) ==> e is UndefinedVariable || e is RegisterOverflow,
            Compiler::undefined_variable(*old(self), base) ==> Compiler::loads_identifier(*old(self), *final(self), base, r),
            fields@.len() == 0 ==> (spec_resolve_local(old(self).locals().locals(), base) matches Some(l) ==> r == Ok::<
                u8,
                CompileError,
            >(l) && final(self).code() == old(self).code()),
            fields@.len() > 0 ==> (r matches Ok(reg) ==> {
                let c = final(self).code();
                &&& c.len() >= old(self).code().len() + 5
                &&& c[c.len() - 5] == spec_op_byte(OpCode::GETFIELD)
                &&& c[c.len() - 4] == reg
            }),
    {
        let mut cur_reg = match self.emit_identifier(base) {
            Ok(reg) => reg,
            Err(e) => return Err(e),
        };
        let prev_temp = cur_reg;
        let mut i: usize = 0;
        while i < fields.len()
            invariant
                0 <= i <= fields.len(),
                forall|f: int| 0 <= f < fields@.len() ==> #[trigger] fields@[f] < self.interner@.len(),
                self.wf(),
                old(self).evolves(self),
                old(self).balanced(self),
                self.cursor == old(self).cursor,
                i == 0 ==> Compiler::loads_identifier(*old(self), *self, base, Ok::<u8, CompileError>(cur_reg)),
                !Compiler::undefined_variable(*old(self), base),
                i > 0 ==> {
                    let c = self.code();
                    &&& c.len() >= old(self).code().len() + 5
                    &&& c[c.len() - 5] == spec_op_byte(OpCode::GETFIELD)
                    &&& c[c.len() - 4] == cur_reg
                },
            decreases fields.len() - i,
        {
            let next_reg = match self.emit_getfield(cur_reg, fields[i]) {
                Ok(reg) => reg,
                Err(e) => return Err(e),
            };
            if i > 0 {
                self.free_temp(cur_reg);
            }
            cur_reg = next_reg;
            i = i + 1;
        }
        self.free_temp(prev_temp);
        Ok(cur_reg)
    }
}

} // verus!
