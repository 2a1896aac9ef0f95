use vstd::prelude::*;

use crate::functions::{
    spec_arg_types, spec_is_best, spec_key_text, spec_values_eq, values_eq, FnEntry, FunctionRegistry, Intrinsic,
    EQ_DEPTH,
};
use crate::host::Host;
use crate::text::spec_decimal;
use crate::opcode::{spec_op_byte, OpCode, OPCODE_COUNT};
use crate::span::Span;
use crate::value::{spec_truthy, Value, ValueModel};
use crate::vm::chunk::{spec_le_i16, spec_le_u16, spec_locus_at, spec_sorted_loci, Chunk};
use crate::vm::frame::CallFrame;
use crate::vm::heap::{spec_field_index, with_def, Heap, StructModel, StructObject, Upvalue, UpvalueModel};

verus! {

/// Calls deep enough to need this many stack slots overflow the stack.
pub const MAX_CALL_DEPTH: usize = 256;
/// The stack grows by this many slots at a time.
pub const STACK_GROW: usize = 256;
/// Stack slots a new machine starts with.
pub const STACK_INIT: usize = 256;
/// The stack never reaches this many slots.
pub const STACK_LIMIT: usize = MAX_CALL_DEPTH * STACK_INIT;
/// Instructions one run executes at most.
pub const MAX_STEPS: u64 = 0xffff_ffff_ffff_ffffu64;

/// Why a program stopped with an error.
#[derive(Debug)]
pub enum RuntimeError {
    /// The calls in progress need more stack than the machine has.
    StackOverflow { span: Span },
    /// An instruction that cannot run: an unknown opcode, or operands that
    /// do not fit the values they refer to.
    InvalidOpCode { op_byte: u8, span: Span },
    UndefinedFunction { name: String, span: Span },
    /// No overload of the function accepts the types of the arguments.
    NoMatchingOverload { name: String, span: Span },
    /// A jump or a read outside the code of the current chunk.
    IpOutOfBounds { ip: usize, span: Span },
    /// The run executed `MAX_STEPS` instructions without finishing.
    StepLimit { span: Span },
}

/// A register-based virtual machine: a stack of values of which each call
/// frame sees a window of 256 registers, global variables, and a heap of
/// upvalues and structs.
pub struct VM {
    stack: Vec<Value>,
    frames: Vec<CallFrame>,
    globals: Vec<Value>,
    heap: Heap,
}

impl VM {
    /// Every frame's 256 registers and result slot lie inside the stack, and
    /// the stack stays below its limit.
    pub closed spec fn wf(&self) -> bool {
        &&& self.stack@.len() < STACK_LIMIT
        &&& forall|f: int|
            0 <= f < self.frames@.len() ==> (#[trigger] self.frames@[f]).reg_offset + 256 <= self.stack@.len()
                && self.frames@[f].ret_dst < self.stack@.len()
    }

    /// The values on the stack.
    pub closed spec fn stack_view(&self) -> Seq<ValueModel> {
        self.stack@.map_values(|v: Value| v@)
    }

    /// The struct instances on the heap, by key.
    pub closed spec fn objects(&self) -> Map<usize, StructModel> {
        self.heap.objects()
    }

    /// The field names of each struct definition seen so far.
    pub closed spec fn struct_defs(&self) -> Seq<Seq<Seq<char>>> {
        self.heap.defs()
    }

    /// The upvalue cells on the heap, by key.
    pub closed spec fn upvalue_cells(&self) -> Map<usize, UpvalueModel> {
        self.heap.upvalues()
    }

    /// `after` has the same calls as `self` but for the instruction pointer
    /// of the current one.
    pub closed spec fn same_calls(&self, after: VM) -> bool {
        &&& after.frames@.len() == self.frames@.len()
        &&& self.frames@.len() > 0
        &&& after.frames@.drop_last() == self.frames@.drop_last()
        &&& after.frames@.last().chunk_idx == self.frames@.last().chunk_idx
        &&& after.frames@.last().reg_offset == self.frames@.last().reg_offset
        &&& after.frames@.last().ret_dst == self.frames@.last().ret_dst
        &&& after.frames@.last().closure_upvalues == self.frames@.last().closure_upvalues
        &&& after.frames@.last().open_upvalues == self.frames@.last().open_upvalues
    }

    /// `after` has the same heap as `self`: cells, structs and definitions.
    pub closed spec fn same_heap(&self, after: VM) -> bool {
        after.heap == self.heap
    }

    /// The upvalue cells the current call has open on its registers.
    pub closed spec fn open_cells(&self) -> Seq<u16> {
        self.frames@.last().open_upvalues@
    }

    /// The upvalue keys of the closure running in the current call.
    pub closed spec fn closure_upvalues(&self) -> Seq<u16> {
        self.frames@.last().closure_upvalues@
    }

    /// The number of calls in progress.
    pub closed spec fn depth(&self) -> nat {
        self.frames@.len()
    }

    /// The values of the global variables, by slot.
    pub closed spec fn globals_view(&self) -> Seq<ValueModel> {
        self.globals@.map_values(|v: Value| v@)
    }

    /// A machine with `STACK_INIT` slots of `nil`, no call in progress, no
    /// globals and an empty heap.
    pub fn new() -> (res: VM)
        ensures
            res.wf(),
            res.depth() == 0,
            res.stack_view() == Seq::new(STACK_INIT as nat, |i: int| ValueModel::Nil),
            res.globals_view().len() == 0,
    {
        let mut stack: Vec<Value> = Vec::new();
        let mut i: usize = 0;
        while i < STACK_INIT
            invariant
                0 <= i <= STACK_INIT,
                stack@.len() == i,
                forall|j: int| 0 <= j < i ==> (#[trigger] stack@[j])@ == ValueModel::Nil,
            decreases STACK_INIT - i,
        {
            stack.push(Value::Nil);
            i = i + 1;
        }
        assert(stack@.map_values(|v: Value| v@) =~= Seq::new(STACK_INIT as nat, |j: int| ValueModel::Nil));
        let res = VM { stack, frames: Vec::new(), globals: Vec::new(), heap: Heap::new() };
        assert(res.globals_view() =~= Seq::<ValueModel>::empty());
        res
    }
}

impl Default for VM {
    fn default() -> (res: Self)
        ensures
            res.wf(),
            res.depth() == 0,
            res.stack_view() == Seq::new(STACK_INIT as nat, |i: int| ValueModel::Nil),
            res.globals_view().len() == 0,
    {
        VM::new()
    }
}

// ── Frames and code ──

impl VM {
    /// The source span of the instruction the current frame is at: the span
    /// of the last locus recorded at or before it (empty when there is no
    /// frame, no such chunk or no such locus).
    pub closed spec fn spec_locus_span(&self, chunks: Seq<Chunk>) -> Span {
        if self.frames@.len() == 0 || self.frames@.last().chunk_idx >= chunks.len() {
            Span { start: 0, end: 0 }
        } else {
            match spec_locus_at(chunks[self.frames@.last().chunk_idx as int].locus@, self.frames@.last().ip as int) {
                Some(span) => span,
                None => Span { start: 0, end: 0 },
            }
        }
    }

    /// `e` reports the instruction pointer out of bounds at offset `ip` of
    /// the current chunk, with the span recorded there.
    pub open spec fn out_of_bounds_at(e: RuntimeError, before: VM, chunks: Seq<Chunk>, ip: int) -> bool {
        &&& e matches RuntimeError::IpOutOfBounds { ip: at, span }
        &&& at == ip
        &&& before.loci_ordered(chunks) ==> span == span_at(chunks, before.cur_chunk() as int, ip)
    }

    /// The loci of the current frame's chunk are in order of offset, as
    /// compilation records them (or there is no such chunk).
    pub closed spec fn loci_ordered(&self, chunks: Seq<Chunk>) -> bool {
        self.frames@.len() > 0 && self.frames@.last().chunk_idx < chunks.len() ==> spec_sorted_loci(
            chunks[self.frames@.last().chunk_idx as int].locus@,
        )
    }

    /// The source span of the instruction the current frame is at (empty
    /// when none is recorded).
    fn locus_span(&self, chunks: &[Chunk]) -> (res: Span)
        ensures
            self.loci_ordered(chunks@) ==> res == self.spec_locus_span(chunks@),
    {
        if self.frames.len() == 0 {
            return Span::empty();
        }
        let fr = &self.frames[self.frames.len() - 1];
        if fr.chunk_idx >= chunks.len() {
            return Span::empty();
        }
        match chunks[fr.chunk_idx].locus_at(fr.ip) {
            Some(span) => span,
            None => Span::empty(),
        }
    }

    /// The current frame's instruction pointer.
    fn ip(&self) -> (ip: usize)
        requires
            self.frames@.len() > 0,
        ensures
            ip == self.frames@.last().ip,
    {
        self.frames[self.frames.len() - 1].ip
    }

    /// Moves the current frame's instruction pointer to `ip`.
    fn set_ip(&mut self, ip: usize)
        requires
            old(self).wf(),
            old(self).frames@.len() > 0,
        ensures
            final(self).wf(),
            final(self).frames@.len() == old(self).frames@.len(),
            final(self).frames@.last().ip == ip,
            final(self).frames@.last().reg_offset == old(self).frames@.last().reg_offset,
            final(self).frames@.last().chunk_idx == old(self).frames@.last().chunk_idx,
            final(self).frames@.last().closure_upvalues == old(self).frames@.last().closure_upvalues,
            final(self).frames@.last().open_upvalues == old(self).frames@.last().open_upvalues,
            final(self).stack == old(self).stack,
            final(self).globals == old(self).globals,
            final(self).heap == old(self).heap,
            final(self).calls() == old(self).calls().update(
                old(self).calls().len() - 1,
                (old(self).cur_chunk(), ip as int, old(self).reg_base(), old(self).calls().last().3),
            ),
            old(self).same_calls(*final(self)),
    {
        let n = self.frames.len();
        self.frames[n - 1].ip = ip;
        assert(forall|f: int| 0 <= f < n - 1 ==> self.frames@[f] == old(self).frames@[f]);
        assert(self.frames@.drop_last() =~= old(self).frames@.drop_last());
        assert(self.calls() =~= old(self).calls().update(
            old(self).calls().len() - 1,
            (old(self).cur_chunk(), ip as int, old(self).reg_base(), old(self).calls().last().3),
        ));
    }

    /// Reads the next byte of the current frame's code.
    fn fetch(&mut self, chunks: &[Chunk]) -> (r: Result<u8, RuntimeError>)
        requires
            old(self).wf(),
            old(self).frames@.len() > 0,
        ensures
            final(self).wf(),
            final(self).frames@.len() == old(self).frames@.len(),
            final(self).frames@.last().reg_offset == old(self).frames@.last().reg_offset,
            final(self).frames@.last().chunk_idx == old(self).frames@.last().chunk_idx,
            final(self).frames@.last().closure_upvalues == old(self).frames@.last().closure_upvalues,
            final(self).frames@.last().open_upvalues == old(self).frames@.last().open_upvalues,
            final(self).stack == old(self).stack,
            final(self).globals == old(self).globals,
            final(self).heap == old(self).heap,
            r matches Ok(b) ==> {
                let fr = old(self).frames@.last();
                &&& fr.chunk_idx < chunks@.len()
                &&& fr.ip < chunks@[fr.chunk_idx as int].code@.len()
                &&& b == chunks@[fr.chunk_idx as int].code@[fr.ip as int]
                &&& final(self).frames@.last().ip == fr.ip + 1
                &&& advanced(*old(self), *final(self), 1)
            },
            r is Ok <==> {
                let fr = old(self).frames@.last();
                fr.chunk_idx < chunks@.len() && fr.ip < chunks@[fr.chunk_idx as int].code@.len()
            },
            r matches Err(e) ==> e is IpOutOfBounds,
            old(self).same_calls(*final(self)),
    {
        let n = self.frames.len();
        let ci = self.frames[n - 1].chunk_idx;
        let ip = self.frames[n - 1].ip;
        if ci >= chunks.len() || ip >= chunks[ci].code.len() {
            return Err(RuntimeError::IpOutOfBounds { ip, span: self.locus_span(chunks) });
        }
        let b = chunks[ci].code[ip];
        self.set_ip(ip + 1);
        Ok(b)
    }

    /// Reads a 16-bit little-endian operand.
    fn fetch_wide(&mut self, chunks: &[Chunk]) -> (r: Result<u16, RuntimeError>)
        requires
            old(self).wf(),
            old(self).frames@.len() > 0,
        ensures
            final(self).wf(),
            final(self).frames@.len() == old(self).frames@.len(),
            final(self).frames@.last().reg_offset == old(self).frames@.last().reg_offset,
            final(self).frames@.last().chunk_idx == old(self).frames@.last().chunk_idx,
            final(self).frames@.last().closure_upvalues == old(self).frames@.last().closure_upvalues,
            final(self).stack == old(self).stack,
            final(self).globals == old(self).globals,
            final(self).heap == old(self).heap,
            r matches Ok(v) ==> {
                let fr = old(self).frames@.last();
                let code = chunks@[fr.chunk_idx as int].code@;
                &&& fr.chunk_idx < chunks@.len()
                &&& fr.ip + 1 < code.len()
                &&& v == spec_le_u16(code[fr.ip as int], code[fr.ip + 1])
                &&& final(self).frames@.last().ip == fr.ip + 2
                &&& advanced(*old(self), *final(self), 2)
            },
            r is Ok <==> {
                let fr = old(self).frames@.last();
                fr.chunk_idx < chunks@.len() && fr.ip + 2 <= chunks@[fr.chunk_idx as int].code@.len()
            },
            r matches Err(e) ==> e is IpOutOfBounds,
            old(self).same_calls(*final(self)),
    {
        let ghost start = *self;
        let lo = self.fetch(chunks)?;
        let ghost mid = *self;
        let hi = self.fetch(chunks)?;
        proof {
            lemma_advanced_trans(start, mid, *self, 1, 1);
        }
        Ok(crate::vm::chunk::le_u16(lo, hi))
    }

    /// The absolute stack slot of register `reg` of the current frame.
    fn slot(&self, reg: u8) -> (s: usize)
        requires
            self.wf(),
            self.frames@.len() > 0,
        ensures
            s == self.frames@.last().reg_offset + reg,
            s < self.stack@.len(),
    {
        let fr = &self.frames[self.frames.len() - 1];
        assert(self.frames@[self.frames@.len() - 1] == self.frames@.last());
        fr.reg_offset + reg as usize
    }

    /// A copy of register `reg` of the current frame.
    fn reg(&self, reg: u8) -> (v: Value)
        requires
            self.wf(),
            self.frames@.len() > 0,
        ensures
            v@ == self.stack@[self.frames@.last().reg_offset + reg]@,
    {
        let s = self.slot(reg);
        self.stack[s].clone()
    }

    /// Stores `v` in stack slot `s`.
    fn put(&mut self, s: usize, v: Value)
        requires
            old(self).wf(),
            s < old(self).stack@.len(),
        ensures
            final(self).wf(),
            final(self).stack@ == old(self).stack@.update(s as int, v),
            final(self).frames == old(self).frames,
            final(self).globals == old(self).globals,
            final(self).heap == old(self).heap,
    {
        self.stack.set(s, v);
    }

    /// Stores `v` in register `reg` of the current frame.
    fn set_reg(&mut self, reg: u8, v: Value)
        requires
            old(self).wf(),
            old(self).frames@.len() > 0,
        ensures
            final(self).wf(),
            final(self).stack@ == old(self).stack@.update(old(self).frames@.last().reg_offset + reg, v),
            final(self).frames == old(self).frames,
            final(self).globals == old(self).globals,
            final(self).heap == old(self).heap,
    {
        let s = self.slot(reg);
        self.put(s, v);
    }

    /// Grows the stack (by whole `STACK_GROW` blocks) so that slot `abs_idx`
    /// exists; fails when the stack would reach `STACK_LIMIT`.
    fn ensure_stack(&mut self, abs_idx: usize, chunks: &[Chunk]) -> (r: Result<(), RuntimeError>)
        requires
            old(self).wf(),
            abs_idx < STACK_LIMIT + 1024,
        ensures
            final(self).wf(),
            r is Ok ==> abs_idx < final(self).stack@.len(),
            final(self).stack@.len() >= old(self).stack@.len(),
            final(self).stack@.subrange(0, old(self).stack@.len() as int) == old(self).stack@,
            final(self).frames == old(self).frames,
            final(self).globals == old(self).globals,
            final(self).heap == old(self).heap,
            r matches Err(e) ==> e is StackOverflow,
            r is Ok <==> stack_fits(*old(self), abs_idx as int),
            final(self).stack_view() == grown(old(self).stack_view(), final(self).stack_view().len() as int),
            abs_idx < old(self).stack@.len() || r is Err ==> final(self).stack@.len() == old(self).stack@.len(),
            abs_idx >= old(self).stack@.len() && r is Ok ==> final(self).stack@.len() == ((abs_idx + STACK_GROW)
                / STACK_GROW as int) * STACK_GROW,
    {
        let len = self.stack.len();
        if abs_idx >= len {
            let new_len = ((abs_idx + STACK_GROW) / STACK_GROW) * STACK_GROW;
            if new_len >= STACK_LIMIT {
                assert(final(self).stack_view() =~= grown(old(self).stack_view(), len as int));
                return Err(RuntimeError::StackOverflow { span: self.locus_span(chunks) });
            }
            self.stack.resize(new_len, Value::Nil);
            assert(self.stack@.subrange(0, len as int) =~= old(self).stack@);
            assert forall|i: int| 0 <= i < new_len implies #[trigger] self.stack_view()[i] == grown(
                old(self).stack_view(),
                new_len as int,
            )[i] by {
                if i < len {
                    assert(self.stack@.subrange(0, len as int)[i] == self.stack@[i]);
                }
            }
            assert(self.stack_view() =~= grown(old(self).stack_view(), new_len as int));
        } else {
            assert(self.stack_view() =~= grown(old(self).stack_view(), len as int));
        }
        Ok(())
    }

    /// Grows the globals so that `slot` exists, filling with `nil`.
    fn ensure_global(&mut self, slot: u16)
        ensures
            slot < final(self).globals@.len(),
            final(self).globals_view().len() >= old(self).globals_view().len(),
            forall|i: int|
                0 <= i < final(self).globals_view().len() ==> #[trigger] final(self).globals_view()[i] == if i
                    < old(self).globals_view().len() {
                    old(self).globals_view()[i]
                } else {
                    ValueModel::Nil
                },
            final(self).stack == old(self).stack,
            final(self).frames == old(self).frames,
            final(self).heap == old(self).heap,
    {
        if slot as usize >= self.globals.len() {
            let ghost before = self.globals@;
            self.globals.resize(slot as usize + 1, Value::Nil);
            assert forall|i: int| 0 <= i < self.globals@.len() implies #[trigger] self.globals_view()[i] == if i
                < before.len() {
                before[i]@
            } else {
                ValueModel::Nil
            } by {
                if i < before.len() {
                    assert(self.globals@.subrange(0, before.len() as int)[i] == before[i]);
                }
            }
        }
    }
}


// ── Instructions ──

/// The opcode byte of `op`.
fn op_byte(op: OpCode) -> (res: u8)
    ensures
        res == spec_op_byte(op),
{
    op.to_byte()
}

/// Argument `i` of an intrinsic call (`nil` when it was not passed).
fn arg(args: &Vec<Value>, i: usize) -> (v: Value)
    ensures
        i < args@.len() ==> v@ == args@[i as int]@,
        i >= args@.len() ==> v@ == ValueModel::Nil,
{
    if i < args.len() {
        args[i].clone()
    } else {
        Value::Nil
    }
}

impl VM {
    /// An `InvalidOpCode` error for `op` at the current instruction.
    fn invalid(&self, op: OpCode, chunks: &[Chunk]) -> (e: RuntimeError)
        ensures
            e is InvalidOpCode,
            e matches RuntimeError::InvalidOpCode { op_byte, span } && op_byte == spec_op_byte(op) && (self.loci_ordered(
                chunks@,
            ) ==> span == self.spec_locus_span(chunks@)),
    {
        RuntimeError::InvalidOpCode { op_byte: op_byte(op), span: self.locus_span(chunks) }
    }

    /// The constant `k` of the current frame's chunk.
    fn constant(&self, chunks: &[Chunk], k: u16, op: OpCode) -> (r: Result<Value, RuntimeError>)
        requires
            self.frames@.len() > 0,
        ensures
            r matches Ok(v) ==> {
                let ci = self.frames@.last().chunk_idx as int;
                &&& 0 <= ci < chunks@.len()
                &&& k < chunks@[ci].constants@.len()
                &&& v@ == chunks@[ci].constants@[k as int]
            },
            r is Ok <==> {
                let ci = self.frames@.last().chunk_idx as int;
                0 <= ci < chunks@.len() && k < chunks@[ci].constants@.len()
            },
            r matches Err(e) ==> e is InvalidOpCode,
    {
        let ci = self.frames[self.frames.len() - 1].chunk_idx;
        if ci >= chunks.len() || k as usize >= chunks[ci].constants.len() {
            return Err(self.invalid(op, chunks));
        }
        Ok(chunks[ci].constants.get(k).clone())
    }

    /// The string constant `k` of the current frame's chunk (a field name).
    fn constant_string(&self, chunks: &[Chunk], k: u16, op: OpCode) -> (r: Result<String, RuntimeError>)
        requires
            self.frames@.len() > 0,
        ensures
            r is Ok <==> const_of(chunks@, self.frames@.last().chunk_idx as int, k as int) is Str,
            r matches Ok(s) ==> const_of(chunks@, self.frames@.last().chunk_idx as int, k as int) == ValueModel::Str(s@),
            r matches Err(e) ==> e is InvalidOpCode,
    {
        match self.constant(chunks, k, op)? {
            Value::String(s) => Ok(s),
            _ => Err(self.invalid(op, chunks)),
        }
    }

    /// `MOVE dst src`: copies register `src` into register `dst`.
    fn op_move(&mut self, chunks: &[Chunk]) -> (r: Result<(), RuntimeError>)
        requires
            old(self).wf(),
            old(self).frames@.len() > 0,
            old(self).frames@.last().chunk_idx < chunks@.len(),
        ensures
            final(self).wf(),
            final(self).frames@.len() == old(self).frames@.len(),
            r is Ok ==> {
                let fr = old(self).frames@.last();
                let code = chunks@[fr.chunk_idx as int].code@;
                &&& final(self).stack_view() == old(self).stack_view().update(
                    fr.reg_offset + code[fr.ip as int],
                    old(self).stack_view()[fr.reg_offset + code[fr.ip + 1]],
                )
                &&& final(self).frames@.last().ip == fr.ip + 2
            },
            r is Ok <==> {
                let fr = old(self).frames@.last();
                let code = chunks@[fr.chunk_idx as int].code@;
                fr.ip + 2 <= code.len()
            },
            r matches Err(e) ==> if old(self).frames@.last().ip + 2 <= chunks@[old(self).frames@.last().chunk_idx as int].code@.len() {
                e is InvalidOpCode
            } else {
                e is IpOutOfBounds
            },
            r is Ok ==> old(self).same_calls(*final(self)) && final(self).globals == old(self).globals && old(self).same_heap(*final(self)),
    {
        let dst = self.fetch(chunks)?;
        let src = self.fetch(chunks)?;
        let v = self.reg(src);
        self.set_reg(dst, v);
        proof {
            assert(self.stack_view() =~= old(self).stack_view().update(
                old(self).frames@.last().reg_offset + dst,
                old(self).stack_view()[old(self).frames@.last().reg_offset + src],
            ));
        }
        Ok(())
    }

    /// `LOADK dst k`: loads constant `k` of the chunk.
    fn op_loadk(&mut self, chunks: &[Chunk]) -> (r: Result<(), RuntimeError>)
        requires
            old(self).wf(),
            old(self).frames@.len() > 0,
            old(self).frames@.last().chunk_idx < chunks@.len(),
        ensures
            final(self).wf(),
            final(self).frames@.len() == old(self).frames@.len(),
            r is Ok ==> {
                let fr = old(self).frames@.last();
                let chunk = chunks@[fr.chunk_idx as int];
                let k = spec_le_u16(chunk.code@[fr.ip + 1], chunk.code@[fr.ip + 2]);
                &&& final(self).stack_view() == old(self).stack_view().update(
                    fr.reg_offset + chunk.code@[fr.ip as int],
                    chunk.constants@[k as int],
                )
                &&& final(self).frames@.last().ip == fr.ip + 3
            },
            r is Ok <==> {
                let fr = old(self).frames@.last();
                let code = chunks@[fr.chunk_idx as int].code@;
                fr.ip + 3 <= code.len() && spec_le_u16(code[fr.ip + 1], code[fr.ip + 2]) < chunks@[fr.chunk_idx as int].constants@.len()
            },
            r matches Err(e) ==> if old(self).frames@.last().ip + 3 <= chunks@[old(self).frames@.last().chunk_idx as int].code@.len() {
                e is InvalidOpCode
            } else {
                e is IpOutOfBounds
            },
            r is Ok ==> old(self).same_calls(*final(self)) && final(self).globals == old(self).globals && old(self).same_heap(*final(self)),
    {
        let dst = self.fetch(chunks)?;
        let k = self.fetch_wide(chunks)?;
        let v = self.constant(chunks, k, OpCode::LOADK)?;
        self.set_reg(dst, v);
        proof {
            assert(self.stack_view() =~= old(self).stack_view().update(old(self).frames@.last().reg_offset + dst, v@));
        }
        Ok(())
    }

    /// `LOADBOOL dst b`: loads `true` when `b` is not zero, else `false`.
    fn op_loadbool(&mut self, chunks: &[Chunk]) -> (r: Result<(), RuntimeError>)
        requires
            old(self).wf(),
            old(self).frames@.len() > 0,
            old(self).frames@.last().chunk_idx < chunks@.len(),
        ensures
            final(self).wf(),
            final(self).frames@.len() == old(self).frames@.len(),
            r is Ok ==> {
                let fr = old(self).frames@.last();
                let code = chunks@[fr.chunk_idx as int].code@;
                &&& final(self).stack_view() == old(self).stack_view().update(
                    fr.reg_offset + code[fr.ip as int],
                    ValueModel::Bool(code[fr.ip + 1] != 0),
                )
                &&& final(self).frames@.last().ip == fr.ip + 2
            },
            r is Ok <==> {
                let fr = old(self).frames@.last();
                let code = chunks@[fr.chunk_idx as int].code@;
                fr.ip + 2 <= code.len()
            },
            r matches Err(e) ==> if old(self).frames@.last().ip + 2 <= chunks@[old(self).frames@.last().chunk_idx as int].code@.len() {
                e is InvalidOpCode
            } else {
                e is IpOutOfBounds
            },
            r is Ok ==> old(self).same_calls(*final(self)) && final(self).globals == old(self).globals && old(self).same_heap(*final(self)),
    {
        let dst = self.fetch(chunks)?;
        let b = self.fetch(chunks)?;
        self.set_reg(dst, Value::Bool(b != 0));
        proof {
            assert(self.stack_view() =~= old(self).stack_view().update(
                old(self).frames@.last().reg_offset + dst,
                ValueModel::Bool(b != 0),
            ));
        }
        Ok(())
    }

    /// `LOADNIL dst`.
    fn op_loadnil(&mut self, chunks: &[Chunk]) -> (r: Result<(), RuntimeError>)
        requires
            old(self).wf(),
            old(self).frames@.len() > 0,
            old(self).frames@.last().chunk_idx < chunks@.len(),
        ensures
            final(self).wf(),
            final(self).frames@.len() == old(self).frames@.len(),
            r is Ok ==> {
                let fr = old(self).frames@.last();
                let code = chunks@[fr.chunk_idx as int].code@;
                &&& final(self).stack_view() == old(self).stack_view().update(
                    fr.reg_offset + code[fr.ip as int],
                    ValueModel::Nil,
                )
                &&& final(self).frames@.last().ip == fr.ip + 1
            },
            r is Ok <==> {
                let fr = old(self).frames@.last();
                let code = chunks@[fr.chunk_idx as int].code@;
                fr.ip + 1 <= code.len()
            },
            r matches Err(e) ==> if old(self).frames@.last().ip + 1 <= chunks@[old(self).frames@.last().chunk_idx as int].code@.len() {
                e is InvalidOpCode
            } else {
                e is IpOutOfBounds
            },
            r is Ok ==> old(self).same_calls(*final(self)) && final(self).globals == old(self).globals && old(self).same_heap(*final(self)),
    {
        let dst = self.fetch(chunks)?;
        self.set_reg(dst, Value::Nil);
        proof {
            assert(self.stack_view() =~= old(self).stack_view().update(
                old(self).frames@.last().reg_offset + dst,
                ValueModel::Nil,
            ));
        }
        Ok(())
    }

    /// `LOADFUN dst id`: loads function `id`.
    fn op_loadfun(&mut self, chunks: &[Chunk]) -> (r: Result<(), RuntimeError>)
        requires
            old(self).wf(),
            old(self).frames@.len() > 0,
            old(self).frames@.last().chunk_idx < chunks@.len(),
        ensures
            final(self).wf(),
            final(self).frames@.len() == old(self).frames@.len(),
            r is Ok ==> {
                let fr = old(self).frames@.last();
                let code = chunks@[fr.chunk_idx as int].code@;
                &&& final(self).stack_view() == old(self).stack_view().update(
                    fr.reg_offset + code[fr.ip as int],
                    ValueModel::Fn(spec_le_u16(code[fr.ip + 1], code[fr.ip + 2]) as usize),
                )
                &&& final(self).frames@.last().ip == fr.ip + 3
            },
            r is Ok <==> {
                let fr = old(self).frames@.last();
                let code = chunks@[fr.chunk_idx as int].code@;
                fr.ip + 3 <= code.len()
            },
            r matches Err(e) ==> if old(self).frames@.last().ip + 3 <= chunks@[old(self).frames@.last().chunk_idx as int].code@.len() {
                e is InvalidOpCode
            } else {
                e is IpOutOfBounds
            },
            r is Ok ==> old(self).same_calls(*final(self)) && final(self).globals == old(self).globals && old(self).same_heap(*final(self)),
    {
        let dst = self.fetch(chunks)?;
        let f = self.fetch_wide(chunks)?;
        self.set_reg(dst, Value::Fn(f as usize));
        proof {
            assert(self.stack_view() =~= old(self).stack_view().update(
                old(self).frames@.last().reg_offset + dst,
                ValueModel::Fn(f as usize),
            ));
        }
        Ok(())
    }

    /// `GETGLB dst slot`: loads a global (`nil` when never set).
    fn op_getglb(&mut self, chunks: &[Chunk]) -> (r: Result<(), RuntimeError>)
        requires
            old(self).wf(),
            old(self).frames@.len() > 0,
            old(self).frames@.last().chunk_idx < chunks@.len(),
        ensures
            final(self).wf(),
            final(self).frames@.len() == old(self).frames@.len(),
            r is Ok ==> {
                let fr = old(self).frames@.last();
                let code = chunks@[fr.chunk_idx as int].code@;
                let slot = spec_le_u16(code[fr.ip + 1], code[fr.ip + 2]);
                &&& final(self).stack_view() == old(self).stack_view().update(
                    fr.reg_offset + code[fr.ip as int],
                    if slot < old(self).globals_view().len() { old(self).globals_view()[slot as int] } else { ValueModel::Nil },
                )
                &&& final(self).frames@.last().ip == fr.ip + 3
            },
            r is Ok <==> {
                let fr = old(self).frames@.last();
                let code = chunks@[fr.chunk_idx as int].code@;
                fr.ip + 3 <= code.len()
            },
            r matches Err(e) ==> if old(self).frames@.last().ip + 3 <= chunks@[old(self).frames@.last().chunk_idx as int].code@.len() {
                e is InvalidOpCode
            } else {
                e is IpOutOfBounds
            },
            r is Ok ==> old(self).same_calls(*final(self)) && old(self).same_heap(*final(self)) && forall|g: u16|
                #[trigger] global_of(*final(self), g) == global_of(*old(self), g),
    {
        let dst = self.fetch(chunks)?;
        let slot = self.fetch_wide(chunks)?;
        let ghost g = self.globals_view();
        assert(g == old(self).globals_view());
        self.ensure_global(slot);
        let v = self.globals[slot as usize].clone();
        assert(v@ == self.globals_view()[slot as int]);
        self.set_reg(dst, v);
        proof {
            assert(self.stack_view() =~= old(self).stack_view().update(old(self).frames@.last().reg_offset + dst, v@));
        }
        Ok(())
    }
}

impl VM {
    /// `SETGLB slot src`: stores register `src` in a global.
    fn op_setglb(&mut self, chunks: &[Chunk]) -> (r: Result<(), RuntimeError>)
        requires
            old(self).wf(),
            old(self).frames@.len() > 0,
            old(self).frames@.last().chunk_idx < chunks@.len(),
        ensures
            final(self).wf(),
            final(self).frames@.len() == old(self).frames@.len(),
            r is Ok ==> {
                let fr = old(self).frames@.last();
                let code = chunks@[fr.chunk_idx as int].code@;
                let slot = spec_le_u16(code[fr.ip as int], code[fr.ip + 1]);
                &&& final(self).stack_view() == old(self).stack_view()
                &&& slot < final(self).globals_view().len()
                &&& final(self).globals_view()[slot as int] == old(self).stack_view()[fr.reg_offset + code[fr.ip + 2]]
                &&& forall|g: u16| g != slot ==> #[trigger] global_of(*final(self), g) == global_of(*old(self), g)
                &&& final(self).frames@.last().ip == fr.ip + 3
            },
            r is Ok <==> {
                let fr = old(self).frames@.last();
                let code = chunks@[fr.chunk_idx as int].code@;
                fr.ip + 3 <= code.len()
            },
            r matches Err(e) ==> if old(self).frames@.last().ip + 3 <= chunks@[old(self).frames@.last().chunk_idx as int].code@.len() {
                e is InvalidOpCode
            } else {
                e is IpOutOfBounds
            },
            r is Ok ==> old(self).same_calls(*final(self)) && old(self).same_heap(*final(self)),
    {
        let slot = self.fetch_wide(chunks)?;
        let src = self.fetch(chunks)?;
        let v = self.reg(src);
        let ghost g = self.globals_view();
        assert(g == old(self).globals_view());
        self.ensure_global(slot);
        let ghost g2 = self.globals_view();
        self.globals.set(slot as usize, v);
        assert forall|gs: u16| gs != slot implies #[trigger] global_of(*self, gs) == global_of(*old(self), gs) by {
            if (gs as int) < self.globals_view().len() {
                assert(self.globals_view()[gs as int] == g2[gs as int]);
            }
        }
        Ok(())
    }

    /// The target of a jump whose opcode is at `ip_op` with offset `offset`,
    /// if it lies inside the current chunk's code.
    fn jump_target(&self, chunks: &[Chunk], ip_op: usize, offset: i16) -> (r: Result<usize, RuntimeError>)
        requires
            self.frames@.len() > 0,
        ensures
            r matches Ok(t) ==> {
                let ci = self.frames@.last().chunk_idx as int;
                &&& 0 <= ci < chunks@.len()
                &&& t == ip_op + offset
                &&& t < chunks@[ci].code@.len()
            },
            r is Ok <==> {
                let ci = self.frames@.last().chunk_idx as int;
                0 <= ci < chunks@.len() && 0 <= ip_op + offset < chunks@[ci].code@.len()
            },
            r matches Err(e) ==> e is IpOutOfBounds,
            r matches Err(e) ==> Self::out_of_bounds_at(e, *self, chunks@, self.frames@.last().ip as int),
    {
        let ci = self.frames[self.frames.len() - 1].chunk_idx;
        if ci >= chunks.len() {
            return Err(RuntimeError::IpOutOfBounds { ip: self.ip(), span: self.locus_span(chunks) });
        }
        let new_ip: i128 = ip_op as i128 + offset as i128;
        if new_ip < 0 || new_ip >= chunks[ci].code.len() as i128 {
            return Err(RuntimeError::IpOutOfBounds { ip: self.ip(), span: self.locus_span(chunks) });
        }
        Ok(new_ip as usize)
    }

    /// `JMP offset`: continues at the opcode's offset plus `offset`.
    fn op_jmp(&mut self, chunks: &[Chunk]) -> (r: Result<(), RuntimeError>)
        requires
            old(self).wf(),
            old(self).frames@.len() > 0,
            old(self).frames@.last().ip >= 1,
            old(self).frames@.last().chunk_idx < chunks@.len(),
        ensures
            final(self).wf(),
            final(self).frames@.len() == old(self).frames@.len(),
            final(self).stack == old(self).stack,
            r is Ok ==> {
                let fr = old(self).frames@.last();
                let code = chunks@[fr.chunk_idx as int].code@;
                &&& final(self).frames@.last().ip == fr.ip - 1 + spec_le_i16(code[fr.ip as int], code[fr.ip + 1])
                &&& final(self).frames@.last().ip < code.len()
            },
            r is Ok <==> {
                let fr = old(self).frames@.last();
                let code = chunks@[fr.chunk_idx as int].code@;
                fr.ip + 2 <= code.len() && 0 <= fr.ip - 1 + spec_le_i16(code[fr.ip as int], code[fr.ip + 1]) < code.len()
            },
            r matches Err(e) ==> e is IpOutOfBounds,
            old(self).frames@.last().ip + 2 <= chunks@[old(self).frames@.last().chunk_idx as int].code@.len()
                ==> (r matches Err(e) ==> Self::out_of_bounds_at(e, *old(self), chunks@, old(self).frames@.last().ip + 2)),
            r is Ok ==> old(self).same_calls(*final(self)) && final(self).globals == old(self).globals && old(self).same_heap(*final(self)),
    {
        let ip_op = self.ip() - 1;
        let lo = self.fetch(chunks)?;
        let hi = self.fetch(chunks)?;
        let offset = crate::vm::chunk::le_i16(lo, hi);
        let ghost s2 = *self;
        let tr = self.jump_target(chunks, ip_op, offset);
        proof {
            assert(s2.loci_ordered(chunks@) == old(self).loci_ordered(chunks@));
        }
        let target = tr?;
        self.set_ip(target);
        Ok(())
    }

    /// `TEST reg offset`: jumps like `JMP` when register `reg` is falsy.
    fn op_test(&mut self, chunks: &[Chunk]) -> (r: Result<(), RuntimeError>)
        requires
            old(self).wf(),
            old(self).frames@.len() > 0,
            old(self).frames@.last().ip >= 1,
            old(self).frames@.last().chunk_idx < chunks@.len(),
        ensures
            final(self).wf(),
            final(self).frames@.len() == old(self).frames@.len(),
            final(self).stack == old(self).stack,
            r is Ok ==> {
                let fr = old(self).frames@.last();
                let code = chunks@[fr.chunk_idx as int].code@;
                let v = old(self).stack_view()[fr.reg_offset + code[fr.ip as int]];
                &&& spec_truthy(v) ==> final(self).frames@.last().ip == fr.ip + 3
                &&& !spec_truthy(v) ==> final(self).frames@.last().ip == fr.ip - 1 + spec_le_i16(
                    code[fr.ip + 1],
                    code[fr.ip + 2],
                )
            },
            r is Ok <==> {
                let fr = old(self).frames@.last();
                let code = chunks@[fr.chunk_idx as int].code@;
                fr.ip + 3 <= code.len() && (spec_truthy(old(self).stack_view()[fr.reg_offset + code[fr.ip as int]]) || 0 <= fr.ip - 1 + spec_le_i16(code[fr.ip + 1], code[fr.ip + 2]) < code.len())
            },
            r matches Err(e) ==> e is IpOutOfBounds,
            old(self).frames@.last().ip + 3 <= chunks@[old(self).frames@.last().chunk_idx as int].code@.len()
                ==> (r matches Err(e) ==> Self::out_of_bounds_at(e, *old(self), chunks@, old(self).frames@.last().ip + 3)),
            r is Ok ==> old(self).same_calls(*final(self)) && final(self).globals == old(self).globals && old(self).same_heap(*final(self)),
    {
        let ip_op = self.ip() - 1;
        let reg = self.fetch(chunks)?;
        let lo = self.fetch(chunks)?;
        let hi = self.fetch(chunks)?;
        let offset = crate::vm::chunk::le_i16(lo, hi);
        let s = self.slot(reg);
        assert(self.stack@[s as int]@ == old(self).stack_view()[s as int]);
        if !self.stack[s].is_truthy() {
            let ghost s2 = *self;
            let tr = self.jump_target(chunks, ip_op, offset);
            proof {
                assert(s2.loci_ordered(chunks@) == old(self).loci_ordered(chunks@));
            }
            let target = tr?;
            self.set_ip(target);
        }
        Ok(())
    }

    /// `RETURN reg`: ends the current call with the value of register `reg`;
    /// its open upvalues are closed. Returns the value when no call is left.
    fn op_return(&mut self, chunks: &[Chunk]) -> (r: Result<Option<Value>, RuntimeError>)
        requires
            old(self).wf(),
            old(self).frames@.len() > 0,
            old(self).frames@.last().chunk_idx < chunks@.len(),
        ensures
            final(self).wf(),
            r matches Ok(Some(v)) ==> final(self).frames@.len() == 0,
            r matches Ok(None) ==> final(self).frames@.len() == old(self).frames@.len() - 1 > 0,
            r is Ok ==> final(self).frames@.len() == old(self).frames@.len() - 1,
            r matches Ok(Some(v)) ==> {
                let fr = old(self).frames@.last();
                v@ == old(self).stack_view()[fr.reg_offset + chunks@[fr.chunk_idx as int].code@[fr.ip as int]]
            },
            r matches Ok(None) ==> {
                let fr = old(self).frames@.last();
                &&& final(self).calls() == old(self).calls().drop_last()
                &&& final(self).stack_view() == old(self).stack_view().update(
                    fr.ret_dst as int,
                    old(self).stack_view()[fr.reg_offset + chunks@[fr.chunk_idx as int].code@[fr.ip as int]],
                )
            },
            r is Ok <==> {
                let fr = old(self).frames@.last();
                let code = chunks@[fr.chunk_idx as int].code@;
                fr.ip + 1 <= code.len()
            },
            r matches Err(e) ==> e is IpOutOfBounds,
            r is Ok ==> closes_cells(
                old(self).upvalue_cells(),
                final(self).upvalue_cells(),
                old(self).open_cells(),
                old(self).stack_view(),
                old(self).open_cells().len() as int,
            ),
    {
        let reg = self.fetch(chunks)?;
        let ghost mid = *self;
        let res = self.exit_frame(reg);
        proof {
            let last = old(self).calls().len() - 1;
            assert(mid.calls().drop_last() =~= old(self).calls().drop_last());
            assert(mid.frames@.last().ret_dst == mid.calls()[last].3);
            assert(old(self).frames@.last().ret_dst == old(self).calls()[last].3);
        }
        Ok(res)
    }

    /// Leaves the current frame with the value of register `res_reg`: its
    /// open upvalues take the values they point to, and the value goes to the
    /// caller's result slot (or is returned when no frame is left).
    fn exit_frame(&mut self, res_reg: u8) -> (r: Option<Value>)
        requires
            old(self).wf(),
            old(self).frames@.len() > 0,
        ensures
            final(self).wf(),
            final(self).frames@ == old(self).frames@.drop_last(),
            r is Some <==> final(self).frames@.len() == 0,
            r matches Some(v) ==> v@ == old(self).stack_view()[old(self).frames@.last().reg_offset + res_reg],
            final(self).calls() == old(self).calls().drop_last(),
            final(self).objects() == old(self).objects(),
            final(self).globals == old(self).globals,
            closes_cells(
                old(self).upvalue_cells(),
                final(self).upvalue_cells(),
                old(self).frames@.last().open_upvalues@,
                old(self).stack_view(),
                old(self).frames@.last().open_upvalues@.len() as int,
            ),
            r is None ==> final(self).stack_view() == old(self).stack_view().update(
                old(self).frames@.last().ret_dst as int,
                old(self).stack_view()[old(self).frames@.last().reg_offset + res_reg],
            ),
    {
        let n = self.frames.len();
        let ret = self.reg(res_reg);
        let dst = self.frames[n - 1].ret_dst;
        let mut i: usize = 0;
        while i < self.frames[n - 1].open_upvalues.len()
            invariant
                self.wf(),
                n == self.frames@.len(),
                n > 0,
                self.frames == old(self).frames,
                self.stack == old(self).stack,
                self.globals == old(self).globals,
                self.objects() == old(self).objects(),
                ret@ == old(self).stack_view()[old(self).frames@.last().reg_offset + res_reg],
                i <= self.frames@[n - 1].open_upvalues@.len(),
                closes_cells(
                    old(self).upvalue_cells(),
                    self.upvalue_cells(),
                    old(self).frames@.last().open_upvalues@,
                    old(self).stack_view(),
                    i as int,
                ),
            decreases self.frames@[n - 1].open_upvalues@.len() - i,
        {
            let key = self.frames[n - 1].open_upvalues[i];
            let ghost c0 = self.upvalue_cells();
            let ghost keys = old(self).frames@.last().open_upvalues@;
            let ghost st = old(self).stack_view();
            assert(keys[i as int] == key);
            let pos: Option<usize> = match self.heap.upvalue(key) {
                Some(Upvalue::Open(p)) => Some(*p),
                _ => None,
            };
            match pos {
                Some(p) => {
                    if p < self.stack.len() {
                        let v = self.stack[p].clone();
                        self.heap.set_upvalue(key, Upvalue::Closed(v));
                    }
                },
                None => {},
            }
            proof {
                let c1 = self.upvalue_cells();
                let oc = old(self).upvalue_cells();
                assert(st == self.stack_view());
                assert forall|k: usize| #[trigger] c1.contains_key(k) implies c1[k] == if (exists|j: int|
                    0 <= j < i + 1 && keys[j] as usize == k) && oc[k] is Open && oc[k]->Open_0 < st.len() {
                    UpvalueModel::Closed(st[oc[k]->Open_0 as int])
                } else {
                    oc[k]
                } by {
                    if k == key as usize {
                        assert(keys[i as int] as usize == k);
                        if exists|j: int| 0 <= j < i && keys[j] as usize == k {
                        } else {
                            assert(c0[k] == oc[k]);
                        }
                    } else {
                        if exists|j: int| 0 <= j < i + 1 && keys[j] as usize == k {
                            let j = choose|j: int| 0 <= j < i + 1 && keys[j] as usize == k;
                            assert(j < i);
                        }
                        assert(c1[k] == c0[k]);
                    }
                }
                assert(c1.dom() =~= oc.dom());
            }
            i = i + 1;
        }
        let ghost calls_before = self.calls();
        self.frames.pop();
        proof {
            assert(self.calls() =~= calls_before.drop_last());
        }
        if self.frames.len() == 0 {
            Some(ret)
        } else {
            let ghost sv = self.stack_view();
            self.put(dst, ret);
            assert(self.stack_view() =~= sv.update(dst as int, ret@));
            None
        }
    }
}

// ── Calls ──

impl VM {
    /// Runs an intrinsic on `args`: `Not`, `Eq` and `Neq` here, the others
    /// through the host.
    fn call_intrinsic<H: Host>(&self, intrinsic: Intrinsic, args: &Vec<Value>, host: &mut H) -> (v: Value)
        ensures
            intrinsic_value(intrinsic, args@.map_values(|a: Value| a@), self.objects()) matches Some(w) ==> v@ == w,
    {
        proof {
            let vs = args@.map_values(|a: Value| a@);
            assert(arg_of(vs, 0) == arg_model(args@, 0));
            assert(arg_of(vs, 1) == arg_model(args@, 1));
        }
        match intrinsic {
            Intrinsic::Not => Value::Bool(!arg(args, 0).is_truthy()),
            Intrinsic::Eq => Value::Bool(values_eq(&arg(args, 0), &arg(args, 1), &self.heap)),
            Intrinsic::Neq => Value::Bool(!values_eq(&arg(args, 0), &arg(args, 1), &self.heap)),
            _ => host.call_intrinsic(intrinsic, args.as_slice(), &self.heap),
        }
    }

    /// Starts a call of chunk `chunk_idx`: the callee's registers begin just
    /// above register `offset` of the caller, its parameters are copied from
    /// the caller's registers `regs`, and its result goes to the caller's
    /// register `dst`.
    fn enter_frame(
        &mut self,
        chunks: &[Chunk],
        chunk_idx: usize,
        dst: u8,
        offset: u8,
        regs: &Vec<u8>,
        closure_upvalues: Vec<u16>,
    ) -> (r: Result<(), RuntimeError>)
        requires
            old(self).wf(),
            old(self).frames@.len() > 0,
            regs@.len() <= 255,
        ensures
            final(self).wf(),
            r is Ok ==> final(self).frames@.len() == old(self).frames@.len() + 1,
            r is Err ==> final(self).frames@.len() == old(self).frames@.len(),
            r is Ok <==> stack_fits(*old(self), old(self).reg_base() + offset + 256),
            r is Ok ==> entered(*old(self), *final(self), chunk_idx as int, 0, regs@, offset, dst, closure_upvalues@),
            r matches Err(e) ==> e is StackOverflow,
    {
        let n = self.frames.len();
        let cur_offset = self.frames[n - 1].reg_offset;
        let ret_dst = self.slot(dst);
        let reg_offset = cur_offset + offset as usize + 1;
        self.ensure_stack(reg_offset + 255, chunks)?;
        let ghost g = self.stack_view();
        proof {
            assert(regs@.take(0) =~= Seq::<u8>::empty());
        }
        let mut i: usize = 0;
        while i < regs.len()
            invariant
                self.wf(),
                0 <= i <= regs@.len(),
                regs@.len() <= 255,
                n == self.frames@.len(),
                n > 0,
                self.frames == old(self).frames,
                self.heap == old(self).heap,
                cur_offset == self.frames@[n - 1].reg_offset,
                reg_offset == cur_offset + offset + 1,
                reg_offset + 255 < self.stack@.len(),
                ret_dst < self.stack@.len(),
                g.len() == self.stack_view().len(),
                self.stack_view() == pass_args(g, cur_offset as int, reg_offset as int, regs@.take(i as int)),
            decreases regs@.len() - i,
        {
            let src = cur_offset + regs[i] as usize;
            let dst_abs = reg_offset + i;
            let ghost before = self.stack_view();
            proof {
                assert(regs@.take(i + 1).drop_last() =~= regs@.take(i as int));
                assert(regs@.take(i + 1)[i as int] == regs@[i as int]);
            }
            if src != dst_abs {
                let v = self.stack[src].clone();
                self.put(dst_abs, v);
                assert(self.stack_view() =~= before.update(dst_abs as int, before[src as int]));
            } else {
                assert(self.stack_view() =~= before.update(dst_abs as int, before[src as int]));
            }
            i = i + 1;
        }
        proof {
            assert(regs@.take(regs@.len() as int) =~= regs@);
        }
        let ghost calls_before = self.calls();
        self.frames.push(CallFrame::new(ret_dst, reg_offset, chunk_idx, closure_upvalues));
        proof {
            assert(self.calls() =~= calls_before.push((chunk_idx as int, 0, reg_offset as int, ret_dst as int)));
            let last = old(self).calls().len() - 1;
            assert(old(self).calls()[last] == (old(self).cur_chunk(), old(self).cur_ip(), old(self).reg_base(),
                old(self).calls()[last].3));
            assert(old(self).calls().update(last, old(self).calls()[last]) =~= old(self).calls());
        }
        Ok(())
    }

    /// A call of function `static_id` (or of the overload of its key that
    /// fits the arguments) whose `argc` argument registers follow in the code.
    #[verifier::rlimit(60)]
    #[verifier::spinoff_prover]
    fn handle_call<H: Host>(
        &mut self,
        chunks: &[Chunk],
        registry: &FunctionRegistry,
        host: &mut H,
        static_id: usize,
        argc: u8,
        dst: u8,
        offset: u8,
        closure_upvalues: Vec<u16>,
    ) -> (r: Result<(), RuntimeError>)
        requires
            old(self).wf(),
            old(self).frames@.len() > 0,
            registry.wf(),
            0 <= old(self).cur_chunk() < chunks@.len(),
            old(self).cur_ip() <= chunks@[old(self).cur_chunk()].code@.len(),
        ensures
            final(self).wf(),
            final(self).frames@.len() >= old(self).frames@.len(),
            ({
                let args = args_at(*old(self), chunks@, 0, argc as int);
                let target = resolved_call(*registry, static_id as int, args, old(self).objects());
                let entry = registry.entries()[target->0 as int];
                &&& r is Ok <==> old(self).cur_ip() + argc <= chunks@[old(self).cur_chunk()].code@.len()
                    && target is Some && (entry is Intrinsic || stack_fits(*old(self), old(self).reg_base()
                    + offset + 256))
                &&& r matches Err(e) ==> if !(old(self).cur_ip() + argc <= chunks@[old(self).cur_chunk()].code@.len()) {
                    e is IpOutOfBounds
                } else if !(static_id < registry.entries().len()) {
                    e is UndefinedFunction
                } else if target is None {
                    e is NoMatchingOverload
                } else {
                    e is StackOverflow
                }
                &&& r is Ok ==> match entry {
                    FnEntry::Intrinsic(f) => called_intrinsic(*old(self), *final(self), f, args, dst, argc as int),
                    FnEntry::ChunkIdx(c) => entered(*old(self), *final(self), c as int, argc as int,
                        regs_at(*old(self), chunks@, 0, argc as int), offset, dst, closure_upvalues@),
                }
            }),
            r matches Err(RuntimeError::UndefinedFunction { name, .. }) ==> name@ == "function #"@ + spec_decimal(
                static_id as nat,
            ),
            r matches Err(RuntimeError::NoMatchingOverload { name, .. }) ==> static_id < registry.entries().len()
                && name@ == spec_key_text(registry.key_of()[static_id as int]),
    {
        let ghost code = chunks@[old(self).cur_chunk()].code@;
        let ghost last = old(self).calls().len() - 1;
        let mut regs: Vec<u8> = Vec::new();
        let mut args: Vec<Value> = Vec::new();
        let mut i: u8 = 0;
        while i < argc
            invariant
                self.wf(),
                self.frames@.len() == old(self).frames@.len(),
                self.frames@.len() > 0,
                last == self.frames@.len() - 1,
                self.stack == old(self).stack,
                self.heap == old(self).heap,
                self.globals == old(self).globals,
                self.cur_chunk() == old(self).cur_chunk(),
                0 <= old(self).cur_chunk() < chunks@.len(),
                code == chunks@[old(self).cur_chunk()].code@,
                self.reg_base() == old(self).reg_base(),
                self.closure_upvalues() == old(self).closure_upvalues(),
                self.cur_ip() == old(self).cur_ip() + i,
                self.calls() == old(self).calls().update(
                    last,
                    (old(self).cur_chunk(), old(self).cur_ip() + i, old(self).reg_base(), old(self).calls()[last].3),
                ),
                old(self).cur_ip() + i <= code.len(),
                regs@ == regs_at(*old(self), chunks@, 0, i as int),
                args@.map_values(|a: Value| a@) == args_at(*old(self), chunks@, 0, i as int),
                i <= argc,
            decreases argc - i,
        {
            let ghost pre_args = args@;
            let r = self.fetch(chunks)?;
            regs.push(r);
            let v = self.reg(r);
            args.push(v);
            proof {
                assert(r == code_byte(*old(self), chunks@, i as int));
                assert(v@ == old(self).stack_view()[old(self).reg_base() + r]);
                assert(args@.map_values(|a: Value| a@) =~= pre_args.map_values(|a: Value| a@).push(v@));
                assert(regs@ =~= regs_at(*old(self), chunks@, 0, i + 1));
                assert(args@.map_values(|a: Value| a@) =~= args_at(*old(self), chunks@, 0, i + 1));
                assert(self.calls().update(last, (old(self).cur_chunk(), old(self).cur_ip() + i + 1,
                    old(self).reg_base(), old(self).calls()[last].3)) =~= self.calls());
            }
            i = i + 1;
        }
        let ghost mid = *self;
        let ghost vs = args@.map_values(|a: Value| a@);
        if static_id >= registry.len() {
            let d = crate::text::decimal(static_id);
            return Err(RuntimeError::UndefinedFunction {
                name: crate::text::join("function #", d.as_str()),
                span: self.locus_span(chunks),
            });
        }
        let key = registry.resolve_id(static_id);
        let resolved = match registry.resolve_overload(key, args.as_slice(), &self.heap) {
            Some(id) => id,
            None => {
                return Err(RuntimeError::NoMatchingOverload { name: key.describe(), span: self.locus_span(chunks) });
            },
        };
        proof {
            let ts = spec_arg_types(vs, old(self).objects())->0;
            let ovs = registry.overloads(key@);
            let k = choose|k: int| spec_is_best(ovs, ts, k) && ovs[k].1 == resolved;
            crate::functions::lemma_best_unique(ovs, ts, k, choose|j: int| spec_is_best(ovs, ts, j));
            registry.lemma_overload_ids(key@, k);
        }
        match registry.get(&resolved) {
            None => Err(RuntimeError::UndefinedFunction { name: key.describe(), span: self.locus_span(chunks) }),
            Some(FnEntry::Intrinsic(intrinsic)) => {
                let result = self.call_intrinsic(*intrinsic, &args, host);
                self.set_reg(dst, result);
                proof {
                    assert(self.stack_view() =~= mid.stack_view().update(mid.reg_base() + dst, result@));
                }
                Ok(())
            },
            Some(FnEntry::ChunkIdx(chunk_idx)) => {
                let res = self.enter_frame(chunks, *chunk_idx, dst, offset, &regs, closure_upvalues);
                proof {
                    if res is Ok {
                        assert(mid.calls().update(last, mid.calls()[last]) =~= mid.calls());
                    }
                }
                res
            },
        }
    }

    /// `CALL dst reg offset argc args…`: calls the function or closure in
    /// register `reg`.
    #[verifier::rlimit(60)]
    #[verifier::spinoff_prover]
    fn op_call<H: Host>(&mut self, chunks: &[Chunk], registry: &FunctionRegistry, host: &mut H) -> (r: Result<(), RuntimeError>)
        requires
            old(self).wf(),
            old(self).frames@.len() > 0,
            old(self).frames@.last().chunk_idx < chunks@.len(),
            registry.wf(),
        ensures
            final(self).wf(),
            final(self).frames@.len() >= old(self).frames@.len(),
            ({
                let callee = reg_of(*old(self), code_byte(*old(self), chunks@, 1));
                let argc = code_byte(*old(self), chunks@, 3);
                let args = args_at(*old(self), chunks@, 4, argc as int);
                let (id, ups) = match callee {
                    ValueModel::Fn(f) => (f as int, Seq::<u16>::empty()),
                    ValueModel::Closure(f, u) => (f as int, u),
                    _ => (-1int, Seq::<u16>::empty()),
                };
                let target = resolved_call(*registry, id, args, old(self).objects());
                let entry = registry.entries()[target->0 as int];
                let dst = code_byte(*old(self), chunks@, 0);
                &&& r is Ok <==> old(self).cur_ip() + 4 <= chunks@[old(self).cur_chunk()].code@.len()
                    && old(self).cur_ip() + 4 + argc <= chunks@[old(self).cur_chunk()].code@.len()
                    && target is Some && (entry is Intrinsic || stack_fits(*old(self), old(self).reg_base()
                    + code_byte(*old(self), chunks@, 2) + 256))
                &&& r matches Err(e) ==> if !(old(self).cur_ip() + 4 <= chunks@[old(self).cur_chunk()].code@.len()) {
                    e is IpOutOfBounds
                } else if id < 0 {
                    e is UndefinedFunction
                } else if !(old(self).cur_ip() + 4 + argc <= chunks@[old(self).cur_chunk()].code@.len()) {
                    e is IpOutOfBounds
                } else if !(id < registry.entries().len()) {
                    e is UndefinedFunction
                } else if target is None {
                    e is NoMatchingOverload
                } else {
                    e is StackOverflow
                }
                &&& r matches Err(RuntimeError::NoMatchingOverload { name, .. }) ==> name@ == spec_key_text(
                    registry.key_of()[id],
                )
                &&& r matches Err(RuntimeError::UndefinedFunction { name, .. }) ==> if id < 0 {
                    name@ == "this variable is not callable"@
                } else {
                    name@ == "function #"@ + spec_decimal(id as nat)
                }
                &&& r is Ok ==> match entry {
                    FnEntry::Intrinsic(f) => called_intrinsic(*old(self), *final(self), f, args, dst, 4 + argc),
                    FnEntry::ChunkIdx(c) => entered(*old(self), *final(self), c as int, 4 + argc,
                        regs_at(*old(self), chunks@, 4, argc as int), code_byte(*old(self), chunks@, 2), dst, ups),
                }
            }),
    {
        let dst = self.fetch(chunks)?;
        let ghost s1 = *self;
        let reg = self.fetch(chunks)?;
        let ghost s2 = *self;
        let offset = self.fetch(chunks)?;
        let ghost s3 = *self;
        let argc = self.fetch(chunks)?;
        let callee = self.reg(reg);
        let ghost mid = *self;
        let res = match callee {
            Value::Fn(f) => self.handle_call(chunks, registry, host, f, argc, dst, offset, Vec::new()),
            Value::Closure { fn_id, upvalues } => self.handle_call(chunks, registry, host, fn_id, argc, dst, offset, upvalues),
            _ => Err(RuntimeError::UndefinedFunction {
                name: "this variable is not callable".to_owned(),
                span: self.locus_span(chunks),
            }),
        };
        proof {
            lemma_advanced_trans(*old(self), s1, s2, 1, 1);
            lemma_advanced_trans(*old(self), s2, s3, 2, 1);
            lemma_advanced_trans(*old(self), s3, mid, 3, 1);
            lemma_shift_args(*old(self), mid, chunks@, 4, 0, argc as int);
            if res is Ok {
                let (id, ups) = match callee@ {
                    ValueModel::Fn(f) => (f as int, Seq::<u16>::empty()),
                    ValueModel::Closure(f, u) => (f as int, u),
                    _ => (-1int, Seq::<u16>::empty()),
                };
                let target = resolved_call(*registry, id, args_at(mid, chunks@, 0, argc as int), mid.objects());
                match registry.entries()[target->0 as int] {
                    FnEntry::Intrinsic(f) => lemma_shift_intrinsic(*old(self), mid, *self, f,
                        args_at(mid, chunks@, 0, argc as int), dst, 4, argc as int),
                    FnEntry::ChunkIdx(c) => lemma_shift_entered(*old(self), mid, *self, c as int, 4, argc as int,
                        regs_at(mid, chunks@, 0, argc as int), offset, dst, ups),
                }
            }
        }
        res
    }

    /// `CALLK dst id offset argc args…`: calls function `id`.
    #[verifier::rlimit(60)]
    #[verifier::spinoff_prover]
    fn op_callk<H: Host>(&mut self, chunks: &[Chunk], registry: &FunctionRegistry, host: &mut H) -> (r: Result<(), RuntimeError>)
        requires
            old(self).wf(),
            old(self).frames@.len() > 0,
            old(self).frames@.last().chunk_idx < chunks@.len(),
            registry.wf(),
        ensures
            final(self).wf(),
            final(self).frames@.len() >= old(self).frames@.len(),
            ({
                let argc = code_byte(*old(self), chunks@, 4);
                let args = args_at(*old(self), chunks@, 5, argc as int);
                let target = resolved_call(*registry, wide_at(*old(self), chunks@, 1) as int, args, old(self).objects());
                let entry = registry.entries()[target->0 as int];
                let dst = code_byte(*old(self), chunks@, 0);
                &&& r is Ok <==> old(self).cur_ip() + 5 <= chunks@[old(self).cur_chunk()].code@.len()
                    && old(self).cur_ip() + 5 + argc <= chunks@[old(self).cur_chunk()].code@.len()
                    && target is Some && (entry is Intrinsic || stack_fits(*old(self), old(self).reg_base()
                    + code_byte(*old(self), chunks@, 3) + 256))
                &&& r matches Err(e) ==> if !(old(self).cur_ip() + 5 <= chunks@[old(self).cur_chunk()].code@.len()
                    && old(self).cur_ip() + 5 + argc <= chunks@[old(self).cur_chunk()].code@.len()) {
                    e is IpOutOfBounds
                } else if !(wide_at(*old(self), chunks@, 1) < registry.entries().len()) {
                    e is UndefinedFunction
                } else if target is None {
                    e is NoMatchingOverload
                } else {
                    e is StackOverflow
                }
                &&& r is Ok ==> match entry {
                    FnEntry::Intrinsic(f) => called_intrinsic(*old(self), *final(self), f, args, dst, 5 + argc),
                    FnEntry::ChunkIdx(c) => entered(*old(self), *final(self), c as int, 5 + argc,
                        regs_at(*old(self), chunks@, 5, argc as int), code_byte(*old(self), chunks@, 3), dst,
                        Seq::empty()),
                }
            }),
            r matches Err(RuntimeError::NoMatchingOverload { name, .. }) ==> name@ == spec_key_text(
                registry.key_of()[wide_at(*old(self), chunks@, 1) as int],
            ),
            r matches Err(RuntimeError::UndefinedFunction { name, .. }) ==> name@ == "function #"@ + spec_decimal(
                wide_at(*old(self), chunks@, 1) as nat,
            ),
    {
        let dst = self.fetch(chunks)?;
        let ghost s1 = *self;
        let fn_id = self.fetch_wide(chunks)?;
        let ghost s2 = *self;
        let offset = self.fetch(chunks)?;
        let ghost s3 = *self;
        let argc = self.fetch(chunks)?;
        let ghost mid = *self;
        proof {
            lemma_advanced_trans(*old(self), s1, s2, 1, 2);
            lemma_advanced_trans(*old(self), s2, s3, 3, 1);
            lemma_advanced_trans(*old(self), s3, mid, 4, 1);
            lemma_shift_args(*old(self), mid, chunks@, 5, 0, argc as int);
        }
        let res = self.handle_call(chunks, registry, host, fn_id as usize, argc, dst, offset, Vec::new());
        proof {
            if res is Ok {
                let target = resolved_call(*registry, fn_id as int, args_at(mid, chunks@, 0, argc as int), mid.objects());
                match registry.entries()[target->0 as int] {
                    FnEntry::Intrinsic(f) => lemma_shift_intrinsic(*old(self), mid, *self, f,
                        args_at(mid, chunks@, 0, argc as int), dst, 5, argc as int),
                    FnEntry::ChunkIdx(c) => lemma_shift_entered(*old(self), mid, *self, c as int, 5, argc as int,
                        regs_at(mid, chunks@, 0, argc as int), offset, dst, Seq::empty()),
                }
            }
        }
        res
    }
}

/// The struct key and field position that field name `name` of the struct
/// value `obj` denote, when `obj` is a struct on the heap that has such a field.
pub open spec fn spec_field_slot(vm: VM, obj: ValueModel, name: ValueModel) -> Option<(usize, int)> {
    match (obj, name) {
        (ValueModel::Struct(k), ValueModel::Str(n)) => {
            if vm.objects().contains_key(k as usize) {
                match spec_field_index(vm.struct_defs(), vm.objects()[k as usize].def_id as int, n) {
                    Some(i) => if i < vm.objects()[k as usize].fields.len() {
                        Some((k as usize, i))
                    } else {
                        None
                    },
                    None => None,
                }
            } else {
                None
            }
        },
        _ => None,
    }
}

/// The variable upvalue cell `key` refers to: the stack slot it points to
/// The stack slot an upvalue cell refers to while open, `usize::MAX` for a
/// closed or missing cell.
pub open spec fn open_slot(vm: VM, key: u16) -> int {
    if vm.upvalue_cells().contains_key(key as usize) && vm.upvalue_cells()[key as usize] is Open {
        vm.upvalue_cells()[key as usize]->Open_0 as int
    } else {
        usize::MAX as int
    }
}

/// The cells `keys` are in order of the stack slots they refer to.
pub open spec fn open_sorted(vm: VM, keys: Seq<u16>) -> bool {
    forall|i: int, j: int| 0 <= i <= j < keys.len() ==> open_slot(vm, #[trigger] keys[i]) <= open_slot(vm, #[trigger] keys[j])
}

/// `after` is `before` with each cell among the first `n` of `keys` that is
/// open on a slot of `stack` closed over the value in that slot; every other
/// cell is unchanged.
pub open spec fn closes_cells(
    before: Map<usize, UpvalueModel>,
    after: Map<usize, UpvalueModel>,
    keys: Seq<u16>,
    stack: Seq<ValueModel>,
    n: int,
) -> bool {
    &&& after.dom() == before.dom()
    &&& forall|k: usize|
        #[trigger] after.contains_key(k) ==> after[k] == if (exists|j: int| 0 <= j < n && keys[j] as usize == k)
            && before[k] is Open && before[k]->Open_0 < stack.len() {
            UpvalueModel::Closed(stack[before[k]->Open_0 as int])
        } else {
            before[k]
        }
}

/// while open, the value it holds once closed.
pub open spec fn spec_upvalue_value(vm: VM, key: u16) -> Option<ValueModel> {
    if vm.upvalue_cells().contains_key(key as usize) {
        match vm.upvalue_cells()[key as usize] {
            UpvalueModel::Open(p) => if p < vm.stack_view().len() {
                Some(vm.stack_view()[p as int])
            } else {
                None
            },
            UpvalueModel::Closed(v) => Some(v),
        }
    } else {
        None
    }
}

/// Upvalue `idx` of the closure running in the current call, if it has one.
pub open spec fn upvalue_key_of(vm: VM, idx: u16) -> Option<u16> {
    if idx < vm.closure_upvalues().len() {
        Some(vm.closure_upvalues()[idx as int])
    } else {
        None
    }
}

/// The struct key of a field slot.
pub open spec fn slot_key(slot: Option<(usize, int)>) -> usize {
    match slot {
        Some((k, _)) => k,
        None => 0,
    }
}

/// The field position of a field slot.
pub open spec fn slot_index(slot: Option<(usize, int)>) -> int {
    match slot {
        Some((_, i)) => i,
        None => 0,
    }
}

/// A struct field written by `SETFIELD` reads back by `GETFIELD`: once the
/// field that `name` denotes in struct `obj` is set to `v`, the same name
/// denotes the same field, which holds `v`.
pub proof fn lemma_field_write_read(before: VM, after: VM, obj: ValueModel, name: ValueModel, v: ValueModel)
    requires
        spec_field_slot(before, obj, name) is Some,
        after.struct_defs() == before.struct_defs(),
        after.objects() == before.objects().insert(
            slot_key(spec_field_slot(before, obj, name)),
            StructModel {
                def_id: before.objects()[slot_key(spec_field_slot(before, obj, name))].def_id,
                fields: before.objects()[slot_key(spec_field_slot(before, obj, name))].fields.update(
                    slot_index(spec_field_slot(before, obj, name)),
                    v,
                ),
            },
        ),
    ensures
        spec_field_slot(after, obj, name) == spec_field_slot(before, obj, name),
        after.objects()[slot_key(spec_field_slot(before, obj, name))].fields[slot_index(spec_field_slot(before, obj, name))] == v,
{
    if let (ValueModel::Struct(k), ValueModel::Str(n)) = (obj, name) {
        crate::vm::heap::lemma_first_index_bounds(before.struct_defs()[before.objects()[k as usize].def_id as int], n);
    }
}

/// Constant `k` of chunk `c`, `nil` when there is none.
pub open spec fn const_of(chunks: Seq<Chunk>, c: int, k: int) -> ValueModel {
    if 0 <= c < chunks.len() && 0 <= k < chunks[c].constants@.len() {
        chunks[c].constants@[k]
    } else {
        ValueModel::Nil
    }
}

/// Argument `i` of a call, `nil` when it was not passed.
pub open spec fn arg_model(args: Seq<Value>, i: int) -> ValueModel {
    if 0 <= i < args.len() { args[i]@ } else { ValueModel::Nil }
}

// ── Closures, upvalues and structs ──

impl VM {
    /// The stack slot an upvalue cell refers to while open (`usize::MAX` for
    /// a closed or missing cell), by which open upvalues are ordered.
    fn open_position(&self, key: u16) -> (res: usize)
        ensures
            res == (if self.heap.upvalues().contains_key(key as usize) && self.heap.upvalues()[key as usize] is Open {
                self.heap.upvalues()[key as usize]->Open_0
            } else {
                usize::MAX
            }),
    {
        match self.heap.upvalue(key) {
            Some(Upvalue::Open(p)) => *p,
            _ => usize::MAX,
        }
    }

    /// Inserts `key`, an open upvalue at stack slot `abs_pos`, into the current
    /// frame's list, keeping the list ordered by stack slot.
    fn insert_open_upvalue_sorted(&mut self, key: u16, abs_pos: usize)
        requires
            old(self).wf(),
            old(self).frames@.len() > 0,
        ensures
            final(self).wf(),
            final(self).frames@.len() == old(self).frames@.len(),
            final(self).frames@.last().reg_offset == old(self).frames@.last().reg_offset,
            final(self).frames@.last().chunk_idx == old(self).frames@.last().chunk_idx,
            final(self).frames@.last().ip == old(self).frames@.last().ip,
            final(self).frames@.last().closure_upvalues == old(self).frames@.last().closure_upvalues,
            exists|p: int|
                0 <= p <= old(self).frames@.last().open_upvalues@.len() && final(self).frames@.last().open_upvalues@
                    == old(self).frames@.last().open_upvalues@.insert(p, key) && (forall|j: int|
                    0 <= j < p ==> open_slot(*old(self), #[trigger] old(self).frames@.last().open_upvalues@[j])
                        <= abs_pos) && (p < old(self).frames@.last().open_upvalues@.len() ==> open_slot(
                    *old(self),
                    old(self).frames@.last().open_upvalues@[p],
                ) > abs_pos),
            open_sorted(*old(self), old(self).frames@.last().open_upvalues@) && open_slot(*old(self), key) == abs_pos
                ==> open_sorted(*final(self), final(self).frames@.last().open_upvalues@),
            final(self).stack == old(self).stack,
            final(self).heap == old(self).heap,
            final(self).globals == old(self).globals,
            final(self).calls() == old(self).calls(),
    {
        let n = self.frames.len();
        // The first position whose upvalue lies above `abs_pos`.
        let mut pos: usize = 0;
        while pos < self.frames[n - 1].open_upvalues.len()
            invariant
                n == self.frames@.len(),
                n > 0,
                self.frames == old(self).frames,
                self.heap == old(self).heap,
                pos <= self.frames@[n - 1].open_upvalues@.len(),
                forall|j: int| 0 <= j < pos ==> open_slot(*old(self), #[trigger] self.frames@[n - 1].open_upvalues@[j]) <= abs_pos,
            ensures
                pos <= self.frames@[n - 1].open_upvalues@.len(),
                forall|j: int| 0 <= j < pos ==> open_slot(*old(self), #[trigger] self.frames@[n - 1].open_upvalues@[j]) <= abs_pos,
                pos < self.frames@[n - 1].open_upvalues@.len() ==> open_slot(*old(self), self.frames@[n - 1].open_upvalues@[pos as int])
                    > abs_pos,
            decreases self.frames@[n - 1].open_upvalues@.len() - pos,
        {
            let k = self.frames[n - 1].open_upvalues[pos];
            if self.open_position(k) > abs_pos {
                break;
            }
            pos = pos + 1;
        }
        let ghost before = self.frames@[n - 1].open_upvalues@;
        assert(before == old(self).frames@.last().open_upvalues@);
        assert(0 <= pos <= before.len() && (forall|j: int| 0 <= j < pos ==> open_slot(*old(self), #[trigger] before[j]) <= abs_pos)
            && (pos < before.len() ==> open_slot(*old(self), before[pos as int]) > abs_pos));
        self.frames[n - 1].open_upvalues.insert(pos, key);
        proof {
            assert(forall|f: int| 0 <= f < n - 1 ==> self.frames@[f] == old(self).frames@[f]);
            assert(self.calls() =~= old(self).calls());
            assert(self.frames@.last().open_upvalues@ == before.insert(pos as int, key));
            assert(open_slot(*self, key) == open_slot(*old(self), key));
            if open_sorted(*old(self), before) && open_slot(*old(self), key) == abs_pos {
                let after = before.insert(pos as int, key);
                assert forall|i: int, j: int| 0 <= i <= j < after.len() implies open_slot(*self, #[trigger] after[i])
                    <= open_slot(*self, #[trigger] after[j]) by {
                    assert(forall|k: u16| open_slot(*self, k) == open_slot(*old(self), k));
                    if i < pos && j > pos {
                        assert(after[j] == before[j - 1]);
                        assert(open_slot(*old(self), before[pos as int]) > abs_pos);
                        assert(open_slot(*old(self), before[pos as int]) <= open_slot(*old(self), before[j - 1]));
                    } else if i == pos && j > pos {
                        assert(open_slot(*old(self), before[pos as int]) <= open_slot(*old(self), before[j - 1]));
                    } else if i > pos {
                        assert(after[i] == before[i - 1] && after[j] == before[j - 1]);
                    }
                }
            }
        }
    }

    /// `CLOSURE dst proto {is_local index}*`: a closure of the function of
    /// prototype constant `proto`, capturing each upvalue from a register of
    /// the current frame (a new open cell) or from the current closure.
    #[verifier::rlimit(100)]
    #[verifier::spinoff_prover]
    fn op_closure(&mut self, chunks: &[Chunk]) -> (r: Result<(), RuntimeError>)
        requires
            old(self).wf(),
            old(self).frames@.len() > 0,
            old(self).frames@.last().chunk_idx < chunks@.len(),
        ensures
            final(self).wf(),
            final(self).frames@.len() == old(self).frames@.len(),
            ({
                let proto = const_of(chunks@, old(self).cur_chunk(), wide_at(*old(self), chunks@, 1) as int);
                let count = proto->FnProto_1 as int;
                let caps = captures_at(*old(self), chunks@, 3, count);
                let len = chunks@[old(self).cur_chunk()].code@.len();
                &&& r is Ok <==> old(self).cur_ip() + 3 <= len && proto is FnProto && old(self).cur_ip() + 3 + 2 * count
                    <= len && forall|i: int| 0 <= i < count && (#[trigger] caps[i]).0 == 0 ==> caps[i].1
                    < old(self).closure_upvalues().len()
                &&& r matches Err(e) ==> if !(old(self).cur_ip() + 3 <= len) {
                    e is IpOutOfBounds
                } else if !(wide_at(*old(self), chunks@, 1) < chunks@[old(self).cur_chunk()].constants@.len()) {
                    e is InvalidOpCode
                } else if !(proto is FnProto) {
                    e is UndefinedFunction
                } else if forall|j: int| 0 <= j < count && old(self).cur_ip() + 3 + 2 * j + 2 <= len
                    ==> !bad_capture(*old(self), #[trigger] caps[j]) {
                    e is IpOutOfBounds
                } else {
                    e is InvalidOpCode
                }
                &&& r is Ok ==> exists|ups: Seq<u16>| #[trigger] made_closure(*old(self), *final(self), proto->FnProto_0,
                    caps, ups, code_byte(*old(self), chunks@, 0), 3 + 2 * count)
            }),
    {
        let ghost code = chunks@[old(self).cur_chunk()].code@;
        let dst = self.fetch(chunks)?;
        let ghost s1 = *self;
        let proto_idx = self.fetch_wide(chunks)?;
        let ghost s2 = *self;
        proof {
            lemma_advanced_trans(*old(self), s1, s2, 1, 2);
        }
        let (fn_id, upvalue_count) = match self.constant(chunks, proto_idx, OpCode::CLOSURE)? {
            Value::FnProto { fn_id, upvalue_count } => (fn_id, upvalue_count),
            _ => {
                return Err(RuntimeError::UndefinedFunction {
                    name: "this variable is not a function prototype".to_owned(),
                    span: self.locus_span(chunks),
                });
            },
        };
        let ghost caps = captures_at(*old(self), chunks@, 3, upvalue_count as int);
        proof {
            assert(proto_idx == wide_at(*old(self), chunks@, 1));
            assert(const_of(chunks@, old(self).cur_chunk(), proto_idx as int) == ValueModel::FnProto(fn_id,
                upvalue_count));
        }
        let n = self.frames.len();
        let cur_offset = self.frames[n - 1].reg_offset;
        let mut upvalues: Vec<u16> = Vec::new();
        let mut i: u16 = 0;
        while i < upvalue_count
            invariant
                self.wf(),
                n == self.frames@.len(),
                n == old(self).frames@.len(),
                n > 0,
                cur_offset == self.frames@[n - 1].reg_offset,
                cur_offset == old(self).reg_base(),
                i <= upvalue_count,
                code == chunks@[old(self).cur_chunk()].code@,
                0 <= old(self).cur_chunk() < chunks@.len(),
                caps == captures_at(*old(self), chunks@, 3, upvalue_count as int),
                const_of(chunks@, old(self).cur_chunk(), wide_at(*old(self), chunks@, 1) as int)
                    == ValueModel::FnProto(fn_id, upvalue_count),
                forall|j: int| 0 <= j < i && (#[trigger] caps[j]).0 == 0 ==> caps[j].1 < old(self).closure_upvalues().len(),
                self.stack == old(self).stack,
                self.globals == old(self).globals,
                self.objects() == old(self).objects(),
                self.cur_chunk() == old(self).cur_chunk(),
                self.reg_base() == old(self).reg_base(),
                self.closure_upvalues() == old(self).closure_upvalues(),
                self.cur_ip() == old(self).cur_ip() + 3 + 2 * i,
                old(self).cur_ip() + 3 + 2 * i <= code.len(),
                self.calls() == old(self).calls().update(
                    n - 1,
                    (old(self).cur_chunk(), old(self).cur_ip() + 3 + 2 * i, old(self).reg_base(), old(self).calls()[n - 1].3),
                ),
                kept_cells(*old(self), *self),
                captured(*old(self), *self, caps, upvalues@, i as int),
            decreases upvalue_count - i,
        {
            let ghost pre = *self;
            let is_local = match self.fetch(chunks) {
                Ok(b) => b,
                Err(e) => {
                    proof {
                        lemma_no_bad_capture_before(*old(self), chunks@, caps, i as int, code.len() as int);
                    }
                    return Err(e);
                },
            };
            let index = match self.fetch(chunks) {
                Ok(b) => b,
                Err(e) => {
                    proof {
                        lemma_no_bad_capture_before(*old(self), chunks@, caps, i as int, code.len() as int);
                    }
                    return Err(e);
                },
            };
            proof {
                assert(is_local == caps[i as int].0 && index == caps[i as int].1);
            }
            if is_local != 0 {
                let abs_pos = cur_offset + index as usize;
                let ghost h0 = self.upvalue_cells();
                let key = self.heap.push_upvalue(Upvalue::Open(abs_pos));
                let ghost h1 = self.upvalue_cells();
                upvalues.push(key);
                self.insert_open_upvalue_sorted(key, abs_pos);
                proof {
                    let k = choose|k: usize| !h0.contains_key(k) && h1 == h0.insert(k, UpvalueModel::Open(abs_pos))
                        && key == k % 0x10000;
                    assert(h0 == pre.upvalue_cells());
                    assert(self.upvalue_cells() == h1);
                    if old(self).upvalue_cells().contains_key(k) {
                        assert(pre.upvalue_cells().contains_key(k));
                    }
                    assert(self.upvalue_cells().contains_key(k));
                    assert(self.upvalue_cells()[k] == UpvalueModel::Open(abs_pos));
                    assert(local_cell(*old(self), *self, abs_pos as int, key));
                    assert forall|k2: usize| #[trigger] pre.upvalue_cells().contains_key(k2) implies self.upvalue_cells().contains_key(k2)
                        && self.upvalue_cells()[k2] == pre.upvalue_cells()[k2] by {
                        assert(k2 != k);
                    }
                    lemma_captured_grows(*old(self), pre, *self, caps, upvalues@, i as int);
                }
            } else {
                let ups = &self.frames[n - 1].closure_upvalues;
                if index as usize >= ups.len() {
                    proof {
                        assert(bad_capture(*old(self), caps[i as int]));
                        assert(old(self).cur_ip() + 3 + 2 * i + 2 <= code.len());
                        assert(wide_at(*old(self), chunks@, 1) < chunks@[old(self).cur_chunk()].constants@.len());
                        assert(!(forall|j: int| 0 <= j < upvalue_count && old(self).cur_ip() + 3 + 2 * j + 2 <= code.len()
                            ==> !bad_capture(*old(self), #[trigger] caps[j])));
                        assert(caps[i as int].0 == 0 && !(caps[i as int].1 < old(self).closure_upvalues().len()));
                        assert(!(forall|j: int| 0 <= j < upvalue_count && (#[trigger] caps[j]).0 == 0 ==> caps[j].1
                            < old(self).closure_upvalues().len()));
                        let proto = const_of(chunks@, old(self).cur_chunk(), wide_at(*old(self), chunks@, 1) as int);
                        let count = proto->FnProto_1 as int;
                        assert(count == upvalue_count);
                        assert(captures_at(*old(self), chunks@, 3, count) == caps);
                        assert(!(forall|j: int| 0 <= j < count && old(self).cur_ip() + 3 + 2 * j + 2 <= code.len()
                            ==> !bad_capture(*old(self), #[trigger] captures_at(*old(self), chunks@, 3, count)[j])));
                    }
                    return Err(self.invalid(OpCode::CLOSURE, chunks));
                }
                upvalues.push(ups[index as usize]);
                proof {
                    lemma_captured_grows(*old(self), pre, *self, caps, upvalues@, i as int);
                }
            }
            proof {
                let last = n - 1;
                assert(self.calls() =~= old(self).calls().update(
                    last,
                    (old(self).cur_chunk(), old(self).cur_ip() + 3 + 2 * (i + 1), old(self).reg_base(),
                        old(self).calls()[last].3),
                ));
            }
            i = i + 1;
        }
        let ghost mid = *self;
        self.set_reg(dst, Value::Closure { fn_id, upvalues });
        proof {
            assert(self.stack_view() =~= mid.stack_view().update(mid.reg_base() + dst, ValueModel::Closure(fn_id,
                upvalues@)));
            lemma_captured_final(*old(self), mid, *self, caps, upvalues@);
            assert(made_closure(*old(self), *self, fn_id, caps, upvalues@, dst, 3 + 2 * upvalue_count));
            let proto = const_of(chunks@, old(self).cur_chunk(), wide_at(*old(self), chunks@, 1) as int);
            assert(dst == code_byte(*old(self), chunks@, 0));
            assert(proto->FnProto_0 == fn_id && proto->FnProto_1 == upvalue_count);
            assert(made_closure(*old(self), *self, proto->FnProto_0, captures_at(*old(self), chunks@, 3,
                proto->FnProto_1 as int), upvalues@, code_byte(*old(self), chunks@, 0), 3 + 2 * (proto->FnProto_1 as int)));
        }
        Ok(())
    }

    /// The key of upvalue `idx` of the closure running in the current frame.
    fn upvalue_key(&self, chunks: &[Chunk], idx: u16, op: OpCode) -> (r: Result<u16, RuntimeError>)
        requires
            self.frames@.len() > 0,
        ensures
            r is Ok <==> upvalue_key_of(*self, idx) is Some,
            r matches Ok(k) ==> upvalue_key_of(*self, idx) == Some(k),
            r matches Err(e) ==> e is InvalidOpCode,
    {
        let ups = &self.frames[self.frames.len() - 1].closure_upvalues;
        if idx as usize >= ups.len() {
            return Err(self.invalid(op, chunks));
        }
        Ok(ups[idx as usize])
    }

    /// `GETUPVAL dst idx`: loads the variable upvalue `idx` refers to.
    fn op_getupval(&mut self, chunks: &[Chunk]) -> (r: Result<(), RuntimeError>)
        requires
            old(self).wf(),
            old(self).frames@.len() > 0,
            old(self).frames@.last().chunk_idx < chunks@.len(),
        ensures
            final(self).wf(),
            final(self).frames@.len() == old(self).frames@.len(),
            r is Ok <==> {
                let fr = old(self).frames@.last();
                let code = chunks@[fr.chunk_idx as int].code@;
                &&& fr.ip + 3 <= code.len()
                &&& upvalue_key_of(*old(self), spec_le_u16(code[fr.ip + 1], code[fr.ip + 2])) matches Some(key)
                    && spec_upvalue_value(*old(self), key) is Some
            },
            r is Ok ==> {
                let fr = old(self).frames@.last();
                let code = chunks@[fr.chunk_idx as int].code@;
                let key = upvalue_key_of(*old(self), spec_le_u16(code[fr.ip + 1], code[fr.ip + 2]))->0;
                &&& final(self).stack_view() == old(self).stack_view().update(
                    fr.reg_offset + code[fr.ip as int],
                    spec_upvalue_value(*old(self), key)->0,
                )
                &&& final(self).frames@.last().ip == fr.ip + 3
                &&& final(self).upvalue_cells() == old(self).upvalue_cells()
            },
            r matches Err(e) ==> if old(self).frames@.last().ip + 3 <= chunks@[old(self).frames@.last().chunk_idx as int].code@.len() {
                e is InvalidOpCode
            } else {
                e is IpOutOfBounds
            },
            r is Ok ==> old(self).same_calls(*final(self)) && final(self).globals == old(self).globals && old(self).same_heap(*final(self)),
    {
        let dst = self.fetch(chunks)?;
        let idx = self.fetch_wide(chunks)?;
        let key = self.upvalue_key(chunks, idx, OpCode::GETUPVAL)?;
        let val = match self.heap.upvalue(key) {
            Some(Upvalue::Open(p)) => {
                if *p < self.stack.len() {
                    self.stack[*p].clone()
                } else {
                    return Err(self.invalid(OpCode::GETUPVAL, chunks));
                }
            },
            Some(Upvalue::Closed(v)) => v.clone(),
            None => {
                return Err(self.invalid(OpCode::GETUPVAL, chunks));
            },
        };
        self.set_reg(dst, val);
        proof {
            assert(self.stack_view() =~= old(self).stack_view().update(
                old(self).frames@.last().reg_offset + dst,
                val@,
            ));
        }
        Ok(())
    }

    /// `SETUPVAL src idx`: stores register `src` in the variable upvalue `idx`
    /// refers to.
    fn op_setupval(&mut self, chunks: &[Chunk]) -> (r: Result<(), RuntimeError>)
        requires
            old(self).wf(),
            old(self).frames@.len() > 0,
            old(self).frames@.last().chunk_idx < chunks@.len(),
        ensures
            final(self).wf(),
            final(self).frames@.len() == old(self).frames@.len(),
            r is Ok <==> {
                let fr = old(self).frames@.last();
                let code = chunks@[fr.chunk_idx as int].code@;
                &&& fr.ip + 3 <= code.len()
                &&& upvalue_key_of(*old(self), spec_le_u16(code[fr.ip + 1], code[fr.ip + 2])) matches Some(key)
                    && spec_upvalue_value(*old(self), key) is Some
            },
            r is Ok ==> {
                let fr = old(self).frames@.last();
                let code = chunks@[fr.chunk_idx as int].code@;
                let key = upvalue_key_of(*old(self), spec_le_u16(code[fr.ip + 1], code[fr.ip + 2]))->0;
                let v = old(self).stack_view()[fr.reg_offset + code[fr.ip as int]];
                &&& final(self).frames@.last().ip == fr.ip + 3
                &&& spec_upvalue_value(*final(self), key) == Some(v)
                &&& final(self).upvalue_cells().dom() == old(self).upvalue_cells().dom()
                &&& match old(self).upvalue_cells()[key as usize] {
                    UpvalueModel::Open(p) => final(self).stack_view() == old(self).stack_view().update(p as int, v)
                        && final(self).upvalue_cells() == old(self).upvalue_cells(),
                    UpvalueModel::Closed(_) => final(self).stack_view() == old(self).stack_view()
                        && final(self).upvalue_cells() == old(self).upvalue_cells().insert(key as usize, UpvalueModel::Closed(v)),
                }
            },
            r matches Err(e) ==> if old(self).frames@.last().ip + 3 <= chunks@[old(self).frames@.last().chunk_idx as int].code@.len() {
                e is InvalidOpCode
            } else {
                e is IpOutOfBounds
            },
            r is Ok ==> old(self).same_calls(*final(self)) && final(self).globals == old(self).globals,
    {
        let src = self.fetch(chunks)?;
        let idx = self.fetch_wide(chunks)?;
        let key = self.upvalue_key(chunks, idx, OpCode::SETUPVAL)?;
        let val = self.reg(src);
        let pos: Option<usize> = match self.heap.upvalue(key) {
            Some(Upvalue::Open(p)) => Some(*p),
            Some(Upvalue::Closed(_)) => None,
            None => {
                return Err(self.invalid(OpCode::SETUPVAL, chunks));
            },
        };
        match pos {
            Some(p) => {
                if p < self.stack.len() {
                    self.put(p, val);
                } else {
                    return Err(self.invalid(OpCode::SETUPVAL, chunks));
                }
            },
            None => {
                self.heap.set_upvalue(key, Upvalue::Closed(val));
            },
        }
        Ok(())
    }

    /// `NEWSTRUCT dst def count {name_k reg}*`: a new instance of definition
    /// `def` whose fields, named by string constants, take the registers'
    /// values.
    #[verifier::rlimit(60)]
    #[verifier::spinoff_prover]
    fn op_newstruct(&mut self, chunks: &[Chunk]) -> (r: Result<(), RuntimeError>)
        requires
            old(self).wf(),
            old(self).frames@.len() > 0,
            old(self).frames@.last().chunk_idx < chunks@.len(),
        ensures
            final(self).wf(),
            final(self).frames@.len() == old(self).frames@.len(),
            ({
                let count = code_byte(*old(self), chunks@, 3) as int;
                let consts = field_consts_at(*old(self), chunks@, 4, count);
                let len = chunks@[old(self).cur_chunk()].code@.len();
                &&& r is Ok <==> old(self).cur_ip() + 4 <= len && old(self).cur_ip() + 4 + 3 * count <= len
                    && forall|i: int| 0 <= i < count ==> (#[trigger] consts[i]) is Str
                &&& r matches Err(e) ==> if !(old(self).cur_ip() + 4 <= len) {
                    e is IpOutOfBounds
                } else if forall|j: int| 0 <= j < count && old(self).cur_ip() + 4 + 3 * j + 3 <= len
                    ==> (#[trigger] consts[j]) is Str {
                    e is IpOutOfBounds
                } else {
                    e is InvalidOpCode
                }
                &&& r is Ok ==> exists|key: usize| #[trigger] new_struct(*old(self), *final(self), key,
                    wide_at(*old(self), chunks@, 1), consts, field_values_at(*old(self), chunks@, 4, count),
                    code_byte(*old(self), chunks@, 0), 4 + 3 * count)
            }),
    {
        let ghost code = chunks@[old(self).cur_chunk()].code@;
        let dst = self.fetch(chunks)?;
        let ghost s1 = *self;
        let def_id = self.fetch_wide(chunks)?;
        let ghost s2 = *self;
        let count = self.fetch(chunks)?;
        proof {
            lemma_advanced_trans(*old(self), s1, s2, 1, 2);
            lemma_advanced_trans(*old(self), s2, *self, 3, 1);
        }
        let mut field_names: Vec<String> = Vec::new();
        let mut field_values: Vec<Value> = Vec::new();
        let mut i: u8 = 0;
        while i < count
            invariant
                self.wf(),
                advanced(*old(self), *self, 4 + 3 * i),
                old(self).cur_ip() + 4 + 3 * i <= code.len(),
                code == chunks@[old(self).cur_chunk()].code@,
                0 <= old(self).cur_chunk() < chunks@.len(),
                i <= count,
                count == code_byte(*old(self), chunks@, 3),
                field_names@.map_values(|s: String| ValueModel::Str(s@)) == field_consts_at(*old(self), chunks@, 4, i as int),
                field_values@.map_values(|v: Value| v@) == field_values_at(*old(self), chunks@, 4, i as int),
                forall|j: int| 0 <= j < i ==> (#[trigger] field_consts_at(*old(self), chunks@, 4, count as int)[j]) is Str,
            decreases count - i,
        {
            let ghost pre = *self;
            let ghost pre_names = field_names@;
            let ghost pre_values = field_values@;
            let name_k = match self.fetch_wide(chunks) {
                Ok(k) => k,
                Err(e) => {
                    proof {
                        lemma_names_before(*old(self), chunks@, i as int, count as int, code.len() as int);
                    }
                    return Err(e);
                },
            };
            let ghost t1 = *self;
            let reg = match self.fetch(chunks) {
                Ok(b) => b,
                Err(e) => {
                    proof {
                        lemma_names_before(*old(self), chunks@, i as int, count as int, code.len() as int);
                    }
                    return Err(e);
                },
            };
            proof {
                lemma_advanced_trans(pre, t1, *self, 2, 1);
                lemma_advanced_trans(*old(self), pre, *self, 4 + 3 * i, 3);
            }
            let name = match self.constant_string(chunks, name_k, OpCode::NEWSTRUCT) {
                Ok(name) => name,
                Err(e) => {
                    proof {
                        let consts = field_consts_at(*old(self), chunks@, 4, count as int);
                        assert(name_k == wide_at(*old(self), chunks@, 4 + 3 * i));
                        assert(consts[i as int] == const_of(chunks@, old(self).cur_chunk(), name_k as int));
                        assert(!(consts[i as int] is Str));
                        assert(old(self).cur_ip() + 4 + 3 * i + 3 <= code.len());
                    }
                    return Err(e);
                },
            };
            field_names.push(name);
            let v = self.reg(reg);
            field_values.push(v);
            proof {
                assert(name_k == wide_at(*old(self), chunks@, 4 + 3 * i));
                assert(reg == code_byte(*old(self), chunks@, 4 + 3 * i + 2));
                assert(field_names@.map_values(|s: String| ValueModel::Str(s@)) =~= pre_names.map_values(
                    |s: String| ValueModel::Str(s@)).push(ValueModel::Str(name@)));
                assert(field_names@.map_values(|s: String| ValueModel::Str(s@)) =~= field_consts_at(*old(self), chunks@, 4, i + 1));
                assert(field_values@.map_values(|v: Value| v@) =~= pre_values.map_values(|v: Value| v@).push(v@));
                assert(field_values@.map_values(|v: Value| v@) =~= field_values_at(*old(self), chunks@, 4, i + 1));
                assert(field_consts_at(*old(self), chunks@, 4, count as int)[i as int] == ValueModel::Str(name@));
            }
            i = i + 1;
        }
        let ghost mid = *self;
        let ghost names = field_names@.map_values(|s: String| s@);
        proof {
            let consts = field_consts_at(*old(self), chunks@, 4, count as int);
            assert(names =~= consts.map_values(|v: ValueModel| str_of(v)));
            assert forall|j: int| 0 <= j < count implies (#[trigger] consts[j]) is Str by {
                assert(field_names@.map_values(|s: String| ValueModel::Str(s@))[j] == ValueModel::Str(
                    field_names@[j]@));
            }
        }
        self.heap.ensure_struct_def(def_id, field_names);
        let obj = StructObject { def_id, fields: field_values };
        let ghost m = obj@;
        let ghost h2 = self.heap.objects();
        let key = self.heap.push_struct(obj);
        let ghost h3 = self.heap.objects();
        self.set_reg(dst, Value::Struct(key));
        proof {
            assert(h2 == mid.objects());
            let k = choose|k: usize| !h2.contains_key(k) && h3 == h2.insert(k, m) && key == k % 0x10000;
            assert(self.objects() == h3);
            assert(self.stack_view() =~= mid.stack_view().update(mid.reg_base() + dst, ValueModel::Struct(key)));
            assert(def_id == wide_at(*old(self), chunks@, 1));
            assert(dst == code_byte(*old(self), chunks@, 0));
            assert(count == code_byte(*old(self), chunks@, 3));
            assert(new_struct(*old(self), *self, k, wide_at(*old(self), chunks@, 1), field_consts_at(*old(self), chunks@, 4, count as int),
                field_values_at(*old(self), chunks@, 4, count as int), code_byte(*old(self), chunks@, 0), 4 + 3 * count));
            assert(self.frames@.len() == old(self).frames@.len());
            assert(old(self).cur_ip() + 4 + 3 * count <= code.len());
        }
        Ok(())
    }

    /// The struct key in register `reg` and the index of its field named by
    /// string constant `name_k`.
    fn field_of(&self, chunks: &[Chunk], reg: u8, name_k: u16, op: OpCode) -> (r: Result<(u16, usize), RuntimeError>)
        requires
            self.wf(),
            self.frames@.len() > 0,
        ensures
            r matches Ok((key, idx)) ==> self.heap.objects().contains_key(key as usize) && idx
                < self.heap.objects()[key as usize].fields.len(),
            r is Ok <==> spec_field_slot(
                *self,
                self.stack_view()[self.frames@.last().reg_offset + reg],
                const_of(chunks@, self.frames@.last().chunk_idx as int, name_k as int),
            ) is Some,
            r matches Ok((key, idx)) ==> spec_field_slot(
                *self,
                self.stack_view()[self.frames@.last().reg_offset + reg],
                const_of(chunks@, self.frames@.last().chunk_idx as int, name_k as int),
            ) == Some((key as usize, idx as int)),
            r matches Err(e) ==> e is InvalidOpCode,
    {
        let name = self.constant_string(chunks, name_k, op)?;
        let key = match self.reg(reg) {
            Value::Struct(k) => k,
            _ => {
                return Err(self.invalid(op, chunks));
            },
        };
        match self.heap.struct_ref(key) {
            None => Err(self.invalid(op, chunks)),
            Some(obj) => match self.heap.struct_field_index(obj.def_id, name.as_str()) {
                Some(idx) => {
                    if idx < obj.fields.len() {
                        Ok((key, idx))
                    } else {
                        Err(self.invalid(op, chunks))
                    }
                },
                None => Err(self.invalid(op, chunks)),
            },
        }
    }

    /// `GETFIELD dst obj name_k`: reads a field of the struct in register `obj`.
    fn op_getfield(&mut self, chunks: &[Chunk]) -> (r: Result<(), RuntimeError>)
        requires
            old(self).wf(),
            old(self).frames@.len() > 0,
            old(self).frames@.last().chunk_idx < chunks@.len(),
        ensures
            final(self).wf(),
            final(self).frames@.len() == old(self).frames@.len(),
            r is Ok <==> {
                let fr = old(self).frames@.last();
                let code = chunks@[fr.chunk_idx as int].code@;
                &&& fr.ip + 4 <= code.len()
                &&& spec_field_slot(
                    *old(self),
                    old(self).stack_view()[fr.reg_offset + code[fr.ip + 1]],
                    const_of(chunks@, fr.chunk_idx as int, spec_le_u16(code[fr.ip + 2], code[fr.ip + 3]) as int),
                ) is Some
            },
            r is Ok ==> {
                let fr = old(self).frames@.last();
                let code = chunks@[fr.chunk_idx as int].code@;
                let slot = spec_field_slot(
                    *old(self),
                    old(self).stack_view()[fr.reg_offset + code[fr.ip + 1]],
                    const_of(chunks@, fr.chunk_idx as int, spec_le_u16(code[fr.ip + 2], code[fr.ip + 3]) as int),
                )->0;
                &&& final(self).stack_view() == old(self).stack_view().update(
                    fr.reg_offset + code[fr.ip as int],
                    old(self).objects()[slot.0].fields[slot.1],
                )
                &&& final(self).frames@.last().ip == fr.ip + 4
                &&& final(self).objects() == old(self).objects()
            },
            r matches Err(e) ==> if old(self).frames@.last().ip + 4 <= chunks@[old(self).frames@.last().chunk_idx as int].code@.len() {
                e is InvalidOpCode
            } else {
                e is IpOutOfBounds
            },
            r is Ok ==> old(self).same_calls(*final(self)) && final(self).globals == old(self).globals && old(self).same_heap(*final(self)),
    {
        let dst = self.fetch(chunks)?;
        let obj_reg = self.fetch(chunks)?;
        let name_k = self.fetch_wide(chunks)?;
        let (key, idx) = self.field_of(chunks, obj_reg, name_k, OpCode::GETFIELD)?;
        let val = match self.heap.struct_ref(key) {
            Some(obj) => obj.fields[idx].clone(),
            None => Value::Nil,
        };
        self.set_reg(dst, val);
        proof {
            assert(self.stack_view() =~= old(self).stack_view().update(
                old(self).frames@.last().reg_offset + dst,
                val@,
            ));
        }
        Ok(())
    }

    /// `SETFIELD obj name_k src`: writes register `src` into a field of the
    /// struct in register `obj`.
    fn op_setfield(&mut self, chunks: &[Chunk]) -> (r: Result<(), RuntimeError>)
        requires
            old(self).wf(),
            old(self).frames@.len() > 0,
            old(self).frames@.last().chunk_idx < chunks@.len(),
        ensures
            final(self).wf(),
            final(self).frames@.len() == old(self).frames@.len(),
            r is Ok <==> {
                let fr = old(self).frames@.last();
                let code = chunks@[fr.chunk_idx as int].code@;
                &&& fr.ip + 4 <= code.len()
                &&& spec_field_slot(
                    *old(self),
                    old(self).stack_view()[fr.reg_offset + code[fr.ip as int]],
                    const_of(chunks@, fr.chunk_idx as int, spec_le_u16(code[fr.ip + 1], code[fr.ip + 2]) as int),
                ) is Some
            },
            r is Ok ==> {
                let fr = old(self).frames@.last();
                let code = chunks@[fr.chunk_idx as int].code@;
                let slot = spec_field_slot(
                    *old(self),
                    old(self).stack_view()[fr.reg_offset + code[fr.ip as int]],
                    const_of(chunks@, fr.chunk_idx as int, spec_le_u16(code[fr.ip + 1], code[fr.ip + 2]) as int),
                )->0;
                let obj = old(self).objects()[slot.0];
                &&& final(self).objects() == old(self).objects().insert(
                    slot.0,
                    StructModel { def_id: obj.def_id, fields: obj.fields.update(slot.1, old(self).stack_view()[fr.reg_offset + code[fr.ip + 3]]) },
                )
                &&& final(self).stack_view() == old(self).stack_view()
                &&& final(self).frames@.last().ip == fr.ip + 4
                &&& final(self).struct_defs() == old(self).struct_defs()
            },
            r matches Err(e) ==> if old(self).frames@.last().ip + 4 <= chunks@[old(self).frames@.last().chunk_idx as int].code@.len() {
                e is InvalidOpCode
            } else {
                e is IpOutOfBounds
            },
            r is Ok ==> old(self).same_calls(*final(self)) && final(self).globals == old(self).globals,
    {
        let obj_reg = self.fetch(chunks)?;
        let name_k = self.fetch_wide(chunks)?;
        let src = self.fetch(chunks)?;
        let (key, idx) = self.field_of(chunks, obj_reg, name_k, OpCode::SETFIELD)?;
        let val = self.reg(src);
        self.heap.set_struct_field(key, idx, val);
        Ok(())
    }
}


// ── One instruction, as the instruction set documents it ──

impl VM {
    /// The chunk the current call executes.
    pub closed spec fn cur_chunk(&self) -> int {
        self.frames@.last().chunk_idx as int
    }

    /// The current call's instruction pointer.
    pub closed spec fn cur_ip(&self) -> int {
        self.frames@.last().ip as int
    }

    /// The stack slot of register 0 of the current call.
    pub closed spec fn reg_base(&self) -> int {
        self.frames@.last().reg_offset as int
    }
}

/// The code of `chunk` loads `v` into a register and returns that register:
/// `LOADBOOL` of a boolean, `LOADNIL`, or `LOADK` of one of the chunk's
/// constants, then `RETURN` of the same register.
pub open spec fn loads_and_returns(chunk: Chunk, v: ValueModel) -> bool {
    let code = chunk.code@;
    ||| code.len() >= 5 && code[0] == spec_op_byte(OpCode::LOADBOOL) && code[3] == spec_op_byte(OpCode::RETURN)
        && code[4] == code[1] && v == ValueModel::Bool(code[2] != 0)
    ||| code.len() >= 4 && code[0] == spec_op_byte(OpCode::LOADNIL) && code[2] == spec_op_byte(OpCode::RETURN)
        && code[3] == code[1] && v == ValueModel::Nil
    ||| code.len() >= 6 && code[0] == spec_op_byte(OpCode::LOADK) && code[4] == spec_op_byte(OpCode::RETURN)
        && code[5] == code[1] && spec_le_u16(code[2], code[3]) < chunk.constants@.len()
        && v == chunk.constants@[spec_le_u16(code[2], code[3]) as int]
}

/// Byte `k` of the current chunk's code, counted from the instruction pointer.
pub open spec fn code_byte(vm: VM, chunks: Seq<Chunk>, k: int) -> u8 {
    chunks[vm.cur_chunk()].code@[vm.cur_ip() + k]
}

/// The 16-bit operand at bytes `k` and `k + 1` from the instruction pointer.
pub open spec fn wide_at(vm: VM, chunks: Seq<Chunk>, k: int) -> u16 {
    spec_le_u16(code_byte(vm, chunks, k), code_byte(vm, chunks, k + 1))
}

/// The signed jump offset at bytes `k` and `k + 1` from the instruction pointer.
pub open spec fn offset_at(vm: VM, chunks: Seq<Chunk>, k: int) -> i16 {
    spec_le_i16(code_byte(vm, chunks, k), code_byte(vm, chunks, k + 1))
}

/// The span recorded for offset `ip` of chunk `ci`, empty when none is.
pub open spec fn span_at(chunks: Seq<Chunk>, ci: int, ip: int) -> Span {
    if 0 <= ci < chunks.len() {
        match spec_locus_at(chunks[ci].locus@, ip) {
            Some(span) => span,
            None => Span { start: 0, end: 0 },
        }
    } else {
        Span { start: 0, end: 0 }
    }
}

/// Whether the code holds the `n` operand bytes after the current opcode.
pub open spec fn has_operands(vm: VM, chunks: Seq<Chunk>, n: int) -> bool {
    vm.cur_ip() + 1 + n <= chunks[vm.cur_chunk()].code@.len()
}

/// Whether the instruction pointer is at an opcode `op` of an existing chunk.
pub open spec fn at_op(vm: VM, chunks: Seq<Chunk>, op: OpCode) -> bool {
    &&& 0 <= vm.cur_chunk() < chunks.len()
    &&& 0 <= vm.cur_ip() < chunks[vm.cur_chunk()].code@.len()
    &&& code_byte(vm, chunks, 0) == spec_op_byte(op)
}

/// Register `r` of the current call.
pub open spec fn reg_of(vm: VM, r: u8) -> ValueModel {
    vm.stack_view()[vm.reg_base() + r]
}

/// After an instruction of `len` bytes that stored `v` in register `dst`:
/// the next instruction follows, and nothing else changed.
/// `after` is `before` with nothing else changed than the current call's
/// registers and instruction pointer: the calls, the heap and every global
/// are the same.
pub open spec fn keeps_rest(before: VM, after: VM) -> bool {
    &&& before.same_calls(after)
    &&& before.same_heap(after)
    &&& forall|g: u16| #[trigger] global_of(after, g) == global_of(before, g)
}

/// `after` is `before` with `v` in register `dst` and the instruction
/// pointer `len` bytes on, and nothing else changed.
pub open spec fn loaded(before: VM, after: VM, dst: u8, v: ValueModel, len: int) -> bool {
    &&& stored(before, after, dst, v, len)
    &&& keeps_rest(before, after)
}

pub open spec fn stored(before: VM, after: VM, dst: u8, v: ValueModel, len: int) -> bool {
    &&& after.stack_view() == before.stack_view().update(before.reg_base() + dst, v)
    &&& after.cur_ip() == before.cur_ip() + len
    &&& after.depth() == before.depth()
}

/// The value of global `slot`: `nil` when it was never set.
pub open spec fn global_of(vm: VM, slot: u16) -> ValueModel {
    if slot < vm.globals_view().len() {
        vm.globals_view()[slot as int]
    } else {
        ValueModel::Nil
    }
}

/// The next instruction pointer of a jump by `offset`, relative to the
/// opcode of the jump.
pub open spec fn jumped(before: VM, offset: i16) -> int {
    before.cur_ip() + offset
}

// ── Calls, as the instruction set documents them ──

impl VM {
    /// The calls in progress, outermost first, each as (chunk, instruction
    /// pointer, stack slot of its register 0, stack slot of its result).
    pub closed spec fn calls(&self) -> Seq<(int, int, int, int)> {
        self.frames@.map_values(
            |f: CallFrame| (f.chunk_idx as int, f.ip as int, f.reg_offset as int, f.ret_dst as int),
        )
    }
}

/// Argument `i` of a call, `nil` when it was not passed.
pub open spec fn arg_of(args: Seq<ValueModel>, i: int) -> ValueModel {
    if 0 <= i < args.len() { args[i] } else { ValueModel::Nil }
}

/// The `argc` argument registers named by the bytes from `k` on, counted
/// from the instruction pointer.
pub open spec fn regs_at(vm: VM, chunks: Seq<Chunk>, k: int, argc: int) -> Seq<u8> {
    Seq::new(argc as nat, |i: int| code_byte(vm, chunks, k + i))
}

/// The values of those registers.
pub open spec fn args_at(vm: VM, chunks: Seq<Chunk>, k: int, argc: int) -> Seq<ValueModel> {
    Seq::new(argc as nat, |i: int| reg_of(vm, code_byte(vm, chunks, k + i)))
}

/// The function that a call of function `id` with `args` runs: the overload
/// of `id`'s key that fits the argument types best (`None` when `id` is not
/// registered, an argument has no type, or no overload fits).
pub open spec fn resolved_call(
    registry: FunctionRegistry,
    id: int,
    args: Seq<ValueModel>,
    objects: Map<usize, StructModel>,
) -> Option<usize> {
    if !(0 <= id < registry.entries().len()) {
        None
    } else {
        match spec_arg_types(args, objects) {
            None => None,
            Some(ts) => {
                let ovs = registry.overloads(registry.key_of()[id]);
                if exists|i: int| spec_is_best(ovs, ts, i) {
                    Some(ovs[choose|i: int| spec_is_best(ovs, ts, i)].1)
                } else {
                    None
                }
            },
        }
    }
}

/// What an intrinsic returns where the library computes it (`Not`, `Eq`,
/// `Neq`); `None` where the host computes it.
pub open spec fn intrinsic_value(
    intrinsic: Intrinsic,
    args: Seq<ValueModel>,
    objects: Map<usize, StructModel>,
) -> Option<ValueModel> {
    match intrinsic {
        Intrinsic::Not => Some(ValueModel::Bool(!spec_truthy(arg_of(args, 0)))),
        Intrinsic::Eq => Some(
            ValueModel::Bool(spec_values_eq(arg_of(args, 0), arg_of(args, 1), objects, EQ_DEPTH as nat)),
        ),
        Intrinsic::Neq => Some(
            ValueModel::Bool(!spec_values_eq(arg_of(args, 0), arg_of(args, 1), objects, EQ_DEPTH as nat)),
        ),
        _ => None,
    }
}

/// The stack after passing a call's arguments: slot `to + i` takes the value
/// of slot `from + regs[i]`, for each `i` in turn.
pub open spec fn pass_args(stack: Seq<ValueModel>, from: int, to: int, regs: Seq<u8>) -> Seq<ValueModel>
    decreases regs.len(),
{
    if regs.len() == 0 {
        stack
    } else {
        let s = pass_args(stack, from, to, regs.drop_last());
        let i = regs.len() - 1;
        s.update(to + i, s[from + regs[i]])
    }
}

/// Whether the stack holds slot `idx` or can grow, by whole blocks of
/// `STACK_GROW` slots, to hold it while staying below `STACK_LIMIT`.
pub open spec fn stack_fits(vm: VM, idx: int) -> bool {
    idx < vm.stack_view().len() || ((idx + STACK_GROW) / STACK_GROW as int) * STACK_GROW < STACK_LIMIT
}

/// `stack` grown to `len` slots with `nil`.
pub open spec fn grown(stack: Seq<ValueModel>, len: int) -> Seq<ValueModel> {
    stack + Seq::new((len - stack.len()) as nat, |i: int| ValueModel::Nil)
}

/// After a call instruction of `len` bytes that started a call of chunk `c`:
/// the caller resumes after the instruction when the call returns; the new
/// call starts at the beginning of chunk `c` with its registers from
/// register `offset + 1` of the caller on, its arguments passed from the
/// caller's registers `regs`, its result bound for the caller's register
/// `dst` and the closure upvalues `ups`; the heap is unchanged.
pub open spec fn entered(
    before: VM,
    after: VM,
    c: int,
    len: int,
    regs: Seq<u8>,
    offset: u8,
    dst: u8,
    ups: Seq<u16>,
) -> bool {
    let base = before.reg_base();
    let new_base = base + offset + 1;
    let last = before.calls().len() - 1;
    &&& after.calls() == before.calls().update(
        last,
        (before.cur_chunk(), before.cur_ip() + len, base, before.calls()[last].3),
    ).push((c, 0, new_base, base + dst))
    &&& before.stack_view().len() <= after.stack_view().len()
    &&& new_base + 256 <= after.stack_view().len()
    &&& after.stack_view() == pass_args(grown(before.stack_view(), after.stack_view().len() as int), base, new_base, regs)
    &&& after.closure_upvalues() == ups
    &&& after.objects() == before.objects()
    &&& after.upvalue_cells() == before.upvalue_cells()
}

/// After a call instruction of `len` bytes that ran `intrinsic` on `args`:
/// its result is in register `dst`, as far as the library computes it.
pub open spec fn called_intrinsic(
    before: VM,
    after: VM,
    intrinsic: Intrinsic,
    args: Seq<ValueModel>,
    dst: u8,
    len: int,
) -> bool {
    let v = after.stack_view()[before.reg_base() + dst];
    &&& stored(before, after, dst, v, len)
    &&& intrinsic_value(intrinsic, args, before.objects()) matches Some(w) ==> v == w
}

/// Reading a `NEWSTRUCT`'s field operands from `n` bytes further on.
proof fn lemma_shift_fields(before: VM, mid: VM, chunks: Seq<Chunk>, n: int, k: int, count: int)
    requires
        advanced(before, mid, n),
        0 <= count,
    ensures
        field_consts_at(mid, chunks, k, count) == field_consts_at(before, chunks, n + k, count),
        field_values_at(mid, chunks, k, count) == field_values_at(before, chunks, n + k, count),
{
    assert(field_consts_at(mid, chunks, k, count) =~= field_consts_at(before, chunks, n + k, count));
    assert(field_values_at(mid, chunks, k, count) =~= field_values_at(before, chunks, n + k, count));
}

proof fn lemma_shift_new_struct(
    before: VM,
    mid: VM,
    after: VM,
    key: usize,
    def_id: u16,
    names: Seq<ValueModel>,
    values: Seq<ValueModel>,
    dst: u8,
    n: int,
    len: int,
)
    requires
        advanced(before, mid, n),
        new_struct(mid, after, key, def_id, names, values, dst, len),
    ensures
        new_struct(before, after, key, def_id, names, values, dst, n + len),
{
}

proof fn lemma_shift_closure(
    before: VM,
    mid: VM,
    after: VM,
    chunks: Seq<Chunk>,
    fn_id: usize,
    ups: Seq<u16>,
    dst: u8,
    n: int,
    k: int,
    count: int,
)
    requires
        advanced(before, mid, n),
        0 <= count,
        made_closure(mid, after, fn_id, captures_at(mid, chunks, k, count), ups, dst, count * 2 + k),
    ensures
        captures_at(mid, chunks, k, count) == captures_at(before, chunks, n + k, count),
        made_closure(before, after, fn_id, captures_at(before, chunks, n + k, count), ups, dst, count * 2 + k + n),
{
    assert(captures_at(mid, chunks, k, count) =~= captures_at(before, chunks, n + k, count));
    let caps = captures_at(before, chunks, n + k, count);
    assert forall|i: int| 0 <= i < caps.len() implies if (#[trigger] caps[i]).0 != 0 {
        local_cell(before, after, before.reg_base() + caps[i].1, ups[i])
    } else {
        ups[i] == before.closure_upvalues()[caps[i].1 as int]
    } by {
        if caps[i].0 != 0 {
            assert(local_cell(mid, after, mid.reg_base() + caps[i].1, ups[i]));
        }
    }
    assert(mid.upvalue_cells() == before.upvalue_cells());
    assert(kept_cells(before, after));
    assert(captured(before, after, caps, ups, caps.len() as int));
    assert(after.objects() == before.objects());
    assert(stored(before, after, dst, ValueModel::Closure(fn_id, ups), count * 2 + k + n));
}

/// A field of a struct that `NEWSTRUCT` made reads back the value it was
/// given: when the definition had no field names yet, it takes this struct's,
/// and the name of field `i` is found at `i` (no earlier field has it). Struct
/// references hold 16-bit keys, so the new key must fit in 16 bits.
pub proof fn lemma_new_struct_field_reads_back(
    before: VM,
    after: VM,
    key: usize,
    def_id: u16,
    names: Seq<ValueModel>,
    values: Seq<ValueModel>,
    dst: u8,
    len: int,
    i: int,
)
    requires
        new_struct(before, after, key, def_id, names, values, dst, len),
        def_id >= before.struct_defs().len() || before.struct_defs()[def_id as int].len() == 0,
        names.len() == values.len(),
        0 <= i < names.len(),
        forall|j: int| 0 <= j < i ==> str_of(#[trigger] names[j]) != str_of(names[i]),
        key < 0x10000,
    ensures
        spec_field_slot(after, ValueModel::Struct(key as u16), ValueModel::Str(str_of(names[i]))) == Some((key, i)),
        after.objects()[key].fields[i] == values[i],
{
    let strs = names.map_values(|v: ValueModel| str_of(v));
    assert(after.struct_defs()[def_id as int] == strs);
    assert forall|j: int| 0 <= j < i implies strs[j] != strs[i] by {
        assert(str_of(names[j]) != str_of(names[i]));
    }
    crate::vm::heap::lemma_first_index(strs, strs[i], i);
    assert((key as u16) as usize == key);
}

/// A call's result lands where the call instruction said: when the call that
/// a `CALL` or `CALLK` started returns `v` (the callers' calls untouched
/// meanwhile), the caller resumes right after that instruction with `v` in
/// its register `dst`, and its other registers below the new call's window
/// hold what they held when the arguments were passed.
pub proof fn lemma_call_returns_to_dst(
    before: VM,
    called: VM,
    later: VM,
    returned: VM,
    c: int,
    len: int,
    regs: Seq<u8>,
    offset: u8,
    dst: u8,
    ups: Seq<u16>,
    v: ValueModel,
)
    requires
        before.calls().len() > 0,
        later.wf(),
        entered(before, called, c, len, regs, offset, dst, ups),
        later.calls().len() == called.calls().len(),
        later.calls().drop_last() == called.calls().drop_last(),
        later.calls().last().3 == called.calls().last().3,
        returned.calls() == later.calls().drop_last(),
        returned.stack_view() == later.stack_view().update(later.calls().last().3, v),
    ensures
        returned.calls().last() == (before.cur_chunk(), before.cur_ip() + len, before.reg_base(),
            before.calls().last().3),
        returned.stack_view()[before.reg_base() + dst] == v,
{
    let last = before.calls().len() - 1;
    assert(called.calls().drop_last()[last] == called.calls()[last]);
    assert(later.calls().drop_last()[last] == later.calls()[last]);
    assert(called.calls().last() == (c, 0int, before.reg_base() + offset + 1, before.reg_base() + dst));
    let top = later.frames@.len() - 1;
    assert(later.frames@[top].ret_dst < later.stack@.len());
    assert(later.calls()[top].3 == later.frames@[top].ret_dst);
}

/// The field-name constants that the `count` field operands of a
/// `NEWSTRUCT` name, from byte `k` on: each a 16-bit constant index followed
/// by a register.
pub open spec fn field_consts_at(vm: VM, chunks: Seq<Chunk>, k: int, count: int) -> Seq<ValueModel> {
    Seq::new(count as nat, |i: int| const_of(chunks, vm.cur_chunk(), wide_at(vm, chunks, k + 3 * i) as int))
}

/// The values of the registers those field operands name.
pub open spec fn field_values_at(vm: VM, chunks: Seq<Chunk>, k: int, count: int) -> Seq<ValueModel> {
    Seq::new(count as nat, |i: int| reg_of(vm, code_byte(vm, chunks, k + 3 * i + 2)))
}

/// When the bytes of field operand `i` run past the code, every field operand
/// whose bytes are there names a string, the first `i` doing so.
proof fn lemma_names_before(vm: VM, chunks: Seq<Chunk>, i: int, count: int, len: int)
    requires
        forall|j: int| 0 <= j < i ==> (#[trigger] field_consts_at(vm, chunks, 4, count)[j]) is Str,
        vm.cur_ip() + 4 + 3 * i + 3 > len,
        0 <= i <= count,
    ensures
        forall|j: int| 0 <= j < count && vm.cur_ip() + 4 + 3 * j + 3 <= len ==> (#[trigger] field_consts_at(vm, chunks, 4, count)[j]) is Str,
{
}

/// The text of a string value (empty for any other value).
pub open spec fn str_of(v: ValueModel) -> Seq<char> {
    match v {
        ValueModel::Str(s) => s,
        _ => Seq::empty(),
    }
}

/// After a `NEWSTRUCT` of `len` bytes: a struct of definition `def_id` with
/// the field values `values` is on the heap under the new key `key`, the
/// definition has the field names `names` unless it had some already, and
/// register `dst` refers to the struct (by the key reduced to 16 bits).
pub open spec fn new_struct(
    before: VM,
    after: VM,
    key: usize,
    def_id: u16,
    names: Seq<ValueModel>,
    values: Seq<ValueModel>,
    dst: u8,
    len: int,
) -> bool {
    &&& !before.objects().contains_key(key)
    &&& after.objects() == before.objects().insert(key, StructModel { def_id, fields: values })
    &&& after.struct_defs() == with_def(before.struct_defs(), def_id as int, names.map_values(|v: ValueModel| str_of(v)))
    &&& after.upvalue_cells() == before.upvalue_cells()
    &&& stored(before, after, dst, ValueModel::Struct((key % 0x10000) as u16), len)
}

/// The capture operands of a `CLOSURE`, from byte `k` on: for each upvalue
/// a flag (non-zero: a register of the current call; zero: an upvalue of the
/// current closure) and an index.
pub open spec fn captures_at(vm: VM, chunks: Seq<Chunk>, k: int, count: int) -> Seq<(u8, u8)> {
    Seq::new(count as nat, |i: int| (code_byte(vm, chunks, k + 2 * i), code_byte(vm, chunks, k + 2 * i + 1)))
}

/// A capture operand that names an upvalue the running closure lacks.
pub open spec fn bad_capture(vm: VM, c: (u8, u8)) -> bool {
    c.0 == 0 && c.1 >= vm.closure_upvalues().len()
}

/// When the bytes of capture `i` run past the code, no capture whose bytes
/// are there is bad, the first `i` being good.
proof fn lemma_no_bad_capture_before(vm: VM, chunks: Seq<Chunk>, caps: Seq<(u8, u8)>, i: int, len: int)
    requires
        forall|j: int| 0 <= j < i && (#[trigger] caps[j]).0 == 0 ==> caps[j].1 < vm.closure_upvalues().len(),
        vm.cur_ip() + 3 + 2 * i + 2 > len,
    ensures
        forall|j: int| 0 <= j < caps.len() && vm.cur_ip() + 3 + 2 * j + 2 <= len ==> !bad_capture(vm, #[trigger] caps[j]),
{
}

/// `after` holds every upvalue cell of `before` unchanged.
pub open spec fn kept_cells(before: VM, after: VM) -> bool {
    forall|k: usize|
        #[trigger] before.upvalue_cells().contains_key(k) ==> after.upvalue_cells().contains_key(k)
            && after.upvalue_cells()[k] == before.upvalue_cells()[k]
}

/// Upvalue key `key` names a cell that `after` holds and `before` did not,
/// open on stack slot `pos`.
pub open spec fn local_cell(before: VM, after: VM, pos: int, key: u16) -> bool {
    exists|k: usize|
        {
            &&& !before.upvalue_cells().contains_key(k)
            &&& #[trigger] after.upvalue_cells().contains_key(k)
            &&& after.upvalue_cells()[k] == UpvalueModel::Open(pos as usize)
            &&& key == k % 0x10000
        }
}

/// The first `n` upvalue keys `ups` follow the capture operands `caps`: a
/// register capture names a new open cell on that register, any other the
/// current closure's upvalue at that index.
pub open spec fn captured(before: VM, after: VM, caps: Seq<(u8, u8)>, ups: Seq<u16>, n: int) -> bool {
    &&& ups.len() == n
    &&& forall|i: int|
        0 <= i < n ==> if (#[trigger] caps[i]).0 != 0 {
            local_cell(before, after, before.reg_base() + caps[i].1, ups[i])
        } else {
            ups[i] == before.closure_upvalues()[caps[i].1 as int]
        }
}

/// After a `CLOSURE` of `len` bytes: register `dst` holds a closure of
/// function `fn_id` with the upvalue keys `ups` that follow `caps`; the old
/// upvalue cells, the structs and the rest of the stack are unchanged.
pub open spec fn made_closure(
    before: VM,
    after: VM,
    fn_id: usize,
    caps: Seq<(u8, u8)>,
    ups: Seq<u16>,
    dst: u8,
    len: int,
) -> bool {
    &&& captured(before, after, caps, ups, caps.len() as int)
    &&& kept_cells(before, after)
    &&& after.objects() == before.objects()
    &&& stored(before, after, dst, ValueModel::Closure(fn_id, ups), len)
}

proof fn lemma_captured_grows(before: VM, pre: VM, after: VM, caps: Seq<(u8, u8)>, ups: Seq<u16>, n: int)
    requires
        captured(before, pre, caps, ups.drop_last(), n),
        kept_cells(before, pre),
        kept_cells(pre, after),
        ups.len() == n + 1,
        0 <= n < caps.len(),
        after.reg_base() == before.reg_base(),
        after.closure_upvalues() == before.closure_upvalues(),
        caps[n].0 != 0 ==> local_cell(before, after, before.reg_base() + caps[n].1, ups[n]),
        caps[n].0 == 0 ==> ups[n] == before.closure_upvalues()[caps[n].1 as int],
    ensures
        captured(before, after, caps, ups, n + 1),
        kept_cells(before, after),
{
    assert forall|i: int| 0 <= i < n + 1 implies if (#[trigger] caps[i]).0 != 0 {
        local_cell(before, after, before.reg_base() + caps[i].1, ups[i])
    } else {
        ups[i] == before.closure_upvalues()[caps[i].1 as int]
    } by {
        if i < n {
            assert(ups.drop_last()[i] == ups[i]);
            if caps[i].0 != 0 {
                let k = choose|k: usize|
                    {
                        &&& !before.upvalue_cells().contains_key(k)
                        &&& #[trigger] pre.upvalue_cells().contains_key(k)
                        &&& pre.upvalue_cells()[k] == UpvalueModel::Open((before.reg_base() + caps[i].1) as usize)
                        &&& ups[i] == k % 0x10000
                    };
                assert(after.upvalue_cells().contains_key(k));
            }
        }
    }
}

proof fn lemma_captured_final(before: VM, mid: VM, after: VM, caps: Seq<(u8, u8)>, ups: Seq<u16>)
    requires
        captured(before, mid, caps, ups, caps.len() as int),
        after.upvalue_cells() == mid.upvalue_cells(),
    ensures
        captured(before, after, caps, ups, caps.len() as int),
{
}

/// `after` is `before` with the current call's instruction pointer moved on
/// by `n` bytes, and nothing else changed.
spec fn advanced(before: VM, after: VM, n: int) -> bool {
    &&& after.stack == before.stack
    &&& after.heap == before.heap
    &&& after.globals == before.globals
    &&& after.frames@.len() == before.frames@.len()
    &&& before.frames@.len() > 0
    &&& after.cur_chunk() == before.cur_chunk()
    &&& after.cur_ip() == before.cur_ip() + n
    &&& after.reg_base() == before.reg_base()
    &&& after.closure_upvalues() == before.closure_upvalues()
    &&& after.calls() == before.calls().update(
        before.calls().len() - 1,
        (before.cur_chunk(), before.cur_ip() + n, before.reg_base(), before.calls().last().3),
    )
}

proof fn lemma_advanced_trans(a: VM, b: VM, c: VM, n: int, m: int)
    requires
        advanced(a, b, n),
        advanced(b, c, m),
    ensures
        advanced(a, c, n + m),
{
    let last = a.calls().len() - 1;
    assert(b.calls()[last] == (a.cur_chunk(), a.cur_ip() + n, a.reg_base(), a.calls()[last].3));
    assert(c.calls() =~= a.calls().update(last, (a.cur_chunk(), a.cur_ip() + n + m, a.reg_base(), a.calls()[last].3)));
}

/// Reading a call's operands from `n` bytes further on.
proof fn lemma_shift_args(before: VM, mid: VM, chunks: Seq<Chunk>, n: int, k: int, argc: int)
    requires
        advanced(before, mid, n),
        0 <= argc,
    ensures
        args_at(mid, chunks, k, argc) == args_at(before, chunks, n + k, argc),
        regs_at(mid, chunks, k, argc) == regs_at(before, chunks, n + k, argc),
        mid.objects() == before.objects(),
        mid.stack_view() == before.stack_view(),
        mid.reg_base() == before.reg_base(),
{
    assert(args_at(mid, chunks, k, argc) =~= args_at(before, chunks, n + k, argc));
    assert(regs_at(mid, chunks, k, argc) =~= regs_at(before, chunks, n + k, argc));
}

proof fn lemma_shift_intrinsic(
    before: VM,
    mid: VM,
    after: VM,
    f: Intrinsic,
    args: Seq<ValueModel>,
    dst: u8,
    n: int,
    argc: int,
)
    requires
        advanced(before, mid, n),
        called_intrinsic(mid, after, f, args, dst, argc),
    ensures
        called_intrinsic(before, after, f, args, dst, n + argc),
{
}

proof fn lemma_shift_entered(
    before: VM,
    mid: VM,
    after: VM,
    c: int,
    n: int,
    argc: int,
    regs: Seq<u8>,
    offset: u8,
    dst: u8,
    ups: Seq<u16>,
)
    requires
        advanced(before, mid, n),
        entered(mid, after, c, argc, regs, offset, dst, ups),
    ensures
        entered(before, after, c, n + argc, regs, offset, dst, ups),
{
    let last = before.calls().len() - 1;
    assert(mid.calls()[last] == (before.cur_chunk(), before.cur_ip() + n, before.reg_base(), before.calls()[last].3));
    assert(mid.calls().update(last, (mid.cur_chunk(), mid.cur_ip() + argc, mid.reg_base(), mid.calls()[last].3))
        =~= before.calls().update(last, (before.cur_chunk(), before.cur_ip() + n + argc, before.reg_base(),
        before.calls()[last].3)));
}

// ── Running ──

impl VM {
    /// One step of execution from `before` to `after` with result `r`: the
    /// instruction at the current call's instruction pointer runs as the
    /// instruction set documents it.
    pub open spec fn step_spec(
        before: VM,
        after: VM,
        chunks: Seq<Chunk>,
        registry: FunctionRegistry,
        r: Result<Option<Value>, RuntimeError>,
    ) -> bool {
        &&& (after.wf())
        &&& (r matches Ok(None) ==> after.depth() > 0)
        &&& (r matches Ok(Some(_)) ==> after.depth() == 0)
        // only the last call's RETURN halts the program
        &&& (r matches Ok(Some(v)) ==> at_op(before, chunks, OpCode::RETURN) && before.depth() == 1
            && v@ == reg_of(before, code_byte(before, chunks, 1)))
        // the instruction pointer is outside the current chunk's code
        &&& (!(0 <= before.cur_chunk() < chunks.len() && 0 <= before.cur_ip() < chunks[before.cur_chunk()].code@.len())
            ==> (r matches Err(e) && e is IpOutOfBounds))
        // the byte there is no opcode
        &&& (0 <= before.cur_chunk() < chunks.len() && 0 <= before.cur_ip() < chunks[before.cur_chunk()].code@.len()
            && code_byte(before, chunks, 0) >= OPCODE_COUNT ==> (r matches Err(e) && e is InvalidOpCode))
        // MOVE dst src: stack[dst] = stack[src]
        &&& (at_op(before, chunks, OpCode::MOVE) ==> {
            &&& r is Ok <==> has_operands(before, chunks, 2)
            &&& r matches Err(e) ==> if has_operands(before, chunks, 2) { e is InvalidOpCode } else { e is IpOutOfBounds }
            &&& r is Ok ==> (r matches Ok(None)) && loaded(before, after, code_byte(before, chunks, 1),
                reg_of(before, code_byte(before, chunks, 2)), 3)
        })
        // LOADK dst k: stack[dst] = constants[k]
        &&& (at_op(before, chunks, OpCode::LOADK) ==> {
            &&& r is Ok <==> has_operands(before, chunks, 3) && wide_at(before, chunks, 2)
                < chunks[before.cur_chunk()].constants@.len()
            &&& r matches Err(e) ==> if has_operands(before, chunks, 3) { e is InvalidOpCode } else { e is IpOutOfBounds }
            &&& r is Ok ==> (r matches Ok(None)) && loaded(before, after, code_byte(before, chunks, 1),
                chunks[before.cur_chunk()].constants@[wide_at(before, chunks, 2) as int], 4)
        })
        // LOADBOOL dst val: stack[dst] = val != 0
        &&& (at_op(before, chunks, OpCode::LOADBOOL) ==> {
            &&& r is Ok <==> has_operands(before, chunks, 2)
            &&& r matches Err(e) ==> if has_operands(before, chunks, 2) { e is InvalidOpCode } else { e is IpOutOfBounds }
            &&& r is Ok ==> (r matches Ok(None)) && loaded(before, after, code_byte(before, chunks, 1),
                ValueModel::Bool(code_byte(before, chunks, 2) != 0), 3)
        })
        // LOADNIL dst: stack[dst] = nil
        &&& (at_op(before, chunks, OpCode::LOADNIL) ==> {
            &&& r is Ok <==> has_operands(before, chunks, 1)
            &&& r matches Err(e) ==> if has_operands(before, chunks, 1) { e is InvalidOpCode } else { e is IpOutOfBounds }
            &&& r is Ok ==> (r matches Ok(None)) && loaded(before, after, code_byte(before, chunks, 1),
                ValueModel::Nil, 2)
        })
        // LOADFUN dst id: stack[dst] = function id
        &&& (at_op(before, chunks, OpCode::LOADFUN) ==> {
            &&& r is Ok <==> has_operands(before, chunks, 3)
            &&& r matches Err(e) ==> if has_operands(before, chunks, 3) { e is InvalidOpCode } else { e is IpOutOfBounds }
            &&& r is Ok ==> (r matches Ok(None)) && loaded(before, after, code_byte(before, chunks, 1),
                ValueModel::Fn(wide_at(before, chunks, 2) as usize), 4)
        })
        // GETGLB dst slot: stack[dst] = globals[slot], nil when never set
        &&& (at_op(before, chunks, OpCode::GETGLB) ==> {
            &&& r is Ok <==> has_operands(before, chunks, 3)
            &&& r matches Err(e) ==> if has_operands(before, chunks, 3) { e is InvalidOpCode } else { e is IpOutOfBounds }
            &&& r is Ok ==> (r matches Ok(None)) && loaded(before, after, code_byte(before, chunks, 1),
                global_of(before, wide_at(before, chunks, 2)), 4)
        })
        // SETGLB slot src: globals[slot] = stack[src], growing the globals
        &&& (at_op(before, chunks, OpCode::SETGLB) ==> {
            &&& r is Ok <==> has_operands(before, chunks, 3)
            &&& r matches Err(e) ==> if has_operands(before, chunks, 3) { e is InvalidOpCode } else { e is IpOutOfBounds }
            &&& r is Ok ==> {
                let slot = wide_at(before, chunks, 1);
                &&& r matches Ok(None)
                &&& after.stack_view() == before.stack_view()
                &&& after.cur_ip() == before.cur_ip() + 4
                &&& after.depth() == before.depth()
                &&& before.same_calls(after)
                &&& before.same_heap(after)
                &&& global_of(after, slot) == reg_of(before, code_byte(before, chunks, 3))
                &&& forall|g: u16| g != slot ==> #[trigger] global_of(after, g) == global_of(before, g)
            }
        })
        // JMP offset: ip = ip of the JMP + offset
        &&& (at_op(before, chunks, OpCode::JMP) ==> {
            &&& r is Ok <==> has_operands(before, chunks, 2) && 0 <= jumped(before, offset_at(before, chunks, 1))
                < chunks[before.cur_chunk()].code@.len()
            &&& r matches Err(e) ==> e is IpOutOfBounds
            // a jump outside the code: the error carries the offset after the operands
            &&& has_operands(before, chunks, 2) ==> (r matches Err(e) ==> VM::out_of_bounds_at(e, before, chunks, before.cur_ip() + 3))
            &&& r is Ok ==> {
                &&& r matches Ok(None)
                &&& after.stack_view() == before.stack_view()
                &&& after.cur_ip() == jumped(before, offset_at(before, chunks, 1))
                &&& after.depth() == before.depth()
                &&& keeps_rest(before, after)
            }
        })
        // TEST reg offset: jumps like JMP when stack[reg] is falsy
        &&& (at_op(before, chunks, OpCode::TEST) ==> {
            let v = reg_of(before, code_byte(before, chunks, 1));
            let target = jumped(before, offset_at(before, chunks, 2));
            &&& r is Ok <==> has_operands(before, chunks, 3) && (spec_truthy(v) || 0 <= target
                < chunks[before.cur_chunk()].code@.len())
            &&& r matches Err(e) ==> e is IpOutOfBounds
            &&& has_operands(before, chunks, 3) ==> (r matches Err(e) ==> VM::out_of_bounds_at(e, before, chunks, before.cur_ip() + 4))
            &&& r is Ok ==> {
                &&& r matches Ok(None)
                &&& after.stack_view() == before.stack_view()
                &&& after.cur_ip() == if spec_truthy(v) { before.cur_ip() + 4 } else { target }
                &&& after.depth() == before.depth()
                &&& keeps_rest(before, after)
            }
        })
        // GETFIELD dst obj name: stack[dst] = the named field of the struct in stack[obj]
        &&& (at_op(before, chunks, OpCode::GETFIELD) ==> {
            let slot = spec_field_slot(before, reg_of(before, code_byte(before, chunks, 2)),
                const_of(chunks, before.cur_chunk(), wide_at(before, chunks, 3) as int));
            let at = slot->0;
            &&& r is Ok <==> has_operands(before, chunks, 4) && slot is Some
            &&& r matches Err(e) ==> if has_operands(before, chunks, 4) { e is InvalidOpCode } else { e is IpOutOfBounds }
            &&& r is Ok ==> (r matches Ok(None)) && loaded(before, after, code_byte(before, chunks, 1),
                before.objects()[at.0].fields[at.1], 5) && after.objects() == before.objects()
        })
        // SETFIELD obj name src: the named field of the struct in stack[obj] = stack[src]
        &&& (at_op(before, chunks, OpCode::SETFIELD) ==> {
            let slot = spec_field_slot(before, reg_of(before, code_byte(before, chunks, 1)),
                const_of(chunks, before.cur_chunk(), wide_at(before, chunks, 2) as int));
            &&& r is Ok <==> has_operands(before, chunks, 4) && slot is Some
            &&& r matches Err(e) ==> if has_operands(before, chunks, 4) { e is InvalidOpCode } else { e is IpOutOfBounds }
            &&& r is Ok ==> {
                let at = slot->0;
                let obj = before.objects()[at.0];
                &&& r matches Ok(None)
                &&& after.objects() == before.objects().insert(at.0, StructModel {
                    def_id: obj.def_id,
                    fields: obj.fields.update(at.1, reg_of(before, code_byte(before, chunks, 4))),
                })
                &&& after.struct_defs() == before.struct_defs()
                &&& after.stack_view() == before.stack_view()
                &&& after.cur_ip() == before.cur_ip() + 5
                &&& after.depth() == before.depth()
                &&& before.same_calls(after)
                &&& forall|g: u16| #[trigger] global_of(after, g) == global_of(before, g)
            }
        })
        // GETUPVAL dst idx: stack[dst] = the variable upvalue idx of the running closure refers to
        &&& (at_op(before, chunks, OpCode::GETUPVAL) ==> {
            let key = upvalue_key_of(before, wide_at(before, chunks, 2));
            &&& r is Ok <==> has_operands(before, chunks, 3) && key is Some && spec_upvalue_value(before, key->0) is Some
            &&& r matches Err(e) ==> if has_operands(before, chunks, 3) { e is InvalidOpCode } else { e is IpOutOfBounds }
            &&& r is Ok ==> (r matches Ok(None)) && loaded(before, after, code_byte(before, chunks, 1),
                spec_upvalue_value(before, key->0)->0, 4)
        })
        // SETUPVAL src idx: the variable upvalue idx of the running closure refers to = stack[src]
        &&& (at_op(before, chunks, OpCode::SETUPVAL) ==> {
            let key = upvalue_key_of(before, wide_at(before, chunks, 2));
            &&& r is Ok <==> has_operands(before, chunks, 3) && key is Some && spec_upvalue_value(before, key->0) is Some
            &&& r matches Err(e) ==> if has_operands(before, chunks, 3) { e is InvalidOpCode } else { e is IpOutOfBounds }
            &&& r is Ok ==> {
                &&& r matches Ok(None)
                &&& spec_upvalue_value(after, key->0) == Some(reg_of(before, code_byte(before, chunks, 1)))
                &&& after.cur_ip() == before.cur_ip() + 4
                &&& after.depth() == before.depth()
                &&& before.same_calls(after)
                &&& forall|g: u16| #[trigger] global_of(after, g) == global_of(before, g)
            }
        })
        // RETURN reg: ends the call with stack[reg], which goes to the caller's
        // result register; the last call halts the program with it
        &&& (at_op(before, chunks, OpCode::RETURN) ==> {
            &&& r is Ok <==> has_operands(before, chunks, 1)
            &&& r matches Err(e) ==> e is IpOutOfBounds
            &&& r is Ok ==> after.depth() == before.depth() - 1
            // the cells the call has open take the values of their slots
            &&& r is Ok ==> closes_cells(
                before.upvalue_cells(),
                after.upvalue_cells(),
                before.open_cells(),
                before.stack_view(),
                before.open_cells().len() as int,
            )
            &&& r matches Ok(Some(v)) ==> v@ == reg_of(before, code_byte(before, chunks, 1))
            &&& before.depth() == 1 && r is Ok ==> (r matches Ok(Some(_)))
            &&& r matches Ok(None) ==> {
                &&& after.calls() == before.calls().drop_last()
                &&& after.stack_view() == before.stack_view().update(
                    before.calls().last().3,
                    reg_of(before, code_byte(before, chunks, 1)),
                )
            }
        })
        // CLOSURE dst proto {is_local index}*: stack[dst] = a closure of the function of
        // prototype constant proto, each upvalue a new open cell on a register or one
        // of the running closure's upvalues
        &&& (at_op(before, chunks, OpCode::CLOSURE) ==> {
            let proto = const_of(chunks, before.cur_chunk(), wide_at(before, chunks, 2) as int);
            let count = proto->FnProto_1 as int;
            let caps = captures_at(before, chunks, 4, count);
            &&& r is Ok <==> has_operands(before, chunks, 3) && proto is FnProto && has_operands(before,
                chunks, 3 + 2 * count) && forall|i: int| 0 <= i < count && (#[trigger] caps[i]).0 == 0
                ==> caps[i].1 < before.closure_upvalues().len()
            &&& r matches Err(e) ==> if !has_operands(before, chunks, 3) {
                e is IpOutOfBounds
            } else if !(wide_at(before, chunks, 2) < chunks[before.cur_chunk()].constants@.len()) {
                e is InvalidOpCode
            } else if !(proto is FnProto) {
                e is UndefinedFunction
            } else if forall|j: int| 0 <= j < count && has_operands(before, chunks, 3 + 2 * j + 2)
                ==> !bad_capture(before, #[trigger] caps[j]) {
                e is IpOutOfBounds
            } else {
                e is InvalidOpCode
            }
            &&& r is Ok ==> (r matches Ok(None)) && exists|ups: Seq<u16>| #[trigger] made_closure(before, after,
                proto->FnProto_0, caps, ups, code_byte(before, chunks, 1), 4 + 2 * count)
        })
        // NEWSTRUCT dst def count {name reg}*: stack[dst] = a new struct of
        // definition def whose fields, named by string constants, hold the registers' values
        &&& (at_op(before, chunks, OpCode::NEWSTRUCT) ==> {
            let count = code_byte(before, chunks, 4) as int;
            let consts = field_consts_at(before, chunks, 5, count);
            &&& r is Ok <==> has_operands(before, chunks, 4) && has_operands(before, chunks, 4 + 3 * count)
                && forall|i: int| 0 <= i < count ==> (#[trigger] consts[i]) is Str
            &&& r matches Err(e) ==> if !has_operands(before, chunks, 4) {
                e is IpOutOfBounds
            } else if forall|j: int| 0 <= j < count && has_operands(before, chunks, 4 + 3 * j + 3)
                ==> (#[trigger] consts[j]) is Str {
                e is IpOutOfBounds
            } else {
                e is InvalidOpCode
            }
            &&& r is Ok ==> (r matches Ok(None)) && exists|key: usize| #[trigger] new_struct(before, after,
                key, wide_at(before, chunks, 2), consts, field_values_at(before, chunks, 5, count),
                code_byte(before, chunks, 1), 5 + 3 * count)
        })
        // CALLK dst id offset argc args…: runs the overload of function id that
        // fits the arguments; an intrinsic's result goes to stack[dst]; a function
        // of the program runs in a new call whose registers begin at register
        // offset + 1, and its result goes to stack[dst] when it returns
        &&& (at_op(before, chunks, OpCode::CALLK) ==> {
            let argc = code_byte(before, chunks, 5);
            let args = args_at(before, chunks, 6, argc as int);
            let target = resolved_call(registry, wide_at(before, chunks, 2) as int, args, before.objects());
            let entry = registry.entries()[target->0 as int];
            let dst = code_byte(before, chunks, 1);
            let offset = code_byte(before, chunks, 4);
            &&& r is Ok <==> has_operands(before, chunks, 5) && has_operands(before, chunks, 5 + argc)
                && target is Some && (entry is Intrinsic || stack_fits(before, before.reg_base() + offset + 256))
            &&& r matches Err(e) ==> if !(has_operands(before, chunks, 5) && has_operands(before, chunks, 5 + argc)) {
                e is IpOutOfBounds
            } else if !(wide_at(before, chunks, 2) < registry.entries().len()) {
                e is UndefinedFunction
            } else if target is None {
                e is NoMatchingOverload
            } else {
                e is StackOverflow
            }
            // the errors name the function
            &&& r matches Err(RuntimeError::NoMatchingOverload { name, .. }) ==> name@ == spec_key_text(
                registry.key_of()[wide_at(before, chunks, 2) as int],
            )
            &&& r matches Err(RuntimeError::UndefinedFunction { name, .. }) ==> name@ == "function #"@ + spec_decimal(
                wide_at(before, chunks, 2) as nat,
            )
            &&& r is Ok ==> (r matches Ok(None)) && match entry {
                FnEntry::Intrinsic(f) => called_intrinsic(before, after, f, args, dst, 6 + argc),
                FnEntry::ChunkIdx(c) => entered(before, after, c as int, 6 + argc,
                    regs_at(before, chunks, 6, argc as int), offset, dst, Seq::empty()),
            }
        })
        // CALL dst reg offset argc args…: as CALLK, for the function or the
        // closure in stack[reg]; a closure's call sees its upvalues
        &&& (at_op(before, chunks, OpCode::CALL) ==> {
            let callee = reg_of(before, code_byte(before, chunks, 2));
            let argc = code_byte(before, chunks, 4);
            let args = args_at(before, chunks, 5, argc as int);
            let (id, ups) = match callee {
                ValueModel::Fn(f) => (f as int, Seq::<u16>::empty()),
                ValueModel::Closure(f, u) => (f as int, u),
                _ => (-1int, Seq::<u16>::empty()),
            };
            let target = resolved_call(registry, id, args, before.objects());
            let entry = registry.entries()[target->0 as int];
            let dst = code_byte(before, chunks, 1);
            let offset = code_byte(before, chunks, 3);
            &&& r is Ok <==> has_operands(before, chunks, 4) && has_operands(before, chunks, 4 + argc)
                && target is Some && (entry is Intrinsic || stack_fits(before, before.reg_base() + offset + 256))
            &&& r matches Err(e) ==> if !has_operands(before, chunks, 4) {
                e is IpOutOfBounds
            } else if id < 0 {
                e is UndefinedFunction
            } else if !has_operands(before, chunks, 4 + argc) {
                e is IpOutOfBounds
            } else if !(id < registry.entries().len()) {
                e is UndefinedFunction
            } else if target is None {
                e is NoMatchingOverload
            } else {
                e is StackOverflow
            }
            // the errors name the function
            &&& r matches Err(RuntimeError::NoMatchingOverload { name, .. }) ==> name@ == spec_key_text(registry.key_of()[id])
            &&& r matches Err(RuntimeError::UndefinedFunction { name, .. }) ==> if id < 0 {
                name@ == "this variable is not callable"@
            } else {
                name@ == "function #"@ + spec_decimal(id as nat)
            }
            &&& r is Ok ==> (r matches Ok(None)) && match entry {
                FnEntry::Intrinsic(f) => called_intrinsic(before, after, f, args, dst, 5 + argc),
                FnEntry::ChunkIdx(c) => entered(before, after, c as int, 5 + argc,
                    regs_at(before, chunks, 5, argc as int), offset, dst, ups),
            }
        })
    }

    /// Executes the instruction at the current call's instruction pointer,
    /// as the instruction set documents it; returns the program's result when
    /// the last call returned.
    #[verifier::spinoff_prover]
    pub fn step<H: Host>(&mut self, chunks: &[Chunk], registry: &FunctionRegistry, host: &mut H) -> (r: Result<Option<Value>, RuntimeError>)
        requires
            old(self).wf(),
            old(self).depth() > 0,
            registry.wf(),
        ensures
            VM::step_spec(*old(self), *final(self), chunks@, *registry, r),
    {
        let op_byte = self.fetch(chunks)?;
        let op = match OpCode::from_repr(op_byte) {
            Some(op) => op,
            None => {
                return Err(RuntimeError::InvalidOpCode { op_byte, span: self.locus_span(chunks) });
            },
        };
        match op {
            OpCode::MOVE => self.op_move(chunks)?,
            OpCode::LOADK => self.op_loadk(chunks)?,
            OpCode::LOADBOOL => self.op_loadbool(chunks)?,
            OpCode::LOADNIL => self.op_loadnil(chunks)?,
            OpCode::LOADFUN => self.op_loadfun(chunks)?,
            OpCode::GETGLB => self.op_getglb(chunks)?,
            OpCode::SETGLB => self.op_setglb(chunks)?,
            OpCode::CALL => {
                let ghost s1 = *self;
                let res = self.op_call(chunks, registry, host);
                proof {
                    let argc = code_byte(s1, chunks@, 3);
                    lemma_shift_args(*old(self), s1, chunks@, 1, 4, argc as int);
                    if res is Ok {
                        let (id, ups) = match reg_of(s1, code_byte(s1, chunks@, 1)) {
                            ValueModel::Fn(f) => (f as int, Seq::<u16>::empty()),
                            ValueModel::Closure(f, u) => (f as int, u),
                            _ => (-1int, Seq::<u16>::empty()),
                        };
                        let args = args_at(s1, chunks@, 4, argc as int);
                        let target = resolved_call(*registry, id, args, s1.objects());
                        match registry.entries()[target->0 as int] {
                            FnEntry::Intrinsic(f) => lemma_shift_intrinsic(*old(self), s1, *self, f, args,
                                code_byte(s1, chunks@, 0), 1, 4 + argc),
                            FnEntry::ChunkIdx(c) => lemma_shift_entered(*old(self), s1, *self, c as int, 1, 4 + argc,
                                regs_at(s1, chunks@, 4, argc as int), code_byte(s1, chunks@, 2),
                                code_byte(s1, chunks@, 0), ups),
                        }
                    }
                }
                res?
            },
            OpCode::CALLK => {
                let ghost s1 = *self;
                let res = self.op_callk(chunks, registry, host);
                proof {
                    assert(wide_at(s1, chunks@, 1) == wide_at(*old(self), chunks@, 2));
                    let argc = code_byte(s1, chunks@, 4);
                    lemma_shift_args(*old(self), s1, chunks@, 1, 5, argc as int);
                    if res is Ok {
                        let args = args_at(s1, chunks@, 5, argc as int);
                        let target = resolved_call(*registry, wide_at(s1, chunks@, 1) as int, args, s1.objects());
                        match registry.entries()[target->0 as int] {
                            FnEntry::Intrinsic(f) => lemma_shift_intrinsic(*old(self), s1, *self, f, args,
                                code_byte(s1, chunks@, 0), 1, 5 + argc),
                            FnEntry::ChunkIdx(c) => lemma_shift_entered(*old(self), s1, *self, c as int, 1, 5 + argc,
                                regs_at(s1, chunks@, 5, argc as int), code_byte(s1, chunks@, 3),
                                code_byte(s1, chunks@, 0), Seq::empty()),
                        }
                    }
                }
                res?
            },
            OpCode::RETURN => {
                let ghost s1 = *self;
                let res = self.op_return(chunks);
                proof {
                    let last = old(self).calls().len() - 1;
                    assert(s1.calls().drop_last() =~= old(self).calls().drop_last());
                    assert(s1.frames@.last().ret_dst == s1.calls()[last].3);
                }
                return res;
            },
            OpCode::JMP => {
                let ghost s1 = *self;
                let res = self.op_jmp(chunks);
                proof {
                    assert(s1.loci_ordered(chunks@) == old(self).loci_ordered(chunks@));
                }
                res?
            },
            OpCode::TEST => {
                let ghost s1 = *self;
                let res = self.op_test(chunks);
                proof {
                    assert(s1.loci_ordered(chunks@) == old(self).loci_ordered(chunks@));
                }
                res?
            },
            OpCode::CLOSURE => {
                let ghost s1 = *self;
                let res = self.op_closure(chunks);
                proof {
                    let proto = const_of(chunks@, s1.cur_chunk(), wide_at(s1, chunks@, 1) as int);
                    let count = proto->FnProto_1 as int;
                    assert(wide_at(s1, chunks@, 1) == wide_at(*old(self), chunks@, 2));
                    assert(code_byte(s1, chunks@, 0) == code_byte(*old(self), chunks@, 1));
                    assert(captures_at(s1, chunks@, 3, count) =~= captures_at(*old(self), chunks@, 4, count));
                    if res is Ok {
                        let ups = choose|ups: Seq<u16>| #[trigger] made_closure(s1, *self, proto->FnProto_0,
                            captures_at(s1, chunks@, 3, count), ups, code_byte(s1, chunks@, 0), 3 + 2 * count);
                        lemma_shift_closure(*old(self), s1, *self, chunks@, proto->FnProto_0, ups, code_byte(s1, chunks@, 0),
                            1, 3, count);
                        assert(made_closure(*old(self), *self, proto->FnProto_0, captures_at(*old(self), chunks@, 4, count),
                            ups, code_byte(*old(self), chunks@, 1), 4 + 2 * count));
                    }
                }
                res?
            },
            OpCode::NEWSTRUCT => {
                let ghost s1 = *self;
                let res = self.op_newstruct(chunks);
                proof {
                    let count = code_byte(s1, chunks@, 3) as int;
                    lemma_shift_fields(*old(self), s1, chunks@, 1, 4, count);
                    assert(count == code_byte(*old(self), chunks@, 4));
                    assert(wide_at(s1, chunks@, 1) == wide_at(*old(self), chunks@, 2));
                    assert(code_byte(s1, chunks@, 0) == code_byte(*old(self), chunks@, 1));
                    if res is Ok {
                        let consts = field_consts_at(s1, chunks@, 4, count);
                        let values = field_values_at(s1, chunks@, 4, count);
                        let key = choose|key: usize| #[trigger] new_struct(s1, *self, key, wide_at(s1, chunks@, 1),
                            consts, values, code_byte(s1, chunks@, 0), 4 + 3 * count);
                        lemma_shift_new_struct(*old(self), s1, *self, key, wide_at(s1, chunks@, 1), consts, values,
                            code_byte(s1, chunks@, 0), 1, 4 + 3 * count);
                        assert(new_struct(*old(self), *self, key, wide_at(*old(self), chunks@, 2),
                            field_consts_at(*old(self), chunks@, 5, count), field_values_at(*old(self), chunks@, 5, count),
                            code_byte(*old(self), chunks@, 1), 5 + 3 * count));
                    }
                }
                res?
            },
            OpCode::GETUPVAL => self.op_getupval(chunks)?,
            OpCode::SETUPVAL => self.op_setupval(chunks)?,
            OpCode::GETFIELD => self.op_getfield(chunks)?,
            OpCode::SETFIELD => self.op_setfield(chunks)?,
        }
        Ok(None)
    }

    /// `after` is `before` with the top-level code started: one more call,
    /// at the start of chunk 0, its registers beginning at stack slot 0 and
    /// its result bound for slot 0, with no upvalues; the stack is only grown
    /// with `nil`, and the heap and the globals are the same.
    pub open spec fn main_started(before: VM, after: VM) -> bool {
        &&& after.wf()
        &&& after.depth() == before.depth() + 1
        &&& after.cur_chunk() == 0
        &&& after.cur_ip() == 0
        &&& after.reg_base() == 0
        &&& after.calls() == before.calls().push((0int, 0int, 0int, 0int))
        &&& before.same_heap(after)
        &&& forall|g: u16| #[trigger] global_of(after, g) == global_of(before, g)
        &&& after.stack_view() == grown(before.stack_view(), after.stack_view().len() as int)
        &&& after.closure_upvalues().len() == 0
        &&& after.open_cells().len() == 0
    }

    /// `s` is reached from `s0` by `n` steps, none of which finished the program.
    pub open spec fn runs(chunks: Seq<Chunk>, registry: FunctionRegistry, s0: VM, s: VM, n: nat) -> bool
        decreases n,
    {
        if n == 0 {
            s == s0
        } else {
            exists|mid: VM|
                VM::runs(chunks, registry, s0, mid, (n - 1) as nat) && mid.depth() > 0 && #[trigger] VM::step_spec(
                    mid,
                    s,
                    chunks,
                    registry,
                    Ok(None),
                )
        }
    }

    /// What a run from `before` to `after` gives: the value is what the step
    /// that finished the program returned, after steps that did not finish it
    /// from the start of chunk 0; an error is that of the step that raised it,
    /// or the step limit once `MAX_STEPS` steps did not finish the program.
    pub open spec fn run_spec(
        before: VM,
        after: VM,
        chunks: Seq<Chunk>,
        registry: FunctionRegistry,
        r: Result<Value, RuntimeError>,
    ) -> bool {
        &&& (r matches Ok(v) ==> exists|s0: VM, last: VM, n: nat|
            VM::main_started(before, s0) && n < MAX_STEPS && #[trigger] VM::runs(chunks, registry, s0, last, n)
                && last.depth() > 0 && VM::step_spec(last, after, chunks, registry, Ok(Some(v))))
        &&& (r matches Err(e) ==> exists|s0: VM, s: VM, n: nat|
            VM::main_started(before, s0) && #[trigger] VM::runs(chunks, registry, s0, s, n) && ((n < MAX_STEPS
                && s.depth() > 0 && VM::step_spec(s, after, chunks, registry, Err(e))) || (n == MAX_STEPS
                && e is StepLimit && after == s)))
    }

    /// From a machine with no call in progress, the steps of a main chunk
    /// that loads a value into a register and returns that register: none
    /// before the load, one after it, which stands at the `RETURN` with the
    /// value in the register.
    proof fn lemma_load_return_runs(
        before: VM,
        s0: VM,
        s: VM,
        n: nat,
        chunks: Seq<Chunk>,
        registry: FunctionRegistry,
        v: ValueModel,
    )
        requires
            before.depth() == 0,
            chunks.len() > 0,
            loads_and_returns(chunks[0], v),
            VM::main_started(before, s0),
            VM::runs(chunks, registry, s0, s, n),
        ensures
            n <= 1,
            n == 0 ==> s == s0,
            n == 1 ==> at_op(s, chunks, OpCode::RETURN) && s.depth() == 1 && has_operands(s, chunks, 1)
                && reg_of(s, code_byte(s, chunks, 1)) == v,
        decreases n,
    {
        let code = chunks[0].code@;
        if n >= 1 {
            let mid = choose|mid: VM|
                VM::runs(chunks, registry, s0, mid, (n - 1) as nat) && mid.depth() > 0 && #[trigger] VM::step_spec(
                    mid,
                    s,
                    chunks,
                    registry,
                    Ok(None),
                );
            VM::lemma_load_return_runs(before, s0, mid, (n - 1) as nat, chunks, registry, v);
            if n == 1 {
                assert(mid == s0);
                assert(code_byte(s0, chunks, 0) == code[0]);
                assert(code_byte(s0, chunks, 1) == code[1]);
                let dst = code[1];
                if code[0] == spec_op_byte(OpCode::LOADBOOL) {
                    assert(at_op(s0, chunks, OpCode::LOADBOOL));
                    assert(code_byte(s0, chunks, 2) == code[2]);
                    assert(loaded(s0, s, dst, ValueModel::Bool(code[2] != 0), 3));
                } else if code[0] == spec_op_byte(OpCode::LOADK) {
                    assert(at_op(s0, chunks, OpCode::LOADK));
                    assert(code_byte(s0, chunks, 2) == code[2]);
                    assert(code_byte(s0, chunks, 3) == code[3]);
                    assert(loaded(s0, s, dst, chunks[0].constants@[spec_le_u16(code[2], code[3]) as int], 4));
                } else {
                    assert(at_op(s0, chunks, OpCode::LOADNIL));
                    assert(loaded(s0, s, dst, ValueModel::Nil, 2));
                }
                assert(s0.frames@.len() == 1);
                assert(s0.frames@[0].reg_offset + 256 <= s0.stack@.len());
                assert(s.cur_chunk() == 0 && s.reg_base() == 0);
            } else {
                assert(at_op(mid, chunks, OpCode::RETURN) && mid.depth() == 1 && has_operands(mid, chunks, 1));
                assert(false);
            }
        }
    }

    /// A main chunk that loads a value into a register and returns that
    /// register runs, from a machine with no call in progress, to that value.
    pub proof fn lemma_run_load_return(
        before: VM,
        after: VM,
        chunks: Seq<Chunk>,
        registry: FunctionRegistry,
        r: Result<Value, RuntimeError>,
        v: ValueModel,
    )
        requires
            before.depth() == 0,
            chunks.len() > 0,
            loads_and_returns(chunks[0], v),
            VM::run_spec(before, after, chunks, registry, r),
        ensures
            r matches Ok(x) && x@ == v,
    {
        let code = chunks[0].code@;
        match r {
            Ok(x) => {
                let (s0, last, n) = choose|s0: VM, last: VM, n: nat|
                    VM::main_started(before, s0) && n < MAX_STEPS && #[trigger] VM::runs(chunks, registry, s0, last, n)
                        && last.depth() > 0 && VM::step_spec(last, after, chunks, registry, Ok(Some(x)));
                VM::lemma_load_return_runs(before, s0, last, n, chunks, registry, v);
                if n == 0 {
                    assert(code_byte(s0, chunks, 0) == code[0]);
                    assert(false);
                }
            },
            Err(e) => {
                let (s0, s, n) = choose|s0: VM, s: VM, n: nat|
                    VM::main_started(before, s0) && #[trigger] VM::runs(chunks, registry, s0, s, n) && ((n < MAX_STEPS
                        && s.depth() > 0 && VM::step_spec(s, after, chunks, registry, Err(e))) || (n == MAX_STEPS
                        && e is StepLimit && after == s));
                VM::lemma_load_return_runs(before, s0, s, n, chunks, registry, v);
                if n == 0 {
                    assert(code_byte(s0, chunks, 0) == code[0]);
                    assert(code_byte(s0, chunks, 1) == code[1]);
                    if code[0] == spec_op_byte(OpCode::LOADBOOL) {
                        assert(at_op(s0, chunks, OpCode::LOADBOOL));
                    } else if code[0] == spec_op_byte(OpCode::LOADK) {
                        assert(code_byte(s0, chunks, 2) == code[2]);
                        assert(code_byte(s0, chunks, 3) == code[3]);
                        assert(at_op(s0, chunks, OpCode::LOADK));
                    } else {
                        assert(at_op(s0, chunks, OpCode::LOADNIL));
                    }
                }
            },
        }
    }

    /// Starts the top-level code: a frame for chunk 0 whose registers begin
    /// at stack slot 0.
    pub fn init_main(&mut self, chunks: &[Chunk]) -> (r: Result<(), RuntimeError>)
        requires
            old(self).wf(),
        ensures
            final(self).wf(),
            r is Ok ==> final(self).depth() == old(self).depth() + 1,
            r is Err ==> final(self).depth() == old(self).depth(),
            r is Ok,
            final(self).cur_chunk() == 0,
            final(self).cur_ip() == 0,
            final(self).reg_base() == 0,
            final(self).calls() == old(self).calls().push((0int, 0int, 0int, 0int)),
            old(self).same_heap(*final(self)),
            forall|g: u16| #[trigger] global_of(*final(self), g) == global_of(*old(self), g),
            final(self).stack_view() == grown(old(self).stack_view(), final(self).stack_view().len() as int),
            final(self).closure_upvalues().len() == 0,
            final(self).open_cells().len() == 0,
    {
        self.ensure_stack(STACK_INIT - 1, chunks)?;
        let ghost calls_before = self.calls();
        self.frames.push(CallFrame::new(0, 0, 0, Vec::new()));
        assert(self.calls() =~= calls_before.push((0int, 0int, 0int, 0int)));
        Ok(())
    }

    /// Runs the program whose top-level code is chunk 0 of `chunks`, with
    /// the functions of `registry` and the intrinsics of `host`, until its
    /// top-level code returns; returns that value.
    pub fn run<H: Host>(&mut self, chunks: &[Chunk], registry: &FunctionRegistry, host: &mut H) -> (r: Result<Value, RuntimeError>)
        requires
            old(self).wf(),
            registry.wf(),
        ensures
            final(self).wf(),
            r is Ok ==> final(self).depth() == 0,
            r matches Ok(v) ==> exists|last: VM|
                #[trigger] at_op(last, chunks@, OpCode::RETURN) && last.wf() && last.depth() == 1 && v@ == reg_of(
                    last,
                    code_byte(last, chunks@, 1),
                ),
            VM::run_spec(*old(self), *final(self), chunks@, *registry, r),
            // a program that returns at once succeeds
            old(self).depth() == 0 && chunks@.len() > 0 && chunks@[0].code@.len() >= 2 && chunks@[0].code@[0]
                == spec_op_byte(OpCode::RETURN) ==> r is Ok,
    {
        match self.init_main(chunks) {
            Ok(()) => {},
            Err(e) => return Err(e),
        }
        let ghost s0 = *self;
        let mut steps: u64 = 0;
        while steps < MAX_STEPS
            invariant
                self.wf(),
                self.frames@.len() > 0,
                registry.wf(),
                VM::main_started(*old(self), s0),
                VM::runs(chunks@, *registry, s0, *self, steps as nat),
                old(self).depth() == 0 && chunks@.len() > 0 && chunks@[0].code@.len() >= 2
                    && chunks@[0].code@[0] == spec_op_byte(OpCode::RETURN) ==> steps == 0 && self.depth() == 1 && at_op(
                    *self,
                    chunks@,
                    OpCode::RETURN,
                ) && has_operands(*self, chunks@, 1),
            decreases MAX_STEPS - steps,
        {
            let ghost before = *self;
            let ghost n = steps as nat;
            match self.step(chunks, registry, host) {
                Ok(Some(v)) => {
                    assert(at_op(before, chunks@, OpCode::RETURN));
                    assert(VM::runs(chunks@, *registry, s0, before, n));
                    return Ok(v);
                },
                Ok(None) => {
                    assert(VM::runs(chunks@, *registry, s0, *self, n + 1)) by {
                        assert(VM::step_spec(before, *self, chunks@, *registry, Ok(None)));
                    }
                },
                Err(e) => {
                    assert(VM::runs(chunks@, *registry, s0, before, n));
                    return Err(e);
                },
            }
            steps = steps + 1;
        }
        Err(RuntimeError::StepLimit { span: self.locus_span(chunks) })
    }
}

} // verus!
