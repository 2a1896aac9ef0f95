use vstd::prelude::*;
use vstd::string::StringSliceAdditionalSpecFns;

use crate::compiler::label::{lemma_patch_all_len, spec_patch_all, Label, LabelModel, LabelTracker, RefKind};
use crate::compiler::lexer::{
    is_ident_start, is_lone_token, lemma_lexed_err, lemma_lexed_names_extend, lemma_lexed_step, lexed, lexes_as, tok_start, names_first_ident, next_token, spec_first_ident, spec_first_punct, spec_ident_end, spec_lexes,
    spec_lone_ident, spec_lone_literal, spec_lone_word, spec_skip, spec_string_close, spec_token_end, Token,
};
use vstd::utf8::decode_utf8;
use crate::compiler::loop_tracker::{LoopLabels, LoopTracker};
use crate::compiler::register::{free_count, lemma_free_from_all, live, RegState, RegisterModel, RegisterTracker};
use crate::compiler::expr::{chain_program, expr_term, operand_chain, ops_defined, spec_binary_item, unclosed_program};
use crate::compiler::meaning::{code_returns, returns_first, returns_term, Term};
use crate::compiler::stmt::return_program;
use crate::text::join;
use crate::value::{Value, ValueModel};
use crate::compiler::variables::{spec_resolve_local, spec_uncaptured_regs, GlobalStore, LocalsTracker, UpvalueDescriptor};
use crate::functions::{spec_std_intrinsic, spec_std_key, spec_std_sig, FnEntry, FnKeyModel, FunctionRegistry, LangItem, STD_FN_COUNT};
use crate::host::Host;
use crate::interner::Interner;
use crate::opcode::{spec_op_byte, OpCode};
use crate::span::Span;
use crate::types::TypeRegistry;
use crate::vm::chunk::{spec_hi, spec_i16_bits, spec_le_u16, spec_lo, Chunk};
use crate::compiler::emit::{const_slot, consts_after};
use crate::constant::spec_find;
use crate::vm::exec::{loads_and_returns, RuntimeError, VM};

verus! {

/// A source span with a message about it.
pub type SpanInfo = (Span, String);

/// Why a source text does not compile.
#[derive(Debug)]
pub enum CompileError {
    /// A token that the grammar does not allow here.
    Unexpected { token: Token, diag: SpanInfo },
    /// A bracket that is not closed.
    Unclosed { open: SpanInfo, close: SpanInfo },
    /// Text that forms no token.
    Unrecognized(SpanInfo),
    /// More registers needed than a frame has.
    RegisterOverflow(SpanInfo),
    /// Leaving the top-level frame.
    ExitTopFrame(SpanInfo),
    UndefinedVariable { name: String, diag: SpanInfo },
    UndefinedFunction { name: String, diag: SpanInfo },
    /// A struct literal that leaves a field out.
    MissingField { field: String, struct_name: String, diag: SpanInfo },
}

/// The compile-time state of one function being compiled.
pub struct CompilerFrame {
    pub regs: RegisterTracker,
    pub locals: LocalsTracker,
    pub loops: LoopTracker,
    pub labels: LabelTracker,
    /// The variables the function captures, in upvalue order.
    pub upvalues: Vec<UpvalueDescriptor>,
    /// The chunk the function's code goes to.
    pub chunk_idx: usize,
}

impl CompilerFrame {
    /// Registers and locals are consistent, and there are 256 registers.
    pub open spec fn wf(&self) -> bool {
        &&& self.regs.wf()
        &&& self.regs@.state.len() == 256
        &&& self.locals.wf()
        &&& self.loop_labels_ok()
    }

    /// While a loop is being compiled, its `break` label is waiting to be
    /// placed and its `continue` label is placed.
    pub open spec fn loop_labels_ok(&self) -> bool {
        forall|k: int|
            0 <= k < self.loops@.len() ==> {
                let l = #[trigger] self.loops@[k];
                &&& l.break_label.0 < self.labels@.len()
                &&& self.labels@[l.break_label.0 as int] is Pending
                &&& l.continue_label.0 < self.labels@.len()
                &&& self.labels@[l.continue_label.0 as int] is Placed
            }
    }

    /// A frame for a function whose parameters `args` occupy its first registers.
    pub fn new(chunk_idx: usize, args: &[u32]) -> (res: Self)
        requires
            args.len() <= 256,
        ensures
            res.wf(),
            res.chunk_idx == chunk_idx,
            res.locals.locals().len() == args.len(),
            res.regs@.state.len() == 256,
            res.upvalues@.len() == 0,
            res.locals.depth() == 0,
            res.loops@.len() == 0,
            res.regs@.held_pt == args.len(),
            forall|i: int| args.len() <= i < 256 ==> #[trigger] res.regs@.state[i] == RegState::Free,
    {
        CompilerFrame {
            regs: RegisterTracker::new_with(256, args.len()),
            locals: LocalsTracker::new_with(args),
            loops: LoopTracker::new(),
            labels: LabelTracker::new(),
            upvalues: Vec::new(),
            chunk_idx,
        }
    }
}

/// Whether the symbols a token carries are below `n`.
pub open spec fn sym_ok(t: Token, n: nat) -> bool {
    &&& (t matches Token::Identifier(s) ==> s < n)
    &&& (t matches Token::String(s) ==> s < n)
}

/// Whether the last two bytes of `code` are a `RETURN` instruction.
pub open spec fn ends_with_return(code: Seq<u8>) -> bool {
    code.len() >= 2 && code[code.len() - 2] == spec_op_byte(OpCode::RETURN)
}

/// A single-pass compiler from source text to bytecode chunks.
///
/// The source is split into tokens first; a piece of text that forms no token
/// ends the list and is reported when the parser reaches it.
pub struct Compiler {
    pub(crate) toks: Vec<(Token, Span)>,
    /// The last entry of `toks` is text that forms no token.
    pub(crate) lex_failed: bool,
    pub(crate) cursor: usize,
    pub(crate) prev_span: Span,
    pub(crate) interner: Interner,
    pub(crate) chunks: Vec<Chunk>,
    pub(crate) globals: GlobalStore,
    pub(crate) funcs: FunctionRegistry,
    pub(crate) types: TypeRegistry,
    pub(crate) frames: Vec<CompilerFrame>,
    pub(crate) anon_count: u32,
    /// How many functions were known before compilation began.
    pub(crate) fn_base: Ghost<nat>,
}

/// Every function of `f` from id `from` on that runs a chunk runs one of the
/// `n` chunks.
pub open spec fn fns_have_chunks(f: FunctionRegistry, from: int, n: int) -> bool {
    forall|i: int| from <= i < f.entries().len() ==> (#[trigger] f.entries()[i] matches FnEntry::ChunkIdx(c) ==> c < n)
}

/// `next` still holds every function of `prev`, under the same id and key.
pub open spec fn keeps_functions(prev: FunctionRegistry, next: FunctionRegistry) -> bool {
    &&& prev.entries().len() <= next.entries().len()
    &&& forall|i: int| 0 <= i < prev.entries().len() ==> #[trigger] next.entries()[i] == prev.entries()[i]
    &&& prev.key_of().len() <= next.key_of().len()
    &&& forall|i: int| 0 <= i < prev.key_of().len() ==> #[trigger] next.key_of()[i] == prev.key_of()[i]
}

/// Registering a function keeps the functions registered before it.
pub proof fn lemma_register_keeps(prev: FunctionRegistry, next: FunctionRegistry, entry: FnEntry, key: FnKeyModel)
    requires
        next.entries() == prev.entries().push(entry),
        next.key_of() == prev.key_of().push(key),
    ensures
        keeps_functions(prev, next),
{
}

impl Compiler {
    /// The current token.
    pub(crate) open spec fn cur_tok(&self) -> Token {
        self.toks@[self.cursor as int].0
    }

    /// The number of tokens from the current one on.
    pub(crate) open spec fn remaining(&self) -> int {
        self.toks@.len() - self.cursor
    }

    /// The code of the chunk the current function goes to.
    pub(crate) open spec fn code(&self) -> Seq<u8> {
        self.chunks@[self.frames@.last().chunk_idx as int].code@
    }

    /// The chunk the current function goes to.
    pub(crate) open spec fn cur_chunk(&self) -> Chunk {
        self.chunks@[self.frames@.last().chunk_idx as int]
    }

    /// The registers of the current function.
    pub(crate) open spec fn regs(&self) -> RegisterModel {
        self.frames@.last().regs@
    }

    /// The locals of the current function.
    pub(crate) open spec fn locals(&self) -> LocalsTracker {
        self.frames@.last().locals
    }

    /// `after` is `before` with `r` the outcome of allocating a temporary:
    /// a register above the locals marked as a temporary, or a register
    /// overflow, which comes only when no register above the locals is free.
    pub(crate) open spec fn allocs_temp(before: Compiler, after: Compiler, r: Result<u8, CompileError>) -> bool {
        &&& r matches Ok(reg) ==> before.regs().held_pt <= reg < before.regs().state.len()
            && after.regs().state == before.regs().state.update(reg as int, RegState::Temp)
        &&& after.regs().held_pt == before.regs().held_pt
        &&& r is Err ==> !before.has_free_temp() && after.regs().state == before.regs().state
        &&& before.has_free_temp() ==> r is Ok
        // a live temporary stays live and is not handed out; the new one is live
        &&& forall|x: int| #[trigger] live(before.regs(), x) ==> live(after.regs(), x) && (r matches Ok(reg) ==> reg as int != x)
        &&& r matches Ok(reg) ==> live(after.regs(), reg as int)
    }

    /// `reg` exists in the frame and holds no local, so a result may be put in it.
    pub(crate) open spec fn reusable(regs: RegisterModel, reg: u8) -> bool {
        (reg as int) < regs.state.len() && regs.state[reg as int] != RegState::Held
    }

    /// `after` is `before` with each temporary among the first `n` of `ops`,
    /// other than `dst`, freed.
    pub(crate) open spec fn frees_other_temps(before: RegisterModel, after: RegisterModel, dst: u8, ops: Seq<u8>, n: int) -> bool {
        &&& after.held_pt == before.held_pt
        &&& after.temp_pt == before.temp_pt
        &&& after.state.len() == before.state.len()
        &&& forall|k: int|
            0 <= k < before.state.len() ==> #[trigger] after.state[k] == if k != dst && before.state[k] == RegState::Temp
                && exists|j: int| 0 <= j < n && ops[j] as int == k {
                RegState::Free
            } else {
                before.state[k]
            }
    }

    /// The token list ends in `Eof` (or in unrecognized text, which the
    /// cursor never reaches), holds `Eof` nowhere else, and its symbols are
    /// interned.
    pub(crate) open spec fn toks_wf(&self) -> bool {
        &&& self.toks@.len() >= 1
        &&& self.cursor < self.toks@.len()
        &&& forall|i: int| 0 <= i < self.toks@.len() - 1 ==> !((#[trigger] self.toks@[i]).0 is Eof)
        &&& !self.lex_failed ==> self.toks@.last().0 is Eof
        &&& self.lex_failed ==> self.cursor < self.toks@.len() - 1
        &&& forall|i: int| 0 <= i < self.toks@.len() ==> sym_ok((#[trigger] self.toks@[i]).0, self.interner@.len())
    }

    pub(crate) open spec fn wf(&self) -> bool {
        &&& self.toks_wf()
        &&& self.interner.wf()
        &&& self.frames@.len() >= 1
        &&& forall|f: int|
            0 <= f < self.frames@.len() ==> (#[trigger] self.frames@[f]).wf() && self.frames@[f].chunk_idx
                < self.chunks@.len()
        &&& forall|c: int| 0 <= c < self.chunks@.len() ==> (#[trigger] self.chunks@[c]).wf()
        &&& self.closed_return()
        &&& self.funcs.wf()
        &&& self.types.wf()
        &&& self.names_interned()
        &&& self.defined_fns_have_chunks()
    }

    /// Whether the current function has a free register above its locals.
    pub(crate) open spec fn has_free_temp(&self) -> bool {
        let regs = self.frames@.last().regs@;
        exists|i: int| regs.held_pt <= i < regs.state.len() && #[trigger] regs.state[i] == RegState::Free
    }

    /// `e` reports the current token where `what` was expected:
    /// "expected `what`, found `token`", at the token's span.
    pub(crate) open spec fn expected_error(&self, e: CompileError, what: Seq<char>) -> bool {
        &&& e matches CompileError::Unexpected { token, diag }
        &&& token == self.cur_tok()
        &&& diag.0 == self.toks@[self.cursor as int].1
        &&& diag.1@ == "expected "@ + what + ", found "@ + self.cur_tok().spec_describe()
    }

    /// `label` was made after every loop now being compiled began, so it is
    /// none of their labels.
    pub(crate) open spec fn after_loop_labels(c: Compiler, label: Label) -> bool {
        forall|k: int|
            0 <= k < c.frames@.last().loops@.len() ==> (#[trigger] c.frames@.last().loops@[k]).break_label.0 < label.0
    }

    /// Moving past the current token succeeds: it is not the one before
    /// unrecognized text.
    pub(crate) open spec fn advances(&self) -> bool {
        !(self.lex_failed && self.cursor == self.toks@.len() - 2)
    }

    /// The parser can move past the next `n` tokens, none of them the end of
    /// the input nor followed by unrecognized text.
    pub(crate) open spec fn can_pass(&self, n: int) -> bool {
        self.cursor + n + (if self.lex_failed { 1int } else { 0int }) < self.toks@.len()
    }

    /// The token `i` places after the current one.
    pub(crate) open spec fn tok_at(&self, i: int) -> Token {
        self.toks@[self.cursor + i].0
    }

    /// Every function registered since compilation began runs a chunk that
    /// exists (or an intrinsic).
    pub(crate) open spec fn defined_fns_have_chunks(&self) -> bool {
        &&& self.fn_base@ <= self.funcs.entries().len()
        &&& forall|i: int|
            self.fn_base@ <= i < self.funcs.entries().len() ==> (#[trigger] self.funcs.entries()[i] matches FnEntry::ChunkIdx(c)
                ==> c < self.chunks@.len())
    }

    /// Every chunk whose function is finished ends with a `RETURN`.
    pub(crate) open spec fn closed_return(&self) -> bool {
        forall|c: int|
            0 <= c < self.chunks@.len() && !self.is_open(c) ==> ends_with_return((#[trigger] self.chunks@[c]).code@)
    }

    /// Whether chunk `c` belongs to a function still being compiled.
    pub(crate) open spec fn is_open(&self, c: int) -> bool {
        exists|f: int| 0 <= f < self.frames@.len() && #[trigger] self.frames@[f].chunk_idx == c
    }

    /// The names of declared structs and of their fields are interned.
    pub(crate) open spec fn names_interned(&self) -> bool {
        &&& forall|d: int| 0 <= d < self.types.defs().len() ==> (#[trigger] self.types.defs()[d]).name
            < self.interner@.len()
        &&& forall|d: int, f: int|
            0 <= d < self.types.defs().len() && 0 <= f < self.types.defs()[d].fields@.len()
                ==> (#[trigger] self.types.defs()[d].fields@[f]).0 < self.interner@.len()
    }

    /// What every step of compilation keeps: the tokens and the interned
    /// strings stay, and the cursor only moves forward.
    pub(crate) open spec fn evolves(&self, next: &Compiler) -> bool {
        &&& next.toks@ == self.toks@
        &&& next.lex_failed == self.lex_failed
        &&& next.interner@ == self.interner@
        &&& next.cursor >= self.cursor
        &&& keeps_functions(self.funcs, next.funcs)
        &&& next.fn_base == self.fn_base
        &&& next.chunks@.len() >= self.chunks@.len()
    }

    /// The stack of frames has the same height, and no loop stack changed.
    pub(crate) open spec fn balanced(&self, next: &Compiler) -> bool {
        &&& next.frames@.len() == self.frames@.len()
        &&& forall|f: int|
            0 <= f < self.frames@.len() ==> (#[trigger] next.frames@[f]).loops@ == self.frames@[f].loops@
    }

    /// One parsing step from `self` to `next`: everything stays well formed
    /// and keeps what compilation keeps; a step that succeeds consumed at
    /// least one token and left the frames as it found them.
    pub(crate) open spec fn parse_step(&self, next: &Compiler, ok: bool) -> bool {
        &&& next.wf()
        &&& self.evolves(next)
        &&& ok ==> self.balanced(next) && next.cursor > self.cursor
    }

    pub(crate) proof fn lemma_not_last(&self)
        requires
            self.toks_wf(),
            !(self.cur_tok() is Eof),
        ensures
            self.cursor + 1 < self.toks@.len(),
    {
    }
}

// ── Token handling ──

impl Compiler {
    /// A compiler positioned before the first of `toks`, with `funcs` as the
    /// known functions and one frame for the top-level code.
    pub(crate) fn new(toks: Vec<(Token, Span)>, lex_failed: bool, interner: Interner, funcs: FunctionRegistry) -> (res: Compiler)
        requires
            toks@.len() >= 2,
            forall|i: int| 0 <= i < toks@.len() - 1 ==> !((#[trigger] toks@[i]).0 is Eof),
            !lex_failed ==> toks@.last().0 is Eof,
            forall|i: int| 0 <= i < toks@.len() ==> sym_ok((#[trigger] toks@[i]).0, interner@.len()),
            interner.wf(),
            funcs.wf(),
        ensures
            res.wf(),
            res.cursor == 0,
            res.toks@ == toks@,
            res.lex_failed == lex_failed,
            res.interner@ == interner@,
            res.frames@.len() == 1,
            res.chunks@.len() == 1,
            res.funcs == funcs,
            res.fn_base@ == funcs.entries().len(),
            res.has_free_temp(),
            res.frames@.last().chunk_idx == 0,
            res.code() == Seq::<u8>::empty(),
            res.cur_chunk().constants@ == Seq::<ValueModel>::empty(),
            res.types.names().is_empty(),
            res.globals.slots().is_empty(),
            res.locals().locals().len() == 0,
            res.regs().held_pt == 0,
            res.regs().state.len() == 256,
            forall|i: int| 0 <= i < 256 ==> #[trigger] res.regs().state[i] == RegState::Free,
    {
        let mut chunks: Vec<Chunk> = Vec::new();
        chunks.push(Chunk::new());
        let no_args: Vec<u32> = Vec::new();
        let mut frames: Vec<CompilerFrame> = Vec::new();
        frames.push(CompilerFrame::new(0, no_args.as_slice()));
        let res = Compiler {
            toks,
            lex_failed,
            cursor: 0,
            prev_span: Span::empty(),
            interner,
            chunks,
            globals: GlobalStore::new(),
            funcs,
            types: TypeRegistry::new(),
            frames,
            anon_count: 0,
            fn_base: Ghost(funcs.entries().len()),
        };
        proof {
            lemma_cur_open(res);
            assert(res.frames@.last().regs@.state[0] == RegState::Free);
        }
        res
    }

    /// The chunks compiled so far.
    pub closed spec fn compiled_chunks(&self) -> Seq<Chunk> {
        self.chunks@
    }

    /// The known functions.
    pub closed spec fn known_funcs(&self) -> FunctionRegistry {
        self.funcs
    }

    /// The compiled chunks and the functions they define.
    pub fn take_compiled(self) -> (res: (Vec<Chunk>, FunctionRegistry))
        ensures
            res.0@ == self.compiled_chunks(),
            res.1 == self.known_funcs(),
    {
        (self.chunks, self.funcs)
    }

    pub(crate) fn current(&self) -> (t: Token)
        requires
            self.toks_wf(),
        ensures
            t == self.cur_tok(),
    {
        self.toks[self.cursor].0
    }

    pub(crate) fn current_span(&self) -> (s: Span)
        requires
            self.toks_wf(),
        ensures
            s == self.toks@[self.cursor as int].1,
    {
        self.toks[self.cursor].1
    }

    /// Whether the current token is of the same kind as `tok`.
    pub(crate) fn check(&self, tok: &Token) -> (r: bool)
        requires
            self.toks_wf(),
        ensures
            r == self.cur_tok().spec_same_kind(*tok),
    {
        self.toks[self.cursor].0.same_kind(tok)
    }

    /// Moves to the next token (staying at `Eof`); fails when the next piece
    /// of text forms no token.
    #[verifier::spinoff_prover]
    pub(crate) fn advance(&mut self) -> (r: Result<(), CompileError>)
        requires
            old(self).wf(),
        ensures
            final(self).wf(),
            old(self).evolves(final(self)),
            final(self).chunks == old(self).chunks,
            final(self).frames == old(self).frames,
            final(self).funcs == old(self).funcs,
            final(self).types == old(self).types,
            final(self).globals == old(self).globals,
            final(self).anon_count == old(self).anon_count,
            r is Ok && !(old(self).cur_tok() is Eof) ==> final(self).cursor == old(self).cursor + 1,
            r is Ok && old(self).cur_tok() is Eof ==> final(self).cursor == old(self).cursor,
            r matches Err(e) ==> e is Unrecognized,
            r is Err <==> old(self).lex_failed && old(self).cursor == old(self).toks@.len() - 2,
            final(self).prev_span == old(self).toks@[old(self).cursor as int].1,
    {
        self.prev_span = self.toks[self.cursor].1;
        let n = self.toks.len();
        if self.cursor < n - 1 {
            if self.lex_failed && self.cursor == n - 2 {
                return Err(CompileError::Unrecognized((self.toks[self.cursor + 1].1, "unexpected token".to_owned())));
            }
            self.cursor = self.cursor + 1;
        } else {
            proof {
                if !(old(self).cur_tok() is Eof) {
                    old(self).lemma_not_last();
                }
            }
        }
        Ok(())
    }

    /// The token after the current one.
    pub(crate) fn peek(&self) -> (r: Result<Token, CompileError>)
        requires
            self.wf(),
        ensures
            self.cursor + 1 < self.toks@.len() ==> (r matches Ok(t) ==> t == self.toks@[self.cursor + 1].0),
            r matches Err(e) ==> e is Unrecognized,
    {
        let n = self.toks.len();
        if self.cursor < n - 1 {
            if self.lex_failed && self.cursor == n - 2 {
                return Err(CompileError::Unrecognized((self.toks[self.cursor + 1].1, "unexpected token".to_owned())));
            }
            Ok(self.toks[self.cursor + 1].0)
        } else {
            Ok(Token::Eof)
        }
    }

    /// Advances past the current token when it is of the kind of `tok`.
    pub(crate) fn matches(&mut self, tok: &Token) -> (r: Result<bool, CompileError>)
        requires
            old(self).wf(),
            !(*tok is Eof),
        ensures
            final(self).wf(),
            old(self).evolves(final(self)),
            old(self).balanced(final(self)),
            r matches Ok(true) ==> final(self).cursor == old(self).cursor + 1,
            r matches Ok(false) ==> final(self).cursor == old(self).cursor && !old(self).cur_tok().spec_same_kind(*tok),
            final(self).frames == old(self).frames,
            final(self).chunks == old(self).chunks,
            final(self).funcs == old(self).funcs,
            r matches Ok(b) ==> b == old(self).cur_tok().spec_same_kind(*tok),
            r matches Err(e) ==> e is Unrecognized,
            r is Err <==> old(self).cur_tok().spec_same_kind(*tok) && old(self).lex_failed && old(self).cursor
                == old(self).toks@.len() - 2,
    {
        if self.check(tok) {
            proof { old(self).lemma_not_last(); }
            match self.advance() {
                Ok(()) => Ok(true),
                Err(e) => Err(e),
            }
        } else {
            Ok(false)
        }
    }

    /// "expected `what`, found `current token`".
    pub(crate) fn expected_found(&self, what: &str) -> (res: String)
        requires
            self.toks_wf(),
        ensures
            res@ == "expected "@ + what@ + ", found "@ + self.cur_tok().spec_describe(),
    {
        let a = join("expected ", what);
        let b = join(a.as_str(), ", found ");
        join(b.as_str(), self.current().describe())
    }

    /// An `Unexpected` error at the current token.
    pub(crate) fn unexpected(&self, msg: String) -> (e: CompileError)
        requires
            self.toks_wf(),
        ensures
            e == (CompileError::Unexpected { token: self.cur_tok(), diag: (self.toks@[self.cursor as int].1, msg) }),
    {
        CompileError::Unexpected { token: self.current(), diag: (self.current_span(), msg) }
    }

    /// Advances past the current token, which must be of the kind of `expected`.
    pub(crate) fn consume(&mut self, expected: &Token) -> (r: Result<(), CompileError>)
        requires
            old(self).wf(),
            !(*expected is Eof),
        ensures
            final(self).wf(),
            old(self).evolves(final(self)),
            old(self).balanced(final(self)),
            r is Ok ==> final(self).cursor == old(self).cursor + 1,
            r is Ok ==> old(self).cur_tok().spec_same_kind(*expected),
            !old(self).cur_tok().spec_same_kind(*expected) ==> (r matches Err(e) && e is Unexpected),
            final(self).frames == old(self).frames,
            final(self).chunks == old(self).chunks,
            final(self).globals == old(self).globals,
            final(self).funcs == old(self).funcs,
            final(self).types == old(self).types,
            old(self).cur_tok().spec_same_kind(*expected) ==> (r is Ok <==> old(self).advances()),
    {
        if self.check(expected) {
            proof { old(self).lemma_not_last(); }
            self.advance()
        } else {
            let msg = self.expected_found(expected.describe());
            Err(self.unexpected(msg))
        }
    }

    /// Like [`Compiler::consume`] for a closing bracket opened at `open_span`.
    pub(crate) fn consume_close(&mut self, expected: &Token, open_span: Span) -> (r: Result<(), CompileError>)
        requires
            old(self).wf(),
            !(*expected is Eof),
        ensures
            final(self).wf(),
            old(self).evolves(final(self)),
            old(self).balanced(final(self)),
            r is Ok ==> final(self).cursor == old(self).cursor + 1,
            !old(self).cur_tok().spec_same_kind(*expected) ==> (r matches Err(e) && e is Unclosed),
            final(self).frames == old(self).frames,
            final(self).chunks == old(self).chunks,
            final(self).globals == old(self).globals,
            final(self).funcs == old(self).funcs,
            final(self).types == old(self).types,
            old(self).cur_tok().spec_same_kind(*expected) ==> (r is Ok <==> old(self).advances()),
    {
        if self.check(expected) {
            proof { old(self).lemma_not_last(); }
            self.advance()
        } else {
            let msg = self.expected_found(expected.describe());
            Err(CompileError::Unclosed {
                open: (open_span, "opened here".to_owned()),
                close: (self.current_span(), msg),
            })
        }
    }
}

/// Changing only the chunks of functions still being compiled, and no
/// frame's chunk, keeps every finished chunk ending with `RETURN`.
/// `name` is a local of a function enclosing the function of frame `depth`
/// (the outermost frame encloses none).
pub(crate) open spec fn upvalue_reachable(frames: Seq<CompilerFrame>, depth: int, name: u32) -> bool
    decreases depth,
{
    if depth < 1 {
        false
    } else {
        spec_resolve_local(frames[depth - 1].locals.locals(), name) is Some || upvalue_reachable(frames, depth - 1, name)
    }
}

/// The upvalue that the function of frame `depth` gets for `name`: the
/// enclosing function's register when `name` is one of its locals, else the
/// upvalue that the enclosing function gets for it in turn.
pub(crate) open spec fn new_upvalue(frames: Seq<CompilerFrame>, depth: int, name: u32) -> UpvalueDescriptor {
    match spec_resolve_local(frames[depth - 1].locals.locals(), name) {
        Some(reg) => UpvalueDescriptor { name, is_local: true, index: reg },
        None => UpvalueDescriptor { name, is_local: false, index: (frames[depth - 1].upvalues@.len() % 256) as u8 },
    }
}

/// The code that stores function `id` in global `slot` through register `t`:
/// `LOADFUN t id; SETGLB slot t`.
pub(crate) open spec fn global_fn_store_code(t: u8, id: usize, slot: u16) -> Seq<u8> {
    seq![
        spec_op_byte(OpCode::LOADFUN),
        t,
        spec_lo((id % 0x10000) as u16),
        spec_hi((id % 0x10000) as u16),
        spec_op_byte(OpCode::SETGLB),
        spec_lo(slot),
        spec_hi(slot),
        t,
    ]
}

/// Freeing temporaries leaves a free register free.
pub(crate) proof fn lemma_frees_keep_free(a: Compiler, b: Compiler, dst: u8, ops: Seq<u8>, n: int)
    requires
        Compiler::frees_other_temps(a.regs(), b.regs(), dst, ops, n),
        a.has_free_temp(),
    ensures
        b.has_free_temp(),
{
    let i = choose|i: int| a.regs().held_pt <= i < a.regs().state.len() && #[trigger] a.regs().state[i] == RegState::Free;
    assert(b.regs().state[i] == RegState::Free);
}

proof fn lemma_closed_return(a: Compiler, b: Compiler)
    requires
        a.closed_return(),
        b.chunks@.len() == a.chunks@.len(),
        b.frames@.len() == a.frames@.len(),
        forall|f: int| 0 <= f < a.frames@.len() ==> (#[trigger] b.frames@[f]).chunk_idx == a.frames@[f].chunk_idx,
        forall|c: int| 0 <= c < a.chunks@.len() && !a.is_open(c) ==> (#[trigger] b.chunks@[c]).code@ == a.chunks@[c].code@,
    ensures
        b.closed_return(),
{
    assert forall|c: int| 0 <= c < b.chunks@.len() && !b.is_open(c) implies ends_with_return((#[trigger] b.chunks@[c]).code@) by {
        if a.is_open(c) {
            let f = choose|f: int| 0 <= f < a.frames@.len() && #[trigger] a.frames@[f].chunk_idx == c;
            assert(b.frames@[f].chunk_idx == c);
        }
        assert(b.chunks@[c].code@ == a.chunks@[c].code@);
        assert(ends_with_return(a.chunks@[c].code@));
    }
}

/// The chunk of the current function is open.
proof fn lemma_cur_open(a: Compiler)
    requires
        a.frames@.len() >= 1,
    ensures
        a.is_open(a.frames@.last().chunk_idx as int),
{
    assert(a.frames@[a.frames@.len() - 1].chunk_idx == a.frames@.last().chunk_idx);
}

/// The 16-bit encoding of the jump offset `target - ip`.
pub(crate) fn offset_bits(target: usize, ip: usize) -> (res: u16)
    ensures
        res == spec_i16_bits(target - ip),
{
    if target >= ip {
        ((target - ip) % 0x10000) as u16
    } else {
        let m = (ip - target) % 0x10000;
        let bits = ((0x10000 - m) % 0x10000) as u16;
        assert(bits == spec_i16_bits(target - ip)) by {
            assert((target - ip) % 0x10000 == (0x10000 - m) % 0x10000) by (nonlinear_arith)
                requires
                    target < ip,
                    m == (ip - target) % 0x10000,
            ;
        }
        bits
    }
}

// ── Frames, code and registers ──

impl Compiler {
    /// The chunk the current function's code goes to.
    pub(crate) fn cur_chunk_idx(&self) -> (ci: usize)
        requires
            self.wf(),
        ensures
            ci == self.frames@.last().chunk_idx,
            ci < self.chunks@.len(),
    {
        self.frames[self.frames.len() - 1].chunk_idx
    }

    /// The offset where the next instruction of the current function goes.
    pub(crate) fn code_end(&self) -> (res: usize)
        requires
            self.wf(),
        ensures
            res == self.code().len(),
    {
        self.chunks[self.cur_chunk_idx()].end()
    }

    /// Appends a byte to the current function's code.
    pub(crate) fn emit(&mut self, b: u8)
        requires
            old(self).wf(),
        ensures
            final(self).wf(),
            old(self).evolves(final(self)),
            old(self).balanced(final(self)),
            final(self).globals == old(self).globals,
            final(self).cur_chunk().constants == old(self).cur_chunk().constants,
            final(self).cursor == old(self).cursor,
            final(self).frames == old(self).frames,
            final(self).chunks@.len() == old(self).chunks@.len(),
            final(self).code() == old(self).code().push(b),
            final(self).funcs == old(self).funcs,
    {
        let ci = self.cur_chunk_idx();
        self.chunks[ci].emit(b);
        proof { lemma_cur_open(*old(self)); lemma_closed_return(*old(self), *self); }
    }

    /// Appends an opcode to the current function's code.
    pub(crate) fn emit_op(&mut self, op: OpCode)
        requires
            old(self).wf(),
        ensures
            final(self).wf(),
            old(self).evolves(final(self)),
            old(self).balanced(final(self)),
            final(self).globals == old(self).globals,
            final(self).cur_chunk().constants == old(self).cur_chunk().constants,
            final(self).cursor == old(self).cursor,
            final(self).frames == old(self).frames,
            final(self).chunks@.len() == old(self).chunks@.len(),
            final(self).code() == old(self).code().push(spec_op_byte(op)),
            final(self).funcs == old(self).funcs,
    {
        let ci = self.cur_chunk_idx();
        self.chunks[ci].emit_opcode(op);
        proof { lemma_cur_open(*old(self)); lemma_closed_return(*old(self), *self); }
    }

    /// Appends a 16-bit operand, low byte first.
    pub(crate) fn emit_wide(&mut self, v: u16)
        requires
            old(self).wf(),
        ensures
            final(self).wf(),
            old(self).evolves(final(self)),
            old(self).balanced(final(self)),
            final(self).globals == old(self).globals,
            final(self).cur_chunk().constants == old(self).cur_chunk().constants,
            final(self).cursor == old(self).cursor,
            final(self).frames == old(self).frames,
            final(self).chunks@.len() == old(self).chunks@.len(),
            final(self).code() == old(self).code().push(spec_lo(v)).push(spec_hi(v)),
            final(self).funcs == old(self).funcs,
    {
        let ci = self.cur_chunk_idx();
        self.chunks[ci].emit_wide(v);
        proof { lemma_cur_open(*old(self)); lemma_closed_return(*old(self), *self); }
    }

    /// Records that the code from here on comes from the current token.
    pub(crate) fn record_locus(&mut self)
        requires
            old(self).wf(),
        ensures
            final(self).wf(),
            old(self).evolves(final(self)),
            old(self).balanced(final(self)),
            final(self).cursor == old(self).cursor,
            final(self).frames == old(self).frames,
            final(self).code() == old(self).code(),
            final(self).cur_chunk().locus@ == old(self).cur_chunk().locus@.push(
                (old(self).code().len() as usize, old(self).toks@[old(self).cursor as int].1),
            ),
            final(self).cur_chunk().constants == old(self).cur_chunk().constants,
            final(self).funcs == old(self).funcs,
            final(self).types == old(self).types,
            final(self).globals == old(self).globals,
    {
        let span = self.current_span();
        let ci = self.cur_chunk_idx();
        self.chunks[ci].record_locus(span);
        proof { lemma_cur_open(*old(self)); lemma_closed_return(*old(self), *self); }
    }

    /// Adds a constant to the current function's chunk.
    pub(crate) fn add_constant(&mut self, value: crate::value::Value) -> (k: u16)
        requires
            old(self).wf(),
        ensures
            final(self).wf(),
            old(self).evolves(final(self)),
            old(self).balanced(final(self)),
            final(self).globals == old(self).globals,
            final(self).cursor == old(self).cursor,
            final(self).frames == old(self).frames,
            final(self).code() == old(self).code(),
            match crate::constant::spec_find(old(self).cur_chunk().constants@, value@) {
                Some(i) => final(self).cur_chunk().constants@ == old(self).cur_chunk().constants@ && k == i % 0x10000,
                None => final(self).cur_chunk().constants@ == old(self).cur_chunk().constants@.push(value@) && k
                    == old(self).cur_chunk().constants@.len() % 0x10000,
            },
            final(self).funcs == old(self).funcs,
    {
        let ci = self.cur_chunk_idx();
        let k = self.chunks[ci].add_constant(value);
        proof { lemma_cur_open(*old(self)); lemma_closed_return(*old(self), *self); }
        k
    }

    /// A register overflow error at the current token.
    fn overflow(&self) -> (e: CompileError)
        requires
            self.toks_wf(),
        ensures
            e is RegisterOverflow,
            e == CompileError::RegisterOverflow((self.toks@[self.cursor as int].1, e->RegisterOverflow_0.1)),
            e->RegisterOverflow_0.1@ == "register overflown here"@,
    {
        CompileError::RegisterOverflow((self.current_span(), "register overflown here".to_owned()))
    }

    /// A register for an intermediate result.
    pub(crate) fn alloc_temp(&mut self) -> (r: Result<u8, CompileError>)
        requires
            old(self).wf(),
        ensures
            final(self).wf(),
            old(self).evolves(final(self)),
            old(self).balanced(final(self)),
            final(self).globals == old(self).globals,
            final(self).chunks == old(self).chunks,
            final(self).globals == old(self).globals,
            final(self).frames@.last().chunk_idx == old(self).frames@.last().chunk_idx,
            final(self).frames@.last().upvalues == old(self).frames@.last().upvalues,
            final(self).locals() == old(self).locals(),
            final(self).cursor == old(self).cursor,
            final(self).code() == old(self).code(),
            r matches Err(e) ==> e is RegisterOverflow,
            old(self).has_free_temp() ==> r is Ok,
            Compiler::allocs_temp(*old(self), *final(self), r),
            final(self).frames@.drop_last() == old(self).frames@.drop_last(),
            final(self).funcs == old(self).funcs,
    {
        let n = self.frames.len();
        let r = self.frames[n - 1].regs.alloc_temp();
        proof { lemma_cur_open(*old(self)); lemma_closed_return(*old(self), *self); }
        match r {
            Ok(reg) => Ok(reg),
            Err(_) => Err(self.overflow()),
        }
    }

    /// A register for a new local.
    pub(crate) fn alloc_held(&mut self) -> (r: Result<u8, CompileError>)
        requires
            old(self).wf(),
        ensures
            final(self).wf(),
            old(self).evolves(final(self)),
            old(self).balanced(final(self)),
            final(self).chunks == old(self).chunks,
            final(self).globals == old(self).globals,
            final(self).frames@.last().chunk_idx == old(self).frames@.last().chunk_idx,
            final(self).frames@.last().upvalues == old(self).frames@.last().upvalues,
            final(self).locals() == old(self).locals(),
            final(self).cursor == old(self).cursor,
            final(self).code() == old(self).code(),
            r matches Err(e) ==> e is RegisterOverflow,
            old(self).regs().held_pt >= old(self).regs().state.len() ==> r is Err && final(self).regs()
                == old(self).regs(),
            old(self).regs().held_pt < old(self).regs().state.len() ==> {
                &&& r == Ok::<u8, CompileError>(old(self).regs().held_pt as u8)
                &&& final(self).regs().state == old(self).regs().state.update(old(self).regs().held_pt as int, RegState::Held)
                &&& final(self).regs().held_pt == old(self).regs().held_pt + 1
            },
    {
        let n = self.frames.len();
        let r = self.frames[n - 1].regs.alloc_held();
        proof { lemma_cur_open(*old(self)); lemma_closed_return(*old(self), *self); }
        match r {
            Ok(reg) => Ok(reg),
            Err(_) => Err(self.overflow()),
        }
    }

    /// Frees a temporary register (a no-op on others).
    pub(crate) fn free_temp(&mut self, reg: u8)
        requires
            old(self).wf(),
        ensures
            final(self).wf(),
            old(self).evolves(final(self)),
            old(self).balanced(final(self)),
            final(self).globals == old(self).globals,
            final(self).chunks == old(self).chunks,
            final(self).globals == old(self).globals,
            final(self).frames@.last().chunk_idx == old(self).frames@.last().chunk_idx,
            final(self).frames@.last().upvalues == old(self).frames@.last().upvalues,
            final(self).locals() == old(self).locals(),
            final(self).cursor == old(self).cursor,
            final(self).code() == old(self).code(),
            final(self).regs().state == if (reg as int) < old(self).regs().state.len() && old(self).regs().state[reg as int]
                == RegState::Temp {
                old(self).regs().state.update(reg as int, RegState::Free)
            } else {
                old(self).regs().state
            },
            final(self).regs().held_pt == old(self).regs().held_pt,
            final(self).regs().temp_pt == old(self).regs().temp_pt,
            final(self).regs().temp_first_run == old(self).regs().temp_first_run,
            final(self).funcs == old(self).funcs,
    {
        let n = self.frames.len();
        self.frames[n - 1].regs.free_temp(reg);
        proof { lemma_cur_open(*old(self)); lemma_closed_return(*old(self), *self); }
    }

    /// Forgets every temporary of the current frame.
    pub(crate) fn clear_temp(&mut self)
        requires
            old(self).wf(),
        ensures
            final(self).wf(),
            old(self).evolves(final(self)),
            old(self).balanced(final(self)),
            final(self).cursor == old(self).cursor,
            final(self).code() == old(self).code(),
            final(self).regs().state == old(self).regs().state,
            final(self).regs().held_pt == old(self).regs().held_pt,
            final(self).regs().temp_pt == old(self).regs().held_pt,
            final(self).regs().temp_first_run,
            final(self).chunks == old(self).chunks,
            final(self).funcs == old(self).funcs,
            final(self).frames@.last().chunk_idx == old(self).frames@.last().chunk_idx,
    {
        let n = self.frames.len();
        self.frames[n - 1].regs.clear_temp();
        proof { lemma_cur_open(*old(self)); lemma_closed_return(*old(self), *self); }
    }

    /// The first of `ops` that may receive a result, or else a new temporary.
    pub(crate) fn reuse_or_alloc(&mut self, ops: &[u8]) -> (r: Result<u8, CompileError>)
        requires
            old(self).wf(),
        ensures
            final(self).wf(),
            old(self).evolves(final(self)),
            old(self).balanced(final(self)),
            final(self).cursor == old(self).cursor,
            final(self).code() == old(self).code(),
            final(self).chunks == old(self).chunks,
            final(self).frames@.last().chunk_idx == old(self).frames@.last().chunk_idx,
            r matches Err(e) ==> e is RegisterOverflow,
            (exists|i: int| 0 <= i < ops@.len() && Compiler::reusable(old(self).regs(), #[trigger] ops@[i])) ==> {
                &&& *final(self) == *old(self)
                &&& exists|i: int|
                    0 <= i < ops@.len() && Compiler::reusable(old(self).regs(), #[trigger] ops@[i]) && r == Ok::<
                        u8,
                        CompileError,
                    >(ops@[i]) && forall|j: int| 0 <= j < i ==> !Compiler::reusable(old(self).regs(), #[trigger] ops@[j])
            },
            (forall|i: int| 0 <= i < ops@.len() ==> !Compiler::reusable(old(self).regs(), #[trigger] ops@[i]))
                ==> Compiler::allocs_temp(*old(self), *final(self), r),
    {
        let n = self.frames.len();
        let mut i: usize = 0;
        while i < ops.len()
            invariant
                0 <= i <= ops.len(),
                self.wf(),
                *self == *old(self),
                n == self.frames@.len(),
                forall|j: int| 0 <= j < i ==> !Compiler::reusable(old(self).regs(), #[trigger] ops@[j]),
            decreases ops.len() - i,
        {
            if self.frames[n - 1].regs.is_reusable(ops[i]) {
                return Ok(ops[i]);
            }
            i = i + 1;
        }
        self.alloc_temp()
    }

    /// `target` when given, else a register reused from `sources` or a new one.
    pub(crate) fn target_or_reuse(&mut self, target: Option<u8>, sources: &[u8]) -> (r: Result<u8, CompileError>)
        requires
            old(self).wf(),
        ensures
            final(self).wf(),
            old(self).evolves(final(self)),
            old(self).balanced(final(self)),
            final(self).cursor == old(self).cursor,
            final(self).code() == old(self).code(),
            final(self).chunks == old(self).chunks,
            final(self).frames@.last().chunk_idx == old(self).frames@.last().chunk_idx,
            target matches Some(t) ==> r == Ok::<u8, CompileError>(t) && *final(self) == *old(self),
            r matches Err(e) ==> e is RegisterOverflow,
            (exists|i: int| 0 <= i < sources@.len() && Compiler::reusable(old(self).regs(), #[trigger] sources@[i]))
                || old(self).has_free_temp() ==> r is Ok,
            target is None && sources@.len() > 0 && Compiler::reusable(old(self).regs(), sources@[0]) ==> r == Ok::<
                u8,
                CompileError,
            >(sources@[0]) && *final(self) == *old(self),
    {
        match target {
            Some(t) => Ok(t),
            None => self.reuse_or_alloc(sources),
        }
    }

    /// Frees each of `ops` other than `dst` that is a temporary.
    pub(crate) fn free_other_temps(&mut self, dst: u8, ops: &[u8])
        requires
            old(self).wf(),
        ensures
            final(self).wf(),
            old(self).evolves(final(self)),
            old(self).balanced(final(self)),
            final(self).cursor == old(self).cursor,
            final(self).code() == old(self).code(),
            Compiler::frees_other_temps(old(self).regs(), final(self).regs(), dst, ops@, ops@.len() as int),
            final(self).regs().temp_first_run == old(self).regs().temp_first_run,
            final(self).frames@.last().chunk_idx == old(self).frames@.last().chunk_idx,
            final(self).chunks == old(self).chunks,
            final(self).funcs == old(self).funcs,
    {
        let mut i: usize = 0;
        while i < ops.len()
            invariant
                0 <= i <= ops.len(),
                self.wf(),
                old(self).evolves(self),
                old(self).balanced(self),
                self.cursor == old(self).cursor,
                self.code() == old(self).code(),
                Compiler::frees_other_temps(old(self).regs(), self.regs(), dst, ops@, i as int),
                self.regs().temp_first_run == old(self).regs().temp_first_run,
                self.frames@.last().chunk_idx == old(self).frames@.last().chunk_idx,
                self.chunks == old(self).chunks,
                self.funcs == old(self).funcs,
            decreases ops.len() - i,
        {
            if dst != ops[i] {
                self.free_temp(ops[i]);
            }
            i = i + 1;
        }
    }

    /// The highest register in use in the current frame: a callee's frame
    /// starts above it.
    pub(crate) fn reg_watermark(&self) -> (res: u8)
        requires
            self.wf(),
        ensures
            forall|i: int| res < i < self.regs().state.len() ==> self.regs().state[i] == RegState::Free,
            res > 0 ==> self.regs().state[res as int] != RegState::Free,
    {
        self.frames[self.frames.len() - 1].regs.watermark()
    }
}

// ── Instructions, labels and frames ──

impl Compiler {
    /// `MOVE dst src`, unless the two are the same register.
    pub(crate) fn emit_move(&mut self, dst: u8, src: u8)
        requires
            old(self).wf(),
        ensures
            final(self).wf(),
            old(self).evolves(final(self)),
            old(self).balanced(final(self)),
            final(self).cursor == old(self).cursor,
            final(self).frames == old(self).frames,
            dst == src ==> final(self).code() == old(self).code(),
            dst != src ==> final(self).code() == old(self).code() + seq![spec_op_byte(OpCode::MOVE), dst, src],
    {
        if dst != src {
            self.emit_op(OpCode::MOVE);
            self.emit(dst);
            self.emit(src);
            assert(self.code() =~= old(self).code() + seq![spec_op_byte(OpCode::MOVE), dst, src]);
        }
    }

    /// `RETURN reg`.
    pub(crate) fn emit_return(&mut self, reg: u8)
        requires
            old(self).wf(),
        ensures
            final(self).wf(),
            old(self).evolves(final(self)),
            old(self).balanced(final(self)),
            final(self).cursor == old(self).cursor,
            final(self).frames == old(self).frames,
            final(self).code() == old(self).code() + seq![spec_op_byte(OpCode::RETURN), reg],
            final(self).cur_chunk().constants == old(self).cur_chunk().constants,
            final(self).funcs == old(self).funcs,
            final(self).globals == old(self).globals,
            final(self).chunks@.len() == old(self).chunks@.len(),
    {
        self.emit_op(OpCode::RETURN);
        self.emit(reg);
        assert(self.code() =~= old(self).code() + seq![spec_op_byte(OpCode::RETURN), reg]);
    }

    /// `LOADNIL r; RETURN r` in a new temporary `r`: the end of every function body.
    pub(crate) fn emit_safety_net(&mut self) -> (res: Result<(), CompileError>)
        requires
            old(self).wf(),
        ensures
            final(self).wf(),
            old(self).evolves(final(self)),
            old(self).balanced(final(self)),
            final(self).cursor == old(self).cursor,
            res is Ok ==> exists|r: u8| final(self).code() == old(self).code() + seq![
                spec_op_byte(OpCode::LOADNIL),
                r,
                spec_op_byte(OpCode::RETURN),
                r,
            ],
            res matches Err(e) ==> e is RegisterOverflow,
            old(self).has_free_temp() ==> res is Ok,
            final(self).funcs == old(self).funcs,
            final(self).globals == old(self).globals,
            final(self).chunks@.len() == old(self).chunks@.len(),
            final(self).frames@.last().chunk_idx == old(self).frames@.last().chunk_idx,
            final(self).cur_chunk().constants == old(self).cur_chunk().constants,
    {
        let nil_reg = self.alloc_temp()?;
        self.emit_op(OpCode::LOADNIL);
        self.emit(nil_reg);
        self.emit_return(nil_reg);
        assert(self.code() =~= old(self).code() + seq![
            spec_op_byte(OpCode::LOADNIL),
            nil_reg,
            spec_op_byte(OpCode::RETURN),
            nil_reg,
        ]);
        Ok(())
    }

    /// Appends the argument registers of a call.
    fn emit_args(&mut self, args: &[u8])
        requires
            old(self).wf(),
        ensures
            final(self).wf(),
            old(self).evolves(final(self)),
            old(self).balanced(final(self)),
            final(self).cursor == old(self).cursor,
            final(self).frames == old(self).frames,
            final(self).code() == old(self).code() + args@,
            final(self).cur_chunk().constants == old(self).cur_chunk().constants,
            final(self).funcs == old(self).funcs,
    {
        let ci = self.cur_chunk_idx();
        self.chunks[ci].append(args);
        proof { lemma_cur_open(*old(self)); lemma_closed_return(*old(self), *self); }
    }

    /// `CALLK dst fn offset argc args…`: a call of a function known by id.
    pub(crate) fn emit_callk(&mut self, dst: u8, fn_slot: usize, frame_offset: u8, args: &[u8])
        requires
            old(self).wf(),
        ensures
            final(self).wf(),
            old(self).evolves(final(self)),
            old(self).balanced(final(self)),
            final(self).cursor == old(self).cursor,
            final(self).frames == old(self).frames,
            final(self).cur_chunk().constants == old(self).cur_chunk().constants,
            final(self).funcs == old(self).funcs,
            final(self).code() == old(self).code() + seq![
                spec_op_byte(OpCode::CALLK),
                dst,
                spec_lo((fn_slot % 0x10000) as u16),
                spec_hi((fn_slot % 0x10000) as u16),
                frame_offset,
                (args@.len() % 256) as u8,
            ] + args@,
    {
        self.emit_op(OpCode::CALLK);
        self.emit(dst);
        self.emit_wide((fn_slot % 0x10000) as u16);
        self.emit(frame_offset);
        self.emit((args.len() % 256) as u8);
        self.emit_args(args);
        assert(self.code() =~= old(self).code() + seq![
            spec_op_byte(OpCode::CALLK),
            dst,
            spec_lo((fn_slot % 0x10000) as u16),
            spec_hi((fn_slot % 0x10000) as u16),
            frame_offset,
            (args@.len() % 256) as u8,
        ] + args@);
    }

    /// `CALL dst reg offset argc args…`: a call of the function value in `reg`.
    pub(crate) fn emit_call(&mut self, dst: u8, reg: u8, frame_offset: u8, args: &[u8])
        requires
            old(self).wf(),
        ensures
            final(self).wf(),
            old(self).evolves(final(self)),
            old(self).balanced(final(self)),
            final(self).cursor == old(self).cursor,
            final(self).frames == old(self).frames,
            final(self).cur_chunk().constants == old(self).cur_chunk().constants,
            final(self).code() == old(self).code() + seq![
                spec_op_byte(OpCode::CALL),
                dst,
                reg,
                frame_offset,
                (args@.len() % 256) as u8,
            ] + args@,
    {
        self.emit_op(OpCode::CALL);
        self.emit(dst);
        self.emit(reg);
        self.emit(frame_offset);
        self.emit((args.len() % 256) as u8);
        self.emit_args(args);
        assert(self.code() =~= old(self).code() + seq![
            spec_op_byte(OpCode::CALL),
            dst,
            reg,
            frame_offset,
            (args@.len() % 256) as u8,
        ] + args@);
    }

    /// A new label of the current function, not placed yet.
    pub(crate) fn new_label(&mut self) -> (label: Label)
        requires
            old(self).wf(),
        ensures
            label.0 == old(self).frames@.last().labels@.len(),
            final(self).frames@.last().labels@ == old(self).frames@.last().labels@.push(LabelModel::Pending(Seq::empty())),
            final(self).chunks == old(self).chunks,
            final(self).frames@.len() == old(self).frames@.len(),
            final(self).frames@.last().chunk_idx == old(self).frames@.last().chunk_idx,
            final(self).wf(),
            old(self).evolves(final(self)),
            old(self).balanced(final(self)),
            final(self).cursor == old(self).cursor,
            final(self).code() == old(self).code(),
            final(self).frames@.last().regs == old(self).frames@.last().regs,
    {
        let n = self.frames.len();
        let label = self.frames[n - 1].labels.alloc_label();
        proof { lemma_cur_open(*old(self)); lemma_closed_return(*old(self), *self); }
        label
    }

    /// `TEST reg <label>`: jumps to a new label, placed later, when `reg` is falsy.
    pub(crate) fn emit_forward_test(&mut self, reg: u8) -> (label: Label)
        requires
            old(self).wf(),
        ensures
            label.0 == old(self).frames@.last().labels@.len(),
            final(self).wf(),
            old(self).evolves(final(self)),
            old(self).balanced(final(self)),
            final(self).cursor == old(self).cursor,
            final(self).code() == old(self).code() + seq![spec_op_byte(OpCode::TEST), reg, 0u8, 0u8],
            final(self).frames@.last().regs == old(self).frames@.last().regs,
    {
        let label = self.new_label();
        let ip = self.code_end();
        self.emit_op(OpCode::TEST);
        self.emit(reg);
        self.emit(0);
        self.emit(0);
        let ghost pre = *self;
        let n = self.frames.len();
        self.frames[n - 1].labels.add_ref(label, ip, RefKind::Test);
        proof { lemma_cur_open(pre); lemma_closed_return(pre, *self); }
        assert(self.code() =~= old(self).code() + seq![spec_op_byte(OpCode::TEST), reg, 0u8, 0u8]);
        label
    }

    /// `JMP <label>` to `label`, placed later.
    pub(crate) fn emit_forward_jmp_to(&mut self, label: Label)
        requires
            old(self).wf(),
            label.0 < old(self).frames@.last().labels@.len(),
            old(self).frames@.last().labels@[label.0 as int] is Pending,
        ensures
            final(self).wf(),
            old(self).evolves(final(self)),
            old(self).balanced(final(self)),
            final(self).cursor == old(self).cursor,
            final(self).code() == old(self).code() + seq![spec_op_byte(OpCode::JMP), 0u8, 0u8],
            final(self).frames@.last().regs == old(self).frames@.last().regs,
    {
        let ip = self.code_end();
        self.emit_op(OpCode::JMP);
        self.emit(0);
        self.emit(0);
        let ghost pre = *self;
        let n = self.frames.len();
        self.frames[n - 1].labels.add_ref(label, ip, RefKind::Jmp);
        proof { lemma_cur_open(pre); lemma_closed_return(pre, *self); }
        assert(self.code() =~= old(self).code() + seq![spec_op_byte(OpCode::JMP), 0u8, 0u8]);
    }

    /// `JMP <label>` to a new label, placed later.
    pub(crate) fn emit_forward_jmp(&mut self) -> (label: Label)
        requires
            old(self).wf(),
        ensures
            label.0 == old(self).frames@.last().labels@.len(),
            final(self).wf(),
            old(self).evolves(final(self)),
            old(self).balanced(final(self)),
            final(self).cursor == old(self).cursor,
            final(self).code() == old(self).code() + seq![spec_op_byte(OpCode::JMP), 0u8, 0u8],
            final(self).frames@.last().regs == old(self).frames@.last().regs,
    {
        let label = self.new_label();
        self.emit_forward_jmp_to(label);
        label
    }

    /// Places `label` at the end of the current code, patching the jumps to it.
    pub(crate) fn place_label(&mut self, label: Label)
        requires
            old(self).wf(),
            Compiler::after_loop_labels(*old(self), label),
        ensures
            final(self).wf(),
            old(self).evolves(final(self)),
            old(self).balanced(final(self)),
            final(self).cursor == old(self).cursor,
            final(self).code().len() == old(self).code().len(),
            final(self).code() == (if label.0 >= old(self).frames@.last().labels@.len() {
                old(self).code()
            } else {
                match old(self).frames@.last().labels@[label.0 as int] {
                    LabelModel::Pending(refs) => spec_patch_all(old(self).code(), refs, old(self).code().len() as int),
                    LabelModel::Placed(_) => old(self).code(),
                }
            }),
            label.0 < old(self).frames@.last().labels@.len() ==> final(self).frames@.last().labels@
                == old(self).frames@.last().labels@.update(label.0 as int, LabelModel::Placed(old(self).code().len() as usize)),
            final(self).frames@.last().regs == old(self).frames@.last().regs,
    {
        let ci = self.cur_chunk_idx();
        let target_ip = self.code_end();
        let n = self.frames.len();
        self.frames[n - 1].labels.resolve(label, target_ip, &mut self.chunks[ci]);
        proof { lemma_cur_open(*old(self)); lemma_closed_return(*old(self), *self); }
        proof {
            let ls = old(self).frames@.last().labels@;
            if label.0 < ls.len() {
                if let LabelModel::Pending(refs) = ls[label.0 as int] {
                    lemma_patch_all_len(old(self).code(), refs, target_ip as int);
                }
            }
        }
    }

    /// A new label placed at the end of the current code.
    pub(crate) fn emit_here_label(&mut self) -> (label: Label)
        requires
            old(self).wf(),
        ensures
            label.0 == old(self).frames@.last().labels@.len(),
            label.0 < final(self).frames@.last().labels@.len(),
            final(self).frames@.last().labels@[label.0 as int] is Placed,
            final(self).frames@.last().loops@ == old(self).frames@.last().loops@,
            final(self).wf(),
            old(self).evolves(final(self)),
            old(self).balanced(final(self)),
            final(self).cursor == old(self).cursor,
            final(self).code() == old(self).code(),
            final(self).frames@.last().regs == old(self).frames@.last().regs,
    {
        let label = self.new_label();
        let ci = self.cur_chunk_idx();
        let ip = self.code_end();
        let ghost pre = *self;
        let n = self.frames.len();
        self.frames[n - 1].labels.resolve(label, ip, &mut self.chunks[ci]);
        proof { lemma_cur_open(pre); lemma_closed_return(pre, *self); }
        label
    }

    /// `JMP` back to the placed `label`.
    pub(crate) fn emit_jmp_to(&mut self, label: Label)
        requires
            old(self).wf(),
            label.0 < old(self).frames@.last().labels@.len(),
            old(self).frames@.last().labels@[label.0 as int] is Placed,
        ensures
            final(self).wf(),
            old(self).evolves(final(self)),
            old(self).balanced(final(self)),
            final(self).cursor == old(self).cursor,
            final(self).code().len() == old(self).code().len() + 3,
    {
        let n = self.frames.len();
        let target = self.frames[n - 1].labels.ip_of(label);
        let ip = self.code_end();
        let bits = offset_bits(target, ip);
        self.emit_op(OpCode::JMP);
        self.emit_wide(bits);
    }

    /// Starts compiling a function whose parameters are `args`, in a new
    /// chunk; returns the chunk's index.
    pub(crate) fn new_frame(&mut self, args: &[u32]) -> (r: Result<usize, CompileError>)
        requires
            old(self).wf(),
        ensures
            final(self).wf(),
            old(self).evolves(final(self)),
            final(self).cursor == old(self).cursor,
            r matches Ok(ci) ==> {
                &&& final(self).frames@.len() == old(self).frames@.len() + 1
                &&& forall|f: int| 0 <= f < old(self).frames@.len() ==> final(self).frames@[f] == old(self).frames@[f]
                &&& final(self).frames@.last().loops@.len() == 0
                &&& ci == final(self).frames@.last().chunk_idx
            },
            r is Err ==> *final(self) == *old(self),
            r matches Err(e) ==> e is RegisterOverflow,
            r is Err <==> args@.len() > 256,
            r is Ok && args@.len() < 256 ==> final(self).has_free_temp(),
            final(self).funcs == old(self).funcs,
            final(self).globals == old(self).globals,
            r matches Ok(ci) ==> ci == old(self).chunks@.len() && final(self).chunks@.len() == ci + 1,
    {
        if args.len() > 256 {
            return Err(self.overflow());
        }
        self.chunks.push(Chunk::new());
        let chunk_idx = self.chunks.len() - 1;
        self.frames.push(CompilerFrame::new(chunk_idx, args));
        proof {
            if args@.len() < 256 {
                assert(self.regs().state[args@.len() as int] == RegState::Free);
            }
            let a = *old(self);
            assert forall|c: int| 0 <= c < self.chunks@.len() && !self.is_open(c) implies ends_with_return(
                (#[trigger] self.chunks@[c]).code@,
            ) by {
                lemma_cur_open(*self);
                if a.is_open(c) {
                    let f = choose|f: int| 0 <= f < a.frames@.len() && #[trigger] a.frames@[f].chunk_idx == c;
                    assert(self.frames@[f].chunk_idx == c);
                }
                assert(self.chunks@[c] == a.chunks@[c]);
            }
        }
        Ok(chunk_idx)
    }

    /// Finishes the current function and returns to the enclosing one.
    pub(crate) fn exit_frame(&mut self) -> (r: Result<(), CompileError>)
        requires
            old(self).wf(),
            ends_with_return(old(self).code()),
        ensures
            final(self).wf(),
            old(self).evolves(final(self)),
            final(self).cursor == old(self).cursor,
            old(self).frames@.len() == 1 <==> r is Err,
            r is Ok ==> final(self).frames@ == old(self).frames@.drop_last(),
            r matches Err(e) ==> e is ExitTopFrame,
            final(self).funcs == old(self).funcs,
            final(self).globals == old(self).globals,
            final(self).chunks@.len() == old(self).chunks@.len(),
    {
        if self.frames.len() == 1 {
            return Err(CompileError::ExitTopFrame((
                self.current_span(),
                "exiting from top-level call frame here".to_owned(),
            )));
        }
        self.frames.pop();
        proof {
            let a = *old(self);
            assert forall|c: int| 0 <= c < self.chunks@.len() && !self.is_open(c) implies ends_with_return(
                (#[trigger] self.chunks@[c]).code@,
            ) by {
                if a.is_open(c) {
                    let f = choose|f: int| 0 <= f < a.frames@.len() && #[trigger] a.frames@[f].chunk_idx == c;
                    if f < a.frames@.len() - 1 {
                        assert(self.frames@[f].chunk_idx == c);
                    }
                }
            }
        }
        Ok(())
    }

    /// Moves the upvalue list out of the current frame.
    pub(crate) fn take_upvalues(&mut self) -> (ups: Vec<UpvalueDescriptor>)
        requires
            old(self).wf(),
        ensures
            final(self).wf(),
            old(self).evolves(final(self)),
            old(self).balanced(final(self)),
            final(self).cursor == old(self).cursor,
            final(self).code() == old(self).code(),
            ups@ == old(self).frames@.last().upvalues@,
            final(self).frames@.drop_last() == old(self).frames@.drop_last(),
    {
        let n = self.frames.len();
        let mut ups: Vec<UpvalueDescriptor> = Vec::new();
        std::mem::swap(&mut ups, &mut self.frames[n - 1].upvalues);
        proof { lemma_cur_open(*old(self)); lemma_closed_return(*old(self), *self); }
        ups
    }
}

// ── Variables ──

impl Compiler {
    /// The global slot of `id`, declaring it when new.
    #[verifier::spinoff_prover]
    pub(crate) fn declare_global(&mut self, id: u32) -> (slot: u16)
        requires
            old(self).wf(),
        ensures
            final(self).wf(),
            old(self).evolves(final(self)),
            old(self).balanced(final(self)),
            final(self).cursor == old(self).cursor,
            final(self).frames == old(self).frames,
            final(self).chunks == old(self).chunks,
            old(self).globals.slots().contains_key(id) ==> slot == old(self).globals.slots()[id]
                && final(self).globals.slots() == old(self).globals.slots(),
            !old(self).globals.slots().contains_key(id) ==> {
                &&& slot == old(self).globals.next_slot()
                &&& final(self).globals.slots() == old(self).globals.slots().insert(id, slot)
            },
            final(self).funcs == old(self).funcs,
    {
        self.globals.declare(id)
    }

    /// The global slot of `id`, if it was declared.
    pub(crate) fn resolve_global(&self, id: u32) -> (res: Option<u16>)
        ensures
            res == (if self.globals.slots().contains_key(id) {
                Some(self.globals.slots()[id])
            } else {
                None
            }),
    {
        self.globals.resolve(id)
    }

    /// Stores function `id` in the global named `name`: `LOADFUN t id; SETGLB slot t`.
    pub(crate) fn store_global_fn(&mut self, name: u32, id: usize) -> (r: Result<(), CompileError>)
        requires
            old(self).wf(),
        ensures
            final(self).wf(),
            old(self).evolves(final(self)),
            old(self).balanced(final(self)),
            final(self).cursor == old(self).cursor,
            r matches Err(e) ==> e is RegisterOverflow,
            old(self).globals.slots().contains_key(name) ==> final(self).globals.slots() == old(self).globals.slots(),
            !old(self).globals.slots().contains_key(name) ==> final(self).globals.slots() == old(self).globals.slots().insert(
                name,
                old(self).globals.next_slot(),
            ),
            old(self).has_free_temp() ==> r is Ok,
            r is Err ==> !old(self).has_free_temp() && final(self).code() == old(self).code(),
            r is Ok ==> exists|t: u8|
                old(self).regs().held_pt <= t < old(self).regs().state.len() && final(self).code() == old(self).code() + #[trigger] global_fn_store_code(t, id, final(self).globals.slots()[name]),
            final(self).funcs == old(self).funcs,
            final(self).chunks@.len() == old(self).chunks@.len(),
            final(self).frames@.last().locals == old(self).frames@.last().locals,
    {
        let ghost c0 = self.code();
        let slot = self.declare_global(name);
        let temp = match self.alloc_temp() {
            Ok(t) => t,
            Err(e) => return Err(e),
        };
        self.emit_op(OpCode::LOADFUN);
        self.emit(temp);
        self.emit_wide((id % 0x10000) as u16);
        self.emit_op(OpCode::SETGLB);
        self.emit_wide(slot);
        self.emit(temp);
        self.free_temp(temp);
        assert(self.globals.slots()[name] == slot);
        assert(old(self).regs().held_pt <= temp < old(self).regs().state.len());
        assert(self.code() =~= c0 + global_fn_store_code(temp, id, slot));
        Ok(())
    }

    /// Declares local `id` in register `reg` of the current frame.
    pub(crate) fn add_local(&mut self, id: u32, reg: u8)
        requires
            old(self).wf(),
        ensures
            final(self).wf(),
            old(self).evolves(final(self)),
            old(self).balanced(final(self)),
            final(self).chunks == old(self).chunks,
            final(self).globals == old(self).globals,
            final(self).frames@.last().chunk_idx == old(self).frames@.last().chunk_idx,
            final(self).frames@.last().upvalues == old(self).frames@.last().upvalues,
            final(self).cursor == old(self).cursor,
            final(self).code() == old(self).code(),
            final(self).locals().depth() == old(self).locals().depth(),
            final(self).locals().locals() == old(self).locals().locals().push(
                crate::compiler::variables::Local { id, reg, depth: old(self).locals().depth() as usize, captured: false },
            ),
            final(self).regs() == old(self).regs(),
    {
        let n = self.frames.len();
        self.frames[n - 1].locals.add_local(id, reg);
        proof { lemma_cur_open(*old(self)); lemma_closed_return(*old(self), *self); }
    }

    /// The register of the innermost local `id` of the current frame.
    pub(crate) fn try_resolve_local(&self, id: u32) -> (res: Option<u8>)
        requires
            self.wf(),
        ensures
            res == spec_resolve_local(self.locals().locals(), id),
    {
        self.frames[self.frames.len() - 1].locals.resolve_local(id)
    }

    /// Whether the current code lies outside every block of the current frame.
    pub(crate) fn is_top_level(&self) -> (res: bool)
        requires
            self.wf(),
        ensures
            res == (self.locals().depth() == 0),
    {
        self.frames[self.frames.len() - 1].locals.is_top_level()
    }

    pub(crate) fn enter_scope(&mut self)
        requires
            old(self).wf(),
        ensures
            final(self).wf(),
            old(self).evolves(final(self)),
            old(self).balanced(final(self)),
            final(self).cursor == old(self).cursor,
            final(self).code() == old(self).code(),
            final(self).locals().locals() == old(self).locals().locals(),
            final(self).locals().depth() == if old(self).locals().depth() < usize::MAX {
                old(self).locals().depth() + 1
            } else {
                old(self).locals().depth()
            },
            final(self).regs() == old(self).regs(),
            final(self).funcs == old(self).funcs,
            final(self).globals == old(self).globals,
    {
        let n = self.frames.len();
        self.frames[n - 1].locals.enter_scope();
        proof { lemma_cur_open(*old(self)); lemma_closed_return(*old(self), *self); }
    }

    /// Leaves a block: its locals go out of scope and the registers of
    /// those not captured are freed.
    pub(crate) fn exit_scope(&mut self)
        requires
            old(self).wf(),
        ensures
            final(self).wf(),
            old(self).evolves(final(self)),
            old(self).balanced(final(self)),
            final(self).cursor == old(self).cursor,
            final(self).code() == old(self).code(),
            old(self).locals().depth() == 0 ==> final(self).locals().locals() == old(self).locals().locals()
                && final(self).locals().depth() == 0,
            old(self).locals().depth() > 0 ==> {
                &&& final(self).locals().depth() == old(self).locals().depth() - 1
                &&& final(self).locals().locals() == old(self).locals().locals().take(final(self).locals().locals().len() as int)
                &&& forall|i: int|
                    0 <= i < final(self).locals().locals().len() ==> (#[trigger] final(self).locals().locals()[i]).depth
                        <= final(self).locals().depth()
                &&& forall|i: int|
                    final(self).locals().locals().len() <= i < old(self).locals().locals().len() ==> (#[trigger] old(
                        self,
                    ).locals().locals()[i]).depth > final(self).locals().depth()
                &&& forall|i: int|
                    0 <= i < final(self).regs().state.len() ==> #[trigger] final(self).regs().state[i] == if spec_uncaptured_regs(
                        old(self).locals().locals().skip(final(self).locals().locals().len() as int),
                    ).contains(i as u8) {
                        RegState::Free
                    } else {
                        old(self).regs().state[i]
                    }
            },
            final(self).funcs == old(self).funcs,
            final(self).globals == old(self).globals,
            final(self).regs().held_pt <= old(self).regs().held_pt,
            final(self).regs().state.len() == old(self).regs().state.len(),
            forall|i: int| 0 <= i < final(self).regs().state.len() ==> #[trigger] final(self).regs().state[i] == RegState::Free
                || final(self).regs().state[i] == old(self).regs().state[i],
    {
        let n = self.frames.len();
        let freed = self.frames[n - 1].locals.exit_scope();
        self.frames[n - 1].regs.free_held(freed.as_slice());
        proof { lemma_cur_open(*old(self)); lemma_closed_return(*old(self), *self); }
    }

    /// `name` as an upvalue of the current function: the index of its
    /// upvalue, capturing it from the enclosing functions when needed.
    pub(crate) fn resolve_upvalue(&mut self, name: u32) -> (r: Option<u8>)
        requires
            old(self).wf(),
        ensures
            final(self).wf(),
            old(self).evolves(final(self)),
            old(self).balanced(final(self)),
            final(self).cursor == old(self).cursor,
            final(self).code() == old(self).code(),
            final(self).chunks == old(self).chunks,
            final(self).globals == old(self).globals,
            final(self).frames@.last().regs == old(self).frames@.last().regs,
            final(self).frames@.last().chunk_idx == old(self).frames@.last().chunk_idx,
            r is Some <==> old(self).frames@.len() > 1 && upvalue_reachable(
                old(self).frames@,
                old(self).frames@.len() - 1,
                name,
            ),
            r is None ==> *final(self) == *old(self),
            r matches Some(idx) ==> {
                &&& idx == old(self).frames@.last().upvalues@.len() % 256
                &&& final(self).frames@.last().upvalues@ == old(self).frames@.last().upvalues@.push(
                    new_upvalue(old(self).frames@, old(self).frames@.len() - 1, name),
                )
            },
    {
        let depth = self.frames.len() - 1;
        if depth == 0 {
            return None;
        }
        self.resolve_upvalue_at(depth, name)
    }

    /// `name` as an upvalue of the function of frame `depth`: a local of the
    /// enclosing frame is captured directly, otherwise the enclosing function
    /// captures it first.
    fn resolve_upvalue_at(&mut self, depth: usize, name: u32) -> (r: Option<u8>)
        requires
            old(self).wf(),
            1 <= depth < old(self).frames@.len(),
        ensures
            final(self).wf(),
            old(self).evolves(final(self)),
            old(self).balanced(final(self)),
            final(self).cursor == old(self).cursor,
            final(self).chunks == old(self).chunks,
            forall|f: int| 0 <= f < old(self).frames@.len() ==> (#[trigger] final(self).frames@[f]).chunk_idx == old(self).frames@[f].chunk_idx,
            final(self).globals == old(self).globals,
            final(self).frames@[depth as int].regs == old(self).frames@[depth as int].regs,
            r is Some <==> upvalue_reachable(old(self).frames@, depth as int, name),
            r is None ==> *final(self) == *old(self),
            r matches Some(idx) ==> {
                &&& idx == old(self).frames@[depth as int].upvalues@.len() % 256
                &&& final(self).frames@[depth as int].upvalues@ == old(self).frames@[depth as int].upvalues@.push(
                    new_upvalue(old(self).frames@, depth as int, name),
                )
            },
            forall|f: int| depth < f < old(self).frames@.len() ==> #[trigger] final(self).frames@[f] == old(self).frames@[f],
        decreases depth,
    {
        let local_reg = self.frames[depth - 1].locals.resolve_local(name);
        match local_reg {
            Some(reg) => {
                self.frames[depth - 1].locals.capture(reg);
                let idx = (self.frames[depth].upvalues.len() % 256) as u8;
                self.frames[depth].upvalues.push(UpvalueDescriptor { name, is_local: true, index: reg });
                proof { lemma_closed_return(*old(self), *self); }
                return Some(idx);
            },
            None => {},
        }
        if depth >= 2 {
            match self.resolve_upvalue_at(depth - 1, name) {
                Some(parent_up) => {
                    let ghost pre = *self;
                    let idx = (self.frames[depth].upvalues.len() % 256) as u8;
                    self.frames[depth].upvalues.push(UpvalueDescriptor { name, is_local: false, index: parent_up });
                    proof { lemma_closed_return(pre, *self); }
                    return Some(idx);
                },
                None => {},
            }
        }
        proof { reveal_with_fuel(upvalue_reachable, 2); }
        None
    }
}

// ── Loops ──

impl Compiler {
    /// Whether a loop encloses the current code of the current function.
    pub(crate) fn in_loop(&self) -> (res: bool)
        requires
            self.wf(),
        ensures
            res == (self.frames@.last().loops@.len() > 0),
    {
        self.frames[self.frames.len() - 1].loops.in_loop()
    }

    /// Where `break` goes in the innermost loop.
    pub(crate) fn break_label(&self) -> (res: Label)
        requires
            self.wf(),
            self.frames@.last().loops@.len() > 0,
        ensures
            res == self.frames@.last().loops@.last().break_label,
    {
        self.frames[self.frames.len() - 1].loops.break_label()
    }

    /// Where `continue` goes in the innermost loop.
    pub(crate) fn continue_label(&self) -> (res: Label)
        requires
            self.wf(),
            self.frames@.last().loops@.len() > 0,
        ensures
            res == self.frames@.last().loops@.last().continue_label,
    {
        self.frames[self.frames.len() - 1].loops.continue_label()
    }

    /// Enters a loop of the current function.
    pub(crate) fn push_loop(&mut self, break_label: Label, continue_label: Label)
        requires
            old(self).wf(),
            break_label.0 < old(self).frames@.last().labels@.len(),
            old(self).frames@.last().labels@[break_label.0 as int] is Pending,
            continue_label.0 < old(self).frames@.last().labels@.len(),
            old(self).frames@.last().labels@[continue_label.0 as int] is Placed,
        ensures
            final(self).wf(),
            old(self).evolves(final(self)),
            final(self).cursor == old(self).cursor,
            final(self).frames@.len() == old(self).frames@.len(),
            final(self).frames@.last().loops@ == old(self).frames@.last().loops@.push(
                LoopLabels { break_label, continue_label },
            ),
            forall|f: int|
                0 <= f < old(self).frames@.len() - 1 ==> (#[trigger] final(self).frames@[f]).loops@
                    == old(self).frames@[f].loops@,
            final(self).frames@.last().regs == old(self).frames@.last().regs,
            final(self).frames@.last().labels@ == old(self).frames@.last().labels@,
            final(self).code() == old(self).code(),
    {
        let n = self.frames.len();
        self.frames[n - 1].loops.push_loop(break_label, continue_label);
        proof { lemma_cur_open(*old(self)); lemma_closed_return(*old(self), *self); }
    }

    /// Leaves the innermost loop of the current function.
    pub(crate) fn pop_loop(&mut self)
        requires
            old(self).wf(),
            old(self).frames@.last().loops@.len() > 0,
        ensures
            final(self).wf(),
            old(self).evolves(final(self)),
            final(self).cursor == old(self).cursor,
            final(self).frames@.len() == old(self).frames@.len(),
            final(self).frames@.last().loops@ == old(self).frames@.last().loops@.drop_last(),
            forall|f: int|
                0 <= f < old(self).frames@.len() - 1 ==> (#[trigger] final(self).frames@[f]).loops@
                    == old(self).frames@[f].loops@,
            final(self).frames@.last().regs == old(self).frames@.last().regs,
            final(self).frames@.last().labels@ == old(self).frames@.last().labels@,
            final(self).code() == old(self).code(),
    {
        let n = self.frames.len();
        self.frames[n - 1].loops.pop_loop();
        proof { lemma_cur_open(*old(self)); lemma_closed_return(*old(self), *self); }
    }
}

/// Every chunk of a compilation result ends with a `RETURN` and keeps its
/// constants without repeats.
pub open spec fn spec_compiled_ok(chunks: Seq<Chunk>) -> bool {
    &&& chunks.len() >= 1
    &&& forall|c: int| 0 <= c < chunks.len() ==> (#[trigger] chunks[c]).wf() && ends_with_return(chunks[c].code@)
}

/// Compiles `source` with `funcs` as the known functions: as one expression
/// whose value chunk 0 returns (`is_expr`), or as a program, a sequence of
/// statements after which chunk 0 returns `nil`. Chunk 0 holds the top-level
/// code; each function gets a chunk of its own.
pub fn compile<H: Host>(source: &str, funcs: FunctionRegistry, is_expr: bool, host: &mut H) -> (r: Result<(Vec<Chunk>, FunctionRegistry), CompileError>)
    requires
        funcs.wf(),
    ensures
        r matches Ok((chunks, f)) ==> spec_compiled_ok(chunks@) && f.wf() && keeps_functions(funcs, f),
        r matches Ok((chunks, f)) ==> fns_have_chunks(f, funcs.entries().len() as int, chunks@.len() as int),
        !is_expr && r is Ok ==> spec_lexes(source.spec_bytes(), 0),
        !is_expr && spec_skip(source.spec_bytes(), 0) >= source.spec_bytes().len() ==> r is Ok,
        // text that starts with no token is refused
        spec_skip(source.spec_bytes(), 0) < source.spec_bytes().len() && spec_token_end(
            source.spec_bytes(),
            spec_skip(source.spec_bytes(), 0),
        ) is None ==> (r matches Err(e) && e is Unrecognized),
        // an expression of nothing but whitespace and comments is refused
        is_expr ==> (spec_skip(source.spec_bytes(), 0) >= source.spec_bytes().len() ==> (r matches Err(e)
            && e is Unexpected)),
        // text that starts with punctuation that starts nothing is refused
        spec_first_punct(source.spec_bytes()) matches Some(t) ==> (starts_nothing(t) ==> (r matches Err(e)
            && e is Unexpected)),
        // a name alone is bound to nothing
        is_expr ==> (spec_lone_ident(source.spec_bytes()) ==> (r matches Err(CompileError::UndefinedVariable { name, .. })
            && name@ == spec_first_ident(source.spec_bytes()))),
        // a program of nothing but whitespace and comments loads `nil` and returns it
        !is_expr ==> (spec_skip(source.spec_bytes(), 0) >= source.spec_bytes().len() ==> (r matches Ok((chunks, _))
            && loads_and_returns(chunks@[0], ValueModel::Nil))),
        is_expr && spec_lone_literal(source.spec_bytes()) ==> r is Ok,
        is_expr ==> (spec_lone_literal(source.spec_bytes()) ==> (r matches Ok((chunks, _)) && (exists|v: ValueModel|
            loads_and_returns(chunks@[0], v) && #[trigger] spec_literal_value(source.spec_bytes(), v)))),        // a program `return e;` compiles to code computing `e` and returning it
        !is_expr ==> (spec_lexes(source.spec_bytes(), 0) && source.spec_bytes().len() < 0x1000_0000 && ops_defined(funcs)
            && (forall|toks: Seq<(Token, Span)>, names: Seq<Seq<char>>|
            #[trigger] lexes_as(source.spec_bytes(), toks, names) ==> return_program(toks, names)) ==> (r matches Ok((chunks, f))
            && f == funcs && (exists|toks: Seq<(Token, Span)>, names: Seq<Seq<char>>|
            #[trigger] lexes_as(source.spec_bytes(), toks, names) && returns_first(
                chunks@[0],
                expr_term(operand_chain(toks, names, 2, 0)->Some_0.0, funcs),
            )))),
        // an expression of literals and binary operators at the start of the
        // text compiles to code computing its parse by binding power
        is_expr ==> (spec_lexes(source.spec_bytes(), 0) && source.spec_bytes().len() < 0x1000_0000 && ops_defined(funcs)
            && (forall|toks: Seq<(Token, Span)>, names: Seq<Seq<char>>|
            #[trigger] lexes_as(source.spec_bytes(), toks, names) ==> chain_program(toks, names)) ==> (r matches Ok((chunks, f))
            && f == funcs && (exists|toks: Seq<(Token, Span)>, names: Seq<Seq<char>>|
            #[trigger] lexes_as(source.spec_bytes(), toks, names) && returns_term(
                chunks@[0],
                expr_term(operand_chain(toks, names, 1, 0)->Some_0.0, funcs),
            )))),
        // a `(` at the start whose expression no `)` follows is reported unclosed
        is_expr ==> (spec_lexes(source.spec_bytes(), 0) && source.spec_bytes().len() < 0x1000_0000 && ops_defined(funcs)
            && (forall|toks: Seq<(Token, Span)>, names: Seq<Seq<char>>|
            #[trigger] lexes_as(source.spec_bytes(), toks, names) ==> unclosed_program(toks, names)) ==> (r matches Err(e)
            && e is Unclosed)),
{
    let ghost unclosed_prem = is_expr && spec_lexes(source.spec_bytes(), 0) && source.spec_bytes().len() < 0x1000_0000
        && ops_defined(funcs) && (forall|toks: Seq<(Token, Span)>, names: Seq<Seq<char>>|
        #[trigger] lexes_as(source.spec_bytes(), toks, names) ==> unclosed_program(toks, names));
    let ghost given = funcs;
    let ghost chain_prem = is_expr && spec_lexes(source.spec_bytes(), 0) && source.spec_bytes().len() < 0x1000_0000
        && ops_defined(funcs) && (forall|toks: Seq<(Token, Span)>, names: Seq<Seq<char>>|
        #[trigger] lexes_as(source.spec_bytes(), toks, names) ==> chain_program(toks, names));
    let mut interner = Interner::new();
    let (toks, failed) = tokenize(source, &mut interner, host);
    let ghost prog_prem = !is_expr && spec_lexes(source.spec_bytes(), 0) && source.spec_bytes().len() < 0x1000_0000
        && ops_defined(funcs) && (forall|toks: Seq<(Token, Span)>, names: Seq<Seq<char>>|
        #[trigger] lexes_as(source.spec_bytes(), toks, names) ==> return_program(toks, names));
    let ghost toks0 = toks@;
    let ghost names0 = interner@;
    let mut c = Compiler::new(toks, failed, interner, funcs);
    proof {
        if spec_first_punct(source.spec_bytes()) is Some {
            let t = spec_first_punct(source.spec_bytes())->Some_0;
            assert(!(t is Other));
            assert(!(c.lex_failed && c.cursor == c.toks@.len() - 2));
        }
    }
    c.advance()?;
    proof {
        if spec_first_punct(source.spec_bytes()) is Some {
            let t = spec_first_punct(source.spec_bytes())->Some_0;
            assert(!(t is Other) && !(t is Eof));
            assert(c.cur_tok() == t);
            if starts_nothing(t) {
                assert(c.starts_no_expr());
                assert(c.starts_no_statement());
            }
        }
    }
    let ghost mut chain_term = Term::Val(ValueModel::Nil);
    if is_expr {
        let ghost started = c;
        proof {
            if spec_lone_ident(source.spec_bytes()) {
                assert(spec_resolve_local(c.locals().locals(), c.cur_tok()->Identifier_0) is None);
                assert(started.at_undefined_name());
            }
            if chain_prem {
                reveal(Compiler::chain_ready);
                assert(lexes_as(source.spec_bytes(), toks0, names0));
                assert(chain_program(toks0, names0));
                lemma_free_from_all(c.regs().state, 0);
                assert(c.toks@ == toks0 && c.interner@ == names0 && c.cursor == 1 && !c.lex_failed);
                assert(ops_defined(c.funcs));
                assert(c.chain_at(0) is Some);
                let q = c.chain_at(0)->Some_0.1;
                assert(q < 250) by {
                    crate::compiler::expr::lemma_operand_bounds(toks0, names0, 1, 0);
                }
                assert(free_count(c.regs()) == 256);
                assert(c.cur_chunk().constants@.len() == 0);
                assert(c.chain_ready(0, None));
            }
            if unclosed_prem {
                reveal(Compiler::unclosed_paren);
                assert(lexes_as(source.spec_bytes(), toks0, names0));
                assert(unclosed_program(toks0, names0));
                lemma_free_from_all(c.regs().state, 0);
                assert(c.toks@ == toks0 && c.interner@ == names0 && c.cursor == 1 && !c.lex_failed);
                assert(ops_defined(c.funcs));
                assert(free_count(c.regs()) == 256);
                assert(c.cur_chunk().constants@.len() == 0);
                assert(c.unclosed_paren(None));
            }
        }
        let er = c.expression(None);
        proof {
            reveal(Compiler::chain_done);
        }
        let result_reg = er?;
        let ghost after_expr = c;
        c.emit_return(result_reg);
        proof {
            if chain_prem {
                reveal(Compiler::chain_done);
                chain_term = expr_term(started.chain_at(0)->Some_0.0, funcs);
                let code = c.code();
                assert(code.subrange(0, code.len() - 2) =~= after_expr.code());
                assert(returns_term(c.cur_chunk(), chain_term));
            }
        }
        proof {
            if spec_lone_literal(source.spec_bytes()) {
                let tok = started.cur_tok();
                assert(started.at_lone_literal());
                if tok is BooleanLit || tok is Nil {
                    assert(c.code() =~= Compiler::word_load(tok, result_reg) + seq![spec_op_byte(OpCode::RETURN), result_reg]);
                    assert(loads_and_returns(c.cur_chunk(), spec_word_value(tok)));
                    assert(spec_literal_value(source.spec_bytes(), spec_word_value(tok)));
                } else {
                    let v = Compiler::const_value(tok, started.interner@);
                    assert(spec_find(Seq::<ValueModel>::empty(), v) is None);
                    assert(consts_after(Seq::<ValueModel>::empty(), v) =~= seq![v]);
                    assert(const_slot(Seq::<ValueModel>::empty(), v) == 0);
                    assert(spec_lo(0) == 0 && spec_hi(0) == 0);
                    assert(spec_le_u16(0, 0) == 0);
                    assert(c.code() =~= seq![spec_op_byte(OpCode::LOADK), result_reg, 0u8, 0u8]
                        + seq![spec_op_byte(OpCode::RETURN), result_reg]);
                    assert(loads_and_returns(c.cur_chunk(), v));
                    assert(spec_literal_value(source.spec_bytes(), v));
                }
            }
        }
    } else {
        proof {
            if prog_prem {
                lemma_free_from_all(c.regs().state, 0);
                assert(lexes_as(source.spec_bytes(), toks0, names0));
            }
        }
        while !c.check(&Token::Eof)
            invariant
                c.wf(),
                c.frames@.len() == 1,
                c.lex_failed == failed,
                keeps_functions(given, c.funcs),
                c.fn_base@ == given.entries().len(),
                !is_expr,
                !(spec_skip(source.spec_bytes(), 0) < source.spec_bytes().len() && spec_token_end(
                    source.spec_bytes(),
                    spec_skip(source.spec_bytes(), 0),
                ) is None),
                spec_first_punct(source.spec_bytes()) matches Some(t) ==> (starts_nothing(t) ==> c.cur_tok() == t
                    && c.starts_no_statement()),
                spec_skip(source.spec_bytes(), 0) >= source.spec_bytes().len() ==> c.cur_tok() is Eof
                    && c.has_free_temp() && c.code() == Seq::<u8>::empty() && c.frames@.last().chunk_idx == 0,
                prog_prem == (!is_expr && spec_lexes(source.spec_bytes(), 0) && source.spec_bytes().len() < 0x1000_0000
                    && ops_defined(funcs) && (forall|toks: Seq<(Token, Span)>, names: Seq<Seq<char>>|
                    #[trigger] lexes_as(source.spec_bytes(), toks, names) ==> return_program(toks, names))),
                prog_prem ==> lexes_as(source.spec_bytes(), toks0, names0) && return_program(toks0, names0) && ops_defined(funcs),
                prog_prem ==> c.toks@ == toks0 && c.interner@ == names0 && c.funcs == funcs && !c.lex_failed
                    && c.frames@.last().chunk_idx == 0,
                prog_prem ==> (c.cursor == 1 && c.code() == Seq::<u8>::empty() && c.cur_chunk().constants@.len() == 0
                    && free_count(c.regs()) == 256) || (c.cursor == toks0.len() - 1 && free_count(c.regs()) >= 255 && code_returns(
                    c.code(),
                    c.cur_chunk().constants@,
                    0,
                    expr_term(operand_chain(toks0, names0, 2, 0)->Some_0.0, funcs),
                )),
            decreases c.remaining(),
        {
            let ghost before_s = c;
            proof {
                if prog_prem {
                    reveal(Compiler::return_ready);
                    assert(c.cursor == 1);
                    assert(c.cur_tok() is Return);
                    assert(c.return_at() is Some);
                    assert(ops_defined(c.funcs));
                    assert(c.return_at()->Some_0.1 < 250);
                    assert(c.return_ready());
                }
            }
            let sr = c.statement();
            proof {
                reveal(Compiler::return_done);
                if prog_prem {
                    assert(before_s.return_ready());
                    assert(Compiler::return_done(before_s, c, sr));
                    assert(sr is Ok);
                }
            }
            sr?;
        }
        proof {
            if failed {
                assert(!(c.toks@[c.cursor as int].0 is Eof));
            }
        }
        let ghost before_net = c;
        proof {
            if prog_prem {
                crate::compiler::register::lemma_free_from_pos(c.regs().state, c.regs().held_pt as int);
            }
        }
        c.emit_safety_net()?;
        proof {
            if prog_prem {
                let n = before_net.code().len() - 2;
                let t = expr_term(operand_chain(toks0, names0, 2, 0)->Some_0.0, funcs);
                assert(c.code().subrange(0, n + 2) =~= before_net.code());
                assert(code_returns(c.cur_chunk().code@.subrange(0, n + 2), c.cur_chunk().constants@, 0, t));
                assert(returns_first(c.cur_chunk(), t));
            }
        }
        proof {
            if spec_skip(source.spec_bytes(), 0) >= source.spec_bytes().len() {
                let reg = choose|reg: u8| c.code() == Seq::<u8>::empty() + seq![
                    spec_op_byte(OpCode::LOADNIL),
                    reg,
                    spec_op_byte(OpCode::RETURN),
                    reg,
                ];
                assert(c.code() =~= seq![spec_op_byte(OpCode::LOADNIL), reg, spec_op_byte(OpCode::RETURN), reg]);
                assert(loads_and_returns(c.cur_chunk(), ValueModel::Nil));
            }
        }
    }
    proof {
        assert forall|i: int| 0 <= i < c.chunks@.len() implies (#[trigger] c.chunks@[i]).wf() && ends_with_return(
            c.chunks@[i].code@,
        ) by {
            if c.is_open(i) {
                let f = choose|f: int| 0 <= f < c.frames@.len() && #[trigger] c.frames@[f].chunk_idx == i;
                assert(f == 0);
            }
        }
    }
    let res = c.take_compiled();
    proof {
        if prog_prem {
            assert(res.0@[0] == c.cur_chunk());
            assert(lexes_as(source.spec_bytes(), toks0, names0) && returns_first(
                res.0@[0],
                expr_term(operand_chain(toks0, names0, 2, 0)->Some_0.0, funcs),
            ));
        }
        if chain_prem {
            assert(res.0@[0] == c.cur_chunk());
            assert(lexes_as(source.spec_bytes(), toks0, names0) && returns_term(
                res.0@[0],
                expr_term(operand_chain(toks0, names0, 1, 0)->Some_0.0, funcs),
            ));
        }
    }
    Ok(res)
}

/// The value of the word literal `k`: a boolean, else `nil`.
pub open spec fn spec_word_value(k: Token) -> ValueModel {
    match k {
        Token::BooleanLit(b) => ValueModel::Bool(b),
        _ => ValueModel::Nil,
    }
}

/// A punctuation token that starts no statement, and so no expression: none
/// of `-`, `!`, `(`, `;`, `@` and `{`.
pub open spec fn starts_nothing(t: Token) -> bool {
    !(t is Minus || t is Bang || t is LParen || t is Semicolon || t is At || t is LBrace)
}

/// `v` is the value of the lone literal of the text as far as the text fixes
/// it: that of `true`, `false` or `nil`, the characters of a string, or a
/// number for a numeral (the host reads its bits).
pub open spec fn spec_literal_value(bytes: Seq<u8>, v: ValueModel) -> bool {
    let s = spec_skip(bytes, 0);
    if is_ident_start(bytes[s]) {
        spec_lone_word(bytes) matches Some(k) && v == spec_word_value(k)
    } else if bytes[s] == 34 {
        spec_string_close(bytes, s + 1) matches Some(q) && v == ValueModel::Str(decode_utf8(bytes.subrange(s + 1, q)))
    } else {
        v is Number
    }
}

/// A literal alone, compiled as an expression and run from a machine with no
/// call in progress, gives its value: that of `true`, `false` or `nil`, the
/// characters of a string, or a number for a numeral.
pub proof fn lemma_literal_runs_to_its_value(
    source: Seq<u8>,
    chunks: Seq<Chunk>,
    v: ValueModel,
    before: VM,
    after: VM,
    registry: FunctionRegistry,
    r: Result<Value, RuntimeError>,
)
    requires
        spec_lone_literal(source),
        chunks.len() > 0,
        loads_and_returns(chunks[0], v),
        spec_literal_value(source, v),
        before.depth() == 0,
        VM::run_spec(before, after, chunks, registry, r),
    ensures
        r matches Ok(x) && spec_literal_value(source, x@),
{
    VM::lemma_run_load_return(before, after, chunks, registry, r, v);
}

/// Every operator has a function in a registry holding the standard
/// functions.
proof fn lemma_std_ops(f: FunctionRegistry)
    requires
        forall|i: int| 0 <= i < STD_FN_COUNT ==> #[trigger] f.overloads(spec_std_key(i)) == seq![
            (spec_std_sig(i), i as usize),
        ],
    ensures
        ops_defined(f),
{
    assert forall|t: Token| spec_binary_item(t) is Some implies #[trigger] f.overloads(
        FnKeyModel::LangItem(spec_binary_item(t)->0),
    ).len() > 0 by {
        let k: int = match spec_binary_item(t)->0 {
            LangItem::Add => 0,
            LangItem::Sub => 2,
            LangItem::Mul => 4,
            LangItem::Div => 6,
            LangItem::Rem => 8,
            LangItem::Eq => 14,
            LangItem::Neq => 16,
            LangItem::Lt => 18,
            LangItem::Le => 20,
            LangItem::Gt => 22,
            _ => 24,
        };
        assert(spec_std_key(k) == FnKeyModel::LangItem(spec_binary_item(t)->0));
        assert(f.overloads(spec_std_key(k)).len() == 1);
    }
    assert(spec_std_key(10) == FnKeyModel::LangItem(LangItem::Neg));
    assert(f.overloads(spec_std_key(10)).len() == 1);
    assert(spec_std_key(12) == FnKeyModel::LangItem(LangItem::Not));
    assert(f.overloads(spec_std_key(12)).len() == 1);
}

/// Compiles `source` as an expression, with the standard functions.
pub fn compile_expr<H: Host>(source: &str, host: &mut H) -> (r: Result<(Vec<Chunk>, FunctionRegistry), CompileError>)
    ensures
        r matches Ok((chunks, f)) ==> spec_compiled_ok(chunks@) && f.wf(),
        spec_lone_literal(source.spec_bytes()) ==> r is Ok,
        // text that starts with no token is refused
        spec_skip(source.spec_bytes(), 0) < source.spec_bytes().len() && spec_token_end(
            source.spec_bytes(),
            spec_skip(source.spec_bytes(), 0),
        ) is None ==> (r matches Err(e) && e is Unrecognized),
        spec_first_punct(source.spec_bytes()) matches Some(t) ==> (starts_nothing(t) ==> (r matches Err(e)
            && e is Unexpected)),
        // an empty expression is refused
        spec_skip(source.spec_bytes(), 0) >= source.spec_bytes().len() ==> (r matches Err(e) && e is Unexpected),
        spec_lone_ident(source.spec_bytes()) ==> (r matches Err(CompileError::UndefinedVariable { name, .. })
            && name@ == spec_first_ident(source.spec_bytes())),
        // a literal alone loads its value and returns it
        spec_lone_literal(source.spec_bytes()) ==> (r matches Ok((chunks, _)) && (exists|v: ValueModel|
            loads_and_returns(chunks@[0], v) && #[trigger] spec_literal_value(source.spec_bytes(), v))),
        r matches Ok((chunks, f)) ==> fns_have_chunks(f, 0, chunks@.len() as int),
        r matches Ok((_, f)) ==> forall|i: int|
            0 <= i < STD_FN_COUNT ==> f.entries()[i] == FnEntry::Intrinsic(spec_std_intrinsic(i))
                && #[trigger] f.key_of()[i] == spec_std_key(i),
        // an expression of literals and binary operators at the start of the
        // text compiles to code computing its parse by binding power
        spec_lexes(source.spec_bytes(), 0) && source.spec_bytes().len() < 0x1000_0000 && (forall|toks: Seq<(Token, Span)>, names: Seq<Seq<char>>|
            #[trigger] lexes_as(source.spec_bytes(), toks, names) ==> chain_program(toks, names)) ==> (r matches Ok((chunks, f))
            && (exists|toks: Seq<(Token, Span)>, names: Seq<Seq<char>>|
            #[trigger] lexes_as(source.spec_bytes(), toks, names) && returns_term(
                chunks@[0],
                expr_term(operand_chain(toks, names, 1, 0)->Some_0.0, f),
            ))),
        // a `(` at the start whose expression no `)` follows is reported unclosed
        spec_lexes(source.spec_bytes(), 0) && source.spec_bytes().len() < 0x1000_0000 && (forall|toks: Seq<(Token, Span)>, names: Seq<Seq<char>>|
            #[trigger] lexes_as(source.spec_bytes(), toks, names) ==> unclosed_program(toks, names)) ==> (r matches Err(e)
            && e is Unclosed),
{
    let std = FunctionRegistry::with_std();
    proof {
        lemma_std_ops(std);
    }
    let r = compile(source, std, true, host);
    proof {
        if r is Ok {
            let f = r->Ok_0.1;
            assert forall|i: int| 0 <= i < STD_FN_COUNT implies f.entries()[i] == FnEntry::Intrinsic(spec_std_intrinsic(i))
                && #[trigger] f.key_of()[i] == spec_std_key(i) by {
                assert(std.key_of()[i] == spec_std_key(i));
                assert(f.key_of()[i] == std.key_of()[i]);
                assert(f.entries()[i] == std.entries()[i]);
            }
            let n = r->Ok_0.0@.len() as int;
            assert forall|i: int| 0 <= i < f.entries().len() implies (#[trigger] f.entries()[i] matches FnEntry::ChunkIdx(c)
                ==> c < n) by {
                if i < STD_FN_COUNT {
                    assert(std.key_of()[i] == spec_std_key(i));
                    assert(f.entries()[i] == std.entries()[i]);
                } else {
                    assert(fns_have_chunks(f, std.entries().len() as int, n));
                }
            }
        }
    }
    r
}

/// Compiles `source` as an expression, with `funcs` as the known functions.
pub fn compile_expr_with<H: Host>(source: &str, funcs: FunctionRegistry, host: &mut H) -> (r: Result<(Vec<Chunk>, FunctionRegistry), CompileError>)
    requires
        funcs.wf(),
    ensures
        r matches Ok((chunks, f)) ==> spec_compiled_ok(chunks@) && f.wf() && keeps_functions(funcs, f),
        spec_lone_literal(source.spec_bytes()) ==> r is Ok,
        spec_skip(source.spec_bytes(), 0) < source.spec_bytes().len() && spec_token_end(
            source.spec_bytes(),
            spec_skip(source.spec_bytes(), 0),
        ) is None ==> (r matches Err(e) && e is Unrecognized),
        spec_first_punct(source.spec_bytes()) matches Some(t) ==> (starts_nothing(t) ==> (r matches Err(e)
            && e is Unexpected)),
        spec_skip(source.spec_bytes(), 0) >= source.spec_bytes().len() ==> (r matches Err(e) && e is Unexpected),
        spec_lone_ident(source.spec_bytes()) ==> (r matches Err(CompileError::UndefinedVariable { name, .. })
            && name@ == spec_first_ident(source.spec_bytes())),
        spec_lone_literal(source.spec_bytes()) ==> (r matches Ok((chunks, _)) && (exists|v: ValueModel|
            loads_and_returns(chunks@[0], v) && #[trigger] spec_literal_value(source.spec_bytes(), v))),
        r matches Ok((chunks, f)) ==> fns_have_chunks(f, funcs.entries().len() as int, chunks@.len() as int),
        // an expression of literals and binary operators at the start of the
        // text compiles to code computing its parse by binding power
        spec_lexes(source.spec_bytes(), 0) && source.spec_bytes().len() < 0x1000_0000 && ops_defined(funcs) && (forall|toks: Seq<(Token, Span)>, names: Seq<Seq<char>>|
            #[trigger] lexes_as(source.spec_bytes(), toks, names) ==> chain_program(toks, names)) ==> (r matches Ok((chunks, f))
            && (exists|toks: Seq<(Token, Span)>, names: Seq<Seq<char>>|
            #[trigger] lexes_as(source.spec_bytes(), toks, names) && returns_term(
                chunks@[0],
                expr_term(operand_chain(toks, names, 1, 0)->Some_0.0, f),
            ))),
        spec_lexes(source.spec_bytes(), 0) && source.spec_bytes().len() < 0x1000_0000 && ops_defined(funcs) && (forall|toks: Seq<(Token, Span)>, names: Seq<Seq<char>>|
            #[trigger] lexes_as(source.spec_bytes(), toks, names) ==> unclosed_program(toks, names)) ==> (r matches Err(e)
            && e is Unclosed),
{
    compile(source, funcs, true, host)
}

/// Compiles `source` as a program, with the standard functions.
pub fn compile_program<H: Host>(source: &str, host: &mut H) -> (r: Result<(Vec<Chunk>, FunctionRegistry), CompileError>)
    ensures
        r matches Ok((chunks, f)) ==> spec_compiled_ok(chunks@) && f.wf(),
        r matches Ok((chunks, f)) ==> fns_have_chunks(f, 0, chunks@.len() as int),
        r matches Ok((_, f)) ==> forall|i: int|
            0 <= i < STD_FN_COUNT ==> f.entries()[i] == FnEntry::Intrinsic(spec_std_intrinsic(i))
                && #[trigger] f.key_of()[i] == spec_std_key(i),
        r is Ok ==> spec_lexes(source.spec_bytes(), 0),
        spec_skip(source.spec_bytes(), 0) >= source.spec_bytes().len() ==> r is Ok,
        spec_skip(source.spec_bytes(), 0) >= source.spec_bytes().len() ==> (r matches Ok((chunks, _))
            && loads_and_returns(chunks@[0], ValueModel::Nil)),
        spec_skip(source.spec_bytes(), 0) < source.spec_bytes().len() && spec_token_end(
            source.spec_bytes(),
            spec_skip(source.spec_bytes(), 0),
        ) is None ==> (r matches Err(e) && e is Unrecognized),
        spec_first_punct(source.spec_bytes()) matches Some(t) ==> (starts_nothing(t) ==> (r matches Err(e)
            && e is Unexpected)),
        // a program `return e;` compiles to code computing `e` and returning it
        spec_lexes(source.spec_bytes(), 0) && source.spec_bytes().len() < 0x1000_0000 && (forall|toks: Seq<(Token, Span)>, names: Seq<Seq<char>>|
            #[trigger] lexes_as(source.spec_bytes(), toks, names) ==> return_program(toks, names)) ==> (r matches Ok((chunks, f))
            && (exists|toks: Seq<(Token, Span)>, names: Seq<Seq<char>>|
            #[trigger] lexes_as(source.spec_bytes(), toks, names) && returns_first(
                chunks@[0],
                expr_term(operand_chain(toks, names, 2, 0)->Some_0.0, f),
            ))),
{
    let std = FunctionRegistry::with_std();
    proof {
        lemma_std_ops(std);
    }
    let r = compile(source, std, false, host);
    proof {
        if r is Ok {
            let f = r->Ok_0.1;
            assert forall|i: int| 0 <= i < STD_FN_COUNT implies f.entries()[i] == FnEntry::Intrinsic(spec_std_intrinsic(i))
                && #[trigger] f.key_of()[i] == spec_std_key(i) by {
                assert(std.key_of()[i] == spec_std_key(i));
                assert(f.key_of()[i] == std.key_of()[i]);
                assert(f.entries()[i] == std.entries()[i]);
            }
            let n = r->Ok_0.0@.len() as int;
            assert forall|i: int| 0 <= i < f.entries().len() implies (#[trigger] f.entries()[i] matches FnEntry::ChunkIdx(c)
                ==> c < n) by {
                if i < STD_FN_COUNT {
                    assert(std.key_of()[i] == spec_std_key(i));
                    assert(f.entries()[i] == std.entries()[i]);
                } else {
                    assert(fns_have_chunks(f, std.entries().len() as int, n));
                }
            }
        }
    }
    r
}

/// Compiles `source` as a program, with `funcs` as the known functions.
pub fn compile_program_with<H: Host>(source: &str, funcs: FunctionRegistry, host: &mut H) -> (r: Result<(Vec<Chunk>, FunctionRegistry), CompileError>)
    requires
        funcs.wf(),
    ensures
        r matches Ok((chunks, f)) ==> spec_compiled_ok(chunks@) && f.wf() && keeps_functions(funcs, f),
        r matches Ok((chunks, f)) ==> fns_have_chunks(f, funcs.entries().len() as int, chunks@.len() as int),
        r is Ok ==> spec_lexes(source.spec_bytes(), 0),
        spec_skip(source.spec_bytes(), 0) >= source.spec_bytes().len() ==> r is Ok,
        spec_skip(source.spec_bytes(), 0) >= source.spec_bytes().len() ==> (r matches Ok((chunks, _))
            && loads_and_returns(chunks@[0], ValueModel::Nil)),
        spec_skip(source.spec_bytes(), 0) < source.spec_bytes().len() && spec_token_end(
            source.spec_bytes(),
            spec_skip(source.spec_bytes(), 0),
        ) is None ==> (r matches Err(e) && e is Unrecognized),
        spec_first_punct(source.spec_bytes()) matches Some(t) ==> (starts_nothing(t) ==> (r matches Err(e)
            && e is Unexpected)),
        // a program `return e;` compiles to code computing `e` and returning it
        spec_lexes(source.spec_bytes(), 0) && source.spec_bytes().len() < 0x1000_0000 && ops_defined(funcs) && (forall|toks: Seq<(Token, Span)>, names: Seq<Seq<char>>|
            #[trigger] lexes_as(source.spec_bytes(), toks, names) ==> return_program(toks, names)) ==> (r matches Ok((chunks, f))
            && (exists|toks: Seq<(Token, Span)>, names: Seq<Seq<char>>|
            #[trigger] lexes_as(source.spec_bytes(), toks, names) && returns_first(
                chunks@[0],
                expr_term(operand_chain(toks, names, 2, 0)->Some_0.0, f),
            ))),
{
    compile(source, funcs, false, host)
}

/// Splits `source` into tokens, up to `Eof` or to the first text that forms no token.
fn tokenize<H: Host>(source: &str, interner: &mut Interner, host: &mut H) -> (res: (Vec<(Token, Span)>, bool))
    requires
        old(interner).wf(),
    ensures
        final(interner).wf(),
        res.0@.len() >= 1,
        forall|i: int| 0 <= i < res.0@.len() - 1 ==> !((#[trigger] res.0@[i]).0 is Eof),
        !res.1 ==> res.0@.last().0 is Eof,
        res.1 ==> res.0@.last().0 is Other,
        !res.1 ==> spec_lexes(source.spec_bytes(), 0),
        spec_skip(source.spec_bytes(), 0) >= source.spec_bytes().len() ==> !res.1 && res.0@.len() == 2,
        spec_skip(source.spec_bytes(), 0) < source.spec_bytes().len() && spec_token_end(
            source.spec_bytes(),
            spec_skip(source.spec_bytes(), 0),
        ) is None ==> res.1 && res.0@.len() == 2,
        spec_lone_literal(source.spec_bytes()) && old(interner)@.len() < 0xffff_fff0 ==> {
            &&& !res.1
            &&& res.0@.len() == 3
            &&& res.0@[1].0.spec_is_literal()
            &&& res.0@[2].0 is Eof
            &&& is_lone_token(source.spec_bytes(), res.0@[1].0, final(interner)@)
        },
        old(interner)@.len() < 0xffff_fff0 ==> (spec_first_punct(source.spec_bytes()) matches Some(t) ==> (res.0@.len()
            >= 2 && res.0@[1].0 == t)),
        spec_lone_ident(source.spec_bytes()) && old(interner)@.len() < 0xffff_fff0 ==> {
            &&& !res.1
            &&& res.0@.len() == 3
            &&& names_first_ident(source.spec_bytes(), res.0@[1].0, final(interner)@)
        },
        res.0@.len() >= 2,
        forall|i: int| 0 <= i < res.0@.len() ==> sym_ok((#[trigger] res.0@[i]).0, final(interner)@.len()),
        res.0@[0].0 is Other,
        // with room to intern every token, the tokens are those of the whole text
        !res.1 && old(interner)@.len() + source.spec_bytes().len() < 0xffff_fff0 ==> lexes_as(
            source.spec_bytes(),
            res.0@,
            final(interner)@,
        ),
        spec_lexes(source.spec_bytes(), 0) && old(interner)@.len() + source.spec_bytes().len() < 0xffff_fff0 ==> !res.1,
{
    // The parser starts before the first token: a placeholder stands there.
    let mut toks: Vec<(Token, Span)> = Vec::new();
    toks.push((Token::Other, Span::empty()));
    let mut pos: usize = 0;
    let len = source.as_bytes().len();
    loop
        invariant
            interner.wf(),
            pos <= len,
            len == source.spec_bytes().len(),
            toks@.len() >= 1,
            forall|i: int| 0 <= i < toks@.len() ==> !((#[trigger] toks@[i]).0 is Eof),
            forall|i: int| 0 <= i < toks@.len() ==> sym_ok((#[trigger] toks@[i]).0, interner@.len()),
            spec_lexes(source.spec_bytes(), pos as int) == spec_lexes(source.spec_bytes(), 0),
            toks@[0].0 is Other,
            pos as int == tok_start(toks@, toks@.len() as int),
            old(interner)@.len() + len < 0xffff_fff0 ==> interner@.len() <= old(interner)@.len() + pos,
            old(interner)@.len() + len < 0xffff_fff0 ==> forall|i: int|
                1 <= i < toks@.len() ==> #[trigger] lexed(source.spec_bytes(), tok_start(toks@, i), interner@, Ok(toks@[i])),
            spec_skip(source.spec_bytes(), 0) >= len ==> pos == 0 && toks@.len() == 1,
            spec_skip(source.spec_bytes(), 0) < len && spec_token_end(source.spec_bytes(), spec_skip(source.spec_bytes(), 0))
                is None ==> pos == 0 && toks@.len() == 1,
            spec_lone_literal(source.spec_bytes()) && old(interner)@.len() < 0xffff_fff0 ==> {
                ||| pos == 0 && toks@.len() == 1 && interner@ == old(interner)@
                ||| spec_token_end(source.spec_bytes(), spec_skip(source.spec_bytes(), 0)) == Some(pos as int)
                    && toks@.len() == 2 && toks@[1].0.spec_is_literal()
                    && is_lone_token(source.spec_bytes(), toks@[1].0, interner@)
            },
            old(interner)@.len() < 0xffff_fff0 ==> (spec_first_punct(source.spec_bytes()) matches Some(t) ==> ((pos == 0
                && toks@.len() == 1 && interner@ == old(interner)@) || (toks@.len() >= 2 && toks@[1].0 == t))),
            spec_lone_ident(source.spec_bytes()) && old(interner)@.len() < 0xffff_fff0 ==> {
                ||| pos == 0 && toks@.len() == 1 && interner@ == old(interner)@
                ||| pos == spec_ident_end(source.spec_bytes(), spec_skip(source.spec_bytes(), 0)) && toks@.len() == 2
                    && names_first_ident(source.spec_bytes(), toks@[1].0, interner@)
            },
        decreases len - pos,
    {
        let ghost before = interner@.len();
        let ghost names_before = interner@;
        let ghost toks_before = toks@;
        match next_token(source, pos, interner, host) {
            Ok((tok, span)) => {
                toks.push((tok, span));
                proof {
                    if old(interner)@.len() + len < 0xffff_fff0 {
                        assert forall|i: int| 1 <= i < toks@.len() implies #[trigger] lexed(
                            source.spec_bytes(),
                            tok_start(toks@, i),
                            interner@,
                            Ok(toks@[i]),
                        ) by {
                            if i < toks@.len() - 1 {
                                assert(tok_start(toks@, i) == tok_start(toks_before, i));
                                assert(toks@[i] == toks_before[i]);
                                assert(lexed(source.spec_bytes(), tok_start(toks_before, i), names_before, Ok(toks_before[i])));
                                lemma_lexed_names_extend(source.spec_bytes(), tok_start(toks@, i), names_before, interner@, Ok(toks@[i]));
                            } else {
                                assert(tok_start(toks@, i) == pos as int);
                            }
                        }
                    }
                }
                assert forall|i: int| 0 <= i < toks@.len() implies sym_ok((#[trigger] toks@[i]).0, interner@.len()) by {
                    if i < toks@.len() - 1 {
                        assert(sym_ok(toks@[i].0, before));
                    }
                }
                match tok {
                    Token::Eof => {
                        return (toks, false);
                    },
                    _ => {},
                }
                proof {
                    lemma_lexed_step(source.spec_bytes(), pos as int, interner@, Ok((tok, span)));
                }
                pos = span.end;
            },
            Err(span) => {
                proof {
                    if old(interner)@.len() + len < 0xffff_fff0 {
                        lemma_lexed_err(source.spec_bytes(), pos as int, names_before, span);
                    }
                }
                toks.push((Token::Other, span));
                assert forall|i: int| 0 <= i < toks@.len() implies sym_ok((#[trigger] toks@[i]).0, interner@.len()) by {
                    if i < toks@.len() - 1 {
                        assert(sym_ok(toks@[i].0, before));
                    }
                }
                return (toks, true);
            },
        }
    }
}

} // verus!
