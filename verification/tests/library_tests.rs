#![allow(dead_code)]

use sigil_interpreter::compiler::compile::{compile_expr, compile_program, CompileError};
use sigil_interpreter::functions::Intrinsic;
use sigil_interpreter::host::Host;
use sigil_interpreter::value::Value;
use sigil_interpreter::vm::exec::{RuntimeError, VM};
use sigil_interpreter::vm::heap::Heap;

/// Floating-point arithmetic for the interpreter, as an embedding program provides it.
struct TestHost;

fn num(x: f64) -> Value {
    Value::Number(x.to_bits())
}

fn float(v: &Value) -> f64 {
    f64::from_bits(v.as_num())
}

impl Host for TestHost {
    fn number_bits(&mut self, numeral: &str) -> u64 {
        numeral.parse::<f64>().unwrap_or(f64::NAN).to_bits()
    }

    fn call_intrinsic(&mut self, intrinsic: Intrinsic, args: &[Value], _heap: &Heap) -> Value {
        let a = args.first().map(float).unwrap_or(0.0);
        let b = args.get(1).map(float).unwrap_or(0.0);
        match intrinsic {
            Intrinsic::Add => num(a + b),
            Intrinsic::Sub => num(a - b),
            Intrinsic::Mul => num(a * b),
            Intrinsic::Div => num(a / b),
            Intrinsic::Rem => num(a % b),
            Intrinsic::Neg => num(-a),
            Intrinsic::Lt => Value::Bool(a < b),
            Intrinsic::Le => Value::Bool(a <= b),
            Intrinsic::Gt => Value::Bool(a > b),
            Intrinsic::Ge => Value::Bool(a >= b),
            _ => Value::Nil,
        }
    }
}

fn run_program(source: &str) -> Value {
    let mut host = TestHost;
    let (chunks, funcs) = compile_program(source, &mut host).unwrap();
    let mut vm = VM::new();
    vm.run(&chunks, &funcs, &mut host).unwrap()
}

fn run_expr(source: &str) -> Value {
    let mut host = TestHost;
    let (chunks, funcs) = compile_expr(source, &mut host).unwrap();
    let mut vm = VM::new();
    vm.run(&chunks, &funcs, &mut host).unwrap()
}

fn run_program_err(source: &str) -> RuntimeError {
    let mut host = TestHost;
    let (chunks, funcs) = compile_program(source, &mut host).unwrap();
    let mut vm = VM::new();
    vm.run(&chunks, &funcs, &mut host).unwrap_err()
}

fn compile_err(source: &str) -> CompileError {
    compile_program(source, &mut TestHost).unwrap_err()
}

fn compile_expr_err(source: &str) -> CompileError {
    compile_expr(source, &mut TestHost).unwrap_err()
}

use sigil_interpreter::compiler::label::{Label, LabelTracker, RefKind};
use sigil_interpreter::compiler::loop_tracker::LoopTracker;
use sigil_interpreter::compiler::register::RegisterTracker;
use sigil_interpreter::compiler::variables::GlobalStore;
use sigil_interpreter::functions::{FnEntry, FnLookupKey, FnTypeSig, FunctionRegistry, LangItem};
use sigil_interpreter::interner::Interner;
use sigil_interpreter::opcode::OpCode;
use sigil_interpreter::types::TypeId;
use sigil_interpreter::vm::chunk::Chunk;
use sigil_interpreter::vm::heap::{StructObject, Upvalue};

const ALL_OPCODES: [OpCode; 18] = [
    OpCode::MOVE,
    OpCode::LOADK,
    OpCode::LOADBOOL,
    OpCode::LOADNIL,
    OpCode::LOADFUN,
    OpCode::GETGLB,
    OpCode::SETGLB,
    OpCode::CALL,
    OpCode::CALLK,
    OpCode::RETURN,
    OpCode::JMP,
    OpCode::TEST,
    OpCode::CLOSURE,
    OpCode::NEWSTRUCT,
    OpCode::GETUPVAL,
    OpCode::SETUPVAL,
    OpCode::GETFIELD,
    OpCode::SETFIELD,
];

fn run_chunks(chunks: &[Chunk]) -> Result<Value, RuntimeError> {
    let registry = FunctionRegistry::new();
    let mut vm = VM::new();
    vm.run(chunks, &registry, &mut TestHost)
}

// ── Bytecode encoding ──

#[test]
fn wide_operand_reads_back() {
    let mut chunk = Chunk::new();
    chunk.emit_wide(0xBEEF);
    chunk.emit_wide(7);
    assert_eq!(chunk.code, vec![0xEF, 0xBE, 7, 0]);
    assert_eq!(chunk.read_wide(), 0xBEEF);
    assert_eq!(chunk.read_wide(), 7);
}

#[test]
fn negative_offset_reads_back() {
    let mut chunk = Chunk::new();
    let (lo, hi) = sigil_interpreter::vm::chunk::i16_bytes(-3);
    chunk.emit(lo);
    chunk.emit(hi);
    assert_eq!(chunk.code, vec![0xFD, 0xFF]);
    assert_eq!(chunk.read_i16(), -3);
}

#[test]
fn opcode_bytes_round_trip() {
    for (i, op) in ALL_OPCODES.iter().enumerate() {
        assert_eq!(op.to_byte() as usize, i);
        assert!(OpCode::from_repr(op.to_byte()) == Some(*op));
    }
    assert!(OpCode::from_repr(18).is_none());
    assert!(OpCode::from_repr(255).is_none());
}

#[test]
fn equal_constants_share_a_slot() {
    let mut chunk = Chunk::new();
    let a = chunk.add_constant(num(1.0));
    let b = chunk.add_constant(Value::String("x".to_string()));
    let c = chunk.add_constant(num(1.0));
    let d = chunk.add_constant(Value::String("x".to_string()));
    let e = chunk.add_constant(num(-1.0));
    assert_eq!((a, b, c, d, e), (0, 1, 0, 1, 2));
    assert_eq!(chunk.constants.len(), 3);
}

#[test]
fn locus_is_the_last_one_at_or_before() {
    let mut chunk = Chunk::new();
    chunk.record_locus(sigil_interpreter::span::Span::new(0, 3));
    chunk.emit(0);
    chunk.emit(0);
    chunk.record_locus(sigil_interpreter::span::Span::new(4, 9));
    chunk.emit(0);
    assert_eq!(chunk.locus_at(1), Some(sigil_interpreter::span::Span::new(0, 3)));
    assert_eq!(chunk.locus_at(2), Some(sigil_interpreter::span::Span::new(4, 9)));
    assert_eq!(chunk.locus_at(40), Some(sigil_interpreter::span::Span::new(4, 9)));
}

// ── Labels and loops ──

#[test]
fn placing_a_label_patches_its_jumps() {
    let mut chunk = Chunk::new();
    let mut labels = LabelTracker::new();
    let label = labels.alloc_label();
    // JMP at 0, TEST r5 at 3, then two filler bytes; the label goes at 9.
    chunk.emit_opcode(OpCode::JMP);
    chunk.emit_wide(0);
    labels.add_ref(label, 0, RefKind::Jmp);
    chunk.emit_opcode(OpCode::TEST);
    chunk.emit(5);
    chunk.emit_wide(0);
    labels.add_ref(label, 3, RefKind::Test);
    chunk.emit(0);
    chunk.emit(0);
    assert!(labels.is_pending(label));
    labels.resolve(label, 9, &mut chunk);
    assert!(!labels.is_pending(label));
    assert_eq!(labels.ip_of(label), 9);
    assert_eq!(chunk.code[1..3], [9, 0]);
    assert_eq!(chunk.code[5..7], [6, 0]);
}

#[test]
fn backward_jump_gets_a_negative_offset() {
    let mut chunk = Chunk::new();
    let mut labels = LabelTracker::new();
    let label = labels.alloc_label();
    // Five filler bytes, then a JMP at 5 that goes back to 2.
    for _ in 0..5 {
        chunk.emit(0);
    }
    chunk.emit_opcode(OpCode::JMP);
    chunk.emit_wide(0);
    labels.add_ref(label, 5, RefKind::Jmp);
    labels.resolve(label, 2, &mut chunk);
    assert_eq!(chunk.code[6..8], (-3i16).to_le_bytes());
    assert_eq!(labels.ip_of(label), 2);
}

#[test]
fn loop_stack_push_pop() {
    let mut loops = LoopTracker::new();
    assert!(!loops.in_loop());
    loops.push_loop(Label(1), Label(2));
    loops.push_loop(Label(3), Label(4));
    assert_eq!(loops.break_label(), Label(3));
    assert_eq!(loops.continue_label(), Label(4));
    loops.pop_loop();
    assert_eq!(loops.break_label(), Label(1));
    assert_eq!(loops.continue_label(), Label(2));
    loops.pop_loop();
    assert!(!loops.in_loop());
}

// ── Registers ──

#[test]
fn held_registers_are_the_lowest() {
    let mut regs = RegisterTracker::new(4);
    assert!(matches!(regs.alloc_held(), Ok(0)));
    assert!(matches!(regs.alloc_held(), Ok(1)));
    assert!(matches!(regs.alloc_temp(), Ok(2)));
    assert!(regs.is_reusable(2));
    assert!(!regs.is_reusable(1));
    assert!(!regs.is_reusable(9));
}

#[test]
fn temporaries_go_up_then_are_scanned_for() {
    let mut regs = RegisterTracker::new(4);
    assert!(matches!(regs.alloc_temp(), Ok(0)));
    assert!(matches!(regs.alloc_temp(), Ok(1)));
    assert!(matches!(regs.alloc_temp(), Ok(2)));
    assert!(matches!(regs.alloc_temp(), Ok(3)));
    assert!(regs.alloc_temp().is_err());
    regs.free_temp(1);
    assert!(matches!(regs.alloc_temp(), Ok(1)));
    regs.free_temp(3);
    regs.free_temp(0);
    // The scan goes on from the last register it handed out.
    assert!(matches!(regs.alloc_temp(), Ok(3)));
    assert!(matches!(regs.alloc_temp(), Ok(0)));
    assert_eq!(regs.watermark(), 3);
}

#[test]
fn freeing_held_registers_lowers_the_held_mark() {
    let mut regs = RegisterTracker::new(8);
    for _ in 0..3 {
        regs.alloc_held().ok();
    }
    regs.free_held(&[2, 1]);
    regs.clear_temp();
    assert!(matches!(regs.alloc_temp(), Ok(1)));
    assert!(matches!(regs.alloc_held(), Ok(1)));
}

// ── Names ──

#[test]
fn interning_gives_one_symbol_per_string() {
    let mut interner = Interner::new();
    let a = interner.intern("alpha");
    let b = interner.intern("beta");
    let a2 = interner.intern("alpha");
    assert_eq!(a, a2);
    assert_ne!(a, b);
    assert_eq!(interner.len(), 2);
    assert_eq!(interner.resolve(b), "beta");
}

#[test]
fn globals_get_slots_in_order() {
    let mut globals = GlobalStore::new();
    assert_eq!(globals.declare(10), 0);
    assert_eq!(globals.declare(20), 1);
    assert_eq!(globals.declare(10), 0);
    assert_eq!(globals.resolve(20), Some(1));
    assert_eq!(globals.resolve(30), None);
}

#[test]
fn lang_item_names() {
    let names = [
        ("add", LangItem::Add),
        ("sub", LangItem::Sub),
        ("mul", LangItem::Mul),
        ("div", LangItem::Div),
        ("rem", LangItem::Rem),
        ("neg", LangItem::Neg),
        ("not", LangItem::Not),
        ("eq", LangItem::Eq),
        ("neq", LangItem::Neq),
        ("lt", LangItem::Lt),
        ("gt", LangItem::Gt),
        ("le", LangItem::Le),
        ("ge", LangItem::Ge),
    ];
    for (name, item) in names {
        assert_eq!(LangItem::from_name(name), Some(item));
    }
    assert_eq!(LangItem::from_name("Add"), None);
    assert_eq!(LangItem::from_name(""), None);
}

// ── Values and the heap ──

#[test]
fn truthiness_table() {
    assert!(!Value::Nil.is_truthy());
    assert!(!Value::Bool(false).is_truthy());
    assert!(Value::Bool(true).is_truthy());
    assert!(!num(0.0).is_truthy());
    assert!(!num(-0.0).is_truthy());
    assert!(num(f64::NAN).is_truthy());
    assert!(num(0.5).is_truthy());
    assert!(!Value::String(String::new()).is_truthy());
    assert!(Value::String("s".to_string()).is_truthy());
    assert!(Value::Fn(0).is_truthy());
    assert!(Value::Struct(0).is_truthy());
}

#[test]
fn heap_keeps_what_was_stored() {
    let mut heap = Heap::new();
    let k = heap.push_struct(StructObject { def_id: 3, fields: vec![num(1.0), Value::Nil] });
    let u = heap.push_upvalue(Upvalue::Open(17));
    let obj = heap.struct_ref(k).unwrap();
    assert_eq!(obj.def_id, 3);
    assert_eq!(obj.fields, vec![num(1.0), Value::Nil]);
    assert!(matches!(heap.upvalue(u), Some(Upvalue::Open(17))));
    heap.set_struct_field(k, 1, Value::Bool(true));
    assert_eq!(heap.struct_ref(k).unwrap().fields[1], Value::Bool(true));
    heap.ensure_struct_def(3, vec!["a".to_string(), "b".to_string()]);
    assert_eq!(heap.struct_field_index(3, "b"), Some(1));
    assert_eq!(heap.struct_field_index(3, "c"), None);
    assert_eq!(heap.struct_field_index(0, "a"), None);
}

// ── Functions ──

#[test]
fn exact_overload_beats_untyped_one() {
    let mut reg = FunctionRegistry::new();
    let any = reg.register(
        FnLookupKey::Anon(1),
        FnEntry::ChunkIdx(1),
        FnTypeSig { param_types: vec![TypeId::Any] },
    );
    let number = reg.register(
        FnLookupKey::Anon(1),
        FnEntry::ChunkIdx(2),
        FnTypeSig { param_types: vec![TypeId::Number] },
    );
    let heap = Heap::new();
    assert_eq!(reg.resolve_overload(&FnLookupKey::Anon(1), &[num(2.0)], &heap), Some(number));
    assert_eq!(reg.resolve_overload(&FnLookupKey::Anon(1), &[Value::Nil], &heap), Some(any));
    assert_eq!(reg.resolve_overload(&FnLookupKey::Anon(1), &[], &heap), None);
    assert_eq!(reg.resolve_overload(&FnLookupKey::Anon(2), &[Value::Nil], &heap), None);
    assert_eq!(reg.get_id(&FnLookupKey::Anon(1)), Some(any));
}

#[test]
fn same_signature_replaces_the_overload() {
    let mut reg = FunctionRegistry::new();
    reg.register(FnLookupKey::Anon(0), FnEntry::ChunkIdx(1), FnTypeSig { param_types: vec![TypeId::Bool] });
    let second = reg.register(FnLookupKey::Anon(0), FnEntry::ChunkIdx(2), FnTypeSig { param_types: vec![TypeId::Bool] });
    assert_eq!(reg.len(), 2);
    assert_eq!(reg.get_id(&FnLookupKey::Anon(0)), Some(second));
    assert_eq!(reg.resolve_overload(&FnLookupKey::Anon(0), &[Value::Bool(true)], &Heap::new()), Some(second));
}

#[test]
fn standard_functions_are_registered() {
    let reg = FunctionRegistry::with_std();
    assert_eq!(reg.len(), 27);
    let add = reg.get_id(&FnLookupKey::LangItem(LangItem::Add)).unwrap();
    assert!(matches!(reg.get(&add), Some(FnEntry::Intrinsic(Intrinsic::Add))));
    let print = reg.get_id(&FnLookupKey::External("print".to_string())).unwrap();
    assert!(matches!(reg.get(&print), Some(FnEntry::Intrinsic(Intrinsic::Print))));
    assert_eq!(FnLookupKey::LangItem(LangItem::Neq).describe(), "lang-item(Neq)");
    assert_eq!(FnLookupKey::Anon(12).describe(), "<closure#12>");
    assert_eq!(FnLookupKey::Name(3).describe(), "<fn#Spur(4)>");
}

// ── Compiling ──

#[test]
fn every_compiled_chunk_ends_with_return() {
    let (chunks, _) = compile_program(
        "fn f(x) { if x { return 1; } } let g = fn(y) y + 1; fn h() { fn k() { return 2; } return k(); } return f(1);",
        &mut TestHost,
    )
    .unwrap();
    assert_eq!(chunks.len(), 5);
    for chunk in &chunks {
        let n = chunk.code.len();
        assert!(n >= 2);
        assert_eq!(chunk.code[n - 2], OpCode::RETURN.to_byte());
    }
}

#[test]
fn messages_name_what_was_expected() {
    match compile_err("let x = 42") {
        CompileError::Unexpected { token, diag: (span, msg) } => {
            assert_eq!(token.describe(), "EOF");
            assert_eq!(msg, "expected ;, found EOF");
            assert_eq!((span.start, span.end), (10, 10));
        }
        other => panic!("unexpected error {other:?}"),
    }
    match compile_err("struct Vec2 { x: Number, y: Number } let v = Vec2(1, 2, 3);") {
        CompileError::Unexpected { diag: (_, msg), .. } => {
            assert_eq!(msg, "struct 'Vec2' expects 2 fields, got 3");
        }
        other => panic!("unexpected error {other:?}"),
    }
    match compile_err("return y;") {
        CompileError::UndefinedVariable { name, .. } => assert_eq!(name, "y"),
        other => panic!("unexpected error {other:?}"),
    }
    match compile_err("fn f(a: Matrix) { }") {
        CompileError::Unexpected { diag: (_, msg), .. } => assert_eq!(msg, "unknown type: Matrix"),
        other => panic!("unexpected error {other:?}"),
    }
}

#[test]
fn unclosed_block_points_at_its_brace() {
    match compile_err("  { let x = 1;") {
        CompileError::Unclosed { open: (open, _), close: (close, _) } => {
            assert_eq!((open.start, open.end), (2, 3));
            assert_eq!((close.start, close.end), (14, 14));
        }
        other => panic!("unexpected error {other:?}"),
    }
}

#[test]
fn unrecognized_text_reported_at_first_token() {
    match compile_err("$") {
        CompileError::Unrecognized((span, _)) => assert_eq!((span.start, span.end), (0, 1)),
        other => panic!("unexpected error {other:?}"),
    }
    // Text that forms no token is only reported once the parser reaches it.
    assert!(matches!(compile_err("return 1 $"), CompileError::Unrecognized(_)));
    assert!(matches!(compile_err("\"open"), CompileError::Unrecognized(_)));
}

#[test]
fn comments_and_keyword_operators() {
    assert_eq!(run_program("// nothing here\nreturn 1 and 2; // trailing"), num(2.0));
    assert_eq!(run_program("return 0 or nil;"), Value::Nil);
    assert_eq!(run_program("return \"a\" == \"a\";"), Value::Bool(true));
    assert_eq!(run_program("return 2.5 * 2;"), num(5.0));
}

#[test]
fn empty_program_returns_nil() {
    assert_eq!(run_program(""), Value::Nil);
    assert_eq!(run_program(";;"), Value::Nil);
}

// ── Running ──

#[test]
fn unknown_opcode_is_an_error() {
    let mut chunk = Chunk::new();
    chunk.emit(0xEE);
    assert!(matches!(run_chunks(&[chunk]), Err(RuntimeError::InvalidOpCode { op_byte: 0xEE, .. })));
}

#[test]
fn jump_outside_the_code_is_an_error() {
    let mut chunk = Chunk::new();
    chunk.emit_opcode(OpCode::JMP);
    let (lo, hi) = sigil_interpreter::vm::chunk::i16_bytes(-100);
    chunk.emit(lo);
    chunk.emit(hi);
    assert!(matches!(run_chunks(&[chunk]), Err(RuntimeError::IpOutOfBounds { .. })));
}

#[test]
fn a_jump_outside_the_code_reports_the_offset_after_its_operands() {
    let empty = sigil_interpreter::span::Span::new(0, 0);
    for (lo, hi) in [(100u8, 0u8), (0xFF, 0xFF)] {
        let mut chunk = Chunk::new();
        chunk.emit_opcode(OpCode::JMP);
        chunk.emit(lo);
        chunk.emit(hi);
        match run_chunks(&[chunk]) {
            Err(RuntimeError::IpOutOfBounds { ip, span }) => {
                assert_eq!(ip, 3);
                assert_eq!(span, empty);
            },
            other => panic!("unexpected {:?}", other),
        }
    }
    // with a recorded locus the error carries its span; TEST jumps when falsy
    let mut chunk = Chunk::new();
    chunk.record_locus(sigil_interpreter::span::Span::new(2, 7));
    chunk.emit_opcode(OpCode::LOADNIL);
    chunk.emit(0);
    chunk.emit_opcode(OpCode::TEST);
    chunk.emit(0);
    chunk.emit(100);
    chunk.emit(0);
    match run_chunks(&[chunk]) {
        Err(RuntimeError::IpOutOfBounds { ip, span }) => {
            assert_eq!(ip, 6);
            assert_eq!(span, sigil_interpreter::span::Span::new(2, 7));
        },
        other => panic!("unexpected {:?}", other),
    }
}

#[test]
fn running_off_the_end_is_an_error() {
    let mut chunk = Chunk::new();
    chunk.emit_opcode(OpCode::LOADNIL);
    chunk.emit(0);
    assert!(matches!(run_chunks(&[chunk]), Err(RuntimeError::IpOutOfBounds { ip: 2, .. })));
    assert!(matches!(run_chunks(&[]), Err(RuntimeError::IpOutOfBounds { ip: 0, .. })));
}

#[test]
fn globals_start_as_nil() {
    let mut chunk = Chunk::new();
    chunk.emit_opcode(OpCode::GETGLB);
    chunk.emit(0);
    chunk.emit_wide(300);
    chunk.emit_opcode(OpCode::RETURN);
    chunk.emit(0);
    assert!(matches!(run_chunks(&[chunk]), Ok(Value::Nil)));
}

#[test]
fn calling_a_number_is_an_error() {
    assert!(matches!(
        run_program_err("let x = 1; return x();"),
        RuntimeError::UndefinedFunction { .. }
    ));
}

#[test]
fn operator_without_overload_names_the_operator() {
    match run_program_err("struct S { a: Number } return S(1) + S(2);") {
        RuntimeError::NoMatchingOverload { name, .. } => assert_eq!(name, "lang-item(Add)"),
        other => panic!("unexpected error {other:?}"),
    }
}

#[test]
fn closures_share_captured_variables() {
    assert_eq!(
        run_program(
            "fn make() { let n = 0; let inc = fn() { n = n + 1; return n; }; let get = fn() n; inc(); inc(); return get(); } return make();"
        ),
        num(2.0)
    );
}

#[test]
fn struct_equality_is_deep() {
    assert_eq!(
        run_program("struct P { a: Number } struct Q { p: P } return Q(P(1)) == Q(P(1));"),
        Value::Bool(true)
    );
    assert_eq!(
        run_program("struct P { a: Number } struct Q { p: P } return Q(P(1)) != Q(P(2));"),
        Value::Bool(true)
    );
}

// ── Lexing ──

use sigil_interpreter::compiler::lexer::{next_token, Token};

/// Every token of `source` with its span, up to `Eof` or the first text that forms no token.
fn lex_all(source: &str, interner: &mut Interner) -> Vec<Result<(Token, (usize, usize)), (usize, usize)>> {
    let mut out = Vec::new();
    let mut pos = 0;
    loop {
        match next_token(source, pos, interner, &mut TestHost) {
            Ok((tok, span)) => {
                out.push(Ok((tok, (span.start, span.end))));
                if matches!(tok, Token::Eof) {
                    return out;
                }
                pos = span.end;
            }
            Err(span) => {
                out.push(Err((span.start, span.end)));
                return out;
            }
        }
    }
}

#[test]
fn keywords_need_the_whole_word() {
    let mut interner = Interner::new();
    let toks = lex_all("let fnx = 12.5;", &mut interner);
    assert_eq!(toks.len(), 6);
    assert!(matches!(toks[0], Ok((Token::Let, (0, 3)))));
    match toks[1] {
        Ok((Token::Identifier(sym), (4, 7))) => assert_eq!(interner.resolve(sym), "fnx"),
        ref other => panic!("unexpected token {other:?}"),
    }
    assert!(matches!(toks[2], Ok((Token::Assign, (8, 9)))));
    match toks[3] {
        Ok((Token::Number(bits), (10, 14))) => assert_eq!(f64::from_bits(bits), 12.5),
        ref other => panic!("unexpected token {other:?}"),
    }
    assert!(matches!(toks[4], Ok((Token::Semicolon, (14, 15)))));
    assert!(matches!(toks[5], Ok((Token::Eof, (15, 15)))));
}

#[test]
fn longest_operator_and_numeral_win() {
    let mut interner = Interner::new();
    let toks = lex_all("a->b>=1.x//c\n!= &&", &mut interner);
    let kinds: Vec<_> = toks.iter().map(|t| t.clone().map(|(tok, span)| (tok.describe(), span))).collect();
    assert_eq!(
        kinds,
        vec![
            Ok(("IDENT", (0, 1))),
            Ok(("->", (1, 3))),
            Ok(("IDENT", (3, 4))),
            Ok((">=", (4, 6))),
            Ok(("NUMBER", (6, 7))),
            Ok((".", (7, 8))),
            Ok(("IDENT", (8, 9))),
            Ok(("!=", (13, 15))),
            Ok(("&&", (16, 18))),
            Ok(("EOF", (18, 18))),
        ]
    );
}

#[test]
fn string_literal_keeps_its_escapes() {
    let mut interner = Interner::new();
    let toks = lex_all(r#" "a\"b" "#, &mut interner);
    match toks[0] {
        Ok((Token::String(sym), (1, 7))) => assert_eq!(interner.resolve(sym), r#"a\"b"#),
        ref other => panic!("unexpected token {other:?}"),
    }
    assert!(matches!(toks[1], Ok((Token::Eof, (8, 8)))));
    let mut interner = Interner::new();
    assert_eq!(lex_all("\"héllo\"", &mut interner).len(), 2);
}

#[test]
fn text_that_forms_no_token() {
    let mut interner = Interner::new();
    assert_eq!(lex_all("  \"open", &mut interner), vec![Err((2, 7))]);
    assert_eq!(lex_all("\"a\\\nb\"", &mut interner), vec![Err((0, 3))]);
    assert_eq!(lex_all("x & y", &mut interner)[1], Err((2, 3)));
    assert_eq!(lex_all("#", &mut interner), vec![Err((0, 1))]);
}

#[test]
fn token_descriptions() {
    assert_eq!(Token::Arrow.describe(), "->");
    assert_eq!(Token::BooleanLit(false).describe(), "false");
    assert_eq!(Token::Identifier(3).describe(), "IDENT");
    assert_eq!(LangItem::Ge.describe(), "Ge");
    assert_eq!(FnLookupKey::External("print".to_string()).describe(), "print");
}

// ── Calls ──

#[test]
fn standard_overloads_check_argument_types() {
    let reg = FunctionRegistry::with_std();
    let heap = Heap::new();
    let add = FnLookupKey::External("add".to_string());
    assert_eq!(reg.resolve_overload(&add, &[num(1.0), num(2.0)], &heap), Some(1));
    assert_eq!(reg.resolve_overload(&add, &[num(1.0)], &heap), None);
    assert_eq!(reg.resolve_overload(&add, &[num(1.0), Value::Nil], &heap), None);
    let eq = FnLookupKey::LangItem(LangItem::Eq);
    assert_eq!(reg.resolve_overload(&eq, &[num(1.0), Value::Nil], &heap), Some(14));
    assert_eq!(reg.resolve_overload(&FnLookupKey::External("nope".to_string()), &[], &heap), None);
}

#[test]
fn call_result_lands_in_the_named_register() {
    // chunk 0: r1 = 7; CALLK r3 <- f(r1) with the callee's registers from r5 on; return r3
    let mut main = Chunk::new();
    let k = main.add_constant(num(7.0));
    main.emit_opcode(OpCode::LOADK);
    main.emit(1);
    main.emit_wide(k);
    main.emit_opcode(OpCode::CALLK);
    main.emit(3);
    main.emit_wide(0);
    main.emit(4);
    main.emit(1);
    main.emit(1);
    main.emit_opcode(OpCode::RETURN);
    main.emit(3);
    // chunk 1: return its first parameter
    let mut callee = Chunk::new();
    callee.emit_opcode(OpCode::RETURN);
    callee.emit(0);
    let mut registry = FunctionRegistry::new();
    registry.register(FnLookupKey::Name(0), FnEntry::ChunkIdx(1), FnTypeSig { param_types: vec![TypeId::Any] });
    let mut vm = VM::new();
    assert_eq!(vm.run(&[main, callee], &registry, &mut TestHost).unwrap(), num(7.0));
}

#[test]
fn call_of_an_unregistered_function_is_an_error() {
    let mut main = Chunk::new();
    main.emit_opcode(OpCode::CALLK);
    main.emit(0);
    main.emit_wide(5);
    main.emit(0);
    main.emit(0);
    assert!(matches!(run_chunks(&[main]), Err(RuntimeError::UndefinedFunction { .. })));
}

#[test]
fn new_struct_fields_read_back() {
    assert_eq!(run_program("struct P { x: Number, y: Number } let p = P(1, 2); return p.y;"), num(2.0));
    assert_eq!(run_program("struct P { x: Number } let p = P(1); p.x = 5; return p.x;"), num(5.0));
}

#[test]
fn malformed_instructions_give_their_errors() {
    // CLOSURE whose prototype constant is a number
    let mut chunk = Chunk::new();
    let k = chunk.add_constant(num(1.0));
    chunk.emit_opcode(OpCode::CLOSURE);
    chunk.emit(0);
    chunk.emit_wide(k);
    assert!(matches!(run_chunks(&[chunk]), Err(RuntimeError::UndefinedFunction { .. })));
    // CLOSURE whose prototype constant does not exist
    let mut chunk = Chunk::new();
    chunk.emit_opcode(OpCode::CLOSURE);
    chunk.emit(0);
    chunk.emit_wide(9);
    assert!(matches!(run_chunks(&[chunk]), Err(RuntimeError::InvalidOpCode { .. })));
    // NEWSTRUCT whose field name is not a string
    let mut chunk = Chunk::new();
    let k = chunk.add_constant(num(1.0));
    chunk.emit_opcode(OpCode::NEWSTRUCT);
    chunk.emit(0);
    chunk.emit_wide(0);
    chunk.emit(1);
    chunk.emit_wide(k);
    chunk.emit(1);
    assert!(matches!(run_chunks(&[chunk]), Err(RuntimeError::InvalidOpCode { .. })));
    // NEWSTRUCT cut short
    let mut chunk = Chunk::new();
    chunk.emit_opcode(OpCode::NEWSTRUCT);
    chunk.emit(0);
    chunk.emit_wide(0);
    chunk.emit(2);
    assert!(matches!(run_chunks(&[chunk]), Err(RuntimeError::IpOutOfBounds { .. })));
    // CALLK whose arguments run past the code
    let mut chunk = Chunk::new();
    chunk.emit_opcode(OpCode::CALLK);
    chunk.emit(0);
    chunk.emit_wide(0);
    chunk.emit(0);
    chunk.emit(3);
    chunk.emit(1);
    assert!(matches!(run_chunks(&[chunk]), Err(RuntimeError::IpOutOfBounds { .. })));
}

#[test]
fn call_with_wrong_argument_types_has_no_overload() {
    let mut main = Chunk::new();
    main.emit_opcode(OpCode::LOADNIL);
    main.emit(1);
    main.emit_opcode(OpCode::CALLK);
    main.emit(0);
    main.emit_wide(0);
    main.emit(2);
    main.emit(1);
    main.emit(1);
    main.emit_opcode(OpCode::RETURN);
    main.emit(0);
    let mut registry = FunctionRegistry::new();
    registry.register(FnLookupKey::Name(0), FnEntry::Intrinsic(Intrinsic::Neg), FnTypeSig { param_types: vec![TypeId::Number] });
    let mut vm = VM::new();
    assert!(matches!(vm.run(&[main], &registry, &mut TestHost), Err(RuntimeError::NoMatchingOverload { .. })));
}

#[test]
fn lone_literals_and_empty_programs_compile() {
    assert_eq!(run_expr("  true // a comment"), Value::Bool(true));
    assert_eq!(run_expr("nil"), Value::Nil);
    assert_eq!(run_expr("\n false \t"), Value::Bool(false));
    assert_eq!(run_program("// only a comment\n"), Value::Nil);
    assert_eq!(run_expr(" 4.25 "), num(4.25));
    assert_eq!(run_expr("\"hi\""), Value::String("hi".to_string()));
}

#[test]
fn word_literals_load_and_return_their_value() {
    let (chunks, _) = compile_expr(" true ", &mut TestHost).unwrap();
    let code = &chunks[0].code;
    assert_eq!(code.len(), 5);
    assert_eq!(code[0], OpCode::LOADBOOL as u8);
    assert_eq!(code[2], 1);
    assert_eq!(code[3], OpCode::RETURN as u8);
    assert_eq!(code[4], code[1]);
    let (chunks, _) = compile_expr("nil", &mut TestHost).unwrap();
    let code = &chunks[0].code;
    assert_eq!(code.len(), 4);
    assert_eq!(code[0], OpCode::LOADNIL as u8);
    assert_eq!(code[2], OpCode::RETURN as u8);
    assert_eq!(code[3], code[1]);
    let main = Chunk { code: vec![OpCode::LOADBOOL as u8, 7, 0, OpCode::RETURN as u8, 7], ..Chunk::new() };
    assert!(matches!(run_chunks(&[main]), Ok(Value::Bool(false))));
}

#[test]
fn empty_expressions_and_unlexable_starts_are_refused() {
    assert!(matches!(compile_expr("", &mut TestHost), Err(CompileError::Unexpected { .. })));
    assert!(matches!(compile_expr("  // nothing\n", &mut TestHost), Err(CompileError::Unexpected { .. })));
    assert!(matches!(compile_program("$", &mut TestHost), Err(CompileError::Unrecognized(_))));
    assert!(matches!(compile_expr(" \"open", &mut TestHost), Err(CompileError::Unrecognized(_))));
}

#[test]
fn a_name_alone_is_undefined() {
    match compile_expr("  answer // none\n", &mut TestHost) {
        Err(CompileError::UndefinedVariable { name, .. }) => assert_eq!(name, "answer"),
        _ => panic!("expected an undefined variable"),
    }
}

#[test]
fn punctuation_that_starts_nothing_is_refused() {
    assert!(matches!(compile_program(") x", &mut TestHost), Err(CompileError::Unexpected { .. })));
    assert!(matches!(compile_program("  , $", &mut TestHost), Err(CompileError::Unexpected { .. })));
    assert!(matches!(compile_expr("* 2", &mut TestHost), Err(CompileError::Unexpected { .. })));
    assert!(matches!(compile_expr(";", &mut TestHost), Err(CompileError::Unexpected { .. })));
}

#[test]
fn operators_group_by_binding_power_and_to_the_left() {
    assert_eq!(float(&run_expr("1 - 2 - 3")), -4.0);
    assert_eq!(float(&run_expr("2 - 3 * 4")), -10.0);
    assert_eq!(float(&run_expr("(1 + 2) * 3")), 9.0);
    assert_eq!(float(&run_expr("-(2 + 3) * 2")), -10.0);
    assert_eq!(float(&run_expr("8 / 2 / 2")), 2.0);
    assert_eq!(float(&run_program("return 2 * (3 + 4);")), 14.0);
}

#[test]
fn a_left_associative_chain_calls_before_loading_the_last_operand() {
    let (chunks, _) = compile_expr("1 - 2 - 3", &mut TestHost).unwrap();
    let code = &chunks[0].code;
    // LOADK 1; LOADK 2; CALLK sub; LOADK 3; CALLK sub; RETURN
    assert_eq!(code[0], OpCode::LOADK as u8);
    assert_eq!(code[4], OpCode::LOADK as u8);
    assert_eq!(code[8], OpCode::CALLK as u8);
    assert_eq!(code[16], OpCode::LOADK as u8);
    assert_eq!(code[20], OpCode::CALLK as u8);
    assert_eq!(code[28], OpCode::RETURN as u8);
}

#[test]
fn struct_literal_errors_name_the_offending_field() {
    let missing = compile_err("struct S { a: Number, b: Number, c: Number } let v = S { c: 1, a: 2 };");
    match missing {
        CompileError::MissingField { field, struct_name, .. } => {
            assert_eq!(field, "b");
            assert_eq!(struct_name, "S");
        },
        other => panic!("unexpected {:?}", other),
    }
    let duplicate = compile_err("struct S { a: Number, b: Number } let v = S { a: 1, a: 2 };");
    match duplicate {
        CompileError::Unexpected { diag, .. } => assert_eq!(diag.1, "duplicate field 'a'"),
        other => panic!("unexpected {:?}", other),
    }
    let unknown = compile_err("struct S { a: Number, b: Number } let v = S { a: 1, z: 2 };");
    match unknown {
        CompileError::Unexpected { diag, .. } => assert_eq!(diag.1, "no field 'z' in struct 'S'"),
        other => panic!("unexpected {:?}", other),
    }
}

#[test]
fn struct_literal_fields_land_in_declaration_order() {
    assert_eq!(
        run_program("struct P { x: Number, y: Number, z: Number } let p = P { z: 3, x: 1, y: 2 }; return p.x * 100 + p.y * 10 + p.z;"),
        num(123.0)
    );
}
