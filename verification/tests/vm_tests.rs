use sigil_interpreter::functions::{FunctionRegistry, Intrinsic};
use sigil_interpreter::host::Host;
use sigil_interpreter::opcode::OpCode;
use sigil_interpreter::value::Value;
use sigil_interpreter::vm::chunk::Chunk;
use sigil_interpreter::vm::exec::VM;
use sigil_interpreter::vm::heap::Heap;

/// Hand-assembled chunks call no intrinsic and hold no numeral.
struct NoHost;

impl Host for NoHost {
    fn number_bits(&mut self, _numeral: &str) -> u64 {
        0
    }

    fn call_intrinsic(&mut self, _intrinsic: Intrinsic, _args: &[Value], _heap: &Heap) -> Value {
        Value::Nil
    }
}

fn num(x: f64) -> Value {
    Value::Number(x.to_bits())
}

fn run_chunk(chunk: Chunk) -> Value {
    let registry = FunctionRegistry::new();
    let mut vm = VM::new();
    vm.run(&[chunk], &registry, &mut NoHost).unwrap()
}

#[test]
fn test_loadk_and_move() {
    let mut chunk = Chunk::new();

    // LOADK R0, 42
    let k42 = chunk.add_constant(num(42.0));
    chunk.emit_opcode(OpCode::LOADK);
    chunk.emit(0); // dst R0
    chunk.emit_wide(k42);

    // LOADK R1, 10
    let k10 = chunk.add_constant(num(10.0));
    chunk.emit_opcode(OpCode::LOADK);
    chunk.emit(1); // dst R1
    chunk.emit_wide(k10);

    // MOVE R2, R0
    chunk.emit_opcode(OpCode::MOVE);
    chunk.emit(2); // dst R2
    chunk.emit(0); // src R0

    // RETURN R2, 1
    chunk.emit_opcode(OpCode::RETURN);
    chunk.emit(2); // first_reg
    chunk.emit(1); // count

    assert_eq!(run_chunk(chunk), num(42.0));
}

#[test]
fn test_bool_and_nil() {
    let mut chunk = Chunk::new();

    chunk.emit_opcode(OpCode::LOADBOOL);
    chunk.emit(0);
    chunk.emit(1);

    chunk.emit_opcode(OpCode::LOADNIL);
    chunk.emit(1);

    chunk.emit_opcode(OpCode::RETURN);
    chunk.emit(0);
    chunk.emit(1);

    assert_eq!(run_chunk(chunk), Value::Bool(true));
}

#[test]
fn test_jmp() {
    let mut chunk = Chunk::new();

    chunk.emit_opcode(OpCode::JMP);
    chunk.emit_wide(4u16);

    // Skipped:
    let k99 = chunk.add_constant(num(99.0));
    chunk.emit_opcode(OpCode::LOADK);
    chunk.emit(0);
    chunk.emit_wide(k99);

    // Runs:
    let k10 = chunk.add_constant(num(10.0));
    chunk.emit_opcode(OpCode::LOADK);
    chunk.emit(1);
    chunk.emit_wide(k10);

    chunk.emit_opcode(OpCode::RETURN);
    chunk.emit(1);
    chunk.emit(1);

    assert_eq!(run_chunk(chunk), num(10.0), "JMP should skip over LOADK R0, 99");
}

#[test]
fn test_test_true() {
    let mut chunk = Chunk::new();

    chunk.emit_opcode(OpCode::LOADBOOL);
    chunk.emit(0);
    chunk.emit(1);

    chunk.emit_opcode(OpCode::TEST);
    chunk.emit(0);
    chunk.emit_wide(4u16);

    let k99 = chunk.add_constant(num(99.0));
    chunk.emit_opcode(OpCode::LOADK);
    chunk.emit(1);
    chunk.emit_wide(k99);

    chunk.emit_opcode(OpCode::RETURN);
    chunk.emit(1);
    chunk.emit(1);

    assert_eq!(run_chunk(chunk), num(99.0), "TEST with true: should execute LOADK 99");
}

#[test]
fn test_test_false() {
    let mut chunk = Chunk::new();

    chunk.emit_opcode(OpCode::LOADBOOL);
    chunk.emit(0);
    chunk.emit(0);

    chunk.emit_opcode(OpCode::TEST);
    chunk.emit(0);
    chunk.emit_wide(4u16);

    // Skipped:
    let k99 = chunk.add_constant(num(99.0));
    chunk.emit_opcode(OpCode::LOADK);
    chunk.emit(1);
    chunk.emit_wide(k99);

    // Runs:
    let k10 = chunk.add_constant(num(10.0));
    chunk.emit_opcode(OpCode::LOADK);
    chunk.emit(2);
    chunk.emit_wide(k10);

    chunk.emit_opcode(OpCode::RETURN);
    chunk.emit(2);
    chunk.emit(1);

    assert_eq!(run_chunk(chunk), num(10.0), "TEST with false: should skip LOADK 99, return 10");
}
