#![allow(dead_code)]

use sigil_interpreter::compiler::compile::{compile_expr, compile_program, CompileError};
use sigil_interpreter::functions::Intrinsic;
use sigil_interpreter::host::Host;
use sigil_interpreter::value::Value;
use sigil_interpreter::vm::exec::{RuntimeError, VM};
use sigil_interpreter::vm::heap::Heap;

/// Floating-point arithmetic for the interpreter, as an embedding program provides it.
struct TestHost;

fn num(x: f64) -> Value {
    Value::Number(x.to_bits())
}

fn float(v: &Value) -> f64 {
    f64::from_bits(v.as_num())
}

impl Host for TestHost {
    fn number_bits(&mut self, numeral: &str) -> u64 {
        numeral.parse::<f64>().unwrap_or(f64::NAN).to_bits()
    }

    fn call_intrinsic(&mut self, intrinsic: Intrinsic, args: &[Value], _heap: &Heap) -> Value {
        let a = args.first().map(float).unwrap_or(0.0);
        let b = args.get(1).map(float).unwrap_or(0.0);
        match intrinsic {
            Intrinsic::Add => num(a + b),
            Intrinsic::Sub => num(a - b),
            Intrinsic::Mul => num(a * b),
            Intrinsic::Div => num(a / b),
            Intrinsic::Rem => num(a % b),
            Intrinsic::Neg => num(-a),
            Intrinsic::Lt => Value::Bool(a < b),
            Intrinsic::Le => Value::Bool(a <= b),
            Intrinsic::Gt => Value::Bool(a > b),
            Intrinsic::Ge => Value::Bool(a >= b),
            _ => Value::Nil,
        }
    }
}

fn run_program(source: &str) -> Value {
    let mut host = TestHost;
    let (chunks, funcs) = compile_program(source, &mut host).unwrap();
    let mut vm = VM::new();
    vm.run(&chunks, &funcs, &mut host).unwrap()
}

fn run_expr(source: &str) -> Value {
    let mut host = TestHost;
    let (chunks, funcs) = compile_expr(source, &mut host).unwrap();
    let mut vm = VM::new();
    vm.run(&chunks, &funcs, &mut host).unwrap()
}

fn run_program_err(source: &str) -> RuntimeError {
    let mut host = TestHost;
    let (chunks, funcs) = compile_program(source, &mut host).unwrap();
    let mut vm = VM::new();
    vm.run(&chunks, &funcs, &mut host).unwrap_err()
}

fn compile_err(source: &str) -> CompileError {
    compile_program(source, &mut TestHost).unwrap_err()
}

fn compile_expr_err(source: &str) -> CompileError {
    compile_expr(source, &mut TestHost).unwrap_err()
}

// ── let errors ──

#[test]
fn test_let_undefined_var() {
    let err = compile_err("let y = x;");
    assert!(matches!(err, CompileError::UndefinedVariable { .. }));
}

#[test]
fn test_let_missing_identifier() {
    let err = compile_err("let = 42;");
    assert!(matches!(err, CompileError::Unexpected { .. }));
}

#[test]
fn test_let_missing_equals() {
    let err = compile_err("let x 42;");
    assert!(matches!(err, CompileError::Unexpected { .. }));
}

#[test]
fn test_let_missing_semicolon() {
    let err = compile_err("let x = 42");
    assert!(matches!(err, CompileError::Unexpected { .. }));
}

// ── expression statement errors ──

#[test]
fn test_expr_stmt_missing_semicolon() {
    let err = compile_err("42");
    assert!(matches!(err, CompileError::Unexpected { .. }));
}

#[test]
fn test_expr_stmt_undefined_var() {
    let err = compile_err("x;");
    assert!(matches!(err, CompileError::UndefinedVariable { .. }));
}

// ── return errors ──

#[test]
fn test_return_missing_semicolon() {
    let err = compile_err("return 42");
    assert!(matches!(err, CompileError::Unexpected { .. }));
}

// ── block errors ──

#[test]
fn test_block_out_of_scope() {
    let err = compile_err(r"let x = 1; { let y = 2; } let z = 3; return x + y + z;");
    assert!(matches!(err, CompileError::UndefinedVariable { .. }));
}

#[test]
fn test_block_unclosed() {
    let err = compile_err(r"{ let x = 42;");
    assert!(matches!(err, CompileError::Unclosed { .. }));
}

// ── if errors ──

#[test]
fn test_if_body_scope_does_not_leak() {
    let err = compile_err(r"if 1 { let x = 42; } return x;");
    assert!(matches!(err, CompileError::UndefinedVariable { .. }));
}

#[test]
fn test_if_missing_condition() {
    let err = compile_err(r"if { return 1; }");
    assert!(matches!(err, CompileError::Unexpected { .. }));
}

#[test]
fn test_if_missing_block() {
    let err = compile_err(r"if 1 return 1;");
    assert!(matches!(err, CompileError::Unexpected { .. }));
}

// ── while errors ──

#[test]
fn test_while_body_scope_does_not_leak() {
    let err = compile_err(r"let i = 0; while i < 10 { let x = 42; } return x;");
    assert!(matches!(err, CompileError::UndefinedVariable { .. }));
}

#[test]
fn test_while_missing_condition() {
    let err = compile_err(r"while { return 1; }");
    assert!(matches!(err, CompileError::Unexpected { .. }));
}

#[test]
fn test_while_missing_block() {
    let err = compile_err(r"while 1 return 1;");
    assert!(matches!(err, CompileError::Unexpected { .. }));
}

// ── assignment errors ──

#[test]
fn test_assignment_to_undefined_var() {
    let err = compile_err(r"x = 1;");
    println!("{:?}", err);
    assert!(matches!(err, CompileError::UndefinedVariable { .. }));
}

#[test]
fn test_assignment_to_undefined_var_in_block() {
    let err = compile_err(r"{ x = 1; }");
    assert!(matches!(err, CompileError::UndefinedVariable { .. }));
}

// ── break errors ──

#[test]
fn test_break_outside_loop() {
    let err = compile_err(r"break;");
    assert!(matches!(err, CompileError::Unexpected { .. }));
}

#[test]
fn test_break_outside_loop_in_block() {
    let err = compile_err(r"{ break; }");
    assert!(matches!(err, CompileError::Unexpected { .. }));
}

// ── continue errors ──

#[test]
fn test_continue_outside_loop() {
    let err = compile_err(r"continue;");
    assert!(matches!(err, CompileError::Unexpected { .. }));
}

#[test]
fn test_continue_outside_loop_in_block() {
    let err = compile_err(r"{ continue; }");
    assert!(matches!(err, CompileError::Unexpected { .. }));
}
