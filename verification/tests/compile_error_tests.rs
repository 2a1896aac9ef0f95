#![allow(dead_code)]

use sigil_interpreter::compiler::compile::{compile_expr, compile_program, CompileError};
use sigil_interpreter::functions::Intrinsic;
use sigil_interpreter::host::Host;
use sigil_interpreter::value::Value;
use sigil_interpreter::vm::exec::{RuntimeError, VM};
use sigil_interpreter::vm::heap::Heap;

/// Floating-point arithmetic for the interpreter, as an embedding program provides it.
struct TestHost;

fn num(x: f64) -> Value {
    Value::Number(x.to_bits())
}

fn float(v: &Value) -> f64 {
    f64::from_bits(v.as_num())
}

impl Host for TestHost {
    fn number_bits(&mut self, numeral: &str) -> u64 {
        numeral.parse::<f64>().unwrap_or(f64::NAN).to_bits()
    }

    fn call_intrinsic(&mut self, intrinsic: Intrinsic, args: &[Value], _heap: &Heap) -> Value {
        let a = args.first().map(float).unwrap_or(0.0);
        let b = args.get(1).map(float).unwrap_or(0.0);
        match intrinsic {
            Intrinsic::Add => num(a + b),
            Intrinsic::Sub => num(a - b),
            Intrinsic::Mul => num(a * b),
            Intrinsic::Div => num(a / b),
            Intrinsic::Rem => num(a % b),
            Intrinsic::Neg => num(-a),
            Intrinsic::Lt => Value::Bool(a < b),
            Intrinsic::Le => Value::Bool(a <= b),
            Intrinsic::Gt => Value::Bool(a > b),
            Intrinsic::Ge => Value::Bool(a >= b),
            _ => Value::Nil,
        }
    }
}

fn run_program(source: &str) -> Value {
    let mut host = TestHost;
    let (chunks, funcs) = compile_program(source, &mut host).unwrap();
    let mut vm = VM::new();
    vm.run(&chunks, &funcs, &mut host).unwrap()
}

fn run_expr(source: &str) -> Value {
    let mut host = TestHost;
    let (chunks, funcs) = compile_expr(source, &mut host).unwrap();
    let mut vm = VM::new();
    vm.run(&chunks, &funcs, &mut host).unwrap()
}

fn run_program_err(source: &str) -> RuntimeError {
    let mut host = TestHost;
    let (chunks, funcs) = compile_program(source, &mut host).unwrap();
    let mut vm = VM::new();
    vm.run(&chunks, &funcs, &mut host).unwrap_err()
}

fn compile_err(source: &str) -> CompileError {
    compile_program(source, &mut TestHost).unwrap_err()
}

fn compile_expr_err(source: &str) -> CompileError {
    compile_expr(source, &mut TestHost).unwrap_err()
}

#[test]
fn compile_error_tests_test_leading_operator() {
    let err = compile_expr_err("+");
    assert!(matches!(err, CompileError::Unexpected { .. }));
}

#[test]
fn compile_error_tests_test_leading_star() {
    let err = compile_expr_err("* 5");
    assert!(matches!(err, CompileError::Unexpected { .. }));
}

#[test]
fn compile_error_tests_test_trailing_operator() {
    let err = compile_expr_err("1 +");
    assert!(matches!(err, CompileError::Unexpected { .. }));
}

#[test]
fn compile_error_tests_test_trailing_operator_with_ws() {
    let err = compile_expr_err("1 + 2 *");
    assert!(matches!(err, CompileError::Unexpected { .. }));
}

#[test]
fn compile_error_tests_test_double_operator() {
    let err = compile_expr_err("1 * * 2");
    assert!(matches!(err, CompileError::Unexpected { .. }));
}

#[test]
fn compile_error_tests_test_unclosed_paren() {
    let err = compile_expr_err("(1 + 2");
    assert!(matches!(err, CompileError::Unclosed { .. }));
}

#[test]
fn compile_error_tests_test_nested_unclosed_paren() {
    let err = compile_expr_err("(1 + (2 + 3)");
    assert!(matches!(err, CompileError::Unclosed { .. }));
}

#[test]
fn compile_error_tests_test_stray_close_paren() {
    let err = compile_expr_err(")");
    assert!(matches!(err, CompileError::Unexpected { .. }));
}

#[test]
fn compile_error_tests_test_empty_paren() {
    let err = compile_expr_err("()");
    assert!(matches!(err, CompileError::Unexpected { .. }));
}

#[test]
fn compile_error_tests_test_empty_input() {
    // Bare EOF — advance() reads it, then expression() fails.
    let err = compile_expr_err("");
    assert!(matches!(err, CompileError::Unexpected { .. }));
}

#[test]
fn compile_error_tests_test_leading_unary_then_eof() {
    let err = compile_expr_err("!");
    assert!(matches!(err, CompileError::Unexpected { .. }));
}

#[test]
fn compile_error_tests_test_bang_on_number_is_ok() {
    // `!5` should work: negate 5 via `not` lang item
    assert!(compile_expr("!5", &mut TestHost).is_ok());
}

#[test]
fn compile_error_tests_test_negate_happy() {
    assert!(compile_expr("-5", &mut TestHost).is_ok());
    assert!(compile_expr("- 5", &mut TestHost).is_ok());
}

#[test]
fn compile_error_tests_test_binary_without_rhs_paren() {
    // `(1 + )` — missing rhs inside paren
    let err = compile_expr_err("(1 + )");
    assert!(matches!(err, CompileError::Unexpected { .. }));
}

#[test]
fn compile_error_tests_test_unrecognized() {
    let err = compile_expr_err("1 ` 2");
    assert!(matches!(err, CompileError::Unrecognized { .. }));
}
