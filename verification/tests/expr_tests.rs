#![allow(dead_code)]

use sigil_interpreter::compiler::compile::{compile_expr, compile_program, CompileError};
use sigil_interpreter::functions::Intrinsic;
use sigil_interpreter::host::Host;
use sigil_interpreter::value::Value;
use sigil_interpreter::vm::exec::{RuntimeError, VM};
use sigil_interpreter::vm::heap::Heap;

/// Floating-point arithmetic for the interpreter, as an embedding program provides it.
struct TestHost;

fn num(x: f64) -> Value {
    Value::Number(x.to_bits())
}

fn float(v: &Value) -> f64 {
    f64::from_bits(v.as_num())
}

impl Host for TestHost {
    fn number_bits(&mut self, numeral: &str) -> u64 {
        numeral.parse::<f64>().unwrap_or(f64::NAN).to_bits()
    }

    fn call_intrinsic(&mut self, intrinsic: Intrinsic, args: &[Value], _heap: &Heap) -> Value {
        let a = args.first().map(float).unwrap_or(0.0);
        let b = args.get(1).map(float).unwrap_or(0.0);
        match intrinsic {
            Intrinsic::Add => num(a + b),
            Intrinsic::Sub => num(a - b),
            Intrinsic::Mul => num(a * b),
            Intrinsic::Div => num(a / b),
            Intrinsic::Rem => num(a % b),
            Intrinsic::Neg => num(-a),
            Intrinsic::Lt => Value::Bool(a < b),
            Intrinsic::Le => Value::Bool(a <= b),
            Intrinsic::Gt => Value::Bool(a > b),
            Intrinsic::Ge => Value::Bool(a >= b),
            _ => Value::Nil,
        }
    }
}

fn run_program(source: &str) -> Value {
    let mut host = TestHost;
    let (chunks, funcs) = compile_program(source, &mut host).unwrap();
    let mut vm = VM::new();
    vm.run(&chunks, &funcs, &mut host).unwrap()
}

fn run_expr(source: &str) -> Value {
    let mut host = TestHost;
    let (chunks, funcs) = compile_expr(source, &mut host).unwrap();
    let mut vm = VM::new();
    vm.run(&chunks, &funcs, &mut host).unwrap()
}

fn run_program_err(source: &str) -> RuntimeError {
    let mut host = TestHost;
    let (chunks, funcs) = compile_program(source, &mut host).unwrap();
    let mut vm = VM::new();
    vm.run(&chunks, &funcs, &mut host).unwrap_err()
}

fn compile_err(source: &str) -> CompileError {
    compile_program(source, &mut TestHost).unwrap_err()
}

fn compile_expr_err(source: &str) -> CompileError {
    compile_expr(source, &mut TestHost).unwrap_err()
}

#[test]
fn test_simple_add() {
    assert_eq!(run_expr("1 + 2"), num(3.0));
}

#[test]
fn test_precedence() {
    assert_eq!(run_expr("2 * 3 + 1"), num(7.0));
    assert_eq!(run_expr("1 + 2 * 3"), num(7.0));
}

#[test]
fn test_grouping() {
    assert_eq!(run_expr("(1 + 2) * 3"), num(9.0));
}

#[test]
fn test_unary_neg() {
    assert_eq!(run_expr("-5"), num(-5.0));
    assert_eq!(run_expr("-(1 + 2)"), num(-3.0));
    assert_eq!(run_expr("-1 + 2"), num(1.0));
}

#[test]
fn test_nested_ops() {
    assert_eq!(run_expr("1 + 2 + 3"), num(6.0));
    assert_eq!(run_expr("1 + 2 * 3 - 4 / 2"), num(5.0));
}

#[test]
fn test_deep_nested_ops() {
    let mut source = (0..=50).map(|_| "0 + 0 * (").collect::<Vec<_>>().join("");
    let source2 = (0..=50).map(|_| ")").collect::<Vec<_>>().join("");
    source.push_str("0");
    source.push_str(&source2);
    assert_eq!(run_expr(&source), num(0.0));
}

#[test]
fn test_number_literal() {
    assert_eq!(run_expr("42"), num(42.0));
    assert_eq!(run_expr("3.14"), num(3.14));
}

#[test]
fn test_literals() {
    assert_eq!(run_expr("true"), Value::Bool(true));
    assert_eq!(run_expr("false"), Value::Bool(false));
    assert_eq!(run_expr("nil"), Value::Nil);
}

#[test]
fn test_string_literal() {
    assert_eq!(run_expr("\"hello\""), Value::String("hello".into()));
}

#[test]
fn test_register_reuse_long_chain() {
    let source = (1..=500)
        .map(|i| i.to_string())
        .collect::<Vec<_>>()
        .join(" + ");
    assert_eq!(run_expr(&source), num(125250.0));
}

#[test]
fn test_ternary_true() {
    assert_eq!(run_expr("4 >= 3 ? 1 : 2"), num(1.0));
}

#[test]
fn test_ternary_false() {
    assert_eq!(run_expr("3 >= 4 ? 1 : 2"), num(2.0));
}

#[test]
fn test_ternary_right_assoc() {
    assert_eq!(run_expr("4 >= 3 ? 2 >= 1 ? 5 : 6 : 7"), num(5.0));
    assert_eq!(run_expr("3 >= 4 ? 2 >= 1 ? 5 : 6 : 7"), num(7.0));
    assert_eq!(run_expr("4 >= 3 ? 5 : 2 >= 1 ? 6 : 7"), num(5.0));
    assert_eq!(run_expr("3 >= 4 ? 5 : 2 >= 1 ? 6 : 7"), num(6.0));
}

#[test]
fn expr_tests_test_nested_ternary() {
    let mut source = (1..=254)
        .map(|_| "1 >= 2 ? 1 : ")
        .collect::<Vec<_>>()
        .join("");
    source.push_str("2");
    assert_eq!(run_expr(&source), num(2.0));
}

// ── and (&) ──

#[test]
fn test_and_truthtable() {
    assert_eq!(run_expr("1 && 1"), num(1.0));
    assert_eq!(run_expr("1 && 0"), num(0.0));
    assert_eq!(run_expr("0 && 1"), num(0.0));
    assert_eq!(run_expr("0 && 0"), num(0.0));
}

#[test]
fn test_and_returns_rhs_when_lhs_truthy() {
    assert_eq!(run_expr("1 && 2"), num(2.0));
    assert_eq!(run_expr("2 && 1"), num(1.0));
}

#[test]
fn test_and_returns_lhs_when_lhs_falsey() {
    assert_eq!(run_expr("0 && 2"), num(0.0));
}

#[test]
fn test_and_left_assoc() {
    // (1 && 2) && 3 → 2 && 3 → 3
    assert_eq!(run_expr("1 && 2 && 3"), num(3.0));
    // (1 && 0) && 2 → 0 && 2 → 0
    assert_eq!(run_expr("1 && 0 && 2"), num(0.0));
}

#[test]
fn test_and_with_nil() {
    assert_eq!(run_expr("nil && 1"), Value::Nil);
    assert_eq!(run_expr("1 && nil"), Value::Nil);
}

#[test]
fn test_and_with_bools() {
    assert_eq!(run_expr("false && false"), Value::Bool(false));
    assert_eq!(run_expr("true && false"), Value::Bool(false));
    assert_eq!(run_expr("false && true"), Value::Bool(false));
    assert_eq!(run_expr("true && true"), Value::Bool(true));
}

// ── or (|) ──

#[test]
fn test_or_truthtable() {
    assert_eq!(run_expr("1 || 1"), num(1.0));
    assert_eq!(run_expr("1 || 0"), num(1.0));
    assert_eq!(run_expr("0 || 1"), num(1.0));
    assert_eq!(run_expr("0 || 0"), num(0.0));
}

#[test]
fn test_or_returns_lhs_when_lhs_truthy() {
    assert_eq!(run_expr("1 || 2"), num(1.0));
    assert_eq!(run_expr("2 || 1"), num(2.0));
}

#[test]
fn test_or_returns_rhs_when_lhs_falsey() {
    assert_eq!(run_expr("0 || 2"), num(2.0));
}

#[test]
fn test_or_left_assoc() {
    // (0 || 1) || 2 → 1 || 2 → 1
    assert_eq!(run_expr("0 || 1 || 2"), num(1.0));
    // (0 || 0) || 2 → 0 || 2 → 2
    assert_eq!(run_expr("0 || 0 || 2"), num(2.0));
}

#[test]
fn test_or_with_nil() {
    assert_eq!(run_expr("nil || 1"), num(1.0));
    assert_eq!(run_expr("1 || nil"), num(1.0));
    assert_eq!(run_expr("nil || nil"), Value::Nil);
}

#[test]
fn test_or_with_bools() {
    assert_eq!(run_expr("true || false"), Value::Bool(true));
    assert_eq!(run_expr("false || true"), Value::Bool(true));
    assert_eq!(run_expr("false || false"), Value::Bool(false));
}

// ── and / or precedence ──

#[test]
fn test_and_binds_tighter_than_or() {
    // 0 || 1 && 2  →  0 || (1 && 2)  →  0 || 2  →  2
    assert_eq!(run_expr("0 || 1 && 2"), num(2.0));
    // 1 || 0 && 2  →  1 || (0 && 2)  →  1 || 0  →  1
    assert_eq!(run_expr("1 || 0 && 2"), num(1.0));
}

#[test]
fn test_and_or_chain() {
    // (1 && 2) || (3 && 0) || (0 && 5) || 6  →  2 || 0 || 0 || 6  →  2
    assert_eq!(run_expr("1 && 2 || 3 && 0 || 0 && 5 || 6"), num(2.0));
}

#[test]
fn test_and_or_long_chain() {
    let source = (1..=100)
        .map(|i| format!("{} && {}", i, i))
        .collect::<Vec<_>>()
        .join(" || ");
    // all are non-zero && non-zero = last value of each pair
    // || of all last values = first non-zero (which is 1)
    assert_eq!(run_expr(&source), num(1.0));
}
