#![allow(dead_code)]

use sigil_interpreter::compiler::compile::{compile_expr, compile_program, CompileError};
use sigil_interpreter::functions::Intrinsic;
use sigil_interpreter::host::Host;
use sigil_interpreter::value::Value;
use sigil_interpreter::vm::exec::{RuntimeError, VM};
use sigil_interpreter::vm::heap::Heap;

/// Floating-point arithmetic for the interpreter, as an embedding program provides it.
struct TestHost;

fn num(x: f64) -> Value {
    Value::Number(x.to_bits())
}

fn float(v: &Value) -> f64 {
    f64::from_bits(v.as_num())
}

impl Host for TestHost {
    fn number_bits(&mut self, numeral: &str) -> u64 {
        numeral.parse::<f64>().unwrap_or(f64::NAN).to_bits()
    }

    fn call_intrinsic(&mut self, intrinsic: Intrinsic, args: &[Value], _heap: &Heap) -> Value {
        let a = args.first().map(float).unwrap_or(0.0);
        let b = args.get(1).map(float).unwrap_or(0.0);
        match intrinsic {
            Intrinsic::Add => num(a + b),
            Intrinsic::Sub => num(a - b),
            Intrinsic::Mul => num(a * b),
            Intrinsic::Div => num(a / b),
            Intrinsic::Rem => num(a % b),
            Intrinsic::Neg => num(-a),
            Intrinsic::Lt => Value::Bool(a < b),
            Intrinsic::Le => Value::Bool(a <= b),
            Intrinsic::Gt => Value::Bool(a > b),
            Intrinsic::Ge => Value::Bool(a >= b),
            _ => Value::Nil,
        }
    }
}

fn run_program(source: &str) -> Value {
    let mut host = TestHost;
    let (chunks, funcs) = compile_program(source, &mut host).unwrap();
    let mut vm = VM::new();
    vm.run(&chunks, &funcs, &mut host).unwrap()
}

fn run_expr(source: &str) -> Value {
    let mut host = TestHost;
    let (chunks, funcs) = compile_expr(source, &mut host).unwrap();
    let mut vm = VM::new();
    vm.run(&chunks, &funcs, &mut host).unwrap()
}

fn run_program_err(source: &str) -> RuntimeError {
    let mut host = TestHost;
    let (chunks, funcs) = compile_program(source, &mut host).unwrap();
    let mut vm = VM::new();
    vm.run(&chunks, &funcs, &mut host).unwrap_err()
}

fn compile_err(source: &str) -> CompileError {
    compile_program(source, &mut TestHost).unwrap_err()
}

fn compile_expr_err(source: &str) -> CompileError {
    compile_expr(source, &mut TestHost).unwrap_err()
}

use sigil_interpreter::compiler::compile::compile_program_with;
use sigil_interpreter::functions::{FnEntry, FnLookupKey, FnTypeSig, FunctionRegistry};
use sigil_interpreter::types::TypeId;

/// A host that also provides two custom intrinsics: `Host(0)` adds its two
/// arguments, `Host(1)` multiplies its argument by 100.
struct CustomHost;

impl Host for CustomHost {
    fn number_bits(&mut self, numeral: &str) -> u64 {
        TestHost.number_bits(numeral)
    }

    fn call_intrinsic(&mut self, intrinsic: Intrinsic, args: &[Value], heap: &Heap) -> Value {
        match intrinsic {
            Intrinsic::Host(0) => num(float(&args[0]) + float(&args[1])),
            Intrinsic::Host(1) => num(float(&args[0]) * 100.0),
            other => TestHost.call_intrinsic(other, args, heap),
        }
    }
}

/// A registry holding only the given host intrinsics, by external name.
fn custom_registry(entries: &[(&str, u32, Vec<TypeId>)]) -> FunctionRegistry {
    let mut reg = FunctionRegistry::default();
    for (name, id, types) in entries {
        reg.register(
            FnLookupKey::External(name.to_string()),
            FnEntry::Intrinsic(Intrinsic::Host(*id)),
            FnTypeSig { param_types: types.clone() },
        );
    }
    reg
}

fn run_with(source: &str, reg: FunctionRegistry) -> Value {
    let mut host = CustomHost;
    let (chunks, funcs) = compile_program_with(source, reg, &mut host).unwrap();
    let mut vm = VM::default();
    vm.run(&chunks, &funcs, &mut host).unwrap()
}

// ── @intrinsic tests (powered by built-in std intrinsics) ──

#[test]
fn test_intrinsic_call() {
    assert_eq!(
        run_program("@intrinsic fn add(a, b); return add(1, 2);"),
        num(3.0)
    );
}

#[test]
fn test_intrinsic_unary() {
    assert_eq!(
        run_program("@intrinsic fn neg(x); return neg(42);"),
        num(-42.0)
    );
}

#[test]
fn test_intrinsic_expression() {
    assert_eq!(
        run_program(
            "@intrinsic fn add(a, b); @intrinsic fn mul(a, b); return mul(add(2, 3), 4);"
        ),
        num(20.0)
    );
}

#[test]
fn test_intrinsic_chained() {
    assert_eq!(
        run_program(
            "@intrinsic fn sub(a, b); @intrinsic fn neg(x); return sub(neg(5), 3);"
        ),
        num(-8.0)
    );
}

#[test]
fn test_intrinsic_undefined() {
    let err = compile_err("@intrinsic fn nonexistent(x);");
    assert!(matches!(err, CompileError::UndefinedFunction { .. }));
}

#[test]
fn test_intrinsic_missing_semicolon() {
    let err = compile_err("@intrinsic fn add(a, b) { }");
    assert!(matches!(err, CompileError::Unexpected { .. }));
}

// ── @lang_item tests ──

#[test]
fn test_lang_item_call_by_name() {
    assert_eq!(
        run_program(r"@lang_item(neg) fn negate(x) { return 0 - x; } return negate(5);"),
        num(-5.0)
    );
}

#[test]
fn test_lang_item_overrides_operator() {
    // -10 calls LangItem::Neg, which now calls negate (returns 0 - x)
    assert_eq!(
        run_program(r"@lang_item(neg) fn negate(x) { return 0 - x; } return -10;"),
        num(-10.0)
    );
}

#[test]
fn test_lang_item_add_override() {
    // + now calls plus (same Number signature overwrites built-in)
    assert_eq!(
        run_program(r"@lang_item(add) fn plus(a: Number, b: Number) { return a - b; } return 1 + 2;"),
        num(-1.0)
    );
}

#[test]
fn test_lang_item_and_call_by_name() {
    assert_eq!(
        run_program(
            r"@lang_item(add) fn plus(a, b) { return a - b; } return plus(10, 3);"
        ),
        num(7.0)
    );
}

// ── combined modifiers ──

#[test]
fn test_lang_item_with_intrinsic() {
    // @intrinsic means lookup by name, @lang_item registers alias
    assert_eq!(
        run_program("@lang_item(neg) @intrinsic fn neg(x); return -42;"),
        num(-42.0)
    );
}

#[test]
fn test_intrinsic_only_does_not_register_lang_item() {
    // @intrinsic without @lang_item should NOT affect operators
    let reg = custom_registry(&[("my_add", 0, vec![TypeId::Any, TypeId::Any])]);
    assert_eq!(
        run_with("@intrinsic fn my_add(a, b); return my_add(5, 7);", reg),
        num(12.0)
    );
}

// ── error cases ──

#[test]
fn test_lang_item_unknown_name() {
    let err = compile_err("@lang_item(blah) fn foo() { }");
    assert!(matches!(err, CompileError::Unexpected { .. }));
}

#[test]
fn test_unknown_modifier() {
    let err = compile_err("@nonsense fn foo() { }");
    assert!(matches!(err, CompileError::Unexpected { .. }));
}

#[test]
fn test_intrinsic_custom_name() {
    let reg = custom_registry(&[("make_big", 1, vec![TypeId::Any])]);
    assert_eq!(
        run_with("@intrinsic fn make_big(x); return make_big(5);", reg),
        num(500.0)
    );
}
