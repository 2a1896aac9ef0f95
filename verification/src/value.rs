use vstd::prelude::*;
use vstd::std_specs::cmp::PartialEqSpecImpl;

verus! {

/// Bit pattern of an IEEE-754 double with every bit but the sign bit set.
pub const MAGNITUDE_MASK: u64 = 0x7fff_ffff_ffff_ffffu64;

/// A runtime value of the language.
///
/// Numbers are IEEE-754 doubles; the library holds them by their bit pattern,
/// so that it can compare, hash and test them exactly without floating point.
#[derive(Debug)]
pub enum Value {
    Nil,
    Bool(bool),
    /// An IEEE-754 double, held by its bit pattern (`f64::to_bits`).
    Number(u64),
    String(String),
    /// A plain function without captured upvalues.
    Fn(usize),
    /// A closure: a function with captured upvalues (keys into the heap's upvalue pool).
    Closure { fn_id: usize, upvalues: Vec<u16> },
    /// Function prototype stored in the constant pool; `CLOSURE` turns it into a closure.
    FnProto { fn_id: usize, upvalue_count: u16 },
    /// A struct instance, by its key in the heap.
    Struct(u16),
}

/// The mathematical picture of a [`Value`].
pub enum ValueModel {
    Nil,
    Bool(bool),
    Number(u64),
    Str(Seq<char>),
    Fn(usize),
    Closure(usize, Seq<u16>),
    FnProto(usize, u16),
    Struct(u16),
}

impl View for Value {
    type V = ValueModel;

    open spec fn view(&self) -> ValueModel {
        match self {
            Value::Nil => ValueModel::Nil,
            Value::Bool(b) => ValueModel::Bool(*b),
            Value::Number(n) => ValueModel::Number(*n),
            Value::String(s) => ValueModel::Str(s@),
            Value::Fn(f) => ValueModel::Fn(*f),
            Value::Closure { fn_id, upvalues } => ValueModel::Closure(*fn_id, upvalues@),
            Value::FnProto { fn_id, upvalue_count } => ValueModel::FnProto(*fn_id, *upvalue_count),
            Value::Struct(k) => ValueModel::Struct(*k),
        }
    }
}

/// Truthiness: `nil` and `false` are false, a number is false exactly when it is
/// plus or minus zero (NaN is true), a string is false exactly when it is empty,
/// and every function, closure, prototype and struct is true.
pub open spec fn spec_truthy(v: ValueModel) -> bool {
    match v {
        ValueModel::Nil => false,
        ValueModel::Bool(b) => b,
        ValueModel::Number(bits) => bits & MAGNITUDE_MASK != 0,
        ValueModel::Str(s) => s.len() > 0,
        _ => true,
    }
}

/// Shallow equality of two values: numbers compare by bit pattern, closures by
/// function id alone, structs by heap key.
pub open spec fn spec_value_eq(a: ValueModel, b: ValueModel) -> bool {
    match (a, b) {
        (ValueModel::Nil, ValueModel::Nil) => true,
        (ValueModel::Bool(x), ValueModel::Bool(y)) => x == y,
        (ValueModel::Number(x), ValueModel::Number(y)) => x == y,
        (ValueModel::Str(x), ValueModel::Str(y)) => x == y,
        (ValueModel::Fn(x), ValueModel::Fn(y)) => x == y,
        (ValueModel::Closure(x, _), ValueModel::Closure(y, _)) => x == y,
        (ValueModel::FnProto(x, xc), ValueModel::FnProto(y, yc)) => x == y && xc == yc,
        (ValueModel::Struct(x), ValueModel::Struct(y)) => x == y,
        _ => false,
    }
}

impl Clone for Value {
    fn clone(&self) -> (res: Self)
        ensures
            res@ == self@,
    {
        match self {
            Value::Nil => Value::Nil,
            Value::Bool(b) => Value::Bool(*b),
            Value::Number(n) => Value::Number(*n),
            Value::String(s) => Value::String(s.clone()),
            Value::Fn(f) => Value::Fn(*f),
            Value::Closure { fn_id, upvalues } => {
                let u = upvalues.clone();
                assert(u@ =~= upvalues@);
                Value::Closure { fn_id: *fn_id, upvalues: u }
            },
            Value::FnProto { fn_id, upvalue_count } => Value::FnProto {
                fn_id: *fn_id,
                upvalue_count: *upvalue_count,
            },
            Value::Struct(k) => Value::Struct(*k),
        }
    }
}

impl PartialEq for Value {
    fn eq(&self, other: &Self) -> (res: bool) {
        match self {
            Value::Nil => match other {
                Value::Nil => true,
                _ => false,
            },
            Value::Bool(a) => match other {
                Value::Bool(b) => *a == *b,
                _ => false,
            },
            Value::Number(a) => match other {
                Value::Number(b) => *a == *b,
                _ => false,
            },
            Value::String(a) => match other {
                Value::String(b) => *a == *b,
                _ => false,
            },
            Value::Fn(a) => match other {
                Value::Fn(b) => *a == *b,
                _ => false,
            },
            Value::Closure { fn_id: a, .. } => match other {
                Value::Closure { fn_id: b, .. } => *a == *b,
                _ => false,
            },
            Value::FnProto { fn_id: a, upvalue_count: ac } => match other {
                Value::FnProto { fn_id: b, upvalue_count: bc } => *a == *b && *ac == *bc,
                _ => false,
            },
            Value::Struct(a) => match other {
                Value::Struct(b) => *a == *b,
                _ => false,
            },
        }
    }
}

impl PartialEqSpecImpl for Value {
    open spec fn obeys_eq_spec() -> bool {
        true
    }

    open spec fn eq_spec(&self, other: &Self) -> bool {
        spec_value_eq(self@, other@)
    }
}

impl Value {
    /// Whether the value counts as true in a condition.
    pub fn is_truthy(&self) -> (res: bool)
        ensures
            res == spec_truthy(self@),
    {
        match self {
            Value::Nil => false,
            Value::Bool(b) => *b,
            Value::Number(bits) => *bits & MAGNITUDE_MASK != 0,
            Value::String(s) => !s.as_str().is_empty(),
            Value::Fn(_) => true,
            Value::Closure { .. } => true,
            Value::FnProto { .. } => true,
            Value::Struct(_) => true,
        }
    }

    /// The bit pattern of the number this value holds, or that of `0.0` for any
    /// other value.
    pub fn as_num(&self) -> (res: u64)
        ensures
            res == (match self@ {
                ValueModel::Number(bits) => bits,
                _ => 0u64,
            }),
    {
        match self {
            Value::Number(bits) => *bits,
            _ => 0,
        }
    }
}

} // verus!
