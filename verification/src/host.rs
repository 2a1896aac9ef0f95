use vstd::prelude::*;

use crate::functions::Intrinsic;
use crate::value::Value;
use crate::vm::heap::Heap;

verus! {

/// What the embedding program provides: the floating-point work the library
/// leaves to it, and the intrinsic functions it defines.
///
/// The library states nothing of what these methods return: the compiler and
/// the virtual machine are verified for every answer.
pub trait Host {
    /// The bit pattern of the double nearest to a numeral `[0-9]+(.[0-9]+)?`
    /// (as `str::parse::<f64>` gives it).
    fn number_bits(&mut self, numeral: &str) -> u64;

    /// Runs `intrinsic` on `args`. The library runs `Not`, `Eq` and `Neq`
    /// itself; every other intrinsic comes here.
    fn call_intrinsic(&mut self, intrinsic: Intrinsic, args: &[Value], heap: &Heap) -> Value;
}

} // verus!
