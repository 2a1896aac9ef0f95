use vstd::prelude::*;

use lasso::Rodeo;

use crate::foreign::{rodeo_get_or_intern, rodeo_new, rodeo_resolve, rodeo_strings};

verus! {

/// A string interner: each distinct string gets a symbol, the index at which
/// it was first interned.
pub struct Interner {
    rodeo: Rodeo,
}

impl View for Interner {
    type V = Seq<Seq<char>>;

    closed spec fn view(&self) -> Seq<Seq<char>> {
        rodeo_strings(self.rodeo)
    }
}

impl Interner {
    /// No string is held twice.
    pub closed spec fn wf(&self) -> bool {
        forall|i: int, j: int| 0 <= i < j < self@.len() ==> self@[i] != self@[j]
    }

    pub fn new() -> (res: Interner)
        ensures
            res.wf(),
            res@ == Seq::<Seq<char>>::empty(),
    {
        Interner { rodeo: rodeo_new() }
    }

    /// The symbol of `s`, interning it first when it is new.
    pub fn intern(&mut self, s: &str) -> (sym: u32)
        requires
            old(self).wf(),
            old(self)@.len() + 1 < u32::MAX,
        ensures
            final(self).wf(),
            sym < final(self)@.len(),
            final(self)@[sym as int] == s@,
            old(self)@.contains(s@) ==> final(self)@ == old(self)@,
            !old(self)@.contains(s@) ==> final(self)@ == old(self)@.push(s@),
    {
        let sym = rodeo_get_or_intern(&mut self.rodeo, s);
        proof {
            if !old(self)@.contains(s@) {
                assert forall|i: int, j: int| 0 <= i < j < self@.len() implies self@[i]
                    != self@[j] by {
                    if j == old(self)@.len() {
                        assert(self@[i] == old(self)@[i]);
                    }
                }
            }
        }
        sym
    }

    /// Number of distinct strings held.
    pub fn len(&self) -> (res: usize)
        ensures
            res == self@.len(),
    {
        crate::foreign::rodeo_len(&self.rodeo)
    }

    /// The string of symbol `sym`.
    pub fn resolve(&self, sym: u32) -> (s: &str)
        requires
            sym < self@.len(),
        ensures
            s@ == self@[sym as int],
    {
        rodeo_resolve(&self.rodeo, sym)
    }
}

/// Two symbols of an interner are equal exactly when their strings are.
pub proof fn lemma_symbols_injective(i: &Interner, a: u32, b: u32)
    requires
        i.wf(),
        a < i@.len(),
        b < i@.len(),
    ensures
        (a == b) <==> (i@[a as int] == i@[b as int]),
{
    if a < b {
        assert(i@[a as int] != i@[b as int]);
    } else if b < a {
        assert(i@[b as int] != i@[a as int]);
    }
}

} // verus!
