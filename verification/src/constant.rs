use vstd::prelude::*;

use crate::value::{spec_value_eq, Value, ValueModel};

verus! {

/// A pool of constants in which each value occurs once.
#[derive(Debug)]
pub struct ConstantPool {
    vec: Vec<Value>,
}

/// The index of the first entry of `pool` equal to `v`, if any.
pub open spec fn spec_find(pool: Seq<ValueModel>, v: ValueModel) -> Option<int> {
    if exists|i: int| 0 <= i < pool.len() && spec_value_eq(pool[i], v) {
        Some(choose|i: int| 0 <= i < pool.len() && spec_value_eq(pool[i], v))
    } else {
        None
    }
}

/// `spec_value_eq` is an equivalence relation.
pub proof fn lemma_value_eq_equivalence(a: ValueModel, b: ValueModel, c: ValueModel)
    ensures
        spec_value_eq(a, a),
        spec_value_eq(a, b) ==> spec_value_eq(b, a),
        spec_value_eq(a, b) && spec_value_eq(b, c) ==> spec_value_eq(a, c),
{
}

impl View for ConstantPool {
    type V = Seq<ValueModel>;

    closed spec fn view(&self) -> Seq<ValueModel> {
        self.vec@.map_values(|v: Value| v@)
    }
}

impl ConstantPool {
    /// No two entries of the pool are equal.
    pub closed spec fn wf(&self) -> bool {
        forall|i: int, j: int|
            0 <= i < j < self@.len() ==> !spec_value_eq(#[trigger] self@[i], #[trigger] self@[j])
    }

    pub fn new() -> (res: Self)
        ensures
            res.wf(),
            res@ == Seq::<ValueModel>::empty(),
    {
        ConstantPool { vec: Vec::new() }
    }

    pub fn len(&self) -> (res: usize)
        ensures
            res == self@.len(),
    {
        self.vec.len()
    }

    /// Adds `value` unless an equal value is already there, and returns the
    /// index of the entry equal to it (reduced modulo 2^16, the width of a
    /// constant operand).
    pub fn intern(&mut self, value: Value) -> (idx: u16)
        requires
            old(self).wf(),
        ensures
            final(self).wf(),
            match spec_find(old(self)@, value@) {
                Some(i) => final(self)@ == old(self)@ && idx == i % 0x10000,
                None => final(self)@ == old(self)@.push(value@) && idx == old(self)@.len()
                    % 0x10000,
            },
    {
        let n = self.vec.len();
        let mut i: usize = 0;
        while i < n
            invariant
                n == self.vec.len(),
                0 <= i <= n,
                self.wf(),
                self@ == old(self)@,
                forall|j: int| 0 <= j < i ==> !spec_value_eq(#[trigger] self@[j], value@),
            decreases n - i,
        {
            assert(self@[i as int] == self.vec[i as int]@);
            if self.vec[i] == value {
                proof {
                    let k = choose|k: int| 0 <= k < self@.len() && spec_value_eq(self@[k], value@);
                    if k != i {
                        assert(k > i);
                        lemma_value_eq_equivalence(self@[i as int], value@, self@[k]);
                    }
                }
                return (i % 0x10000) as u16;
            }
            i = i + 1;
        }
        let idx = (n % 0x10000) as u16;
        let ghost old_view = self@;
        self.vec.push(value);
        proof {
            assert(self@ =~= old_view.push(value@));
            assert forall|a: int, b: int| 0 <= a < b < self@.len() implies !spec_value_eq(
                #[trigger] self@[a],
                #[trigger] self@[b],
            ) by {
                if b == n {
                    lemma_value_eq_equivalence(self@[a], value@, value@);
                    if spec_value_eq(self@[a], self@[b]) {
                        assert(!spec_value_eq(old_view[a], value@));
                    }
                }
            }
        }
        idx
    }

    /// The constant at `idx`.
    pub fn get(&self, idx: u16) -> (res: &Value)
        requires
            idx < self@.len(),
        ensures
            res@ == self@[idx as int],
    {
        &self.vec[idx as usize]
    }
}

} // verus!
