use vstd::prelude::*;

use super::label::Label;

verus! {

/// The labels of one enclosing loop.
#[derive(Debug, Clone, Copy)]
pub struct LoopLabels {
    pub break_label: Label,
    pub continue_label: Label,
}

/// The loops enclosing the code being compiled, innermost last.
pub struct LoopTracker {
    contexts: Vec<LoopLabels>,
}

impl View for LoopTracker {
    type V = Seq<LoopLabels>;

    closed spec fn view(&self) -> Seq<LoopLabels> {
        self.contexts@
    }
}

impl LoopTracker {
    pub fn new() -> (res: Self)
        ensures
            res@ == Seq::<LoopLabels>::empty(),
    {
        LoopTracker { contexts: Vec::new() }
    }

    /// Enters a loop whose `break` goes to `break_label` and whose `continue`
    /// goes to `continue_label`.
    pub fn push_loop(&mut self, break_label: Label, continue_label: Label)
        ensures
            final(self)@ == old(self)@.push(LoopLabels { break_label, continue_label }),
    {
        self.contexts.push(LoopLabels { break_label, continue_label });
    }

    /// Whether some loop encloses the current code.
    pub fn in_loop(&self) -> (res: bool)
        ensures
            res == (self@.len() > 0),
    {
        self.contexts.len() > 0
    }

    /// Leaves the innermost loop.
    pub fn pop_loop(&mut self)
        requires
            old(self)@.len() > 0,
        ensures
            final(self)@ == old(self)@.drop_last(),
    {
        self.contexts.pop();
    }

    /// Where `break` goes in the innermost loop.
    pub fn break_label(&self) -> (res: Label)
        requires
            self@.len() > 0,
        ensures
            res == self@.last().break_label,
    {
        self.contexts[self.contexts.len() - 1].break_label
    }

    /// Where `continue` goes in the innermost loop.
    pub fn continue_label(&self) -> (res: Label)
        requires
            self@.len() > 0,
        ensures
            res == self@.last().continue_label,
    {
        self.contexts[self.contexts.len() - 1].continue_label
    }
}

/// The loop stack after entering (`Some`) and leaving (`None`) loops in turn,
/// starting from `s`.
pub open spec fn after_loops(s: Seq<LoopLabels>, ops: Seq<Option<LoopLabels>>) -> Seq<LoopLabels>
    decreases ops.len(),
{
    if ops.len() == 0 {
        s
    } else {
        let t = after_loops(s, ops.drop_last());
        match ops.last() {
            Some(l) => t.push(l),
            None => t.drop_last(),
        }
    }
}

/// How many of `ops` enter a loop.
pub open spec fn entered(ops: Seq<Option<LoopLabels>>) -> int
    decreases ops.len(),
{
    if ops.len() == 0 {
        0
    } else {
        entered(ops.drop_last()) + if ops.last() is Some { 1int } else { 0int }
    }
}

/// No step of `ops` leaves a loop when none is entered.
pub open spec fn balanced_ops(s: Seq<LoopLabels>, ops: Seq<Option<LoopLabels>>) -> bool {
    forall|k: int| 0 <= k < ops.len() && #[trigger] ops[k] is None ==> after_loops(s, ops.take(k)).len() > 0
}

/// From an empty loop stack, the code is inside a loop (`in_loop`) exactly
/// when more loops were entered than left.
pub proof fn lemma_in_loop_counts(ops: Seq<Option<LoopLabels>>)
    requires
        balanced_ops(Seq::empty(), ops),
    ensures
        after_loops(Seq::empty(), ops).len() == entered(ops) - (ops.len() - entered(ops)),
        (after_loops(Seq::empty(), ops).len() > 0) == (entered(ops) > ops.len() - entered(ops)),
    decreases ops.len(),
{
    if ops.len() > 0 {
        let init = ops.drop_last();
        assert forall|k: int| 0 <= k < init.len() && #[trigger] init[k] is None implies after_loops(Seq::empty(), init.take(k)).len() > 0 by {
            assert(ops[k] is None);
            assert(ops.take(k) =~= init.take(k));
        }
        lemma_in_loop_counts(init);
        if ops.last() is None {
            let k = ops.len() - 1;
            assert(ops[k] is None);
            assert(ops.take(k) =~= init);
        }
    }
}

/// Entering a loop and leaving it again restores the loop stack.
pub proof fn lemma_push_pop_loop(before: Seq<LoopLabels>, l: LoopLabels)
    ensures
        before.push(l).drop_last() == before,
        before.push(l).last() == l,
{
    assert(before.push(l).drop_last() =~= before);
}

} // verus!
