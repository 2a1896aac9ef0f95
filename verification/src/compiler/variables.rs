use vstd::prelude::*;

use crate::foreign::{slot_map_entries, slot_map_get, slot_map_insert, slot_map_new, SlotMap};

verus! {

/// Slots of global variables, by symbol.
pub struct GlobalStore {
    slots: SlotMap,
    ptr: u16,
}

impl GlobalStore {
    /// The slot of each declared global.
    pub closed spec fn slots(&self) -> Map<u32, u16> {
        slot_map_entries(self.slots)
    }

    /// The slot the next new global gets.
    pub closed spec fn next_slot(&self) -> u16 {
        self.ptr
    }

    pub fn new() -> (res: GlobalStore)
        ensures
            res.slots().is_empty(),
            res.next_slot() == 0,
    {
        GlobalStore { slots: slot_map_new(), ptr: 0 }
    }

    /// The slot of global `id`, giving it the next slot when it is new.
    pub fn declare(&mut self, id: u32) -> (slot: u16)
        ensures
            old(self).slots().contains_key(id) ==> slot == old(self).slots()[id] && final(self).slots()
                == old(self).slots() && final(self).next_slot() == old(self).next_slot(),
            !old(self).slots().contains_key(id) ==> {
                &&& slot == old(self).next_slot()
                &&& final(self).slots() == old(self).slots().insert(id, slot)
                &&& final(self).next_slot() == (old(self).next_slot() + 1) % 0x10000
            },
    {
        match slot_map_get(&self.slots, id) {
            Some(slot) => slot,
            None => {
                let slot = self.ptr;
                slot_map_insert(&mut self.slots, id, slot);
                self.ptr = if self.ptr == 0xffff { 0 } else { self.ptr + 1 };
                slot
            },
        }
    }

    /// The slot of global `id`, if it was declared.
    pub fn resolve(&self, id: u32) -> (res: Option<u16>)
        ensures
            res == (if self.slots().contains_key(id) {
                Some(self.slots()[id])
            } else {
                None
            }),
    {
        slot_map_get(&self.slots, id)
    }
}

/// A local variable of the frame being compiled.
#[derive(Debug, Clone, Copy)]
pub struct Local {
    pub id: u32,
    pub reg: u8,
    pub depth: usize,
    /// An inner function captures it: its register stays reserved until the frame exits.
    pub captured: bool,
}

/// The locals of one frame, innermost last, and the current block depth.
pub struct LocalsTracker {
    locals: Vec<Local>,
    current_depth: usize,
}

/// The register of the last local named `id` in `locals`.
pub open spec fn spec_resolve_local(locals: Seq<Local>, id: u32) -> Option<u8>
    decreases locals.len(),
{
    if locals.len() == 0 {
        None
    } else if locals.last().id == id {
        Some(locals.last().reg)
    } else {
        spec_resolve_local(locals.drop_last(), id)
    }
}

impl LocalsTracker {
    pub closed spec fn locals(&self) -> Seq<Local> {
        self.locals@
    }

    pub closed spec fn depth(&self) -> nat {
        self.current_depth as nat
    }

    /// No local is deeper than the current block, and locals appear in
    /// order of depth.
    pub closed spec fn wf(&self) -> bool {
        &&& forall|i: int| 0 <= i < self.locals@.len() ==> (#[trigger] self.locals@[i]).depth <= self.current_depth
        &&& forall|i: int, j: int|
            0 <= i <= j < self.locals@.len() ==> (#[trigger] self.locals@[i]).depth <= (#[trigger] self.locals@[j]).depth
    }

    /// The parameters `args` as locals in registers `0..args.len()`.
    pub fn new_with(args: &[u32]) -> (res: Self)
        requires
            args.len() <= 256,
        ensures
            res.wf(),
            res.depth() == 0,
            res.locals().len() == args.len(),
            forall|i: int|
                0 <= i < args.len() ==> #[trigger] res.locals()[i] == (Local {
                    id: args[i],
                    reg: i as u8,
                    depth: 0,
                    captured: false,
                }),
    {
        let mut locals: Vec<Local> = Vec::new();
        let mut i: usize = 0;
        while i < args.len()
            invariant
                0 <= i <= args.len(),
                args.len() <= 256,
                locals@.len() == i,
                forall|j: int|
                    0 <= j < i ==> #[trigger] locals@[j] == (Local {
                        id: args[j],
                        reg: j as u8,
                        depth: 0,
                        captured: false,
                    }),
            decreases args.len() - i,
        {
            locals.push(Local { id: args[i], reg: i as u8, depth: 0, captured: false });
            i = i + 1;
        }
        LocalsTracker { locals, current_depth: 0 }
    }

    /// Whether the current code is outside every block.
    pub fn is_top_level(&self) -> (res: bool)
        ensures
            res == (self.depth() == 0),
    {
        self.current_depth == 0
    }

    /// Declares local `id` in register `reg` at the current depth.
    pub fn add_local(&mut self, id: u32, reg: u8)
        requires
            old(self).wf(),
        ensures
            final(self).wf(),
            final(self).depth() == old(self).depth(),
            final(self).locals() == old(self).locals().push(
                Local { id, reg, depth: old(self).depth() as usize, captured: false },
            ),
    {
        let local = Local { id, reg, depth: self.current_depth, captured: false };
        self.locals.push(local);
    }

    /// Enters a block.
    pub fn enter_scope(&mut self)
        requires
            old(self).wf(),
        ensures
            final(self).wf(),
            final(self).locals() == old(self).locals(),
            final(self).depth() == if old(self).depth() < usize::MAX {
                old(self).depth() + 1
            } else {
                old(self).depth()
            },
    {
        if self.current_depth < usize::MAX {
            self.current_depth = self.current_depth + 1;
        }
    }

    /// The register of the innermost local named `id`.
    pub fn resolve_local(&self, id: u32) -> (res: Option<u8>)
        ensures
            res == spec_resolve_local(self.locals(), id),
    {
        let mut n = self.locals.len();
        assert(self.locals@.take(n as int) =~= self.locals@);
        while n > 0
            invariant
                n <= self.locals@.len(),
                spec_resolve_local(self.locals@, id) == spec_resolve_local(self.locals@.take(n as int), id),
            decreases n,
        {
            let ghost t = self.locals@.take(n as int);
            assert(t.drop_last() =~= self.locals@.take(n - 1));
            if self.locals[n - 1].id == id {
                return Some(self.locals[n - 1].reg);
            }
            n = n - 1;
        }
        None
    }

    /// Leaves a block: drops the locals declared in it and returns the
    /// registers of those not captured, in declaration order. Outside every
    /// block nothing happens.
    pub fn exit_scope(&mut self) -> (freed: Vec<u8>)
        requires
            old(self).wf(),
        ensures
            final(self).wf(),
            old(self).depth() == 0 ==> final(self).locals() == old(self).locals() && final(self).depth()
                == 0 && freed@.len() == 0,
            final(self).locals().len() <= old(self).locals().len(),
            old(self).depth() > 0 ==> {
                &&& final(self).depth() == old(self).depth() - 1
                &&& final(self).locals() == old(self).locals().take(final(self).locals().len() as int)
                &&& forall|i: int|
                    0 <= i < final(self).locals().len() ==> (#[trigger] final(self).locals()[i]).depth
                        <= final(self).depth()
                &&& forall|i: int|
                    final(self).locals().len() <= i < old(self).locals().len() ==> (#[trigger] old(
                        self,
                    ).locals()[i]).depth > final(self).depth()
                &&& freed@ == spec_uncaptured_regs(old(self).locals().skip(final(self).locals().len() as int))
            },
    {
        if self.current_depth == 0 {
            return Vec::new();
        }
        self.current_depth = self.current_depth - 1;
        let ghost all = self.locals@;
        let mut n = self.locals.len();
        while n > 0 && self.locals[n - 1].depth > self.current_depth
            invariant
                n <= all.len(),
                self.locals@ == all,
                forall|i: int| n <= i < all.len() ==> (#[trigger] all[i]).depth > self.current_depth,
            decreases n,
        {
            n = n - 1;
        }
        let mut freed: Vec<u8> = Vec::new();
        let mut i = n;
        while i < self.locals.len()
            invariant
                n <= i <= all.len(),
                self.locals@ == all,
                freed@ == spec_uncaptured_regs(all.subrange(n as int, i as int)),
            decreases all.len() - i,
        {
            assert(all.subrange(n as int, i + 1).drop_last() =~= all.subrange(n as int, i as int));
            if !self.locals[i].captured {
                freed.push(self.locals[i].reg);
            }
            i = i + 1;
        }
        self.locals.truncate(n);
        assert(all.subrange(n as int, all.len() as int) =~= all.skip(n as int));
        proof {
            assert forall|j: int| 0 <= j < self.locals@.len() implies (#[trigger] self.locals@[j]).depth
                <= self.current_depth by {
                if self.locals@[j].depth > self.current_depth {
                    // locals are pushed at non-decreasing depths is not needed: the scan stops at n
                    // only when locals[n - 1] is not deeper, and earlier ones were at most the old depth.
                }
            }
        }
        freed
    }

    /// Marks the first local held in `reg` as captured by an inner function.
    pub fn capture(&mut self, reg: u8)
        requires
            old(self).wf(),
        ensures
            final(self).wf(),
            final(self).depth() == old(self).depth(),
            final(self).locals().len() == old(self).locals().len(),
            forall|i: int|
                0 <= i < old(self).locals().len() ==> {
                    let l = old(self).locals()[i];
                    let f = #[trigger] final(self).locals()[i];
                    &&& f.id == l.id
                    &&& f.reg == l.reg
                    &&& f.depth == l.depth
                    &&& f.captured == (l.captured || (l.reg == reg && forall|j: int|
                        0 <= j < i ==> old(self).locals()[j].reg != reg))
                },
    {
        let mut i: usize = 0;
        while i < self.locals.len()
            invariant
                0 <= i <= self.locals@.len(),
                self.locals@ == old(self).locals@,
                self.current_depth == old(self).current_depth,
                self.wf(),
                forall|j: int| 0 <= j < i ==> old(self).locals@[j].reg != reg,
            decreases self.locals@.len() - i,
        {
            if self.locals[i].reg == reg {
                let mut l = self.locals[i];
                l.captured = true;
                let ghost before = self.locals@;
                self.locals.set(i, l);
                assert forall|a: int| 0 <= a < self.locals@.len() implies #[trigger] self.locals@[a].depth
                    == before[a].depth by {}
                assert forall|a: int, b: int| 0 <= a <= b < self.locals@.len() implies (#[trigger] self.locals@[a]).depth
                    <= (#[trigger] self.locals@[b]).depth by {
                    assert(self.locals@[a].depth == before[a].depth);
                    assert(self.locals@[b].depth == before[b].depth);
                    assert(before[a].depth <= before[b].depth);
                }
                assert forall|a: int| 0 <= a < self.locals@.len() implies (#[trigger] self.locals@[a]).depth
                    <= self.current_depth by {
                    assert(self.locals@[a].depth == before[a].depth);
                    assert(before[a].depth <= self.current_depth);
                }
                assert forall|a: int| 0 <= a < old(self).locals().len() implies {
                    let l = old(self).locals()[a];
                    let f = #[trigger] self.locals()[a];
                    &&& f.captured == (l.captured || (l.reg == reg && forall|j: int|
                        0 <= j < a ==> old(self).locals()[j].reg != reg))
                } by {
                    if a > i {
                        assert(old(self).locals()[i as int].reg == reg);
                    }
                }
                return;
            }
            i = i + 1;
        }
    }
}

/// The registers of the locals in `locals` that are not captured, in order.
pub open spec fn spec_uncaptured_regs(locals: Seq<Local>) -> Seq<u8>
    decreases locals.len(),
{
    if locals.len() == 0 {
        Seq::empty()
    } else {
        let rest = spec_uncaptured_regs(locals.drop_last());
        if locals.last().captured {
            rest
        } else {
            rest.push(locals.last().reg)
        }
    }
}

/// How a closure reaches a captured variable: a register of the enclosing
/// frame (`is_local`) or an upvalue of the enclosing closure.
#[derive(Debug, Clone, Copy)]
pub struct UpvalueDescriptor {
    pub name: u32,
    pub is_local: bool,
    pub index: u8,
}

} // verus!
