use vstd::prelude::*;

use crate::vm::chunk::{i16_bytes, spec_hi, spec_i16_bits, spec_lo, Chunk};

verus! {

/// A jump target inside one chunk.
#[derive(Debug, Clone, Copy, PartialEq, Eq)]
pub struct Label(pub usize);

/// The kind of instruction that refers to a label: `JMP` keeps its offset at
/// bytes 1..3 of the instruction, `TEST` at bytes 2..4.
#[derive(Debug, Clone, Copy, PartialEq, Eq, Structural)]
pub enum RefKind {
    Jmp,
    Test,
}

pub enum LabelState {
    /// Not placed yet: the instructions (offset, kind) waiting for its position.
    Pending(Vec<(usize, RefKind)>),
    /// Placed at this code offset.
    Placed(usize),
}

pub enum LabelModel {
    Pending(Seq<(usize, RefKind)>),
    Placed(usize),
}

impl View for LabelState {
    type V = LabelModel;

    open spec fn view(&self) -> LabelModel {
        match self {
            LabelState::Pending(refs) => LabelModel::Pending(refs@),
            LabelState::Placed(ip) => LabelModel::Placed(*ip),
        }
    }
}

/// Whether the offset operand of a `kind` instruction at `ip` lies inside `len` bytes.
pub open spec fn spec_ref_fits(ip: int, kind: RefKind, len: int) -> bool {
    match kind {
        RefKind::Jmp => ip + 3 <= len,
        RefKind::Test => ip + 4 <= len,
    }
}

/// The code after patching one instruction at `ip` to jump to `target`: a
/// `JMP` gets the offset `target - ip` (kept to 16 bits, as a signed offset
/// wraps), a `TEST` only when the target does not lie before it. An
/// instruction whose operand would lie outside the code is left as it is.
pub open spec fn spec_patch_one(code: Seq<u8>, ip: int, kind: RefKind, target: int) -> Seq<u8> {
    if !spec_ref_fits(ip, kind, code.len() as int) {
        code
    } else {
        match kind {
            RefKind::Jmp => {
                let bits = spec_i16_bits(target - ip);
                code.update(ip + 1, spec_lo(bits)).update(ip + 2, spec_hi(bits))
            },
            RefKind::Test => if ip > target {
                code
            } else {
                let bits = spec_i16_bits(target - ip);
                code.update(ip + 2, spec_lo(bits)).update(ip + 3, spec_hi(bits))
            },
        }
    }
}

/// The code after patching each of `refs`, in order, to jump to `target`.
pub open spec fn spec_patch_all(code: Seq<u8>, refs: Seq<(usize, RefKind)>, target: int) -> Seq<u8>
    decreases refs.len(),
{
    if refs.len() == 0 {
        code
    } else {
        spec_patch_one(
            spec_patch_all(code, refs.drop_last(), target),
            refs.last().0 as int,
            refs.last().1,
            target,
        )
    }
}

/// Patching never changes the length of the code.
pub proof fn lemma_patch_all_len(code: Seq<u8>, refs: Seq<(usize, RefKind)>, target: int)
    ensures
        spec_patch_all(code, refs, target).len() == code.len(),
    decreases refs.len(),
{
    if refs.len() > 0 {
        lemma_patch_all_len(code, refs.drop_last(), target);
    }
}

/// The labels after resolving each `(label, offset)` of `steps` in turn, as
/// `resolve` does: a label beyond the list leaves it as it is.
pub open spec fn after_resolves(s: Seq<LabelModel>, steps: Seq<(usize, usize)>) -> Seq<LabelModel>
    decreases steps.len(),
{
    if steps.len() == 0 {
        s
    } else {
        let t = after_resolves(s, steps.drop_last());
        let (l, ip) = steps.last();
        if l < t.len() {
            t.update(l as int, LabelModel::Placed(ip))
        } else {
            t
        }
    }
}

/// A label that some step resolves is placed at the offset of the last
/// such step; resolving never changes how many labels there are.
pub proof fn lemma_latest_resolve_wins(s: Seq<LabelModel>, steps: Seq<(usize, usize)>, l: usize, last: int)
    requires
        l < s.len(),
        0 <= last < steps.len(),
        steps[last].0 == l,
        forall|k: int| last < k < steps.len() ==> #[trigger] steps[k].0 != l,
    ensures
        after_resolves(s, steps).len() == s.len(),
        after_resolves(s, steps)[l as int] == LabelModel::Placed(steps[last].1),
    decreases steps.len(),
{
    lemma_resolves_len(s, steps);
    if last < steps.len() - 1 {
        let init = steps.drop_last();
        assert forall|k: int| last < k < init.len() implies #[trigger] init[k].0 != l by {
            assert(init[k] == steps[k]);
        }
        lemma_latest_resolve_wins(s, init, l, last);
        assert(steps.last() == steps[steps.len() - 1]);
    } else {
        lemma_resolves_len(s, steps.drop_last());
    }
}

/// Resolving keeps the number of labels.
pub proof fn lemma_resolves_len(s: Seq<LabelModel>, steps: Seq<(usize, usize)>)
    ensures
        after_resolves(s, steps).len() == s.len(),
    decreases steps.len(),
{
    if steps.len() > 0 {
        lemma_resolves_len(s, steps.drop_last());
    }
}

/// The offset written for a jump from `ip` to `target` has the bits of
/// `target - ip`.
proof fn lemma_offset_bits(ip: int, target: int, offset: int)
    requires
        0 <= ip,
        0 <= target,
        ip <= target ==> offset == (target - ip) % 0x10000,
        ip > target ==> offset == 0x10000 - (ip - target) % 0x10000,
    ensures
        spec_i16_bits(offset) == spec_i16_bits(target - ip),
{
    if ip > target {
        assert((0x10000 - (ip - target) % 0x10000) % 0x10000 == (target - ip) % 0x10000) by (nonlinear_arith)
            requires
                ip > target,
        ;
    }
}

/// A copy of a list of label references.
fn copy_refs(v: &Vec<(usize, RefKind)>) -> (res: Vec<(usize, RefKind)>)
    ensures
        res@ == v@,
{
    let mut res: Vec<(usize, RefKind)> = Vec::new();
    let mut i: usize = 0;
    while i < v.len()
        invariant
            0 <= i <= v.len(),
            res@ == v@.subrange(0, i as int),
        decreases v.len() - i,
    {
        res.push(v[i]);
        i = i + 1;
    }
    res
}

/// The labels of one chunk.
pub struct LabelTracker {
    labels: Vec<LabelState>,
}

impl View for LabelTracker {
    type V = Seq<LabelModel>;

    closed spec fn view(&self) -> Seq<LabelModel> {
        self.labels@.map_values(|l: LabelState| l@)
    }
}

impl LabelTracker {
    pub fn new() -> (res: LabelTracker)
        ensures
            res@ == Seq::<LabelModel>::empty(),
    {
        let res = LabelTracker { labels: Vec::new() };
        assert(res@ =~= Seq::<LabelModel>::empty());
        res
    }

    /// A new, not yet placed label.
    pub fn alloc_label(&mut self) -> (label: Label)
        ensures
            label.0 == old(self)@.len(),
            final(self)@ == old(self)@.push(LabelModel::Pending(Seq::empty())),
    {
        let id = self.labels.len();
        let ghost before = self@;
        let refs: Vec<(usize, RefKind)> = Vec::new();
        self.labels.push(LabelState::Pending(refs));
        assert(self@ =~= before.push(LabelModel::Pending(Seq::empty())));
        Label(id)
    }

    /// Records that the instruction at `ip` must jump to `label` once it is
    /// placed; the label exists and is not placed yet.
    pub fn add_ref(&mut self, label: Label, ip: usize, kind: RefKind)
        requires
            label.0 < old(self)@.len(),
            old(self)@[label.0 as int] is Pending,
        ensures
            final(self)@ == old(self)@.update(
                label.0 as int,
                LabelModel::Pending(old(self)@[label.0 as int]->Pending_0.push((ip, kind))),
            ),
    {
        let ghost before = self@;
        assert(before[label.0 as int] == self.labels@[label.0 as int]@);
        let mut refs = match &self.labels[label.0] {
            LabelState::Pending(refs) => copy_refs(refs),
            LabelState::Placed(_) => Vec::new(),
        };
        refs.push((ip, kind));
        self.labels.set(label.0, LabelState::Pending(refs));
        assert(self@ =~= before.update(
            label.0 as int,
            LabelModel::Pending(before[label.0 as int]->Pending_0.push((ip, kind))),
        ));
    }

    /// Places `label` at `target_ip` and patches every instruction waiting
    /// for it.
    pub fn resolve(&mut self, label: Label, target_ip: usize, chunk: &mut Chunk)
        ensures
            label.0 < old(self)@.len() ==> final(self)@ == old(self)@.update(label.0 as int, LabelModel::Placed(target_ip)),
            label.0 >= old(self)@.len() ==> final(self)@ == old(self)@,
            final(chunk).code@ == (if label.0 >= old(self)@.len() { old(chunk).code@ } else { match old(self)@[label.0 as int] {
                LabelModel::Pending(refs) => spec_patch_all(
                    old(chunk).code@,
                    refs,
                    target_ip as int,
                ),
                LabelModel::Placed(_) => old(chunk).code@,
            }}),
            final(chunk).constants == old(chunk).constants,
            final(chunk).ip == old(chunk).ip,
            final(chunk).locus == old(chunk).locus,
    {
        if label.0 >= self.labels.len() {
            return;
        }
        let ghost before = self@;
        assert(before[label.0 as int] == self.labels@[label.0 as int]@);
        let pending = match &self.labels[label.0] {
            LabelState::Pending(refs) => Some(copy_refs(refs)),
            LabelState::Placed(_) => None,
        };
        self.labels.set(label.0, LabelState::Placed(target_ip));
        assert(self@ =~= before.update(label.0 as int, LabelModel::Placed(target_ip)));
        match pending {
            Some(refs) => {
                let mut i: usize = 0;
                while i < refs.len()
                    invariant
                        0 <= i <= refs.len(),
                        old(self)@[label.0 as int] == LabelModel::Pending(refs@),
                        chunk.code@.len() == old(chunk).code@.len(),
                        chunk.code@ == spec_patch_all(
                            old(chunk).code@,
                            refs@.subrange(0, i as int),
                            target_ip as int,
                        ),
                        chunk.constants == old(chunk).constants,
                        chunk.ip == old(chunk).ip,
                        chunk.locus == old(chunk).locus,
                    decreases refs.len() - i,
                {
                    let (ip, kind) = refs[i];
                    let n = chunk.code.len();
                    let fits = match kind {
                        RefKind::Jmp => ip <= n && n - ip >= 3,
                        RefKind::Test => ip <= n && n - ip >= 4,
                    };
                    let backward_test = match kind {
                        RefKind::Jmp => false,
                        RefKind::Test => ip > target_ip,
                    };
                    if fits && !backward_test {
                        let offset: isize = if ip <= target_ip {
                            ((target_ip - ip) % 0x10000) as isize
                        } else {
                            (0x10000 - (ip - target_ip) % 0x10000) as isize
                        };
                        proof { lemma_offset_bits(ip as int, target_ip as int, offset as int); }
                        let (lo, hi) = i16_bytes(offset);
                        match kind {
                            RefKind::Jmp => {
                                chunk.code.set(ip + 1, lo);
                                chunk.code.set(ip + 2, hi);
                            },
                            RefKind::Test => {
                                chunk.code.set(ip + 2, lo);
                                chunk.code.set(ip + 3, hi);
                            },
                        }
                    }
                    assert(refs@.subrange(0, i + 1).drop_last() =~= refs@.subrange(0, i as int));
                    i = i + 1;
                }
                assert(refs@.subrange(0, refs@.len() as int) =~= refs@);
            },
            None => {},
        }
    }

    /// The position of a placed label.
    pub fn ip_of(&self, label: Label) -> (res: usize)
        requires
            label.0 < self@.len(),
            self@[label.0 as int] is Placed,
        ensures
            self@[label.0 as int] == LabelModel::Placed(res),
    {
        assert(self@[label.0 as int] == self.labels@[label.0 as int]@);
        match &self.labels[label.0] {
            LabelState::Placed(ip) => *ip,
            LabelState::Pending(_) => 0,
        }
    }

    /// Whether `label` exists and is still waiting to be placed.
    pub fn is_pending(&self, label: Label) -> (res: bool)
        ensures
            res == (label.0 < self@.len() && self@[label.0 as int] is Pending),
    {
        if label.0 < self.labels.len() {
            match &self.labels[label.0] {
                LabelState::Pending(_) => true,
                LabelState::Placed(_) => false,
            }
        } else {
            false
        }
    }
}

} // verus!
