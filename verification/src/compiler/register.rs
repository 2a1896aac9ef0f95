use vstd::prelude::*;

verus! {

/// The state of a register in the current frame.
#[derive(Debug, PartialEq, Eq, Clone, Copy, Structural)]
pub enum RegState {
    /// Holds a local variable.
    Held,
    /// Holds an intermediate result.
    Temp,
    Free,
}

/// Register allocation for one frame. Locals are held in a stack at the
/// bottom (below `held_pt`); temporaries are handed out above it, first in
/// increasing order, then by scanning for a free register.
pub struct RegisterTracker {
    state: Vec<RegState>,
    held_pt: usize,
    temp_pt: usize,
    temp_first_run: bool,
}

/// The register tracker could not find a register.
pub struct RegisterOverflow;

pub struct RegisterModel {
    pub state: Seq<RegState>,
    pub held_pt: nat,
    pub temp_pt: nat,
    pub temp_first_run: bool,
}

impl View for RegisterTracker {
    type V = RegisterModel;

    closed spec fn view(&self) -> RegisterModel {
        RegisterModel {
            state: self.state@,
            held_pt: self.held_pt as nat,
            temp_pt: self.temp_pt as nat,
            temp_first_run: self.temp_first_run,
        }
    }
}

impl RegisterTracker {
    /// At most 256 registers; every held register lies below `held_pt`, and
    /// `held_pt <= temp_pt <= size`.
    pub open spec fn wf(&self) -> bool {
        &&& self@.state.len() <= 256
        &&& self@.held_pt <= self@.temp_pt <= self@.state.len()
        &&& forall|i: int| self@.held_pt <= i < self@.state.len() ==> self@.state[i] != RegState::Held
    }

    /// `size` free registers.
    pub fn new(size: usize) -> (res: Self)
        requires
            size <= 256,
        ensures
            res.wf(),
            res@.state == Seq::new(size as nat, |i: int| RegState::Free),
            res@.held_pt == 0,
            res@.temp_pt == 0,
            res@.temp_first_run,
    {
        RegisterTracker::new_with(size, 0)
    }

    /// `size` registers of which the first `held` hold locals (parameters).
    pub fn new_with(size: usize, held: usize) -> (res: Self)
        requires
            size <= 256,
            held <= size,
        ensures
            res.wf(),
            res@.state == Seq::new(size as nat, |i: int| if i < held { RegState::Held } else { RegState::Free }),
            res@.held_pt == held,
            res@.temp_pt == held,
            res@.temp_first_run,
    {
        let mut state: Vec<RegState> = Vec::new();
        let mut i: usize = 0;
        while i < size
            invariant
                0 <= i <= size,
                state@ == Seq::new(i as nat, |j: int| if j < held { RegState::Held } else { RegState::Free }),
            decreases size - i,
        {
            state.push(if i < held { RegState::Held } else { RegState::Free });
            i = i + 1;
            assert(state@ =~= Seq::new(i as nat, |j: int| if j < held { RegState::Held } else { RegState::Free }));
        }
        RegisterTracker { state, held_pt: held, temp_pt: held, temp_first_run: true }
    }

    /// Number of registers.
    pub fn size(&self) -> (res: usize)
        ensures
            res == self@.state.len(),
    {
        self.state.len()
    }

    fn inc_held(&mut self)
        requires
            old(self)@.state.len() <= 256,
            old(self)@.held_pt < old(self)@.state.len(),
            old(self)@.held_pt <= old(self)@.temp_pt <= old(self)@.state.len(),
        ensures
            final(self)@.held_pt == old(self)@.held_pt + 1,
            final(self)@.temp_pt == if old(self)@.held_pt + 1 > old(self)@.temp_pt {
                old(self)@.temp_pt + 1
            } else {
                old(self)@.temp_pt
            },
            final(self)@.state == old(self)@.state,
            final(self)@.temp_first_run == old(self)@.temp_first_run,
    {
        self.held_pt = self.held_pt + 1;
        if self.held_pt > self.temp_pt {
            self.temp_pt = self.temp_pt + 1;
        }
    }

    /// A register for a new local: the lowest one above all held registers.
    pub fn alloc_held(&mut self) -> (res: Result<u8, RegisterOverflow>)
        requires
            old(self).wf(),
        ensures
            final(self).wf(),
            old(self)@.held_pt >= old(self)@.state.len() ==> res is Err && final(self)@ == old(self)@,
            old(self)@.held_pt < old(self)@.state.len() ==> {
                &&& res == Ok::<u8, RegisterOverflow>(old(self)@.held_pt as u8)
                &&& final(self)@.state == old(self)@.state.update(old(self)@.held_pt as int, RegState::Held)
                &&& final(self)@.held_pt == old(self)@.held_pt + 1
                &&& final(self)@.temp_pt == if old(self)@.held_pt + 1 > old(self)@.temp_pt {
                    old(self)@.temp_pt + 1
                } else {
                    old(self)@.temp_pt
                }
                &&& final(self)@.temp_first_run == old(self)@.temp_first_run
            },
    {
        if self.held_pt >= self.state.len() {
            return Err(RegisterOverflow);
        }
        let new_reg = self.held_pt;
        self.state.set(new_reg, RegState::Held);
        self.inc_held();
        Ok(new_reg as u8)
    }

    /// A register for an intermediate result. In the first run temporaries
    /// are handed out upwards from `temp_pt`; once the top is passed, the
    /// registers above the held ones are scanned round-robin for a free one.
    pub fn alloc_temp(&mut self) -> (res: Result<u8, RegisterOverflow>)
        requires
            old(self).wf(),
        ensures
            final(self).wf(),
            final(self)@.held_pt == old(self)@.held_pt,
            final(self)@.state.len() == old(self)@.state.len(),
            res matches Ok(r) ==> {
                &&& old(self)@.held_pt <= r < old(self)@.state.len()
                &&& final(self)@.state == old(self)@.state.update(r as int, RegState::Temp)
            },
            res is Err ==> final(self)@.state == old(self)@.state && forall|i: int|
                old(self)@.held_pt <= i < old(self)@.state.len() ==> old(self)@.state[i] != RegState::Free,
            // First run, the register at the cursor is free: it is taken.
            spec_first_run_takes_cursor(old(self)@) ==> {
                &&& res == Ok::<u8, RegisterOverflow>(old(self)@.temp_pt as u8)
                &&& final(self)@.temp_pt == old(self)@.temp_pt
                &&& final(self)@.temp_first_run
            },
            // First run otherwise: the register after the cursor, whatever it holds.
            spec_first_run_takes_next(old(self)@) ==> {
                &&& res == Ok::<u8, RegisterOverflow>((old(self)@.temp_pt + 1) as u8)
                &&& final(self)@.temp_pt == old(self)@.temp_pt + 1
                &&& final(self)@.temp_first_run
            },
            // Otherwise: the first free register in a cyclic scan of the
            // registers above the held ones, from the scan start.
            !spec_first_run_takes_cursor(old(self)@) && !spec_first_run_takes_next(old(self)@) ==> {
                &&& !final(self)@.temp_first_run
                &&& res matches Ok(r) ==> spec_first_free(old(self)@.state, old(self)@.held_pt as int, spec_scan_start(old(self)@), r as int)
                    && final(self)@.temp_pt == r
            },
    {
        let len = self.state.len();
        if self.temp_first_run {
            if self.temp_pt < len && self.state[self.temp_pt] == RegState::Free {
                self.state.set(self.temp_pt, RegState::Temp);
                return Ok(self.temp_pt as u8);
            }
            if self.temp_pt + 1 < len {
                self.temp_pt = self.temp_pt + 1;
                let new_reg = self.temp_pt;
                self.state.set(new_reg, RegState::Temp);
                return Ok(new_reg as u8);
            } else {
                self.temp_pt = self.held_pt;
                self.temp_first_run = false;
            }
        }
        let held = self.held_pt;
        if held >= len {
            return Err(RegisterOverflow);
        }
        let n = len - held;
        let start = if self.temp_pt < len { self.temp_pt } else { held };
        assert(start == spec_scan_start(old(self)@));
        // Visit every register in held..len once, starting at `start` and wrapping around.
        let mut k: usize = 0;
        let mut scanner = start;
        assert(scanner == scan_pos(held as int, start as int, n as int, 0)) by {
            assert((start - held) % (n as int) == start - held) by (nonlinear_arith)
                requires
                    0 <= start - held < n,
            ;
        }
        while k < n
            invariant
                self.wf(),
                self@.held_pt == held,
                held == old(self)@.held_pt,
                self@.state == old(self)@.state,
                len == self@.state.len(),
                held < len,
                n == len - held,
                held <= start < len,
                0 <= k <= n,
                held <= scanner < len,
                scanner == scan_pos(held as int, start as int, n as int, k as int),
                forall|j: int| 0 <= j < k ==> old(self)@.state[#[trigger] scan_pos(held as int, start as int, n as int, j)] != RegState::Free,
                !spec_first_run_takes_cursor(old(self)@),
                !spec_first_run_takes_next(old(self)@),
                start == spec_scan_start(old(self)@),
                !self@.temp_first_run,
            decreases n - k,
        {
            if self.state[scanner] == RegState::Free {
                assert(spec_first_free(old(self)@.state, held as int, start as int, scanner as int));
                self.state.set(scanner, RegState::Temp);
                self.temp_pt = scanner;
                return Ok(scanner as u8);
            }
            scanner = scanner + 1;
            if scanner >= len {
                scanner = held;
            }
            k = k + 1;
            assert(scanner == scan_pos(held as int, start as int, n as int, k as int)) by {
                lemma_wrap_step(start - held + k - 1, n as int);
            }
        }
        proof {
            assert forall|i: int| held <= i < len implies old(self)@.state[i] != RegState::Free by {
                let j = ((i - held) - (start - held) + n) % (n as int);
                lemma_wrap_cover(start - held, i - held, n as int);
                assert(scan_pos(held as int, start as int, n as int, j) == i);
            }
        }
        Err(RegisterOverflow)
    }

    /// Whether `reg` may receive a result: it exists and holds no local.
    pub fn is_reusable(&self, reg: u8) -> (res: bool)
        ensures
            res == ((reg as int) < self@.state.len() && self@.state[reg as int] != RegState::Held),
    {
        (reg as usize) < self.state.len() && self.state[reg as usize] != RegState::Held
    }

    /// Frees a temporary register; a no-op on registers that are not temporaries.
    pub fn free_temp(&mut self, reg: u8)
        requires
            old(self).wf(),
        ensures
            final(self).wf(),
            final(self)@.state == if (reg as int) < old(self)@.state.len() && old(self)@.state[reg as int]
                == RegState::Temp {
                old(self)@.state.update(reg as int, RegState::Free)
            } else {
                old(self)@.state
            },
            final(self)@.held_pt == old(self)@.held_pt,
            final(self)@.temp_pt == old(self)@.temp_pt,
            final(self)@.temp_first_run == old(self)@.temp_first_run,
    {
        if (reg as usize) < self.state.len() && self.state[reg as usize] == RegState::Temp {
            self.state.set(reg as usize, RegState::Free);
        }
    }

    /// Frees the registers of locals going out of scope (registers that do
    /// not exist are ignored), then lowers `held_pt` past every register that
    /// no longer holds a local.
    pub fn free_held(&mut self, regs: &[u8])
        requires
            old(self).wf(),
        ensures
            final(self).wf(),
            final(self)@.state.len() == old(self)@.state.len(),
            final(self)@.held_pt <= old(self)@.held_pt,
            final(self)@.temp_pt == old(self)@.temp_pt,
            final(self)@.held_pt == 0 || final(self)@.state[final(self)@.held_pt - 1] == RegState::Held,
            forall|i: int|
                final(self)@.held_pt <= i < old(self)@.held_pt ==> #[trigger] final(self)@.state[i] != RegState::Held,
            forall|i: int|
                0 <= i < final(self)@.state.len() ==> #[trigger] final(self)@.state[i] == if regs@.contains(
                    i as u8,
                ) {
                    RegState::Free
                } else {
                    old(self)@.state[i]
                },
    {
        let mut k: usize = 0;
        while k < regs.len()
            invariant
                0 <= k <= regs.len(),
                self@.held_pt == old(self)@.held_pt,
                self@.temp_pt == old(self)@.temp_pt,
                self@.temp_first_run == old(self)@.temp_first_run,
                self@.state.len() == old(self)@.state.len(),
                self.wf(),
                forall|i: int|
                    0 <= i < self@.state.len() ==> #[trigger] self@.state[i] == if freed_by(regs@, k as int, i) {
                        RegState::Free
                    } else {
                        old(self)@.state[i]
                    },
            decreases regs.len() - k,
        {
            let reg = regs[k];
            if (reg as usize) < self.state.len() {
                self.state.set(reg as usize, RegState::Free);
            }
            k = k + 1;
            assert forall|i: int| 0 <= i < self@.state.len() implies #[trigger] self@.state[i] == if freed_by(regs@, k as int, i) {
                RegState::Free
            } else {
                old(self)@.state[i]
            } by {
                if i == reg as int {
                    assert(regs@[k - 1] == i as u8);
                } else {
                    assert((i as u8) != reg) by {
                        assert(0 <= i < 256);
                    }
                    if freed_by(regs@, k - 1, i) {
                        let w = choose|w: int| 0 <= w < k - 1 && #[trigger] regs@[w] == i as u8;
                        assert(regs@[w] == i as u8);
                    }
                    if freed_by(regs@, k as int, i) {
                        let w = choose|w: int| 0 <= w < k && #[trigger] regs@[w] == i as u8;
                        assert(w != k - 1);
                    }
                }
            }
        }
        assert forall|i: int| 0 <= i < self@.state.len() implies freed_by(regs@, regs@.len() as int, i) == regs@.contains(i as u8) by {
            if regs@.contains(i as u8) {
                let w = choose|w: int| 0 <= w < regs@.len() && regs@[w] == i as u8;
                assert(regs@[w] == i as u8);
            }
        }
        let ghost freed = self@.state;
        while self.held_pt > 0 && self.state[self.held_pt - 1] != RegState::Held
            invariant
                self.wf(),
                self@.state == freed,
                self@.held_pt <= old(self)@.held_pt,
                forall|i: int| self@.held_pt <= i < old(self)@.held_pt ==> #[trigger] freed[i] != RegState::Held,
                self@.temp_pt == old(self)@.temp_pt,
                self@.state.len() == old(self)@.state.len(),
            decreases self.held_pt,
        {
            self.held_pt = self.held_pt - 1;
        }
    }

    /// Forgets all temporaries: the next ones start again just above the held registers.
    pub fn clear_temp(&mut self)
        requires
            old(self).wf(),
        ensures
            final(self).wf(),
            final(self)@.state == old(self)@.state,
            final(self)@.held_pt == old(self)@.held_pt,
            final(self)@.temp_pt == old(self)@.held_pt,
            final(self)@.temp_first_run,
    {
        self.temp_pt = self.held_pt;
        self.temp_first_run = true;
    }

    /// The highest register in use, or 0 when none is: a callee's frame starts
    /// above it.
    pub fn watermark(&self) -> (res: u8)
        requires
            self.wf(),
        ensures
            forall|i: int| res < i < self@.state.len() ==> self@.state[i] == RegState::Free,
            res > 0 ==> self@.state[res as int] != RegState::Free,
    {
        let mut i = self.state.len();
        while i > 0
            invariant
                i <= self@.state.len() <= 256,
                forall|j: int| i <= j < self@.state.len() ==> self@.state[j] == RegState::Free,
            decreases i,
        {
            if self.state[i - 1] != RegState::Free {
                return (i - 1) as u8;
            }
            i = i - 1;
        }
        0
    }
}

/// In its first run, the allocator takes the register at its cursor when that one is free.
pub open spec fn spec_first_run_takes_cursor(m: RegisterModel) -> bool {
    m.temp_first_run && m.temp_pt < m.state.len() && m.state[m.temp_pt as int] == RegState::Free
}

/// In its first run, the allocator otherwise takes the register after its cursor, when there is one.
pub open spec fn spec_first_run_takes_next(m: RegisterModel) -> bool {
    m.temp_first_run && !spec_first_run_takes_cursor(m) && m.temp_pt + 1 < m.state.len()
}

/// Where the cyclic scan for a free register starts.
pub open spec fn spec_scan_start(m: RegisterModel) -> int {
    if m.temp_first_run || m.temp_pt >= m.state.len() {
        m.held_pt as int
    } else {
        m.temp_pt as int
    }
}

/// `r` is the first free register met by a cyclic scan of `held..state.len()` from `start`.
pub open spec fn spec_first_free(state: Seq<RegState>, held: int, start: int, r: int) -> bool {
    let n = state.len() - held;
    exists|k: int|
        0 <= k < n && r == #[trigger] scan_pos(held, start, n, k) && state[r] == RegState::Free && forall|j: int|
            0 <= j < k ==> state[#[trigger] scan_pos(held, start, n, j)] != RegState::Free
}

/// Some register among the first `k` of `regs` is `i`.
spec fn freed_by(regs: Seq<u8>, k: int, i: int) -> bool {
    exists|w: int| 0 <= w < k && #[trigger] regs[w] == i as u8
}

/// The register visited at step `j` of a round-robin scan of `held..held + n` from `start`.
pub open spec fn scan_pos(held: int, start: int, n: int, j: int) -> int {
    held + (start - held + j) % n
}

proof fn lemma_wrap_step(x: int, n: int)
    requires
        0 <= x,
        n > 0,
    ensures
        (if x % n + 1 >= n { 0 } else { x % n + 1 }) == (x + 1) % n,
{
    assert(x % n + 1 <= n) by (nonlinear_arith)
        requires
            n > 0,
            0 <= x,
    ;
    if x % n + 1 == n {
        assert((x + 1) % n == 0) by (nonlinear_arith)
            requires
                n > 0,
                x % n + 1 == n,
                0 <= x,
        ;
    } else {
        assert((x + 1) % n == x % n + 1) by (nonlinear_arith)
            requires
                n > 0,
                x % n + 1 < n,
                0 <= x,
        ;
    }
}

proof fn lemma_wrap_cover(s: int, t: int, n: int)
    requires
        0 <= s < n,
        0 <= t < n,
    ensures
        0 <= (t - s + n) % n < n,
        (s + (t - s + n) % n) % n == t,
{
    if t >= s {
        assert((t - s + n) % n == t - s) by (nonlinear_arith)
            requires
                0 <= t - s < n,
        ;
        assert(t % n == t) by (nonlinear_arith)
            requires
                0 <= t < n,
        ;
    } else {
        assert((t - s + n) % n == t - s + n) by (nonlinear_arith)
            requires
                0 <= t - s + n < n,
        ;
        assert((s + (t - s + n)) % n == t) by (nonlinear_arith)
            requires
                s + (t - s + n) == t + n,
                0 <= t < n,
        ;
    }
}


/// Register `x` holds a temporary that the allocator will not hand out
/// again until it is freed: in the first run, temporaries above the cursor
/// may still be given out, so a live one lies at or below it.
pub open spec fn live(m: RegisterModel, x: int) -> bool {
    &&& 0 <= x < m.state.len()
    &&& m.state[x] == RegState::Temp
    &&& m.temp_first_run ==> x <= m.temp_pt
}

/// The number of free registers of `s` from index `i` on.
pub open spec fn free_from(s: Seq<RegState>, i: int) -> int
    decreases s.len() - i,
{
    if i < 0 || i >= s.len() {
        0
    } else {
        (if s[i] == RegState::Free { 1int } else { 0int }) + free_from(s, i + 1)
    }
}

/// The number of free registers above the held ones.
pub open spec fn free_count(m: RegisterModel) -> int {
    free_from(m.state, m.held_pt as int)
}

/// Changing one register from `i` on changes the count by what it was and
/// what it becomes.
pub proof fn lemma_free_from_update(s: Seq<RegState>, i: int, k: int, v: RegState)
    requires
        0 <= i <= k < s.len(),
    ensures
        free_from(s.update(k, v), i) == free_from(s, i) - (if s[k] == RegState::Free { 1int } else { 0int }) + (
        if v == RegState::Free { 1int } else { 0int }),
    decreases k - i,
{
    if i < k {
        lemma_free_from_update(s, i + 1, k, v);
    } else {
        assert(free_from(s.update(k, v), k + 1) == free_from(s, k + 1)) by {
            lemma_free_from_same(s.update(k, v), s, k + 1);
        }
    }
}

/// Registers that agree from `i` on have the same count from `i` on.
pub proof fn lemma_free_from_same(s: Seq<RegState>, t: Seq<RegState>, i: int)
    requires
        s.len() == t.len(),
        0 <= i,
        forall|j: int| i <= j < s.len() ==> s[j] == t[j],
    ensures
        free_from(s, i) == free_from(t, i),
    decreases s.len() - i,
{
    if i < s.len() {
        lemma_free_from_same(s, t, i + 1);
    }
}

/// A positive count has a free register.
pub proof fn lemma_free_from_pos(s: Seq<RegState>, i: int)
    requires
        0 <= i,
        free_from(s, i) > 0,
    ensures
        exists|j: int| i <= j < s.len() && s[j] == RegState::Free,
    decreases s.len() - i,
{
    if s[i] != RegState::Free {
        lemma_free_from_pos(s, i + 1);
    }
}


/// When every register from `i` on is free, all of them count.
pub proof fn lemma_free_from_all(s: Seq<RegState>, i: int)
    requires
        0 <= i <= s.len(),
        forall|j: int| i <= j < s.len() ==> s[j] == RegState::Free,
    ensures
        free_from(s, i) == s.len() - i,
    decreases s.len() - i,
{
    if i < s.len() {
        lemma_free_from_all(s, i + 1);
    }
}

} // verus!
