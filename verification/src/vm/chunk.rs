use vstd::prelude::*;

use crate::constant::ConstantPool;
use crate::opcode::{spec_op_byte, OpCode};
use crate::span::Span;
use crate::value::{Value, ValueModel};

verus! {

/// The low byte of a 16-bit operand.
pub open spec fn spec_lo(v: u16) -> u8 {
    (v % 256) as u8
}

/// The high byte of a 16-bit operand.
pub open spec fn spec_hi(v: u16) -> u8 {
    (v / 256) as u8
}

/// The unsigned 16-bit value of two little-endian bytes.
pub open spec fn spec_le_u16(lo: u8, hi: u8) -> u16 {
    (lo + 256 * hi) as u16
}

/// The signed 16-bit value of two little-endian bytes (two's complement).
pub open spec fn spec_le_i16(lo: u8, hi: u8) -> i16 {
    let w = lo + 256 * hi;
    if w >= 0x8000 {
        (w - 0x10000) as i16
    } else {
        w as i16
    }
}

/// The 16-bit two's-complement encoding of `x`, reduced modulo 2^16.
pub open spec fn spec_i16_bits(x: int) -> u16 {
    (x % 0x10000) as u16
}

/// Writing a 16-bit operand and reading it back gives the same value.
pub proof fn lemma_wide_roundtrip(v: u16)
    ensures
        spec_le_u16(spec_lo(v), spec_hi(v)) == v,
{
}

/// Reading a signed offset back from the encoding of `x` gives `x` whenever
/// `x` fits in 16 bits.
pub proof fn lemma_i16_roundtrip(x: int)
    requires
        -0x8000 <= x < 0x8000,
    ensures
        spec_le_i16(spec_lo(spec_i16_bits(x)), spec_hi(spec_i16_bits(x))) as int == x,
{
}

/// A compiled function body: bytecode, its constants, a read cursor, and the
/// source positions of the instructions.
#[derive(Debug)]
pub struct Chunk {
    pub code: Vec<u8>,
    pub constants: ConstantPool,
    pub ip: usize,
    /// `(code offset, span)` pairs in the order they were recorded.
    pub locus: Vec<(usize, Span)>,
}

impl Chunk {
    pub open spec fn wf(&self) -> bool {
        self.constants.wf()
    }

    pub fn new() -> (res: Chunk)
        ensures
            res.wf(),
            res.code@ == Seq::<u8>::empty(),
            res.constants@ == Seq::<ValueModel>::empty(),
            res.ip == 0,
            res.locus@ == Seq::<(usize, Span)>::empty(),
    {
        Chunk { code: Vec::new(), constants: ConstantPool::new(), ip: 0, locus: Vec::new() }
    }

    /// Reads the byte at the cursor and advances it.
    pub fn read(&mut self) -> (byte: u8)
        requires
            old(self).ip < old(self).code.len(),
        ensures
            byte == old(self).code[old(self).ip as int],
            final(self).ip == old(self).ip + 1,
            final(self).code == old(self).code,
            final(self).constants == old(self).constants,
            final(self).locus == old(self).locus,
    {
        let byte = self.code[self.ip];
        self.ip = self.ip + 1;
        byte
    }

    /// Reads a little-endian 16-bit operand at the cursor and advances it.
    pub fn read_wide(&mut self) -> (val: u16)
        requires
            old(self).ip + 1 < old(self).code.len(),
        ensures
            val == spec_le_u16(
                old(self).code[old(self).ip as int],
                old(self).code[old(self).ip + 1],
            ),
            final(self).ip == old(self).ip + 2,
            final(self).code == old(self).code,
            final(self).constants == old(self).constants,
            final(self).locus == old(self).locus,
    {
        let val = le_u16(self.code[self.ip], self.code[self.ip + 1]);
        self.ip = self.ip + 2;
        val
    }

    /// Reads a little-endian signed 16-bit operand at the cursor and advances it.
    pub fn read_i16(&mut self) -> (val: i16)
        requires
            old(self).ip + 1 < old(self).code.len(),
        ensures
            val == spec_le_i16(
                old(self).code[old(self).ip as int],
                old(self).code[old(self).ip + 1],
            ),
            final(self).ip == old(self).ip + 2,
            final(self).code == old(self).code,
            final(self).constants == old(self).constants,
            final(self).locus == old(self).locus,
    {
        let val = le_i16(self.code[self.ip], self.code[self.ip + 1]);
        self.ip = self.ip + 2;
        val
    }

    /// Appends one byte.
    pub fn emit(&mut self, byte: u8)
        ensures
            final(self).code@ == old(self).code@.push(byte),
            final(self).constants == old(self).constants,
            final(self).ip == old(self).ip,
            final(self).locus == old(self).locus,
    {
        self.code.push(byte);
    }

    /// Appends the byte of an opcode.
    pub fn emit_opcode(&mut self, op: OpCode)
        ensures
            final(self).code@ == old(self).code@.push(spec_op_byte(op)),
            final(self).constants == old(self).constants,
            final(self).ip == old(self).ip,
            final(self).locus == old(self).locus,
    {
        self.code.push(op.to_byte());
    }

    /// Appends a 16-bit operand, low byte first.
    pub fn emit_wide(&mut self, val: u16)
        ensures
            final(self).code@ == old(self).code@.push(spec_lo(val)).push(spec_hi(val)),
            final(self).constants == old(self).constants,
            final(self).ip == old(self).ip,
            final(self).locus == old(self).locus,
    {
        self.code.push((val % 256) as u8);
        self.code.push((val / 256) as u8);
    }

    /// Appends a sequence of bytes.
    pub fn append(&mut self, bytes: &[u8])
        ensures
            final(self).code@ == old(self).code@ + bytes@,
            final(self).constants == old(self).constants,
            final(self).ip == old(self).ip,
            final(self).locus == old(self).locus,
    {
        let mut i: usize = 0;
        while i < bytes.len()
            invariant
                0 <= i <= bytes.len(),
                self.code@ == old(self).code@ + bytes@.subrange(0, i as int),
                self.constants == old(self).constants,
                self.ip == old(self).ip,
                self.locus == old(self).locus,
            decreases bytes.len() - i,
        {
            self.code.push(bytes[i]);
            assert(bytes@.subrange(0, i + 1) =~= bytes@.subrange(0, i as int).push(bytes[i as int]));
            i = i + 1;
        }
        assert(bytes@.subrange(0, bytes@.len() as int) =~= bytes@);
    }

    /// Overwrites the 16-bit operand at `ip`, low byte first.
    pub fn patch_wide(&mut self, ip: usize, val: u16)
        requires
            ip + 1 < old(self).code.len(),
        ensures
            final(self).code@ == old(self).code@.update(ip as int, spec_lo(val)).update(
                ip + 1,
                spec_hi(val),
            ),
            final(self).constants == old(self).constants,
            final(self).ip == old(self).ip,
            final(self).locus == old(self).locus,
    {
        self.code.set(ip, (val % 256) as u8);
        self.code.set(ip + 1, (val / 256) as u8);
    }

    /// Adds a constant (or finds an equal one) and returns its index.
    pub fn add_constant(&mut self, value: Value) -> (idx: u16)
        requires
            old(self).wf(),
        ensures
            final(self).wf(),
            match crate::constant::spec_find(old(self).constants@, value@) {
                Some(i) => final(self).constants@ == old(self).constants@ && idx == i % 0x10000,
                None => final(self).constants@ == old(self).constants@.push(value@) && idx
                    == old(self).constants@.len() % 0x10000,
            },
            final(self).code == old(self).code,
            final(self).ip == old(self).ip,
            final(self).locus == old(self).locus,
    {
        self.constants.intern(value)
    }

    pub fn reset_ip(&mut self)
        ensures
            final(self).ip == 0,
            final(self).code == old(self).code,
            final(self).constants == old(self).constants,
            final(self).locus == old(self).locus,
    {
        self.ip = 0;
    }

    /// Offset of the last byte.
    pub fn last(&self) -> (res: usize)
        requires
            self.code.len() >= 1,
        ensures
            res == self.code.len() - 1,
    {
        self.code.len() - 1
    }

    /// Offset of the last 16-bit operand.
    pub fn last_wide(&self) -> (res: usize)
        requires
            self.code.len() >= 2,
        ensures
            res == self.code.len() - 2,
    {
        self.code.len() - 2
    }

    /// Offset just past the last byte: where the next instruction goes.
    pub fn end(&self) -> (res: usize)
        ensures
            res == self.code.len(),
    {
        self.code.len()
    }

    /// Records that the code from the current end on comes from `span`.
    pub fn record_locus(&mut self, span: Span)
        ensures
            final(self).locus@ == old(self).locus@.push((old(self).code.len(), span)),
            final(self).code == old(self).code,
            final(self).constants == old(self).constants,
            final(self).ip == old(self).ip,
    {
        let at = self.code.len();
        self.locus.push((at, span));
    }

    /// The span of the last locus recorded at or before `ip`, when the loci
    /// are in increasing order of offset (as recording them at the end of the
    /// code makes them).
    pub fn locus_at(&self, ip: usize) -> (res: Option<Span>)
        ensures
            spec_sorted_loci(self.locus@) ==> res == spec_locus_at(self.locus@, ip as int),
    {
        // The partition point of "offset <= ip", found by binary search.
        let mut lo: usize = 0;
        let mut hi: usize = self.locus.len();
        while lo < hi
            invariant
                0 <= lo <= hi <= self.locus.len(),
                spec_sorted_loci(self.locus@) ==> forall|k: int|
                    0 <= k < lo ==> (#[trigger] self.locus@[k]).0 <= ip,
                spec_sorted_loci(self.locus@) ==> forall|k: int|
                    hi <= k < self.locus.len() ==> (#[trigger] self.locus@[k]).0 > ip,
            decreases hi - lo,
        {
            let mid = lo + (hi - lo) / 2;
            if self.locus[mid].0 <= ip {
                lo = mid + 1;
            } else {
                hi = mid;
            }
        }
        proof {
            if spec_sorted_loci(self.locus@) {
                lemma_partition_point(self.locus@, ip as int, lo as int);
            }
        }
        if lo == 0 {
            None
        } else {
            Some(self.locus[lo - 1].1)
        }
    }
}

/// The loci are recorded at non-decreasing code offsets.
pub open spec fn spec_sorted_loci(loci: Seq<(usize, Span)>) -> bool {
    forall|i: int, j: int| 0 <= i <= j < loci.len() ==> (#[trigger] loci[i]).0 <= (#[trigger] loci[j]).0
}

/// The number of loci recorded at or before `ip`.
pub open spec fn spec_count_at_or_before(loci: Seq<(usize, Span)>, ip: int) -> int
    decreases loci.len(),
{
    if loci.len() == 0 {
        0
    } else if loci.last().0 <= ip {
        loci.len() as int
    } else {
        spec_count_at_or_before(loci.drop_last(), ip)
    }
}

/// The span of the last locus recorded at or before `ip`.
pub open spec fn spec_locus_at(loci: Seq<(usize, Span)>, ip: int) -> Option<Span> {
    let n = spec_count_at_or_before(loci, ip);
    if n == 0 {
        None
    } else {
        Some(loci[n - 1].1)
    }
}

proof fn lemma_partition_point(loci: Seq<(usize, Span)>, ip: int, p: int)
    requires
        spec_sorted_loci(loci),
        0 <= p <= loci.len(),
        forall|k: int| 0 <= k < p ==> (#[trigger] loci[k]).0 <= ip,
        forall|k: int| p <= k < loci.len() ==> (#[trigger] loci[k]).0 > ip,
    ensures
        spec_count_at_or_before(loci, ip) == p,
    decreases loci.len(),
{
    if loci.len() > 0 {
        if p == loci.len() {
            assert(loci.last().0 <= ip);
        } else {
            assert(loci.last().0 > ip);
            let d = loci.drop_last();
            assert forall|i: int, j: int| 0 <= i <= j < d.len() implies (#[trigger] d[i]).0
                <= (#[trigger] d[j]).0 by {
                assert(d[i] == loci[i] && d[j] == loci[j]);
            }
            assert forall|k: int| 0 <= k < p implies (#[trigger] d[k]).0 <= ip by {
                assert(d[k] == loci[k]);
            }
            assert forall|k: int| p <= k < d.len() implies (#[trigger] d[k]).0 > ip by {
                assert(d[k] == loci[k]);
            }
            lemma_partition_point(d, ip, p);
        }
    }
}

/// The unsigned value of two little-endian bytes.
pub fn le_u16(lo: u8, hi: u8) -> (res: u16)
    ensures
        res == spec_le_u16(lo, hi),
{
    (lo as u16) + 256 * (hi as u16)
}

/// The signed value of two little-endian bytes.
pub fn le_i16(lo: u8, hi: u8) -> (res: i16)
    ensures
        res == spec_le_i16(lo, hi),
{
    let w: u32 = (lo as u32) + 256 * (hi as u32);
    if w >= 0x8000 {
        ((w as i32) - 0x10000) as i16
    } else {
        w as i16
    }
}

/// The low and high bytes of the 16-bit two's-complement encoding of `x`.
pub fn i16_bytes(x: isize) -> (res: (u8, u8))
    ensures
        res.0 == spec_lo(spec_i16_bits(x as int)),
        res.1 == spec_hi(spec_i16_bits(x as int)),
{
    let bits: u16 = if x >= 0 {
        ((x as usize) % 0x10000) as u16
    } else {
        let m = ((0 - (x as i128)) as u128) % 0x10000;
        ((0x10000 - m) % 0x10000) as u16
    };
    assert(bits == spec_i16_bits(x as int)) by {
        if x < 0 {
            let m = (-(x as int)) % 0x10000;
            assert((x as int) % 0x10000 == (0x10000 - m) % 0x10000) by (nonlinear_arith)
                requires
                    x < 0,
                    m == (-(x as int)) % 0x10000,
            ;
        }
    }
    ((bits % 256) as u8, (bits / 256) as u8)
}

} // verus!
