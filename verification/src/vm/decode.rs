use vstd::prelude::*;

use crate::opcode::{spec_op_byte, OpCode};
use crate::value::{Value, ValueModel};
use crate::vm::chunk::{le_i16, le_u16, spec_le_i16, spec_le_u16, Chunk};

verus! {

/// One instruction with its operands, as the code holds it.
#[derive(Debug)]
pub enum Instr {
    Move { dst: u8, src: u8 },
    LoadK { dst: u8, k: u16 },
    LoadBool { dst: u8, val: u8 },
    LoadNil { dst: u8 },
    LoadFun { dst: u8, id: u16 },
    GetGlb { dst: u8, slot: u16 },
    SetGlb { slot: u16, src: u8 },
    /// `base`: the register after which the callee's registers begin.
    Call { dst: u8, reg: u8, base: u8, args: Vec<u8> },
    CallK { dst: u8, id: u16, base: u8, args: Vec<u8> },
    Return { reg: u8 },
    Jmp { offset: i16 },
    Test { reg: u8, offset: i16 },
    /// The (is_local, index) byte pairs of the captured variables.
    Closure { dst: u8, proto: u16, captures: Vec<(u8, u8)> },
    /// The (name constant, register) pairs of the fields.
    NewStruct { dst: u8, def: u16, fields: Vec<(u16, u8)> },
    GetUpval { dst: u8, idx: u16 },
    SetUpval { src: u8, idx: u16 },
    GetField { dst: u8, obj: u8, name: u16 },
    SetField { obj: u8, name: u16, src: u8 },
}

/// The 16-bit operand at `code[at..at + 2]`.
pub open spec fn wide_in(code: Seq<u8>, at: int) -> u16 {
    spec_le_u16(code[at], code[at + 1])
}

/// The number of upvalues prototype constant `k` declares, if it is a prototype.
pub open spec fn spec_proto_count(consts: Seq<ValueModel>, k: int) -> Option<int> {
    if 0 <= k < consts.len() {
        match consts[k] {
            ValueModel::FnProto(_, count) => Some(count as int),
            _ => None,
        }
    } else {
        None
    }
}

/// The length in bytes of the instruction at `pos`, when `pos` starts a known
/// opcode whose operands all lie inside the code.
pub open spec fn spec_instr_len(code: Seq<u8>, consts: Seq<ValueModel>, pos: int) -> Option<int> {
    if pos < 0 || pos >= code.len() {
        None
    } else {
        let op = code[pos];
        let len: Option<int> = if op == spec_op_byte(OpCode::MOVE) || op == spec_op_byte(OpCode::LOADBOOL) {
            Some(3)
        } else if op == spec_op_byte(OpCode::LOADNIL) || op == spec_op_byte(OpCode::RETURN) {
            Some(2)
        } else if op == spec_op_byte(OpCode::JMP) {
            Some(3)
        } else if op == spec_op_byte(OpCode::LOADK) || op == spec_op_byte(OpCode::LOADFUN) || op == spec_op_byte(
            OpCode::GETGLB,
        ) || op == spec_op_byte(OpCode::SETGLB) || op == spec_op_byte(OpCode::TEST) || op == spec_op_byte(
            OpCode::GETUPVAL,
        ) || op == spec_op_byte(OpCode::SETUPVAL) {
            Some(4)
        } else if op == spec_op_byte(OpCode::GETFIELD) || op == spec_op_byte(OpCode::SETFIELD) {
            Some(5)
        } else if op == spec_op_byte(OpCode::CALL) {
            if pos + 5 <= code.len() { Some(5 + code[pos + 4]) } else { None }
        } else if op == spec_op_byte(OpCode::CALLK) {
            if pos + 6 <= code.len() { Some(6 + code[pos + 5]) } else { None }
        } else if op == spec_op_byte(OpCode::NEWSTRUCT) {
            if pos + 5 <= code.len() { Some(5 + 3 * code[pos + 4]) } else { None }
        } else if op == spec_op_byte(OpCode::CLOSURE) {
            if pos + 4 <= code.len() {
                match spec_proto_count(consts, wide_in(code, pos + 2) as int) {
                    Some(count) => Some(4 + 2 * count),
                    None => None,
                }
            } else {
                None
            }
        } else {
            None
        };
        match len {
            Some(n) => if pos + n <= code.len() { Some(n) } else { None },
            None => None,
        }
    }
}

/// Whether `ins` is the instruction that `code[pos..]` encodes, its fixed
/// operands read from the bytes after the opcode.
pub open spec fn spec_operands(code: Seq<u8>, pos: int, ins: Instr) -> bool {
    match ins {
        Instr::Move { dst, src } => code[pos] == spec_op_byte(OpCode::MOVE) && dst == code[pos + 1] && src == code[pos + 2],
        Instr::LoadK { dst, k } => code[pos] == spec_op_byte(OpCode::LOADK) && dst == code[pos + 1] && k == wide_in(code, pos + 2),
        Instr::LoadBool { dst, val } => code[pos] == spec_op_byte(OpCode::LOADBOOL) && dst == code[pos + 1] && val == code[pos + 2],
        Instr::LoadNil { dst } => code[pos] == spec_op_byte(OpCode::LOADNIL) && dst == code[pos + 1],
        Instr::LoadFun { dst, id } => code[pos] == spec_op_byte(OpCode::LOADFUN) && dst == code[pos + 1] && id == wide_in(code, pos + 2),
        Instr::GetGlb { dst, slot } => code[pos] == spec_op_byte(OpCode::GETGLB) && dst == code[pos + 1] && slot == wide_in(code, pos + 2),
        Instr::SetGlb { slot, src } => code[pos] == spec_op_byte(OpCode::SETGLB) && slot == wide_in(code, pos + 1) && src == code[pos + 3],
        Instr::Call { dst, reg, base, args } => code[pos] == spec_op_byte(OpCode::CALL) && dst == code[pos + 1] && reg == code[pos + 2]
            && base == code[pos + 3] && args@ == code.subrange(pos + 5, pos + 5 + code[pos + 4]),
        Instr::CallK { dst, id, base, args } => code[pos] == spec_op_byte(OpCode::CALLK) && dst == code[pos + 1] && id == wide_in(code, pos + 2)
            && base == code[pos + 4] && args@ == code.subrange(pos + 6, pos + 6 + code[pos + 5]),
        Instr::Return { reg } => code[pos] == spec_op_byte(OpCode::RETURN) && reg == code[pos + 1],
        Instr::Jmp { offset } => code[pos] == spec_op_byte(OpCode::JMP) && offset == spec_le_i16(code[pos + 1], code[pos + 2]),
        Instr::Test { reg, offset } => code[pos] == spec_op_byte(OpCode::TEST) && reg == code[pos + 1] && offset == spec_le_i16(
            code[pos + 2],
            code[pos + 3],
        ),
        Instr::Closure { dst, proto, captures } => code[pos] == spec_op_byte(OpCode::CLOSURE) && dst == code[pos + 1] && proto
            == wide_in(code, pos + 2) && forall|i: int|
            0 <= i < captures@.len() ==> #[trigger] captures@[i] == (code[pos + 4 + 2 * i], code[pos + 5 + 2 * i]),
        Instr::NewStruct { dst, def, fields } => code[pos] == spec_op_byte(OpCode::NEWSTRUCT) && dst == code[pos + 1] && def
            == wide_in(code, pos + 2) && fields@.len() == code[pos + 4] && forall|i: int|
            0 <= i < fields@.len() ==> #[trigger] fields@[i] == (wide_in(code, pos + 5 + 3 * i), code[pos + 7 + 3 * i]),
        Instr::GetUpval { dst, idx } => code[pos] == spec_op_byte(OpCode::GETUPVAL) && dst == code[pos + 1] && idx == wide_in(code, pos + 2),
        Instr::SetUpval { src, idx } => code[pos] == spec_op_byte(OpCode::SETUPVAL) && src == code[pos + 1] && idx == wide_in(code, pos + 2),
        Instr::GetField { dst, obj, name } => code[pos] == spec_op_byte(OpCode::GETFIELD) && dst == code[pos + 1] && obj == code[pos + 2]
            && name == wide_in(code, pos + 3),
        Instr::SetField { obj, name, src } => code[pos] == spec_op_byte(OpCode::SETFIELD) && obj == code[pos + 1] && name == wide_in(code, pos + 2)
            && src == code[pos + 4],
    }
}

/// The bytes `code[from..to]`.
fn bytes_between(code: &Vec<u8>, from: usize, to: usize) -> (res: Vec<u8>)
    requires
        from <= to <= code@.len(),
    ensures
        res@ == code@.subrange(from as int, to as int),
{
    let mut res: Vec<u8> = Vec::new();
    let mut i = from;
    while i < to
        invariant
            from <= i <= to <= code@.len(),
            res@ == code@.subrange(from as int, i as int),
        decreases to - i,
    {
        res.push(code[i]);
        i = i + 1;
    }
    res
}

/// The instruction at `pos` of `chunk` and the position of the next one;
/// `None` when `pos` does not start a known opcode whose operands all lie
/// inside the code.
pub fn decode(chunk: &Chunk, pos: usize) -> (res: Option<(Instr, usize)>)
    ensures
        res is Some <==> spec_instr_len(chunk.code@, chunk.constants@, pos as int) is Some,
        res matches Some((ins, next)) ==> {
            &&& next == pos + spec_instr_len(chunk.code@, chunk.constants@, pos as int)->0
            &&& spec_operands(chunk.code@, pos as int, ins)
        },
{
    let code = &chunk.code;
    let n = code.len();
    if pos >= n {
        return None;
    }
    let op = match OpCode::from_repr(code[pos]) {
        Some(op) => op,
        None => {
            return None;
        },
    };
    let rest = n - pos;
    match op {
        OpCode::MOVE => if rest >= 3 {
            Some((Instr::Move { dst: code[pos + 1], src: code[pos + 2] }, pos + 3))
        } else {
            None
        },
        OpCode::LOADK => if rest >= 4 {
            Some((Instr::LoadK { dst: code[pos + 1], k: le_u16(code[pos + 2], code[pos + 3]) }, pos + 4))
        } else {
            None
        },
        OpCode::LOADBOOL => if rest >= 3 {
            Some((Instr::LoadBool { dst: code[pos + 1], val: code[pos + 2] }, pos + 3))
        } else {
            None
        },
        OpCode::LOADNIL => if rest >= 2 {
            Some((Instr::LoadNil { dst: code[pos + 1] }, pos + 2))
        } else {
            None
        },
        OpCode::LOADFUN => if rest >= 4 {
            Some((Instr::LoadFun { dst: code[pos + 1], id: le_u16(code[pos + 2], code[pos + 3]) }, pos + 4))
        } else {
            None
        },
        OpCode::GETGLB => if rest >= 4 {
            Some((Instr::GetGlb { dst: code[pos + 1], slot: le_u16(code[pos + 2], code[pos + 3]) }, pos + 4))
        } else {
            None
        },
        OpCode::SETGLB => if rest >= 4 {
            Some((Instr::SetGlb { slot: le_u16(code[pos + 1], code[pos + 2]), src: code[pos + 3] }, pos + 4))
        } else {
            None
        },
        OpCode::CALL => {
            if rest < 5 || rest - 5 < code[pos + 4] as usize {
                return None;
            }
            let end = pos + 5 + code[pos + 4] as usize;
            let args = bytes_between(code, pos + 5, end);
            Some((Instr::Call { dst: code[pos + 1], reg: code[pos + 2], base: code[pos + 3], args }, end))
        },
        OpCode::CALLK => {
            if rest < 6 || rest - 6 < code[pos + 5] as usize {
                return None;
            }
            let end = pos + 6 + code[pos + 5] as usize;
            let args = bytes_between(code, pos + 6, end);
            Some((
                Instr::CallK {
                    dst: code[pos + 1],
                    id: le_u16(code[pos + 2], code[pos + 3]),
                    base: code[pos + 4],
                    args,
                },
                end,
            ))
        },
        OpCode::RETURN => if rest >= 2 {
            Some((Instr::Return { reg: code[pos + 1] }, pos + 2))
        } else {
            None
        },
        OpCode::JMP => if rest >= 3 {
            Some((Instr::Jmp { offset: le_i16(code[pos + 1], code[pos + 2]) }, pos + 3))
        } else {
            None
        },
        OpCode::TEST => if rest >= 4 {
            Some((Instr::Test { reg: code[pos + 1], offset: le_i16(code[pos + 2], code[pos + 3]) }, pos + 4))
        } else {
            None
        },
        OpCode::CLOSURE => {
            if rest < 4 {
                return None;
            }
            let proto = le_u16(code[pos + 2], code[pos + 3]);
            if proto as usize >= chunk.constants.len() {
                return None;
            }
            let count = match chunk.constants.get(proto) {
                Value::FnProto { upvalue_count, .. } => *upvalue_count as usize,
                _ => {
                    return None;
                },
            };
            if (rest - 4) / 2 < count {
                return None;
            }
            let mut captures: Vec<(u8, u8)> = Vec::new();
            let mut i: usize = 0;
            while i < count
                invariant
                    0 <= i <= count,
                    pos + 4 + 2 * count <= code@.len(),
                    n == code@.len(),
                    captures@.len() == i,
                    forall|j: int| 0 <= j < i ==> #[trigger] captures@[j] == (code@[pos + 4 + 2 * j], code@[pos + 5 + 2 * j]),
                decreases count - i,
            {
                captures.push((code[pos + 4 + 2 * i], code[pos + 5 + 2 * i]));
                i = i + 1;
            }
            Some((Instr::Closure { dst: code[pos + 1], proto, captures }, pos + 4 + 2 * count))
        },
        OpCode::NEWSTRUCT => {
            if rest < 5 {
                return None;
            }
            let count = code[pos + 4] as usize;
            if (rest - 5) / 3 < count {
                return None;
            }
            let mut fields: Vec<(u16, u8)> = Vec::new();
            let mut i: usize = 0;
            while i < count
                invariant
                    0 <= i <= count,
                    pos + 5 + 3 * count <= code@.len(),
                    n == code@.len(),
                    fields@.len() == i,
                    forall|j: int| 0 <= j < i ==> #[trigger] fields@[j] == (wide_in(code@, pos + 5 + 3 * j), code@[pos + 7 + 3 * j]),
                decreases count - i,
            {
                fields.push((le_u16(code[pos + 5 + 3 * i], code[pos + 6 + 3 * i]), code[pos + 7 + 3 * i]));
                i = i + 1;
            }
            Some((Instr::NewStruct { dst: code[pos + 1], def: le_u16(code[pos + 2], code[pos + 3]), fields }, pos + 5 + 3 * count))
        },
        OpCode::GETUPVAL => if rest >= 4 {
            Some((Instr::GetUpval { dst: code[pos + 1], idx: le_u16(code[pos + 2], code[pos + 3]) }, pos + 4))
        } else {
            None
        },
        OpCode::SETUPVAL => if rest >= 4 {
            Some((Instr::SetUpval { src: code[pos + 1], idx: le_u16(code[pos + 2], code[pos + 3]) }, pos + 4))
        } else {
            None
        },
        OpCode::GETFIELD => if rest >= 5 {
            Some((Instr::GetField { dst: code[pos + 1], obj: code[pos + 2], name: le_u16(code[pos + 3], code[pos + 4]) }, pos + 5))
        } else {
            None
        },
        OpCode::SETFIELD => if rest >= 5 {
            Some((Instr::SetField { obj: code[pos + 1], name: le_u16(code[pos + 2], code[pos + 3]), src: code[pos + 4] }, pos + 5))
        } else {
            None
        },
    }
}

/// Where decoding stands after the instructions `res`: the position after the
/// last of them, or the start of the code when there is none.
pub open spec fn spec_decoded_end(code: Seq<u8>, consts: Seq<ValueModel>, res: Seq<(usize, Instr)>) -> int {
    if res.len() == 0 {
        0
    } else {
        res.last().0 + spec_instr_len(code, consts, res.last().0 as int)->0
    }
}

/// The instructions of `chunk` with their positions, read from the start
/// until the end of the code or until bytes that do not decode.
pub fn disassemble(chunk: &Chunk) -> (res: Vec<(usize, Instr)>)
    ensures
        forall|i: int| 0 <= i < res@.len() ==> spec_operands(chunk.code@, (#[trigger] res@[i]).0 as int, res@[i].1),
        forall|i: int|
            0 <= i < res@.len() ==> spec_instr_len(chunk.code@, chunk.constants@, (#[trigger] res@[i]).0 as int) is Some,
        spec_instr_len(chunk.code@, chunk.constants@, spec_decoded_end(chunk.code@, chunk.constants@, res@)) is None,
        res@.len() > 0 ==> res@[0].0 == 0,
        forall|i: int|
            0 <= i < res@.len() - 1 ==> res@[i + 1].0 == (#[trigger] res@[i]).0 + spec_instr_len(
                chunk.code@,
                chunk.constants@,
                res@[i].0 as int,
            )->0,
{
    let mut res: Vec<(usize, Instr)> = Vec::new();
    let mut pos: usize = 0;
    while pos < chunk.code.len()
        invariant
            pos <= chunk.code@.len(),
            forall|i: int| 0 <= i < res@.len() ==> spec_operands(chunk.code@, (#[trigger] res@[i]).0 as int, res@[i].1),
            forall|i: int|
                0 <= i < res@.len() ==> spec_instr_len(chunk.code@, chunk.constants@, (#[trigger] res@[i]).0 as int) is Some,
            pos == spec_decoded_end(chunk.code@, chunk.constants@, res@),
            res@.len() > 0 ==> res@[0].0 == 0,
            res@.len() == 0 ==> pos == 0,
            res@.len() > 0 ==> pos == res@.last().0 + spec_instr_len(chunk.code@, chunk.constants@, res@.last().0 as int)->0,
            forall|i: int|
                0 <= i < res@.len() - 1 ==> res@[i + 1].0 == (#[trigger] res@[i]).0 + spec_instr_len(
                    chunk.code@,
                    chunk.constants@,
                    res@[i].0 as int,
                )->0,
        ensures
            spec_instr_len(chunk.code@, chunk.constants@, pos as int) is None,
        decreases chunk.code@.len() - pos,
    {
        match decode(chunk, pos) {
            Some((ins, next)) => {
                res.push((pos, ins));
                if next > chunk.code.len() {
                    break;
                }
                pos = next;
            },
            None => {
                break;
            },
        }
    }
    res
}

} // verus!
