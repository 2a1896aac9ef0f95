use vstd::prelude::*;

verus! {

/// One activation of a function in the virtual machine.
pub struct CallFrame {
    /// Absolute stack slot that receives the function's result.
    pub ret_dst: usize,
    /// Absolute stack slot of register 0 of this frame.
    pub reg_offset: usize,
    /// Offset of the next byte to execute in the frame's chunk.
    pub ip: usize,
    /// The chunk being executed.
    pub chunk_idx: usize,
    /// Keys of the open upvalues pointing into this frame's registers,
    /// ordered by the stack slot they refer to.
    pub open_upvalues: Vec<u16>,
    /// Keys of the upvalues captured by the closure running in this frame
    /// (empty for plain functions).
    pub closure_upvalues: Vec<u16>,
}

impl CallFrame {
    pub fn new(ret_dst: usize, reg_offset: usize, chunk_idx: usize, closure_upvalues: Vec<u16>) -> (res: Self)
        ensures
            res.ret_dst == ret_dst,
            res.reg_offset == reg_offset,
            res.ip == 0,
            res.chunk_idx == chunk_idx,
            res.open_upvalues@.len() == 0,
            res.closure_upvalues@ == closure_upvalues@,
    {
        CallFrame { ret_dst, reg_offset, ip: 0, chunk_idx, open_upvalues: Vec::new(), closure_upvalues }
    }
}

} // verus!
