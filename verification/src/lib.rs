pub mod compiler;
pub mod constant;
pub mod foreign;
pub mod functions;
pub mod host;
pub mod interner;
pub mod opcode;
pub mod span;
pub mod text;
pub mod types;
pub mod value;
pub mod vm;
