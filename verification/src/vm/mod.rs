pub mod chunk;
pub mod heap;
pub mod exec;
pub mod frame;
pub mod decode;
