//! A minimal WebAssembly engine library: a verified binary-module decoder,
//! a start-function resolver, and a JIT translator from opcode bytes to
//! native machine code bytes.

pub mod leb;
pub mod binary;
pub mod opcode;
pub mod jit;
