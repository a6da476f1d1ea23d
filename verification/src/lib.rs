//! A small word-oriented virtual-machine substrate: a 32-bit instruction
//! decoder with shift-and-mask field extraction, and a sparse word-addressed
//! memory with byte-stream and UTF-16 string views layered on top.

pub mod instructions;
pub mod memory;
pub mod render;
pub mod utf16;
pub mod words;
