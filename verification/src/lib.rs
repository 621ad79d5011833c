//! A grid of tiny assembly-like virtual machines, in the style of node-based
//! puzzle computing: each cell owns two registers and an instruction list, and
//! exchanges single integers with its four neighbours through named ports.
//!
//! The crate holds the verified core: the instruction parser, the port
//! resolver, the node virtual machine, the lock-step grid scheduler with its
//! port pairing and deadlock detection, and a textual codec for whole
//! programs. All machine integers are 64-bit signed (`i64`).

pub mod codec;
pub mod grid;
pub mod instr;
pub mod node;
pub mod numtext;
pub mod parse;
pub mod ports;
