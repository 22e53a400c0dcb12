//! A verified model of a process address space together with the tools that
//! instrument it: typed memory access, byte and pattern scanning, pointer-chain
//! resolution, code-length estimation, inline trampoline hooks and
//! virtual-method-table hooks.
//!
//! Every operation is stated over the mathematical view of an
//! [`AddressSpace`], a map from addresses to [`Cell`]s, and is proved against
//! that statement. What holds of the operations taken together is proved in
//! [`laws`].

pub mod access;
pub mod code;
pub mod endian;
pub mod error;
pub mod hook;
pub mod laws;
pub mod least;
pub mod memory;
pub mod pattern;
pub mod plan;
pub mod prot;
pub mod scan;
pub mod space;
pub mod target;
pub mod vmt;
pub mod walker;

pub use code::{code_length, Instruction};
pub use error::MemError;
pub use hook::{hook, unhook, Trampoline};
pub use memory::{Cell, PAGE_SIZE};
pub use prot::Prot;
pub use scan::{data_scan, pattern_scan, scan_pattern, sig_scan};
pub use space::AddressSpace;
pub use target::{Bits, Target};
pub use vmt::Vmt;
pub use walker::deep_pointer;
