//! Protection flags.

use vstd::prelude::*;

verus! {

/// The protection flags of a range of memory.
///
/// The three permissions are independent; all of them off means no access.
#[derive(Clone, Copy, Debug, PartialEq, Eq, Structural)]
pub struct Prot {
    pub read: bool,
    pub write: bool,
    pub execute: bool,
}

/// The bit that stands for the read permission in a mask.
pub const PROT_R: u32 = 1;

/// The bit that stands for the write permission in a mask.
pub const PROT_W: u32 = 2;

/// The bit that stands for the execute permission in a mask.
pub const PROT_X: u32 = 4;

impl Prot {
    /// The mask that stands for these flags as a number.
    pub open spec fn spec_bits(self) -> int {
        let r: int = if self.read { 1 } else { 0 };
        let w: int = if self.write { 2 } else { 0 };
        let x: int = if self.execute { 4 } else { 0 };
        r + w + x
    }

    /// Whether every permission of `other` is also one of `self`.
    pub open spec fn spec_contains(self, other: Prot) -> bool {
        &&& other.read ==> self.read
        &&& other.write ==> self.write
        &&& other.execute ==> self.execute
    }

    /// No access at all.
    pub fn none() -> (p: Prot)
        ensures
            p == (Prot { read: false, write: false, execute: false }),
    {
        Prot { read: false, write: false, execute: false }
    }

    /// Read only.
    pub fn r() -> (p: Prot)
        ensures
            p == (Prot { read: true, write: false, execute: false }),
    {
        Prot { read: true, write: false, execute: false }
    }

    /// Write only.
    pub fn w() -> (p: Prot)
        ensures
            p == (Prot { read: false, write: true, execute: false }),
    {
        Prot { read: false, write: true, execute: false }
    }

    /// Read and write.
    pub fn rw() -> (p: Prot)
        ensures
            p == (Prot { read: true, write: true, execute: false }),
    {
        Prot { read: true, write: true, execute: false }
    }

    /// Execute and read.
    pub fn xr() -> (p: Prot)
        ensures
            p == (Prot { read: true, write: false, execute: true }),
    {
        Prot { read: true, write: false, execute: true }
    }

    /// Execute, read and write.
    pub fn xrw() -> (p: Prot)
        ensures
            p == (Prot { read: true, write: true, execute: true }),
    {
        Prot { read: true, write: true, execute: true }
    }

    /// Reads the flags out of a mask. Bits above the three known ones are
    /// ignored.
    pub fn from_bits(mask: u32) -> (p: Prot)
        ensures
            p.read == (mask as int % 2 == 1),
            p.write == ((mask as int / 2) % 2 == 1),
            p.execute == ((mask as int / 4) % 2 == 1),
            (mask < 8) ==> p.spec_bits() == mask,
    {
        Prot { read: mask % 2 == 1, write: (mask / 2) % 2 == 1, execute: (mask / 4) % 2 == 1 }
    }

    /// The flags as a mask.
    pub fn bits(&self) -> (mask: u32)
        ensures
            mask == self.spec_bits(),
            mask < 8,
    {
        let r: u32 = if self.read { PROT_R } else { 0 };
        let w: u32 = if self.write { PROT_W } else { 0 };
        let x: u32 = if self.execute { PROT_X } else { 0 };
        r + w + x
    }

    /// The flags that are set in either of the two.
    pub fn union(&self, other: Prot) -> (p: Prot)
        ensures
            p.read == (self.read || other.read),
            p.write == (self.write || other.write),
            p.execute == (self.execute || other.execute),
    {
        Prot {
            read: self.read || other.read,
            write: self.write || other.write,
            execute: self.execute || other.execute,
        }
    }

    /// Whether every permission of `other` is granted by `self`.
    pub fn contains(&self, other: Prot) -> (b: bool)
        ensures
            b == self.spec_contains(other),
    {
        (!other.read || self.read) && (!other.write || self.write) && (!other.execute
            || self.execute)
    }
}

} // verus!
