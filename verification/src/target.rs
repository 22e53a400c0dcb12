//! Targets and their pointer widths.

use vstd::prelude::*;

verus! {

/// The width of a pointer in a target.
#[derive(Clone, Copy, Debug, PartialEq, Eq, Structural)]
pub enum Bits {
    Bits32,
    Bits64,
}

impl Bits {
    /// The number of bytes that a pointer occupies.
    pub open spec fn spec_pointer_size(self) -> nat {
        match self {
            Bits::Bits32 => 4,
            Bits::Bits64 => 8,
        }
    }

    /// One more than the highest address that the width can express.
    pub open spec fn spec_limit(self) -> int {
        match self {
            Bits::Bits32 => 0x1_0000_0000,
            Bits::Bits64 => 0x1_0000_0000_0000_0000,
        }
    }

    /// Whether `value` can be held in a pointer of this width.
    pub open spec fn spec_fits(self, value: u64) -> bool {
        (value as int) < self.spec_limit()
    }

    /// The number of bytes that a pointer occupies: 4 or 8.
    pub fn pointer_size(&self) -> (n: usize)
        ensures
            n == self.spec_pointer_size(),
    {
        match self {
            Bits::Bits32 => 4,
            Bits::Bits64 => 8,
        }
    }

    /// Whether `value` can be held in a pointer of this width.
    pub fn fits(&self, value: u64) -> (b: bool)
        ensures
            b == self.spec_fits(value),
    {
        match self {
            Bits::Bits32 => value <= 0xFFFF_FFFF,
            Bits::Bits64 => true,
        }
    }

    /// The sum of two addresses as the target computes it: modulo the width.
    pub open spec fn spec_wrapping_add(self, a: u64, b: u64) -> u64 {
        ((a as int + b as int) % self.spec_limit()) as u64
    }

    /// Pointer arithmetic in the target's width: the sum wraps at the limit.
    pub fn wrapping_add(&self, a: u64, b: u64) -> (sum: u64)
        ensures
            sum == self.spec_wrapping_add(a, b),
            (a as int) + (b as int) < self.spec_limit() ==> sum == a + b,
    {
        let wide: u64 = a.wrapping_add(b);
        match self {
            Bits::Bits32 => {
                let s: u64 = wide % 0x1_0000_0000;
                assert(s == ((a as int + b as int) % 0x1_0000_0000)) by {
                    if a as int + b as int >= 0x1_0000_0000_0000_0000 {
                        assert(wide == a as int + b as int - 0x1_0000_0000_0000_0000);
                    } else {
                        assert(wide == a as int + b as int);
                    }
                }
                s
            },
            Bits::Bits64 => {
                wide
            },
        }
    }
}

/// The process that an operation acts on.
#[derive(Clone, Copy, Debug, PartialEq, Eq, Structural)]
pub enum Target {
    /// The calling process.
    Local,
    /// Another process, known by an opaque handle and its pointer width.
    Remote { handle: u64, bits: Bits },
}

impl Target {
    /// The pointer width of the target. The calling process is taken to be
    /// as wide as `usize`.
    pub open spec fn spec_bits(self) -> Bits {
        match self {
            Target::Local => if usize::BITS == 64 {
                Bits::Bits64
            } else {
                Bits::Bits32
            },
            Target::Remote { bits, .. } => bits,
        }
    }

    /// The pointer width of the target.
    pub fn bits(&self) -> (b: Bits)
        ensures
            b == self.spec_bits(),
    {
        match self {
            Target::Local => if usize::BITS == 64 {
                Bits::Bits64
            } else {
                Bits::Bits32
            },
            Target::Remote { bits, .. } => *bits,
        }
    }

    /// Whether the target is the calling process.
    pub fn is_local(&self) -> (b: bool)
        ensures
            b == (*self is Local),
    {
        match self {
            Target::Local => true,
            Target::Remote { .. } => false,
        }
    }
}

} // verus!
