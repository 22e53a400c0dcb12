//! Pointer chains.

use crate::endian::le_value;
use crate::error::MemError;
use crate::memory::{bytes_at, readable, Cell};
use crate::space::AddressSpace;
use crate::target::Bits;
use vstd::prelude::*;

verus! {

/// The pointer stored at `addr`, in the target's width.
pub open spec fn pointer_at(m: Map<int, Cell>, bits: Bits, addr: u64) -> u64 {
    le_value(bytes_at(m, addr as int, bits.spec_pointer_size())) as u64
}

/// Where a chain of offsets leads from `base`.
///
/// No offset leaves `base` as it is. The last offset is added to the current
/// address. Every offset before it is added to the pointer that is stored at
/// the current address, which has to be readable. Sums wrap at the target's
/// width.
pub open spec fn resolve(
    m: Map<int, Cell>,
    alive: bool,
    bits: Bits,
    base: u64,
    offsets: Seq<u64>,
) -> Result<u64, MemError>
    decreases offsets.len(),
{
    if offsets.len() == 0 {
        Ok(base)
    } else if offsets.len() == 1 {
        Ok(bits.spec_wrapping_add(base, offsets[0]))
    } else if !(alive && readable(m, base as int, bits.spec_pointer_size() as int)) {
        Err(MemError::AccessError)
    } else {
        resolve(
            m,
            alive,
            bits,
            bits.spec_wrapping_add(pointer_at(m, bits, base), offsets[0]),
            offsets.drop_first(),
        )
    }
}

/// Resolves a base address and a list of offsets into a final address.
///
/// It fails with an access error at the first pointer that cannot be read.
/// The final address itself is not checked.
pub fn deep_pointer(space: &AddressSpace, base: u64, offsets: &[u64]) -> (res: Result<
    u64,
    MemError,
>)
    requires
        space.inv(),
    ensures
        res == resolve(space@, space.spec_alive(), space.spec_bits(), base, offsets@),
{
    let n: usize = offsets.len();
    if n == 0 {
        return Ok(base);
    }
    let bits = space.bits();
    let mut current: u64 = base;
    let mut i: usize = 0;
    assert(offsets@.subrange(0, n as int) =~= offsets@);
    while i + 1 < n
        invariant
            space.inv(),
            n == offsets@.len(),
            bits == space.spec_bits(),
            i < n,
            resolve(space@, space.spec_alive(), bits, base, offsets@) == resolve(
                space@,
                space.spec_alive(),
                bits,
                current,
                offsets@.subrange(i as int, n as int),
            ),
        decreases n - i,
    {
        let ghost rest = offsets@.subrange(i as int, n as int);
        assert(rest.len() >= 2);
        assert(rest[0] == offsets@[i as int]);
        assert(rest.drop_first() =~= offsets@.subrange(i + 1, n as int));
        match space.read_pointer(current) {
            Ok(pointer) => {
                current = bits.wrapping_add(pointer, offsets[i]);
            },
            Err(e) => {
                return Err(e);
            },
        }
        i += 1;
    }
    let ghost rest = offsets@.subrange(i as int, n as int);
    assert(rest.len() == 1 && rest[0] == offsets@[i as int]);
    Ok(bits.wrapping_add(current, offsets[i]))
}

} // verus!
