//! Hooks of virtual method tables, one slot at a time.

use crate::endian::le_bytes;
use crate::error::MemError;
use crate::memory::{readable, store, writable, Cell};
use crate::space::AddressSpace;
use crate::target::Bits;
use crate::walker::pointer_at;
use std::collections::HashMap;
use vstd::prelude::*;

verus! {

broadcast use vstd::std_specs::hash::group_hash_axioms;

/// A view of a virtual method table: an array of pointer-sized slots that
/// stands in a target's memory at a known address, together with the
/// original value of every slot that is hooked.
///
/// The view owns no memory. The table is the caller's, and has to stay where
/// it is for as long as a hook is installed.
pub struct Vmt {
    base: u64,
    saved: HashMap<u64, u64>,
}

/// The address of slot `index` of a table at `base`, as a number that may lie
/// beyond the address space.
pub open spec fn slot_address(base: u64, bits: Bits, index: usize) -> int {
    base + index * bits.spec_pointer_size()
}

/// Whether slot `index` and all its bytes have addresses.
pub open spec fn slot_in_reach(base: u64, bits: Bits, index: usize) -> bool {
    slot_address(base, bits, index) + bits.spec_pointer_size() <= u64::MAX
}

/// What asking for the original of a slot answers: the saved value where the
/// slot is hooked, else the value that stands in the slot.
pub open spec fn original_of(
    originals: Map<u64, u64>,
    m: Map<int, Cell>,
    alive: bool,
    bits: Bits,
    base: u64,
    index: usize,
) -> Result<u64, MemError> {
    if originals.contains_key(index as u64) {
        Ok(originals[index as u64])
    } else if !slot_in_reach(base, bits, index) || !(alive && readable(
        m,
        slot_address(base, bits, index),
        bits.spec_pointer_size() as int,
    )) {
        Err(MemError::AccessError)
    } else {
        Ok(pointer_at(m, bits, slot_address(base, bits, index) as u64))
    }
}

/// Why hooking a slot is refused, if it is: the new value does not fit the
/// target's width; the slot has no address; the target is dead; the slot
/// cannot be read though its value has to be saved; the slot cannot be
/// written.
pub open spec fn vmt_hook_failure(
    originals: Map<u64, u64>,
    m: Map<int, Cell>,
    alive: bool,
    bits: Bits,
    base: u64,
    index: usize,
    value: u64,
) -> Option<MemError> {
    let slot = slot_address(base, bits, index);
    let width = bits.spec_pointer_size() as int;
    if !bits.spec_fits(value) {
        Some(MemError::InvalidArgument)
    } else if !slot_in_reach(base, bits, index) || !alive {
        Some(MemError::AccessError)
    } else if !originals.contains_key(index as u64) && !readable(m, slot, width) {
        Some(MemError::AccessError)
    } else if !writable(m, slot, width) {
        Some(MemError::AccessError)
    } else {
        None
    }
}

/// The saved originals after slot `index` was hooked: a first hook saves
/// what stood in the slot, a later one saves nothing.
pub open spec fn originals_after_hook(
    originals: Map<u64, u64>,
    m: Map<int, Cell>,
    bits: Bits,
    base: u64,
    index: usize,
) -> Map<u64, u64> {
    if originals.contains_key(index as u64) {
        originals
    } else {
        originals.insert(index as u64, pointer_at(m, bits, slot_address(base, bits, index) as u64))
    }
}

/// Why unhooking a hooked slot is refused, if it is: the slot has no
/// address; the saved value does not fit the target's width; the target is
/// dead or the slot cannot be written.
pub open spec fn vmt_unhook_failure(
    original: u64,
    m: Map<int, Cell>,
    alive: bool,
    bits: Bits,
    base: u64,
    index: usize,
) -> Option<MemError> {
    if !slot_in_reach(base, bits, index) {
        Some(MemError::AccessError)
    } else if !bits.spec_fits(original) {
        Some(MemError::InvalidArgument)
    } else if !(alive && writable(
        m,
        slot_address(base, bits, index),
        bits.spec_pointer_size() as int,
    )) {
        Some(MemError::AccessError)
    } else {
        None
    }
}

impl Vmt {
    /// The address of the table.
    pub closed spec fn spec_base(&self) -> u64 {
        self.base
    }

    /// The original value of every hooked slot, by slot index.
    pub closed spec fn originals(&self) -> Map<u64, u64> {
        self.saved@
    }

    /// A view of the table at `base`, with no slot hooked.
    pub fn new(base: u64) -> (vmt: Vmt)
        ensures
            vmt.spec_base() == base,
            vmt.originals() == Map::<u64, u64>::empty(),
    {
        Vmt { base, saved: HashMap::new() }
    }

    /// The address of the table.
    pub fn base(&self) -> (base: u64)
        ensures
            base == self.spec_base(),
    {
        self.base
    }

    /// Whether slot `index` is hooked.
    pub fn is_hooked(&self, index: usize) -> (hooked: bool)
        ensures
            hooked == self.originals().contains_key(index as u64),
    {
        self.saved.contains_key(&(index as u64))
    }

    /// The address of slot `index`, if the slot has one.
    fn slot(&self, bits: Bits, index: usize) -> (slot: Option<u64>)
        ensures
            match slot {
                Some(address) => slot_in_reach(self.spec_base(), bits, index) && address
                    == slot_address(self.spec_base(), bits, index),
                None => !slot_in_reach(self.spec_base(), bits, index),
            },
    {
        let width: u64 = bits.pointer_size() as u64;
        let offset: u64 = match (index as u64).checked_mul(width) {
            Some(offset) => offset,
            None => {
                return None;
            },
        };
        let address: u64 = match self.base.checked_add(offset) {
            Some(address) => address,
            None => {
                return None;
            },
        };
        match address.checked_add(width) {
            Some(_) => Some(address),
            None => None,
        }
    }

    /// The original value of slot `index`: the saved one if the slot is
    /// hooked, else the one that stands in the table.
    pub fn get_original(&self, space: &AddressSpace, index: usize) -> (res: Result<u64, MemError>)
        requires
            space.inv(),
        ensures
            res == original_of(
                self.originals(),
                space@,
                space.spec_alive(),
                space.spec_bits(),
                self.spec_base(),
                index,
            ),
    {
        match self.saved.get(&(index as u64)) {
            Some(original) => Ok(*original),
            None => {
                match self.slot(space.bits(), index) {
                    Some(address) => {
                        proof {
                            crate::endian::lemma_le_value_bound(
                                crate::memory::bytes_at(
                                    space@,
                                    address as int,
                                    space.spec_bits().spec_pointer_size(),
                                ),
                            );
                            crate::endian::lemma_pow256_values();
                        }
                        space.read_pointer(address)
                    },
                    None => Err(MemError::AccessError),
                }
            },
        }
    }

    /// Writes `value` into slot `index`. The first hook of a slot saves what
    /// stood there; a later one overwrites the slot and leaves the saved
    /// value alone. A hook that fails changes nothing.
    pub fn hook(&mut self, space: &mut AddressSpace, index: usize, value: u64) -> (res: Result<
        (),
        MemError,
    >)
        requires
            old(space).inv(),
        ensures
            final(space).inv(),
            final(space).same_target(old(space)),
            final(self).spec_base() == old(self).spec_base(),
            match res {
                Ok(()) => {
                    &&& vmt_hook_failure(
                        old(self).originals(),
                        old(space)@,
                        old(space).spec_alive(),
                        old(space).spec_bits(),
                        old(self).spec_base(),
                        index,
                        value,
                    ) is None
                    &&& final(space)@ == store(
                        old(space)@,
                        slot_address(old(self).spec_base(), old(space).spec_bits(), index),
                        le_bytes(value as nat, old(space).spec_bits().spec_pointer_size()),
                    )
                    &&& final(self).originals() == originals_after_hook(
                        old(self).originals(),
                        old(space)@,
                        old(space).spec_bits(),
                        old(self).spec_base(),
                        index,
                    )
                },
                Err(e) => {
                    &&& vmt_hook_failure(
                        old(self).originals(),
                        old(space)@,
                        old(space).spec_alive(),
                        old(space).spec_bits(),
                        old(self).spec_base(),
                        index,
                        value,
                    ) == Some(e)
                    &&& final(space)@ == old(space)@
                    &&& final(self).originals() == old(self).originals()
                },
            },
    {
        let bits = space.bits();
        if !bits.fits(value) {
            return Err(MemError::InvalidArgument);
        }
        let address: u64 = match self.slot(bits, index) {
            Some(address) => address,
            None => {
                return Err(MemError::AccessError);
            },
        };
        if !space.is_alive() {
            return Err(MemError::AccessError);
        }
        if self.saved.contains_key(&(index as u64)) {
            space.write_pointer(address, value)
        } else {
            let current: u64 = match space.read_pointer(address) {
                Ok(current) => current,
                Err(e) => {
                    return Err(e);
                },
            };
            proof {
                crate::endian::lemma_le_value_bound(
                    crate::memory::bytes_at(
                        space@,
                        address as int,
                        space.spec_bits().spec_pointer_size(),
                    ),
                );
                crate::endian::lemma_pow256_values();
            }
            match space.write_pointer(address, value) {
                Ok(()) => {
                    self.saved.insert(index as u64, current);
                    Ok(())
                },
                Err(e) => Err(e),
            }
        }
    }

    /// Writes the saved original back into slot `index` and forgets it.
    /// Unhooking a slot that is not hooked does nothing and succeeds. An
    /// unhook that fails changes nothing.
    pub fn unhook(&mut self, space: &mut AddressSpace, index: usize) -> (res: Result<(), MemError>)
        requires
            old(space).inv(),
        ensures
            final(space).inv(),
            final(space).same_target(old(space)),
            final(self).spec_base() == old(self).spec_base(),
            !old(self).originals().contains_key(index as u64) ==> {
                &&& res is Ok
                &&& final(space)@ == old(space)@
                &&& final(self).originals() == old(self).originals()
            },
            old(self).originals().contains_key(index as u64) ==> match res {
                Ok(()) => {
                    &&& vmt_unhook_failure(
                        old(self).originals()[index as u64],
                        old(space)@,
                        old(space).spec_alive(),
                        old(space).spec_bits(),
                        old(self).spec_base(),
                        index,
                    ) is None
                    &&& final(space)@ == store(
                        old(space)@,
                        slot_address(old(self).spec_base(), old(space).spec_bits(), index),
                        le_bytes(
                            old(self).originals()[index as u64] as nat,
                            old(space).spec_bits().spec_pointer_size(),
                        ),
                    )
                    &&& final(self).originals() == old(self).originals().remove(index as u64)
                },
                Err(e) => {
                    &&& vmt_unhook_failure(
                        old(self).originals()[index as u64],
                        old(space)@,
                        old(space).spec_alive(),
                        old(space).spec_bits(),
                        old(self).spec_base(),
                        index,
                    ) == Some(e)
                    &&& final(space)@ == old(space)@
                    &&& final(self).originals() == old(self).originals()
                },
            },
    {
        let original: u64 = match self.saved.get(&(index as u64)) {
            Some(original) => *original,
            None => {
                return Ok(());
            },
        };
        let address: u64 = match self.slot(space.bits(), index) {
            Some(address) => address,
            None => {
                return Err(MemError::AccessError);
            },
        };
        match space.write_pointer(address, original) {
            Ok(()) => {
                self.saved.remove(&(index as u64));
                Ok(())
            },
            Err(e) => Err(e),
        }
    }
}

} // verus!
