//! Typed access: unsigned integers and pointers, least significant byte
//! first.

use crate::endian::{decode_le, encode_le, fits_in, fits_width, le_bytes, le_value};
use crate::error::MemError;
use crate::memory::{bytes_at, readable, store, writable};
use crate::space::AddressSpace;
use vstd::prelude::*;

verus! {

/// A typed value is one to eight bytes wide.
pub open spec fn valid_width(width: usize) -> bool {
    1 <= width <= 8
}

impl AddressSpace {
    /// Reads an unsigned integer of `width` bytes, least significant byte
    /// first.
    ///
    /// A width outside one to eight is an invalid argument; otherwise the
    /// read succeeds and fails as a read of `width` bytes does.
    pub fn read_uint(&self, addr: u64, width: usize) -> (res: Result<u64, MemError>)
        requires
            self.inv(),
        ensures
            match res {
                Ok(value) => {
                    &&& valid_width(width)
                    &&& self.spec_alive()
                    &&& readable(self@, addr as int, width as int)
                    &&& value == le_value(bytes_at(self@, addr as int, width as nat))
                },
                Err(e) => if valid_width(width) {
                    &&& e == MemError::AccessError
                    &&& !(self.spec_alive() && readable(self@, addr as int, width as int))
                } else {
                    e == MemError::InvalidArgument
                },
            },
    {
        if width == 0 || width > 8 {
            return Err(MemError::InvalidArgument);
        }
        match self.read(addr, width) {
            Ok(bytes) => Ok(decode_le(bytes.as_slice())),
            Err(e) => Err(e),
        }
    }

    /// Writes `value` as an unsigned integer of `width` bytes, least
    /// significant byte first.
    ///
    /// A width outside one to eight, or a value that does not fit the width,
    /// is an invalid argument: nothing is cut off silently. Otherwise the
    /// write succeeds and fails as a write of `width` bytes does.
    pub fn write_uint(&mut self, addr: u64, width: usize, value: u64) -> (res: Result<
        (),
        MemError,
    >)
        requires
            old(self).inv(),
        ensures
            final(self).inv(),
            final(self).same_target(old(self)),
            match res {
                Ok(()) => {
                    &&& valid_width(width)
                    &&& fits_width(value, width as nat)
                    &&& old(self).spec_alive()
                    &&& writable(old(self)@, addr as int, width as int)
                    &&& final(self)@ == store(
                        old(self)@,
                        addr as int,
                        le_bytes(value as nat, width as nat),
                    )
                },
                Err(e) => {
                    &&& final(self)@ == old(self)@
                    &&& if valid_width(width) && fits_width(value, width as nat) {
                        &&& e == MemError::AccessError
                        &&& !(old(self).spec_alive() && writable(
                            old(self)@,
                            addr as int,
                            width as int,
                        ))
                    } else {
                        e == MemError::InvalidArgument
                    }
                },
            },
    {
        if width == 0 || width > 8 || !fits_in(value, width) {
            return Err(MemError::InvalidArgument);
        }
        let bytes = encode_le(value, width);
        self.write(addr, bytes.as_slice())
    }

    /// Reads a pointer of the target's width.
    pub fn read_pointer(&self, addr: u64) -> (res: Result<u64, MemError>)
        requires
            self.inv(),
        ensures
            match res {
                Ok(value) => {
                    &&& self.spec_alive()
                    &&& readable(self@, addr as int, self.spec_bits().spec_pointer_size() as int)
                    &&& value == le_value(
                        bytes_at(self@, addr as int, self.spec_bits().spec_pointer_size()),
                    )
                },
                Err(e) => {
                    &&& e == MemError::AccessError
                    &&& !(self.spec_alive() && readable(
                        self@,
                        addr as int,
                        self.spec_bits().spec_pointer_size() as int,
                    ))
                },
            },
    {
        self.read_uint(addr, self.bits().pointer_size())
    }

    /// Writes a pointer of the target's width. A value too wide for the
    /// target is an invalid argument.
    pub fn write_pointer(&mut self, addr: u64, value: u64) -> (res: Result<(), MemError>)
        requires
            old(self).inv(),
        ensures
            final(self).inv(),
            final(self).same_target(old(self)),
            match res {
                Ok(()) => {
                    &&& old(self).spec_bits().spec_fits(value)
                    &&& old(self).spec_alive()
                    &&& writable(
                        old(self)@,
                        addr as int,
                        old(self).spec_bits().spec_pointer_size() as int,
                    )
                    &&& final(self)@ == store(
                        old(self)@,
                        addr as int,
                        le_bytes(value as nat, old(self).spec_bits().spec_pointer_size()),
                    )
                },
                Err(e) => {
                    &&& final(self)@ == old(self)@
                    &&& if old(self).spec_bits().spec_fits(value) {
                        &&& e == MemError::AccessError
                        &&& !(old(self).spec_alive() && writable(
                            old(self)@,
                            addr as int,
                            old(self).spec_bits().spec_pointer_size() as int,
                        ))
                    } else {
                        e == MemError::InvalidArgument
                    }
                },
            },
    {
        proof {
            crate::endian::lemma_pow256_values();
        }
        let width: usize = self.bits().pointer_size();
        self.write_uint(addr, width, value)
    }
}

} // verus!
