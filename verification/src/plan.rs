//! The decisions of a hook that need no access to the target: how many
//! bytes to displace, what to write into the trampoline and over the entry
//! of the function, and what a trampoline gives back at unhook time.

use crate::code::{
    build_patch, build_trampoline, code_length, code_length_of, entry_patch, jump_bytes, jump_code,
    jump_length, jump_size, take_bytes, trampoline_bytes, Instruction,
};
use crate::error::MemError;
use crate::pattern::occurs_here;
use crate::target::Bits;
use vstd::prelude::*;

verus! {

/// The number of bytes that a hook of the function at `site` displaces:
/// the length of the fewest whole instructions that hold the jump. Both
/// addresses have to fit the target's width.
pub open spec fn displacement_of(
    bits: Bits,
    insts: Seq<Instruction>,
    site: u64,
    detour: u64,
) -> Result<nat, MemError> {
    if !bits.spec_fits(site) || !bits.spec_fits(detour) {
        Err(MemError::InvalidArgument)
    } else {
        code_length_of(insts, site, jump_length(bits))
    }
}

/// Why no trampoline can be made for `len` displaced bytes, if none can: the
/// bytes and the jump back do not fit in a page, or the end of the
/// trampoline or of the hook site is no address.
pub open spec fn trampoline_failure(bits: Bits, len: nat, address: u64, site: u64) -> Option<
    MemError,
> {
    if len + jump_length(bits) > 4096 {
        Some(MemError::AllocationError)
    } else if address + len > u64::MAX || site + len > u64::MAX {
        Some(MemError::AccessError)
    } else {
        None
    }
}

/// What a trampoline gives back: the displaced bytes that it holds in front
/// of its jump back. `code` is the first `size` bytes of the trampoline and
/// the jump behind them. A trampoline that does not end with the jump back
/// behind the hook site gives nothing.
pub open spec fn kept_original(
    bits: Bits,
    code: Seq<u8>,
    address: u64,
    site: u64,
    size: usize,
) -> Result<Seq<u8>, MemError> {
    let jump = jump_length(bits);
    if size < jump || code.len() != size + jump || address + size > u64::MAX || site + size
        > u64::MAX {
        Err(MemError::InvalidArgument)
    } else if code.subrange(size as int, size + jump) != jump_bytes(
        bits,
        (address + size) as u64,
        (site + size) as u64,
    ) {
        Err(MemError::InvalidArgument)
    } else {
        Ok(code.subrange(0, size as int))
    }
}

/// Tells how many bytes a hook of the function at `site` displaces, given
/// the instructions decoded from `site` on.
pub fn displaced_length(bits: Bits, insts: &[Instruction], site: u64, detour: u64) -> (res: Result<
    usize,
    MemError,
>)
    ensures
        match res {
            Ok(n) => displacement_of(bits, insts@, site, detour) == Ok::<nat, MemError>(n as nat),
            Err(e) => displacement_of(bits, insts@, site, detour) == Err::<nat, MemError>(e),
        },
{
    if !bits.fits(site) || !bits.fits(detour) {
        return Err(MemError::InvalidArgument);
    }
    code_length(insts, site, jump_size(bits))
}

/// Makes the code of a trampoline that stands at `address` for the function
/// at `site` whose displaced bytes are `original`.
pub fn trampoline_code(bits: Bits, original: &[u8], address: u64, site: u64) -> (res: Result<
    Vec<u8>,
    MemError,
>)
    ensures
        match res {
            Ok(code) => {
                &&& trampoline_failure(bits, original@.len(), address, site) is None
                &&& code@ == trampoline_bytes(bits, original@, address, site)
                &&& code@.len() == original@.len() + jump_length(bits)
            },
            Err(e) => trampoline_failure(bits, original@.len(), address, site) == Some(e),
        },
{
    let len: usize = original.len();
    let jump: usize = jump_size(bits);
    if len > 4096 - jump {
        return Err(MemError::AllocationError);
    }
    if address > u64::MAX - len as u64 || site > u64::MAX - len as u64 {
        return Err(MemError::AccessError);
    }
    Ok(build_trampoline(bits, original, address, site))
}

/// Makes the bytes that replace the first `size` bytes of the function at
/// `site`: a jump to `detour` and its padding. Fewer bytes than a jump has
/// are an invalid argument.
pub fn entry_code(
    bits: Bits,
    site: u64,
    detour: u64,
    size: usize,
) -> (res: Result<Vec<u8>, MemError>)
    ensures
        match res {
            Ok(code) => {
                &&& size >= jump_length(bits)
                &&& code@ == entry_patch(bits, site, detour, size as nat)
                &&& code@.len() == size
            },
            Err(e) => e == MemError::InvalidArgument && size < jump_length(bits),
        },
{
    if size < jump_size(bits) {
        return Err(MemError::InvalidArgument);
    }
    Ok(build_patch(bits, site, detour, size))
}

/// Takes the displaced bytes out of what was read from a trampoline, after
/// making sure that the trampoline leads back behind the hook site.
pub fn original_bytes(
    bits: Bits,
    code: &[u8],
    address: u64,
    site: u64,
    size: usize,
) -> (res: Result<Vec<u8>, MemError>)
    ensures
        match res {
            Ok(original) => kept_original(bits, code@, address, site, size) == Ok::<
                Seq<u8>,
                MemError,
            >(original@),
            Err(e) => kept_original(bits, code@, address, site, size) == Err::<Seq<u8>, MemError>(
                e,
            ),
        },
{
    let jump: usize = jump_size(bits);
    let len: usize = code.len();
    if size < jump || len < jump || len - jump != size {
        return Err(MemError::InvalidArgument);
    }
    if address > u64::MAX - size as u64 || site > u64::MAX - size as u64 {
        return Err(MemError::InvalidArgument);
    }
    let back = jump_code(bits, address + size as u64, site + size as u64);
    if !occurs_here(code, back.as_slice(), size) {
        return Err(MemError::InvalidArgument);
    }
    Ok(take_bytes(code, size))
}

} // verus!
