//! Scans of a region of a target.

use crate::error::MemError;
use crate::memory::{bytes_at, readable, Cell};
use crate::pattern::{
    apply_mask, find_bytes, find_pattern, first_match, first_occurrence, masked, parse_signature,
    signature_pattern, valid_mask, valid_signature,
};
use crate::space::AddressSpace;
use vstd::prelude::*;
use vstd::string::*;

verus! {

/// What a scan of the region answers, given where the needle was first
/// found in it, if anywhere: the address of the find, `NotFound` where there
/// is none, an access error where the region cannot be read as a whole.
pub open spec fn scan_result(
    m: Map<int, Cell>,
    alive: bool,
    start: u64,
    size: usize,
    found: Option<int>,
) -> Result<u64, MemError> {
    if !(alive && readable(m, start as int, size as int)) {
        Err(MemError::AccessError)
    } else {
        match found {
            Some(k) => Ok((start + k) as u64),
            None => Err(MemError::NotFound),
        }
    }
}

/// What a scan for the exact bytes of `needle` answers.
pub open spec fn data_scan_result(
    m: Map<int, Cell>,
    alive: bool,
    needle: Seq<u8>,
    start: u64,
    size: usize,
) -> Result<u64, MemError> {
    if needle.len() == 0 {
        Err(MemError::InvalidArgument)
    } else {
        scan_result(
            m,
            alive,
            start,
            size,
            first_occurrence(bytes_at(m, start as int, size as nat), needle),
        )
    }
}

/// What a scan for `pattern` answers.
pub open spec fn pattern_result(
    m: Map<int, Cell>,
    alive: bool,
    pattern: Seq<Option<u8>>,
    start: u64,
    size: usize,
) -> Result<u64, MemError> {
    if pattern.len() == 0 {
        Err(MemError::InvalidArgument)
    } else {
        scan_result(
            m,
            alive,
            start,
            size,
            first_match(bytes_at(m, start as int, size as nat), pattern),
        )
    }
}

/// Turns an offset found in the bytes of a region into an address.
fn found_address(start: u64, size: usize, found: Option<usize>, needle_len: usize) -> (res: Result<
    u64,
    MemError,
>)
    requires
        size > 0 ==> start + size - 1 <= u64::MAX,
        found matches Some(k) ==> k + needle_len <= size,
        needle_len > 0,
    ensures
        res == match found {
            Some(k) => Ok::<u64, MemError>((start + k) as u64),
            None => Err::<u64, MemError>(MemError::NotFound),
        },
{
    match found {
        Some(k) => Ok(start + k as u64),
        None => Err(MemError::NotFound),
    }
}

/// Finds the first place in the region where the bytes of `needle` stand.
///
/// The region is read as a whole, so it has to be readable as a whole. A
/// needle longer than the region is found nowhere; an empty needle is an
/// invalid argument.
pub fn data_scan(space: &AddressSpace, needle: &[u8], start: u64, size: usize) -> (res: Result<
    u64,
    MemError,
>)
    requires
        space.inv(),
    ensures
        res == data_scan_result(space@, space.spec_alive(), needle@, start, size),
{
    if needle.len() == 0 {
        return Err(MemError::InvalidArgument);
    }
    let region = match space.read(start, size) {
        Ok(bytes) => bytes,
        Err(e) => {
            return Err(e);
        },
    };
    proof {
        space.lemma_paged();
        if size > 0 {
            assert(space@.dom().contains(start + size - 1));
        }
    }
    let found = find_bytes(region.as_slice(), needle);
    proof {
        crate::pattern::lemma_occurrence_in_bounds(region@, needle@);
    }
    found_address(start, size, found, needle.len())
}

/// Finds the first place in the region where `pattern` matches.
///
/// An empty pattern is an invalid argument.
pub fn scan_pattern(space: &AddressSpace, pattern: &[Option<u8>], start: u64, size: usize) -> (res:
    Result<u64, MemError>)
    requires
        space.inv(),
    ensures
        res == pattern_result(space@, space.spec_alive(), pattern@, start, size),
{
    if pattern.len() == 0 {
        return Err(MemError::InvalidArgument);
    }
    let region = match space.read(start, size) {
        Ok(bytes) => bytes,
        Err(e) => {
            return Err(e);
        },
    };
    proof {
        space.lemma_paged();
        if size > 0 {
            assert(space@.dom().contains(start + size - 1));
        }
    }
    let found = find_pattern(region.as_slice(), pattern);
    proof {
        crate::pattern::lemma_match_in_bounds(region@, pattern@);
    }
    found_address(start, size, found, pattern.len())
}

/// Finds the first place in the region where every byte of `needle` that
/// `mask` marks with `x` stands; positions marked `?` match anything.
///
/// A mask of another length than the needle, or with another character, is
/// an invalid argument, and so is an empty needle.
pub fn pattern_scan(
    space: &AddressSpace,
    needle: &[u8],
    mask: &str,
    start: u64,
    size: usize,
) -> (res: Result<u64, MemError>)
    requires
        space.inv(),
    ensures
        res == if needle@.len() == mask.spec_bytes().len() && valid_mask(mask.spec_bytes()) {
            pattern_result(
                space@,
                space.spec_alive(),
                masked(needle@, mask.spec_bytes()),
                start,
                size,
            )
        } else {
            Err(MemError::InvalidArgument)
        },
{
    match apply_mask(needle, mask.as_bytes()) {
        Ok(pattern) => scan_pattern(space, pattern.as_slice(), start, size),
        Err(e) => Err(e),
    }
}

/// Finds the first place in the region where the signature matches.
///
/// The signature is text such as `10 ?? 30 ?? ?? 05 02`. Text that is no
/// signature is an invalid argument, found before the region is touched.
pub fn sig_scan(space: &AddressSpace, signature: &str, start: u64, size: usize) -> (res: Result<
    u64,
    MemError,
>)
    requires
        space.inv(),
    ensures
        res == if valid_signature(signature.spec_bytes()) {
            pattern_result(
                space@,
                space.spec_alive(),
                signature_pattern(signature.spec_bytes()),
                start,
                size,
            )
        } else {
            Err(MemError::InvalidArgument)
        },
{
    match parse_signature(signature.as_bytes()) {
        Ok(pattern) => scan_pattern(space, pattern.as_slice(), start, size),
        Err(e) => Err(e),
    }
}

} // verus!
