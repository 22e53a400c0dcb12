//! Needles, masks and signatures, and where they are found in a sequence of
//! bytes.

use crate::error::MemError;
use crate::least::{lemma_lowest_none, lemma_lowest_some, lowest};
use vstd::prelude::*;

verus! {

/// The byte `x`, which marks a fixed position of a mask.
pub const MASK_FIXED: u8 = 0x78;

/// The byte `?`, which marks a wildcard position of a mask and, doubled, a
/// wildcard token of a signature.
pub const MASK_WILD: u8 = 0x3F;

/// The space that separates the tokens of a signature.
pub const SIG_SEPARATOR: u8 = 0x20;

/// The bytes of `needle` stand in `hay` from offset `k` on.
pub open spec fn occurs_at(hay: Seq<u8>, needle: Seq<u8>, k: int) -> bool {
    &&& 0 <= k
    &&& k + needle.len() <= hay.len()
    &&& hay.subrange(k, k + needle.len()) == needle
}

/// The lowest offset at which `needle` occurs in `hay`.
pub open spec fn first_occurrence(hay: Seq<u8>, needle: Seq<u8>) -> Option<int> {
    lowest(|k: int| occurs_at(hay, needle, k))
}

/// Every fixed token of `pattern` equals the byte of `hay` that it meets when
/// the pattern is laid over `hay` from offset `k` on. Wildcards meet anything.
pub open spec fn matches_at(hay: Seq<u8>, pattern: Seq<Option<u8>>, k: int) -> bool {
    &&& 0 <= k
    &&& k + pattern.len() <= hay.len()
    &&& forall|j: int|
        0 <= j < pattern.len() ==> ((#[trigger] pattern[j]) matches Some(b) ==> hay[k + j] == b)
}

/// The lowest offset at which `pattern` matches in `hay`.
pub open spec fn first_match(hay: Seq<u8>, pattern: Seq<Option<u8>>) -> Option<int> {
    lowest(|k: int| matches_at(hay, pattern, k))
}

/// The pattern that fixes every byte of `needle`.
pub open spec fn exact(needle: Seq<u8>) -> Seq<Option<u8>> {
    Seq::new(needle.len(), |i: int| Some(needle[i]))
}

/// A mask is made of the bytes `x` and `?` alone.
pub open spec fn valid_mask(mask: Seq<u8>) -> bool {
    forall|i: int|
        0 <= i < mask.len() ==> (#[trigger] mask[i]) == MASK_FIXED || mask[i] == MASK_WILD
}

/// The pattern that `needle` and `mask` stand for: the byte of `needle` where
/// the mask says `x`, a wildcard where it says `?`.
pub open spec fn masked(needle: Seq<u8>, mask: Seq<u8>) -> Seq<Option<u8>> {
    Seq::new(
        needle.len(),
        |i: int|
            if mask[i] == MASK_FIXED {
                Some(needle[i])
            } else {
                None
            },
    )
}

/// The value of a hexadecimal digit, in either case.
pub open spec fn hex_value(c: u8) -> Option<u8> {
    if 0x30 <= c <= 0x39 {
        Some((c - 0x30) as u8)
    } else if 0x41 <= c <= 0x46 {
        Some((c - 0x41 + 10) as u8)
    } else if 0x61 <= c <= 0x66 {
        Some((c - 0x61 + 10) as u8)
    } else {
        None
    }
}

/// What the two characters of a signature token stand for: `??` is a
/// wildcard, two hexadecimal digits are a fixed byte, anything else is no
/// token.
pub open spec fn token_value(hi: u8, lo: u8) -> Option<Option<u8>> {
    if hi == MASK_WILD && lo == MASK_WILD {
        Some(None)
    } else if hex_value(hi) is Some && hex_value(lo) is Some {
        Some(Some((hex_value(hi)->0 * 16 + hex_value(lo)->0) as u8))
    } else {
        None
    }
}

/// The number of tokens of a signature text of the right length.
pub open spec fn token_count(text: Seq<u8>) -> int {
    (text.len() as int + 1) / 3
}

/// The `i`-th token of a signature text.
pub open spec fn token_at(text: Seq<u8>, i: int) -> Option<Option<u8>> {
    token_value(text[3 * i], text[3 * i + 1])
}

/// A space follows the `i`-th token of a signature text.
pub open spec fn separated_at(text: Seq<u8>, i: int) -> bool {
    text[3 * i + 2] == SIG_SEPARATOR
}

/// A signature is one or more two-character tokens with exactly one space
/// between neighbours and nothing before, after or besides.
pub open spec fn valid_signature(text: Seq<u8>) -> bool {
    &&& text.len() % 3 == 2
    &&& forall|i: int| 0 <= i < token_count(text) ==> (#[trigger] token_at(text, i)) is Some
    &&& forall|i: int| 0 <= i < token_count(text) - 1 ==> #[trigger] separated_at(text, i)
}

/// The pattern that a valid signature text stands for.
pub open spec fn signature_pattern(text: Seq<u8>) -> Seq<Option<u8>> {
    Seq::new(token_count(text) as nat, |i: int| token_at(text, i)->0)
}

/// A first occurrence lies wholly inside `hay`.
pub proof fn lemma_occurrence_in_bounds(hay: Seq<u8>, needle: Seq<u8>)
    ensures
        first_occurrence(hay, needle) matches Some(k) ==> 0 <= k && k + needle.len() <= hay.len()
            && occurs_at(hay, needle, k),
{
    let p = |k: int| occurs_at(hay, needle, k);
    if let Some(k) = lowest(p) {
        let c = choose|c: int| crate::least::is_lowest(p, c);
        assert(p(c));
    }
}

/// A first match lies wholly inside `hay`.
pub proof fn lemma_match_in_bounds(hay: Seq<u8>, pattern: Seq<Option<u8>>)
    ensures
        first_match(hay, pattern) matches Some(k) ==> 0 <= k && k + pattern.len() <= hay.len()
            && matches_at(hay, pattern, k),
{
    let p = |k: int| matches_at(hay, pattern, k);
    if let Some(k) = lowest(p) {
        let c = choose|c: int| crate::least::is_lowest(p, c);
        assert(p(c));
    }
}

/// Tells whether `needle` stands in `hay` at offset `k`, which leaves room
/// for it.
pub(crate) fn occurs_here(hay: &[u8], needle: &[u8], k: usize) -> (b: bool)
    requires
        k + needle@.len() <= hay@.len(),
    ensures
        b == occurs_at(hay@, needle@, k as int),
{
    let total: usize = hay.len();
    let mut j: usize = 0;
    while j < needle.len()
        invariant
            j <= needle@.len(),
            total == hay@.len(),
            k + needle@.len() <= hay@.len(),
            forall|i: int| 0 <= i < j ==> hay@[k + i] == needle@[i],
        decreases needle@.len() - j,
    {
        if hay[k + j] != needle[j] {
            proof {
                let sub = hay@.subrange(k as int, k + needle@.len());
                assert(sub[j as int] == hay@[k + j]);
            }
            return false;
        }
        j += 1;
    }
    assert(hay@.subrange(k as int, k + needle@.len()) =~= needle@);
    true
}

/// Finds the lowest offset at which `needle` occurs in `hay`.
///
/// A needle longer than `hay` occurs nowhere; an empty needle occurs at
/// offset zero.
pub fn find_bytes(hay: &[u8], needle: &[u8]) -> (found: Option<usize>)
    ensures
        match found {
            Some(k) => first_occurrence(hay@, needle@) == Some(k as int),
            None => first_occurrence(hay@, needle@) is None,
        },
{
    let ghost p = |k: int| occurs_at(hay@, needle@, k);
    if needle.len() > hay.len() {
        proof {
            lemma_lowest_none(p);
        }
        return None;
    }
    let last: usize = hay.len() - needle.len();
    let mut k: usize = 0;
    loop
        invariant
            last == hay@.len() - needle@.len(),
            k <= last,
            p == (|k: int| occurs_at(hay@, needle@, k)),
            forall|j: int| 0 <= j < k ==> !#[trigger] p(j),
        decreases last - k,
    {
        if occurs_here(hay, needle, k) {
            proof {
                lemma_lowest_some(p, k as int);
            }
            return Some(k);
        }
        if k == last {
            proof {
                lemma_lowest_none(p);
            }
            return None;
        }
        k += 1;
    }
}

/// Whether `pattern` matches in `hay` at offset `k`, which leaves room for it.
fn matches_here(hay: &[u8], pattern: &[Option<u8>], k: usize) -> (b: bool)
    requires
        k + pattern@.len() <= hay@.len(),
    ensures
        b == matches_at(hay@, pattern@, k as int),
{
    let total: usize = hay.len();
    let mut j: usize = 0;
    while j < pattern.len()
        invariant
            j <= pattern@.len(),
            total == hay@.len(),
            k + pattern@.len() <= hay@.len(),
            forall|i: int|
                0 <= i < j ==> ((#[trigger] pattern@[i]) matches Some(b) ==> hay@[k + i] == b),
        decreases pattern@.len() - j,
    {
        match pattern[j] {
            Some(b) => {
                if hay[k + j] != b {
                    assert(pattern@[j as int] == Some(b));
                    return false;
                }
            },
            None => {},
        }
        j += 1;
    }
    true
}

/// Finds the lowest offset at which `pattern` matches in `hay`: every fixed
/// token must equal the byte it meets, a wildcard meets any byte.
pub fn find_pattern(hay: &[u8], pattern: &[Option<u8>]) -> (found: Option<usize>)
    ensures
        match found {
            Some(k) => first_match(hay@, pattern@) == Some(k as int),
            None => first_match(hay@, pattern@) is None,
        },
{
    let ghost p = |k: int| matches_at(hay@, pattern@, k);
    if pattern.len() > hay.len() {
        proof {
            lemma_lowest_none(p);
        }
        return None;
    }
    let last: usize = hay.len() - pattern.len();
    let mut k: usize = 0;
    loop
        invariant
            last == hay@.len() - pattern@.len(),
            k <= last,
            p == (|k: int| matches_at(hay@, pattern@, k)),
            forall|j: int| 0 <= j < k ==> !#[trigger] p(j),
        decreases last - k,
    {
        if matches_here(hay, pattern, k) {
            proof {
                lemma_lowest_some(p, k as int);
            }
            return Some(k);
        }
        if k == last {
            proof {
                lemma_lowest_none(p);
            }
            return None;
        }
        k += 1;
    }
}

/// Combines a needle and its mask into a pattern.
///
/// The two must be equally long and the mask made of `x` and `?` alone.
pub fn apply_mask(needle: &[u8], mask: &[u8]) -> (res: Result<Vec<Option<u8>>, MemError>)
    ensures
        match res {
            Ok(pattern) => {
                &&& needle@.len() == mask@.len()
                &&& valid_mask(mask@)
                &&& pattern@ == masked(needle@, mask@)
            },
            Err(e) => {
                &&& e == MemError::InvalidArgument
                &&& (needle@.len() != mask@.len() || !valid_mask(mask@))
            },
        },
{
    if needle.len() != mask.len() {
        return Err(MemError::InvalidArgument);
    }
    let mut pattern: Vec<Option<u8>> = Vec::new();
    let mut i: usize = 0;
    while i < needle.len()
        invariant
            needle@.len() == mask@.len(),
            i <= needle@.len(),
            pattern@.len() == i,
            forall|j: int|
                0 <= j < i ==> (#[trigger] mask@[j]) == MASK_FIXED || mask@[j] == MASK_WILD,
            forall|j: int| 0 <= j < i ==> (#[trigger] pattern@[j]) == masked(needle@, mask@)[j],
        decreases needle@.len() - i,
    {
        let m: u8 = mask[i];
        if m == MASK_FIXED {
            pattern.push(Some(needle[i]));
        } else if m == MASK_WILD {
            pattern.push(None);
        } else {
            return Err(MemError::InvalidArgument);
        }
        i += 1;
    }
    assert(pattern@ =~= masked(needle@, mask@));
    Ok(pattern)
}

/// The value of a hexadecimal digit, in either case.
fn hex_digit(c: u8) -> (v: Option<u8>)
    ensures
        v == hex_value(c),
        v matches Some(d) ==> d < 16,
{
    if 0x30 <= c && c <= 0x39 {
        Some(c - 0x30)
    } else if 0x41 <= c && c <= 0x46 {
        Some(c - 0x41 + 10)
    } else if 0x61 <= c && c <= 0x66 {
        Some(c - 0x61 + 10)
    } else {
        None
    }
}

/// Reads one token of a signature from its two characters.
fn parse_token(hi: u8, lo: u8) -> (t: Option<Option<u8>>)
    ensures
        t == token_value(hi, lo),
{
    if hi == MASK_WILD && lo == MASK_WILD {
        return Some(None);
    }
    match hex_digit(hi) {
        Some(h) => match hex_digit(lo) {
            Some(l) => Some(Some(h * 16 + l)),
            None => None,
        },
        None => None,
    }
}

/// Reads a signature, such as `10 ?? 30 ?? ?? 05 02`, into a pattern.
///
/// The text is accepted exactly when it is one or more tokens, each two
/// hexadecimal digits or `??`, with single spaces between them.
pub fn parse_signature(text: &[u8]) -> (res: Result<Vec<Option<u8>>, MemError>)
    ensures
        match res {
            Ok(pattern) => valid_signature(text@) && pattern@ == signature_pattern(text@),
            Err(e) => e == MemError::InvalidArgument && !valid_signature(text@),
        },
{
    if text.len() % 3 != 2 {
        return Err(MemError::InvalidArgument);
    }
    let total: usize = text.len();
    let count: usize = (total - 2) / 3 + 1;
    let mut pattern: Vec<Option<u8>> = Vec::new();
    let mut i: usize = 0;
    while i < count
        invariant
            total == text@.len(),
            text@.len() % 3 == 2,
            count == token_count(text@),
            i <= count,
            pattern@.len() == i,
            forall|j: int| 0 <= j < i ==> (#[trigger] token_at(text@, j)) == Some(pattern@[j]),
            forall|j: int| 0 <= j < i && j < count - 1 ==> #[trigger] separated_at(text@, j),
        decreases count - i,
    {
        match parse_token(text[3 * i], text[3 * i + 1]) {
            Some(t) => {
                pattern.push(t);
            },
            None => {
                assert(token_at(text@, i as int) is None);
                return Err(MemError::InvalidArgument);
            },
        }
        if i + 1 < count {
            if text[3 * i + 2] != SIG_SEPARATOR {
                assert(!separated_at(text@, i as int));
                return Err(MemError::InvalidArgument);
            }
        }
        i += 1;
    }
    assert(pattern@ =~= signature_pattern(text@));
    Ok(pattern)
}

} // verus!
