//! Numbers as bytes, least significant byte first.

use vstd::arithmetic::div_mod::lemma_mod_breakdown;
use vstd::prelude::*;

verus! {

/// The widest unsigned integer, in bytes, that the typed accessors handle.
pub const MAX_WIDTH: usize = 8;

/// 256 to the power of `width`: the number of values that `width` bytes hold.
pub open spec fn pow256(width: nat) -> nat
    decreases width,
{
    if width == 0 {
        1
    } else {
        256 * pow256((width - 1) as nat)
    }
}

/// The number that `bytes` stand for, least significant byte first.
pub open spec fn le_value(bytes: Seq<u8>) -> nat
    decreases bytes.len(),
{
    if bytes.len() == 0 {
        0
    } else {
        bytes[0] as nat + 256 * le_value(bytes.drop_first())
    }
}

/// The `width` low bytes of `value`, least significant byte first.
pub open spec fn le_bytes(value: nat, width: nat) -> Seq<u8>
    decreases width,
{
    if width == 0 {
        Seq::empty()
    } else {
        seq![(value % 256) as u8] + le_bytes(value / 256, (width - 1) as nat)
    }
}

/// The values of `pow256` for the widths in use.
pub proof fn lemma_pow256_values()
    ensures
        pow256(0) == 1,
        pow256(1) == 0x100,
        pow256(2) == 0x1_0000,
        pow256(3) == 0x100_0000,
        pow256(4) == 0x1_0000_0000,
        pow256(5) == 0x100_0000_0000,
        pow256(6) == 0x1_0000_0000_0000,
        pow256(7) == 0x100_0000_0000_0000,
        pow256(8) == 0x1_0000_0000_0000_0000,
{
    reveal_with_fuel(pow256, 10);
}

/// `pow256` is never zero.
pub proof fn lemma_pow256_positive(width: nat)
    ensures
        pow256(width) > 0,
    decreases width,
{
    if width > 0 {
        lemma_pow256_positive((width - 1) as nat);
    }
}

/// `le_bytes` yields exactly `width` bytes.
pub proof fn lemma_le_bytes_len(value: nat, width: nat)
    ensures
        le_bytes(value, width).len() == width,
    decreases width,
{
    if width > 0 {
        lemma_le_bytes_len(value / 256, (width - 1) as nat);
    }
}

/// A sequence of bytes stands for a number below `pow256` of its length.
pub proof fn lemma_le_value_bound(bytes: Seq<u8>)
    ensures
        le_value(bytes) < pow256(bytes.len()),
    decreases bytes.len(),
{
    if bytes.len() > 0 {
        lemma_le_value_bound(bytes.drop_first());
    }
}

/// Encoding a number and decoding the bytes gives the number back, reduced
/// to the width.
pub proof fn lemma_le_value_of_bytes(value: nat, width: nat)
    ensures
        le_value(le_bytes(value, width)) == value % pow256(width),
    decreases width,
{
    if width > 0 {
        let rest = le_bytes(value / 256, (width - 1) as nat);
        let all = le_bytes(value, width);
        lemma_le_value_of_bytes(value / 256, (width - 1) as nat);
        lemma_pow256_positive((width - 1) as nat);
        assert(all.drop_first() =~= rest);
        assert(all[0] == (value % 256) as u8);
        lemma_mod_breakdown(value as int, 256, pow256((width - 1) as nat) as int);
    } else {
        assert(value % 1 == 0);
    }
}

/// Decoding bytes and encoding the number at their length gives the bytes
/// back.
pub proof fn lemma_le_bytes_of_value(bytes: Seq<u8>)
    ensures
        le_bytes(le_value(bytes), bytes.len()) == bytes,
    decreases bytes.len(),
{
    if bytes.len() > 0 {
        let tail = bytes.drop_first();
        lemma_le_bytes_of_value(tail);
        let v = le_value(bytes);
        assert(v % 256 == bytes[0] as nat);
        assert(v / 256 == le_value(tail));
        assert(le_bytes(v, bytes.len()) =~= bytes);
    } else {
        assert(le_bytes(le_value(bytes), 0) =~= bytes);
    }
}

/// Whether `value` can be written in `width` bytes.
pub open spec fn fits_width(value: u64, width: nat) -> bool {
    (value as nat) < pow256(width)
}

/// From eight bytes on, every `u64` fits.
pub proof fn lemma_pow256_wide(width: nat)
    requires
        width >= 8,
    ensures
        pow256(width) >= 0x1_0000_0000_0000_0000,
    decreases width,
{
    lemma_pow256_values();
    if width > 8 {
        lemma_pow256_wide((width - 1) as nat);
    }
}

/// Tells whether `value` can be written in `width` bytes.
pub fn fits_in(value: u64, width: usize) -> (b: bool)
    ensures
        b == fits_width(value, width as nat),
{
    proof {
        lemma_pow256_values();
        if width >= 8 {
            lemma_pow256_wide(width as nat);
        }
    }
    if width >= 8 {
        true
    } else if width == 0 {
        value == 0
    } else if width == 1 {
        value < 0x100
    } else if width == 2 {
        value < 0x1_0000
    } else if width == 3 {
        value < 0x100_0000
    } else if width == 4 {
        value < 0x1_0000_0000
    } else if width == 5 {
        value < 0x100_0000_0000
    } else if width == 6 {
        value < 0x1_0000_0000_0000
    } else {
        value < 0x100_0000_0000_0000
    }
}

/// Writes the `width` low bytes of `value`, least significant byte first.
pub fn encode_le(value: u64, width: usize) -> (out: Vec<u8>)
    ensures
        out@ == le_bytes(value as nat, width as nat),
        out@.len() == width,
{
    let mut out: Vec<u8> = Vec::new();
    let mut rest: u64 = value;
    let mut i: usize = 0;
    while i < width
        invariant
            i <= width,
            out@.len() == i,
            le_bytes(value as nat, width as nat) == out@ + le_bytes(rest as nat, (width - i) as nat),
        decreases width - i,
    {
        let ghost before = out@;
        out.push((rest % 256) as u8);
        proof {
            let tail = le_bytes(rest as nat / 256, (width - i - 1) as nat);
            assert(le_bytes(rest as nat, (width - i) as nat) == seq![(rest as nat % 256) as u8] + tail);
            assert(before + (seq![(rest as nat % 256) as u8] + tail) =~= out@ + tail);
        }
        rest = rest / 256;
        i += 1;
    }
    proof {
        assert(out@ + le_bytes(rest as nat, 0) =~= out@);
        lemma_le_bytes_len(value as nat, width as nat);
    }
    out
}

/// Reads the number that at most eight bytes stand for, least significant
/// byte first.
pub fn decode_le(bytes: &[u8]) -> (value: u64)
    requires
        bytes@.len() <= MAX_WIDTH,
    ensures
        value == le_value(bytes@),
{
    let n: usize = bytes.len();
    let mut value: u64 = 0;
    let mut i: usize = n;
    proof {
        assert(bytes@.subrange(n as int, n as int) =~= Seq::<u8>::empty());
        lemma_pow256_values();
    }
    while i > 0
        invariant
            n == bytes@.len(),
            n <= 8,
            i <= n,
            value == le_value(bytes@.subrange(i as int, n as int)),
        decreases i,
    {
        let ghost upper = bytes@.subrange(i as int, n as int);
        let ghost lower = bytes@.subrange(i - 1, n as int);
        proof {
            lemma_le_value_bound(upper);
            lemma_pow256_values();
            assert(lower.drop_first() =~= upper);
            assert(lower[0] == bytes@[i - 1]);
            assert(upper.len() <= 7);
            assert(pow256(upper.len()) <= 0x100_0000_0000_0000) by {
                lemma_pow256_values();
                let w = upper.len();
                assert(w == 0 || w == 1 || w == 2 || w == 3 || w == 4 || w == 5 || w == 6 || w
                    == 7);
            }
        }
        i -= 1;
        value = value * 256 + bytes[i] as u64;
    }
    assert(bytes@.subrange(0, n as int) =~= bytes@);
    value
}

} // verus!
