//! Machine code as far as the engine writes and measures it: the jump and
//! the no-op of each width, and the length of whole instructions.

use crate::endian::{
    encode_le, le_bytes, le_value, lemma_le_bytes_len, lemma_le_value_of_bytes, lemma_pow256_values,
    pow256,
};
use crate::error::MemError;
use crate::least::{lemma_lowest_none, lemma_lowest_some, lowest};
use crate::target::Bits;
use vstd::arithmetic::div_mod::{
    lemma_fundamental_div_mod, lemma_mod_multiples_vanish, lemma_small_mod,
};
use vstd::prelude::*;

verus! {

/// One decoded instruction, as a disassembler reports it. The engine only
/// measures its length and checks that it follows its predecessor.
#[derive(Debug)]
pub struct Instruction {
    /// Where the instruction starts.
    pub address: u64,
    /// How many bytes it occupies.
    pub size: usize,
    /// Its mnemonic and operands, for display only.
    pub text: String,
}

/// The bytes that open a jump of the target's width, before its operand.
pub open spec fn jump_prefix(bits: Bits) -> Seq<u8> {
    match bits {
        Bits::Bits32 => seq![0xE9u8],
        Bits::Bits64 => seq![0xFFu8, 0x25u8, 0x00u8, 0x00u8, 0x00u8, 0x00u8],
    }
}

/// The number of bytes of a jump's operand.
pub open spec fn jump_operand_width(bits: Bits) -> nat {
    match bits {
        Bits::Bits32 => 4,
        Bits::Bits64 => 8,
    }
}

/// The number of bytes of a whole jump: 5 on a 32-bit target, 14 on a 64-bit
/// one.
pub open spec fn jump_length(bits: Bits) -> nat {
    jump_prefix(bits).len() + jump_operand_width(bits)
}

/// The operand of a jump that stands at `from` and leads to `to`: on a 32-bit
/// target the distance from the end of the jump, modulo the width; on a
/// 64-bit target the destination itself.
pub open spec fn jump_operand(bits: Bits, from: u64, to: u64) -> nat {
    match bits {
        Bits::Bits32 => ((to as int - from as int - 5) % 0x1_0000_0000) as nat,
        Bits::Bits64 => to as nat,
    }
}

/// The machine code of a jump that stands at `from` and leads to `to`.
pub open spec fn jump_bytes(bits: Bits, from: u64, to: u64) -> Seq<u8> {
    jump_prefix(bits) + le_bytes(jump_operand(bits, from, to), jump_operand_width(bits))
}

/// Where a jump made of `code` and standing at `from` leads.
pub open spec fn jump_destination(bits: Bits, code: Seq<u8>, from: u64) -> int {
    match bits {
        Bits::Bits32 => (from as int + 5 + le_value(code.subrange(1, 5))) % 0x1_0000_0000,
        Bits::Bits64 => le_value(code.subrange(6, 14)) as int,
    }
}

/// The byte that does nothing when executed.
pub open spec fn nop_byte(bits: Bits) -> u8 {
    0x90
}

/// The bytes that replace the first `displaced` bytes of a hooked function:
/// a jump to the detour, then no-ops up to the next whole instruction.
pub open spec fn entry_patch(bits: Bits, hook: u64, detour: u64, displaced: nat) -> Seq<u8> {
    jump_bytes(bits, hook, detour) + Seq::new(
        (displaced - jump_length(bits)) as nat,
        |i: int| nop_byte(bits),
    )
}

/// The code of a trampoline that stands at `tramp`: the displaced bytes of
/// the function at `hook`, then a jump to the first instruction after them.
pub open spec fn trampoline_bytes(bits: Bits, original: Seq<u8>, tramp: u64, hook: u64) -> Seq<u8> {
    original + jump_bytes(
        bits,
        (tramp + original.len()) as u64,
        (hook + original.len()) as u64,
    )
}

/// The total size of the first `k` instructions.
pub open spec fn covered(insts: Seq<Instruction>, k: nat) -> nat
    decreases k,
{
    if k == 0 || k > insts.len() {
        0
    } else {
        covered(insts, (k - 1) as nat) + insts[k - 1].size as nat
    }
}

/// The first `k` instructions are non-empty and stand one behind the other
/// from `address` on.
pub open spec fn chained(insts: Seq<Instruction>, address: u64, k: int) -> bool {
    &&& 0 <= k <= insts.len()
    &&& forall|i: int|
        0 <= i < k ==> (#[trigger] insts[i]).size > 0 && insts[i].address == address + covered(
            insts,
            i as nat,
        )
}

/// The smallest number of instructions that together hold at least `min`
/// bytes.
pub open spec fn boundary_count(insts: Seq<Instruction>, min: nat) -> Option<int> {
    lowest(|k: int| 0 <= k <= insts.len() && covered(insts, k as nat) >= min)
}

/// The length of the shortest run of whole instructions from `address` on
/// that holds at least `min` bytes.
pub open spec fn code_length_of(insts: Seq<Instruction>, address: u64, min: nat) -> Result<
    nat,
    MemError,
> {
    if min == 0 {
        Err(MemError::InvalidArgument)
    } else {
        match boundary_count(insts, min) {
            Some(k) => if chained(insts, address, k) && covered(insts, k as nat) <= usize::MAX {
                Ok(covered(insts, k as nat))
            } else {
                Err(MemError::DisassemblyError)
            },
            None => Err(MemError::DisassemblyError),
        }
    }
}

/// An estimate that exists reaches the bytes asked for and fits in `usize`.
pub proof fn lemma_code_length_reaches(insts: Seq<Instruction>, address: u64, min: nat)
    ensures
        code_length_of(insts, address, min) matches Ok(n) ==> min > 0 && n >= min && n
            <= usize::MAX,
{
    if min > 0 {
        let p = |k: int| 0 <= k <= insts.len() && covered(insts, k as nat) >= min;
        if let Some(k) = lowest(p) {
            crate::least::lemma_lowest_is(p, k);
        }
    }
}

/// Every jump of a target has the same length.
pub proof fn lemma_jump_len(bits: Bits, from: u64, to: u64)
    ensures
        jump_bytes(bits, from, to).len() == jump_length(bits),
{
    lemma_le_bytes_len(jump_operand(bits, from, to), jump_operand_width(bits));
}

/// A jump leads where it was made to lead, for every destination that the
/// target's width can express.
pub proof fn lemma_jump_destination(bits: Bits, from: u64, to: u64)
    requires
        bits.spec_fits(to),
    ensures
        jump_bytes(bits, from, to).len() == jump_length(bits),
        jump_destination(bits, jump_bytes(bits, from, to), from) == to,
{
    let code = jump_bytes(bits, from, to);
    let operand = le_bytes(jump_operand(bits, from, to), jump_operand_width(bits));
    lemma_le_bytes_len(jump_operand(bits, from, to), jump_operand_width(bits));
    lemma_le_value_of_bytes(jump_operand(bits, from, to), jump_operand_width(bits));
    lemma_pow256_values();
    match bits {
        Bits::Bits32 => {
            assert(code.subrange(1, 5) =~= operand);
            let m: int = 0x1_0000_0000;
            let d: int = to as int - from as int - 5;
            lemma_fundamental_div_mod(d, m);
            assert(from as int + 5 + d % m == m * (-(d / m)) + to as int) by (nonlinear_arith)
                requires
                    d == m * (d / m) + d % m,
                    d == to as int - from as int - 5,
            ;
            lemma_mod_multiples_vanish(-(d / m), to as int, m);
            lemma_small_mod(to as nat, m as nat);
            let r: nat = jump_operand(bits, from, to);
            assert(0 <= d % m < m);
            assert(r == d % m);
            lemma_small_mod(r, m as nat);
            assert(pow256(4) == m);
            assert(le_value(operand) == r);
            assert((from as int + 5 + r) % m == to as int);
        },
        Bits::Bits64 => {
            assert(code.subrange(6, 14) =~= operand);
            assert(pow256(8) == 0x1_0000_0000_0000_0000);
            lemma_small_mod(to as nat, 0x1_0000_0000_0000_0000);
        },
    }
}

/// The number of bytes of a jump on the target: 5 or 14.
pub fn jump_size(bits: Bits) -> (n: usize)
    ensures
        n == jump_length(bits),
        n == 5 || n == 14,
{
    match bits {
        Bits::Bits32 => 5,
        Bits::Bits64 => 14,
    }
}

/// The byte that pads a patched entry up to the next whole instruction.
pub fn nop(bits: Bits) -> (b: u8)
    ensures
        b == nop_byte(bits),
{
    0x90
}

/// Appends every byte of `tail` to `out`.
pub(crate) fn append_bytes(out: &mut Vec<u8>, tail: &[u8])
    ensures
        final(out)@ == old(out)@ + tail@,
{
    let ghost before = out@;
    let mut i: usize = 0;
    while i < tail.len()
        invariant
            i <= tail@.len(),
            out@ == before + tail@.subrange(0, i as int),
        decreases tail@.len() - i,
    {
        out.push(tail[i]);
        i += 1;
        assert(out@ =~= before + tail@.subrange(0, i as int));
    }
    assert(tail@.subrange(0, tail@.len() as int) =~= tail@);
}

/// Copies the first `n` bytes of `source`.
pub(crate) fn take_bytes(source: &[u8], n: usize) -> (out: Vec<u8>)
    requires
        n <= source@.len(),
    ensures
        out@ == source@.subrange(0, n as int),
{
    let mut out: Vec<u8> = Vec::new();
    let mut i: usize = 0;
    while i < n
        invariant
            i <= n <= source@.len(),
            out@ == source@.subrange(0, i as int),
        decreases n - i,
    {
        out.push(source[i]);
        i += 1;
        assert(out@ =~= source@.subrange(0, i as int));
    }
    out
}

/// Writes the machine code of a jump that stands at `from` and leads to `to`.
pub fn jump_code(bits: Bits, from: u64, to: u64) -> (out: Vec<u8>)
    ensures
        out@ == jump_bytes(bits, from, to),
        out@.len() == jump_length(bits),
{
    let mut out: Vec<u8> = Vec::new();
    match bits {
        Bits::Bits32 => {
            out.push(0xE9);
            let wide: u64 = to.wrapping_sub(from).wrapping_sub(5);
            let operand: u64 = wide % 0x1_0000_0000;
            assert(operand == (to as int - from as int - 5) % 0x1_0000_0000) by {
                let d: int = to as int - from as int;
                let w1: int = if d < 0 {
                    d + 0x1_0000_0000_0000_0000
                } else {
                    d
                };
                assert(to.wrapping_sub(from) == w1);
                let w2: int = if w1 - 5 < 0 {
                    w1 - 5 + 0x1_0000_0000_0000_0000
                } else {
                    w1 - 5
                };
                assert(wide == w2);
            }
            let tail = encode_le(operand, 4);
            append_bytes(&mut out, tail.as_slice());
            assert(out@ =~= jump_bytes(bits, from, to));
        },
        Bits::Bits64 => {
            out.push(0xFF);
            out.push(0x25);
            out.push(0x00);
            out.push(0x00);
            out.push(0x00);
            out.push(0x00);
            let tail = encode_le(to, 8);
            append_bytes(&mut out, tail.as_slice());
            assert(out@ =~= jump_bytes(bits, from, to));
        },
    }
    out
}

/// Builds the bytes that replace the first `displaced` bytes of the function
/// at `hook`: a jump to `detour`, padded with no-ops.
pub(crate) fn build_patch(bits: Bits, hook: u64, detour: u64, displaced: usize) -> (out: Vec<u8>)
    requires
        displaced >= jump_length(bits),
    ensures
        out@ == entry_patch(bits, hook, detour, displaced as nat),
        out@.len() == displaced,
{
    let mut out = jump_code(bits, hook, detour);
    let ghost jump = out@;
    let pad: u8 = nop(bits);
    while out.len() < displaced
        invariant
            jump.len() <= out@.len() <= displaced,
            pad == nop_byte(bits),
            out@ == jump + Seq::new((out@.len() - jump.len()) as nat, |i: int| nop_byte(bits)),
        decreases displaced - out@.len(),
    {
        out.push(pad);
        assert(out@ =~= jump + Seq::new((out@.len() - jump.len()) as nat, |i: int| nop_byte(bits)));
    }
    out
}

/// Builds the code of a trampoline that stands at `tramp` for the function
/// at `hook` whose first bytes are `original`.
pub(crate) fn build_trampoline(bits: Bits, original: &[u8], tramp: u64, hook: u64) -> (out: Vec<u8>)
    requires
        tramp + original@.len() <= u64::MAX,
        hook + original@.len() <= u64::MAX,
    ensures
        out@ == trampoline_bytes(bits, original@, tramp, hook),
        out@.len() == original@.len() + jump_length(bits),
{
    let n: u64 = original.len() as u64;
    let mut out: Vec<u8> = Vec::new();
    append_bytes(&mut out, original);
    let back = jump_code(bits, tramp + n, hook + n);
    append_bytes(&mut out, back.as_slice());
    assert(out@ =~= trampoline_bytes(bits, original@, tramp, hook));
    out
}

/// Adds up whole instructions from `address` on until at least `min_bytes`
/// bytes are covered, and returns the number of bytes covered.
///
/// `insts` is what the disassembler decoded from `address` on. The result
/// ends on an instruction boundary: it is the total size of the fewest
/// leading instructions that reach `min_bytes`. The estimate fails when the
/// instructions run out first, when one of them is empty or does not start
/// where its predecessor ended, or when the total does not fit in `usize`.
pub fn code_length(insts: &[Instruction], address: u64, min_bytes: usize) -> (res: Result<
    usize,
    MemError,
>)
    ensures
        match res {
            Ok(n) => code_length_of(insts@, address, min_bytes as nat) == Ok::<nat, MemError>(
                n as nat,
            ),
            Err(e) => code_length_of(insts@, address, min_bytes as nat) == Err::<nat, MemError>(e),
        },
{
    if min_bytes == 0 {
        return Err(MemError::InvalidArgument);
    }
    let ghost p = |k: int| 0 <= k <= insts@.len() && covered(insts@, k as nat) >= min_bytes as nat;
    let mut acc: usize = 0;
    let mut k: usize = 0;
    while k < insts.len()
        invariant
            k <= insts@.len(),
            min_bytes > 0,
            acc == covered(insts@, k as nat),
            acc < min_bytes,
            chained(insts@, address, k as int),
            p == (|k: int| 0 <= k <= insts@.len() && covered(insts@, k as nat) >= min_bytes as nat),
            forall|j: int| 0 <= j <= k ==> !#[trigger] p(j),
        decreases insts@.len() - k,
    {
        let size: usize = insts[k].size;
        let start: u64 = insts[k].address;
        let follows: bool = match address.checked_add(acc as u64) {
            Some(expected) => expected == start,
            None => false,
        };
        if size == 0 || !follows {
            proof {
                assert forall|j: int| 0 <= j <= k implies #[trigger] covered(insts@, j as nat)
                    < min_bytes by {
                    assert(!p(j));
                }
                lemma_broken_chain(insts@, address, min_bytes as nat, k as int);
            }
            return Err(MemError::DisassemblyError);
        }
        match acc.checked_add(size) {
            Some(next) => {
                assert(covered(insts@, (k + 1) as nat) == next);
                acc = next;
                k += 1;
                if acc >= min_bytes {
                    proof {
                        lemma_lowest_some(p, k as int);
                    }
                    return Ok(acc);
                }
            },
            None => {
                proof {
                    assert(covered(insts@, (k + 1) as nat) == acc + size);
                    lemma_lowest_some(p, k + 1);
                }
                return Err(MemError::DisassemblyError);
            },
        }
    }
    proof {
        lemma_lowest_none(p);
    }
    Err(MemError::DisassemblyError)
}

/// Where the instruction at index `k` is empty or out of place and the first
/// `k` instructions do not reach `min`, no estimate exists.
proof fn lemma_broken_chain(insts: Seq<Instruction>, address: u64, min: nat, k: int)
    requires
        min > 0,
        0 <= k < insts.len(),
        insts[k].size == 0 || insts[k].address != address + covered(insts, k as nat),
        forall|j: int| 0 <= j <= k ==> #[trigger] covered(insts, j as nat) < min,
    ensures
        code_length_of(insts, address, min) == Err::<nat, MemError>(MemError::DisassemblyError),
{
    let p = |j: int| 0 <= j <= insts.len() && covered(insts, j as nat) >= min;
    match boundary_count(insts, min) {
        Some(b) => {
            if exists|c: int| crate::least::is_lowest(p, c) {
                let c = choose|c: int| crate::least::is_lowest(p, c);
                assert(c == b);
                assert(p(b));
                if b <= k {
                    assert(covered(insts, b as nat) >= min);
                    assert(false);
                }
                assert(!chained(insts, address, b)) by {
                    if chained(insts, address, b) {
                        assert(insts[k].size > 0);
                    }
                }
            }
        },
        None => {},
    }
}

} // verus!
