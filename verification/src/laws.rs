//! What holds of the operations taken together, proved from the statements
//! that the operations themselves make.

use crate::code::{
    chained, code_length_of, covered, entry_patch, jump_bytes, jump_destination, jump_length,
    lemma_jump_destination, trampoline_bytes, Instruction,
};
use crate::endian::{
    fits_width, le_bytes, le_value, lemma_le_bytes_len, lemma_le_bytes_of_value,
    lemma_le_value_bound, lemma_le_value_of_bytes, lemma_pow256_values, pow256,
};
use crate::error::MemError;
use crate::hook::{
    hook_plan, hook_ready, hooked, lemma_hooked_cell, lemma_plan_ready, lemma_unhooked_cell,
    unhook_failure, unhooked,
};
use crate::least::{is_lowest, lemma_lowest_exists, lemma_lowest_is, lemma_lowest_some, lowest};
use crate::memory::{
    bytes_at, lemma_page_bounds, lemma_page_of, mapped, page_of, readable, store, Cell,
};
use crate::pattern::{
    exact, first_match, first_occurrence, masked, matches_at, occurs_at, valid_mask, MASK_FIXED,
};
use crate::scan::{data_scan_result, pattern_result};
use crate::space::AddressSpace;
use crate::target::Bits;
use crate::vmt::{
    original_of, originals_after_hook, slot_address, vmt_hook_failure, vmt_unhook_failure,
};
use crate::walker::{pointer_at, resolve};
use vstd::arithmetic::div_mod::lemma_small_mod;
use vstd::prelude::*;

verus! {

/// What was written is what is read: after `data` was stored at `addr`, the
/// bytes from `addr` on are `data`, and the range can be read exactly when
/// it could before.
pub proof fn law_write_then_read(m: Map<int, Cell>, addr: int, data: Seq<u8>)
    requires
        mapped(m, addr, data.len() as int),
    ensures
        bytes_at(store(m, addr, data), addr, data.len()) == data,
        readable(store(m, addr, data), addr, data.len() as int) == readable(
            m,
            addr,
            data.len() as int,
        ),
{
    assert(bytes_at(store(m, addr, data), addr, data.len()) =~= data);
    crate::memory::lemma_store_permitted(
        m,
        addr,
        data,
        addr,
        data.len() as int,
        crate::prot::Prot { read: true, write: false, execute: false },
    );
}

/// A typed value that was written is the value that is read: for every
/// width, and every value that fits it, the bytes written stand for the
/// value.
pub proof fn law_typed_round_trip(m: Map<int, Cell>, addr: int, value: u64, width: nat)
    requires
        fits_width(value, width),
        mapped(m, addr, width as int),
    ensures
        le_value(bytes_at(store(m, addr, le_bytes(value as nat, width)), addr, width)) == value,
{
    let data = le_bytes(value as nat, width);
    lemma_le_bytes_len(value as nat, width);
    law_write_then_read(m, addr, data);
    lemma_le_value_of_bytes(value as nat, width);
    lemma_small_mod(value as nat, pow256(width));
}

/// A scan answers with the lowest offset at which the needle occurs, and
/// with none only where it occurs nowhere.
pub proof fn law_scan_lowest(hay: Seq<u8>, needle: Seq<u8>)
    ensures
        match first_occurrence(hay, needle) {
            Some(k) => occurs_at(hay, needle, k) && forall|j: int|
                0 <= j < k ==> !occurs_at(hay, needle, j),
            None => forall|j: int| !occurs_at(hay, needle, j),
        },
{
    let p = |k: int| occurs_at(hay, needle, k);
    match lowest(p) {
        Some(k) => {
            lemma_lowest_is(p, k);
            assert forall|j: int| 0 <= j < k implies !occurs_at(hay, needle, j) by {
                assert(!p(j));
            }
        },
        None => {
            assert forall|j: int| !occurs_at(hay, needle, j) by {
                if occurs_at(hay, needle, j) {
                    assert(p(j));
                    lemma_lowest_exists(p, j);
                }
            }
        },
    }
}

/// Where the needle stands at offset `k` and nowhere before, a scan answers
/// exactly `k`.
pub proof fn law_scan_finds_first(hay: Seq<u8>, needle: Seq<u8>, k: int)
    requires
        occurs_at(hay, needle, k),
        forall|j: int| 0 <= j < k ==> !occurs_at(hay, needle, j),
    ensures
        first_occurrence(hay, needle) == Some(k),
{
    let p = |k: int| occurs_at(hay, needle, k);
    assert(is_lowest(p, k));
    lemma_lowest_some(p, k);
}

/// A pattern whose mask fixes every position is found where its bytes are
/// found.
pub proof fn law_full_mask_is_data_scan(hay: Seq<u8>, needle: Seq<u8>, mask: Seq<u8>)
    requires
        mask.len() == needle.len(),
        forall|i: int| 0 <= i < mask.len() ==> mask[i] == MASK_FIXED,
    ensures
        masked(needle, mask) == exact(needle),
        first_match(hay, masked(needle, mask)) == first_occurrence(hay, needle),
{
    assert(masked(needle, mask) =~= exact(needle));
    let pattern = exact(needle);
    let p = |k: int| occurs_at(hay, needle, k);
    let q = |k: int| matches_at(hay, pattern, k);
    assert forall|k: int| #![trigger p(k)] #![trigger q(k)] p(k) == q(k) by {
        if occurs_at(hay, needle, k) {
            assert forall|j: int| 0 <= j < pattern.len() implies ((#[trigger] pattern[j]) matches Some(
                b,
            ) ==> hay[k + j] == b) by {
                assert(hay.subrange(k, k + needle.len())[j] == needle[j]);
            }
        }
        if matches_at(hay, pattern, k) {
            assert forall|j: int| 0 <= j < needle.len() implies hay.subrange(
                k,
                k + needle.len(),
            )[j] == needle[j] by {
                assert(pattern[j] == Some(needle[j]));
            }
            assert(hay.subrange(k, k + needle.len()) =~= needle);
        }
    }
    match lowest(p) {
        Some(k) => {
            lemma_lowest_is(p, k);
            assert(is_lowest(q, k)) by {
                assert(q(k));
                assert forall|j: int| 0 <= j < k implies !#[trigger] q(j) by {
                    assert(!p(j));
                }
            }
            lemma_lowest_some(q, k);
        },
        None => {
            match lowest(q) {
                Some(k) => {
                    lemma_lowest_is(q, k);
                    assert(p(k));
                    lemma_lowest_exists(p, k);
                },
                None => {},
            }
        },
    }
}

/// A pattern scan under a mask that fixes every position answers what the
/// data scan for the same bytes in the same region answers, be it an
/// address or an error.
pub proof fn law_full_mask_scan(
    m: Map<int, Cell>,
    alive: bool,
    needle: Seq<u8>,
    mask: Seq<u8>,
    start: u64,
    size: usize,
)
    requires
        mask.len() == needle.len(),
        forall|i: int| 0 <= i < mask.len() ==> mask[i] == MASK_FIXED,
    ensures
        valid_mask(mask),
        pattern_result(m, alive, masked(needle, mask), start, size) == data_scan_result(
            m,
            alive,
            needle,
            start,
            size,
        ),
{
    law_full_mask_is_data_scan(bytes_at(m, start as int, size as nat), needle, mask);
}

/// Wherever a masked pattern matches, every position that the mask fixes
/// holds the byte of the needle; wildcards lift no other position's demand.
pub proof fn law_fixed_positions_match(hay: Seq<u8>, needle: Seq<u8>, mask: Seq<u8>, k: int)
    requires
        mask.len() == needle.len(),
        valid_mask(mask),
    ensures
        matches_at(hay, masked(needle, mask), k) <==> (0 <= k && k + needle.len() <= hay.len()
            && forall|i: int|
            0 <= i < needle.len() && mask[i] == MASK_FIXED ==> hay[k + i] == needle[i]),
{
    let pattern = masked(needle, mask);
    if matches_at(hay, pattern, k) {
        assert forall|i: int| 0 <= i < needle.len() && mask[i] == MASK_FIXED implies hay[k + i]
            == needle[i] by {
            assert(pattern[i] == Some(needle[i]));
        }
    }
    if 0 <= k && k + needle.len() <= hay.len() && (forall|i: int|
        0 <= i < needle.len() && mask[i] == MASK_FIXED ==> hay[k + i] == needle[i]) {
        assert forall|j: int| 0 <= j < pattern.len() implies ((#[trigger] pattern[j]) matches Some(
            b,
        ) ==> hay[k + j] == b) by {
            if mask[j] == MASK_FIXED {
                assert(hay[k + j] == needle[j]);
            }
        }
    }
}

/// Without offsets a pointer chain leads to its base, whatever the memory.
pub proof fn law_no_offset(m: Map<int, Cell>, alive: bool, bits: Bits, base: u64)
    ensures
        resolve(m, alive, bits, base, Seq::<u64>::empty()) == Ok::<u64, MemError>(base),
{
}

/// With a single offset a pointer chain is pointer arithmetic: nothing is
/// read, and the result is the sum where the sum is an address of the
/// target.
pub proof fn law_single_offset(m: Map<int, Cell>, alive: bool, bits: Bits, base: u64, offset: u64)
    ensures
        resolve(m, alive, bits, base, seq![offset]) == Ok::<u64, MemError>(
            bits.spec_wrapping_add(base, offset),
        ),
        (base as int) + (offset as int) < bits.spec_limit() ==> resolve(
            m,
            alive,
            bits,
            base,
            seq![offset],
        ) == Ok::<u64, MemError>((base + offset) as u64),
{
    if (base as int) + (offset as int) < bits.spec_limit() {
        lemma_small_mod((base + offset) as nat, bits.spec_limit() as nat);
    }
}

/// An estimated code length never splits an instruction: it is the total
/// size of some number of whole instructions that stand one behind the
/// other from the address on, it reaches the bytes asked for, and one
/// instruction less would not.
pub proof fn law_code_length_on_boundary(insts: Seq<Instruction>, address: u64, min: nat)
    ensures
        code_length_of(insts, address, min) matches Ok(n) ==> exists|k: int|
            {
                &&& 1 <= k <= insts.len()
                &&& chained(insts, address, k)
                &&& n == #[trigger] covered(insts, k as nat)
                &&& covered(insts, (k - 1) as nat) < min <= n
            },
{
    if let Ok(n) = code_length_of(insts, address, min) {
        let p = |k: int| 0 <= k <= insts.len() && covered(insts, k as nat) >= min;
        let k = lowest(p)->0;
        lemma_lowest_is(p, k);
        assert(k >= 1);
        assert(!p(k - 1));
        assert(n == covered(insts, k as nat));
    }
}

/// After a hook, the unhook with the handle that the hook gave is accepted
/// and undoes it: the memory is what it was before the hook, byte for byte
/// and protection for protection, and the trampoline is gone.
#[verifier::spinoff_prover]
#[verifier::rlimit(50)]
pub proof fn law_unhook_restores(
    before: &AddressSpace,
    after: &AddressSpace,
    insts: Seq<Instruction>,
    site: u64,
    detour: u64,
    address: u64,
    size: usize,
)
    requires
        before.inv(),
        after.same_target(before),
        hook_plan(before, insts, site, detour) == Ok::<(nat, int), MemError>(
            (size as nat, page_of(address as int)),
        ),
        address as int % 4096 == 0,
        after@ == hooked(
            before@,
            before.spec_bits(),
            site,
            detour,
            size as nat,
            page_of(address as int),
        ),
    ensures
        unhook_failure(after, site, address, size) is None,
        unhooked(after@, site, address, size) == before@,
        bytes_at(unhooked(after@, site, address, size), site as int, size as nat) == bytes_at(
            before@,
            site as int,
            size as nat,
        ),
{
    let m = before@;
    let bits = before.spec_bits();
    let page = page_of(address as int);
    lemma_plan_ready(before, insts, site, detour, size as nat, page);
    lemma_page_bounds(address as int);
    assert(address == page * 4096);
    lemma_unhook_accepted(m, bits, site, detour, size as nat, page);
    lemma_unhook_gives_back(m, bits, site, detour, size as nat, page);
    lemma_unhook_passes(after, m, site, detour, size, page);
}

/// An unhook is accepted by a living target that accepts the trampoline's
/// protection, where the memory passes the checks that the unhook makes.
#[verifier::spinoff_prover]
#[verifier::rlimit(50)]
proof fn lemma_unhook_passes(
    after: &AddressSpace,
    m: Map<int, Cell>,
    site: u64,
    detour: u64,
    size: usize,
    page: int,
)
    requires
        hook_ready(m, after.spec_bits(), site, size as nat, page),
        after.spec_alive(),
        after.allows(crate::hook::spec_xrw()),
        after@ == hooked(m, after.spec_bits(), site, detour, size as nat, page),
        readable(after@, page * 4096, (size + jump_length(after.spec_bits())) as int),
        bytes_at(after@, page * 4096 + size, jump_length(after.spec_bits())) == jump_bytes(
            after.spec_bits(),
            (page * 4096 + size) as u64,
            (site + size) as u64,
        ),
        mapped(after@, site as int, size as int),
    ensures
        unhook_failure(after, site, (page * 4096) as u64, size) is None,
{
    lemma_page_of(page, 0);
    assert(m.dom().contains(site as int));
    assert(m.dom().contains(site + size - 1));
}

/// The memory after a hook passes every check that the unhook makes of it.
#[verifier::spinoff_prover]
#[verifier::rlimit(50)]
proof fn lemma_unhook_accepted(
    m: Map<int,
    Cell>,
    bits: Bits,
    site: u64,
    detour: u64,
    n: nat,
    page: int,
)
    requires
        hook_ready(m, bits, site, n, page),
    ensures
        ({
            let h = hooked(m, bits, site, detour, n, page);
            let address = page * 4096;
            &&& readable(h, address, (n + jump_length(bits)) as int)
            &&& bytes_at(h, address + n, jump_length(bits)) == jump_bytes(
                bits,
                (address + n) as u64,
                (site + n) as u64,
            )
            &&& bytes_at(h, address, n) == bytes_at(m, site as int, n)
            &&& mapped(h, site as int, n as int)
        }),
{
    let h = hooked(m, bits, site, detour, n, page);
    let address = page * 4096;
    let jump = jump_length(bits);
    let original = bytes_at(m, site as int, n);
    let code = trampoline_bytes(bits, original, address as u64, site);
    let back = jump_bytes(bits, (address + n) as u64, (site + n) as u64);
    crate::code::lemma_jump_len(bits, (address + n) as u64, (site + n) as u64);
    assert forall|a: int|
        #![trigger h.dom().contains(a)]
        address <= a < address + (n + jump) implies h.dom().contains(a) && h[a].prot.read by {
        lemma_page_of(page, a - address);
        lemma_hooked_cell(m, bits, site, detour, n, page, a);
    }
    assert forall|i: int| 0 <= i < jump implies (#[trigger] bytes_at(h, address + n, jump)[i])
        == back[i] by {
        lemma_page_of(page, n + i);
        lemma_hooked_cell(m, bits, site, detour, n, page, address + n + i);
        assert(code[n + i] == back[i]);
    }
    assert(bytes_at(h, address + n, jump) =~= back);
    assert forall|i: int| 0 <= i < n implies (#[trigger] bytes_at(h, address, n)[i])
        == original[i] by {
        lemma_page_of(page, i);
        lemma_hooked_cell(m, bits, site, detour, n, page, address + i);
        assert(code[i] == original[i]);
    }
    assert(bytes_at(h, address, n) =~= original);
    assert forall|a: int|
        #![trigger h.dom().contains(a)]
        site <= a < site + n implies h.dom().contains(a) by {
        assert(m.dom().contains(a));
        lemma_hooked_cell(m, bits, site, detour, n, page, a);
    }
}

/// The unhook of the memory after a hook gives the memory from before the
/// hook.
#[verifier::spinoff_prover]
#[verifier::rlimit(50)]
proof fn lemma_unhook_gives_back(
    m: Map<int,
    Cell>,
    bits: Bits,
    site: u64,
    detour: u64,
    n: nat,
    page: int,
)
    requires
        hook_ready(m, bits, site, n, page),
    ensures
        unhooked(hooked(m, bits, site, detour, n, page), site, (page * 4096) as u64, n as usize)
            == m,
{
    let h = hooked(m, bits, site, detour, n, page);
    let address = (page * 4096) as u64;
    let size = n as usize;
    let u = unhooked(h, site, address, size);
    let original = bytes_at(m, site as int, n);
    lemma_page_of(page, 0);
    lemma_unhook_accepted(m, bits, site, detour, n, page);
    assert forall|a: int| u.dom().contains(a) == m.dom().contains(a) by {
        lemma_hooked_cell(m, bits, site, detour, n, page, a);
        lemma_unhooked_cell(h, site, address, size, a);
    }
    assert(u.dom() =~= m.dom());
    assert forall|a: int| m.dom().contains(a) implies u[a] == m[a] by {
        lemma_hooked_cell(m, bits, site, detour, n, page, a);
        lemma_unhooked_cell(h, site, address, size, a);
        if site <= a < site + n {
            assert(bytes_at(h, address as int, n)[a - site] == original[a - site]);
        }
    }
    assert(u =~= m);
}

/// After a hook, the trampoline holds the displaced bytes of the function
/// followed by a jump that leads behind them, and the function begins with
/// a jump that leads to the detour.
pub proof fn law_trampoline_layout(
    before: &AddressSpace,
    after: &AddressSpace,
    insts: Seq<Instruction>,
    site: u64,
    detour: u64,
    address: u64,
    size: usize,
)
    requires
        before.inv(),
        hook_plan(before, insts, site, detour) == Ok::<(nat, int), MemError>(
            (size as nat, page_of(address as int)),
        ),
        address as int % 4096 == 0,
        after@ == hooked(
            before@,
            before.spec_bits(),
            site,
            detour,
            size as nat,
            page_of(address as int),
        ),
    ensures
        bytes_at(after@, address as int, size as nat) == bytes_at(
            before@,
            site as int,
            size as nat,
        ),
        jump_destination(
            before.spec_bits(),
            bytes_at(after@, address + size, jump_length(before.spec_bits())),
            (address + size) as u64,
        ) == site + size,
        jump_destination(
            before.spec_bits(),
            bytes_at(after@, site as int, jump_length(before.spec_bits())),
            site,
        ) == detour,
{
    let m = before@;
    let h = after@;
    let bits = before.spec_bits();
    let jump = jump_length(bits);
    let n = size as nat;
    let page = page_of(address as int);
    let patch = entry_patch(bits, site, detour, n);
    lemma_plan_ready(before, insts, site, detour, n, page);
    lemma_page_bounds(address as int);
    lemma_unhook_accepted(m, bits, site, detour, n, page);
    assert(m.dom().contains(site + n - 1));
    lemma_page_bounds(site + n - 1);
    lemma_jump_destination(bits, (address + n) as u64, (site + n) as u64);
    lemma_jump_destination(bits, site, detour);
    assert forall|i: int| 0 <= i < jump implies (#[trigger] bytes_at(h, site as int, jump)[i])
        == jump_bytes(bits, site, detour)[i] by {
        assert(m.dom().contains(site + i));
        lemma_hooked_cell(m, bits, site, detour, n, page, site + i);
        assert(patch[i] == jump_bytes(bits, site, detour)[i]);
    }
    assert(bytes_at(h, site as int, jump) =~= jump_bytes(bits, site, detour));
}

/// After the first hook of a slot, asking for the original answers with
/// what stood in the slot before the hook, not with what the hook wrote.
pub proof fn law_vmt_original_kept(
    originals: Map<u64, u64>,
    m: Map<int, Cell>,
    alive: bool,
    bits: Bits,
    base: u64,
    index: usize,
    value: u64,
)
    requires
        !originals.contains_key(index as u64),
        vmt_hook_failure(originals, m, alive, bits, base, index, value) is None,
    ensures
        original_of(
            originals_after_hook(originals, m, bits, base, index),
            store(
                m,
                slot_address(base, bits, index),
                le_bytes(value as nat, bits.spec_pointer_size()),
            ),
            alive,
            bits,
            base,
            index,
        ) == Ok::<u64, MemError>(pointer_at(m, bits, slot_address(base, bits, index) as u64)),
        original_of(originals, m, alive, bits, base, index) == Ok::<u64, MemError>(
            pointer_at(m, bits, slot_address(base, bits, index) as u64),
        ),
{
}

/// A hook of a slot followed by its unhook restores the memory: the slot
/// holds what it held before the hook, and the unhook is accepted.
pub proof fn law_vmt_unhook_restores(
    originals: Map<u64, u64>,
    m: Map<int, Cell>,
    alive: bool,
    bits: Bits,
    base: u64,
    index: usize,
    value: u64,
)
    requires
        !originals.contains_key(index as u64),
        vmt_hook_failure(originals, m, alive, bits, base, index, value) is None,
    ensures
        ({
            let slot = slot_address(base, bits, index);
            let width = bits.spec_pointer_size();
            let saved = originals_after_hook(originals, m, bits, base, index);
            let hooked = store(m, slot, le_bytes(value as nat, width));
            &&& saved.contains_key(index as u64)
            &&& vmt_unhook_failure(saved[index as u64], hooked, alive, bits, base, index) is None
            &&& store(hooked, slot, le_bytes(saved[index as u64] as nat, width)) == m
            &&& saved.remove(index as u64) == originals
        }),
{
    let slot = slot_address(base, bits, index);
    let width = bits.spec_pointer_size();
    let saved = originals_after_hook(originals, m, bits, base, index);
    let hooked = store(m, slot, le_bytes(value as nat, width));
    let held = bytes_at(m, slot, width);
    let original = pointer_at(m, bits, slot as u64);
    lemma_le_value_bound(held);
    lemma_pow256_values();
    lemma_le_bytes_of_value(held);
    lemma_le_bytes_len(value as nat, width);
    assert(original as nat == le_value(held));
    assert(le_bytes(original as nat, width) == held);
    crate::memory::lemma_store_permitted(
        m,
        slot,
        le_bytes(value as nat, width),
        slot,
        width as int,
        crate::prot::Prot { read: false, write: true, execute: false },
    );
    assert(store(hooked, slot, held) =~= m) by {
        assert forall|a: int| m.dom().contains(a) implies store(hooked, slot, held)[a] == m[a] by {
            if slot <= a < slot + width {
                assert(held[a - slot] == m[a].value);
            }
        }
    }
    assert(saved.remove(index as u64) =~= originals);
}

} // verus!
