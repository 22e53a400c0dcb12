//! Inline hooks: a jump over the entry of a function, and a trampoline that
//! keeps what the jump displaced.

use crate::code::{entry_patch, jump_bytes, jump_length, jump_size, trampoline_bytes, Instruction};
use crate::error::MemError;
use crate::least::lemma_lowest_is;
use crate::memory::{
    bytes_at, first_page, last_page, lemma_fresh_page, lemma_page_bounds, lemma_permitted_mapped,
    lemma_reprotect_permitted, mapped, page_free, page_limit, page_of, paged, readable, reprotect,
    store, unmap, with_page, Cell,
};
use crate::plan::{displaced_length, displacement_of, entry_code, original_bytes, trampoline_code};
use crate::prot::Prot;
use crate::space::AddressSpace;
use crate::target::Bits;
use vstd::prelude::*;

verus! {

/// The handle of an installed hook: where its trampoline stands and how many
/// bytes of the hooked function it displaced.
///
/// A hook hands it out and only the matching unhook takes it back.
#[derive(Debug)]
pub struct Trampoline {
    /// The address of the trampoline; calling it runs the displaced
    /// instructions and goes on in the hooked function behind them.
    pub address: u64,
    /// The number of displaced bytes.
    pub size: usize,
}

/// The protection of a trampoline, and of a hook site while it is patched.
pub open spec fn spec_xrw() -> Prot {
    Prot { read: true, write: true, execute: true }
}

/// What a hook will do, if it can: the number of bytes to displace and the
/// page that will hold the trampoline.
///
/// The checks stand in the order in which they are made: both addresses fit
/// the target's width; whole instructions cover the jump; the bytes to
/// displace can be read; they and the jump back fit in a page; a page can be
/// had.
pub open spec fn hook_plan(
    space: &AddressSpace,
    insts: Seq<Instruction>,
    site: u64,
    detour: u64,
) -> Result<(nat, int), MemError> {
    let bits = space.spec_bits();
    match displacement_of(bits, insts, site, detour) {
        Err(e) => Err(e),
        Ok(n) => if !(space.spec_alive() && readable(space@, site as int, n as int)) {
            Err(MemError::AccessError)
        } else if n + jump_length(bits) > 4096 {
            Err(MemError::AllocationError)
        } else {
            match space.allocate_failure(0, spec_xrw()) {
                Some(e) => Err(e),
                None => Ok((n, space.chosen_page(0)->0)),
            }
        },
    }
}

/// The memory after a hook: page `page` holds the trampoline, and the first
/// `n` bytes at `site` are the jump to `detour` and its padding. Nothing
/// else changes, no protection either.
pub open spec fn hooked(
    m: Map<int,
    Cell>,
    bits: Bits,
    site: u64,
    detour: u64,
    n: nat,
    page: int,
) -> Map<int, Cell> {
    let tramp = (page * 4096) as u64;
    let with_trampoline = store(
        with_page(m, page, spec_xrw()),
        tramp as int,
        trampoline_bytes(bits, bytes_at(m, site as int, n), tramp, site),
    );
    store(with_trampoline, site as int, entry_patch(bits, site, detour, n))
}

/// Why an unhook is refused, if it is.
///
/// The checks stand in the order in which they are made: the address fits
/// the target's width, and the handle is one that a hook could have given;
/// the hook site ends inside the address space; the trampoline can be read;
/// it ends with the jump back behind the hook site; the protection of the
/// hook site can be changed.
pub open spec fn unhook_failure(
    space: &AddressSpace,
    site: u64,
    address: u64,
    size: usize,
) -> Option<MemError> {
    let bits = space.spec_bits();
    let jump = jump_length(bits);
    if !bits.spec_fits(site) || size < jump || size + jump > 4096 || address as int % 4096 != 0 {
        Some(MemError::InvalidArgument)
    } else if site + size > u64::MAX {
        Some(MemError::AccessError)
    } else if !(space.spec_alive() && readable(space@, address as int, size + jump)) {
        Some(MemError::AccessError)
    } else if bytes_at(space@, address + size, jump) != jump_bytes(
        bits,
        (address + size) as u64,
        (site + size) as u64,
    ) {
        Some(MemError::InvalidArgument)
    } else {
        space.protect_failure(site, size, spec_xrw())
    }
}

/// The memory after an unhook: the first `size` bytes at `site` are those
/// that the trampoline kept, and the page of the trampoline is released.
/// Nothing else changes, no protection either.
pub open spec fn unhooked(
    m: Map<int,
    Cell>,
    site: u64,
    address: u64,
    size: usize,
) -> Map<int, Cell> {
    unmap(
        store(m, site as int, bytes_at(m, address as int, size as nat)),
        page_of(address as int),
        page_of(address as int),
    )
}

/// What a hook needs of the memory: the hook site can be read and is long
/// enough for the jump, the displaced bytes and the jump back fit in a
/// page, and the page for the trampoline is free and can be mapped.
pub open spec fn hook_ready(m: Map<int, Cell>, bits: Bits, site: u64, n: nat, page: int) -> bool {
    &&& paged(m, bits)
    &&& bits.spec_fits(site)
    &&& jump_length(bits) <= n
    &&& n + jump_length(bits) <= 4096
    &&& readable(m, site as int, n as int)
    &&& 1 <= page < page_limit(bits)
    &&& page_free(m, page)
}

/// A plan that exists was made for memory that is ready for the hook, in a
/// living target that accepts the trampoline's protection.
pub proof fn lemma_plan_ready(
    space: &AddressSpace,
    insts: Seq<Instruction>,
    site: u64,
    detour: u64,
    size: nat,
    page: int,
)
    requires
        space.inv(),
        hook_plan(space, insts, site, detour) == Ok::<(nat, int), MemError>((size, page)),
    ensures
        hook_ready(space@, space.spec_bits(), site, size, page),
        space.spec_bits().spec_fits(detour),
        space.spec_alive(),
        space.allows(spec_xrw()),
        size <= usize::MAX,
{
    let bits = space.spec_bits();
    space.lemma_paged();
    crate::code::lemma_code_length_reaches(insts, site, jump_length(bits));
    lemma_lowest_is(|p: int| 1 <= p < page_limit(bits) && page_free(space@, p), page);
}

/// What the memory after a hook holds at one address: the trampoline's page
/// holds the trampoline and then zeros, under the trampoline's protection;
/// the hook site holds the patch; every other address holds what it held;
/// every address that was mapped has the protection that it had.
pub proof fn lemma_hooked_cell(
    m: Map<int, Cell>,
    bits: Bits,
    site: u64,
    detour: u64,
    n: nat,
    page: int,
    a: int,
)
    requires
        hook_ready(m, bits, site, n, page),
    ensures
        ({
            let h = hooked(m, bits, site, detour, n, page);
            let original = bytes_at(m, site as int, n);
            let code = trampoline_bytes(bits, original, (page * 4096) as u64, site);
            let patch = entry_patch(bits, site, detour, n);
            &&& code.len() == n + jump_length(bits)
            &&& patch.len() == n
            &&& h.dom().contains(a) == (m.dom().contains(a) || (0 <= a && page_of(a) == page))
            &&& m.dom().contains(a) ==> page_of(a) != page
            &&& 0 <= a && page_of(a) == page ==> {
                &&& h[a].prot == spec_xrw()
                &&& h[a].value == if a - page * 4096 < code.len() {
                    code[a - page * 4096]
                } else {
                    0
                }
            }
            &&& m.dom().contains(a) ==> {
                &&& h[a].value == if site <= a < site + n {
                    patch[a - site]
                } else {
                    m[a].value
                }
                &&& h[a].prot == m[a].prot
            }
        }),
{
    let tramp = (page * 4096) as u64;
    let original = bytes_at(m, site as int, n);
    let code = trampoline_bytes(bits, original, tramp, site);
    let patch = entry_patch(bits, site, detour, n);
    assert(tramp == page * 4096);
    assert(m.dom().contains(site as int));
    assert(m.dom().contains(site + n - 1));
    crate::code::lemma_jump_len(bits, (tramp + n) as u64, (site + n) as u64);
    crate::code::lemma_jump_len(bits, site, detour);
    lemma_page_bounds(a);
    if 0 <= a && page_of(a) == page {
        assert(!m.dom().contains(a));
    }
}

/// What the memory after an unhook holds at one address: the page of the
/// trampoline is gone, the hook site holds what the trampoline kept, every
/// other address holds what it held, under the protection that it had.
pub proof fn lemma_unhooked_cell(m: Map<int, Cell>, site: u64, address: u64, size: usize, a: int)
    ensures
        ({
            let u = unhooked(m, site, address, size);
            &&& u.dom().contains(a) == (m.dom().contains(a) && page_of(a) != page_of(
                address as int,
            ))
            &&& u.dom().contains(a) ==> {
                &&& u[a].value == if site <= a < site + size {
                    m[address + (a - site)].value
                } else {
                    m[a].value
                }
                &&& u[a].prot == m[a].prot
            }
        }),
{
}

/// Writes `bytes` over code at `site`. The pages that the range touches are
/// made writable for the time of the write and are given their own
/// protections back after it.
///
/// It succeeds and fails as the change of protection of the range does, and
/// a patch that fails changes nothing.
#[verifier::rlimit(50)]
fn patch(space: &mut AddressSpace, site: u64, bytes: &[u8]) -> (res: Result<(), MemError>)
    requires
        old(space).inv(),
        0 < bytes@.len() <= 4096,
        site + bytes@.len() <= u64::MAX,
    ensures
        final(space).inv(),
        final(space).same_target(old(space)),
        match res {
            Ok(()) => {
                &&& old(space).protect_failure(site, bytes@.len() as usize, spec_xrw()) is None
                &&& final(space)@ == store(old(space)@, site as int, bytes@)
            },
            Err(e) => {
                &&& old(space).protect_failure(site, bytes@.len() as usize, spec_xrw()) == Some(e)
                &&& final(space)@ == old(space)@
            },
        },
{
    let len: usize = bytes.len();
    let last: u64 = site + (len - 1) as u64;
    let two_pages: bool = site / 4096 != last / 4096;
    let xrw = Prot::xrw();
    let ghost m0 = space@;
    let ghost bits = space.spec_bits();
    let ghost fp = first_page(site as int);
    let ghost lp = last_page(site as int, len as int);
    proof {
        space.lemma_paged();
        lemma_page_bounds(site as int);
        lemma_page_bounds(last as int);
        assert(fp <= lp <= fp + 1);
    }
    let first_prot: Prot = match space.protect(site, 1, xrw) {
        Ok(previous) => previous,
        Err(e) => {
            proof {
                if !mapped(m0, site as int, 1) {
                    assert(!m0.dom().contains(site as int));
                }
            }
            return Err(e);
        },
    };
    let ghost m1 = space@;
    proof {
        assert(m0.dom().contains(site as int));
        assert(m1 =~= reprotect(m0, fp, fp, xrw));
        lemma_page_uniform(m0, bits, fp, site as int, first_prot);
    }
    let last_prot: Prot = if two_pages {
        match space.protect(last, 1, xrw) {
            Ok(previous) => previous,
            Err(e) => {
                proof {
                    assert(!m1.dom().contains(last as int));
                    assert(!m0.dom().contains(last as int));
                }
                let _ = space.protect(site, 1, first_prot);
                proof {
                    assert(space@ =~= m0);
                }
                return Err(e);
            },
        }
    } else {
        first_prot
    };
    let ghost m2 = space@;
    proof {
        assert(m0.dom().contains(last as int)) by {
            if two_pages {
                assert(m1.dom().contains(last as int));
            } else {
                assert(m0.dom().contains(site as int));
            }
        }
        assert(last_prot == m0[last as int].prot);
        lemma_page_uniform(m0, bits, lp, last as int, last_prot);
        assert(m2 =~= reprotect(m0, fp, lp, xrw));
        assert(mapped(m0, site as int, len as int)) by {
            assert forall|a: int|
                #![trigger m0.dom().contains(a)]
                site <= a < site + len implies m0.dom().contains(a) by {
                lemma_page_bounds(a);
                if page_of(a) == fp {
                    assert(m0.dom().contains(site as int));
                } else {
                    assert(m0.dom().contains(last as int));
                }
            }
        }
        lemma_reprotect_permitted(
            m0,
            site as int,
            len as int,
            xrw,
            Prot { read: false, write: true, execute: false },
        );
    }
    match space.write(site, bytes) {
        Ok(()) => {},
        Err(e) => {
            let _ = space.protect(site, 1, first_prot);
            let _ = space.protect(last, 1, last_prot);
            return Err(e);
        },
    }
    let ghost m3 = space@;
    proof {
        assert(m3.dom().contains(site as int) && m3.dom().contains(last as int));
    }
    match space.protect(site, 1, first_prot) {
        Ok(_) => {},
        Err(e) => {
            return Err(e);
        },
    }
    if two_pages {
        match space.protect(last, 1, last_prot) {
            Ok(_) => {},
            Err(e) => {
                return Err(e);
            },
        }
    }
    proof {
        let s0 = store(m0, site as int, bytes@);
        assert forall|a: int| m0.dom().contains(a) implies space@[a] == s0[a] by {
            lemma_page_bounds(a);
            if page_of(a) == fp {
                assert(m0[a].prot == first_prot);
            } else if page_of(a) == lp {
                assert(m0[a].prot == last_prot);
            }
        }
        assert(space@ =~= s0);
    }
    Ok(())
}

/// In paged memory a whole page has the protection of any one of its
/// addresses.
proof fn lemma_page_uniform(m: Map<int, Cell>, bits: Bits, page: int, at: int, prot: Prot)
    requires
        paged(m, bits),
        m.dom().contains(at),
        page_of(at) == page,
        m[at].prot == prot,
    ensures
        forall|a: int|
            #![trigger m.dom().contains(a)]
            0 <= a && page_of(a) == page ==> m.dom().contains(a) && m[a].prot == prot,
{
    assert forall|a: int| #![trigger m.dom().contains(a)] 0 <= a && page_of(a) == page implies (
    m.dom().contains(a) && m[a].prot == prot) by {
        lemma_page_bounds(a);
        lemma_page_bounds(at);
        assert(0 <= a < 0x1_0000_0000_0000_0000);
        assert(m.dom().contains(at));
        assert(page_of(at) == page_of(a));
        assert(m.dom().contains(a));
        assert(m[at].prot == m[a].prot);
    }
}

/// Redirects the function at `site` to `detour` and returns the trampoline
/// through which the original can still be called.
///
/// `insts` is what the disassembler decoded from `site` on. As many whole
/// instructions as the jump needs are copied to a new executable page,
/// followed by a jump back behind them; then the entry of the function is
/// overwritten with a jump to `detour`, padded with no-ops. The displaced
/// bytes are copied as they are: instructions that depend on where they
/// stand are not rewritten for their new place. A hook that fails leaves the
/// target as it was.
#[verifier::rlimit(50)]
pub fn hook(
    space: &mut AddressSpace,
    insts: &[Instruction],
    site: u64,
    detour: u64,
) -> (res: Result<Trampoline, MemError>)
    requires
        old(space).inv(),
    ensures
        final(space).inv(),
        final(space).same_target(old(space)),
        match res {
            Ok(trampoline) => {
                &&& hook_plan(old(space), insts@, site, detour) == Ok::<(nat, int), MemError>(
                    (trampoline.size as nat, page_of(trampoline.address as int)),
                )
                &&& trampoline.address as int % 4096 == 0
                &&& final(space)@ == hooked(
                    old(space)@,
                    old(space).spec_bits(),
                    site,
                    detour,
                    trampoline.size as nat,
                    page_of(trampoline.address as int),
                )
            },
            Err(e) => {
                &&& hook_plan(old(space), insts@, site, detour) == Err::<(nat, int), MemError>(e)
                &&& final(space)@ == old(space)@
            },
        },
{
    let bits = space.bits();
    let jump: usize = jump_size(bits);
    let n: usize = match displaced_length(bits, insts, site, detour) {
        Ok(n) => n,
        Err(e) => {
            return Err(e);
        },
    };
    let original: Vec<u8> = match space.read(site, n) {
        Ok(bytes) => bytes,
        Err(e) => {
            return Err(e);
        },
    };
    if n > 4096 - jump {
        return Err(MemError::AllocationError);
    }
    let ghost m0 = space@;
    proof {
        space.lemma_paged();
        crate::code::lemma_code_length_reaches(insts@, site, jump as nat);
        assert(m0.dom().contains(site as int));
        assert(m0.dom().contains(site + n - 1));
    }
    let xrw = Prot::xrw();
    let tramp: u64 = match space.allocate(0, xrw) {
        Ok(address) => address,
        Err(e) => {
            return Err(e);
        },
    };
    let ghost page = page_of(tramp as int);
    let ghost m1 = space@;
    proof {
        lemma_page_bounds(tramp as int);
        lemma_lowest_is(
            |p: int| 1 <= p < page_limit(old(space).spec_bits()) && page_free(m0, p),
            page,
        );
        assert(page_free(m0, page));
        assert(tramp == page * 4096);
    }
    let code = match trampoline_code(bits, original.as_slice(), tramp, site) {
        Ok(code) => code,
        Err(e) => {
            let _ = space.free(tramp, 0);
            return Err(e);
        },
    };
    proof {
        lemma_fresh_page(
            m0,
            page,
            xrw,
            tramp as int,
            code@.len() as int,
            Prot { read: false, write: true, execute: false },
        );
    }
    match space.write(tramp, code.as_slice()) {
        Ok(()) => {},
        Err(e) => {
            let _ = space.free(tramp, 0);
            return Err(e);
        },
    }
    let ghost m2 = space@;
    let entry = match entry_code(bits, site, detour, n) {
        Ok(entry) => entry,
        Err(e) => {
            let _ = space.free(tramp, 0);
            return Err(e);
        },
    };
    proof {
        lemma_permitted_mapped(
            m0,
            site as int,
            n as int,
            Prot { read: true, write: false, execute: false },
        );
        assert(mapped(m2, site as int, n as int)) by {
            assert forall|a: int|
                #![trigger m2.dom().contains(a)]
                site <= a < site + n implies m2.dom().contains(a) by {
                assert(m0.dom().contains(a));
            }
        }
    }
    match patch(space, site, entry.as_slice()) {
        Ok(()) => {},
        Err(e) => {
            let _ = space.free(tramp, 0);
            return Err(e);
        },
    }
    proof {
        assert(original@ == bytes_at(m0, site as int, n as nat));
        assert(space@ =~= hooked(m0, bits, site, detour, n as nat, page));
    }
    Ok(Trampoline { address: tramp, size: n })
}

/// Removes the hook from the function at `site` and releases its trampoline.
///
/// The displaced bytes are copied back from the trampoline to the entry of
/// the function. A handle that no hook of this function could have given is
/// refused as an invalid argument: the trampoline has to end with the jump
/// back behind the hook site. An unhook that fails leaves the target as it
/// was.
#[verifier::rlimit(50)]
pub fn unhook(space: &mut AddressSpace, site: u64, trampoline: Trampoline) -> (res: Result<
    (),
    MemError,
>)
    requires
        old(space).inv(),
    ensures
        final(space).inv(),
        final(space).same_target(old(space)),
        match res {
            Ok(()) => {
                &&& unhook_failure(old(space), site, trampoline.address, trampoline.size) is None
                &&& final(space)@ == unhooked(
                    old(space)@,
                    site,
                    trampoline.address,
                    trampoline.size,
                )
            },
            Err(e) => {
                &&& unhook_failure(old(space), site, trampoline.address, trampoline.size) == Some(e)
                &&& final(space)@ == old(space)@
            },
        },
{
    let bits = space.bits();
    let jump: usize = jump_size(bits);
    let n: usize = trampoline.size;
    let tramp: u64 = trampoline.address;
    if !bits.fits(site) || n < jump || n > 4096 - jump || tramp % 4096 != 0 {
        return Err(MemError::InvalidArgument);
    }
    let end: u64 = match site.checked_add(n as u64) {
        Some(end) => end,
        None => {
            return Err(MemError::AccessError);
        },
    };
    let ghost m0 = space@;
    let kept: Vec<u8> = match space.read(tramp, n + jump) {
        Ok(bytes) => bytes,
        Err(e) => {
            return Err(e);
        },
    };
    proof {
        space.lemma_paged();
        assert(m0.dom().contains(tramp + n + jump - 1));
        assert(kept@.subrange(n as int, n + jump) =~= bytes_at(m0, tramp + n, jump as nat));
        assert(kept@.subrange(0, n as int) =~= bytes_at(m0, tramp as int, n as nat));
    }
    let original: Vec<u8> = match original_bytes(bits, kept.as_slice(), tramp, site, n) {
        Ok(original) => original,
        Err(e) => {
            return Err(e);
        },
    };
    match patch(space, site, original.as_slice()) {
        Ok(()) => {},
        Err(e) => {
            return Err(e);
        },
    }
    let ghost m1 = space@;
    proof {
        assert(m1.dom().contains(tramp as int)) by {
            assert(m0.dom().contains(tramp as int));
        }
        assert(mapped(m1, tramp as int, 1));
    }
    match space.free(tramp, 0) {
        Ok(()) => {},
        Err(e) => {
            return Err(e);
        },
    }
    Ok(())
}

} // verus!
