//! The mathematical side of an address space: a map from addresses to
//! cells, and what the operations make of it.

use crate::prot::Prot;
use crate::target::Bits;
use vstd::prelude::*;

verus! {

/// The number of bytes of a page, the unit in which memory is mapped,
/// protected and released.
pub const PAGE_SIZE: u64 = 4096;

/// What an address space holds at one mapped address.
#[derive(Clone, Copy, Debug, PartialEq, Eq, Structural)]
pub struct Cell {
    /// The byte stored there.
    pub value: u8,
    /// The protection of the page that the address lies in.
    pub prot: Prot,
}

/// The number of the page that holds address `a`.
pub open spec fn page_of(a: int) -> int {
    a / 4096
}

/// A page number times the page size, plus an offset within the page, is
/// an address of that page.
pub proof fn lemma_page_of(page: int, offset: int)
    requires
        0 <= offset < 4096,
    ensures
        page_of(page * 4096 + offset) == page,
        (page * 4096 + offset) % 4096 == offset,
{
}

/// An address lies between the start of its page and the start of the next.
pub proof fn lemma_page_bounds(a: int)
    ensures
        page_of(a) * 4096 <= a < page_of(a) * 4096 + 4096,
        a == page_of(a) * 4096 + a % 4096,
        0 <= a % 4096 < 4096,
{
}

/// One more than the highest page number that a target of the given width
/// can map. The topmost page stays out of reach, so that the end of a mapped
/// range is always an address of the target.
pub open spec fn page_limit(bits: Bits) -> int {
    match bits {
        Bits::Bits32 => 0xF_FFFF,
        Bits::Bits64 => 0xF_FFFF_FFFF_FFFF,
    }
}

/// Every address of the range is mapped and grants the permissions of
/// `need`.
pub open spec fn permitted(m: Map<int, Cell>, addr: int, len: int, need: Prot) -> bool {
    forall|a: int|
        #![trigger m.dom().contains(a)]
        addr <= a < addr + len ==> m.dom().contains(a) && m[a].prot.spec_contains(need)
}

/// Every address of the range is mapped.
pub open spec fn mapped(m: Map<int, Cell>, addr: int, len: int) -> bool {
    permitted(m, addr, len, Prot { read: false, write: false, execute: false })
}

/// Every address of the range is mapped and may be read.
pub open spec fn readable(m: Map<int, Cell>, addr: int, len: int) -> bool {
    permitted(m, addr, len, Prot { read: true, write: false, execute: false })
}

/// Every address of the range is mapped and may be written.
pub open spec fn writable(m: Map<int, Cell>, addr: int, len: int) -> bool {
    permitted(m, addr, len, Prot { read: false, write: true, execute: false })
}

/// The `len` bytes stored from `addr` on.
pub open spec fn bytes_at(m: Map<int, Cell>, addr: int, len: nat) -> Seq<u8> {
    Seq::new(len, |i: int| m[addr + i].value)
}

/// The memory after `data` was stored from `addr` on: the bytes of the range
/// are those of `data`, protections and everything else stay.
pub open spec fn store(m: Map<int, Cell>, addr: int, data: Seq<u8>) -> Map<int, Cell> {
    Map::new(
        |a: int| m.dom().contains(a),
        |a: int|
            if addr <= a < addr + data.len() {
                Cell { value: data[a - addr], prot: m[a].prot }
            } else {
                m[a]
            },
    )
}

/// The memory after the range was filled with `byte`.
pub open spec fn fill(m: Map<int, Cell>, addr: int, len: nat, byte: u8) -> Map<int, Cell> {
    store(m, addr, Seq::new(len, |i: int| byte))
}

/// Address `a` lies in one of the pages `first` to `last`.
pub open spec fn in_pages(a: int, first: int, last: int) -> bool {
    first <= page_of(a) <= last
}

/// The first page that the range touches.
pub open spec fn first_page(addr: int) -> int {
    page_of(addr)
}

/// The last page that a range of at least one byte touches.
pub open spec fn last_page(addr: int, len: int) -> int {
    page_of(addr + len - 1)
}

/// The memory after the pages `first` to `last` were given the protection
/// `prot`: every mapped address in them has it, bytes and everything else
/// stay.
pub open spec fn reprotect(m: Map<int, Cell>, first: int, last: int, prot: Prot) -> Map<int, Cell> {
    Map::new(
        |a: int| m.dom().contains(a),
        |a: int|
            if in_pages(a, first, last) {
                Cell { value: m[a].value, prot: prot }
            } else {
                m[a]
            },
    )
}

/// The memory after the pages `first` to `last` were released.
pub open spec fn unmap(m: Map<int, Cell>, first: int, last: int) -> Map<int, Cell> {
    Map::new(|a: int| m.dom().contains(a) && !in_pages(a, first, last), |a: int| m[a])
}

/// No address of page `page` is mapped.
pub open spec fn page_free(m: Map<int, Cell>, page: int) -> bool {
    forall|a: int| #![trigger m.dom().contains(a)] page_of(a) == page ==> !m.dom().contains(a)
}

/// The memory after page `page` was mapped, filled with zeros, under the
/// protection `prot`.
pub open spec fn with_page(m: Map<int, Cell>, page: int, prot: Prot) -> Map<int, Cell> {
    Map::new(
        |a: int| m.dom().contains(a) || (0 <= a && page_of(a) == page),
        |a: int|
            if page_of(a) == page {
                Cell { value: 0, prot: prot }
            } else {
                m[a]
            },
    )
}

/// No address of the pages `first` to `last` is mapped.
pub open spec fn pages_free(m: Map<int, Cell>, first: int, last: int) -> bool {
    forall|a: int| #![trigger m.dom().contains(a)] in_pages(a, first, last) ==> !m.dom().contains(a)
}

/// The memory after the pages `first` to `last` were mapped, filled with
/// zeros, under the protection `prot`.
pub open spec fn with_pages(
    m: Map<int,
    Cell>,
    first: int,
    last: int,
    prot: Prot,
) -> Map<int, Cell> {
    Map::new(
        |a: int| m.dom().contains(a) || (0 <= a && in_pages(a, first, last)),
        |a: int|
            if in_pages(a, first, last) {
                Cell { value: 0, prot: prot }
            } else {
                m[a]
            },
    )
}

/// Mapping pages `first` to `next - 1` and then page `next` is mapping pages
/// `first` to `next`.
pub proof fn lemma_with_pages_next(m: Map<int, Cell>, first: int, next: int, prot: Prot)
    requires
        first <= next,
    ensures
        with_page(with_pages(m, first, next - 1, prot), next, prot) == with_pages(
            m,
            first,
            next,
            prot,
        ),
        with_pages(m, first, first - 1, prot) == m,
{
    assert(with_page(with_pages(m, first, next - 1, prot), next, prot) =~= with_pages(
        m,
        first,
        next,
        prot,
    ));
    assert(with_pages(m, first, first - 1, prot) =~= m);
}

/// Changing the protection of pages `first` to `next - 1` and then of page
/// `next` is changing that of pages `first` to `next`.
pub proof fn lemma_reprotect_next(m: Map<int, Cell>, first: int, next: int, prot: Prot)
    requires
        first <= next,
    ensures
        reprotect(reprotect(m, first, next - 1, prot), next, next, prot) == reprotect(
            m,
            first,
            next,
            prot,
        ),
        reprotect(m, first, first - 1, prot) == m,
{
    assert(reprotect(reprotect(m, first, next - 1, prot), next, next, prot) =~= reprotect(
        m,
        first,
        next,
        prot,
    ));
    assert(reprotect(m, first, first - 1, prot) =~= m);
}

/// Releasing pages `first` to `next - 1` and then page `next` is releasing
/// pages `first` to `next`.
pub proof fn lemma_unmap_next(m: Map<int, Cell>, first: int, next: int)
    requires
        first <= next,
    ensures
        unmap(unmap(m, first, next - 1), next, next) == unmap(m, first, next),
        unmap(m, first, first - 1) == m,
{
    assert(unmap(unmap(m, first, next - 1), next, next) =~= unmap(m, first, next));
    assert(unmap(m, first, first - 1) =~= m);
}

/// A freshly mapped page grants, on all of it, what its protection grants.
pub proof fn lemma_fresh_page(
    m: Map<int,
    Cell>,
    page: int,
    prot: Prot,
    addr: int,
    len: int,
    need: Prot,
)
    requires
        0 <= page,
        page * 4096 <= addr,
        0 <= len,
        addr + len <= page * 4096 + 4096,
        prot.spec_contains(need),
    ensures
        permitted(with_page(m, page, prot), addr, len, need),
{
    let w = with_page(m, page, prot);
    assert forall|a: int|
        #![trigger w.dom().contains(a)]
        addr <= a < addr + len implies w.dom().contains(a) && w[a].prot.spec_contains(need) by {
        lemma_page_of(page, a - page * 4096);
    }
}

/// Storing bytes changes no permission.
pub proof fn lemma_store_permitted(
    m: Map<int, Cell>,
    at: int,
    data: Seq<u8>,
    addr: int,
    len: int,
    need: Prot,
)
    ensures
        permitted(store(m, at, data), addr, len, need) == permitted(m, addr, len, need),
{
    let s = store(m, at, data);
    if permitted(m, addr, len, need) {
        assert forall|a: int|
            #![trigger s.dom().contains(a)]
            addr <= a < addr + len implies s.dom().contains(a) && s[a].prot.spec_contains(need) by {
            assert(m.dom().contains(a));
        }
    }
    if permitted(s, addr, len, need) {
        assert forall|a: int|
            #![trigger m.dom().contains(a)]
            addr <= a < addr + len implies m.dom().contains(a) && m[a].prot.spec_contains(need) by {
            assert(s.dom().contains(a));
        }
    }
}

/// After the pages of a mapped range were given a protection, the range
/// grants what that protection grants.
pub proof fn lemma_reprotect_permitted(
    m: Map<int,
    Cell>,
    addr: int,
    len: int,
    prot: Prot,
    need: Prot,
)
    requires
        len > 0,
        mapped(m, addr, len),
        prot.spec_contains(need),
    ensures
        permitted(reprotect(m, first_page(addr), last_page(addr, len), prot), addr, len, need),
{
    let r = reprotect(m, first_page(addr), last_page(addr, len), prot);
    assert forall|a: int|
        #![trigger r.dom().contains(a)]
        addr <= a < addr + len implies r.dom().contains(a) && r[a].prot.spec_contains(need) by {
        assert(m.dom().contains(a));
        lemma_page_bounds(a);
        lemma_page_bounds(addr);
        lemma_page_bounds(addr + len - 1);
    }
}

/// A range that grants `need` is mapped, and so is every range that grants
/// more.
pub proof fn lemma_permitted_mapped(m: Map<int, Cell>, addr: int, len: int, need: Prot)
    requires
        permitted(m, addr, len, need),
    ensures
        mapped(m, addr, len),
{
    assert forall|a: int|
        #![trigger m.dom().contains(a)]
        addr <= a < addr + len implies m.dom().contains(a) by {}
}

/// Only addresses in pages that the target can map are mapped.
pub open spec fn within_reach(m: Map<int, Cell>, bits: Bits) -> bool {
    forall|a: int|
        #![trigger m.dom().contains(a)]
        m.dom().contains(a) ==> 0 <= a && page_of(a) < page_limit(bits) && a + 4096
            < bits.spec_limit()
}

/// Memory is mapped by whole pages, each under one protection.
pub open spec fn page_granular(m: Map<int, Cell>) -> bool {
    forall|a: int, b: int|
        #![trigger m.dom().contains(a), m.dom().contains(b)]
        #![trigger m.dom().contains(a), m[b]]
        page_of(a) == page_of(b) && 0 <= b < 0x1_0000_0000_0000_0000 && m.dom().contains(a)
            ==> m.dom().contains(b) && m[a].prot == m[b].prot
}

/// Memory is mapped by whole pages, each under one protection, and only
/// in pages that the target can map.
pub open spec fn paged(m: Map<int, Cell>, bits: Bits) -> bool {
    within_reach(m, bits) && page_granular(m)
}

} // verus!
