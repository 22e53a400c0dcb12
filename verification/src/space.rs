//! The address space of a target, kept page by page.

use crate::error::MemError;
use crate::least::{lemma_lowest_none, lemma_lowest_some, lowest};
use crate::memory::{
    bytes_at, fill, first_page, in_pages, last_page, lemma_page_bounds, lemma_page_of,
    lemma_reprotect_next, lemma_unmap_next, lemma_with_pages_next, mapped, page_free, page_limit,
    page_of, paged, pages_free, permitted, readable, reprotect, store, unmap, with_page, with_pages,
    writable, Cell, PAGE_SIZE,
};
use crate::prot::Prot;
use crate::target::{Bits, Target};
use std::collections::HashMap;
use vstd::prelude::*;

verus! {

broadcast use vstd::std_specs::hash::group_hash_axioms;

/// One mapped page: its protection and its bytes.
struct Page {
    prot: Prot,
    data: Vec<u8>,
}

/// The address space of a target: which pages are mapped, under which
/// protection, and what they hold.
///
/// Its view is the map from every mapped address to the [`Cell`] there.
pub struct AddressSpace {
    target: Target,
    alive: bool,
    strict: bool,
    pages: HashMap<u64, Page>,
}

impl View for AddressSpace {
    type V = Map<int, Cell>;

    closed spec fn view(&self) -> Map<int, Cell> {
        Map::new(
            |a: int|
                0 <= a < 0x1_0000_0000_0000_0000 && self.pages@.contains_key(page_of(a) as u64),
            |a: int|
                Cell {
                    value: self.pages@[page_of(a) as u64].data@[a % 4096],
                    prot: self.pages@[page_of(a) as u64].prot,
                },
        )
    }
}

impl AddressSpace {
    /// The target that the address space belongs to.
    pub closed spec fn spec_target(&self) -> Target {
        self.target
    }

    /// The pointer width of the target.
    pub open spec fn spec_bits(&self) -> Bits {
        self.spec_target().spec_bits()
    }

    /// Whether the target is still alive. A dead target refuses everything.
    pub closed spec fn spec_alive(&self) -> bool {
        self.alive
    }

    /// Whether the target refuses memory that is writable and executable at
    /// once.
    pub closed spec fn spec_strict(&self) -> bool {
        self.strict
    }

    /// Whether the target can honor the protection `prot`.
    pub open spec fn allows(&self, prot: Prot) -> bool {
        !(self.spec_strict() && prot.write && prot.execute)
    }

    /// The two address spaces belong to the same target, in the same state
    /// of life and under the same policy.
    pub open spec fn same_target(&self, other: &AddressSpace) -> bool {
        &&& self.spec_target() == other.spec_target()
        &&& self.spec_alive() == other.spec_alive()
        &&& self.spec_strict() == other.spec_strict()
    }

    /// The invariant of the representation: every mapped page is complete and
    /// lies below the limit of the target's width.
    pub closed spec fn inv(&self) -> bool {
        forall|p: u64|
            (#[trigger] self.pages@.contains_key(p)) ==> self.pages@[p].data@.len() == 4096 && (
            p as int) < page_limit(self.spec_bits())
    }

    /// Page `q` is mapped and grants the permissions of `need`.
    spec fn page_grants(&self, q: u64, need: Prot) -> bool {
        self.pages@.contains_key(q) && self.pages@[q].prot.spec_contains(need)
    }

    /// Where every page that a range touches is mapped and grants `need`,
    /// every address of the range does.
    proof fn lemma_pages_grant(&self, addr: int, len: int, need: Prot)
        requires
            0 <= addr,
            0 < len,
            addr + len <= 0x1_0000_0000_0000_0000,
            forall|q: u64|
                page_of(addr) <= q <= page_of(addr + len - 1) ==> #[trigger] self.page_grants(
                    q,
                    need,
                ),
        ensures
            permitted(self@, addr, len, need),
    {
        let m = self@;
        assert forall|a: int| #![trigger m.dom().contains(a)] addr <= a < addr + len implies (
        m.dom().contains(a) && m[a].prot.spec_contains(need)) by {
            let q = page_of(a) as u64;
            lemma_page_bounds(a);
            lemma_page_bounds(addr);
            lemma_page_bounds(addr + len - 1);
            assert(page_of(addr) <= q <= page_of(addr + len - 1));
            assert(self.page_grants(q, need));
        }
    }

    /// What the invariant means for the view.
    pub proof fn lemma_paged(&self)
        requires
            self.inv(),
        ensures
            paged(self@, self.spec_bits()),
    {
        assert forall|a: int|
            #![trigger self@.dom().contains(a)]
            self@.dom().contains(a) implies 0 <= a && page_of(a) < page_limit(self.spec_bits()) && a
            + 4096 < self.spec_bits().spec_limit() by {
            assert(self.pages@.contains_key(page_of(a) as u64));
            lemma_page_bounds(a);
        }
    }

    /// An address space with nothing mapped, for a living target that accepts
    /// every protection.
    pub fn new(target: Target) -> (space: AddressSpace)
        ensures
            space.inv(),
            space@ == Map::<int, Cell>::empty(),
            space.spec_target() == target,
            space.spec_alive(),
            !space.spec_strict(),
    {
        let space = AddressSpace { target, alive: true, strict: false, pages: HashMap::new() };
        assert(space@ =~= Map::<int, Cell>::empty());
        space
    }

    /// An address space with nothing mapped, for a living target that refuses
    /// memory that is writable and executable at once if `strict` is set.
    pub fn with_policy(target: Target, strict: bool) -> (space: AddressSpace)
        ensures
            space.inv(),
            space@ == Map::<int, Cell>::empty(),
            space.spec_target() == target,
            space.spec_alive(),
            space.spec_strict() == strict,
    {
        let space = AddressSpace { target, alive: true, strict, pages: HashMap::new() };
        assert(space@ =~= Map::<int, Cell>::empty());
        space
    }

    /// The target that the address space belongs to.
    pub fn target(&self) -> (t: Target)
        ensures
            t == self.spec_target(),
    {
        self.target
    }

    /// The pointer width of the target.
    pub fn bits(&self) -> (b: Bits)
        ensures
            b == self.spec_bits(),
    {
        self.target.bits()
    }

    /// Whether the target is still alive.
    pub fn is_alive(&self) -> (b: bool)
        ensures
            b == self.spec_alive(),
    {
        self.alive
    }

    /// Records that the target has died. Its memory stays as it was, out of
    /// reach.
    pub fn terminate(&mut self)
        requires
            old(self).inv(),
        ensures
            final(self).inv(),
            !final(self).spec_alive(),
            final(self)@ == old(self)@,
            final(self).spec_target() == old(self).spec_target(),
            final(self).spec_strict() == old(self).spec_strict(),
    {
        self.alive = false;
    }

    /// Tells whether every address of the range is mapped and grants `need`.
    fn check_range(&self, addr: u64, len: usize, need: Prot) -> (ok: bool)
        requires
            self.inv(),
        ensures
            ok == permitted(self@, addr as int, len as int, need),
            ok && len > 0 ==> addr + len - 1 <= u64::MAX,
            ok && len > 0 ==> forall|q: u64|
                page_of(addr as int) <= q <= page_of(addr + len - 1) ==> #[trigger] self.page_grants(
                    q,
                    need,
                ),
    {
        if len == 0 {
            return true;
        }
        let end: u64 = match addr.checked_add((len - 1) as u64) {
            Some(e) => e,
            None => {
                assert(!self@.dom().contains(0x1_0000_0000_0000_0000));
                return false;
            },
        };
        let first: u64 = addr / PAGE_SIZE;
        let last: u64 = end / PAGE_SIZE;
        let mut p: u64 = first;
        loop
            invariant
                self.inv(),
                len > 0,
                first == addr / 4096,
                last == end / 4096,
                end == addr + len - 1,
                first <= p <= last,
                forall|q: u64| first <= q < p ==> #[trigger] self.page_grants(q, need),
            decreases last - p,
        {
            let ghost witness: int = if p == first {
                addr as int
            } else {
                p * 4096
            };
            proof {
                lemma_page_bounds(addr as int);
                lemma_page_bounds(end as int);
                lemma_page_of(p as int, 0);
            }
            assert(addr <= witness <= end && page_of(witness) == p);
            match self.pages.get(&p) {
                Some(page) => {
                    if !page.prot.contains(need) {
                        assert(!(self@.dom().contains(witness) && self@[witness].prot.spec_contains(
                            need,
                        )));
                        return false;
                    }
                },
                None => {
                    assert(!self@.dom().contains(witness));
                    return false;
                },
            }
            assert(self.page_grants(p, need));
            if p == last {
                proof {
                    self.lemma_pages_grant(addr as int, len as int, need);
                }
                return true;
            }
            p += 1;
        }
    }

    /// Copies `len` bytes out of the target, from `addr` on.
    ///
    /// The read succeeds exactly when the target is alive and the whole range
    /// is mapped and readable.
    pub fn read(&self, addr: u64, len: usize) -> (res: Result<Vec<u8>, MemError>)
        requires
            self.inv(),
        ensures
            match res {
                Ok(bytes) => {
                    &&& self.spec_alive()
                    &&& readable(self@, addr as int, len as int)
                    &&& bytes@ == bytes_at(self@, addr as int, len as nat)
                },
                Err(e) => {
                    &&& e == MemError::AccessError
                    &&& !(self.spec_alive() && readable(self@, addr as int, len as int))
                },
            },
    {
        if !self.alive || !self.check_range(addr, len, Prot::r()) {
            return Err(MemError::AccessError);
        }
        let mut out: Vec<u8> = Vec::new();
        let mut i: usize = 0;
        while i < len
            invariant
                self.inv(),
                i <= len,
                readable(self@, addr as int, len as int),
                len > 0 ==> addr + len - 1 <= u64::MAX,
                out@ == bytes_at(self@, addr as int, i as nat),
            decreases len - i,
        {
            let a: u64 = addr + i as u64;
            assert(self@.dom().contains(a as int));
            match self.pages.get(&(a / PAGE_SIZE)) {
                Some(page) => {
                    out.push(page.data[(a % PAGE_SIZE) as usize]);
                },
                None => {
                    return Err(MemError::AccessError);
                },
            }
            i += 1;
            assert(out@ =~= bytes_at(self@, addr as int, i as nat));
        }
        Ok(out)
    }

    /// Stores one byte at a mapped address, whatever its protection.
    fn poke(&mut self, a: u64, value: u8)
        requires
            old(self).inv(),
            old(self)@.dom().contains(a as int),
        ensures
            final(self).inv(),
            final(self).same_target(old(self)),
            final(self)@ == old(self)@.insert(
                a as int,
                Cell { value: value, prot: old(self)@[a as int].prot },
            ),
    {
        let p: u64 = a / PAGE_SIZE;
        let ghost before = self.pages@;
        match self.pages.remove(&p) {
            Some(mut page) => {
                page.data.set((a % PAGE_SIZE) as usize, value);
                self.pages.insert(p, page);
                assert(self.pages@.dom() =~= before.dom());
                assert(self@ =~= old(self)@.insert(
                    a as int,
                    Cell { value: value, prot: old(self)@[a as int].prot },
                ));
            },
            None => {},
        }
    }

    /// Copies `data` into the target, from `addr` on.
    ///
    /// The write succeeds exactly when the target is alive and the whole
    /// range is mapped and writable. A write that fails changes nothing.
    pub fn write(&mut self, addr: u64, data: &[u8]) -> (res: Result<(), MemError>)
        requires
            old(self).inv(),
        ensures
            final(self).inv(),
            final(self).same_target(old(self)),
            match res {
                Ok(()) => {
                    &&& old(self).spec_alive()
                    &&& writable(old(self)@, addr as int, data@.len() as int)
                    &&& final(self)@ == store(old(self)@, addr as int, data@)
                },
                Err(e) => {
                    &&& e == MemError::AccessError
                    &&& !(old(self).spec_alive() && writable(
                        old(self)@,
                        addr as int,
                        data@.len() as int,
                    ))
                    &&& final(self)@ == old(self)@
                },
            },
    {
        let len: usize = data.len();
        if !self.alive || !self.check_range(addr, len, Prot::w()) {
            return Err(MemError::AccessError);
        }
        let ghost before = self@;
        let mut i: usize = 0;
        assert(self@ =~= store(before, addr as int, data@.subrange(0, 0)));
        while i < len
            invariant
                self.inv(),
                self.same_target(old(self)),
                before == old(self)@,
                len == data@.len(),
                i <= len,
                writable(before, addr as int, len as int),
                len > 0 ==> addr + len - 1 <= u64::MAX,
                self@ == store(before, addr as int, data@.subrange(0, i as int)),
            decreases len - i,
        {
            let a: u64 = addr + i as u64;
            assert(before.dom().contains(a as int));
            self.poke(a, data[i]);
            i += 1;
            assert(self@ =~= store(before, addr as int, data@.subrange(0, i as int)));
        }
        assert(data@.subrange(0, len as int) =~= data@);
        Ok(())
    }

    /// Fills `len` bytes of the target with `byte`, from `addr` on.
    ///
    /// It succeeds and fails as a write of that many bytes does.
    pub fn set(&mut self, addr: u64, byte: u8, len: usize) -> (res: Result<(), MemError>)
        requires
            old(self).inv(),
        ensures
            final(self).inv(),
            final(self).same_target(old(self)),
            match res {
                Ok(()) => {
                    &&& old(self).spec_alive()
                    &&& writable(old(self)@, addr as int, len as int)
                    &&& final(self)@ == fill(old(self)@, addr as int, len as nat, byte)
                },
                Err(e) => {
                    &&& e == MemError::AccessError
                    &&& !(old(self).spec_alive() && writable(old(self)@, addr as int, len as int))
                    &&& final(self)@ == old(self)@
                },
            },
    {
        if !self.alive || !self.check_range(addr, len, Prot::w()) {
            return Err(MemError::AccessError);
        }
        let ghost before = self@;
        let mut i: usize = 0;
        assert(self@ =~= fill(before, addr as int, 0, byte));
        while i < len
            invariant
                self.inv(),
                self.same_target(old(self)),
                before == old(self)@,
                i <= len,
                writable(before, addr as int, len as int),
                len > 0 ==> addr + len - 1 <= u64::MAX,
                self@ == fill(before, addr as int, i as nat, byte),
            decreases len - i,
        {
            let a: u64 = addr + i as u64;
            assert(before.dom().contains(a as int));
            self.poke(a, byte);
            i += 1;
            assert(self@ =~= fill(before, addr as int, i as nat, byte));
        }
        Ok(())
    }

    /// Page `p` is free exactly when nothing of it is mapped.
    proof fn lemma_page_free(&self, p: u64)
        requires
            self.inv(),
            (p as int) < 0x10_0000_0000_0000,
        ensures
            page_free(self@, p as int) == !self.pages@.contains_key(p),
    {
        if self.pages@.contains_key(p) {
            lemma_page_of(p as int, 0);
            assert(self@.dom().contains(p * 4096));
        } else {
            assert forall|a: int|
                #![trigger self@.dom().contains(a)]
                page_of(a) == p implies !self@.dom().contains(a) by {}
        }
    }

    /// Gives the mapped page `p` the protection `prot`.
    fn set_page_prot(&mut self, p: u64, prot: Prot)
        requires
            old(self).inv(),
            old(self).pages@.contains_key(p),
        ensures
            final(self).inv(),
            final(self).same_target(old(self)),
            final(self)@ == reprotect(old(self)@, p as int, p as int, prot),
            final(self).pages@.dom() == old(self).pages@.dom(),
    {
        match self.pages.remove(&p) {
            Some(mut page) => {
                page.prot = prot;
                self.pages.insert(p, page);
                assert(self.pages@.dom() =~= old(self).pages@.dom());
                assert(self@ =~= reprotect(old(self)@, p as int, p as int, prot));
            },
            None => {},
        }
    }

    /// Releases the mapped page `p`.
    fn drop_page(&mut self, p: u64)
        requires
            old(self).inv(),
            old(self).pages@.contains_key(p),
        ensures
            final(self).inv(),
            final(self).same_target(old(self)),
            final(self)@ == unmap(old(self)@, p as int, p as int),
            final(self).pages@ == old(self).pages@.remove(p),
    {
        self.pages.remove(&p);
        assert(self@ =~= unmap(old(self)@, p as int, p as int));
    }

    /// Maps the free page `p`, filled with zeros, under the protection `prot`.
    fn add_page(&mut self, p: u64, prot: Prot)
        requires
            old(self).inv(),
            !old(self).pages@.contains_key(p),
            (p as int) < page_limit(old(self).spec_bits()),
        ensures
            final(self).inv(),
            final(self).same_target(old(self)),
            final(self)@ == with_page(old(self)@, p as int, prot),
            final(self).pages@.dom() == old(self).pages@.dom().insert(p),
    {
        let mut data: Vec<u8> = Vec::new();
        while data.len() < 4096
            invariant
                data@.len() <= 4096,
                forall|i: int| 0 <= i < data@.len() ==> data@[i] == 0,
            decreases 4096 - data@.len(),
        {
            data.push(0);
        }
        self.pages.insert(p, Page { prot, data });
        proof {
            assert forall|a: int| #![trigger self@.dom().contains(a)] self@.dom().contains(a)
                == with_page(old(self)@, p as int, prot).dom().contains(a) by {
                lemma_page_bounds(a);
            }
            assert(self@ =~= with_page(old(self)@, p as int, prot));
        }
    }

    /// Why a change of protection is refused, if it is: an empty range, a
    /// dead target, a protection that the target cannot honor, an address of
    /// the range that is not mapped, in this order.
    pub open spec fn protect_failure(&self, addr: u64, len: usize, prot: Prot) -> Option<MemError> {
        if len == 0 {
            Some(MemError::InvalidArgument)
        } else if !self.spec_alive() {
            Some(MemError::AccessError)
        } else if !self.allows(prot) {
            Some(MemError::AllocationError)
        } else if !mapped(self@, addr as int, len as int) {
            Some(MemError::AccessError)
        } else {
            None
        }
    }

    /// Gives every page that the range touches the protection `prot` and
    /// returns the protection that the first of them had.
    ///
    /// Protection is kept by whole pages, so addresses of those pages outside
    /// the range change with them. A change that is refused changes nothing.
    pub fn protect(&mut self, addr: u64, len: usize, prot: Prot) -> (res: Result<Prot, MemError>)
        requires
            old(self).inv(),
        ensures
            final(self).inv(),
            final(self).same_target(old(self)),
            match res {
                Ok(previous) => {
                    &&& old(self).protect_failure(addr, len, prot) is None
                    &&& previous == old(self)@[addr as int].prot
                    &&& final(self)@ == reprotect(
                        old(self)@,
                        first_page(addr as int),
                        last_page(addr as int, len as int),
                        prot,
                    )
                },
                Err(e) => {
                    &&& old(self).protect_failure(addr, len, prot) == Some(e)
                    &&& final(self)@ == old(self)@
                },
            },
    {
        if len == 0 {
            return Err(MemError::InvalidArgument);
        }
        if !self.alive {
            return Err(MemError::AccessError);
        }
        if self.strict && prot.write && prot.execute {
            return Err(MemError::AllocationError);
        }
        let none: Prot = Prot::none();
        if !self.check_range(addr, len, none) {
            return Err(MemError::AccessError);
        }
        let first: u64 = addr / PAGE_SIZE;
        let last: u64 = (addr + (len - 1) as u64) / PAGE_SIZE;
        assert(self.page_grants(first, none)) by {
            lemma_page_bounds(addr as int);
            lemma_page_bounds(addr + len - 1);
        }
        let previous: Prot = match self.pages.get(&first) {
            Some(page) => page.prot,
            None => Prot::none(),
        };
        let ghost before = self@;
        let ghost before_pages = self.pages@;
        assert(before.dom().contains(addr as int) && previous == before[addr as int].prot);
        let mut p: u64 = first;
        proof {
            lemma_reprotect_next(before, first as int, first as int, prot);
            assert forall|q: u64| first <= q <= last implies #[trigger] before_pages.contains_key(
                q,
            ) by {
                assert(self.page_grants(q, none));
            }
        }
        loop
            invariant_except_break
                self@ == reprotect(before, first as int, p - 1, prot),
            invariant
                self.inv(),
                self.same_target(old(self)),
                first <= p <= last,
                self.pages@.dom() == before_pages.dom(),
                forall|q: u64| first <= q <= last ==> #[trigger] before_pages.contains_key(q),
            ensures
                self.inv(),
                self.same_target(old(self)),
                self@ == reprotect(before, first as int, last as int, prot),
            decreases last - p,
        {
            assert(before_pages.contains_key(p));
            assert(self.pages@.dom().contains(p));
            self.set_page_prot(p, prot);
            proof {
                lemma_reprotect_next(before, first as int, p as int, prot);
            }
            if p == last {
                break ;
            }
            p += 1;
        }
        Ok(previous)
    }

    /// Why a release is refused, if it is: a dead target, a sized range that
    /// does not start on a page boundary, an address of the range (or, for
    /// size zero, the address itself) that is not mapped, in this order.
    pub open spec fn free_failure(&self, addr: u64, len: usize) -> Option<MemError> {
        if !self.spec_alive() {
            Some(MemError::AccessError)
        } else if len > 0 && addr as int % 4096 != 0 {
            Some(MemError::InvalidArgument)
        } else if !mapped(self@, addr as int, if len == 0 { 1 } else { len as int }) {
            Some(MemError::AccessError)
        } else {
            None
        }
    }

    /// The last page that a release touches: with size zero the page of
    /// `addr` itself.
    pub open spec fn free_last_page(addr: u64, len: usize) -> int {
        if len == 0 {
            page_of(addr as int)
        } else {
            last_page(addr as int, len as int)
        }
    }

    /// Releases the pages that the range touches. With size zero it releases
    /// the whole page that holds `addr`.
    ///
    /// Releasing what is not mapped is an error, and a release that is
    /// refused changes nothing.
    pub fn free(&mut self, addr: u64, len: usize) -> (res: Result<(), MemError>)
        requires
            old(self).inv(),
        ensures
            final(self).inv(),
            final(self).same_target(old(self)),
            match res {
                Ok(()) => {
                    &&& old(self).free_failure(addr, len) is None
                    &&& final(self)@ == unmap(
                        old(self)@,
                        first_page(addr as int),
                        Self::free_last_page(addr, len),
                    )
                },
                Err(e) => {
                    &&& old(self).free_failure(addr, len) == Some(e)
                    &&& final(self)@ == old(self)@
                },
            },
    {
        if !self.alive {
            return Err(MemError::AccessError);
        }
        if len > 0 && addr % PAGE_SIZE != 0 {
            return Err(MemError::InvalidArgument);
        }
        let span: usize = if len == 0 {
            1
        } else {
            len
        };
        let none: Prot = Prot::none();
        if !self.check_range(addr, span, none) {
            return Err(MemError::AccessError);
        }
        let first: u64 = addr / PAGE_SIZE;
        let last: u64 = (addr + (span - 1) as u64) / PAGE_SIZE;
        let ghost before = self@;
        let ghost before_pages = self.pages@;
        let mut p: u64 = first;
        proof {
            lemma_unmap_next(before, first as int, first as int);
            assert forall|q: u64| first <= q <= last implies #[trigger] before_pages.contains_key(
                q,
            ) by {
                assert(self.page_grants(q, none));
            }
        }
        loop
            invariant_except_break
                forall|q: u64|
                    p <= q ==> self.pages@.contains_key(q) == #[trigger] before_pages.contains_key(
                        q,
                    ),
                self@ == unmap(before, first as int, p - 1),
            invariant
                self.inv(),
                self.same_target(old(self)),
                first <= p <= last,
                forall|q: u64| first <= q <= last ==> #[trigger] before_pages.contains_key(q),
            ensures
                self.inv(),
                self.same_target(old(self)),
                self@ == unmap(before, first as int, last as int),
            decreases last - p,
        {
            assert(before_pages.contains_key(p));
            self.drop_page(p);
            proof {
                lemma_unmap_next(before, first as int, p as int);
            }
            if p == last {
                break ;
            }
            p += 1;
        }
        Ok(())
    }

    /// Whether the hinted page can be taken: the hint is not zero, lies on a
    /// page boundary below the limit of the target, and its page is free.
    pub open spec fn hint_usable(&self, hint: u64) -> bool {
        &&& hint != 0
        &&& hint as int % 4096 == 0
        &&& page_of(hint as int) < page_limit(self.spec_bits())
        &&& page_free(self@, page_of(hint as int))
    }

    /// The page that an allocation takes: the hinted one if it can be taken,
    /// else the lowest free page above page zero.
    pub open spec fn chosen_page(&self, hint: u64) -> Option<int> {
        if self.hint_usable(hint) {
            Some(page_of(hint as int))
        } else {
            lowest(|p: int| 1 <= p < page_limit(self.spec_bits()) && page_free(self@, p))
        }
    }

    /// Why an allocation is refused, if it is: a dead target, a protection
    /// that the target cannot honor, no free page, in this order.
    pub open spec fn allocate_failure(&self, hint: u64, prot: Prot) -> Option<MemError> {
        if !self.spec_alive() {
            Some(MemError::AccessError)
        } else if !self.allows(prot) {
            Some(MemError::AllocationError)
        } else if self.chosen_page(hint) is None {
            Some(MemError::AllocationError)
        } else {
            None
        }
    }

    /// The number of pages that the target can map.
    fn page_count(&self) -> (n: u64)
        ensures
            n == page_limit(self.spec_bits()),
    {
        match self.target.bits() {
            Bits::Bits32 => 0xF_FFFF,
            Bits::Bits64 => 0xF_FFFF_FFFF_FFFF,
        }
    }

    /// Maps one new page, filled with zeros, under the protection `prot`, and
    /// returns its address.
    ///
    /// A hint of zero means anywhere. Any other hint names the page wanted;
    /// where that page cannot be had, the allocation falls back to anywhere,
    /// which is the lowest free page above page zero.
    pub fn allocate(&mut self, hint: u64, prot: Prot) -> (res: Result<u64, MemError>)
        requires
            old(self).inv(),
        ensures
            final(self).inv(),
            final(self).same_target(old(self)),
            match res {
                Ok(address) => {
                    &&& old(self).allocate_failure(hint, prot) is None
                    &&& old(self).chosen_page(hint) == Some(page_of(address as int))
                    &&& address as int % 4096 == 0
                    &&& final(self)@ == with_page(old(self)@, page_of(address as int), prot)
                },
                Err(e) => {
                    &&& old(self).allocate_failure(hint, prot) == Some(e)
                    &&& final(self)@ == old(self)@
                },
            },
    {
        if !self.alive {
            return Err(MemError::AccessError);
        }
        if self.strict && prot.write && prot.execute {
            return Err(MemError::AllocationError);
        }
        let limit: u64 = self.page_count();
        let ghost vacant = |p: int| 1 <= p < page_limit(self.spec_bits()) && page_free(self@, p);
        if hint != 0 && hint % PAGE_SIZE == 0 && hint / PAGE_SIZE < limit {
            let wanted: u64 = hint / PAGE_SIZE;
            proof {
                self.lemma_page_free(wanted);
            }
            if !self.pages.contains_key(&wanted) {
                self.add_page(wanted, prot);
                proof {
                    lemma_page_of(wanted as int, 0);
                }
                return Ok(hint);
            }
        }
        let mut p: u64 = 1;
        while p < limit
            invariant
                self.inv(),
                *self == *old(self),
                self.spec_alive(),
                self.allows(prot),
                limit == page_limit(self.spec_bits()),
                1 <= p <= limit,
                !self.hint_usable(hint),
                vacant == (|p: int| 1 <= p < page_limit(self.spec_bits()) && page_free(self@, p)),
                forall|q: int| 0 <= q < p ==> !#[trigger] vacant(q),
            decreases limit - p,
        {
            proof {
                self.lemma_page_free(p);
            }
            if !self.pages.contains_key(&p) {
                proof {
                    lemma_lowest_some(vacant, p as int);
                    lemma_page_of(p as int, 0);
                }
                self.add_page(p, prot);
                return Ok(p * PAGE_SIZE);
            }
            p += 1;
        }
        proof {
            lemma_lowest_none(vacant);
        }
        Err(MemError::AllocationError)
    }

    /// Why a mapping is refused, if it is: no bytes to map; a dead target; a
    /// protection that the target cannot honor; a range that leaves the
    /// pages that the target can map, or touches a page that is mapped
    /// already.
    pub open spec fn map_failure(&self, base: u64, len: int, prot: Prot) -> Option<MemError> {
        if len == 0 {
            Some(MemError::InvalidArgument)
        } else if !self.spec_alive() {
            Some(MemError::AccessError)
        } else if !self.allows(prot) {
            Some(MemError::AllocationError)
        } else if last_page(base as int, len) >= page_limit(self.spec_bits()) || !pages_free(
            self@,
            first_page(base as int),
            last_page(base as int, len),
        ) {
            Some(MemError::AllocationError)
        } else {
            None
        }
    }

    /// Maps the pages that hold the range from `base` on, under the
    /// protection `prot`, and fills the range with `bytes`, as a loader does
    /// with a segment. What the pages hold besides is zero. All the pages
    /// have to be free; a mapping that is refused changes nothing.
    pub fn map(&mut self, base: u64, bytes: &[u8], prot: Prot) -> (res: Result<(), MemError>)
        requires
            old(self).inv(),
        ensures
            final(self).inv(),
            final(self).same_target(old(self)),
            match res {
                Ok(()) => {
                    &&& old(self).map_failure(base, bytes@.len() as int, prot) is None
                    &&& final(self)@ == store(
                        with_pages(
                            old(self)@,
                            first_page(base as int),
                            last_page(base as int, bytes@.len() as int),
                            prot,
                        ),
                        base as int,
                        bytes@,
                    )
                },
                Err(e) => {
                    &&& old(self).map_failure(base, bytes@.len() as int, prot) == Some(e)
                    &&& final(self)@ == old(self)@
                },
            },
    {
        let len: usize = bytes.len();
        if len == 0 {
            return Err(MemError::InvalidArgument);
        }
        if !self.alive {
            return Err(MemError::AccessError);
        }
        if self.strict && prot.write && prot.execute {
            return Err(MemError::AllocationError);
        }
        let limit: u64 = self.page_count();
        let end: u64 = match base.checked_add((len - 1) as u64) {
            Some(end) => end,
            None => {
                proof {
                    lemma_page_bounds(base + len - 1);
                }
                return Err(MemError::AllocationError);
            },
        };
        let first: u64 = base / PAGE_SIZE;
        let last: u64 = end / PAGE_SIZE;
        if last >= limit {
            return Err(MemError::AllocationError);
        }
        proof {
            lemma_page_bounds(base as int);
            lemma_page_bounds(end as int);
        }
        let mut p: u64 = first;
        loop
            invariant_except_break
                forall|q: u64| first <= q < p ==> !#[trigger] self.pages@.contains_key(q),
            invariant
                self.inv(),
                *self == *old(self),
                self.spec_alive(),
                self.allows(prot),
                len > 0,
                len == bytes@.len(),
                first == page_of(base as int),
                last == page_of(base + len - 1),
                first <= p <= last,
                last < page_limit(self.spec_bits()),
            ensures
                forall|q: u64| first <= q <= last ==> !#[trigger] self.pages@.contains_key(q),
            decreases last - p,
        {
            if self.pages.contains_key(&p) {
                proof {
                    lemma_page_of(p as int, 0);
                    assert(self@.dom().contains(p * 4096));
                    assert(in_pages(p * 4096, first as int, last as int));
                }
                return Err(MemError::AllocationError);
            }
            if p == last {
                break ;
            }
            p += 1;
        }
        let ghost before = self@;
        proof {
            assert forall|a: int| #![trigger before.dom().contains(a)] in_pages(
                a,
                first as int,
                last as int,
            ) implies !before.dom().contains(a) by {
                if before.dom().contains(a) {
                    assert(self.pages@.contains_key(page_of(a) as u64));
                }
            }
            lemma_with_pages_next(before, first as int, first as int, prot);
        }
        let mut p: u64 = first;
        loop
            invariant_except_break
                self@ == with_pages(before, first as int, p - 1, prot),
                forall|q: u64| p <= q <= last ==> !#[trigger] self.pages@.contains_key(q),
            invariant
                self.inv(),
                self.same_target(old(self)),
                first <= p <= last,
                last < page_limit(self.spec_bits()),
            ensures
                self.inv(),
                self.same_target(old(self)),
                self@ == with_pages(before, first as int, last as int, prot),
            decreases last - p,
        {
            self.add_page(p, prot);
            proof {
                lemma_with_pages_next(before, first as int, p as int, prot);
            }
            if p == last {
                break ;
            }
            p += 1;
        }
        let ghost mapped_pages = self@;
        let mut i: usize = 0;
        assert(self@ =~= store(mapped_pages, base as int, bytes@.subrange(0, 0)));
        while i < len
            invariant
                self.inv(),
                self.same_target(old(self)),
                len == bytes@.len(),
                i <= len,
                end == base + len - 1,
                first == page_of(base as int),
                last == page_of(end as int),
                mapped_pages == with_pages(before, first as int, last as int, prot),
                self@ == store(mapped_pages, base as int, bytes@.subrange(0, i as int)),
            decreases len - i,
        {
            let a: u64 = base + i as u64;
            proof {
                lemma_page_bounds(a as int);
                lemma_page_bounds(base as int);
                lemma_page_bounds(end as int);
                assert(in_pages(a as int, first as int, last as int));
                assert(mapped_pages.dom().contains(a as int));
            }
            self.poke(a, bytes[i]);
            i += 1;
            assert(self@ =~= store(mapped_pages, base as int, bytes@.subrange(0, i as int)));
        }
        assert(bytes@.subrange(0, len as int) =~= bytes@);
        Ok(())
    }
}

} // verus!
