//! Page arithmetic for the mapping of virtual address ranges.
//!
//! The library maps nothing itself. It says which pages a range takes and in
//! which order they are visited, and the kernel around it asks the page mapper
//! for each of them. The pages of a range are counted by the `x86_64` crate:
//! the library hands it the two ends and walks what it yields.

use vstd::prelude::*;
use crate::region::has_room;
use x86_64::structures::paging::page::PageRangeInclusive;
use x86_64::structures::paging::{Page, Size4KiB};
use x86_64::VirtAddr;

verus! {

/// The size of a page in bytes.
pub const PAGE_SIZE: u64 = 4096;

/// The canonical form of a virtual address: an address in the lower half
/// (below `2^47`) or in the upper half (from `2^64 - 2^47` on) is canonical as
/// it stands; an address with bit 47 set and nothing above it becomes
/// canonical by extending that bit upwards; any other address has data above
/// bit 47 and no canonical form.
pub open spec fn canonical(addr: u64) -> Option<u64> {
    if addr < 0x0000_8000_0000_0000 || addr >= 0xffff_8000_0000_0000 {
        Some(addr)
    } else if addr < 0x0001_0000_0000_0000 {
        Some((addr + 0xffff_0000_0000_0000) as u64)
    } else {
        None
    }
}

/// The start of the page that holds `addr`.
pub open spec fn page_of(addr: u64) -> u64 {
    (addr - addr % 4096) as u64
}

/// Makes `addr` a virtual address with `VirtAddr::try_new` and hands back its
/// value: the address itself where bits 47 to 63 are all equal, the address
/// with bit 47 extended upwards where only bit 47 of those is set, and `None`
/// where `try_new` returns an error.
#[verifier::external_body]
fn virt_addr(addr: u64) -> (r: Option<u64>)
    ensures
        r == canonical(addr),
{
    VirtAddr::try_new(addr).ok().map(|a| a.as_u64())
}

/// The start address of `Page::containing_address` for the 4 KiB page that
/// holds the canonical address `addr`: the address rounded down to a multiple
/// of 4096.
#[verifier::external_body]
fn page_start(addr: u64) -> (r: u64)
    requires
        canonical(addr) == Some(addr),
    ensures
        r == page_of(addr),
{
    Page::<Size4KiB>::containing_address(VirtAddr::new(addr)).start_address().as_u64()
}

/// The pages of a range of addresses: the start addresses of the first page
/// and of the last.
#[derive(Clone, Copy, Debug, PartialEq, Eq, Structural)]
pub struct PageRange {
    pub first: u64,
    pub last: u64,
}

impl PageRange {
    /// Both ends are starts of pages at canonical addresses.
    pub open spec fn wf(self) -> bool {
        &&& canonical(self.first) == Some(self.first)
        &&& canonical(self.last) == Some(self.last)
        &&& self.first % 4096 == 0
        &&& self.last % 4096 == 0
    }
}

/// The ends of the range that `page_range` finds for `size` bytes at `addr`.
pub open spec fn page_range_spec(addr: u64, size: usize) -> Option<PageRange> {
    if size == 0 || addr + size - 1 > u64::MAX {
        None
    } else {
        match (canonical(addr), canonical((addr + size - 1) as u64)) {
            (Some(first), Some(last)) => Some(
                PageRange { first: page_of(first), last: page_of(last) },
            ),
            _ => None,
        }
    }
}

/// The pages that hold the `size` bytes at `addr`: from the page of `addr` to
/// the page of the last byte, both addresses taken in canonical form. There
/// are none for an empty range, for one that runs past the end of the address
/// space, and for one with an end that has no canonical form.
pub fn page_range(addr: u64, size: usize) -> (r: Option<PageRange>)
    ensures
        r == page_range_spec(addr, size),
        r matches Some(range) ==> range.wf(),
{
    if size == 0 || size as u64 - 1 > u64::MAX - addr {
        return None;
    }
    let end = addr + (size as u64 - 1);
    match (virt_addr(addr), virt_addr(end)) {
        (Some(first), Some(last)) => {
            let range = PageRange { first: page_start(first), last: page_start(last) };
            Some(range)
        },
        _ => None,
    }
}

/// A range of at least one byte that ends in user space has pages: its
/// ends are canonical as they stand, and the page of its first byte does not
/// lie above the page of its last.
pub proof fn lemma_user_range_has_pages(addr: u64, size: usize)
    requires
        size > 0,
        has_room(addr, size),
    ensures
        page_range_spec(addr, size) == Some(
            PageRange { first: page_of(addr), last: page_of((addr + size - 1) as u64) },
        ),
        page_of(addr) <= page_of((addr + size - 1) as u64),
{
}

/// A range of pages of the `x86_64` crate, with both ends in it, which is an
/// iterator over its pages. Proofs see nothing of it but what the functions
/// below say of the pages that it yields.
#[verifier::external_body]
pub struct PageCursor {
    pages: PageRangeInclusive<Size4KiB>,
}

/// The pages that a range still yields, by their start addresses, in the
/// order in which it yields them.
pub uninterp spec fn cursor_pages(cursor: PageCursor) -> Seq<u64>;

/// The pages that the range from the page at `first` to the page at `last`
/// yields, by their start addresses, in order.
pub uninterp spec fn pages_between(first: u64, last: u64) -> Seq<u64>;

/// Builds the range of `Page::range_inclusive` from the page that starts at
/// `first` to the page that starts at `last`. What the range yields depends
/// on the two ends alone. Its iterator compares the ends: where the first
/// page lies above the last it yields nothing, else it yields the first page
/// first.
#[verifier::external_body]
fn range_inclusive(first: u64, last: u64) -> (r: PageCursor)
    requires
        canonical(first) == Some(first),
        canonical(last) == Some(last),
        first % 4096 == 0,
        last % 4096 == 0,
    ensures
        cursor_pages(r) == pages_between(first, last),
        first > last ==> cursor_pages(r).len() == 0,
        first <= last ==> cursor_pages(r).len() > 0 && cursor_pages(r)[0] == first,
{
    PageCursor {
        pages: Page::range_inclusive(
            Page::containing_address(VirtAddr::new(first)),
            Page::containing_address(VirtAddr::new(last)),
        ),
    }
}

/// Takes the next page out of the range with `Iterator::next`: the first of
/// the pages that the range still yields, which then yields the rest; or
/// nothing, where the range yields no page any more.
#[verifier::external_body]
fn next_page(cursor: &mut PageCursor) -> (r: Option<u64>)
    ensures
        r matches Some(page) ==> cursor_pages(*old(cursor)).len() > 0 && page == cursor_pages(
            *old(cursor),
        )[0] && cursor_pages(*final(cursor)) == cursor_pages(*old(cursor)).skip(1),
        r is None ==> cursor_pages(*old(cursor)).len() == 0 && cursor_pages(*final(cursor)).len()
            == 0,
{
    cursor.pages.next().map(|page| page.start_address().as_u64())
}

/// What a walk over the pages of a range asks for next.
#[derive(Clone, Copy, Debug, PartialEq, Eq, Structural)]
pub enum PageStep {
    /// Handle the page that starts at this address, then say how it went.
    Visit(u64),
    /// Every page was handled.
    Finished,
    /// A page could not be handled and the walk was given up.
    Failed,
}

/// A walk over the pages of a range, one page at a time. The caller handles
/// each page that the walk names and gives the walk up where a page cannot be
/// handled.
pub struct PageWalk {
    pages: PageCursor,
    failed: bool,
}

impl PageWalk {
    /// The pages that the walk has still to visit, in order.
    pub closed spec fn remaining(&self) -> Seq<u64> {
        cursor_pages(self.pages)
    }

    /// Whether the walk was given up.
    pub closed spec fn given_up(&self) -> bool {
        self.failed
    }

    /// Starts a walk over the pages of `range`.
    pub fn new(range: PageRange) -> (r: Self)
        requires
            range.wf(),
        ensures
            r.remaining() == pages_between(range.first, range.last),
            range.first > range.last ==> r.remaining().len() == 0,
            range.first <= range.last ==> r.remaining().len() > 0 && r.remaining()[0]
                == range.first,
            !r.given_up(),
    {
        PageWalk { pages: range_inclusive(range.first, range.last), failed: false }
    }

    /// The next step of the walk: nothing more once it was given up; else the
    /// next page, which is then no longer to visit; else, with no page left,
    /// the end.
    pub fn next(&mut self) -> (r: PageStep)
        ensures
            final(self).given_up() == old(self).given_up(),
            old(self).given_up() ==> r == PageStep::Failed && final(self).remaining() == old(
                self,
            ).remaining(),
            !old(self).given_up() && old(self).remaining().len() == 0 ==> r == PageStep::Finished
                && final(self).remaining().len() == 0,
            !old(self).given_up() && old(self).remaining().len() > 0 ==> r == PageStep::Visit(
                old(self).remaining()[0],
            ) && final(self).remaining() == old(self).remaining().skip(1),
    {
        if self.failed {
            return PageStep::Failed;
        }
        match next_page(&mut self.pages) {
            Some(page) => PageStep::Visit(page),
            None => PageStep::Finished,
        }
    }

    /// Gives the walk up: the page that was named last could not be handled.
    pub fn give_up(&mut self)
        ensures
            final(self).given_up(),
            final(self).remaining() == old(self).remaining(),
    {
        self.failed = true;
    }
}

} // verus!
