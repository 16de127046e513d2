//! Regions of the user address space, handed out one behind the other.
//!
//! A cursor marks where the next region begins. Carving a region moves the
//! cursor past it. Nothing is ever taken back, so no two regions carved from
//! one cursor overlap.

use vstd::prelude::*;

verus! {

/// The end of the addresses that a process can use: the lower half of the
/// canonical address space.
pub const USER_ADDR_LIMIT: u64 = 0x0000_8000_0000_0000;

/// The place in user space where the next region begins.
pub struct RegionCursor {
    next: u64,
}

impl View for RegionCursor {
    type V = u64;

    /// The address at which the next region begins.
    closed spec fn view(&self) -> u64 {
        self.next
    }
}

/// A region of `size` bytes at `cursor` ends in user space.
pub open spec fn has_room(cursor: u64, size: usize) -> bool {
    cursor + size <= USER_ADDR_LIMIT
}

impl RegionCursor {
    /// A cursor at `start`.
    pub fn new(start: u64) -> (r: Self)
        ensures
            r@ == start,
    {
        RegionCursor { next: start }
    }

    /// The address at which the next region begins.
    pub fn next(&self) -> (r: u64)
        ensures
            r == self@,
    {
        self.next
    }

    /// Whether a region of `size` bytes can still be carved.
    pub fn can_carve(&self, size: usize) -> (r: bool)
        ensures
            r == has_room(self@, size),
    {
        self.next <= USER_ADDR_LIMIT && size as u64 <= USER_ADDR_LIMIT - self.next
    }

    /// Carves a region of `size` bytes and returns where it begins. The
    /// cursor moves to the end of the region. Where the region would end
    /// outside user space, nothing is carved and the cursor stays.
    pub fn carve(&mut self, size: usize) -> (r: Option<u64>)
        ensures
            r is Some <==> has_room(old(self)@, size),
            r matches Some(start) ==> start == old(self)@ && final(self)@ == old(self)@ + size,
            r is None ==> final(self)@ == old(self)@,
    {
        if !self.can_carve(size) {
            return None;
        }
        let start = self.next;
        self.next = start + size as u64;
        Some(start)
    }
}

} // verus!
