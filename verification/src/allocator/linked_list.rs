//! A first-fit free-list allocator over byte ranges.
//!
//! The allocator keeps the free ranges of the memory it manages as a list of
//! blocks ordered by address. Two free blocks never touch: a block that is
//! given back is merged with the free blocks directly before and after it.
//! Allocation scans the list from the front and carves the request out of the
//! first block that can hold it at the requested alignment. Whatever the
//! alignment skips at the front of that block stays free, and so does what is
//! left behind the allocation.

use vstd::prelude::*;
use crate::allocator::{align_up_spec, is_power_of_two, lemma_align_up_spec_bounds, padding};

verus! {

/// One free range: `size` bytes starting at address `start`.
#[derive(Clone, Copy, Debug, PartialEq, Eq, Structural)]
pub struct FreeBlock {
    pub start: usize,
    pub size: usize,
}

impl FreeBlock {
    /// The address one past the last byte of the block.
    pub open spec fn end(self) -> int {
        self.start + self.size
    }
}

/// The free list is well formed: no block is empty, every block ends inside
/// the address space, and the blocks are in address order with a gap between
/// each block and the next.
pub open spec fn blocks_wf(s: Seq<FreeBlock>) -> bool {
    &&& forall|i: int| 0 <= i < s.len() ==> (#[trigger] s[i]).size > 0 && s[i].end() <= usize::MAX
    &&& forall|i: int, j: int|
        0 <= i < j < s.len() ==> (#[trigger] s[i]).end() < (#[trigger] s[j]).start
}

/// The sum of the sizes of all blocks.
pub open spec fn total_size(s: Seq<FreeBlock>) -> int
    decreases s.len(),
{
    if s.len() == 0 {
        0
    } else {
        total_size(s.drop_last()) + s.last().size
    }
}

/// No byte of `[addr, addr + size)` lies in a block of `s`. An empty range
/// has no byte.
pub open spec fn disjoint_from(s: Seq<FreeBlock>, addr: int, size: int) -> bool {
    size > 0 ==> forall|i: int|
        0 <= i < s.len() ==> (#[trigger] s[i]).end() <= addr || addr + size <= s[i].start
}

/// `size` bytes at alignment `align` can be carved out of block `b`.
pub open spec fn fits(b: FreeBlock, size: usize, align: usize) -> bool {
    align_up_spec(b.start as int, align as int) + size <= b.end()
}

/// The index of the first block at or after `from` that fits the request, or
/// the length of the list if none does.
pub open spec fn first_fit_from(s: Seq<FreeBlock>, from: int, size: usize, align: usize) -> int
    decreases s.len() - from,
{
    if from >= s.len() {
        s.len() as int
    } else if fits(s[from], size, align) {
        from
    } else {
        first_fit_from(s, from + 1, size, align)
    }
}

/// The index of the first block that fits the request, or the length of the
/// list if none does.
pub open spec fn first_fit(s: Seq<FreeBlock>, size: usize, align: usize) -> int {
    first_fit_from(s, 0, size, align)
}

/// What is left of block `b` once `[addr, addr + size)` is taken out of it:
/// the part before the allocation, if any, then the part behind it, if any.
pub open spec fn carve(b: FreeBlock, addr: int, size: int) -> Seq<FreeBlock> {
    let front = if addr > b.start {
        seq![FreeBlock { start: b.start, size: (addr - b.start) as usize }]
    } else {
        Seq::<FreeBlock>::empty()
    };
    let tail = if addr + size < b.end() {
        seq![FreeBlock { start: (addr + size) as usize, size: (b.end() - addr - size) as usize }]
    } else {
        Seq::<FreeBlock>::empty()
    };
    front + tail
}

/// The address that an allocation from the list `s` returns, if any block fits.
pub open spec fn alloc_addr(s: Seq<FreeBlock>, size: usize, align: usize) -> Option<usize> {
    let i = first_fit(s, size, align);
    if i < s.len() {
        Some(align_up_spec(s[i].start as int, align as int) as usize)
    } else {
        None
    }
}

/// The free list after an allocation from the list `s`.
pub open spec fn alloc_blocks(s: Seq<FreeBlock>, size: usize, align: usize) -> Seq<FreeBlock> {
    let i = first_fit(s, size, align);
    if i < s.len() && size > 0 {
        s.subrange(0, i) + carve(s[i], align_up_spec(s[i].start as int, align as int), size as int)
            + s.subrange(i + 1, s.len() as int)
    } else {
        s
    }
}

/// The index at or after `from` of the first block that starts at or above
/// `addr`, or the length of the list if there is none.
pub open spec fn insert_index_from(s: Seq<FreeBlock>, from: int, addr: usize) -> int
    decreases s.len() - from,
{
    if from >= s.len() {
        s.len() as int
    } else if s[from].start >= addr {
        from
    } else {
        insert_index_from(s, from + 1, addr)
    }
}

/// The position in address order at which a block starting at `addr` belongs.
pub open spec fn insert_index(s: Seq<FreeBlock>, addr: usize) -> int {
    insert_index_from(s, 0, addr)
}

/// The free list after `[addr, addr + size)` is given back to the list `s`:
/// the range becomes a block at its place in address order, joined with the
/// block that ends where it starts and with the block that starts where it ends.
pub open spec fn release_blocks(s: Seq<FreeBlock>, addr: usize, size: usize) -> Seq<FreeBlock> {
    if size == 0 {
        s
    } else {
        let i = insert_index(s, addr);
        let joins_prev = i > 0 && s[i - 1].end() == addr;
        let joins_next = i < s.len() && addr + size == s[i].start;
        let start = if joins_prev {
            s[i - 1].start as int
        } else {
            addr as int
        };
        let end = if joins_next {
            s[i].end()
        } else {
            addr + size
        };
        let lo = if joins_prev {
            i - 1
        } else {
            i
        };
        let hi = if joins_next {
            i + 1
        } else {
            i
        };
        s.subrange(0, lo) + seq![FreeBlock { start: start as usize, size: (end - start) as usize }]
            + s.subrange(hi, s.len() as int)
    }
}

/// The total of a concatenation is the sum of the totals.
pub proof fn lemma_total_concat(a: Seq<FreeBlock>, b: Seq<FreeBlock>)
    ensures
        total_size(a + b) == total_size(a) + total_size(b),
    decreases b.len(),
{
    if b.len() == 0 {
        assert(a + b =~= a);
    } else {
        assert((a + b).drop_last() =~= a + b.drop_last());
        lemma_total_concat(a, b.drop_last());
    }
}

/// The total of a one-block list is the size of the block.
pub proof fn lemma_total_single(b: FreeBlock)
    ensures
        total_size(seq![b]) == b.size,
{
    assert(seq![b].drop_last() =~= Seq::<FreeBlock>::empty());
    assert(total_size(Seq::<FreeBlock>::empty()) == 0);
}

/// Splitting a list at `i` splits the total.
pub proof fn lemma_total_split(s: Seq<FreeBlock>, i: int)
    requires
        0 <= i <= s.len(),
    ensures
        total_size(s) == total_size(s.subrange(0, i)) + total_size(s.subrange(i, s.len() as int)),
{
    assert(s =~= s.subrange(0, i) + s.subrange(i, s.len() as int));
    lemma_total_concat(s.subrange(0, i), s.subrange(i, s.len() as int));
}

/// Taking one block out of the middle of a list splits the total in three.
pub proof fn lemma_total_split_at(s: Seq<FreeBlock>, i: int)
    requires
        0 <= i < s.len(),
    ensures
        total_size(s) == total_size(s.subrange(0, i)) + s[i].size + total_size(
            s.subrange(i + 1, s.len() as int),
        ),
{
    lemma_total_split(s, i);
    let rest = s.subrange(i, s.len() as int);
    assert(rest =~= seq![s[i]] + s.subrange(i + 1, s.len() as int));
    lemma_total_concat(seq![s[i]], s.subrange(i + 1, s.len() as int));
    lemma_total_single(s[i]);
}

/// In a well-formed list the blocks lie between the start of the first and
/// the end of the last, so their total is at most that span.
pub proof fn lemma_total_bound(s: Seq<FreeBlock>)
    requires
        blocks_wf(s),
        s.len() > 0,
    ensures
        0 <= total_size(s) <= s.last().end() - s[0].start,
        total_size(s) <= usize::MAX,
    decreases s.len(),
{
    if s.len() == 1 {
        assert(s.drop_last().len() == 0);
        assert(total_size(s.drop_last()) == 0);
    } else {
        let p = s.drop_last();
        assert(blocks_wf(p)) by {
            assert forall|i: int| 0 <= i < p.len() implies (#[trigger] p[i]).size > 0 && p[i].end()
                <= usize::MAX by {
                assert(p[i] == s[i]);
            }
            assert forall|i: int, j: int| 0 <= i < j < p.len() implies (#[trigger] p[i]).end() < (
            #[trigger] p[j]).start by {
                assert(p[i] == s[i] && p[j] == s[j]);
            }
        }
        lemma_total_bound(p);
        assert(p.last() == s[s.len() - 2]);
        assert(s[s.len() - 2].end() < s[s.len() - 1].start);
        assert(p[0] == s[0]);
    }
}

/// The total of an arbitrary well-formed list fits the address space.
pub proof fn lemma_total_fits(s: Seq<FreeBlock>)
    requires
        blocks_wf(s),
    ensures
        0 <= total_size(s) <= usize::MAX,
{
    if s.len() > 0 {
        lemma_total_bound(s);
    }
}

/// `first_fit_from` returns the first block at or after `from` that fits.
pub proof fn lemma_first_fit_from(s: Seq<FreeBlock>, from: int, size: usize, align: usize)
    requires
        0 <= from <= s.len(),
    ensures
        from <= first_fit_from(s, from, size, align) <= s.len(),
        first_fit_from(s, from, size, align) < s.len() ==> fits(
            s[first_fit_from(s, from, size, align)],
            size,
            align,
        ),
        forall|j: int| from <= j < first_fit_from(s, from, size, align) ==> !fits(#[trigger] s[j], size, align),
    decreases s.len() - from,
{
    if from < s.len() && !fits(s[from], size, align) {
        lemma_first_fit_from(s, from + 1, size, align);
    }
}

/// `insert_index_from` returns the first block at or after `from` that starts
/// at or above `addr`.
pub proof fn lemma_insert_index_from(s: Seq<FreeBlock>, from: int, addr: usize)
    requires
        0 <= from <= s.len(),
    ensures
        from <= insert_index_from(s, from, addr) <= s.len(),
        insert_index_from(s, from, addr) < s.len() ==> s[insert_index_from(s, from, addr)].start >= addr,
        forall|j: int| from <= j < insert_index_from(s, from, addr) ==> (#[trigger] s[j]).start < addr,
    decreases s.len() - from,
{
    if from < s.len() && s[from].start < addr {
        lemma_insert_index_from(s, from + 1, addr);
    }
}

/// An index with no block that starts at or above `addr` before it, and one
/// at it unless it is the end of the list, is the insert index.
pub proof fn lemma_insert_index_unique(s: Seq<FreeBlock>, from: int, addr: usize, k: int)
    requires
        0 <= from <= k <= s.len(),
        forall|j: int| from <= j < k ==> (#[trigger] s[j]).start < addr,
        k < s.len() ==> s[k].start >= addr,
    ensures
        insert_index_from(s, from, addr) == k,
    decreases k - from,
{
    if from < k {
        assert(s[from].start < addr);
        lemma_insert_index_unique(s, from + 1, addr, k);
    }
}

/// An index with no fitting block before it, and one at it unless it is the
/// end of the list, is the first fit.
pub proof fn lemma_first_fit_unique(s: Seq<FreeBlock>, from: int, size: usize, align: usize, k: int)
    requires
        0 <= from <= k <= s.len(),
        forall|j: int| from <= j < k ==> !fits(#[trigger] s[j], size, align),
        k < s.len() ==> fits(s[k], size, align),
    ensures
        first_fit_from(s, from, size, align) == k,
    decreases k - from,
{
    if from < k {
        assert(!fits(s[from], size, align));
        lemma_first_fit_unique(s, from + 1, size, align, k);
    }
}

/// What is left of a block after an allocation is the block less the
/// allocation.
pub proof fn lemma_total_carve(b: FreeBlock, addr: int, size: int)
    requires
        b.start <= addr,
        0 <= size,
        addr + size <= b.end(),
    ensures
        total_size(carve(b, addr, size)) == b.size - size,
{
    let front = FreeBlock { start: b.start, size: (addr - b.start) as usize };
    let tail = FreeBlock { start: (addr + size) as usize, size: (b.end() - addr - size) as usize };
    let e = Seq::<FreeBlock>::empty();
    assert(total_size(e) == 0);
    lemma_total_single(front);
    lemma_total_single(tail);
    if addr > b.start {
        if addr + size < b.end() {
            lemma_total_concat(seq![front], seq![tail]);
        } else {
            lemma_total_concat(seq![front], e);
        }
    } else {
        if addr + size < b.end() {
            lemma_total_concat(e, seq![tail]);
        } else {
            lemma_total_concat(e, e);
        }
    }
}

/// An allocation from a well-formed list: the address is a multiple of the
/// alignment and lies with its `size` bytes inside the first block that fits;
/// the list stays well formed, holds `size` bytes less than before, and no
/// longer holds any byte of the allocation.
pub proof fn lemma_alloc(s: Seq<FreeBlock>, size: usize, align: usize)
    requires
        blocks_wf(s),
        is_power_of_two(align),
        first_fit(s, size, align) < s.len(),
    ensures
        alloc_addr(s, size, align) is Some,
        alloc_addr(s, size, align).unwrap() % align == 0,
        s[first_fit(s, size, align)].start <= alloc_addr(s, size, align).unwrap(),
        alloc_addr(s, size, align).unwrap() + size <= s[first_fit(s, size, align)].end(),
        alloc_addr(s, size, align).unwrap() == align_up_spec(
            s[first_fit(s, size, align)].start as int,
            align as int,
        ),
        blocks_wf(alloc_blocks(s, size, align)),
        total_size(alloc_blocks(s, size, align)) == total_size(s) - size,
        disjoint_from(
            alloc_blocks(s, size, align),
            alloc_addr(s, size, align).unwrap() as int,
            size as int,
        ),
{
    lemma_first_fit_from(s, 0, size, align);
    let i = first_fit(s, size, align);
    let b = s[i];
    let a = align_up_spec(b.start as int, align as int);
    lemma_align_up_spec_bounds(b.start as int, align as int);
    assert(fits(b, size, align));
    assert(b.end() <= usize::MAX);
    if size > 0 {
        let c = carve(b, a, size as int);
        let pre = s.subrange(0, i);
        let post = s.subrange(i + 1, s.len() as int);
        let t = alloc_blocks(s, size, align);
        assert(t == pre + c + post);
        assert forall|k: int| 0 <= k < c.len() implies b.start <= (#[trigger] c[k]).start && c[k].end()
            <= b.end() && c[k].size > 0 && (c[k].end() <= a || a + size <= c[k].start) by {}
        assert forall|k: int| 0 <= k < t.len() implies (#[trigger] t[k]).size > 0 && t[k].end()
            <= usize::MAX by {
            if k < i {
                assert(t[k] == s[k]);
            } else if k < i + c.len() {
                assert(t[k] == c[k - i]);
            } else {
                assert(t[k] == s[k - c.len() + 1]);
            }
        }
        assert forall|k: int, l: int| 0 <= k < l < t.len() implies (#[trigger] t[k]).end() < (
        #[trigger] t[l]).start by {
            if l < i {
                assert(t[k] == s[k] && t[l] == s[l]);
            } else if l < i + c.len() {
                assert(t[l] == c[l - i]);
                if k < i {
                    assert(t[k] == s[k]);
                    assert(s[k].end() < s[i].start);
                } else {
                    assert(t[k] == c[k - i]);
                }
            } else {
                assert(t[l] == s[l - c.len() + 1]);
                if k < i {
                    assert(t[k] == s[k]);
                } else if k < i + c.len() {
                    assert(t[k] == c[k - i]);
                    assert(s[i].end() < s[l - c.len() + 1].start);
                } else {
                    assert(t[k] == s[k - c.len() + 1]);
                }
            }
        }
        assert forall|k: int| 0 <= k < t.len() implies (#[trigger] t[k]).end() <= a || a + size
            <= t[k].start by {
            if k < i {
                assert(t[k] == s[k]);
                assert(s[k].end() < s[i].start);
            } else if k < i + c.len() {
                assert(t[k] == c[k - i]);
            } else {
                assert(t[k] == s[k - c.len() + 1]);
                assert(s[i].end() < s[k - c.len() + 1].start);
            }
        }
        lemma_total_split_at(s, i);
        lemma_total_carve(b, a, size as int);
        lemma_total_concat(pre, c);
        lemma_total_concat(pre + c, post);
    }
}

/// Replacing the blocks `lo..hi` of a well-formed list by one block that
/// lies strictly between the block before `lo` and the block at `hi` gives a
/// well-formed list.
proof fn lemma_replace_wf(s: Seq<FreeBlock>, lo: int, hi: int, m: FreeBlock)
    requires
        blocks_wf(s),
        0 <= lo <= hi <= s.len(),
        m.size > 0,
        m.end() <= usize::MAX,
        lo > 0 ==> s[lo - 1].end() < m.start,
        hi < s.len() ==> m.end() < s[hi].start,
    ensures
        blocks_wf(s.subrange(0, lo) + seq![m] + s.subrange(hi, s.len() as int)),
{
    let t = s.subrange(0, lo) + seq![m] + s.subrange(hi, s.len() as int);
    assert forall|k: int| 0 <= k < t.len() implies (#[trigger] t[k]).size > 0 && t[k].end()
        <= usize::MAX by {
        if k < lo {
            assert(t[k] == s[k]);
        } else if k == lo {
            assert(t[k] == m);
        } else {
            assert(t[k] == s[k - lo - 1 + hi]);
        }
    }
    assert forall|k: int, l: int| 0 <= k < l < t.len() implies (#[trigger] t[k]).end() < (
    #[trigger] t[l]).start by {
        if l < lo {
            assert(t[k] == s[k] && t[l] == s[l]);
        } else if l == lo {
            assert(t[l] == m);
            assert(t[k] == s[k]);
            assert(s[k].end() <= s[lo - 1].end()) by {
                if k < lo - 1 {
                    assert(s[k].end() < s[lo - 1].start);
                }
            }
        } else {
            let l2 = l - lo - 1 + hi;
            assert(t[l] == s[l2]);
            if k < lo {
                assert(t[k] == s[k]);
                assert(s[k].end() < s[l2].start);
            } else if k == lo {
                assert(t[k] == m);
                assert(s[hi].start <= s[l2].start) by {
                    if hi < l2 {
                        assert(s[hi].end() < s[l2].start);
                    }
                }
            } else {
                assert(t[k] == s[k - lo - 1 + hi]);
                assert(s[k - lo - 1 + hi].end() < s[l2].start);
            }
        }
    }
}

/// Replacing the blocks `lo..hi` of a list by one block changes the total by
/// the size of that block less the sizes of the blocks it replaces.
proof fn lemma_replace_total(s: Seq<FreeBlock>, lo: int, hi: int, m: FreeBlock)
    requires
        0 <= lo <= hi <= s.len(),
    ensures
        total_size(s.subrange(0, lo) + seq![m] + s.subrange(hi, s.len() as int)) == total_size(s)
            - total_size(s.subrange(lo, hi)) + m.size,
{
    let pre = s.subrange(0, lo);
    let post = s.subrange(hi, s.len() as int);
    lemma_total_split(s, lo);
    let mid = s.subrange(lo, s.len() as int);
    lemma_total_split(mid, hi - lo);
    assert(mid.subrange(hi - lo, mid.len() as int) =~= post);
    assert(mid.subrange(0, hi - lo) =~= s.subrange(lo, hi));
    lemma_total_single(m);
    lemma_total_concat(pre, seq![m]);
    lemma_total_concat(pre + seq![m], post);
}

/// Giving a range back to a well-formed list that holds none of its bytes:
/// the list stays well formed and holds `size` bytes more than before.
pub proof fn lemma_release(s: Seq<FreeBlock>, addr: usize, size: usize)
    requires
        blocks_wf(s),
        addr + size <= usize::MAX,
        disjoint_from(s, addr as int, size as int),
    ensures
        blocks_wf(release_blocks(s, addr, size)),
        total_size(release_blocks(s, addr, size)) == total_size(s) + size,
{
    if size > 0 {
        lemma_insert_index_from(s, 0, addr);
        let i = insert_index(s, addr);
        let joins_prev = i > 0 && s[i - 1].end() == addr;
        let joins_next = i < s.len() && addr + size == s[i].start;
        let lo = if joins_prev { i - 1 } else { i };
        let hi = if joins_next { i + 1 } else { i };
        let start = if joins_prev { s[i - 1].start as int } else { addr as int };
        let end = if joins_next { s[i].end() } else { addr + size };
        let m = FreeBlock { start: start as usize, size: (end - start) as usize };
        if i > 0 {
            assert(s[i - 1].start < addr);
            assert(s[i - 1].end() <= addr);
            if i > 1 {
                assert(s[i - 2].end() < s[i - 1].start);
            }
        }
        if i < s.len() {
            assert(s[i].start >= addr);
            assert(addr + size <= s[i].start);
            if i + 1 < s.len() {
                assert(s[i].end() < s[i + 1].start);
            }
        }
        assert(m.start == start && m.end() == end);
        lemma_replace_wf(s, lo, hi, m);
        lemma_replace_total(s, lo, hi, m);
        let joined = s.subrange(lo, hi);
        assert(total_size(joined) == m.size - size) by {
            let e = Seq::<FreeBlock>::empty();
            assert(total_size(e) == 0);
            if joins_prev {
                lemma_total_single(s[i - 1]);
                if joins_next {
                    lemma_total_single(s[i]);
                    assert(joined =~= seq![s[i - 1]] + seq![s[i]]);
                    lemma_total_concat(seq![s[i - 1]], seq![s[i]]);
                } else {
                    assert(joined =~= seq![s[i - 1]]);
                }
            } else {
                if joins_next {
                    lemma_total_single(s[i]);
                    assert(joined =~= seq![s[i]]);
                } else {
                    assert(joined =~= e);
                }
            }
        }
    }
}

/// The shape of the list after an allocation: the blocks before the chosen
/// one, then the part of it before the allocation (if `f` is 1), then the
/// part behind it (if `g` is 1), then the blocks after the chosen one.
spec fn carved_at(s: Seq<FreeBlock>, t: Seq<FreeBlock>, i: int, a: int, size: int, f: int, g: int) -> bool {
    &&& 0 <= i < s.len()
    &&& f == (if a > s[i].start { 1int } else { 0int })
    &&& g == (if a + size < s[i].end() { 1int } else { 0int })
    &&& t.len() == s.len() - 1 + f + g
    &&& forall|j: int| 0 <= j < i ==> #[trigger] t[j] == s[j]
    &&& forall|j: int| i + f + g <= j < t.len() ==> #[trigger] t[j] == s[j - f - g + 1]
    &&& f == 1 ==> t[i] == FreeBlock { start: s[i].start, size: (a - s[i].start) as usize }
    &&& g == 1 ==> t[i + f] == FreeBlock {
        start: (a + size) as usize,
        size: (s[i].end() - a - size) as usize,
    }
}

proof fn lemma_alloc_shape(s: Seq<FreeBlock>, size: usize, align: usize) -> (fg: (int, int))
    requires
        blocks_wf(s),
        is_power_of_two(align),
        first_fit(s, size, align) < s.len(),
        size > 0,
    ensures
        carved_at(
            s,
            alloc_blocks(s, size, align),
            first_fit(s, size, align),
            alloc_addr(s, size, align).unwrap() as int,
            size as int,
            fg.0,
            fg.1,
        ),
{
    lemma_alloc(s, size, align);
    lemma_first_fit_from(s, 0, size, align);
    let i = first_fit(s, size, align);
    let b = s[i];
    let a = alloc_addr(s, size, align).unwrap();
    let c = carve(b, a as int, size as int);
    let t = alloc_blocks(s, size, align);
    assert(t == s.subrange(0, i) + c + s.subrange(i + 1, s.len() as int));
    let f: int = if a > b.start { 1 } else { 0 };
    let g: int = if a + size < b.end() { 1 } else { 0 };
    assert(c.len() == f + g);
    if f == 1 {
        assert(t[i] == c[0]);
    }
    if g == 1 {
        assert(t[i + f] == c[f]);
    }
    (f, g)
}

proof fn lemma_release_carved(s: Seq<FreeBlock>, t: Seq<FreeBlock>, i: int, a: usize, size: usize, f: int, g: int)
    requires
        blocks_wf(s),
        carved_at(s, t, i, a as int, size as int, f, g),
        size > 0,
        s[i].start <= a,
        a + size <= s[i].end(),
    ensures
        release_blocks(t, a, size) == s,
{
    let k = i + f;
    assert forall|j: int| 0 <= j < k implies (#[trigger] t[j]).start < a by {
        if j < i {
            assert(t[j] == s[j]);
            assert(s[j].end() < s[i].start);
        }
    }
    if k < t.len() {
        if g == 0 {
            assert(t[k] == s[i + 1]);
            assert(s[i].end() < s[i + 1].start);
        }
    }
    lemma_insert_index_unique(t, 0, a, k);
    assert(insert_index(t, a) == k);
    if k > 0 && f == 0 {
        assert(t[k - 1] == s[i - 1]);
        assert(s[i - 1].end() < s[i].start);
    }
    let joins_prev = k > 0 && t[k - 1].end() == a;
    let joins_next = k < t.len() && a + size == t[k].start;
    assert(joins_prev == (f == 1));
    assert(joins_next == (g == 1));
    let r = release_blocks(t, a, size);
    let m = FreeBlock { start: s[i].start, size: s[i].size };
    assert(m == s[i]);
    assert(r == t.subrange(0, i) + seq![m] + t.subrange(i + f + g, t.len() as int));
    assert(r.len() == s.len());
    assert forall|j: int| 0 <= j < s.len() implies r[j] == s[j] by {
        if j < i {
            assert(r[j] == t[j]);
        } else if j > i {
            assert(r[j] == t[j - 1 + f + g]);
        }
    }
    assert(r =~= s);
}

/// Giving an allocation straight back restores the free list: the freed
/// range joins what the allocation left of its block, and the block is whole
/// again.
pub proof fn lemma_alloc_release(s: Seq<FreeBlock>, size: usize, align: usize)
    requires
        blocks_wf(s),
        is_power_of_two(align),
        first_fit(s, size, align) < s.len(),
    ensures
        release_blocks(
            alloc_blocks(s, size, align),
            alloc_addr(s, size, align).unwrap(),
            size,
        ) == s,
{
    if size > 0 {
        lemma_alloc(s, size, align);
        let fg = lemma_alloc_shape(s, size, align);
        lemma_release_carved(
            s,
            alloc_blocks(s, size, align),
            first_fit(s, size, align),
            alloc_addr(s, size, align).unwrap(),
            size,
            fg.0,
            fg.1,
        );
    }
}

/// An allocation that is given straight back leaves as many bytes free as
/// there were before the allocation.
pub proof fn lemma_round_trip_free_space(s: Seq<FreeBlock>, size: usize, align: usize)
    requires
        blocks_wf(s),
        is_power_of_two(align),
        alloc_addr(s, size, align) is Some,
    ensures
        total_size(
            release_blocks(alloc_blocks(s, size, align), alloc_addr(s, size, align).unwrap(), size),
        ) == total_size(s),
{
    lemma_first_fit_from(s, 0, size, align);
    lemma_alloc_release(s, size, align);
}

/// Growing by a region of `size` bytes that holds no free byte adds exactly
/// `size` to the free space.
pub proof fn lemma_growth_adds(s: Seq<FreeBlock>, start: usize, size: usize)
    requires
        blocks_wf(s),
        start + size <= usize::MAX,
        disjoint_from(s, start as int, size as int),
    ensures
        total_size(release_blocks(s, start, size)) == total_size(s) + size,
{
    lemma_release(s, start, size);
}

/// An allocation never returns a misaligned address, and it never takes a
/// block that the request does not fit once the alignment is paid for: every
/// block before the chosen one fails to fit, and the chosen one fits.
pub proof fn lemma_alloc_aligned(s: Seq<FreeBlock>, size: usize, align: usize)
    requires
        blocks_wf(s),
        is_power_of_two(align),
    ensures
        alloc_addr(s, size, align) matches Some(a) ==> a % align == 0 && fits(
            s[first_fit(s, size, align)],
            size,
            align,
        ),
        alloc_addr(s, size, align) is None <==> forall|i: int|
            0 <= i < s.len() ==> !fits(#[trigger] s[i], size, align),
        forall|j: int| 0 <= j < first_fit(s, size, align) ==> !fits(#[trigger] s[j], size, align),
{
    lemma_first_fit_from(s, 0, size, align);
    if first_fit(s, size, align) < s.len() {
        lemma_alloc(s, size, align);
    }
}

/// Every block of `s` ends at or below `bound`.
pub open spec fn blocks_below(s: Seq<FreeBlock>, bound: int) -> bool {
    forall|i: int| 0 <= i < s.len() ==> (#[trigger] s[i]).end() <= bound
}

/// An allocation leaves every free block inside a block that was free before:
/// what lay below a bound still does.
pub proof fn lemma_alloc_below(s: Seq<FreeBlock>, size: usize, align: usize, bound: int)
    requires
        blocks_wf(s),
        is_power_of_two(align),
        blocks_below(s, bound),
    ensures
        blocks_below(alloc_blocks(s, size, align), bound),
{
    lemma_first_fit_from(s, 0, size, align);
    let i = first_fit(s, size, align);
    if i < s.len() && size > 0 {
        let b = s[i];
        let a = align_up_spec(b.start as int, align as int);
        lemma_align_up_spec_bounds(b.start as int, align as int);
        let c = carve(b, a, size as int);
        let t = alloc_blocks(s, size, align);
        assert(t == s.subrange(0, i) + c + s.subrange(i + 1, s.len() as int));
        assert forall|k: int| 0 <= k < t.len() implies (#[trigger] t[k]).end() <= bound by {
            if k < i {
                assert(t[k] == s[k]);
            } else if k < i + c.len() {
                assert(t[k] == c[k - i]);
                assert(c[k - i].end() <= b.end());
            } else {
                assert(t[k] == s[k - c.len() + 1]);
            }
        }
    }
}

/// A range that is given back makes free only its own bytes: where the list
/// and the range lay below a bound, the list still does.
pub proof fn lemma_release_below(s: Seq<FreeBlock>, addr: usize, size: usize, bound: int)
    requires
        blocks_wf(s),
        addr + size <= usize::MAX,
        disjoint_from(s, addr as int, size as int),
        blocks_below(s, bound),
        addr + size <= bound,
    ensures
        blocks_below(release_blocks(s, addr, size), bound),
{
    if size > 0 {
        lemma_insert_index_from(s, 0, addr);
        let i = insert_index(s, addr);
        let joins_prev = i > 0 && s[i - 1].end() == addr;
        let joins_next = i < s.len() && addr + size == s[i].start;
        let lo = if joins_prev { i - 1 } else { i };
        let hi = if joins_next { i + 1 } else { i };
        let t = release_blocks(s, addr, size);
        assert forall|k: int| 0 <= k < t.len() implies (#[trigger] t[k]).end() <= bound by {
            if k < lo {
                assert(t[k] == s[k]);
            } else if k == lo {
                if joins_next {
                    assert(s[i].end() <= bound);
                }
            } else {
                assert(t[k] == s[k - lo - 1 + hi]);
            }
        }
    }
}

/// A first-fit allocator over the free ranges of the memory it was given.
pub struct LinkedListAllocator {
    blocks: Vec<FreeBlock>,
}

impl View for LinkedListAllocator {
    type V = Seq<FreeBlock>;

    /// The free list, in search order.
    closed spec fn view(&self) -> Seq<FreeBlock> {
        self.blocks@
    }
}

impl LinkedListAllocator {
    /// The free list is well formed.
    pub open spec fn wf(&self) -> bool {
        blocks_wf(self@)
    }

    /// An allocator that manages no memory yet.
    pub fn new() -> (r: Self)
        ensures
            r@ == Seq::<FreeBlock>::empty(),
            r.wf(),
    {
        LinkedListAllocator { blocks: Vec::new() }
    }

    /// Hands the region `[heap_start, heap_start + heap_size)` to an allocator
    /// that manages no memory: the region becomes its one free block.
    pub fn init(&mut self, heap_start: usize, heap_size: usize)
        requires
            old(self)@.len() == 0,
            heap_start + heap_size <= usize::MAX,
        ensures
            heap_size > 0 ==> final(self)@ == seq![FreeBlock { start: heap_start, size: heap_size }],
            heap_size == 0 ==> final(self)@ == Seq::<FreeBlock>::empty(),
            final(self).wf(),
            total_size(final(self)@) == heap_size,
    {
        if heap_size > 0 {
            let b = FreeBlock { start: heap_start, size: heap_size };
            self.blocks.push(b);
            proof {
                assert(self.blocks@ =~= seq![b]);
                lemma_total_single(b);
            }
        }
    }

    /// The number of free bytes: the sum of the sizes of all free blocks.
    pub fn free_space(&self) -> (r: usize)
        requires
            self.wf(),
        ensures
            r == total_size(self@),
    {
        let n = self.blocks.len();
        let mut sum: usize = 0;
        let mut i: usize = 0;
        while i < n
            invariant
                n == self.blocks@.len(),
                i <= n,
                blocks_wf(self.blocks@),
                sum == total_size(self.blocks@.subrange(0, i as int)),
            decreases n - i,
        {
            proof {
                let next = self.blocks@.subrange(0, i + 1);
                assert(next.drop_last() =~= self.blocks@.subrange(0, i as int));
                assert(blocks_wf(next));
                lemma_total_fits(next);
            }
            sum = sum + self.blocks[i].size;
            i = i + 1;
        }
        proof {
            assert(self.blocks@.subrange(0, n as int) =~= self.blocks@);
        }
        sum
    }

    /// A copy of the free list, in search order.
    pub fn free_blocks(&self) -> (r: Vec<FreeBlock>)
        ensures
            r@ == self@,
    {
        let n = self.blocks.len();
        let mut out: Vec<FreeBlock> = Vec::new();
        let mut i: usize = 0;
        while i < n
            invariant
                n == self.blocks@.len(),
                i <= n,
                out@ == self.blocks@.subrange(0, i as int),
            decreases n - i,
        {
            out.push(self.blocks[i]);
            proof {
                assert(out@ =~= self.blocks@.subrange(0, i + 1));
            }
            i = i + 1;
        }
        proof {
            assert(self.blocks@.subrange(0, n as int) =~= self.blocks@);
        }
        out
    }

    /// Whether `[addr, addr + size)` ends inside the address space and holds no
    /// free byte, which is what `dealloc` and `grow` ask of a range.
    pub fn is_unused(&self, addr: usize, size: usize) -> (r: bool)
        ensures
            r == (addr + size <= usize::MAX && disjoint_from(self@, addr as int, size as int)),
    {
        if size > usize::MAX - addr {
            return false;
        }
        if size == 0 {
            return true;
        }
        let n = self.blocks.len();
        let mut i: usize = 0;
        while i < n
            invariant
                n == self.blocks@.len(),
                i <= n,
                addr + size <= usize::MAX,
                size > 0,
                forall|j: int| 0 <= j < i ==> (#[trigger] self.blocks@[j]).end() <= addr || addr + size
                    <= self.blocks@[j].start,
            decreases n - i,
        {
            let b = self.blocks[i];
            let ends_before = b.size <= usize::MAX - b.start && b.start + b.size <= addr;
            if !(ends_before || addr + size <= b.start) {
                proof {
                    assert(!(self.blocks@[i as int].end() <= addr || addr + size <= self.blocks@[i as int].start));
                }
                return false;
            }
            i = i + 1;
        }
        true
    }

    /// Allocates `size` bytes at alignment `align` from the first free block
    /// that can hold them, and returns the address, or `None` when no block
    /// can. The bytes before the address in that block stay free, and so do
    /// the bytes behind the allocation.
    pub fn allocate(&mut self, size: usize, align: usize) -> (r: Option<usize>)
        requires
            old(self).wf(),
            is_power_of_two(align),
        ensures
            final(self).wf(),
            r == alloc_addr(old(self)@, size, align),
            final(self)@ == alloc_blocks(old(self)@, size, align),
            r is None <==> first_fit(old(self)@, size, align) == old(self)@.len(),
            r is None ==> final(self)@ == old(self)@,
            r matches Some(a) ==> {
                &&& a % align == 0
                &&& a + size <= usize::MAX
                &&& total_size(final(self)@) == total_size(old(self)@) - size
                &&& disjoint_from(final(self)@, a as int, size as int)
                &&& release_blocks(final(self)@, a, size) == old(self)@
            },
    {
        let (i, pad) = match self.find_fit(size, align) {
            Some(found) => found,
            None => {
                return None;
            },
        };
        proof {
            lemma_alloc(self.blocks@, size, align);
            lemma_alloc_release(self.blocks@, size, align);
        }
        let addr = self.blocks[i].start + pad;
        if size > 0 {
            self.carve_at(i, pad, size);
        }
        Some(addr)
    }

    /// Finds the first block that fits `size` bytes at alignment `align`: its
    /// index, and the number of bytes between its start and the aligned
    /// address in it.
    fn find_fit(&self, size: usize, align: usize) -> (r: Option<(usize, usize)>)
        requires
            self.wf(),
            is_power_of_two(align),
        ensures
            r is None <==> first_fit(self@, size, align) == self@.len(),
            r matches Some((i, pad)) ==> {
                &&& i == first_fit(self@, size, align)
                &&& i < self@.len()
                &&& pad == align_up_spec(self@[i as int].start as int, align as int)
                    - self@[i as int].start
                &&& pad + size <= self@[i as int].size
            },
    {
        let n = self.blocks.len();
        let mut i: usize = 0;
        while i < n
            invariant
                n == self.blocks@.len(),
                i <= n,
                is_power_of_two(align),
                forall|j: int| 0 <= j < i ==> !fits(#[trigger] self.blocks@[j], size, align),
            decreases n - i,
        {
            let b = self.blocks[i];
            let pad = padding(b.start, align);
            if pad <= b.size && size <= b.size - pad {
                proof {
                    assert(fits(self.blocks@[i as int], size, align));
                    lemma_first_fit_unique(self.blocks@, 0, size, align, i as int);
                }
                return Some((i, pad));
            }
            i = i + 1;
        }
        proof {
            lemma_first_fit_unique(self.blocks@, 0, size, align, n as int);
        }
        None
    }

    /// Takes `size` bytes out of block `i`, `pad` bytes above its start, and
    /// leaves what remains of the block in its place.
    fn carve_at(&mut self, i: usize, pad: usize, size: usize)
        requires
            i < old(self).blocks@.len(),
            size > 0,
            pad + size <= old(self).blocks@[i as int].size,
            old(self).blocks@[i as int].end() <= usize::MAX,
        ensures
            final(self).blocks@ == old(self).blocks@.subrange(0, i as int) + carve(
                old(self).blocks@[i as int],
                old(self).blocks@[i as int].start + pad,
                size as int,
            ) + old(self).blocks@.subrange(i + 1, old(self).blocks@.len() as int),
    {
        let n = self.blocks.len();
        let b = self.blocks[i];
        let a = b.start + pad;
        let tail_size = b.size - pad - size;
        let front = FreeBlock { start: b.start, size: pad };
        let tail = FreeBlock { start: a + size, size: tail_size };
        let ghost s = self.blocks@;
        let ghost pre = s.subrange(0, i as int);
        let ghost post = s.subrange(i + 1, s.len() as int);
        if pad > 0 {
            self.blocks.set(i, front);
            if tail_size > 0 {
                self.blocks.insert(i + 1, tail);
                assert(self.blocks@ =~= pre + (seq![front] + seq![tail]) + post);
            } else {
                assert(self.blocks@ =~= pre + (seq![front] + Seq::<FreeBlock>::empty()) + post);
            }
        } else if tail_size > 0 {
            self.blocks.set(i, tail);
            assert(self.blocks@ =~= pre + (Seq::<FreeBlock>::empty() + seq![tail]) + post);
        } else {
            self.blocks.remove(i);
            assert(self.blocks@ =~= pre + (Seq::<FreeBlock>::empty() + Seq::<FreeBlock>::empty())
                + post);
        }
    }

    /// Gives the `size` bytes at `addr` back. The range becomes a free block
    /// at its place in address order, joined with the free block that ends at
    /// `addr` and with the free block that starts at `addr + size`, if there
    /// are such.
    pub fn dealloc(&mut self, addr: usize, size: usize)
        requires
            old(self).wf(),
            addr + size <= usize::MAX,
            disjoint_from(old(self)@, addr as int, size as int),
        ensures
            final(self).wf(),
            final(self)@ == release_blocks(old(self)@, addr, size),
            total_size(final(self)@) == total_size(old(self)@) + size,
    {
        proof {
            lemma_release(old(self)@, addr, size);
        }
        if size == 0 {
            return ;
        }
        let n = self.blocks.len();
        let mut i: usize = 0;
        while i < n && self.blocks[i].start < addr
            invariant
                n == self.blocks@.len(),
                i <= n,
                self.blocks@ == old(self).blocks@,
                forall|j: int| 0 <= j < i ==> (#[trigger] self.blocks@[j]).start < addr,
            decreases n - i,
        {
            i = i + 1;
        }
        proof {
            lemma_insert_index_unique(self.blocks@, 0, addr, i as int);
            lemma_insert_index_from(self.blocks@, 0, addr);
            if i > 0 {
                assert(self.blocks@[i - 1].start < addr);
                assert(self.blocks@[i - 1].end() <= addr);
            }
            if i < n {
                assert(addr + size <= self.blocks@[i as int].start);
                assert(self.blocks@[i as int].end() <= usize::MAX);
            }
        }
        let joins_prev = i > 0 && self.blocks[i - 1].start + self.blocks[i - 1].size == addr;
        let joins_next = i < n && addr + size == self.blocks[i].start;
        if joins_prev {
            let prev = self.blocks[i - 1];
            if joins_next {
                let next = self.blocks[i];
                self.blocks.set(
                    i - 1,
                    FreeBlock { start: prev.start, size: prev.size + size + next.size },
                );
                self.blocks.remove(i);
            } else {
                self.blocks.set(i - 1, FreeBlock { start: prev.start, size: prev.size + size });
            }
        } else if joins_next {
            let next = self.blocks[i];
            self.blocks.set(i, FreeBlock { start: addr, size: size + next.size });
        } else {
            self.blocks.insert(i, FreeBlock { start: addr, size });
        }
        proof {
            assert(self.blocks@ =~= release_blocks(old(self)@, addr, size));
        }
    }

    /// Adds the freshly mapped region `[start, start + size)` to the memory
    /// that the allocator manages: the region becomes free, joined with the
    /// free blocks that touch it.
    pub fn grow(&mut self, start: usize, size: usize)
        requires
            old(self).wf(),
            start + size <= usize::MAX,
            disjoint_from(old(self)@, start as int, size as int),
        ensures
            final(self).wf(),
            final(self)@ == release_blocks(old(self)@, start, size),
            total_size(final(self)@) == total_size(old(self)@) + size,
    {
        self.dealloc(start, size);
    }
}

} // verus!
