//! Dynamic memory: alignment arithmetic and the free-list allocator.

pub mod linked_list;

use vstd::prelude::*;
use crate::allocator::linked_list::{FreeBlock, LinkedListAllocator};
use crate::paging::PageRange;
use crate::proc::{ManagerView, ProcessManager, init_process_addr};
use vstd::arithmetic::power2::{pow2, lemma_pow2_unfold, lemma2_to64, lemma2_to64_rest};
use vstd::bits::{low_bits_mask, lemma_u64_low_bits_mask_is_mod};

verus! {

/// `align` is a power of two: exactly one bit is set.
pub open spec fn is_power_of_two(align: usize) -> bool {
    align != 0 && align & ((align - 1) as usize) == 0
}

/// The smallest multiple of `align` that is not below `addr`.
pub open spec fn align_up_spec(addr: int, align: int) -> int {
    if addr % align == 0 {
        addr
    } else {
        addr + (align - addr % align)
    }
}

/// A number with exactly one bit set is `2^n` for some `n` below 64.
proof fn lemma_single_bit_exponent(al: u64) -> (n: nat)
    requires
        al != 0,
        al & ((al - 1) as u64) == 0,
    ensures
        n < 64,
        al == pow2(n),
    decreases al,
{
    if al == 1 {
        lemma2_to64();
        0
    } else {
        let half: u64 = al / 2;
        assert(al != 0 && al & ((al - 1) as u64) == 0 && al != 1 ==> al % 2 == 0 && al / 2 != 0 && (al
            / 2) & (((al / 2) - 1) as u64) == 0) by (bit_vector);
        let m = lemma_single_bit_exponent(half);
        lemma_pow2_unfold(m + 1);
        if m == 63 {
            lemma2_to64_rest();
        }
        m + 1
    }
}

/// Masking with `al - 1` is the remainder modulo `al` when `al` is a power of two.
proof fn lemma_mask_is_mod(x: u64, al: u64)
    requires
        al != 0,
        al & ((al - 1) as u64) == 0,
    ensures
        x & ((al - 1) as u64) == x % al,
{
    let n = lemma_single_bit_exponent(al);
    lemma_u64_low_bits_mask_is_mod(x, n);
    assert(low_bits_mask(n) == al - 1);
}

/// The mask formula for rounding up yields the least multiple of `align` at or
/// above `addr`, whenever `align` is a power of two and the sum does not wrap.
pub proof fn lemma_align_up_mask(addr: usize, align: usize)
    requires
        is_power_of_two(align),
        addr + align - 1 <= usize::MAX,
    ensures
        (((addr + (align - 1)) as usize) & !((align - 1) as usize)) as int == align_up_spec(
            addr as int,
            align as int,
        ),
{
    let r: usize = ((addr + (align - 1)) as usize) & !((align - 1) as usize);
    assert(align != 0 && align & ((align - 1) as usize) == 0 && addr + (align - 1) == ((addr + (align
        - 1)) as usize) ==> (((addr + (align - 1)) as usize) & !((align - 1) as usize)) & ((align
        - 1) as usize) == 0 && (((addr + (align - 1)) as usize) & !((align - 1) as usize)) >= addr
        && (((addr + (align - 1)) as usize) & !((align - 1) as usize)) - addr < align) by (bit_vector);
    let al: u64 = align as u64;
    assert(al != 0 && al & ((al - 1) as u64) == 0 && (r as u64) & ((al - 1) as u64) == 0) by (bit_vector)
        requires
            al == align as u64,
            align != 0,
            align & ((align - 1) as usize) == 0,
            r & ((align - 1) as usize) == 0,
    ;
    lemma_mask_is_mod(r as u64, al);
    lemma_multiple_in_window(addr as int, align as int, r as int);
}

/// The only multiple of `d` in the window `[x, x + d)` is `x` rounded up.
proof fn lemma_multiple_in_window(x: int, d: int, r: int)
    requires
        0 <= x,
        0 < d,
        r % d == 0,
        x <= r < x + d,
    ensures
        r == align_up_spec(x, d),
{
    let q = x / d;
    let s = x % d;
    let k = r / d;
    assert(x == d * q + s && 0 <= s < d) by (nonlinear_arith)
        requires
            q == x / d,
            s == x % d,
            0 < d,
    ;
    assert(r == d * k) by (nonlinear_arith)
        requires
            k == r / d,
            r % d == 0,
            0 < d,
    ;
    if s == 0 {
        assert(k == q) by (nonlinear_arith)
            requires
                d * q <= d * k,
                d * k < d * q + d,
                0 < d,
        ;
    } else {
        assert(k == q + 1) by (nonlinear_arith)
            requires
                d * q + s <= d * k,
                d * k < d * q + s + d,
                0 < s < d,
        ;
        assert(d * (q + 1) == d * q + d) by (nonlinear_arith);
    }
}

/// Rounding up moves an address by less than `align`, onto a multiple of it.
pub proof fn lemma_align_up_spec_bounds(addr: int, align: int)
    requires
        0 <= addr,
        0 < align,
    ensures
        addr <= align_up_spec(addr, align) < addr + align,
        align_up_spec(addr, align) % align == 0,
{
    let q = addr / align;
    let s = addr % align;
    assert(addr == align * q + s && 0 <= s < align) by (nonlinear_arith)
        requires
            q == addr / align,
            s == addr % align,
            0 < align,
    ;
    if s != 0 {
        assert((align * q + align) % align == 0) by (nonlinear_arith)
            requires
                0 < align,
        ;
    }
}

/// The number of bytes between `addr` and the next multiple of `align`.
pub fn padding(addr: usize, align: usize) -> (r: usize)
    requires
        is_power_of_two(align),
    ensures
        r == align_up_spec(addr as int, align as int) - addr,
        r < align,
{
    let rem = addr & (align - 1);
    proof {
        let al: u64 = align as u64;
        assert(al != 0 && al & ((al - 1) as u64) == 0 && (addr as u64) & ((al - 1) as u64) == rem
            as u64) by (bit_vector)
            requires
                al == align as u64,
                align != 0,
                align & ((align - 1) as usize) == 0,
                rem == addr & ((align - 1) as usize),
        ;
        lemma_mask_is_mod(addr as u64, al);
        assert(rem as int == (addr as int) % (align as int));
    }
    if rem == 0 {
        0
    } else {
        align - rem
    }
}

/// Rounds `addr` up to the next multiple of `align`.
pub fn align_up(addr: usize, align: usize) -> (r: usize)
    requires
        is_power_of_two(align),
        addr + align - 1 <= usize::MAX,
    ensures
        r == align_up_spec(addr as int, align as int),
{
    proof {
        lemma_align_up_mask(addr, align);
    }
    (addr + (align - 1)) & !(align - 1)
}

/// The spin lock of the `spin` crate. Nothing inside it is visible to proofs.
#[verifier::external_type_specification]
#[verifier::external_body]
#[verifier::reject_recursive_types(T)]
#[verifier::reject_recursive_types(R)]
pub struct ExMutex<T: ?Sized, R>(spin::mutex::Mutex<T, R>);

/// The way the lock of the `spin` crate waits: by spinning.
#[verifier::external_type_specification]
#[verifier::external_body]
pub struct ExSpin(spin::relax::Spin);

/// The guard that `spin::mutex::Mutex::lock` hands out. It gives access to
/// the locked value and releases the lock when it is dropped.
#[verifier::external_type_specification]
#[verifier::external_body]
#[verifier::reject_recursive_types(T)]
pub struct ExMutexGuard<'a, T: 'a + ?Sized>(spin::mutex::MutexGuard<'a, T>);

/// `spin::mutex::Mutex::new` wraps a value in an unlocked lock. The lock is
/// opaque, so nothing is claimed of the result.
pub assume_specification<T, R>[ spin::mutex::Mutex::<T, R>::new ](value: T) -> (m:
    spin::mutex::Mutex<T, R>)
;

/// A value behind a spin lock: whoever holds the guard has the value to
/// itself, and the lock is released when the guard goes out of scope.
#[verifier::reject_recursive_types(A)]
pub struct Locked<A> {
    inner: spin::Mutex<A>,
}

impl<A> Locked<A> {
    /// Puts `inner` behind a lock.
    pub fn new(inner: A) -> Self {
        Locked { inner: spin::Mutex::new(inner) }
    }

    /// Waits until the lock is free, takes it with `spin::mutex::Mutex::lock`,
    /// and returns the guard. What the guard gives access to is whatever the
    /// last holder left: nothing is claimed of it.
    #[verifier::external_body]
    pub fn lock(&self) -> spin::MutexGuard<A> {
        self.inner.lock()
    }
}

/// An allocator that has no memory: every request fails.
pub struct Dummy;

impl Dummy {
    /// Fails to allocate: the result is always `None`.
    pub fn allocate(&self, size: usize, align: usize) -> (r: Option<usize>)
        ensures
            r is None,
    {
        None
    }
}

/// The address at which the heap of the kernel starts.
pub const HEAP_START: u64 = 0x0001_0000_0000;

/// The size of the heap of the kernel in bytes: 40 MiB.
pub const HEAP_SIZE: usize = 40 * 1024 * 1024;

/// Sets up the heap of the kernel: code regions of processes are carved from
/// the end of the heap on, and the heap becomes the one free block of the
/// allocator `heap`, which must not manage any memory yet. The result is the
/// pages of the heap, which the caller maps before the heap is used. Where
/// the heap does not fit the address space of the machine there is no
/// result, and nothing changes.
pub fn init_heap(pm: &mut ProcessManager, heap: &mut LinkedListAllocator) -> (r: Option<PageRange>)
    requires
        old(pm).wf(),
        old(heap)@.len() == 0,
    ensures
        final(pm).wf(),
        final(heap).wf(),
        r is Some <==> HEAP_START + HEAP_SIZE <= usize::MAX,
        r is None ==> final(pm)@ == old(pm)@ && final(heap)@ == old(heap)@,
        r matches Some(pages) ==> {
            &&& final(pm)@ == (ManagerView {
                code_cursor: (HEAP_START + HEAP_SIZE) as u64,
                ..old(pm)@
            })
            &&& final(heap)@ == seq![FreeBlock { start: HEAP_START as usize, size: HEAP_SIZE }]
            &&& pages == (PageRange {
                first: HEAP_START,
                last: (HEAP_START + HEAP_SIZE - 4096) as u64,
            })
        },
{
    if HEAP_START > usize::MAX as u64 || HEAP_SIZE > usize::MAX - HEAP_START as usize {
        return None;
    }
    let pages = match crate::paging::page_range(HEAP_START, HEAP_SIZE) {
        Some(pages) => pages,
        None => {
            return None;
        },
    };
    init_process_addr(pm, HEAP_START + HEAP_SIZE as u64);
    heap.init(HEAP_START as usize, HEAP_SIZE);
    Some(pages)
}

} // verus!
