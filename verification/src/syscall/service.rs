//! What each system call does to the state of the process manager.
//!
//! A system call that has to touch memory or the page tables is split: the
//! function here decides and keeps the books, and its result tells the
//! kernel around the library what to map, copy or print.

use vstd::prelude::*;
use vstd::string::StringSliceAdditionalSpecFns;
use vstd::utf8::valid_utf8;
use crate::allocator::linked_list::{alloc_addr, alloc_blocks, release_blocks, total_size};
use crate::allocator::{align_up, align_up_spec, is_power_of_two, lemma_align_up_spec_bounds};
use crate::image::{ImageError, ImageView, MAX_PROC_SIZE, image_of};
use crate::proc::{
    ExitCode, ManagerView, Process, ProcessManager, ProcessView, Spawned, after_create, after_exec,
    args_fit, byte_strings, can_grow, can_release, create_error, current_process, with_current,
};

verus! {

/// The unit in which a heap grows: one page.
pub const GROWTH_UNIT: usize = 4096;

/// Ends the current process and hands `code` on. The second part of the
/// result is the code region of the process, base and size, whose pages the
/// caller releases.
pub fn exit(pm: &mut ProcessManager, code: ExitCode) -> (r: (ExitCode, (u64, usize)))
    requires
        old(pm).wf(),
    ensures
        final(pm).wf(),
        r.0 == code,
        r.1 == (current_process(old(pm)@).code_addr, MAX_PROC_SIZE),
        final(pm)@ == (ManagerView {
            current: current_process(old(pm)@).parent,
            next_id: if old(pm)@.next_id == 0 {
                usize::MAX
            } else {
                (old(pm)@.next_id - 1) as usize
            },
            ..old(pm)@
        }),
{
    let region = crate::proc::exit(pm);
    (code, region)
}

/// Creates and starts a process from program number `number` of `programs`.
/// A number that names no program gives `OpenError`; a program that cannot
/// be created or started gives `ExecError`; in both cases nothing changes.
pub fn spawn(
    pm: &mut ProcessManager,
    number: usize,
    programs: &Vec<Vec<u8>>,
    args: &Vec<Vec<u8>>,
) -> (r: (ExitCode, Option<Spawned>))
    requires
        old(pm).wf(),
    ensures
        final(pm).wf(),
        number >= programs@.len() ==> r.0 == ExitCode::OpenError && r.1 is None && final(pm)@
            == old(pm)@,
        number < programs@.len() ==> {
            let bin = programs@[number as int]@;
            if create_error(old(pm)@, bin) is Some || !args_fit(byte_strings(args@)) {
                r.0 == ExitCode::ExecError && r.1 is None && final(pm)@ == old(pm)@
            } else {
                &&& r.0 == ExitCode::Success
                &&& r.1 matches Some(s)
                &&& image_of(bin) == Ok::<ImageView, ImageError>(s.created.image@)
                &&& s.created.id == old(pm)@.next_id
                &&& final(pm)@ == after_exec(after_create(old(pm)@, s.created.image@), s.created.id)
            }
        },
{
    if number >= programs.len() {
        return (ExitCode::OpenError, None);
    }
    match Process::spawn(pm, programs[number].as_slice(), args) {
        Ok(spawned) => (ExitCode::Success, Some(spawned)),
        Err(code) => (code, None),
    }
}

/// Reads `bytes` as text with `core::str::from_utf8`: the text is returned
/// exactly where the bytes are valid UTF-8, and it has those bytes.
#[verifier::external_body]
fn utf8_text(bytes: &[u8]) -> (r: Option<&str>)
    ensures
        r is Some <==> valid_utf8(bytes@),
        r matches Some(s) ==> s.spec_bytes() == bytes@,
{
    core::str::from_utf8(bytes).ok()
}

/// Checks a message for the log. The status is 0 and the text is the
/// message if its bytes are valid UTF-8; else the status is 1 and there is
/// no text. The caller prints what it gets.
pub fn log(msg: &[u8]) -> (r: (usize, Option<&str>))
    ensures
        valid_utf8(msg@) ==> r.0 == 0 && r.1 is Some && r.1.unwrap().spec_bytes() == msg@,
        !valid_utf8(msg@) ==> r.0 == 1 && r.1 is None,
{
    match utf8_text(msg) {
        Some(text) => (0, Some(text)),
        None => (1, None),
    }
}

/// What an allocation for the current process came to: the address, if the
/// heap had room, and the region that the heap grew by before, start and
/// size, if it grew. The caller maps the pages of that region.
pub struct Allocation {
    pub ptr: Option<usize>,
    pub grown: Option<(usize, usize)>,
}

/// The number of bytes by which a heap with `free` bytes free grows before
/// it serves a request for `size` bytes: what is missing, rounded up to whole
/// pages, or nothing if nothing is missing.
pub open spec fn growth_for(free: int, size: usize) -> int {
    if free < size {
        align_up_spec(size - free, GROWTH_UNIT as int)
    } else {
        0
    }
}

/// Whether the heap grows before a request for `size` bytes is served: some
/// bytes are missing, and a region for them can be carved at the cursor.
pub open spec fn grows(v: ManagerView, size: usize) -> bool {
    let want = growth_for(total_size(current_process(v).heap), size);
    want > 0 && want <= usize::MAX && can_grow(v.heap_cursor, want as usize)
}

/// The state in which the request is served: the state `v`, with the heap of
/// the current process grown if it grows.
pub open spec fn grown_state(v: ManagerView, size: usize) -> ManagerView {
    let want = growth_for(total_size(current_process(v).heap), size);
    if grows(v, size) {
        ManagerView {
            heap_cursor: (v.heap_cursor + want) as u64,
            ..with_current(
                v,
                ProcessView {
                    heap: release_blocks(
                        current_process(v).heap,
                        v.heap_cursor as usize,
                        want as usize,
                    ),
                    ..current_process(v)
                },
            )
        }
    } else {
        v
    }
}

/// Allocates `size` bytes at alignment `align` from the heap of the current
/// process. A heap with fewer than `size` bytes free first grows by what is
/// missing, rounded up to whole pages, if such a region can still be carved.
/// Then the request is served from the first free block that fits, or not
/// at all.
pub fn allocate(pm: &mut ProcessManager, size: usize, align: usize) -> (r: Allocation)
    requires
        old(pm).wf(),
        is_power_of_two(align),
    ensures
        final(pm).wf(),
        r.grown == (if grows(old(pm)@, size) {
            Some(
                (
                    old(pm)@.heap_cursor as usize,
                    growth_for(total_size(current_process(old(pm)@).heap), size) as usize,
                ),
            )
        } else {
            None
        }),
        r.ptr == alloc_addr(current_process(grown_state(old(pm)@, size)).heap, size, align),
        final(pm)@ == with_current(
            grown_state(old(pm)@, size),
            ProcessView {
                heap: alloc_blocks(current_process(grown_state(old(pm)@, size)).heap, size, align),
                ..current_process(grown_state(old(pm)@, size))
            },
        ),
{
    let free = crate::proc::heap_allocator(pm).free_space();
    let mut grown: Option<(usize, usize)> = None;
    proof {
        pm.lemma_valid();
        assert(is_power_of_two(GROWTH_UNIT)) by (bit_vector);
    }
    if free < size {
        let deficit = size - free;
        proof {
            lemma_align_up_spec_bounds(deficit as int, GROWTH_UNIT as int);
        }
        if deficit <= usize::MAX - (GROWTH_UNIT - 1) {
            let want = align_up(deficit, GROWTH_UNIT);
            match crate::proc::allocator_grow(pm, want) {
                Some(addr) => {
                    grown = Some((addr, want));
                },
                None => {},
            }
        }
    }
    let ghost mid = pm@;
    assert(mid == grown_state(old(pm)@, size));
    let ptr = crate::proc::heap_allocate(pm, size, align);
    Allocation { ptr, grown }
}

/// Gives the `size` bytes at `ptr` back to the heap of the current process.
/// A range that does not lie below the heap cursor, or that holds a byte
/// that is free already, is not given back: nothing changes. The alignment
/// plays no part.
pub fn free(pm: &mut ProcessManager, ptr: usize, size: usize, align: usize)
    requires
        old(pm).wf(),
    ensures
        final(pm).wf(),
        final(pm)@ == (if can_release(old(pm)@, ptr, size) {
            with_current(
                old(pm)@,
                ProcessView {
                    heap: release_blocks(current_process(old(pm)@).heap, ptr, size),
                    ..current_process(old(pm)@)
                },
            )
        } else {
            old(pm)@
        }),
{
    crate::proc::heap_release(pm, ptr, size);
}

/// Suppresses rescheduling.
pub fn stop_schedule(pm: &mut ProcessManager)
    requires
        old(pm).wf(),
    ensures
        final(pm).wf(),
        final(pm)@ == (ManagerView { no_schedule: true, ..old(pm)@ }),
{
    crate::proc::set_no_schedule(pm, true);
}

/// Allows rescheduling again.
pub fn restart_schedule(pm: &mut ProcessManager)
    requires
        old(pm).wf(),
    ensures
        final(pm).wf(),
        final(pm)@ == (ManagerView { no_schedule: false, ..old(pm)@ }),
{
    crate::proc::set_no_schedule(pm, false);
}

} // verus!
