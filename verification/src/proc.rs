//! The process table and the lifecycle of a process: create, run, exit.
//!
//! All state that the functions of this module read or change is held by one
//! [`ProcessManager`]: the table of process records, the id of the current
//! process, the counter that hands out ids, and the two cursors from which
//! code regions and heap regions are carved. The manager touches no memory
//! and no page table. Where an operation needs pages mapped or bytes copied,
//! its result says which, and the kernel around the library does it.

use vstd::prelude::*;
use vstd::slice::slice_to_vec;
use crate::allocator::is_power_of_two;
use crate::allocator::linked_list::{
    FreeBlock, LinkedListAllocator, alloc_addr, alloc_blocks, blocks_below, blocks_wf,
    disjoint_from, first_fit, fits, lemma_alloc_below, lemma_release_below, release_blocks,
};
use crate::image::{Image, ImageError, ImageView, MAX_PROC_SIZE, image_of, load_image};
use crate::region::{RegionCursor, USER_ADDR_LIMIT, has_room};

verus! {

/// The number of slots in the process table.
pub const MAX_PROCS: usize = 4;

/// The size in bytes of the heap region that a new process starts with.
pub const DEFAULT_HEAP_SIZE: usize = 0x4000;

/// The address from which heap regions are carved.
pub const PROC_HEAP_START: u64 = 0x0002_0000_0000;

/// A snapshot of the general-purpose registers that a system call saves.
#[derive(Clone, Copy, Debug, PartialEq, Eq, Structural)]
pub struct Registers {
    pub r11: usize,
    pub r10: usize,
    pub r9: usize,
    pub r8: usize,
    pub rdi: usize,
    pub rsi: usize,
    pub rdx: usize,
    pub rcx: usize,
    pub rax: usize,
}

impl Registers {
    /// The snapshot with every register zero.
    pub open spec fn zero() -> Registers {
        Registers { r11: 0, r10: 0, r9: 0, r8: 0, rdi: 0, rsi: 0, rdx: 0, rcx: 0, rax: 0 }
    }
}

impl Default for Registers {
    fn default() -> (r: Registers)
        ensures
            r == Registers::zero(),
    {
        Registers { r11: 0, r10: 0, r9: 0, r8: 0, rdi: 0, rsi: 0, rdx: 0, rcx: 0, rax: 0 }
    }
}

/// The execution context that the processor saves when it enters the kernel
/// and restores when it leaves: instruction pointer, code segment, flags,
/// stack pointer and stack segment.
#[derive(Clone, Copy, Debug, PartialEq, Eq, Structural)]
pub struct StackFrame {
    pub instruction_pointer: u64,
    pub code_segment: u64,
    pub cpu_flags: u64,
    pub stack_pointer: u64,
    pub stack_segment: u64,
}

impl StackFrame {
    /// The context with every field zero.
    pub open spec fn zero() -> StackFrame {
        StackFrame {
            instruction_pointer: 0,
            code_segment: 0,
            cpu_flags: 0,
            stack_pointer: 0,
            stack_segment: 0,
        }
    }
}

/// The map that a list of bindings stands for. A later binding of a key
/// overrides an earlier one.
pub open spec fn bindings_map(e: Seq<(String, String)>) -> Map<Seq<char>, Seq<char>>
    decreases e.len(),
{
    if e.len() == 0 {
        Map::empty()
    } else {
        bindings_map(e.drop_last()).insert(e.last().0@, e.last().1@)
    }
}

/// No key is bound twice.
pub open spec fn keys_unique(e: Seq<(String, String)>) -> bool {
    forall|i: int, j: int| 0 <= i < j < e.len() ==> (#[trigger] e[i]).0@ != (#[trigger] e[j]).0@
}

/// A key that no binding names is not in the map.
pub proof fn lemma_bindings_absent(e: Seq<(String, String)>, key: Seq<char>)
    requires
        forall|i: int| 0 <= i < e.len() ==> (#[trigger] e[i]).0@ != key,
    ensures
        !bindings_map(e).contains_key(key),
    decreases e.len(),
{
    if e.len() > 0 {
        assert forall|i: int| 0 <= i < e.drop_last().len() implies (#[trigger] e.drop_last()[i]).0@
            != key by {
            assert(e.drop_last()[i] == e[i]);
        }
        lemma_bindings_absent(e.drop_last(), key);
        assert(e.last() == e[e.len() - 1]);
    }
}

/// Where no later binding names the same key, binding `i` is what the map
/// holds for its key.
pub proof fn lemma_bindings_lookup(e: Seq<(String, String)>, i: int)
    requires
        0 <= i < e.len(),
        forall|j: int| i < j < e.len() ==> (#[trigger] e[j]).0@ != e[i].0@,
    ensures
        bindings_map(e).contains_key(e[i].0@),
        bindings_map(e)[e[i].0@] == e[i].1@,
    decreases e.len(),
{
    if i < e.len() - 1 {
        let front = e.drop_last();
        assert(front[i] == e[i]);
        assert forall|j: int| i < j < front.len() implies (#[trigger] front[j]).0@ != front[i].0@ by {
            assert(front[j] == e[j]);
        }
        lemma_bindings_lookup(front, i);
        assert(e.last() == e[e.len() - 1]);
    }
}

/// Replacing the value of binding `i`, where no later binding names the same
/// key, binds the key to the new value in the map.
pub proof fn lemma_bindings_update(e: Seq<(String, String)>, i: int, pair: (String, String))
    requires
        0 <= i < e.len(),
        pair.0@ == e[i].0@,
        forall|j: int| i < j < e.len() ==> (#[trigger] e[j]).0@ != e[i].0@,
    ensures
        bindings_map(e.update(i, pair)) == bindings_map(e).insert(pair.0@, pair.1@),
    decreases e.len(),
{
    let u = e.update(i, pair);
    if i == e.len() - 1 {
        assert(u.drop_last() =~= e.drop_last());
        assert(bindings_map(u) =~= bindings_map(e).insert(pair.0@, pair.1@));
    } else {
        let front = e.drop_last();
        assert(front[i] == e[i]);
        assert forall|j: int| i < j < front.len() implies (#[trigger] front[j]).0@ != front[i].0@ by {
            assert(front[j] == e[j]);
        }
        lemma_bindings_update(front, i, pair);
        assert(u.drop_last() =~= front.update(i, pair));
        assert(u.last() == e.last());
        assert(e.last() == e[e.len() - 1]);
        assert(bindings_map(u) =~= bindings_map(e).insert(pair.0@, pair.1@));
    }
}

/// The data of a process as plain values.
pub struct ProcessDataView {
    pub env: Map<Seq<char>, Seq<char>>,
    pub dir: Seq<char>,
    pub user: Option<Seq<char>>,
}

/// What a process carries besides its addresses and saved context: its
/// environment variables, its working directory and the user it runs as.
#[derive(Debug)]
pub struct ProcessData {
    env: Vec<(String, String)>,
    dir: String,
    user: Option<String>,
}

impl View for ProcessData {
    type V = ProcessDataView;

    closed spec fn view(&self) -> ProcessDataView {
        ProcessDataView {
            env: bindings_map(self.env@),
            dir: self.dir@,
            user: match self.user {
                Some(u) => Some(u@),
                None => None,
            },
        }
    }
}

/// The view of an optional string.
pub open spec fn opt_str_view(s: Option<&str>) -> Option<Seq<char>> {
    match s {
        Some(u) => Some(u@),
        None => None,
    }
}

/// The view of an optional owned string.
pub open spec fn opt_string_view(s: Option<String>) -> Option<Seq<char>> {
    match s {
        Some(u) => Some(u@),
        None => None,
    }
}

impl ProcessData {
    /// Every variable of the environment is bound once.
    pub closed spec fn wf(&self) -> bool {
        keys_unique(self.env@)
    }

    /// The data of a process in directory `dir`, run by `user`, with an empty
    /// environment.
    pub fn new(dir: &str, user: Option<&str>) -> (r: Self)
        ensures
            r.wf(),
            r@.env == Map::<Seq<char>, Seq<char>>::empty(),
            r@.dir == dir@,
            r@.user == opt_str_view(user),
    {
        let user = match user {
            Some(u) => Some(u.to_owned()),
            None => None,
        };
        ProcessData { env: Vec::new(), dir: dir.to_owned(), user }
    }

    /// The value that the environment binds `key` to, if it binds it.
    pub fn env(&self, key: &str) -> (r: Option<String>)
        requires
            self.wf(),
        ensures
            opt_string_view(r) == (if self@.env.contains_key(key@) {
                Some(self@.env[key@])
            } else {
                None
            }),
    {
        let wanted = key.to_owned();
        let n = self.env.len();
        let mut i: usize = 0;
        while i < n
            invariant
                n == self.env@.len(),
                i <= n,
                wanted@ == key@,
                keys_unique(self.env@),
                forall|j: int| 0 <= j < i ==> (#[trigger] self.env@[j]).0@ != key@,
            decreases n - i,
        {
            if self.env[i].0 == wanted {
                proof {
                    lemma_bindings_lookup(self.env@, i as int);
                }
                return Some(self.env[i].1.clone());
            }
            i = i + 1;
        }
        proof {
            lemma_bindings_absent(self.env@, key@);
        }
        None
    }

    /// The bindings of the environment, each key once.
    pub fn envs(&self) -> (r: Vec<(String, String)>)
        requires
            self.wf(),
        ensures
            bindings_map(r@) == self@.env,
            keys_unique(r@),
    {
        let n = self.env.len();
        let mut out: Vec<(String, String)> = Vec::new();
        let mut i: usize = 0;
        while i < n
            invariant
                n == self.env@.len(),
                i <= n,
                out@ == self.env@.subrange(0, i as int),
            decreases n - i,
        {
            out.push((self.env[i].0.clone(), self.env[i].1.clone()));
            proof {
                assert(out@ =~= self.env@.subrange(0, i + 1));
            }
            i = i + 1;
        }
        proof {
            assert(self.env@.subrange(0, n as int) =~= self.env@);
        }
        out
    }

    /// Binds `key` to `val`, in place of what it was bound to before.
    pub fn set_env(&mut self, key: &str, val: &str)
        requires
            old(self).wf(),
        ensures
            final(self).wf(),
            final(self)@.env == old(self)@.env.insert(key@, val@),
            final(self)@.dir == old(self)@.dir,
            final(self)@.user == old(self)@.user,
    {
        let wanted = key.to_owned();
        let n = self.env.len();
        let mut i: usize = 0;
        while i < n
            invariant
                n == self.env@.len(),
                i <= n,
                wanted@ == key@,
                *self == *old(self),
                keys_unique(self.env@),
                forall|j: int| 0 <= j < i ==> (#[trigger] self.env@[j]).0@ != key@,
            decreases n - i,
        {
            if self.env[i].0 == wanted {
                let pair = (wanted, val.to_owned());
                proof {
                    lemma_bindings_update(self.env@, i as int, pair);
                }
                self.env.set(i, pair);
                return ;
            }
            i = i + 1;
        }
        self.env.push((wanted, val.to_owned()));
        proof {
            assert(self.env@.drop_last() =~= old(self).env@);
        }
    }

    /// Makes `dir` the working directory.
    pub fn set_dir(&mut self, dir: &str)
        ensures
            final(self).wf() == old(self).wf(),
            final(self)@.dir == dir@,
            final(self)@.env == old(self)@.env,
            final(self)@.user == old(self)@.user,
    {
        self.dir = dir.to_owned();
    }

    /// Makes `user` the user that the process runs as.
    pub fn set_user(&mut self, user: &str)
        ensures
            final(self).wf() == old(self).wf(),
            final(self)@.user == Some(user@),
            final(self)@.env == old(self)@.env,
            final(self)@.dir == old(self)@.dir,
    {
        self.user = Some(user.to_owned());
    }
}

impl Clone for ProcessData {
    /// A copy that shares nothing with the value it was made from.
    fn clone(&self) -> (r: Self)
        ensures
            r@ == self@,
            r.wf() == self.wf(),
    {
        let n = self.env.len();
        let mut env: Vec<(String, String)> = Vec::new();
        let mut i: usize = 0;
        while i < n
            invariant
                n == self.env@.len(),
                i <= n,
                env@ == self.env@.subrange(0, i as int),
            decreases n - i,
        {
            env.push((self.env[i].0.clone(), self.env[i].1.clone()));
            proof {
                assert(env@ =~= self.env@.subrange(0, i + 1));
            }
            i = i + 1;
        }
        proof {
            assert(self.env@.subrange(0, n as int) =~= self.env@);
        }
        let user = match &self.user {
            Some(u) => Some(u.clone()),
            None => None,
        };
        ProcessData { env, dir: self.dir.clone(), user }
    }
}

/// A process record as plain values.
pub struct ProcessView {
    pub id: usize,
    pub code_addr: u64,
    pub stack_addr: u64,
    pub entry_point: u64,
    pub stack_frame: StackFrame,
    pub registers: Registers,
    pub data: ProcessDataView,
    pub parent: usize,
    /// The free list of the process's private heap.
    pub heap: Seq<FreeBlock>,
}

/// The record of one process: its identity, where its code and stack lie,
/// the context saved for it, its data, and the allocator of its private heap.
pub struct Process {
    id: usize,
    code_addr: u64,
    stack_addr: u64,
    entry_point: u64,
    stack_frame: StackFrame,
    registers: Registers,
    data: ProcessData,
    parent: usize,
    allocator: LinkedListAllocator,
}

impl View for Process {
    type V = ProcessView;

    closed spec fn view(&self) -> ProcessView {
        ProcessView {
            id: self.id,
            code_addr: self.code_addr,
            stack_addr: self.stack_addr,
            entry_point: self.entry_point,
            stack_frame: self.stack_frame,
            registers: self.registers,
            data: self.data@,
            parent: self.parent,
            heap: self.allocator@,
        }
    }
}

/// The record that fills a slot of the table before a process is created in
/// it: everything zero, the directory `/`, no user, no variables, no heap.
pub open spec fn blank_process(id: usize) -> ProcessView {
    ProcessView {
        id,
        code_addr: 0,
        stack_addr: 0,
        entry_point: 0,
        stack_frame: StackFrame::zero(),
        registers: Registers::zero(),
        data: ProcessDataView { env: Map::empty(), dir: "/"@, user: None },
        parent: 0,
        heap: Seq::empty(),
    }
}

impl Process {
    /// What the table asks of each record, over and above its view: the
    /// variables of its environment are bound once each.
    pub closed spec fn wf(&self) -> bool {
        self.data.wf()
    }

    /// A blank record with the given id.
    pub fn new(id: usize) -> (r: Self)
        ensures
            r@ == blank_process(id),
            r.wf(),
    {
        let isf = StackFrame {
            instruction_pointer: 0,
            code_segment: 0,
            cpu_flags: 0,
            stack_pointer: 0,
            stack_segment: 0,
        };
        Process {
            id,
            code_addr: 0,
            stack_addr: 0,
            entry_point: 0,
            stack_frame: isf,
            registers: Registers::default(),
            data: ProcessData::new("/", None),
            parent: 0,
            allocator: LinkedListAllocator::new(),
        }
    }
}

/// What holds of every record in the table: its code lies in user space and
/// it begins to run inside its code region, its parent is a slot of the
/// table, and its heap is a well-formed free list below the heap cursor.
pub open spec fn process_valid(p: ProcessView, heap_cursor: u64) -> bool {
    &&& p.code_addr <= USER_ADDR_LIMIT
    &&& p.entry_point < MAX_PROC_SIZE
    &&& p.parent < MAX_PROCS
    &&& blocks_wf(p.heap)
    &&& blocks_below(p.heap, heap_cursor as int)
}

/// The state of the process manager as plain values.
pub struct ManagerView {
    /// The records of the table, by slot.
    pub table: Seq<ProcessView>,
    /// The id of the current process.
    pub current: usize,
    /// The id that the next process gets. It goes up by one with each process
    /// created and down by one with each exit.
    pub next_id: usize,
    /// The base of the code region that the next process gets.
    pub code_cursor: u64,
    /// The start of the next heap region.
    pub heap_cursor: u64,
    /// Whether rescheduling is suppressed.
    pub no_schedule: bool,
}

/// What holds of the manager's state at all times: the table has its fixed
/// number of slots, the current process is one of them, both cursors lie in
/// user space, and every record is valid.
pub open spec fn manager_valid(v: ManagerView) -> bool {
    &&& v.table.len() == MAX_PROCS
    &&& v.current < MAX_PROCS
    &&& v.code_cursor <= USER_ADDR_LIMIT
    &&& v.heap_cursor <= USER_ADDR_LIMIT
    &&& forall|i: int| 0 <= i < v.table.len() ==> process_valid(#[trigger] v.table[i], v.heap_cursor)
}

/// The record of the current process.
pub open spec fn current_process(v: ManagerView) -> ProcessView {
    v.table[v.current as int]
}

/// The state `v` with `p` as the record of the current process.
pub open spec fn with_current(v: ManagerView, p: ProcessView) -> ManagerView {
    ManagerView { table: v.table.update(v.current as int, p), ..v }
}

/// The process table together with the id of the current process, the id
/// counter, and the cursors for code regions and heap regions.
pub struct ProcessManager {
    table: Vec<Process>,
    pid: usize,
    max_pid: usize,
    code_addr: RegionCursor,
    heap_addr: RegionCursor,
    no_schedule: bool,
}

impl View for ProcessManager {
    type V = ManagerView;

    closed spec fn view(&self) -> ManagerView {
        ManagerView {
            table: Seq::new(self.table@.len(), |i: int| self.table@[i]@),
            current: self.pid,
            next_id: self.max_pid,
            code_cursor: self.code_addr@,
            heap_cursor: self.heap_addr@,
            no_schedule: self.no_schedule,
        }
    }
}

impl ProcessManager {
    /// The state is valid, and so is each record.
    pub closed spec fn wf(&self) -> bool {
        &&& manager_valid(self@)
        &&& forall|i: int| 0 <= i < self.table@.len() ==> (#[trigger] self.table@[i]).wf()
    }

    /// A well-formed manager has a valid state.
    pub proof fn lemma_valid(&self)
        requires
            self.wf(),
        ensures
            manager_valid(self@),
    {
    }

    /// The manager at boot: every slot blank, process 0 current, 1 the next
    /// id, no code region handed out yet, heap regions starting at
    /// `PROC_HEAP_START`, rescheduling allowed.
    pub fn new() -> (r: Self)
        ensures
            r.wf(),
            r@ == (ManagerView {
                table: Seq::new(MAX_PROCS as nat, |i: int| blank_process(0)),
                current: 0,
                next_id: 1,
                code_cursor: 0,
                heap_cursor: PROC_HEAP_START,
                no_schedule: false,
            }),
    {
        let mut table: Vec<Process> = Vec::new();
        let mut i: usize = 0;
        while i < MAX_PROCS
            invariant
                i <= MAX_PROCS,
                table@.len() == i,
                forall|j: int| 0 <= j < i ==> (#[trigger] table@[j])@ == blank_process(0),
                forall|j: int| 0 <= j < i ==> (#[trigger] table@[j]).wf(),
            decreases MAX_PROCS - i,
        {
            table.push(Process::new(0));
            i = i + 1;
        }
        let r = ProcessManager {
            table,
            pid: 0,
            max_pid: 1,
            code_addr: RegionCursor::new(0),
            heap_addr: RegionCursor::new(PROC_HEAP_START),
            no_schedule: false,
        };
        proof {
            assert(r@.table =~= Seq::new(MAX_PROCS as nat, |i: int| blank_process(0)));
        }
        r
    }
}

impl Process {
    /// The id of the process.
    pub fn id(&self) -> (r: usize)
        ensures
            r == self@.id,
    {
        self.id
    }

    /// The id of the process that created this one.
    pub fn parent(&self) -> (r: usize)
        ensures
            r == self@.parent,
    {
        self.parent
    }

    /// The base of the code region.
    pub fn code_addr(&self) -> (r: u64)
        ensures
            r == self@.code_addr,
    {
        self.code_addr
    }

    /// The address that the stack pointer starts at.
    pub fn stack_addr(&self) -> (r: u64)
        ensures
            r == self@.stack_addr,
    {
        self.stack_addr
    }

    /// Where execution begins, counted from the base of the code region.
    pub fn entry_point(&self) -> (r: u64)
        ensures
            r == self@.entry_point,
    {
        self.entry_point
    }

    /// The registers saved for the process.
    pub fn registers(&self) -> (r: Registers)
        ensures
            r == self@.registers,
    {
        self.registers
    }

    /// The execution context saved for the process.
    pub fn stack_frame(&self) -> (r: StackFrame)
        ensures
            r == self@.stack_frame,
    {
        self.stack_frame
    }

    /// The data of the process.
    pub fn data(&self) -> (r: &ProcessData)
        ensures
            r@ == self@.data,
            r.wf() == self.wf(),
    {
        &self.data
    }

    /// The allocator of the private heap of the process.
    pub fn allocator(&self) -> (r: &LinkedListAllocator)
        ensures
            r@ == self@.heap,
    {
        &self.allocator
    }
}

impl ProcessManager {
    /// The record in slot `id` of the table, if there is such a slot.
    pub fn process(&self, id: usize) -> (r: Option<&Process>)
        requires
            self.wf(),
        ensures
            r is Some <==> id < MAX_PROCS,
            r matches Some(p) ==> p@ == self@.table[id as int] && p.wf(),
    {
        if id < MAX_PROCS {
            proof {
                assert(self.table@[id as int].wf());
            }
            Some(&self.table[id])
        } else {
            None
        }
    }

    /// The id that the next process gets.
    pub fn next_id(&self) -> (r: usize)
        ensures
            r == self@.next_id,
    {
        self.max_pid
    }

    /// The base of the code region that the next process gets.
    pub fn code_cursor(&self) -> (r: u64)
        ensures
            r == self@.code_cursor,
    {
        self.code_addr.next()
    }

    /// The start of the next heap region.
    pub fn heap_cursor(&self) -> (r: u64)
        ensures
            r == self@.heap_cursor,
    {
        self.heap_addr.next()
    }
}

/// The id of the current process.
pub fn id(pm: &ProcessManager) -> (r: usize)
    ensures
        r == pm@.current,
{
    pm.pid
}

/// Makes `id` the current process.
pub fn set_id(pm: &mut ProcessManager, id: usize)
    requires
        old(pm).wf(),
        id < MAX_PROCS,
    ensures
        final(pm).wf(),
        final(pm)@ == (ManagerView { current: id, ..old(pm)@ }),
{
    pm.pid = id;
}

/// The base of the code region of the current process.
pub fn code_addr(pm: &ProcessManager) -> (r: u64)
    requires
        pm.wf(),
    ensures
        r == pm@.table[pm@.current as int].code_addr,
{
    pm.table[pm.pid].code_addr
}

/// How an address that a process passes to the kernel is meant.
#[derive(Clone, Copy, Debug, PartialEq, Eq, Structural)]
pub enum UserAddress {
    /// The address counts from the base of the code region of the process.
    Offset(u64),
    /// The address is absolute.
    Absolute(u64),
}

/// How `addr` is meant when the current process passes it: an address below
/// the base of the code region of the process is an offset from that base,
/// any other address is absolute.
pub open spec fn address_kind(v: ManagerView, addr: u64) -> UserAddress {
    if addr < current_process(v).code_addr {
        UserAddress::Offset(addr)
    } else {
        UserAddress::Absolute(addr)
    }
}

/// The absolute address that `addr` stands for when the current process
/// passes it.
pub open spec fn rebased(v: ManagerView, addr: u64) -> int {
    match address_kind(v, addr) {
        UserAddress::Offset(offset) => current_process(v).code_addr + offset,
        UserAddress::Absolute(absolute) => absolute as int,
    }
}

/// Tells how an address that the current process has passed is meant.
pub fn classify_addr(pm: &ProcessManager, addr: u64) -> (r: UserAddress)
    requires
        pm.wf(),
    ensures
        r == address_kind(pm@, addr),
{
    if addr < code_addr(pm) {
        UserAddress::Offset(addr)
    } else {
        UserAddress::Absolute(addr)
    }
}

/// Turns an address that the current process has passed to the kernel into
/// an absolute one: an address below the base of the code region of the
/// process is an offset from that base, any other address is absolute
/// already.
pub fn ptr_from_addr(pm: &ProcessManager, addr: u64) -> (r: u64)
    requires
        pm.wf(),
    ensures
        addr < current_process(pm@).code_addr ==> r == current_process(pm@).code_addr + addr,
        addr >= current_process(pm@).code_addr ==> r == addr,
        r == rebased(pm@, addr),
{
    match classify_addr(pm, addr) {
        UserAddress::Offset(offset) => code_addr(pm) + offset,
        UserAddress::Absolute(absolute) => absolute,
    }
}

impl ProcessManager {
    /// A manager that differs from a well-formed one in slot `i` alone, and
    /// holds a valid record there, is well formed.
    proof fn lemma_slot_changed(&self, before: &ProcessManager, i: int)
        requires
            before.wf(),
            0 <= i < MAX_PROCS,
            self.table@.len() == before.table@.len(),
            forall|j: int| 0 <= j < self.table@.len() && j != i ==> self.table@[j] == before.table@[j],
            self.table@[i].wf(),
            process_valid(self.table@[i]@, self.heap_addr@),
            self.pid == before.pid,
            self.max_pid == before.max_pid,
            self.code_addr@ == before.code_addr@,
            before.heap_addr@ <= self.heap_addr@ <= USER_ADDR_LIMIT,
            self.no_schedule == before.no_schedule,
        ensures
            self.wf(),
            self@ == (ManagerView {
                table: before@.table.update(i, self.table@[i]@),
                heap_cursor: self.heap_addr@,
                ..before@
            }),
    {
        assert(self@.table =~= before@.table.update(i, self.table@[i]@));
        assert forall|j: int| 0 <= j < self@.table.len() implies process_valid(
            #[trigger] self@.table[j],
            self@.heap_cursor,
        ) by {
            if j != i {
                assert(process_valid(before@.table[j], before@.heap_cursor));
                assert(self@.table[j] == before@.table[j]);
            }
        }
        assert forall|j: int| 0 <= j < self.table@.len() implies (#[trigger] self.table@[j]).wf() by {
            if j != i {
                assert(before.table@[j].wf());
            }
        }
    }
}

/// Sets the base of the code region of the current process.
pub fn set_code_addr(pm: &mut ProcessManager, addr: u64)
    requires
        old(pm).wf(),
        addr <= USER_ADDR_LIMIT,
    ensures
        final(pm).wf(),
        final(pm)@ == with_current(
            old(pm)@,
            ProcessView { code_addr: addr, ..current_process(old(pm)@) },
        ),
{
    let i = pm.pid;
    pm.table[i].code_addr = addr;
    proof {
        assert(process_valid(old(pm)@.table[i as int], old(pm)@.heap_cursor));
        pm.lemma_slot_changed(old(pm), i as int);
    }
}

/// The value that the environment of the current process binds `key` to, if
/// it binds it.
pub fn env(pm: &ProcessManager, key: &str) -> (r: Option<String>)
    requires
        pm.wf(),
    ensures
        opt_string_view(r) == (if current_process(pm@).data.env.contains_key(key@) {
            Some(current_process(pm@).data.env[key@])
        } else {
            None
        }),
{
    proof {
        assert(pm.table@[pm.pid as int].wf());
    }
    pm.table[pm.pid].data.env(key)
}

/// The environment of the current process: its bindings, each key once.
pub fn envs(pm: &ProcessManager) -> (r: Vec<(String, String)>)
    requires
        pm.wf(),
    ensures
        bindings_map(r@) == current_process(pm@).data.env,
        keys_unique(r@),
{
    proof {
        assert(pm.table@[pm.pid as int].wf());
    }
    pm.table[pm.pid].data.envs()
}

/// The working directory of the current process.
pub fn dir(pm: &ProcessManager) -> (r: String)
    requires
        pm.wf(),
    ensures
        r@ == current_process(pm@).data.dir,
{
    pm.table[pm.pid].data.dir.clone()
}

/// The user that the current process runs as, if it has one.
pub fn user(pm: &ProcessManager) -> (r: Option<String>)
    requires
        pm.wf(),
    ensures
        opt_string_view(r) == current_process(pm@).data.user,
{
    match &pm.table[pm.pid].data.user {
        Some(u) => Some(u.clone()),
        None => None,
    }
}

/// Binds `key` to `val` in the environment of the current process.
pub fn set_env(pm: &mut ProcessManager, key: &str, val: &str)
    requires
        old(pm).wf(),
    ensures
        final(pm).wf(),
        final(pm)@ == with_current(
            old(pm)@,
            ProcessView {
                data: ProcessDataView {
                    env: current_process(old(pm)@).data.env.insert(key@, val@),
                    ..current_process(old(pm)@).data
                },
                ..current_process(old(pm)@)
            },
        ),
{
    let i = pm.pid;
    proof {
        assert(pm.table@[i as int].wf());
        assert(process_valid(old(pm)@.table[i as int], old(pm)@.heap_cursor));
    }
    pm.table[i].data.set_env(key, val);
    proof {
        pm.lemma_slot_changed(old(pm), i as int);
    }
}

/// Makes `dir` the working directory of the current process.
pub fn set_dir(pm: &mut ProcessManager, dir: &str)
    requires
        old(pm).wf(),
    ensures
        final(pm).wf(),
        final(pm)@ == with_current(
            old(pm)@,
            ProcessView {
                data: ProcessDataView { dir: dir@, ..current_process(old(pm)@).data },
                ..current_process(old(pm)@)
            },
        ),
{
    let i = pm.pid;
    proof {
        assert(pm.table@[i as int].wf());
        assert(process_valid(old(pm)@.table[i as int], old(pm)@.heap_cursor));
    }
    pm.table[i].data.set_dir(dir);
    proof {
        pm.lemma_slot_changed(old(pm), i as int);
    }
}

/// Makes `user` the user that the current process runs as.
pub fn set_user(pm: &mut ProcessManager, user: &str)
    requires
        old(pm).wf(),
    ensures
        final(pm).wf(),
        final(pm)@ == with_current(
            old(pm)@,
            ProcessView {
                data: ProcessDataView { user: Some(user@), ..current_process(old(pm)@).data },
                ..current_process(old(pm)@)
            },
        ),
{
    let i = pm.pid;
    proof {
        assert(pm.table@[i as int].wf());
        assert(process_valid(old(pm)@.table[i as int], old(pm)@.heap_cursor));
    }
    pm.table[i].data.set_user(user);
    proof {
        pm.lemma_slot_changed(old(pm), i as int);
    }
}

/// The registers saved for the current process.
pub fn registers(pm: &ProcessManager) -> (r: Registers)
    requires
        pm.wf(),
    ensures
        r == current_process(pm@).registers,
{
    pm.table[pm.pid].registers
}

/// Saves `regs` as the registers of the current process.
pub fn set_registers(pm: &mut ProcessManager, regs: Registers)
    requires
        old(pm).wf(),
    ensures
        final(pm).wf(),
        final(pm)@ == with_current(
            old(pm)@,
            ProcessView { registers: regs, ..current_process(old(pm)@) },
        ),
{
    let i = pm.pid;
    pm.table[i].registers = regs;
    proof {
        assert(old(pm).table@[i as int].wf());
        assert(process_valid(old(pm)@.table[i as int], old(pm)@.heap_cursor));
        pm.lemma_slot_changed(old(pm), i as int);
    }
}

/// The execution context saved for the current process.
pub fn stack_frame(pm: &ProcessManager) -> (r: StackFrame)
    requires
        pm.wf(),
    ensures
        r == current_process(pm@).stack_frame,
{
    pm.table[pm.pid].stack_frame
}

/// Saves `stack_frame` as the execution context of the current process.
pub fn set_stack_frame(pm: &mut ProcessManager, stack_frame: StackFrame)
    requires
        old(pm).wf(),
    ensures
        final(pm).wf(),
        final(pm)@ == with_current(
            old(pm)@,
            ProcessView { stack_frame, ..current_process(old(pm)@) },
        ),
{
    let i = pm.pid;
    pm.table[i].stack_frame = stack_frame;
    proof {
        assert(old(pm).table@[i as int].wf());
        assert(process_valid(old(pm)@.table[i as int], old(pm)@.heap_cursor));
        pm.lemma_slot_changed(old(pm), i as int);
    }
}

/// The allocator of the private heap of the current process.
pub fn heap_allocator(pm: &ProcessManager) -> (r: &LinkedListAllocator)
    requires
        pm.wf(),
    ensures
        r@ == current_process(pm@).heap,
        r.wf(),
{
    proof {
        assert(process_valid(pm@.table[pm.pid as int], pm@.heap_cursor));
    }
    &pm.table[pm.pid].allocator
}

/// A heap region of `size` bytes can be carved at the heap cursor `cursor`:
/// it ends in user space and inside the address space.
pub open spec fn can_grow(cursor: u64, size: usize) -> bool {
    has_room(cursor, size) && cursor + size <= usize::MAX
}

/// Grows the heap of the current process by `size` bytes: carves a region of
/// that size at the heap cursor, hands it to the process's allocator, and
/// returns where it starts. The caller maps the pages of the region. Where no
/// such region can be carved, nothing changes and the result is `None`.
pub fn allocator_grow(pm: &mut ProcessManager, size: usize) -> (r: Option<usize>)
    requires
        old(pm).wf(),
    ensures
        final(pm).wf(),
        r is Some <==> can_grow(old(pm)@.heap_cursor, size),
        r is None ==> final(pm)@ == old(pm)@,
        r matches Some(addr) ==> {
            &&& addr == old(pm)@.heap_cursor
            &&& final(pm)@ == (ManagerView {
                heap_cursor: (old(pm)@.heap_cursor + size) as u64,
                ..with_current(
                    old(pm)@,
                    ProcessView {
                        heap: release_blocks(current_process(old(pm)@).heap, addr, size),
                        ..current_process(old(pm)@)
                    },
                )
            })
        },
{
    let cursor = pm.heap_addr.next();
    if cursor > usize::MAX as u64 || size > usize::MAX - cursor as usize {
        return None;
    }
    if pm.heap_addr.carve(size).is_none() {
        return None;
    }
    let addr = cursor as usize;
    let i = pm.pid;
    proof {
        assert(old(pm).table@[i as int].wf());
        assert(process_valid(old(pm)@.table[i as int], old(pm)@.heap_cursor));
        lemma_release_below(old(pm).table@[i as int].allocator@, addr, size, cursor + size);
    }
    pm.table[i].allocator.grow(addr, size);
    proof {
        pm.lemma_slot_changed(old(pm), i as int);
    }
    Some(addr)
}

/// Allocates `size` bytes at alignment `align` from the heap of the current
/// process as it stands, and returns the address, or `None` if no free block
/// of the heap fits the request.
pub fn heap_allocate(pm: &mut ProcessManager, size: usize, align: usize) -> (r: Option<usize>)
    requires
        old(pm).wf(),
        is_power_of_two(align),
    ensures
        final(pm).wf(),
        r == alloc_addr(current_process(old(pm)@).heap, size, align),
        final(pm)@ == with_current(
            old(pm)@,
            ProcessView {
                heap: alloc_blocks(current_process(old(pm)@).heap, size, align),
                ..current_process(old(pm)@)
            },
        ),
{
    let i = pm.pid;
    proof {
        assert(old(pm).table@[i as int].wf());
        assert(process_valid(old(pm)@.table[i as int], old(pm)@.heap_cursor));
        lemma_alloc_below(
            old(pm).table@[i as int].allocator@,
            size,
            align,
            old(pm)@.heap_cursor as int,
        );
    }
    let r = pm.table[i].allocator.allocate(size, align);
    proof {
        pm.lemma_slot_changed(old(pm), i as int);
    }
    r
}

/// The range `[ptr, ptr + size)` can be given back to the heap of the current
/// process: it ends inside the address space and below the heap cursor, and
/// none of its bytes is free already.
pub open spec fn can_release(v: ManagerView, ptr: usize, size: usize) -> bool {
    &&& ptr + size <= usize::MAX
    &&& ptr + size <= v.heap_cursor
    &&& disjoint_from(current_process(v).heap, ptr as int, size as int)
}

/// Gives the `size` bytes at `ptr` back to the heap of the current process.
/// A range that does not lie below the heap cursor, or that holds a byte that
/// is free already, is not given back: nothing changes.
pub fn heap_release(pm: &mut ProcessManager, ptr: usize, size: usize)
    requires
        old(pm).wf(),
    ensures
        final(pm).wf(),
        final(pm)@ == (if can_release(old(pm)@, ptr, size) {
            with_current(
                old(pm)@,
                ProcessView {
                    heap: release_blocks(current_process(old(pm)@).heap, ptr, size),
                    ..current_process(old(pm)@)
                },
            )
        } else {
            old(pm)@
        }),
{
    let i = pm.pid;
    let cursor = pm.heap_addr.next();
    proof {
        assert(old(pm).table@[i as int].wf());
        assert(process_valid(old(pm)@.table[i as int], old(pm)@.heap_cursor));
    }
    if size as u64 > cursor || ptr as u64 > cursor - size as u64 {
        return ;
    }
    if !pm.table[i].allocator.is_unused(ptr, size) {
        proof {
            assert(current_process(old(pm)@).heap == old(pm).table@[i as int].allocator@);
        }
        return ;
    }
    proof {
        lemma_release_below(old(pm).table@[i as int].allocator@, ptr, size, cursor as int);
    }
    pm.table[i].allocator.dealloc(ptr, size);
    proof {
        pm.lemma_slot_changed(old(pm), i as int);
    }
}

/// Says whether rescheduling is suppressed.
pub fn no_schedule(pm: &ProcessManager) -> (r: bool)
    ensures
        r == pm@.no_schedule,
{
    pm.no_schedule
}

/// Suppresses rescheduling, or allows it again.
pub fn set_no_schedule(pm: &mut ProcessManager, suppressed: bool)
    requires
        old(pm).wf(),
    ensures
        final(pm).wf(),
        final(pm)@ == (ManagerView { no_schedule: suppressed, ..old(pm)@ }),
{
    pm.no_schedule = suppressed;
}

/// Ends the current process. Its parent becomes the current process and the
/// id counter goes down by one, from 0 round to the largest id. The record
/// stays in its slot. The result is the code region of the process,
/// base and size, whose pages the caller releases.
pub fn exit(pm: &mut ProcessManager) -> (r: (u64, usize))
    requires
        old(pm).wf(),
    ensures
        final(pm).wf(),
        r == (current_process(old(pm)@).code_addr, MAX_PROC_SIZE),
        final(pm)@ == (ManagerView {
            current: current_process(old(pm)@).parent,
            next_id: if old(pm)@.next_id == 0 {
                usize::MAX
            } else {
                (old(pm)@.next_id - 1) as usize
            },
            ..old(pm)@
        }),
{
    let i = pm.pid;
    proof {
        assert(process_valid(old(pm)@.table[i as int], old(pm)@.heap_cursor));
    }
    let region = (pm.table[i].code_addr, MAX_PROC_SIZE);
    let parent = pm.table[i].parent;
    pm.max_pid = pm.max_pid.wrapping_sub(1);
    pm.pid = parent;
    region
}

/// Sets the address from which code regions are carved.
pub fn init_process_addr(pm: &mut ProcessManager, addr: u64)
    requires
        old(pm).wf(),
        addr <= USER_ADDR_LIMIT,
    ensures
        final(pm).wf(),
        final(pm)@ == (ManagerView { code_cursor: addr, ..old(pm)@ }),
{
    pm.code_addr = RegionCursor::new(addr);
}

/// Why a process cannot be created.
#[derive(Clone, Copy, Debug, PartialEq, Eq, Structural)]
pub enum CreateError {
    /// The image starts with neither magic, or is an ELF file that cannot be
    /// read.
    BadFormat,
    /// The image does not lie inside a code region.
    OutOfBounds,
    /// The id counter has left the table: there is no slot for the process.
    TableFull,
    /// No code region, or no heap region, is left in user space.
    AddressSpaceExhausted,
}

/// A process that was created: its id, and what the caller has to do before
/// the process runs. The pages of the code region (`MAX_PROC_SIZE` bytes at
/// `code_addr`) and of the heap region (`DEFAULT_HEAP_SIZE` bytes at
/// `heap_addr`) are to be mapped, and each segment of `image` is to be copied
/// to `code_addr` plus the segment's address.
pub struct Created {
    pub id: usize,
    pub code_addr: u64,
    pub heap_addr: usize,
    pub image: Image,
}

/// Regions for one more process can be carved: a code region that ends in
/// user space, and a first heap region.
pub open spec fn can_place(v: ManagerView) -> bool {
    has_room(v.code_cursor, MAX_PROC_SIZE) && can_grow(v.heap_cursor, DEFAULT_HEAP_SIZE)
}

/// The reason for which `create` refuses `bin` in state `v`, if it does.
pub open spec fn create_error(v: ManagerView, bin: Seq<u8>) -> Option<CreateError> {
    match image_of(bin) {
        Err(ImageError::BadFormat) => Some(CreateError::BadFormat),
        Err(ImageError::OutOfBounds) => Some(CreateError::OutOfBounds),
        Ok(_) => if v.next_id >= MAX_PROCS {
            Some(CreateError::TableFull)
        } else if !can_place(v) {
            Some(CreateError::AddressSpaceExhausted)
        } else {
            None
        },
    }
}

/// The record of the process that `create` makes of `image` in state `v`. It
/// gets the next id, the region at the code cursor with its stack one page
/// below the end of the region, and a heap of one free block at the heap
/// cursor. It takes over, by value, the saved context, the registers and the
/// data of the current process, which becomes its parent.
pub open spec fn created_process(v: ManagerView, image: ImageView) -> ProcessView {
    ProcessView {
        id: v.next_id,
        code_addr: v.code_cursor,
        stack_addr: (v.code_cursor + MAX_PROC_SIZE - 4096) as u64,
        entry_point: image.entry_point,
        stack_frame: current_process(v).stack_frame,
        registers: current_process(v).registers,
        data: current_process(v).data,
        parent: v.current,
        heap: seq![FreeBlock { start: v.heap_cursor as usize, size: DEFAULT_HEAP_SIZE }],
    }
}

/// The state after `create` has made a process of `image` in state `v`: the
/// record stands in the slot of its id, the id counter is one up, and both
/// cursors have moved past the regions of the process.
pub open spec fn after_create(v: ManagerView, image: ImageView) -> ManagerView {
    ManagerView {
        table: v.table.update(v.next_id as int, created_process(v, image)),
        next_id: (v.next_id + 1) as usize,
        code_cursor: (v.code_cursor + MAX_PROC_SIZE) as u64,
        heap_cursor: (v.heap_cursor + DEFAULT_HEAP_SIZE) as u64,
        ..v
    }
}

/// Why a process cannot be started.
#[derive(Clone, Copy, Debug, PartialEq, Eq, Structural)]
pub enum ExecError {
    /// The id names no slot of the table.
    NoSuchProcess,
    /// The arguments do not fit the area that is set aside for them.
    ArgsTooLarge,
    /// The heap of the process has no room for the argument area.
    OutOfMemory,
}

/// The size in bytes of the area of a process's heap that holds its
/// arguments.
pub const ARGS_AREA_SIZE: usize = 1024;

/// The size in bytes of one reference to an argument: a pointer and a length.
pub const ARG_REF_SIZE: usize = 16;

/// The alignment in bytes of the table of references to the arguments.
pub const ARG_REF_ALIGN: usize = 8;

/// The flags that a process starts with: interrupts enabled.
pub const USER_FLAGS: u64 = 0x200;

/// One argument of a process that is about to run: the bytes of the
/// argument, and the address in the process's heap that they are to be copied
/// to.
pub struct LaunchArg {
    pub ptr: u64,
    pub data: Vec<u8>,
}

impl View for LaunchArg {
    type V = (u64, Seq<u8>);

    open spec fn view(&self) -> (u64, Seq<u8>) {
        (self.ptr, self.data@)
    }
}

/// What entering user mode takes: the process that becomes current, the
/// stack pointer, flags and instruction pointer to start it with, and its
/// arguments. The caller copies each argument to its address, writes the
/// table of references (address and length of each argument, in order) at
/// `args_ptr`, and then makes the transition, which does not return.
pub struct Launch {
    pub id: usize,
    pub stack_pointer: u64,
    pub cpu_flags: u64,
    pub instruction_pointer: u64,
    pub args_ptr: u64,
    pub args_len: usize,
    pub args: Vec<LaunchArg>,
}

/// The views of the arguments of a launch.
pub open spec fn launch_args_view(args: Seq<LaunchArg>) -> Seq<(u64, Seq<u8>)> {
    Seq::new(args.len(), |i: int| args[i]@)
}

/// The views of a list of byte strings.
pub open spec fn byte_strings(args: Seq<Vec<u8>>) -> Seq<Seq<u8>> {
    Seq::new(args.len(), |i: int| args[i]@)
}

/// The number of bytes in all of `args` together.
pub open spec fn args_len_sum(args: Seq<Seq<u8>>) -> int
    decreases args.len(),
{
    if args.len() == 0 {
        0
    } else {
        args_len_sum(args.drop_last()) + args.last().len()
    }
}

/// The arguments fit the argument area: their bytes, the padding before the
/// table (at most `ARG_REF_ALIGN` bytes), and one reference for each.
pub open spec fn args_fit(args: Seq<Seq<u8>>) -> bool {
    args_len_sum(args) + ARG_REF_ALIGN + ARG_REF_SIZE * args.len() <= ARGS_AREA_SIZE
}

/// Where the arguments go in an area that starts at `base`: each follows the
/// one before it without a gap.
pub open spec fn placed_args(base: int, args: Seq<Seq<u8>>) -> Seq<(u64, Seq<u8>)> {
    Seq::new(args.len(), |i: int| ((base + args_len_sum(args.take(i))) as u64, args[i]))
}

/// Where the table of references goes: behind the last argument, moved up
/// to the next multiple of `ARG_REF_ALIGN` that lies above the end of the
/// arguments.
pub open spec fn arg_table_addr(base: int, args: Seq<Seq<u8>>) -> int {
    let end = base + args_len_sum(args);
    end + (ARG_REF_ALIGN - end % (ARG_REF_ALIGN as int))
}

/// The reason for which `exec` refuses to start process `id` with `args` in
/// state `v`, if it does.
pub open spec fn exec_error(v: ManagerView, id: usize, args: Seq<Seq<u8>>) -> Option<ExecError> {
    if id >= MAX_PROCS {
        Some(ExecError::NoSuchProcess)
    } else if !args_fit(args) {
        Some(ExecError::ArgsTooLarge)
    } else if alloc_addr(v.table[id as int].heap, ARGS_AREA_SIZE, 1) is None {
        Some(ExecError::OutOfMemory)
    } else {
        None
    }
}

/// The state after `exec` has started process `id` in state `v`: the
/// argument area is taken from the heap of the process, and the process is
/// current.
pub open spec fn after_exec(v: ManagerView, id: usize) -> ManagerView {
    ManagerView {
        table: v.table.update(
            id as int,
            ProcessView {
                heap: alloc_blocks(v.table[id as int].heap, ARGS_AREA_SIZE, 1),
                ..v.table[id as int]
            },
        ),
        current: id,
        ..v
    }
}

/// The sum of the lengths grows by the length of an argument that is added.
proof fn lemma_args_len_sum_take(args: Seq<Seq<u8>>, i: int)
    requires
        0 <= i < args.len(),
    ensures
        args_len_sum(args.take(i + 1)) == args_len_sum(args.take(i)) + args[i].len(),
        0 <= args_len_sum(args.take(i)),
    decreases i,
{
    assert(args.take(i + 1).drop_last() =~= args.take(i));
    if i > 0 {
        lemma_args_len_sum_take(args, i - 1);
    }
}

impl Process {
    /// Creates a process from the binary image `bin`: loads the image, carves
    /// a code region and a heap region, fills the record from the current
    /// process, and registers it under the next id. Creation fails, and
    /// changes nothing, if the image is refused, if the table has no slot for
    /// the next id, or if no region is left.
    pub fn create(pm: &mut ProcessManager, bin: &[u8]) -> (r: Result<Created, CreateError>)
        requires
            old(pm).wf(),
        ensures
            final(pm).wf(),
            match r {
                Ok(c) => {
                    &&& create_error(old(pm)@, bin@) is None
                    &&& image_of(bin@) == Ok::<ImageView, ImageError>(c.image@)
                    &&& c.id == old(pm)@.next_id
                    &&& c.code_addr == old(pm)@.code_cursor
                    &&& c.heap_addr == old(pm)@.heap_cursor
                    &&& final(pm)@ == after_create(old(pm)@, c.image@)
                },
                Err(e) => create_error(old(pm)@, bin@) == Some(e) && final(pm)@ == old(pm)@,
            },
    {
        let image = match load_image(bin) {
            Ok(image) => image,
            Err(ImageError::BadFormat) => {
                return Err(CreateError::BadFormat);
            },
            Err(ImageError::OutOfBounds) => {
                return Err(CreateError::OutOfBounds);
            },
        };
        let id = pm.max_pid;
        if id >= MAX_PROCS {
            return Err(CreateError::TableFull);
        }
        let heap_cursor = pm.heap_addr.next();
        if !pm.code_addr.can_carve(MAX_PROC_SIZE) || !pm.heap_addr.can_carve(DEFAULT_HEAP_SIZE)
            || heap_cursor > usize::MAX as u64 || DEFAULT_HEAP_SIZE > usize::MAX
            - heap_cursor as usize {
            return Err(CreateError::AddressSpaceExhausted);
        }
        let code_addr = pm.code_addr.carve(MAX_PROC_SIZE).unwrap();
        pm.heap_addr.carve(DEFAULT_HEAP_SIZE);
        let heap_addr = heap_cursor as usize;
        let stack_addr = code_addr + MAX_PROC_SIZE as u64 - 4096;
        let parent = pm.pid;
        proof {
            assert(old(pm).table@[parent as int].wf());
        }
        let data = pm.table[parent].data.clone();
        let registers = pm.table[parent].registers;
        let stack_frame = pm.table[parent].stack_frame;
        let mut allocator = LinkedListAllocator::new();
        allocator.init(heap_addr, DEFAULT_HEAP_SIZE);
        let proc = Process {
            id,
            code_addr,
            stack_addr,
            data,
            registers,
            stack_frame,
            entry_point: image.entry_point,
            parent,
            allocator,
        };
        pm.table.set(id, proc);
        pm.max_pid = id + 1;
        proof {
            let v = old(pm)@;
            let w = after_create(v, image@);
            assert(pm@.table =~= w.table);
            assert(pm@ == w);
            assert forall|j: int| 0 <= j < pm@.table.len() implies process_valid(
                #[trigger] pm@.table[j],
                pm@.heap_cursor,
            ) by {
                if j != id {
                    assert(process_valid(v.table[j], v.heap_cursor));
                }
            }
            assert forall|j: int| 0 <= j < pm.table@.len() implies (#[trigger] pm.table@[j]).wf() by {
                if j != id {
                    assert(old(pm).table@[j].wf());
                }
            }
        }
        Ok(Created { id, code_addr, heap_addr, image })
    }

    /// Starts process `id` with the arguments `args`: takes the argument
    /// area from the heap of the process, places the arguments in it one
    /// behind the other and the table of references behind them, and makes
    /// the process current. Nothing changes if the process cannot be started.
    pub fn exec(pm: &mut ProcessManager, id: usize, args: &Vec<Vec<u8>>) -> (r: Result<
        Launch,
        ExecError,
    >)
        requires
            old(pm).wf(),
        ensures
            final(pm).wf(),
            match r {
                Ok(l) => {
                    &&& exec_error(old(pm)@, id, byte_strings(args@)) is None
                    &&& final(pm)@ == after_exec(old(pm)@, id)
                    &&& l.id == id
                    &&& l.stack_pointer == old(pm)@.table[id as int].stack_addr
                    &&& l.cpu_flags == USER_FLAGS
                    &&& l.instruction_pointer == old(pm)@.table[id as int].code_addr + old(
                        pm,
                    )@.table[id as int].entry_point
                    &&& launch_args_view(l.args@) == placed_args(
                        alloc_addr(old(pm)@.table[id as int].heap, ARGS_AREA_SIZE, 1).unwrap() as int,
                        byte_strings(args@),
                    )
                    &&& l.args_ptr == arg_table_addr(
                        alloc_addr(old(pm)@.table[id as int].heap, ARGS_AREA_SIZE, 1).unwrap() as int,
                        byte_strings(args@),
                    )
                    &&& l.args_len == args@.len()
                },
                Err(e) => exec_error(old(pm)@, id, byte_strings(args@)) == Some(e) && final(pm)@
                    == old(pm)@,
            },
    {
        if id >= MAX_PROCS {
            return Err(ExecError::NoSuchProcess);
        }
        let total = match args_total(args) {
            Some(total) => total,
            None => {
                return Err(ExecError::ArgsTooLarge);
            },
        };
        let ghost bs = byte_strings(args@);
        let ghost heap = old(pm)@.table[id as int].heap;
        proof {
            assert(is_power_of_two(1)) by (bit_vector);
            assert(old(pm).table@[id as int].wf());
            assert(process_valid(old(pm)@.table[id as int], old(pm)@.heap_cursor));
            lemma_alloc_below(heap, ARGS_AREA_SIZE, 1, old(pm)@.heap_cursor as int);
        }
        let base = match pm.table[id].allocator.allocate(ARGS_AREA_SIZE, 1) {
            Some(base) => base,
            None => {
                proof {
                    pm.lemma_slot_changed(old(pm), id as int);
                    assert(pm@.table =~= old(pm)@.table);
                }
                return Err(ExecError::OutOfMemory);
            },
        };
        let n = args.len();
        let mut placed: Vec<LaunchArg> = Vec::new();
        let mut offset: usize = 0;
        let mut i: usize = 0;
        while i < n
            invariant
                n == args@.len(),
                i <= n,
                bs == byte_strings(args@),
                total == args_len_sum(bs),
                total <= ARGS_AREA_SIZE,
                base + ARGS_AREA_SIZE <= usize::MAX,
                offset == args_len_sum(bs.take(i as int)),
                offset <= total,
                placed@.len() == i,
                forall|j: int|
                    0 <= j < i ==> (#[trigger] placed@[j])@ == ((base + args_len_sum(
                        bs.take(j),
                    )) as u64, bs[j]),
            decreases n - i,
        {
            proof {
                lemma_args_len_sum_take(bs, i as int);
                lemma_args_len_sum_mono(bs, i + 1);
            }
            let data = slice_to_vec(args[i].as_slice());
            placed.push(LaunchArg { ptr: (base + offset) as u64, data });
            offset = offset + args[i].len();
            i = i + 1;
        }
        proof {
            assert(bs.take(n as int) =~= bs);
        }
        let end = base + total;
        let table = end + (ARG_REF_ALIGN - end % ARG_REF_ALIGN);
        let launch = Launch {
            id,
            stack_pointer: pm.table[id].stack_addr,
            cpu_flags: USER_FLAGS,
            instruction_pointer: pm.table[id].code_addr + pm.table[id].entry_point,
            args_ptr: table as u64,
            args_len: n,
            args: placed,
        };
        pm.pid = id;
        proof {
            assert(launch_args_view(launch.args@) =~= placed_args(base as int, bs));
            let v = old(pm)@;
            let w = after_exec(v, id);
            assert(pm@.table =~= w.table);
            assert forall|j: int| 0 <= j < pm@.table.len() implies process_valid(
                #[trigger] pm@.table[j],
                pm@.heap_cursor,
            ) by {
                assert(process_valid(v.table[j], v.heap_cursor));
            }
            assert forall|j: int| 0 <= j < pm.table@.len() implies (#[trigger] pm.table@[j]).wf() by {
                assert(old(pm).table@[j].wf());
            }
        }
        Ok(launch)
    }

    /// Creates a process from the image `bin` and starts it with `args`.
    /// Nothing changes if the image is refused, if no slot or region is left
    /// for the process, or if the arguments do not fit the argument area.
    pub fn spawn(pm: &mut ProcessManager, bin: &[u8], args: &Vec<Vec<u8>>) -> (r: Result<
        Spawned,
        ExitCode,
    >)
        requires
            old(pm).wf(),
        ensures
            final(pm).wf(),
            match r {
                Ok(s) => {
                    &&& create_error(old(pm)@, bin@) is None
                    &&& args_fit(byte_strings(args@))
                    &&& image_of(bin@) == Ok::<ImageView, ImageError>(s.created.image@)
                    &&& s.created.id == old(pm)@.next_id
                    &&& s.created.code_addr == old(pm)@.code_cursor
                    &&& s.created.heap_addr == old(pm)@.heap_cursor
                    &&& final(pm)@ == after_exec(
                        after_create(old(pm)@, s.created.image@),
                        s.created.id,
                    )
                    &&& s.launch.id == s.created.id
                    &&& s.launch.stack_pointer == s.created.code_addr + MAX_PROC_SIZE - 4096
                    &&& s.launch.cpu_flags == USER_FLAGS
                    &&& s.launch.instruction_pointer == s.created.code_addr
                        + s.created.image.entry_point
                    &&& launch_args_view(s.launch.args@) == placed_args(
                        s.created.heap_addr as int,
                        byte_strings(args@),
                    )
                    &&& s.launch.args_ptr == arg_table_addr(
                        s.created.heap_addr as int,
                        byte_strings(args@),
                    )
                    &&& s.launch.args_len == args@.len()
                },
                Err(e) => {
                    &&& e == ExitCode::ExecError
                    &&& create_error(old(pm)@, bin@) is Some || !args_fit(byte_strings(args@))
                    &&& final(pm)@ == old(pm)@
                },
            },
    {
        if args_total(args).is_none() {
            return Err(ExitCode::ExecError);
        }
        let created = match Process::create(pm, bin) {
            Ok(created) => created,
            Err(_) => {
                return Err(ExitCode::ExecError);
            },
        };
        proof {
            let heap = pm@.table[created.id as int].heap;
            assert(is_power_of_two(1)) by (bit_vector);
            assert(fits(heap[0], ARGS_AREA_SIZE, 1));
            assert(first_fit(heap, ARGS_AREA_SIZE, 1) == 0);
        }
        match Process::exec(pm, created.id, args) {
            Ok(launch) => Ok(Spawned { created, launch }),
            Err(_) => {
                proof {
                    assert(false);
                }
                Err(ExitCode::ExecError)
            },
        }
    }
}

/// The sum of the lengths of the first `i` arguments is at most the sum of
/// all.
proof fn lemma_args_len_sum_mono(args: Seq<Seq<u8>>, i: int)
    requires
        0 <= i <= args.len(),
    ensures
        0 <= args_len_sum(args.take(i)) <= args_len_sum(args),
    decreases args.len() - i,
{
    if i < args.len() {
        lemma_args_len_sum_take(args, i);
        lemma_args_len_sum_mono(args, i + 1);
    } else {
        assert(args.take(i) =~= args);
        if i > 0 {
            lemma_args_len_sum_take(args, i - 1);
        }
    }
}

/// The number of bytes in all arguments together, if the arguments fit the
/// argument area.
pub fn args_total(args: &Vec<Vec<u8>>) -> (r: Option<usize>)
    ensures
        r is Some <==> args_fit(byte_strings(args@)),
        r matches Some(total) ==> total == args_len_sum(byte_strings(args@)),
{
    let ghost bs = byte_strings(args@);
    let n = args.len();
    if n > (ARGS_AREA_SIZE - ARG_REF_ALIGN) / ARG_REF_SIZE {
        proof {
            lemma_args_len_sum_mono(bs, 0);
        }
        return None;
    }
    let budget = ARGS_AREA_SIZE - ARG_REF_ALIGN - ARG_REF_SIZE * n;
    let mut total: usize = 0;
    let mut i: usize = 0;
    while i < n
        invariant
            n == args@.len(),
            i <= n,
            bs == byte_strings(args@),
            budget == ARGS_AREA_SIZE - ARG_REF_ALIGN - ARG_REF_SIZE * n,
            budget <= ARGS_AREA_SIZE,
            total == args_len_sum(bs.take(i as int)),
            total <= budget,
        decreases n - i,
    {
        proof {
            lemma_args_len_sum_take(bs, i as int);
            lemma_args_len_sum_mono(bs, i + 1);
        }
        let len = args[i].len();
        if len > budget - total {
            return None;
        }
        total = total + len;
        i = i + 1;
    }
    proof {
        assert(bs.take(n as int) =~= bs);
    }
    Some(total)
}

/// The codes that a system call reports.
#[derive(Clone, Copy, Debug, PartialEq, Eq, Structural)]
pub enum ExitCode {
    Success,
    OpenError,
    ExecError,
}

/// A process that was created and started: what the caller maps and copies
/// for it, and what entering user mode takes.
pub struct Spawned {
    pub created: Created,
    pub launch: Launch,
}

/// An image that starts with neither magic is refused as badly formed,
/// whatever the state.
pub proof fn lemma_unknown_magic_refused(v: ManagerView, bin: Seq<u8>)
    requires
        crate::image::format_of(bin) is None,
    ensures
        create_error(v, bin) == Some(CreateError::BadFormat),
{
}

/// The state after a process was created from `image` in state `v` and
/// started.
pub open spec fn after_spawn(v: ManagerView, image: ImageView) -> ManagerView {
    after_exec(after_create(v, image), v.next_id)
}

/// Three processes spawned one after the other get strictly increasing ids,
/// each one more than the one before, and the parent of each is the process
/// that was current when it was created: the process current at the outset
/// for the first, and for each later one the process spawned before it.
pub proof fn lemma_spawn_ids_increase(
    v: ManagerView,
    first: ImageView,
    second: ImageView,
    third: ImageView,
)
    requires
        manager_valid(v),
        v.next_id + 2 < MAX_PROCS,
    ensures
        ({
            let id1 = v.next_id;
            let v1 = after_spawn(v, first);
            let id2 = v1.next_id;
            let v2 = after_spawn(v1, second);
            let id3 = v2.next_id;
            let v3 = after_spawn(v2, third);
            &&& id1 < id2 < id3
            &&& id2 == id1 + 1 && id3 == id2 + 1
            &&& v3.table[id1 as int].id == id1
            &&& v3.table[id2 as int].id == id2
            &&& v3.table[id3 as int].id == id3
            &&& v3.table[id1 as int].parent == v.current
            &&& v3.table[id2 as int].parent == v1.current == id1
            &&& v3.table[id3 as int].parent == v2.current == id2
            &&& v3.current == id3
        }),
{
}

/// A rebased address is an address: it fits 64 bits in every valid state.
pub proof fn lemma_rebased_fits(v: ManagerView, addr: u64)
    requires
        manager_valid(v),
    ensures
        addr <= rebased(v, addr) <= u64::MAX,
        addr < current_process(v).code_addr ==> rebased(v, addr) == current_process(v).code_addr
            + addr,
        addr >= current_process(v).code_addr ==> rebased(v, addr) == addr,
{
    assert(process_valid(v.table[v.current as int], v.heap_cursor));
}

/// The regions of two processes created one after the other do not overlap:
/// the second code region starts where the first ends, and so does the
/// second heap region.
pub proof fn lemma_regions_disjoint(v: ManagerView, first: ImageView, second: ImageView)
    requires
        manager_valid(v),
        can_place(v),
        can_place(after_create(v, first)),
    ensures
        created_process(after_create(v, first), second).code_addr == created_process(
            v,
            first,
        ).code_addr + MAX_PROC_SIZE,
        created_process(after_create(v, first), second).heap[0].start == created_process(
            v,
            first,
        ).heap[0].end(),
{
}

/// Arguments that fit the argument area stay inside it wherever the area
/// starts: each argument ends at or before the next begins, the table of
/// references begins behind the last argument at a multiple of
/// `ARG_REF_ALIGN`, and it ends inside the area.
pub proof fn lemma_args_in_area(base: int, args: Seq<Seq<u8>>)
    requires
        0 <= base,
        base + ARGS_AREA_SIZE <= u64::MAX,
        args_fit(args),
    ensures
        forall|i: int|
            0 <= i < args.len() ==> base <= (#[trigger] placed_args(base, args)[i]).0 && placed_args(
                base,
                args,
            )[i].0 + args[i].len() <= base + args_len_sum(args),
        forall|i: int|
            0 <= i < args.len() - 1 ==> (#[trigger] placed_args(base, args)[i]).0 + args[i].len()
                == placed_args(base, args)[i + 1].0,
        base + args_len_sum(args) < arg_table_addr(base, args),
        arg_table_addr(base, args) % (ARG_REF_ALIGN as int) == 0,
        arg_table_addr(base, args) + ARG_REF_SIZE * args.len() <= base + ARGS_AREA_SIZE,
{
    assert forall|i: int| 0 <= i < args.len() implies base <= (#[trigger] placed_args(base, args)[i]).0
        && placed_args(base, args)[i].0 + args[i].len() <= base + args_len_sum(args) by {
        lemma_args_len_sum_take(args, i);
        lemma_args_len_sum_mono(args, i + 1);
        lemma_args_len_sum_mono(args, 0);
    }
    assert forall|i: int| 0 <= i < args.len() - 1 implies (#[trigger] placed_args(base, args)[i]).0
        + args[i].len() == placed_args(base, args)[i + 1].0 by {
        lemma_args_len_sum_take(args, i);
        lemma_args_len_sum_mono(args, i + 1);
        lemma_args_len_sum_mono(args, 0);
    }
    lemma_args_len_sum_mono(args, 0);
}

} // verus!
