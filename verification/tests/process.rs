use syskrnl::allocator::linked_list::{FreeBlock, LinkedListAllocator};
use syskrnl::allocator::{init_heap, HEAP_SIZE, HEAP_START};
use syskrnl::image::MAX_PROC_SIZE;
use syskrnl::paging::PageRange;
use syskrnl::proc;
use syskrnl::region::{RegionCursor, USER_ADDR_LIMIT};
use syskrnl::proc::{
    allocator_grow, args_total, code_addr, dir, envs, exit, heap_allocate, heap_allocator,
    heap_release, id, init_process_addr, no_schedule, ptr_from_addr, registers, set_code_addr,
    set_dir, set_env, set_id, set_no_schedule, set_registers, set_stack_frame, set_user,
    stack_frame, user, classify_addr, CreateError, ExecError, ExitCode, Process, ProcessData, ProcessManager,
    Registers, StackFrame, UserAddress, ARGS_AREA_SIZE, DEFAULT_HEAP_SIZE, MAX_PROCS, PROC_HEAP_START,
    USER_FLAGS,
};

const FLAT: [u8; 8] = [0x7f, b'B', b'I', b'N', 0x90, 0x90, 0x90, 0xc3];

const CODE_BASE: u64 = 0x1_0280_0000;

fn booted() -> ProcessManager {
    let mut pm = ProcessManager::new();
    init_process_addr(&mut pm, CODE_BASE);
    pm
}

fn args(list: &[&str]) -> Vec<Vec<u8>> {
    list.iter().map(|s| s.as_bytes().to_vec()).collect()
}

fn regs(seed: usize) -> Registers {
    Registers {
        r11: seed,
        r10: seed + 1,
        r9: seed + 2,
        r8: seed + 3,
        rdi: seed + 4,
        rsi: seed + 5,
        rdx: seed + 6,
        rcx: seed + 7,
        rax: seed + 8,
    }
}

#[test]
fn process_data_starts_with_empty_environment() {
    let data = ProcessData::new("/home", Some("root"));
    assert_eq!(data.env("PATH"), None);
    assert!(data.envs().is_empty());
}

#[test]
fn process_data_binds_and_rebinds_variables() {
    let mut data = ProcessData::new("/", None);
    data.set_env("PATH", "/bin");
    data.set_env("HOME", "/root");
    assert_eq!(data.env("PATH"), Some("/bin".to_string()));
    assert_eq!(data.env("HOME"), Some("/root".to_string()));
    assert_eq!(data.env("SHELL"), None);
    data.set_env("PATH", "/usr/bin");
    assert_eq!(data.env("PATH"), Some("/usr/bin".to_string()));
    assert_eq!(data.env("HOME"), Some("/root".to_string()));
    let mut all = data.envs();
    all.sort();
    assert_eq!(
        all,
        vec![
            ("HOME".to_string(), "/root".to_string()),
            ("PATH".to_string(), "/usr/bin".to_string())
        ]
    );
}

#[test]
fn process_data_clone_shares_nothing() {
    let mut data = ProcessData::new("/", None);
    data.set_env("A", "1");
    let mut copy = data.clone();
    copy.set_env("A", "2");
    copy.set_env("B", "3");
    copy.set_dir("/tmp");
    assert_eq!(data.env("A"), Some("1".to_string()));
    assert_eq!(data.env("B"), None);
    assert_eq!(copy.env("A"), Some("2".to_string()));
}

#[test]
fn blank_process_is_all_zero() {
    let p = Process::new(3);
    assert_eq!(p.id(), 3);
    assert_eq!(p.parent(), 0);
    assert_eq!(p.code_addr(), 0);
    assert_eq!(p.stack_addr(), 0);
    assert_eq!(p.entry_point(), 0);
    assert_eq!(p.registers(), Registers::default());
    assert_eq!(
        p.stack_frame(),
        StackFrame {
            instruction_pointer: 0,
            code_segment: 0,
            cpu_flags: 0,
            stack_pointer: 0,
            stack_segment: 0
        }
    );
    assert_eq!(p.data().env("PATH"), None);
    assert!(p.allocator().free_blocks().is_empty());
}

#[test]
fn registers_default_is_zero() {
    let zero =
        Registers { r11: 0, r10: 0, r9: 0, r8: 0, rdi: 0, rsi: 0, rdx: 0, rcx: 0, rax: 0 };
    assert_eq!(Registers::default(), zero);
}

#[test]
fn manager_at_boot() {
    let pm = ProcessManager::new();
    assert_eq!(id(&pm), 0);
    assert_eq!(pm.next_id(), 1);
    assert_eq!(pm.code_cursor(), 0);
    assert_eq!(pm.heap_cursor(), PROC_HEAP_START);
    assert_eq!(pm.heap_cursor(), 0x2_0000_0000);
    assert!(!no_schedule(&pm));
    assert_eq!(MAX_PROCS, 4);
    for slot in 0..MAX_PROCS {
        let p = pm.process(slot).unwrap();
        assert_eq!(p.id(), 0);
        assert_eq!(p.parent(), 0);
        assert_eq!(p.code_addr(), 0);
    }
    assert!(pm.process(MAX_PROCS).is_none());
    assert_eq!(dir(&pm), "/");
    assert_eq!(user(&pm), None);
    assert_eq!(proc::env(&pm, "PATH"), None);
    assert!(envs(&pm).is_empty());
    assert_eq!(code_addr(&pm), 0);
    assert_eq!(registers(&pm), Registers::default());
}

#[test]
fn current_id_can_be_set() {
    let mut pm = ProcessManager::new();
    set_id(&mut pm, 3);
    assert_eq!(id(&pm), 3);
    set_id(&mut pm, 0);
    assert_eq!(id(&pm), 0);
}

#[test]
fn setters_change_the_current_process_only() {
    let mut pm = ProcessManager::new();
    set_id(&mut pm, 2);
    set_env(&mut pm, "PATH", "/bin");
    set_dir(&mut pm, "/home/user");
    set_user(&mut pm, "alice");
    set_code_addr(&mut pm, 0x40_0000);
    set_registers(&mut pm, regs(10));
    let frame = StackFrame {
        instruction_pointer: 1,
        code_segment: 2,
        cpu_flags: 3,
        stack_pointer: 4,
        stack_segment: 5,
    };
    set_stack_frame(&mut pm, frame);
    assert_eq!(proc::env(&pm, "PATH"), Some("/bin".to_string()));
    assert_eq!(envs(&pm), vec![("PATH".to_string(), "/bin".to_string())]);
    assert_eq!(dir(&pm), "/home/user");
    assert_eq!(user(&pm), Some("alice".to_string()));
    assert_eq!(code_addr(&pm), 0x40_0000);
    assert_eq!(registers(&pm), regs(10));
    assert_eq!(stack_frame(&pm), frame);
    set_id(&mut pm, 1);
    assert_eq!(proc::env(&pm, "PATH"), None);
    assert_eq!(dir(&pm), "/");
    assert_eq!(user(&pm), None);
    assert_eq!(code_addr(&pm), 0);
    assert_eq!(registers(&pm), Registers::default());
}

#[test]
fn address_below_code_base_is_an_offset() {
    let mut pm = ProcessManager::new();
    set_code_addr(&mut pm, 0x1_0000);
    assert_eq!(ptr_from_addr(&pm, 0), 0x1_0000);
    assert_eq!(ptr_from_addr(&pm, 0x10), 0x1_0010);
    assert_eq!(ptr_from_addr(&pm, 0xffff), 0x1_ffff);
}

#[test]
fn address_at_or_above_code_base_is_absolute() {
    let mut pm = ProcessManager::new();
    set_code_addr(&mut pm, 0x1_0000);
    assert_eq!(ptr_from_addr(&pm, 0x1_0000), 0x1_0000);
    assert_eq!(ptr_from_addr(&pm, 0x1_0001), 0x1_0001);
    assert_eq!(ptr_from_addr(&pm, u64::MAX), u64::MAX);
}

#[test]
fn address_with_code_base_zero_is_always_absolute() {
    let pm = ProcessManager::new();
    assert_eq!(ptr_from_addr(&pm, 0), 0);
    assert_eq!(ptr_from_addr(&pm, 0x1234), 0x1234);
}

#[test]
fn rebasing_at_the_largest_code_base_does_not_wrap() {
    let mut pm = ProcessManager::new();
    set_code_addr(&mut pm, USER_ADDR_LIMIT);
    assert_eq!(ptr_from_addr(&pm, USER_ADDR_LIMIT - 1), 2 * USER_ADDR_LIMIT - 1);
    assert_eq!(ptr_from_addr(&pm, USER_ADDR_LIMIT), USER_ADDR_LIMIT);
}

#[test]
fn create_registers_process_under_next_id() {
    let mut pm = booted();
    set_env(&mut pm, "PATH", "/bin");
    set_dir(&mut pm, "/srv");
    set_user(&mut pm, "bob");
    set_registers(&mut pm, regs(1));
    let created = Process::create(&mut pm, &FLAT).ok().unwrap();
    assert_eq!(created.id, 1);
    assert_eq!(created.code_addr, CODE_BASE);
    assert_eq!(created.heap_addr, 0x2_0000_0000);
    assert_eq!(created.image.entry_point, 0);
    assert_eq!(created.image.segments.len(), 1);
    assert_eq!(created.image.segments[0].data, FLAT.to_vec());
    assert_eq!(id(&pm), 0);
    assert_eq!(pm.next_id(), 2);
    assert_eq!(pm.code_cursor(), CODE_BASE + MAX_PROC_SIZE as u64);
    assert_eq!(pm.heap_cursor(), PROC_HEAP_START + DEFAULT_HEAP_SIZE as u64);
    let p = pm.process(1).unwrap();
    assert_eq!(p.id(), 1);
    assert_eq!(p.parent(), 0);
    assert_eq!(p.code_addr(), CODE_BASE);
    assert_eq!(p.stack_addr(), CODE_BASE + MAX_PROC_SIZE as u64 - 4096);
    assert_eq!(p.entry_point(), 0);
    assert_eq!(p.registers(), regs(1));
    assert_eq!(p.data().env("PATH"), Some("/bin".to_string()));
    assert_eq!(
        p.allocator().free_blocks(),
        vec![FreeBlock { start: 0x2_0000_0000, size: DEFAULT_HEAP_SIZE }]
    );
    set_id(&mut pm, 1);
    assert_eq!(dir(&pm), "/srv");
    assert_eq!(user(&pm), Some("bob".to_string()));
}

#[test]
fn created_process_does_not_share_data_with_its_parent() {
    let mut pm = booted();
    set_env(&mut pm, "A", "1");
    Process::create(&mut pm, &FLAT).ok().unwrap();
    set_env(&mut pm, "A", "2");
    set_dir(&mut pm, "/changed");
    set_id(&mut pm, 1);
    assert_eq!(proc::env(&pm, "A"), Some("1".to_string()));
    assert_eq!(dir(&pm), "/");
    set_env(&mut pm, "B", "3");
    set_id(&mut pm, 0);
    assert_eq!(proc::env(&pm, "B"), None);
    assert_eq!(proc::env(&pm, "A"), Some("2".to_string()));
}

#[test]
fn create_rejects_unknown_magic_and_changes_nothing() {
    let mut pm = booted();
    let r = Process::create(&mut pm, b"\x7fXYZ and more");
    assert_eq!(r.err(), Some(CreateError::BadFormat));
    assert_eq!(pm.next_id(), 1);
    assert_eq!(pm.code_cursor(), CODE_BASE);
    assert_eq!(pm.heap_cursor(), PROC_HEAP_START);
    assert_eq!(id(&pm), 0);
    let slot = pm.process(1).unwrap();
    assert_eq!(slot.code_addr(), 0);
    assert_eq!(slot.id(), 0);
    assert!(slot.allocator().free_blocks().is_empty());
    let r = Process::create(&mut pm, &[0x7f, b'B']);
    assert_eq!(r.err(), Some(CreateError::BadFormat));
    let r = Process::create(&mut pm, &[]);
    assert_eq!(r.err(), Some(CreateError::BadFormat));
    assert_eq!(pm.next_id(), 1);
    let ok = Process::create(&mut pm, &FLAT).ok().unwrap();
    assert_eq!(ok.id, 1);
    assert_eq!(ok.code_addr, CODE_BASE);
}

#[test]
fn create_rejects_broken_elf() {
    let mut pm = booted();
    let r = Process::create(&mut pm, &[0x7f, b'E', b'L', b'F', 0, 0, 0, 0]);
    assert_eq!(r.err(), Some(CreateError::BadFormat));
    assert_eq!(pm.next_id(), 1);
    assert_eq!(pm.code_cursor(), CODE_BASE);
}

#[test]
fn create_rejects_image_larger_than_region() {
    let mut pm = booted();
    let mut bin = vec![0u8; MAX_PROC_SIZE + 1];
    bin[..4].copy_from_slice(&[0x7f, b'B', b'I', b'N']);
    let r = Process::create(&mut pm, &bin);
    assert_eq!(r.err(), Some(CreateError::OutOfBounds));
    assert_eq!(pm.next_id(), 1);
}

#[test]
fn create_fails_when_table_is_full() {
    let mut pm = booted();
    for expected in 1..MAX_PROCS {
        let c = Process::create(&mut pm, &FLAT).ok().unwrap();
        assert_eq!(c.id, expected);
    }
    let cursor = pm.code_cursor();
    let r = Process::create(&mut pm, &FLAT);
    assert_eq!(r.err(), Some(CreateError::TableFull));
    assert_eq!(pm.next_id(), MAX_PROCS);
    assert_eq!(pm.code_cursor(), cursor);
}

#[test]
fn create_fails_when_no_code_region_is_left() {
    let mut pm = ProcessManager::new();
    init_process_addr(&mut pm, USER_ADDR_LIMIT - MAX_PROC_SIZE as u64 + 1);
    let r = Process::create(&mut pm, &FLAT);
    assert_eq!(r.err(), Some(CreateError::AddressSpaceExhausted));
    assert_eq!(pm.next_id(), 1);
    init_process_addr(&mut pm, USER_ADDR_LIMIT - MAX_PROC_SIZE as u64);
    let c = Process::create(&mut pm, &FLAT).ok().unwrap();
    assert_eq!(c.code_addr, USER_ADDR_LIMIT - MAX_PROC_SIZE as u64);
    assert_eq!(pm.code_cursor(), USER_ADDR_LIMIT);
}

#[test]
fn code_regions_of_processes_do_not_overlap() {
    let mut pm = booted();
    let a = Process::create(&mut pm, &FLAT).ok().unwrap();
    let b = Process::create(&mut pm, &FLAT).ok().unwrap();
    let c = Process::create(&mut pm, &FLAT).ok().unwrap();
    assert_eq!(b.code_addr, a.code_addr + MAX_PROC_SIZE as u64);
    assert_eq!(c.code_addr, b.code_addr + MAX_PROC_SIZE as u64);
    assert_eq!(b.heap_addr, a.heap_addr + DEFAULT_HEAP_SIZE);
    assert_eq!(c.heap_addr, b.heap_addr + DEFAULT_HEAP_SIZE);
}

#[test]
fn exec_places_arguments_and_table() {
    let mut pm = booted();
    let created = Process::create(&mut pm, &FLAT).ok().unwrap();
    let base = created.heap_addr as u64;
    let launch = Process::exec(&mut pm, created.id, &args(&["ab", "cde", ""])).ok().unwrap();
    assert_eq!(launch.id, 1);
    assert_eq!(launch.stack_pointer, CODE_BASE + MAX_PROC_SIZE as u64 - 4096);
    assert_eq!(launch.instruction_pointer, CODE_BASE);
    assert_eq!(launch.cpu_flags, 0x200);
    assert_eq!(launch.cpu_flags, USER_FLAGS);
    assert_eq!(launch.args_len, 3);
    let placed: Vec<(u64, Vec<u8>)> =
        launch.args.iter().map(|a| (a.ptr, a.data.clone())).collect();
    assert_eq!(
        placed,
        vec![(base, b"ab".to_vec()), (base + 2, b"cde".to_vec()), (base + 5, Vec::new())]
    );
    assert_eq!(launch.args_ptr, base + 8);
    assert_eq!(id(&pm), 1);
    assert_eq!(
        heap_allocator(&pm).free_blocks(),
        vec![FreeBlock {
            start: created.heap_addr + ARGS_AREA_SIZE,
            size: DEFAULT_HEAP_SIZE - ARGS_AREA_SIZE
        }]
    );
}

#[test]
fn exec_moves_table_up_even_when_aligned() {
    let mut pm = booted();
    let created = Process::create(&mut pm, &FLAT).ok().unwrap();
    let base = created.heap_addr as u64;
    let launch = Process::exec(&mut pm, created.id, &args(&["12345678"])).ok().unwrap();
    assert_eq!(launch.args[0].ptr, base);
    assert_eq!(launch.args_ptr, base + 16);
    let mut pm = booted();
    let created = Process::create(&mut pm, &FLAT).ok().unwrap();
    let launch = Process::exec(&mut pm, created.id, &Vec::new()).ok().unwrap();
    assert_eq!(launch.args_len, 0);
    assert!(launch.args.is_empty());
    assert_eq!(launch.args_ptr, created.heap_addr as u64 + 8);
}

#[test]
fn exec_rejects_unknown_process() {
    let mut pm = booted();
    let r = Process::exec(&mut pm, MAX_PROCS, &Vec::new());
    assert_eq!(r.err(), Some(ExecError::NoSuchProcess));
    assert_eq!(id(&pm), 0);
}

#[test]
fn exec_rejects_arguments_that_do_not_fit() {
    let mut pm = booted();
    let created = Process::create(&mut pm, &FLAT).ok().unwrap();
    let big = vec![vec![b'x'; ARGS_AREA_SIZE - 8 - 16 + 1]];
    let r = Process::exec(&mut pm, created.id, &big);
    assert_eq!(r.err(), Some(ExecError::ArgsTooLarge));
    assert_eq!(id(&pm), 0);
    assert_eq!(pm.process(1).unwrap().allocator().free_space(), DEFAULT_HEAP_SIZE);
    let fits = vec![vec![b'x'; ARGS_AREA_SIZE - 8 - 16]];
    let launch = Process::exec(&mut pm, created.id, &fits).ok().unwrap();
    assert_eq!(launch.args_ptr, created.heap_addr as u64 + 1000 + 8);
}

#[test]
fn exec_without_heap_is_out_of_memory() {
    let mut pm = booted();
    let r = Process::exec(&mut pm, 2, &args(&["a"]));
    assert_eq!(r.err(), Some(ExecError::OutOfMemory));
    assert_eq!(id(&pm), 0);
}

#[test]
fn args_total_counts_bytes_when_they_fit() {
    assert_eq!(args_total(&Vec::new()), Some(0));
    assert_eq!(args_total(&args(&["ab", "cde"])), Some(5));
    assert_eq!(args_total(&vec![vec![0u8; 1000]]), Some(1000));
    assert_eq!(args_total(&vec![vec![0u8; 1001]]), None);
    assert_eq!(args_total(&vec![Vec::new(); 63]), Some(0));
    assert_eq!(args_total(&vec![Vec::new(); 64]), None);
    assert_eq!(args_total(&vec![vec![1u8]; 60]), None);
    assert_eq!(args_total(&vec![vec![1u8]; 59]), Some(59));
}

#[test]
fn spawning_three_processes_gives_increasing_ids() {
    let mut pm = booted();
    let mut ids = Vec::new();
    let mut parents = Vec::new();
    for _ in 0..3 {
        let current = id(&pm);
        let s = Process::spawn(&mut pm, &FLAT, &args(&["prog"])).ok().unwrap();
        assert_eq!(s.launch.id, s.created.id);
        assert_eq!(id(&pm), s.created.id);
        assert_eq!(pm.process(s.created.id).unwrap().parent(), current);
        ids.push(s.created.id);
        parents.push(pm.process(s.created.id).unwrap().parent());
    }
    assert_eq!(ids, vec![1, 2, 3]);
    assert!(ids[0] < ids[1] && ids[1] < ids[2]);
    assert_eq!(parents, vec![0, 1, 2]);
}

#[test]
fn spawn_reports_exec_error_and_changes_nothing() {
    let mut pm = booted();
    let r = Process::spawn(&mut pm, b"nothing", &Vec::new());
    assert_eq!(r.err(), Some(ExitCode::ExecError));
    assert_eq!(pm.next_id(), 1);
    assert_eq!(id(&pm), 0);
    let r = Process::spawn(&mut pm, &FLAT, &vec![vec![0u8; 2000]]);
    assert_eq!(r.err(), Some(ExitCode::ExecError));
    assert_eq!(pm.next_id(), 1);
    assert_eq!(pm.code_cursor(), CODE_BASE);
    assert_eq!(id(&pm), 0);
}

#[test]
fn spawn_launches_at_entry_of_image() {
    let mut pm = booted();
    let s = Process::spawn(&mut pm, &FLAT, &args(&["a", "b"])).ok().unwrap();
    assert_eq!(s.created.id, 1);
    assert_eq!(s.launch.instruction_pointer, s.created.code_addr + s.created.image.entry_point);
    assert_eq!(s.launch.stack_pointer, s.created.code_addr + MAX_PROC_SIZE as u64 - 4096);
    assert_eq!(s.launch.args_len, 2);
    assert_eq!(s.launch.args[1].ptr, s.created.heap_addr as u64 + 1);
    assert_eq!(s.launch.args_ptr, s.created.heap_addr as u64 + 8);
}

#[test]
fn exit_returns_to_parent_and_names_code_region() {
    let mut pm = booted();
    let s = Process::spawn(&mut pm, &FLAT, &Vec::new()).ok().unwrap();
    assert_eq!(id(&pm), 1);
    assert_eq!(pm.next_id(), 2);
    let region = exit(&mut pm);
    assert_eq!(region, (s.created.code_addr, MAX_PROC_SIZE));
    assert_eq!(id(&pm), 0);
    assert_eq!(pm.next_id(), 1);
    assert_eq!(pm.process(1).unwrap().code_addr(), s.created.code_addr);
    assert_eq!(pm.code_cursor(), CODE_BASE + MAX_PROC_SIZE as u64);
}

#[test]
fn exit_counter_wraps_below_zero() {
    let mut pm = ProcessManager::new();
    assert_eq!(pm.next_id(), 1);
    exit(&mut pm);
    assert_eq!(pm.next_id(), 0);
    exit(&mut pm);
    assert_eq!(pm.next_id(), usize::MAX);
    assert_eq!(id(&pm), 0);
    let r = Process::create(&mut pm, &FLAT);
    assert_eq!(r.err(), Some(CreateError::TableFull));
}

#[test]
fn id_is_reused_after_exit() {
    let mut pm = booted();
    let first = Process::spawn(&mut pm, &FLAT, &Vec::new()).ok().unwrap();
    exit(&mut pm);
    let second = Process::spawn(&mut pm, &FLAT, &Vec::new()).ok().unwrap();
    assert_eq!(second.created.id, first.created.id);
    assert_eq!(second.created.code_addr, first.created.code_addr + MAX_PROC_SIZE as u64);
}

#[test]
fn allocator_grow_extends_heap_of_current_process() {
    let mut pm = booted();
    Process::spawn(&mut pm, &FLAT, &Vec::new()).ok().unwrap();
    let free = heap_allocator(&pm).free_space();
    let cursor = pm.heap_cursor();
    let addr = allocator_grow(&mut pm, 0x3000);
    assert_eq!(addr, Some(cursor as usize));
    assert_eq!(pm.heap_cursor(), cursor + 0x3000);
    assert_eq!(heap_allocator(&pm).free_space(), free + 0x3000);
    assert_eq!(
        heap_allocator(&pm).free_blocks(),
        vec![FreeBlock {
            start: 0x2_0000_0000 + ARGS_AREA_SIZE,
            size: DEFAULT_HEAP_SIZE - ARGS_AREA_SIZE + 0x3000
        }]
    );
}

#[test]
fn allocator_grow_fails_at_end_of_user_space() {
    let mut pm = ProcessManager::new();
    let room = (USER_ADDR_LIMIT - PROC_HEAP_START) as usize;
    assert_eq!(allocator_grow(&mut pm, room + 1), None);
    assert_eq!(pm.heap_cursor(), PROC_HEAP_START);
    assert_eq!(heap_allocator(&pm).free_space(), 0);
    assert_eq!(allocator_grow(&mut pm, room), Some(PROC_HEAP_START as usize));
    assert_eq!(pm.heap_cursor(), USER_ADDR_LIMIT);
    assert_eq!(allocator_grow(&mut pm, 1), None);
    assert_eq!(allocator_grow(&mut pm, 0), Some(USER_ADDR_LIMIT as usize));
}

#[test]
fn heap_allocate_and_release_of_current_process() {
    let mut pm = booted();
    let s = Process::spawn(&mut pm, &FLAT, &Vec::new()).ok().unwrap();
    let base = s.created.heap_addr;
    let free = heap_allocator(&pm).free_space();
    let a = heap_allocate(&mut pm, 100, 64).unwrap();
    assert_eq!(a, base + ARGS_AREA_SIZE);
    assert_eq!(heap_allocator(&pm).free_space(), free - 100);
    heap_release(&mut pm, a, 100);
    assert_eq!(heap_allocator(&pm).free_space(), free);
    heap_release(&mut pm, a, 100);
    assert_eq!(heap_allocator(&pm).free_space(), free);
    let cursor = pm.heap_cursor() as usize;
    heap_release(&mut pm, cursor, 16);
    assert_eq!(heap_allocator(&pm).free_space(), free);
    assert_eq!(heap_allocate(&mut pm, DEFAULT_HEAP_SIZE, 1), None);
}

#[test]
fn schedule_flag_is_kept() {
    let mut pm = ProcessManager::new();
    set_no_schedule(&mut pm, true);
    assert!(no_schedule(&pm));
    set_no_schedule(&mut pm, false);
    assert!(!no_schedule(&pm));
}

#[test]
fn init_heap_sets_up_kernel_heap() {
    let mut pm = ProcessManager::new();
    let mut heap = LinkedListAllocator::new();
    let pages = init_heap(&mut pm, &mut heap).unwrap();
    assert_eq!(pm.code_cursor(), HEAP_START + HEAP_SIZE as u64);
    assert_eq!(pm.code_cursor(), CODE_BASE);
    assert_eq!(heap.free_blocks(), vec![FreeBlock { start: HEAP_START as usize, size: HEAP_SIZE }]);
    assert_eq!(heap.free_space(), 40 * 1024 * 1024);
    assert_eq!(
        pages,
        PageRange { first: HEAP_START, last: HEAP_START + HEAP_SIZE as u64 - 4096 }
    );
}

#[test]
fn address_is_classified_by_the_code_base() {
    let mut pm = ProcessManager::new();
    set_code_addr(&mut pm, 0x1_0000);
    assert_eq!(classify_addr(&pm, 0), UserAddress::Offset(0));
    assert_eq!(classify_addr(&pm, 0xffff), UserAddress::Offset(0xffff));
    assert_eq!(classify_addr(&pm, 0x1_0000), UserAddress::Absolute(0x1_0000));
    assert_eq!(classify_addr(&pm, u64::MAX), UserAddress::Absolute(u64::MAX));
    set_code_addr(&mut pm, 0);
    assert_eq!(classify_addr(&pm, 0), UserAddress::Absolute(0));
}

#[test]
fn region_cursor_carves_regions_one_behind_the_other() {
    let mut cursor = RegionCursor::new(0x1000);
    assert_eq!(cursor.next(), 0x1000);
    assert_eq!(cursor.carve(0x300), Some(0x1000));
    assert_eq!(cursor.carve(0), Some(0x1300));
    assert_eq!(cursor.carve(0x100), Some(0x1300));
    assert_eq!(cursor.next(), 0x1400);
}

#[test]
fn region_cursor_stops_at_the_end_of_user_space() {
    let mut cursor = RegionCursor::new(USER_ADDR_LIMIT - 0x1000);
    assert!(cursor.can_carve(0x1000));
    assert!(!cursor.can_carve(0x1001));
    assert_eq!(cursor.carve(0x1001), None);
    assert_eq!(cursor.next(), USER_ADDR_LIMIT - 0x1000);
    assert_eq!(cursor.carve(0x1000), Some(USER_ADDR_LIMIT - 0x1000));
    assert_eq!(cursor.next(), USER_ADDR_LIMIT);
    assert_eq!(cursor.carve(1), None);
    assert_eq!(cursor.carve(0), Some(USER_ADDR_LIMIT));
    let mut beyond = RegionCursor::new(USER_ADDR_LIMIT + 1);
    assert!(!beyond.can_carve(0));
    assert_eq!(beyond.carve(0), None);
    assert_eq!(beyond.carve(usize::MAX), None);
}
