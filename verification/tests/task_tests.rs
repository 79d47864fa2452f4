//! Tests of the task lifecycle, the process tree, the reaping protocol and
//! the per-core scheduler decisions.

use maturin_core::constants::{NO_PARENT, USER_STACK_OFFSET};
use maturin_core::flags::PTEFlags;
use maturin_core::frame::FrameAllocator;
use maturin_core::sched::{
    dispatch_next, exit_current_task, get_current_task, handle_user_page_fault,
    on_task_switched_out, suspend_current_task, CpuLocal, ReadyQueue, SwitchOutcome,
};
use maturin_core::task::{
    LoadedImage, TaskControlBlock, TaskStatus, TaskTable, TrapContext, INIT_HANDLE,
};

fn make_allocator() -> FrameAllocator {
    FrameAllocator::new(16, 4096)
}

fn image() -> Option<LoadedImage> {
    Some(LoadedImage { entry: 0x1000, user_stack: 0x3ff0_0000 })
}

fn spawn(table: &mut TaskTable, ppid: usize) -> usize {
    let tcb = TaskControlBlock::from_app_name(
        String::from("."),
        ppid,
        vec![String::from("init")],
        image(),
        0,
    )
    .unwrap();
    table.insert_task(tcb)
}

fn rw_flags() -> PTEFlags {
    PTEFlags {
        valid: false,
        read: true,
        write: true,
        execute: false,
        user: true,
        accessed: false,
        dirty: false,
    }
}

#[test]
fn from_app_name_needs_a_program_name_and_an_image() {
    assert!(TaskControlBlock::from_app_name(String::from("."), 0, vec![], image(), 0).is_none());
    assert!(TaskControlBlock::from_app_name(
        String::from("."),
        0,
        vec![String::from("sh")],
        None,
        0
    )
    .is_none());
    let t = TaskControlBlock::from_app_name(
        String::from("."),
        NO_PARENT,
        vec![String::from("sh")],
        image(),
        7,
    )
    .unwrap();
    assert_eq!(t.get_status(), TaskStatus::Ready);
    assert_eq!(t.get_start_tick(), 7);
    assert_eq!(t.get_user_heap_top(), USER_STACK_OFFSET);
    assert_eq!(t.get_ppid(), 1);
    assert_eq!(t.get_task_cx(), TrapContext { sepc: 0x1000, sp: 0x3ff0_0000, a0: 0, a1: 0 });
}

#[test]
fn fork_gives_the_child_a_zero_return_value_and_links_the_tree() {
    let mut a = make_allocator();
    let mut table = TaskTable::new(false);
    let init = spawn(&mut table, NO_PARENT);
    assert_eq!(init, INIT_HANDLE);
    let child = table.from_fork(init, None, 3, &mut a).unwrap();
    assert_eq!(child, 1);
    let c = table.tasks[child].as_ref().unwrap();
    assert_eq!(c.get_pid_num(), 1);
    assert_eq!(c.get_ppid(), init);
    assert_eq!(c.get_task_cx().a0, 0);
    assert_eq!(c.get_task_cx().sepc, 0x1000);
    assert_eq!(table.tasks[init].as_ref().unwrap().children, vec![child]);
    // a fork onto a chosen user stack
    let second = table.from_fork(init, Some(0x3fd0_0000), 4, &mut a).unwrap();
    assert_eq!(table.tasks[second].as_ref().unwrap().get_task_cx().sp, 0x3fd0_0000);
}

#[test]
fn fork_copies_the_address_space_eagerly() {
    let mut a = make_allocator();
    let mut table = TaskTable::new(false);
    let init = spawn(&mut table, NO_PARENT);
    let data = [42u8; 8];
    table.tasks[init]
        .as_mut()
        .unwrap()
        .mmap(0x10_0000, 0x10_1000, rw_flags(), &data, &mut a)
        .unwrap();
    let child = table.from_fork(init, None, 0, &mut a).unwrap();
    assert_eq!(
        table.tasks[child].as_ref().unwrap().vm.area_count(),
        table.tasks[init].as_ref().unwrap().vm.area_count()
    );
}

#[test]
fn mmap_too_small_for_its_data_fails_without_mutation() {
    let mut a = make_allocator();
    let mut table = TaskTable::new(false);
    let h = spawn(&mut table, NO_PARENT);
    let t = table.tasks[h].as_mut().unwrap();
    let data = [1u8; 64];
    let before = t.vm.area_count();
    assert_eq!(t.mmap(0x10_0000, 0x10_0020, rw_flags(), &data, &mut a), None);
    assert_eq!(t.vm.area_count(), before);
    // a fitting request succeeds at the aligned base
    assert_eq!(t.mmap(0x10_0000, 0x10_1000, rw_flags(), &data, &mut a), Some(0x10_0000));
    assert!(t.munmap(0x10_0000, 0x10_1000));
}

#[test]
fn exec_resets_heap_and_context() {
    let mut table = TaskTable::new(false);
    let h = spawn(&mut table, NO_PARENT);
    let t = table.tasks[h].as_mut().unwrap();
    t.set_user_heap_top(USER_STACK_OFFSET + 0x100);
    assert!(!t.exec(vec![], None));
    let new_image = Some(LoadedImage { entry: 0x9000, user_stack: 0x3fc0_0000 });
    assert!(t.exec(vec![], new_image));
    assert_eq!(t.get_user_heap_top(), USER_STACK_OFFSET);
    // with no arguments the program name stands in as the only argument
    assert_eq!(t.get_task_cx(), TrapContext { sepc: 0x9000, sp: 0x3fc0_0000, a0: 1, a1: 0 });
}

#[test]
fn heap_top_moves_only_inside_the_heap_region() {
    let mut table = TaskTable::new(false);
    let h = spawn(&mut table, NO_PARENT);
    let t = table.tasks[h].as_mut().unwrap();
    assert_eq!(t.set_user_heap_top(USER_STACK_OFFSET - 1), USER_STACK_OFFSET);
    assert_eq!(t.set_user_heap_top(0x4100_0000), USER_STACK_OFFSET);
    assert_eq!(t.set_user_heap_top(USER_STACK_OFFSET + 0x40), USER_STACK_OFFSET + 0x40);
    assert_eq!(t.get_user_heap_top(), USER_STACK_OFFSET + 0x40);
}

#[test]
fn exit_code_is_visible_only_once_a_zombie() {
    let mut table = TaskTable::new(false);
    let h = spawn(&mut table, NO_PARENT);
    let t = table.tasks[h].as_mut().unwrap();
    t.set_exit_code(42);
    assert_eq!(t.get_code_if_exit(), None);
    t.set_status(TaskStatus::Zombie);
    assert_eq!(t.get_code_if_exit(), Some(42));
}

#[test]
fn exiting_parent_hands_children_to_init() {
    // task A has children B and C; A exits; B and C end up with init
    let mut a = make_allocator();
    let mut table = TaskTable::new(false);
    let init = spawn(&mut table, NO_PARENT);
    let task_a = table.from_fork(init, None, 0, &mut a).unwrap();
    let task_b = table.from_fork(task_a, None, 0, &mut a).unwrap();
    let task_c = table.from_fork(task_a, None, 0, &mut a).unwrap();
    table.tasks[task_a].as_mut().unwrap().set_status(TaskStatus::Dying);
    table.tasks[task_a].as_mut().unwrap().set_exit_code(5);
    table.handle_zombie_task(task_a);
    assert_eq!(table.tasks[task_b].as_ref().unwrap().parent, Some(INIT_HANDLE));
    assert_eq!(table.tasks[task_c].as_ref().unwrap().parent, Some(INIT_HANDLE));
    assert_eq!(table.tasks[task_b].as_ref().unwrap().get_ppid(), INIT_HANDLE);
    let init_children = &table.tasks[init].as_ref().unwrap().children;
    assert!(init_children.contains(&task_a));
    assert!(init_children.contains(&task_b));
    assert!(init_children.contains(&task_c));
    assert_eq!(init_children.len(), 3);
    assert_eq!(table.tasks[task_a].as_ref().unwrap().children.len(), 0);
    assert_eq!(table.tasks[task_a].as_ref().unwrap().get_status(), TaskStatus::Zombie);
    assert!(!table.tasks[task_a].as_ref().unwrap().signal_registered);
    assert_eq!(table.tasks[task_a].as_ref().unwrap().get_code_if_exit(), Some(5));
    // init reaps A: its pid is released
    table.remove_child(init, task_a);
    table.release_task(task_a);
    assert!(table.tasks[task_a].is_none());
}

#[test]
fn exiting_root_orphans_its_children() {
    let mut a = make_allocator();
    let mut table = TaskTable::new(false);
    let root = spawn(&mut table, NO_PARENT);
    let child = table.from_fork(root, None, 0, &mut a).unwrap();
    table.handle_zombie_task(root);
    assert_eq!(table.tasks[child].as_ref().unwrap().parent, None);
    assert_eq!(table.tasks[child].as_ref().unwrap().ppid, NO_PARENT);
    assert_eq!(table.tasks[root].as_ref().unwrap().get_status(), TaskStatus::Zombie);
}

#[test]
fn test_env_mode_never_transfers_to_init() {
    let mut a = make_allocator();
    let mut table = TaskTable::new(true);
    let init = spawn(&mut table, NO_PARENT);
    let parent = table.from_fork(init, None, 0, &mut a).unwrap();
    let child = table.from_fork(parent, None, 0, &mut a).unwrap();
    table.handle_zombie_task(parent);
    assert_eq!(table.tasks[child].as_ref().unwrap().ppid, NO_PARENT);
    assert_eq!(table.tasks[init].as_ref().unwrap().children.len(), 1);
}

#[test]
fn concurrent_exits_of_a_whole_tree_all_complete() {
    // a chain of tasks under init all exit, parents before children and
    // children before parents, in an arbitrary order: every exit completes
    // and init ends up holding exactly the reparented tasks
    let mut a = make_allocator();
    let mut table = TaskTable::new(false);
    let init = spawn(&mut table, NO_PARENT);
    let t1 = table.from_fork(init, None, 0, &mut a).unwrap();
    let t2 = table.from_fork(t1, None, 0, &mut a).unwrap();
    let t3 = table.from_fork(t2, None, 0, &mut a).unwrap();
    let t4 = table.from_fork(t1, None, 0, &mut a).unwrap();
    // interleaving: middle first, then leaf holders, then the top
    table.handle_zombie_task(t2);
    table.handle_zombie_task(t3);
    table.handle_zombie_task(t1);
    for h in [t1, t2, t3, t4] {
        let t = table.tasks[h].as_ref().unwrap();
        if h == t4 {
            assert_eq!(t.get_status(), TaskStatus::Ready);
        } else {
            assert_eq!(t.get_status(), TaskStatus::Zombie);
        }
        assert_eq!(t.parent, Some(INIT_HANDLE));
    }
    let init_children = table.tasks[init].as_ref().unwrap().children.clone();
    for h in [t1, t2, t3, t4] {
        assert!(init_children.contains(&h));
    }
    assert_eq!(init_children.len(), 4);
}

#[test]
fn scheduler_round_trip_dispatch_yield_exit() {
    let mut table = TaskTable::new(false);
    let init = spawn(&mut table, NO_PARENT);
    let mut cpus = vec![CpuLocal::new(), CpuLocal::new()];
    let mut rq = ReadyQueue::new();
    rq.push(init);
    // dispatch onto core 0
    let got = dispatch_next(&mut cpus, 0, &mut rq, &mut table);
    assert_eq!(got, Some(init));
    assert_eq!(get_current_task(&cpus, 0), Some(init));
    assert_eq!(get_current_task(&cpus, 1), None);
    assert_eq!(table.tasks[init].as_ref().unwrap().get_status(), TaskStatus::Running);
    // nothing left for core 1
    assert_eq!(dispatch_next(&mut cpus, 1, &mut rq, &mut table), None);
    // the task yields
    suspend_current_task(&cpus, 0, &mut table);
    assert_eq!(on_task_switched_out(&mut cpus, 0, &mut rq, &mut table), SwitchOutcome::Requeued);
    assert_eq!(get_current_task(&cpus, 0), None);
    // run it again and let it exit
    dispatch_next(&mut cpus, 0, &mut rq, &mut table);
    exit_current_task(7, &cpus, 0, &mut table);
    assert_eq!(on_task_switched_out(&mut cpus, 0, &mut rq, &mut table), SwitchOutcome::Reaped);
    assert_eq!(table.tasks[init].as_ref().unwrap().get_status(), TaskStatus::Zombie);
    assert_eq!(table.tasks[init].as_ref().unwrap().get_code_if_exit(), Some(7));
    // a core with no current task reports the fatal condition
    assert_eq!(
        on_task_switched_out(&mut cpus, 1, &mut rq, &mut table),
        SwitchOutcome::FatalNoCurrent
    );
}

#[test]
fn page_fault_on_an_idle_core_has_no_handler() {
    let mut a = make_allocator();
    let mut table = TaskTable::new(false);
    let _ = spawn(&mut table, NO_PARENT);
    let cpus = vec![CpuLocal::new()];
    let mut access = PTEFlags::empty();
    access.read = true;
    assert_eq!(
        handle_user_page_fault(&cpus, 0, &mut table, 0x10_0000, access, &mut a),
        Err(maturin_core::error::OSError::Task_NoTrapHandler)
    );
}

#[test]
fn page_fault_reaches_the_current_task_address_space() {
    let mut a = make_allocator();
    let mut table = TaskTable::new(false);
    let init = spawn(&mut table, NO_PARENT);
    table.tasks[init]
        .as_mut()
        .unwrap()
        .mmap(0x10_0000, 0x10_1000, rw_flags(), &[], &mut a)
        .unwrap();
    let mut cpus = vec![CpuLocal::new()];
    let mut rq = ReadyQueue::new();
    rq.push(init);
    dispatch_next(&mut cpus, 0, &mut rq, &mut table);
    let mut access = PTEFlags::empty();
    access.read = true;
    handle_user_page_fault(&cpus, 0, &mut table, 0x10_0008, access, &mut a).unwrap();
    assert_eq!(
        handle_user_page_fault(&cpus, 0, &mut table, 0x90_0000, access, &mut a),
        Err(maturin_core::error::OSError::PageTable_PageNotMapped)
    );
}
