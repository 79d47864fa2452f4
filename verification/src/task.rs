//! Task control blocks and the process tree.
//!
//! Tasks live in an arena table: the process id is the slot index, children
//! are owning handle lists, and the parent is a non-owning back-reference
//! used only for lookup. The first task inserted is the init task, the one
//! task with no parent in steady state; handles grow upward, so a parent's
//! handle is always below its children's — the tree is acyclic by
//! construction. Each task's `locked` flag models its mutable-state lock,
//! which the reaping protocol acquires with non-blocking attempts.

use vstd::prelude::*;

use crate::constants::{NO_PARENT, USER_STACK_OFFSET};
use crate::error::{OSError, OSResult};
use crate::flags::PTEFlags;
use crate::frame::FrameAllocator;
use crate::memory_set::MemorySet;

verus! {

/// The handle of the init task: the first task inserted in the table.
pub const INIT_HANDLE: usize = 0;

/// Execution status of a task.
#[derive(Clone, Copy, Debug, PartialEq, Eq, Structural)]
pub enum TaskStatus {
    /// Created but not yet initialized.
    UnInit,
    /// Initialized and runnable by any core.
    Ready,
    /// Currently executing on some core.
    Running,
    /// Exited in user space; the kernel still has reaping work to do.
    Dying,
    /// Exited and reaped; resources wait for collection.
    Zombie,
    /// Finished entirely.
    Exited,
}

/// The saved user-visible context a task resumes with: entry point, user
/// stack pointer, and the first two argument registers.
#[derive(Clone, Copy, Debug, PartialEq, Eq, Structural)]
pub struct TrapContext {
    /// The user program counter to resume at.
    pub sepc: usize,
    /// The user stack pointer.
    pub sp: usize,
    /// The first argument register; a forked child resumes with 0 here.
    pub a0: usize,
    /// The second argument register.
    pub a1: usize,
}

impl TrapContext {
    /// The context a freshly loaded program starts with.
    pub fn app_init_context(entry: usize, sp: usize) -> (r: TrapContext)
        ensures
            r == (TrapContext { sepc: entry, sp, a0: 0usize, a1: 0usize }),
    {
        TrapContext { sepc: entry, sp, a0: 0, a1: 0 }
    }

    /// The context an `exec`ed program starts with: argument count and
    /// argument vector address in the first two registers.
    pub fn app_exec_context(entry: usize, sp: usize, argc: usize, argv: usize) -> (r: TrapContext)
        ensures
            r == (TrapContext { sepc: entry, sp, a0: argc, a1: argv }),
    {
        TrapContext { sepc: entry, sp, a0: argc, a1: argv }
    }
}

/// What the program loader produced for a new task image: the entry point
/// and the initial user stack pointer. `None` from the loader means the
/// program was missing or malformed.
#[derive(Clone, Copy, Debug, PartialEq, Eq, Structural)]
pub struct LoadedImage {
    /// The program's entry point.
    pub entry: usize,
    /// The initial user stack pointer.
    pub user_stack: usize,
}

/// One task's complete state: identity, tree links, status, context and
/// address space.
pub struct TaskControlBlock {
    /// The process id; equals the task's slot in the table.
    pub pid: usize,
    /// The parent's process id, or `NO_PARENT`.
    pub ppid: usize,
    /// Non-owning back-reference to the parent's handle.
    pub parent: Option<usize>,
    /// Owning list of children handles.
    pub children: Vec<usize>,
    /// Execution status.
    pub task_status: TaskStatus,
    /// Exit code reported by `sys_exit`.
    pub exit_code: i32,
    /// Working directory.
    pub dir: String,
    /// The tick the task started running at.
    pub start_tick: usize,
    /// Top of the user heap; grows upward from `USER_STACK_OFFSET`.
    pub user_heap_top: usize,
    /// The user stack pointer recorded at load, bounding the heap above.
    pub user_sp: usize,
    /// The saved context the task resumes with.
    pub task_cx: TrapContext,
    /// The task's address space.
    pub vm: MemorySet,
    /// Whether the task's mutable-state lock is held.
    pub locked: bool,
    /// Whether the task's signal state is registered in the global table.
    pub signal_registered: bool,
}

impl TaskControlBlock {
    /// Build the initial process from a program name: the first argument
    /// names the program, `image` is what the loader made of it. `None`
    /// means the program was missing, the loader failed, or no name was
    /// given. The new task starts `Ready` with an empty address space, no
    /// children and no parent link; its pid is assigned on insertion.
    pub fn from_app_name(
        dir: String,
        ppid: usize,
        args: Vec<String>,
        image: Option<LoadedImage>,
        start_tick: usize,
    ) -> (r: Option<TaskControlBlock>)
        ensures
            r is None <==> (args@.len() == 0 || image is None),
            r is Some ==> {
                &&& r->0.wf()
                &&& r->0.ppid == ppid
                &&& r->0.dir == dir
                &&& r->0.start_tick == start_tick
                &&& r->0.task_status == TaskStatus::Ready
                &&& r->0.exit_code == 0
                &&& r->0.user_heap_top == USER_STACK_OFFSET
                &&& r->0.children@.len() == 0
                &&& r->0.parent is None
                &&& r->0.task_cx == (TrapContext {
                    sepc: image->Some_0.entry,
                    sp: image->Some_0.user_stack,
                    a0: 0usize,
                    a1: 0usize,
                })
                &&& r->0.user_sp == image->Some_0.user_stack
                &&& !r->0.locked
                &&& r->0.signal_registered
                &&& r->0.vm.areas_view().len() == 0
            },
    {
        if args.len() < 1 {
            return None;
        }
        match image {
            None => None,
            Some(img) => Some(
                TaskControlBlock {
                    pid: 0,
                    ppid,
                    parent: None,
                    children: Vec::new(),
                    task_status: TaskStatus::Ready,
                    exit_code: 0,
                    dir,
                    start_tick,
                    user_heap_top: USER_STACK_OFFSET,
                    user_sp: img.user_stack,
                    task_cx: TrapContext::app_init_context(img.entry, img.user_stack),
                    vm: MemorySet::new(),
                    locked: false,
                    signal_registered: true,
                },
            ),
        }
    }

    /// The task's own pieces are consistent.
    pub open spec fn wf(self) -> bool {
        self.vm.wf()
    }

    /// Replace the running program in place, as `exec` does: the user heap
    /// is reset, the address space cleared for the loader to repopulate,
    /// and the saved context pointed at the new image with the argument
    /// count in the first register. A missing or malformed program changes
    /// nothing and reports `false`.
    pub fn exec(&mut self, args: Vec<String>, image: Option<LoadedImage>) -> (r: bool)
        requires
            old(self).wf(),
        ensures
            final(self).wf(),
            r == (image is Some),
            image is None ==> *final(self) == *old(self),
            image is Some ==> {
                &&& final(self).user_heap_top == USER_STACK_OFFSET
                &&& final(self).vm.areas_view().len() == 0
                &&& final(self).task_cx == (TrapContext {
                    sepc: image->Some_0.entry,
                    sp: image->Some_0.user_stack,
                    a0: if args@.len() == 0 {
                        1usize
                    } else {
                        args@.len() as usize
                    },
                    a1: 0usize,
                })
                &&& final(self).user_sp == image->Some_0.user_stack
                &&& final(self).pid == old(self).pid
                &&& final(self).ppid == old(self).ppid
                &&& final(self).parent == old(self).parent
                &&& final(self).children == old(self).children
                &&& final(self).task_status == old(self).task_status
                &&& final(self).start_tick == old(self).start_tick
            },
    {
        let img = match image {
            None => {
                return false;
            },
            Some(img) => img,
        };
        self.user_heap_top = USER_STACK_OFFSET;
        self.vm.clear_user_and_save_kernel();
        let argc = if args.len() == 0 {
            1
        } else {
            args.len()
        };
        self.task_cx = TrapContext::app_exec_context(img.entry, img.user_stack, argc, 0);
        self.user_sp = img.user_stack;
        true
    }

    /// Map `[start, end)` with the given protection and initial data. A
    /// range too small for the data fails without touching the address
    /// space.
    pub fn mmap(
        &mut self,
        start: usize,
        end: usize,
        flags: PTEFlags,
        data: &[u8],
        allocator: &mut FrameAllocator,
    ) -> (r: Option<usize>)
        requires
            old(self).wf(),
            old(allocator).wf(),
            start <= end,
            end + crate::constants::PAGE_SIZE - 1 <= usize::MAX,
        ensures
            final(self).wf(),
            final(allocator).wf(),
            end - start < data@.len() ==> r is None && *final(self) == *old(self) && *final(allocator) == *old(allocator),
            r is None && end - start >= data@.len() ==> final(self).vm.areas_view() == old(self).vm.areas_view(),
            r is Some ==> {
                &&& r->Some_0 == crate::addr::spec_align_down(start as int)
                &&& final(self).vm.areas_view().len() == old(self).vm.areas_view().len() + 1
                &&& final(self).vm.areas_view().last().pma.holds_bytes(0, data@)
            },
    {
        if end - start < data.len() {
            return None;
        }
        match self.vm.push_with_data(start, end, flags, data, allocator) {
            Ok(addr) => Some(addr),
            Err(_) => None,
        }
    }

    /// Unmap `[start, end)`; reports whether the address space accepted the
    /// request.
    pub fn munmap(&mut self, start: usize, end: usize) -> (r: bool)
        requires
            old(self).wf(),
            end + crate::constants::PAGE_SIZE - 1 <= usize::MAX,
        ensures
            final(self).wf(),
            !r ==> *final(self) == *old(self),
            r ==> forall|k: usize|
                crate::addr::spec_align_down(start as int) <= k < crate::addr::spec_align_up(
                    end as int,
                ) ==> !#[trigger] final(self).vm.pt_view().contains_key(k),
    {
        match self.vm.pop(start, end) {
            Ok(_) => true,
            Err(_) => false,
        }
    }

    /// Set the task's status.
    pub fn set_status(&mut self, new_status: TaskStatus)
        ensures
            *final(self) == (TaskControlBlock { task_status: new_status, ..*old(self) }),
    {
        self.task_status = new_status;
    }

    /// Record the task's exit code.
    pub fn set_exit_code(&mut self, exit_code: i32)
        ensures
            *final(self) == (TaskControlBlock { exit_code, ..*old(self) }),
    {
        self.exit_code = exit_code;
    }

    /// The task's status.
    pub fn get_status(&self) -> (r: TaskStatus)
        ensures
            r == self.task_status,
    {
        self.task_status
    }

    /// The saved context the task resumes with.
    pub fn get_task_cx(&self) -> (r: TrapContext)
        ensures
            r == self.task_cx,
    {
        self.task_cx
    }

    /// The process id, without giving up ownership of it.
    pub fn get_pid_num(&self) -> (r: usize)
        ensures
            r == self.pid,
    {
        self.pid
    }

    /// The parent's process id; a task without a parent reports 1.
    pub fn get_ppid(&self) -> (r: usize)
        ensures
            r == if self.ppid == NO_PARENT {
                1usize
            } else {
                self.ppid
            },
    {
        if self.ppid == NO_PARENT {
            1
        } else {
            self.ppid
        }
    }

    /// The tick the task started running at.
    pub fn get_start_tick(&self) -> (r: usize)
        ensures
            r == self.start_tick,
    {
        self.start_tick
    }

    /// The top of the user heap.
    pub fn get_user_heap_top(&self) -> (r: usize)
        ensures
            r == self.user_heap_top,
    {
        self.user_heap_top
    }

    /// Move the top of the user heap. The new top must stay inside the
    /// heap/stack region — at or above its base and strictly below the user
    /// stack pointer — else the top stays put; either way the resulting top
    /// is returned.
    pub fn set_user_heap_top(&mut self, new_top: usize) -> (r: usize)
        ensures
            USER_STACK_OFFSET <= new_top < old(self).user_sp ==> final(self).user_heap_top
                == new_top && r == new_top,
            !(USER_STACK_OFFSET <= new_top < old(self).user_sp) ==> *final(self) == *old(self) && r
                == old(self).user_heap_top,
            *final(self) == (TaskControlBlock {
                user_heap_top: final(self).user_heap_top,
                ..*old(self)
            }),
    {
        if new_top >= USER_STACK_OFFSET && new_top < self.user_sp {
            self.user_heap_top = new_top;
            new_top
        } else {
            self.user_heap_top
        }
    }

    /// The exit code, if the task has fully exited. Mirrors the original's
    /// non-blocking lock attempt: a task whose lock is held reports nothing.
    pub fn get_code_if_exit(&self) -> (r: Option<i32>)
        ensures
            r == if !self.locked && self.task_status == TaskStatus::Zombie {
                Some(self.exit_code)
            } else {
                None::<i32>
            },
    {
        if self.locked {
            return None;
        }
        if let TaskStatus::Zombie = self.task_status {
            Some(self.exit_code)
        } else {
            None
        }
    }
}

/// The process table: the arena every task lives in. The slot index is the
/// process id.
pub struct TaskTable {
    /// The task slots; a vacated slot stays `None` and its pid is released.
    pub tasks: Vec<Option<TaskControlBlock>>,
    /// Whether the kernel runs in single-tree test mode, where orphaned
    /// children are not transferred to the init task.
    pub test_env: bool,
}

impl TaskTable {
    /// Whether handle `h` names a live task.
    pub open spec fn occupied(self, h: int) -> bool {
        0 <= h < self.tasks@.len() && self.tasks@[h] is Some
    }

    /// The task at handle `h`.
    pub open spec fn task_of(self, h: int) -> TaskControlBlock {
        self.tasks@[h]->Some_0
    }

    /// The process-tree invariant: pids match slots; parents sit below their
    /// children, so the tree is acyclic; every child list entry is a live
    /// task whose back-reference resolves to exactly this parent; and no
    /// task appears in two child lists, or twice in one.
    pub open spec fn wf(self) -> bool {
        &&& forall|h: int| self.occupied(h) ==> (#[trigger] self.task_of(h)).pid == h
        &&& forall|h: int| self.occupied(h) ==> (#[trigger] self.task_of(h)).wf()
        &&& forall|h: int|
            self.occupied(h) && (#[trigger] self.task_of(h)).parent is Some ==> self.occupied(
                self.task_of(h).parent->0 as int,
            ) && self.task_of(h).parent->0 < h
        &&& forall|h: int, j: int|
            self.occupied(h) && 0 <= j < self.task_of(h).children@.len() ==> h
                < #[trigger] self.task_of(h).children@[j] && self.occupied(
                self.task_of(h).children@[j] as int,
            )
        &&& forall|h1: int, j1: int, h2: int, j2: int|
            self.occupied(h1) && self.occupied(h2) && 0 <= j1 < self.task_of(
                h1,
            ).children@.len() && 0 <= j2 < self.task_of(h2).children@.len() && (h1 != h2 || j1
                != j2) ==> #[trigger] self.task_of(h1).children@[j1]
                != #[trigger] self.task_of(h2).children@[j2]
        &&& forall|h: int, j: int|
            self.occupied(h) && 0 <= j < self.task_of(h).children@.len() ==> (
            #[trigger] self.task_of(self.task_of(h).children@[j] as int).parent) == Some(
                h as usize,
            )
    }

    /// An empty process table.
    pub fn new(test_env: bool) -> (r: TaskTable)
        ensures
            r.wf(),
            r.tasks@.len() == 0,
            r.test_env == test_env,
    {
        TaskTable { tasks: Vec::new(), test_env }
    }

    /// Put a freshly built, parentless task into the table; the new slot's
    /// index becomes its pid.
    pub fn insert_task(&mut self, tcb: TaskControlBlock) -> (h: usize)
        requires
            old(self).wf(),
            tcb.wf(),
            tcb.children@.len() == 0,
            tcb.parent is None,
        ensures
            final(self).wf(),
            h == old(self).tasks@.len(),
            final(self).tasks@.len() == old(self).tasks@.len() + 1,
            final(self).test_env == old(self).test_env,
            forall|g: int| 0 <= g < h ==> #[trigger] final(self).tasks@[g] == old(self).tasks@[g],
            final(self).occupied(h as int),
            final(self).task_of(h as int) == (TaskControlBlock { pid: h, ..tcb }),
    {
        let h = self.tasks.len();
        let mut t = tcb;
        t.pid = h;
        self.tasks.push(Some(t));
        proof {
            lemma_table_extended(*old(self), *self);
        }
        h
    }

    /// Fork the task at `h`: the child gets a fresh pid, a deep copy of the
    /// parent's address space, the parent's saved context with a zero return
    /// value — and the given stack pointer instead, if one is supplied — and
    /// is appended to the parent's children. Fails only when physical
    /// memory is exhausted, in which case the table is untouched.
    pub fn from_fork(
        &mut self,
        h: usize,
        user_stack: Option<usize>,
        start_tick: usize,
        allocator: &mut FrameAllocator,
    ) -> (r: OSResult<usize>)
        requires
            old(self).wf(),
            old(self).occupied(h as int),
            old(allocator).wf(),
        ensures
            final(self).wf(),
            final(allocator).wf(),
            r is Err ==> r == OSResult::<usize>::Err(OSError::Memory_RunOutOfMemory) && final(self).tasks@ == old(self).tasks@ && final(allocator).frames_left() == 0,
            r is Ok ==> ({
                let c = r->Ok_0 as int;
                &&& r->Ok_0 == old(self).tasks@.len()
                &&& final(self).tasks@.len() == old(self).tasks@.len() + 1
                &&& final(self).occupied(c)
                &&& final(self).task_of(c).pid == r->Ok_0
                &&& final(self).task_of(c).ppid == h
                &&& final(self).task_of(c).parent == Some(h)
                &&& final(self).task_of(c).children@.len() == 0
                &&& final(self).task_of(c).task_status == TaskStatus::Ready
                &&& final(self).task_of(c).exit_code == 0
                &&& final(self).task_of(c).user_heap_top == USER_STACK_OFFSET
                &&& final(self).task_of(c).start_tick == start_tick
                &&& final(self).task_of(c).task_cx.a0 == 0
                &&& final(self).task_of(c).task_cx.sepc == old(self).task_of(
                    h as int,
                ).task_cx.sepc
                &&& final(self).task_of(c).task_cx.sp == (if user_stack is Some {
                    user_stack->0
                } else {
                    old(self).task_of(h as int).task_cx.sp
                })
                &&& final(self).task_of(c).vm.areas_view().len() == old(self).task_of(
                    h as int,
                ).vm.areas_view().len()
                &&& final(self).task_of(h as int).children@ == old(self).task_of(
                    h as int,
                ).children@.push(r->Ok_0)
                &&& final(self).task_of(h as int).task_status == old(self).task_of(
                    h as int,
                ).task_status
                &&& forall|g: int|
                    0 <= g < old(self).tasks@.len() && g != h ==> #[trigger] final(self).tasks@[g] == old(self).tasks@[g]
            }),
    {
        let new_vm = match self.tasks[h].as_ref().unwrap().vm.copy_as_fork(allocator) {
            Ok(vm) => vm,
            Err(e) => {
                return Err(e);
            },
        };
        let parent_ctx = self.tasks[h].as_ref().unwrap().task_cx;
        let parent_dir = self.tasks[h].as_ref().unwrap().dir.clone();
        let mut ctx = parent_ctx;
        ctx.a0 = 0;
        if let Some(sp) = user_stack {
            ctx.sp = sp;
        }
        let c = self.tasks.len();
        let child = TaskControlBlock {
            pid: c,
            ppid: h,
            parent: Some(h),
            children: Vec::new(),
            task_status: TaskStatus::Ready,
            exit_code: 0,
            dir: parent_dir,
            start_tick,
            user_heap_top: USER_STACK_OFFSET,
            user_sp: ctx.sp,
            task_cx: ctx,
            vm: new_vm,
            locked: false,
            signal_registered: true,
        };
        self.tasks.push(Some(child));
        let ghost mid = *self;
        proof {
            lemma_table_extended(*old(self), mid);
        }
        let slot = &mut self.tasks[h];
        match slot {
            Some(p) => {
                p.children.push(c);
            },
            None => {},
        }
        proof {
            assert(self.tasks@ =~= mid.tasks@.update(
                h as int,
                Some(self.task_of(h as int)),
            ));
            lemma_child_appended(mid, *self, h as int, c);
        }
        Ok(c)
    }
}

impl TaskTable {
    /// Whether the task at `h` hands its children to the init task when it
    /// exits: it does unless it has no parent itself or the kernel runs in
    /// single-tree test mode.
    pub open spec fn transfer_mode(self, h: int) -> bool {
        !(self.task_of(h).ppid == NO_PARENT || self.test_env)
    }

    /// Reap the exiting task at `h`: every child is handed to the init task
    /// — or merely orphaned, when `h` itself has no parent or the kernel is
    /// in test mode — the child list is cleared, the status becomes
    /// `Zombie`, and the task's signal entry is deregistered. The caller
    /// holds `h`'s lock; the protocol acquires each child's lock and the
    /// init task's lock with non-blocking attempts, so here they must all
    /// be free.
    #[verifier::loop_isolation(false)]
    #[verifier::rlimit(100)]
    pub fn handle_zombie_task(&mut self, h: usize)
        requires
            old(self).wf(),
            old(self).occupied(h as int),
            forall|j: int|
                0 <= j < old(self).task_of(h as int).children@.len() ==> !old(self).task_of(
                    #[trigger] old(self).task_of(h as int).children@[j] as int,
                ).locked,
            old(self).transfer_mode(h as int) ==> old(self).occupied(INIT_HANDLE as int) && h
                != INIT_HANDLE && !old(self).task_of(INIT_HANDLE as int).locked,
        ensures
            final(self).wf(),
            final(self).tasks@.len() == old(self).tasks@.len(),
            final(self).test_env == old(self).test_env,
            forall|g: int| #[trigger] final(self).occupied(g) <==> old(self).occupied(g),
            final(self).occupied(h as int),
            final(self).task_of(h as int) == (TaskControlBlock {
                children: final(self).task_of(h as int).children,
                task_status: TaskStatus::Zombie,
                signal_registered: false,
                ..old(self).task_of(h as int)
            }),
            final(self).task_of(h as int).children@.len() == 0,
            forall|j: int|
                0 <= j < old(self).task_of(h as int).children@.len() ==> final(self).task_of(
                    #[trigger] old(self).task_of(h as int).children@[j] as int,
                ) == (TaskControlBlock {
                    parent: if old(self).transfer_mode(h as int) {
                        Some(INIT_HANDLE)
                    } else {
                        None
                    },
                    ppid: if old(self).transfer_mode(h as int) {
                        INIT_HANDLE
                    } else {
                        NO_PARENT
                    },
                    ..old(self).task_of(old(self).task_of(h as int).children@[j] as int)
                }),
            old(self).transfer_mode(h as int) ==> final(self).task_of(INIT_HANDLE as int) == (
            TaskControlBlock {
                children: final(self).task_of(INIT_HANDLE as int).children,
                ..old(self).task_of(INIT_HANDLE as int)
            }) && final(self).task_of(INIT_HANDLE as int).children@ == old(self).task_of(
                INIT_HANDLE as int,
            ).children@ + old(self).task_of(h as int).children@.reverse(),
            forall|g: int|
                0 <= g < old(self).tasks@.len() && g != h && (old(self).transfer_mode(h as int)
                    ==> g != INIT_HANDLE) && !old(self).task_of(h as int).children@.contains(
                    g as usize,
                ) ==> #[trigger] final(self).tasks@[g] == old(self).tasks@[g],
    {
        let transfer = {
            let t = self.tasks[h].as_ref().unwrap();
            !(t.ppid == NO_PARENT || self.test_env)
        };
        let ghost orig_ch = old(self).task_of(h as int).children@;
        let ghost orig_init = if transfer {
            old(self).task_of(INIT_HANDLE as int).children@
        } else {
            Seq::<usize>::empty()
        };
        let mut rem = self.tasks[h].as_ref().unwrap().children.len();
        while rem > 0
            invariant
                self.wf(),
                self.occupied(h as int),
                rem == self.task_of(h as int).children@.len(),
                rem <= orig_ch.len(),
                self.task_of(h as int).children@ == orig_ch.subrange(0, rem as int),
                self.task_of(h as int) == (TaskControlBlock {
                    children: self.task_of(h as int).children,
                    ..old(self).task_of(h as int)
                }),
                self.tasks@.len() == old(self).tasks@.len(),
                self.test_env == old(self).test_env,
                transfer == old(self).transfer_mode(h as int),
                forall|g: int| #[trigger] self.occupied(g) <==> old(self).occupied(g),
                forall|j: int|
                    0 <= j < rem ==> #[trigger] self.tasks@[orig_ch[j] as int] == old(self).tasks@[orig_ch[j] as int],
                forall|j: int|
                    rem <= j < orig_ch.len() ==> self.task_of(#[trigger] orig_ch[j] as int) == (
                    TaskControlBlock {
                        parent: if transfer {
                            Some(INIT_HANDLE)
                        } else {
                            None
                        },
                        ppid: if transfer {
                            INIT_HANDLE
                        } else {
                            NO_PARENT
                        },
                        ..old(self).task_of(orig_ch[j] as int)
                    }),
                transfer ==> self.occupied(INIT_HANDLE as int) && h != INIT_HANDLE
                    && self.task_of(INIT_HANDLE as int) == (TaskControlBlock {
                    children: self.task_of(INIT_HANDLE as int).children,
                    ..old(self).task_of(INIT_HANDLE as int)
                }) && self.task_of(INIT_HANDLE as int).children@ == orig_init + orig_ch.subrange(
                    rem as int,
                    orig_ch.len() as int,
                ).reverse(),
                forall|g: int|
                    0 <= g < old(self).tasks@.len() && g != h && (transfer ==> g != INIT_HANDLE)
                        && !orig_ch.contains(g as usize) ==> #[trigger] self.tasks@[g] == old(self).tasks@[g],
            decreases rem,
        {
            let ghost s0 = *self;
            let c = {
                let slot = &mut self.tasks[h];
                match slot {
                    Some(t) => {
                        match t.children.pop() {
                            Some(c) => c,
                            None => 0,
                        }
                    },
                    None => 0,
                }
            };
            proof {
                assert(self.tasks@ =~= s0.tasks@.update(h as int, Some(self.task_of(h as int))));
                assert(c == orig_ch[rem - 1]);
                assert(self.task_of(h as int).children@ =~= orig_ch.subrange(0, rem - 1));
                assert(s0.occupied(c as int) && h < c);
            }
            let ghost s1 = *self;
            let slot = &mut self.tasks[c];
            match slot {
                Some(ct) => {
                    if transfer {
                        ct.parent = Some(INIT_HANDLE);
                        ct.ppid = INIT_HANDLE;
                    } else {
                        ct.parent = None;
                        ct.ppid = NO_PARENT;
                    }
                },
                None => {},
            }
            proof {
                assert(self.tasks@ =~= s1.tasks@.update(c as int, Some(self.task_of(c as int))));
            }
            if transfer {
                let ghost s2 = *self;
                let islot = &mut self.tasks[INIT_HANDLE];
                match islot {
                    Some(it) => {
                        it.children.push(c);
                    },
                    None => {},
                }
                proof {
                    assert(self.tasks@ =~= s2.tasks@.update(
                        INIT_HANDLE as int,
                        Some(self.task_of(INIT_HANDLE as int)),
                    ));
                    assert(self.task_of(INIT_HANDLE as int).children@ =~= orig_init
                        + orig_ch.subrange(rem - 1, orig_ch.len() as int).reverse()) by {
                        assert(orig_ch.subrange(rem - 1, orig_ch.len() as int).reverse()
                            =~= orig_ch.subrange(rem as int, orig_ch.len() as int).reverse().push(
                            c,
                        ));
                    }
                    lemma_reparent_step(s0, *self, h as int, c, true);
                }
            } else {
                proof {
                    lemma_reparent_step(s0, *self, h as int, c, false);
                }
            }
            proof {
                assert forall|j: int| 0 <= j < orig_ch.len() && j != rem - 1
                    implies orig_ch[j] != c by {
                    assert(old(self).task_of(h as int).children@[j] != old(self).task_of(
                        h as int,
                    ).children@[rem - 1]);
                }
                assert(old(self).tasks@[c as int] == s0.tasks@[c as int]);
                assert forall|j: int| 0 <= j < rem - 1 implies #[trigger] self.tasks@[orig_ch[j] as int]
                    == old(self).tasks@[orig_ch[j] as int] by {
                    assert(orig_ch[j] != c);
                    assert(0 < orig_ch[j] && orig_ch[j] != h);
                    assert(self.tasks@[orig_ch[j] as int] == s0.tasks@[orig_ch[j] as int]);
                }
                assert forall|g: int| #[trigger] self.occupied(g) <==> old(self).occupied(g) by {
                    if g == h || g == c as int || (transfer && g == INIT_HANDLE as int) {
                        assert(s0.occupied(g));
                        assert(self.occupied(g));
                    } else {
                        if 0 <= g < self.tasks@.len() {
                            assert(self.tasks@[g] == s0.tasks@[g]);
                        }
                        assert(s0.occupied(g) <==> old(self).occupied(g));
                    }
                }
                assert forall|j: int| rem - 1 <= j < orig_ch.len()
                    implies self.task_of(#[trigger] orig_ch[j] as int) == (TaskControlBlock {
                        parent: if transfer {
                            Some(INIT_HANDLE)
                        } else {
                            None
                        },
                        ppid: if transfer {
                            INIT_HANDLE
                        } else {
                            NO_PARENT
                        },
                        ..old(self).task_of(orig_ch[j] as int)
                    }) by {
                    if j == rem - 1 {
                        assert(orig_ch[j] == c);
                    } else {
                        assert(orig_ch[j] != c);
                        assert(0 < orig_ch[j] && orig_ch[j] != h);
                        assert(self.tasks@[orig_ch[j] as int] == s0.tasks@[orig_ch[j] as int]);
                    }
                }
            }
            rem = rem - 1;
        }
        let ghost before_mark = *self;
        let hslot = &mut self.tasks[h];
        match hslot {
            Some(t) => {
                t.task_status = TaskStatus::Zombie;
                t.signal_registered = false;
            },
            None => {},
        }
        proof {
            assert(self.tasks@ =~= before_mark.tasks@.update(
                h as int,
                Some(self.task_of(h as int)),
            ));
            lemma_wf_fields_irrelevant(before_mark, *self);
            assert(orig_ch.subrange(0, orig_ch.len() as int) =~= orig_ch);
            assert forall|g: int| #[trigger] self.occupied(g) <==> old(self).occupied(g) by {
                if g == h {
                    assert(self.occupied(g) && old(self).occupied(g));
                } else {
                    if 0 <= g < self.tasks@.len() {
                        assert(self.tasks@[g] == before_mark.tasks@[g]);
                    }
                    assert(before_mark.occupied(g) <==> old(self).occupied(g));
                }
            }
        }
    }
}

impl TaskTable {
    /// Drop `c` from `p`'s child list, as a successful wait does before the
    /// zombie's resources are released.
    #[verifier::loop_isolation(false)]
    pub fn remove_child(&mut self, p: usize, c: usize)
        requires
            old(self).wf(),
            old(self).occupied(p as int),
            old(self).task_of(p as int).children@.contains(c),
        ensures
            final(self).wf(),
            final(self).tasks@.len() == old(self).tasks@.len(),
            final(self).test_env == old(self).test_env,
            final(self).occupied(p as int),
            final(self).task_of(p as int) == (TaskControlBlock {
                children: final(self).task_of(p as int).children,
                ..old(self).task_of(p as int)
            }),
            !final(self).task_of(p as int).children@.contains(c),
            final(self).task_of(p as int).children@.len() == old(self).task_of(
                p as int,
            ).children@.len() - 1,
            forall|g: int|
                0 <= g < old(self).tasks@.len() && g != p ==> #[trigger] final(self).tasks@[g]
                    == old(self).tasks@[g],
            forall|d: usize|
                d != c && old(self).task_of(p as int).children@.contains(d) ==> final(self).task_of(p as int).children@.contains(d),
    {
        let len = self.tasks[p].as_ref().unwrap().children.len();
        let mut i: usize = 0;
        let mut found = len;
        while i < len
            invariant
                *self == *old(self),
                len == self.task_of(p as int).children@.len(),
                i <= len,
                found == len,
                forall|j: int| 0 <= j < i ==> self.task_of(p as int).children@[j] != c,
            decreases len - i,
        {
            if self.tasks[p].as_ref().unwrap().children[i] == c {
                found = i;
                break ;
            }
            i = i + 1;
        }
        proof {
            if found == len {
                assert(forall|j: int|
                    0 <= j < len ==> old(self).task_of(p as int).children@[j] != c);
                assert(false);
            }
        }
        let slot = &mut self.tasks[p];
        match slot {
            Some(t) => {
                t.children.remove(found);
            },
            None => {},
        }
        proof {
            let pre = *old(self);
            assert(self.tasks@ =~= pre.tasks@.update(p as int, Some(self.task_of(p as int))));
            let oldch = pre.task_of(p as int).children@;
            let newch = self.task_of(p as int).children@;
            assert(newch == oldch.remove(found as int));
            assert forall|j: int| 0 <= j < newch.len() implies #[trigger] newch[j] == (if j
                < found {
                oldch[j]
            } else {
                oldch[j + 1]
            }) by {}
            assert forall|j: int| 0 <= j < newch.len() implies newch[j] != c by {
                if j < found {
                    assert(oldch[j] != oldch[found as int]);
                } else {
                    assert(oldch[j + 1] != oldch[found as int]);
                }
            }
            assert(!newch.contains(c)) by {
                if newch.contains(c) {
                    let w = choose|w: int| 0 <= w < newch.len() && newch[w] == c;
                    assert(false);
                }
            }
            assert forall|d: usize| d != c && oldch.contains(d) implies newch.contains(d) by {
                let w = choose|w: int| 0 <= w < oldch.len() && oldch[w] == d;
                assert(w != found);
                if w < found {
                    assert(newch[w] == d);
                } else {
                    assert(newch[w - 1] == d);
                }
            }
            lemma_child_list_shrunk(pre, *self, p as int, found as int);
        }
    }

    /// Vacate the slot of a fully reaped zombie: the task is destroyed and
    /// its pid released. Nothing may still refer to it — no child list and
    /// no parent back-reference.
    pub fn release_task(&mut self, h: usize)
        requires
            old(self).wf(),
            old(self).occupied(h as int),
            old(self).task_of(h as int).task_status == TaskStatus::Zombie,
            old(self).task_of(h as int).children@.len() == 0,
            forall|g: int, j: int|
                old(self).occupied(g) && 0 <= j < old(self).task_of(g).children@.len()
                    ==> #[trigger] old(self).task_of(g).children@[j] != h,
            forall|g: int|
                old(self).occupied(g) ==> (#[trigger] old(self).task_of(g)).parent != Some(h),
        ensures
            final(self).wf(),
            final(self).tasks@.len() == old(self).tasks@.len(),
            final(self).test_env == old(self).test_env,
            !final(self).occupied(h as int),
            forall|g: int|
                0 <= g < old(self).tasks@.len() && g != h ==> #[trigger] final(self).tasks@[g]
                    == old(self).tasks@[g],
    {
        self.tasks.set(h, None);
        proof {
            let pre = *old(self);
            assert forall|g: int| self.occupied(g) implies (#[trigger] self.task_of(g)).pid == g
                && (#[trigger] self.task_of(g)).wf() by {
                assert(self.tasks@[g] == pre.tasks@[g]);
                assert(pre.task_of(g).pid == g && pre.task_of(g).wf());
            }
            assert forall|g: int|
                self.occupied(g) && (#[trigger] self.task_of(g)).parent is Some
                implies self.occupied(self.task_of(g).parent->0 as int) && self.task_of(
                g,
            ).parent->0 < g by {
                assert(self.tasks@[g] == pre.tasks@[g]);
                let p = pre.task_of(g).parent->0 as int;
                assert(pre.occupied(p) && p < g);
                assert(pre.task_of(g).parent != Some(h));
                assert(self.tasks@[p] == pre.tasks@[p]);
            }
            assert forall|g: int, j: int|
                self.occupied(g) && 0 <= j < self.task_of(g).children@.len() implies g
                < #[trigger] self.task_of(g).children@[j] && self.occupied(
                self.task_of(g).children@[j] as int,
            ) by {
                assert(self.tasks@[g] == pre.tasks@[g]);
                let e = pre.task_of(g).children@[j] as int;
                assert(g < e && pre.occupied(e));
                assert(pre.task_of(g).children@[j] != h);
                assert(self.tasks@[e] == pre.tasks@[e]);
            }
            assert forall|h1: int, j1: int, h2: int, j2: int|
                self.occupied(h1) && self.occupied(h2) && 0 <= j1 < self.task_of(
                    h1,
                ).children@.len() && 0 <= j2 < self.task_of(h2).children@.len() && (h1 != h2 || j1
                    != j2) implies #[trigger] self.task_of(h1).children@[j1]
                != #[trigger] self.task_of(h2).children@[j2] by {
                assert(self.tasks@[h1] == pre.tasks@[h1]);
                assert(self.tasks@[h2] == pre.tasks@[h2]);
                assert(pre.task_of(h1).children@[j1] != pre.task_of(h2).children@[j2]);
            }
            assert forall|g: int, j: int|
                self.occupied(g) && 0 <= j < self.task_of(g).children@.len() implies (
            #[trigger] self.task_of(self.task_of(g).children@[j] as int).parent) == Some(
                g as usize,
            ) by {
                assert(self.tasks@[g] == pre.tasks@[g]);
                let e = pre.task_of(g).children@[j] as int;
                assert(pre.task_of(g).children@[j] != h);
                assert(self.tasks@[e] == pre.tasks@[e]);
                assert(pre.task_of(e).parent == Some(g as usize));
            }
        }
    }
}

/// Removing one entry from a child list keeps the table invariant.
proof fn lemma_child_list_shrunk(pre: TaskTable, post: TaskTable, p: int, at: int)
    requires
        pre.wf(),
        pre.occupied(p),
        0 <= at < pre.task_of(p).children@.len(),
        post.tasks@.len() == pre.tasks@.len(),
        post.occupied(p),
        post.task_of(p) == (TaskControlBlock {
            children: post.task_of(p).children,
            ..pre.task_of(p)
        }),
        post.task_of(p).children@ == pre.task_of(p).children@.remove(at),
        forall|g: int|
            0 <= g < pre.tasks@.len() && g != p ==> #[trigger] post.tasks@[g] == pre.tasks@[g],
    ensures
        post.wf(),
{
    assert forall|g: int| post.occupied(g) implies (#[trigger] post.task_of(g)).pid == g && (
    #[trigger] post.task_of(g)).wf() by {
        if g != p {
            assert(post.tasks@[g] == pre.tasks@[g]);
        }
        assert(pre.task_of(g).pid == g && pre.task_of(g).wf());
    }
    assert forall|g: int|
        post.occupied(g) && (#[trigger] post.task_of(g)).parent is Some implies post.occupied(
        post.task_of(g).parent->0 as int,
    ) && post.task_of(g).parent->0 < g by {
        if g != p {
            assert(post.tasks@[g] == pre.tasks@[g]);
        }
        assert(post.task_of(g).parent == pre.task_of(g).parent);
        let q = pre.task_of(g).parent->0 as int;
        assert(pre.occupied(q) && q < g);
        if q != p {
            assert(post.tasks@[q] == pre.tasks@[q]);
        }
    }
    assert forall|g: int, j: int|
        post.occupied(g) && 0 <= j < post.task_of(g).children@.len() implies g
        < #[trigger] post.task_of(g).children@[j] && post.occupied(
        post.task_of(g).children@[j] as int,
    ) by {
        lemma_removed_entry(pre, post, p, at, g, j);
        let e = pre.task_of(g).children@[if g == p && j >= at {
            j + 1
        } else {
            j
        }] as int;
        assert(g < e && pre.occupied(e));
        if e != p {
            assert(post.tasks@[e] == pre.tasks@[e]);
        }
    }
    assert forall|h1: int, j1: int, h2: int, j2: int|
        post.occupied(h1) && post.occupied(h2) && 0 <= j1 < post.task_of(h1).children@.len() && 0
            <= j2 < post.task_of(h2).children@.len() && (h1 != h2 || j1 != j2)
        implies #[trigger] post.task_of(h1).children@[j1] != #[trigger] post.task_of(
        h2,
    ).children@[j2] by {
        lemma_removed_entry(pre, post, p, at, h1, j1);
        lemma_removed_entry(pre, post, p, at, h2, j2);
        let i1 = if h1 == p && j1 >= at {
            j1 + 1
        } else {
            j1
        };
        let i2 = if h2 == p && j2 >= at {
            j2 + 1
        } else {
            j2
        };
        assert(h1 != h2 || i1 != i2);
        assert(pre.task_of(h1).children@[i1] != pre.task_of(h2).children@[i2]);
    }
    assert forall|g: int, j: int|
        post.occupied(g) && 0 <= j < post.task_of(g).children@.len() implies (
    #[trigger] post.task_of(post.task_of(g).children@[j] as int).parent) == Some(g as usize) by {
        lemma_removed_entry(pre, post, p, at, g, j);
        let e = pre.task_of(g).children@[if g == p && j >= at {
            j + 1
        } else {
            j
        }] as int;
        assert(pre.task_of(e).parent == Some(g as usize));
        if e != p {
            assert(post.tasks@[e] == pre.tasks@[e]);
        } else {
            assert(post.task_of(e).parent == pre.task_of(e).parent);
        }
    }
}

/// A child list entry after a removal maps back to an old entry.
proof fn lemma_removed_entry(pre: TaskTable, post: TaskTable, p: int, at: int, g: int, j: int)
    requires
        pre.wf(),
        pre.occupied(p),
        0 <= at < pre.task_of(p).children@.len(),
        post.tasks@.len() == pre.tasks@.len(),
        post.occupied(p),
        post.task_of(p).children@ == pre.task_of(p).children@.remove(at),
        forall|g2: int|
            0 <= g2 < pre.tasks@.len() && g2 != p ==> #[trigger] post.tasks@[g2] == pre.tasks@[g2],
        post.occupied(g),
        0 <= j < post.task_of(g).children@.len(),
    ensures
        pre.occupied(g),
        g == p && j >= at ==> j + 1 < pre.task_of(g).children@.len() && post.task_of(
            g,
        ).children@[j] == pre.task_of(g).children@[j + 1],
        !(g == p && j >= at) ==> j < pre.task_of(g).children@.len() && post.task_of(
            g,
        ).children@[j] == pre.task_of(g).children@[j],
{
    if g != p {
        assert(post.tasks@[g] == pre.tasks@[g]);
    }
}

/// One reparenting step keeps the table invariant: the last child `c` of
/// the exiting task `h` leaves `h`'s list and either joins the init task's
/// list with its back-reference repointed, or is orphaned outright.
proof fn lemma_reparent_step(pre: TaskTable, post: TaskTable, h: int, c: usize, transfer: bool)
    requires
        pre.wf(),
        pre.occupied(h),
        pre.task_of(h).children@.len() > 0,
        c == pre.task_of(h).children@.last(),
        post.tasks@.len() == pre.tasks@.len(),
        post.occupied(h),
        post.task_of(h) == (TaskControlBlock {
            children: post.task_of(h).children,
            ..pre.task_of(h)
        }),
        post.task_of(h).children@ == pre.task_of(h).children@.drop_last(),
        post.occupied(c as int),
        post.task_of(c as int) == (TaskControlBlock {
            parent: if transfer {
                Some(INIT_HANDLE)
            } else {
                None
            },
            ppid: if transfer {
                INIT_HANDLE
            } else {
                NO_PARENT
            },
            ..pre.task_of(c as int)
        }),
        transfer ==> h != INIT_HANDLE && pre.occupied(INIT_HANDLE as int) && post.occupied(
            INIT_HANDLE as int,
        ) && post.task_of(INIT_HANDLE as int) == (TaskControlBlock {
            children: post.task_of(INIT_HANDLE as int).children,
            ..pre.task_of(INIT_HANDLE as int)
        }) && post.task_of(INIT_HANDLE as int).children@ == pre.task_of(
            INIT_HANDLE as int,
        ).children@.push(c),
        forall|g: int|
            0 <= g < pre.tasks@.len() && g != h && g != c && (transfer ==> g != INIT_HANDLE)
                ==> #[trigger] post.tasks@[g] == pre.tasks@[g],
    ensures
        post.wf(),
{
    let n = pre.tasks@.len() as int;
    let m = pre.task_of(h).children@.len() as int;
    assert(h < c && pre.occupied(c as int));
    assert(c != INIT_HANDLE) by {
        assert(0 <= h < c);
    }
    assert forall|g: int| post.occupied(g) implies (#[trigger] post.task_of(g)).pid == g && (
    #[trigger] post.task_of(g)).wf() by {
        if g != h && g != c as int && (!transfer || g != INIT_HANDLE as int) {
            assert(post.tasks@[g] == pre.tasks@[g]);
        }
        assert(pre.occupied(g));
        assert(pre.task_of(g).pid == g && pre.task_of(g).wf());
    }
    assert forall|g: int|
        post.occupied(g) && (#[trigger] post.task_of(g)).parent is Some implies post.occupied(
        post.task_of(g).parent->0 as int,
    ) && post.task_of(g).parent->0 < g by {
        if g != h && g != c as int && (!transfer || g != INIT_HANDLE as int) {
            assert(post.tasks@[g] == pre.tasks@[g]);
        }
        if g == c as int && transfer {
            assert(post.task_of(g).parent == Some(INIT_HANDLE));
            assert(pre.occupied(INIT_HANDLE as int));
        } else if g == c as int {
        } else {
            assert(post.task_of(g).parent == pre.task_of(g).parent);
            if post.task_of(g).parent is Some {
                let p = post.task_of(g).parent->0 as int;
                assert(pre.occupied(p) && p < g);
            }
        }
    }
    assert forall|g: int, j: int|
        post.occupied(g) && 0 <= j < post.task_of(g).children@.len() implies g
        < #[trigger] post.task_of(g).children@[j] && post.occupied(
        post.task_of(g).children@[j] as int,
    ) by {
        lemma_step_entry(pre, post, h, c, transfer, g, j);
        if transfer && g == INIT_HANDLE as int && j == pre.task_of(
            INIT_HANDLE as int,
        ).children@.len() {
            assert(post.task_of(g).children@[j] == c);
        } else {
            let e = pre.task_of(g).children@[j] as int;
            assert(g < e && pre.occupied(e));
        }
    }
    assert forall|h1: int, j1: int, h2: int, j2: int|
        post.occupied(h1) && post.occupied(h2) && 0 <= j1 < post.task_of(h1).children@.len() && 0
            <= j2 < post.task_of(h2).children@.len() && (h1 != h2 || j1 != j2)
        implies #[trigger] post.task_of(h1).children@[j1] != #[trigger] post.task_of(
        h2,
    ).children@[j2] by {
        lemma_step_entry(pre, post, h, c, transfer, h1, j1);
        lemma_step_entry(pre, post, h, c, transfer, h2, j2);
        let im = if transfer {
            pre.task_of(INIT_HANDLE as int).children@.len() as int
        } else {
            0
        };
        if transfer && h1 == INIT_HANDLE as int && j1 == im {
            assert(post.task_of(h1).children@[j1] == c);
            if !(h2 == INIT_HANDLE as int && j2 == im) {
                assert(post.task_of(h2).children@[j2] == pre.task_of(h2).children@[j2]);
                assert(pre.task_of(h2).children@[j2] != pre.task_of(h).children@[m - 1]) by {
                    assert(0 <= j2 < pre.task_of(h2).children@.len());
                    if h2 == h {
                        assert(j2 < m - 1);
                    }
                }
            }
        } else if transfer && h2 == INIT_HANDLE as int && j2 == im {
            assert(post.task_of(h2).children@[j2] == c);
            assert(post.task_of(h1).children@[j1] == pre.task_of(h1).children@[j1]);
            assert(pre.task_of(h1).children@[j1] != pre.task_of(h).children@[m - 1]) by {
                if h1 == h {
                    assert(j1 < m - 1);
                }
            }
        } else {
            assert(post.task_of(h1).children@[j1] == pre.task_of(h1).children@[j1]);
            assert(post.task_of(h2).children@[j2] == pre.task_of(h2).children@[j2]);
            assert(pre.task_of(h1).children@[j1] != pre.task_of(h2).children@[j2]);
        }
    }
    assert forall|g: int, j: int|
        post.occupied(g) && 0 <= j < post.task_of(g).children@.len() implies (
    #[trigger] post.task_of(post.task_of(g).children@[j] as int).parent) == Some(g as usize) by {
        lemma_step_entry(pre, post, h, c, transfer, g, j);
        let im = if transfer {
            pre.task_of(INIT_HANDLE as int).children@.len() as int
        } else {
            0
        };
        if transfer && g == INIT_HANDLE as int && j == im {
            assert(post.task_of(g).children@[j] == c);
            assert(post.task_of(c as int).parent == Some(INIT_HANDLE));
        } else {
            let e = pre.task_of(g).children@[j] as int;
            assert(pre.task_of(e).parent == Some(g as usize));
            assert(e != c as int) by {
                if e == c as int {
                    assert(pre.task_of(h).children@[m - 1] == c);
                    if g == h {
                        assert(j < m - 1);
                    }
                }
            }
            assert(0 < e);
            if e != h && (!transfer || e != INIT_HANDLE as int) {
                assert(post.tasks@[e] == pre.tasks@[e]);
            } else {
                assert(post.task_of(e).parent == pre.task_of(e).parent);
            }
        }
    }
}

/// A child list entry after a reparenting step is either an old entry at
/// the same place, or — only for the init task in transfer mode — the
/// appended child.
proof fn lemma_step_entry(
    pre: TaskTable,
    post: TaskTable,
    h: int,
    c: usize,
    transfer: bool,
    g: int,
    j: int,
)
    requires
        pre.wf(),
        pre.occupied(h),
        pre.task_of(h).children@.len() > 0,
        c == pre.task_of(h).children@.last(),
        post.tasks@.len() == pre.tasks@.len(),
        post.occupied(h),
        post.task_of(h).children@ == pre.task_of(h).children@.drop_last(),
        post.occupied(c as int),
        post.task_of(c as int).children == pre.task_of(c as int).children,
        transfer ==> h != INIT_HANDLE && pre.occupied(INIT_HANDLE as int) && post.occupied(
            INIT_HANDLE as int,
        ) && post.task_of(INIT_HANDLE as int).children@ == pre.task_of(
            INIT_HANDLE as int,
        ).children@.push(c),
        forall|g2: int|
            0 <= g2 < pre.tasks@.len() && g2 != h && g2 != c && (transfer ==> g2 != INIT_HANDLE)
                ==> #[trigger] post.tasks@[g2] == pre.tasks@[g2],
        post.occupied(g),
        0 <= j < post.task_of(g).children@.len(),
    ensures
        pre.occupied(g),
        (transfer && g == INIT_HANDLE && j == pre.task_of(INIT_HANDLE as int).children@.len()
            && post.task_of(g).children@[j] == c) || (0 <= j < pre.task_of(g).children@.len()
            && post.task_of(g).children@[j] == pre.task_of(g).children@[j] && (g == h ==> j
            < pre.task_of(g).children@.len() - 1)),
{
    assert(h < c);
    if g == h {
    } else if g == c as int {
    } else if transfer && g == INIT_HANDLE as int {
    } else {
        assert(post.tasks@[g] == pre.tasks@[g]);
    }
}

/// Only the tree fields — occupancy, pids, parents, children — matter to
/// the table invariant: a table whose slots agree with a well-formed one on
/// those is well formed.
pub(crate) proof fn lemma_wf_fields_irrelevant(pre: TaskTable, post: TaskTable)
    requires
        pre.wf(),
        post.tasks@.len() == pre.tasks@.len(),
        forall|g: int| post.occupied(g) <==> pre.occupied(g),
        forall|g: int|
            pre.occupied(g) ==> (#[trigger] post.task_of(g)).pid == pre.task_of(g).pid
                && post.task_of(g).parent == pre.task_of(g).parent && post.task_of(g).children
                == pre.task_of(g).children && post.task_of(g).wf(),
    ensures
        post.wf(),
{
    assert forall|h1: int, j1: int, h2: int, j2: int|
        post.occupied(h1) && post.occupied(h2) && 0 <= j1 < post.task_of(h1).children@.len() && 0
            <= j2 < post.task_of(h2).children@.len() && (h1 != h2 || j1 != j2)
        implies #[trigger] post.task_of(h1).children@[j1] != #[trigger] post.task_of(
        h2,
    ).children@[j2] by {
        assert(pre.task_of(h1).children@[j1] != pre.task_of(h2).children@[j2]);
    }
    assert forall|h: int, j: int|
        post.occupied(h) && 0 <= j < post.task_of(h).children@.len() implies h
        < #[trigger] post.task_of(h).children@[j] && post.occupied(
        post.task_of(h).children@[j] as int,
    ) by {
        assert(h < pre.task_of(h).children@[j] && pre.occupied(pre.task_of(h).children@[j] as int));
    }
    assert forall|h: int, j: int|
        post.occupied(h) && 0 <= j < post.task_of(h).children@.len() implies (
    #[trigger] post.task_of(post.task_of(h).children@[j] as int).parent) == Some(h as usize) by {
        assert(pre.task_of(pre.task_of(h).children@[j] as int).parent == Some(h as usize));
    }
    assert forall|h: int|
        post.occupied(h) && (#[trigger] post.task_of(h)).parent is Some implies post.occupied(
        post.task_of(h).parent->0 as int,
    ) && post.task_of(h).parent->0 < h by {
        assert(pre.occupied(pre.task_of(h).parent->0 as int) && pre.task_of(h).parent->0 < h);
    }
}

/// Appending a fresh, parentless, childless task keeps the table invariant.
proof fn lemma_table_extended(pre: TaskTable, post: TaskTable)
    requires
        pre.wf(),
        post.tasks@.len() == pre.tasks@.len() + 1,
        forall|g: int| 0 <= g < pre.tasks@.len() ==> #[trigger] post.tasks@[g] == pre.tasks@[g],
        post.occupied(pre.tasks@.len() as int),
        post.task_of(pre.tasks@.len() as int).pid == pre.tasks@.len(),
        post.task_of(pre.tasks@.len() as int).wf(),
        post.task_of(pre.tasks@.len() as int).children@.len() == 0,
        post.task_of(pre.tasks@.len() as int).parent is Some ==> post.task_of(
            pre.tasks@.len() as int,
        ).parent->0 < pre.tasks@.len() && pre.occupied(
            post.task_of(pre.tasks@.len() as int).parent->0 as int,
        ),
    ensures
        post.wf(),
{
    let n = pre.tasks@.len() as int;
    assert forall|h: int| post.occupied(h) implies (#[trigger] post.task_of(h)).pid == h && (
    #[trigger] post.task_of(h)).wf() by {
        if h < n {
            assert(post.tasks@[h] == pre.tasks@[h]);
            assert(pre.task_of(h).pid == h);
            assert(pre.task_of(h).wf());
        }
    }
    assert forall|h: int|
        post.occupied(h) && (#[trigger] post.task_of(h)).parent is Some implies post.occupied(
        post.task_of(h).parent->0 as int,
    ) && post.task_of(h).parent->0 < h by {
        if h < n {
            assert(post.tasks@[h] == pre.tasks@[h]);
            assert(pre.occupied(pre.task_of(h).parent->0 as int));
            assert(post.tasks@[pre.task_of(h).parent->0 as int]
                == pre.tasks@[pre.task_of(h).parent->0 as int]);
        } else {
            if post.task_of(h).parent is Some {
                assert(post.tasks@[post.task_of(h).parent->0 as int]
                    == pre.tasks@[post.task_of(h).parent->0 as int]);
            }
        }
    }
    assert forall|h: int, j: int|
        post.occupied(h) && 0 <= j < post.task_of(h).children@.len() implies h
        < #[trigger] post.task_of(h).children@[j] && post.occupied(
        post.task_of(h).children@[j] as int,
    ) by {
        if h < n {
            assert(post.tasks@[h] == pre.tasks@[h]);
            assert(h < pre.task_of(h).children@[j] && pre.occupied(
                pre.task_of(h).children@[j] as int,
            ));
            assert(post.tasks@[pre.task_of(h).children@[j] as int]
                == pre.tasks@[pre.task_of(h).children@[j] as int]);
        }
    }
    assert forall|h1: int, j1: int, h2: int, j2: int|
        post.occupied(h1) && post.occupied(h2) && 0 <= j1 < post.task_of(h1).children@.len() && 0
            <= j2 < post.task_of(h2).children@.len() && (h1 != h2 || j1 != j2)
        implies #[trigger] post.task_of(h1).children@[j1] != #[trigger] post.task_of(
        h2,
    ).children@[j2] by {
        assert(h1 < n && h2 < n);
        assert(post.tasks@[h1] == pre.tasks@[h1]);
        assert(post.tasks@[h2] == pre.tasks@[h2]);
        assert(pre.task_of(h1).children@[j1] != pre.task_of(h2).children@[j2]);
    }
    assert forall|h: int, j: int|
        post.occupied(h) && 0 <= j < post.task_of(h).children@.len() implies (
    #[trigger] post.task_of(post.task_of(h).children@[j] as int).parent) == Some(h as usize) by {
        assert(h < n);
        assert(post.tasks@[h] == pre.tasks@[h]);
        let ch = pre.task_of(h).children@[j] as int;
        assert(pre.occupied(ch) && h < ch);
        assert(post.tasks@[ch] == pre.tasks@[ch]);
        assert(pre.task_of(ch).parent == Some(h as usize));
    }
}

/// Appending a fresh topmost handle to a task's child list keeps the table
/// invariant, provided the new child's back-reference points at that task.
proof fn lemma_child_appended(pre: TaskTable, post: TaskTable, h: int, c: usize)
    requires
        pre.wf(),
        pre.occupied(h),
        pre.occupied(c as int),
        h < c,
        pre.task_of(c as int).parent == Some(h as usize),
        forall|j: int|
            0 <= j < pre.tasks@.len() && j != h ==> #[trigger] post.tasks@[j] == pre.tasks@[j],
        post.tasks@.len() == pre.tasks@.len(),
        post.occupied(h),
        post.task_of(h) == (TaskControlBlock {
            children: post.task_of(h).children,
            ..pre.task_of(h)
        }),
        post.task_of(h).children@ == pre.task_of(h).children@.push(c),
        forall|g: int, j: int|
            pre.occupied(g) && 0 <= j < pre.task_of(g).children@.len()
                ==> #[trigger] pre.task_of(g).children@[j] != c,
    ensures
        post.wf(),
{
    let n = pre.tasks@.len() as int;
    let m = pre.task_of(h).children@.len() as int;
    assert forall|g: int| post.occupied(g) implies (#[trigger] post.task_of(g)).pid == g && (
    #[trigger] post.task_of(g)).wf() by {
        if g != h {
            assert(post.tasks@[g] == pre.tasks@[g]);
        }
        assert(pre.task_of(g).pid == g && pre.task_of(g).wf());
    }
    assert forall|g: int|
        post.occupied(g) && (#[trigger] post.task_of(g)).parent is Some implies post.occupied(
        post.task_of(g).parent->0 as int,
    ) && post.task_of(g).parent->0 < g by {
        if g != h {
            assert(post.tasks@[g] == pre.tasks@[g]);
        }
        assert(pre.occupied(g) && pre.task_of(g).parent == post.task_of(g).parent);
        let p = post.task_of(g).parent->0 as int;
        assert(pre.occupied(p));
        if p != h {
            assert(post.tasks@[p] == pre.tasks@[p]);
        }
    }
    assert forall|g: int, j: int|
        post.occupied(g) && 0 <= j < post.task_of(g).children@.len() implies g
        < #[trigger] post.task_of(g).children@[j] && post.occupied(
        post.task_of(g).children@[j] as int,
    ) by {
        if g != h {
            assert(post.tasks@[g] == pre.tasks@[g]);
            let ch = pre.task_of(g).children@[j] as int;
            assert(g < ch && pre.occupied(ch));
            if ch != h {
                assert(post.tasks@[ch] == pre.tasks@[ch]);
            }
        } else {
            if j < m {
                assert(post.task_of(h).children@[j] == pre.task_of(h).children@[j]);
                let ch = pre.task_of(h).children@[j] as int;
                assert(h < ch && pre.occupied(ch));
                if ch != h {
                    assert(post.tasks@[ch] == pre.tasks@[ch]);
                }
            } else {
                assert(post.task_of(h).children@[j] == c);
                assert(pre.occupied(c as int));
                if c as int != h {
                    assert(post.tasks@[c as int] == pre.tasks@[c as int]);
                }
            }
        }
    }
    assert forall|h1: int, j1: int, h2: int, j2: int|
        post.occupied(h1) && post.occupied(h2) && 0 <= j1 < post.task_of(h1).children@.len() && 0
            <= j2 < post.task_of(h2).children@.len() && (h1 != h2 || j1 != j2)
        implies #[trigger] post.task_of(h1).children@[j1] != #[trigger] post.task_of(
        h2,
    ).children@[j2] by {
        lemma_child_entry(pre, post, h, c, h1, j1);
        lemma_child_entry(pre, post, h, c, h2, j2);
        if h1 == h && j1 == m {
            assert(post.task_of(h1).children@[j1] == c);
            if !(h2 == h && j2 == m) {
                assert(post.task_of(h2).children@[j2] == pre.task_of(h2).children@[j2]);
                assert(pre.task_of(h2).children@[j2] != c);
            }
        } else if h2 == h && j2 == m {
            assert(post.task_of(h2).children@[j2] == c);
            assert(post.task_of(h1).children@[j1] == pre.task_of(h1).children@[j1]);
            assert(pre.task_of(h1).children@[j1] != c);
        } else {
            assert(post.task_of(h1).children@[j1] == pre.task_of(h1).children@[j1]);
            assert(post.task_of(h2).children@[j2] == pre.task_of(h2).children@[j2]);
            assert(pre.task_of(h1).children@[j1] != pre.task_of(h2).children@[j2]);
        }
    }
    assert forall|g: int, j: int|
        post.occupied(g) && 0 <= j < post.task_of(g).children@.len() implies (
    #[trigger] post.task_of(post.task_of(g).children@[j] as int).parent) == Some(g as usize) by {
        lemma_child_entry(pre, post, h, c, g, j);
        if g == h && j == m {
            assert(post.task_of(g).children@[j] == c);
            if c as int != h {
                assert(post.tasks@[c as int] == pre.tasks@[c as int]);
            }
        } else {
            let ch = pre.task_of(g).children@[j] as int;
            assert(pre.task_of(ch).parent == Some(g as usize));
            if ch == h {
                assert(post.task_of(h).parent == pre.task_of(h).parent);
            } else {
                assert(post.tasks@[ch] == pre.tasks@[ch]);
            }
        }
    }
}

/// A child list entry of the extended table is either an old entry at the
/// same place or the newly appended child.
proof fn lemma_child_entry(pre: TaskTable, post: TaskTable, h: int, c: usize, g: int, j: int)
    requires
        pre.wf(),
        pre.occupied(h),
        forall|k: int|
            0 <= k < pre.tasks@.len() && k != h ==> #[trigger] post.tasks@[k] == pre.tasks@[k],
        post.tasks@.len() == pre.tasks@.len(),
        post.occupied(h),
        post.task_of(h).children@ == pre.task_of(h).children@.push(c),
        post.occupied(g),
        0 <= j < post.task_of(g).children@.len(),
    ensures
        (g == h && j == pre.task_of(h).children@.len() && post.task_of(g).children@[j] == c) || (
        pre.occupied(g) && 0 <= j < pre.task_of(g).children@.len() && post.task_of(
            g,
        ).children@[j] == pre.task_of(g).children@[j]),
{
    if g != h {
        assert(post.tasks@[g] == pre.tasks@[g]);
    }
}

} // verus!
