//! Per-core scheduling: each core owns a record of its current task, fetches
//! ready tasks from the global ready queue, and on switching back decides —
//! requeue a yielded task, reap a dying one, or halt on a corrupted status.
//! The context switch itself is the sole suspension point and is hardware
//! work outside this core; these are the decisions around it.

use vstd::prelude::*;

use crate::error::{OSError, OSResult};
use crate::flags::PTEFlags;
use crate::frame::FrameAllocator;
use crate::task::{TaskControlBlock, TaskStatus, TaskTable, INIT_HANDLE};

verus! {

/// Per-core record of the currently dispatched task. The idle context the
/// core parks in is hardware state outside this model.
pub struct CpuLocal {
    /// The task this core is running, if any.
    pub current: Option<usize>,
}

impl CpuLocal {
    /// An idle core.
    pub fn new() -> (r: CpuLocal)
        ensures
            r.current is None,
    {
        CpuLocal { current: None }
    }

    /// Take the current task out, leaving the core idle.
    pub fn take_current(&mut self) -> (r: Option<usize>)
        ensures
            r == old(self).current,
            final(self).current is None,
    {
        self.current.take()
    }

    /// The current task, if any.
    pub fn current(&self) -> (r: Option<usize>)
        ensures
            r == self.current,
    {
        self.current
    }
}

/// The global ready queue: tasks runnable by any core, fetched in order.
pub struct ReadyQueue {
    /// The queued handles, oldest first.
    pub queue: Vec<usize>,
}

impl ReadyQueue {
    /// An empty queue.
    pub fn new() -> (r: ReadyQueue)
        ensures
            r.queue@.len() == 0,
    {
        ReadyQueue { queue: Vec::new() }
    }

    /// Append a ready task.
    pub fn push(&mut self, h: usize)
        ensures
            final(self).queue@ == old(self).queue@.push(h),
    {
        self.queue.push(h);
    }

    /// Take the oldest ready task, if any.
    pub fn fetch(&mut self) -> (r: Option<usize>)
        ensures
            old(self).queue@.len() == 0 ==> r is None && final(self).queue@ == old(self).queue@,
            old(self).queue@.len() > 0 ==> r == Some(old(self).queue@[0]) && final(self).queue@
                == old(self).queue@.drop_first(),
    {
        if self.queue.len() == 0 {
            return None;
        }
        let h = self.queue.remove(0);
        proof {
            assert(self.queue@ =~= old(self).queue@.drop_first());
        }
        Some(h)
    }
}

/// The dispatch discipline: every queued task is a live `Ready` task, no
/// task is queued twice, every core's current task is live, no two cores
/// run the same task, and no running task is still queued — at most one
/// core may consider a given task current at any instant.
pub open spec fn sched_wf(cpus: Seq<CpuLocal>, rqv: Seq<usize>, table: TaskTable) -> bool {
    &&& table.wf()
    &&& forall|j: int|
        0 <= j < rqv.len() ==> table.occupied(#[trigger] rqv[j] as int) && table.task_of(
            rqv[j] as int,
        ).task_status == TaskStatus::Ready
    &&& forall|j1: int, j2: int|
        0 <= j1 < rqv.len() && 0 <= j2 < rqv.len() && j1 != j2 ==> #[trigger] rqv[j1]
            != #[trigger] rqv[j2]
    &&& forall|i: int|
        0 <= i < cpus.len() && (#[trigger] cpus[i].current) is Some ==> table.occupied(
            cpus[i].current->0 as int,
        )
    &&& forall|i1: int, i2: int|
        0 <= i1 < cpus.len() && 0 <= i2 < cpus.len() && i1 != i2 && (
        #[trigger] cpus[i1].current) is Some && (#[trigger] cpus[i2].current) is Some
            ==> cpus[i1].current->0 != cpus[i2].current->0
    &&& forall|i: int, j: int|
        0 <= i < cpus.len() && 0 <= j < rqv.len() && (#[trigger] cpus[i].current) is Some
            ==> cpus[i].current->0 != #[trigger] rqv[j]
}

/// What the core found when it switched back from a task.
#[derive(Clone, Copy, Debug, PartialEq, Eq, Structural)]
pub enum SwitchOutcome {
    /// The task yielded and went back on the ready queue.
    Requeued,
    /// The task was dying and has been reaped to a zombie.
    Reaped,
    /// The core had no current task: a scheduler invariant violation, fatal.
    FatalNoCurrent,
    /// The task's status was corrupt: a scheduler invariant violation,
    /// fatal — the caller halts the core.
    FatalBadStatus,
}

/// Fetch the next ready task for an idle core: mark it `Running`, record it
/// as the core's current task. The caller then activates the task's address
/// space and performs the context switch. `None` leaves the core idle.
#[verifier::loop_isolation(false)]
pub fn dispatch_next(
    cpus: &mut Vec<CpuLocal>,
    cpu_id: usize,
    rq: &mut ReadyQueue,
    table: &mut TaskTable,
) -> (r: Option<usize>)
    requires
        sched_wf(old(cpus)@, old(rq).queue@, *old(table)),
        cpu_id < old(cpus)@.len(),
        old(cpus)@[cpu_id as int].current is None,
    ensures
        sched_wf(final(cpus)@, final(rq).queue@, *final(table)),
        old(rq).queue@.len() == 0 ==> r is None && final(cpus)@ == old(cpus)@ && final(rq).queue@
            == old(rq).queue@ && final(table).tasks@ == old(table).tasks@,
        old(rq).queue@.len() > 0 ==> ({
            let h = old(rq).queue@[0];
            &&& r == Some(h)
            &&& final(rq).queue@ == old(rq).queue@.drop_first()
            &&& final(cpus)@ == old(cpus)@.update(
                cpu_id as int,
                CpuLocal { current: Some(h) },
            )
            &&& final(table).occupied(h as int)
            &&& final(table).task_of(h as int) == (TaskControlBlock {
                task_status: TaskStatus::Running,
                ..old(table).task_of(h as int)
            })
            &&& forall|g: int|
                0 <= g < old(table).tasks@.len() && g != h ==> #[trigger] final(table).tasks@[g]
                    == old(table).tasks@[g]
        }),
{
    let h = match rq.fetch() {
        None => {
            return None;
        },
        Some(h) => h,
    };
    let ghost t0 = *table;
    let slot = &mut table.tasks[h];
    match slot {
        Some(t) => {
            t.task_status = TaskStatus::Running;
        },
        None => {},
    }
    proof {
        assert(table.tasks@ =~= t0.tasks@.update(h as int, Some(table.task_of(h as int))));
        crate::task::lemma_wf_fields_irrelevant(t0, *table);
    }
    let cslot = &mut cpus[cpu_id];
    cslot.current = Some(h);
    proof {
        assert(cpus@ =~= old(cpus)@.update(cpu_id as int, CpuLocal { current: Some(h) }));
        assert forall|j1: int, j2: int|
            0 <= j1 < rq.queue@.len() && 0 <= j2 < rq.queue@.len() && j1 != j2
            implies #[trigger] rq.queue@[j1] != #[trigger] rq.queue@[j2] by {
            assert(old(rq).queue@[j1 + 1] != old(rq).queue@[j2 + 1]);
        }
        assert forall|i: int, j: int|
            0 <= i < cpus@.len() && 0 <= j < rq.queue@.len() && (
            #[trigger] cpus@[i].current) is Some implies cpus@[i].current->0
            != #[trigger] rq.queue@[j] by {
            assert(rq.queue@[j] == old(rq).queue@[j + 1]);
            if i != cpu_id {
                assert(old(cpus)@[i].current->0 != old(rq).queue@[j + 1]);
            } else {
                assert(old(rq).queue@[0] != old(rq).queue@[j + 1]);
            }
        }
    }
    Some(h)
}

/// Decide what to do with the task this core just switched back from:
/// `Ready` goes back on the global queue, `Dying` is reaped into a zombie
/// with its children handed to the init task, anything else is a fatal
/// scheduler invariant violation the caller must halt on. The kernel page
/// table is reactivated by the caller before this runs.
#[verifier::loop_isolation(false)]
pub fn on_task_switched_out(
    cpus: &mut Vec<CpuLocal>,
    cpu_id: usize,
    rq: &mut ReadyQueue,
    table: &mut TaskTable,
) -> (r: SwitchOutcome)
    requires
        sched_wf(old(cpus)@, old(rq).queue@, *old(table)),
        cpu_id < old(cpus)@.len(),
        old(cpus)@[cpu_id as int].current is Some ==> ({
            let h = old(cpus)@[cpu_id as int].current->0;
            old(table).task_of(h as int).task_status == TaskStatus::Dying ==> (forall|j: int|
                0 <= j < old(table).task_of(h as int).children@.len() ==> !old(table).task_of(
                    #[trigger] old(table).task_of(h as int).children@[j] as int,
                ).locked) && (old(table).transfer_mode(h as int) ==> old(table).occupied(
                INIT_HANDLE as int,
            ) && h != INIT_HANDLE && !old(table).task_of(INIT_HANDLE as int).locked)
        }),
    ensures
        sched_wf(final(cpus)@, final(rq).queue@, *final(table)),
        final(cpus)@ == old(cpus)@.update(cpu_id as int, CpuLocal { current: None }),
        old(cpus)@[cpu_id as int].current is None ==> r == SwitchOutcome::FatalNoCurrent
            && final(rq).queue@ == old(rq).queue@ && final(table).tasks@ == old(table).tasks@,
        old(cpus)@[cpu_id as int].current is Some ==> ({
            let h = old(cpus)@[cpu_id as int].current->0;
            &&& old(table).task_of(h as int).task_status == TaskStatus::Ready ==> r
                == SwitchOutcome::Requeued && final(rq).queue@ == old(rq).queue@.push(h) && final(table).tasks@ == old(table).tasks@
            &&& old(table).task_of(h as int).task_status == TaskStatus::Dying ==> r
                == SwitchOutcome::Reaped && final(rq).queue@ == old(rq).queue@ && final(table).task_of(h as int).task_status == TaskStatus::Zombie && final(table).task_of(
                h as int,
            ).children@.len() == 0 && !final(table).task_of(h as int).signal_registered
            &&& !(old(table).task_of(h as int).task_status == TaskStatus::Ready || old(table).task_of(h as int).task_status == TaskStatus::Dying) ==> r
                == SwitchOutcome::FatalBadStatus && final(rq).queue@ == old(rq).queue@ && final(table).tasks@ == old(table).tasks@
        }),
{
    let cslot = &mut cpus[cpu_id];
    let taken = cslot.take_current();
    proof {
        assert(cpus@ =~= old(cpus)@.update(cpu_id as int, CpuLocal { current: None }));
    }
    let h = match taken {
        None => {
            return SwitchOutcome::FatalNoCurrent;
        },
        Some(h) => h,
    };
    let status = self_status(table, h);
    match status {
        TaskStatus::Ready => {
            rq.push(h);
            proof {
                assert forall|j1: int, j2: int|
                    0 <= j1 < rq.queue@.len() && 0 <= j2 < rq.queue@.len() && j1 != j2
                    implies #[trigger] rq.queue@[j1] != #[trigger] rq.queue@[j2] by {
                    if j1 == rq.queue@.len() - 1 {
                        assert(old(cpus)@[cpu_id as int].current->0 != old(rq).queue@[j2]);
                    } else if j2 == rq.queue@.len() - 1 {
                        assert(old(cpus)@[cpu_id as int].current->0 != old(rq).queue@[j1]);
                    } else {
                        assert(old(rq).queue@[j1] != old(rq).queue@[j2]);
                    }
                }
                assert forall|i: int, j: int|
                    0 <= i < cpus@.len() && 0 <= j < rq.queue@.len() && (
                    #[trigger] cpus@[i].current) is Some implies cpus@[i].current->0
                    != #[trigger] rq.queue@[j] by {
                    assert(i != cpu_id);
                    if j < rq.queue@.len() - 1 {
                        assert(old(cpus)@[i].current->0 != old(rq).queue@[j]);
                    } else {
                        assert(old(cpus)@[i].current->0 != old(cpus)@[cpu_id as int].current->0);
                    }
                }
            }
            SwitchOutcome::Requeued
        },
        TaskStatus::Dying => {
            let ghost t0 = *table;
            table.handle_zombie_task(h);
            proof {
                assert forall|g: int|
                    t0.occupied(g) && t0.task_of(g).task_status == TaskStatus::Ready
                    implies (#[trigger] table.task_of(g)).task_status == TaskStatus::Ready by {
                    if g != h && (t0.transfer_mode(h as int) ==> g != INIT_HANDLE as int)
                        && !t0.task_of(h as int).children@.contains(g as usize) {
                        assert(table.tasks@[g] == t0.tasks@[g]);
                    } else if g == INIT_HANDLE as int && t0.transfer_mode(h as int) {
                        assert(table.task_of(g).task_status == t0.task_of(g).task_status);
                    } else if t0.task_of(h as int).children@.contains(g as usize) {
                        let j = choose|j: int|
                            0 <= j < t0.task_of(h as int).children@.len() && t0.task_of(
                                h as int,
                            ).children@[j] == g as usize;
                        assert(table.task_of(t0.task_of(h as int).children@[j] as int)
                            == (TaskControlBlock {
                            parent: if t0.transfer_mode(h as int) {
                                Some(INIT_HANDLE)
                            } else {
                                None
                            },
                            ppid: if t0.transfer_mode(h as int) {
                                INIT_HANDLE
                            } else {
                                crate::constants::NO_PARENT
                            },
                            ..t0.task_of(t0.task_of(h as int).children@[j] as int)
                        }));
                    } else {
                        assert(table.tasks@[g] == t0.tasks@[g]);
                    }
                }
                lemma_reap_keeps_sched(t0, *table, cpus@, rq.queue@, h as int);
            }
            SwitchOutcome::Reaped
        },
        _ => SwitchOutcome::FatalBadStatus,
    }
}

/// The status of the task at `h`.
fn self_status(table: &TaskTable, h: usize) -> (r: TaskStatus)
    requires
        table.wf(),
        table.occupied(h as int),
    ensures
        r == table.task_of(h as int).task_status,
{
    table.tasks[h].as_ref().unwrap().get_status()
}

/// Reaping a task that sits on no core and in no queue position keeps the
/// dispatch discipline: the queue's tasks keep their slots and statuses.
proof fn lemma_reap_keeps_sched(
    pre: TaskTable,
    post: TaskTable,
    cpus: Seq<CpuLocal>,
    rqv: Seq<usize>,
    h: int,
)
    requires
        post.wf(),
        pre.tasks@.len() == post.tasks@.len(),
        forall|j: int|
            0 <= j < rqv.len() ==> pre.occupied(#[trigger] rqv[j] as int) && pre.task_of(
                rqv[j] as int,
            ).task_status == TaskStatus::Ready,
        forall|j1: int, j2: int|
            0 <= j1 < rqv.len() && 0 <= j2 < rqv.len() && j1 != j2 ==> #[trigger] rqv[j1]
                != #[trigger] rqv[j2],
        forall|i: int|
            0 <= i < cpus.len() && (#[trigger] cpus[i].current) is Some ==> pre.occupied(
                cpus[i].current->0 as int,
            ),
        forall|i1: int, i2: int|
            0 <= i1 < cpus.len() && 0 <= i2 < cpus.len() && i1 != i2 && (
            #[trigger] cpus[i1].current) is Some && (#[trigger] cpus[i2].current) is Some
                ==> cpus[i1].current->0 != cpus[i2].current->0,
        forall|i: int, j: int|
            0 <= i < cpus.len() && 0 <= j < rqv.len() && (#[trigger] cpus[i].current) is Some
                ==> cpus[i].current->0 != #[trigger] rqv[j],
        forall|g: int|
            0 <= g < pre.tasks@.len() ==> (#[trigger] post.occupied(g) <==> pre.occupied(g)),
        forall|g: int|
            pre.occupied(g) && pre.task_of(g).task_status == TaskStatus::Ready ==> (
            #[trigger] post.task_of(g)).task_status == TaskStatus::Ready,
    ensures
        sched_wf(cpus, rqv, post),
{
}

/// Mark this core's current task `Ready` again, before switching back to
/// the idle context: the yield path. The task stays current until the core
/// actually switches out.
pub fn suspend_current_task(cpus: &Vec<CpuLocal>, cpu_id: usize, table: &mut TaskTable)
    requires
        old(table).wf(),
        cpu_id < cpus@.len(),
        cpus@[cpu_id as int].current is Some,
        old(table).occupied(cpus@[cpu_id as int].current->0 as int),
    ensures
        final(table).wf(),
        final(table).task_of(cpus@[cpu_id as int].current->0 as int) == (TaskControlBlock {
            task_status: TaskStatus::Ready,
            ..old(table).task_of(cpus@[cpu_id as int].current->0 as int)
        }),
        final(table).tasks@.len() == old(table).tasks@.len(),
        forall|g: int|
            0 <= g < old(table).tasks@.len() && g != cpus@[cpu_id as int].current->0
                ==> #[trigger] final(table).tasks@[g] == old(table).tasks@[g],
{
    let h = match cpus[cpu_id].current() {
        Some(h) => h,
        None => {
            return ;
        },
    };
    let ghost t0 = *table;
    let slot = &mut table.tasks[h];
    match slot {
        Some(t) => {
            t.set_status(TaskStatus::Ready);
        },
        None => {},
    }
    proof {
        assert(table.tasks@ =~= t0.tasks@.update(h as int, Some(table.task_of(h as int))));
        crate::task::lemma_wf_fields_irrelevant(t0, *table);
    }
}

/// Mark this core's current task `Dying` and record its exit code, before
/// switching back to the idle context: the exit path. The switched-out
/// handler will reap it.
pub fn exit_current_task(
    exit_code: i32,
    cpus: &Vec<CpuLocal>,
    cpu_id: usize,
    table: &mut TaskTable,
)
    requires
        old(table).wf(),
        cpu_id < cpus@.len(),
        cpus@[cpu_id as int].current is Some,
        old(table).occupied(cpus@[cpu_id as int].current->0 as int),
    ensures
        final(table).wf(),
        final(table).task_of(cpus@[cpu_id as int].current->0 as int) == (TaskControlBlock {
            task_status: TaskStatus::Dying,
            exit_code,
            ..old(table).task_of(cpus@[cpu_id as int].current->0 as int)
        }),
        final(table).tasks@.len() == old(table).tasks@.len(),
        forall|g: int|
            0 <= g < old(table).tasks@.len() && g != cpus@[cpu_id as int].current->0
                ==> #[trigger] final(table).tasks@[g] == old(table).tasks@[g],
{
    let h = match cpus[cpu_id].current() {
        Some(h) => h,
        None => {
            return ;
        },
    };
    let ghost t0 = *table;
    let slot = &mut table.tasks[h];
    match slot {
        Some(t) => {
            t.set_status(TaskStatus::Dying);
            t.set_exit_code(exit_code);
        },
        None => {},
    }
    proof {
        assert(table.tasks@ =~= t0.tasks@.update(h as int, Some(table.task_of(h as int))));
        crate::task::lemma_wf_fields_irrelevant(t0, *table);
    }
}

/// Route a user page fault to the current task's address space; a fault on
/// an idle core has no handler.
pub fn handle_user_page_fault(
    cpus: &Vec<CpuLocal>,
    cpu_id: usize,
    table: &mut TaskTable,
    vaddr: usize,
    access_flags: PTEFlags,
    allocator: &mut FrameAllocator,
) -> (r: OSResult<()>)
    requires
        old(table).wf(),
        old(allocator).wf(),
        cpu_id < cpus@.len(),
        cpus@[cpu_id as int].current is Some ==> old(table).occupied(
            cpus@[cpu_id as int].current->0 as int,
        ),
    ensures
        final(table).wf(),
        final(allocator).wf(),
        cpus@[cpu_id as int].current is None ==> r == OSResult::<()>::Err(
            OSError::Task_NoTrapHandler,
        ) && final(table).tasks@ == old(table).tasks@,
        cpus@[cpu_id as int].current is Some ==> ({
            let h = cpus@[cpu_id as int].current->0;
            &&& !old(table).task_of(h as int).vm.has_area_for(vaddr) ==> r == OSResult::<()>::Err(
                OSError::PageTable_PageNotMapped,
            )
            &&& old(table).task_of(h as int).vm.has_area_for(vaddr)
                ==> crate::memory_set::fault_dispatch(
                old(table).task_of(h as int).vm,
                final(table).task_of(h as int).vm,
                *old(allocator),
                *final(allocator),
                vaddr,
                access_flags,
                r,
            )
            &&& forall|g: int|
                0 <= g < old(table).tasks@.len() && g != h ==> #[trigger] final(table).tasks@[g]
                    == old(table).tasks@[g]
        }),
{
    let h = match cpus[cpu_id].current() {
        Some(h) => h,
        None => {
            return Err(OSError::Task_NoTrapHandler);
        },
    };
    let ghost t0 = *table;
    let slot = &mut table.tasks[h];
    let r = match slot {
        Some(t) => t.vm.handle_page_fault(vaddr, access_flags, allocator),
        None => Err(OSError::Task_NoTrapHandler),
    };
    proof {
        assert(table.tasks@ =~= t0.tasks@.update(h as int, Some(table.task_of(h as int))));
        crate::task::lemma_wf_fields_irrelevant(t0, *table);
    }
    r
}

/// The handle of the task this core is running, if any.
pub fn get_current_task(cpus: &Vec<CpuLocal>, cpu_id: usize) -> (r: Option<usize>)
    requires
        cpu_id < cpus@.len(),
    ensures
        r == cpus@[cpu_id as int].current,
{
    cpus[cpu_id].current()
}

} // verus!
