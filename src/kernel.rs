use vstd::prelude::*;

use crate::error::KernelError;
use crate::fifo::Fifo;
use crate::memory::{end_of, round_4k, MemMan, MEM_END};
use crate::mt::{Task, TaskFlag, TaskManager, MAX_TASKLEVELS, MAX_TASKS, MAX_TASKS_LV};
use crate::timer::{TimerFlag, TimerKind, TimerManager, MAX_TIMER, TIMEOUT_MAX};

verus! {

/// Every queue of the arena is well formed.
pub open spec fn fifos_ok(fifos: Seq<Fifo>) -> bool {
    forall|i: int| 0 <= i < fifos.len() ==> (#[trigger] fifos[i]).wf()
}

/// Whether a message for a queue bound to task `t` makes `t` run: it is
/// asleep and its level has room.
pub open spec fn wakeable(tasks: &TaskManager, t: usize) -> bool {
    &&& t < MAX_TASKS
    &&& tasks.task(t as int).flag == TaskFlag::Used
    &&& tasks.task(t as int).level < MAX_TASKLEVELS
    &&& tasks.ring(tasks.task(t as int).level as int).len() < MAX_TASKS_LV
}

/// The messages that the expired timers `fired` send to queue `f`, in order.
pub open spec fn deliveries(fired: Seq<TimerKind>, f: usize) -> Seq<u32>
    decreases fired.len(),
{
    if fired.len() == 0 {
        Seq::empty()
    } else {
        let rest = deliveries(fired.drop_last(), f);
        match fired.last() {
            TimerKind::AppEvent { fifo, data } => if fifo == f {
                rest.push(data as u32)
            } else {
                rest
            },
            TimerKind::Scheduling => rest,
        }
    }
}

/// What a queue of `cap` slots holds after `msgs` are put into it in turn
/// and none is taken: those that found room.
pub open spec fn kept(msgs: Seq<u32>, cap: nat) -> Seq<u32> {
    if msgs.len() <= cap {
        msgs
    } else {
        msgs.take(cap as int)
    }
}

/// Whether one of the timers `fired` is the scheduling timer.
pub open spec fn slice_over(fired: Seq<TimerKind>) -> bool {
    exists|p: int| 0 <= p < fired.len() && fired[p] == TimerKind::Scheduling
}

/// Puts `data` into queue `f`. If it found room and the queue is bound to
/// a task that sleeps, that task is made to run again at its level.
pub fn deliver(fifos: &mut Vec<Fifo>, tasks: &mut TaskManager, f: usize, data: u32) -> (r: Result<
    (),
    KernelError,
>)
    requires
        fifos_ok(old(fifos)@),
        old(tasks).wf(),
        f < old(fifos)@.len(),
    ensures
        fifos_ok(final(fifos)@),
        final(tasks).wf(),
        final(fifos)@.len() == old(fifos)@.len(),
        forall|g: int| 0 <= g < old(fifos)@.len() && g != f ==> #[trigger] final(fifos)@[g] == old(fifos)@[g],
        final(fifos)@[f as int].capacity() == old(fifos)@[f as int].capacity(),
        final(fifos)@[f as int].bound_task() == old(fifos)@[f as int].bound_task(),
        old(fifos)@[f as int]@.len() < old(fifos)@[f as int].capacity() ==> {
            &&& r is Ok
            &&& final(fifos)@[f as int]@ == old(fifos)@[f as int]@.push(data)
            &&& final(fifos)@[f as int].overflowed() == old(fifos)@[f as int].overflowed()
        },
        old(fifos)@[f as int]@.len() == old(fifos)@[f as int].capacity() ==> {
            &&& r == Err::<(), KernelError>(KernelError::FifoOverrun)
            &&& final(fifos)@[f as int]@ == old(fifos)@[f as int]@
            &&& final(fifos)@[f as int].overflowed()
        },
        ({
            let t = old(fifos)@[f as int].bound_task();
            if r is Ok && t is Some && wakeable(old(tasks), t->0) {
                &&& final(tasks).task(t->0 as int).flag == TaskFlag::Running
                &&& TaskManager::run_rings(
                    old(tasks),
                    final(tasks),
                    t->0,
                    old(tasks).task(t->0 as int).level as int,
                )
                &&& forall|i: int|
                    0 <= i < MAX_TASKS && i != t->0 ==> #[trigger] final(tasks).task(i) == old(
                        tasks,
                    ).task(i)
            } else {
                *final(tasks) == *old(tasks)
            }
        }),
{
    let r = fifos[f].put(data);
    proof {
        assert forall|g: int| 0 <= g < fifos@.len() implies (#[trigger] fifos@[g]).wf() by {
            if g != f {
                assert(fifos@[g] == old(fifos)@[g]);
            }
        }
    }
    if r.is_ok() {
        match fifos[f].task_index() {
            Some(t) => {
                if t < MAX_TASKS {
                    let task = tasks.task_at(t);
                    if task.flag == TaskFlag::Used && task.level < MAX_TASKLEVELS
                        && tasks.running_count(task.level) < MAX_TASKS_LV {
                        tasks.run(t, -1, 0);
                    }
                }
            },
            None => {},
        }
    }
    r
}

/// Putting one more message into a queue that holds what `kept` says it
/// holds keeps it so.
proof fn lemma_kept_push(msgs: Seq<u32>, d: u32, cap: nat)
    ensures
        kept(msgs, cap).len() < cap ==> kept(msgs.push(d), cap) == kept(msgs, cap).push(d),
        kept(msgs, cap).len() >= cap ==> kept(msgs.push(d), cap) == kept(msgs, cap),
{
    if msgs.len() < cap {
        assert(kept(msgs.push(d), cap) == msgs.push(d));
    } else {
        assert(kept(msgs.push(d), cap) =~= msgs.push(d).take(cap as int));
        assert(msgs.push(d).take(cap as int) =~= msgs.take(cap as int));
        if msgs.len() == cap {
            assert(msgs.take(cap as int) =~= msgs);
        }
    }
}

/// Carries out what the expired timers `fired` were set to do, in order:
/// each message goes to its queue, waking the queue's task as `deliver`
/// does; a message for a full queue, or for no queue, is dropped. Returns
/// whether the time slice is over.
pub fn dispatch(fired: &Vec<TimerKind>, fifos: &mut Vec<Fifo>, tasks: &mut TaskManager) -> (r: bool)
    requires
        fifos_ok(old(fifos)@),
        old(tasks).wf(),
    ensures
        fifos_ok(final(fifos)@),
        final(tasks).wf(),
        final(fifos)@.len() == old(fifos)@.len(),
        forall|g: int|
            0 <= g < old(fifos)@.len() ==> {
                &&& (#[trigger] final(fifos)@[g])@ == kept(
                    old(fifos)@[g]@ + deliveries(fired@, g as usize),
                    old(fifos)@[g].capacity(),
                )
                &&& final(fifos)@[g].capacity() == old(fifos)@[g].capacity()
                &&& final(fifos)@[g].bound_task() == old(fifos)@[g].bound_task()
            },
        r == slice_over(fired@),
{
    let mut need_switch = false;
    let mut i: usize = 0;
    proof {
        assert forall|g: int| 0 <= g < fifos@.len() implies (#[trigger] fifos@[g])@ == kept(
            old(fifos)@[g]@ + deliveries(fired@.take(0), g as usize),
            old(fifos)@[g].capacity(),
        ) by {
            assert(fired@.take(0) =~= Seq::<TimerKind>::empty());
            assert(old(fifos)@[g]@ + Seq::<u32>::empty() =~= old(fifos)@[g]@);
            old(fifos)@[g].lemma_len_le_capacity();
        }
    }
    while i < fired.len()
        invariant
            fifos_ok(fifos@),
            tasks.wf(),
            i <= fired@.len(),
            fifos@.len() == old(fifos)@.len(),
            forall|g: int|
                0 <= g < old(fifos)@.len() ==> {
                    &&& (#[trigger] fifos@[g])@ == kept(
                        old(fifos)@[g]@ + deliveries(fired@.take(i as int), g as usize),
                        old(fifos)@[g].capacity(),
                    )
                    &&& fifos@[g].capacity() == old(fifos)@[g].capacity()
                    &&& fifos@[g].bound_task() == old(fifos)@[g].bound_task()
                },
            need_switch == slice_over(fired@.take(i as int)),
        decreases fired@.len() - i,
    {
        let k = fired[i];
        let ghost before = fifos@;
        let ghost t1 = fired@.take(i as int + 1);
        proof {
            assert(t1.drop_last() =~= fired@.take(i as int));
            assert(t1.last() == k);
        }
        match k {
            TimerKind::Scheduling => {
                need_switch = true;
            },
            TimerKind::AppEvent { fifo, data } => {
                if fifo < fifos.len() {
                    proof {
                        fifos@[fifo as int].lemma_len_le_capacity();
                    }
                    let _ = deliver(fifos, tasks, fifo, data as u32);
                }
            },
        }
        proof {
            assert forall|g: int| 0 <= g < old(fifos)@.len() implies {
                &&& (#[trigger] fifos@[g])@ == kept(
                    old(fifos)@[g]@ + deliveries(t1, g as usize),
                    old(fifos)@[g].capacity(),
                )
                &&& fifos@[g].capacity() == old(fifos)@[g].capacity()
                &&& fifos@[g].bound_task() == old(fifos)@[g].bound_task()
            } by {
                let prev = old(fifos)@[g]@ + deliveries(fired@.take(i as int), g as usize);
                let cap = old(fifos)@[g].capacity();
                match k {
                    TimerKind::AppEvent { fifo, data } => {
                        if fifo == g as usize {
                            assert(deliveries(t1, g as usize) == deliveries(
                                fired@.take(i as int),
                                g as usize,
                            ).push(data as u32));
                            assert(old(fifos)@[g]@ + deliveries(t1, g as usize) =~= prev.push(
                                data as u32,
                            ));
                            lemma_kept_push(prev, data as u32, cap);
                        } else {
                            assert(deliveries(t1, g as usize) == deliveries(
                                fired@.take(i as int),
                                g as usize,
                            ));
                            assert(fifos@[g] == before[g]);
                        }
                    },
                    TimerKind::Scheduling => {
                        assert(deliveries(t1, g as usize) == deliveries(
                            fired@.take(i as int),
                            g as usize,
                        ));
                    },
                }
            }
            if slice_over(t1) {
                let p = choose|p: int| 0 <= p < t1.len() && t1[p] == TimerKind::Scheduling;
                if p < i {
                    assert(fired@.take(i as int)[p] == TimerKind::Scheduling);
                }
            }
            if slice_over(fired@.take(i as int)) {
                let p = choose|p: int|
                    0 <= p < i && fired@.take(i as int)[p] == TimerKind::Scheduling;
                assert(t1[p] == TimerKind::Scheduling);
            }
            if k == TimerKind::Scheduling {
                assert(t1[i as int] == TimerKind::Scheduling);
            }
        }
        i = i + 1;
    }
    proof {
        assert(fired@.take(i as int) =~= fired@);
    }
    need_switch
}

/// Length of the time slice of a task of priority `priority` at tick `now`:
/// its priority, or 1 tick if that is not positive, cut short where the
/// counter would reach the sentinel's expiry.
pub open spec fn slice_len(priority: i32, now: u32) -> u32 {
    let want: int = if priority > 0 {
        priority as int
    } else {
        1
    };
    let room: int = TIMEOUT_MAX - 1 - now;
    (if want <= room {
        want
    } else {
        room
    }) as u32
}

/// Ends the running task's time slice: lets the task manager pick the next
/// task, and arms the scheduling timer `sched` for that task's slice.
/// Returns the task to transfer control to, if it is not the one that ran.
pub fn task_switch(tasks: &mut TaskManager, timers: &mut TimerManager, sched: usize) -> (r: Option<
    usize,
>)
    requires
        old(tasks).wf(),
        old(timers).wf(),
        sched < MAX_TIMER,
        old(timers).slot(sched as int).flag != TimerFlag::Available,
        old(timers).ticks() < TIMEOUT_MAX - 1,
        old(tasks).level_changed() ==> old(tasks).has_runnable(),
        !old(tasks).level_changed() ==> old(tasks).ring(old(tasks).now_level()).len() > 0,
    ensures
        final(tasks).wf(),
        final(timers).wf(),
        TaskManager::switched(old(tasks), final(tasks)),
        final(timers).ticks() == old(timers).ticks(),
        final(timers).entry(sched as int) == (
            (old(timers).ticks() + slice_len(
                final(tasks).task(final(tasks).current() as int).priority,
                old(timers).ticks(),
            )) as u32,
            TimerFlag::Counting,
            old(timers).entry(sched as int).2,
            old(timers).entry(sched as int).3,
        ),
        forall|j: int|
            0 <= j <= crate::timer::SENTINEL && j != sched ==> #[trigger] final(timers).entry(j)
                == old(timers).entry(j),
        r == if old(tasks).ring(old(tasks).now_level()).len() > 0 && old(tasks).current()
            == final(tasks).current() {
            None
        } else {
            Some(final(tasks).current())
        },
{
    let lv = tasks.current_level();
    let prev: Option<usize> = if tasks.running_count(lv) > 0 {
        Some(tasks.now_index())
    } else {
        None
    };
    let next = tasks.switch();
    proof {
        tasks.lemma_current_runs();
    }
    let t = tasks.task_at(next);
    timers.cancel(sched);
    let now = timers.count();
    let want: u32 = if t.priority > 0 {
        t.priority as u32
    } else {
        1
    };
    let room: u32 = TIMEOUT_MAX - 1 - now;
    let delta: u32 = if want <= room {
        want
    } else {
        room
    };
    timers.set_time(sched, delta);
    match prev {
        Some(p) => if p == next {
            None
        } else {
            Some(next)
        },
        None => Some(next),
    }
}

/// Size of the stack of the idle task.
pub const IDLE_STACK_SIZE: u32 = 64 * 1024;

/// Size of a task's own queue, as allocated.
pub const TASK_FIFO_BYTES: u32 = 128 * 4;

/// Time slice of the first task.
pub const FIRST_PRIORITY: i32 = 2;

/// Data segment selector of a kernel task.
pub const KERNEL_DS: i32 = 1 * 8;

/// Code segment selector of a kernel task.
pub const KERNEL_CS: i32 = 2 * 8;

/// Starts multitasking on an empty task manager: the caller becomes the
/// first task, running at level 0 with a slice of 2 ticks and `fifo` as its
/// queue; a scheduling timer is armed for that slice; an idle task, which
/// starts at `idle_entry` on a fresh 64 KiB stack, runs at the last level
/// with a slice of 1 tick. Returns the first task and the scheduling timer.
pub fn bootstrap(
    tasks: &mut TaskManager,
    timers: &mut TimerManager,
    memman: &mut MemMan,
    fifo: usize,
    idle_entry: i32,
) -> (r: Result<(usize, usize), KernelError>)
    requires
        old(tasks).wf(),
        old(timers).wf(),
        old(memman).wf(),
        old(timers).ticks() < TIMEOUT_MAX - 2,
        forall|l: int| 0 <= l < MAX_TASKLEVELS ==> #[trigger] old(tasks).ring(l).len() == 0,
    ensures
        final(tasks).wf(),
        final(timers).wf(),
        final(memman).wf(),
        match r {
            Ok((main, sched)) => {
                &&& main < MAX_TASKS
                &&& sched < MAX_TIMER
                &&& final(tasks).task(main as int).flag == TaskFlag::Running
                &&& final(tasks).task(main as int).level == 0
                &&& final(tasks).task(main as int).priority == FIRST_PRIORITY
                &&& final(tasks).task(main as int).fifo_addr == fifo
                &&& final(tasks).ring(0) == seq![main]
                &&& exists|idle: usize|
                    {
                        &&& idle < MAX_TASKS
                        &&& idle != main
                        &&& final(tasks).ring(MAX_TASKLEVELS - 1) == seq![idle]
                        &&& final(tasks).task(idle as int).priority == 1
                        &&& final(tasks).task(idle as int).tss.eip == idle_entry
                    }
                &&& forall|l: int|
                    0 < l < MAX_TASKLEVELS - 1 ==> #[trigger] final(tasks).ring(l).len() == 0
                &&& final(timers).slot(sched as int).flag == TimerFlag::Counting
                &&& final(timers).slot(sched as int).kind == TimerKind::Scheduling
                &&& final(timers).timeout_of(sched) == old(timers).ticks() + 2
            },
            Err(e) => e == KernelError::CannotAllocateTask || e == KernelError::CannotAssignTimer
                || e == KernelError::CannotAllocateMemory,
        },
        ({
            &&& exists|a: int, b: int|
                0 <= a < b < MAX_TASKS && #[trigger] old(tasks).task(a).flag == TaskFlag::Available
                    && #[trigger] old(tasks).task(b).flag == TaskFlag::Available
            &&& exists|j: int|
                0 <= j < MAX_TIMER && #[trigger] old(timers).slot(j).flag == TimerFlag::Available
            &&& exists|i: int|
                0 <= i < old(memman).blocks().len() && (#[trigger] old(memman).blocks()[i]).size
                    >= IDLE_STACK_SIZE
        }) ==> r is Ok,
{
    let ghost t0 = *tasks;
    let main = tasks.allocate()?;
    let mut t = tasks.task_at(main);
    t.fifo_addr = fifo;
    tasks.update_task(main, t);
    tasks.run(main, 0, FIRST_PRIORITY);
    tasks.switchsub();
    let sched = timers.allocate()?;
    timers.init_scheduling(sched);
    timers.set_time(sched, FIRST_PRIORITY as u32);
    proof {
        if exists|a: int, b: int|
            0 <= a < b < MAX_TASKS && #[trigger] t0.task(a).flag == TaskFlag::Available
                && #[trigger] t0.task(b).flag == TaskFlag::Available {
            let (a, b) = choose|a: int, b: int|
                0 <= a < b < MAX_TASKS && #[trigger] t0.task(a).flag == TaskFlag::Available
                    && #[trigger] t0.task(b).flag == TaskFlag::Available;
            let other = if a == main as int {
                b
            } else {
                a
            };
            assert(tasks.task(other).flag == TaskFlag::Available);
        }
    }
    let idle = tasks.allocate()?;
    let stack = memman.alloc_4k(IDLE_STACK_SIZE)?;
    proof {
        assert(round_4k(IDLE_STACK_SIZE) == IDLE_STACK_SIZE);
    }
    let mut it = tasks.task_at(idle);
    it.tss.esp = (stack as u64 + IDLE_STACK_SIZE as u64) as i32;
    it.tss.eip = idle_entry;
    it.tss.es = KERNEL_DS;
    it.tss.cs = KERNEL_CS;
    it.tss.ss = KERNEL_DS;
    it.tss.ds = KERNEL_DS;
    it.tss.fs = KERNEL_DS;
    it.tss.gs = KERNEL_DS;
    tasks.update_task(idle, it);
    tasks.run(idle, (MAX_TASKLEVELS - 1) as i32, 1);
    proof {
        assert(final(tasks).ring(0) =~= seq![main]);
        assert(final(tasks).ring(MAX_TASKLEVELS - 1) =~= seq![idle]);
    }
    Ok((main, sched))
}

/// Gives `[addr, addr + size)`, rounded up to whole pages, back to the
/// allocator if it lies below `MEM_END` and overlaps no free block; a
/// block that is already free is not freed twice.
fn give_back(memman: &mut MemMan, addr: usize, size: u32)
    requires
        old(memman).wf(),
        0 < size <= MEM_END - 0xfff,
    ensures
        final(memman).wf(),
{
    let s4 = round_4k_exec(size);
    if addr <= MEM_END as usize && addr as u64 + s4 as u64 <= MEM_END as u64 {
        let a = addr as u32;
        if !memman.overlaps(a, s4) {
            let _ = memman.free_4k(a, size);
        }
    }
}

/// `size` rounded up to whole 4 KiB pages.
fn round_4k_exec(size: u32) -> (r: u32)
    requires
        size <= MEM_END - 0xfff,
    ensures
        r == round_4k(size),
{
    let x = size + 0xfff;
    let r = x & crate::memory::PAGE_MASK;
    proof {
        assert(x & 0xffff_f000u32 == (x / 0x1000u32) * 0x1000u32) by (bit_vector);
        assert((x / 0x1000) * 0x1000 <= x) by (nonlinear_arith)
            requires
                x >= 0,
        ;
    }
    r
}

/// Ends task `idx`: puts it to sleep, gives its stack and its queue back
/// to the allocator, and frees its slot. Returns the task to transfer
/// control to, as `sleep` does.
pub fn close_task(tasks: &mut TaskManager, memman: &mut MemMan, idx: usize) -> (r: Option<usize>)
    requires
        old(tasks).wf(),
        old(memman).wf(),
        idx < MAX_TASKS,
    ensures
        final(tasks).wf(),
        final(memman).wf(),
        final(tasks).task(idx as int).flag == TaskFlag::Available,
        forall|i: int| 0 <= i < MAX_TASKS && i != idx ==> #[trigger] final(tasks).task(i) == old(tasks).task(i),
        forall|l: int| 0 <= l < MAX_TASKLEVELS ==> !(#[trigger] final(tasks).ring(l)).contains(idx),
        r is Some ==> r->0 == final(tasks).current() && final(tasks).ring(final(tasks).now_level()).len() > 0,
{
    let r = tasks.sleep(idx);
    let t = tasks.task_at(idx);
    give_back(memman, t.console_stack, IDLE_STACK_SIZE);
    give_back(memman, t.fifo_addr, TASK_FIFO_BYTES);
    tasks.release(idx);
    proof {
        tasks.lemma_ring_membership(idx);
    }
    r
}

} // verus!
