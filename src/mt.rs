use vstd::prelude::*;

use crate::descriptor_table::SegmentDescriptor;
use crate::error::KernelError;

verus! {

/// Size of the task pool.
pub const MAX_TASKS: usize = 1000;

/// Number of tasks a level can hold.
pub const MAX_TASKS_LV: usize = 100;

/// Number of priority levels; the last one belongs to the idle task.
pub const MAX_TASKLEVELS: usize = 10;

/// Flags image of a new task: interrupts enabled.
pub const TASK_EFLAGS: i32 = 0x0000_0202;

/// I/O map base of a new task: no I/O permission map.
pub const TASK_IOMAP: i32 = 0x4000_0000;

/// Saved register file and segment selectors of a task.
#[derive(Debug, Clone, Copy)]
pub struct TSS {
    pub backlink: i32,
    pub esp0: i32,
    pub ss0: i32,
    pub esp1: i32,
    pub ss1: i32,
    pub esp2: i32,
    pub ss2: i32,
    pub cr3: i32,
    pub eip: i32,
    pub eflags: i32,
    pub eax: i32,
    pub ecx: i32,
    pub edx: i32,
    pub ebx: i32,
    pub esp: i32,
    pub ebp: i32,
    pub esi: i32,
    pub edi: i32,
    pub es: i32,
    pub cs: i32,
    pub ss: i32,
    pub ds: i32,
    pub fs: i32,
    pub gs: i32,
    pub ldtr: i32,
    pub iomap: i32,
}

/// The context with every register zero.
pub open spec fn zeroed_tss() -> TSS {
    TSS {
        backlink: 0,
        esp0: 0,
        ss0: 0,
        esp1: 0,
        ss1: 0,
        esp2: 0,
        ss2: 0,
        cr3: 0,
        eip: 0,
        eflags: 0,
        eax: 0,
        ecx: 0,
        edx: 0,
        ebx: 0,
        esp: 0,
        ebp: 0,
        esi: 0,
        edi: 0,
        es: 0,
        cs: 0,
        ss: 0,
        ds: 0,
        fs: 0,
        gs: 0,
        ldtr: 0,
        iomap: 0,
    }
}

impl Default for TSS {
    fn default() -> (r: TSS)
        ensures
            r == zeroed_tss(),
    {
        TSS {
            backlink: 0,
            esp0: 0,
            ss0: 0,
            esp1: 0,
            ss1: 0,
            esp2: 0,
            ss2: 0,
            cr3: 0,
            eip: 0,
            eflags: 0,
            eax: 0,
            ecx: 0,
            edx: 0,
            ebx: 0,
            esp: 0,
            ebp: 0,
            esi: 0,
            edi: 0,
            es: 0,
            cs: 0,
            ss: 0,
            ds: 0,
            fs: 0,
            gs: 0,
            ldtr: 0,
            iomap: 0,
        }
    }
}

/// Scheduling state of a task slot.
#[derive(Debug, Clone, Copy, PartialEq, Eq, Structural)]
pub enum TaskFlag {
    Available,
    Used,
    Running,
}

/// One slot of the task pool.
#[derive(Debug, Clone, Copy)]
pub struct Task {
    /// Selector of the task's state segment.
    pub select: i32,
    pub flag: TaskFlag,
    /// Priority level: 0 is served first.
    pub level: usize,
    /// Length of the task's time slice, in ticks.
    pub priority: i32,
    pub tss: TSS,
    /// Handle of the task's own queue.
    pub fifo_addr: usize,
    pub console_addr: usize,
    pub ds_base: usize,
    /// Base of the task's stack.
    pub console_stack: usize,
    pub ldt: [SegmentDescriptor; 2],
}

impl Task {
    /// A free slot.
    pub fn new() -> (r: Task)
        ensures
            r.flag == TaskFlag::Available,
            r.level == 0,
            r.priority == 2,
            r.tss == zeroed_tss(),
    {
        Task {
            select: 0,
            flag: TaskFlag::Available,
            level: 0,
            priority: 2,
            tss: TSS::default(),
            fifo_addr: 0,
            console_addr: 0,
            ds_base: 0,
            console_stack: 0,
            ldt: [SegmentDescriptor::new(0, 0, 0), SegmentDescriptor::new(0, 0, 0)],
        }
    }
}

/// The ring of running tasks of one level, served round robin.
#[derive(Clone, Copy)]
pub struct TaskLevel {
    pub running_count: usize,
    /// Position in `tasks` of the task whose turn it is.
    pub now_running: usize,
    pub tasks: [usize; MAX_TASKS_LV],
}

/// The tasks in the ring of `l`, in the order they joined it.
pub open spec fn ring_of(l: TaskLevel) -> Seq<usize> {
    l.tasks@.take(l.running_count as int)
}

/// The count fits the array and the cursor points into the ring, or is 0
/// for an empty ring.
pub open spec fn level_ok(l: TaskLevel) -> bool {
    &&& l.running_count <= MAX_TASKS_LV
    &&& (l.running_count == 0 ==> l.now_running == 0)
    &&& (l.running_count > 0 ==> l.now_running < l.running_count)
}

impl TaskLevel {
    /// An empty ring.
    pub fn new() -> (r: TaskLevel)
        ensures
            r.running_count == 0,
            r.now_running == 0,
            level_ok(r),
            ring_of(r) == Seq::<usize>::empty(),
    {
        let r = TaskLevel { running_count: 0, now_running: 0, tasks: [0usize; MAX_TASKS_LV] };
        assert(ring_of(r) =~= Seq::<usize>::empty());
        r
    }
}

/// Every task in the ring of level `lv` runs at level `lv`, and no task is
/// in a ring twice.
#[verifier::opaque]
spec fn rings_ok(levels: Seq<TaskLevel>, tasks: Seq<Task>) -> bool {
    forall|lv: int|
        0 <= lv < levels.len() ==> {
            &&& ring_of(#[trigger] levels[lv]).no_duplicates()
            &&& forall|p: int|
                0 <= p < ring_of(levels[lv]).len() ==> {
                    let t = #[trigger] ring_of(levels[lv])[p];
                    &&& t < tasks.len()
                    &&& tasks[t as int].flag == TaskFlag::Running
                    &&& tasks[t as int].level == lv
                }
        }
}

/// Every running task is in the ring of its level.
#[verifier::opaque]
spec fn running_ok(levels: Seq<TaskLevel>, tasks: Seq<Task>) -> bool {
    forall|t: int|
        0 <= t < tasks.len() && (#[trigger] tasks[t]).flag == TaskFlag::Running ==> {
            &&& tasks[t].level < levels.len()
            &&& ring_of(levels[tasks[t].level as int]).contains(t as usize)
        }
}

/// Joining task `idx` to the end of the ring of its level keeps rings and
/// states in agreement.
proof fn lemma_join(
    levels: Seq<TaskLevel>,
    tasks: Seq<Task>,
    nlevels: Seq<TaskLevel>,
    ntasks: Seq<Task>,
    idx: usize,
)
    requires
        rings_ok(levels, tasks),
        running_ok(levels, tasks),
        tasks.len() == MAX_TASKS,
        idx < tasks.len(),
        tasks[idx as int].flag != TaskFlag::Running,
        tasks[idx as int].level < levels.len(),
        ntasks == tasks.update(idx as int, Task { flag: TaskFlag::Running, ..tasks[idx as int] }),
        nlevels.len() == levels.len(),
        forall|l: int|
            0 <= l < levels.len() && l != tasks[idx as int].level ==> #[trigger] nlevels[l]
                == levels[l],
        ring_of(nlevels[tasks[idx as int].level as int]) == ring_of(
            levels[tasks[idx as int].level as int],
        ).push(idx),
    ensures
        rings_ok(nlevels, ntasks),
        running_ok(nlevels, ntasks),
{
    reveal(rings_ok);
    reveal(running_ok);
    let lv = tasks[idx as int].level as int;
    assert(!ring_of(levels[lv]).contains(idx)) by {
        if ring_of(levels[lv]).contains(idx) {
            let p = choose|p: int| 0 <= p < ring_of(levels[lv]).len() && ring_of(levels[lv])[p] == idx;
            assert(tasks[ring_of(levels[lv])[p] as int].flag == TaskFlag::Running);
        }
    }
    assert forall|l: int| 0 <= l < nlevels.len() implies {
        &&& ring_of(#[trigger] nlevels[l]).no_duplicates()
        &&& forall|p: int|
            0 <= p < ring_of(nlevels[l]).len() ==> {
                let t = #[trigger] ring_of(nlevels[l])[p];
                &&& t < ntasks.len()
                &&& ntasks[t as int].flag == TaskFlag::Running
                &&& ntasks[t as int].level == l
            }
    } by {
        if l == lv {
            let r = ring_of(levels[lv]);
            assert forall|a: int, b: int| 0 <= a < b < r.push(idx).len() implies r.push(idx)[a]
                != r.push(idx)[b] by {
                if b == r.len() {
                    assert(r[a] != idx);
                }
            }
            assert forall|p: int| 0 <= p < ring_of(nlevels[l]).len() implies {
                let t = #[trigger] ring_of(nlevels[l])[p];
                &&& t < ntasks.len()
                &&& ntasks[t as int].flag == TaskFlag::Running
                &&& ntasks[t as int].level == l
            } by {
                if p < r.len() {
                    assert(ring_of(nlevels[l])[p] == r[p]);
                    assert(r[p] != idx);
                }
            }
        } else {
            assert(nlevels[l] == levels[l]);
            assert forall|p: int| 0 <= p < ring_of(nlevels[l]).len() implies {
                let t = #[trigger] ring_of(nlevels[l])[p];
                &&& t < ntasks.len()
                &&& ntasks[t as int].flag == TaskFlag::Running
                &&& ntasks[t as int].level == l
            } by {
                let t = ring_of(levels[l])[p];
                assert(tasks[t as int].level == l);
                assert(t != idx);
            }
        }
    }
    assert forall|t: int| 0 <= t < ntasks.len() && (#[trigger] ntasks[t]).flag == TaskFlag::Running implies {
        &&& ntasks[t].level < nlevels.len()
        &&& ring_of(nlevels[ntasks[t].level as int]).contains(t as usize)
    } by {
        if t == idx {
            assert(ring_of(nlevels[lv])[ring_of(levels[lv]).len() as int] == idx);
        } else {
            assert(ntasks[t] == tasks[t]);
            let tl = tasks[t].level as int;
            let p = choose|p: int| 0 <= p < ring_of(levels[tl]).len() && ring_of(levels[tl])[p] == t as usize;
            if tl == lv {
                assert(ring_of(nlevels[tl])[p] == t as usize);
            }
        }
    }
}

/// Taking task `idx` out of the ring of its level, at position `pos`, keeps
/// rings and states in agreement.
proof fn lemma_leave(
    levels: Seq<TaskLevel>,
    tasks: Seq<Task>,
    nlevels: Seq<TaskLevel>,
    ntasks: Seq<Task>,
    idx: usize,
    pos: int,
)
    requires
        rings_ok(levels, tasks),
        running_ok(levels, tasks),
        tasks.len() == MAX_TASKS,
        idx < tasks.len(),
        tasks[idx as int].flag == TaskFlag::Running,
        tasks[idx as int].level < levels.len(),
        0 <= pos < ring_of(levels[tasks[idx as int].level as int]).len(),
        ring_of(levels[tasks[idx as int].level as int])[pos] == idx,
        ntasks == tasks.update(idx as int, Task { flag: TaskFlag::Used, ..tasks[idx as int] }),
        nlevels.len() == levels.len(),
        forall|l: int|
            0 <= l < levels.len() && l != tasks[idx as int].level ==> #[trigger] nlevels[l]
                == levels[l],
        ring_of(nlevels[tasks[idx as int].level as int]) == ring_of(
            levels[tasks[idx as int].level as int],
        ).remove(pos),
    ensures
        rings_ok(nlevels, ntasks),
        running_ok(nlevels, ntasks),
{
    reveal(rings_ok);
    reveal(running_ok);
    let lv = tasks[idx as int].level as int;
    let r = ring_of(levels[lv]);
    let nr = r.remove(pos);
    r.remove_ensures(pos);
    assert forall|q: int| 0 <= q < nr.len() implies #[trigger] nr[q] == r[if q < pos {
        q
    } else {
        q + 1
    }] by {}
    assert forall|l: int| 0 <= l < nlevels.len() implies {
        &&& ring_of(#[trigger] nlevels[l]).no_duplicates()
        &&& forall|p: int|
            0 <= p < ring_of(nlevels[l]).len() ==> {
                let t = #[trigger] ring_of(nlevels[l])[p];
                &&& t < ntasks.len()
                &&& ntasks[t as int].flag == TaskFlag::Running
                &&& ntasks[t as int].level == l
            }
    } by {
        if l == lv {
            assert forall|a: int, b: int| 0 <= a < b < nr.len() implies nr[a] != nr[b] by {
                let oa = if a < pos { a } else { a + 1 };
                let ob = if b < pos { b } else { b + 1 };
                assert(r[oa] != r[ob]);
            }
            assert forall|p: int| 0 <= p < ring_of(nlevels[l]).len() implies {
                let t = #[trigger] ring_of(nlevels[l])[p];
                &&& t < ntasks.len()
                &&& ntasks[t as int].flag == TaskFlag::Running
                &&& ntasks[t as int].level == l
            } by {
                let op = if p < pos { p } else { p + 1 };
                assert(nr[p] == r[op]);
                assert(r[op] != r[pos]);
            }
        } else {
            assert(nlevels[l] == levels[l]);
            assert forall|p: int| 0 <= p < ring_of(nlevels[l]).len() implies {
                let t = #[trigger] ring_of(nlevels[l])[p];
                &&& t < ntasks.len()
                &&& ntasks[t as int].flag == TaskFlag::Running
                &&& ntasks[t as int].level == l
            } by {
                let t = ring_of(levels[l])[p];
                assert(tasks[t as int].level == l);
                assert(t != idx);
            }
        }
    }
    assert forall|t: int| 0 <= t < ntasks.len() && (#[trigger] ntasks[t]).flag == TaskFlag::Running implies {
        &&& ntasks[t].level < nlevels.len()
        &&& ring_of(nlevels[ntasks[t].level as int]).contains(t as usize)
    } by {
        assert(t != idx);
        assert(ntasks[t] == tasks[t]);
        let tl = tasks[t].level as int;
        let p = choose|p: int| 0 <= p < ring_of(levels[tl]).len() && ring_of(levels[tl])[p] == t as usize;
        if tl == lv {
            assert(r[p] != r[pos]);
            assert(p != pos);
            if p < pos {
                assert(nr[p] == t as usize);
            } else {
                assert(nr[p - 1] == t as usize);
            }
        }
    }
}

/// Levels whose rings hold the same tasks keep rings and states in
/// agreement.
proof fn lemma_same_rings(levels: Seq<TaskLevel>, nlevels: Seq<TaskLevel>, tasks: Seq<Task>)
    requires
        rings_ok(levels, tasks),
        running_ok(levels, tasks),
        nlevels.len() == levels.len(),
        forall|l: int| 0 <= l < levels.len() ==> ring_of(#[trigger] nlevels[l]) == ring_of(levels[l]),
    ensures
        rings_ok(nlevels, tasks),
        running_ok(nlevels, tasks),
{
    reveal(rings_ok);
    reveal(running_ok);
    assert forall|l: int| 0 <= l < nlevels.len() implies {
        &&& ring_of(#[trigger] nlevels[l]).no_duplicates()
        &&& forall|p: int|
            0 <= p < ring_of(nlevels[l]).len() ==> {
                let t = #[trigger] ring_of(nlevels[l])[p];
                &&& t < tasks.len()
                &&& tasks[t as int].flag == TaskFlag::Running
                &&& tasks[t as int].level == l
            }
    } by {
        assert(ring_of(nlevels[l]) == ring_of(levels[l]));
    }
    assert forall|t: int| 0 <= t < tasks.len() && (#[trigger] tasks[t]).flag == TaskFlag::Running implies {
        &&& tasks[t].level < nlevels.len()
        &&& ring_of(nlevels[tasks[t].level as int]).contains(t as usize)
    } by {
        assert(ring_of(nlevels[tasks[t].level as int]) == ring_of(levels[tasks[t].level as int]));
    }
}

/// The task pool and the priority levels that schedule it.
pub struct TaskManager {
    now_lv: usize,
    lv_change: bool,
    level: Vec<TaskLevel>,
    tasks_data: Vec<Task>,
}

impl TaskManager {
    /// Rings and task states agree.
    pub closed spec fn wf(&self) -> bool {
        &&& self.tasks_data@.len() == MAX_TASKS
        &&& self.level@.len() == MAX_TASKLEVELS
        &&& self.now_lv < MAX_TASKLEVELS
        &&& forall|lv: int| 0 <= lv < MAX_TASKLEVELS ==> level_ok(#[trigger] self.level@[lv])
        &&& rings_ok(self.level@, self.tasks_data@)
        &&& running_ok(self.level@, self.tasks_data@)
    }

    /// Slot `i` of the pool.
    pub closed spec fn task(&self, i: int) -> Task {
        self.tasks_data@[i]
    }

    /// The ring of level `lv`.
    pub closed spec fn ring(&self, lv: int) -> Seq<usize> {
        ring_of(self.level@[lv])
    }

    /// Position in the ring of level `lv` whose turn it is.
    pub closed spec fn cursor(&self, lv: int) -> int {
        self.level@[lv].now_running as int
    }

    /// The level being served.
    pub closed spec fn now_level(&self) -> int {
        self.now_lv as int
    }

    /// Whether a ring changed since the level served was last chosen.
    pub closed spec fn level_changed(&self) -> bool {
        self.lv_change
    }

    /// The task whose turn it is on the level being served.
    pub open spec fn current(&self) -> usize {
        self.ring(self.now_level())[self.cursor(self.now_level())]
    }

    /// Whether level `lv` is the one `switchsub` picks: the lowest level
    /// with a task in its ring, or the last level if every ring is empty.
    pub open spec fn is_lowest_busy(&self, lv: int) -> bool {
        &&& 0 <= lv < MAX_TASKLEVELS
        &&& forall|l: int| 0 <= l < lv ==> #[trigger] self.ring(l).len() == 0
        &&& (self.ring(lv).len() > 0 || lv == MAX_TASKLEVELS - 1)
    }

    /// Whether some ring holds a task.
    pub open spec fn has_runnable(&self) -> bool {
        exists|l: int| 0 <= l < MAX_TASKLEVELS && #[trigger] self.ring(l).len() > 0
    }

    /// Same tasks, same rings and same cursors as `o`.
    pub open spec fn same_pool(&self, o: &Self) -> bool {
        &&& forall|i: int| 0 <= i < MAX_TASKS ==> #[trigger] self.task(i) == o.task(i)
        &&& forall|l: int|
            0 <= l < MAX_TASKLEVELS ==> #[trigger] self.ring(l) == o.ring(l) && self.cursor(l)
                == o.cursor(l)
    }

    /// Whether `new` is `old` with task `idx` taken out of the ring of level
    /// `lv`, the cursor following the task it pointed at, or going back to
    /// the start of the ring if that was the last.
    pub open spec fn removed_at(old: &Self, new: &Self, lv: int, idx: usize) -> bool {
        exists|pos: int|
            {
                &&& 0 <= pos < old.ring(lv).len()
                &&& old.ring(lv)[pos] == idx
                &&& new.ring(lv) == old.ring(lv).remove(pos)
                &&& new.cursor(lv) == ({
                    let c = if pos < old.cursor(lv) {
                        old.cursor(lv) - 1
                    } else {
                        old.cursor(lv)
                    };
                    if c >= new.ring(lv).len() {
                        0
                    } else {
                        c
                    }
                })
            }
    }

    /// What `wf` says of the rings, for callers in this module.
    proof fn lemma_rings(&self)
        requires
            self.wf(),
        ensures
            forall|lv: int| 0 <= lv < MAX_TASKLEVELS ==> (#[trigger] self.ring(lv)).no_duplicates(),
            forall|lv: int, p: int|
                0 <= lv < MAX_TASKLEVELS && 0 <= p < self.ring(lv).len() ==> {
                    let t = #[trigger] self.ring(lv)[p];
                    &&& t < MAX_TASKS
                    &&& self.task(t as int).flag == TaskFlag::Running
                    &&& self.task(t as int).level == lv
                },
            forall|t: int|
                0 <= t < MAX_TASKS && (#[trigger] self.task(t)).flag == TaskFlag::Running ==> {
                    &&& self.task(t).level < MAX_TASKLEVELS
                    &&& self.ring(self.task(t).level as int).contains(t as usize)
                },
            forall|lv: int| 0 <= lv < MAX_TASKLEVELS ==> self.ring(lv).len() <= MAX_TASKS_LV,
    {
        reveal(rings_ok);
        reveal(running_ok);
        assert forall|lv: int| 0 <= lv < MAX_TASKLEVELS implies self.ring(lv).len()
            <= MAX_TASKS_LV by {
            assert(level_ok(self.level@[lv]));
        }
        assert forall|lv: int, p: int|
            0 <= lv < MAX_TASKLEVELS && 0 <= p < self.ring(lv).len() implies {
            let t = #[trigger] self.ring(lv)[p];
            &&& t < MAX_TASKS
            &&& self.task(t as int).flag == TaskFlag::Running
            &&& self.task(t as int).level == lv
        } by {
            assert(ring_of(self.level@[lv])[p] == self.ring(lv)[p]);
        }
    }

    /// An empty pool: every slot free, every ring empty, level 0 served.
    pub fn new() -> (r: TaskManager)
        ensures
            r.wf(),
            r.now_level() == 0,
            !r.level_changed(),
            forall|i: int| 0 <= i < MAX_TASKS ==> #[trigger] r.task(i).flag == TaskFlag::Available,
            forall|lv: int| 0 <= lv < MAX_TASKLEVELS ==> #[trigger] r.ring(lv).len() == 0,
    {
        let mut tasks_data: Vec<Task> = Vec::new();
        let mut i: usize = 0;
        while i < MAX_TASKS
            invariant
                i <= MAX_TASKS,
                tasks_data@.len() == i,
                forall|j: int| 0 <= j < i ==> #[trigger] tasks_data@[j].flag == TaskFlag::Available,
            decreases MAX_TASKS - i,
        {
            tasks_data.push(Task::new());
            i = i + 1;
        }
        let mut level: Vec<TaskLevel> = Vec::new();
        let mut lv: usize = 0;
        while lv < MAX_TASKLEVELS
            invariant
                lv <= MAX_TASKLEVELS,
                level@.len() == lv,
                forall|j: int|
                    0 <= j < lv ==> level_ok(#[trigger] level@[j]) && level@[j].running_count == 0,
            decreases MAX_TASKLEVELS - lv,
        {
            level.push(TaskLevel::new());
            lv = lv + 1;
        }
        let r = TaskManager { now_lv: 0, lv_change: false, level, tasks_data };
        proof {
            reveal(rings_ok);
            reveal(running_ok);
            assert forall|j: int| 0 <= j < MAX_TASKLEVELS implies #[trigger] r.ring(j).len() == 0 by {
                assert(r.level@[j].running_count == 0);
            }
        }
        r
    }

    /// The task whose turn it is on the level being served.
    pub fn now_index(&self) -> (r: usize)
        requires
            self.wf(),
            self.ring(self.now_level()).len() > 0,
        ensures
            r == self.current(),
            r < MAX_TASKS,
            self.task(r as int).flag == TaskFlag::Running,
    {
        proof {
            self.lemma_rings();
        }
        let tl = self.level[self.now_lv];
        tl.tasks[tl.now_running]
    }

    /// A copy of slot `i`.
    pub fn task_at(&self, i: usize) -> (r: Task)
        requires
            self.wf(),
            i < MAX_TASKS,
        ensures
            r == self.task(i as int),
    {
        self.tasks_data[i]
    }

    /// Number of tasks in the ring of level `lv`.
    pub fn running_count(&self, lv: usize) -> (r: usize)
        requires
            self.wf(),
            lv < MAX_TASKLEVELS,
        ensures
            r == self.ring(lv as int).len(),
    {
        self.level[lv].running_count
    }

    /// Puts task `idx`, which is not running, at the end of the ring of its
    /// level and marks it running.
    pub fn add_task(&mut self, idx: usize)
        requires
            old(self).wf(),
            idx < MAX_TASKS,
            old(self).task(idx as int).flag != TaskFlag::Running,
            old(self).task(idx as int).level < MAX_TASKLEVELS,
            old(self).ring(old(self).task(idx as int).level as int).len() < MAX_TASKS_LV,
        ensures
            final(self).wf(),
            final(self).task(idx as int) == (Task { flag: TaskFlag::Running, ..old(self).task(idx as int) }),
            forall|i: int| 0 <= i < MAX_TASKS && i != idx ==> #[trigger] final(self).task(i) == old(self).task(i),
            final(self).ring(old(self).task(idx as int).level as int) == old(self).ring(
                old(self).task(idx as int).level as int,
            ).push(idx),
            forall|l: int|
                0 <= l < MAX_TASKLEVELS && l != old(self).task(idx as int).level ==> #[trigger] final(self).ring(l)
                    == old(self).ring(l),
            forall|l: int| 0 <= l < MAX_TASKLEVELS ==> #[trigger] final(self).cursor(l) == old(self).cursor(l),
            final(self).now_level() == old(self).now_level(),
            final(self).level_changed() == old(self).level_changed(),
    {
        let lv = self.tasks_data[idx].level;
        let mut l = self.level[lv];
        let n = l.running_count;
        l.tasks[n] = idx;
        l.running_count = n + 1;
        self.level.set(lv, l);
        let mut t = self.tasks_data[idx];
        t.flag = TaskFlag::Running;
        self.tasks_data.set(idx, t);
        proof {
            let ol = old(self).level@[lv as int];
            assert(ring_of(l) =~= ring_of(ol).push(idx));
            lemma_join(old(self).level@, old(self).tasks_data@, self.level@, self.tasks_data@, idx);
            assert(level_ok(l));
        }
    }

    /// Takes running task `idx` out of the ring of its level and marks it
    /// used. The cursor keeps pointing at the same task, or at the start of
    /// the ring if that task was the last.
    pub fn remove_task(&mut self, idx: usize)
        requires
            old(self).wf(),
            idx < MAX_TASKS,
            old(self).task(idx as int).flag == TaskFlag::Running,
        ensures
            final(self).wf(),
            final(self).task(idx as int) == (Task { flag: TaskFlag::Used, ..old(self).task(idx as int) }),
            forall|i: int| 0 <= i < MAX_TASKS && i != idx ==> #[trigger] final(self).task(i) == old(self).task(i),
            Self::removed_at(old(self), final(self), old(self).task(idx as int).level as int, idx),
            forall|l: int|
                0 <= l < MAX_TASKLEVELS && l != old(self).task(idx as int).level ==> #[trigger] final(self).ring(l)
                    == old(self).ring(l) && final(self).cursor(l) == old(self).cursor(l),
            final(self).now_level() == old(self).now_level(),
            final(self).level_changed() == old(self).level_changed(),
    {
        proof {
            self.lemma_rings();
        }
        let lv = self.tasks_data[idx].level;
        let mut l = self.level[lv];
        let ghost r = ring_of(l);
        proof {
            assert(r.contains(idx));
        }
        let mut order: usize = 0;
        while l.tasks[order] != idx
            invariant
                l == self.level@[lv as int],
                r == ring_of(l),
                r.contains(idx),
                level_ok(l),
                order < l.running_count,
                forall|j: int| 0 <= j < order ==> r[j] != idx,
            decreases l.running_count - order,
        {
            order = order + 1;
            proof {
                if order == l.running_count {
                    let p = choose|p: int| 0 <= p < r.len() && r[p] == idx;
                    assert(false);
                }
            }
        }
        let ghost pos = order as int;
        let ghost ocur = l.now_running as int;
        l.running_count = l.running_count - 1;
        if order < l.now_running {
            l.now_running = l.now_running - 1;
        }
        if l.now_running >= l.running_count {
            l.now_running = 0;
        }
        let ghost orig = l.tasks@;
        let ghost nl = l;
        proof {
            assert(r == orig.take(l.running_count + 1));
        }
        let mut i: usize = order;
        while i < l.running_count
            invariant
                l.running_count == nl.running_count,
                l.now_running == nl.now_running,
                orig.len() == MAX_TASKS_LV,
                order <= i <= l.running_count,
                l.running_count < MAX_TASKS_LV,
                l.tasks@.len() == MAX_TASKS_LV,
                forall|j: int|
                    0 <= j < MAX_TASKS_LV ==> #[trigger] l.tasks@[j] == (if order <= j < i {
                        orig[j + 1]
                    } else {
                        orig[j]
                    }),
            decreases l.running_count - i,
        {
            l.tasks[i] = l.tasks[i + 1];
            i = i + 1;
        }
        proof {
            assert(ring_of(l) =~= r.remove(pos)) by {
                r.remove_ensures(pos);
            }
        }
        self.level.set(lv, l);
        let mut t = self.tasks_data[idx];
        t.flag = TaskFlag::Used;
        self.tasks_data.set(idx, t);
        proof {
            lemma_leave(
                old(self).level@,
                old(self).tasks_data@,
                self.level@,
                self.tasks_data@,
                idx,
                pos,
            );
            assert(level_ok(l));
        }
    }

    /// Serves the lowest level that has a task in its ring.
    pub fn switchsub(&mut self)
        requires
            old(self).wf(),
        ensures
            final(self).wf(),
            final(self).same_pool(old(self)),
            final(self).is_lowest_busy(final(self).now_level()),
            !final(self).level_changed(),
    {
        let mut i: usize = 0;
        while i < MAX_TASKLEVELS - 1 && self.level[i].running_count == 0
            invariant
                self.wf(),
                *self == *old(self),
                i < MAX_TASKLEVELS,
                forall|l: int| 0 <= l < i ==> #[trigger] self.ring(l).len() == 0,
            decreases MAX_TASKLEVELS - i,
        {
            proof {
                assert(level_ok(self.level@[i as int]));
            }
            i = i + 1;
        }
        proof {
            assert(level_ok(self.level@[i as int]));
        }
        let ghost prev = *self;
        self.now_lv = i;
        self.lv_change = false;
        proof {
            assert forall|l: int| 0 <= l < i implies #[trigger] self.ring(l).len() == 0 by {
                assert(prev.ring(l).len() == 0);
            }
            assert(self.ring(i as int).len() > 0 || i == MAX_TASKLEVELS - 1);
        }
    }

    /// Hands out the lowest free slot, marked used, with a fresh flags image
    /// and no I/O permission map.
    pub fn allocate(&mut self) -> (r: Result<usize, KernelError>)
        requires
            old(self).wf(),
        ensures
            final(self).wf(),
            forall|l: int|
                0 <= l < MAX_TASKLEVELS ==> #[trigger] final(self).ring(l) == old(self).ring(l)
                    && final(self).cursor(l) == old(self).cursor(l),
            final(self).now_level() == old(self).now_level(),
            final(self).level_changed() == old(self).level_changed(),
            match r {
                Ok(i) => {
                    &&& i < MAX_TASKS
                    &&& old(self).task(i as int).flag == TaskFlag::Available
                    &&& forall|j: int| 0 <= j < i ==> #[trigger] old(self).task(j).flag != TaskFlag::Available
                    &&& final(self).task(i as int) == (Task {
                        flag: TaskFlag::Used,
                        tss: TSS {
                            eflags: TASK_EFLAGS,
                            iomap: TASK_IOMAP,
                            ..old(self).task(i as int).tss
                        },
                        ..old(self).task(i as int)
                    })
                    &&& forall|j: int| 0 <= j < MAX_TASKS && j != i ==> #[trigger] final(self).task(j) == old(self).task(j)
                },
                Err(e) => {
                    &&& e == KernelError::CannotAllocateTask
                    &&& forall|j: int| 0 <= j < MAX_TASKS ==> #[trigger] old(self).task(j).flag != TaskFlag::Available
                    &&& *final(self) == *old(self)
                },
            },
    {
        let mut i: usize = 0;
        while i < MAX_TASKS
            invariant
                self.wf(),
                *self == *old(self),
                i <= MAX_TASKS,
                forall|j: int| 0 <= j < i ==> #[trigger] self.task(j).flag != TaskFlag::Available,
            decreases MAX_TASKS - i,
        {
            if self.tasks_data[i].flag == TaskFlag::Available {
                let mut t = self.tasks_data[i];
                t.flag = TaskFlag::Used;
                t.tss.eflags = TASK_EFLAGS;
                t.tss.iomap = TASK_IOMAP;
                self.tasks_data.set(i, t);
                proof {
                    reveal(rings_ok);
                    reveal(running_ok);
                    let ot = old(self).tasks_data@;
                    let nt = self.tasks_data@;
                    let ls = self.level@;
                    assert forall|lv: int| 0 <= lv < ls.len() implies {
                        &&& ring_of(#[trigger] ls[lv]).no_duplicates()
                        &&& forall|p: int|
                            0 <= p < ring_of(ls[lv]).len() ==> {
                                let t = #[trigger] ring_of(ls[lv])[p];
                                &&& t < nt.len()
                                &&& nt[t as int].flag == TaskFlag::Running
                                &&& nt[t as int].level == lv
                            }
                    } by {
                        assert forall|p: int| 0 <= p < ring_of(ls[lv]).len() implies {
                            let t = #[trigger] ring_of(ls[lv])[p];
                            &&& t < nt.len()
                            &&& nt[t as int].flag == TaskFlag::Running
                            &&& nt[t as int].level == lv
                        } by {
                            let t = ring_of(ls[lv])[p];
                            assert(ot[t as int].flag == TaskFlag::Running);
                        }
                    }
                    assert forall|t: int| 0 <= t < nt.len() && (#[trigger] nt[t]).flag == TaskFlag::Running implies {
                        &&& nt[t].level < ls.len()
                        &&& ring_of(ls[nt[t].level as int]).contains(t as usize)
                    } by {
                        assert(nt[t] == ot[t]);
                    }
                }
                return Ok(i);
            }
            i = i + 1;
        }
        Err(KernelError::CannotAllocateTask)
    }

    /// Level that `run(idx, level, _)` puts task `idx` on: `level`, or the
    /// task's own level when `level` is negative.
    pub open spec fn run_level(&self, idx: usize, level: i32) -> int {
        if level < 0 {
            self.task(idx as int).level as int
        } else {
            level as int
        }
    }

    /// How `run` changes the rings when it puts task `idx` on level `lv`:
    /// nothing if it runs there already; else it leaves the ring of its old
    /// level, if it ran, and joins the end of the ring of `lv`.
    pub open spec fn run_rings(old: &Self, new: &Self, idx: usize, lv: int) -> bool {
        let was = old.task(idx as int);
        if was.flag == TaskFlag::Running && was.level == lv {
            forall|l: int|
                0 <= l < MAX_TASKLEVELS ==> #[trigger] new.ring(l) == old.ring(l) && new.cursor(l)
                    == old.cursor(l)
        } else {
            &&& (was.flag == TaskFlag::Running ==> Self::removed_at(old, new, was.level as int, idx))
            &&& new.ring(lv) == old.ring(lv).push(idx)
            &&& new.cursor(lv) == old.cursor(lv)
            &&& forall|l: int|
                0 <= l < MAX_TASKLEVELS && l != lv && (was.flag != TaskFlag::Running || l
                    != was.level) ==> #[trigger] new.ring(l) == old.ring(l) && new.cursor(l)
                    == old.cursor(l)
        }
    }

    /// Makes task `idx` run at the given level (its own if `level` is
    /// negative), moving it there if it runs at another one, and sets its
    /// time slice to `priority` if that is positive.
    pub fn run(&mut self, idx: usize, level: i32, priority: i32)
        requires
            old(self).wf(),
            idx < MAX_TASKS,
            old(self).task(idx as int).flag != TaskFlag::Available,
            old(self).run_level(idx, level) < MAX_TASKLEVELS,
            !(old(self).task(idx as int).flag == TaskFlag::Running && old(self).task(
                idx as int,
            ).level == old(self).run_level(idx, level)) ==> old(self).ring(
                old(self).run_level(idx, level),
            ).len() < MAX_TASKS_LV,
        ensures
            final(self).wf(),
            final(self).level_changed(),
            final(self).now_level() == old(self).now_level(),
            final(self).task(idx as int) == (Task {
                flag: TaskFlag::Running,
                level: old(self).run_level(idx, level) as usize,
                priority: if priority > 0 {
                    priority
                } else {
                    old(self).task(idx as int).priority
                },
                ..old(self).task(idx as int)
            }),
            forall|i: int| 0 <= i < MAX_TASKS && i != idx ==> #[trigger] final(self).task(i) == old(self).task(i),
            Self::run_rings(old(self), final(self), idx, old(self).run_level(idx, level)),
    {
        proof {
            self.lemma_rings();
        }
        let task = self.tasks_data[idx];
        let lv: usize = if level < 0 {
            task.level
        } else {
            level as usize
        };
        if priority > 0 {
            let mut t = self.tasks_data[idx];
            t.priority = priority;
            self.tasks_data.set(idx, t);
            proof {
                Self::lemma_same_membership(*old(self), self, idx);
            }
        }
        let ghost mid1 = *self;
        proof {
            assert forall|i: int| 0 <= i < MAX_TASKS && i != idx implies #[trigger] mid1.task(i)
                == old(self).task(i) by {}
            assert forall|l: int| 0 <= l < MAX_TASKLEVELS implies #[trigger] mid1.ring(l) == old(
                self,
            ).ring(l) && mid1.cursor(l) == old(self).cursor(l) by {}
        }
        if task.flag == TaskFlag::Running && task.level != lv {
            self.remove_task(idx);
        }
        let ghost mid2 = *self;
        let ghost mut mid3 = *self;
        if self.tasks_data[idx].flag != TaskFlag::Running {
            let mut t = self.tasks_data[idx];
            t.level = lv;
            self.tasks_data.set(idx, t);
            proof {
                mid3 = *self;
                Self::lemma_same_membership(mid2, self, idx);
                assert forall|i: int| 0 <= i < MAX_TASKS && i != idx implies #[trigger] mid3.task(i)
                    == mid2.task(i) by {}
                assert forall|l: int| 0 <= l < MAX_TASKLEVELS implies #[trigger] mid3.ring(l)
                    == mid2.ring(l) && mid3.cursor(l) == mid2.cursor(l) by {}
            }
            self.add_task(idx);
        }
        let ghost mid4 = *self;
        self.lv_change = true;
        proof {
            assert forall|i: int| 0 <= i < MAX_TASKS && i != idx implies #[trigger] self.task(i)
                == old(self).task(i) by {
                assert(mid4.task(i) == mid2.task(i));
                assert(mid2.task(i) == mid1.task(i));
            }
            assert forall|l: int| 0 <= l < MAX_TASKLEVELS implies #[trigger] self.ring(l) == mid4.ring(
                l,
            ) && self.cursor(l) == mid4.cursor(l) by {}
            if task.flag == TaskFlag::Running && task.level == lv {
                assert forall|l: int| 0 <= l < MAX_TASKLEVELS implies #[trigger] self.ring(l)
                    == old(self).ring(l) && self.cursor(l) == old(self).cursor(l) by {
                    assert(mid4.ring(l) == mid1.ring(l) && mid4.cursor(l) == mid1.cursor(l));
                }
                assert(Self::run_rings(old(self), self, idx, lv as int));
            } else if task.flag == TaskFlag::Running {
                assert(Self::removed_at(&mid1, &mid2, task.level as int, idx));
                let pos = choose|pos: int|
                    {
                        &&& 0 <= pos < mid1.ring(task.level as int).len()
                        &&& mid1.ring(task.level as int)[pos] == idx
                        &&& mid2.ring(task.level as int) == mid1.ring(task.level as int).remove(pos)
                        &&& mid2.cursor(task.level as int) == ({
                            let c = if pos < mid1.cursor(task.level as int) {
                                mid1.cursor(task.level as int) - 1
                            } else {
                                mid1.cursor(task.level as int)
                            };
                            if c >= mid2.ring(task.level as int).len() {
                                0
                            } else {
                                c
                            }
                        })
                    };
                assert(self.ring(task.level as int) == mid2.ring(task.level as int));
                assert(Self::removed_at(old(self), self, task.level as int, idx));
                assert forall|l: int|
                    0 <= l < MAX_TASKLEVELS && l != lv && l != task.level implies #[trigger] self.ring(l)
                    == old(self).ring(l) && self.cursor(l) == old(self).cursor(l) by {
                    assert(mid4.ring(l) == mid3.ring(l) && mid4.cursor(l) == mid3.cursor(l));
                    assert(mid3.ring(l) == mid2.ring(l) && mid3.cursor(l) == mid2.cursor(l));
                    assert(mid2.ring(l) == mid1.ring(l) && mid2.cursor(l) == mid1.cursor(l));
                }
                assert(mid2.ring(lv as int) == mid1.ring(lv as int));
                assert(mid2.cursor(lv as int) == mid1.cursor(lv as int));
                assert(mid2.task(idx as int).flag != TaskFlag::Running);
                assert(mid3.task(idx as int).level == lv);
                assert(mid3.ring(lv as int) == mid2.ring(lv as int));
                assert(mid3.cursor(lv as int) == mid2.cursor(lv as int));
                assert(self.ring(lv as int) == mid3.ring(lv as int).push(idx));
                assert(self.cursor(lv as int) == mid3.cursor(lv as int));
                assert(mid1.ring(lv as int) == old(self).ring(lv as int));
                assert(mid1.cursor(lv as int) == old(self).cursor(lv as int));
                Self::lemma_run_rings_move(old(self), self, idx, lv as int);
            } else {
                assert(mid2.task(idx as int).flag != TaskFlag::Running);
                assert(mid3.task(idx as int).level == lv);
                assert forall|l: int| 0 <= l < MAX_TASKLEVELS && l != lv implies #[trigger] self.ring(l)
                    == old(self).ring(l) && self.cursor(l) == old(self).cursor(l) by {
                    assert(mid4.ring(l) == mid3.ring(l) && mid4.cursor(l) == mid3.cursor(l));
                    assert(mid3.ring(l) == mid2.ring(l) && mid3.cursor(l) == mid2.cursor(l));
                    assert(mid2.ring(l) == mid1.ring(l) && mid2.cursor(l) == mid1.cursor(l));
                }
                assert(self.ring(lv as int) == mid3.ring(lv as int).push(idx));
                assert(self.cursor(lv as int) == mid3.cursor(lv as int));
                assert(mid3.ring(lv as int) == mid2.ring(lv as int));
                assert(mid3.cursor(lv as int) == mid2.cursor(lv as int));
                assert(mid2 == mid1);
                assert(mid1.ring(lv as int) == old(self).ring(lv as int));
                assert(mid1.cursor(lv as int) == old(self).cursor(lv as int));
                Self::lemma_run_rings_join(old(self), self, idx, lv as int);
            }
        }
    }

    proof fn lemma_run_rings_join(old: &Self, new: &Self, idx: usize, lv: int)
        requires
            old.task(idx as int).flag != TaskFlag::Running,
            new.ring(lv) == old.ring(lv).push(idx),
            new.cursor(lv) == old.cursor(lv),
            forall|l: int|
                0 <= l < MAX_TASKLEVELS && l != lv ==> #[trigger] new.ring(l) == old.ring(l)
                    && new.cursor(l) == old.cursor(l),
        ensures
            Self::run_rings(old, new, idx, lv),
    {
    }

    proof fn lemma_run_rings_move(old: &Self, new: &Self, idx: usize, lv: int)
        requires
            old.task(idx as int).flag == TaskFlag::Running,
            old.task(idx as int).level != lv,
            Self::removed_at(old, new, old.task(idx as int).level as int, idx),
            new.ring(lv) == old.ring(lv).push(idx),
            new.cursor(lv) == old.cursor(lv),
            forall|l: int|
                0 <= l < MAX_TASKLEVELS && l != lv && l != old.task(idx as int).level ==> #[trigger] new.ring(l)
                    == old.ring(l) && new.cursor(l) == old.cursor(l),
        ensures
            Self::run_rings(old, new, idx, lv),
    {
    }

    /// Changing fields of a task that is not running, or changing fields of
    /// any task other than its state and level, keeps `wf`.
    proof fn lemma_same_membership(old: Self, new: &Self, idx: usize)
        requires
            old.wf(),
            idx < MAX_TASKS,
            new.level@ == old.level@,
            new.now_lv == old.now_lv,
            new.tasks_data@.len() == old.tasks_data@.len(),
            forall|i: int| 0 <= i < MAX_TASKS && i != idx ==> #[trigger] new.tasks_data@[i] == old.tasks_data@[i],
            new.tasks_data@[idx as int].flag == old.tasks_data@[idx as int].flag,
            old.tasks_data@[idx as int].flag == TaskFlag::Running ==> new.tasks_data@[idx as int].level
                == old.tasks_data@[idx as int].level,
        ensures
            new.wf(),
    {
        reveal(rings_ok);
        reveal(running_ok);
        let ot = old.tasks_data@;
        let nt = new.tasks_data@;
        let ls = new.level@;
        assert forall|lv: int| 0 <= lv < ls.len() implies {
            &&& ring_of(#[trigger] ls[lv]).no_duplicates()
            &&& forall|p: int|
                0 <= p < ring_of(ls[lv]).len() ==> {
                    let t = #[trigger] ring_of(ls[lv])[p];
                    &&& t < nt.len()
                    &&& nt[t as int].flag == TaskFlag::Running
                    &&& nt[t as int].level == lv
                }
        } by {
            assert forall|p: int| 0 <= p < ring_of(ls[lv]).len() implies {
                let t = #[trigger] ring_of(ls[lv])[p];
                &&& t < nt.len()
                &&& nt[t as int].flag == TaskFlag::Running
                &&& nt[t as int].level == lv
            } by {
                let t = ring_of(ls[lv])[p];
                assert(ot[t as int].flag == TaskFlag::Running);
            }
        }
        assert forall|t: int| 0 <= t < nt.len() && (#[trigger] nt[t]).flag == TaskFlag::Running implies {
            &&& nt[t].level < ls.len()
            &&& ring_of(ls[nt[t].level as int]).contains(t as usize)
        } by {
            assert(ot[t].flag == TaskFlag::Running);
        }
    }

    /// If some ring holds a task, the level `switchsub` picks has one.
    proof fn lemma_lowest_busy_has_task(&self, lv: int)
        requires
            self.has_runnable(),
            self.is_lowest_busy(lv),
        ensures
            self.ring(lv).len() > 0,
    {
        let l = choose|l: int| 0 <= l < MAX_TASKLEVELS && #[trigger] self.ring(l).len() > 0;
        if self.ring(lv).len() == 0 {
            assert(l >= lv);
            assert(lv == MAX_TASKLEVELS - 1);
        }
    }

    /// What `switch` does: the cursor of the level served moves one step
    /// round its ring; the level to serve is picked afresh if a ring
    /// changed; tasks and rings stay as they were.
    pub open spec fn switched(old: &Self, new: &Self) -> bool {
        let lv = old.now_level();
        &&& forall|i: int| 0 <= i < MAX_TASKS ==> #[trigger] new.task(i) == old.task(i)
        &&& forall|l: int| 0 <= l < MAX_TASKLEVELS ==> #[trigger] new.ring(l) == old.ring(l)
        &&& forall|l: int|
            0 <= l < MAX_TASKLEVELS && l != lv ==> #[trigger] new.cursor(l) == old.cursor(l)
        &&& new.cursor(lv) == if old.ring(lv).len() > 0 {
            (old.cursor(lv) + 1) % (old.ring(lv).len() as int)
        } else {
            old.cursor(lv)
        }
        &&& old.level_changed() ==> new.is_lowest_busy(new.now_level())
        &&& !old.level_changed() ==> new.now_level() == lv
        &&& !new.level_changed()
        &&& new.ring(new.now_level()).len() > 0
    }

    /// Ends the time slice: moves the cursor of the level being served one
    /// step round its ring, picks the level to serve afresh if a ring
    /// changed, and returns the task whose turn it now is.
    pub fn switch(&mut self) -> (r: usize)
        requires
            old(self).wf(),
            old(self).level_changed() ==> old(self).has_runnable(),
            !old(self).level_changed() ==> old(self).ring(old(self).now_level()).len() > 0,
        ensures
            final(self).wf(),
            Self::switched(old(self), final(self)),
            r == final(self).current(),
    {
        let lv = self.now_lv;
        let mut l = self.level[lv];
        proof {
            assert(level_ok(l));
        }
        if l.running_count > 0 {
            if l.now_running + 1 == l.running_count {
                l.now_running = 0;
            } else {
                l.now_running = l.now_running + 1;
            }
            self.level.set(lv, l);
            proof {
                let ol = old(self).level@;
                assert forall|k: int| 0 <= k < ol.len() implies ring_of(#[trigger] self.level@[k])
                    == ring_of(ol[k]) by {}
                lemma_same_rings(ol, self.level@, self.tasks_data@);
                assert forall|k: int| 0 <= k < MAX_TASKLEVELS implies level_ok(
                    #[trigger] self.level@[k],
                ) by {
                    assert(level_ok(ol[k]));
                }
            }
        }
        proof {
            let n = old(self).ring(lv as int).len() as int;
            let c = old(self).cursor(lv as int);
            if n > 0 {
                if c + 1 < n {
                    assert((c + 1) % n == c + 1) by (nonlinear_arith)
                        requires
                            0 <= c + 1 < n,
                    ;
                } else {
                    assert((c + 1) % n == 0) by (nonlinear_arith)
                        requires
                            c + 1 == n,
                            n > 0,
                    ;
                }
            }
        }
        let ghost mid = *self;
        proof {
            assert forall|k: int| 0 <= k < MAX_TASKLEVELS implies #[trigger] mid.ring(k) == old(
                self,
            ).ring(k) by {
                assert(ring_of(mid.level@[k]) == ring_of(old(self).level@[k]));
            }
            if old(self).level_changed() {
                let k = choose|k: int| 0 <= k < MAX_TASKLEVELS && #[trigger] old(self).ring(k).len() > 0;
                assert(mid.ring(k) == old(self).ring(k));
            }
        }
        if self.lv_change {
            self.switchsub();
            proof {
                assert forall|k: int| 0 <= k < MAX_TASKLEVELS implies #[trigger] mid.ring(k)
                    == self.ring(k) && mid.cursor(k) == self.cursor(k) by {
                    assert(self.ring(k) == mid.ring(k));
                }
                mid.lemma_lowest_busy_has_task(self.now_level());
                assert(mid.ring(self.now_level()) == self.ring(self.now_level()));
            }
        }
        proof {
            assert forall|k: int| 0 <= k < MAX_TASKLEVELS implies #[trigger] self.ring(k) == old(
                self,
            ).ring(k) by {
                assert(mid.ring(k) == self.ring(k));
            }
            assert forall|k: int| 0 <= k < MAX_TASKLEVELS implies #[trigger] self.cursor(k) == mid.cursor(k) by {
                assert(self.ring(k) == mid.ring(k));
            }
        }
        self.now_index()
    }

    /// Puts running task `idx` to sleep: it leaves its ring and is marked
    /// used. If it was the task whose turn it was, the level to serve is
    /// picked afresh and the task to transfer control to is returned.
    pub fn sleep(&mut self, idx: usize) -> (r: Option<usize>)
        requires
            old(self).wf(),
            idx < MAX_TASKS,
        ensures
            final(self).wf(),
            old(self).task(idx as int).flag != TaskFlag::Running ==> r.is_none() && *final(self)
                == *old(self),
            old(self).task(idx as int).flag == TaskFlag::Running ==> {
                let lv = old(self).task(idx as int).level as int;
                let was_current = old(self).ring(old(self).now_level()).len() > 0
                    && old(self).current() == idx;
                &&& final(self).task(idx as int) == (Task { flag: TaskFlag::Used, ..old(self).task(idx as int) })
                &&& forall|i: int|
                    0 <= i < MAX_TASKS && i != idx ==> #[trigger] final(self).task(i) == old(self).task(i)
                &&& Self::removed_at(old(self), final(self), lv, idx)
                &&& forall|l: int|
                    0 <= l < MAX_TASKLEVELS && l != lv ==> #[trigger] final(self).ring(l) == old(self).ring(l)
                        && final(self).cursor(l) == old(self).cursor(l)
                &&& was_current ==> {
                    &&& final(self).is_lowest_busy(final(self).now_level())
                    &&& !final(self).level_changed()
                    &&& r == if final(self).ring(final(self).now_level()).len() > 0 {
                        Some(final(self).current())
                    } else {
                        None
                    }
                }
                &&& !was_current ==> {
                    &&& final(self).now_level() == old(self).now_level()
                    &&& final(self).level_changed() == old(self).level_changed()
                    &&& r.is_none()
                }
            },
    {
        proof {
            self.lemma_rings();
        }
        if self.tasks_data[idx].flag != TaskFlag::Running {
            return None;
        }
        let lv = self.now_lv;
        let was_current = self.level[lv].running_count > 0 && self.now_index() == idx;
        self.remove_task(idx);
        if was_current {
            let ghost mid = *self;
            self.switchsub();
            proof {
                assert forall|k: int| 0 <= k < MAX_TASKLEVELS implies #[trigger] mid.ring(k)
                    == self.ring(k) && mid.cursor(k) == self.cursor(k) by {
                    assert(self.ring(k) == mid.ring(k));
                }
                Self::lemma_removed_at_same(
                    old(self),
                    &mid,
                    self,
                    old(self).task(idx as int).level as int,
                    idx,
                );
            }
            if self.level[self.now_lv].running_count > 0 {
                return Some(self.now_index());
            }
            return None;
        }
        None
    }

    /// Changes that leave a ring and its cursor alone keep what `removed_at`
    /// says of it.
    proof fn lemma_removed_at_same(old: &Self, mid: &Self, new: &Self, lv: int, idx: usize)
        requires
            Self::removed_at(old, mid, lv, idx),
            new.ring(lv) == mid.ring(lv),
            new.cursor(lv) == mid.cursor(lv),
        ensures
            Self::removed_at(old, new, lv, idx),
    {
        let pos = choose|pos: int|
            {
                &&& 0 <= pos < old.ring(lv).len()
                &&& old.ring(lv)[pos] == idx
                &&& mid.ring(lv) == old.ring(lv).remove(pos)
                &&& mid.cursor(lv) == ({
                    let c = if pos < old.cursor(lv) {
                        old.cursor(lv) - 1
                    } else {
                        old.cursor(lv)
                    };
                    if c >= mid.ring(lv).len() {
                        0
                    } else {
                        c
                    }
                })
            };
        assert(new.ring(lv) == old.ring(lv).remove(pos));
    }

    /// The task whose turn it is runs.
    pub proof fn lemma_current_runs(&self)
        requires
            self.wf(),
            self.ring(self.now_level()).len() > 0,
        ensures
            self.current() < MAX_TASKS,
            self.task(self.current() as int).flag == TaskFlag::Running,
            self.task(self.current() as int).level == self.now_level(),
    {
        self.lemma_rings();
        let lv = self.now_level();
        assert(level_ok(self.level@[lv]));
        assert(0 <= self.cursor(lv) < self.ring(lv).len());
    }

    /// When every level above the idle level is empty and the idle ring
    /// holds only `idle`, the task whose turn it is is `idle`.
    pub proof fn lemma_idle_when_alone(&self, idle: usize)
        requires
            self.wf(),
            self.ring(self.now_level()).len() > 0,
            forall|l: int| 0 <= l < MAX_TASKLEVELS - 1 ==> #[trigger] self.ring(l).len() == 0,
            self.ring(MAX_TASKLEVELS - 1) == seq![idle],
        ensures
            self.current() == idle,
    {
        let lv = self.now_level();
        assert(lv == MAX_TASKLEVELS - 1);
        assert(level_ok(self.level@[lv]));
    }

    /// A task is in a ring exactly when it runs, and then the ring is that
    /// of its level.
    pub proof fn lemma_ring_membership(&self, t: usize)
        requires
            self.wf(),
            t < MAX_TASKS,
        ensures
            self.task(t as int).flag == TaskFlag::Running <==> (self.task(t as int).level
                < MAX_TASKLEVELS && self.ring(self.task(t as int).level as int).contains(t)),
            forall|lv: int|
                0 <= lv < MAX_TASKLEVELS && #[trigger] self.ring(lv).contains(t) ==> self.task(
                    t as int,
                ).flag == TaskFlag::Running && self.task(t as int).level == lv,
    {
        self.lemma_rings();
        assert forall|lv: int|
            0 <= lv < MAX_TASKLEVELS && #[trigger] self.ring(lv).contains(t) implies self.task(
            t as int,
        ).flag == TaskFlag::Running && self.task(t as int).level == lv by {
            let p = choose|p: int| 0 <= p < self.ring(lv).len() && self.ring(lv)[p] == t;
            assert(self.ring(lv)[p] == t);
        }
        if self.task(t as int).level < MAX_TASKLEVELS && self.ring(
            self.task(t as int).level as int,
        ).contains(t) {
            let lv = self.task(t as int).level as int;
            let p = choose|p: int| 0 <= p < self.ring(lv).len() && self.ring(lv)[p] == t;
            assert(self.ring(lv)[p] == t);
        }
    }

    /// Replaces slot `idx` by `t`, but for its state and level, which only
    /// `run`, `sleep` and `close` change.
    pub fn update_task(&mut self, idx: usize, t: Task)
        requires
            old(self).wf(),
            idx < MAX_TASKS,
        ensures
            final(self).wf(),
            final(self).task(idx as int) == (Task {
                flag: old(self).task(idx as int).flag,
                level: old(self).task(idx as int).level,
                ..t
            }),
            forall|i: int| 0 <= i < MAX_TASKS && i != idx ==> #[trigger] final(self).task(i) == old(self).task(i),
            forall|l: int|
                0 <= l < MAX_TASKLEVELS ==> #[trigger] final(self).ring(l) == old(self).ring(l)
                    && final(self).cursor(l) == old(self).cursor(l),
            final(self).now_level() == old(self).now_level(),
            final(self).level_changed() == old(self).level_changed(),
    {
        let cur = self.tasks_data[idx];
        let nt = Task { flag: cur.flag, level: cur.level, ..t };
        self.tasks_data.set(idx, nt);
        proof {
            Self::lemma_same_membership(*old(self), self, idx);
        }
    }

    /// Marks slot `idx`, which does not run, free.
    pub fn release(&mut self, idx: usize)
        requires
            old(self).wf(),
            idx < MAX_TASKS,
            old(self).task(idx as int).flag != TaskFlag::Running,
        ensures
            final(self).wf(),
            final(self).task(idx as int) == (Task { flag: TaskFlag::Available, ..old(self).task(idx as int) }),
            forall|i: int| 0 <= i < MAX_TASKS && i != idx ==> #[trigger] final(self).task(i) == old(self).task(i),
            forall|l: int|
                0 <= l < MAX_TASKLEVELS ==> #[trigger] final(self).ring(l) == old(self).ring(l)
                    && final(self).cursor(l) == old(self).cursor(l),
            final(self).now_level() == old(self).now_level(),
            final(self).level_changed() == old(self).level_changed(),
    {
        let mut t = self.tasks_data[idx];
        t.flag = TaskFlag::Available;
        self.tasks_data.set(idx, t);
        proof {
            reveal(rings_ok);
            reveal(running_ok);
            let ot = old(self).tasks_data@;
            let nt = self.tasks_data@;
            let ls = self.level@;
            assert forall|lv: int| 0 <= lv < ls.len() implies {
                &&& ring_of(#[trigger] ls[lv]).no_duplicates()
                &&& forall|p: int|
                    0 <= p < ring_of(ls[lv]).len() ==> {
                        let t = #[trigger] ring_of(ls[lv])[p];
                        &&& t < nt.len()
                        &&& nt[t as int].flag == TaskFlag::Running
                        &&& nt[t as int].level == lv
                    }
            } by {
                assert forall|p: int| 0 <= p < ring_of(ls[lv]).len() implies {
                    let t = #[trigger] ring_of(ls[lv])[p];
                    &&& t < nt.len()
                    &&& nt[t as int].flag == TaskFlag::Running
                    &&& nt[t as int].level == lv
                } by {
                    let t = ring_of(ls[lv])[p];
                    assert(ot[t as int].flag == TaskFlag::Running);
                }
            }
            assert forall|t: int| 0 <= t < nt.len() && (#[trigger] nt[t]).flag == TaskFlag::Running implies {
                &&& nt[t].level < ls.len()
                &&& ring_of(ls[nt[t].level as int]).contains(t as usize)
            } by {
                assert(nt[t] == ot[t]);
            }
        }
    }

    /// The level being served.
    pub fn current_level(&self) -> (r: usize)
        requires
            self.wf(),
        ensures
            r == self.now_level(),
            r < MAX_TASKLEVELS,
    {
        self.now_lv
    }
}

/// Position in a ring of `n` tasks that `k + 1` steps from cursor `c` reach.
pub open spec fn turn(c: int, k: int, n: int) -> int {
    (c + 1 + k) % n
}

/// From cursor `c` of a ring of `n` tasks, the next `n` turns visit every
/// position once: `switch` moves the cursor one step each time, so the
/// tasks of a level are each picked exactly once in every `n` switches, in
/// the order they joined the ring.
pub proof fn lemma_round_robin(ring: Seq<usize>, c: int)
    requires
        ring.no_duplicates(),
        0 <= c < ring.len(),
    ensures
        forall|a: int, b: int|
            0 <= a < b < ring.len() ==> ring[turn(c, a, ring.len() as int)] != ring[turn(
                c,
                b,
                ring.len() as int,
            )],
        forall|t: usize|
            #[trigger] ring.contains(t) ==> exists|k: int|
                0 <= k < ring.len() && ring[#[trigger] turn(c, k, ring.len() as int)] == t,
{
    let n = ring.len() as int;
    assert forall|k: int| 0 <= k < n implies #[trigger] turn(c, k, n) == if c + 1 + k < n {
        c + 1 + k
    } else {
        c + 1 + k - n
    } by {
        if c + 1 + k < n {
            assert((c + 1 + k) % n == c + 1 + k) by (nonlinear_arith)
                requires
                    0 <= c + 1 + k < n,
            ;
        } else {
            assert((c + 1 + k) % n == c + 1 + k - n) by (nonlinear_arith)
                requires
                    n <= c + 1 + k < 2 * n,
            ;
        }
    }
    assert forall|a: int, b: int| 0 <= a < b < n implies ring[turn(c, a, n)] != ring[turn(
        c,
        b,
        n,
    )] by {
        assert(turn(c, a, n) != turn(c, b, n));
    }
    assert forall|t: usize| #[trigger] ring.contains(t) implies exists|k: int|
        0 <= k < n && ring[#[trigger] turn(c, k, n)] == t by {
        let j = choose|j: int| 0 <= j < n && ring[j] == t;
        let k = if j >= c + 1 {
            j - c - 1
        } else {
            j - c - 1 + n
        };
        assert(turn(c, k, n) == j);
    }
}

} // verus!
