use haribote::error::KernelError;
use haribote::fifo::Fifo;
use haribote::kernel::{bootstrap, close_task, deliver, task_switch};
use haribote::memory::MemMan;
use haribote::mt::{TaskFlag, TaskManager, MAX_TASKLEVELS, MAX_TASKS, TASK_EFLAGS, TASK_IOMAP};
use haribote::timer::{TimerFlag, TimerKind, TimerManager};

fn with_idle(tm: &mut TaskManager) -> usize {
    let idle = tm.allocate().unwrap();
    tm.run(idle, (MAX_TASKLEVELS - 1) as i32, 1);
    idle
}

#[test]
fn mt_two_tasks_alternate() {
    let mut tm = TaskManager::new();
    let _idle = with_idle(&mut tm);
    let a = tm.allocate().unwrap();
    let b = tm.allocate().unwrap();
    tm.run(a, 2, 5);
    tm.run(b, 2, 5);
    let picks: Vec<usize> = (0..4).map(|_| tm.switch()).collect();
    assert_eq!(picks, vec![a, b, a, b]);
    assert_eq!(tm.task_at(a).priority, 5);
}

#[test]
fn mt_round_robin_is_fair() {
    let mut tm = TaskManager::new();
    let _idle = with_idle(&mut tm);
    let ids: Vec<usize> = (0..3).map(|_| tm.allocate().unwrap()).collect();
    for &t in &ids {
        tm.run(t, 1, 2);
    }
    let picks: Vec<usize> = (0..9).map(|_| tm.switch()).collect();
    assert_eq!(picks, vec![ids[0], ids[1], ids[2], ids[0], ids[1], ids[2], ids[0], ids[1], ids[2]]);
}

#[test]
fn mt_higher_level_is_served_first() {
    let mut tm = TaskManager::new();
    let idle = with_idle(&mut tm);
    let low = tm.allocate().unwrap();
    tm.run(low, 5, 2);
    assert_eq!(tm.switch(), low);
    let high = tm.allocate().unwrap();
    tm.run(high, 1, 2);
    assert_eq!(tm.switch(), high);
    assert_eq!(tm.switch(), high);
    assert_eq!(tm.sleep(high), Some(low));
    assert_eq!(tm.sleep(low), Some(idle));
    assert_eq!(tm.now_index(), idle);
    assert_eq!(tm.task_at(idle).flag, TaskFlag::Running);
}

#[test]
fn mt_idle_runs_when_alone() {
    let mut tm = TaskManager::new();
    let idle = with_idle(&mut tm);
    tm.switchsub();
    assert_eq!(tm.now_index(), idle);
    assert_eq!(tm.switch(), idle);
}

#[test]
fn mt_sleep_of_other_task_needs_no_transfer() {
    let mut tm = TaskManager::new();
    let _idle = with_idle(&mut tm);
    let a = tm.allocate().unwrap();
    let b = tm.allocate().unwrap();
    tm.run(a, 0, 2);
    tm.run(b, 0, 2);
    // level 0 was being served already: its cursor moves from a to b
    // before the level is picked afresh
    assert_eq!(tm.switch(), b);
    assert_eq!(tm.switch(), a);
    assert_eq!(tm.sleep(b), None);
    assert_eq!(tm.task_at(b).flag, TaskFlag::Used);
    assert_eq!(tm.sleep(b), None);
    assert_eq!(tm.running_count(0), 1);
    assert_eq!(tm.now_index(), a);
}

#[test]
fn mt_run_moves_between_levels() {
    let mut tm = TaskManager::new();
    let _idle = with_idle(&mut tm);
    let a = tm.allocate().unwrap();
    tm.run(a, 3, 4);
    assert_eq!(tm.running_count(3), 1);
    tm.run(a, 6, -1);
    assert_eq!(tm.running_count(3), 0);
    assert_eq!(tm.running_count(6), 1);
    assert_eq!(tm.task_at(a).level, 6);
    assert_eq!(tm.task_at(a).priority, 4);
    tm.run(a, -1, 0);
    assert_eq!(tm.running_count(6), 1);
    assert_eq!(tm.task_at(a).flag, TaskFlag::Running);
}

#[test]
fn mt_add_and_remove_keep_cursor() {
    let mut tm = TaskManager::new();
    let ids: Vec<usize> = (0..3).map(|_| tm.allocate().unwrap()).collect();
    for &t in &ids {
        tm.add_task(t);
    }
    assert_eq!(tm.running_count(0), 3);
    tm.switchsub();
    assert_eq!(tm.switch(), ids[1]);
    tm.remove_task(ids[0]);
    assert_eq!(tm.now_index(), ids[1]);
    assert_eq!(tm.task_at(ids[0]).flag, TaskFlag::Used);
    tm.remove_task(ids[2]);
    assert_eq!(tm.now_index(), ids[1]);
    assert_eq!(tm.running_count(0), 1);
}

#[test]
fn mt_allocate_sets_context() {
    let mut tm = TaskManager::new();
    let t = tm.allocate().unwrap();
    assert_eq!(t, 0);
    let task = tm.task_at(t);
    assert_eq!(task.flag, TaskFlag::Used);
    assert_eq!(task.tss.eflags, TASK_EFLAGS);
    assert_eq!(task.tss.iomap, TASK_IOMAP);
}

#[test]
fn mt_pool_exhaustion() {
    let mut tm = TaskManager::new();
    for i in 0..MAX_TASKS {
        assert_eq!(tm.allocate(), Ok(i));
    }
    assert_eq!(tm.allocate(), Err(KernelError::CannotAllocateTask));
}

#[test]
fn kernel_put_wakes_sleeping_task() {
    let mut tm = TaskManager::new();
    let _idle = with_idle(&mut tm);
    let t = tm.allocate().unwrap();
    tm.run(t, 2, 3);
    tm.switchsub();
    assert_eq!(tm.sleep(t), Some(_idle));
    let mut fifos = vec![Fifo::new(8)];
    fifos[0].bind_task(Some(t));
    assert_eq!(deliver(&mut fifos, &mut tm, 0, 42), Ok(()));
    assert_eq!(tm.task_at(t).flag, TaskFlag::Running);
    assert_eq!(tm.task_at(t).level, 2);
    assert_eq!(fifos[0].get(), Ok(42));
}

#[test]
fn kernel_bootstrap_then_switch() {
    let mut tasks = TaskManager::new();
    let mut timers = TimerManager::new();
    let mut mem = MemMan::new();
    assert_eq!(mem.free(0x0040_0000, 0x0100_0000), Ok(()));
    let (main, sched) = bootstrap(&mut tasks, &mut timers, &mut mem, 0, 0x1234).unwrap();
    assert_eq!(tasks.task_at(main).flag, TaskFlag::Running);
    assert_eq!(tasks.task_at(main).priority, 2);
    assert_eq!(timers.timer(sched).kind, TimerKind::Scheduling);
    assert_eq!(timers.timer(sched).timeout, 2);
    assert_eq!(mem.total(), 0x0100_0000 - 0x10000);
    let idle = 1;
    assert_eq!(tasks.task_at(idle).tss.eip, 0x1234);
    assert_eq!(tasks.task_at(idle).tss.esp, 0x0041_0000);
    assert_eq!(tasks.running_count(MAX_TASKLEVELS - 1), 1);
    // the slice ends and the first task keeps running
    let fired = timers.tick();
    assert!(fired.is_empty());
    let fired = timers.tick();
    assert_eq!(fired, vec![TimerKind::Scheduling]);
    assert_eq!(task_switch(&mut tasks, &mut timers, sched), None);
    assert_eq!(timers.timer(sched).flag, TimerFlag::Counting);
    assert_eq!(timers.timer(sched).timeout, 4);
    // a second task at the same level shares the processor
    let other = tasks.allocate().unwrap();
    tasks.run(other, 0, 3);
    assert_eq!(task_switch(&mut tasks, &mut timers, sched), Some(other));
    assert_eq!(timers.timer(sched).timeout, 2 + 3);
    assert_eq!(task_switch(&mut tasks, &mut timers, sched), Some(main));
}

#[test]
fn kernel_bootstrap_without_memory_fails() {
    let mut tasks = TaskManager::new();
    let mut timers = TimerManager::new();
    let mut mem = MemMan::new();
    assert_eq!(
        bootstrap(&mut tasks, &mut timers, &mut mem, 0, 0),
        Err(KernelError::CannotAllocateMemory)
    );
}

#[test]
fn kernel_close_task_frees_slot_and_memory() {
    let mut tasks = TaskManager::new();
    let mut mem = MemMan::new();
    assert_eq!(mem.free(0x0010_0000, 0x0010_0000), Ok(()));
    let idle = with_idle(&mut tasks);
    let t = tasks.allocate().unwrap();
    let stack = mem.alloc_4k(64 * 1024).unwrap();
    let fifo = mem.alloc_4k(128 * 4).unwrap();
    let mut task = tasks.task_at(t);
    task.console_stack = stack as usize;
    task.fifo_addr = fifo as usize;
    tasks.update_task(t, task);
    tasks.run(t, 0, 2);
    tasks.switchsub();
    assert_eq!(mem.total(), 0x0010_0000 - 0x11000);
    assert_eq!(close_task(&mut tasks, &mut mem, t), Some(idle));
    assert_eq!(tasks.task_at(t).flag, TaskFlag::Available);
    assert_eq!(mem.total(), 0x0010_0000);
}

#[test]
fn kernel_two_tasks_alternate_after_bootstrap() {
    let mut tasks = TaskManager::new();
    let mut timers = TimerManager::new();
    let mut mem = MemMan::new();
    assert_eq!(mem.free(0x0040_0000, 0x0010_0000), Ok(()));
    let (main, sched) = bootstrap(&mut tasks, &mut timers, &mut mem, 0, 0).unwrap();
    let a = tasks.allocate().unwrap();
    let b = tasks.allocate().unwrap();
    tasks.run(a, 2, 5);
    tasks.run(b, 2, 5);
    // the first task waits for input; its level empties
    assert_eq!(tasks.sleep(main), Some(a));
    let mut picks = Vec::new();
    for _ in 0..4 {
        task_switch(&mut tasks, &mut timers, sched);
        picks.push(tasks.now_index());
        assert_eq!(timers.timer(sched).timeout, timers.count() + 5);
    }
    assert_eq!(picks, vec![b, a, b, a]);
}
