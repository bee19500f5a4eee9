use haribote::error::KernelError;
use haribote::fifo::Fifo;
use haribote::kernel::dispatch;
use haribote::mt::TaskManager;
use haribote::timer::{TimerFlag, TimerKind, TimerManager, MAX_TIMER};

fn tick_and_dispatch(tm: &mut TimerManager, fifos: &mut Vec<Fifo>, tasks: &mut TaskManager) -> bool {
    let fired = tm.tick();
    dispatch(&fired, fifos, tasks)
}

fn drain(f: &mut Fifo) -> Vec<u32> {
    let mut out = Vec::new();
    while let Ok(v) = f.get() {
        out.push(v);
    }
    out
}

#[test]
fn timer_pool_exhaustion() {
    let mut tm = TimerManager::new();
    for i in 0..MAX_TIMER {
        assert_eq!(tm.allocate(), Ok(i));
    }
    assert_eq!(tm.allocate(), Err(KernelError::CannotAssignTimer));
}

#[test]
fn timer_freed_slot_is_reused() {
    let mut tm = TimerManager::new();
    let a = tm.allocate().unwrap();
    let b = tm.allocate().unwrap();
    assert_eq!((a, b), (0, 1));
    tm.free(a);
    assert_eq!(tm.timer(a).flag, TimerFlag::Available);
    assert_eq!(tm.allocate(), Ok(0));
}

#[test]
fn timer_scenario_two_timers_one_fifo() {
    let mut tm = TimerManager::new();
    let mut tasks = TaskManager::new();
    let mut fifos = vec![Fifo::new(128)];
    let a = tm.allocate().unwrap();
    let b = tm.allocate().unwrap();
    tm.init_timer(a, 0, 1);
    tm.init_timer(b, 0, 2);
    tm.set_time(a, 50);
    tm.set_time(b, 10);
    for _ in 0..10 {
        tick_and_dispatch(&mut tm, &mut fifos, &mut tasks);
    }
    assert_eq!(fifos[0].status(), 1);
    for _ in 0..50 {
        tick_and_dispatch(&mut tm, &mut fifos, &mut tasks);
    }
    assert_eq!(drain(&mut fifos[0]), vec![2, 1]);
}

#[test]
fn timer_fires_exactly_at_expiry() {
    let mut tm = TimerManager::new();
    let mut tasks = TaskManager::new();
    let mut fifos = vec![Fifo::new(16)];
    let t = tm.allocate().unwrap();
    tm.init_timer(t, 0, 7);
    tm.set_time(t, 5);
    assert_eq!(tm.timer(t).timeout, 5);
    for _ in 0..4 {
        tick_and_dispatch(&mut tm, &mut fifos, &mut tasks);
        assert_eq!(fifos[0].status(), 0);
        assert_eq!(tm.timer(t).flag, TimerFlag::Counting);
    }
    tick_and_dispatch(&mut tm, &mut fifos, &mut tasks);
    assert_eq!(tm.count(), 5);
    assert_eq!(drain(&mut fifos[0]), vec![7]);
    assert_eq!(tm.timer(t).flag, TimerFlag::Used);
}

#[test]
fn timer_zero_delay_fires_on_next_tick() {
    let mut tm = TimerManager::new();
    let t = tm.allocate().unwrap();
    tm.init_timer(t, 3, 9);
    tm.set_time(t, 0);
    let fired = tm.tick();
    assert_eq!(fired, vec![TimerKind::AppEvent { fifo: 3, data: 9 }]);
}

#[test]
fn timer_fire_order_is_sorted_and_stable() {
    let mut tm = TimerManager::new();
    let mut tasks = TaskManager::new();
    let mut fifos = vec![Fifo::new(128)];
    let delays = [30u32, 10, 20, 10, 5, 30, 1, 20];
    for (k, d) in delays.iter().enumerate() {
        let t = tm.allocate().unwrap();
        tm.init_timer(t, 0, k as i32);
        tm.set_time(t, *d);
    }
    for _ in 0..40 {
        tick_and_dispatch(&mut tm, &mut fifos, &mut tasks);
    }
    // by expiry, and among equal expiries in the order they were armed
    assert_eq!(drain(&mut fifos[0]), vec![6, 4, 1, 3, 2, 7, 0, 5]);
}

#[test]
fn timer_cancel_once_then_never_fires() {
    let mut tm = TimerManager::new();
    let mut tasks = TaskManager::new();
    let mut fifos = vec![Fifo::new(16)];
    let a = tm.allocate().unwrap();
    let b = tm.allocate().unwrap();
    let c = tm.allocate().unwrap();
    for (t, d) in [(a, 3u32), (b, 6), (c, 9)] {
        tm.init_timer(t, 0, t as i32 + 100);
        tm.set_time(t, d);
    }
    // in the middle of the list, then at its head
    assert!(tm.cancel(b));
    assert!(!tm.cancel(b));
    assert!(tm.cancel(a));
    assert_eq!(tm.timer(b).flag, TimerFlag::Used);
    for _ in 0..12 {
        tick_and_dispatch(&mut tm, &mut fifos, &mut tasks);
    }
    assert_eq!(drain(&mut fifos[0]), vec![c as u32 + 100]);
}

#[test]
fn timer_cancel_of_idle_slot_changes_nothing() {
    let mut tm = TimerManager::new();
    let t = tm.allocate().unwrap();
    tm.init_timer(t, 1, 2);
    let before = tm.timer(t);
    assert!(!tm.cancel(t));
    let after = tm.timer(t);
    assert_eq!(before.flag, after.flag);
    assert_eq!(before.kind, after.kind);
    assert!(!tm.cancel(400));
    assert_eq!(tm.timer(400).flag, TimerFlag::Available);
}

#[test]
fn timer_cancel_all_takes_back_app_timers_of_one_fifo() {
    let mut tm = TimerManager::new();
    let a = tm.allocate().unwrap();
    let b = tm.allocate().unwrap();
    let c = tm.allocate().unwrap();
    let d = tm.allocate().unwrap();
    tm.init_timer(a, 5, 1);
    tm.init_timer(b, 5, 2);
    tm.init_timer(c, 6, 3);
    tm.init_timer(d, 5, 4);
    tm.set_from_app(a, true);
    tm.set_from_app(c, true);
    tm.set_from_app(d, true);
    tm.set_time(a, 10);
    tm.set_time(b, 10);
    tm.set_time(c, 10);
    tm.cancel_all(5);
    assert_eq!(tm.timer(a).flag, TimerFlag::Available);
    assert_eq!(tm.timer(b).flag, TimerFlag::Counting);
    assert_eq!(tm.timer(c).flag, TimerFlag::Counting);
    assert_eq!(tm.timer(d).flag, TimerFlag::Available);
    let mut fired = Vec::new();
    for _ in 0..10 {
        fired.extend(tm.tick());
    }
    assert_eq!(
        fired,
        vec![TimerKind::AppEvent { fifo: 5, data: 2 }, TimerKind::AppEvent { fifo: 6, data: 3 }]
    );
}

#[test]
fn timer_scheduling_kind_ends_the_slice() {
    let mut tm = TimerManager::new();
    let mut tasks = TaskManager::new();
    let mut fifos = vec![Fifo::new(4)];
    let s = tm.allocate().unwrap();
    tm.init_scheduling(s);
    tm.set_time(s, 2);
    assert!(!tick_and_dispatch(&mut tm, &mut fifos, &mut tasks));
    assert!(tick_and_dispatch(&mut tm, &mut fifos, &mut tasks));
    assert_eq!(fifos[0].status(), 0);
}

#[test]
fn timer_delivery_to_full_fifo_is_dropped() {
    let mut tm = TimerManager::new();
    let mut tasks = TaskManager::new();
    let mut fifos = vec![Fifo::new(1), Fifo::new(4)];
    for k in 0..3 {
        let t = tm.allocate().unwrap();
        tm.init_timer(t, 0, 10 + k);
        tm.set_time(t, 1);
    }
    let t = tm.allocate().unwrap();
    tm.init_timer(t, 9, 99);
    tm.set_time(t, 1);
    tick_and_dispatch(&mut tm, &mut fifos, &mut tasks);
    assert_eq!(drain(&mut fifos[0]), vec![10]);
    assert_eq!(fifos[1].status(), 0);
}
