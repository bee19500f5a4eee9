use haribote::error::KernelError;
use haribote::fifo::Fifo;

#[test]
fn fifo_round_trip_in_order() {
    let mut f = Fifo::new(128);
    for v in 0..100u32 {
        assert_eq!(f.put(v * 3), Ok(()));
    }
    assert_eq!(f.status(), 100);
    for v in 0..100u32 {
        assert_eq!(f.get(), Ok(v * 3));
    }
    assert_eq!(f.status(), 0);
}

#[test]
fn fifo_wraps_around() {
    let mut f = Fifo::new(4);
    for round in 0..10u32 {
        assert_eq!(f.put(round), Ok(()));
        assert_eq!(f.put(round + 100), Ok(()));
        assert_eq!(f.get(), Ok(round));
        assert_eq!(f.get(), Ok(round + 100));
    }
    assert_eq!(f.status(), 0);
}

#[test]
fn fifo_put_on_full_overruns_and_keeps_contents() {
    let mut f = Fifo::new(3);
    assert_eq!(f.put(1), Ok(()));
    assert_eq!(f.put(2), Ok(()));
    assert_eq!(f.put(3), Ok(()));
    assert_eq!(f.put(4), Err(KernelError::FifoOverrun));
    assert_eq!(f.status(), 3);
    assert_eq!(f.get(), Ok(1));
    assert_eq!(f.get(), Ok(2));
    assert_eq!(f.get(), Ok(3));
    assert_eq!(f.get(), Err(KernelError::NoData));
}

#[test]
fn fifo_get_on_empty_is_no_data() {
    let mut f = Fifo::new(8);
    assert_eq!(f.get(), Err(KernelError::NoData));
    assert_eq!(f.status(), 0);
}

#[test]
fn fifo_of_no_slots_always_overruns() {
    let mut f = Fifo::new(0);
    assert_eq!(f.put(7), Err(KernelError::FifoOverrun));
    assert_eq!(f.get(), Err(KernelError::NoData));
}

#[test]
fn fifo_binding_is_kept() {
    let mut f = Fifo::new(8);
    assert_eq!(f.task_index(), None);
    f.bind_task(Some(5));
    assert_eq!(f.task_index(), Some(5));
    assert_eq!(f.put(1), Ok(()));
    assert_eq!(f.task_index(), Some(5));
}
