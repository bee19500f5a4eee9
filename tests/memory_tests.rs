use haribote::error::KernelError;
use haribote::memory::MemMan;

#[test]
fn memman_starts_empty() {
    let mut m = MemMan::new();
    assert_eq!(m.total(), 0);
    assert_eq!(m.allocate(1), Err(KernelError::CannotAllocateMemory));
}

#[test]
fn memman_first_fit_from_the_front() {
    let mut m = MemMan::new();
    assert_eq!(m.free(0x1000, 0x100), Ok(()));
    assert_eq!(m.free(0x8000, 0x1000), Ok(()));
    assert_eq!(m.total(), 0x1100);
    assert_eq!(m.allocate(0x200), Ok(0x8000));
    assert_eq!(m.allocate(0x80), Ok(0x1000));
    assert_eq!(m.allocate(0x80), Ok(0x1080));
    assert_eq!(m.total(), 0xe00);
    assert_eq!(m.allocate(0xe01), Err(KernelError::CannotAllocateMemory));
    assert_eq!(m.allocate(0xe00), Ok(0x8200));
    assert_eq!(m.total(), 0);
}

#[test]
fn memman_free_merges_neighbours() {
    let mut m = MemMan::new();
    assert_eq!(m.free(0x3000, 0x1000), Ok(()));
    assert_eq!(m.free(0x1000, 0x1000), Ok(()));
    // touches both: one block remains
    assert_eq!(m.free(0x2000, 0x1000), Ok(()));
    assert_eq!(m.total(), 0x3000);
    assert_eq!(m.allocate(0x3000), Ok(0x1000));
    // touches only the block after it
    assert_eq!(m.free(0x5000, 0x1000), Ok(()));
    assert_eq!(m.free(0x4000, 0x1000), Ok(()));
    assert_eq!(m.allocate(0x2000), Ok(0x4000));
}

#[test]
fn memman_free_above_all_blocks_is_kept() {
    let mut m = MemMan::new();
    assert_eq!(m.free(0x1000, 0x1000), Ok(()));
    assert_eq!(m.free(0x9000, 0x1000), Ok(()));
    assert_eq!(m.total(), 0x2000);
    assert_eq!(m.allocate(0x1000), Ok(0x1000));
    assert_eq!(m.allocate(0x1000), Ok(0x9000));
}

#[test]
fn memman_table_full_loses_block() {
    let mut m = MemMan::new();
    for k in 0..4090u32 {
        assert_eq!(m.free(k * 0x100, 0x10), Ok(()));
    }
    assert_eq!(m.free(0x0200_0000, 0x10), Err(KernelError::CannotFreeMemory));
    assert_eq!(m.total(), 4090 * 0x10);
    // a block that touches one already there still fits
    assert_eq!(m.free(0x10, 0x10), Ok(()));
}

#[test]
fn memman_4k_rounds_up() {
    let mut m = MemMan::new();
    assert_eq!(m.free(0x0010_0000, 0x0001_0000), Ok(()));
    assert_eq!(m.alloc_4k(1), Ok(0x0010_0000));
    assert_eq!(m.alloc_4k(0x1000), Ok(0x0010_1000));
    assert_eq!(m.alloc_4k(0x1001), Ok(0x0010_2000));
    assert_eq!(m.total(), 0x0001_0000 - 0x4000);
    assert_eq!(m.free_4k(0x0010_0000, 10), Ok(()));
    assert_eq!(m.total(), 0x0001_0000 - 0x3000);
}

#[test]
fn memman_overlap_query() {
    let mut m = MemMan::new();
    assert_eq!(m.free(0x1000, 0x1000), Ok(()));
    assert!(m.overlaps(0x1800, 0x10));
    assert!(m.overlaps(0x0800, 0x1000));
    assert!(!m.overlaps(0x0800, 0x800));
    assert!(!m.overlaps(0x2000, 0x100));
}
