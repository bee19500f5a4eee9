use vstd::prelude::*;

verus! {

/// Failures that the kernel's services report to their callers.
#[derive(Debug, Clone, Copy, PartialEq, Eq, Structural)]
pub enum KernelError {
    /// Every slot of the task pool is taken.
    CannotAllocateTask,
    /// Every slot of the timer pool is taken.
    CannotAssignTimer,
    /// A message was put into a full queue and dropped.
    FifoOverrun,
    /// A message was asked of an empty queue.
    NoData,
    /// No free block of memory is large enough.
    CannotAllocateMemory,
    /// The free-block table is full: the freed block is lost.
    CannotFreeMemory,
}

} // verus!
