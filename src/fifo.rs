use vstd::prelude::*;

use crate::error::KernelError;

verus! {

/// Largest number of message slots a queue can have.
pub const FIFO_SLOTS: u32 = 128;

/// Bit of `flags` that records a dropped message.
pub const FLAGS_OVERRUN: u32 = 0x0001;

/// Index of the `i`-th slot after slot `q` in a ring of `size` slots.
pub open spec fn ring_slot(q: int, i: int, size: int) -> int {
    if q + i < size {
        q + i
    } else {
        q + i - size
    }
}

/// A fixed-capacity ring buffer of 32-bit messages.
pub struct Fifo {
    buf: Vec<u32>,
    p: u32,
    q: u32,
    free: u32,
    flags: u32,
    size: u32,
    task_index: Option<usize>,
}

impl Fifo {
    /// The cursors and the free count agree with each other.
    pub closed spec fn wf(&self) -> bool {
        &&& self.size <= FIFO_SLOTS
        &&& self.buf@.len() == self.size
        &&& self.free <= self.size
        &&& (self.size == 0 ==> self.p == 0 && self.q == 0)
        &&& (self.size > 0 ==> self.p < self.size && self.q < self.size)
        &&& (self.free > 0 ==> self.p == ring_slot(
            self.q as int,
            self.size - self.free,
            self.size as int,
        ))
        &&& (self.free == 0 ==> self.p == self.q)
    }

    /// Number of slots.
    pub closed spec fn capacity(&self) -> nat {
        self.size as nat
    }

    /// Whether a message has ever been dropped for want of room.
    pub closed spec fn overflowed(&self) -> bool {
        self.flags & FLAGS_OVERRUN != 0
    }

    /// Task woken when a message arrives, if any.
    pub closed spec fn bound_task(&self) -> Option<usize> {
        self.task_index
    }

    /// The queued messages, oldest first.
    pub closed spec fn view(&self) -> Seq<u32> {
        Seq::new(
            (self.size - self.free) as nat,
            |i: int| self.buf@[ring_slot(self.q as int, i, self.size as int)],
        )
    }

    /// An empty queue of `size` slots, bound to no task.
    pub fn new(size: u32) -> (r: Fifo)
        requires
            size <= FIFO_SLOTS,
        ensures
            r.wf(),
            r@ == Seq::<u32>::empty(),
            r.capacity() == size,
            !r.overflowed(),
            r.bound_task().is_none(),
    {
        let r = Fifo {
            buf: vec![0u32; size as usize],
            p: 0,
            q: 0,
            free: size,
            flags: 0,
            size: size,
            task_index: None,
        };
        assert(0u32 & FLAGS_OVERRUN == 0) by (bit_vector);
        r
    }

    /// Appends `data`; on a full queue drops it, sets the overrun flag and
    /// leaves the contents as they were.
    pub fn put(&mut self, data: u32) -> (r: Result<(), KernelError>)
        requires
            old(self).wf(),
        ensures
            final(self).wf(),
            final(self).capacity() == old(self).capacity(),
            final(self).bound_task() == old(self).bound_task(),
            old(self)@.len() < old(self).capacity() ==> {
                &&& r is Ok
                &&& final(self)@ == old(self)@.push(data)
                &&& final(self).overflowed() == old(self).overflowed()
            },
            old(self)@.len() == old(self).capacity() ==> {
                &&& r == Err::<(), KernelError>(KernelError::FifoOverrun)
                &&& final(self)@ == old(self)@
                &&& final(self).overflowed()
            },
    {
        if self.free == 0 {
            let f = self.flags;
            self.flags = f | FLAGS_OVERRUN;
            assert((f | FLAGS_OVERRUN) & FLAGS_OVERRUN != 0) by (bit_vector);
            assert(self@ =~= old(self)@);
            return Err(KernelError::FifoOverrun);
        }
        let ghost before = self@;
        self.buf.set(self.p as usize, data);
        if self.p + 1 == self.size {
            self.p = 0;
        } else {
            self.p = self.p + 1;
        }
        self.free = self.free - 1;
        assert(self@ =~= before.push(data));
        Ok(())
    }

    /// Removes and returns the oldest message.
    pub fn get(&mut self) -> (r: Result<u32, KernelError>)
        requires
            old(self).wf(),
        ensures
            final(self).wf(),
            final(self).capacity() == old(self).capacity(),
            final(self).bound_task() == old(self).bound_task(),
            final(self).overflowed() == old(self).overflowed(),
            old(self)@.len() == 0 ==> {
                &&& r == Err::<u32, KernelError>(KernelError::NoData)
                &&& final(self)@ == old(self)@
            },
            old(self)@.len() > 0 ==> {
                &&& r == Ok::<u32, KernelError>(old(self)@[0])
                &&& final(self)@ == old(self)@.drop_first()
            },
    {
        if self.free == self.size {
            return Err(KernelError::NoData);
        }
        let ghost before = self@;
        let data = self.buf[self.q as usize];
        if self.q + 1 == self.size {
            self.q = 0;
        } else {
            self.q = self.q + 1;
        }
        self.free = self.free + 1;
        assert(self@ =~= before.drop_first());
        Ok(data)
    }

    /// Task woken when a message arrives, if any.
    pub fn task_index(&self) -> (r: Option<usize>)
        ensures
            r == self.bound_task(),
    {
        self.task_index
    }

    /// Binds the queue to `task`, or unbinds it.
    pub fn bind_task(&mut self, task: Option<usize>)
        requires
            old(self).wf(),
        ensures
            final(self).wf(),
            final(self)@ == old(self)@,
            final(self).capacity() == old(self).capacity(),
            final(self).overflowed() == old(self).overflowed(),
            final(self).bound_task() == task,
    {
        self.task_index = task;
    }

    /// Number of queued messages.
    pub fn status(&self) -> (r: u32)
        requires
            self.wf(),
        ensures
            r == self@.len(),
    {
        self.size - self.free
    }

    /// A queue never holds more messages than it has slots.
    pub proof fn lemma_len_le_capacity(&self)
        requires
            self.wf(),
        ensures
            self@.len() <= self.capacity(),
    {
    }
}

/// The contents of a queue of `cap` slots that held `s` after `msgs` are
/// put into it in turn, as `put` says of each: a message that finds the
/// queue full is dropped.
pub open spec fn after_puts(s: Seq<u32>, msgs: Seq<u32>, cap: nat) -> Seq<u32>
    decreases msgs.len(),
{
    if msgs.len() == 0 {
        s
    } else {
        let t = after_puts(s, msgs.drop_last(), cap);
        if t.len() < cap {
            t.push(msgs.last())
        } else {
            t
        }
    }
}

/// Putting messages in turn into a queue keeps the first that find room,
/// in the order they were put, behind what it held; `get` then hands them
/// out oldest first. From an empty queue with room for all of them, the
/// messages come back exactly as they were put.
pub proof fn lemma_round_trip(s: Seq<u32>, msgs: Seq<u32>, cap: nat)
    requires
        s.len() <= cap,
    ensures
        after_puts(s, msgs, cap) == (if s.len() + msgs.len() <= cap {
            s + msgs
        } else {
            (s + msgs).take(cap as int)
        }),
        s.len() == 0 && msgs.len() <= cap ==> after_puts(s, msgs, cap) == msgs,
    decreases msgs.len(),
{
    if msgs.len() == 0 {
        assert(s + msgs =~= s);
    } else {
        let d = msgs.drop_last();
        lemma_round_trip(s, d, cap);
        let t = after_puts(s, d, cap);
        if s.len() + d.len() < cap {
            assert(t.push(msgs.last()) =~= s + msgs);
        } else if s.len() + d.len() == cap {
            assert(t =~= (s + msgs).take(cap as int));
        } else {
            assert(t =~= (s + msgs).take(cap as int));
        }
    }
    if s.len() == 0 && msgs.len() <= cap {
        assert(s + msgs =~= msgs);
    }
}

} // verus!
