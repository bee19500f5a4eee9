use vstd::prelude::*;

use crate::error::KernelError;

verus! {

/// Number of entries of the free-block table.
pub const MEMMAN_FREES: usize = 4090;

/// Highest address plus one that a free block may reach.
pub const MEM_END: u32 = 0xffff_ffff;

/// Mask that rounds a size down to whole 4 KiB pages.
pub const PAGE_MASK: u32 = 0xffff_f000;

/// A run of free bytes.
#[derive(Debug, Clone, Copy, PartialEq, Eq, Structural)]
pub struct FreeInfo {
    pub addr: u32,
    pub size: u32,
}

/// End of a free block, one past its last byte.
pub open spec fn end_of(b: FreeInfo) -> int {
    b.addr + b.size
}

/// Sum of the sizes of the blocks.
pub open spec fn sum_sizes(s: Seq<FreeInfo>) -> int
    decreases s.len(),
{
    if s.len() == 0 {
        0
    } else {
        sum_sizes(s.drop_last()) + s.last().size
    }
}

/// Blocks are non-empty, end below `MEM_END`, and come in order of address
/// without overlapping.
pub open spec fn blocks_ok(s: Seq<FreeInfo>) -> bool {
    &&& forall|i: int| 0 <= i < s.len() ==> #[trigger] s[i].size > 0 && end_of(s[i]) <= MEM_END
    &&& forall|i: int, j: int| 0 <= i < j < s.len() ==> end_of(#[trigger] s[i]) <= (#[trigger] s[j]).addr
}

/// Position at which a block at `addr` goes: after every block below it.
pub open spec fn free_pos(s: Seq<FreeInfo>, addr: u32, k: int) -> bool {
    &&& 0 <= k <= s.len()
    &&& forall|j: int| 0 <= j < k ==> (#[trigger] s[j]).addr < addr
    &&& forall|j: int| k <= j < s.len() ==> (#[trigger] s[j]).addr > addr
}

/// The table after the block `[addr, addr + size)` is given back at
/// position `k`: merged with the block before it, the block after it, or
/// both, where they touch; otherwise inserted.
pub open spec fn freed(s: Seq<FreeInfo>, k: int, addr: u32, size: u32) -> Seq<FreeInfo> {
    let prev_adj = k > 0 && end_of(s[k - 1]) == addr;
    let next_adj = k < s.len() && addr + size == s[k].addr;
    if prev_adj && next_adj {
        s.update(
            k - 1,
            FreeInfo { addr: s[k - 1].addr, size: (s[k - 1].size + size + s[k].size) as u32 },
        ).remove(k)
    } else if prev_adj {
        s.update(k - 1, FreeInfo { addr: s[k - 1].addr, size: (s[k - 1].size + size) as u32 })
    } else if next_adj {
        s.update(k, FreeInfo { addr, size: (size + s[k].size) as u32 })
    } else {
        s.insert(k, FreeInfo { addr, size })
    }
}

/// Whether giving `[addr, addr + size)` back at position `k` needs a new
/// entry of the table.
pub open spec fn needs_entry(s: Seq<FreeInfo>, k: int, addr: u32, size: u32) -> bool {
    !(k > 0 && end_of(s[k - 1]) == addr) && !(k < s.len() && addr + size == s[k].addr)
}

/// `size` rounded up to whole 4 KiB pages.
pub open spec fn round_4k(size: u32) -> u32 {
    (((size + 0xfff) / 0x1000) * 0x1000) as u32
}

/// The blocks `s` after `size` bytes are taken from the front of block `i`.
pub open spec fn taken(s: Seq<FreeInfo>, i: int, size: u32) -> Seq<FreeInfo> {
    if s[i].size == size {
        s.remove(i)
    } else {
        s.update(i, FreeInfo { addr: (s[i].addr + size) as u32, size: (s[i].size - size) as u32 })
    }
}

/// The sum of the sizes of ordered blocks is at most the end of the last.
proof fn lemma_sum_below_end(s: Seq<FreeInfo>)
    requires
        blocks_ok(s),
        s.len() > 0,
    ensures
        sum_sizes(s) <= end_of(s.last()),
    decreases s.len(),
{
    let d = s.drop_last();
    if d.len() > 0 {
        assert(blocks_ok(d)) by {
            assert forall|i: int, j: int| 0 <= i < j < d.len() implies end_of(#[trigger] d[i]) <= (
            #[trigger] d[j]).addr by {
                assert(d[i] == s[i] && d[j] == s[j]);
            }
        }
        lemma_sum_below_end(d);
        assert(d.last() == s[s.len() - 2]);
        assert(end_of(s[s.len() - 2]) <= s[s.len() - 1].addr);
    } else {
        assert(sum_sizes(d) == 0);
    }
}

/// Giving back a block that overlaps no free block keeps the table in order.
proof fn lemma_freed_ok(s: Seq<FreeInfo>, k: int, addr: u32, size: u32)
    requires
        blocks_ok(s),
        free_pos(s, addr, k),
        size > 0,
        addr + size <= MEM_END,
        forall|i: int|
            0 <= i < s.len() ==> end_of(#[trigger] s[i]) <= addr || addr + size <= s[i].addr,
    ensures
        blocks_ok(freed(s, k, addr, size)),
{
    let prev_adj = k > 0 && end_of(s[k - 1]) == addr;
    let next_adj = k < s.len() && addr + size == s[k].addr;
    let n = freed(s, k, addr, size);
    if k > 0 {
        assert(end_of(s[k - 1]) <= addr);
    }
    if k < s.len() {
        assert(addr + size <= s[k].addr);
    }
    if prev_adj && next_adj {
        let u = s.update(
            k - 1,
            FreeInfo { addr: s[k - 1].addr, size: (s[k - 1].size + size + s[k].size) as u32 },
        );
        u.remove_ensures(k);
        assert forall|q: int| 0 <= q < n.len() implies #[trigger] n[q] == if q < k - 1 {
            s[q]
        } else if q == k - 1 {
            u[k - 1]
        } else {
            s[q + 1]
        } by {}
        assert forall|a: int, b: int| 0 <= a < b < n.len() implies end_of(#[trigger] n[a]) <= (
        #[trigger] n[b]).addr by {
            if a == k - 1 {
                assert(end_of(s[k]) <= s[b + 1].addr);
            } else if b == k - 1 {
                assert(end_of(s[a]) <= s[k - 1].addr);
            } else if a < k - 1 && b > k - 1 {
                assert(end_of(s[a]) <= s[b + 1].addr);
            } else if a > k - 1 {
                assert(end_of(s[a + 1]) <= s[b + 1].addr);
            }
        }
        assert forall|q: int| 0 <= q < n.len() implies #[trigger] n[q].size > 0 && end_of(n[q])
            <= MEM_END by {
            if q > k - 1 {
                assert(n[q] == s[q + 1]);
            }
        }
    } else if prev_adj {
        assert forall|a: int, b: int| 0 <= a < b < n.len() implies end_of(#[trigger] n[a]) <= (
        #[trigger] n[b]).addr by {
            if a == k - 1 {
                assert(addr + size <= s[k].addr);
                if b > k {
                    assert(end_of(s[k]) <= s[b].addr);
                }
            } else if b == k - 1 {
                assert(end_of(s[a]) <= s[k - 1].addr);
            }
        }
        if k < s.len() {
            assert(addr + size <= s[k].addr);
        }
    } else if next_adj {
        assert forall|a: int, b: int| 0 <= a < b < n.len() implies end_of(#[trigger] n[a]) <= (
        #[trigger] n[b]).addr by {
            if b == k {
                if a < k - 1 {
                    assert(end_of(s[a]) <= s[k - 1].addr);
                }
                if k > 0 {
                    assert(end_of(s[k - 1]) <= addr);
                }
            } else if a == k {
                assert(end_of(s[k]) <= s[b].addr);
            }
        }
    } else {
        s.insert_ensures(k, FreeInfo { addr, size });
        assert forall|q: int| 0 <= q < n.len() implies #[trigger] n[q] == if q < k {
            s[q]
        } else if q == k {
            FreeInfo { addr, size }
        } else {
            s[q - 1]
        } by {}
        assert forall|a: int, b: int| 0 <= a < b < n.len() implies end_of(#[trigger] n[a]) <= (
        #[trigger] n[b]).addr by {
            if a == k {
                assert(addr + size <= s[k].addr);
                if b - 1 > k {
                    assert(end_of(s[k]) <= s[b - 1].addr);
                }
            } else if b == k {
                if a < k - 1 {
                    assert(end_of(s[a]) <= s[k - 1].addr);
                }
                assert(end_of(s[k - 1]) <= addr);
            } else if a < k && b > k {
                assert(end_of(s[a]) <= s[b - 1].addr);
            } else if a > k {
                assert(end_of(s[a - 1]) <= s[b - 1].addr);
            }
        }
        assert forall|q: int| 0 <= q < n.len() implies #[trigger] n[q].size > 0 && end_of(n[q])
            <= MEM_END by {
            if q > k {
                assert(n[q] == s[q - 1]);
            } else if q < k {
                assert(n[q] == s[q]);
            }
        }
    }
}

/// The free-block table of the page allocator.
pub struct MemMan {
    frees: Vec<FreeInfo>,
    maxfrees: u32,
    lostsize: u32,
    losts: u32,
}

impl MemMan {
    /// The table fits and its blocks are in order.
    pub closed spec fn wf(&self) -> bool {
        &&& self.frees@.len() <= MEMMAN_FREES
        &&& blocks_ok(self.frees@)
    }

    /// The free blocks, in order of address.
    pub closed spec fn blocks(&self) -> Seq<FreeInfo> {
        self.frees@
    }

    /// Number of blocks lost because the table was full.
    pub closed spec fn lost_blocks(&self) -> u32 {
        self.losts
    }

    /// An allocator with no free memory.
    pub fn new() -> (r: MemMan)
        ensures
            r.wf(),
            r.blocks() == Seq::<FreeInfo>::empty(),
            r.lost_blocks() == 0,
    {
        MemMan { frees: Vec::new(), maxfrees: 0, lostsize: 0, losts: 0 }
    }

    /// Total of the free bytes.
    pub fn total(&self) -> (r: u32)
        requires
            self.wf(),
        ensures
            r == sum_sizes(self.blocks()),
    {
        let mut t: u32 = 0;
        let mut i: usize = 0;
        while i < self.frees.len()
            invariant
                self.wf(),
                i <= self.frees@.len(),
                t == sum_sizes(self.frees@.take(i as int)),
            decreases self.frees@.len() - i,
        {
            let ghost s = self.frees@.take(i as int + 1);
            proof {
                assert(s.drop_last() =~= self.frees@.take(i as int));
                assert(blocks_ok(s)) by {
                    assert forall|a: int, b: int| 0 <= a < b < s.len() implies end_of(#[trigger] s[a])
                        <= (#[trigger] s[b]).addr by {
                        assert(s[a] == self.frees@[a] && s[b] == self.frees@[b]);
                    }
                }
                lemma_sum_below_end(s);
            }
            t = t + self.frees[i].size;
            i = i + 1;
        }
        proof {
            assert(self.frees@.take(i as int) =~= self.frees@);
        }
        t
    }

    /// Takes `size` bytes from the front of the first block that has them.
    pub fn allocate(&mut self, size: u32) -> (r: Result<u32, KernelError>)
        requires
            old(self).wf(),
        ensures
            final(self).wf(),
            final(self).lost_blocks() == old(self).lost_blocks(),
            match r {
                Ok(a) => exists|i: int|
                    {
                        &&& 0 <= i < old(self).blocks().len()
                        &&& old(self).blocks()[i].size >= size
                        &&& forall|j: int| 0 <= j < i ==> (#[trigger] old(self).blocks()[j]).size < size
                        &&& a == old(self).blocks()[i].addr
                        &&& final(self).blocks() == taken(old(self).blocks(), i, size)
                    },
                Err(e) => {
                    &&& e == KernelError::CannotAllocateMemory
                    &&& forall|j: int| 0 <= j < old(self).blocks().len() ==> (#[trigger] old(self).blocks()[j]).size < size
                    &&& final(self).blocks() == old(self).blocks()
                },
            },
    {
        let mut i: usize = 0;
        while i < self.frees.len()
            invariant
                *self == *old(self),
                self.wf(),
                i <= self.frees@.len(),
                forall|j: int| 0 <= j < i ==> (#[trigger] self.frees@[j]).size < size,
            decreases self.frees@.len() - i,
        {
            let b = self.frees[i];
            if b.size >= size {
                let ghost s = self.frees@;
                if b.size == size {
                    self.frees.remove(i);
                    proof {
                        s.remove_ensures(i as int);
                        assert forall|a: int, c: int| 0 <= a < c < self.frees@.len() implies end_of(
                            #[trigger] self.frees@[a],
                        ) <= (#[trigger] self.frees@[c]).addr by {
                            let oa = if a < i { a } else { a + 1 };
                            let oc = if c < i { c } else { c + 1 };
                            assert(self.frees@[a] == s[oa] && self.frees@[c] == s[oc]);
                        }
                        assert forall|a: int| 0 <= a < self.frees@.len() implies #[trigger] self.frees@[a].size
                            > 0 && end_of(self.frees@[a]) <= MEM_END by {
                            let oa = if a < i { a } else { a + 1 };
                            assert(self.frees@[a] == s[oa]);
                        }
                    }
                } else {
                    self.frees.set(i, FreeInfo { addr: b.addr + size, size: b.size - size });
                    proof {
                        assert forall|a: int, c: int| 0 <= a < c < self.frees@.len() implies end_of(
                            #[trigger] self.frees@[a],
                        ) <= (#[trigger] self.frees@[c]).addr by {
                            assert(end_of(s[a]) <= s[c].addr);
                        }
                    }
                }
                proof {
                    assert(self.frees@ == taken(s, i as int, size));
                    assert(old(self).blocks()[i as int].size >= size);
                }
                return Ok(b.addr);
            }
            i = i + 1;
        }
        Err(KernelError::CannotAllocateMemory)
    }

    /// Gives back `[addr, addr + size)`, which overlaps no free block,
    /// merging it with the free blocks it touches. When it touches none and
    /// the table is full, the block is lost and counted.
    pub fn free(&mut self, addr: u32, size: u32) -> (r: Result<(), KernelError>)
        requires
            old(self).wf(),
            size > 0,
            addr + size <= MEM_END,
            forall|i: int|
                0 <= i < old(self).blocks().len() ==> end_of(#[trigger] old(self).blocks()[i])
                    <= addr || addr + size <= old(self).blocks()[i].addr,
        ensures
            final(self).wf(),
            exists|k: int|
                {
                    &&& free_pos(old(self).blocks(), addr, k)
                    &&& if needs_entry(old(self).blocks(), k, addr, size) && old(self).blocks().len()
                        == MEMMAN_FREES {
                        &&& r == Err::<(), KernelError>(KernelError::CannotFreeMemory)
                        &&& final(self).blocks() == old(self).blocks()
                        &&& final(self).lost_blocks() == if old(self).lost_blocks() < u32::MAX {
                            (old(self).lost_blocks() + 1) as u32
                        } else {
                            old(self).lost_blocks()
                        }
                    } else {
                        &&& r == Ok::<(), KernelError>(())
                        &&& final(self).blocks() == freed(old(self).blocks(), k, addr, size)
                        &&& final(self).lost_blocks() == old(self).lost_blocks()
                    }
                },
    {
        let n = self.frees.len();
        let ghost s = self.frees@;
        let mut idx: usize = 0;
        while idx < n && self.frees[idx].addr < addr
            invariant
                *self == *old(self),
                s == self.frees@,
                n == s.len(),
                idx <= n,
                forall|j: int| 0 <= j < idx ==> (#[trigger] s[j]).addr < addr,
            decreases n - idx,
        {
            idx = idx + 1;
        }
        proof {
            let k = idx as int;
            assert forall|i: int| 0 <= i < s.len() implies end_of(#[trigger] s[i]) <= addr || addr
                + size <= s[i].addr by {
                assert(s[i] == old(self).blocks()[i]);
            }
            assert forall|j: int| k <= j < s.len() implies (#[trigger] s[j]).addr > addr by {
                assert(s[k].addr >= addr);
                if s[k].addr == addr {
                    assert(end_of(s[k]) <= addr || addr + size <= s[k].addr);
                }
                if j > k {
                    assert(end_of(s[k]) <= s[j].addr);
                }
            }
            assert(free_pos(s, addr, k));
            lemma_freed_ok(s, k, addr, size);
        }
        if idx > 0 && self.frees[idx - 1].addr + self.frees[idx - 1].size == addr {
            let prev = self.frees[idx - 1];
            if idx < n && addr + size == self.frees[idx].addr {
                let next = self.frees[idx];
                self.frees.set(idx - 1, FreeInfo { addr: prev.addr, size: prev.size + size + next.size });
                self.frees.remove(idx);
            } else {
                self.frees.set(idx - 1, FreeInfo { addr: prev.addr, size: prev.size + size });
            }
            proof {
                assert(self.frees@ == freed(s, idx as int, addr, size));
                assert(!needs_entry(s, idx as int, addr, size));
                assert(free_pos(old(self).blocks(), addr, idx as int));
            }
            return Ok(());
        }
        if idx < n && addr + size == self.frees[idx].addr {
            let next = self.frees[idx];
            self.frees.set(idx, FreeInfo { addr, size: size + next.size });
            proof {
                assert(self.frees@ == freed(s, idx as int, addr, size));
                assert(!needs_entry(s, idx as int, addr, size));
                assert(free_pos(old(self).blocks(), addr, idx as int));
            }
            return Ok(());
        }
        if n < MEMMAN_FREES {
            self.frees.insert(idx, FreeInfo { addr, size });
            if self.maxfrees < (n + 1) as u32 {
                self.maxfrees = (n + 1) as u32;
            }
            proof {
                assert(self.frees@ == freed(s, idx as int, addr, size));
                assert(free_pos(old(self).blocks(), addr, idx as int));
                assert(s.len() < MEMMAN_FREES);
            }
            return Ok(());
        }
        self.losts = self.losts.saturating_add(1);
        self.lostsize = self.lostsize.wrapping_add(size);
        proof {
            assert(needs_entry(s, idx as int, addr, size));
            assert(free_pos(old(self).blocks(), addr, idx as int));
            assert(s.len() == MEMMAN_FREES);
        }
        Err(KernelError::CannotFreeMemory)
    }

    /// Allocates `size` bytes rounded up to whole 4 KiB pages.
    pub fn alloc_4k(&mut self, size: u32) -> (r: Result<u32, KernelError>)
        requires
            old(self).wf(),
            size <= MEM_END - 0xfff,
        ensures
            final(self).wf(),
            final(self).lost_blocks() == old(self).lost_blocks(),
            match r {
                Ok(a) => exists|i: int|
                    {
                        &&& 0 <= i < old(self).blocks().len()
                        &&& old(self).blocks()[i].size >= round_4k(size)
                        &&& forall|j: int|
                            0 <= j < i ==> (#[trigger] old(self).blocks()[j]).size < round_4k(size)
                        &&& a == old(self).blocks()[i].addr
                        &&& final(self).blocks() == taken(old(self).blocks(), i, round_4k(size))
                    },
                Err(e) => {
                    &&& e == KernelError::CannotAllocateMemory
                    &&& forall|j: int|
                        0 <= j < old(self).blocks().len() ==> (#[trigger] old(self).blocks()[j]).size
                            < round_4k(size)
                    &&& final(self).blocks() == old(self).blocks()
                },
            },
    {
        let s = (size + 0xfff) & PAGE_MASK;
        proof {
            let x = (size + 0xfff) as u32;
            assert(x & 0xffff_f000u32 == (x / 0x1000u32) * 0x1000u32) by (bit_vector);
            assert((x / 0x1000) * 0x1000 <= x) by (nonlinear_arith)
                requires
                    x >= 0,
            ;
            assert(s == round_4k(size));
        }
        self.allocate(s)
    }

    /// Gives back `size` bytes at `addr`, rounded up to whole 4 KiB pages.
    pub fn free_4k(&mut self, addr: u32, size: u32) -> (r: Result<(), KernelError>)
        requires
            old(self).wf(),
            size > 0,
            size <= MEM_END - 0xfff,
            addr + round_4k(size) <= MEM_END,
            forall|i: int|
                0 <= i < old(self).blocks().len() ==> end_of(#[trigger] old(self).blocks()[i])
                    <= addr || addr + round_4k(size) <= old(self).blocks()[i].addr,
        ensures
            final(self).wf(),
            exists|k: int|
                {
                    &&& free_pos(old(self).blocks(), addr, k)
                    &&& if needs_entry(old(self).blocks(), k, addr, round_4k(size)) && old(
                        self,
                    ).blocks().len() == MEMMAN_FREES {
                        &&& r == Err::<(), KernelError>(KernelError::CannotFreeMemory)
                        &&& final(self).blocks() == old(self).blocks()
                        &&& final(self).lost_blocks() == if old(self).lost_blocks() < u32::MAX {
                            (old(self).lost_blocks() + 1) as u32
                        } else {
                            old(self).lost_blocks()
                        }
                    } else {
                        &&& r == Ok::<(), KernelError>(())
                        &&& final(self).blocks() == freed(old(self).blocks(), k, addr, round_4k(size))
                        &&& final(self).lost_blocks() == old(self).lost_blocks()
                    }
                },
    {
        let s = (size + 0xfff) & PAGE_MASK;
        proof {
            let x = (size + 0xfff) as u32;
            assert(x & 0xffff_f000u32 == (x / 0x1000u32) * 0x1000u32) by (bit_vector);
            assert(x / 0x1000u32 >= 1u32) by (bit_vector)
                requires
                    x >= 0x1000u32,
            ;
            assert((x / 0x1000u32) * 0x1000u32 >= 0x1000u32) by (bit_vector)
                requires
                    x / 0x1000u32 >= 1u32,
                    x <= 0xffff_ffffu32,
            ;
            assert((x / 0x1000) * 0x1000 <= x) by (nonlinear_arith)
                requires
                    x >= 0,
            ;
            assert(s == round_4k(size));
        }
        self.free(addr, s)
    }

    /// Whether `[addr, addr + size)` overlaps a free block.
    pub fn overlaps(&self, addr: u32, size: u32) -> (r: bool)
        requires
            self.wf(),
        ensures
            r == exists|i: int|
                0 <= i < self.blocks().len() && !(end_of(#[trigger] self.blocks()[i]) <= addr || addr
                    + size <= self.blocks()[i].addr),
    {
        let mut i: usize = 0;
        while i < self.frees.len()
            invariant
                self.wf(),
                i <= self.frees@.len(),
                forall|j: int|
                    0 <= j < i ==> end_of(#[trigger] self.frees@[j]) <= addr || addr + size
                        <= self.frees@[j].addr,
            decreases self.frees@.len() - i,
        {
            let b = self.frees[i];
            if !(b.addr as u64 + b.size as u64 <= addr as u64 || addr as u64 + size as u64
                <= b.addr as u64) {
                proof {
                    assert(self.blocks()[i as int] == b);
                }
                return true;
            }
            i = i + 1;
        }
        false
    }
}

} // verus!
