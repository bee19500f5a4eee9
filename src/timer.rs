use vstd::prelude::*;

use crate::error::KernelError;

verus! {

/// Number of timers that can be handed out.
pub const MAX_TIMER: usize = 500;

/// Arena slot of the sentinel that ends the list of armed timers.
pub const SENTINEL: usize = 500;

/// Expiry of the sentinel; no armed timer reaches it.
pub const TIMEOUT_MAX: u32 = 0xffff_ffff;

/// Life-cycle state of a timer slot.
#[derive(Debug, Clone, Copy, PartialEq, Eq, Structural)]
pub enum TimerFlag {
    Available,
    Used,
    Counting,
}

/// What happens when a timer expires.
#[derive(Debug, Clone, Copy, PartialEq, Eq, Structural)]
pub enum TimerKind {
    /// The time slice of the running task is over.
    Scheduling,
    /// `data` is put into the queue with handle `fifo`.
    AppEvent { fifo: usize, data: i32 },
}

/// One slot of the timer arena.
#[derive(Debug, Clone, Copy)]
pub struct Timer {
    /// Absolute tick at which the timer expires.
    pub timeout: u32,
    pub flag: TimerFlag,
    /// Owned by an application task, cancelled in bulk when it ends.
    pub from_app: bool,
    pub kind: TimerKind,
    /// Next slot of the list of armed timers.
    pub next: Option<usize>,
}

impl Timer {
    /// A free slot.
    pub fn new() -> (r: Timer)
        ensures
            entry_of(r) == free_entry(),
            r.next.is_none(),
    {
        Timer {
            timeout: 0,
            flag: TimerFlag::Available,
            from_app: false,
            kind: TimerKind::AppEvent { fifo: 0, data: 0 },
            next: None,
        }
    }
}

/// What a free slot holds.
pub open spec fn free_entry() -> (u32, TimerFlag, bool, TimerKind) {
    (0, TimerFlag::Available, false, TimerKind::AppEvent { fifo: 0, data: 0 })
}

/// What a slot of the arena holds, apart from its link.
pub open spec fn entry_of(t: Timer) -> (u32, TimerFlag, bool, TimerKind) {
    (t.timeout, t.flag, t.from_app, t.kind)
}

/// Whether `pending` lists the slots in order of expiry under `timeout`.
pub open spec fn sorted_by(pending: Seq<usize>, timeout: spec_fn(usize) -> u32) -> bool {
    forall|a: int, b: int|
        0 <= a < b < pending.len() ==> timeout(#[trigger] pending[a]) <= timeout(
            #[trigger] pending[b],
        )
}

/// The slots of `order` are distinct slots of the arena.
#[verifier::opaque]
spec fn distinct_slots(order: Seq<usize>) -> bool {
    &&& order.no_duplicates()
    &&& forall|p: int| 0 <= p < order.len() ==> #[trigger] order[p] <= SENTINEL
}

/// Each slot of `order` but the last links to the next one and expires
/// before the sentinel.
#[verifier::opaque]
spec fn links_ok(order: Seq<usize>, ts: Seq<Timer>) -> bool {
    forall|p: int|
        0 <= p < order.len() - 1 ==> ts[#[trigger] order[p] as int].next == Some(order[p + 1])
            && ts[order[p] as int].timeout < TIMEOUT_MAX
}

/// The slots of `order` come in order of expiry.
#[verifier::opaque]
spec fn sorted_ok(order: Seq<usize>, ts: Seq<Timer>) -> bool {
    forall|a: int, b: int|
        0 <= a < b < order.len() ==> ts[#[trigger] order[a] as int].timeout <= ts[#[trigger] order[b] as int].timeout
}

/// A slot of the pool counts exactly when it is on the list.
#[verifier::opaque]
spec fn members_ok(order: Seq<usize>, ts: Seq<Timer>) -> bool {
    forall|k: int|
        0 <= k < MAX_TIMER ==> (#[trigger] ts[k].flag == TimerFlag::Counting <==> order.contains(
            k as usize,
        ))
}

/// Putting a new slot `i` into a list of distinct slots keeps them distinct.
proof fn lemma_insert_distinct(o: Seq<usize>, n: Seq<usize>, i: usize, k: int)
    requires
        distinct_slots(o),
        !o.contains(i),
        i <= SENTINEL,
        0 <= k <= o.len(),
        n == o.insert(k, i),
    ensures
        distinct_slots(n),
{
    reveal(distinct_slots);
    o.insert_ensures(k, i);
    assert forall|p: int| 0 <= p < n.len() implies (p < k ==> #[trigger] n[p] == o[p]) && (p == k
        ==> n[p] == i) && (p > k ==> n[p] == o[p - 1]) by {}
    assert forall|a: int, b: int| 0 <= a < b < n.len() implies n[a] != n[b] by {
        if a != k && b != k {
        } else if a == k {
            assert(o.contains(n[b]));
        } else {
            assert(o.contains(n[a]));
        }
    }
}

/// How the arena changes when slot `i` is linked in at position `k` of
/// the list `o`: slot `i` counts, expires before `o[k]` and after the slots
/// ahead of it, and links to `o[k]`; the slot ahead of it links to `i`.
spec fn insert_frame(o: Seq<usize>, ot: Seq<Timer>, nt: Seq<Timer>, i: usize, k: int) -> bool {
    let ti = nt[i as int];
    &&& nt.len() == ot.len()
    &&& 0 <= k < o.len()
    &&& ti.flag == TimerFlag::Counting
    &&& ti.next == Some(o[k])
    &&& ti.timeout < ot[o[k] as int].timeout
    &&& forall|p: int| 0 <= p < k ==> ot[#[trigger] o[p] as int].timeout <= ti.timeout
    &&& if k == 0 {
        nt == ot.update(i as int, ti)
    } else {
        let c = o[k - 1] as int;
        let tc = nt[c];
        &&& tc.next == Some(i)
        &&& entry_of(tc) == entry_of(ot[c])
        &&& nt == ot.update(i as int, ti).update(c, tc)
    }
}

/// The slots of `o` other than the one ahead of position `k` keep their
/// link, and all keep their expiry.
proof fn lemma_insert_keeps(o: Seq<usize>, ot: Seq<Timer>, nt: Seq<Timer>, i: usize, k: int)
    requires
        distinct_slots(o),
        !o.contains(i),
        forall|p: int| 0 <= p < o.len() ==> #[trigger] o[p] < ot.len(),
        i < ot.len(),
        insert_frame(o, ot, nt, i, k),
    ensures
        forall|p: int|
            0 <= p < o.len() ==> #[trigger] nt[o[p] as int].timeout == ot[o[p] as int].timeout && (p
                != k - 1 ==> nt[o[p] as int] == ot[o[p] as int]),
{
    reveal(distinct_slots);
    assert forall|p: int| 0 <= p < o.len() implies #[trigger] nt[o[p] as int].timeout
        == ot[o[p] as int].timeout && (p != k - 1 ==> nt[o[p] as int] == ot[o[p] as int]) by {
        assert(o[p] != i);
        if k > 0 && p != k - 1 {
            assert(o[p] != o[k - 1]);
        }
    }
}

proof fn lemma_insert_links(
    o: Seq<usize>,
    ot: Seq<Timer>,
    n: Seq<usize>,
    nt: Seq<Timer>,
    i: usize,
    k: int,
)
    requires
        distinct_slots(o),
        links_ok(o, ot),
        !o.contains(i),
        i < ot.len(),
        forall|p: int| 0 <= p < o.len() ==> #[trigger] o[p] < ot.len(),
        n == o.insert(k, i),
        insert_frame(o, ot, nt, i, k),
    ensures
        links_ok(n, nt),
{
    reveal(links_ok);
    lemma_insert_keeps(o, ot, nt, i, k);
    o.insert_ensures(k, i);
    assert forall|p: int| 0 <= p < n.len() - 1 implies nt[#[trigger] n[p] as int].next == Some(
        n[p + 1],
    ) && nt[n[p] as int].timeout < TIMEOUT_MAX by {
        if p == k {
            assert(n[p + 1] == o[k]);
        } else if p == k - 1 {
            assert(n[p] == o[k - 1]);
        } else if p < k {
            assert(n[p] == o[p] && n[p + 1] == o[p + 1]);
        } else {
            assert(n[p] == o[p - 1] && n[p + 1] == o[p]);
        }
    }
}

proof fn lemma_insert_sorted(
    o: Seq<usize>,
    ot: Seq<Timer>,
    n: Seq<usize>,
    nt: Seq<Timer>,
    i: usize,
    k: int,
)
    requires
        distinct_slots(o),
        sorted_ok(o, ot),
        !o.contains(i),
        i < ot.len(),
        forall|p: int| 0 <= p < o.len() ==> #[trigger] o[p] < ot.len(),
        n == o.insert(k, i),
        insert_frame(o, ot, nt, i, k),
    ensures
        sorted_ok(n, nt),
{
    reveal(sorted_ok);
    lemma_insert_keeps(o, ot, nt, i, k);
    o.insert_ensures(k, i);
    assert forall|a: int, b: int| 0 <= a < b < n.len() implies nt[#[trigger] n[a] as int].timeout
        <= nt[#[trigger] n[b] as int].timeout by {
        if a == k {
            assert(n[b] == o[b - 1]);
            assert(ot[o[k] as int].timeout <= ot[o[b - 1] as int].timeout);
        } else if b == k {
            assert(n[a] == o[a]);
        } else if b < k {
            assert(n[a] == o[a] && n[b] == o[b]);
        } else if a < k {
            assert(n[a] == o[a] && n[b] == o[b - 1]);
        } else {
            assert(n[a] == o[a - 1] && n[b] == o[b - 1]);
        }
    }
}

proof fn lemma_insert_members(
    o: Seq<usize>,
    ot: Seq<Timer>,
    n: Seq<usize>,
    nt: Seq<Timer>,
    i: usize,
    k: int,
)
    requires
        members_ok(o, ot),
        ot.len() == MAX_TIMER + 1,
        i < MAX_TIMER,
        !o.contains(i),
        forall|p: int| 0 <= p < o.len() ==> #[trigger] o[p] < ot.len(),
        0 <= k < o.len(),
        n == o.insert(k, i),
        insert_frame(o, ot, nt, i, k),
    ensures
        members_ok(n, nt),
{
    reveal(members_ok);
    o.insert_ensures(k, i);
    assert forall|j: int| 0 <= j < MAX_TIMER implies (#[trigger] nt[j].flag
        == TimerFlag::Counting <==> n.contains(j as usize)) by {
        if j == i {
            assert(n[k] == i);
        } else {
            if k > 0 && j == o[k - 1] {
                assert(entry_of(nt[j]) == entry_of(ot[j]));
            } else if k == 0 {
                assert(nt == ot.update(i as int, nt[i as int]));
                assert(nt[j] == ot[j]);
            } else {
                let c = o[k - 1] as int;
                assert(nt == ot.update(i as int, nt[i as int]).update(c, nt[c]));
                assert(nt[j] == ot[j]);
            }
            if o.contains(j as usize) {
                let p = choose|p: int| 0 <= p < o.len() && o[p] == j as usize;
                if p < k {
                    assert(n[p] == j as usize);
                } else {
                    assert(n[p + 1] == j as usize);
                }
            }
            if n.contains(j as usize) {
                let p = choose|p: int| 0 <= p < n.len() && n[p] == j as usize;
                if p < k {
                    assert(o[p] == j as usize);
                } else if p > k {
                    assert(o[p - 1] == j as usize);
                }
            }
        }
    }
}

/// How the arena changes when the slot at position `k` of the list `o` is
/// unlinked: it no longer counts, and the slot ahead of it links to the one
/// after it.
spec fn remove_frame(o: Seq<usize>, ot: Seq<Timer>, nt: Seq<Timer>, k: int) -> bool {
    let i = o[k] as int;
    let ti = nt[i];
    &&& nt.len() == ot.len()
    &&& 0 <= k < o.len() - 1
    &&& ti.flag == TimerFlag::Used
    &&& ti.timeout == ot[i].timeout
    &&& if k == 0 {
        nt == ot.update(i, ti)
    } else {
        let c = o[k - 1] as int;
        let tc = nt[c];
        &&& tc.next == Some(o[k + 1])
        &&& entry_of(tc) == entry_of(ot[c])
        &&& nt == ot.update(i, ti).update(c, tc)
    }
}

/// Where the slots of `o.remove(k)` stood in `o`.
proof fn lemma_remove_index(o: Seq<usize>, n: Seq<usize>, k: int)
    requires
        0 <= k < o.len(),
        n == o.remove(k),
    ensures
        n.len() == o.len() - 1,
        forall|p: int| 0 <= p < n.len() ==> #[trigger] n[p] == o[if p < k { p } else { p + 1 }],
{
    o.remove_ensures(k);
}

/// The slots of `o` other than the one removed and the one ahead of it
/// are left as they were; all keep their expiry.
proof fn lemma_remove_keeps(o: Seq<usize>, ot: Seq<Timer>, nt: Seq<Timer>, k: int)
    requires
        o.no_duplicates(),
        forall|p: int| 0 <= p < o.len() ==> #[trigger] o[p] < ot.len(),
        remove_frame(o, ot, nt, k),
    ensures
        forall|p: int|
            0 <= p < o.len() ==> #[trigger] nt[o[p] as int].timeout == ot[o[p] as int].timeout && (p
                != k && p != k - 1 ==> nt[o[p] as int] == ot[o[p] as int]),
        k > 0 ==> entry_of(nt[o[k - 1] as int]) == entry_of(ot[o[k - 1] as int]),
{
    assert forall|p: int| 0 <= p < o.len() implies #[trigger] nt[o[p] as int].timeout
        == ot[o[p] as int].timeout && (p != k && p != k - 1 ==> nt[o[p] as int] == ot[o[p] as int]) by {
        if p != k {
            assert(o[p] != o[k]);
        }
        if k > 0 && p != k - 1 {
            assert(o[p] != o[k - 1]);
        }
    }
}

proof fn lemma_remove_distinct(o: Seq<usize>, n: Seq<usize>, k: int)
    requires
        distinct_slots(o),
        0 <= k < o.len(),
        n == o.remove(k),
    ensures
        distinct_slots(n),
{
    reveal(distinct_slots);
    lemma_remove_index(o, n, k);
    assert forall|a: int, b: int| 0 <= a < b < n.len() implies n[a] != n[b] by {
        let oa = if a < k { a } else { a + 1 };
        let ob = if b < k { b } else { b + 1 };
        assert(o[oa] != o[ob]);
    }
    assert forall|p: int| 0 <= p < n.len() implies #[trigger] n[p] <= SENTINEL by {
        let op = if p < k { p } else { p + 1 };
        assert(o[op] <= SENTINEL);
    }
}

proof fn lemma_remove_links(o: Seq<usize>, ot: Seq<Timer>, n: Seq<usize>, nt: Seq<Timer>, k: int)
    requires
        links_ok(o, ot),
        o.no_duplicates(),
        forall|p: int| 0 <= p < o.len() ==> #[trigger] o[p] < ot.len(),
        n == o.remove(k),
        remove_frame(o, ot, nt, k),
    ensures
        links_ok(n, nt),
{
    reveal(links_ok);
    lemma_remove_keeps(o, ot, nt, k);
    lemma_remove_index(o, n, k);
    assert forall|p: int| 0 <= p < n.len() - 1 implies nt[#[trigger] n[p] as int].next == Some(
        n[p + 1],
    ) && nt[n[p] as int].timeout < TIMEOUT_MAX by {
        if p == k - 1 {
            assert(n[p] == o[k - 1]);
            assert(n[p + 1] == o[k + 1]);
        } else if p < k - 1 {
            assert(n[p] == o[p] && n[p + 1] == o[p + 1]);
        } else {
            assert(n[p] == o[p + 1] && n[p + 1] == o[p + 2]);
        }
    }
}

proof fn lemma_remove_sorted(o: Seq<usize>, ot: Seq<Timer>, n: Seq<usize>, nt: Seq<Timer>, k: int)
    requires
        sorted_ok(o, ot),
        o.no_duplicates(),
        forall|p: int| 0 <= p < o.len() ==> #[trigger] o[p] < ot.len(),
        n == o.remove(k),
        remove_frame(o, ot, nt, k),
    ensures
        sorted_ok(n, nt),
{
    reveal(sorted_ok);
    lemma_remove_keeps(o, ot, nt, k);
    lemma_remove_index(o, n, k);
    assert forall|a: int, b: int| 0 <= a < b < n.len() implies nt[#[trigger] n[a] as int].timeout
        <= nt[#[trigger] n[b] as int].timeout by {
        let oa = if a < k { a } else { a + 1 };
        let ob = if b < k { b } else { b + 1 };
        assert(n[a] == o[oa] && n[b] == o[ob]);
        assert(ot[o[oa] as int].timeout <= ot[o[ob] as int].timeout);
    }
}

proof fn lemma_remove_members(o: Seq<usize>, ot: Seq<Timer>, n: Seq<usize>, nt: Seq<Timer>, k: int)
    requires
        members_ok(o, ot),
        o.no_duplicates(),
        ot.len() == MAX_TIMER + 1,
        forall|p: int| 0 <= p < o.len() ==> #[trigger] o[p] < ot.len(),
        n == o.remove(k),
        remove_frame(o, ot, nt, k),
    ensures
        members_ok(n, nt),
{
    reveal(members_ok);
    lemma_remove_keeps(o, ot, nt, k);
    lemma_remove_index(o, n, k);
    let i = o[k];
    assert forall|j: int| 0 <= j < MAX_TIMER implies (#[trigger] nt[j].flag
        == TimerFlag::Counting <==> n.contains(j as usize)) by {
        if j == i {
            if n.contains(j as usize) {
                let p = choose|p: int| 0 <= p < n.len() && n[p] == j as usize;
                let op = if p < k { p } else { p + 1 };
                assert(o[op] == o[k]);
            }
        } else {
            if k > 0 && j == o[k - 1] {
                assert(entry_of(nt[j]) == entry_of(ot[j]));
            } else if k == 0 {
                assert(nt == ot.update(i as int, nt[i as int]));
                assert(nt[j] == ot[j]);
            } else {
                let c = o[k - 1] as int;
                assert(nt == ot.update(i as int, nt[i as int]).update(c, nt[c]));
                assert(nt[j] == ot[j]);
            }
            if o.contains(j as usize) {
                let p = choose|p: int| 0 <= p < o.len() && o[p] == j as usize;
                if p < k {
                    assert(n[p] == j as usize);
                } else {
                    assert(n[p - 1] == j as usize);
                }
            }
            if n.contains(j as usize) {
                let p = choose|p: int| 0 <= p < n.len() && n[p] == j as usize;
                let op = if p < k { p } else { p + 1 };
                assert(o[op] == j as usize);
            }
        }
    }
}

/// The arena `ot` with the slots listed in `js` marked used.
spec fn mark_used(ot: Seq<Timer>, js: Seq<usize>) -> Seq<Timer> {
    Seq::new(
        ot.len(),
        |j: int|
            if js.contains(j as usize) {
                Timer { flag: TimerFlag::Used, ..ot[j] }
            } else {
                ot[j]
            },
    )
}

/// Marking one more slot of the list used.
proof fn lemma_mark_one_more(ot: Seq<Timer>, o: Seq<usize>, pos: int, t: Timer)
    requires
        0 <= pos < o.len(),
        o[pos] < ot.len(),
        ot.len() == MAX_TIMER + 1,
        t == (Timer { flag: TimerFlag::Used, ..ot[o[pos] as int] }),
    ensures
        mark_used(ot, o.take(pos + 1)) == mark_used(ot, o.take(pos)).update(o[pos] as int, t),
{
    let a = mark_used(ot, o.take(pos + 1));
    let b = mark_used(ot, o.take(pos)).update(o[pos] as int, t);
    assert forall|j: int| 0 <= j < ot.len() implies a[j] == b[j] by {
        if j != o[pos] as int {
            if o.take(pos + 1).contains(j as usize) {
                let p = choose|p: int| 0 <= p < pos + 1 && #[trigger] o.take(pos + 1)[p] == j as usize;
                assert(o.take(pos + 1)[p] == o[p]);
                assert(p != pos);
                assert(o.take(pos)[p] == j as usize);
            }
            if o.take(pos).contains(j as usize) {
                let p = choose|p: int| 0 <= p < pos && #[trigger] o.take(pos)[p] == j as usize;
                assert(o.take(pos + 1)[p] == j as usize);
            }
        } else {
            assert(o.take(pos + 1)[pos] == j as usize);
        }
    }
    assert(a =~= b);
}

/// Dropping the first `pos` slots of the list, marked used, keeps the list
/// well formed.
proof fn lemma_skip(o: Seq<usize>, ot: Seq<Timer>, pos: int)
    requires
        distinct_slots(o),
        links_ok(o, ot),
        sorted_ok(o, ot),
        members_ok(o, ot),
        ot.len() == MAX_TIMER + 1,
        0 <= pos < o.len(),
    ensures
        distinct_slots(o.skip(pos)),
        links_ok(o.skip(pos), mark_used(ot, o.take(pos))),
        sorted_ok(o.skip(pos), mark_used(ot, o.take(pos))),
        members_ok(o.skip(pos), mark_used(ot, o.take(pos))),
        forall|q: int| pos <= q < o.len() ==> #[trigger] mark_used(ot, o.take(pos))[o[q] as int] == ot[o[q] as int],
{
    reveal(distinct_slots);
    reveal(links_ok);
    reveal(sorted_ok);
    reveal(members_ok);
    let n = o.skip(pos);
    let nt = mark_used(ot, o.take(pos));
    assert forall|q: int| pos <= q < o.len() implies #[trigger] nt[o[q] as int] == ot[o[q] as int] by {
        if o.take(pos).contains(o[q]) {
            let p = choose|p: int| 0 <= p < pos && #[trigger] o.take(pos)[p] == o[q];
            assert(o[p] == o[q]);
        }
    }
    assert forall|a: int, b: int| 0 <= a < b < n.len() implies n[a] != n[b] by {
        assert(n[a] == o[a + pos] && n[b] == o[b + pos]);
    }
    assert forall|p: int| 0 <= p < n.len() implies #[trigger] n[p] <= SENTINEL by {
        assert(n[p] == o[p + pos]);
    }
    assert forall|p: int| 0 <= p < n.len() - 1 implies nt[#[trigger] n[p] as int].next == Some(
        n[p + 1],
    ) && nt[n[p] as int].timeout < TIMEOUT_MAX by {
        assert(n[p] == o[p + pos] && n[p + 1] == o[p + 1 + pos]);
    }
    assert forall|a: int, b: int| 0 <= a < b < n.len() implies nt[#[trigger] n[a] as int].timeout
        <= nt[#[trigger] n[b] as int].timeout by {
        assert(n[a] == o[a + pos] && n[b] == o[b + pos]);
    }
    assert forall|j: int| 0 <= j < MAX_TIMER implies (#[trigger] nt[j].flag
        == TimerFlag::Counting <==> n.contains(j as usize)) by {
        if o.take(pos).contains(j as usize) {
            let p = choose|p: int| 0 <= p < pos && #[trigger] o.take(pos)[p] == j as usize;
            if n.contains(j as usize) {
                let q = choose|q: int| 0 <= q < n.len() && n[q] == j as usize;
                assert(o[q + pos] == o[p]);
            }
        } else {
            assert(nt[j] == ot[j]);
            if o.contains(j as usize) {
                let p = choose|p: int| 0 <= p < o.len() && o[p] == j as usize;
                if p < pos {
                    assert(o.take(pos)[p] == j as usize);
                } else {
                    assert(n[p - pos] == j as usize);
                }
            }
            if n.contains(j as usize) {
                let q = choose|q: int| 0 <= q < n.len() && n[q] == j as usize;
                assert(o[q + pos] == j as usize);
            }
        }
    }
}

/// The global tick counter and the expiry-sorted list of armed timers.
pub struct TimerManager {
    count: u32,
    next_tick: u32,
    head: usize,
    timers: Vec<Timer>,
    order: Ghost<Seq<usize>>,
}

impl TimerManager {
    /// The list from the head, sentinel included, agrees with the links,
    /// the flags and the expiries.
    pub closed spec fn wf(&self) -> bool {
        let order = self.order@;
        let ts = self.timers@;
        &&& ts.len() == MAX_TIMER + 1
        &&& order.len() >= 1
        &&& order[0] == self.head
        &&& order.last() == SENTINEL
        &&& distinct_slots(order)
        &&& links_ok(order, ts)
        &&& sorted_ok(order, ts)
        &&& members_ok(order, ts)
        &&& ts[SENTINEL as int].next.is_none()
        &&& ts[SENTINEL as int].timeout == TIMEOUT_MAX
        &&& ts[SENTINEL as int].flag == TimerFlag::Counting
        &&& self.next_tick == ts[self.head as int].timeout
    }

    /// Ticks counted so far.
    pub closed spec fn ticks(&self) -> u32 {
        self.count
    }

    /// The armed timers, earliest expiry first.
    pub closed spec fn pending(&self) -> Seq<usize> {
        self.order@.drop_last()
    }

    /// Slot `i` of the arena.
    pub closed spec fn slot(&self, i: int) -> Timer {
        self.timers@[i]
    }

    /// Expiry of slot `i`.
    pub open spec fn timeout_of(&self, i: usize) -> u32 {
        self.slot(i as int).timeout
    }

    /// Slot `i` apart from its link.
    pub open spec fn entry(&self, i: int) -> (u32, TimerFlag, bool, TimerKind) {
        entry_of(self.slot(i))
    }

    /// Whether the armed timers are in order of expiry.
    pub open spec fn is_sorted(&self) -> bool {
        sorted_by(self.pending(), |i: usize| self.timeout_of(i))
    }

    proof fn lemma_wf_facts(&self)
        requires
            self.wf(),
        ensures
            self.is_sorted(),
            forall|k: int| 0 <= k < MAX_TIMER ==> (#[trigger] self.slot(k).flag == TimerFlag::Counting
                <==> self.pending().contains(k as usize)),
            forall|p: int| 0 <= p < self.pending().len() ==> #[trigger] self.pending()[p] < MAX_TIMER,
            self.pending().no_duplicates(),
    {
        reveal(distinct_slots);
        reveal(sorted_ok);
        reveal(members_ok);
        let order = self.order@;
        let pend = self.pending();
        assert forall|k: int| 0 <= k < MAX_TIMER implies (#[trigger] self.slot(k).flag
            == TimerFlag::Counting <==> pend.contains(k as usize)) by {
            if order.contains(k as usize) {
                let p = choose|p: int| 0 <= p < order.len() && order[p] == k as usize;
                assert(p != order.len() - 1);
                assert(pend[p] == k as usize);
            }
            if pend.contains(k as usize) {
                let p = choose|p: int| 0 <= p < pend.len() && pend[p] == k as usize;
                assert(order[p] == k as usize);
            }
        }
        assert forall|p: int| 0 <= p < pend.len() implies #[trigger] pend[p] < MAX_TIMER by {
            assert(order[p] != order[order.len() - 1]);
        }
        assert forall|a: int, b: int| 0 <= a < b < pend.len() implies self.timeout_of(
            #[trigger] pend[a],
        ) <= self.timeout_of(#[trigger] pend[b]) by {
            assert(pend[a] == order[a] && pend[b] == order[b]);
        }
    }

    /// A manager with no armed timer, every slot free, at tick 0.
    pub fn new() -> (r: TimerManager)
        ensures
            r.wf(),
            r.ticks() == 0,
            r.pending() == Seq::<usize>::empty(),
            forall|i: int| 0 <= i < MAX_TIMER ==> #[trigger] r.entry(i) == free_entry(),
    {
        let mut timers: Vec<Timer> = Vec::new();
        let mut i: usize = 0;
        while i < MAX_TIMER
            invariant
                i <= MAX_TIMER,
                timers@.len() == i,
                forall|j: int|
                    0 <= j < i ==> #[trigger] entry_of(timers@[j]) == free_entry()
                        && timers@[j].next.is_none(),
            decreases MAX_TIMER - i,
        {
            timers.push(Timer::new());
            i = i + 1;
        }
        timers.push(
            Timer {
                timeout: TIMEOUT_MAX,
                flag: TimerFlag::Counting,
                from_app: false,
                kind: TimerKind::AppEvent { fifo: 0, data: 0 },
                next: None,
            },
        );
        let ghost order = seq![SENTINEL];
        let r = TimerManager {
            count: 0,
            next_tick: TIMEOUT_MAX,
            head: SENTINEL,
            timers,
            order: Ghost(order),
        };
        assert(r.pending() =~= Seq::<usize>::empty());
        reveal(distinct_slots);
        reveal(links_ok);
        reveal(sorted_ok);
        reveal(members_ok);
        assert forall|k: int| 0 <= k < MAX_TIMER implies (#[trigger] r.timers@[k].flag
            == TimerFlag::Counting <==> order.contains(k as usize)) by {
            assert(entry_of(r.timers@[k]) == free_entry());
            if order.contains(k as usize) {
                let p = choose|p: int| 0 <= p < order.len() && order[p] == k as usize;
                assert(p == 0);
            }
        }
        r
    }

    /// Ticks counted so far.
    pub fn count(&self) -> (r: u32)
        ensures
            r == self.ticks(),
    {
        self.count
    }

    /// A copy of slot `i`.
    pub fn timer(&self, i: usize) -> (r: Timer)
        requires
            self.wf(),
            i <= SENTINEL,
        ensures
            r == self.slot(i as int),
    {
        self.timers[i]
    }

    /// Changing slot `i` in a way that keeps its link, its expiry and
    /// whether it counts keeps the manager well formed.
    proof fn lemma_frame(old: &Self, new: &Self, i: int)
        requires
            old.wf(),
            0 <= i < MAX_TIMER,
            new.order@ == old.order@,
            new.head == old.head,
            new.next_tick == old.next_tick,
            new.timers@.len() == old.timers@.len(),
            forall|j: int| 0 <= j < new.timers@.len() && j != i ==> new.timers@[j] == old.timers@[j],
            new.timers@[i].next == old.timers@[i].next,
            new.timers@[i].timeout == old.timers@[i].timeout,
            (new.timers@[i].flag == TimerFlag::Counting) == (old.timers@[i].flag
                == TimerFlag::Counting),
        ensures
            new.wf(),
    {
        reveal(distinct_slots);
        reveal(links_ok);
        reveal(sorted_ok);
        reveal(members_ok);
        let order = old.order@;
        assert forall|p: int| 0 <= p < order.len() implies #[trigger] new.timers@[order[p] as int].next
            == old.timers@[order[p] as int].next && new.timers@[order[p] as int].timeout
            == old.timers@[order[p] as int].timeout by {
            if order[p] as int != i {
                assert(new.timers@[order[p] as int] == old.timers@[order[p] as int]);
            }
        }
        assert forall|k: int| 0 <= k < MAX_TIMER implies (#[trigger] new.timers@[k].flag
            == TimerFlag::Counting <==> order.contains(k as usize)) by {
            if k != i {
                assert(new.timers@[k] == old.timers@[k]);
            }
        }
        assert forall|a: int, b: int| 0 <= a < b < order.len() implies new.timers@[#[trigger] order[a] as int].timeout
            <= new.timers@[#[trigger] order[b] as int].timeout by {
            assert(new.timers@[order[a] as int].timeout == old.timers@[order[a] as int].timeout);
            assert(new.timers@[order[b] as int].timeout == old.timers@[order[b] as int].timeout);
        }
        assert(new.timers@[SENTINEL as int] == old.timers@[SENTINEL as int]);
        assert(new.timers@[new.head as int].timeout == old.timers@[old.head as int].timeout) by {
            assert(order[0] == old.head);
        }
    }

    /// Hands out the lowest free slot, marked used.
    pub fn allocate(&mut self) -> (r: Result<usize, KernelError>)
        requires
            old(self).wf(),
        ensures
            final(self).wf(),
            final(self).ticks() == old(self).ticks(),
            final(self).pending() == old(self).pending(),
            match r {
                Ok(i) => {
                    &&& i < MAX_TIMER
                    &&& old(self).slot(i as int).flag == TimerFlag::Available
                    &&& forall|j: int| 0 <= j < i ==> #[trigger] old(self).slot(j).flag != TimerFlag::Available
                    &&& final(self).entry(i as int) == (
                        old(self).entry(i as int).0,
                        TimerFlag::Used,
                        old(self).entry(i as int).2,
                        old(self).entry(i as int).3,
                    )
                    &&& forall|j: int| 0 <= j <= SENTINEL && j != i ==> #[trigger] final(self).entry(j)
                        == old(self).entry(j)
                },
                Err(e) => {
                    &&& e == KernelError::CannotAssignTimer
                    &&& forall|j: int| 0 <= j < MAX_TIMER ==> #[trigger] old(self).slot(j).flag != TimerFlag::Available
                    &&& *final(self) == *old(self)
                },
            },
    {
        let mut i: usize = 0;
        while i < MAX_TIMER
            invariant
                self.wf(),
                *self == *old(self),
                i <= MAX_TIMER,
                forall|j: int| 0 <= j < i ==> #[trigger] self.slot(j).flag != TimerFlag::Available,
            decreases MAX_TIMER - i,
        {
            if self.timers[i].flag == TimerFlag::Available {
                let mut t = self.timers[i];
                t.flag = TimerFlag::Used;
                self.timers.set(i, t);
                proof {
                    Self::lemma_frame(old(self), self, i as int);
                }
                return Ok(i);
            }
            i = i + 1;
        }
        Err(KernelError::CannotAssignTimer)
    }

    /// Makes slot `i` deliver `data` to the queue `fifo` when it expires.
    pub fn init_timer(&mut self, i: usize, fifo: usize, data: i32)
        requires
            old(self).wf(),
            i < MAX_TIMER,
        ensures
            final(self).wf(),
            final(self).ticks() == old(self).ticks(),
            final(self).pending() == old(self).pending(),
            final(self).entry(i as int) == (
                old(self).entry(i as int).0,
                old(self).entry(i as int).1,
                old(self).entry(i as int).2,
                TimerKind::AppEvent { fifo, data },
            ),
            forall|j: int| 0 <= j <= SENTINEL && j != i ==> #[trigger] final(self).entry(j) == old(self).entry(j),
    {
        let mut t = self.timers[i];
        t.kind = TimerKind::AppEvent { fifo, data };
        self.timers.set(i, t);
        proof {
            Self::lemma_frame(old(self), self, i as int);
        }
    }

    /// Makes slot `i` the timer that ends time slices.
    pub fn init_scheduling(&mut self, i: usize)
        requires
            old(self).wf(),
            i < MAX_TIMER,
        ensures
            final(self).wf(),
            final(self).ticks() == old(self).ticks(),
            final(self).pending() == old(self).pending(),
            final(self).entry(i as int) == (
                old(self).entry(i as int).0,
                old(self).entry(i as int).1,
                old(self).entry(i as int).2,
                TimerKind::Scheduling,
            ),
            forall|j: int| 0 <= j <= SENTINEL && j != i ==> #[trigger] final(self).entry(j) == old(self).entry(j),
    {
        let mut t = self.timers[i];
        t.kind = TimerKind::Scheduling;
        self.timers.set(i, t);
        proof {
            Self::lemma_frame(old(self), self, i as int);
        }
    }

    /// Marks slot `i` as owned, or not, by an application task.
    pub fn set_from_app(&mut self, i: usize, from_app: bool)
        requires
            old(self).wf(),
            i < MAX_TIMER,
        ensures
            final(self).wf(),
            final(self).ticks() == old(self).ticks(),
            final(self).pending() == old(self).pending(),
            final(self).entry(i as int) == (
                old(self).entry(i as int).0,
                old(self).entry(i as int).1,
                from_app,
                old(self).entry(i as int).3,
            ),
            forall|j: int| 0 <= j <= SENTINEL && j != i ==> #[trigger] final(self).entry(j) == old(self).entry(j),
    {
        let mut t = self.timers[i];
        t.from_app = from_app;
        self.timers.set(i, t);
        proof {
            Self::lemma_frame(old(self), self, i as int);
        }
    }

    /// Returns slot `i`, which is not armed, to the pool.
    pub fn free(&mut self, i: usize)
        requires
            old(self).wf(),
            i < MAX_TIMER,
            old(self).slot(i as int).flag != TimerFlag::Counting,
        ensures
            final(self).wf(),
            final(self).ticks() == old(self).ticks(),
            final(self).pending() == old(self).pending(),
            final(self).entry(i as int) == (
                old(self).entry(i as int).0,
                TimerFlag::Available,
                old(self).entry(i as int).2,
                old(self).entry(i as int).3,
            ),
            forall|j: int| 0 <= j <= SENTINEL && j != i ==> #[trigger] final(self).entry(j) == old(self).entry(j),
    {
        let mut t = self.timers[i];
        t.flag = TimerFlag::Available;
        self.timers.set(i, t);
        proof {
            Self::lemma_frame(old(self), self, i as int);
        }
    }

    /// Linking the non-counting slot `i` in at position `k` of the list, at
    /// an expiry between those of its neighbours, keeps the manager well
    /// formed.
    proof fn lemma_insert(old: &Self, new: &Self, i: usize, k: int)
        requires
            old.wf(),
            i < MAX_TIMER,
            old.timers@[i as int].flag != TimerFlag::Counting,
            0 <= k < old.order@.len(),
            new.order@ == old.order@.insert(k, i),
            new.head == new.order@[0],
            new.next_tick == new.timers@[new.head as int].timeout,
            insert_frame(old.order@, old.timers@, new.timers@, i, k),
        ensures
            new.wf(),
    {
        let o = old.order@;
        let n = new.order@;
        let ot = old.timers@;
        let nt = new.timers@;
        old.lemma_not_listed(i);
        old.lemma_list_facts();
        lemma_insert_distinct(o, n, i, k);
        lemma_insert_links(o, ot, n, nt, i, k);
        lemma_insert_sorted(o, ot, n, nt, i, k);
        lemma_insert_members(o, ot, n, nt, i, k);
        reveal(distinct_slots);
        o.insert_ensures(k, i);
        assert(o[o.len() - 1] == SENTINEL);
        assert(n[n.len() - 1] == SENTINEL);
        if k > 0 {
            assert(o[k - 1] != SENTINEL);
        }
        assert(nt[SENTINEL as int] == ot[SENTINEL as int]);
    }

    /// What the list's predicates say, for code that walks it.
    proof fn lemma_list_facts(&self)
        requires
            self.wf(),
        ensures
            forall|p: int| 0 <= p < self.order@.len() ==> #[trigger] self.order@[p] <= SENTINEL,
            forall|p: int|
                0 <= p < self.order@.len() - 1 ==> self.timers@[#[trigger] self.order@[p] as int].next
                    == Some(self.order@[p + 1]) && self.timers@[self.order@[p] as int].timeout
                    < TIMEOUT_MAX,
            forall|a: int, b: int|
                0 <= a < b < self.order@.len() ==> self.timers@[#[trigger] self.order@[a] as int].timeout
                    <= self.timers@[#[trigger] self.order@[b] as int].timeout,
            self.order@.no_duplicates(),
    {
        reveal(distinct_slots);
        reveal(links_ok);
        reveal(sorted_ok);
    }

    /// A slot of the pool that does not count is not on the list.
    proof fn lemma_not_listed(&self, i: usize)
        requires
            self.wf(),
            i < MAX_TIMER,
            self.timers@[i as int].flag != TimerFlag::Counting,
        ensures
            !self.order@.contains(i),
    {
        reveal(members_ok);
    }

    /// Position in the list after which a timer expiring at `t` goes: the
    /// last slot that expires no later.
    fn find_pred(&self, t: u32) -> (r: (usize, Ghost<int>))
        requires
            self.wf(),
            self.timers@[self.head as int].timeout <= t,
            t < TIMEOUT_MAX,
        ensures
            0 <= r.1@ < self.order@.len() - 1,
            r.0 == self.order@[r.1@],
            forall|p: int|
                0 <= p <= r.1@ ==> self.timers@[#[trigger] self.order@[p] as int].timeout <= t,
            self.timers@[self.order@[r.1@ + 1] as int].timeout > t,
    {
        proof {
            self.lemma_list_facts();
        }
        let ghost o = self.order@;
        let mut cur = self.head;
        let mut nxt = self.timers[cur].next.unwrap();
        let ghost mut pos: int = 0;
        while self.timers[nxt].timeout <= t
            invariant
                self.wf(),
                t < TIMEOUT_MAX,
                o == self.order@,
                0 <= pos < o.len() - 1,
                cur == o[pos],
                nxt == o[pos + 1],
                forall|p: int| 0 <= p < o.len() ==> #[trigger] o[p] <= SENTINEL,
                forall|p: int|
                    0 <= p < o.len() - 1 ==> self.timers@[#[trigger] o[p] as int].next == Some(
                        o[p + 1],
                    ) && self.timers@[o[p] as int].timeout < TIMEOUT_MAX,
                forall|p: int| 0 <= p <= pos ==> self.timers@[#[trigger] o[p] as int].timeout <= t,
            decreases o.len() - pos,
        {
            cur = nxt;
            proof {
                pos = pos + 1;
                assert(o[o.len() - 1] == SENTINEL);
                assert(self.timers@[SENTINEL as int].timeout == TIMEOUT_MAX);
                assert(self.timers@[cur as int].timeout <= t);
                assert(pos != o.len() - 1);
            }
            nxt = self.timers[cur].next.unwrap();
        }
        (cur, Ghost(pos))
    }

    /// What `set_time` promises, from the list before and after.
    proof fn lemma_set_time_post(old: &Self, new: &Self, i: usize, k: int, t: u32)
        requires
            old.wf(),
            new.wf(),
            i < MAX_TIMER,
            !old.order@.contains(i),
            0 <= k < old.order@.len(),
            new.order@ == old.order@.insert(k, i),
            forall|p: int| 0 <= p < k ==> old.timers@[#[trigger] old.order@[p] as int].timeout <= t,
            old.timers@[old.order@[k] as int].timeout > t,
            insert_frame(old.order@, old.timers@, new.timers@, i, k),
        ensures
            new.pending() == old.pending().insert(k, i),
            forall|p: int| 0 <= p < k ==> old.timeout_of(#[trigger] old.pending()[p]) <= t,
            forall|p: int|
                k <= p < old.pending().len() ==> old.timeout_of(#[trigger] old.pending()[p]) > t,
            forall|j: int|
                0 <= j <= SENTINEL && j != i ==> #[trigger] new.entry(j) == old.entry(j),
    {
        let o = old.order@;
        old.lemma_list_facts();
        assert(new.pending() =~= old.pending().insert(k, i));
        assert forall|p: int| k <= p < old.pending().len() implies old.timeout_of(
            #[trigger] old.pending()[p],
        ) > t by {
            assert(old.pending()[p] == o[p]);
            if p > k {
                assert(old.timers@[o[k] as int].timeout <= old.timers@[o[p] as int].timeout);
            }
        }
        assert forall|p: int| 0 <= p < k implies old.timeout_of(#[trigger] old.pending()[p]) <= t by {
            assert(old.pending()[p] == o[p]);
        }
        assert forall|j: int| 0 <= j <= SENTINEL && j != i implies #[trigger] new.entry(j)
            == old.entry(j) by {
            if k > 0 && j == o[k - 1] {
            } else if k == 0 {
                assert(new.timers@ == old.timers@.update(i as int, new.timers@[i as int]));
            } else {
                let c = o[k - 1] as int;
                assert(new.timers@ == old.timers@.update(i as int, new.timers@[i as int]).update(
                    c,
                    new.timers@[c],
                ));
            }
        }
    }

    /// Arms slot `i` to expire `delta` ticks from now. It is placed after
    /// every armed timer that expires no later, and before the others.
    pub fn set_time(&mut self, i: usize, delta: u32)
        requires
            old(self).wf(),
            i < MAX_TIMER,
            old(self).slot(i as int).flag == TimerFlag::Used,
            old(self).ticks() + delta < TIMEOUT_MAX,
        ensures
            final(self).wf(),
            final(self).ticks() == old(self).ticks(),
            final(self).entry(i as int) == (
                (old(self).ticks() + delta) as u32,
                TimerFlag::Counting,
                old(self).entry(i as int).2,
                old(self).entry(i as int).3,
            ),
            forall|j: int| 0 <= j <= SENTINEL && j != i ==> #[trigger] final(self).entry(j) == old(self).entry(j),
            exists|k: int|
                {
                    &&& 0 <= k <= old(self).pending().len()
                    &&& final(self).pending() == old(self).pending().insert(k, i)
                    &&& forall|p: int|
                        0 <= p < k ==> old(self).timeout_of(#[trigger] old(self).pending()[p])
                            <= old(self).ticks() + delta
                    &&& forall|p: int|
                        k <= p < old(self).pending().len() ==> old(self).timeout_of(
                            #[trigger] old(self).pending()[p],
                        ) > old(self).ticks() + delta
                },
    {
        let t = self.count + delta;
        let mut tm = self.timers[i];
        tm.timeout = t;
        tm.flag = TimerFlag::Counting;
        let ghost o = self.order@;
        let ghost k: int;
        proof {
            self.lemma_list_facts();
            self.lemma_not_listed(i);
        }
        if t < self.timers[self.head].timeout {
            tm.next = Some(self.head);
            self.timers.set(i, tm);
            self.head = i;
            self.next_tick = t;
            proof {
                k = 0;
                self.order@ = o.insert(0, i);
                assert(self.timers@ == old(self).timers@.update(i as int, tm));
                Self::lemma_insert(old(self), self, i, 0);
            }
        } else {
            let (cur, pos) = self.find_pred(t);
            let nxt = self.timers[cur].next.unwrap();
            tm.next = Some(nxt);
            self.timers.set(i, tm);
            let mut c = self.timers[cur];
            c.next = Some(i);
            self.timers.set(cur, c);
            proof {
                k = pos@ + 1;
                self.order@ = o.insert(k, i);
                assert(self.order@[0] == o[0]);
                assert(self.timers@ == old(self).timers@.update(i as int, tm).update(cur as int, c));
                Self::lemma_insert(old(self), self, i, k);
            }
        }
        proof {
            Self::lemma_set_time_post(old(self), self, i, k, t);
        }
    }

    /// Unlinking the slot at position `k` of the list keeps the manager well
    /// formed.
    proof fn lemma_remove(old: &Self, new: &Self, k: int)
        requires
            old.wf(),
            0 <= k < old.order@.len() - 1,
            new.order@ == old.order@.remove(k),
            new.head == new.order@[0],
            new.next_tick == new.timers@[new.head as int].timeout,
            remove_frame(old.order@, old.timers@, new.timers@, k),
        ensures
            new.wf(),
    {
        let o = old.order@;
        let n = new.order@;
        let ot = old.timers@;
        let nt = new.timers@;
        old.lemma_list_facts();
        assert(o[o.len() - 1] == SENTINEL);
        lemma_remove_keeps(o, ot, nt, k);
        lemma_remove_distinct(o, n, k);
        lemma_remove_links(o, ot, n, nt, k);
        lemma_remove_sorted(o, ot, n, nt, k);
        lemma_remove_members(o, ot, n, nt, k);
        o.remove_ensures(k);
        assert(n[n.len() - 1] == SENTINEL);
        assert(nt[SENTINEL as int] == ot[SENTINEL as int]);
    }

    /// Position in the list of the counting slot `i`, found by walking it.
    fn find_listed(&self, i: usize) -> (r: (usize, Ghost<int>))
        requires
            self.wf(),
            i < MAX_TIMER,
            self.timers@[i as int].flag == TimerFlag::Counting,
            self.head != i,
        ensures
            0 < r.1@ < self.order@.len() - 1,
            self.order@[r.1@] == i,
            r.0 == self.order@[r.1@ - 1],
    {
        proof {
            self.lemma_list_facts();
            reveal(members_ok);
        }
        let ghost o = self.order@;
        let ghost target = choose|p: int| 0 <= p < o.len() && o[p] == i;
        let mut prev = self.head;
        let ghost mut pos: int = 0;
        proof {
            assert(target != 0);
            assert(o[o.len() - 1] == SENTINEL);
        }
        while self.timers[prev].next.unwrap() != i
            invariant
                self.wf(),
                o == self.order@,
                0 <= pos < target,
                0 < target < o.len() - 1,
                o[target] == i,
                prev == o[pos],
                o.no_duplicates(),
                forall|p: int| 0 <= p < o.len() ==> #[trigger] o[p] <= SENTINEL,
                forall|p: int|
                    0 <= p < o.len() - 1 ==> self.timers@[#[trigger] o[p] as int].next == Some(
                        o[p + 1],
                    ),
            decreases target - pos,
        {
            prev = self.timers[prev].next.unwrap();
            proof {
                pos = pos + 1;
                if pos == target {
                    assert(o[pos] == i);
                }
            }
        }
        proof {
            assert(o[pos + 1] == i);
            assert(pos + 1 == target);
        }
        (prev, Ghost(pos + 1))
    }

    /// Disarms slot `i` if it counts, wherever it stands in the list, and
    /// says whether it did. A slot that does not count is left alone.
    pub fn cancel(&mut self, i: usize) -> (r: bool)
        requires
            old(self).wf(),
            i < MAX_TIMER,
        ensures
            final(self).wf(),
            r == (old(self).slot(i as int).flag == TimerFlag::Counting),
            r ==> {
                &&& final(self).ticks() == old(self).ticks()
                &&& exists|k: int|
                    0 <= k < old(self).pending().len() && old(self).pending()[k] == i
                        && final(self).pending() == old(self).pending().remove(k)
                &&& !final(self).pending().contains(i)
                &&& final(self).entry(i as int) == (
                    old(self).entry(i as int).0,
                    TimerFlag::Used,
                    old(self).entry(i as int).2,
                    old(self).entry(i as int).3,
                )
                &&& forall|j: int|
                    0 <= j <= SENTINEL && j != i ==> #[trigger] final(self).entry(j) == old(
                        self,
                    ).entry(j)
            },
            !r ==> *final(self) == *old(self),
    {
        if self.timers[i].flag != TimerFlag::Counting {
            return false;
        }
        let ghost o = self.order@;
        let ghost k: int;
        proof {
            self.lemma_list_facts();
            reveal(members_ok);
            assert(o[o.len() - 1] == SENTINEL);
        }
        let mut tm = self.timers[i];
        let after = tm.next.unwrap();
        tm.flag = TimerFlag::Used;
        tm.next = None;
        if self.head == i {
            self.timers.set(i, tm);
            self.head = after;
            self.next_tick = self.timers[after].timeout;
            proof {
                k = 0;
                self.order@ = o.remove(0);
                assert(self.timers@ == old(self).timers@.update(i as int, tm));
                Self::lemma_remove(old(self), self, 0);
            }
        } else {
            let (prev, pos) = self.find_listed(i);
            self.timers.set(i, tm);
            let mut c = self.timers[prev];
            c.next = Some(after);
            self.timers.set(prev, c);
            proof {
                k = pos@;
                self.order@ = o.remove(k);
                assert(self.order@[0] == o[0]);
                assert(self.timers@ == old(self).timers@.update(i as int, tm).update(prev as int, c));
                Self::lemma_remove(old(self), self, k);
            }
        }
        proof {
            let n = self.order@;
            assert(self.pending() =~= old(self).pending().remove(k));
            assert(old(self).pending()[k] == i);
            assert(!self.order@.contains(i)) by {
                reveal(members_ok);
            }
            if self.pending().contains(i) {
                let p = choose|p: int| 0 <= p < self.pending().len() && self.pending()[p] == i;
                assert(n[p] == i);
            }
            assert forall|j: int| 0 <= j <= SENTINEL && j != i implies #[trigger] self.entry(j)
                == old(self).entry(j) by {
                if k > 0 && j == o[k - 1] {
                } else if k == 0 {
                    assert(self.timers@[j] == old(self).timers@[j]);
                } else {
                    assert(self.timers@[j] == old(self).timers@[j]);
                }
            }
        }
        true
    }

    /// Counts one tick. Every armed timer that expires at the new count or
    /// earlier leaves the list, in list order, marked used; what each one
    /// was set to do is returned in that order.
    pub fn tick(&mut self) -> (r: Vec<TimerKind>)
        requires
            old(self).wf(),
            old(self).ticks() < TIMEOUT_MAX - 1,
        ensures
            final(self).wf(),
            final(self).ticks() == old(self).ticks() + 1,
            r@.len() <= old(self).pending().len(),
            final(self).pending() == old(self).pending().skip(r@.len() as int),
            forall|p: int|
                0 <= p < r@.len() ==> {
                    let j = #[trigger] old(self).pending()[p];
                    &&& old(self).timeout_of(j) <= final(self).ticks()
                    &&& r@[p] == old(self).slot(j as int).kind
                    &&& final(self).entry(j as int) == (
                        old(self).entry(j as int).0,
                        TimerFlag::Used,
                        old(self).entry(j as int).2,
                        old(self).entry(j as int).3,
                    )
                },
            forall|p: int|
                r@.len() <= p < old(self).pending().len() ==> old(self).timeout_of(
                    #[trigger] old(self).pending()[p],
                ) > final(self).ticks(),
            forall|j: int|
                0 <= j <= SENTINEL && !old(self).pending().take(r@.len() as int).contains(
                    j as usize,
                ) ==> #[trigger] final(self).entry(j) == old(self).entry(j),
            forall|j: usize|
                old(self).pending().contains(j) ==> (#[trigger] old(self).pending().take(
                    r@.len() as int,
                ).contains(j) <==> old(self).timeout_of(j) <= final(self).ticks()),
    {
        proof {
            self.lemma_list_facts();
        }
        let ghost o = self.order@;
        let ghost ot = self.timers@;
        self.count = self.count + 1;
        let now = self.count;
        let mut fired: Vec<TimerKind> = Vec::new();
        let mut cur = self.head;
        let ghost mut pos: int = 0;
        proof {
            assert(ot =~= mark_used(ot, o.take(0)));
            assert(o[o.len() - 1] == SENTINEL);
        }
        if now < self.next_tick {
            proof {
                assert(self.timers@ == ot);
            }
        } else {
            while self.timers[cur].timeout <= now
                invariant
                    o == self.order@,
                    self.head == o[0],
                    self.count == now,
                    now < TIMEOUT_MAX,
                    ot.len() == MAX_TIMER + 1,
                    o[o.len() - 1] == SENTINEL,
                    ot[SENTINEL as int].timeout == TIMEOUT_MAX,
                    0 <= pos < o.len(),
                    cur == o[pos],
                    o.no_duplicates(),
                    forall|p: int| 0 <= p < o.len() ==> #[trigger] o[p] <= SENTINEL,
                    forall|p: int|
                        0 <= p < o.len() - 1 ==> ot[#[trigger] o[p] as int].next == Some(o[p + 1]),
                    forall|p: int| 0 <= p < pos ==> ot[#[trigger] o[p] as int].timeout <= now,
                    self.timers@ == mark_used(ot, o.take(pos)),
                    fired@.len() == pos,
                    forall|p: int| 0 <= p < pos ==> fired@[p] == ot[#[trigger] o[p] as int].kind,
                decreases o.len() - pos,
            {
                proof {
                    if o.take(pos).contains(cur) {
                        let p = choose|p: int| 0 <= p < pos && #[trigger] o.take(pos)[p] == cur;
                        assert(o[p] == o[pos]);
                    }
                    assert(self.timers@[cur as int] == ot[cur as int]);
                    assert(pos != o.len() - 1);
                }
                let mut tm = self.timers[cur];
                tm.flag = TimerFlag::Used;
                self.timers.set(cur, tm);
                fired.push(tm.kind);
                proof {
                    lemma_mark_one_more(ot, o, pos, tm);
                }
                cur = tm.next.unwrap();
                proof {
                    pos = pos + 1;
                }
            }
        }
        proof {
            if o.take(pos).contains(cur) {
                let p = choose|p: int| 0 <= p < pos && #[trigger] o.take(pos)[p] == cur;
                assert(o[p] == o[pos]);
            }
            assert(self.timers@[cur as int] == ot[cur as int]);
            reveal(sorted_ok);
            assert(o[0] == old(self).head);
            if pos == 0 {
                assert(ot[o[0] as int].timeout > now);
            }
            assert(ot[o[pos] as int].timeout > now);
        }
        self.head = cur;
        self.next_tick = self.timers[cur].timeout;
        proof {
            self.order@ = o.skip(pos);
            lemma_skip(o, ot, pos);
            assert(self.order@[0] == cur);
            assert(self.order@.last() == SENTINEL);
            assert(self.timers@[SENTINEL as int] == ot[SENTINEL as int]);
            let op = old(self).pending();
            assert(self.pending() =~= op.skip(pos));
            assert forall|p: int| 0 <= p < pos implies {
                let j = #[trigger] op[p];
                &&& old(self).timeout_of(j) <= now
                &&& fired@[p] == old(self).slot(j as int).kind
                &&& self.entry(j as int) == (
                    old(self).entry(j as int).0,
                    TimerFlag::Used,
                    old(self).entry(j as int).2,
                    old(self).entry(j as int).3,
                )
            } by {
                assert(op[p] == o[p]);
                assert(o.take(pos)[p] == o[p]);
            }
            assert forall|p: int| pos <= p < op.len() implies old(self).timeout_of(#[trigger] op[p])
                > now by {
                assert(op[p] == o[p]);
                if p > pos {
                    assert(ot[o[pos] as int].timeout <= ot[o[p] as int].timeout);
                }
            }
            assert forall|j: int| 0 <= j <= SENTINEL && !op.take(pos).contains(j as usize) implies #[trigger] self.entry(
                j,
            ) == old(self).entry(j) by {
                if o.take(pos).contains(j as usize) {
                    let p = choose|p: int| 0 <= p < pos && #[trigger] o.take(pos)[p] == j as usize;
                    assert(op.take(pos)[p] == j as usize);
                }
            }
            assert forall|j: usize| op.contains(j) implies (#[trigger] op.take(pos).contains(j)
                <==> old(self).timeout_of(j) <= now) by {
                let q = choose|q: int| 0 <= q < op.len() && op[q] == j;
                if op.take(pos).contains(j) {
                    let p = choose|p: int| 0 <= p < pos && #[trigger] op.take(pos)[p] == j;
                    assert(op[p] == j);
                } else if q < pos {
                    assert(op.take(pos)[q] == j);
                }
            }
        }
        fired
    }

    /// Whether slot `j` is one that `cancel_all(fifo)` takes back.
    pub open spec fn owned_by_app(&self, j: int, fifo: usize) -> bool {
        let t = self.slot(j);
        &&& t.flag != TimerFlag::Available
        &&& t.from_app
        &&& t.kind == (TimerKind::AppEvent { fifo, data: t.kind->data })
    }

    /// Disarms and frees every slot handed out to an application that
    /// delivers to the queue `fifo`; the other slots are left as they were.
    pub fn cancel_all(&mut self, fifo: usize)
        requires
            old(self).wf(),
        ensures
            final(self).wf(),
            final(self).ticks() == old(self).ticks(),
            forall|j: int|
                0 <= j < MAX_TIMER && old(self).owned_by_app(j, fifo) ==> #[trigger] final(self).entry(j)
                    == (
                    old(self).entry(j).0,
                    TimerFlag::Available,
                    old(self).entry(j).2,
                    old(self).entry(j).3,
                ),
            forall|j: int|
                0 <= j <= SENTINEL && !(j < MAX_TIMER && old(self).owned_by_app(j, fifo))
                    ==> #[trigger] final(self).entry(j) == old(self).entry(j),
            forall|j: usize|
                #[trigger] final(self).pending().contains(j) <==> old(self).pending().contains(j)
                    && !(j < MAX_TIMER && old(self).owned_by_app(j as int, fifo)),
    {
        let mut i: usize = 0;
        while i < MAX_TIMER
            invariant
                self.wf(),
                self.ticks() == old(self).ticks(),
                i <= MAX_TIMER,
                forall|j: int|
                    0 <= j < i && old(self).owned_by_app(j, fifo) ==> #[trigger] self.entry(j) == (
                        old(self).entry(j).0,
                        TimerFlag::Available,
                        old(self).entry(j).2,
                        old(self).entry(j).3,
                    ),
                forall|j: int|
                    0 <= j <= SENTINEL && !(j < i && old(self).owned_by_app(j, fifo))
                        ==> #[trigger] self.entry(j) == old(self).entry(j),
            decreases MAX_TIMER - i,
        {
            let t = self.timers[i];
            let hit = match t.kind {
                TimerKind::AppEvent { fifo: f, data: _ } => f == fifo,
                TimerKind::Scheduling => false,
            };
            proof {
                assert(self.entry(i as int) == old(self).entry(i as int));
            }
            if t.flag != TimerFlag::Available && t.from_app && hit {
                self.cancel(i);
                self.free(i);
            }
            i = i + 1;
        }
        proof {
            self.lemma_wf_facts();
            old(self).lemma_wf_facts();
            assert forall|j: usize| #[trigger] self.pending().contains(j) <==> old(
                self,
            ).pending().contains(j) && !(j < MAX_TIMER && old(self).owned_by_app(j as int, fifo)) by {
                if self.pending().contains(j) {
                    let p = choose|p: int| 0 <= p < self.pending().len() && self.pending()[p] == j;
                    assert(self.slot(j as int).flag == TimerFlag::Counting);
                    assert(self.entry(j as int) == old(self).entry(j as int));
                }
                if old(self).pending().contains(j) {
                    let p = choose|p: int| 0 <= p < old(self).pending().len() && old(self).pending()[p] == j;
                    assert(old(self).slot(j as int).flag == TimerFlag::Counting);
                    if !(j < MAX_TIMER && old(self).owned_by_app(j as int, fifo)) {
                        assert(self.entry(j as int) == old(self).entry(j as int));
                    }
                }
            }
        }
    }

    /// At every point between calls, the armed timers are in order of
    /// expiry.
    pub proof fn lemma_armed_sorted(&self)
        requires
            self.wf(),
        ensures
            self.is_sorted(),
    {
        self.lemma_wf_facts();
    }

    /// A slot that is not on the list of armed timers does not count: a
    /// `cancel` of it returns false, and no `tick` delivers it, since a tick
    /// delivers only slots taken from the list.
    pub proof fn lemma_unlisted_never_fires(&self, i: usize)
        requires
            self.wf(),
            i < MAX_TIMER,
            !self.pending().contains(i),
        ensures
            self.slot(i as int).flag != TimerFlag::Counting,
    {
        self.lemma_wf_facts();
    }
}

} // verus!
