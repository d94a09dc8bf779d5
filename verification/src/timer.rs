//! The timer queue: pending timed wake-ups, kept sorted by deadline with
//! ties in scheduling order, so that `advance` hands wake-ups out in
//! deadline order and wake-ups due at the same instant keep the order in
//! which they were scheduled.

use vstd::prelude::*;

verus! {

/// One pending wake-up: re-enqueue `task` once `deadline` has passed.
#[derive(Clone, Copy, PartialEq, Eq, Structural, Debug)]
pub struct TimerEntry {
    pub deadline: u64,
    pub task: usize,
}

/// Entries are sorted by deadline, non-decreasing.
pub open spec fn sorted(es: Seq<TimerEntry>) -> bool {
    forall|i: int, j: int| 0 <= i < j < es.len() ==> es[i].deadline <= es[j].deadline
}

/// Where a new entry with deadline `d` goes: after every entry whose
/// deadline is at most `d`, so that equal deadlines keep scheduling order.
pub open spec fn insert_pos(es: Seq<TimerEntry>, d: u64) -> int
    decreases es.len(),
{
    if es.len() == 0 {
        0
    } else if es.last().deadline <= d {
        es.len() as int
    } else {
        insert_pos(es.drop_last(), d)
    }
}

/// In a sorted queue, `insert_pos` splits the entries into a prefix with
/// deadlines at most `d` and a suffix with deadlines above `d`.
pub proof fn lemma_insert_pos_bounds(es: Seq<TimerEntry>, d: u64)
    requires
        sorted(es),
    ensures
        0 <= insert_pos(es, d) <= es.len(),
        forall|k: int| 0 <= k < insert_pos(es, d) ==> es[k].deadline <= d,
        forall|k: int| insert_pos(es, d) <= k < es.len() ==> es[k].deadline > d,
    decreases es.len(),
{
    if es.len() == 0 {
    } else if es.last().deadline <= d {
        assert forall|k: int| 0 <= k < insert_pos(es, d) implies es[k].deadline <= d by {
            if k < es.len() - 1 {
                assert(es[k].deadline <= es[es.len() - 1].deadline);
            }
        }
    } else {
        assert(sorted(es.drop_last())) by {
            assert forall|i: int, j: int|
                0 <= i < j < es.drop_last().len() implies es.drop_last()[i].deadline
                <= es.drop_last()[j].deadline by {
                assert(es[i].deadline <= es[j].deadline);
            }
        }
        lemma_insert_pos_bounds(es.drop_last(), d);
        assert forall|k: int| 0 <= k < insert_pos(es, d) implies es[k].deadline <= d by {
            assert(es.drop_last()[k].deadline <= d);
        }
        assert forall|k: int| insert_pos(es, d) <= k < es.len() implies es[k].deadline > d by {
            if k < es.len() - 1 {
                assert(es.drop_last()[k].deadline > d);
            }
        }
    }
}

/// Inserting at `insert_pos` keeps the queue sorted.
pub proof fn lemma_insert_sorted(es: Seq<TimerEntry>, e: TimerEntry)
    requires
        sorted(es),
    ensures
        sorted(es.insert(insert_pos(es, e.deadline), e)),
{
    let p = insert_pos(es, e.deadline);
    lemma_insert_pos_bounds(es, e.deadline);
    let es2 = es.insert(p, e);
    assert forall|i: int, j: int| 0 <= i < j < es2.len() implies es2[i].deadline
        <= es2[j].deadline by {
        if i < p {
            assert(es2[i] == es[i]);
        } else if i == p {
            assert(es2[i] == e);
        } else {
            assert(es2[i] == es[i - 1]);
        }
        if j < p {
            assert(es2[j] == es[j]);
        } else if j == p {
            assert(es2[j] == e);
        } else {
            assert(es2[j] == es[j - 1]);
        }
    }
}

/// Wake-ups that share a deadline come back in the order they were
/// scheduled: scheduling `t1` and then `t2` for the same deadline `d` puts
/// `t2`'s entry directly after `t1`'s, so a later `advance` that covers `d`
/// returns `t1` before `t2` in the same batch.
pub proof fn lemma_equal_deadline_fifo(es: Seq<TimerEntry>, d: u64, t1: usize, t2: usize)
    requires
        sorted(es),
    ensures
        ({
            let p1 = insert_pos(es, d);
            let es1 = es.insert(p1, TimerEntry { deadline: d, task: t1 });
            let p2 = insert_pos(es1, d);
            let es2 = es1.insert(p2, TimerEntry { deadline: d, task: t2 });
            &&& p2 == p1 + 1
            &&& es2[p1] == TimerEntry { deadline: d, task: t1 }
            &&& es2[p1 + 1] == TimerEntry { deadline: d, task: t2 }
        }),
{
    let e1 = TimerEntry { deadline: d, task: t1 };
    let p1 = insert_pos(es, d);
    lemma_insert_pos_bounds(es, d);
    let es1 = es.insert(p1, e1);
    lemma_insert_sorted(es, e1);
    let p2 = insert_pos(es1, d);
    lemma_insert_pos_bounds(es1, d);
    assert(es1[p1] == e1);
    assert(p2 > p1);
    if p2 > p1 + 1 {
        assert(es1[p1 + 1] == es[p1]);
        assert(es[p1].deadline > d);
        assert(es1[p1 + 1].deadline <= d);
        assert(false);
    }
    let e2 = TimerEntry { deadline: d, task: t2 };
    let es2 = es1.insert(p2, e2);
    assert(es2[p1] == es1[p1]);
    assert(es2[p1 + 1] == e2);
}

/// Inserting at `insert_pos` keeps every old entry present.
pub proof fn lemma_insert_keeps_entries(es: Seq<TimerEntry>, e: TimerEntry)
    requires
        sorted(es),
    ensures
        ({
            let es1 = es.insert(insert_pos(es, e.deadline), e);
            &&& 0 <= insert_pos(es, e.deadline) <= es.len()
            &&& es1[insert_pos(es, e.deadline)] == e
            &&& forall|k: int|
                0 <= k < es.len() ==> exists|k2: int|
                    0 <= k2 < es1.len() && #[trigger] es1[k2] == #[trigger] es[k]
        }),
{
    lemma_insert_pos_bounds(es, e.deadline);
    let p = insert_pos(es, e.deadline);
    let es1 = es.insert(p, e);
    assert(es1[p] == e);
    assert forall|k: int|
        0 <= k < es.len() implies exists|k2: int|
        0 <= k2 < es1.len() && #[trigger] es1[k2] == #[trigger] es[k] by {
        if k < p {
            assert(es1[k] == es[k]);
        } else {
            assert(es1[k + 1] == es[k]);
        }
    }
}

/// The queue of pending timed wake-ups.
pub struct TimerQueue {
    pub entries: Vec<TimerEntry>,
}

impl TimerQueue {
    /// The entries are sorted by deadline.
    pub open spec fn wf(self) -> bool {
        sorted(self.entries@)
    }

    pub fn new() -> (r: TimerQueue)
        ensures
            r.wf(),
            r.entries@.len() == 0,
    {
        TimerQueue { entries: Vec::new() }
    }

    pub fn len(&self) -> (r: usize)
        ensures
            r == self.entries@.len(),
    {
        self.entries.len()
    }

    /// The earliest pending deadline, if any: with the sort order it is the
    /// first entry's.
    pub fn first_deadline(&self) -> (r: Option<u64>)
        ensures
            self.entries@.len() == 0 ==> r is None,
            self.entries@.len() > 0 ==> r == Some(self.entries@[0].deadline),
    {
        if self.entries.len() == 0 {
            None
        } else {
            Some(self.entries[0].deadline)
        }
    }

    /// Records a wake request for `task` at `deadline`.  The entry goes
    /// after every entry with a deadline at most `deadline`, so entries with
    /// equal deadlines stay in the order they were scheduled.
    pub fn schedule(&mut self, task: usize, deadline: u64)
        requires
            old(self).wf(),
        ensures
            final(self).wf(),
            final(self).entries@ == old(self).entries@.insert(
                insert_pos(old(self).entries@, deadline),
                TimerEntry { deadline, task },
            ),
            final(self).entries@.len() == old(self).entries@.len() + 1,
            forall|k: int|
                0 <= k < final(self).entries@.len() ==> final(self).entries@[k] == (TimerEntry {
                    deadline,
                    task,
                }) || old(self).entries@.contains(final(self).entries@[k]),
    {
        let ghost es = self.entries@;
        let mut j: usize = self.entries.len();
        proof {
            assert(es.take(j as int) =~= es);
        }
        while j > 0 && self.entries[j - 1].deadline > deadline
            invariant
                j <= self.entries@.len(),
                self.entries@ == es,
                insert_pos(es, deadline) == insert_pos(es.take(j as int), deadline),
            decreases j,
        {
            proof {
                assert(es.take(j as int).drop_last() =~= es.take(j as int - 1));
            }
            j = j - 1;
        }
        proof {
            if j > 0 {
                assert(es.take(j as int).last() == es[j as int - 1]);
            }
            assert(insert_pos(es, deadline) == j as int);
            lemma_insert_sorted(es, TimerEntry { deadline, task });
        }
        self.entries.insert(j, TimerEntry { deadline, task });
        proof {
            assert forall|k: int|
                0 <= k < self.entries@.len() implies self.entries@[k] == (TimerEntry {
                deadline,
                task,
            }) || es.contains(self.entries@[k]) by {
                if k < j {
                    assert(self.entries@[k] == es[k]);
                } else if k > j {
                    assert(self.entries@[k] == es[k - 1]);
                }
            }
        }
    }

    /// Removes and returns, in queue order, the task of every entry whose
    /// deadline is at or before `now`.  With the sort order that is in
    /// deadline order, and entries due at the same instant keep the order in
    /// which they were scheduled.
    pub fn advance(&mut self, now: u64) -> (due: Vec<usize>)
        requires
            old(self).wf(),
        ensures
            final(self).wf(),
            due@.len() <= old(self).entries@.len(),
            forall|k: int|
                0 <= k < due@.len() ==> due@[k] == old(self).entries@[k].task && old(
                    self,
                ).entries@[k].deadline <= now,
            final(self).entries@ == old(self).entries@.skip(due@.len() as int),
            forall|k: int|
                due@.len() <= k < old(self).entries@.len() ==> old(self).entries@[k].deadline
                    > now,
    {
        let ghost es = self.entries@;
        let len = self.entries.len();
        let mut cut: usize = 0;
        while cut < len && self.entries[cut].deadline <= now
            invariant
                cut <= len,
                len == es.len(),
                self.entries@ == es,
                forall|k: int| 0 <= k < cut ==> es[k].deadline <= now,
            decreases len - cut,
        {
            cut = cut + 1;
        }
        proof {
            assert forall|k: int| cut <= k < es.len() implies es[k].deadline > now by {
                if k > cut {
                    assert(es[cut as int].deadline <= es[k].deadline);
                }
            }
        }
        let mut due: Vec<usize> = Vec::new();
        let mut k: usize = 0;
        while k < cut
            invariant
                k <= cut,
                cut <= es.len(),
                self.entries@ == es,
                due@.len() == k,
                forall|i: int| 0 <= i < k ==> due@[i] == es[i].task,
            decreases cut - k,
        {
            due.push(self.entries[k].task);
            k = k + 1;
        }
        let mut m: usize = 0;
        while m < cut
            invariant
                m <= cut,
                cut <= es.len(),
                self.entries@ == es.skip(m as int),
            decreases cut - m,
        {
            proof {
                assert(es.skip(m as int).remove(0) =~= es.skip(m as int + 1));
            }
            self.entries.remove(0);
            m = m + 1;
        }
        proof {
            assert forall|i: int, j: int|
                0 <= i < j < self.entries@.len() implies self.entries@[i].deadline
                <= self.entries@[j].deadline by {
                assert(self.entries@[i] == es[i + cut]);
                assert(self.entries@[j] == es[j + cut]);
            }
        }
        due
    }
}

} // verus!
