//! Tasks: units of suspendable, resumable computation.
//!
//! A task's computation is an explicit state machine ([`Body`]).  Each resume
//! advances it until it either completes with a [`Value`] or reaches a
//! suspension point (a timer wait or a wait on another task's completion).

use crate::value::Value;
use vstd::prelude::*;

verus! {

/// The scheduling state of a task.  A task is in exactly one of these at any
/// instant; `Running` is not represented because a resume is atomic from the
/// executor's point of view (cooperative scheduling, no preemption).
#[derive(Clone, Copy, PartialEq, Eq, Structural, Debug)]
pub enum Status {
    /// Eligible for resumption; sits in the executor's ready queue.
    Ready,
    /// Suspended until a scheduled deadline passes.
    WaitingTimer,
    /// Suspended until one or two other tasks complete.
    WaitingJoin,
    /// Finished; the completion slot is filled and never written again.
    Completed,
}

/// A child computation that a task will spawn on its first resume, or the
/// handle it received once the child was spawned.
pub enum ChildRef {
    /// Not yet spawned: the child's computation, owned by the parent.
    Unspawned(Box<Body>),
    /// Spawned: the child task's handle.
    Spawned(usize),
}

/// The resumable computation of a task, as an explicit state machine.
pub enum Body {
    /// Completes with the given value on its first resume; it has no
    /// suspension point.
    Ret(Value),
    /// Logs `next`, `next + 1`, ... while `next < end`, sleeping `delay`
    /// ticks after each entry, then completes with `Value::Num(ret)`.
    Counter { next: u64, end: u64, delay: u64, ret: u64 },
    /// Spawns `child` on its first resume, runs a counter loop of its own,
    /// then awaits the spawned task and completes with that task's value.
    SpawnLoopAwait { child: ChildRef, next: u64, end: u64, delay: u64 },
    /// Awaits another task's completion and completes with its value.
    AwaitTask { handle: usize },
    /// The two-way join combinator: two child handles and two write-once
    /// slots; ready only once both slots are filled, and completes with the
    /// pair of the slots in `(a, b)` argument order.
    Join { a: usize, b: usize, slot_a: Option<Value>, slot_b: Option<Value> },
}

/// One task: its scheduling state, its computation, and its write-once
/// completion slot.
pub struct Task {
    pub status: Status,
    pub body: Body,
    pub result: Option<Value>,
}

impl Clone for ChildRef {
    fn clone(&self) -> (r: Self)
        ensures
            r == *self,
        decreases *self,
    {
        match self {
            ChildRef::Unspawned(b) => ChildRef::Unspawned(Box::new((**b).clone())),
            ChildRef::Spawned(h) => ChildRef::Spawned(*h),
        }
    }
}

impl Clone for Body {
    fn clone(&self) -> (r: Self)
        ensures
            r == *self,
        decreases *self,
    {
        match self {
            Body::Ret(v) => Body::Ret(v.clone()),
            Body::Counter { next, end, delay, ret } => Body::Counter {
                next: *next,
                end: *end,
                delay: *delay,
                ret: *ret,
            },
            Body::SpawnLoopAwait { child, next, end, delay } => Body::SpawnLoopAwait {
                child: child.clone(),
                next: *next,
                end: *end,
                delay: *delay,
            },
            Body::AwaitTask { handle } => Body::AwaitTask { handle: *handle },
            Body::Join { a, b, slot_a, slot_b } => Body::Join {
                a: *a,
                b: *b,
                slot_a: crate::value::clone_opt(slot_a),
                slot_b: crate::value::clone_opt(slot_b),
            },
        }
    }
}

impl Clone for Task {
    fn clone(&self) -> (r: Self)
        ensures
            r == *self,
    {
        Task {
            status: self.status,
            body: self.body.clone(),
            result: crate::value::clone_opt(&self.result),
        }
    }
}

/// Every task handle that `b` mentions refers to one of the first `n` tasks.
pub open spec fn body_refs_valid(b: Body, n: int) -> bool
    decreases b,
{
    match b {
        Body::Ret(_) => true,
        Body::Counter { .. } => true,
        Body::SpawnLoopAwait { child, .. } => match child {
            ChildRef::Unspawned(cb) => body_refs_valid(*cb, n),
            ChildRef::Spawned(h) => (h as int) < n,
        },
        Body::AwaitTask { handle } => (handle as int) < n,
        Body::Join { a, b, .. } => (a as int) < n && (b as int) < n,
    }
}

/// `b` holds no join combinator, neither as its own state machine nor inside
/// a child it has yet to spawn.  Join tasks are built by the executor, which
/// fills their slots; a join smuggled in through `spawn_task` could carry
/// slots that never matched its children.
pub open spec fn join_free(b: Body) -> bool
    decreases b,
{
    match b {
        Body::Join { .. } => false,
        Body::SpawnLoopAwait { child: ChildRef::Unspawned(cb), .. } => join_free(*cb),
        _ => true,
    }
}

/// Every child that `b` has yet to spawn is join-free, so that spawning it
/// yields a well-formed task.
pub open spec fn children_join_free(b: Body) -> bool {
    match b {
        Body::SpawnLoopAwait { child: ChildRef::Unspawned(cb), .. } => join_free(*cb),
        _ => true,
    }
}

/// A join-free body has only join-free children.
pub proof fn lemma_join_free_children(b: Body)
    requires
        join_free(b),
    ensures
        children_join_free(b),
{
    match b {
        Body::SpawnLoopAwait { .. } => {},
        _ => {},
    }
}

/// Validity of handles only ever mentions existing tasks, and tasks are
/// never removed, so validity survives the spawning of new tasks.
pub proof fn lemma_body_refs_valid_mono(b: Body, n: int, m: int)
    requires
        body_refs_valid(b, n),
        n <= m,
    ensures
        body_refs_valid(b, m),
    decreases b,
{
    match b {
        Body::SpawnLoopAwait { child, .. } => match child {
            ChildRef::Unspawned(cb) => {
                lemma_body_refs_valid_mono(*cb, n, m);
            },
            ChildRef::Spawned(_) => {},
        },
        _ => {},
    }
}

/// An upper bound on how many resumes can still make progress in `b`:
/// each resume of a non-completed task either leaves the whole system's
/// step count unchanged (a fruitless wait) or strictly lowers it.
pub open spec fn body_steps(b: Body) -> nat
    decreases b,
{
    match b {
        Body::Ret(_) => 1,
        Body::Counter { next, end, .. } => (if next < end {
            (end - next) as nat
        } else {
            0
        }) + 1,
        Body::SpawnLoopAwait { child, next, end, .. } => (match child {
            ChildRef::Unspawned(cb) => body_steps(*cb) + 1,
            ChildRef::Spawned(_) => 0,
        }) + (if next < end {
            (end - next) as nat
        } else {
            0
        }) + 2,
        Body::AwaitTask { .. } => 2,
        Body::Join { slot_a, slot_b, .. } => 1 + (if slot_a is None {
            1 as nat
        } else {
            0
        }) + (if slot_b is None {
            1 as nat
        } else {
            0
        }),
    }
}

/// Every computation takes at least one resume to complete.
pub proof fn lemma_body_steps_pos(b: Body)
    ensures
        body_steps(b) >= 1,
{
    match b {
        Body::Ret(_) => {},
        Body::Counter { .. } => {},
        Body::SpawnLoopAwait { .. } => {},
        Body::AwaitTask { .. } => {},
        Body::Join { .. } => {},
    }
}

/// A completed task takes no further steps.
pub open spec fn task_steps(t: Task) -> nat {
    if t.status is Completed {
        0
    } else {
        body_steps(t.body)
    }
}

/// The steps left in the whole system: the executor's termination measure.
pub open spec fn steps_sum(ts: Seq<Task>) -> nat
    decreases ts.len(),
{
    if ts.len() == 0 {
        0
    } else {
        steps_sum(ts.drop_last()) + task_steps(ts.last())
    }
}

/// Replacing one task changes the sum by that task's contribution.
pub proof fn lemma_steps_sum_update(ts: Seq<Task>, i: int, t: Task)
    requires
        0 <= i < ts.len(),
    ensures
        steps_sum(ts.update(i, t)) + task_steps(ts[i]) == steps_sum(ts) + task_steps(t),
    decreases ts.len(),
{
    if i == ts.len() - 1 {
        assert(ts.update(i, t).drop_last() =~= ts.drop_last());
        assert(ts.update(i, t).last() == t);
    } else {
        lemma_steps_sum_update(ts.drop_last(), i, t);
        assert(ts.update(i, t).drop_last() =~= ts.drop_last().update(i, t));
        assert(ts.update(i, t).last() == ts.last());
    }
}

/// Appending a task adds its contribution to the sum.
pub proof fn lemma_steps_sum_push(ts: Seq<Task>, t: Task)
    ensures
        steps_sum(ts.push(t)) == steps_sum(ts) + task_steps(t),
{
    assert(ts.push(t).drop_last() =~= ts);
    assert(ts.push(t).last() == t);
}

} // verus!
