//! The executor: a FIFO ready queue, the timer queue, and the loop that
//! drives ready tasks until the root computation completes.

use crate::task::Body;
use crate::task::ChildRef;
use crate::task::Status;
use crate::task::Task;
use crate::task::body_refs_valid;
use crate::task::children_join_free;
use crate::task::join_free;
use crate::task::lemma_body_refs_valid_mono;
use crate::task::lemma_body_steps_pos;
use crate::task::lemma_join_free_children;
use crate::task::lemma_steps_sum_push;
use crate::task::lemma_steps_sum_update;
use crate::task::steps_sum;
use crate::task::task_steps;
use crate::timer::TimerEntry;
use crate::timer::TimerQueue;
use crate::value::Value;
use crate::value::clone_opt;
use vstd::prelude::*;
use vstd::pervasive::VecAdditionalExecFns;

verus! {

/// Why a run or a direct resume failed.
#[derive(Clone, Copy, PartialEq, Eq, Structural, Debug)]
pub enum RunError {
    /// A task that was not ready was resumed: a caller error.
    InvalidState,
    /// No task is ready and no timer is pending while the root computation
    /// is still incomplete: the run can make no progress.
    Deadlock,
}

/// One log line written by a task body: the writing task and its counter.
#[derive(Clone, Copy, PartialEq, Eq, Structural, Debug)]
pub struct Event {
    pub task: usize,
    pub val: u64,
}

/// What one resume of a task produced.
#[derive(PartialEq, Eq, Debug)]
pub enum Resumed {
    /// The task reached a suspension point.
    Suspended,
    /// The task finished with this value.
    Completed(Value),
}

/// The executor.
pub struct Executor {
    /// All tasks ever spawned, indexed by handle.
    pub tasks: Vec<Task>,
    /// Handles of tasks eligible for resumption, FIFO: front first.
    pub ready: Vec<usize>,
    /// Pending timed wake-ups.
    pub timers: TimerQueue,
    /// Virtual time; advances to the earliest pending deadline when no task
    /// is ready.
    pub now: u64,
    /// The log lines written by counter bodies, in the order written.
    pub log: Vec<Event>,
    /// How many resumes the executor has performed.
    pub resumes: Ghost<nat>,
}

impl Executor {
    /// Task `i` is internally consistent: its completion slot is filled
    /// exactly when it is completed, and then with the value its own
    /// computation produced — `Ret`'s payload, a counter's `Num(ret)`, an
    /// awaiter's target value, a join's pair of its children's values in
    /// argument order; every handle its body mentions is a real task; a
    /// join's slots hold exactly its children's completion values; children
    /// it has yet to spawn are join-free.
    pub open spec fn task_wf(self, i: int) -> bool {
        let t = self.tasks@[i];
        &&& (t.status is Completed <==> t.result is Some)
        &&& body_refs_valid(t.body, self.tasks@.len() as int)
        &&& children_join_free(t.body)
        &&& match t.body {
            Body::Ret(v0) => t.status is Completed ==> t.result == Some(v0),
            Body::Counter { ret, .. } => t.status is Completed ==> t.result == Some(
                Value::Num(ret),
            ),
            Body::SpawnLoopAwait { child, .. } => t.status is Completed ==> (
            child matches ChildRef::Spawned(h) && self.tasks@[h as int].result == t.result),
            Body::AwaitTask { handle } => t.status is Completed ==> self.tasks@[
                handle as int].result == t.result,
            Body::Join { a, b, slot_a, slot_b } => {
                &&& (slot_a is Some ==> self.tasks@[a as int].result == slot_a)
                &&& (slot_b is Some ==> self.tasks@[b as int].result == slot_b)
                &&& (t.status is Completed ==> slot_a is Some && slot_b is Some
                    && (t.result matches Some(Value::Pair(x, y)) && *x == slot_a.unwrap()
                    && *y == slot_b.unwrap()))
            },
        }
    }

    /// The executor's invariant: every queued handle refers to a real task,
    /// the timer queue is sorted, and every task is internally consistent.
    pub open spec fn wf(self) -> bool {
        &&& forall|k: int|
            0 <= k < self.ready@.len() ==> (self.ready@[k] as int) < self.tasks@.len()
        &&& forall|k: int|
            0 <= k < self.timers.entries@.len() ==> (self.timers.entries@[k].task as int)
                < self.tasks@.len()
        &&& forall|k: int|
            0 <= k < self.timers.entries@.len() ==> self.timers.entries@[k].deadline >= self.now
        &&& self.timers.wf()
        &&& forall|i: int| 0 <= i < self.tasks@.len() ==> self.task_wf(i)
    }

    /// A fresh executor: no tasks, nothing ready, no timers, time zero.
    pub fn new() -> (r: Executor)
        ensures
            r.wf(),
            r.tasks@.len() == 0,
            r.ready@.len() == 0,
            r.timers.entries@.len() == 0,
            r.now == 0,
            r.log@.len() == 0,
            r.resumes@ == 0,
    {
        Executor {
            tasks: Vec::new(),
            ready: Vec::new(),
            timers: TimerQueue::new(),
            now: 0,
            log: Vec::new(),
            resumes: Ghost(0),
        }
    }

    /// Registers a new independent task in the ready queue and returns its
    /// handle.  A spawned task competes for resumption on equal footing with
    /// every other ready task: it goes to the back of the FIFO queue.
    pub fn spawn_task(&mut self, body: Body) -> (h: usize)
        requires
            old(self).wf(),
            body_refs_valid(body, old(self).tasks@.len() as int),
            join_free(body),
        ensures
            final(self).wf(),
            h == old(self).tasks@.len(),
            final(self).tasks@ == old(self).tasks@.push(
                (Task { status: Status::Ready, body, result: None }),
            ),
            final(self).ready@ == old(self).ready@.push(h),
            final(self).timers == old(self).timers,
            final(self).now == old(self).now,
            final(self).log == old(self).log,
            final(self).resumes == old(self).resumes,
    {
        let h = self.tasks.len();
        self.tasks.push(Task { status: Status::Ready, body, result: None });
        self.ready.push(h);
        proof {
            let n0 = old(self).tasks@.len() as int;
            let n1 = self.tasks@.len() as int;
            assert forall|i: int| 0 <= i < n1 implies self.task_wf(i) by {
                if i < n0 {
                    assert(old(self).task_wf(i));
                    lemma_body_refs_valid_mono(old(self).tasks@[i].body, n0, n1);
                    assert(self.tasks@[i] == old(self).tasks@[i]);
                } else {
                    lemma_body_refs_valid_mono(body, n0, n1);
                }
            }
        }
        h
    }

    /// Builds the join combinator of tasks `a` and `b`: a task that is ready
    /// exactly when both children have completed, records each child's value
    /// in its own slot as the child finishes, and completes with the pair of
    /// the slots in `(a, b)` argument order.
    pub fn spawn_join(&mut self, a: usize, b: usize) -> (h: usize)
        requires
            old(self).wf(),
            a < old(self).tasks@.len(),
            b < old(self).tasks@.len(),
        ensures
            final(self).wf(),
            h == old(self).tasks@.len(),
            final(self).tasks@.len() == old(self).tasks@.len() + 1,
            forall|i: int|
                0 <= i < old(self).tasks@.len() ==> final(self).tasks@[i] == old(self).tasks@[i],
            final(self).tasks@[h as int].body == (Body::Join {
                a,
                b,
                slot_a: old(self).tasks@[a as int].result,
                slot_b: old(self).tasks@[b as int].result,
            }),
            final(self).tasks@[h as int].result is None,
            final(self).tasks@[h as int].status == (if old(self).tasks@[a as int].result is Some
                && old(self).tasks@[b as int].result is Some {
                Status::Ready
            } else {
                Status::WaitingJoin
            }),
            old(self).tasks@[a as int].result is Some && old(self).tasks@[b as int].result is Some
                ==> final(self).ready@ == old(self).ready@.push(h),
            !(old(self).tasks@[a as int].result is Some && old(
                self,
            ).tasks@[b as int].result is Some) ==> final(self).ready@ == old(self).ready@,
            final(self).timers == old(self).timers,
            final(self).now == old(self).now,
            final(self).log == old(self).log,
            final(self).resumes == old(self).resumes,
    {
        let h = self.tasks.len();
        let sa = clone_opt(&self.tasks[a].result);
        let sb = clone_opt(&self.tasks[b].result);
        let both = sa.is_some() && sb.is_some();
        let st = if both {
            Status::Ready
        } else {
            Status::WaitingJoin
        };
        self.tasks.push(
            Task { status: st, body: Body::Join { a, b, slot_a: sa, slot_b: sb }, result: None },
        );
        if both {
            self.ready.push(h);
        }
        proof {
            let n0 = old(self).tasks@.len() as int;
            let n1 = self.tasks@.len() as int;
            assert forall|i: int| 0 <= i < n1 implies self.task_wf(i) by {
                if i < n0 {
                    assert(old(self).task_wf(i));
                    lemma_body_refs_valid_mono(old(self).tasks@[i].body, n0, n1);
                    assert(self.tasks@[i] == old(self).tasks@[i]);
                }
            }
        }
        h
    }

    /// What a task may complete with: the value its own computation
    /// produced — `Ret`'s payload, a counter's `Num(ret)`, the awaited
    /// task's value, or, for a join, the pair of its filled slots in
    /// argument order.
    pub open spec fn completion_ok(t: Task, v: Value, ts: Seq<Task>) -> bool {
        match t.body {
            Body::Ret(v0) => v == v0,
            Body::Counter { ret, .. } => v == Value::Num(ret),
            Body::SpawnLoopAwait { child, .. } => (child matches ChildRef::Spawned(h)
                && ts[h as int].result == Some(v)),
            Body::AwaitTask { handle } => ts[handle as int].result == Some(v),
            Body::Join { slot_a, slot_b, .. } => slot_a is Some && slot_b is Some && (
            v matches Value::Pair(x, y) && *x == slot_a.unwrap() && *y == slot_b.unwrap()),
        }
    }

    /// Fills the completion slot of `id` — exactly once: the slot must still
    /// be empty — and wakes every task that was waiting on `id`.
    fn complete(&mut self, id: usize, v: Value)
        requires
            old(self).wf(),
            id < old(self).tasks@.len(),
            old(self).tasks@[id as int].result is None,
            Executor::completion_ok(old(self).tasks@[id as int], v, old(self).tasks@),
        ensures
            final(self).wf(),
            final(self).tasks@.len() == old(self).tasks@.len(),
            final(self).tasks@[id as int].status is Completed,
            final(self).tasks@[id as int].result == Some(v),
            final(self).tasks@[id as int].body == old(self).tasks@[id as int].body,
            forall|j: int|
                0 <= j < old(self).tasks@.len() && j != id ==> final(self).tasks@[j].result == old(
                    self,
                ).tasks@[j].result,
            forall|j: int|
                0 <= j < old(self).tasks@.len() && j != id && !(old(
                    self,
                ).tasks@[j].status is WaitingJoin) ==> final(self).tasks@[j] == old(
                    self,
                ).tasks@[j],
            old(self).ready@.len() <= final(self).ready@.len(),
            forall|k: int|
                0 <= k < old(self).ready@.len() ==> final(self).ready@[k] == old(self).ready@[k],
            steps_sum(final(self).tasks@) < steps_sum(old(self).tasks@),
            final(self).timers == old(self).timers,
            final(self).now == old(self).now,
            final(self).log == old(self).log,
            final(self).resumes == old(self).resumes,
    {
        let t = self.tasks[id].clone();
        let nt = Task { status: Status::Completed, body: t.body, result: Some(v) };
        self.tasks.set(id, nt);
        proof {
            let n = self.tasks@.len() as int;
            lemma_steps_sum_update(old(self).tasks@, id as int, nt);
            assert(old(self).task_wf(id as int));
            lemma_body_steps_pos(old(self).tasks@[id as int].body);
            assert(task_steps(old(self).tasks@[id as int]) >= 1);
            assert forall|i: int| 0 <= i < n implies self.task_wf(i) by {
                assert(old(self).task_wf(i));
                if i != id {
                    assert(self.tasks@[i] == old(self).tasks@[i]);
                }
            }
        }
        self.notify(id);
    }

    /// Wakes every task that was waiting on `t`, which has just completed:
    /// a waiting join child's slot is filled with `t`'s value, and a waiter
    /// becomes ready — and joins only once both slots are filled.
    fn notify(&mut self, t: usize)
        requires
            old(self).wf(),
            t < old(self).tasks@.len(),
            old(self).tasks@[t as int].result is Some,
        ensures
            final(self).wf(),
            final(self).tasks@.len() == old(self).tasks@.len(),
            forall|j: int|
                0 <= j < old(self).tasks@.len() ==> final(self).tasks@[j].result == old(
                    self,
                ).tasks@[j].result,
            forall|j: int|
                0 <= j < old(self).tasks@.len() && !(old(self).tasks@[j].status is WaitingJoin)
                    ==> final(self).tasks@[j] == old(self).tasks@[j],
            old(self).ready@.len() <= final(self).ready@.len(),
            forall|k: int|
                0 <= k < old(self).ready@.len() ==> final(self).ready@[k] == old(self).ready@[k],
            steps_sum(final(self).tasks@) <= steps_sum(old(self).tasks@),
            final(self).timers == old(self).timers,
            final(self).now == old(self).now,
            final(self).log == old(self).log,
            final(self).resumes == old(self).resumes,
    {
        let ghost s0 = *self;
        let n = self.tasks.len();
        let mut j: usize = 0;
        while j < n
            invariant
                self.wf(),
                j <= n,
                n == self.tasks@.len(),
                n == s0.tasks@.len(),
                t < n,
                s0.wf(),
                s0.tasks@[t as int].result is Some,
                forall|i: int| 0 <= i < n ==> self.tasks@[i].result == s0.tasks@[i].result,
                forall|i: int|
                    0 <= i < n && !(s0.tasks@[i].status is WaitingJoin) ==> self.tasks@[i]
                        == s0.tasks@[i],
                s0.ready@.len() <= self.ready@.len(),
                forall|k: int| 0 <= k < s0.ready@.len() ==> self.ready@[k] == s0.ready@[k],
                steps_sum(self.tasks@) <= steps_sum(s0.tasks@),
                self.timers == s0.timers,
                self.now == s0.now,
                self.log == s0.log,
                self.resumes == s0.resumes,
            decreases n - j,
        {
            let ghost pre = *self;
            let tj = self.tasks[j].clone();
            if tj.status == Status::WaitingJoin {
                match tj.body {
                    Body::AwaitTask { handle } => {
                        if handle == t {
                            let nt = Task {
                                status: Status::Ready,
                                body: Body::AwaitTask { handle },
                                result: None,
                            };
                            proof {
                                lemma_steps_sum_update(self.tasks@, j as int, nt);
                            }
                            self.tasks.set(j, nt);
                            self.ready.push(j);
                            proof {
                                assert(pre.task_wf(j as int));
                                assert(pre.tasks@[j as int].result is None);
                                assert forall|i: int| 0 <= i < n implies self.task_wf(i) by {
                                    assert(pre.task_wf(i));
                                    if i != j {
                                        assert(self.tasks@[i] == pre.tasks@[i]);
                                    }
                                    assert(forall|k: int|
                                        0 <= k < n ==> self.tasks@[k].result
                                            == pre.tasks@[k].result);
                                }
                            }
                        }
                    },
                    Body::SpawnLoopAwait { child, next, end, delay } => {
                        match child {
                            ChildRef::Spawned(hh) => {
                                if hh == t {
                                    let nt = Task {
                                        status: Status::Ready,
                                        body: Body::SpawnLoopAwait {
                                            child: ChildRef::Spawned(hh),
                                            next,
                                            end,
                                            delay,
                                        },
                                        result: None,
                                    };
                                    proof {
                                        lemma_steps_sum_update(self.tasks@, j as int, nt);
                                    }
                                    self.tasks.set(j, nt);
                                    self.ready.push(j);
                                    proof {
                                        assert(pre.task_wf(j as int));
                                        assert(pre.tasks@[j as int].result is None);
                                        assert forall|i: int| 0 <= i < n implies self.task_wf(
                                            i,
                                        ) by {
                                            assert(pre.task_wf(i));
                                            if i != j {
                                                assert(self.tasks@[i] == pre.tasks@[i]);
                                            }
                                            assert(forall|k: int|
                                                0 <= k < n ==> self.tasks@[k].result
                                                    == pre.tasks@[k].result);
                                        }
                                    }
                                }
                            },
                            ChildRef::Unspawned(_) => {},
                        }
                    },
                    Body::Join { a, b, slot_a, slot_b } => {
                        let mut sa = slot_a;
                        let mut sb = slot_b;
                        if a == t && sa.is_none() {
                            sa = clone_opt(&self.tasks[t].result);
                        }
                        if b == t && sb.is_none() {
                            sb = clone_opt(&self.tasks[t].result);
                        }
                        let both = sa.is_some() && sb.is_some();
                        let st = if both {
                            Status::Ready
                        } else {
                            Status::WaitingJoin
                        };
                        let nt = Task {
                            status: st,
                            body: Body::Join { a, b, slot_a: sa, slot_b: sb },
                            result: None,
                        };
                        proof {
                            lemma_steps_sum_update(self.tasks@, j as int, nt);
                        }
                        self.tasks.set(j, nt);
                        if both {
                            self.ready.push(j);
                        }
                        proof {
                            assert(pre.task_wf(j as int));
                            assert(pre.tasks@[j as int].result is None);
                            assert forall|i: int| 0 <= i < n implies self.task_wf(i) by {
                                assert(pre.task_wf(i));
                                if i != j {
                                    assert(self.tasks@[i] == pre.tasks@[i]);
                                }
                                assert(forall|k: int|
                                    0 <= k < n ==> self.tasks@[k].result == pre.tasks@[k].result);
                            }
                        }
                    },
                    _ => {},
                }
            }
            j = j + 1;
        }
    }

    /// A timer wake-up for `id` at `wake_at(s0.now, delay)` was armed, and
    /// nothing else in the timer queue changed.
    pub open spec fn timer_armed(s0: Executor, s1: Executor, id: int, delay: u64) -> bool {
        s1.timers.entries@ == s0.timers.entries@.insert(
            crate::timer::insert_pos(s0.timers.entries@, wake_at(s0.now, delay)),
            (TimerEntry { deadline: wake_at(s0.now, delay), task: id as usize }),
        )
    }

    /// One step of a counter body: while `next < end` it logs `next`, bumps
    /// the counter and sleeps `delay` ticks; then it completes with
    /// `Num(ret)`.
    pub open spec fn counter_step(
        s0: Executor,
        s1: Executor,
        id: int,
        next: u64,
        end: u64,
        delay: u64,
        ret: u64,
    ) -> bool {
        &&& (next < end ==> {
            &&& s1.tasks@ == s0.tasks@.update(
                id,
                (Task {
                    status: Status::WaitingTimer,
                    body: (Body::Counter { next: (next + 1) as u64, end, delay, ret }),
                    result: None,
                }),
            )
            &&& s1.log@ == s0.log@.push((Event { task: id as usize, val: next }))
            &&& Executor::timer_armed(s0, s1, id, delay)
            &&& s1.ready@ == s0.ready@
        })
        &&& (next >= end ==> {
            &&& s1.tasks@[id] == (Task {
                status: Status::Completed,
                body: (Body::Counter { next, end, delay, ret }),
                result: Some(Value::Num(ret)),
            })
            &&& s1.tasks@.len() == s0.tasks@.len()
            &&& s1.log@ == s0.log@
            &&& s1.timers == s0.timers
        })
    }

    /// One step of the loop-then-await phase of a spawn-loop-await body with
    /// spawned child `h`, whose completion slot held `hres` before the step:
    /// while `next < end` it logs and sleeps like a counter; then it
    /// completes with the child's value, or waits on the child.
    pub open spec fn loop_await_step(
        s0: Executor,
        s1: Executor,
        id: int,
        h: usize,
        hres: Option<Value>,
        next: u64,
        end: u64,
        delay: u64,
    ) -> bool {
        &&& (next < end ==> {
            &&& s1.tasks@[id] == (Task {
                status: Status::WaitingTimer,
                body: (Body::SpawnLoopAwait {
                    child: ChildRef::Spawned(h),
                    next: (next + 1) as u64,
                    end,
                    delay,
                }),
                result: None,
            })
            &&& s1.log@ == s0.log@.push((Event { task: id as usize, val: next }))
            &&& Executor::timer_armed(s0, s1, id, delay)
        })
        &&& (next >= end ==> {
            &&& s1.log@ == s0.log@
            &&& s1.timers == s0.timers
            &&& (hres is Some ==> s1.tasks@[id] == (Task {
                status: Status::Completed,
                body: (Body::SpawnLoopAwait { child: ChildRef::Spawned(h), next, end, delay }),
                result: hres,
            }))
            &&& (hres is None ==> s1.tasks@[id] == (Task {
                status: Status::WaitingJoin,
                body: (Body::SpawnLoopAwait { child: ChildRef::Spawned(h), next, end, delay }),
                result: None,
            }))
        })
    }

    /// The complete transition relation of one resume of ready task `id`:
    /// what the step does for every kind of body, that virtual time stands
    /// still, that no other task's completion slot is touched, that tasks
    /// not waiting on a completion are untouched, and that the ready queue
    /// only grows at the back.
    pub open spec fn resume_step(s0: Executor, s1: Executor, id: int) -> bool {
        let t0 = s0.tasks@[id];
        &&& s1.tasks@.len() >= s0.tasks@.len()
        &&& s1.now == s0.now
        &&& s1.resumes@ == s0.resumes@ + 1
        &&& (forall|j: int|
            0 <= j < s0.tasks@.len() && j != id ==> s1.tasks@[j].result == s0.tasks@[j].result)
        &&& (forall|j: int|
            0 <= j < s0.tasks@.len() && j != id && !(s0.tasks@[j].status is WaitingJoin)
                ==> s1.tasks@[j] == s0.tasks@[j])
        &&& s0.ready@.len() <= s1.ready@.len()
        &&& (forall|k: int| 0 <= k < s0.ready@.len() ==> s1.ready@[k] == s0.ready@[k])
        &&& s0.log@.len() <= s1.log@.len()
        &&& (forall|k: int| 0 <= k < s0.log@.len() ==> s1.log@[k] == s0.log@[k])
        &&& match t0.body {
            Body::Ret(v0) => {
                &&& s1.tasks@[id] == (Task {
                    status: Status::Completed,
                    body: t0.body,
                    result: Some(v0),
                })
                &&& s1.tasks@.len() == s0.tasks@.len()
                &&& s1.log@ == s0.log@
                &&& s1.timers == s0.timers
            },
            Body::Counter { next, end, delay, ret } => Executor::counter_step(
                s0,
                s1,
                id,
                next,
                end,
                delay,
                ret,
            ),
            Body::SpawnLoopAwait { child, next, end, delay } => match child {
                ChildRef::Unspawned(cb) => {
                    &&& s1.tasks@.len() == s0.tasks@.len() + 1
                    &&& s1.tasks@[s0.tasks@.len() as int] == (Task {
                        status: Status::Ready,
                        body: *cb,
                        result: None,
                    })
                    &&& s1.ready@ == s0.ready@.push(s0.tasks@.len() as usize)
                    &&& Executor::loop_await_step(
                        s0,
                        s1,
                        id,
                        s0.tasks@.len() as usize,
                        None,
                        next,
                        end,
                        delay,
                    )
                },
                ChildRef::Spawned(h) => {
                    &&& s1.tasks@.len() == s0.tasks@.len()
                    &&& (next < end ==> s1.ready@ == s0.ready@)
                    &&& Executor::loop_await_step(
                        s0,
                        s1,
                        id,
                        h,
                        s0.tasks@[h as int].result,
                        next,
                        end,
                        delay,
                    )
                },
            },
            Body::AwaitTask { handle } => {
                &&& s1.tasks@.len() == s0.tasks@.len()
                &&& s1.log@ == s0.log@
                &&& s1.timers == s0.timers
                &&& (s0.tasks@[handle as int].result is Some ==> s1.tasks@[id] == (Task {
                    status: Status::Completed,
                    body: t0.body,
                    result: s0.tasks@[handle as int].result,
                }))
                &&& (s0.tasks@[handle as int].result is None ==> s1.tasks@ == s0.tasks@.update(
                    id,
                    (Task { status: Status::WaitingJoin, body: t0.body, result: None }),
                ) && s1.ready@ == s0.ready@)
            },
            Body::Join { a, b, slot_a, slot_b } => {
                let sa = if slot_a is Some {
                    slot_a
                } else {
                    s0.tasks@[a as int].result
                };
                let sb = if slot_b is Some {
                    slot_b
                } else {
                    s0.tasks@[b as int].result
                };
                &&& s1.tasks@.len() == s0.tasks@.len()
                &&& s1.log@ == s0.log@
                &&& s1.timers == s0.timers
                &&& (sa is Some && sb is Some ==> s1.tasks@[id].status is Completed
                    && s1.tasks@[id].body == (Body::Join { a, b, slot_a: sa, slot_b: sb }) && (
                s1.tasks@[id].result matches Some(Value::Pair(x, y)) && Some(*x) == sa && Some(*y)
                    == sb))
                &&& (!(sa is Some && sb is Some) ==> s1.tasks@ == s0.tasks@.update(
                    id,
                    (Task {
                        status: Status::WaitingJoin,
                        body: (Body::Join { a, b, slot_a: sa, slot_b: sb }),
                        result: None,
                    }),
                ) && s1.ready@ == s0.ready@)
            },
        }
    }

    /// Resumes task `id`, which must be ready: advances its computation one
    /// step — completing it, putting it to sleep on a timer, spawning a
    /// child, or leaving it waiting on another task.  Each resume either
    /// strictly lowers the system's remaining step count or leaves the
    /// queues untouched (a fruitless wait), which is what lets `block_on`
    /// terminate.
    fn resume_task(&mut self, id: usize)
        requires
            old(self).wf(),
            id < old(self).tasks@.len(),
            old(self).tasks@[id as int].status is Ready,
        ensures
            final(self).wf(),
            Executor::resume_step(*old(self), *final(self), id as int),
            steps_sum(final(self).tasks@) < steps_sum(old(self).tasks@) || (steps_sum(
                final(self).tasks@,
            ) == steps_sum(old(self).tasks@) && final(self).ready@ == old(self).ready@
                && final(self).timers == old(self).timers),
    {
        self.resumes = Ghost(self.resumes@ + 1);
        proof {
            assert(old(self).task_wf(id as int));
            assert forall|i: int| 0 <= i < self.tasks@.len() implies self.task_wf(i) by {
                assert(old(self).task_wf(i));
            }
            assert(self.wf());
        }
        let t = self.tasks[id].clone();
        match t.body {
            Body::Ret(v) => {
                self.complete(id, v);
            },
            Body::Counter { next, end, delay, ret } => {
                if next < end {
                    self.log.push(Event { task: id, val: next });
                    let nt = Task {
                        status: Status::WaitingTimer,
                        body: Body::Counter { next: next + 1, end, delay, ret },
                        result: None,
                    };
                    proof {
                        lemma_steps_sum_update(self.tasks@, id as int, nt);
                    }
                    self.tasks.set(id, nt);
                    let ghost pre = *self;
                    let dl = sat_add(self.now, delay);
                    self.timers.schedule(id, dl);
                    proof {
                        assert forall|i: int| 0 <= i < self.tasks@.len() implies self.task_wf(
                            i,
                        ) by {
                            assert(old(self).task_wf(i));
                            if i != id {
                                assert(self.tasks@[i] == old(self).tasks@[i]);
                            }
                        }
                        assert forall|k: int|
                            0 <= k < self.timers.entries@.len() implies (self.timers.entries@[
                            k].task as int) < self.tasks@.len() by {
                            if self.timers.entries@[k] != (TimerEntry { deadline: dl, task: id }) {
                                assert(pre.timers.entries@.contains(self.timers.entries@[k]));
                            }
                        }
                    }
                } else {
                    self.complete(id, Value::Num(ret));
                }
            },
            Body::SpawnLoopAwait { child, next, end, delay } => {
                let h: usize = match child {
                    ChildRef::Unspawned(cb) => {
                        let hh = self.tasks.len();
                        let cbody = *cb;
                        proof {
                            lemma_join_free_children(cbody);
                            lemma_steps_sum_push(
                                self.tasks@,
                                (Task { status: Status::Ready, body: cbody, result: None }),
                            );
                        }
                        self.tasks.push(Task { status: Status::Ready, body: cbody, result: None });
                        self.ready.push(hh);
                        proof {
                            let n0 = old(self).tasks@.len() as int;
                            let n1 = self.tasks@.len() as int;
                            assert forall|i: int| 0 <= i < n1 implies self.task_wf(i) by {
                                if i < n0 {
                                    assert(old(self).task_wf(i));
                                    lemma_body_refs_valid_mono(old(self).tasks@[i].body, n0, n1);
                                    assert(self.tasks@[i] == old(self).tasks@[i]);
                                } else {
                                    lemma_body_refs_valid_mono(cbody, n0, n1);
                                }
                            }
                        }
                        hh
                    },
                    ChildRef::Spawned(hh) => hh,
                };
                let ghost mid = *self;
                if next < end {
                    self.log.push(Event { task: id, val: next });
                    let nt = Task {
                        status: Status::WaitingTimer,
                        body: Body::SpawnLoopAwait {
                            child: ChildRef::Spawned(h),
                            next: next + 1,
                            end,
                            delay,
                        },
                        result: None,
                    };
                    proof {
                        lemma_steps_sum_update(self.tasks@, id as int, nt);
                    }
                    self.tasks.set(id, nt);
                    let ghost pre = *self;
                    let dl = sat_add(self.now, delay);
                    self.timers.schedule(id, dl);
                    proof {
                        assert forall|i: int| 0 <= i < self.tasks@.len() implies self.task_wf(
                            i,
                        ) by {
                            assert(mid.task_wf(i));
                            if i != id {
                                assert(self.tasks@[i] == mid.tasks@[i]);
                            }
                        }
                        assert forall|k: int|
                            0 <= k < self.timers.entries@.len() implies (self.timers.entries@[
                            k].task as int) < self.tasks@.len() by {
                            if self.timers.entries@[k] != (TimerEntry { deadline: dl, task: id }) {
                                assert(pre.timers.entries@.contains(self.timers.entries@[k]));
                            }
                        }
                    }
                } else {
                    let done = clone_opt(&self.tasks[h].result);
                    let nt = Task {
                        status: Status::WaitingJoin,
                        body: Body::SpawnLoopAwait { child: ChildRef::Spawned(h), next, end, delay },
                        result: None,
                    };
                    proof {
                        lemma_steps_sum_update(self.tasks@, id as int, nt);
                    }
                    self.tasks.set(id, nt);
                    proof {
                        assert forall|i: int| 0 <= i < self.tasks@.len() implies self.task_wf(
                            i,
                        ) by {
                            assert(mid.task_wf(i));
                            if i != id {
                                assert(self.tasks@[i] == mid.tasks@[i]);
                            }
                        }
                    }
                    match done {
                        Some(v) => {
                            self.complete(id, v);
                        },
                        None => {},
                    }
                }
            },
            Body::AwaitTask { handle } => {
                match clone_opt(&self.tasks[handle].result) {
                    Some(v) => {
                        self.complete(id, v);
                    },
                    None => {
                        let nt = Task {
                            status: Status::WaitingJoin,
                            body: Body::AwaitTask { handle },
                            result: None,
                        };
                        proof {
                            lemma_steps_sum_update(self.tasks@, id as int, nt);
                        }
                        self.tasks.set(id, nt);
                        proof {
                            assert forall|i: int| 0 <= i < self.tasks@.len() implies self.task_wf(
                                i,
                            ) by {
                                assert(old(self).task_wf(i));
                                if i != id {
                                    assert(self.tasks@[i] == old(self).tasks@[i]);
                                }
                            }
                        }
                    },
                }
            },
            Body::Join { a, b, slot_a, slot_b } => {
                let mut sa = slot_a;
                let mut sb = slot_b;
                if sa.is_none() {
                    sa = clone_opt(&self.tasks[a].result);
                }
                if sb.is_none() {
                    sb = clone_opt(&self.tasks[b].result);
                }
                let both = sa.is_some() && sb.is_some();
                if both {
                    let va = sa.unwrap();
                    let vb = sb.unwrap();
                    let va2 = va.clone();
                    let vb2 = vb.clone();
                    let nt = Task {
                        status: Status::WaitingJoin,
                        body: Body::Join { a, b, slot_a: Some(va), slot_b: Some(vb) },
                        result: None,
                    };
                    proof {
                        lemma_steps_sum_update(self.tasks@, id as int, nt);
                    }
                    self.tasks.set(id, nt);
                    proof {
                        assert forall|i: int| 0 <= i < self.tasks@.len() implies self.task_wf(
                            i,
                        ) by {
                            assert(old(self).task_wf(i));
                            if i != id {
                                assert(self.tasks@[i] == old(self).tasks@[i]);
                            }
                        }
                    }
                    self.complete(id, Value::Pair(Box::new(va2), Box::new(vb2)));
                } else {
                    let nt = Task {
                        status: Status::WaitingJoin,
                        body: Body::Join { a, b, slot_a: sa, slot_b: sb },
                        result: None,
                    };
                    proof {
                        lemma_steps_sum_update(self.tasks@, id as int, nt);
                    }
                    self.tasks.set(id, nt);
                    proof {
                        assert forall|i: int| 0 <= i < self.tasks@.len() implies self.task_wf(
                            i,
                        ) by {
                            assert(old(self).task_wf(i));
                            if i != id {
                                assert(self.tasks@[i] == old(self).tasks@[i]);
                            }
                        }
                    }
                }
            },
        }
    }

    /// Resumes task `id` directly, bypassing the scheduling loop.  Resuming
    /// a task that is not ready — completed or waiting — is a caller error
    /// and fails with `InvalidState` without touching anything; resuming a
    /// ready task advances it one step, exactly as `resume_step` describes,
    /// and reports whether it suspended or completed, and with which value.
    pub fn resume(&mut self, id: usize) -> (r: Result<Resumed, RunError>)
        requires
            old(self).wf(),
            id < old(self).tasks@.len(),
        ensures
            final(self).wf(),
            final(self).tasks@.len() >= old(self).tasks@.len(),
            !(old(self).tasks@[id as int].status is Ready) ==> r == Err::<Resumed, RunError>(
                RunError::InvalidState,
            ) && *final(self) == *old(self),
            old(self).tasks@[id as int].status is Completed ==> r == Err::<Resumed, RunError>(
                RunError::InvalidState,
            ),
            old(self).tasks@[id as int].status is Ready ==> {
                &&& r is Ok
                &&& Executor::resume_step(*old(self), *final(self), id as int)
                &&& (r == Ok::<Resumed, RunError>(Resumed::Suspended) <==> final(self).tasks@[id as int].result is None)
                &&& forall|v: Value|
                    r == Ok::<Resumed, RunError>(Resumed::Completed(v)) <==> final(self).tasks@[id as int].result == Some(v)
            },
    {
        let st = self.tasks[id].status;
        if st == Status::Ready {
            self.resume_task(id);
            proof {
                assert(self.task_wf(id as int));
            }
            match &self.tasks[id].result {
                Some(v) => Ok(Resumed::Completed(v.clone())),
                None => Ok(Resumed::Suspended),
            }
        } else {
            Err(RunError::InvalidState)
        }
    }

    /// Every incomplete task is an independent computation with no
    /// suspension on other tasks — a `Ret` or a counter — and is properly
    /// scheduled: ready tasks sit in the ready queue and sleeping tasks have
    /// a timer entry.  Such a state can always make progress, so `block_on`
    /// is owed success on it.  (A task waiting on another can in general be
    /// part of a cycle of waits, which deadlocks; owing success there would
    /// take a well-foundedness witness for the wait graph.)
    pub open spec fn direct_live(s: Executor) -> bool {
        forall|i: int|
            #![trigger s.tasks@[i]]
            0 <= i < s.tasks@.len() && s.tasks@[i].result is None ==> {
                &&& (s.tasks@[i].body matches Body::Ret(_) || s.tasks@[i].body matches Body::Counter { .. })
                &&& !(s.tasks@[i].status is WaitingJoin)
                &&& (s.tasks@[i].status is Ready ==> s.ready@.contains(i as usize))
                &&& (s.tasks@[i].status is WaitingTimer ==> exists|k: int|
                    0 <= k < s.timers.entries@.len() && s.timers.entries@[k].task == i)
            }
    }

    /// The waking loop's view of `direct_live`: a sleeping task either still
    /// has its timer entry or sits in the not-yet-processed part of the
    /// batch of due wake-ups, `due[k..]`.
    pub open spec fn wake_inv(s: Executor, due: Seq<usize>, k: int) -> bool {
        forall|i: int|
            #![trigger s.tasks@[i]]
            0 <= i < s.tasks@.len() && s.tasks@[i].result is None ==> {
                &&& (s.tasks@[i].body matches Body::Ret(_) || s.tasks@[i].body matches Body::Counter { .. })
                &&& !(s.tasks@[i].status is WaitingJoin)
                &&& (s.tasks@[i].status is Ready ==> s.ready@.contains(i as usize))
                &&& (s.tasks@[i].status is WaitingTimer ==> (exists|j: int|
                    0 <= j < s.timers.entries@.len() && s.timers.entries@[j].task == i) || (
                exists|m: int| k <= m < due.len() && due[m] == i as usize))
            }
    }

    /// The executor holds exactly one ready task, the root, and that task
    /// completes on its first resume with `v`: the shape `block_on` sees for
    /// a computation with no suspension point.
    pub open spec fn lone_immediate(s: Executor, root: int, v: Value) -> bool {
        &&& 0 <= root < s.tasks@.len()
        &&& s.ready@.len() == 1
        &&& (s.ready@[0] as int) == root
        &&& s.tasks@[root].status is Ready
        &&& s.tasks@[root].body == Body::Ret(v)
        &&& s.timers.entries@.len() == 0
    }

    /// Runs the scheduling loop until the root task completes, then returns
    /// its value.  Each round resumes the ready tasks in FIFO order; when
    /// nothing is ready, virtual time advances — monotonically, and by the
    /// invariant never past a pending deadline, so always exactly to the
    /// earliest one — and the wake-ups due then become ready, in scheduling
    /// order; a run that starts stalled (nothing ready, no timer pending,
    /// root incomplete) fails with `Deadlock`, and `Deadlock` is only ever
    /// reported from such a state.  A root that has already completed
    /// returns its value at once — never a `Deadlock` — a root with no
    /// suspension point completes in exactly one resume, and a state of
    /// independent, properly queued computations (`direct_live`) is owed
    /// success outright.  The log of counter entries only ever grows.
    pub fn block_on(&mut self, root: usize) -> (r: Result<Value, RunError>)
        requires
            old(self).wf(),
            root < old(self).tasks@.len(),
        ensures
            final(self).wf(),
            final(self).tasks@.len() >= old(self).tasks@.len(),
            forall|v: Value|
                r == Ok::<Value, RunError>(v) ==> final(self).tasks@[root as int].status
                    is Completed && final(self).tasks@[root as int].result == Some(v),
            r is Err ==> r == Err::<Value, RunError>(RunError::Deadlock),
            r == Err::<Value, RunError>(RunError::Deadlock) ==> final(self).ready@.len() == 0
                && final(self).timers.entries@.len() == 0 && !(final(self).tasks@[root as int].status is Completed),
            old(self).tasks@[root as int].result is Some ==> r == Ok::<Value, RunError>(
                old(self).tasks@[root as int].result.unwrap(),
            ) && *final(self) == *old(self),
            forall|v: Value|
                Executor::lone_immediate(*old(self), root as int, v) ==> r == Ok::<
                    Value,
                    RunError,
                >(v) && final(self).resumes@ == old(self).resumes@ + 1,
            final(self).now >= old(self).now,
            old(self).log@.len() <= final(self).log@.len(),
            forall|k: int| 0 <= k < old(self).log@.len() ==> final(self).log@[k] == old(
                self,
            ).log@[k],
            old(self).ready@.len() == 0 && old(self).timers.entries@.len() == 0 && !(old(
                self,
            ).tasks@[root as int].status is Completed) ==> r == Err::<Value, RunError>(
                RunError::Deadlock,
            ),
            Executor::direct_live(*old(self)) ==> r is Ok,
    {
        let ghost s0 = *self;
        loop
            invariant
                s0 == *old(self),
                self.wf(),
                root < self.tasks@.len(),
                self.tasks@.len() >= s0.tasks@.len(),
                s0.tasks@[root as int].result is Some ==> *self == s0,
                forall|v: Value|
                    Executor::lone_immediate(s0, root as int, v) ==> (*self == s0) || (
                    self.tasks@[root as int].result == Some(v) && self.resumes@ == s0.resumes@
                        + 1),
                self.now >= s0.now,
                s0.log@.len() <= self.log@.len(),
                forall|k: int| 0 <= k < s0.log@.len() ==> self.log@[k] == s0.log@[k],
                s0.ready@.len() == 0 && s0.timers.entries@.len() == 0 && !(s0.tasks@[
                    root as int].status is Completed) ==> *self == s0,
                Executor::direct_live(s0) ==> Executor::direct_live(*self),
            decreases steps_sum(self.tasks@), self.timers.entries@.len(), self.ready@.len(),
        {
            proof {
                assert(self.task_wf(root as int));
            }
            let done = clone_opt(&self.tasks[root].result);
            match done {
                Some(v) => {
                    return Ok(v);
                },
                None => {},
            }
            if self.ready.len() > 0 {
                let ghost preq = *self;
                let id = self.ready.remove(0);
                proof {
                    assert forall|k: int|
                        0 <= k < self.ready@.len() implies (self.ready@[k] as int)
                        < self.tasks@.len() by {
                        assert(self.ready@[k] == preq.ready@[k + 1]);
                    }
                    assert forall|i: int| 0 <= i < self.tasks@.len() implies self.task_wf(i) by {
                        assert(preq.task_wf(i));
                    }
                }
                let st = self.tasks[id].status;
                if st == Status::Ready {
                    let ghost prr = *self;
                    self.resume_task(id);
                    proof {
                        if Executor::direct_live(s0) {
                            assert(Executor::direct_live(preq));
                            assert(preq.task_wf(id as int));
                            assert(preq.tasks@[id as int].result is None);
                            assert forall|i: int|
                                #![trigger self.tasks@[i]]
                                0 <= i < self.tasks@.len() && self.tasks@[i].result is None implies {
                                &&& (self.tasks@[i].body matches Body::Ret(_)
                                    || self.tasks@[i].body matches Body::Counter { .. })
                                &&& !(self.tasks@[i].status is WaitingJoin)
                                &&& (self.tasks@[i].status is Ready ==> self.ready@.contains(
                                    i as usize,
                                ))
                                &&& (self.tasks@[i].status is WaitingTimer ==> exists|j: int|
                                    0 <= j < self.timers.entries@.len()
                                        && self.timers.entries@[j].task == i)
                            } by {
                                assert(prr.tasks@ == preq.tasks@);
                                assert(preq.tasks@[i].result is None);
                                match prr.tasks@[id as int].body {
                                    Body::Counter { next, end, delay, ret } => {
                                        if next < end {
                                            crate::timer::lemma_insert_keeps_entries(
                                                prr.timers.entries@,
                                                (TimerEntry {
                                                    deadline: wake_at(prr.now, delay),
                                                    task: id,
                                                }),
                                            );
                                            let p = crate::timer::insert_pos(
                                                prr.timers.entries@,
                                                wake_at(prr.now, delay),
                                            );
                                            assert(self.timers.entries@[p].task == id);
                                        }
                                    },
                                    _ => {},
                                }
                                if i != id {
                                    assert(self.tasks@[i] == prr.tasks@[i]);
                                    if self.tasks@[i].status is Ready {
                                        assert(preq.ready@.contains(i as usize));
                                        let k0 = choose|k0: int|
                                            0 <= k0 < preq.ready@.len() && preq.ready@[k0]
                                                == i as usize;
                                        assert(preq.ready@[0] == id);
                                        if k0 == 0 {
                                            assert(i as usize == id);
                                            assert(self.tasks.len() == self.tasks@.len());
                                            assert(i == id as int);
                                            assert(false);
                                        }
                                        assert(k0 > 0);
                                        assert(prr.ready@[k0 - 1] == preq.ready@[k0]);
                                        assert(self.ready@[k0 - 1] == i as usize);
                                    }
                                    if self.tasks@[i].status is WaitingTimer {
                                        assert(preq.tasks@[i].status is WaitingTimer);
                                        let j0 = choose|j0: int|
                                            0 <= j0 < preq.timers.entries@.len()
                                                && preq.timers.entries@[j0].task == i;
                                        match prr.tasks@[id as int].body {
                                            Body::Ret(_) => {
                                                assert(self.timers == prr.timers);
                                                assert(self.timers.entries@[j0].task == i);
                                            },
                                            Body::Counter { next, end, delay, ret } => {
                                                if next < end {
                                                    let es1 = self.timers.entries@;
                                                    assert(exists|k2: int|
                                                        0 <= k2 < es1.len() && es1[k2]
                                                            == prr.timers.entries@[j0]);
                                                    let k2 = choose|k2: int|
                                                        0 <= k2 < es1.len() && es1[k2]
                                                            == prr.timers.entries@[j0];
                                                    assert(self.timers.entries@[k2].task == i);
                                                } else {
                                                    assert(self.timers == prr.timers);
                                                    assert(self.timers.entries@[j0].task == i);
                                                }
                                            },
                                            _ => {
                                                assert(false);
                                            },
                                        }
                                    }
                                }
                            }
                            assert(Executor::direct_live(*self));
                        }
                    }
                } else {
                    proof {
                        if Executor::direct_live(s0) {
                            assert(Executor::direct_live(preq));
                            assert forall|i: int|
                                #![trigger self.tasks@[i]]
                                0 <= i < self.tasks@.len() && self.tasks@[i].result is None implies {
                                &&& (self.tasks@[i].body matches Body::Ret(_)
                                    || self.tasks@[i].body matches Body::Counter { .. })
                                &&& !(self.tasks@[i].status is WaitingJoin)
                                &&& (self.tasks@[i].status is Ready ==> self.ready@.contains(
                                    i as usize,
                                ))
                                &&& (self.tasks@[i].status is WaitingTimer ==> exists|j: int|
                                    0 <= j < self.timers.entries@.len()
                                        && self.timers.entries@[j].task == i)
                            } by {
                                assert(preq.tasks@[i].result is None);
                                assert(self.tasks@[i] == preq.tasks@[i]);
                                assert(self.timers == preq.timers);
                                if self.tasks@[i].status is Ready {
                                    assert(preq.ready@.contains(i as usize));
                                    let k0 = choose|k0: int|
                                        0 <= k0 < preq.ready@.len() && preq.ready@[k0]
                                            == i as usize;
                                    assert(preq.ready@[0] == id);
                                    assert(self.tasks@[id as int].status == st);
                                    if k0 == 0 {
                                        assert(i as usize == id);
                                        assert(self.tasks.len() == self.tasks@.len());
                                        assert(i == id as int);
                                        assert(false);
                                    }
                                    assert(self.ready@[k0 - 1] == preq.ready@[k0]);
                                }
                                if self.tasks@[i].status is WaitingTimer {
                                    let j0 = choose|j0: int|
                                        0 <= j0 < preq.timers.entries@.len()
                                            && preq.timers.entries@[j0].task == i;
                                    assert(self.timers.entries@[j0].task == i);
                                }
                            }
                            assert(Executor::direct_live(*self));
                        }
                    }
                }
            } else if self.timers.len() > 0 {
                let ghost pre0 = *self;
                let d = match self.timers.first_deadline() {
                    Some(dd) => dd,
                    None => {
                        proof {
                            assert(false);
                        }
                        0
                    },
                };
                if d > self.now {
                    self.now = d;
                }
                proof {
                    assert forall|i: int| 0 <= i < self.tasks@.len() implies self.task_wf(i) by {
                        assert(pre0.task_wf(i));
                    }
                }
                let ghost pre = *self;
                let due = self.timers.advance(self.now);
                proof {
                    if due@.len() == 0 {
                        assert(pre.timers.entries@[0].deadline > self.now);
                    }
                    assert(due@.len() >= 1);
                    assert forall|i: int| 0 <= i < self.tasks@.len() implies self.task_wf(i) by {
                        assert(pre.task_wf(i));
                    }
                    assert forall|k: int|
                        0 <= k < self.timers.entries@.len() implies (self.timers.entries@[
                        k].task as int) < self.tasks@.len() by {
                        assert(self.timers.entries@[k] == pre.timers.entries@[
                            k + due@.len() as int
                        ]);
                    }
                }
                let ghost mid = *self;
                proof {
                    if Executor::direct_live(s0) {
                        assert(Executor::direct_live(pre));
                        assert forall|i: int|
                            #![trigger mid.tasks@[i]]
                            0 <= i < mid.tasks@.len() && mid.tasks@[i].result is None
                                && mid.tasks@[i].status is WaitingTimer implies (exists|j: int|
                            0 <= j < mid.timers.entries@.len() && mid.timers.entries@[j].task
                                == i) || (exists|m: int|
                            0 <= m < due@.len() && due@[m] == i as usize) by {
                            assert(pre.tasks@[i].result is None);
                            let j0 = choose|j0: int|
                                0 <= j0 < pre.timers.entries@.len() && pre.timers.entries@[
                                j0].task == i;
                            if j0 < due@.len() {
                                assert(due@[j0] == pre.timers.entries@[j0].task);
                            } else {
                                assert(mid.timers.entries@[j0 - due@.len()] == pre.timers.entries@[
                                j0]);
                            }
                        }
                        assert(Executor::wake_inv(mid, due@, 0));
                    }
                }
                let mut k: usize = 0;
                while k < due.len()
                    invariant
                        self.wf(),
                        k <= due@.len(),
                        self.tasks@.len() == mid.tasks@.len(),
                        root < self.tasks@.len(),
                        forall|i: int|
                            0 <= i < due@.len() ==> (due@[i] as int) < self.tasks@.len(),
                        steps_sum(self.tasks@) == steps_sum(mid.tasks@),
                        self.timers == mid.timers,
                        self.now == mid.now,
                        self.resumes == mid.resumes,
                        self.log == mid.log,
                        forall|i: int|
                            0 <= i < self.tasks@.len() ==> self.tasks@[i].result
                                == mid.tasks@[i].result,
                        Executor::direct_live(s0) ==> Executor::wake_inv(*self, due@, k as int),
                    decreases due@.len() - k,
                {
                    let ghost prew = *self;
                    let idw = due[k];
                    let stw = self.tasks[idw].status;
                    if stw == Status::WaitingTimer {
                        let tw = self.tasks[idw].clone();
                        let nt = Task { status: Status::Ready, body: tw.body, result: None };
                        proof {
                            assert(prew.task_wf(idw as int));
                            lemma_steps_sum_update(self.tasks@, idw as int, nt);
                        }
                        self.tasks.set(idw, nt);
                        self.ready.push(idw);
                        proof {
                            assert forall|i: int|
                                0 <= i < self.tasks@.len() implies self.task_wf(i) by {
                                assert(prew.task_wf(i));
                                if i != idw {
                                    assert(self.tasks@[i] == prew.tasks@[i]);
                                }
                                assert(forall|j: int|
                                    0 <= j < self.tasks@.len() ==> self.tasks@[j].result
                                        == prew.tasks@[j].result);
                            }
                        }
                    }
                    proof {
                        if Executor::direct_live(s0) {
                            assert(Executor::wake_inv(prew, due@, k as int));
                            assert forall|i: int|
                                #![trigger self.tasks@[i]]
                                0 <= i < self.tasks@.len() && self.tasks@[i].result is None
                                    implies {
                                &&& (self.tasks@[i].body matches Body::Ret(_)
                                    || self.tasks@[i].body matches Body::Counter { .. })
                                &&& !(self.tasks@[i].status is WaitingJoin)
                                &&& (self.tasks@[i].status is Ready ==> self.ready@.contains(
                                    i as usize,
                                ))
                                &&& (self.tasks@[i].status is WaitingTimer ==> (exists|j: int|
                                    0 <= j < self.timers.entries@.len()
                                        && self.timers.entries@[j].task == i) || (exists|m: int|
                                    k + 1 <= m < due@.len() && due@[m] == i as usize))
                            } by {
                                assert(prew.tasks@[i].result is None);
                                assert(stw == prew.tasks@[idw as int].status);
                                if i == idw as int && stw == Status::WaitingTimer {
                                    assert(self.ready@[self.ready@.len() - 1] == idw);
                                    assert(self.ready@.contains(i as usize));
                                } else {
                                    assert(self.tasks@[i] == prew.tasks@[i]);
                                    if prew.tasks@[i].status is Ready {
                                        assert(prew.ready@.contains(i as usize));
                                        let k0 = choose|k0: int|
                                            0 <= k0 < prew.ready@.len() && prew.ready@[k0]
                                                == i as usize;
                                        assert(self.ready@[k0] == i as usize);
                                    }
                                    if prew.tasks@[i].status is WaitingTimer {
                                        assert(self.timers == prew.timers);
                                        if exists|j: int|
                                            0 <= j < prew.timers.entries@.len()
                                                && prew.timers.entries@[j].task == i {
                                            let j0 = choose|j0: int|
                                                0 <= j0 < prew.timers.entries@.len()
                                                    && prew.timers.entries@[j0].task == i;
                                            assert(self.timers.entries@[j0].task == i);
                                        } else {
                                            let m0 = choose|m0: int|
                                                k <= m0 < due@.len() && due@[m0] == i as usize;
                                            assert(due@[k as int] == idw);
                                            if m0 == k {
                                                assert(i as usize == idw);
                                                assert(self.tasks.len() == self.tasks@.len());
                                                assert(i == idw as int);
                                                assert(stw == Status::WaitingTimer);
                                                assert(false);
                                            }
                                            assert(m0 != k);
                                        }
                                    }
                                }
                            }
                            assert(Executor::wake_inv(*self, due@, k as int + 1));
                        }
                    }
                    k = k + 1;
                }
                proof {
                    if Executor::direct_live(s0) {
                        assert(Executor::wake_inv(*self, due@, due@.len() as int));
                        assert(Executor::direct_live(*self));
                    }
                }
            } else {
                proof {
                    assert(self.task_wf(root as int));
                    if Executor::direct_live(s0) {
                        assert(Executor::direct_live(*self));
                        assert(self.tasks@[root as int].result is None);
                        assert(false);
                    }
                }
                return Err(RunError::Deadlock);
            }
        }
    }

    /// The join law: in every well-formed executor state, a completed join
    /// task's value is the pair of its two children's completion values, in
    /// `(a, b)` argument order — whichever child was scheduled or finished
    /// first, and whatever else ran in between.
    pub proof fn lemma_join_pair(s: Executor, j: int, a: usize, b: usize)
        requires
            s.wf(),
            0 <= j < s.tasks@.len(),
            s.tasks@[j].body matches Body::Join { a: ja, b: jb, .. } && ja == a && jb == b,
            s.tasks@[j].status is Completed,
        ensures
            s.tasks@[a as int].result is Some,
            s.tasks@[b as int].result is Some,
            s.tasks@[j].result matches Some(Value::Pair(x, y))
                && Some(*x) == s.tasks@[a as int].result && Some(*y) == s.tasks@[b as int].result,
    {
        assert(s.task_wf(j));
    }
}

/// The instant a sleep started at `now` for `delay` ticks wakes: `now +
/// delay`, stopping at the largest representable instant.
pub open spec fn wake_at(now: u64, delay: u64) -> u64 {
    if now + delay <= u64::MAX {
        (now + delay) as u64
    } else {
        u64::MAX
    }
}

/// Adds two tick counts, stopping at the largest representable instant.
fn sat_add(a: u64, b: u64) -> (r: u64)
    ensures
        r == wake_at(a, b),
{
    if a <= u64::MAX - b {
        a + b
    } else {
        u64::MAX
    }
}

} // verus!
