use tareas::executor::Event;
use tareas::executor::Executor;
use tareas::executor::Resumed;
use tareas::executor::RunError;
use tareas::task::Body;
use tareas::task::ChildRef;
use tareas::value::Value;

fn num(n: u64) -> Value {
    Value::Num(n)
}

fn pair(a: u64, b: u64) -> Value {
    Value::Pair(Box::new(Value::Num(a)), Box::new(Value::Num(b)))
}

fn counter(from: u64, to: u64, delay: u64, ret: u64) -> Body {
    Body::Counter { next: from, end: to, delay, ret }
}

fn events_of(ex: &Executor, id: usize) -> Vec<u64> {
    ex.log.iter().filter(|e| e.task == id).map(|e| e.val).collect()
}

#[test]
fn block_on_immediate_task_returns_its_value() {
    let mut ex = Executor::new();
    let h = ex.spawn_task(Body::Ret(num(5)));
    assert_eq!(ex.block_on(h), Ok(num(5)));
}

#[test]
fn join_result_keeps_argument_order_when_second_child_finishes_first() {
    let mut ex = Executor::new();
    // `slow` needs two sleeps; `fast` completes on its first resume.
    let slow = ex.spawn_task(counter(1, 3, 5, 11));
    let fast = ex.spawn_task(Body::Ret(num(22)));
    let j = ex.spawn_join(slow, fast);
    assert_eq!(ex.block_on(j), Ok(pair(11, 22)));
}

#[test]
fn join_result_keeps_argument_order_when_first_child_finishes_first() {
    let mut ex = Executor::new();
    let fast = ex.spawn_task(Body::Ret(num(22)));
    let slow = ex.spawn_task(counter(1, 3, 5, 11));
    let j = ex.spawn_join(fast, slow);
    assert_eq!(ex.block_on(j), Ok(pair(22, 11)));
}

#[test]
fn equal_sleeps_wake_in_same_tick_in_spawn_order() {
    let mut ex = Executor::new();
    let a = ex.spawn_task(counter(1, 3, 7, 1));
    let b = ex.spawn_task(counter(1, 3, 7, 2));
    let j = ex.spawn_join(a, b);
    assert_eq!(ex.block_on(j), Ok(pair(1, 2)));
    // Both tasks sleep the same 7 ticks after each entry, so each tick logs
    // `a` first and then `b`: spawn order, never interleaved the other way.
    let expected = vec![
        Event { task: a, val: 1 },
        Event { task: b, val: 1 },
        Event { task: a, val: 2 },
        Event { task: b, val: 2 },
    ];
    assert_eq!(ex.log, expected);
}

#[test]
fn awaiting_a_spawned_handle_is_a_true_join() {
    let mut ex = Executor::new();
    // The root spawns a child on its first resume, logs ten entries with a
    // sleep after each, then awaits the child, which logs nine.
    let child = counter(1, 10, 1, 7);
    let root = Body::SpawnLoopAwait {
        child: ChildRef::Unspawned(Box::new(child)),
        next: 1,
        end: 11,
        delay: 1,
    };
    let rh = ex.spawn_task(root);
    assert_eq!(ex.block_on(rh), Ok(num(7)));
    // The child was task 1 (spawned after the root, task 0); all nine of its
    // iterations ran before block_on returned.
    assert_eq!(events_of(&ex, rh), (1..=10).collect::<Vec<u64>>());
    assert_eq!(events_of(&ex, 1), (1..=9).collect::<Vec<u64>>());
}

#[test]
fn join_of_two_counters_runs_both_to_completion() {
    let mut ex = Executor::new();
    let a = ex.spawn_task(counter(1, 10, 1, 1));
    let b = ex.spawn_task(counter(1, 5, 1, 2));
    let j = ex.spawn_join(a, b);
    assert_eq!(ex.block_on(j), Ok(pair(1, 2)));
    assert_eq!(events_of(&ex, a), (1..=9).collect::<Vec<u64>>());
    assert_eq!(events_of(&ex, b), (1..=4).collect::<Vec<u64>>());
    // Both children really completed: resuming either is a caller error.
    assert_eq!(ex.resume(a), Err(RunError::InvalidState));
    assert_eq!(ex.resume(b), Err(RunError::InvalidState));
}

#[test]
fn resuming_a_completed_task_fails_with_invalid_state() {
    let mut ex = Executor::new();
    let h = ex.spawn_task(Body::Ret(num(1)));
    assert_eq!(ex.block_on(h), Ok(num(1)));
    assert_eq!(ex.resume(h), Err(RunError::InvalidState));
}

#[test]
fn resuming_a_waiting_task_fails_with_invalid_state() {
    let mut ex = Executor::new();
    let h = ex.spawn_task(counter(1, 3, 4, 0));
    assert_eq!(ex.resume(h), Ok(Resumed::Suspended));
    // The task now sleeps until tick 4; it is not ready.
    assert_eq!(ex.resume(h), Err(RunError::InvalidState));
}

#[test]
fn direct_resume_reports_completion_value() {
    let mut ex = Executor::new();
    let h = ex.spawn_task(Body::Ret(num(33)));
    assert_eq!(ex.resume(h), Ok(Resumed::Completed(num(33))));
}

#[test]
fn completed_root_terminates_normally_with_empty_queues() {
    let mut ex = Executor::new();
    let h = ex.spawn_task(Body::Ret(num(9)));
    assert_eq!(ex.block_on(h), Ok(num(9)));
    assert_eq!(ex.ready.len(), 0);
    assert_eq!(ex.timers.entries.len(), 0);
    // Zero ready tasks and zero pending timers, yet no deadlock: the root
    // itself has completed, so block_on returns its value again.
    assert_eq!(ex.block_on(h), Ok(num(9)));
}

#[test]
fn stalled_run_fails_with_deadlock() {
    let mut ex = Executor::new();
    let h = ex.spawn_task(counter(1, 3, 1, 0));
    // Strand the root: nothing is ready and no timer is pending while it is
    // still incomplete.
    ex.ready.clear();
    assert_eq!(ex.block_on(h), Err(RunError::Deadlock));
}

#[test]
fn awaiting_a_handle_yields_the_completion_value() {
    let mut ex = Executor::new();
    let c = ex.spawn_task(counter(1, 2, 3, 42));
    let w = ex.spawn_task(Body::AwaitTask { handle: c });
    assert_eq!(ex.block_on(w), Ok(num(42)));
}

#[test]
fn sleep_schedules_a_wake_up_after_the_delay() {
    let mut ex = Executor::new();
    let h = ex.spawn_task(counter(1, 2, 4, 0));
    assert_eq!(ex.resume(h), Ok(Resumed::Suspended));
    assert_eq!(ex.timers.entries.len(), 1);
    assert_eq!(ex.timers.entries[0].deadline, 4);
    assert_eq!(ex.timers.entries[0].task, h);
}

#[test]
fn virtual_time_advances_to_the_earliest_deadline() {
    let mut ex = Executor::new();
    let h = ex.spawn_task(counter(1, 3, 10, 0));
    assert_eq!(ex.block_on(h), Ok(num(0)));
    assert_eq!(ex.now, 20);
}

#[test]
fn join_of_joins_nests_the_pairs() {
    let mut ex = Executor::new();
    let a = ex.spawn_task(Body::Ret(num(1)));
    let b = ex.spawn_task(Body::Ret(num(2)));
    let j1 = ex.spawn_join(a, b);
    let c = ex.spawn_task(Body::Ret(num(3)));
    let j2 = ex.spawn_join(j1, c);
    let expected = Value::Pair(Box::new(pair(1, 2)), Box::new(num(3)));
    assert_eq!(ex.block_on(j2), Ok(expected));
}

#[test]
fn block_on_returns_at_root_completion_without_draining_others() {
    let mut ex = Executor::new();
    let root = ex.spawn_task(Body::Ret(num(1)));
    let extra = ex.spawn_task(counter(1, 10, 1, 0));
    assert_eq!(ex.block_on(root), Ok(num(1)));
    // The abandoned task was spawned after the root and never awaited: the
    // run ends with the root, leaving the extra task behind, unresumed.
    assert_eq!(events_of(&ex, extra), Vec::<u64>::new());
}

#[test]
fn independent_counters_all_complete() {
    let mut ex = Executor::new();
    // Several independent sleepers: the run is owed success, never Deadlock.
    let a = ex.spawn_task(counter(1, 4, 3, 10));
    let b = ex.spawn_task(counter(1, 2, 9, 20));
    let c = ex.spawn_task(counter(1, 3, 1, 30));
    assert_eq!(ex.block_on(a), Ok(num(10)));
    assert_eq!(ex.block_on(b), Ok(num(20)));
    assert_eq!(ex.block_on(c), Ok(num(30)));
    assert_eq!(events_of(&ex, a), vec![1, 2, 3]);
    assert_eq!(events_of(&ex, b), vec![1]);
    assert_eq!(events_of(&ex, c), vec![1, 2]);
}
