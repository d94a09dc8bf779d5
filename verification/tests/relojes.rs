use tareas::timer::TimerQueue;

#[test]
fn advance_returns_due_entries_in_deadline_order() {
    let mut tq = TimerQueue::new();
    tq.schedule(1, 10);
    tq.schedule(2, 5);
    tq.schedule(3, 10);
    assert_eq!(tq.first_deadline(), Some(5));
    // Everything due at tick 10, earliest deadline first; the two entries
    // sharing deadline 10 keep the order they were scheduled in.
    let due = tq.advance(10);
    assert_eq!(due, vec![2, 1, 3]);
    assert_eq!(tq.len(), 0);
}

#[test]
fn advance_leaves_later_entries_in_place() {
    let mut tq = TimerQueue::new();
    tq.schedule(7, 3);
    tq.schedule(8, 9);
    let due = tq.advance(4);
    assert_eq!(due, vec![7]);
    assert_eq!(tq.len(), 1);
    assert_eq!(tq.first_deadline(), Some(9));
    assert_eq!(tq.advance(9), vec![8]);
}

#[test]
fn advance_on_an_empty_queue_returns_nothing() {
    let mut tq = TimerQueue::new();
    assert_eq!(tq.first_deadline(), None);
    assert_eq!(tq.advance(100), Vec::<usize>::new());
}

#[test]
fn equal_deadlines_keep_scheduling_order_across_many_entries() {
    let mut tq = TimerQueue::new();
    tq.schedule(4, 6);
    tq.schedule(5, 2);
    tq.schedule(6, 6);
    tq.schedule(7, 6);
    assert_eq!(tq.advance(1), Vec::<usize>::new());
    assert_eq!(tq.advance(2), vec![5]);
    assert_eq!(tq.advance(6), vec![4, 6, 7]);
}
