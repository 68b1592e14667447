use frame_graph::async_queue::TaskQueue;

#[test]
fn tasks_leave_in_index_order_whatever_the_arrival_order() {
    let mut q: TaskQueue<&str> = TaskQueue::new();
    // T2 completes first: it waits, the runner is not started.
    assert!(!q.push(2, "T2"));
    assert_eq!(q.drain_ready(), Vec::<&str>::new());
    // T0 lands on the cursor: the runner must start.
    assert!(q.push(0, "T0"));
    assert!(!q.push(1, "T1"));
    assert_eq!(q.drain_ready(), vec!["T0", "T1", "T2"]);
    assert_eq!(q.next(), 3);
    assert!(!q.is_running());
}

#[test]
fn runner_stops_at_a_gap_and_restarts_on_the_missing_index() {
    let mut q: TaskQueue<u32> = TaskQueue::new();
    assert!(q.push(0, 10));
    assert!(!q.push(2, 12));
    assert_eq!(q.pop_next(), Some(10));
    assert_eq!(q.pop_next(), None);
    assert!(!q.is_running());
    assert!(q.push(1, 11));
    assert_eq!(q.pop_next(), Some(11));
    assert_eq!(q.pop_next(), Some(12));
    assert_eq!(q.next(), 3);
}

#[test]
fn push_while_running_does_not_start_a_second_runner() {
    let mut q: TaskQueue<u32> = TaskQueue::new();
    assert!(q.push(0, 1));
    assert!(q.is_running());
    assert_eq!(q.pop_next(), Some(1));
    assert!(!q.push(1, 2));
    assert_eq!(q.pop_next(), Some(2));
}

#[test]
fn reset_starts_the_next_frame_at_index_zero() {
    let mut q: TaskQueue<u32> = TaskQueue::new();
    q.push(0, 1);
    q.push(1, 2);
    assert_eq!(q.drain_ready(), vec![1, 2]);
    q.reset();
    assert_eq!(q.next(), 0);
    assert!(q.push(0, 3));
    assert_eq!(q.drain_ready(), vec![3]);
}

#[test]
fn drain_leaves_later_tasks_waiting_and_reset_keeps_them() {
    let mut q: TaskQueue<u32> = TaskQueue::new();
    q.push(0, 1);
    q.push(2, 3);
    assert_eq!(q.drain_ready(), vec![1]);
    assert_eq!(q.next(), 1);
    q.reset();
    assert_eq!(q.next(), 0);
    assert!(q.push(0, 7));
    assert_eq!(q.drain_ready(), vec![7]);
    assert!(q.push(1, 8));
    assert_eq!(q.drain_ready(), vec![8, 3]);
}
