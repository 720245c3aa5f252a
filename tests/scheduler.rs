use multicore_alloc::scheduler::{PollOutcome, Scheduler, TaskState};

#[test]
fn registered_tasks_run_in_round_robin_order() {
    let mut s = Scheduler::new(3);
    assert_eq!(s.next(), Some(0));
    assert_eq!(s.state(0), TaskState::Running);
    s.finish(0, PollOutcome::Suspended);
    assert_eq!(s.next(), Some(1));
    s.finish(1, PollOutcome::Suspended);
    assert_eq!(s.next(), Some(2));
    s.finish(2, PollOutcome::Completed);
    assert_eq!(s.next(), None);
    assert_eq!(s.state(0), TaskState::Suspended);
    assert_eq!(s.state(2), TaskState::Completed);
}

#[test]
fn empty_executor_idles() {
    let mut s = Scheduler::new(0);
    assert_eq!(s.next(), None);
}

#[test]
fn woken_task_runs_within_one_pass() {
    let mut s = Scheduler::new(4);
    for t in 0..4 {
        assert_eq!(s.next(), Some(t));
        s.finish(t, PollOutcome::Suspended);
    }
    // Task 1 waits on a receive; a send on the other core wakes it, and so
    // do events for tasks 3 and 0.
    s.wake(1);
    s.wake(3);
    s.wake(0);
    let mut picks = Vec::new();
    while let Some(t) = s.next() {
        picks.push(t);
        s.finish(t, PollOutcome::Suspended);
        if t == 1 {
            break;
        }
    }
    assert!(picks.len() <= 4);
    assert_eq!(picks, vec![0, 1]);
}

#[test]
fn waking_a_task_that_is_not_suspended_changes_nothing() {
    let mut s = Scheduler::new(2);
    s.wake(1);
    assert_eq!(s.state(1), TaskState::Pending);
    assert_eq!(s.next(), Some(0));
    s.wake(0);
    assert_eq!(s.state(0), TaskState::Running);
    s.finish(0, PollOutcome::Completed);
    s.wake(0);
    assert_eq!(s.state(0), TaskState::Completed);
    assert_eq!(s.next(), Some(1));
}

#[test]
fn cursor_wraps_past_the_last_task() {
    let mut s = Scheduler::new(3);
    for t in 0..3 {
        assert_eq!(s.next(), Some(t));
        s.finish(t, PollOutcome::Suspended);
    }
    s.wake(2);
    s.wake(1);
    // The cursor is back at task 0, so task 1 comes before task 2.
    assert_eq!(s.next(), Some(1));
    s.finish(1, PollOutcome::Suspended);
    assert_eq!(s.next(), Some(2));
}
