use rustypi::sched::{Event, RunQueue, State, TaskId, CPU_WINDOW};

const INPUT: Event = Event(1);

fn none(_: TaskId) -> bool {
    false
}

/// One core: main (0), idle (1), a (2), b (3).
fn queue() -> RunQueue {
    let mut queue = RunQueue::new("main", 1);
    queue.add_idle("idle", 0);
    queue.add("a");
    queue.add("b");
    queue
}

fn order(queue: &mut RunQueue, picks: usize) -> Vec<usize> {
    (0..picks).map(|_| queue.pick_next(0, true, none).0).collect()
}

#[test]
fn preemption_rotates_through_ready_tasks_and_skips_idle() {
    let mut queue = queue();
    assert_eq!(order(&mut queue, 6), [2, 3, 0, 2, 3, 0]);
    assert_eq!(queue.state(TaskId(0)), Some(State::Running));
    assert_eq!(queue.state(TaskId(2)), Some(State::Ready));
}

#[test]
fn without_preemption_the_current_task_keeps_running() {
    let mut queue = queue();
    assert_eq!(queue.pick_next(0, false, none), TaskId(0));
    assert_eq!(queue.pick_next(0, false, none), TaskId(0));
}

#[test]
fn a_lone_task_keeps_running_and_idle_runs_when_nothing_can() {
    let mut queue = RunQueue::new("main", 1);
    let idle = queue.add_idle("idle", 0);
    assert_eq!(queue.pick_next(0, true, none), TaskId(0));
    queue.sleep_current(0, 100);
    assert_eq!(queue.pick_next(0, false, none), idle);
    // Idle gives way as soon as something is ready, even without preemption.
    queue.tick(0, 100);
    assert_eq!(queue.pick_next(0, false, none), TaskId(0));
}

#[test]
fn sleepers_wake_when_their_time_comes() {
    let mut queue = queue();
    queue.sleep_current(0, 1_000);
    assert_eq!(order(&mut queue, 3), [2, 3, 2]);
    queue.tick(0, 999);
    assert_eq!(queue.state(TaskId(0)), Some(State::Sleeping { until_us: 1_000 }));
    queue.tick(0, 1_000);
    assert_eq!(order(&mut queue, 3), [3, 0, 2]);
}

#[test]
fn waiting_tasks_run_again_once_notified() {
    let mut queue = queue();
    let seen = queue.generation(INPUT);
    queue.wait_current(0, INPUT, seen);
    assert_eq!(order(&mut queue, 3), [2, 3, 2]);
    assert!(!queue.notify(Event(2)));
    assert!(queue.notify(INPUT));
    assert_eq!(order(&mut queue, 2), [3, 0]);
}

#[test]
fn a_notify_after_looking_keeps_the_task_from_waiting() {
    let mut queue = queue();
    let seen = queue.generation(INPUT);
    // Another core notifies between the task checking its condition and waiting.
    queue.notify(INPUT);
    queue.wait_current(0, INPUT, seen);
    assert_eq!(queue.state(TaskId(0)), Some(State::Running));
    // With nothing new, it waits.
    queue.wait_current(0, INPUT, queue.generation(INPUT));
    assert_eq!(queue.state(TaskId(0)), Some(State::Waiting(INPUT)));
}

#[test]
fn blocked_tasks_run_again_only_when_woken_by_id() {
    let mut queue = queue();
    queue.block_current(0);
    assert!(!queue.notify(INPUT));
    assert_eq!(order(&mut queue, 3), [2, 3, 2]);
    assert!(!queue.wake(TaskId(3))); // not blocked
    assert!(queue.wake(TaskId(0)));
    assert_eq!(order(&mut queue, 2), [3, 0]);
}

#[test]
fn a_wake_before_blocking_keeps_the_task_from_blocking() {
    let mut queue = queue();
    assert!(!queue.wake(TaskId(0))); // it's running: the wake is kept
    queue.block_current(0);
    assert_eq!(queue.state(TaskId(0)), Some(State::Running));
    queue.block_current(0); // used up
    assert_eq!(queue.state(TaskId(0)), Some(State::Blocked));
}

#[test]
fn finished_tasks_are_never_picked_and_can_be_reaped() {
    let mut queue = queue();
    queue.pick_next(0, true, none); // a runs
    queue.finish_current(0);
    assert_eq!(queue.finished(), []); // still current: its stack is in use
    assert_eq!(queue.pick_next(0, true, none), TaskId(3));
    assert_eq!(queue.finished(), [TaskId(2)]);
    queue.remove(TaskId(2));
    assert_eq!(order(&mut queue, 3), [0, 3, 0]);
    assert_eq!(queue.state(TaskId(2)), None);
    assert!(!queue.wake(TaskId(2)));
}

#[test]
fn recent_cpu_use_covers_the_last_complete_window() {
    let mut queue = queue();
    let recent = |queue: &RunQueue| queue.tasks().iter().map(|t| t.recent_ticks).collect::<Vec<_>>();
    // main runs the first quarter of a window, then a the rest.
    for _ in 0..CPU_WINDOW / 4 {
        queue.tick(0, 0);
    }
    queue.pick_next(0, true, none);
    for _ in 0..CPU_WINDOW / 4 * 3 - 1 {
        queue.tick(0, 0);
    }
    assert_eq!(recent(&queue), [0, 0, 0, 0]); // the window isn't over yet
    queue.tick(0, 0);
    assert_eq!(recent(&queue), [CPU_WINDOW / 4, 0, CPU_WINDOW / 4 * 3, 0]);
    // A whole window of a keeps the figures until it completes, then replaces them.
    for _ in 0..CPU_WINDOW {
        queue.tick(0, 0);
    }
    assert_eq!(recent(&queue), [0, 0, CPU_WINDOW, 0]);
}

#[test]
fn interrupting_wakes_sleepers_and_waiters_and_is_kept_for_the_running() {
    let mut queue = queue();
    queue.sleep_current(0, 1_000);
    assert_eq!(queue.pick_next(0, false, none), TaskId(2));
    assert!(queue.interrupt(TaskId(0)));
    assert_eq!(queue.state(TaskId(0)), Some(State::Ready));
    queue.wait_current(0, INPUT, queue.generation(INPUT));
    assert_eq!(queue.pick_next(0, false, none), TaskId(3));
    assert!(queue.interrupt(TaskId(2)));
    queue.block_current(0);
    assert!(!queue.interrupt(TaskId(3))); // a blocked task waits for its lock
    assert!(!queue.interrupt(TaskId(99)));
    // A ready task's next sleep is cut short before it starts.
    assert!(!queue.interrupt(TaskId(0)));
    assert_eq!(queue.pick_next(0, false, none), TaskId(0));
    queue.sleep_current(0, 1_000);
    assert_eq!(queue.state(TaskId(0)), Some(State::Running));
    queue.sleep_current(0, 1_000);
    assert_eq!(queue.state(TaskId(0)), Some(State::Sleeping { until_us: 1_000 }));
}

#[test]
fn ticks_are_accounted_to_the_running_task() {
    let mut queue = queue();
    queue.tick(0, 0);
    queue.tick(0, 0);
    queue.pick_next(0, true, none);
    queue.tick(0, 0);
    let ticks: Vec<u64> = queue.tasks().iter().map(|t| t.ticks).collect();
    assert_eq!(ticks, [2, 0, 1, 0]);
}

/// Two cores: main (0) on core 0, idle0 (1), idle1 (2) running on core 1, a (3), b (4).
fn two_cores() -> RunQueue {
    let mut queue = RunQueue::new("main", 2);
    queue.add_idle("idle0", 0);
    queue.start_core("idle1", 1);
    queue.add("a");
    queue.add("b");
    queue
}

#[test]
fn cores_never_run_the_same_task() {
    let mut queue = two_cores();
    assert_eq!(queue.core_of(TaskId(2)), Some(1));
    for _ in 0..10 {
        let first = queue.pick_next(0, true, none);
        let second = queue.pick_next(1, true, none);
        assert_ne!(first, second);
        assert_eq!(queue.core_of(first), Some(0));
        assert_eq!(queue.core_of(second), Some(1));
    }
}

#[test]
fn each_core_idles_on_its_own_idle_task() {
    let mut queue = two_cores();
    // main and a run; b sleeps, so core 1 has nothing when a sleeps too.
    assert_eq!(queue.pick_next(1, false, none), TaskId(3));
    queue.pick_next(0, true, none); // main runs b next, then comes back
    queue.sleep_current(0, 10);
    assert_eq!(queue.pick_next(0, false, none), TaskId(0));
    queue.sleep_current(1, 10);
    assert_eq!(queue.pick_next(1, false, none), TaskId(2));
    queue.sleep_current(0, 10);
    assert_eq!(queue.pick_next(0, false, none), TaskId(1));
}

#[test]
fn a_task_another_core_is_leaving_waits() {
    let mut queue = two_cores();
    // Core 0 switches from main to a; until it is off main's stack, core 1 leaves it.
    assert_eq!(queue.pick_next(0, true, none), TaskId(3));
    assert_eq!(queue.pick_next(1, false, |id| id == TaskId(0)), TaskId(4));
    queue.sleep_current(1, 10);
    assert_eq!(queue.pick_next(1, false, |id| id == TaskId(0)), TaskId(2));
    assert_eq!(queue.pick_next(1, false, none), TaskId(0));
}

#[test]
fn only_core_0_measures_the_cpu_window_but_every_core_counts_ticks() {
    let mut queue = two_cores();
    queue.pick_next(1, false, none); // core 1 runs a
    for _ in 0..CPU_WINDOW {
        queue.tick(1, 0);
    }
    assert!(queue.tasks().iter().all(|t| t.recent_ticks == 0));
    for _ in 0..CPU_WINDOW {
        queue.tick(0, 0);
    }
    let recent: Vec<u64> = queue.tasks().iter().map(|t| t.recent_ticks).collect();
    assert_eq!(recent, [CPU_WINDOW, 0, 0, CPU_WINDOW, 0]);
}

#[test]
fn a_finished_task_is_reaped_only_once_no_core_runs_it() {
    let mut queue = two_cores();
    queue.pick_next(1, false, none); // core 1 runs a
    queue.finish_current(1);
    assert_eq!(queue.finished(), []);
    queue.pick_next(1, false, none);
    assert_eq!(queue.finished(), [TaskId(3)]);
}
