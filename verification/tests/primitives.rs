use coop_executor::poll::Poll;
use coop_executor::task::Op;
use coop_executor::task::Step;
use coop_executor::task::Task;
use coop_executor::task::TaskError;
use coop_executor::task::WaitCond;
use coop_executor::timer::TimerWait;
use coop_executor::yield_point::YieldOnce;

#[test]
fn timer_zero_duration_ready_on_first_poll() {
    let w = TimerWait::new(5, 0);
    assert_eq!(w.target, 5);
    assert_eq!(w.poll(5), Poll::Ready(()));
}

#[test]
fn timer_small_duration_pending_until_target() {
    let w = TimerWait::new(5, 3);
    assert_eq!(w.target, 8);
    assert_eq!(w.poll(5), Poll::Pending);
    assert_eq!(w.poll(6), Poll::Pending);
    assert_eq!(w.poll(7), Poll::Pending);
    assert_eq!(w.poll(8), Poll::Ready(()));
    assert_eq!(w.poll(9), Poll::Ready(()));
}

#[test]
fn timer_large_duration() {
    let w = TimerWait::new(0, u64::MAX);
    assert_eq!(w.poll(u64::MAX - 1), Poll::Pending);
    assert_eq!(w.poll(u64::MAX), Poll::Ready(()));
}

#[test]
fn timer_overflowing_target_is_rejected() {
    assert_eq!(TimerWait::try_new(2, u64::MAX), None);
    let w = TimerWait::try_new(1, u64::MAX - 1);
    assert_eq!(w, Some(TimerWait { target: u64::MAX }));
}

#[test]
fn yield_pending_then_ready() {
    let mut y = YieldOnce::new();
    assert_eq!(y.poll(), Poll::Pending);
    assert_eq!(y.poll(), Poll::Ready(()));
    assert_eq!(y.poll(), Poll::Ready(()));
}

#[test]
fn advance_after_pending_resumes_at_next_step() {
    // three steps, each suspending once: every advance after the first
    // Pending appends exactly one more entry, never re-running a step
    let program = vec![
        Step { value: 1, op: Op::Yield },
        Step { value: 2, op: Op::Yield },
        Step { value: 3, op: Op::Yield },
    ];
    let mut t = Task::new(0, program);
    let mut log: Vec<u64> = Vec::new();
    assert_eq!(t.advance(0, &mut log), Poll::Pending);
    assert_eq!(log, vec![1]);
    assert_eq!(t.advance(0, &mut log), Poll::Pending);
    assert_eq!(log, vec![1, 2]);
    assert_eq!(t.advance(0, &mut log), Poll::Pending);
    assert_eq!(log, vec![1, 2, 3]);
    assert_eq!(t.advance(0, &mut log), Poll::Ready(Ok(())));
    assert_eq!(log, vec![1, 2, 3]);
}

#[test]
fn zero_tick_sleeps_run_through_in_one_advance() {
    let program = vec![
        Step { value: 1, op: Op::Sleep(0) },
        Step { value: 2, op: Op::Sleep(0) },
    ];
    let mut t = Task::new(0, program);
    let mut log: Vec<u64> = Vec::new();
    assert_eq!(t.advance(7, &mut log), Poll::Ready(Ok(())));
    assert_eq!(log, vec![1, 2]);
}

#[test]
fn sleeping_task_stays_pending_until_target() {
    let program = vec![Step { value: 1, op: Op::Sleep(5) }];
    let mut t = Task::new(0, program);
    let mut log: Vec<u64> = Vec::new();
    assert_eq!(t.wait_cond(), None);
    assert_eq!(t.advance(10, &mut log), Poll::Pending);
    assert_eq!(log, vec![1]);
    // the target was captured once, at the suspension point: 10 + 5
    assert_eq!(
        t.wait_cond(),
        Some(WaitCond::Timer(TimerWait { target: 15 }))
    );
    // an unready wait logs nothing and re-runs nothing
    assert_eq!(t.advance(12, &mut log), Poll::Pending);
    assert_eq!(t.advance(14, &mut log), Poll::Pending);
    assert_eq!(log, vec![1]);
    assert_eq!(t.advance(15, &mut log), Poll::Ready(Ok(())));
    assert_eq!(log, vec![1]);
}

#[test]
fn overflowing_sleep_target_is_a_fatal_outcome() {
    let program = vec![Step { value: 7, op: Op::Sleep(u64::MAX) }];
    let mut t = Task::new(0, program);
    let mut log: Vec<u64> = Vec::new();
    assert_eq!(
        t.advance(1, &mut log),
        Poll::Ready(Err(TaskError::TargetOverflow))
    );
    assert_eq!(log, vec![7]);
}

#[test]
fn failing_step_reports_the_error_outcome() {
    let program = vec![
        Step { value: 1, op: Op::Sleep(0) },
        Step { value: 9, op: Op::Fail },
    ];
    let mut t = Task::new(0, program);
    let mut log: Vec<u64> = Vec::new();
    assert_eq!(t.advance(0, &mut log), Poll::Ready(Err(TaskError::Failed)));
    assert_eq!(log, vec![1, 9]);
}

#[test]
fn empty_program_completes_immediately() {
    let mut t = Task::new(3, Vec::new());
    let mut log: Vec<u64> = Vec::new();
    assert_eq!(t.advance(0, &mut log), Poll::Ready(Ok(())));
    assert!(log.is_empty());
}
