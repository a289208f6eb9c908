use coop_executor::executor::Executor;
use coop_executor::executor::Retired;
use coop_executor::task::Op;
use coop_executor::task::Step;
use coop_executor::task::TaskError;

fn steps(entries: &[(u64, Op)]) -> Vec<Step> {
    let mut v: Vec<Step> = Vec::new();
    for &(value, op) in entries {
        v.push(Step { value, op });
    }
    v
}

fn sleeper(base: u64, count: u64, period: u64) -> Vec<Step> {
    let mut v: Vec<Step> = Vec::new();
    for i in 0..count {
        v.push(Step { value: base + i, op: Op::Sleep(period) });
    }
    v
}

#[test]
fn fresh_executor_is_quiet() {
    let ex = Executor::new();
    assert!(ex.is_quiet());
    assert!(ex.log().is_empty());
    assert!(ex.retired().is_empty());
    assert!(ex.ready_ids().is_empty());
    assert!(ex.waiting_ids().is_empty());
}

#[test]
fn submission_queues_in_order() {
    let mut ex = Executor::new();
    let a = ex.submit(steps(&[(1, Op::Sleep(0))]));
    let b = ex.submit(steps(&[(2, Op::Sleep(0))]));
    let c = ex.submit(steps(&[(3, Op::Sleep(0))]));
    assert_eq!((a, b, c), (0, 1, 2));
    assert_eq!(ex.ready_ids(), vec![0, 1, 2]);
    assert!(ex.waiting_ids().is_empty());
}

#[test]
fn fifo_completion_in_submission_order() {
    // three tasks that never suspend: they retire strictly in submission
    // order, one per loop iteration
    let mut ex = Executor::new();
    ex.submit(steps(&[(1, Op::Sleep(0))]));
    ex.submit(steps(&[(2, Op::Sleep(0))]));
    ex.submit(steps(&[(3, Op::Sleep(0))]));
    ex.run(0, 10);
    assert!(ex.is_quiet());
    assert_eq!(ex.log(), &vec![1, 2, 3]);
    assert_eq!(
        ex.retired(),
        &vec![
            Retired { id: 0, outcome: Ok(()) },
            Retired { id: 1, outcome: Ok(()) },
            Retired { id: 2, outcome: Ok(()) },
        ]
    );
}

#[test]
fn yielding_tasks_interleave() {
    let mut ex = Executor::new();
    ex.submit(steps(&[(1, Op::Yield), (2, Op::Yield)]));
    ex.submit(steps(&[(5, Op::Yield), (6, Op::Yield)]));
    ex.run(0, 16);
    assert!(ex.is_quiet());
    assert_eq!(ex.log(), &vec![1, 5, 2, 6]);
    assert_eq!(
        ex.retired(),
        &vec![
            Retired { id: 0, outcome: Ok(()) },
            Retired { id: 1, outcome: Ok(()) },
        ]
    );
}

#[test]
fn interleaved_sleepers_match_the_fixture() {
    // one task logs 100..=103 sleeping one tick between entries, the other
    // 200..=203 sleeping two; the source starts at 1 and advances one tick
    // per loop iteration; the interleave is fully deterministic
    let mut ex = Executor::new();
    ex.submit(sleeper(100, 4, 1));
    ex.submit(sleeper(200, 4, 2));
    ex.run(1, 40);
    assert!(ex.is_quiet());
    assert_eq!(ex.log(), &vec![100, 200, 101, 102, 201, 103, 202, 203]);
    assert_eq!(
        ex.retired(),
        &vec![
            Retired { id: 0, outcome: Ok(()) },
            Retired { id: 1, outcome: Ok(()) },
        ]
    );
}

#[test]
fn no_task_is_ever_queued_and_waiting_at_once() {
    let mut ex = Executor::new();
    ex.submit(sleeper(100, 4, 1));
    ex.submit(sleeper(200, 4, 2));
    ex.submit(steps(&[(1, Op::Yield), (2, Op::Yield), (3, Op::Yield)]));
    let mut now: u64 = 1;
    while !ex.is_quiet() {
        ex.step(now);
        now += 1;
        let ready = ex.ready_ids();
        let waiting = ex.waiting_ids();
        for (i, r) in ready.iter().enumerate() {
            assert!(!waiting.contains(r));
            assert!(!ready[i + 1..].contains(r));
        }
        for (i, w) in waiting.iter().enumerate() {
            assert!(!waiting[i + 1..].contains(w));
        }
        assert!(now < 100, "run did not finish");
    }
    assert_eq!(ex.retired().len(), 3);
}

#[test]
fn waiting_registry_stays_sorted_by_handle() {
    let mut ex = Executor::new();
    // submitted in this order, but parked in reverse completion order
    ex.submit(steps(&[(1, Op::Sleep(9))]));
    ex.submit(steps(&[(2, Op::Sleep(5))]));
    ex.submit(steps(&[(3, Op::Sleep(7))]));
    ex.step(1);
    ex.step(1);
    ex.step(1);
    assert_eq!(ex.waiting_ids(), vec![0, 1, 2]);
}

#[test]
fn submissions_between_iterations_are_picked_up() {
    let mut ex = Executor::new();
    ex.submit(steps(&[(1, Op::Sleep(3))]));
    ex.step(1);
    // a later submission, as from deferred interrupt work, joins the queue
    ex.submit(steps(&[(2, Op::Sleep(0))]));
    ex.run(2, 10);
    assert!(ex.is_quiet());
    assert_eq!(ex.log(), &vec![1, 2]);
    assert_eq!(
        ex.retired(),
        &vec![
            Retired { id: 1, outcome: Ok(()) },
            Retired { id: 0, outcome: Ok(()) },
        ]
    );
}

#[test]
fn configuration_error_retires_the_task() {
    let mut ex = Executor::new();
    ex.submit(steps(&[(7, Op::Sleep(u64::MAX))]));
    ex.submit(steps(&[(8, Op::Fail)]));
    ex.run(1, 8);
    assert!(ex.is_quiet());
    assert_eq!(ex.log(), &vec![7, 8]);
    assert_eq!(
        ex.retired(),
        &vec![
            Retired { id: 0, outcome: Err(TaskError::TargetOverflow) },
            Retired { id: 1, outcome: Err(TaskError::Failed) },
        ]
    );
}

#[test]
fn idle_iterations_change_nothing() {
    let mut ex = Executor::new();
    ex.submit(steps(&[(1, Op::Sleep(10))]));
    // the only task parks itself at once: the queue is empty afterwards
    assert!(ex.step(1));
    // the task sleeps until 11: every pass in between reports idle
    for now in 2..=10 {
        assert!(ex.step(now));
        assert_eq!(ex.log(), &vec![1]);
        assert_eq!(ex.waiting_ids(), vec![0]);
    }
    assert!(!ex.step(11));
    ex.step(12);
    assert!(ex.is_quiet());
    assert_eq!(ex.retired(), &vec![Retired { id: 0, outcome: Ok(()) }]);
}
