use vstd::prelude::*;

use crate::poll::Poll;
use crate::timer::TimerWait;

verus! {

/// How a scripted step suspends — or ends — the computation after the step
/// has appended its value to the shared log.
#[derive(Clone, Copy, Debug, PartialEq, Eq)]
pub enum Op {
    /// Wait until the timestamp source has advanced this many ticks past
    /// the instant at which the step ran.
    Sleep(u64),
    /// Hand control back to the executor once, then continue on the next
    /// poll.
    Yield,
    /// Complete the whole computation with a reported error outcome.
    Fail,
}

/// One step of a scripted computation: append `value` to the shared log,
/// then perform `op`.
#[derive(Clone, Copy, Debug, PartialEq, Eq)]
pub struct Step {
    pub value: u64,
    pub op: Op,
}

/// Why a task completed unsuccessfully. Both are outcomes the task itself
/// reports inside `Ready`; the executor retires them without interpreting
/// them.
#[derive(Clone, Copy, Debug, PartialEq, Eq)]
pub enum TaskError {
    /// A sleep target would overflow the range of the timestamp source: a
    /// configuration error, never a silently wrapped deadline.
    TargetOverflow,
    /// The computation reported its own failure.
    Failed,
}

/// The wake condition a suspended task has recorded: why it last reported
/// `Pending`, and so when it should be tried again.
#[derive(Clone, Copy, Debug, PartialEq, Eq)]
pub enum WaitCond {
    /// Waiting until the timestamp source reaches the timer's target.
    Timer(TimerWait),
    /// Yielded: eligible to run again on the very next readiness check.
    Yielded,
}

/// Whether a recorded wake condition is satisfied when the timestamp source
/// reads `now`.
pub open spec fn wait_ready(w: WaitCond, now: u64) -> bool {
    match w {
        WaitCond::Timer(t) => t.is_ready_at(now),
        WaitCond::Yielded => true,
    }
}

impl WaitCond {
    /// Pure check of the wake condition against the current timestamp.
    pub fn is_ready(&self, now: u64) -> (b: bool)
        ensures
            b == wait_ready(*self, now),
    {
        match self {
            WaitCond::Timer(t) => match t.poll(now) {
                Poll::Ready(_) => true,
                Poll::Pending => false,
            },
            WaitCond::Yielded => true,
        }
    }
}

/// The mathematical state of a task: its identity, its scripted program,
/// the position of the next step to run, and the recorded wake condition
/// while the task is suspended.
pub ghost struct TaskModel {
    pub id: u64,
    pub program: Seq<Step>,
    pub pc: nat,
    pub wait: Option<WaitCond>,
}

impl TaskModel {
    /// Well-formed: the position never runs past the end of the program.
    pub open spec fn wf(self) -> bool {
        self.pc <= self.program.len()
    }

    /// Whether the recorded wake condition, if any, is satisfied at `now`.
    /// A parked task whose condition is satisfied is moved back to the
    /// readiness queue by the executor's wake pass.
    pub open spec fn can_wake(self, now: u64) -> bool {
        match self.wait {
            Some(w) => wait_ready(w, now),
            None => false,
        }
    }
}

/// The values a stretch of steps appends to the shared log, in program
/// order.
pub open spec fn values_of(steps: Seq<Step>) -> Seq<u64> {
    steps.map_values(|s: Step| s.value)
}

/// Decrease measure of one `advance`: consuming a satisfied wake condition
/// and running one step both strictly shrink it.
pub open spec fn advance_measure(t: TaskModel) -> int {
    2 * (t.program.len() - t.pc) + (if t.wait is Some {
        1int
    } else {
        0int
    })
}

/// One `advance` call, as a mathematical function of the task state and the
/// current timestamp: the state the task is left in, the values it appends
/// to the shared log, and what it reports.
///
/// A satisfied wake condition is consumed first; the computation then runs
/// forward from exactly the position where it suspended, until a step
/// leaves it suspended again or the program ends. Each step appends its
/// value once, at the moment it runs: a sleep records a timer whose target
/// is captured from `now` at this instant (immediately ready when the
/// duration is zero, a fatal configuration error when the target would
/// overflow), and a yield leaves the task immediately runnable but reports
/// `Pending` exactly once.
pub open spec fn advance_model(t: TaskModel, now: u64) -> (TaskModel, Seq<u64>, Poll<
    Result<(), TaskError>,
>)
    decreases advance_measure(t),
{
    if !t.wf() {
        (t, Seq::empty(), Poll::Pending)
    } else if t.wait is Some {
        let w = t.wait.unwrap();
        if wait_ready(w, now) {
            advance_model(TaskModel { wait: None, ..t }, now)
        } else {
            (t, Seq::empty(), Poll::Pending)
        }
    } else if t.pc == t.program.len() {
        (t, Seq::empty(), Poll::Ready(Ok(())))
    } else {
        let s = t.program[t.pc as int];
        let t1 = TaskModel { pc: t.pc + 1, wait: None, ..t };
        match s.op {
            Op::Fail => (t1, seq![s.value], Poll::Ready(Err(TaskError::Failed))),
            Op::Yield => (
                TaskModel { wait: Some(WaitCond::Yielded), ..t1 },
                seq![s.value],
                Poll::Pending,
            ),
            Op::Sleep(d) => if now + d > u64::MAX {
                (t1, seq![s.value], Poll::Ready(Err(TaskError::TargetOverflow)))
            } else if d == 0 {
                let rest = advance_model(t1, now);
                (rest.0, seq![s.value] + rest.1, rest.2)
            } else {
                (
                    TaskModel {
                        wait: Some(WaitCond::Timer(TimerWait { target: (now + d) as u64 })),
                        ..t1
                    },
                    seq![s.value],
                    Poll::Pending,
                )
            },
        }
    }
}

/// Position preservation: an `advance` never moves the position backwards
/// and never re-runs an earlier step. The values it appends are exactly the
/// values of the steps from the old position to the new one, each appended
/// once, in program order; identity and program never change.
pub proof fn lemma_advance_position_preserving(t: TaskModel, now: u64)
    requires
        t.wf(),
    ensures
        advance_model(t, now).0.wf(),
        advance_model(t, now).0.id == t.id,
        advance_model(t, now).0.program == t.program,
        t.pc <= advance_model(t, now).0.pc,
        advance_model(t, now).1 == values_of(
            t.program.subrange(t.pc as int, advance_model(t, now).0.pc as int),
        ),
        (advance_model(t, now).2 is Pending) ==> (advance_model(t, now).0.wait is Some),
    decreases advance_measure(t),
{
    let r = advance_model(t, now);
    if t.wait is Some {
        let w = t.wait.unwrap();
        if wait_ready(w, now) {
            lemma_advance_position_preserving(TaskModel { wait: None, ..t }, now);
        } else {
            assert(r.1 =~= values_of(t.program.subrange(t.pc as int, t.pc as int)));
        }
    } else if t.pc == t.program.len() {
        assert(r.1 =~= values_of(t.program.subrange(t.pc as int, t.pc as int)));
    } else {
        let s = t.program[t.pc as int];
        let t1 = TaskModel { pc: t.pc + 1, wait: None, ..t };
        match s.op {
            Op::Sleep(d) => {
                if now + d <= u64::MAX && d == 0 {
                    lemma_advance_position_preserving(t1, now);
                    let rest = advance_model(t1, now);
                    assert(seq![s.value] + rest.1 =~= values_of(
                        t.program.subrange(t.pc as int, rest.0.pc as int),
                    ));
                } else {
                    assert(r.1 =~= values_of(t.program.subrange(t.pc as int, t.pc as int + 1)));
                }
            },
            _ => {
                assert(r.1 =~= values_of(t.program.subrange(t.pc as int, t.pc as int + 1)));
            },
        }
    }
}

/// A unit of kernel work, tracked end-to-end by the executor: a scripted
/// suspendable computation together with its identity and suspension state.
///
/// Every suspension point is an explicit state, not a saved call stack:
/// `pc` is the position of the next step and `wait` carries the recorded
/// wake condition while the task is suspended. Resuming therefore continues
/// exactly where the computation left off.
#[derive(Debug)]
pub struct Task {
    id: u64,
    program: Vec<Step>,
    pc: usize,
    wait: Option<WaitCond>,
}

impl View for Task {
    type V = TaskModel;

    closed spec fn view(&self) -> TaskModel {
        TaskModel { id: self.id, program: self.program@, pc: self.pc as nat, wait: self.wait }
    }
}

impl Task {
    /// A fresh task: runnable, positioned at the start of its program, with
    /// no wake condition recorded.
    pub fn new(id: u64, program: Vec<Step>) -> (t: Task)
        ensures
            t@.id == id,
            t@.program == program@,
            t@.pc == 0,
            t@.wait is None,
            t@.wf(),
    {
        Task { id, program, pc: 0, wait: None }
    }

    /// The task's identity, unique for the lifetime of its executor.
    pub fn id(&self) -> (i: u64)
        ensures
            i == self@.id,
    {
        self.id
    }

    /// The wake condition recorded while the task is suspended, if any.
    pub fn wait_cond(&self) -> (w: Option<WaitCond>)
        ensures
            w == self@.wait,
    {
        self.wait
    }

    /// Pure check of the recorded wake condition against the current
    /// timestamp.
    pub fn can_wake_now(&self, now: u64) -> (b: bool)
        ensures
            b == self@.can_wake(now),
    {
        match &self.wait {
            Some(w) => w.is_ready(now),
            None => false,
        }
    }

    /// Try to make progress now. Resumption is position-preserving: a
    /// satisfied wake condition is consumed first, then steps run from
    /// exactly where the computation left off — each appends its value to
    /// `log` once — until one suspends the task again or the program ends.
    pub fn advance(&mut self, now: u64, log: &mut Vec<u64>) -> (p: Poll<Result<(), TaskError>>)
        requires
            old(self)@.wf(),
        ensures
            final(self)@ == advance_model(old(self)@, now).0,
            final(log)@ == old(log)@ + advance_model(old(self)@, now).1,
            p == advance_model(old(self)@, now).2,
            final(self)@.wf(),
            final(self)@.id == old(self)@.id,
            final(self)@.program == old(self)@.program,
    {
        proof {
            lemma_advance_position_preserving(old(self)@, now);
        }
        let ghost t0 = old(self)@;
        #[verifier::loop_isolation(false)]
        loop
            invariant
                self@.wf(),
                advance_model(t0, now).0 == advance_model(self@, now).0,
                advance_model(t0, now).2 == advance_model(self@, now).2,
                old(log)@ + advance_model(t0, now).1 == log@ + advance_model(self@, now).1,
            decreases advance_measure(self@),
        {
            match self.wait {
                Some(w) => {
                    if w.is_ready(now) {
                        self.wait = None;
                    } else {
                        proof {
                            assert(log@ =~= log@ + advance_model(self@, now).1);
                        }
                        return Poll::Pending;
                    }
                },
                None => {
                    if self.pc == self.program.len() {
                        proof {
                            assert(log@ =~= log@ + advance_model(self@, now).1);
                        }
                        return Poll::Ready(Ok(()));
                    }
                    let s = self.program[self.pc];
                    let ghost before = self@;
                    log.push(s.value);
                    self.pc = self.pc + 1;
                    proof {
                        assert(log@ =~= log@.drop_last() + seq![s.value]);
                    }
                    match s.op {
                        Op::Fail => {
                            return Poll::Ready(Err(TaskError::Failed));
                        },
                        Op::Yield => {
                            self.wait = Some(WaitCond::Yielded);
                            return Poll::Pending;
                        },
                        Op::Sleep(d) => {
                            match TimerWait::try_new(now, d) {
                                None => {
                                    return Poll::Ready(Err(TaskError::TargetOverflow));
                                },
                                Some(t) => {
                                    match t.poll(now) {
                                        Poll::Ready(_) => {
                                            // the requested duration has
                                            // already elapsed: keep running
                                            proof {
                                                assert(log@.drop_last() + (seq![s.value]
                                                    + advance_model(self@, now).1) =~= log@
                                                    + advance_model(self@, now).1);
                                            }
                                        },
                                        Poll::Pending => {
                                            self.wait = Some(WaitCond::Timer(t));
                                            return Poll::Pending;
                                        },
                                    }
                                },
                            }
                        },
                    }
                },
            }
        }
    }
}

} // verus!
