use vstd::prelude::*;

use crate::poll::Poll;
use crate::task::advance_model;
use crate::task::lemma_advance_position_preserving;
use crate::task::Op;
use crate::task::Step;
use crate::task::Task;
use crate::task::TaskError;
use crate::task::TaskModel;

verus! {

/// A retired task: its handle and the outcome it completed with. The
/// executor records outcomes without interpreting them; the submitting code
/// decides what a reported error means.
#[derive(Clone, Copy, Debug, PartialEq, Eq)]
pub struct Retired {
    pub id: u64,
    pub outcome: Result<(), TaskError>,
}

/// The handles of a row of task models, in order.
pub open spec fn ids_of(ts: Seq<TaskModel>) -> Seq<u64> {
    ts.map_values(|t: TaskModel| t.id)
}

/// Strictly ascending handles: the order the waiting registry is kept in.
pub open spec fn sorted_by_id(s: Seq<TaskModel>) -> bool {
    forall|i: int, j: int| #![trigger s[i], s[j]] 0 <= i < j < s.len() ==> s[i].id < s[j].id
}

/// Pairwise distinct handles.
pub open spec fn distinct_ids(s: Seq<TaskModel>) -> bool {
    forall|i: int, j: int| #![trigger s[i], s[j]] 0 <= i < j < s.len() ==> s[i].id != s[j].id
}

/// The mathematical state of the executor: the readiness queue in the order
/// tasks will be advanced, the waiting registry in ascending handle order,
/// the next fresh handle, the shared log, and the retired outcomes.
#[verifier::ext_equal]
pub ghost struct ExecModel {
    pub ready: Seq<TaskModel>,
    pub waiting: Seq<TaskModel>,
    pub next_id: u64,
    pub log: Seq<u64>,
    pub done: Seq<Retired>,
}

impl ExecModel {
    /// The tasks alive in the executor: the readiness queue, then the
    /// waiting registry.
    pub open spec fn live(self) -> Seq<TaskModel> {
        self.ready + self.waiting
    }

    /// The executor's invariant. In particular, no duplicate scheduling:
    /// handles are pairwise distinct across the readiness queue and the
    /// waiting registry together, so a task is never present in both at
    /// once. Parked tasks always carry a recorded wake condition, every
    /// live task is well-formed with a handle below the counter, and the
    /// registry is kept in ascending handle order — the deterministic
    /// tie-break for simultaneously woken tasks.
    pub open spec fn wf(self) -> bool {
        &&& (forall|i: int| 0 <= i < self.live().len() ==> (#[trigger] self.live()[i]).wf())
        &&& (forall|i: int|
            0 <= i < self.live().len() ==> (#[trigger] self.live()[i]).id < self.next_id)
        &&& distinct_ids(self.live())
        &&& (forall|i: int|
            0 <= i < self.waiting.len() ==> (#[trigger] self.waiting[i]).wait is Some)
        &&& sorted_by_id(self.waiting)
    }
}

/// The parked tasks that the wake pass moves back to the readiness queue
/// at `now`: those whose recorded wake condition is satisfied, in registry
/// order.
pub open spec fn woken(s: Seq<TaskModel>, now: u64) -> Seq<TaskModel> {
    s.filter(|t: TaskModel| t.can_wake(now))
}

/// The parked tasks the wake pass leaves in the registry at `now`.
pub open spec fn still_waiting(s: Seq<TaskModel>, now: u64) -> Seq<TaskModel> {
    s.filter(|t: TaskModel| !t.can_wake(now))
}

/// The wake pass: every parked task whose wake condition is satisfied at
/// `now` moves to the tail of the readiness queue. The registry is kept in
/// ascending handle order, so tasks woken in the same pass enter the queue
/// in submission order — deterministic, never random.
pub open spec fn wake_model(e: ExecModel, now: u64) -> ExecModel {
    ExecModel {
        ready: e.ready + woken(e.waiting, now),
        waiting: still_waiting(e.waiting, now),
        ..e
    }
}

/// Where in the registry a task with handle `id` belongs: after every
/// handle at most `id`.
pub open spec fn insert_pos(s: Seq<TaskModel>, id: u64) -> int
    decreases s.len(),
{
    if s.len() == 0 {
        0
    } else if s[0].id <= id {
        1 + insert_pos(s.drop_first(), id)
    } else {
        0
    }
}

/// Insertion into the waiting registry, keeping ascending handle order.
pub open spec fn insert_by_id(s: Seq<TaskModel>, t: TaskModel) -> Seq<TaskModel> {
    s.insert(insert_pos(s, t.id), t)
}

/// One iteration of the run loop, as a mathematical function of the state
/// and the current timestamp: pop the head of the readiness queue, if any,
/// and advance it — retiring it with its outcome when it reports `Ready`,
/// parking it in the waiting registry when it reports `Pending` — then run
/// the wake pass at the same instant.
pub open spec fn step_model(e: ExecModel, now: u64) -> ExecModel {
    if e.ready.len() == 0 {
        wake_model(e, now)
    } else {
        let t = e.ready[0];
        let rest = e.ready.drop_first();
        let r = advance_model(t, now);
        let e1 = match r.2 {
            Poll::Ready(outcome) => ExecModel {
                ready: rest,
                log: e.log + r.1,
                done: e.done.push(Retired { id: t.id, outcome }),
                ..e
            },
            Poll::Pending => ExecModel {
                ready: rest,
                waiting: insert_by_id(e.waiting, r.0),
                log: e.log + r.1,
                ..e
            },
        };
        wake_model(e1, now)
    }
}

/// The timestamps of a simulated run: `count` readings of a monotonic
/// source that starts at `start` and advances by one tick per loop
/// iteration.
pub open spec fn ticks(start: u64, count: nat) -> Seq<u64> {
    Seq::new(count, |i: int| (start + i) as u64)
}

/// Repeated run-loop iterations, one per timestamp reading.
pub open spec fn run_model(e: ExecModel, nows: Seq<u64>) -> ExecModel
    decreases nows.len(),
{
    if nows.len() == 0 {
        e
    } else {
        run_model(step_model(e, nows[0]), nows.drop_first())
    }
}

/// A loop pass moves nothing when no task is alive: with the readiness
/// queue and the waiting registry both empty, every further iteration
/// leaves the executor unchanged.
pub proof fn lemma_run_model_quiet(e: ExecModel, nows: Seq<u64>)
    requires
        e.ready.len() == 0,
        e.waiting.len() == 0,
    ensures
        run_model(e, nows) == e,
    decreases nows.len(),
{
    if nows.len() > 0 {
        assert(step_model(e, nows[0]) =~= e);
        lemma_run_model_quiet(e, nows.drop_first());
    }
}

/// `insert_pos` finds the position the registry's order demands: with a
/// sorted registry and a fresh handle, every earlier entry is below `id`
/// and every later one above it.
proof fn lemma_insert_pos_sorted(s: Seq<TaskModel>, id: u64)
    requires
        sorted_by_id(s),
        forall|k: int| 0 <= k < s.len() ==> (#[trigger] s[k]).id != id,
    ensures
        0 <= insert_pos(s, id) <= s.len(),
        forall|j: int| 0 <= j < insert_pos(s, id) ==> (#[trigger] s[j]).id < id,
        forall|j: int| insert_pos(s, id) <= j < s.len() ==> (#[trigger] s[j]).id > id,
    decreases s.len(),
{
    if s.len() > 0 && s[0].id <= id {
        let rest = s.drop_first();
        assert(forall|j: int| 0 <= j < rest.len() ==> rest[j] == s[j + 1]);
        lemma_insert_pos_sorted(rest, id);
        assert forall|j: int| 0 <= j < insert_pos(s, id) implies (#[trigger] s[j]).id < id by {
            if j > 0 {
                assert(s[j] == rest[j - 1]);
            }
        }
        assert forall|j: int| insert_pos(s, id) <= j < s.len() implies (#[trigger] s[j]).id
            > id by {
            assert(s[j] == rest[j - 1]);
        }
    }
}

/// `insert_pos` agrees with any position found by a linear scan for the
/// first handle above `id`.
proof fn lemma_insert_pos_unique(s: Seq<TaskModel>, id: u64, i: int)
    requires
        0 <= i <= s.len(),
        forall|j: int| 0 <= j < i ==> (#[trigger] s[j]).id < id,
        i < s.len() ==> s[i].id > id,
    ensures
        insert_pos(s, id) == i,
    decreases s.len(),
{
    if s.len() > 0 {
        if i == 0 {
        } else {
            let rest = s.drop_first();
            assert(forall|j: int| 0 <= j < rest.len() ==> rest[j] == s[j + 1]);
            lemma_insert_pos_unique(rest, id, i - 1);
        }
    }
}

/// Filtering keeps the registry's strictly ascending handle order.
proof fn lemma_filter_keeps_sorted(s: Seq<TaskModel>, pred: spec_fn(TaskModel) -> bool)
    requires
        sorted_by_id(s),
    ensures
        sorted_by_id(s.filter(pred)),
    decreases s.len(),
{
    reveal(Seq::filter);
    if s.len() > 0 {
        let dl = s.drop_last();
        assert(sorted_by_id(dl));
        lemma_filter_keeps_sorted(dl, pred);
        if pred(s.last()) {
            let f = dl.filter(pred);
            let g = f.push(s.last());
            assert(s.filter(pred) == g);
            assert forall|i: int, j: int|
                #![trigger g[i], g[j]]
                0 <= i < j < g.len() implies g[i].id < g[j].id by {
                if j < f.len() {
                    assert(g[i] == f[i] && g[j] == f[j]);
                } else {
                    assert(g[j] == s.last());
                    lemma_filter_element_of(dl, pred, i);
                    let k = choose|k: int| 0 <= k < dl.len() && dl[k] == f[i];
                    assert(s[k] == dl[k] && s.last() == s[s.len() - 1]);
                }
            }
        }
    }
}

/// A filtered registry holds only tasks of the original registry.
proof fn lemma_filter_element_of(s: Seq<TaskModel>, pred: spec_fn(TaskModel) -> bool, i: int)
    requires
        0 <= i < s.filter(pred).len(),
    ensures
        exists|k: int| 0 <= k < s.len() && s[k] == s.filter(pred)[i],
        pred(s.filter(pred)[i]),
{
    s.lemma_filter_pred(pred, i);
    let e = s.filter(pred)[i];
    assert(s.filter(pred).contains(e)) by {
        assert(s.filter(pred)[i] == e);
    }
    s.lemma_filter_contains_rev(pred, e);
    let k = choose|k: int| 0 <= k < s.len() && s[k] == e;
    assert(0 <= k < s.len() && s[k] == e);
}

/// No duplicate scheduling, preserved: one loop iteration keeps the
/// executor well-formed. Every task still appears in at most one of the
/// readiness queue and the waiting registry — never both, never twice —
/// handles stay distinct and below the counter, parked tasks keep a
/// recorded wake condition, and the registry stays in ascending handle
/// order.
pub proof fn lemma_step_preserves_wf(e: ExecModel, now: u64)
    requires
        e.wf(),
    ensures
        step_model(e, now).wf(),
{
    let e1 = if e.ready.len() == 0 {
        e
    } else {
        let t = e.ready[0];
        let rest = e.ready.drop_first();
        let r = advance_model(t, now);
        assert(e.live()[0] == e.ready[0]);
        lemma_advance_position_preserving(t, now);
        assert(forall|i: int| 0 <= i < rest.len() ==> rest[i] == e.ready[i + 1]);
        assert(forall|i: int|
            0 <= i < rest.len() ==> #[trigger] rest[i] == e.live()[i + 1]);
        assert(forall|i: int|
            0 <= i < e.waiting.len() ==> #[trigger] e.waiting[i] == e.live()[e.ready.len() + i]);
        match r.2 {
            Poll::Ready(outcome) => {
                let en = ExecModel {
                    ready: rest,
                    log: e.log + r.1,
                    done: e.done.push(Retired { id: t.id, outcome }),
                    ..e
                };
                assert(forall|i: int|
                    0 <= i < en.live().len() ==> #[trigger] en.live()[i] == e.live()[i + 1]);
                assert(en.wf());
                en
            },
            Poll::Pending => {
                let t2 = r.0;
                let w2 = insert_by_id(e.waiting, t2);
                assert forall|k: int| 0 <= k < e.waiting.len() implies (#[trigger] e.waiting[k]).id
                    != t2.id by {
                    assert(e.waiting[k] == e.live()[e.ready.len() + k]);
                    assert(e.live()[0].id != e.live()[e.ready.len() + k].id);
                }
                lemma_insert_pos_sorted(e.waiting, t2.id);
                let p = insert_pos(e.waiting, t2.id);
                assert(forall|i: int| 0 <= i < p ==> #[trigger] w2[i] == e.waiting[i]);
                assert(w2[p] == t2);
                assert(forall|i: int|
                    p < i < w2.len() ==> #[trigger] w2[i] == e.waiting[i - 1]);
                let en = ExecModel {
                    ready: rest,
                    waiting: w2,
                    log: e.log + r.1,
                    ..e
                };
                assert(sorted_by_id(w2));
                assert forall|i: int| 0 <= i < en.live().len() implies (#[trigger] en.live()[
                    i
                ]).wf() && en.live()[i].id < en.next_id by {
                    lemma_live_elem(e, en, t2, p, i);
                }
                assert forall|i: int, j: int|
                    #![trigger en.live()[i], en.live()[j]]
                    0 <= i < j < en.live().len() implies en.live()[i].id != en.live()[j].id by {
                    lemma_live_elem(e, en, t2, p, i);
                    lemma_live_elem(e, en, t2, p, j);
                }
                assert(forall|i: int|
                    0 <= i < en.waiting.len() ==> (#[trigger] en.waiting[i]).wait is Some);
                assert(en.wf());
                en
            },
        }
    };
    assert(e1.wf());
    lemma_wake_preserves_wf(e1, now);
    assert(step_model(e, now) == wake_model(e1, now));
}

/// Each element of the executor after a pop-advance-park iteration is
/// either a task the executor already held or the advanced head, and two
/// distinct positions never hold tasks with equal handles.
proof fn lemma_live_elem(e: ExecModel, en: ExecModel, t2: TaskModel, p: int, i: int)
    requires
        e.wf(),
        e.ready.len() > 0,
        0 <= p <= e.waiting.len(),
        en.ready == e.ready.drop_first(),
        en.waiting == e.waiting.insert(p, t2),
        t2.wf(),
        t2.id == e.ready[0].id,
        0 <= i < en.live().len(),
    ensures
        en.live()[i].wf(),
        en.live()[i].id < e.next_id,
        en.live()[i].id == t2.id <==> i == en.ready.len() + p,
        i != en.ready.len() + p ==> exists|k: int|
            1 <= k < e.live().len() && e.live()[k] == en.live()[i],
    decreases 0int,
{
    let n = en.ready.len();
    assert(forall|j: int| 0 <= j < n ==> #[trigger] en.ready[j] == e.live()[j + 1]);
    assert(forall|j: int| 0 <= j < p ==> #[trigger] en.waiting[j] == e.waiting[j]);
    assert(en.waiting[p] == t2);
    assert(forall|j: int|
        p < j < en.waiting.len() ==> #[trigger] en.waiting[j] == e.waiting[j - 1]);
    assert(forall|j: int|
        0 <= j < e.waiting.len() ==> #[trigger] e.waiting[j] == e.live()[e.ready.len() + j]);
    if i < n {
        assert(en.live()[i] == e.live()[i + 1]);
        assert(e.live()[i + 1].id != e.live()[0].id);
    } else if i == n + p {
        assert(en.live()[i] == t2);
        assert(e.live()[0].id < e.next_id);
    } else if i < n + p {
        assert(en.live()[i] == en.waiting[i - n]);
        assert(en.live()[i] == e.live()[i + 1]);
        assert(e.live()[i + 1].id != e.live()[0].id);
    } else {
        assert(en.live()[i] == en.waiting[i - n]);
        assert(en.live()[i] == e.live()[i]);
        assert(e.live()[i].id != e.live()[0].id);
    }
}

/// The wake pass keeps the executor well-formed: it only moves tasks from
/// the registry to the queue's tail, never duplicating one.
pub proof fn lemma_wake_preserves_wf(e: ExecModel, now: u64)
    requires
        e.wf(),
    ensures
        wake_model(e, now).wf(),
{
    let ew = wake_model(e, now);
    let wk = woken(e.waiting, now);
    let sw = still_waiting(e.waiting, now);
    lemma_filter_keeps_sorted(e.waiting, |t: TaskModel| !t.can_wake(now));
    assert forall|i: int| 0 <= i < ew.live().len() implies (#[trigger] ew.live()[i]).wf() by {
        lemma_wake_elem(e, now, i);
    }
    assert forall|i: int| 0 <= i < ew.live().len() implies (#[trigger] ew.live()[i]).id
        < ew.next_id by {
        lemma_wake_elem(e, now, i);
    }
    assert forall|i: int| 0 <= i < ew.waiting.len() implies (#[trigger] ew.waiting[i]).wait
        is Some by {
        assert(ew.live()[ew.ready.len() + i] == ew.waiting[i]);
        lemma_wake_elem(e, now, ew.ready.len() + i);
    }
    assert forall|i: int, j: int|
        #![trigger ew.live()[i], ew.live()[j]]
        0 <= i < j < ew.live().len() implies ew.live()[i].id != ew.live()[j].id by {
        lemma_wake_distinct(e, now, i, j);
    }
    assert(ew.wf());
}

/// Every position after the wake pass holds a task the executor already
/// held, with the same well-formedness facts.
proof fn lemma_wake_elem(e: ExecModel, now: u64, i: int)
    requires
        e.wf(),
        0 <= i < wake_model(e, now).live().len(),
    ensures
        wake_model(e, now).live()[i].wf(),
        wake_model(e, now).live()[i].id < e.next_id,
        i >= wake_model(e, now).ready.len() ==> wake_model(e, now).live()[i].wait is Some,
        exists|k: int| 0 <= k < e.live().len() && e.live()[k] == wake_model(e, now).live()[i],
{
    let ew = wake_model(e, now);
    let n0 = e.ready.len() as int;
    let wk = woken(e.waiting, now);
    let sw = still_waiting(e.waiting, now);
    assert(forall|j: int|
        0 <= j < e.waiting.len() ==> #[trigger] e.waiting[j] == e.live()[n0 + j]);
    if i < n0 {
        assert(ew.live()[i] == e.live()[i]);
    } else if i < n0 + wk.len() {
        assert(ew.live()[i] == wk[i - n0]);
        lemma_filter_element_of(e.waiting, |t: TaskModel| t.can_wake(now), i - n0);
        let k = choose|k: int| 0 <= k < e.waiting.len() && e.waiting[k] == wk[i - n0];
        assert(e.live()[n0 + k] == ew.live()[i]);
        assert(e.waiting[k].wait is Some);
    } else {
        assert(ew.live()[i] == sw[i - n0 - wk.len()]);
        lemma_filter_element_of(e.waiting, |t: TaskModel| !t.can_wake(now), i - n0 - wk.len());
        let k = choose|k: int|
            0 <= k < e.waiting.len() && e.waiting[k] == sw[i - n0 - wk.len()];
        assert(e.live()[n0 + k] == ew.live()[i]);
        assert(e.waiting[k].wait is Some);
    }
}

/// Two distinct positions after the wake pass never hold tasks with equal
/// handles: the pass moves tasks, it never copies one.
proof fn lemma_wake_distinct(e: ExecModel, now: u64, i: int, j: int)
    requires
        e.wf(),
        0 <= i < j < wake_model(e, now).live().len(),
    ensures
        wake_model(e, now).live()[i].id != wake_model(e, now).live()[j].id,
{
    let ew = wake_model(e, now);
    let n0 = e.ready.len() as int;
    let wk = woken(e.waiting, now);
    let sw = still_waiting(e.waiting, now);
    let pw = |t: TaskModel| t.can_wake(now);
    let ps = |t: TaskModel| !t.can_wake(now);
    assert(forall|l: int|
        0 <= l < e.waiting.len() ==> #[trigger] e.waiting[l] == e.live()[n0 + l]);
    lemma_filter_keeps_sorted(e.waiting, pw);
    lemma_filter_keeps_sorted(e.waiting, ps);
    let a = ew.live()[i];
    let b = ew.live()[j];
    if i < n0 {
        assert(a == e.live()[i]);
        if j < n0 {
            assert(b == e.live()[j]);
        } else if j < n0 + wk.len() {
            lemma_filter_element_of(e.waiting, pw, j - n0);
            let k = choose|k: int| 0 <= k < e.waiting.len() && e.waiting[k] == b;
            assert(b == e.live()[n0 + k]);
        } else {
            lemma_filter_element_of(e.waiting, ps, j - n0 - wk.len());
            let k = choose|k: int| 0 <= k < e.waiting.len() && e.waiting[k] == b;
            assert(b == e.live()[n0 + k]);
        }
    } else if i < n0 + wk.len() {
        assert(a == wk[i - n0]);
        if j < n0 + wk.len() {
            // two woken tasks: the filter of a strictly sorted registry is
            // strictly sorted
            assert(wk[i - n0].id < wk[j - n0].id);
        } else {
            // one woken, one still parked: their wake checks disagree, so
            // they are different registry entries
            lemma_filter_element_of(e.waiting, pw, i - n0);
            lemma_filter_element_of(e.waiting, ps, j - n0 - wk.len());
            let ka = choose|k: int| 0 <= k < e.waiting.len() && e.waiting[k] == a;
            let kb = choose|k: int| 0 <= k < e.waiting.len() && e.waiting[k] == b;
            assert(pw(a) && ps(b));
            assert(ka != kb);
            assert(a == e.live()[n0 + ka] && b == e.live()[n0 + kb]);
        }
    } else {
        assert(a == sw[i - n0 - wk.len()] && b == sw[j - n0 - wk.len()]);
        assert(a.id < b.id);
    }
}

/// A task that never suspends: freshly submitted, with every step sleeping
/// for zero ticks, so a single `advance` runs it to completion.
pub open spec fn never_suspends(t: TaskModel) -> bool {
    &&& t.pc == 0
    &&& t.wait is None
    &&& forall|i: int| 0 <= i < t.program.len() ==> (#[trigger] t.program[i]).op == Op::Sleep(0)
}

/// One `advance` completes a task whose remaining steps all sleep zero
/// ticks, with the success outcome.
proof fn lemma_advance_runs_to_end(t: TaskModel, now: u64)
    requires
        t.wf(),
        t.wait is None,
        forall|i: int| 0 <= i < t.program.len() ==> (#[trigger] t.program[i]).op == Op::Sleep(0),
    ensures
        advance_model(t, now).2 == Poll::<Result<(), TaskError>>::Ready(Ok(())),
    decreases t.program.len() - t.pc,
{
    if t.pc < t.program.len() {
        let t1 = TaskModel { pc: t.pc + 1, wait: None, ..t };
        lemma_advance_runs_to_end(t1, now);
    }
}

/// The retirements of a row of tasks all completing with success, in
/// order.
pub open spec fn all_ok(ts: Seq<TaskModel>) -> Seq<Retired> {
    ts.map_values(|t: TaskModel| Retired { id: t.id, outcome: Ok(()) })
}

/// FIFO fairness among equally-ready tasks: with nothing waiting and only
/// never-suspending tasks queued, the run loop retires exactly one task per
/// iteration, in submission order — whatever the timestamp source reads —
/// and ends with no task alive.
pub proof fn lemma_fifo_completion(e: ExecModel, nows: Seq<u64>)
    requires
        e.wf(),
        e.waiting.len() == 0,
        nows.len() == e.ready.len(),
        forall|i: int| 0 <= i < e.ready.len() ==> never_suspends(#[trigger] e.ready[i]),
    ensures
        run_model(e, nows).done == e.done + all_ok(e.ready),
        run_model(e, nows).ready.len() == 0,
        run_model(e, nows).waiting.len() == 0,
    decreases nows.len(),
{
    if nows.len() == 0 {
        assert(e.done + all_ok(e.ready) =~= e.done);
    } else {
        let now = nows[0];
        let t = e.ready[0];
        assert(e.live()[0] == t);
        lemma_advance_runs_to_end(t, now);
        lemma_advance_position_preserving(t, now);
        lemma_step_preserves_wf(e, now);
        let e2 = step_model(e, now);
        let rest = e.ready.drop_first();
        let r = advance_model(t, now);
        let x = Retired { id: t.id, outcome: Ok(()) };
        assert(woken(e.waiting, now) =~= Seq::<TaskModel>::empty());
        assert(still_waiting(e.waiting, now) =~= Seq::<TaskModel>::empty());
        assert(e2.ready =~= rest);
        assert(e2.waiting.len() == 0);
        assert(e2.done == e.done.push(x));
        assert(forall|i: int| 0 <= i < rest.len() ==> rest[i] == e.ready[i + 1]);
        assert forall|i: int| 0 <= i < e2.ready.len() implies never_suspends(
            #[trigger] e2.ready[i],
        ) by {
            assert(e2.ready[i] == e.ready[i + 1]);
        }
        lemma_fifo_completion(e2, nows.drop_first());
        assert(run_model(e, nows) == run_model(e2, nows.drop_first()));
        assert(e2.done + all_ok(e2.ready) =~= e.done + all_ok(e.ready)) by {
            assert forall|i: int|
                0 <= i < e.done.len() + e.ready.len() implies (e2.done + all_ok(e2.ready))[i] == (
            e.done + all_ok(e.ready))[i] by {
                if i < e.done.len() {
                } else if i == e.done.len() {
                    assert((e.done + all_ok(e.ready))[i] == all_ok(e.ready)[0]);
                    assert(all_ok(e.ready)[0] == x);
                } else {
                    let j = i - e.done.len();
                    assert((e.done + all_ok(e.ready))[i] == all_ok(e.ready)[j]);
                    assert((e2.done + all_ok(e2.ready))[i] == all_ok(e2.ready)[j - 1]);
                    assert(all_ok(e2.ready)[j - 1] == all_ok(e.ready)[j]);
                }
            }
        }
    }
}

/// The models of a row of tasks.
pub open spec fn models_of(ts: Seq<Task>) -> Seq<TaskModel> {
    ts.map_values(|t: Task| t@)
}

/// The model of a freshly submitted task: runnable, at the start of its
/// program.
pub open spec fn submitted_model(id: u64, program: Seq<Step>) -> TaskModel {
    TaskModel { id, program, pc: 0, wait: None }
}

/// The cooperative executor: it owns every submitted task, decides which to
/// advance next, and retires completed ones.
///
/// Scheduling is strictly single-context and non-preemptive: control leaves
/// a task only when the task itself reports `Pending` at a suspension
/// point. The readiness queue is FIFO — the first submitted among the
/// currently runnable tasks runs first — and tasks woken in the same pass
/// enter the queue in submission order, so scheduling is deterministic.
pub struct Executor {
    ready: Vec<Task>,
    waiting: Vec<Task>,
    next_id: u64,
    log: Vec<u64>,
    done: Vec<Retired>,
}

impl View for Executor {
    type V = ExecModel;

    closed spec fn view(&self) -> ExecModel {
        ExecModel {
            ready: models_of(self.ready@),
            waiting: models_of(self.waiting@),
            next_id: self.next_id,
            log: self.log@,
            done: self.done@,
        }
    }
}

impl Executor {
    /// An executor with no tasks, an empty log, and no retired outcomes.
    pub fn new() -> (e: Executor)
        ensures
            e@.ready.len() == 0,
            e@.waiting.len() == 0,
            e@.log.len() == 0,
            e@.done.len() == 0,
            e@.next_id == 0,
            e@.wf(),
    {
        Executor {
            ready: Vec::new(),
            waiting: Vec::new(),
            next_id: 0,
            log: Vec::new(),
            done: Vec::new(),
        }
    }

    /// Submit a unit of work: the task enters the readiness queue at the
    /// tail, runnable, and is visible to the run loop from its next
    /// iteration. Returns the task's handle; handles count up from zero in
    /// submission order and are never reused, so they stay unique for the
    /// executor's lifetime.
    pub fn submit(&mut self, program: Vec<Step>) -> (id: u64)
        requires
            old(self)@.wf(),
            old(self)@.next_id < u64::MAX,
        ensures
            final(self)@.wf(),
            id == old(self)@.next_id,
            final(self)@.next_id == old(self)@.next_id + 1,
            final(self)@.ready == old(self)@.ready.push(submitted_model(id, program@)),
            final(self)@.waiting == old(self)@.waiting,
            final(self)@.log == old(self)@.log,
            final(self)@.done == old(self)@.done,
    {
        let id = self.next_id;
        let t = Task::new(id, program);
        self.ready.push(t);
        self.next_id = self.next_id + 1;
        proof {
            let m0 = old(self)@;
            let m1 = self@;
            assert(m1.ready =~= m0.ready.push(t@));
            assert(t@ == submitted_model(id, program@));
            assert(forall|i: int|
                0 <= i < m0.live().len() ==> #[trigger] m0.live()[i] == m1.live()[
                    if i < m0.ready.len() { i } else { i + 1 }
                ]);
            assert forall|i: int| 0 <= i < m1.live().len() implies (#[trigger] m1.live()[i]).wf()
                && m1.live()[i].id < m1.next_id by {
                if i < m0.ready.len() {
                    assert(m1.live()[i] == m0.live()[i]);
                } else if i == m0.ready.len() {
                    assert(m1.live()[i] == t@);
                } else {
                    assert(m1.live()[i] == m0.live()[i - 1]);
                }
            }
            assert forall|i: int, j: int|
                #![trigger m1.live()[i], m1.live()[j]]
                0 <= i < j < m1.live().len() implies m1.live()[i].id != m1.live()[j].id by {
                let a = if i < m0.ready.len() { i } else { i - 1 };
                let b = if j < m0.ready.len() { j } else { j - 1 };
                if i == m0.ready.len() {
                    assert(m1.live()[j] == m0.live()[b]);
                } else if j == m0.ready.len() {
                    assert(m1.live()[i] == m0.live()[a]);
                } else {
                    assert(m1.live()[i] == m0.live()[a] && m1.live()[j] == m0.live()[b]);
                }
            }
            assert(forall|i: int|
                0 <= i < m1.waiting.len() ==> #[trigger] m1.waiting[i] == m0.waiting[i]);
        }
        id
    }

    /// The shared log, in the order the tasks appended to it.
    pub fn log(&self) -> (l: &Vec<u64>)
        ensures
            l@ == self@.log,
    {
        &self.log
    }

    /// The retired tasks with their outcomes, in completion order.
    pub fn retired(&self) -> (r: &Vec<Retired>)
        ensures
            r@ == self@.done,
    {
        &self.done
    }

    /// The handles of the tasks in the readiness queue, in queue order.
    pub fn ready_ids(&self) -> (ids: Vec<u64>)
        ensures
            ids@ == ids_of(self@.ready),
    {
        let mut ids: Vec<u64> = Vec::new();
        let mut i: usize = 0;
        #[verifier::loop_isolation(false)]
        while i < self.ready.len()
            invariant
                i <= self.ready.len(),
                ids@ =~= ids_of(self@.ready).subrange(0, i as int),
            decreases self.ready.len() - i,
        {
            ids.push(self.ready[i].id());
            i = i + 1;
        }
        proof {
            assert(ids@ =~= ids_of(self@.ready));
        }
        ids
    }

    /// The handles of the tasks in the waiting registry, in ascending
    /// order.
    pub fn waiting_ids(&self) -> (ids: Vec<u64>)
        ensures
            ids@ == ids_of(self@.waiting),
    {
        let mut ids: Vec<u64> = Vec::new();
        let mut i: usize = 0;
        #[verifier::loop_isolation(false)]
        while i < self.waiting.len()
            invariant
                i <= self.waiting.len(),
                ids@ =~= ids_of(self@.waiting).subrange(0, i as int),
            decreases self.waiting.len() - i,
        {
            ids.push(self.waiting[i].id());
            i = i + 1;
        }
        proof {
            assert(ids@ =~= ids_of(self@.waiting));
        }
        ids
    }

    /// The handle the next submission will receive.
    pub fn next_handle(&self) -> (h: u64)
        ensures
            h == self@.next_id,
    {
        self.next_id
    }

    /// True when no task is alive: nothing runnable, nothing waiting.
    pub fn is_quiet(&self) -> (b: bool)
        ensures
            b == (self@.live().len() == 0),
    {
        self.ready.is_empty() && self.waiting.is_empty()
    }

    /// Park a suspended task in the waiting registry, which is kept in
    /// ascending handle order.
    fn park(&mut self, t: Task)
        requires
            sorted_by_id(old(self)@.waiting),
            forall|k: int|
                0 <= k < old(self)@.waiting.len() ==> (#[trigger] old(self)@.waiting[k]).id
                    != t@.id,
        ensures
            final(self)@.waiting == insert_by_id(old(self)@.waiting, t@),
            final(self)@.ready == old(self)@.ready,
            final(self)@.next_id == old(self)@.next_id,
            final(self)@.log == old(self)@.log,
            final(self)@.done == old(self)@.done,
    {
        let mut i: usize = 0;
        #[verifier::loop_isolation(false)]
        while i < self.waiting.len() && self.waiting[i].id() < t.id()
            invariant
                i <= self.waiting.len(),
                forall|j: int| 0 <= j < i ==> (#[trigger] self@.waiting[j]).id < t@.id,
            decreases self.waiting.len() - i,
        {
            i = i + 1;
        }
        proof {
            if i < self.waiting.len() {
                assert(self@.waiting[i as int].id >= t@.id);
                assert(self@.waiting[i as int].id != t@.id);
            }
            lemma_insert_pos_unique(self@.waiting, t@.id, i as int);
        }
        self.waiting.insert(i, t);
        proof {
            assert(models_of(self.waiting@) =~= insert_by_id(old(self)@.waiting, t@));
        }
    }

    /// The wake pass: re-evaluate the whole waiting registry and move every
    /// task whose wake condition is satisfied at `now` to the tail of the
    /// readiness queue, in registry — that is, submission — order.
    fn wake(&mut self, now: u64)
        ensures
            final(self)@.ready == old(self)@.ready + woken(old(self)@.waiting, now),
            final(self)@.waiting == still_waiting(old(self)@.waiting, now),
            final(self)@.next_id == old(self)@.next_id,
            final(self)@.log == old(self)@.log,
            final(self)@.done == old(self)@.done,
    {
        let ghost w0 = self@.waiting;
        let ghost r0 = self@.ready;
        let ghost pw = |t: TaskModel| t.can_wake(now);
        let ghost ps = |t: TaskModel| !t.can_wake(now);
        let mut kept: Vec<Task> = Vec::new();
        let ghost mut k: int = 0;
        #[verifier::loop_isolation(false)]
        while self.waiting.len() > 0
            invariant
                0 <= k <= w0.len(),
                models_of(self.waiting@) == w0.subrange(k, w0.len() as int),
                models_of(kept@) == still_waiting(w0.subrange(0, k), now),
                models_of(self.ready@) == r0 + woken(w0.subrange(0, k), now),
                self@.next_id == old(self)@.next_id,
                self@.log == old(self)@.log,
                self@.done == old(self)@.done,
            decreases self.waiting.len(),
        {
            let ghost wpre = self.waiting@;
            let ghost rpre = self.ready@;
            let ghost kpre = kept@;
            proof {
                assert(models_of(wpre)[0] == wpre[0]@);
                assert(models_of(wpre)[0] == w0.subrange(k, w0.len() as int)[0]);
            }
            let t = self.waiting.remove(0);
            proof {
                assert(t == wpre[0]);
                assert(t@ == w0[k]);
                assert(models_of(self.waiting@) =~= w0.subrange(k + 1, w0.len() as int)) by {
                    assert forall|j: int| 0 <= j < self.waiting@.len() implies models_of(
                        self.waiting@,
                    )[j] == w0.subrange(k + 1, w0.len() as int)[j] by {
                        assert(self.waiting@[j] == wpre[j + 1]);
                        assert(models_of(wpre)[j + 1] == w0.subrange(k, w0.len() as int)[j + 1]);
                    }
                }
                assert(w0.subrange(0, k + 1) =~= w0.subrange(0, k).push(w0[k]));
                w0.subrange(0, k).lemma_filter_push(w0[k], pw);
                w0.subrange(0, k).lemma_filter_push(w0[k], ps);
                assert(woken(w0.subrange(0, k + 1), now) == if w0[k].can_wake(now) {
                    woken(w0.subrange(0, k), now).push(w0[k])
                } else {
                    woken(w0.subrange(0, k), now)
                });
                assert(still_waiting(w0.subrange(0, k + 1), now) == if !w0[k].can_wake(now) {
                    still_waiting(w0.subrange(0, k), now).push(w0[k])
                } else {
                    still_waiting(w0.subrange(0, k), now)
                });
            }
            if t.can_wake_now(now) {
                self.ready.push(t);
                proof {
                    assert(self.ready@ == rpre.push(t));
                    assert(models_of(rpre.push(t)) =~= models_of(rpre).push(t@));
                    assert(models_of(self.ready@) =~= r0 + woken(w0.subrange(0, k + 1), now));
                    k = k + 1;
                }
            } else {
                kept.push(t);
                proof {
                    assert(kept@ == kpre.push(t));
                    assert(models_of(kpre.push(t)) =~= models_of(kpre).push(t@));
                    assert(models_of(kept@) =~= still_waiting(w0.subrange(0, k + 1), now));
                    k = k + 1;
                }
            }
        }
        proof {
            assert(k == w0.len());
            assert(w0.subrange(0, w0.len() as int) =~= w0);
        }
        self.waiting = kept;
    }

    /// Drive the run loop for at most `max_iters` iterations against a
    /// simulated timestamp source that starts at `start` and advances one
    /// tick per iteration, stopping early once no task is alive.
    ///
    /// The kernel's real run loop transfers control permanently and never
    /// returns: it reads the hardware timestamp source before every
    /// iteration, calls `step`, and halts the core while `step` reports
    /// that nothing is runnable. This bounded loop is the same decision
    /// procedure with the timestamp readings fixed in advance.
    pub fn run(&mut self, start: u64, max_iters: usize)
        requires
            old(self)@.wf(),
            start + max_iters <= u64::MAX,
        ensures
            final(self)@ == run_model(old(self)@, ticks(start, max_iters as nat)),
            final(self)@.wf(),
    {
        let mut k: usize = 0;
        #[verifier::loop_isolation(false)]
        while k < max_iters
            invariant
                k <= max_iters,
                self@.wf(),
                run_model(old(self)@, ticks(start, max_iters as nat)) == run_model(
                    self@,
                    ticks((start + k) as u64, (max_iters - k) as nat),
                ),
            decreases max_iters - k,
        {
            if self.is_quiet() {
                proof {
                    lemma_run_model_quiet(self@, ticks((start + k) as u64, (max_iters - k) as nat));
                }
                return ;
            }
            let now = start + (k as u64);
            proof {
                let rem = ticks((start + k) as u64, (max_iters - k) as nat);
                assert(rem[0] == now);
                assert(rem.drop_first() =~= ticks((start + k + 1) as u64, (max_iters - k - 1) as nat));
            }
            self.step(now);
            k = k + 1;
        }
        proof {
            assert(ticks((start + k) as u64, 0) =~= Seq::<u64>::empty());
        }
    }

    /// One iteration of the run loop at timestamp `now`: advance the head
    /// of the readiness queue, if any — retire it with its outcome when it
    /// completes, park it when it suspends — then wake every waiting task
    /// whose condition the timestamp now satisfies. Returns true when,
    /// after the wake pass, nothing is runnable: the caller should then
    /// apply its idle policy (halt the core until the next hardware event,
    /// or simply poll again) before the next iteration.
    pub fn step(&mut self, now: u64) -> (idle: bool)
        requires
            old(self)@.wf(),
        ensures
            final(self)@ == step_model(old(self)@, now),
            final(self)@.wf(),
            idle == (final(self)@.ready.len() == 0),
    {
        proof {
            lemma_step_preserves_wf(old(self)@, now);
        }
        if self.ready.len() > 0 {
            let ghost e0 = self@;
            let mut t = self.ready.remove(0);
            proof {
                assert(models_of(self.ready@) =~= e0.ready.drop_first());
                assert(t@ == e0.ready[0]);
                assert(e0.live()[0] == e0.ready[0]);
                lemma_advance_position_preserving(t@, now);
            }
            let p = t.advance(now, &mut self.log);
            match p {
                Poll::Ready(outcome) => {
                    let id = t.id();
                    self.done.push(Retired { id, outcome });
                },
                Poll::Pending => {
                    proof {
                        assert forall|j: int|
                            0 <= j < self@.waiting.len() implies (#[trigger] self@.waiting[j]).id
                            != t@.id by {
                            assert(self@.waiting[j] == e0.waiting[j]);
                            assert(e0.waiting[j] == e0.live()[e0.ready.len() + j]);
                            assert(e0.live()[0].id != e0.live()[e0.ready.len() + j].id);
                        }
                    }
                    self.park(t);
                },
            }
            self.wake(now);
            proof {
                assert(self@ =~= step_model(e0, now));
            }
        } else {
            self.wake(now);
            proof {
                assert(self@ =~= step_model(old(self)@, now));
            }
        }
        self.ready.is_empty()
    }
}

} // verus!
