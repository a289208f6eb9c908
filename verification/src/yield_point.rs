use vstd::prelude::*;

use crate::poll::Poll;

verus! {

/// The cooperative yield primitive: a suspendable computation that reports
/// `Pending` exactly once — on its very first poll — and `Ready(())` on the
/// next poll, regardless of elapsed time.
///
/// Yielding forces the surrounding task back through the executor's
/// waiting-then-immediately-runnable cycle, so that other queued tasks get
/// a turn even though there is no preemption.
#[derive(Clone, Copy, Debug, PartialEq, Eq)]
pub struct YieldOnce {
    polled: bool,
}

impl YieldOnce {
    /// Whether the single `Pending` has already been reported.
    pub closed spec fn polled(self) -> bool {
        self.polled
    }

    /// What the next poll reports.
    pub open spec fn poll_result(self) -> Poll<()> {
        if self.polled() {
            Poll::Ready(())
        } else {
            Poll::Pending
        }
    }

    /// The state after one poll.
    pub closed spec fn after_poll(self) -> YieldOnce {
        YieldOnce { polled: true }
    }

    /// A fresh yield, which has not yet handed control back.
    pub fn new() -> (y: YieldOnce)
        ensures
            !y.polled(),
    {
        YieldOnce { polled: false }
    }

    /// First poll: `Pending`, so the task is parked and immediately
    /// runnable again. Every later poll: `Ready(())`.
    pub fn poll(&mut self) -> (p: Poll<()>)
        ensures
            *final(self) == old(self).after_poll(),
            final(self).polled(),
            p == old(self).poll_result(),
    {
        let was = self.polled;
        self.polled = true;
        if was {
            Poll::Ready(())
        } else {
            Poll::Pending
        }
    }
}

/// Yield semantics: polling a fresh yield twice in sequence gives exactly
/// `Pending` and then `Ready(())`, whatever happens to the timestamp source
/// in between.
pub proof fn lemma_yield_pending_then_ready(y: YieldOnce)
    requires
        !y.polled(),
    ensures
        y.poll_result() == Poll::<()>::Pending,
        y.after_poll().poll_result() == Poll::<()>::Ready(()),
{
}

} // verus!
