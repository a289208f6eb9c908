//! Cooperative async task executor core for an early-boot kernel.
//!
//! Kernel work is expressed as suspendable computations that are driven
//! forward in discrete steps: each `advance` either finishes with an outcome
//! or reports that the computation is waiting, and resumption always
//! continues exactly where the computation left off. The executor owns a
//! FIFO readiness queue and a registry of waiting tasks, wakes timer-backed
//! waits once the monotonic timestamp source has passed their target, and
//! retires completed tasks. The two standard suspension building blocks,
//! the timer-backed wait and the cooperative yield, live here as well.
//!
//! The surrounding boot code owns the hardware: it reads the monotonic
//! timestamp source, hands each reading to the executor, and halts the core
//! while the executor reports that nothing is runnable.

pub mod executor;
pub mod poll;
pub mod task;
pub mod timer;
pub mod yield_point;
