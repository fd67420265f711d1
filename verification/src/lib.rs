//! Verified cores of a small collection of concurrency primitives and of a
//! line-echo server: a bakery lock, a counting semaphore, a bounded FIFO
//! channel built on the semaphore, and the per-connection buffering and
//! event decisions of a readiness-driven echo server.
//!
//! Blocking, waiting on condition variables, threads and sockets are left to
//! the caller: each primitive exposes the decision that a thread takes on the
//! primitive's state, and says whether the thread may proceed or has to block
//! and try again.

pub mod bakery;
pub mod channel;
pub mod echo;
pub mod semaphore;
