//! Memory and execution core of a process-oriented language runtime.
//!
//! The crate holds the sequential logic of the runtime: the tagged-pointer
//! value representation, class and object model, the Immix block allocator,
//! the per-process tracing collector, processes with their mailboxes, the
//! process table and the work-stealing run queues. Every function carries a
//! contract over a mathematical model of the data it touches.

pub mod errors;
pub mod tagged_pointer;
pub mod class;
pub mod object;
pub mod block;
pub mod allocator;
pub mod heap;
pub mod gc;
pub mod message;
pub mod mailbox;
pub mod transfer;
pub mod process;
pub mod process_table;
pub mod pool;
pub mod vm;
pub mod runtime;
