//! A small library of first-in-first-out queues for producer/consumer
//! pipelines, together with a sharded hash map utility.
//!
//! Three queue types share one contract (`enqueue`, `dequeue`): a
//! Michael-Scott-style linked queue laid out in an arena of reusable slots,
//! a two-buffer queue with an amortized transfer step, and a single-buffer
//! baseline. Every operation is specified against an abstract sequence of
//! queued values, and the queue laws (FIFO order, conservation of values,
//! safe slot reclamation) are proved as theorems over that model.

pub mod hashmap;
pub mod queue;
