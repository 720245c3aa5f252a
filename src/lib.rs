//! Building blocks of a dual-core firmware: a first-fit arena allocator over a
//! fixed byte region, a bounded message channel between the cores, the task
//! scheduler of each core's cooperative executor, and the decisions of the
//! producer and consumer tasks.

pub mod arena;
pub mod arena_lemmas;
pub mod arena_laws;
pub mod message;
pub mod channel;
pub mod tasks;
pub mod scheduler;
