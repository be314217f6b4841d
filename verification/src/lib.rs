//! A request-batching engine.
//!
//! Many callers submit operations against one piece of state.  Operations
//! that arrive while a batch is at work are gathered and consumed together by
//! the next batch, and every caller is owed the result of its own operation.
//!
//! * [`promise`]: the one-shot slot through which a result reaches the caller
//!   that waits for it.
//! * [`batcher`]: the coordinator that queues submissions and lets one batch
//!   at a time have the state, and what a state has to do to be batched.
//! * [`utils`]: the reduction that a batch runs over its operations.
//! * [`counter`] and [`rbtree`] with [`rbtree_ops`]: two states to batch, a
//!   count and an ordered map.
//!
//! Nothing here blocks, locks, spawns or wakes.  Each step is a function from
//! the state before to the state after, and says what its caller has to do
//! next: wake a token, run a batch, call a callback.

pub mod batcher;
pub mod counter;
pub mod promise;
pub mod rbtree;
pub mod rbtree_ops;
pub mod utils;
