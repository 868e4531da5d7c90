//! Pools of generic items.
//!
//! Two pools are provided. Each keeps the items that are ready to be lent out, and one receiver
//! for every item that is out on loan:
//!
//! - [`Pool`] lends its items out in the order in which they became ready.
//! - [`PriorityPool`] lends out an item of the highest priority first.
//!
//! A borrowed item travels back through a one-shot channel of `futures_channel` when it is dropped.
//! The pool asks its receivers for what has come back each time an item is wanted of it.
//!
//! The states of a pool are values of [`state::PoolState`], and the contracts of both pools say
//! from which state to which a call leads, and what it hands out. What a receiver answers depends
//! on what other threads do, so a contract speaks of the answers that were given.

pub mod channel;
pub mod heap;
pub mod history;
pub mod internal;
pub mod lease;
pub mod pool;
pub mod priority;
pub mod round;
pub(crate) mod sequence;
pub mod show;
pub mod state;

pub use pool::Pool;
pub use priority::PriorityPool;
