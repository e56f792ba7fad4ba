//! A thread-safe object pool with automatic return and attach/detach semantics.
//!
//! The pool hands out objects that go back into it when they are dropped;
//! `detach` takes an object out of the pool's care and `attach` gives one to it.

pub mod bits;
pub mod experimental;
mod pool;
mod sync;

pub use pool::{Pool, Reusable, Stack};
