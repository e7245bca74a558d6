//! An in-process registry of independently executable units of work.
//!
//! A [`World`] is the bookkeeping of one unit of work: its single-use
//! callable, its lifecycle status and the slot through which its result
//! reaches at most one waiter. [`ParallelWorlds`] keeps worlds under unique
//! string identifiers and offers bulk and per-identifier control.
//!
//! Nothing here creates a thread or blocks. Starting a world hands its
//! callable to the caller, who runs it wherever it likes and reports the
//! outcome back with `finish` or `fail`; waiting answers `None` for as long
//! as that outcome is outstanding. Every transition is therefore a total
//! function of the state before it, and is proved to be exactly that.

pub mod status;
pub mod error;
pub mod world;
pub mod parallel_worlds;

pub use error::WorldError;
pub use status::WorldStatus;
pub use world::{AnyWorld, World, WorldView};
pub use parallel_worlds::ParallelWorlds;
