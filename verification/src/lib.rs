//! A blocked stealing collector.
//!
//! Values are appended into a chain of fixed-capacity blocks, so that the
//! cost of an allocation is shared by a block's worth of values, and the
//! whole chain is detached at once to be drained.
//!
//! A push detaches the chain, places its value in the chain it then holds
//! alone, and links the chain back. A steal detaches the chain and yields its
//! values. [`Collector`] runs each of them as one call; the steps are public
//! too, so that pushes and steals can overlap, and [`schedule`] states what
//! holds of every order of their steps.

pub mod chain;
pub mod collector;
pub mod iter;
pub mod schedule;

pub use collector::Collector;
pub use iter::Iter;
