//! Region allocators over raw address ranges.
//!
//! Addresses are plain machine-word integers: the allocators decide which
//! address ranges are handed out and never touch the memory behind them.
//! Each allocator owns its state exclusively, so every operation is one
//! indivisible step of its state machine; whoever shares an allocator
//! between threads serialises the steps.
//!
//! - [`bump`]: a monotonic allocator over a fixed region.
//! - [`global_bump`]: a bump allocator whose region is bound on first use.
//! - [`slab`]: fixed-size blocks on a last-in-first-out free list.
//! - [`composite`]: one backing region, split between a slab for small
//!   requests and a bump allocator for all others.
//! - [`align`]: the arithmetic of rounding addresses up.

pub mod align;
pub mod bump;
pub mod composite;
pub mod global_bump;
pub mod slab;
