//! A userspace frame pool for completion-based direct I/O.
//!
//! The pool keeps a fixed number of granule-sized frames, maps file extents to
//! them, coalesces concurrent misses onto one read, and reclaims evicted frames
//! only after two epochs have passed over every registered reader. Every value
//! in this crate is plain state: one call is one atomic step of the control
//! plane, and the I/O itself is performed by the caller, who takes submitted
//! operations from the driver ring and hands their completions back.

pub mod driver;
pub mod error;
pub mod num;
pub mod pool;
pub mod product;
pub mod text;
