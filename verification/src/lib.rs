//! Streaming splitter for large JSON inputs.
//!
//! The input is either one top-level JSON array of values or a bare sequence
//! of top-level JSON values.  The library finds the boundary of each value at
//! the byte level, hands every document out byte-for-byte as it appeared in
//! the input, and provides the bounded work queue through which a producer
//! feeds a pool of consumers with backpressure and crash-aware shutdown.

pub mod errors;
pub mod grammar;
pub mod scan;
pub mod stream;
pub mod queue;
pub mod report;
