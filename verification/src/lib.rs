//! Pulse-frequency measurement for a counting device that reports a 16-bit
//! counter as ASCII numbers over a byte stream.
//!
//! The crate frames the byte stream into samples, unwraps the 16-bit counter
//! into a 64-bit running total, and derives the figures of the periodic report.
//! Reading the stream, sharing the total between threads and keeping time are
//! left to the caller.

pub mod accumulator;
pub mod framing;
pub mod framing_laws;
pub mod pipeline;
pub mod reporter;
