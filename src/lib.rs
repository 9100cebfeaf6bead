//! Block bookkeeping for a streaming short-time Fourier transform engine
//! with 50% overlap: block sizing and validation, the classification of each
//! processing step over a finite signal, and the sample staging that builds
//! every overlapped analysis block.

pub mod error;
pub mod geometry;
pub mod schedule;
pub mod laws;
pub mod staging;
