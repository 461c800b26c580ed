//! A resident metrics sampler: a bounded history of CPU samples, a dated
//! append-only log written on a sample-count cadence, and a calendar-driven,
//! debounced trigger for an external report generator.

pub mod buffer;
pub mod clock;
pub mod trigger;
pub mod text;
pub mod logrow;
pub mod metrics;
pub mod writer;
pub mod report;
pub mod session;
