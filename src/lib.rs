//! Fragment insert-size statistics over a compressed alignment container.
//!
//! The container is decoded record by record, the properly paired primary
//! records on one reference are folded into running aggregates, and a summary
//! (counts, exact sums, quantile bins) is derived from those aggregates.
pub mod bytes;
pub mod record;
pub mod container;
pub mod stats;
pub mod picture;
