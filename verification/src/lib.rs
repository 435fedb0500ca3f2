//! A link-change monitor: a document is fetched on a fixed cadence, its
//! anchor hrefs are extracted and normalized to absolute URLs against the
//! document's own URL, and every link never reported before is emitted once.
//!
//! The pipeline (normalize, extract, diff against the cumulative seen-set,
//! report) lives here, verified; its contracts pin what each step returns.
//! Fetching, scheduling and printing stand outside the library and hand it
//! plain values.

pub mod extract;
pub mod monitor;
pub mod order;
pub mod store;
pub mod urls;
