//! Reconstruction of a process subtree's lifecycle from a system-wide stream
//! of kernel telemetry records.
//!
//! The stream covers every process on the host and arrives out of order
//! relative to process ancestry, so membership in the traced subtree cannot be
//! decided record by record. The [`ingest::EventIngester`] buffers records of
//! unknown provenance and, after every observation, promotes whole chains of
//! buffered processes as soon as a `Fork` record links them to the tracked
//! set. Records are kept per process in an [`store::EventStore`], ordered by
//! timestamp, and a final pass collapses multi-record exec sequences into
//! single enriched exec records before rendering.

pub mod ingest;
pub mod merge;
pub mod models;
pub mod render;
pub mod store;
