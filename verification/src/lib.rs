//! Reconciliation of a brokerage account's activity feed into plain-text
//! double-entry journal blocks.
//!
//! The feed reports partial order fills as separate records, reports
//! regulatory fees disconnected from the trades that generated them, and is
//! paginated by an opaque cursor that may split one calendar day across
//! pages. This crate holds the verified core: day-boundary batching, partial
//! fill merging, fee classification and association, and the rendering of
//! reconciled records as journal blocks. Network fetching and terminal
//! output live outside the crate and hand plain values in and out.

pub mod decimal;
pub mod text;
pub mod date;
pub mod activity;
pub mod error;
pub mod merge;
pub mod fees;
pub mod batch;
pub mod render;
pub mod pipeline;
