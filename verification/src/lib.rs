//! A metrics-aggregation engine: it parses line-oriented metric exposition
//! text fetched from several upstream targets, injects per-target labels into
//! sample lines, and merges everything into one deterministic document.
//!
//! The engine is pure text logic. Fetching the upstream texts, serving the
//! merged document, and loading the target registry are left to the caller;
//! the caller hands each target's labels and raw body to [`aggregate`] (or to
//! the two aggregator types for incremental use) and gets the response body
//! back.

mod aggregate;
mod labels;
pub mod laws;
mod parse;
mod text;

pub use aggregate::{aggregate, aggregate_grouped, aggregate_ordered, apply_labels,
    GroupedAggregator, OrderedAggregator, Strategy, TargetText};
pub use labels::LabelSet;
pub use text::is_meta_line;
