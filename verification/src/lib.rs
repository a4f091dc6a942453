//! A live reconciliation engine for a merged, multi-document diff view.
//!
//! The engine keeps one ordered view of "excerpts" — one per changed file —
//! synchronized with an asynchronously-changing repository status. The host
//! delivers status snapshots and completed document loads as plain values;
//! the engine decides what to prune, what to insert, where the view's order
//! and focus go, and which actions are currently enabled.

pub mod actions;
pub mod coalescer;
pub mod engine;
pub mod merged_view;
pub mod path_key;
