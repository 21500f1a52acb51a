//! A batch file-rename planning engine.
//!
//! Given a selection of file paths and an ordered list of rename tasks, the
//! library computes a deterministic target name for every file, resolves
//! collisions among the computed targets, and offers a search-filtered
//! projection of the plan. Nothing here touches the filesystem: callers
//! supply per-path metadata as plain values and perform the actual renames
//! themselves once the plan is confirmed.

pub mod bridge;
pub mod laws;
pub mod model;
pub mod numeral;
pub mod order;
pub mod pathname;
pub mod pipeline;
pub mod resolver;
pub mod selection;
pub mod session;
pub mod sortstage;
pub mod statuses;
pub mod tasks;
pub mod text;
