//! Batch transforms for tabular game data.
//!
//! The crate reads CSV exports of elemental types, type-efficacy factors and
//! entity typings, derives which attacking types each entity is weak to, and
//! renders the results as nested lookup tables in a textual syntax.  A small
//! companion module merges `|`-separated translation files by key.

pub mod chart;
pub mod entities;
pub mod errors;
pub mod grouping;
pub mod laws;
pub mod merge;
pub mod palette;
pub mod pipeline;
pub mod render;
pub mod text;
pub mod weakness;
