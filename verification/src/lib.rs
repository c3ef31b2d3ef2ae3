//! Reconciliation and resolution of replicated room state.

pub mod bitmaps;
pub mod bytes;
pub mod calendar;
pub mod collections;
pub mod event_laws;
pub mod events;
pub mod graph;
pub mod hamt;
pub mod input;
pub mod json;
pub mod json_laws;
pub mod lattice;
pub mod lattice_laws;
pub mod merge;
pub mod merge_laws;
pub mod merkle;
pub mod output;
pub mod power;
pub mod power_laws;
pub mod primitives;
pub mod reconcile;
pub mod resolution;
pub mod room;
pub mod room_laws;
pub mod source;
pub mod state;
pub mod state_map;
pub mod summary;
pub mod summary_laws;
pub mod text;
pub mod timeline;
pub mod timeline_laws;

pub use output::{resolved_state_entries, OutputFormat, ResolvedStateEntry};
