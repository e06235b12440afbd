//! Aggregation of span lifecycle notifications into immutable snapshot trees.
//!
//! The registry maps span identifiers to open span records; when a root span
//! closes, its whole subtree is drained out of the registry and published as
//! an [`Entry`] tree, which [`render`] lays out as text lines.
pub mod entry;
pub mod laws;
pub mod layer;
pub mod registry;
pub mod render;
pub mod scope;
pub mod shape;

pub use entry::{is_zero, Entry, EntryView, Level};
pub use layer::{Monitor, RootSpanLayer};
pub use registry::extract_span_root;
pub use render::{compose_message, fields_line, format_entry_message, render_line, write_entry};
pub use scope::{find_field, record_field, Child, Scope};
