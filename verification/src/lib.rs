//! Bulk-rename directory entries by editing a plain-text listing.
//!
//! The crate snapshots a directory, assigns each entry a short
//! content-derived identifier, renders a listing for a text editor,
//! parses the edited listing back into rename/remove operations, and
//! plans the filesystem mutations that the edit asks for.  Everything
//! that decides or computes lives here, verified; the thin shell that
//! talks to the filesystem, the terminal and the editor lives outside.

pub mod app;
pub mod config;
pub mod entry;
pub mod formatter;
pub mod parser;
pub mod util;
