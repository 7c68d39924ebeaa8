//! A documentation-manual assembler.
//!
//! The manual lives on disk as a two-level directory tree: one subdirectory
//! per section, one file per item inside a section.  Each directory or file
//! name stem encodes a classification in its first character and a display
//! name in the rest.  This crate holds the assembly logic itself: given a
//! snapshot of that tree as plain values, it sorts sections and items
//! lexicographically by path, decodes every name, and returns the exact
//! sequence of formatting events (section start, section name, one event per
//! item, section end) that a formatter must perform, in order.  Reading the
//! directories and running the formatting callbacks is the caller's part.

pub mod assembly;
pub mod entries;
pub mod kind;
pub mod laws;
pub mod order;
pub mod text;

pub use assembly::{assemble_manual, ManualEvent};
pub use entries::{ItemEntry, SectionEntry};
pub use kind::ManualItem;
