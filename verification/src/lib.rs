//! Editing and indexing core for a markdown note application.
//!
//! The crate owns the authoritative text-plus-selection state of an open
//! note (`editor`), applies validated multi-span edits atomically,
//! translates semantic markdown commands into such edits (`commands`),
//! renders markdown as an annotated markup string with caret-aware token
//! hiding (`format`), and builds a vault-wide link and tag index from
//! note texts (`index`). Byte-level scanning primitives live in `scan`,
//! path and link-target handling in `paths`, and inline image data in
//! `media`.
//!
//! Text is modelled as a byte buffer addressed by byte offsets; the host
//! converts to and from strings at its boundary and performs all file,
//! window and network I/O.

pub mod editor;
pub mod scan;
pub mod commands;
pub mod paths;
pub mod format;
pub mod index;
pub mod media;
