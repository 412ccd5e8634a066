//! Conversion between two on-disk layouts of a font source: a single
//! property-list document and a directory package that splits the same data
//! across a metadata file, an explicit ordering list, an optional UI-state
//! file, and one file per glyph.
//!
//! The conversion is text-preserving: the parser keeps, for every value,
//! the exact source span it was read from (`plist::Slice`), and the two
//! directions move those verbatim spans between the layouts without
//! re-serializing them. `pack` splits a parsed document into the package's
//! parts; `unpack` merges the parts back into one document, re-sorted by
//! ordinal key comparison; `sanitize` derives collision-free file stems for
//! glyph names. Every function's contract is an equality with a spec-level
//! definition of the same step, and `laws` states and proves the
//! guarantees that span several of them.
//!
//! File reading and writing, and the fan-out over independent glyph files,
//! belong to the caller; the library works on byte vectors alone.

pub mod bytes;
pub mod error;
pub mod keys;
pub mod laws;
pub mod pack;
pub mod plist;
pub mod sanitize;
pub mod unpack;
