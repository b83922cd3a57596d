//! Scans a directory tree for text files, reconstructs the directory
//! hierarchy from the selected relative paths, and renders a single
//! deterministic report: the directory tree followed by each file's
//! contents between stable delimiters.
//!
//! The filesystem walks themselves live with the caller; the library
//! holds everything that is decided or computed: UTF-8 text
//! classification of a bounded content sample, selection and
//! deduplication of walked entries, extension filtering, sorting,
//! tree reconstruction and rendering, and the byte-exact assembly of
//! the final report.

pub mod aggregate;
pub mod chars;
pub mod classify;
pub mod collect;
pub mod language;
pub mod locate;
pub mod paths;
pub mod records;
pub mod sorting;
pub mod tree;
