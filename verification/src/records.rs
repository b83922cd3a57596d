//! The record of one selected file: its absolute path, its
//! slash-normalized root-relative path, and its stored extension
//! (lowercased, empty when the base name has none).

use vstd::prelude::*;
use crate::paths::{path_extension, extension_of};

verus! {

/// One candidate file found under the scan root. Identity key:
/// `absolute_path`.
pub struct FileRecord {
    pub absolute_path: String,
    pub relative_path: String,
    pub extension: String,
}

/// A well-formed record stores exactly the extension its relative
/// path calls for.
pub open spec fn record_wf(r: FileRecord) -> bool {
    r.extension@ == path_extension(r.relative_path@)
}

impl Clone for FileRecord {
    fn clone(&self) -> (r: Self)
        ensures
            r == *self,
    {
        FileRecord {
            absolute_path: self.absolute_path.clone(),
            relative_path: self.relative_path.clone(),
            extension: self.extension.clone(),
        }
    }
}

/// Builds the record for a file, deriving the stored extension from
/// the relative path.
pub fn make_record(absolute_path: String, relative_path: String) -> (r: FileRecord)
    ensures
        record_wf(r),
        r.absolute_path@ == absolute_path@,
        r.relative_path@ == relative_path@,
{
    let extension = extension_of(relative_path.as_str());
    FileRecord { absolute_path, relative_path, extension }
}

} // verus!
