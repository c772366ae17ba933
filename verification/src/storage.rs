//! Storage backend configuration. The backends themselves do file and
//! database I/O and live with the caller; the library holds what they are
//! configured with.

use vstd::prelude::*;

verus! {

/// Persists the index as one JSON document at a fixed path.
pub struct JsonStorage {
    /// Where the index file is written.
    pub file_path: String,
}

impl JsonStorage {
    pub fn new(file_path: String) -> (r: JsonStorage)
        ensures
            r.file_path == file_path,
    {
        JsonStorage { file_path }
    }
}

} // verus!
