//! One filesystem object under the root being processed.

use vstd::prelude::*;
use vstd::string::*;

verus! {

/// An entry of the tree: its path relative to the root (its stable logical
/// identity, captured before any rename), whether it is a directory, and its
/// depth proxy, the ordering key by which renames are sequenced.
pub struct Entry {
    pub rel_path: String,
    pub is_dir: bool,
    pub depth: usize,
}

/// The depth proxy is the length of the relative path.  An ancestor's path
/// is a proper prefix of its descendant's, so the proxy is strictly smaller
/// for the ancestor, which is all the scheduler needs.
pub open spec fn entry_wf(e: Entry) -> bool {
    e.depth == e.rel_path@.len()
}

impl Entry {
    /// Builds an entry from its relative path and kind, computing the depth
    /// proxy.
    pub fn new(rel_path: String, is_dir: bool) -> (e: Entry)
        ensures
            entry_wf(e),
            e.rel_path@ == rel_path@,
            e.is_dir == is_dir,
    {
        let depth = rel_path.as_str().unicode_len();
        Entry { rel_path, is_dir, depth }
    }
}

} // verus!
