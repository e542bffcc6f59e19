//! The resolved invocation: which pass runs, where the root is, and where
//! the mapping store lives.

use vstd::prelude::*;
use vstd::string::*;
use crate::paths::join_under;
use crate::table::StoreError;

verus! {

/// The invocation's choices, as plain values.
pub struct Args {
    /// Where the mapping is saved or loaded; the default is the `.obfsct`
    /// dotfile under the root.
    pub filter: Option<String>,
    /// Run the reverse pass, restoring original names, instead of the
    /// forward one.
    pub deobfuscate: bool,
    /// The working directory; the default is the current one.
    pub root: Option<String>,
}

/// The root the invocation works under: the requested path — `.` when none
/// was given — replaced by its canonical form when the filesystem could
/// provide one (`resolved` carries the outcome of that attempt).
pub fn canonicalize(path: Option<String>, resolved: Option<String>) -> (r: String)
    ensures
        resolved matches Some(c) ==> r@ == c@,
        resolved is None ==> (path matches Some(p) ==> r@ == p@),
        resolved is None && path is None ==> r@ == "."@,
{
    match resolved {
        Some(c) => c,
        None => match path {
            Some(p) => p,
            None => String::from_str("."),
        },
    }
}

/// Where the mapping store lives: the explicitly given path, or the
/// `.obfsct` dotfile under the root.
pub fn store_path(root: &str, filter: Option<String>) -> (r: String)
    ensures
        filter matches Some(f) ==> r@ == f@,
        filter is None ==> r@ == root@ + seq!['/'] + ".obfsct"@,
{
    match filter {
        Some(f) => f,
        None => join_under(root, ".obfsct"),
    }
}

/// The check made before the store is touched: a store path that already
/// exists must denote a regular file; anything else there is a fatal
/// configuration error.
pub fn store_precheck(exists: bool, is_file: bool) -> (r: Result<(), StoreError>)
    ensures
        r matches Err(e) ==> e == StoreError::Config,
        r is Err <==> exists && !is_file,
{
    if exists && !is_file {
        Err(StoreError::Config)
    } else {
        Ok(())
    }
}

} // verus!
