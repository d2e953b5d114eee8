//! Where an archive keeps what.
use vstd::prelude::*;
use vstd::string::StringExecFns;

verus! {

/// The entry that holds the bundle's metadata.
pub fn bundle_meta_path() -> (p: &'static str)
    ensures
        p@ == ".tsar/bundle"@,
{
    ".tsar/bundle"
}

/// The entry that holds the chunk with the identifier `f`.
pub fn chunk_path(f: &str) -> (p: String)
    ensures
        p@ == ".tsar/chunks/"@ + f@,
{
    String::from_str(".tsar/chunks/").concat(f)
}

} // verus!
