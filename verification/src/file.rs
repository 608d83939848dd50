use vstd::prelude::*;

verus! {

/// An entry of a directory listing: its name, its path, whether it is a directory, and the
/// extension of its name where it has one.
pub struct File {
    pub name: String,
    pub path: String,
    pub is_dir: bool,
    pub extension: Option<String>,
}

} // verus!
