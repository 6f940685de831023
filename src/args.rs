use vstd::prelude::*;

verus! {

/// How a scan is run: where it starts, whether it keeps to one file system,
/// and whether it follows symbolic links.
#[derive(Debug, Clone)]
pub struct Args {
    pub path: String,
    pub one_file_system: bool,
    pub follow_links: bool,
}

} // verus!
