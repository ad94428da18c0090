use vstd::prelude::*;

verus! {

/// Running counters over all consumed events: one count of directories
/// entered and one of files seen.
#[derive(Debug, Clone, Copy, PartialEq, Eq, Structural)]
pub struct OverallInfo {
    pub dirs: u64,
    pub files: u64,
}

impl OverallInfo {
    /// The total number of items counted so far.
    pub fn all(&self) -> (r: u64)
        requires
            self.dirs + self.files <= u64::MAX,
        ensures
            r == self.dirs + self.files,
    {
        self.dirs + self.files
    }
}

} // verus!
