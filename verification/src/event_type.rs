use vstd::prelude::*;

verus! {

/// The kind of filesystem event a traversal emits for a visited node.
#[derive(Debug, Clone, Copy, PartialEq, Eq, Structural)]
pub enum EventType {
    DirEnter,
    File,
    DirLeave,
}

} // verus!
