use vstd::prelude::*;

verus! {

/// The tag of a message on the traversal-to-aggregation channel: either one
/// filesystem event, or the single terminal signal posted after all roots.
#[derive(Debug, Clone, Copy, PartialEq, Eq, Structural)]
pub enum MessageType {
    FsItem,
    Exit,
}

} // verus!
