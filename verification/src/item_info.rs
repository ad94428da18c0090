use vstd::prelude::*;

use crate::event_type::EventType;

verus! {

/// Read access to the event kind and byte size of a per-node payload.
pub trait ItemSize {
    fn event_type(&self) -> &EventType;

    fn size(&self) -> u64;
}

/// Metadata recorded for one visited filesystem node: the kind of event,
/// the inode number, the modification time and the byte size.
#[derive(Debug, Clone, Copy, PartialEq, Eq, Structural)]
pub struct FsItemInfo {
    pub event_type: EventType,
    pub ino: u64,
    pub mtime: i64,
    pub size: u64,
}

impl ItemSize for FsItemInfo {
    fn event_type(&self) -> (r: &EventType)
        ensures
            *r == self.event_type,
    {
        &self.event_type
    }

    fn size(&self) -> (r: u64)
        ensures
            r == self.size,
    {
        self.size
    }
}

} // verus!
