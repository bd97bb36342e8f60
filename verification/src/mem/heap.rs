//! States of a node of the kernel heap.
use vstd::prelude::*;

verus! {

/// Smallest node that an allocation splits off.
pub const MIN_HEAP_NODE_SIZE: usize = 0x10;

/// Whether a heap node is free or handed out.
#[allow(non_camel_case_types)]
#[derive(Clone, Copy, PartialEq, Eq, Structural)]
pub enum HeapNodeStatus {
    UNKNWON,
    FREE,
    USED,
}

impl HeapNodeStatus {
    /// The status byte stored in a node: 0, 1 or 2.
    pub fn code(self) -> (r: u8)
        ensures
            r == (match self {
                HeapNodeStatus::UNKNWON => 0u8,
                HeapNodeStatus::FREE => 1u8,
                HeapNodeStatus::USED => 2u8,
            }),
    {
        match self {
            HeapNodeStatus::UNKNWON => 0,
            HeapNodeStatus::FREE => 1,
            HeapNodeStatus::USED => 2,
        }
    }
}

} // verus!
