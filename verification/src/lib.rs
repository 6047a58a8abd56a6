//! A first-fit allocator over one contiguous heap, with a free list in
//! address order whose neighbouring regions are merged as soon as they touch.
//!
//! `merged_list` holds the allocator and its list, `model` says what the
//! operations do to the list seen as a sequence of regions, `laws` states what
//! holds of that sequence across calls, and `align` rounds addresses.

pub mod align;
pub mod laws;
mod lemmas;
pub mod merged_list;
pub mod model;

pub use merged_list::{
    split_ListNode, Allocation, ListNode, ListNodeInfo, MergedListAllocator, HEADER_ALIGN,
    HEADER_SIZE, MIN_BLOCK_SIZE,
};
