//! Generalized d-ary min-heaps with optional position tracking, for use as the
//! priority queue of graph algorithms.
mod dary;
mod daryheap;
mod daryheap_index;
mod daryheap_map;
mod has_index;
mod heap;
mod heap_positions;
pub mod laws;
mod node_key_ref;
pub mod order;
mod positions_index;
pub mod positions_map;
mod positions_none;
pub mod priority_queue;
pub mod priority_queue_deckey;
mod results;

pub use crate::daryheap::{BinaryHeap, DaryHeap, QuaternaryHeap};
pub use crate::daryheap_index::{BinaryHeapOfIndices, DaryHeapOfIndices, QuaternaryHeapOfIndices};
pub use crate::daryheap_map::{BinaryHeapWithMap, DaryHeapWithMap, QuaternaryHeapWithMap};
pub use crate::has_index::HasIndex;
pub use crate::node_key_ref::NodeKeyRef;
pub use crate::positions_index::HeapPositionsHasIndex;
pub use crate::positions_map::{HeapPositionsMap, Index};
pub use crate::priority_queue::PriorityQueue;
pub use crate::priority_queue_deckey::PriorityQueueDecKey;
pub use crate::results::{
    ResDecreaseKeyOrPush, ResTryDecreaseKey, ResTryDecreaseKeyOrPush, ResUpdateKey,
    ResUpdateKeyOrPush,
};
