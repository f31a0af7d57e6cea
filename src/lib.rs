//! Meldable priority queues: a pairing heap, a skew heap and a leftist heap,
//! each a min-heap that can merge two queues into one by consuming both.
pub mod laws;
pub mod leftist_heap;
pub mod order;
pub mod paring_heap;
pub mod skew_heap;

pub use leftist_heap::LeftistHeap;
pub use paring_heap::ParingHeap;
pub use skew_heap::SkewHeap;
