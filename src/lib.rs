//! Named FIFO queues of participant groups, with a reverse index from each
//! queued participant to the queue that holds it.

pub mod laws;
pub mod model;
pub mod store;

pub use store::{DumpedQueueEntry, PlayerQueueInfo, QueueContext};
