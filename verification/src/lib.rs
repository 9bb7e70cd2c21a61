//! Control-plane glue for a Raft-replicated, range-partitioned key-value
//! store: an asynchronous task queue that reports local region events to a
//! cluster-wide placement authority, and the region-epoch tombstone protocol
//! by which a replica recognizes that it has been removed from a region's
//! membership and must stop serving.

pub mod authority;
pub mod epoch;
pub mod meta;
pub mod protocol;
pub mod task;
pub mod text;
pub mod worker;
