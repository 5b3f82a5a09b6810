//! A bounded ring-buffer queue with stamped slots, the decisions of a worker
//! pool fed from it, an adaptive backoff for waiting threads, and the request
//! handling of a small demo server.
pub mod backoff;
pub mod padded;
pub mod pool;
mod position;
pub mod queue;
pub mod routes;
pub mod runs;

pub use padded::CachePadded;
pub use queue::ArrayQueue;
