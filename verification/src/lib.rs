//! A durable, single-stream message queue with push-style delivery and
//! explicit per-message acknowledgment.
//!
//! Producers append opaque payloads; a consumer receives them in arrival
//! order and must acknowledge each one before the next is released.
//! Unacknowledged or failed deliveries are rolled back and remain
//! redeliverable.

pub mod delivery;
pub mod drain;
pub mod queue;

pub use delivery::AckEvent;
pub use delivery::Consumer;
pub use delivery::LoopState;
pub use queue::Entry;
pub use queue::Queue;
