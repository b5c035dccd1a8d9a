//! A TCP transport for exchanging serialized messages between peers.
//!
//! Every connection carries exactly one message: the sender connects, writes the
//! serialized message, and shuts down its writing half; the receiver accepts the
//! connection and reads until the peer has nothing more to give or the receive
//! buffer is full. The I/O itself is done by the caller; this crate holds the
//! decisions taken between the I/O steps, as state machines that are driven by
//! events (what the last step produced) and answer with the next step to take.

pub mod receive;
pub mod send;
pub mod sender;
