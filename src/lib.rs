//! A bridge between a WebSocket client and a backend that speaks a
//! length-prefixed TCP protocol: the framing codec for the backend stream,
//! the outbound queue toward the client, and the per-connection relay
//! state machine.
pub mod bridge;
pub mod codec;
pub mod queue;
