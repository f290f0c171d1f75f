//! A fixed-capacity circular byte buffer with multiple independent read
//! cursors, a stable-id connection table over it, and the decision core of a
//! single-threaded fan-out server that mirrors one producer's byte stream to
//! every attached consumer.

pub mod connection;
pub mod ring_buffer;
pub mod server;
