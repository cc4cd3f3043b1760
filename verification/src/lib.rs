//! Client-side core of a local IPC command front end: the length-prefixed
//! transport framing, the binary request/response codec, the failure
//! taxonomy, and the daemon-bootstrap decision logic.

pub mod args;
pub mod codec;
pub mod error;
pub mod frame;
pub mod ipc;
pub mod resource;
