//! MSMP: a small multi-drop serial messaging protocol.
//!
//! `packet` reads and writes frames, `protocol` reassembles frames from a
//! byte stream, and `service` moves frames between a receiver and a send queue.
pub mod packet;
pub mod protocol;
pub mod service;
pub mod frame;
pub mod device;
