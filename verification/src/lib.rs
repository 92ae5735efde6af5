//! Client-side MQTT 3.1.1 wire protocol: the packet codec, the frame reader
//! that cuts a byte stream into packets, and the lifecycle of a connection.

pub mod error;
pub mod varint;
pub mod frame;
pub mod packet;
pub mod connection;
pub mod session;
