//! A reliable sliding-window file transfer over an unreliable datagram
//! transport: the wire codec, the per-connection sender and receiver state
//! machines and the broker's delay queue.

pub mod broker;
pub mod byte_order;
pub mod checksum;
pub mod connection_properties;
pub mod packet;
pub mod receiver;
pub mod sender;
