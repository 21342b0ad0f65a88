//! A minimal MQTT 3.1 client core: the remaining-length codec, the packet
//! codec and the session state machine. All socket, thread and timer work is
//! left to the caller, who feeds bytes in and writes the returned packets out.

pub mod client;
pub mod length;
pub mod message;
