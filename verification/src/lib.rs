//! A fastboot client: the rules of the protocol, apart from the bus.
pub mod buffer;
pub mod client;
pub mod device;
pub mod download;
pub mod error;
pub mod fetch;
pub mod packet;
pub mod protocol;
pub mod text;
pub mod vars;
