//! A typed message channel over a length-delimited byte transport.
//!
//! Inbound bytes are cut into frames, each frame is decoded into a
//! [`Request`]; frames that do not decode are dropped, while a framing
//! fault ends the inbound sequence. Outbound [`Response`] values are encoded
//! and framed for the transport.
pub mod error;
pub mod frame;
pub mod message;
pub mod channel;
pub mod handshake;

pub use error::CodecError;
pub use message::{Request, Response};
