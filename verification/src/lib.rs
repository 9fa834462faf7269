//! Wire-protocol codec layer for a peer-to-peer block-exchange protocol: an
//! authentication-token codec, a length-framed native request/response codec
//! with size ceilings, and a protobuf-compatible codec that shares the same
//! logical model and deduplicates tokens inside each wire message.
pub mod error;
pub mod varint;
pub mod token;
pub mod identifier;
pub mod protocol;
pub mod pb;
pub mod compat;

pub use error::{BitswapError, MessageTooLarge, UnknownMessageType};
pub use token::Token;
pub use identifier::Identifier;
pub use protocol::{BitswapCodec, BitswapRequest, BitswapResponse, RequestType};
pub use compat::CompatMessage;
