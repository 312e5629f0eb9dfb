//! One-shot peer identification exchange.
//!
//! When two nodes connect, the listening side sends a single framed message
//! describing itself (public key, version strings, listen addresses, the
//! address it observed the peer dialing from, supported protocols) and the
//! dialing side receives and decodes it.  Nothing further flows on the
//! stream.  Answers to the protocol token `/ipfs/id/1.0.0`.

pub mod address;
pub mod errors;
pub mod frame;
pub mod identify;
pub mod message;
pub mod varint;

pub use address::{decode_address, encode_address, Address, AddressParseError, Segment};
pub use errors::{AddressField, IdentifyError};
pub use frame::{read_frame, write_frame};
pub use identify::{
    decode_message, encode_message, Endpoint, IdentifyInfo, IdentifyProtocol, UpgradeResult,
};
pub use varint::{decode_varint, push_varint};
