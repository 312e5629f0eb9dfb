//! Error kinds of the exchange.
//!
//! Every failure is terminal and local to one exchange; clean closure of the
//! stream before any frame arrived is not an error and is reported as an
//! absent result instead.

use vstd::prelude::*;

verus! {

/// Which address-carrying field of the message failed to parse.
#[derive(Clone, Copy, Debug, PartialEq, Eq, Structural)]
pub enum AddressField {
    /// One of the repeated listen-address fields.
    ListenAddrs,
    /// The mandatory observed-address field.
    ObservedAddr,
}

/// A failure while decoding the single message of the exchange.
#[derive(Clone, Copy, Debug, PartialEq, Eq, Structural)]
pub enum IdentifyError {
    /// The length prefix was truncated, or the stream ended mid-payload.
    MalformedFrame,
    /// The tagged-field structure of the payload is corrupt, or a string
    /// field holds bytes that are not valid UTF-8.
    MalformedMessage,
    /// A field claiming to be an address does not parse as one.
    InvalidAddress(AddressField),
}

impl IdentifyError {
    /// A short human-readable description, for callers that report errors.
    pub fn describe(&self) -> (r: &'static str)
        ensures
            r@ == match *self {
                IdentifyError::MalformedFrame => "malformed frame"@,
                IdentifyError::MalformedMessage => "malformed message"@,
                IdentifyError::InvalidAddress(AddressField::ListenAddrs) => "invalid listen address"@,
                IdentifyError::InvalidAddress(AddressField::ObservedAddr) => "invalid observed address"@,
            },
            r@.len() > 0,
    {
        proof {
            reveal_strlit("malformed frame");
            reveal_strlit("malformed message");
            reveal_strlit("invalid listen address");
            reveal_strlit("invalid observed address");
        }
        match self {
            IdentifyError::MalformedFrame => "malformed frame",
            IdentifyError::MalformedMessage => "malformed message",
            IdentifyError::InvalidAddress(AddressField::ListenAddrs) => "invalid listen address",
            IdentifyError::InvalidAddress(AddressField::ObservedAddr) => "invalid observed address",
        }
    }
}

} // verus!
