//! The ways an operation of this library can fail.

use vstd::prelude::*;
use vstd::string::*;

verus! {

/// Why an address or network operation was refused.
#[derive(Debug, Clone, Copy, PartialEq, Eq, Structural, Hash)]
pub enum Ipv6Error {
    /// The text is no address literal, its zone is empty, or a generator
    /// component is not the hexadecimal text that was asked for.
    InvalidAddress,
    /// The network text has no `/`.
    InvalidNetwork,
    /// The prefix length is not a number from 0 to 128.
    InvalidPrefix,
    /// The request would enumerate more networks than this library builds at once.
    NetworkTooLarge,
    /// The requested division or aggregation leaves the range of prefix lengths.
    DivisionError,
}

/// The sentence that stands for each kind of failure.
pub open spec fn message_text(e: Ipv6Error) -> Seq<char> {
    match e {
        Ipv6Error::InvalidAddress => "Invalid IPv6 address"@,
        Ipv6Error::InvalidNetwork => "Invalid IPv6 network: missing prefix length"@,
        Ipv6Error::InvalidPrefix => "Invalid prefix length"@,
        Ipv6Error::NetworkTooLarge => "Network too large to enumerate"@,
        Ipv6Error::DivisionError => "Cannot divide network"@,
    }
}

impl Ipv6Error {
    /// A sentence for the user.
    pub fn message(&self) -> (out: String)
        ensures
            out@ == message_text(*self),
    {
        match self {
            Ipv6Error::InvalidAddress => String::from_str("Invalid IPv6 address"),
            Ipv6Error::InvalidNetwork => String::from_str(
                "Invalid IPv6 network: missing prefix length",
            ),
            Ipv6Error::InvalidPrefix => String::from_str("Invalid prefix length"),
            Ipv6Error::NetworkTooLarge => String::from_str("Network too large to enumerate"),
            Ipv6Error::DivisionError => String::from_str("Cannot divide network"),
        }
    }
}

} // verus!
