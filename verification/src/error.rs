use vstd::prelude::*;

verus! {

/// What can go wrong while a request is served.
#[derive(Debug, Clone, Copy, PartialEq, Eq, Structural)]
pub enum DnsError {
    /// The bytes are not a DNS message, or the value has no wire form.
    MalformedPacket,
    /// The upstream resolver could not be reached within the retry budget.
    UpstreamUnavailable,
    /// The upstream resolver answered with this non-zero response code.
    UpstreamRcode(u8),
    /// The request was not answered within its deadline.
    DeadlineExceeded,
}

} // verus!
