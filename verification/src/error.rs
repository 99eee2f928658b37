//! Errors the connection core surfaces at its boundary.

use vstd::prelude::*;

use crate::method::Method;

verus! {

/// Why an issuer or the dispatcher refused to act.
#[derive(Debug, Clone, PartialEq)]
pub enum Error {
    /// The caller or the broker named a channel id with no channel.
    InvalidChannel(u16),
    /// The channel exists but is not in the state the operation needs.
    NotConnected,
    /// An inbound method arrived in the wrong state or did not match the
    /// head of the channel's queue of expected replies.
    UnexpectedAnswer,
    /// The broker sent a method a client must never receive.
    InvalidMethod(Method),
}

} // verus!
