//! What can go wrong in a command.

use vstd::prelude::*;

verus! {

/// The ways in which a command fails. `E` is the error of the bus in use.
#[derive(Debug, PartialEq, Eq)]
pub enum Error<E> {
    /// The sensor's answer broke the protocol: its framing, the command it
    /// echoes, the bounds of an argument, a missing result argument, or an
    /// answer in more than one frame.
    UnexpectedResponse,
    /// The ready line stayed low for longer than the driver waits.
    Timeout,
    /// The CRC-32 at the end of an inbound frame did not match its body.
    CRCError,
    /// The sensor found no template that matches the captured finger.
    NoMatch,
    /// The bus reported an error, which is handed on unchanged.
    HalErr(E),
}

} // verus!
