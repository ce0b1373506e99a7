//! The errors of the library.

use vstd::prelude::*;

use crate::port::Port;
use crate::text::NumberFault;

verus! {

/// Everything that can go wrong while resolving ports and choosing the
/// processes to act on.
#[derive(Debug)]
pub enum Errors {
    /// The socket table could not be read.
    Netstat(netstat2::error::Error),
    /// A port text starts with neither `t` nor `u` (the character, in lower case).
    UnknownProtocol(char),
    /// A port text is empty.
    EmptyPortString,
    /// The number after the protocol letter is no `u16`, for this reason.
    InvalidPort(NumberFault),
    /// No preset has this name.
    InvalidPreset(String),
    /// No process uses this port.
    PortNotInUse(Port),
    /// Attaching needs exactly one process; this many were found.
    CannotUseAttach(usize),
}

} // verus!
