//! RTCP packet bodies.

use vstd::prelude::*;

pub mod laws;
pub mod lemmas;
pub mod source_description;
pub mod wire;

verus! {

/// Why an RTCP encode or decode step failed.
#[derive(Debug, Clone, Copy, PartialEq, Eq, Structural)]
pub enum RtcpError {
    /// A read asked for more bytes than remain, or a write for more room than is left.
    BoundsViolation,
    /// A padding length outside `0..=3` was computed.
    InvalidPaddingSize,
}

} // verus!
