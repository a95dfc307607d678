//! Stream kinds, NAL unit kinds and the error kinds of the core.

use vstd::prelude::*;

verus! {

/// The two media lanes of a session.
#[derive(Clone, Copy, Debug, PartialEq, Eq, Structural)]
pub enum StreamType {
    Audio,
    Video,
}

/// What an H.264 NAL unit carries, as far as the core tells them apart.
#[derive(Clone, Copy, Debug, PartialEq, Eq, Structural)]
pub enum FrameType {
    Pps,
    Sps,
    Keyframe,
    Other,
}

/// The kind of a NAL unit with header byte `b`: type 7 is a sequence
/// parameter set, 8 a picture parameter set, 5 an IDR slice.
pub open spec fn nal_kind(b: u8) -> FrameType {
    let t = b & 0x1fu8;
    if t == 7 {
        FrameType::Sps
    } else if t == 8 {
        FrameType::Pps
    } else if t == 5 {
        FrameType::Keyframe
    } else {
        FrameType::Other
    }
}

impl FrameType {
    /// The kind of a NAL unit, read from its header byte.
    pub fn of_nal_header(b: u8) -> (r: FrameType)
        ensures
            r == nal_kind(b),
    {
        let t = b & 0x1fu8;
        if t == 7 {
            FrameType::Sps
        } else if t == 8 {
            FrameType::Pps
        } else if t == 5 {
            FrameType::Keyframe
        } else {
            FrameType::Other
        }
    }
}

/// Failures that the core reports.
#[derive(Clone, Copy, Debug, PartialEq, Eq, Structural)]
pub enum ErrorKind {
    /// Malformed request, bad text, unknown stream kind.
    InvalidData,
    /// Signaling before the local codec configuration is set.
    NotReady,
    /// A second initialisation of the same stream or configuration.
    AlreadyInitialized,
    /// The frame intake queue is full.
    ChannelFull,
    /// The runtime is shutting down.
    ChannelClosed,
    /// FU-A reassembly aborted.
    ReassemblyGap,
    /// A socket error.
    IoFailure,
    /// A signaling read stayed idle too long.
    Timeout,
}

} // verus!
