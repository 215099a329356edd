//! Decisions of the packet loop that decodes a file. The reading and
//! decoding themselves are done by the caller, which reports each outcome
//! and carries out the step chosen here.
use vstd::prelude::*;

verus! {

/// Outcome of asking the container for its next packet.
#[derive(Debug, Clone, Copy, PartialEq, Eq, Structural)]
pub enum ReadOutcome {
    /// A packet of the given track.
    Packet { track_id: u32 },
    /// The stream ended (an unexpected end of file).
    EndOfStream,
    /// The reader must be reset before reading on.
    ResetRequired,
    /// Any other read error.
    Failed,
}

/// Outcome of decoding a packet.
#[derive(Debug, Clone, Copy, PartialEq, Eq, Structural)]
pub enum DecodeOutcome {
    /// The packet decoded into samples.
    Decoded,
    /// An I/O error while decoding.
    IoError,
    /// The packet held malformed data.
    BadData,
    /// Any other decoding error.
    Failed,
}

/// What the loop does next.
#[derive(Debug, Clone, Copy, PartialEq, Eq, Structural)]
pub enum Step {
    /// Leave the loop and keep what was decoded so far.
    Finish,
    /// Go on with the next packet.
    Next,
    /// Decode the packet just read.
    Decode,
    /// Append the decoded samples to the channels, then go on.
    Keep,
    /// Abandon decoding with an error.
    Fail,
}

/// Step after a read: decode packets of the selected track, skip packets of
/// other tracks and reset requests, finish at the end of the stream, fail on
/// any other read error.
pub fn step_after_read(outcome: ReadOutcome, track_id: u32) -> (s: Step)
    ensures
        s == (match outcome {
            ReadOutcome::Packet { track_id: t } => if t == track_id { Step::Decode } else { Step::Next },
            ReadOutcome::EndOfStream => Step::Finish,
            ReadOutcome::ResetRequired => Step::Next,
            ReadOutcome::Failed => Step::Fail,
        }),
{
    match outcome {
        ReadOutcome::Packet { track_id: t } => if t == track_id {
            Step::Decode
        } else {
            Step::Next
        },
        ReadOutcome::EndOfStream => Step::Finish,
        ReadOutcome::ResetRequired => Step::Next,
        ReadOutcome::Failed => Step::Fail,
    }
}

/// Step after decoding a packet: keep decoded samples, skip malformed
/// packets, finish on an I/O error, fail on any other error.
pub fn step_after_decode(outcome: DecodeOutcome) -> (s: Step)
    ensures
        s == (match outcome {
            DecodeOutcome::Decoded => Step::Keep,
            DecodeOutcome::IoError => Step::Finish,
            DecodeOutcome::BadData => Step::Next,
            DecodeOutcome::Failed => Step::Fail,
        }),
{
    match outcome {
        DecodeOutcome::Decoded => Step::Keep,
        DecodeOutcome::IoError => Step::Finish,
        DecodeOutcome::BadData => Step::Next,
        DecodeOutcome::Failed => Step::Fail,
    }
}

/// The track to decode: the first one that has a codec (`has_codec[i]` says
/// whether track `i` has one), or `None` when no track has.
pub fn first_audio_track(has_codec: &Vec<bool>) -> (r: Option<usize>)
    ensures
        r matches Some(i) ==> i < has_codec@.len() && has_codec@[i as int] && forall|k: int|
            0 <= k < i ==> !#[trigger] has_codec@[k],
        r is None ==> forall|k: int| 0 <= k < has_codec@.len() ==> !#[trigger] has_codec@[k],
{
    let n = has_codec.len();
    let mut i: usize = 0;
    while i < n
        invariant
            n == has_codec@.len(),
            i <= n,
            forall|k: int| 0 <= k < i ==> !#[trigger] has_codec@[k],
        decreases n - i,
    {
        if has_codec[i] {
            return Some(i);
        }
        i = i + 1;
    }
    None
}

} // verus!
