//! Standard MIDI File parsing, done by the `midly` crate.

use midly::MetaMessage::TimeSignature;
use midly::MidiMessage::{NoteOff, NoteOn};
use midly::Timing::Metrical;
use midly::TrackEventKind::{Meta, Midi};
use vstd::prelude::*;

verus! {

/// One track event as the library reads it: its delta time in ticks; for a
/// note-on or note-off message, the key, the velocity and whether it is a
/// note-on; for a time-signature meta event, the numerator and the
/// denominator's power of two.
pub type SmfEvent = (u32, Option<(u8, u8, bool)>, Option<(u8, u8)>);

/// `midly::Error`, the reason `midly` refuses a file.
#[verifier::external_type_specification]
#[verifier::external_body]
pub struct ExMidlyError(midly::Error);

/// What `midly::Smf::parse` reads from the bytes of a Standard MIDI File,
/// `None` when it refuses them: the ticks per beat of a metrical header
/// (`None` for a timecode header), and each track's events as `SmfEvent`
/// gives them.
pub uninterp spec fn smf_contents(data: Seq<u8>) -> Option<
    (Option<u16>, Seq<Seq<(u32, Option<(u8, u8, bool)>, Option<(u8, u8)>)>>),
>;

/// The view of each track of a list of tracks.
pub open spec fn tracks_view(tracks: Vec<Vec<SmfEvent>>) -> Seq<Seq<SmfEvent>> {
    tracks@.map_values(|t: Vec<SmfEvent>| t@)
}

/// Parses a Standard MIDI File with `midly::Smf::parse` and hands back the
/// header's ticks per beat and each track's events. The parse is a function
/// of the bytes alone: the claim is that it succeeds exactly when
/// `smf_contents` is `Some`, and then yields that header and those tracks.
#[verifier::external_body]
pub(crate) fn parse_smf(data: &[u8]) -> (r: Result<(Option<u16>, Vec<Vec<SmfEvent>>), midly::Error>)
    ensures
        r is Ok <==> smf_contents(data@) is Some,
        r matches Ok(c) ==> c.0 == smf_contents(data@).unwrap().0 && tracks_view(c.1) == smf_contents(
            data@,
        ).unwrap().1,
{
    let smf = midly::Smf::parse(data)?;
    Ok((match smf.header.timing { Metrical(t) => Some(t.as_int()), _ => None }, smf.tracks.iter().map(|track| {
        track.iter().map(|ev| (ev.delta.as_int(), match ev.kind {
            Midi { message: NoteOn { key, vel }, .. } => Some((key.as_int(), vel.as_int(), true)),
            Midi { message: NoteOff { key, vel }, .. } => Some((key.as_int(), vel.as_int(), false)),
            _ => None,
        }, match ev.kind {
            Meta(TimeSignature(n, d, _, _)) => Some((n, d)),
            _ => None,
        })).collect()
    }).collect()))
}

} // verus!
