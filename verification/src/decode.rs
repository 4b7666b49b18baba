//! The decoder pipeline: parse the byte stream, merge the tracks onto one
//! absolute-tick timeline, convert ticks to exact timestamps under the tempo
//! map, reconstruct notes from paired on/off events, and return them sorted
//! by onset.

use vstd::prelude::*;

use crate::clock::clock_events;
use crate::clock::clocked_model;
use crate::events::MidiError;
use crate::events::Note;
use crate::events::NoteModel;
use crate::merge::merge_tracks;
use crate::merge::merged_model;
use crate::parse::SmfModel;
use crate::parse::parse_smf;
use crate::parse::spec_parse_smf;
use crate::recon::notes_model;
use crate::recon::notes_sorted;
use crate::recon::recon_model;
use crate::recon::reconstruct;
use crate::recon::sort_notes;
use crate::recon::sort_notes_model;

verus! {

/// A decoded file: the timing resolution and the completed notes, sorted by
/// onset. `notes[i].onset / (ticks_per_quarter * 1_000_000)` is note `i`'s
/// onset in seconds, exactly; likewise for durations.
#[derive(Debug)]
pub struct DecodedMidi {
    pub ticks_per_quarter: u16,
    pub notes: Vec<Note>,
}

/// Mathematical counterpart of a decoded file.
pub ghost struct DecodedModel {
    pub ticks_per_quarter: u16,
    pub notes: Seq<NoteModel>,
}

impl DecodedMidi {
    pub open spec fn model(&self) -> DecodedModel {
        DecodedModel {
            ticks_per_quarter: self.ticks_per_quarter,
            notes: notes_model(self.notes@),
        }
    }
}

/// The notes a parsed track table stands for: merge, clock, reconstruct,
/// then sort by onset.
pub open spec fn decoded_notes(smf: SmfModel) -> Seq<NoteModel> {
    sort_notes_model(recon_model(clocked_model(merged_model(smf.tracks))))
}

/// What decoding a byte stream yields: the parse errors pass through, and a
/// parsed file yields its resolution and notes.
pub open spec fn spec_decode(bytes: Seq<u8>) -> Result<DecodedModel, MidiError> {
    match spec_parse_smf(bytes) {
        Result::Err(e) => Result::Err(e),
        Result::Ok(smf) => Result::Ok(
            DecodedModel { ticks_per_quarter: smf.ticks_per_quarter, notes: decoded_notes(smf) },
        ),
    }
}

/// Decode a complete Standard MIDI File held in memory.
///
/// Succeeds exactly on the byte streams `spec_parse_smf` accepts, returning
/// exactly the notes `spec_decode` describes; a structurally broken buffer
/// fails with `MalformedFile`, a frame-timed one with `UnsupportedTiming`,
/// and nothing is decoded partially. The returned notes are sorted by onset
/// ascending, and every onset and duration is non-negative.
pub fn load_midi_from_memory(content: &[u8]) -> (r: Result<DecodedMidi, MidiError>)
    ensures
        match spec_decode(content@) {
            Result::Ok(d) => r matches Result::Ok(x) && x.model() == d,
            Result::Err(e) => r == Result::<DecodedMidi, MidiError>::Err(e),
        },
        r matches Result::Ok(d) ==> notes_sorted(d.model().notes),
        r matches Result::Ok(d) ==> forall|i: int|
            0 <= i < d.model().notes.len() ==> (#[trigger] d.model().notes[i]).onset >= 0
                && d.model().notes[i].duration >= 0,
{
    let smf = match parse_smf(content) {
        Result::Err(e) => {
            return Result::Err(e);
        },
        Result::Ok(smf) => smf,
    };
    let merged = merge_tracks(&smf.tracks);
    let clocked = clock_events(&merged);
    let completed = reconstruct(&clocked);
    let notes = sort_notes(completed);
    proof {
        let ghost d = DecodedMidi { ticks_per_quarter: smf.ticks_per_quarter, notes };
        assert(notes_model(notes@) == decoded_notes(smf.model()));
        assert forall|i: int| 0 <= i < notes_model(notes@).len() implies (#[trigger] notes_model(
            notes@,
        )[i]).onset >= 0 && notes_model(notes@)[i].duration >= 0 by {
            assert(notes_model(notes@)[i] == notes@[i].model());
        }
    }
    Result::Ok(DecodedMidi { ticks_per_quarter: smf.ticks_per_quarter, notes })
}

} // verus!
