//! Properties of the decoder that relate its stages, stated and proved over
//! the specification functions the pipeline's contracts use.

use vstd::prelude::*;

use crate::clock::clock_from;
use crate::clock::clocked_model;
use crate::clock::lemma_clock_from_kinds;
use crate::events::ClockedModel;
use crate::events::EventKind;
use crate::events::NoteModel;
use crate::events::RawEvent;
use crate::merge::all_ticked_from;
use crate::merge::lemma_sort_ticked_all;
use crate::merge::merged_model;
use crate::merge::sort_ticked;
use crate::merge::ticked_from;
use crate::events::TickedModel;
use crate::decode::spec_decode;
use crate::parse::spec_parse_smf;
use crate::recon::recon_from;
use crate::recon::close_notes;
use crate::recon::close_map;
use crate::recon::sort_notes_model;

verus! {

/// An event that opens or closes a note.
pub open spec fn is_note_event(k: EventKind) -> bool {
    k is NoteOn || k is NoteOff
}

/// No event of any track opens or closes a note. Holds vacuously of a file
/// with no tracks at all.
pub open spec fn noteless_tracks(tracks: Seq<Seq<RawEvent>>) -> bool {
    forall|i: int, j: int|
        0 <= i < tracks.len() && 0 <= j < tracks[i].len() ==> !is_note_event(
            #[trigger] tracks[i][j].kind,
        )
}

/// Stamping ticks changes no event kind.
proof fn lemma_ticked_from_kinds(tr: Seq<RawEvent>, i: int, abs: int)
    requires
        0 <= i <= tr.len(),
    ensures
        ticked_from(tr, i, abs).len() == tr.len() - i,
        forall|k: int|
            0 <= k < tr.len() - i ==> (#[trigger] ticked_from(tr, i, abs)[k]).kind == tr[i
                + k].kind,
    decreases tr.len() - i,
{
    if i < tr.len() {
        let t = abs + tr[i].delta;
        lemma_ticked_from_kinds(tr, i + 1, t);
        let r = ticked_from(tr, i, abs);
        let rest = ticked_from(tr, i + 1, t);
        assert forall|k: int| 0 <= k < tr.len() - i implies (#[trigger] r[k]).kind == tr[i
            + k].kind by {
            if k > 0 {
                assert(r[k] == rest[k - 1]);
            }
        }
    }
}

/// A noteless track table puts no note event on the merged timeline.
proof fn lemma_all_ticked_noteless(tracks: Seq<Seq<RawEvent>>, i: int)
    requires
        0 <= i <= tracks.len(),
        noteless_tracks(tracks),
    ensures
        forall|k: int|
            0 <= k < all_ticked_from(tracks, i).len() ==> !is_note_event(
                (#[trigger] all_ticked_from(tracks, i)[k]).kind,
            ),
    decreases tracks.len() - i,
{
    if i < tracks.len() {
        lemma_all_ticked_noteless(tracks, i + 1);
        lemma_ticked_from_kinds(tracks[i], 0, 0);
        let r = all_ticked_from(tracks, i);
        let head = ticked_from(tracks[i], 0, 0);
        let rest = all_ticked_from(tracks, i + 1);
        assert forall|k: int| 0 <= k < r.len() implies !is_note_event((#[trigger] r[k]).kind) by {
            if k < head.len() {
                assert(r[k] == head[k]);
                assert(head[k].kind == tracks[i][k].kind);
            } else {
                assert(r[k] == rest[k - head.len()]);
            }
        }
    }
}

/// A stream without note events completes no notes, whatever is sounding.
proof fn lemma_recon_noteless(evs: Seq<ClockedModel>, i: int, ongoing: Map<(u8, u8), (int, u8)>)
    requires
        forall|k: int| 0 <= k < evs.len() ==> !is_note_event((#[trigger] evs[k]).kind),
    ensures
        recon_from(evs, i, ongoing) == Seq::<NoteModel>::empty(),
    decreases evs.len() - i,
{
    if 0 <= i < evs.len() {
        lemma_recon_noteless(evs, i + 1, ongoing);
    }
}

/// An input with zero tracks, or with no note event in any track, decodes
/// to an empty note list — not to an error.
pub proof fn lemma_noteless_decodes_empty(bytes: Seq<u8>)
    requires
        spec_parse_smf(bytes) matches Ok(smf) && noteless_tracks(smf.tracks),
    ensures
        spec_decode(bytes) matches Ok(d) && d.notes.len() == 0,
{
    let smf = spec_parse_smf(bytes)->Ok_0;
    let flat = all_ticked_from(smf.tracks, 0);
    lemma_all_ticked_noteless(smf.tracks, 0);
    lemma_sort_ticked_all(flat, |x: TickedModel| !is_note_event(x.kind));
    let merged = merged_model(smf.tracks);
    lemma_clock_from_kinds(merged, 0, 0, crate::clock::default_tempo(), 0);
    let clocked = clocked_model(merged);
    assert forall|k: int| 0 <= k < clocked.len() implies !is_note_event(
        (#[trigger] clocked[k]).kind,
    ) by {
        assert(clocked[k].kind == merged[k].kind);
        assert((|x: TickedModel| !is_note_event(x.kind))(sort_ticked(flat)[k]));
    }
    lemma_recon_noteless(clocked, 0, Map::empty());
    assert(sort_notes_model(Seq::<NoteModel>::empty()).len() == 0);
}

/// A note-off, or a zero-velocity note-on, for a key that is not sounding
/// completes nothing and changes nothing: the decode simply moves on.
pub proof fn lemma_orphan_close_ignored(
    evs: Seq<ClockedModel>,
    i: int,
    ongoing: Map<(u8, u8), (int, u8)>,
    channel: u8,
    pitch: u8,
)
    requires
        0 <= i < evs.len(),
        match evs[i].kind {
            EventKind::NoteOff { channel: c, pitch: p, velocity: _ } => c == channel && p == pitch,
            EventKind::NoteOn { channel: c, pitch: p, velocity: v } => c == channel && p == pitch
                && v == 0,
            _ => false,
        },
        !ongoing.dom().contains((channel, pitch)),
    ensures
        recon_from(evs, i, ongoing) == recon_from(evs, i + 1, ongoing),
{
    assert(close_notes(ongoing, channel, pitch, evs[i].time) =~= Seq::<NoteModel>::empty());
    assert(close_map(ongoing, channel, pitch) == ongoing);
    assert(Seq::<NoteModel>::empty() + recon_from(evs, i + 1, ongoing) =~= recon_from(
        evs,
        i + 1,
        ongoing,
    ));
}

/// A file whose timing block declares frame-based (absolute) timing is
/// rejected with `UnsupportedTiming` before any track is read: it yields no
/// notes, whatever its tracks hold.
pub proof fn lemma_frame_timing_rejected(bytes: Seq<u8>)
    requires
        bytes.len() >= 8,
        bytes[0] == 0x4d && bytes[1] == 0x54 && bytes[2] == 0x68 && bytes[3] == 0x64,
        6 <= crate::parse::be32(bytes, 4),
        8 + crate::parse::be32(bytes, 4) <= bytes.len(),
        crate::parse::be16(bytes, 12) >= 0x8000,
    ensures
        spec_decode(bytes) == Result::<crate::decode::DecodedModel, crate::events::MidiError>::Err(
            crate::events::MidiError::UnsupportedTiming,
        ),
{
}

} // verus!
