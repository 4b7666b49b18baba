//! Core data model: event kinds, delta-encoded track events, events stamped
//! with absolute ticks or exact timestamps, completed notes, and the error
//! taxonomy of the decoder.

use vstd::prelude::*;

verus! {

/// The kinds of track events the decoder distinguishes. Everything that is
/// neither a note boundary nor a tempo change collapses into `Other`, which
/// keeps the timeline aligned without carrying the payload along.
#[derive(Clone, Copy, PartialEq, Eq, Structural, Debug)]
pub enum EventKind {
    NoteOn { channel: u8, pitch: u8, velocity: u8 },
    NoteOff { channel: u8, pitch: u8, velocity: u8 },
    Tempo { micros_per_quarter: u32 },
    Other,
}

/// Field bounds the parser guarantees: channels are 4 bits, data bytes 7 bits,
/// and a tempo is a 24-bit big-endian quantity.
pub open spec fn kind_wf(k: EventKind) -> bool {
    match k {
        EventKind::NoteOn { channel, pitch, velocity } => channel < 16 && pitch < 128
            && velocity < 128,
        EventKind::NoteOff { channel, pitch, velocity } => channel < 16 && pitch < 128
            && velocity < 128,
        EventKind::Tempo { micros_per_quarter } => micros_per_quarter < 0x1000000,
        EventKind::Other => true,
    }
}

/// One track event as it appears in the file: a delta time in ticks relative
/// to the previous event of the same track, and the event kind.
#[derive(Clone, Copy, PartialEq, Eq, Structural, Debug)]
pub struct RawEvent {
    pub delta: u32,
    pub kind: EventKind,
}

/// A delta time is a variable-length quantity of at most four 7-bit groups.
pub open spec fn raw_event_wf(e: RawEvent) -> bool {
    e.delta < 0x10000000 && kind_wf(e.kind)
}

pub open spec fn track_wf(t: Seq<RawEvent>) -> bool {
    forall|i: int| 0 <= i < t.len() ==> raw_event_wf(#[trigger] t[i])
}

pub open spec fn tracks_wf(ts: Seq<Seq<RawEvent>>) -> bool {
    forall|i: int| 0 <= i < ts.len() ==> track_wf(#[trigger] ts[i])
}

/// An event placed on the merged timeline at its absolute tick.
#[derive(Clone, Copy, PartialEq, Eq, Structural, Debug)]
pub struct TickedEvent {
    pub tick: u128,
    pub kind: EventKind,
}

/// Mathematical counterpart of `TickedEvent`: the tick is unbounded.
pub ghost struct TickedModel {
    pub tick: int,
    pub kind: EventKind,
}

impl TickedEvent {
    pub open spec fn model(self) -> TickedModel {
        TickedModel { tick: self.tick as int, kind: self.kind }
    }
}

/// An event stamped with its exact wall-clock position. `time` counts units
/// of `1 / (ticks_per_quarter * 1_000_000)` seconds.
#[derive(Clone, Copy, PartialEq, Eq, Structural, Debug)]
pub struct ClockedEvent {
    pub time: u128,
    pub kind: EventKind,
}

/// Mathematical counterpart of `ClockedEvent`.
pub ghost struct ClockedModel {
    pub time: int,
    pub kind: EventKind,
}

impl ClockedEvent {
    pub open spec fn model(self) -> ClockedModel {
        ClockedModel { time: self.time as int, kind: self.kind }
    }
}

/// A completed note. `onset` and `duration` count units of
/// `1 / (ticks_per_quarter * 1_000_000)` seconds, so that
/// `onset / (ticks_per_quarter * 1_000_000)` is the onset in seconds, exactly.
/// The velocity is the one recorded when the note started, not any value
/// carried by the closing event. The optional floating-point confidence
/// score of the output schema is always absent for this decoder, so it lives
/// only on the shell's serialized copy of this record.
#[derive(Clone, Copy, PartialEq, Eq, Structural, Debug)]
pub struct Note {
    pub note: u8,
    pub onset: u128,
    pub duration: u128,
    pub velocity: u8,
    pub channel: u8,
}

/// Mathematical counterpart of `Note`: times are unbounded.
pub ghost struct NoteModel {
    pub note: u8,
    pub onset: int,
    pub duration: int,
    pub velocity: u8,
    pub channel: u8,
}

impl Note {
    pub open spec fn model(self) -> NoteModel {
        NoteModel {
            note: self.note,
            onset: self.onset as int,
            duration: self.duration as int,
            velocity: self.velocity,
            channel: self.channel,
        }
    }
}

/// Why a decode failed. Semantically odd but structurally sound files (orphan
/// note-offs, re-triggered or unclosed notes) are not errors.
#[derive(Clone, Copy, PartialEq, Eq, Structural, Debug)]
pub enum MidiError {
    /// The buffer does not conform to the container's chunk structure:
    /// bad magic, truncated chunk, or an invalid variable-length quantity.
    MalformedFile,
    /// The timing block declares frame-based (absolute time-code) timing,
    /// which this decoder rejects outright.
    UnsupportedTiming,
}

impl MidiError {
    /// Descriptive text for callers that report the failure.
    pub fn describe(&self) -> (r: &'static str)
        ensures
            *self is MalformedFile ==> r@ == "failed to parse midi"@,
            *self is UnsupportedTiming ==> r@ == "SMPTE time formats are not supported"@,
    {
        match self {
            MidiError::MalformedFile => "failed to parse midi",
            MidiError::UnsupportedTiming => "SMPTE time formats are not supported",
        }
    }
}

} // verus!
