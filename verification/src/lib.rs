//! Decoder for Standard MIDI Files: turns a raw byte stream into a flat,
//! time-ordered list of note events, together with a few small helpers for
//! naming audio resources and parsing lyric files.
//!
//! Time inside the library is exact: an onset or duration is an integer count
//! of units of `1 / (ticks_per_quarter * 1_000_000)` seconds, so callers can
//! convert to seconds without the library committing to a floating-point
//! representation.

pub mod clock;
pub mod decode;
pub mod events;
pub mod laws;
pub mod lrc;
pub mod merge;
pub mod naming;
pub mod parse;
pub mod recon;

pub use decode::DecodedMidi;
pub use decode::load_midi_from_memory;
pub use events::EventKind;
pub use lrc::LyricLine;
pub use lrc::parse_lrc;
pub use naming::PlaylistItem;
pub use naming::with_extension;
pub use events::MidiError;
pub use events::Note;
pub use events::RawEvent;
