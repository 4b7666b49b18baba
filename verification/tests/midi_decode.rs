//! Decoder tests over hand-built Standard MIDI File byte streams.

use klok::decode::DecodedMidi;
use klok::load_midi_from_memory;
use klok::MidiError;

/// Header chunk: `MThd`, length 6, format 0, the given track count and
/// division word.
fn header(ntracks: u16, division: u16) -> Vec<u8> {
    let mut v = vec![0x4d, 0x54, 0x68, 0x64, 0, 0, 0, 6, 0, 0];
    v.extend_from_slice(&ntracks.to_be_bytes());
    v.extend_from_slice(&division.to_be_bytes());
    v
}

/// Track chunk: `MTrk`, length, body.
fn track(body: &[u8]) -> Vec<u8> {
    let mut v = vec![0x4d, 0x54, 0x72, 0x6b];
    v.extend_from_slice(&(body.len() as u32).to_be_bytes());
    v.extend_from_slice(body);
    v
}

fn file(division: u16, tracks: &[Vec<u8>]) -> Vec<u8> {
    let mut v = header(tracks.len() as u16, division);
    for t in tracks {
        v.extend_from_slice(t);
    }
    v
}

fn decode(bytes: &[u8]) -> DecodedMidi {
    load_midi_from_memory(bytes).expect("expected a successful decode")
}

#[test]
fn empty_file_no_tracks_gives_no_notes() {
    let bytes = header(0, 480);
    let d = decode(&bytes);
    assert_eq!(d.ticks_per_quarter, 480);
    assert_eq!(d.notes.len(), 0);
}

#[test]
fn track_without_note_events_gives_no_notes() {
    // a tempo change and an end-of-track meta event, nothing else
    let body = [
        0x00, 0xff, 0x51, 0x03, 0x07, 0xa1, 0x20, // tempo 500000
        0x00, 0xff, 0x2f, 0x00, // end of track
    ];
    let bytes = file(480, &[track(&body)]);
    let d = decode(&bytes);
    assert_eq!(d.notes.len(), 0);
}

#[test]
fn single_note_default_tempo() {
    // NoteOn ch0 pitch 60 vel 100 at tick 0; NoteOff at tick 480
    let body = [
        0x00, 0x90, 60, 100, //
        0x83, 0x60, 0x80, 60, 0, // delta 480
        0x00, 0xff, 0x2f, 0x00,
    ];
    let bytes = file(480, &[track(&body)]);
    let d = decode(&bytes);
    assert_eq!(d.ticks_per_quarter, 480);
    assert_eq!(d.notes.len(), 1);
    let n = &d.notes[0];
    assert_eq!(n.note, 60);
    assert_eq!(n.channel, 0);
    assert_eq!(n.velocity, 100);
    assert_eq!(n.onset, 0);
    // 480 ticks at the default 500000 us per quarter
    assert_eq!(n.duration, 480 * 500000);
    // exactly half a second: duration / (tpq * 1_000_000) == 0.5
    assert_eq!(n.duration * 2, 480u128 * 1_000_000);
}

#[test]
fn tempo_then_one_quarter_note() {
    // tempo T at tick 0, NoteOn at tick tpq, NoteOff at tick 2*tpq:
    // exactly one note with onset and duration of T/1_000_000 seconds
    let tpq: u16 = 96;
    let t: u32 = 600000;
    let body = [
        0x00,
        0xff,
        0x51,
        0x03,
        (t >> 16) as u8,
        (t >> 8) as u8,
        t as u8,
        0x60,
        0x90,
        64,
        80, // delta 96 = tpq
        0x60,
        0x80,
        64,
        0,
        0x00,
        0xff,
        0x2f,
        0x00,
    ];
    let bytes = file(tpq, &[track(&body)]);
    let d = decode(&bytes);
    assert_eq!(d.notes.len(), 1);
    let n = &d.notes[0];
    // onset units / (tpq * 1e6) == T / 1e6  <=>  onset units == T * tpq
    assert_eq!(n.onset, t as u128 * tpq as u128);
    assert_eq!(n.duration, t as u128 * tpq as u128);
    assert_eq!(n.note, 64);
    assert_eq!(n.velocity, 80);
}

#[test]
fn zero_velocity_note_on_closes_at_same_tick() {
    // NoteOn vel 64 then NoteOn vel 0 for the same key at the same tick:
    // one note of duration 0 carrying the onset velocity
    let body = [
        0x00, 0x90, 72, 64, //
        0x00, 0x90, 72, 0, //
        0x00, 0xff, 0x2f, 0x00,
    ];
    let bytes = file(480, &[track(&body)]);
    let d = decode(&bytes);
    assert_eq!(d.notes.len(), 1);
    assert_eq!(d.notes[0].duration, 0);
    assert_eq!(d.notes[0].onset, 0);
    assert_eq!(d.notes[0].velocity, 64);
}

#[test]
fn frame_based_timing_is_rejected() {
    // division with the high bit set declares SMPTE timing
    let bytes = header(0, 0x8000 | (25u16 << 8) | 40);
    let r = load_midi_from_memory(&bytes);
    assert_eq!(r.unwrap_err(), MidiError::UnsupportedTiming);
}

#[test]
fn frame_based_timing_beats_track_contents() {
    let body = [0x00, 0x90, 60, 100, 0x00, 0x80, 60, 0];
    let mut bytes = header(1, 0x8000);
    bytes.extend_from_slice(&track(&body));
    let r = load_midi_from_memory(&bytes);
    assert_eq!(r.unwrap_err(), MidiError::UnsupportedTiming);
}

#[test]
fn orphan_note_off_is_ignored() {
    // a NoteOff for a key never opened, between two matched events
    let body = [
        0x00, 0x80, 40, 0, // orphan off
        0x00, 0x90, 60, 90, //
        0x60, 0x80, 60, 0, //
        0x00, 0xff, 0x2f, 0x00,
    ];
    let bytes = file(96, &[track(&body)]);
    let d = decode(&bytes);
    assert_eq!(d.notes.len(), 1);
    assert_eq!(d.notes[0].note, 60);
}

#[test]
fn same_pitch_on_two_channels_yields_two_notes() {
    // overlapping notes, same pitch, channels 0 and 3
    let body = [
        0x00, 0x90, 60, 50, // ch0 on at 0
        0x10, 0x93, 60, 70, // ch3 on at 16
        0x10, 0x80, 60, 0, // ch0 off at 32
        0x10, 0x83, 60, 0, // ch3 off at 48
        0x00, 0xff, 0x2f, 0x00,
    ];
    let bytes = file(96, &[track(&body)]);
    let d = decode(&bytes);
    assert_eq!(d.notes.len(), 2);
    assert_eq!(d.notes[0].channel, 0);
    assert_eq!(d.notes[0].velocity, 50);
    assert_eq!(d.notes[1].channel, 3);
    assert_eq!(d.notes[1].velocity, 70);
    // both sound over [16, 32): truly overlapping, both kept whole
    assert!(d.notes[0].onset < d.notes[1].onset);
    assert!(d.notes[1].onset < d.notes[0].onset + d.notes[0].duration);
}

#[test]
fn output_is_sorted_by_onset_across_tracks() {
    // the second track's note starts earlier; the output is sorted by onset
    let t1 = [0x40u8, 0x90, 60, 10, 0x40, 0x80, 60, 0];
    let t2 = [0x00u8, 0x91, 62, 20, 0x20, 0x81, 62, 0];
    let bytes = file(96, &[track(&t1), track(&t2)]);
    let d = decode(&bytes);
    assert_eq!(d.notes.len(), 2);
    assert!(d.notes[0].onset <= d.notes[1].onset);
    assert_eq!(d.notes[0].note, 62);
    assert_eq!(d.notes[1].note, 60);
}

#[test]
fn retrigger_overwrites_the_first_onset() {
    // a second NoteOn before the close: only the later interval is emitted
    let body = [
        0x00, 0x90, 60, 30, //
        0x20, 0x90, 60, 40, // retrigger at tick 32
        0x20, 0x80, 60, 0, // off at tick 64
        0x00, 0xff, 0x2f, 0x00,
    ];
    let bytes = file(96, &[track(&body)]);
    let d = decode(&bytes);
    assert_eq!(d.notes.len(), 1);
    assert_eq!(d.notes[0].velocity, 40);
    assert_eq!(d.notes[0].onset, 32u128 * 500000);
    assert_eq!(d.notes[0].duration, 32u128 * 500000);
}

#[test]
fn unclosed_note_is_dropped() {
    let body = [
        0x00, 0x90, 60, 90, //
        0x00, 0xff, 0x2f, 0x00,
    ];
    let bytes = file(96, &[track(&body)]);
    let d = decode(&bytes);
    assert_eq!(d.notes.len(), 0);
}

#[test]
fn running_status_is_applied() {
    // one explicit NoteOn status, then a second on and two offs through
    // running status (note-on with velocity 0)
    let body = [
        0x00, 0x90, 60, 90, //
        0x00, 64, 90, // running status: NoteOn 64
        0x30, 60, 0, // running status: closes 60
        0x10, 64, 0, // running status: closes 64
        0x00, 0xff, 0x2f, 0x00,
    ];
    let bytes = file(96, &[track(&body)]);
    let d = decode(&bytes);
    assert_eq!(d.notes.len(), 2);
    assert_eq!(d.notes[0].note, 60);
    assert_eq!(d.notes[0].duration, 48u128 * 500000);
    assert_eq!(d.notes[1].note, 64);
    assert_eq!(d.notes[1].duration, 64u128 * 500000);
}

#[test]
fn tempo_change_applies_only_after_its_tick() {
    // note spans the tempo change: first 48 ticks at 500000, next 48 at
    // 250000
    let body = [
        0x00, 0x90, 60, 90, //
        0x30, 0xff, 0x51, 0x03, 0x03, 0xd0, 0x90, // tempo 250000 at tick 48
        0x30, 0x80, 60, 0, // off at tick 96
        0x00, 0xff, 0x2f, 0x00,
    ];
    let bytes = file(96, &[track(&body)]);
    let d = decode(&bytes);
    assert_eq!(d.notes.len(), 1);
    assert_eq!(d.notes[0].duration, 48u128 * 500000 + 48u128 * 250000);
}

#[test]
fn bad_magic_is_malformed() {
    let mut bytes = header(0, 480);
    bytes[0] = 0x4e;
    assert_eq!(load_midi_from_memory(&bytes).unwrap_err(), MidiError::MalformedFile);
}

#[test]
fn truncated_header_is_malformed() {
    let bytes = vec![0x4d, 0x54, 0x68, 0x64, 0, 0];
    assert_eq!(load_midi_from_memory(&bytes).unwrap_err(), MidiError::MalformedFile);
}

#[test]
fn short_declared_header_is_malformed() {
    let mut bytes = header(0, 480);
    bytes[7] = 5; // declared header length below six
    assert_eq!(load_midi_from_memory(&bytes).unwrap_err(), MidiError::MalformedFile);
}

#[test]
fn truncated_track_chunk_is_malformed() {
    let mut bytes = header(1, 480);
    let t = track(&[0x00, 0x90, 60, 100]);
    bytes.extend_from_slice(&t);
    bytes.pop(); // chunk body shorter than its declared length
    assert_eq!(load_midi_from_memory(&bytes).unwrap_err(), MidiError::MalformedFile);
}

#[test]
fn overlong_delta_is_malformed() {
    // five continuation bytes make an invalid variable-length quantity
    let body = [0x81, 0x81, 0x81, 0x81, 0x01, 0x90, 60, 100];
    let bytes = file(480, &[track(&body)]);
    assert_eq!(load_midi_from_memory(&bytes).unwrap_err(), MidiError::MalformedFile);
}

#[test]
fn event_without_status_is_malformed() {
    // a data byte with no running status to fall back on
    let body = [0x00, 0x40, 0x40];
    let bytes = file(480, &[track(&body)]);
    assert_eq!(load_midi_from_memory(&bytes).unwrap_err(), MidiError::MalformedFile);
}

#[test]
fn unknown_chunks_are_skipped() {
    let mut bytes = header(1, 96);
    // an unknown chunk type between header and track
    bytes.extend_from_slice(&[0x58, 0x59, 0x5a, 0x5a, 0, 0, 0, 2, 7, 7]);
    let body = [0x00, 0x90, 60, 90, 0x10, 0x80, 60, 0];
    bytes.extend_from_slice(&track(&body));
    let d = decode(&bytes);
    assert_eq!(d.notes.len(), 1);
}

#[test]
fn ties_at_equal_onset_keep_completion_order() {
    // two notes closing at the same onset tick across tracks: track order
    // is kept by the stable sort
    let t1 = [0x00u8, 0x90, 50, 10, 0x10, 0x80, 50, 0];
    let t2 = [0x00u8, 0x91, 51, 20, 0x10, 0x81, 51, 0];
    let bytes = file(96, &[track(&t1), track(&t2)]);
    let d = decode(&bytes);
    assert_eq!(d.notes.len(), 2);
    assert_eq!(d.notes[0].onset, d.notes[1].onset);
    assert_eq!(d.notes[0].note, 50);
    assert_eq!(d.notes[1].note, 51);
}

#[test]
fn sysex_and_meta_are_skipped_without_losing_alignment() {
    let body = [
        0x00, 0xf0, 0x02, 0x01, 0x02, // sysex, length 2
        0x00, 0x90, 60, 90, //
        0x10, 0xff, 0x01, 0x03, 0x61, 0x62, 0x63, // text meta
        0x10, 0x80, 60, 0, //
    ];
    let bytes = file(96, &[track(&body)]);
    let d = decode(&bytes);
    assert_eq!(d.notes.len(), 1);
    assert_eq!(d.notes[0].duration, 32u128 * 500000);
}

#[test]
fn zero_tempo_freezes_the_clock() {
    // a tempo of zero microseconds per quarter: ticks pass, time does not
    let body = [
        0x00, 0xff, 0x51, 0x03, 0, 0, 0, // tempo 0
        0x10, 0x90, 60, 90, //
        0x10, 0x80, 60, 0, //
    ];
    let bytes = file(96, &[track(&body)]);
    let d = decode(&bytes);
    assert_eq!(d.notes.len(), 1);
    assert_eq!(d.notes[0].onset, 0);
    assert_eq!(d.notes[0].duration, 0);
}

#[test]
fn longer_declared_header_is_accepted() {
    // a header that declares eight bytes: the two extra are skipped
    let mut v = vec![0x4d, 0x54, 0x68, 0x64, 0, 0, 0, 8, 0, 0, 0, 1];
    v.extend_from_slice(&480u16.to_be_bytes());
    v.extend_from_slice(&[0xaa, 0xbb]); // extra header bytes
    let body = [0x00, 0x90, 60, 90, 0x10, 0x80, 60, 0];
    v.extend_from_slice(&track(&body));
    let d = decode(&v);
    assert_eq!(d.ticks_per_quarter, 480);
    assert_eq!(d.notes.len(), 1);
}

#[test]
fn error_descriptions_are_stable() {
    assert_eq!(MidiError::MalformedFile.describe(), "failed to parse midi");
    assert_eq!(
        MidiError::UnsupportedTiming.describe(),
        "SMPTE time formats are not supported"
    );
}
