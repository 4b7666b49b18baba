//! Byte-stream parser: validates the container's chunk structure, extracts
//! the timing resolution, and turns each track chunk into its ordered list of
//! delta-time / event-kind pairs.
//!
//! The specification functions below define the file grammar; the executable
//! parser is proved to return exactly what they describe.

use vstd::prelude::*;

use crate::events::EventKind;
use crate::events::MidiError;
use crate::events::RawEvent;
use crate::events::kind_wf;
use crate::events::raw_event_wf;
use crate::events::track_wf;
use crate::events::tracks_wf;

verus! {

/// Big-endian 16-bit quantity starting at `pos`.
pub open spec fn be16(bytes: Seq<u8>, pos: int) -> int {
    bytes[pos] * 0x100 + bytes[pos + 1]
}

/// Big-endian 24-bit quantity starting at `pos`.
pub open spec fn be24(bytes: Seq<u8>, pos: int) -> int {
    bytes[pos] * 0x10000 + bytes[pos + 1] * 0x100 + bytes[pos + 2]
}

/// Big-endian 32-bit quantity starting at `pos`.
pub open spec fn be32(bytes: Seq<u8>, pos: int) -> int {
    bytes[pos] * 0x1000000 + bytes[pos + 1] * 0x10000 + bytes[pos + 2] * 0x100 + bytes[pos + 3]
}

/// The low seven bits of a data byte. Data bytes with the high bit set are
/// masked rather than rejected, as permissive readers of the format do.
pub open spec fn low7(b: u8) -> u8 {
    if b < 0x80 {
        b
    } else {
        (b - 0x80) as u8
    }
}

/// A delta time or length: a variable-length quantity of one to four bytes,
/// each carrying seven bits, all but the last with the high bit set. Returns
/// the value and the position just past it, or `None` when the bytes run out
/// before `end` or a fifth continuation byte would be needed.
pub open spec fn parse_vlq(bytes: Seq<u8>, pos: int, end: int) -> Option<(u32, int)> {
    if pos >= end {
        Option::None
    } else {
        let b0 = bytes[pos];
        if b0 < 0x80 {
            Option::Some((b0 as u32, pos + 1))
        } else if pos + 1 >= end {
            Option::None
        } else {
            let b1 = bytes[pos + 1];
            if b1 < 0x80 {
                Option::Some((((b0 - 0x80) * 0x80 + b1) as u32, pos + 2))
            } else if pos + 2 >= end {
                Option::None
            } else {
                let b2 = bytes[pos + 2];
                if b2 < 0x80 {
                    Option::Some(
                        (((b0 - 0x80) * 0x4000 + (b1 - 0x80) * 0x80 + b2) as u32, pos + 3),
                    )
                } else if pos + 3 >= end {
                    Option::None
                } else {
                    let b3 = bytes[pos + 3];
                    if b3 < 0x80 {
                        Option::Some(
                            (
                                ((b0 - 0x80) * 0x200000 + (b1 - 0x80) * 0x4000 + (b2 - 0x80) * 0x80
                                    + b3) as u32,
                                pos + 4,
                            ),
                        )
                    } else {
                        Option::None
                    }
                }
            }
        }
    }
}

/// Parse the body of one event whose status byte is `status`, with the data
/// bytes starting at `dpos`. Returns the event kind, the position just past
/// the event, and the running status left for the next event: channel
/// messages install themselves as running status, system-exclusive and meta
/// events cancel it.
pub open spec fn parse_with_status(bytes: Seq<u8>, dpos: int, end: int, status: u8) -> Option<
    (EventKind, int, Option<u8>),
> {
    if status < 0x80 {
        // not a status byte; nothing can have installed it as running status
        Option::None
    } else if status < 0x90 {
        if end - dpos >= 2 {
            Option::Some(
                (
                    EventKind::NoteOff {
                        channel: (status - 0x80) as u8,
                        pitch: low7(bytes[dpos]),
                        velocity: low7(bytes[dpos + 1]),
                    },
                    dpos + 2,
                    Option::Some(status),
                ),
            )
        } else {
            Option::None
        }
    } else if status < 0xa0 {
        if end - dpos >= 2 {
            Option::Some(
                (
                    EventKind::NoteOn {
                        channel: (status - 0x90) as u8,
                        pitch: low7(bytes[dpos]),
                        velocity: low7(bytes[dpos + 1]),
                    },
                    dpos + 2,
                    Option::Some(status),
                ),
            )
        } else {
            Option::None
        }
    } else if status < 0xc0 {
        // polyphonic aftertouch and controller changes: two data bytes
        if end - dpos >= 2 {
            Option::Some((EventKind::Other, dpos + 2, Option::Some(status)))
        } else {
            Option::None
        }
    } else if status < 0xe0 {
        // program change and channel aftertouch: one data byte
        if end - dpos >= 1 {
            Option::Some((EventKind::Other, dpos + 1, Option::Some(status)))
        } else {
            Option::None
        }
    } else if status < 0xf0 {
        // pitch bend: two data bytes
        if end - dpos >= 2 {
            Option::Some((EventKind::Other, dpos + 2, Option::Some(status)))
        } else {
            Option::None
        }
    } else if status == 0xf0 || status == 0xf7 {
        // system exclusive or escape: a length followed by that many bytes
        match parse_vlq(bytes, dpos, end) {
            Option::None => Option::None,
            Option::Some((l, p)) => if p + l <= end {
                Option::Some((EventKind::Other, p + l, Option::None))
            } else {
                Option::None
            },
        }
    } else if status == 0xff {
        // meta event: a type byte, a length, and that many bytes of payload;
        // type 0x51 with a three-byte payload is a tempo change
        if dpos >= end {
            Option::None
        } else {
            let ty = bytes[dpos];
            match parse_vlq(bytes, dpos + 1, end) {
                Option::None => Option::None,
                Option::Some((l, p)) => if p + l <= end {
                    if ty == 0x51 && l == 3 {
                        Option::Some(
                            (
                                EventKind::Tempo { micros_per_quarter: be24(bytes, p) as u32 },
                                p + l,
                                Option::None,
                            ),
                        )
                    } else {
                        Option::Some((EventKind::Other, p + l, Option::None))
                    }
                } else {
                    Option::None
                },
            }
        }
    } else {
        // 0xf1-0xf6 and 0xf8-0xfe have no place inside a track chunk
        Option::None
    }
}

/// Parse one event at `pos`: either an explicit status byte followed by its
/// data, or a data byte that reuses the running status.
pub open spec fn parse_event(bytes: Seq<u8>, pos: int, end: int, running: Option<u8>) -> Option<
    (EventKind, int, Option<u8>),
> {
    if pos >= end {
        Option::None
    } else {
        let b = bytes[pos];
        if b >= 0x80 {
            parse_with_status(bytes, pos + 1, end, b)
        } else {
            match running {
                Option::Some(st) => parse_with_status(bytes, pos, end, st),
                Option::None => Option::None,
            }
        }
    }
}

/// Parse the events of one track chunk occupying `pos .. end`: a sequence of
/// delta-time / event pairs that must fill the chunk exactly.
pub open spec fn parse_track(bytes: Seq<u8>, pos: int, end: int, running: Option<u8>) -> Option<
    Seq<RawEvent>,
>
    decreases end - pos,
{
    if pos == end {
        Option::Some(Seq::empty())
    } else if pos < 0 || pos > end {
        Option::None
    } else {
        match parse_vlq(bytes, pos, end) {
            Option::None => Option::None,
            Option::Some((delta, p1)) => match parse_event(bytes, p1, end, running) {
                Option::None => Option::None,
                Option::Some((kind, p2, run2)) => if p2 <= pos || p2 > end {
                    Option::None
                } else {
                    match parse_track(bytes, p2, end, run2) {
                        Option::None => Option::None,
                        Option::Some(rest) => Option::Some(seq![RawEvent { delta, kind }] + rest),
                    }
                },
            },
        }
    }
}

/// Parse every chunk from `pos` to the end of the buffer. Track chunks
/// contribute their event lists in file order; chunks of any other type are
/// skipped whole. A chunk header that is truncated, or a chunk body that runs
/// past the buffer, is a structural violation.
pub open spec fn parse_chunks(bytes: Seq<u8>, pos: int) -> Option<Seq<Seq<RawEvent>>>
    decreases bytes.len() - pos,
{
    if pos == bytes.len() {
        Option::Some(Seq::empty())
    } else if pos < 0 || pos + 8 > bytes.len() {
        Option::None
    } else {
        let clen = be32(bytes, pos + 4);
        if pos + 8 + clen > bytes.len() {
            Option::None
        } else {
            let rest = parse_chunks(bytes, pos + 8 + clen);
            if bytes[pos] == 0x4d && bytes[pos + 1] == 0x54 && bytes[pos + 2] == 0x72 && bytes[pos
                + 3] == 0x6b {
                match (parse_track(bytes, pos + 8, pos + 8 + clen, Option::None), rest) {
                    (Option::Some(evs), Option::Some(r)) => Option::Some(seq![evs] + r),
                    _ => Option::None,
                }
            } else {
                rest
            }
        }
    }
}

/// A parsed file: the timing resolution in ticks per quarter note, and each
/// track's event list in file order.
pub ghost struct SmfModel {
    pub ticks_per_quarter: u16,
    pub tracks: Seq<Seq<RawEvent>>,
}

/// The whole file grammar. The header chunk must carry the `MThd` magic and a
/// declared length of at least six; the two header fields the decoder uses
/// are the division word (offset 12) and, through `parse_chunks`, the track
/// chunks that follow the header. A division word with the high bit set
/// declares frame-based timing and is rejected before any track is read.
pub open spec fn spec_parse_smf(bytes: Seq<u8>) -> Result<SmfModel, MidiError> {
    if bytes.len() < 8 {
        Result::Err(MidiError::MalformedFile)
    } else if !(bytes[0] == 0x4d && bytes[1] == 0x54 && bytes[2] == 0x68 && bytes[3] == 0x64) {
        Result::Err(MidiError::MalformedFile)
    } else {
        let hlen = be32(bytes, 4);
        if hlen < 6 || 8 + hlen > bytes.len() {
            Result::Err(MidiError::MalformedFile)
        } else if be16(bytes, 12) >= 0x8000 {
            Result::Err(MidiError::UnsupportedTiming)
        } else {
            match parse_chunks(bytes, 8 + hlen) {
                Option::None => Result::Err(MidiError::MalformedFile),
                Option::Some(tracks) => Result::Ok(
                    SmfModel { ticks_per_quarter: be16(bytes, 12) as u16, tracks },
                ),
            }
        }
    }
}

/// A parsed variable-length quantity fits in 28 bits and advances the
/// position by one to four bytes, never past `end`.
pub proof fn lemma_parse_vlq_bounds(bytes: Seq<u8>, pos: int, end: int)
    ensures
        parse_vlq(bytes, pos, end) matches Option::Some(vp) ==> vp.0 < 0x10000000 && pos < vp.1
            <= end,
{
}

/// A parsed event is well formed and strictly advances the position.
pub proof fn lemma_parse_event_wf(bytes: Seq<u8>, pos: int, end: int, running: Option<u8>)
    ensures
        parse_event(bytes, pos, end, running) matches Option::Some(kpr) ==> kind_wf(kpr.0) && pos
            < kpr.1 <= end,
{
    if pos < end {
        let b = bytes[pos];
        if b >= 0x80 {
            lemma_parse_with_status_wf(bytes, pos + 1, end, b);
        } else if let Option::Some(st) = running {
            lemma_parse_with_status_wf(bytes, pos, end, st);
        }
    }
}

/// An event body parsed for status `status` is well formed and ends in
/// `dpos .. end`.
pub proof fn lemma_parse_with_status_wf(bytes: Seq<u8>, dpos: int, end: int, status: u8)
    ensures
        parse_with_status(bytes, dpos, end, status) matches Option::Some(kpr) ==> kind_wf(kpr.0)
            && dpos < kpr.1 <= end,
{
    if status == 0xf0 || status == 0xf7 {
        lemma_parse_vlq_bounds(bytes, dpos, end);
    } else if status == 0xff && dpos < end {
        lemma_parse_vlq_bounds(bytes, dpos + 1, end);
    }
}

/// Everything `parse_track` returns satisfies the event bounds: deltas fit in
/// 28 bits, channels in 4, data bytes in 7, tempos in 24.
pub proof fn lemma_parse_track_wf(bytes: Seq<u8>, pos: int, end: int, running: Option<u8>)
    ensures
        parse_track(bytes, pos, end, running) matches Option::Some(evs) ==> track_wf(evs),
    decreases end - pos,
{
    if pos == end || pos < 0 || pos > end {
    } else {
        match parse_vlq(bytes, pos, end) {
            Option::None => {},
            Option::Some((delta, p1)) => match parse_event(bytes, p1, end, running) {
                Option::None => {},
                Option::Some((kind, p2, run2)) => {
                    if p2 <= pos || p2 > end {
                    } else {
                        lemma_parse_vlq_bounds(bytes, pos, end);
                        lemma_parse_event_wf(bytes, p1, end, running);
                        lemma_parse_track_wf(bytes, p2, end, run2);
                        if let Option::Some(rest) = parse_track(bytes, p2, end, run2) {
                            assert(kind_wf(kind));
                            assert(delta < 0x10000000);
                            assert forall|i: int|
                                0 <= i < (seq![RawEvent { delta, kind }] + rest).len() implies
                                raw_event_wf(#[trigger] (seq![RawEvent { delta, kind }] + rest)[i])
                            by {
                                if i > 0 {
                                    assert(raw_event_wf(rest[i - 1]));
                                }
                            }
                        }
                    }
                },
            },
        }
    }
}

/// Everything `parse_chunks` returns is made of well-formed tracks.
pub proof fn lemma_parse_chunks_wf(bytes: Seq<u8>, pos: int)
    ensures
        parse_chunks(bytes, pos) matches Option::Some(ts) ==> tracks_wf(ts),
    decreases bytes.len() - pos,
{
    if pos == bytes.len() || pos < 0 || pos + 8 > bytes.len() {
    } else {
        let clen = be32(bytes, pos + 4);
        if pos + 8 + clen > bytes.len() {
        } else {
            lemma_parse_chunks_wf(bytes, pos + 8 + clen);
            let rest = parse_chunks(bytes, pos + 8 + clen);
            if bytes[pos] == 0x4d && bytes[pos + 1] == 0x54 && bytes[pos + 2] == 0x72 && bytes[pos
                + 3] == 0x6b {
                lemma_parse_track_wf(bytes, pos + 8, pos + 8 + clen, Option::None);
                if let (Option::Some(evs), Option::Some(r)) = (
                    parse_track(bytes, pos + 8, pos + 8 + clen, Option::None),
                    rest,
                ) {
                    assert forall|i: int| 0 <= i < (seq![evs] + r).len() implies track_wf(
                        #[trigger] (seq![evs] + r)[i],
                    ) by {
                        if i > 0 {
                            assert(track_wf(r[i - 1]));
                        }
                    }
                }
            }
        }
    }
}

/// Read a variable-length quantity. Mirrors `parse_vlq` exactly.
fn read_vlq(bytes: &[u8], pos: usize, end: usize) -> (r: Option<(u32, usize)>)
    requires
        pos <= end,
        end <= bytes@.len(),
    ensures
        match r {
            Option::Some((v, p)) => parse_vlq(bytes@, pos as int, end as int) == Option::Some(
                (v, p as int),
            ) && pos < p <= end,
            Option::None => parse_vlq(bytes@, pos as int, end as int) is None,
        },
{
    if pos >= end {
        return Option::None;
    }
    let b0: u8 = bytes[pos];
    if b0 < 0x80 {
        return Option::Some((b0 as u32, pos + 1));
    }
    if pos + 1 >= end {
        return Option::None;
    }
    let b1: u8 = bytes[pos + 1];
    if b1 < 0x80 {
        return Option::Some(((b0 - 0x80) as u32 * 0x80 + b1 as u32, pos + 2));
    }
    if pos + 2 >= end {
        return Option::None;
    }
    let b2: u8 = bytes[pos + 2];
    if b2 < 0x80 {
        return Option::Some(
            ((b0 - 0x80) as u32 * 0x4000 + (b1 - 0x80) as u32 * 0x80 + b2 as u32, pos + 3),
        );
    }
    if pos + 3 >= end {
        return Option::None;
    }
    let b3: u8 = bytes[pos + 3];
    if b3 < 0x80 {
        return Option::Some(
            (
                (b0 - 0x80) as u32 * 0x200000 + (b1 - 0x80) as u32 * 0x4000 + (b2 - 0x80) as u32
                    * 0x80 + b3 as u32,
                pos + 4,
            ),
        );
    }
    Option::None
}

/// Read one event (status handling included). Mirrors `parse_event`.
fn read_event(bytes: &[u8], pos: usize, end: usize, running: Option<u8>) -> (r: Option<
    (EventKind, usize, Option<u8>),
>)
    requires
        pos <= end,
        end <= bytes@.len(),
    ensures
        match r {
            Option::Some((k, p, run2)) => parse_event(bytes@, pos as int, end as int, running)
                == Option::Some((k, p as int, run2)) && pos < p <= end,
            Option::None => parse_event(bytes@, pos as int, end as int, running) is None,
        },
{
    if pos >= end {
        return Option::None;
    }
    let b: u8 = bytes[pos];
    if b >= 0x80 {
        read_with_status(bytes, pos + 1, end, b)
    } else {
        match running {
            Option::Some(st) => read_with_status(bytes, pos, end, st),
            Option::None => Option::None,
        }
    }
}

/// Read an event body for a known status byte. Mirrors `parse_with_status`.
fn read_with_status(bytes: &[u8], dpos: usize, end: usize, status: u8) -> (r: Option<
    (EventKind, usize, Option<u8>),
>)
    requires
        dpos <= end,
        end <= bytes@.len(),
    ensures
        match r {
            Option::Some((k, p, run2)) => parse_with_status(bytes@, dpos as int, end as int, status)
                == Option::Some((k, p as int, run2)) && p <= end && p + 1 > dpos,
            Option::None => parse_with_status(bytes@, dpos as int, end as int, status) is None,
        },
{
    if status < 0x80 {
        Option::None
    } else if status < 0x90 {
        if end - dpos >= 2 {
            let d0: u8 = bytes[dpos];
            let d1: u8 = bytes[dpos + 1];
            Option::Some(
                (
                    EventKind::NoteOff {
                        channel: status - 0x80,
                        pitch: if d0 < 0x80 {
                            d0
                        } else {
                            d0 - 0x80
                        },
                        velocity: if d1 < 0x80 {
                            d1
                        } else {
                            d1 - 0x80
                        },
                    },
                    dpos + 2,
                    Option::Some(status),
                ),
            )
        } else {
            Option::None
        }
    } else if status < 0xa0 {
        if end - dpos >= 2 {
            let d0: u8 = bytes[dpos];
            let d1: u8 = bytes[dpos + 1];
            Option::Some(
                (
                    EventKind::NoteOn {
                        channel: status - 0x90,
                        pitch: if d0 < 0x80 {
                            d0
                        } else {
                            d0 - 0x80
                        },
                        velocity: if d1 < 0x80 {
                            d1
                        } else {
                            d1 - 0x80
                        },
                    },
                    dpos + 2,
                    Option::Some(status),
                ),
            )
        } else {
            Option::None
        }
    } else if status < 0xc0 {
        if end - dpos >= 2 {
            Option::Some((EventKind::Other, dpos + 2, Option::Some(status)))
        } else {
            Option::None
        }
    } else if status < 0xe0 {
        if end - dpos >= 1 {
            Option::Some((EventKind::Other, dpos + 1, Option::Some(status)))
        } else {
            Option::None
        }
    } else if status < 0xf0 {
        if end - dpos >= 2 {
            Option::Some((EventKind::Other, dpos + 2, Option::Some(status)))
        } else {
            Option::None
        }
    } else if status == 0xf0 || status == 0xf7 {
        match read_vlq(bytes, dpos, end) {
            Option::None => Option::None,
            Option::Some((l, p)) => {
                if l as usize <= end - p {
                    Option::Some((EventKind::Other, p + l as usize, Option::None))
                } else {
                    Option::None
                }
            },
        }
    } else if status == 0xff {
        if dpos >= end {
            return Option::None;
        }
        let ty: u8 = bytes[dpos];
        match read_vlq(bytes, dpos + 1, end) {
            Option::None => Option::None,
            Option::Some((l, p)) => {
                if l as usize <= end - p {
                    if ty == 0x51 && l == 3 {
                        let micros: u32 = bytes[p] as u32 * 0x10000 + bytes[p + 1] as u32 * 0x100
                            + bytes[p + 2] as u32;
                        Option::Some(
                            (
                                EventKind::Tempo { micros_per_quarter: micros },
                                p + 3,
                                Option::None,
                            ),
                        )
                    } else {
                        Option::Some((EventKind::Other, p + l as usize, Option::None))
                    }
                } else {
                    Option::None
                }
            },
        }
    } else {
        Option::None
    }
}

/// Wrap a sequence in `Some` after prepending `acc`; the shape the track
/// loop's invariant takes.
pub open spec fn prepend_events(acc: Seq<RawEvent>, o: Option<Seq<RawEvent>>) -> Option<
    Seq<RawEvent>,
> {
    match o {
        Option::Some(r) => Option::Some(acc + r),
        Option::None => Option::None,
    }
}

/// Read all events of one track chunk. Mirrors `parse_track`.
fn read_track(bytes: &[u8], start: usize, end: usize) -> (r: Option<Vec<RawEvent>>)
    requires
        start <= end,
        end <= bytes@.len(),
    ensures
        match r {
            Option::Some(evs) => parse_track(bytes@, start as int, end as int, Option::None)
                == Option::Some(evs@),
            Option::None => parse_track(bytes@, start as int, end as int, Option::None) is None,
        },
{
    let mut acc: Vec<RawEvent> = Vec::new();
    let mut pos: usize = start;
    let mut running: Option<u8> = Option::None;
    loop
        invariant
            start <= pos <= end,
            end <= bytes@.len(),
            parse_track(bytes@, start as int, end as int, Option::None) == prepend_events(
                acc@,
                parse_track(bytes@, pos as int, end as int, running),
            ),
        decreases end - pos,
    {
        if pos == end {
            proof {
                assert(parse_track(bytes@, pos as int, end as int, running) == Option::Some(
                    Seq::<RawEvent>::empty(),
                ));
                assert(acc@ + Seq::<RawEvent>::empty() =~= acc@);
            }
            return Option::Some(acc);
        }
        let vlq = read_vlq(bytes, pos, end);
        let (delta, p1) = match vlq {
            Option::None => {
                return Option::None;
            },
            Option::Some(dp) => dp,
        };
        let ev = read_event(bytes, p1, end, running);
        let (kind, p2, run2) = match ev {
            Option::None => {
                return Option::None;
            },
            Option::Some(kpr) => kpr,
        };
        proof {
            let ghost before = parse_track(bytes@, pos as int, end as int, running);
            let ghost rest = parse_track(bytes@, p2 as int, end as int, run2);
            assert(before == match rest {
                Option::Some(rs) => Option::Some(seq![RawEvent { delta, kind }] + rs),
                Option::None => Option::None::<Seq<RawEvent>>,
            });
            if let Option::Some(rs) = rest {
                assert((acc@ + (seq![RawEvent { delta, kind }] + rs)) =~= (acc@.push(
                    RawEvent { delta, kind },
                ) + rs));
            }
        }
        acc.push(RawEvent { delta, kind });
        pos = p2;
        running = run2;
    }
}

/// A parsed file in executable form.
pub struct Smf {
    pub ticks_per_quarter: u16,
    pub tracks: Vec<Vec<RawEvent>>,
}

/// The sequence-of-sequences a track table stands for.
pub open spec fn tracks_view(tracks: Seq<Vec<RawEvent>>) -> Seq<Seq<RawEvent>> {
    tracks.map_values(|t: Vec<RawEvent>| t@)
}

impl Smf {
    pub open spec fn model(&self) -> SmfModel {
        SmfModel {
            ticks_per_quarter: self.ticks_per_quarter,
            tracks: tracks_view(self.tracks@),
        }
    }
}

/// Wrap a track table in `Some` after prepending `acc`; the shape the chunk
/// loop's invariant takes.
pub open spec fn prepend_tracks(acc: Seq<Seq<RawEvent>>, o: Option<Seq<Seq<RawEvent>>>) -> Option<
    Seq<Seq<RawEvent>>,
> {
    match o {
        Option::Some(r) => Option::Some(acc + r),
        Option::None => Option::None,
    }
}

/// Parse a complete Standard MIDI File: header chunk, timing check, then
/// every track chunk. The result is exactly what `spec_parse_smf` describes,
/// and every event in it satisfies the parser's bounds.
#[verifier::rlimit(80)]
#[verifier::loop_isolation(false)]
pub fn parse_smf(bytes: &[u8]) -> (r: Result<Smf, MidiError>)
    ensures
        match r {
            Result::Ok(smf) => spec_parse_smf(bytes@) == Result::<SmfModel, MidiError>::Ok(smf.model()) && tracks_wf(
                smf.model().tracks,
            ) && smf.ticks_per_quarter < 0x8000,
            Result::Err(e) => spec_parse_smf(bytes@) == Result::<SmfModel, MidiError>::Err(e),
        },
{
    if bytes.len() < 8 {
        return Result::Err(MidiError::MalformedFile);
    }
    if !(bytes[0] == 0x4d && bytes[1] == 0x54 && bytes[2] == 0x68 && bytes[3] == 0x64) {
        return Result::Err(MidiError::MalformedFile);
    }
    let hlen: u32 = bytes[4] as u32 * 0x1000000 + bytes[5] as u32 * 0x10000 + bytes[6] as u32
        * 0x100 + bytes[7] as u32;
    if hlen < 6 || hlen as usize > bytes.len() - 8 {
        return Result::Err(MidiError::MalformedFile);
    }
    let division: u32 = bytes[12] as u32 * 0x100 + bytes[13] as u32;
    if division >= 0x8000 {
        return Result::Err(MidiError::UnsupportedTiming);
    }
    let mut acc: Vec<Vec<RawEvent>> = Vec::new();
    let mut pos: usize = 8 + hlen as usize;
    loop
        invariant
            8 + hlen as int <= pos as int <= bytes@.len(),
            parse_chunks(bytes@, 8 + hlen as int) == prepend_tracks(
                tracks_view(acc@),
                parse_chunks(bytes@, pos as int),
            ),
        decreases bytes@.len() - pos,
    {
        if pos == bytes.len() {
            proof {
                assert(parse_chunks(bytes@, pos as int) == Option::Some(
                    Seq::<Seq<RawEvent>>::empty(),
                ));
                assert(tracks_view(acc@) + Seq::<Seq<RawEvent>>::empty() =~= tracks_view(acc@));
                lemma_parse_chunks_wf(bytes@, 8 + hlen as int);
            }
            return Result::Ok(Smf { ticks_per_quarter: division as u16, tracks: acc });
        }
        if bytes.len() - pos < 8 {
            proof {
                assert(parse_chunks(bytes@, pos as int) is None);
            }
            return Result::Err(MidiError::MalformedFile);
        }
        let clen: u32 = bytes[pos + 4] as u32 * 0x1000000 + bytes[pos + 5] as u32 * 0x10000
            + bytes[pos + 6] as u32 * 0x100 + bytes[pos + 7] as u32;
        proof {
            assert(clen as int == be32(bytes@, pos as int + 4));
        }
        if clen as usize > bytes.len() - pos - 8 {
            proof {
                assert(parse_chunks(bytes@, pos as int) is None);
            }
            return Result::Err(MidiError::MalformedFile);
        }
        let body_start: usize = pos + 8;
        let body_end: usize = pos + 8 + clen as usize;
        if bytes[pos] == 0x4d && bytes[pos + 1] == 0x54 && bytes[pos + 2] == 0x72 && bytes[pos + 3]
            == 0x6b {
            let track = read_track(bytes, body_start, body_end);
            match track {
                Option::None => {
                    return Result::Err(MidiError::MalformedFile);
                },
                Option::Some(evs) => {
                    proof {
                        let ghost rest = parse_chunks(bytes@, body_end as int);
                        if let Option::Some(r) = rest {
                            let ghost one: Seq<Seq<RawEvent>> = seq![evs@];
                            assert(tracks_view(acc@.push(evs)) =~= tracks_view(acc@) + one);
                            assert((tracks_view(acc@) + (one + r)) =~= ((tracks_view(acc@) + one)
                                + r));
                        }
                    }
                    acc.push(evs);
                },
            }
        }
        pos = body_end;
    }
}

} // verus!
