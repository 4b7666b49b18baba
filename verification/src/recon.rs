//! Note reconstructor: walks the clocked stream once and matches note-on and
//! note-off events per (channel, pitch) key. A note-on with velocity zero
//! closes a note exactly as a note-off does; a second note-on for a sounding
//! key overwrites the recorded onset, discarding the first interval; a close
//! for a silent key is ignored; keys still sounding when the stream ends are
//! dropped. Completed notes are finally re-sorted by onset, stably.

use vstd::prelude::*;

use crate::clock::clocked_events_model;
use crate::clock::times_sorted;
use crate::events::ClockedEvent;
use crate::events::ClockedModel;
use crate::events::EventKind;
use crate::events::Note;
use crate::events::NoteModel;
use crate::events::kind_wf;

verus! {

/// The notes completed from event `i` on, given the notes currently
/// sounding: a map from (channel, pitch) to (onset time, onset velocity).
pub open spec fn recon_from(
    evs: Seq<ClockedModel>,
    i: int,
    ongoing: Map<(u8, u8), (int, u8)>,
) -> Seq<NoteModel>
    decreases evs.len() - i,
{
    if i < 0 || i >= evs.len() {
        Seq::empty()
    } else {
        let e = evs[i];
        match e.kind {
            EventKind::NoteOn { channel, pitch, velocity } => {
                if velocity > 0 {
                    recon_from(evs, i + 1, ongoing.insert((channel, pitch), (e.time, velocity)))
                } else {
                    close_notes(ongoing, channel, pitch, e.time) + recon_from(
                        evs,
                        i + 1,
                        close_map(ongoing, channel, pitch),
                    )
                }
            },
            EventKind::NoteOff { channel, pitch, velocity: _ } => {
                close_notes(ongoing, channel, pitch, e.time) + recon_from(
                    evs,
                    i + 1,
                    close_map(ongoing, channel, pitch),
                )
            },
            _ => recon_from(evs, i + 1, ongoing),
        }
    }
}

/// The note (if any) completed by closing `(channel, pitch)` at `time`: the
/// onset and velocity recorded when the key began sounding, the duration
/// measured to `time`. A close for a silent key completes nothing.
pub open spec fn close_notes(
    ongoing: Map<(u8, u8), (int, u8)>,
    channel: u8,
    pitch: u8,
    time: int,
) -> Seq<NoteModel> {
    if ongoing.dom().contains((channel, pitch)) {
        let rec = ongoing[(channel, pitch)];
        seq![
            NoteModel {
                note: pitch,
                onset: rec.0,
                duration: time - rec.0,
                velocity: rec.1,
                channel,
            },
        ]
    } else {
        Seq::empty()
    }
}

/// The sounding map after closing `(channel, pitch)`.
pub open spec fn close_map(
    ongoing: Map<(u8, u8), (int, u8)>,
    channel: u8,
    pitch: u8,
) -> Map<(u8, u8), (int, u8)> {
    if ongoing.dom().contains((channel, pitch)) {
        ongoing.remove((channel, pitch))
    } else {
        ongoing
    }
}

/// The notes a clocked stream completes, starting from silence.
pub open spec fn recon_model(evs: Seq<ClockedModel>) -> Seq<NoteModel> {
    recon_from(evs, 0, Map::empty())
}

/// The models of a vector of notes.
pub open spec fn notes_model(s: Seq<Note>) -> Seq<NoteModel> {
    s.map_values(|n: Note| n.model())
}

/// The arena slot a key occupies: the channel-pitch space is small and
/// fixed, so sounding notes live in a vector of 16 * 128 slots.
pub open spec fn slot_of(channel: u8, pitch: u8) -> int {
    channel * 128 + pitch
}

/// The arena holds exactly the entries of the ghost map.
pub open spec fn arena_matches(
    arena: Seq<Option<(u128, u8)>>,
    ongoing: Map<(u8, u8), (int, u8)>,
) -> bool {
    &&& arena.len() == 2048
    &&& forall|ch: u8, p: u8|
        ch < 16 && p < 128 ==> match #[trigger] arena[slot_of(ch, p)] {
            Option::Some(v) => ongoing.dom().contains((ch, p)) && ongoing[(ch, p)] == (
                v.0 as int,
                v.1,
            ),
            Option::None => !ongoing.dom().contains((ch, p)),
        }
    &&& forall|k: (u8, u8)| #[trigger] ongoing.dom().contains(k) ==> k.0 < 16 && k.1 < 128
}

/// Every recorded onset is a non-negative time no later than `bound`.
pub open spec fn onsets_below(ongoing: Map<(u8, u8), (int, u8)>, bound: int) -> bool {
    forall|k: (u8, u8)| #[trigger] ongoing.dom().contains(k) ==> 0 <= ongoing[k].0 <= bound
}

/// Two keys sharing an arena slot are the same key.
proof fn lemma_slot_injective(ch1: u8, p1: u8, ch2: u8, p2: u8)
    requires
        ch1 < 16,
        p1 < 128,
        ch2 < 16,
        p2 < 128,
    ensures
        (slot_of(ch1, p1) == slot_of(ch2, p2)) <==> (ch1 == ch2 && p1 == p2),
{
}

/// Close one key at `time`: emit its note if it was sounding, clear its
/// slot, and hand back the updated ghost map.
fn close_key(
    arena: &mut Vec<Option<(u128, u8)>>,
    out: &mut Vec<Note>,
    ongoing: Ghost<Map<(u8, u8), (int, u8)>>,
    channel: u8,
    pitch: u8,
    time: u128,
) -> (r: Ghost<Map<(u8, u8), (int, u8)>>)
    requires
        arena_matches(old(arena)@, ongoing@),
        onsets_below(ongoing@, time as int),
        channel < 16,
        pitch < 128,
    ensures
        arena_matches(final(arena)@, r@),
        onsets_below(r@, time as int),
        r@ == close_map(ongoing@, channel, pitch),
        notes_model(final(out)@) == notes_model(old(out)@) + close_notes(
            ongoing@,
            channel,
            pitch,
            time as int,
        ),
{
    let idx: usize = channel as usize * 128 + pitch as usize;
    proof {
        assert(idx as int == slot_of(channel, pitch));
        let ghost probe = arena@[slot_of(channel, pitch)];
        assert(probe is Some ==> ongoing@.dom().contains((channel, pitch)));
    }
    let slot = arena[idx];
    match slot {
        Option::Some((onset, vel)) => {
            proof {
                assert(ongoing@.dom().contains((channel, pitch)));
                assert(ongoing@[(channel, pitch)] == (onset as int, vel));
                assert(onset as int <= time as int);
            }
            arena.set(idx, Option::None);
            let n = Note {
                note: pitch,
                onset,
                duration: time - onset,
                velocity: vel,
                channel,
            };
            let ghost prev = out@;
            out.push(n);
            let ghost next = ongoing@.remove((channel, pitch));
            proof {
                assert(notes_model(out@) =~= notes_model(prev).push(n.model()));
                assert(notes_model(prev) + close_notes(ongoing@, channel, pitch, time as int)
                    =~= notes_model(prev).push(n.model()));
                assert forall|ch: u8, p: u8| ch < 16 && p < 128 implies match #[trigger] arena@[
                    slot_of(ch, p)] {
                    Option::Some(v) => next.dom().contains((ch, p)) && next[(ch, p)] == (
                        v.0 as int,
                        v.1,
                    ),
                    Option::None => !next.dom().contains((ch, p)),
                } by {
                    lemma_slot_injective(ch, p, channel, pitch);
                }
            }
            Ghost(next)
        },
        Option::None => {
            proof {
                assert(!ongoing@.dom().contains((channel, pitch)));
                assert(notes_model(out@) + close_notes(ongoing@, channel, pitch, time as int)
                    =~= notes_model(out@));
            }
            Ghost(ongoing@)
        },
    }
}

/// Match note-on and note-off events into completed notes, in the order
/// their closing events arrive. The result is exactly `recon_model` of the
/// input stream.
pub fn reconstruct(evs: &Vec<ClockedEvent>) -> (r: Vec<Note>)
    requires
        times_sorted(clocked_events_model(evs@)),
        forall|i: int| 0 <= i < evs@.len() ==> kind_wf((#[trigger] evs@[i]).kind),
    ensures
        notes_model(r@) == recon_model(clocked_events_model(evs@)),
{
    let ghost m = clocked_events_model(evs@);
    let mut arena: Vec<Option<(u128, u8)>> = Vec::new();
    let mut fill: usize = 0;
    while fill < 2048
        invariant
            fill <= 2048,
            arena@.len() == fill,
            forall|k: int| 0 <= k < fill ==> arena@[k] is None,
        decreases 2048 - fill,
    {
        arena.push(Option::None);
        fill += 1;
    }
    let mut out: Vec<Note> = Vec::new();
    let ghost mut ongoing: Map<(u8, u8), (int, u8)> = Map::empty();
    proof {
        assert(arena_matches(arena@, ongoing));
        assert(recon_from(m, 0, ongoing) + Seq::<NoteModel>::empty() =~= recon_from(
            m,
            0,
            ongoing,
        ));
        assert(notes_model(out@) =~= Seq::<NoteModel>::empty());
        assert(notes_model(out@) + recon_from(m, 0, ongoing) =~= recon_from(m, 0, ongoing));
    }
    let mut i: usize = 0;
    while i < evs.len()
        invariant
            i <= evs@.len(),
            m == clocked_events_model(evs@),
            times_sorted(m),
            forall|k: int| 0 <= k < evs@.len() ==> kind_wf((#[trigger] evs@[k]).kind),
            arena_matches(arena@, ongoing),
            onsets_below(
                ongoing,
                if i > 0 {
                    m[i as int - 1].time
                } else {
                    0
                },
            ),
            recon_model(m) == notes_model(out@) + recon_from(m, i as int, ongoing),
        decreases evs@.len() - i,
    {
        let e = evs[i];
        proof {
            assert(m[i as int] == evs@[i as int].model());
            assert(kind_wf(e.kind));
            if i > 0 {
                assert(m[i as int - 1].time <= m[i as int].time);
            }
            assert(onsets_below(ongoing, e.time as int));
        }
        match e.kind {
            EventKind::NoteOn { channel, pitch, velocity } => {
                if velocity > 0 {
                    let idx: usize = channel as usize * 128 + pitch as usize;
                    arena.set(idx, Option::Some((e.time, velocity)));
                    proof {
                        let ghost next = ongoing.insert((channel, pitch), (e.time as int, velocity));
                        assert forall|ch: u8, p: u8| ch < 16 && p < 128 implies match #[trigger] arena@[
                            slot_of(ch, p)] {
                            Option::Some(v) => next.dom().contains((ch, p)) && next[(ch, p)] == (
                                v.0 as int,
                                v.1,
                            ),
                            Option::None => !next.dom().contains((ch, p)),
                        } by {
                            lemma_slot_injective(ch, p, channel, pitch);
                        }
                        assert(recon_from(m, i as int, ongoing) == recon_from(m, i as int + 1, next));
                        ongoing = next;
                    }
                } else {
                    let ghost before = ongoing;
                    let ghost prev_out = out@;
                    let gnext = close_key(&mut arena, &mut out, Ghost(ongoing), channel, pitch, e.time);
                    proof {
                        ongoing = gnext@;
                        assert(recon_from(m, i as int, before) == close_notes(
                            before,
                            channel,
                            pitch,
                            e.time as int,
                        ) + recon_from(m, i as int + 1, close_map(before, channel, pitch)));
                        lemma_concat_assoc(
                            notes_model(prev_out),
                            close_notes(before, channel, pitch, e.time as int),
                            recon_from(m, i as int + 1, ongoing),
                        );
                    }
                }
            },
            EventKind::NoteOff { channel, pitch, velocity: _ } => {
                let ghost before = ongoing;
                let ghost prev_out = out@;
                let gnext = close_key(&mut arena, &mut out, Ghost(ongoing), channel, pitch, e.time);
                proof {
                    ongoing = gnext@;
                    assert(recon_from(m, i as int, before) == close_notes(
                        before,
                        channel,
                        pitch,
                        e.time as int,
                    ) + recon_from(m, i as int + 1, close_map(before, channel, pitch)));
                    lemma_concat_assoc(
                        notes_model(prev_out),
                        close_notes(before, channel, pitch, e.time as int),
                        recon_from(m, i as int + 1, ongoing),
                    );
                }
            },
            _ => {
                proof {
                    assert(recon_from(m, i as int, ongoing) == recon_from(
                        m,
                        i as int + 1,
                        ongoing,
                    ));
                }
            },
        }
        i += 1;
    }
    proof {
        assert(recon_from(m, i as int, ongoing) =~= Seq::<NoteModel>::empty());
        assert(notes_model(out@) + Seq::<NoteModel>::empty() =~= notes_model(out@));
    }
    out
}

/// Concatenation of sequences is associative.
proof fn lemma_concat_assoc(a: Seq<NoteModel>, b: Seq<NoteModel>, c: Seq<NoteModel>)
    ensures
        a + (b + c) =~= (a + b) + c,
{
}

/// Sorted by onset, ascending.
pub open spec fn notes_sorted(s: Seq<NoteModel>) -> bool {
    forall|i: int, j: int| 0 <= i < j < s.len() ==> s[i].onset <= s[j].onset
}

/// Insert `e` behind every note whose onset is at most `e`'s: the position a
/// stable sort gives the latest note.
pub open spec fn insert_note(s: Seq<NoteModel>, e: NoteModel) -> Seq<NoteModel>
    decreases s.len(),
{
    if s.len() == 0 {
        seq![e]
    } else if s.last().onset <= e.onset {
        s.push(e)
    } else {
        insert_note(s.drop_last(), e).push(s.last())
    }
}

/// Stable sort by onset: insert the notes left to right, so ties keep the
/// order in which the notes were completed.
pub open spec fn sort_notes_model(s: Seq<NoteModel>) -> Seq<NoteModel>
    decreases s.len(),
{
    if s.len() == 0 {
        Seq::empty()
    } else {
        insert_note(sort_notes_model(s.drop_last()), s.last())
    }
}

/// Inserting keeps a sorted sequence sorted.
pub proof fn lemma_insert_note_sorted(s: Seq<NoteModel>, e: NoteModel)
    requires
        notes_sorted(s),
    ensures
        notes_sorted(insert_note(s, e)),
        insert_note(s, e).len() == s.len() + 1,
    decreases s.len(),
{
    if s.len() == 0 {
    } else if s.last().onset <= e.onset {
        let r = s.push(e);
        assert forall|i: int, j: int| 0 <= i < j < r.len() implies r[i].onset <= r[j].onset by {
            if j < s.len() {
            } else {
                if i < s.len() - 1 {
                    assert(s[i].onset <= s[s.len() - 1].onset);
                }
            }
        }
    } else {
        assert(notes_sorted(s.drop_last())) by {
            assert(forall|i: int, j: int|
                0 <= i < j < s.drop_last().len() ==> s.drop_last()[i] == s[i]
                    && s.drop_last()[j] == s[j]);
        }
        lemma_insert_note_sorted(s.drop_last(), e);
        let inner = insert_note(s.drop_last(), e);
        let r = inner.push(s.last());
        lemma_insert_note_all(s.drop_last(), e, |x: NoteModel| x.onset <= s.last().onset);
        assert forall|i: int, j: int| 0 <= i < j < r.len() implies r[i].onset <= r[j].onset by {
            if j == r.len() - 1 {
                assert(r[i] == inner[i]);
                assert((|x: NoteModel| x.onset <= s.last().onset)(inner[i]));
            }
        }
    }
}

/// Inserting preserves any property the notes all have.
pub proof fn lemma_insert_note_all(s: Seq<NoteModel>, e: NoteModel, p: spec_fn(NoteModel) -> bool)
    requires
        forall|i: int| 0 <= i < s.len() ==> p(#[trigger] s[i]),
        p(e),
    ensures
        forall|i: int| 0 <= i < insert_note(s, e).len() ==> p(#[trigger] insert_note(s, e)[i]),
    decreases s.len(),
{
    let r = insert_note(s, e);
    if s.len() == 0 {
        assert(r[0] == e);
    } else if s.last().onset <= e.onset {
        assert forall|i: int| 0 <= i < r.len() implies p(r[i]) by {
            if i < s.len() {
                assert(r[i] == s[i]);
            } else {
                assert(r[i] == e);
            }
        }
    } else {
        assert(forall|i: int| 0 <= i < s.drop_last().len() ==> p(#[trigger] s.drop_last()[i]))
            by {
            assert(forall|i: int| 0 <= i < s.drop_last().len() ==> s.drop_last()[i] == s[i]);
        }
        lemma_insert_note_all(s.drop_last(), e, p);
        let inner = insert_note(s.drop_last(), e);
        assert forall|i: int| 0 <= i < r.len() implies p(r[i]) by {
            if i < inner.len() {
                assert(r[i] == inner[i]);
                assert(p(inner[i]));
            } else {
                assert(r[i] == s.last());
                assert(p(s[s.len() - 1]));
            }
        }
    }
}

/// Sorting yields a sorted sequence of the same length.
pub proof fn lemma_sort_notes_sorted(s: Seq<NoteModel>)
    ensures
        notes_sorted(sort_notes_model(s)),
        sort_notes_model(s).len() == s.len(),
    decreases s.len(),
{
    if s.len() > 0 {
        lemma_sort_notes_sorted(s.drop_last());
        lemma_insert_note_sorted(sort_notes_model(s.drop_last()), s.last());
    }
}

/// Sorting preserves any property the notes all have.
pub proof fn lemma_sort_notes_all(s: Seq<NoteModel>, p: spec_fn(NoteModel) -> bool)
    requires
        forall|i: int| 0 <= i < s.len() ==> p(#[trigger] s[i]),
    ensures
        forall|i: int| 0 <= i < sort_notes_model(s).len() ==> p(#[trigger] sort_notes_model(s)[i]),
    decreases s.len(),
{
    if s.len() > 0 {
        assert(forall|i: int| 0 <= i < s.drop_last().len() ==> p(#[trigger] s.drop_last()[i]))
            by {
            assert(forall|i: int| 0 <= i < s.drop_last().len() ==> s.drop_last()[i] == s[i]);
        }
        lemma_sort_notes_all(s.drop_last(), p);
        lemma_insert_note_all(sort_notes_model(s.drop_last()), s.last(), p);
    }
}

/// Where the exec insertion loop stops is exactly where `insert_note` places
/// the note.
pub proof fn lemma_insert_note_at(s: Seq<NoteModel>, e: NoteModel, j: int)
    requires
        0 <= j <= s.len(),
        forall|k: int| j <= k < s.len() ==> s[k].onset > e.onset,
        j > 0 ==> s[j - 1].onset <= e.onset,
    ensures
        insert_note(s, e) =~= s.subrange(0, j) + seq![e] + s.subrange(j, s.len() as int),
    decreases s.len(),
{
    if s.len() == 0 {
    } else if j == s.len() {
        assert(s.subrange(0, j) =~= s);
    } else {
        assert(s.last().onset > e.onset);
        assert(forall|k: int| j <= k < s.drop_last().len() ==> s.drop_last()[k] == s[k]);
        assert(j > 0 ==> s.drop_last()[j - 1] == s[j - 1]);
        lemma_insert_note_at(s.drop_last(), e, j);
        assert(s.drop_last().subrange(0, j) =~= s.subrange(0, j));
        assert(s.drop_last().subrange(j, s.drop_last().len() as int) =~= s.subrange(
            j,
            s.len() - 1,
        ));
        assert((s.subrange(0, j) + seq![e] + s.subrange(j, s.len() - 1)).push(s.last()) =~= s
            .subrange(0, j) + seq![e] + s.subrange(j, s.len() as int));
    }
}

/// Insert one completed note into an already sorted vector, behind its
/// equals.
fn insert_note_sorted(out: &mut Vec<Note>, e: Note)
    ensures
        notes_model(final(out)@) == insert_note(notes_model(old(out)@), e.model()),
        final(out)@.len() == old(out)@.len() + 1,
{
    let mut j: usize = out.len();
    while j > 0 && out[j - 1].onset > e.onset
        invariant
            j <= out@.len(),
            forall|k: int| j <= k < out@.len() ==> (#[trigger] out@[k]).onset > e.onset,
        decreases j,
    {
        j -= 1;
    }
    proof {
        let ghost m = notes_model(out@);
        assert(forall|k: int| j <= k < m.len() ==> (#[trigger] m[k]).onset > e.model().onset);
        assert(j > 0 ==> m[j as int - 1].onset <= e.model().onset);
        lemma_insert_note_at(m, e.model(), j as int);
    }
    let ghost prev = out@;
    out.insert(j, e);
    proof {
        assert(notes_model(out@) =~= notes_model(prev).subrange(0, j as int) + seq![e.model()]
            + notes_model(prev).subrange(j as int, prev.len() as int)) by {
            assert(out@ == prev.insert(j as int, e));
        }
    }
}

/// Stable sort of the completed notes by onset, ascending: ties keep the
/// order in which the notes were completed.
pub fn sort_notes(v: Vec<Note>) -> (r: Vec<Note>)
    ensures
        notes_model(r@) == sort_notes_model(notes_model(v@)),
        notes_sorted(notes_model(r@)),
{
    let mut out: Vec<Note> = Vec::new();
    let mut i: usize = 0;
    while i < v.len()
        invariant
            i <= v@.len(),
            notes_model(out@) == sort_notes_model(notes_model(v@).subrange(0, i as int)),
        decreases v@.len() - i,
    {
        insert_note_sorted(&mut out, v[i]);
        proof {
            let ghost m = notes_model(v@);
            assert(m.subrange(0, i as int + 1).drop_last() =~= m.subrange(0, i as int));
            assert(m.subrange(0, i as int + 1).last() == v@[i as int].model());
        }
        i += 1;
    }
    proof {
        assert(notes_model(v@).subrange(0, v@.len() as int) =~= notes_model(v@));
        lemma_sort_notes_sorted(notes_model(v@));
    }
    out
}


} // verus!
