//! Timeline merger: stamps every track event with its absolute tick (the
//! running sum of deltas within its own track) and flattens all tracks into
//! one sequence, stably sorted by absolute tick. Events that share a tick
//! keep the order in which the merge encountered them: track order first,
//! then within-track order.

use vstd::prelude::*;

use crate::events::RawEvent;
use crate::events::TickedEvent;
use crate::events::TickedModel;
use crate::events::track_wf;
use crate::events::tracks_wf;

verus! {

/// No absolute tick can exceed one maximal delta per event for as many
/// events as a track can hold.
pub open spec fn tick_cap() -> int {
    (0x10000000000000000 as int) * 0xFFFFFFF
}

/// The sequence a single track stands for from event `i` on, when the events
/// before `i` have summed to `abs` ticks.
pub open spec fn ticked_from(tr: Seq<RawEvent>, i: int, abs: int) -> Seq<TickedModel>
    decreases tr.len() - i,
{
    if i < 0 || i >= tr.len() {
        Seq::empty()
    } else {
        let t = abs + tr[i].delta;
        seq![TickedModel { tick: t, kind: tr[i].kind }] + ticked_from(tr, i + 1, t)
    }
}

/// One track on the absolute-tick timeline; each track's clock starts at 0.
pub open spec fn ticked_track(tr: Seq<RawEvent>) -> Seq<TickedModel> {
    ticked_from(tr, 0, 0)
}

/// All tracks from index `i` on, in file order.
pub open spec fn all_ticked_from(tracks: Seq<Seq<RawEvent>>, i: int) -> Seq<TickedModel>
    decreases tracks.len() - i,
{
    if i < 0 || i >= tracks.len() {
        Seq::empty()
    } else {
        ticked_track(tracks[i]) + all_ticked_from(tracks, i + 1)
    }
}

/// The concatenation of all tracks on the absolute-tick timeline.
pub open spec fn all_ticked(tracks: Seq<Seq<RawEvent>>) -> Seq<TickedModel> {
    all_ticked_from(tracks, 0)
}

/// Sorted by absolute tick, ascending.
pub open spec fn ticked_sorted(s: Seq<TickedModel>) -> bool {
    forall|i: int, j: int| 0 <= i < j < s.len() ==> s[i].tick <= s[j].tick
}

/// Insert `e` behind every element whose tick is at most `e`'s: the position
/// a stable sort gives the latest element.
pub open spec fn insert_ticked(s: Seq<TickedModel>, e: TickedModel) -> Seq<TickedModel>
    decreases s.len(),
{
    if s.len() == 0 {
        seq![e]
    } else if s.last().tick <= e.tick {
        s.push(e)
    } else {
        insert_ticked(s.drop_last(), e).push(s.last())
    }
}

/// Stable sort by tick: insert the elements left to right.
pub open spec fn sort_ticked(s: Seq<TickedModel>) -> Seq<TickedModel>
    decreases s.len(),
{
    if s.len() == 0 {
        Seq::empty()
    } else {
        insert_ticked(sort_ticked(s.drop_last()), s.last())
    }
}

/// What the merger produces for a parsed track table.
pub open spec fn merged_model(tracks: Seq<Seq<RawEvent>>) -> Seq<TickedModel> {
    sort_ticked(all_ticked(tracks))
}

/// The models of a vector of ticked events.
pub open spec fn events_model(s: Seq<TickedEvent>) -> Seq<TickedModel> {
    s.map_values(|e: TickedEvent| e.model())
}

/// Inserting keeps a sorted sequence sorted.
pub proof fn lemma_insert_ticked_sorted(s: Seq<TickedModel>, e: TickedModel)
    requires
        ticked_sorted(s),
    ensures
        ticked_sorted(insert_ticked(s, e)),
        insert_ticked(s, e).len() == s.len() + 1,
    decreases s.len(),
{
    if s.len() == 0 {
    } else if s.last().tick <= e.tick {
        let r = s.push(e);
        assert forall|i: int, j: int| 0 <= i < j < r.len() implies r[i].tick <= r[j].tick by {
            if j < s.len() {
            } else {
                if i < s.len() - 1 {
                    assert(s[i].tick <= s[s.len() - 1].tick);
                }
            }
        }
    } else {
        assert(ticked_sorted(s.drop_last())) by {
            assert(forall|i: int, j: int|
                0 <= i < j < s.drop_last().len() ==> s.drop_last()[i] == s[i]
                    && s.drop_last()[j] == s[j]);
        }
        lemma_insert_ticked_sorted(s.drop_last(), e);
        let inner = insert_ticked(s.drop_last(), e);
        let r = inner.push(s.last());
        lemma_insert_ticked_all(s.drop_last(), e, |x: TickedModel| x.tick <= s.last().tick);
        assert forall|i: int, j: int| 0 <= i < j < r.len() implies r[i].tick <= r[j].tick by {
            if j == r.len() - 1 {
                assert(r[i] == inner[i]);
                assert((|x: TickedModel| x.tick <= s.last().tick)(inner[i]));
            }
        }
    }
}

/// Inserting preserves any property the elements all have.
pub proof fn lemma_insert_ticked_all(
    s: Seq<TickedModel>,
    e: TickedModel,
    p: spec_fn(TickedModel) -> bool,
)
    requires
        forall|i: int| 0 <= i < s.len() ==> p(#[trigger] s[i]),
        p(e),
    ensures
        forall|i: int| 0 <= i < insert_ticked(s, e).len() ==> p(#[trigger] insert_ticked(s, e)[i]),
    decreases s.len(),
{
    let r = insert_ticked(s, e);
    if s.len() == 0 {
        assert(r[0] == e);
    } else if s.last().tick <= e.tick {
        assert forall|i: int| 0 <= i < r.len() implies p(r[i]) by {
            if i < s.len() {
                assert(r[i] == s[i]);
            } else {
                assert(r[i] == e);
            }
        }
    } else {
        assert(forall|i: int| 0 <= i < s.drop_last().len() ==> p(#[trigger] s.drop_last()[i]))
            by {
            assert(forall|i: int| 0 <= i < s.drop_last().len() ==> s.drop_last()[i] == s[i]);
        }
        lemma_insert_ticked_all(s.drop_last(), e, p);
        let inner = insert_ticked(s.drop_last(), e);
        assert forall|i: int| 0 <= i < r.len() implies p(r[i]) by {
            if i < inner.len() {
                assert(r[i] == inner[i]);
                assert(p(inner[i]));
            } else {
                assert(r[i] == s.last());
                assert(p(s[s.len() - 1]));
            }
        }
    }
}

/// Sorting yields a sorted sequence and preserves any property the elements
/// all have.
pub proof fn lemma_sort_ticked_sorted(s: Seq<TickedModel>)
    ensures
        ticked_sorted(sort_ticked(s)),
        sort_ticked(s).len() == s.len(),
    decreases s.len(),
{
    if s.len() > 0 {
        lemma_sort_ticked_sorted(s.drop_last());
        lemma_insert_ticked_sorted(sort_ticked(s.drop_last()), s.last());
    }
}

pub proof fn lemma_sort_ticked_all(s: Seq<TickedModel>, p: spec_fn(TickedModel) -> bool)
    requires
        forall|i: int| 0 <= i < s.len() ==> p(#[trigger] s[i]),
    ensures
        forall|i: int| 0 <= i < sort_ticked(s).len() ==> p(#[trigger] sort_ticked(s)[i]),
    decreases s.len(),
{
    if s.len() > 0 {
        assert(forall|i: int| 0 <= i < s.drop_last().len() ==> p(#[trigger] s.drop_last()[i]))
            by {
            assert(forall|i: int| 0 <= i < s.drop_last().len() ==> s.drop_last()[i] == s[i]);
        }
        lemma_sort_ticked_all(s.drop_last(), p);
        lemma_insert_ticked_all(sort_ticked(s.drop_last()), s.last(), p);
    }
}

/// Where the exec insertion loop stops is exactly where `insert_ticked`
/// places the element.
pub proof fn lemma_insert_ticked_at(s: Seq<TickedModel>, e: TickedModel, j: int)
    requires
        0 <= j <= s.len(),
        forall|k: int| j <= k < s.len() ==> s[k].tick > e.tick,
        j > 0 ==> s[j - 1].tick <= e.tick,
    ensures
        insert_ticked(s, e) =~= s.subrange(0, j) + seq![e] + s.subrange(j, s.len() as int),
    decreases s.len(),
{
    if s.len() == 0 {
    } else if j == s.len() {
        assert(s.subrange(0, j) =~= s);
    } else {
        assert(s.last().tick > e.tick);
        assert(forall|k: int| j <= k < s.drop_last().len() ==> s.drop_last()[k] == s[k]);
        assert(j > 0 ==> s.drop_last()[j - 1] == s[j - 1]);
        lemma_insert_ticked_at(s.drop_last(), e, j);
        assert(s.drop_last().subrange(0, j) =~= s.subrange(0, j));
        assert(s.drop_last().subrange(j, s.drop_last().len() as int) =~= s.subrange(
            j,
            s.len() - 1,
        ));
        assert((s.subrange(0, j) + seq![e] + s.subrange(j, s.len() - 1)).push(s.last()) =~= s
            .subrange(0, j) + seq![e] + s.subrange(j, s.len() as int));
    }
}

/// Append one track's events, stamped with absolute ticks, to `out`.
fn tick_track(tr: &Vec<RawEvent>, out: &mut Vec<TickedEvent>)
    requires
        track_wf(tr@),
    ensures
        final(out)@.len() == old(out)@.len() + tr@.len(),
        events_model(final(out)@) == events_model(old(out)@) + ticked_track(tr@),
        forall|i: int|
            old(out)@.len() <= i < final(out)@.len() ==> (#[trigger] final(out)@[i]).tick as int
                <= tick_cap(),
        forall|i: int|
            old(out)@.len() <= i < final(out)@.len() ==> crate::events::kind_wf(
                (#[trigger] final(out)@[i]).kind,
            ),
        forall|i: int| 0 <= i < old(out)@.len() ==> final(out)@[i] == old(out)@[i],
{
    let ghost base = out@;
    let mut abs: u128 = 0;
    let mut j: usize = 0;
    while j < tr.len()
        invariant
            j <= tr@.len(),
            track_wf(tr@),
            out@.len() == base.len() + j,
            forall|k: int| 0 <= k < base.len() ==> out@[k] == base[k],
            abs as int <= j as int * 0xFFFFFFF,
            forall|i: int|
                base.len() <= i < out@.len() ==> (#[trigger] out@[i]).tick as int <= j as int
                    * 0xFFFFFFF,
            forall|i: int|
                base.len() <= i < out@.len() ==> crate::events::kind_wf(
                    (#[trigger] out@[i]).kind,
                ),
            ticked_track(tr@) == events_model(out@.subrange(base.len() as int, out@.len() as int))
                + ticked_from(tr@, j as int, abs as int),
        decreases tr@.len() - j,
    {
        let e = tr[j];
        proof {
            assert(e.delta < 0x10000000);
            assert(abs as int + e.delta < (j as int + 1) * 0xFFFFFFF + 1) by (nonlinear_arith)
                requires
                    abs as int <= j as int * 0xFFFFFFF,
                    e.delta < 0x10000000,
                    j >= 0,
            ;
            assert((j as int + 1) * 0xFFFFFFF <= 0x10000000000000000 * 0xFFFFFFF)
                by (nonlinear_arith)
                requires
                    0 <= j as int + 1 <= 0x10000000000000000,
            ;
        }
        let new_abs: u128 = abs + e.delta as u128;
        let ghost prev = out@;
        out.push(TickedEvent { tick: new_abs, kind: e.kind });
        proof {
            let ghost m = TickedModel { tick: new_abs as int, kind: e.kind };
            assert(ticked_from(tr@, j as int, abs as int) == seq![m] + ticked_from(
                tr@,
                j as int + 1,
                new_abs as int,
            ));
            assert(out@.subrange(base.len() as int, out@.len() as int) =~= prev.subrange(
                base.len() as int,
                prev.len() as int,
            ).push(TickedEvent { tick: new_abs, kind: e.kind }));
            assert(events_model(
                prev.subrange(base.len() as int, prev.len() as int).push(
                    TickedEvent { tick: new_abs, kind: e.kind },
                ),
            ) =~= events_model(prev.subrange(base.len() as int, prev.len() as int)).push(m));
            assert(events_model(prev.subrange(base.len() as int, prev.len() as int)) + (seq![m]
                + ticked_from(tr@, j as int + 1, new_abs as int)) =~= events_model(
                prev.subrange(base.len() as int, prev.len() as int),
            ).push(m) + ticked_from(tr@, j as int + 1, new_abs as int));
            assert((j as int + 1) * 0xFFFFFFF >= j as int * 0xFFFFFFF) by (nonlinear_arith)
                requires
                    j >= 0,
            ;
        }
        abs = new_abs;
        j += 1;
    }
    proof {
        assert(ticked_from(tr@, j as int, abs as int) =~= Seq::<TickedModel>::empty());
        assert(events_model(out@.subrange(base.len() as int, out@.len() as int))
            + Seq::<TickedModel>::empty() =~= events_model(
            out@.subrange(base.len() as int, out@.len() as int),
        ));
        assert(out@ =~= base + out@.subrange(base.len() as int, out@.len() as int));
        assert(events_model(base + out@.subrange(base.len() as int, out@.len() as int))
            =~= events_model(base) + events_model(
            out@.subrange(base.len() as int, out@.len() as int),
        ));
        assert(forall|i: int|
            base.len() <= i < out@.len() ==> (#[trigger] out@[i]).tick as int <= tick_cap());
    }
}

/// Flatten every track onto the absolute-tick timeline, in file order.
fn tick_all(tracks: &Vec<Vec<RawEvent>>) -> (r: Vec<TickedEvent>)
    requires
        tracks_wf(crate::parse::tracks_view(tracks@)),
    ensures
        events_model(r@) == all_ticked(crate::parse::tracks_view(tracks@)),
        forall|i: int| 0 <= i < r@.len() ==> (#[trigger] r@[i]).tick as int <= tick_cap(),
        forall|i: int| 0 <= i < r@.len() ==> crate::events::kind_wf((#[trigger] r@[i]).kind),
{
    let ghost tv = crate::parse::tracks_view(tracks@);
    let mut out: Vec<TickedEvent> = Vec::new();
    let mut i: usize = 0;
    while i < tracks.len()
        invariant
            i <= tracks@.len(),
            tv == crate::parse::tracks_view(tracks@),
            tracks_wf(tv),
            all_ticked(tv) == events_model(out@) + all_ticked_from(tv, i as int),
            forall|k: int| 0 <= k < out@.len() ==> (#[trigger] out@[k]).tick as int <= tick_cap(),
            forall|k: int| 0 <= k < out@.len() ==> crate::events::kind_wf((#[trigger] out@[k]).kind),
        decreases tracks@.len() - i,
    {
        let ghost prev = out@;
        proof {
            assert(tv[i as int] == tracks@[i as int]@);
            assert(track_wf(tracks@[i as int]@));
        }
        tick_track(&tracks[i], &mut out);
        proof {
            assert(prev =~= out@.subrange(0, prev.len() as int)) by {
                assert(forall|k: int| 0 <= k < prev.len() ==> out@[k] == prev[k]);
            }
            assert(all_ticked_from(tv, i as int) == ticked_track(tv[i as int]) + all_ticked_from(
                tv,
                i as int + 1,
            ));
            assert(events_model(prev) + (ticked_track(tv[i as int]) + all_ticked_from(
                tv,
                i as int + 1,
            )) =~= (events_model(prev) + ticked_track(tv[i as int])) + all_ticked_from(
                tv,
                i as int + 1,
            ));
        }
        i += 1;
    }
    proof {
        assert(all_ticked_from(tv, i as int) =~= Seq::<TickedModel>::empty());
        assert(events_model(out@) + Seq::<TickedModel>::empty() =~= events_model(out@));
    }
    out
}

/// Insert one event into an already sorted vector, behind its equals.
fn insert_event(out: &mut Vec<TickedEvent>, e: TickedEvent)
    ensures
        events_model(final(out)@) == insert_ticked(events_model(old(out)@), e.model()),
        final(out)@.len() == old(out)@.len() + 1,
{
    let mut j: usize = out.len();
    while j > 0 && out[j - 1].tick > e.tick
        invariant
            j <= out@.len(),
            forall|k: int| j <= k < out@.len() ==> (#[trigger] out@[k]).tick > e.tick,
        decreases j,
    {
        j -= 1;
    }
    proof {
        let ghost m = events_model(out@);
        assert(forall|k: int| j <= k < m.len() ==> (#[trigger] m[k]).tick > e.model().tick);
        assert(j > 0 ==> m[j as int - 1].tick <= e.model().tick);
        lemma_insert_ticked_at(m, e.model(), j as int);
    }
    let ghost prev = out@;
    out.insert(j, e);
    proof {
        assert(events_model(out@) =~= events_model(prev).subrange(0, j as int) + seq![e.model()]
            + events_model(prev).subrange(j as int, prev.len() as int)) by {
            assert(out@ == prev.insert(j as int, e));
        }
    }
}

/// Stable sort by absolute tick.
fn sort_events(v: Vec<TickedEvent>) -> (r: Vec<TickedEvent>)
    ensures
        events_model(r@) == sort_ticked(events_model(v@)),
{
    let mut out: Vec<TickedEvent> = Vec::new();
    let mut i: usize = 0;
    while i < v.len()
        invariant
            i <= v@.len(),
            events_model(out@) == sort_ticked(events_model(v@).subrange(0, i as int)),
        decreases v@.len() - i,
    {
        insert_event(&mut out, v[i]);
        proof {
            let ghost m = events_model(v@);
            assert(m.subrange(0, i as int + 1).drop_last() =~= m.subrange(0, i as int));
            assert(m.subrange(0, i as int + 1).last() == v@[i as int].model());
        }
        i += 1;
    }
    proof {
        assert(events_model(v@).subrange(0, v@.len() as int) =~= events_model(v@));
    }
    out
}

/// Merge all tracks into one timeline: absolute ticks, stably sorted
/// ascending. The result is exactly `merged_model` of the track table, every
/// tick stays under `tick_cap`, and the sequence is sorted.
pub fn merge_tracks(tracks: &Vec<Vec<RawEvent>>) -> (r: Vec<TickedEvent>)
    requires
        tracks_wf(crate::parse::tracks_view(tracks@)),
    ensures
        events_model(r@) == merged_model(crate::parse::tracks_view(tracks@)),
        ticked_sorted(events_model(r@)),
        forall|i: int| 0 <= i < r@.len() ==> (#[trigger] r@[i]).tick as int <= tick_cap(),
        forall|i: int| 0 <= i < r@.len() ==> crate::events::kind_wf((#[trigger] r@[i]).kind),
{
    let flat = tick_all(tracks);
    let r = sort_events(flat);
    proof {
        let ghost m = events_model(flat@);
        lemma_sort_ticked_sorted(m);
        lemma_sort_ticked_all(m, |x: TickedModel| x.tick <= tick_cap());
        assert(forall|i: int| 0 <= i < m.len() ==> crate::events::kind_wf((#[trigger] m[i]).kind))
            by {
            assert(forall|i: int| 0 <= i < m.len() ==> m[i] == flat@[i].model());
        }
        lemma_sort_ticked_all(m, |x: TickedModel| crate::events::kind_wf(x.kind));
        assert forall|i: int| 0 <= i < r@.len() implies (#[trigger] r@[i]).tick as int
            <= tick_cap() && crate::events::kind_wf(r@[i].kind) by {
            assert(events_model(r@)[i] == r@[i].model());
            assert((|x: TickedModel| x.tick <= tick_cap())(sort_ticked(m)[i]));
            assert((|x: TickedModel| crate::events::kind_wf(x.kind))(sort_ticked(m)[i]));
        }
    }
    r
}

} // verus!
