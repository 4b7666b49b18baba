//! Tempo-aware clock: walks the merged sequence once, keeping the current
//! tempo (microseconds per quarter note, initially 500000 per the format's
//! default) and a running wall-clock total. Each event's tick position is
//! converted to an exact timestamp counted in units of
//! `1 / (ticks_per_quarter * 1_000_000)` seconds; a tempo change takes effect
//! only for ticks strictly after it.

use vstd::prelude::*;

use crate::events::ClockedEvent;
use crate::events::ClockedModel;
use crate::events::EventKind;
use crate::events::TickedEvent;
use crate::events::TickedModel;
use crate::events::kind_wf;
use crate::merge::events_model;
use crate::merge::tick_cap;
use crate::merge::ticked_sorted;

verus! {

/// The default tempo: 120 beats per minute.
pub open spec fn default_tempo() -> int {
    500000
}

/// The clocked suffix from event `i` on, given the clock state reached so
/// far: `last` is the tick of the previous event, `tempo` the current tempo,
/// `time` the running total. One step advances the total by
/// `(tick - last) * tempo` units and then lets a tempo event replace the
/// tempo.
pub open spec fn clock_from(evs: Seq<TickedModel>, i: int, last: int, tempo: int, time: int) -> Seq<
    ClockedModel,
>
    decreases evs.len() - i,
{
    if i < 0 || i >= evs.len() {
        Seq::empty()
    } else {
        let e = evs[i];
        let t2 = if e.tick >= last {
            time + (e.tick - last) * tempo
        } else {
            time
        };
        let last2 = if e.tick >= last {
            e.tick
        } else {
            last
        };
        let tempo2 = match e.kind {
            EventKind::Tempo { micros_per_quarter } => micros_per_quarter as int,
            _ => tempo,
        };
        seq![ClockedModel { time: t2, kind: e.kind }] + clock_from(evs, i + 1, last2, tempo2, t2)
    }
}

/// The clocked timeline of a merged sequence, from the initial state.
pub open spec fn clocked_model(evs: Seq<TickedModel>) -> Seq<ClockedModel> {
    clock_from(evs, 0, 0, default_tempo(), 0)
}

/// The models of a vector of clocked events.
pub open spec fn clocked_events_model(s: Seq<ClockedEvent>) -> Seq<ClockedModel> {
    s.map_values(|e: ClockedEvent| e.model())
}

/// Timestamps never decrease along the clocked sequence.
pub open spec fn times_sorted(s: Seq<ClockedModel>) -> bool {
    forall|i: int, j: int| 0 <= i < j < s.len() ==> s[i].time <= s[j].time
}

/// The clock changes no event kind and drops no event.
pub proof fn lemma_clock_from_kinds(evs: Seq<TickedModel>, i: int, last: int, tempo: int, time: int)
    requires
        0 <= i <= evs.len(),
    ensures
        clock_from(evs, i, last, tempo, time).len() == evs.len() - i,
        forall|k: int|
            0 <= k < evs.len() - i ==> (#[trigger] clock_from(evs, i, last, tempo, time)[k]).kind
                == evs[i + k].kind,
    decreases evs.len() - i,
{
    if i < evs.len() {
        let e = evs[i];
        let t2 = if e.tick >= last {
            time + (e.tick - last) * tempo
        } else {
            time
        };
        let last2 = if e.tick >= last {
            e.tick
        } else {
            last
        };
        let tempo2 = match e.kind {
            EventKind::Tempo { micros_per_quarter } => micros_per_quarter as int,
            _ => tempo,
        };
        lemma_clock_from_kinds(evs, i + 1, last2, tempo2, t2);
        let r = clock_from(evs, i, last, tempo, time);
        let rest = clock_from(evs, i + 1, last2, tempo2, t2);
        assert forall|k: int| 0 <= k < evs.len() - i implies (#[trigger] r[k]).kind == evs[i
            + k].kind by {
            if k > 0 {
                assert(r[k] == rest[k - 1]);
            }
        }
    }
}

/// Stamp every merged event with its exact timestamp. The result is exactly
/// the clocked model of the input, timestamps are non-negative and
/// non-decreasing, and event kinds carry over unchanged.
pub fn clock_events(evs: &Vec<TickedEvent>) -> (r: Vec<ClockedEvent>)
    requires
        ticked_sorted(events_model(evs@)),
        forall|i: int| 0 <= i < evs@.len() ==> kind_wf((#[trigger] evs@[i]).kind),
        forall|i: int| 0 <= i < evs@.len() ==> (#[trigger] evs@[i]).tick as int <= tick_cap(),
    ensures
        clocked_events_model(r@) == clocked_model(events_model(evs@)),
        r@.len() == evs@.len(),
        times_sorted(clocked_events_model(r@)),
        forall|i: int| 0 <= i < r@.len() ==> kind_wf((#[trigger] r@[i]).kind),
{
    let ghost m = events_model(evs@);
    let mut out: Vec<ClockedEvent> = Vec::new();
    let mut last: u128 = 0;
    let mut tempo: u32 = 500000;
    let mut time: u128 = 0;
    let mut i: usize = 0;
    while i < evs.len()
        invariant
            i <= evs@.len(),
            m == events_model(evs@),
            ticked_sorted(m),
            forall|k: int| 0 <= k < evs@.len() ==> kind_wf((#[trigger] evs@[k]).kind),
            forall|k: int| 0 <= k < evs@.len() ==> (#[trigger] evs@[k]).tick as int <= tick_cap(),
            out@.len() == i,
            tempo <= 0xFFFFFF,
            last as int <= tick_cap(),
            time as int <= last as int * 0xFFFFFF,
            i == 0 ==> last == 0 && time == 0,
            i > 0 ==> last as int == m[i as int - 1].tick,
            forall|k: int| 0 <= k < out@.len() ==> (#[trigger] out@[k]).time <= time,
            forall|k: int| 0 <= k < out@.len() ==> kind_wf((#[trigger] out@[k]).kind),
            forall|k1: int, k2: int|
                0 <= k1 < k2 < out@.len() ==> out@[k1].time <= out@[k2].time,
            clocked_model(m) == clocked_events_model(out@) + clock_from(
                m,
                i as int,
                last as int,
                tempo as int,
                time as int,
            ),
        decreases evs@.len() - i,
    {
        let e = evs[i];
        proof {
            assert(m[i as int] == evs@[i as int].model());
            assert(e.tick as int <= tick_cap());
            if i > 0 {
                assert(m[i as int - 1].tick <= m[i as int].tick);
            }
            assert(e.tick >= last);
            assert((e.tick - last) as int * tempo as int <= tick_cap() * 0xFFFFFF)
                by (nonlinear_arith)
                requires
                    0 <= (e.tick - last) as int <= tick_cap(),
                    0 <= tempo as int <= 0xFFFFFF,
            ;
            assert(last as int * 0xFFFFFF <= tick_cap() * 0xFFFFFF) by (nonlinear_arith)
                requires
                    0 <= last as int <= tick_cap(),
            ;
            assert(tick_cap() * 0xFFFFFF + tick_cap() * 0xFFFFFF
                < 0x100000000000000000000000000000000);
            assert(time as int + (e.tick - last) as int * tempo as int <= e.tick as int
                * 0xFFFFFF) by (nonlinear_arith)
                requires
                    time as int <= last as int * 0xFFFFFF,
                    0 <= tempo as int <= 0xFFFFFF,
                    0 <= last as int <= e.tick as int,
            ;
        }
        let step: u128 = (e.tick - last) * tempo as u128;
        let t2: u128 = time + step;
        let ghost prev = out@;
        out.push(ClockedEvent { time: t2, kind: e.kind });
        proof {
            let ghost cm = ClockedModel { time: t2 as int, kind: e.kind };
            let ghost tempo2 = match e.kind {
                EventKind::Tempo { micros_per_quarter } => micros_per_quarter as int,
                _ => tempo as int,
            };
            assert(clock_from(m, i as int, last as int, tempo as int, time as int) == seq![cm]
                + clock_from(m, i as int + 1, e.tick as int, tempo2, t2 as int)) by {
                assert(m[i as int].tick == e.tick as int);
                assert(m[i as int].kind == e.kind);
            }
            assert(clocked_events_model(out@) =~= clocked_events_model(prev).push(cm));
            assert(clocked_events_model(prev) + (seq![cm] + clock_from(
                m,
                i as int + 1,
                e.tick as int,
                tempo2,
                t2 as int,
            )) =~= clocked_events_model(prev).push(cm) + clock_from(
                m,
                i as int + 1,
                e.tick as int,
                tempo2,
                t2 as int,
            ));
            assert(step as int >= 0);
        }
        last = e.tick;
        time = t2;
        match e.kind {
            EventKind::Tempo { micros_per_quarter } => {
                proof {
                    assert(kind_wf(evs@[i as int].kind));
                }
                tempo = micros_per_quarter;
            },
            _ => {},
        }
        i += 1;
    }
    proof {
        assert(clock_from(m, i as int, last as int, tempo as int, time as int) =~= Seq::<
            ClockedModel,
        >::empty());
        assert(clocked_events_model(out@) + Seq::<ClockedModel>::empty() =~= clocked_events_model(
            out@,
        ));
        assert forall|k1: int, k2: int|
            0 <= k1 < k2 < clocked_events_model(out@).len() implies clocked_events_model(
            out@,
        )[k1].time <= clocked_events_model(out@)[k2].time by {
            assert(clocked_events_model(out@)[k1] == out@[k1].model());
            assert(clocked_events_model(out@)[k2] == out@[k2].model());
        }
    }
    out
}

} // verus!
