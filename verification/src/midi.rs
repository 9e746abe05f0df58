//! Note extraction from standard MIDI files: per track, the tempo map and
//! the pairing of note-on with note-off events, with onset and offset
//! times kept exact as tick-microsecond numerators.

use midly::{MetaMessage as Meta, MidiMessage as Msg, TrackEventKind as K};
use vstd::prelude::*;

verus! {

/// Default tempo of a MIDI file: 500 000 µs per beat (120 BPM).
pub const DEFAULT_TEMPO: u32 = 500000;

/// SMPTE frame rate of a timecode-timed file.
#[derive(Debug, Clone, Copy, PartialEq, Eq, Structural)]
pub enum FpsKind {
    Fps24,
    Fps25,
    Fps29,
    Fps30,
}

/// Timing of a MIDI file: ticks per beat, or SMPTE frames and ticks per frame.
#[derive(Debug, Clone, Copy, PartialEq, Eq, Structural)]
pub enum MidiTiming {
    Metrical(u16),
    Timecode(FpsKind, u8),
}

/// What a track event carries, as far as note extraction is concerned.
#[derive(Debug, Clone, Copy, PartialEq, Eq, Structural)]
pub enum MidiEventKind {
    NoteOn { channel: u8, key: u8, vel: u8 },
    NoteOff { channel: u8, key: u8 },
    Tempo(u32),
    Other,
}

/// A track event: ticks since the previous event and its kind.
#[derive(Debug, Clone, Copy, PartialEq, Eq, Structural)]
pub struct MidiEvent {
    pub delta: u32,
    pub kind: MidiEventKind,
}

/// The value ranges of the MIDI wire format: 4-bit channels, 7-bit keys
/// and velocities, 28-bit deltas and 24-bit tempos.
pub open spec fn event_wf(e: MidiEvent) -> bool {
    &&& e.delta < 0x1000_0000
    &&& match e.kind {
        MidiEventKind::NoteOn { channel, key, vel } => channel < 16 && key < 128 && vel < 128,
        MidiEventKind::NoteOff { channel, key } => channel < 16 && key < 128,
        MidiEventKind::Tempo(t) => t < 0x100_0000,
        MidiEventKind::Other => true,
    }
}

/// A note with its onset and offset, in ticks and as exact time numerators
/// (seconds times ticks-per-beat times one million).
#[derive(Debug, Clone, Copy, PartialEq, Eq, Structural)]
pub struct MidiTimedNote {
    pub onset_tick: u128,
    pub offset_tick: u128,
    pub onset: u128,
    pub offset: u128,
    pub note: u8,
    pub velocity: u8,
    pub channel: u8,
}

/// Absolute tick reached after the first `n` events: the sum of their deltas.
pub open spec fn tick_after(events: Seq<MidiEvent>, n: int) -> int
    decreases n,
{
    if n <= 0 {
        0
    } else {
        tick_after(events, n - 1) + events[n - 1].delta
    }
}

/// Every event of the track is in the MIDI value ranges.
pub open spec fn track_wf(events: Seq<MidiEvent>) -> bool {
    forall|i: int| 0 <= i < events.len() ==> #[trigger] event_wf(events[i])
}

/// The tempo changes among the first `n` events: (absolute tick, µs per beat).
pub open spec fn tempo_changes_spec(events: Seq<MidiEvent>, n: int) -> Seq<(u128, u32)>
    decreases n,
{
    if n <= 0 {
        Seq::empty()
    } else {
        let prev = tempo_changes_spec(events, n - 1);
        match events[n - 1].kind {
            MidiEventKind::Tempo(t) => prev.push((tick_after(events, n) as u128, t)),
            _ => prev,
        }
    }
}

/// Tempo changes come in tick order.
pub open spec fn changes_sorted(changes: Seq<(u128, u32)>) -> bool {
    forall|i: int, j: int| 0 <= i <= j < changes.len() ==> changes[i].0 <= changes[j].0
}

/// Every tempo fits the 24-bit field of a tempo event.
pub open spec fn tempos_wf(changes: Seq<(u128, u32)>) -> bool {
    forall|i: int| 0 <= i < changes.len() ==> changes[i].1 < 0x100_0000
}

/// Time numerator of tick `target`, walking the tempo changes that come
/// strictly before it from `(tick, tempo)`: each stretch contributes its
/// length in ticks times the tempo in force.
pub open spec fn elapsed(changes: Seq<(u128, u32)>, tick: int, tempo: int, target: int) -> int
    decreases changes.len(),
{
    if changes.len() == 0 || changes[0].0 >= target {
        if target >= tick {
            (target - tick) * tempo
        } else {
            0
        }
    } else {
        (if changes[0].0 >= tick {
            (changes[0].0 - tick) * tempo
        } else {
            0
        }) + elapsed(changes.drop_first(), changes[0].0 as int, changes[0].1 as int, target)
    }
}

/// Time numerator of tick `target` under a track's tempo map: seconds
/// times ticks-per-beat times one million.
pub open spec fn time_of(changes: Seq<(u128, u32)>, target: int) -> int {
    elapsed(changes, 0, DEFAULT_TEMPO as int, target)
}

/// Slot of a (channel, key) pair in the table of sounding notes.
pub open spec fn slot(channel: u8, key: u8) -> int {
    channel * 128 + key
}

/// Note extraction state after some events of a track: the sounding
/// notes by slot (onset tick and velocity) and the notes closed so far.
pub struct NoteScan {
    pub sounding: Seq<Option<(u128, u8)>>,
    pub notes: Seq<MidiTimedNote>,
}

/// The note that a release at `tick` of a note held since `onset` makes.
pub open spec fn closed_note(
    changes: Seq<(u128, u32)>,
    onset: u128,
    tick: int,
    key: u8,
    vel: u8,
    channel: u8,
) -> MidiTimedNote {
    MidiTimedNote {
        onset_tick: onset,
        offset_tick: tick as u128,
        onset: time_of(changes, onset as int) as u128,
        offset: time_of(changes, tick) as u128,
        note: key,
        velocity: vel,
        channel,
    }
}

/// Release of (channel, key) at `tick`: a sounding note ends and is emitted;
/// a release of a silent key changes nothing.
pub open spec fn release(
    st: NoteScan,
    changes: Seq<(u128, u32)>,
    tick: int,
    channel: u8,
    key: u8,
) -> NoteScan {
    match st.sounding[slot(channel, key)] {
        Some((onset, vel)) => NoteScan {
            sounding: st.sounding.update(slot(channel, key), None),
            notes: st.notes.push(closed_note(changes, onset, tick, key, vel, channel)),
        },
        None => st,
    }
}

/// The state after the first `n` events: note-ons with velocity start (or
/// restart) a note, note-offs and velocity-0 note-ons end it.
pub open spec fn scan(events: Seq<MidiEvent>, changes: Seq<(u128, u32)>, n: int) -> NoteScan
    decreases n,
{
    if n <= 0 {
        NoteScan { sounding: Seq::new(2048, |i: int| None), notes: Seq::empty() }
    } else {
        let st = scan(events, changes, n - 1);
        let tick = tick_after(events, n);
        match events[n - 1].kind {
            MidiEventKind::NoteOn { channel, key, vel } => if vel == 0 {
                release(st, changes, tick, channel, key)
            } else {
                NoteScan {
                    sounding: st.sounding.update(slot(channel, key), Some((tick as u128, vel))),
                    notes: st.notes,
                }
            },
            MidiEventKind::NoteOff { channel, key } => release(st, changes, tick, channel, key),
            _ => st,
        }
    }
}

/// The notes of one track, in the order their releases occur.
pub open spec fn track_notes_spec(events: Seq<MidiEvent>) -> Seq<MidiTimedNote> {
    scan(events, tempo_changes_spec(events, events.len() as int), events.len() as int).notes
}

proof fn lemma_tick_after_bounds(events: Seq<MidiEvent>, m: int, n: int)
    requires
        track_wf(events),
        0 <= m <= n <= events.len(),
    ensures
        0 <= tick_after(events, m) <= tick_after(events, n),
        tick_after(events, n) <= n * 0x1000_0000,
    decreases n,
{
    if n > 0 {
        assert(event_wf(events[n - 1]));
        if m < n {
            lemma_tick_after_bounds(events, m, n - 1);
        } else {
            lemma_tick_after_bounds(events, m - 1, n - 1);
        }
    }
}

proof fn lemma_tempo_changes(events: Seq<MidiEvent>, n: int)
    requires
        track_wf(events),
        0 <= n <= events.len(),
        events.len() <= 0x1_0000_0000_0000_0000,
    ensures
        changes_sorted(tempo_changes_spec(events, n)),
        tempos_wf(tempo_changes_spec(events, n)),
        forall|k: int|
            0 <= k < tempo_changes_spec(events, n).len() ==> #[trigger] tempo_changes_spec(
                events,
                n,
            )[k].0 <= tick_after(events, n),
    decreases n,
{
    if n > 0 {
        lemma_tempo_changes(events, n - 1);
        lemma_tick_after_bounds(events, n - 1, n);
        assert(event_wf(events[n - 1]));
        let prev = tempo_changes_spec(events, n - 1);
        let cur = tempo_changes_spec(events, n);
        assert(forall|k: int| 0 <= k < prev.len() ==> #[trigger] prev[k].0 <= tick_after(events, n));
        assert(n * 0x1000_0000 <= 0x1_0000_0000_0000_0000 * 0x1000_0000) by (nonlinear_arith)
            requires
                n <= 0x1_0000_0000_0000_0000,
        ;
        match events[n - 1].kind {
            MidiEventKind::Tempo(t) => {
                assert(cur == prev.push((tick_after(events, n) as u128, t)));
                assert forall|i: int, j: int| 0 <= i <= j < cur.len() implies cur[i].0
                    <= cur[j].0 by {
                    if j == cur.len() - 1 && i < j {
                        assert(prev[i].0 <= tick_after(events, n));
                    }
                }
            },
            _ => {},
        }
    }
}

proof fn lemma_elapsed_bound(changes: Seq<(u128, u32)>, tick: int, tempo: int, target: int)
    requires
        changes_sorted(changes),
        tempos_wf(changes),
        0 <= tick,
        0 <= tempo < 0x100_0000,
        forall|k: int| 0 <= k < changes.len() ==> tick <= #[trigger] changes[k].0,
    ensures
        0 <= elapsed(changes, tick, tempo, target),
        elapsed(changes, tick, tempo, target) <= (if target >= tick {
            target - tick
        } else {
            0
        }) * 0x100_0000,
    decreases changes.len(),
{
    if changes.len() == 0 || changes[0].0 >= target {
        if target >= tick {
            assert((target - tick) * tempo <= (target - tick) * 0x100_0000) by (nonlinear_arith)
                requires
                    target >= tick,
                    0 <= tempo < 0x100_0000,
            ;
            assert(0 <= (target - tick) * tempo) by (nonlinear_arith)
                requires
                    target >= tick,
                    0 <= tempo,
            ;
        }
    } else {
        let head = changes[0].0 as int;
        let rest = changes.drop_first();
        assert(forall|k: int| 0 <= k < rest.len() ==> rest[k] == changes[k + 1]);
        assert forall|k: int| 0 <= k < rest.len() implies head <= #[trigger] rest[k].0 by {
            assert(changes[0].0 <= changes[k + 1].0);
        }
        assert(changes[0].1 < 0x100_0000);
        lemma_elapsed_bound(rest, head, changes[0].1 as int, target);
        assert((head - tick) * tempo <= (head - tick) * 0x100_0000) by (nonlinear_arith)
            requires
                head >= tick,
                0 <= tempo < 0x100_0000,
        ;
        assert(0 <= (head - tick) * tempo) by (nonlinear_arith)
            requires
                head >= tick,
                0 <= tempo,
        ;
        assert((head - tick) * 0x100_0000 + (target - head) * 0x100_0000 == (target - tick)
            * 0x100_0000) by (nonlinear_arith);
    }
}

/// The tempo map of a track: each tempo event with the absolute tick at
/// which it takes effect, in track order.
pub fn tempo_changes(track: &Vec<MidiEvent>) -> (r: Vec<(u128, u32)>)
    requires
        track_wf(track@),
    ensures
        r@ == tempo_changes_spec(track@, track@.len() as int),
{
    let mut r: Vec<(u128, u32)> = Vec::new();
    let mut tick: u128 = 0;
    let mut i: usize = 0;
    while i < track.len()
        invariant
            i <= track.len(),
            track_wf(track@),
            tick == tick_after(track@, i as int),
            r@ == tempo_changes_spec(track@, i as int),
        decreases track.len() - i,
    {
        proof {
            lemma_tick_after_bounds(track@, i as int, i + 1);
            assert((i + 1) * 0x1000_0000 <= 0x1_0000_0000_0000_0000 * 0x1000_0000)
                by (nonlinear_arith)
                requires
                    i + 1 <= 0x1_0000_0000_0000_0000,
            ;
        }
        let ev = track[i];
        tick = tick + ev.delta as u128;
        match ev.kind {
            MidiEventKind::Tempo(t) => {
                r.push((tick, t));
            },
            _ => {},
        }
        i = i + 1;
    }
    r
}

/// Time numerator of tick `target`: seconds times ticks-per-beat times
/// one million, under the given tempo map.
pub fn time_at(changes: &Vec<(u128, u32)>, target: u128) -> (r: u128)
    requires
        changes_sorted(changes@),
        tempos_wf(changes@),
        target < 0x1_0000_0000_0000_0000_0000_0000,
    ensures
        r == time_of(changes@, target as int),
{
    let mut cur_tick: u128 = 0;
    let mut cur_tempo: u128 = DEFAULT_TEMPO as u128;
    let mut acc: u128 = 0;
    let mut i: usize = 0;
    proof {
        assert(changes@.skip(0) == changes@);
        lemma_elapsed_bound(changes@, 0, DEFAULT_TEMPO as int, target as int);
        assert(target * 0x100_0000 <= 0x1_0000_0000_0000_0000_0000_0000 * 0x100_0000)
            by (nonlinear_arith)
            requires
                target < 0x1_0000_0000_0000_0000_0000_0000,
        ;
    }
    while i < changes.len() && changes[i].0 < target
        invariant
            i <= changes.len(),
            changes_sorted(changes@),
            tempos_wf(changes@),
            cur_tempo < 0x100_0000,
            forall|k: int| i <= k < changes.len() ==> cur_tick <= #[trigger] changes@[k].0,
            acc + elapsed(changes@.skip(i as int), cur_tick as int, cur_tempo as int, target as int)
                == time_of(changes@, target as int),
            time_of(changes@, target as int) <= 0x1_0000_0000_0000_0000_0000_0000 * 0x100_0000,
        decreases changes.len() - i,
    {
        let (ct, tp) = changes[i];
        let ghost rest = changes@.skip(i as int);
        let ghost next = changes@.skip(i + 1);
        proof {
            assert(rest.drop_first() == next);
            assert(rest[0] == changes@[i as int]);
            assert forall|k: int| 0 <= k < next.len() implies ct <= #[trigger] next[k].0 by {
                assert(next[k] == changes@[i + 1 + k]);
            }
            assert forall|k: int| 0 <= k < next.len() implies 0 <= #[trigger] next[k].1
                < 0x100_0000 by {
                assert(next[k] == changes@[i + 1 + k]);
            }
            assert forall|a: int, b: int| 0 <= a <= b < next.len() implies next[a].0
                <= next[b].0 by {
                assert(next[a] == changes@[i + 1 + a]);
                assert(next[b] == changes@[i + 1 + b]);
            }
            assert(changes@[i as int].1 < 0x100_0000);
            lemma_elapsed_bound(next, ct as int, tp as int, target as int);
        }
        let d: u128 = ct - cur_tick;
        acc = acc + d * cur_tempo;
        cur_tick = ct;
        cur_tempo = tp as u128;
        i = i + 1;
    }
    proof {
        let rest = changes@.skip(i as int);
        if i < changes.len() {
            assert(rest[0] == changes@[i as int]);
        }
        assert(rest.len() == 0 || rest[0].0 >= target);
    }
    let rem: u128 = if target >= cur_tick {
        target - cur_tick
    } else {
        0
    };
    acc + rem * cur_tempo
}

/// Every sounding note started no later than `tick`.
pub open spec fn onsets_before(sounding: Seq<Option<(u128, u8)>>, tick: int) -> bool {
    forall|k: int|
        0 <= k < sounding.len() ==> (#[trigger] sounding[k] matches Some((t, _)) ==> t <= tick)
}

/// Change `c` is what tempo event `j`, among the first `n` events, sets:
/// its tempo, at the tick the event falls on.
pub open spec fn change_from(events: Seq<MidiEvent>, n: int, c: (u128, u32), j: int) -> bool {
    &&& 0 <= j < n
    &&& events[j].kind == MidiEventKind::Tempo(c.1)
    &&& c.0 == tick_after(events, j + 1) as u128
}

/// Change `c` is set by one of the first `n` events.
pub open spec fn change_has_source(events: Seq<MidiEvent>, n: int, c: (u128, u32)) -> bool {
    exists|j: int| #[trigger] change_from(events, n, c, j)
}

/// Tempo event `j` sets one of the changes `cs`.
pub open spec fn event_sets_change(events: Seq<MidiEvent>, n: int, cs: Seq<(u128, u32)>, j: int) -> bool {
    exists|k: int| 0 <= k < cs.len() && change_from(events, n, #[trigger] cs[k], j)
}

/// The tempo map of a track lists exactly its tempo events: every change
/// is set by a tempo event at its tick, and every tempo event sets a
/// change.
pub proof fn lemma_tempo_map_events(events: Seq<MidiEvent>, n: int)
    requires
        0 <= n <= events.len(),
    ensures
        forall|k: int|
            0 <= k < tempo_changes_spec(events, n).len() ==> change_has_source(
                events,
                n,
                #[trigger] tempo_changes_spec(events, n)[k],
            ),
        forall|j: int|
            0 <= j < n && (#[trigger] events[j].kind) is Tempo ==> event_sets_change(
                events,
                n,
                tempo_changes_spec(events, n),
                j,
            ),
    decreases n,
{
    if n > 0 {
        lemma_tempo_map_events(events, n - 1);
        let prev = tempo_changes_spec(events, n - 1);
        let cur = tempo_changes_spec(events, n);
        assert forall|k: int| 0 <= k < cur.len() implies change_has_source(events, n, #[trigger] cur[k]) by {
            if k < prev.len() {
                assert(cur[k] == prev[k]);
                assert(change_has_source(events, n - 1, prev[k]));
                let j = choose|j: int| #[trigger] change_from(events, n - 1, prev[k], j);
                assert(change_from(events, n, cur[k], j));
            } else {
                assert(change_from(events, n, cur[k], n - 1));
            }
        }
        assert forall|j: int| 0 <= j < n && (#[trigger] events[j].kind) is Tempo implies event_sets_change(
            events,
            n,
            cur,
            j,
        ) by {
            if j < n - 1 {
                assert(event_sets_change(events, n - 1, prev, j));
                let k = choose|k: int| 0 <= k < prev.len() && change_from(events, n - 1, #[trigger] prev[k], j);
                assert(cur[k] == prev[k]);
                assert(change_from(events, n, cur[k], j));
            } else {
                let k = cur.len() - 1;
                assert(change_from(events, n, cur[k], j));
            }
        }
    }
}

/// The tempo in force just after tick `a`, starting from `tempo`: that of
/// the last tempo change at or before `a`.
pub open spec fn tempo_from(changes: Seq<(u128, u32)>, tempo: int, a: int) -> int
    decreases changes.len(),
{
    if changes.len() == 0 || changes[0].0 > a {
        tempo
    } else {
        tempo_from(changes.drop_first(), changes[0].1 as int, a)
    }
}

proof fn lemma_elapsed_stretch(changes: Seq<(u128, u32)>, tick: int, tempo: int, a: int, b: int)
    requires
        changes_sorted(changes),
        tick <= a <= b,
        forall|k: int| 0 <= k < changes.len() ==> tick <= #[trigger] changes[k].0,
        forall|k: int| 0 <= k < changes.len() ==> !(a < #[trigger] changes[k].0 < b),
    ensures
        elapsed(changes, tick, tempo, b) - elapsed(changes, tick, tempo, a) == (b - a) * tempo_from(
            changes,
            tempo,
            a,
        ),
    decreases changes.len(),
{
    if changes.len() == 0 || changes[0].0 >= b {
        assert((b - tick) * tempo - (a - tick) * tempo == (b - a) * tempo) by (nonlinear_arith);
        if changes.len() > 0 && changes[0].0 <= a {
            assert(a == b);
            assert((b - a) * tempo_from(changes, tempo, a) == 0) by (nonlinear_arith)
                requires
                    a == b,
            ;
        }
    } else {
        let c0 = changes[0].0 as int;
        let t0 = changes[0].1 as int;
        let rest = changes.drop_first();
        assert(c0 <= a);
        assert forall|k: int| 0 <= k < rest.len() implies c0 <= #[trigger] rest[k].0 && !(a < rest[k].0 < b) by {
            assert(rest[k] == changes[k + 1]);
            assert(changes[0].0 <= changes[k + 1].0);
        }
        assert(changes_sorted(rest)) by {
            assert forall|i: int, j: int| 0 <= i <= j < rest.len() implies rest[i].0 <= rest[j].0 by {
                assert(rest[i] == changes[i + 1] && rest[j] == changes[j + 1]);
            }
        }
        lemma_elapsed_stretch(rest, c0, t0, a, b);
        if c0 == a {
            if rest.len() > 0 {
                assert(rest[0].0 >= a);
            }
            assert((a - a) * t0 == 0) by (nonlinear_arith);
        }
    }
}

/// Time advances at the tempo in force: between two ticks `a <= b` with no
/// tempo change strictly between them, a track's time numerator grows by
/// the ticks in between times the tempo of the last change at or before
/// `a` (the default tempo when there is none).
pub proof fn lemma_time_of_stretch(changes: Seq<(u128, u32)>, a: int, b: int)
    requires
        changes_sorted(changes),
        0 <= a <= b,
        forall|k: int| 0 <= k < changes.len() ==> !(a < #[trigger] changes[k].0 < b),
    ensures
        time_of(changes, b) - time_of(changes, a) == (b - a) * tempo_from(changes, DEFAULT_TEMPO as int, a),
{
    lemma_elapsed_stretch(changes, 0, DEFAULT_TEMPO as int, a, b);
}

/// The notes of one track, each with its onset and offset in ticks and as
/// exact time numerators, in the order their releases occur. A note-on
/// with velocity starts (or restarts) the note of its channel and key; a
/// note-off or a velocity-0 note-on ends it; a release of a silent key is
/// ignored, and notes still sounding at the end of the track are dropped.
pub fn track_notes(track: &Vec<MidiEvent>) -> (r: Vec<MidiTimedNote>)
    requires
        track_wf(track@),
    ensures
        r@ == track_notes_spec(track@),
{
    let changes = tempo_changes(track);
    let ghost ch = changes@;
    let n: usize = track.len();
    proof {
        assert(n <= usize::MAX);
        lemma_tempo_changes(track@, track@.len() as int);
    }
    let mut sounding: Vec<Option<(u128, u8)>> = Vec::new();
    let mut k: usize = 0;
    while k < 2048
        invariant
            k <= 2048,
            sounding@ == Seq::new(k as nat, |i: int| None::<(u128, u8)>),
        decreases 2048 - k,
    {
        sounding.push(None);
        k = k + 1;
    }
    let mut notes: Vec<MidiTimedNote> = Vec::new();
    let mut tick: u128 = 0;
    let mut i: usize = 0;
    while i < track.len()
        invariant
            i <= track.len(),
            track_wf(track@),
            changes@ == ch,
            ch == tempo_changes_spec(track@, track@.len() as int),
            changes_sorted(ch),
            tempos_wf(ch),
            tick == tick_after(track@, i as int),
            sounding@ == scan(track@, ch, i as int).sounding,
            notes@ == scan(track@, ch, i as int).notes,
            sounding@.len() == 2048,
            onsets_before(sounding@, tick as int),
        decreases track.len() - i,
    {
        proof {
            lemma_tick_after_bounds(track@, i as int, i + 1);
            assert((i + 1) * 0x1000_0000 <= 0x1_0000_0000_0000_0000 * 0x1000_0000)
                by (nonlinear_arith)
                requires
                    i + 1 <= 0x1_0000_0000_0000_0000,
            ;
            assert(event_wf(track@[i as int]));
        }
        let ev = track[i];
        tick = tick + ev.delta as u128;
        let (release_at, start) = match ev.kind {
            MidiEventKind::NoteOn { channel, key, vel } => if vel == 0 {
                (Some((channel, key)), None)
            } else {
                (None, Some((channel, key, vel)))
            },
            MidiEventKind::NoteOff { channel, key } => (Some((channel, key)), None),
            _ => (None, None),
        };
        match start {
            Some((channel, key, vel)) => {
                let s: usize = channel as usize * 128 + key as usize;
                sounding.set(s, Some((tick, vel)));
            },
            None => {},
        }
        match release_at {
            Some((channel, key)) => {
                let s: usize = channel as usize * 128 + key as usize;
                match sounding[s] {
                    Some((onset, vel)) => {
                        let on = time_at(&changes, onset);
                        let off = time_at(&changes, tick);
                        notes.push(
                            MidiTimedNote {
                                onset_tick: onset,
                                offset_tick: tick,
                                onset: on,
                                offset: off,
                                note: key,
                                velocity: vel,
                                channel,
                            },
                        );
                        sounding.set(s, None);
                    },
                    None => {},
                }
            },
            None => {},
        }
        i = i + 1;
    }
    proof {
        assert(track@.len() as int == i as int);
    }
    notes
}

proof fn lemma_elapsed_mono(changes: Seq<(u128, u32)>, tick: int, tempo: int, a: int, b: int)
    requires
        changes_sorted(changes),
        tempos_wf(changes),
        0 <= tick,
        0 <= tempo < 0x100_0000,
        forall|k: int| 0 <= k < changes.len() ==> tick <= #[trigger] changes[k].0,
        a <= b,
    ensures
        elapsed(changes, tick, tempo, a) <= elapsed(changes, tick, tempo, b),
    decreases changes.len(),
{
    if changes.len() == 0 || changes[0].0 >= b {
        if a >= tick {
            assert((a - tick) * tempo <= (b - tick) * tempo) by (nonlinear_arith)
                requires
                    tick <= a <= b,
                    0 <= tempo,
            ;
        } else if b >= tick {
            assert(0 <= (b - tick) * tempo) by (nonlinear_arith)
                requires
                    tick <= b,
                    0 <= tempo,
            ;
        }
    } else {
        let head = changes[0].0 as int;
        let rest = changes.drop_first();
        assert(forall|k: int| 0 <= k < rest.len() ==> rest[k] == changes[k + 1]);
        assert forall|k: int| 0 <= k < rest.len() implies head <= #[trigger] rest[k].0 by {
            assert(changes[0].0 <= changes[k + 1].0);
        }
        assert(changes[0].1 < 0x100_0000);
        if head < a {
            lemma_elapsed_mono(rest, head, changes[0].1 as int, a, b);
        } else {
            lemma_elapsed_bound(rest, head, changes[0].1 as int, b);
            assert((head - tick) * tempo >= 0) by (nonlinear_arith)
                requires
                    tick <= head,
                    0 <= tempo,
            ;
            if a >= tick {
                assert((a - tick) * tempo <= (head - tick) * tempo) by (nonlinear_arith)
                    requires
                        tick <= a <= head,
                        0 <= tempo,
                ;
            }
        }
    }
}

/// What holds of the scan after the first `n` events: every sounding note
/// started by then, and every closed note started no later than it ended,
/// no later than now, with its times those of its ticks.
spec fn scan_ordered(events: Seq<MidiEvent>, changes: Seq<(u128, u32)>, n: int) -> bool {
    let st = scan(events, changes, n);
    &&& st.sounding.len() == 2048
    &&& onsets_before(st.sounding, tick_after(events, n))
    &&& forall|k: int|
        0 <= k < st.notes.len() ==> {
            let note = #[trigger] st.notes[k];
            &&& note.onset_tick <= note.offset_tick <= tick_after(events, n)
            &&& note.onset == time_of(changes, note.onset_tick as int) as u128
            &&& note.offset == time_of(changes, note.offset_tick as int) as u128
        }
}

proof fn lemma_scan_ordered(events: Seq<MidiEvent>, changes: Seq<(u128, u32)>, n: int)
    requires
        track_wf(events),
        0 <= n <= events.len(),
        events.len() <= 0x1_0000_0000_0000_0000,
    ensures
        scan_ordered(events, changes, n),
    decreases n,
{
    if n > 0 {
        lemma_scan_ordered(events, changes, n - 1);
        lemma_tick_after_bounds(events, n - 1, n);
        assert(n * 0x1000_0000 <= 0x1_0000_0000_0000_0000 * 0x1000_0000) by (nonlinear_arith)
            requires
                n <= 0x1_0000_0000_0000_0000,
        ;
        assert(event_wf(events[n - 1]));
        let prev = scan(events, changes, n - 1);
        let cur = scan(events, changes, n);
        let t = tick_after(events, n);
        let t0 = tick_after(events, n - 1);
        assert forall|k: int| 0 <= k < cur.sounding.len() implies (#[trigger] cur.sounding[k] matches Some((
            o,
            _,
        )) ==> o <= t) by {
            if k < prev.sounding.len() {
                assert(prev.sounding[k] matches Some((o, _)) ==> o <= t0);
            }
        }
        assert forall|k: int| 0 <= k < cur.notes.len() implies {
            let note = #[trigger] cur.notes[k];
            &&& note.onset_tick <= note.offset_tick <= t
            &&& note.onset == time_of(changes, note.onset_tick as int) as u128
            &&& note.offset == time_of(changes, note.offset_tick as int) as u128
        } by {
            if k < prev.notes.len() {
                assert(cur.notes[k] == prev.notes[k]);
            } else {
                match events[n - 1].kind {
                    MidiEventKind::NoteOn { channel, key, vel } => {
                        let s = slot(channel, key);
                        assert(prev.sounding[s] matches Some((o, _)) ==> o <= t0);
                    },
                    MidiEventKind::NoteOff { channel, key } => {
                        let s = slot(channel, key);
                        assert(prev.sounding[s] matches Some((o, _)) ==> o <= t0);
                    },
                    _ => {},
                }
            }
        }
    }
}

/// Every note of a track ends no earlier than it starts, both in ticks and
/// in time.
pub proof fn lemma_track_notes_ordered(events: Seq<MidiEvent>)
    requires
        track_wf(events),
        events.len() <= usize::MAX,
    ensures
        forall|k: int|
            0 <= k < track_notes_spec(events).len() ==> {
                let note = #[trigger] track_notes_spec(events)[k];
                note.onset_tick <= note.offset_tick && note.onset <= note.offset
            },
{
    let n = events.len() as int;
    let ch = tempo_changes_spec(events, n);
    lemma_scan_ordered(events, ch, n);
    lemma_tempo_changes(events, n);
    lemma_tick_after_bounds(events, n, n);
    assert(n * 0x1000_0000 <= 0x1_0000_0000_0000_0000 * 0x1000_0000) by (nonlinear_arith)
        requires
            n <= 0x1_0000_0000_0000_0000,
    ;
    let notes = track_notes_spec(events);
    assert forall|k: int| 0 <= k < notes.len() implies {
        let note = #[trigger] notes[k];
        note.onset_tick <= note.offset_tick && note.onset <= note.offset
    } by {
        let note = notes[k];
        let a = note.onset_tick as int;
        let b = note.offset_tick as int;
        lemma_elapsed_mono(ch, 0, DEFAULT_TEMPO as int, a, b);
        lemma_elapsed_bound(ch, 0, DEFAULT_TEMPO as int, b);
        lemma_elapsed_bound(ch, 0, DEFAULT_TEMPO as int, a);
        assert(b * 0x100_0000 <= 0x1_0000_0000_0000_0000_0000_0000 * 0x100_0000) by (nonlinear_arith)
            requires
                0 <= b <= 0x1_0000_0000_0000_0000_0000_0000,
        ;
    }
}

/// A parsed file's timing and its notes, track after track.
pub struct MidiScore {
    pub timing: MidiTiming,
    pub notes: Vec<MidiTimedNote>,
}

/// The event sequences of a list of tracks.
pub open spec fn tracks_view(tracks: Seq<Vec<MidiEvent>>) -> Seq<Seq<MidiEvent>> {
    tracks.map_values(|t: Vec<MidiEvent>| t@)
}

/// The notes of all tracks, track after track.
pub open spec fn score_notes_spec(tracks: Seq<Seq<MidiEvent>>) -> Seq<MidiTimedNote>
    decreases tracks.len(),
{
    if tracks.len() == 0 {
        Seq::empty()
    } else {
        score_notes_spec(tracks.drop_last()) + track_notes_spec(tracks.last())
    }
}

/// The notes of a file from its decoded tracks, track after track.
pub fn score_from_tracks(timing: MidiTiming, tracks: &Vec<Vec<MidiEvent>>) -> (s: MidiScore)
    requires
        forall|t: int| 0 <= t < tracks.len() ==> track_wf(#[trigger] tracks@[t]@),
    ensures
        s.timing == timing,
        s.notes@ == score_notes_spec(tracks_view(tracks@)),
{
    let mut notes: Vec<MidiTimedNote> = Vec::new();
    let mut t: usize = 0;
    while t < tracks.len()
        invariant
            t <= tracks.len(),
            forall|k: int| 0 <= k < tracks.len() ==> track_wf(#[trigger] tracks@[k]@),
            notes@ == score_notes_spec(tracks_view(tracks@).take(t as int)),
        decreases tracks.len() - t,
    {
        let mut tn = track_notes(&tracks[t]);
        proof {
            let all = tracks_view(tracks@);
            assert(all.take(t + 1).drop_last() == all.take(t as int));
            assert(all.take(t + 1).last() == tracks@[t as int]@);
        }
        notes.append(&mut tn);
        t = t + 1;
    }
    proof {
        assert(tracks_view(tracks@).take(t as int) == tracks_view(tracks@));
    }
    MidiScore { timing, notes }
}

/// The value ranges of an extracted note: a 7-bit key, a 4-bit channel
/// and a velocity from 1 to 127.
pub open spec fn note_in_range(n: MidiTimedNote) -> bool {
    n.note < 128 && n.channel < 16 && 0 < n.velocity < 128
}

/// After the first `n` events every sounding note has a velocity from 1 to
/// 127 and every closed note is in range.
spec fn scan_in_range(events: Seq<MidiEvent>, changes: Seq<(u128, u32)>, n: int) -> bool {
    let st = scan(events, changes, n);
    &&& st.sounding.len() == 2048
    &&& forall|k: int|
        0 <= k < 2048 ==> (#[trigger] st.sounding[k] matches Some((_, v)) ==> 0 < v < 128)
    &&& forall|k: int| 0 <= k < st.notes.len() ==> note_in_range(#[trigger] st.notes[k])
}

proof fn lemma_scan_in_range(events: Seq<MidiEvent>, changes: Seq<(u128, u32)>, n: int)
    requires
        track_wf(events),
        0 <= n <= events.len(),
    ensures
        scan_in_range(events, changes, n),
    decreases n,
{
    if n > 0 {
        lemma_scan_in_range(events, changes, n - 1);
        assert(event_wf(events[n - 1]));
        let prev = scan(events, changes, n - 1);
        let cur = scan(events, changes, n);
        assert forall|k: int| 0 <= k < 2048 implies (#[trigger] cur.sounding[k] matches Some((_, v))
            ==> 0 < v < 128) by {
            assert(prev.sounding[k] matches Some((_, v)) ==> 0 < v < 128);
        }
        assert forall|k: int| 0 <= k < cur.notes.len() implies note_in_range(#[trigger] cur.notes[k]) by {
            if k < prev.notes.len() {
                assert(cur.notes[k] == prev.notes[k]);
            } else {
                match events[n - 1].kind {
                    MidiEventKind::NoteOn { channel, key, vel } => {
                        assert(prev.sounding[slot(channel, key)] matches Some((_, v)) ==> 0 < v < 128);
                    },
                    MidiEventKind::NoteOff { channel, key } => {
                        assert(prev.sounding[slot(channel, key)] matches Some((_, v)) ==> 0 < v < 128);
                    },
                    _ => {},
                }
            }
        }
    }
}

/// The event is a note-on or note-off of `channel` and `key`.
pub open spec fn touches(e: MidiEvent, channel: u8, key: u8) -> bool {
    match e.kind {
        MidiEventKind::NoteOn { channel: c, key: k, .. } => c == channel && k == key,
        MidiEventKind::NoteOff { channel: c, key: k } => c == channel && k == key,
        _ => false,
    }
}

/// The event starts a note of `channel` and `key` with velocity `vel`.
pub open spec fn starts_note(e: MidiEvent, channel: u8, key: u8, vel: u8) -> bool {
    vel > 0 && e.kind == (MidiEventKind::NoteOn { channel, key, vel })
}

/// The event ends the note of `channel` and `key`: a note-off, or a
/// note-on with velocity 0.
pub open spec fn ends_note(e: MidiEvent, channel: u8, key: u8) -> bool {
    e.kind == (MidiEventKind::NoteOff { channel, key }) || e.kind == (MidiEventKind::NoteOn {
        channel,
        key,
        vel: 0,
    })
}

/// Event `j`, before event `n`, started a note of `channel` and `key` with
/// velocity `vel`, and no event since touched that channel and key.
pub open spec fn pending_note(events: Seq<MidiEvent>, n: int, channel: u8, key: u8, j: int, vel: u8) -> bool {
    &&& 0 <= j < n
    &&& starts_note(events[j], channel, key, vel)
    &&& forall|m: int| j < m < n ==> !touches(#[trigger] events[m], channel, key)
}

/// `note` is the note that event `j` started and event `r` ended: same
/// channel, key and velocity, its ticks those of the two events, and no
/// event of that channel and key in between.
pub open spec fn note_from(events: Seq<MidiEvent>, note: MidiTimedNote, j: int, r: int) -> bool {
    &&& 0 <= j < r < events.len()
    &&& starts_note(events[j], note.channel, note.note, note.velocity)
    &&& ends_note(events[r], note.channel, note.note)
    &&& note.onset_tick == tick_after(events, j + 1) as u128
    &&& note.offset_tick == tick_after(events, r + 1) as u128
    &&& forall|m: int| j < m < r ==> !touches(#[trigger] events[m], note.channel, note.note)
}

/// `note` was started and ended by events before event `n`.
pub open spec fn note_has_source(events: Seq<MidiEvent>, note: MidiTimedNote, n: int) -> bool {
    exists|j: int, r: int| #[trigger] note_from(events, note, j, r) && r < n
}

/// After the first `n` events, every sounding note comes from a pending
/// note-on of its own channel and key, and every closed note from a
/// note-on and the release that ended it.
spec fn scan_sources(events: Seq<MidiEvent>, changes: Seq<(u128, u32)>, n: int) -> bool {
    let st = scan(events, changes, n);
    &&& st.sounding.len() == 2048
    &&& forall|c: u8, k: u8|
        c < 16 && k < 128 ==> sounding_has_source(events, n, c, k, #[trigger] st.sounding[slot(c, k)])
    &&& forall|i: int| 0 <= i < st.notes.len() ==> note_has_source(events, #[trigger] st.notes[i], n)
}

/// A sounding entry of `channel` and `key` after `n` events, if any, was
/// set by a pending note-on of that channel and key, at its tick.
pub open spec fn sounding_has_source(
    events: Seq<MidiEvent>,
    n: int,
    channel: u8,
    key: u8,
    entry: Option<(u128, u8)>,
) -> bool {
    entry matches Some((t, v)) ==> exists|j: int|
        #[trigger] pending_note(events, n, channel, key, j, v) && t == tick_after(events, j + 1) as u128
}

proof fn lemma_slot_injective(c1: u8, k1: u8, c2: u8, k2: u8)
    requires
        c1 < 16,
        k1 < 128,
        c2 < 16,
        k2 < 128,
        slot(c1, k1) == slot(c2, k2),
    ensures
        c1 == c2 && k1 == k2,
{
}

proof fn lemma_scan_sources(events: Seq<MidiEvent>, changes: Seq<(u128, u32)>, n: int)
    requires
        track_wf(events),
        0 <= n <= events.len(),
    ensures
        scan_sources(events, changes, n),
    decreases n,
{
    if n > 0 {
        lemma_scan_sources(events, changes, n - 1);
        assert(event_wf(events[n - 1]));
        let e = events[n - 1];
        let prev = scan(events, changes, n - 1);
        let cur = scan(events, changes, n);
        let t = tick_after(events, n);
        assert forall|i: int| 0 <= i < cur.notes.len() implies note_has_source(events, #[trigger] cur.notes[i], n) by {
            if i < prev.notes.len() {
                assert(cur.notes[i] == prev.notes[i]);
                assert(note_has_source(events, prev.notes[i], n - 1));
                let (j, r) = choose|j: int, r: int| #[trigger] note_from(events, prev.notes[i], j, r) && r < n - 1;
                assert(note_from(events, cur.notes[i], j, r));
            } else {
                let (channel, key) = match e.kind {
                    MidiEventKind::NoteOn { channel, key, .. } => (channel, key),
                    MidiEventKind::NoteOff { channel, key } => (channel, key),
                    _ => (0u8, 0u8),
                };
                let s = slot(channel, key);
                if let Some((t0, v)) = prev.sounding[s] {
                    assert(sounding_has_source(events, n - 1, channel, key, prev.sounding[slot(channel, key)]));
                    let j = choose|j: int|
                        #[trigger] pending_note(events, n - 1, channel, key, j, v) && t0 == tick_after(events, j + 1) as u128;
                    assert(note_from(events, cur.notes[i], j, n - 1));
                }
            }
        }
        assert forall|c: u8, k: u8| c < 16 && k < 128 implies sounding_has_source(
            events,
            n,
            c,
            k,
            #[trigger] cur.sounding[slot(c, k)],
        ) by {
            if !touches(e, c, k) {
                let s = slot(c, k);
                match e.kind {
                    MidiEventKind::NoteOn { channel, key, vel } => {
                        if s == slot(channel, key) {
                            lemma_slot_injective(c, k, channel, key);
                        }
                    },
                    MidiEventKind::NoteOff { channel, key } => {
                        if s == slot(channel, key) {
                            lemma_slot_injective(c, k, channel, key);
                        }
                    },
                    _ => {},
                }
                assert(cur.sounding[s] == prev.sounding[s]);
                if let Some((t0, v)) = prev.sounding[s] {
                    assert(sounding_has_source(events, n - 1, c, k, prev.sounding[slot(c, k)]));
                    let j = choose|j: int|
                        #[trigger] pending_note(events, n - 1, c, k, j, v) && t0 == tick_after(events, j + 1) as u128;
                    assert(pending_note(events, n, c, k, j, v));
                    assert(exists|j: int|
                        #[trigger] pending_note(events, n, c, k, j, v) && t0 == tick_after(events, j + 1) as u128);
                    assert(sounding_has_source(events, n, c, k, cur.sounding[slot(c, k)]));
                }
                assert(sounding_has_source(events, n, c, k, cur.sounding[slot(c, k)]));
            } else {
                match e.kind {
                    MidiEventKind::NoteOn { channel, key, vel } => {
                        assert(channel == c && key == k);
                        if vel > 0 {
                            assert(cur.sounding[slot(c, k)] == Some((t as u128, vel)));
                            assert(pending_note(events, n, c, k, n - 1, vel));
                            assert(tick_after(events, (n - 1) + 1) == t);
                            assert(exists|j: int|
                                #[trigger] pending_note(events, n, c, k, j, vel) && (t as u128) == tick_after(events, j + 1) as u128);
                            let (et, ev) = cur.sounding[slot(c, k)].unwrap();
                            assert(ev == vel && et == t as u128);
                            assert(pending_note(events, n, c, k, n - 1, ev));
                            assert(et == tick_after(events, (n - 1) + 1) as u128);
                            assert(sounding_has_source(events, n, c, k, cur.sounding[slot(c, k)]));
                        } else {
                            assert(cur.sounding[slot(c, k)] is None);
                        }
                    },
                    MidiEventKind::NoteOff { channel, key } => {
                        assert(channel == c && key == k);
                        assert(cur.sounding[slot(c, k)] is None);
                    },
                    _ => {},
                }
            }
            assert(sounding_has_source(events, n, c, k, cur.sounding[slot(c, k)]));
        }
        assert(cur.sounding.len() == 2048);
        assert(scan_sources(events, changes, n));
    } else {
        let st = scan(events, changes, n);
        assert forall|c: u8, k: u8| c < 16 && k < 128 implies (#[trigger] st.sounding[slot(c, k)]) is None by {
            assert(0 <= slot(c, k) < 2048);
        }
    }
}

/// After `n` events, every note-on still pending holds the sounding entry
/// of its channel and key: its tick and velocity.
spec fn scan_pending_sounds(events: Seq<MidiEvent>, changes: Seq<(u128, u32)>, n: int) -> bool {
    forall|c: u8, k: u8, j: int, v: u8|
        c < 16 && k < 128 && #[trigger] pending_note(events, n, c, k, j, v) ==> scan(events, changes, n).sounding[slot(
            c,
            k,
        )] == Some((tick_after(events, j + 1) as u128, v))
}

proof fn lemma_scan_pending_sounds(events: Seq<MidiEvent>, changes: Seq<(u128, u32)>, n: int)
    requires
        track_wf(events),
        0 <= n <= events.len(),
    ensures
        scan_pending_sounds(events, changes, n),
        scan(events, changes, n).sounding.len() == 2048,
    decreases n,
{
    if n > 0 {
        lemma_scan_pending_sounds(events, changes, n - 1);
        assert(event_wf(events[n - 1]));
        let e = events[n - 1];
        let prev = scan(events, changes, n - 1);
        let cur = scan(events, changes, n);
        assert forall|c: u8, k: u8, j: int, v: u8|
            c < 16 && k < 128 && #[trigger] pending_note(events, n, c, k, j, v) implies cur.sounding[slot(c, k)] == Some(
                (tick_after(events, j + 1) as u128, v),
            ) by {
            if j == n - 1 {
                assert(starts_note(e, c, k, v));
            } else {
                assert(!touches(e, c, k));
                assert(pending_note(events, n - 1, c, k, j, v));
                let s = slot(c, k);
                match e.kind {
                    MidiEventKind::NoteOn { channel, key, vel } => {
                        if s == slot(channel, key) {
                            lemma_slot_injective(c, k, channel, key);
                        }
                    },
                    MidiEventKind::NoteOff { channel, key } => {
                        if s == slot(channel, key) {
                            lemma_slot_injective(c, k, channel, key);
                        }
                    },
                    _ => {},
                }
                assert(cur.sounding[s] == prev.sounding[s]);
            }
        }
    }
}

proof fn lemma_scan_notes_grow(events: Seq<MidiEvent>, changes: Seq<(u128, u32)>, n: int, m: int)
    requires
        0 <= n <= m,
    ensures
        scan(events, changes, n).notes.len() <= scan(events, changes, m).notes.len(),
        forall|i: int|
            0 <= i < scan(events, changes, n).notes.len() ==> #[trigger] scan(events, changes, m).notes[i]
                == scan(events, changes, n).notes[i],
    decreases m - n,
{
    if n < m {
        lemma_scan_notes_grow(events, changes, n, m - 1);
    }
}

/// Every note that a track plays is extracted: a note-on with velocity,
/// followed by a note-off (or velocity-0 note-on) of the same channel and
/// key with no event of that channel and key in between, gives a note
/// with that onset, offset, channel, key and velocity.
pub proof fn lemma_track_notes_complete(events: Seq<MidiEvent>, j: int, r: int, c: u8, k: u8, v: u8)
    requires
        track_wf(events),
        0 <= j < r < events.len(),
        starts_note(events[j], c, k, v),
        ends_note(events[r], c, k),
        forall|m: int| j < m < r ==> !touches(#[trigger] events[m], c, k),
    ensures
        exists|i: int|
            0 <= i < track_notes_spec(events).len() && {
                let note = #[trigger] track_notes_spec(events)[i];
                &&& note.channel == c && note.note == k && note.velocity == v
                &&& note_from(events, note, j, r)
            },
{
    let n = events.len() as int;
    let ch = tempo_changes_spec(events, n);
    assert(event_wf(events[j]));
    lemma_scan_pending_sounds(events, ch, r);
    assert(pending_note(events, r, c, k, j, v));
    let before = scan(events, ch, r);
    let after = scan(events, ch, r + 1);
    assert(before.sounding[slot(c, k)] == Some((tick_after(events, j + 1) as u128, v)));
    let i = before.notes.len() as int;
    assert(after.notes.len() == i + 1);
    let note = after.notes[i];
    assert(note.channel == c && note.note == k && note.velocity == v);
    assert(note_from(events, note, j, r));
    lemma_scan_notes_grow(events, ch, r + 1, n);
    assert(track_notes_spec(events)[i] == note);
}

/// The times of every note of a track are the time numerators of its
/// ticks under the track's tempo map.
pub proof fn lemma_track_note_times(events: Seq<MidiEvent>)
    requires
        track_wf(events),
        events.len() <= usize::MAX,
    ensures
        forall|i: int|
            0 <= i < track_notes_spec(events).len() ==> {
                let note = #[trigger] track_notes_spec(events)[i];
                let changes = tempo_changes_spec(events, events.len() as int);
                &&& note.onset == time_of(changes, note.onset_tick as int) as u128
                &&& note.offset == time_of(changes, note.offset_tick as int) as u128
            },
{
    let n = events.len() as int;
    lemma_scan_ordered(events, tempo_changes_spec(events, n), n);
}

/// Notes on different channels, and of different keys, are independent:
/// every note of a track was started by a note-on of its own channel and
/// key, with its velocity, and ended by a later note-off (or velocity-0
/// note-on) of that same channel and key, with no event of that channel
/// and key in between; its onset and offset are the ticks of those two
/// events.
pub proof fn lemma_track_notes_sources(events: Seq<MidiEvent>)
    requires
        track_wf(events),
    ensures
        forall|i: int|
            0 <= i < track_notes_spec(events).len() ==> note_has_source(
                events,
                #[trigger] track_notes_spec(events)[i],
                events.len() as int,
            ),
{
    let n = events.len() as int;
    lemma_scan_sources(events, tempo_changes_spec(events, n), n);
}

/// Every note extracted from well-formed tracks has a key below 128, a
/// channel below 16 and a velocity from 1 to 127.
pub proof fn lemma_score_notes_in_range(tracks: Seq<Seq<MidiEvent>>)
    requires
        forall|t: int| 0 <= t < tracks.len() ==> track_wf(#[trigger] tracks[t]),
    ensures
        forall|k: int|
            0 <= k < score_notes_spec(tracks).len() ==> note_in_range(
                #[trigger] score_notes_spec(tracks)[k],
            ),
    decreases tracks.len(),
{
    if tracks.len() > 0 {
        let init = tracks.drop_last();
        let last = tracks.last();
        assert forall|t: int| 0 <= t < init.len() implies track_wf(#[trigger] init[t]) by {
            assert(init[t] == tracks[t]);
        }
        lemma_score_notes_in_range(init);
        assert(track_wf(tracks[tracks.len() - 1]));
        let n = last.len() as int;
        lemma_scan_in_range(last, tempo_changes_spec(last, n), n);
        let a = score_notes_spec(init);
        let b = track_notes_spec(last);
        assert forall|k: int| 0 <= k < (a + b).len() implies note_in_range(#[trigger] (a + b)[k]) by {
            if k >= a.len() {
                assert((a + b)[k] == b[k - a.len()]);
            }
        }
    }
}

/// A note ends no earlier than it starts, in ticks and in time.
pub open spec fn note_forward(n: MidiTimedNote) -> bool {
    n.onset_tick <= n.offset_tick && n.onset <= n.offset
}

/// Every note extracted from well-formed tracks ends no earlier than it
/// starts.
pub proof fn lemma_score_notes_forward(tracks: Seq<Seq<MidiEvent>>)
    requires
        forall|t: int|
            0 <= t < tracks.len() ==> track_wf(#[trigger] tracks[t]) && tracks[t].len() <= usize::MAX,
    ensures
        forall|k: int|
            0 <= k < score_notes_spec(tracks).len() ==> note_forward(#[trigger] score_notes_spec(tracks)[k]),
    decreases tracks.len(),
{
    if tracks.len() > 0 {
        let init = tracks.drop_last();
        let last = tracks.last();
        assert forall|t: int| 0 <= t < init.len() implies track_wf(#[trigger] init[t]) && init[t].len()
            <= usize::MAX by {
            assert(init[t] == tracks[t]);
        }
        lemma_score_notes_forward(init);
        assert(track_wf(tracks[tracks.len() - 1]));
        lemma_track_notes_ordered(last);
        let a = score_notes_spec(init);
        let b = track_notes_spec(last);
        assert forall|k: int| 0 <= k < (a + b).len() implies note_forward(#[trigger] (a + b)[k]) by {
            if k >= a.len() {
                assert((a + b)[k] == b[k - a.len()]);
            }
        }
    }
}

/// The notes whose onset numerator is `v`.
pub open spec fn onset_is(v: u128) -> spec_fn(MidiTimedNote) -> bool {
    |n: MidiTimedNote| n.onset == v
}

/// Onsets never decrease along `s`.
pub open spec fn onsets_ascending(s: Seq<MidiTimedNote>) -> bool {
    forall|i: int, j: int| 0 <= i <= j < s.len() ==> s[i].onset <= s[j].onset
}

/// `out` is `s` sorted by onset, stably: onsets ascend, and the notes of
/// each onset come in the order they have in `s`.
pub open spec fn stably_sorted_by_onset(out: Seq<MidiTimedNote>, s: Seq<MidiTimedNote>) -> bool {
    &&& out.len() == s.len()
    &&& onsets_ascending(out)
    &&& forall|v: u128| #[trigger] out.filter(onset_is(v)) == s.filter(onset_is(v))
}

/// Inserting `x` before the first note with a later onset adds `x` at the
/// end of the notes of its onset and leaves the other onsets alone.
proof fn lemma_insert_by_onset(s: Seq<MidiTimedNote>, p: int, x: MidiTimedNote, v: u128)
    requires
        0 <= p <= s.len(),
        forall|k: int| p <= k < s.len() ==> x.onset < #[trigger] s[k].onset,
    ensures
        s.insert(p, x).filter(onset_is(v)) == if x.onset == v {
            s.filter(onset_is(v)).push(x)
        } else {
            s.filter(onset_is(v))
        },
{
    broadcast use vstd::seq_lib::group_seq_properties;

    let pred = onset_is(v);
    let a = s.take(p);
    let b = s.skip(p);
    assert(s =~= a + b);
    assert(s.insert(p, x) =~= a.push(x) + b);
    Seq::filter_distributes_over_add(a, b, pred);
    Seq::filter_distributes_over_add(a.push(x), b, pred);
    a.lemma_filter_push(x, pred);
    if x.onset == v {
        assert(b.all(|y: MidiTimedNote| !pred(y)));
        b.lemma_all_neg_filter_empty(pred);
        assert(b.filter(pred) =~= Seq::<MidiTimedNote>::empty());
        assert(a.filter(pred) + b.filter(pred) =~= a.filter(pred));
        assert(a.filter(pred).push(x) + b.filter(pred) =~= a.filter(pred).push(x));
    }
}

/// The notes in order of onset; notes with the same onset keep their order.
pub fn sort_by_onset(notes: &Vec<MidiTimedNote>) -> (r: Vec<MidiTimedNote>)
    ensures
        stably_sorted_by_onset(r@, notes@),
{
    broadcast use vstd::seq_lib::group_seq_properties;

    let mut res: Vec<MidiTimedNote> = Vec::new();
    let mut i: usize = 0;
    while i < notes.len()
        invariant
            i <= notes@.len(),
            res@.len() == i,
            onsets_ascending(res@),
            forall|v: u128| #[trigger] res@.filter(onset_is(v)) == notes@.take(i as int).filter(onset_is(v)),
        decreases notes@.len() - i,
    {
        let x = notes[i];
        let mut p: usize = 0;
        while p < res.len() && res[p].onset <= x.onset
            invariant
                p <= res@.len(),
                forall|k: int| 0 <= k < p ==> res@[k].onset <= x.onset,
            decreases res@.len() - p,
        {
            p += 1;
        }
        let ghost before = res@;
        proof {
            assert forall|k: int| p <= k < before.len() implies x.onset < #[trigger] before[k].onset by {
                assert(before[p as int].onset <= before[k].onset);
            }
        }
        res.insert(p, x);
        proof {
            assert(notes@.take(i + 1) =~= notes@.take(i as int).push(x));
            assert forall|v: u128| #[trigger] res@.filter(onset_is(v)) == notes@.take(i + 1).filter(onset_is(v)) by {
                lemma_insert_by_onset(before, p as int, x, v);
                notes@.take(i as int).lemma_filter_push(x, onset_is(v));
            }
            assert forall|a: int, b: int| 0 <= a <= b < res@.len() implies res@[a].onset <= res@[b].onset by {
                if p < before.len() {
                    assert(x.onset < before[p as int].onset);
                }
            }
        }
        i += 1;
    }
    proof {
        assert(notes@.take(notes@.len() as int) =~= notes@);
    }
    res
}

#[verifier::external_type_specification]
#[verifier::external_body]
pub struct ExSmf<'a>(midly::Smf<'a>);

#[verifier::external_type_specification]
#[verifier::external_body]
pub struct ExMidlyError(midly::Error);

/// What `midly::Smf::parse` reads out of a file's bytes, seen through this
/// library's event model: the header's timing and every track's events in
/// order, or `None` where midly refuses the bytes.
pub uninterp spec fn smf_contents(bytes: Seq<u8>) -> Option<(MidiTiming, Seq<Seq<MidiEvent>>)>;

/// The header timing of a file that midly parsed (`Header::timing`), ticks
/// per beat as an integer and SMPTE frame rates one for one.
pub uninterp spec fn parsed_timing(smf: midly::Smf<'_>) -> MidiTiming;

/// The tracks of a file that midly parsed (`Smf::tracks`), each event seen
/// through this library's event model.
pub uninterp spec fn parsed_tracks(smf: midly::Smf<'_>) -> Seq<Seq<MidiEvent>>;

/// Calls `midly::Smf::parse`. It succeeds exactly on the bytes that midly
/// reads as a standard MIDI file; what it reads is the file's timing and
/// tracks.
#[verifier::external_body]
fn parse_smf<'a>(bytes: &'a [u8]) -> (r: Result<midly::Smf<'a>, midly::Error>)
    ensures
        r is Ok <==> smf_contents(bytes@) is Some,
        r matches Ok(smf) ==> smf_contents(bytes@) == Some((parsed_timing(smf), parsed_tracks(smf))),
{
    midly::Smf::parse(bytes)
}

/// Reads the timing field of a parsed file's header (`Header::timing`).
#[verifier::external_body]
fn smf_timing(smf: &midly::Smf) -> (t: MidiTiming)
    ensures
        t == parsed_timing(*smf),
{
    match smf.header.timing {
        midly::Timing::Metrical(tpb) => MidiTiming::Metrical(tpb.as_int()),
        midly::Timing::Timecode(midly::Fps::Fps24, sub) => MidiTiming::Timecode(FpsKind::Fps24, sub),
        midly::Timing::Timecode(midly::Fps::Fps25, sub) => MidiTiming::Timecode(FpsKind::Fps25, sub),
        midly::Timing::Timecode(midly::Fps::Fps29, sub) => MidiTiming::Timecode(FpsKind::Fps29, sub),
        midly::Timing::Timecode(midly::Fps::Fps30, sub) => MidiTiming::Timecode(FpsKind::Fps30, sub),
    }
}

/// The number of tracks of a parsed file (`Vec::len` of `Smf::tracks`).
#[verifier::external_body]
fn smf_track_count(smf: &midly::Smf) -> (n: usize)
    ensures
        n == parsed_tracks(*smf).len(),
{
    smf.tracks.len()
}

/// The number of events of track `t` of a parsed file.
#[verifier::external_body]
fn smf_track_len(smf: &midly::Smf, t: usize) -> (n: usize)
    requires
        t < parsed_tracks(*smf).len(),
    ensures
        n == parsed_tracks(*smf)[t as int].len(),
{
    smf.tracks[t].len()
}

/// Event `i` of track `t` of a parsed file (`midly::TrackEvent`): its delta,
/// and its note-on, note-off (velocity dropped) or tempo message; every
/// other kind of event is `Other`. The values keep midly's field widths:
/// 28-bit deltas, 4-bit channels, 7-bit keys and velocities, 24-bit tempos.
#[verifier::external_body]
fn smf_event(smf: &midly::Smf, t: usize, i: usize) -> (e: MidiEvent)
    requires
        t < parsed_tracks(*smf).len(),
        i < parsed_tracks(*smf)[t as int].len(),
    ensures
        e == parsed_tracks(*smf)[t as int][i as int],
        event_wf(e),
{
    let ev = &smf.tracks[t][i];
    let kind = match ev.kind {
        K::Midi { channel, message: Msg::NoteOn { key, vel } } =>
            MidiEventKind::NoteOn { channel: channel.as_int(), key: key.as_int(), vel: vel.as_int() },
        K::Midi { channel, message: Msg::NoteOff { key, .. } } =>
            MidiEventKind::NoteOff { channel: channel.as_int(), key: key.as_int() },
        K::Meta(Meta::Tempo(t)) => MidiEventKind::Tempo(t.as_int()),
        _ => MidiEventKind::Other,
    };
    MidiEvent { delta: ev.delta.as_int(), kind }
}

/// The message of a midly parse error (its `Display` text). Nothing is
/// stated of the text.
#[verifier::external_body]
fn error_text(e: &midly::Error) -> String {
    e.to_string()
}

/// Reads a standard MIDI file from its bytes and extracts its notes, in
/// order of onset (notes with the same onset keep the order of their
/// tracks and releases). Every note has a key below 128, a channel below
/// 16 and a velocity from 1 to 127, and ends no earlier than it starts. Fails, with a message that starts with
/// "Failed to parse MIDI: ", exactly where midly refuses the bytes.
pub fn parse_midi_bytes(bytes: &[u8]) -> (r: Result<MidiScore, String>)
    ensures
        r is Ok <==> smf_contents(bytes@) is Some,
        r matches Ok(s) ==> smf_contents(bytes@) == Some((s.timing, smf_contents(bytes@)->Some_0.1))
            && stably_sorted_by_onset(s.notes@, score_notes_spec(smf_contents(bytes@)->Some_0.1))
            && (forall|t: int|
                0 <= t < smf_contents(bytes@)->Some_0.1.len() ==> track_wf(
                    #[trigger] smf_contents(bytes@)->Some_0.1[t],
                ) && smf_contents(bytes@)->Some_0.1[t].len() <= usize::MAX)
            && forall|k: int|
                0 <= k < s.notes@.len() ==> note_in_range(#[trigger] s.notes@[k]) && note_forward(
                    s.notes@[k],
                ),
        r matches Err(msg) ==> "Failed to parse MIDI: "@.is_prefix_of(msg@),
{
    let smf = match parse_smf(bytes) {
        Ok(smf) => smf,
        Err(e) => {
            let mut msg = String::from_str("Failed to parse MIDI: ");
            let text = error_text(&e);
            msg.append(text.as_str());
            proof {
                reveal_strlit("Failed to parse MIDI: ");
                assert(msg@.subrange(0, 22) == "Failed to parse MIDI: "@);
            }
            return Err(msg);
        },
    };
    let ghost contents = smf_contents(bytes@)->Some_0.1;
    let timing = smf_timing(&smf);
    let n = smf_track_count(&smf);
    let mut tracks: Vec<Vec<MidiEvent>> = Vec::new();
    let mut t: usize = 0;
    while t < n
        invariant
            t <= n,
            contents == parsed_tracks(smf),
            n == contents.len(),
            tracks_view(tracks@) == contents.take(t as int),
            forall|k: int| 0 <= k < tracks.len() ==> track_wf(#[trigger] tracks@[k]@),
            forall|k: int| 0 <= k < tracks.len() ==> #[trigger] tracks@[k]@.len() <= usize::MAX,
        decreases n - t,
    {
        let len = smf_track_len(&smf, t);
        let mut evs: Vec<MidiEvent> = Vec::new();
        let mut i: usize = 0;
        while i < len
            invariant
                t < n,
                i <= len,
                contents == parsed_tracks(smf),
                n == contents.len(),
                len == contents[t as int].len(),
                evs@ == contents[t as int].take(i as int),
                track_wf(evs@),
            decreases len - i,
        {
            let e = smf_event(&smf, t, i);
            evs.push(e);
            i = i + 1;
        }
        proof {
            assert(evs@ == contents[t as int]);
            assert(tracks_view(tracks@.push(evs)) == tracks_view(tracks@).push(evs@));
            assert(contents.take(t + 1) == contents.take(t as int).push(contents[t as int]));
        }
        tracks.push(evs);
        t = t + 1;
    }
    proof {
        assert(tracks_view(tracks@) == contents);
        assert forall|k: int| 0 <= k < contents.len() implies track_wf(#[trigger] contents[k])
            && contents[k].len() <= usize::MAX by {
            assert(contents[k] == tracks@[k]@);
        }
        lemma_score_notes_in_range(contents);
        lemma_score_notes_forward(contents);
    }
    let score = score_from_tracks(timing, &tracks);
    let notes = sort_by_onset(&score.notes);
    proof {
        broadcast use vstd::seq_lib::group_seq_properties;
        broadcast use vstd::seq_lib::group_filter_ensures;

        let all = score.notes@;
        assert forall|k: int| 0 <= k < notes@.len() implies note_in_range(#[trigger] notes@[k])
            && note_forward(notes@[k]) by {
            let pred = onset_is(notes@[k].onset);
            assert(notes@.filter(pred).contains(notes@[k]));
            assert(all.filter(pred).contains(notes@[k]));
            all.lemma_filter_contains_rev(pred, notes@[k]);
            let j = choose|j: int| 0 <= j < all.len() && all[j] == notes@[k];
            assert(note_in_range(all[j]) && note_forward(all[j]));
        }
    }
    Ok(MidiScore { timing: score.timing, notes })
}

} // verus!
