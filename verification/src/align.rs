//! Per-instance onset alignment: collects own and peer onsets from the
//! shared session and derives the delay that lines this instance up with
//! the latest-arriving peer.

use vstd::prelude::*;
use crate::drum::{DrumClass, drum_class_raw_spec, drum_class_to_raw};
use crate::sort::{lemma_filter_len_rearranged, lemma_sorted_copy, sort_ascending, sorted_copy};
use crate::sync::{
    EntryView, GateSession, OnsetEvent, SessionRegistry, is_first_named, publish_step, register_step,
    unregister_step,
    read_start, ring_window,
};

verus! {

/// Absolute value of an integer.
pub open spec fn abs_int(x: int) -> int {
    if x < 0 {
        -x
    } else {
        x
    }
}

/// A sample offset counts as a match when it lies inside the alignment
/// window (and is representable as a signed 64-bit distance).
pub open spec fn qualifies(diff: int, window: int) -> bool {
    abs_int(diff) < window && abs_int(diff) < i64::MAX
}

/// The offset from `my` to the nearest matching peer onset; the earliest
/// listed of equally near peers wins.
pub open spec fn nearest_peer_delay(my: int, peers: Seq<(u32, u64, u32)>, window: int) -> Option<int>
    decreases peers.len(),
{
    if peers.len() == 0 {
        None
    } else {
        let prev = nearest_peer_delay(my, peers.drop_last(), window);
        let diff = my - peers.last().1;
        if qualifies(diff, window) && (prev is None || abs_int(diff) < abs_int(prev->0)) {
            Some(diff)
        } else {
            prev
        }
    }
}

/// For each own onset that has a matching peer onset, its offset to the
/// nearest one, in the order of the own onsets.
pub open spec fn onset_delays(mine: Seq<(u64, u32)>, peers: Seq<(u32, u64, u32)>, window: int) -> Seq<
    i64,
>
    decreases mine.len(),
{
    if mine.len() == 0 {
        Seq::empty()
    } else {
        let prev = onset_delays(mine.drop_last(), peers, window);
        match nearest_peer_delay(mine.last().0 as int, peers, window) {
            Some(d) => prev.push(d as i64),
            None => prev,
        }
    }
}

/// The nearest matching peer onset is the nearest one: the offset found is
/// the offset to a peer onset inside the window, no peer onset inside the
/// window is strictly nearer, and every one listed before it is strictly
/// farther; with no offset found, no peer onset lies inside the window.
pub proof fn lemma_nearest_peer_is_nearest(my: int, peers: Seq<(u32, u64, u32)>, window: int)
    ensures
        nearest_peer_delay(my, peers, window) matches Some(d) ==> exists|k: int|
            0 <= k < peers.len() && d == my - (#[trigger] peers[k]).1 && qualifies(d, window) && (forall|j: int|
                0 <= j < k && qualifies(my - peers[j].1, window) ==> abs_int(d) < abs_int(
                    my - #[trigger] peers[j].1,
                )),
        nearest_peer_delay(my, peers, window) matches Some(d) ==> forall|j: int|
            0 <= j < peers.len() && qualifies(my - peers[j].1, window) ==> abs_int(d) <= abs_int(
                my - #[trigger] peers[j].1,
            ),
        nearest_peer_delay(my, peers, window) is None ==> forall|j: int|
            0 <= j < peers.len() ==> !qualifies(my - (#[trigger] peers[j]).1, window),
    decreases peers.len(),
{
    if peers.len() > 0 {
        let init = peers.drop_last();
        lemma_nearest_peer_is_nearest(my, init, window);
        let last = peers.len() - 1;
        assert forall|j: int| 0 <= j < init.len() implies #[trigger] init[j] == peers[j] by {}
        let prev = nearest_peer_delay(my, init, window);
        let diff = my - peers[last].1;
        if qualifies(diff, window) && (prev is None || abs_int(diff) < abs_int(prev->0)) {
            assert forall|j: int| 0 <= j < last && qualifies(my - peers[j].1, window) implies abs_int(diff)
                < abs_int(my - #[trigger] peers[j].1) by {
                assert(init[j] == peers[j]);
            }
            assert(diff == my - peers[last].1);
        } else if prev is Some {
            let d = prev->0;
            let k = choose|k: int|
                0 <= k < init.len() && d == my - (#[trigger] init[k]).1 && qualifies(d, window) && (forall|j: int|
                    0 <= j < k && qualifies(my - init[j].1, window) ==> abs_int(d) < abs_int(
                        my - #[trigger] init[j].1,
                    ));
            assert(d == my - peers[k].1);
            assert forall|j: int| 0 <= j < k && qualifies(my - peers[j].1, window) implies abs_int(d) < abs_int(
                my - #[trigger] peers[j].1,
            ) by {
                assert(init[j] == peers[j]);
            }
            assert forall|j: int| 0 <= j < peers.len() && qualifies(my - peers[j].1, window) implies abs_int(d)
                <= abs_int(my - #[trigger] peers[j].1) by {
                if j < last {
                    assert(init[j] == peers[j]);
                }
            }
        } else {
            assert forall|j: int| 0 <= j < peers.len() implies !qualifies(my - (#[trigger] peers[j]).1, window) by {
                if j < last {
                    assert(init[j] == peers[j]);
                }
            }
        }
    }
}

/// Every offset that enters the median belongs to one own onset and is
/// its offset to the nearest matching peer onset (see
/// `lemma_nearest_peer_is_nearest`); own onsets without a match add none,
/// and the offsets keep the order of the own onsets.
pub proof fn lemma_onset_delays_nearest(mine: Seq<(u64, u32)>, peers: Seq<(u32, u64, u32)>, window: int)
    ensures
        onset_delays(mine, peers, window).len() <= mine.len(),
        forall|k: int|
            0 <= k < onset_delays(mine, peers, window).len() ==> exists|i: int|
                0 <= i < mine.len() && nearest_peer_delay(mine[i].0 as int, peers, window) == Some(
                    #[trigger] onset_delays(mine, peers, window)[k] as int,
                ) && (forall|j: int|
                    0 <= j < peers.len() && qualifies(mine[i].0 - peers[j].1, window) ==> abs_int(
                        onset_delays(mine, peers, window)[k] as int,
                    ) <= abs_int(mine[i].0 - #[trigger] peers[j].1)),
    decreases mine.len(),
{
    if mine.len() > 0 {
        let init = mine.drop_last();
        lemma_onset_delays_nearest(init, peers, window);
        let last = mine.len() - 1;
        let cur = onset_delays(mine, peers, window);
        let prev = onset_delays(init, peers, window);
        lemma_nearest_peer_is_nearest(mine[last].0 as int, peers, window);
        assert forall|k: int| 0 <= k < cur.len() implies exists|i: int|
            0 <= i < mine.len() && nearest_peer_delay(mine[i].0 as int, peers, window) == Some(
                #[trigger] cur[k] as int,
            ) && (forall|j: int|
                0 <= j < peers.len() && qualifies(mine[i].0 - peers[j].1, window) ==> abs_int(cur[k] as int)
                    <= abs_int(mine[i].0 - #[trigger] peers[j].1)) by {
            if k < prev.len() {
                assert(cur[k] == prev[k]);
                let i = choose|i: int|
                    0 <= i < init.len() && nearest_peer_delay(init[i].0 as int, peers, window) == Some(
                        #[trigger] prev[k] as int,
                    ) && (forall|j: int|
                        0 <= j < peers.len() && qualifies(init[i].0 - peers[j].1, window) ==> abs_int(
                            prev[k] as int,
                        ) <= abs_int(init[i].0 - #[trigger] peers[j].1));
                assert(init[i] == mine[i]);
            } else {
                assert(k == prev.len());
                let d = nearest_peer_delay(mine[last].0 as int, peers, window)->0;
                lemma_nearest_in_range(mine[last].0 as int, peers, window);
                assert(cur[k] as int == d);
            }
        }
    }
}

/// A nearest offset fits in a signed 64-bit value.
proof fn lemma_nearest_in_range(my: int, peers: Seq<(u32, u64, u32)>, window: int)
    ensures
        nearest_peer_delay(my, peers, window) matches Some(d) ==> i64::MIN < d < i64::MAX,
    decreases peers.len(),
{
    if peers.len() > 0 {
        lemma_nearest_in_range(my, peers.drop_last(), window);
    }
}

/// The alignment delay that a set of onset offsets calls for: with at least
/// two offsets, none when the median offset says this instance is late,
/// else the median lead capped at `max`; with fewer, `current` stays.
pub open spec fn aligned_delay(delays: Seq<i64>, current: usize, max: usize) -> usize {
    if delays.len() >= 2 {
        let m = sorted_copy(delays)[(delays.len() / 2) as int];
        if m > 0 {
            0
        } else if -m > max {
            max
        } else {
            (-m) as usize
        }
    } else {
        current
    }
}

/// The offsets below `m`.
pub open spec fn below(m: i64) -> spec_fn(i64) -> bool {
    |x: i64| x < m
}

/// The offsets at or below `m`.
pub open spec fn at_most(m: i64) -> spec_fn(i64) -> bool {
    |x: i64| x <= m
}

proof fn lemma_filter_all(s: Seq<i64>, p: spec_fn(i64) -> bool)
    requires
        forall|i: int| 0 <= i < s.len() ==> p(#[trigger] s[i]),
    ensures
        s.filter(p) == s,
    decreases s.len(),
{
    reveal(Seq::filter);
    if s.len() > 0 {
        lemma_filter_all(s.drop_last(), p);
        assert(s.drop_last().push(s.last()) =~= s);
    }
}

/// With at least two offsets the delay follows their median: an offset `m`
/// of the list with at most half of the offsets (rounded down) below it
/// and more than half at or below it.  A median above zero means this
/// instance is late and gets no delay; otherwise the delay is the median's
/// size, capped at `max`.
pub proof fn lemma_aligned_delay_median(delays: Seq<i64>, current: usize, max: usize)
    requires
        delays.len() >= 2,
    ensures
        exists|m: i64|
            #![trigger delays.filter(below(m))]
            delays.contains(m) && delays.filter(below(m)).len() <= delays.len() / 2 && delays.filter(
                at_most(m),
            ).len() > delays.len() / 2 && aligned_delay(delays, current, max) as int == (if m > 0 {
                0
            } else if -m > max {
                max as int
            } else {
                -m
            }),
{
    broadcast use vstd::seq_lib::group_to_multiset_ensures;
    broadcast use vstd::seq_lib::group_seq_properties;

    let s = sorted_copy(delays);
    let h = (delays.len() / 2) as int;
    lemma_sorted_copy(delays);
    let m = s[h];
    assert(s.contains(m));
    assert(s.to_multiset().count(m) > 0);
    assert(delays.contains(m));
    let l = s.take(h);
    let r = s.skip(h);
    assert(s =~= l + r);
    Seq::filter_distributes_over_add(l, r, below(m));
    assert(r.all(|y: i64| !below(m)(y))) by {
        assert forall|i: int| 0 <= i < r.len() implies !below(m)(#[trigger] r[i]) by {
            assert(r[i] == s[h + i]);
            assert(s[h] <= s[h + i]);
        }
    }
    r.lemma_all_neg_filter_empty(below(m));
    l.lemma_filter_len(below(m));
    let l2 = s.take(h + 1);
    let r2 = s.skip(h + 1);
    assert(s =~= l2 + r2);
    Seq::filter_distributes_over_add(l2, r2, at_most(m));
    assert forall|i: int| 0 <= i < l2.len() implies at_most(m)(#[trigger] l2[i]) by {
        assert(l2[i] == s[i]);
        assert(s[i] <= s[h]);
    }
    lemma_filter_all(l2, at_most(m));
    lemma_filter_len_rearranged(s, delays, below(m));
    lemma_filter_len_rearranged(s, delays, at_most(m));
}

/// The delay after a correlation pass over `own` and `peers`: unchanged
/// without two own onsets and one peer onset.
pub open spec fn alignment_after(
    own: Seq<(u64, u32)>,
    peers: Seq<(u32, u64, u32)>,
    current: usize,
    max: usize,
) -> usize {
    if own.len() < 2 || peers.len() == 0 {
        current
    } else {
        aligned_delay(onset_delays(own, peers, max as int), current, max)
    }
}

/// The window is open at both ends: an offset matches exactly when its
/// size is below the window (and below the largest signed 64-bit value);
/// an offset of the window's size or more never matches.
pub proof fn lemma_window_is_open(d: int, window: int)
    ensures
        qualifies(d, window) <==> (-window < d < window && -(i64::MAX as int) < d < i64::MAX),
{
}

/// When a correlation pass changes the delay: it needs two own onsets, a
/// peer onset, and at least two own onsets with a match; then the delay
/// follows the median offset (see `lemma_aligned_delay_median`) and stays
/// within `max`. Otherwise the delay stays as it was.
pub proof fn lemma_alignment_after_cases(
    own: Seq<(u64, u32)>,
    peers: Seq<(u32, u64, u32)>,
    current: usize,
    max: usize,
)
    ensures
        own.len() < 2 || peers.len() == 0 ==> alignment_after(own, peers, current, max) == current,
        own.len() >= 2 && peers.len() > 0 && onset_delays(own, peers, max as int).len() < 2
            ==> alignment_after(own, peers, current, max) == current,
        own.len() >= 2 && peers.len() > 0 && onset_delays(own, peers, max as int).len() >= 2 ==> {
            &&& alignment_after(own, peers, current, max) == aligned_delay(
                onset_delays(own, peers, max as int),
                current,
                max,
            )
            &&& alignment_after(own, peers, current, max) <= max
        },
{
}

/// The first entry named `id`, if there is one.
pub open spec fn find_named(entries: Seq<EntryView>, id: Seq<char>) -> Option<int> {
    if exists|i: int| is_first_named(entries, id, i) {
        Some(choose|i: int| is_first_named(entries, id, i))
    } else {
        None
    }
}

proof fn lemma_first_named_unique(entries: Seq<EntryView>, id: Seq<char>, i: int, j: int)
    requires
        is_first_named(entries, id, i),
        is_first_named(entries, id, j),
    ensures
        i == j,
{
    if i < j {
        assert(entries[i].0 != Some(id));
    }
    if j < i {
        assert(entries[j].0 != Some(id));
    }
}

proof fn lemma_find_named(entries: Seq<EntryView>, id: Seq<char>, i: int)
    requires
        is_first_named(entries, id, i),
    ensures
        find_named(entries, id) == Some(i),
{
    let c = choose|k: int| is_first_named(entries, id, k);
    lemma_first_named_unique(entries, id, i, c);
}

proof fn lemma_find_named_none(entries: Seq<EntryView>, id: Seq<char>)
    requires
        forall|j: int| 0 <= j < entries.len() ==> (#[trigger] entries[j]).0 != Some(id),
    ensures
        find_named(entries, id) is None,
{
}

/// The onset events a reader at `reader` gets from `session`.
pub open spec fn events_for(session: GateSession, reader: u64) -> Seq<OnsetEvent> {
    let ring = session.onset_ring();
    if reader >= ring.write_position() {
        Seq::empty()
    } else {
        ring_window(ring.slots(), read_start(reader, ring.write_position()), ring.write_position() as int)
    }
}

/// Where a reader at `reader` stands after reading `session`.
pub open spec fn reader_after(session: GateSession, reader: u64) -> u64 {
    let ring = session.onset_ring();
    if reader >= ring.write_position() {
        reader
    } else {
        ring.write_position()
    }
}

/// Keep the own onsets of `events` (those from `me`) at or after `cutoff`.
pub open spec fn own_onsets(events: Seq<OnsetEvent>, me: u32, cutoff: u64) -> Seq<(u64, u32)>
    decreases events.len(),
{
    if events.len() == 0 {
        Seq::empty()
    } else {
        let prev = own_onsets(events.drop_last(), me, cutoff);
        let e = events.last();
        if e.sample_position >= cutoff && e.instance_id == me {
            prev.push((e.sample_position, e.amplitude_bits))
        } else {
            prev
        }
    }
}

/// Keep the peer onsets of `events` (those not from `me`) at or after `cutoff`.
pub open spec fn peer_onsets_of(events: Seq<OnsetEvent>, me: u32, cutoff: u64) -> Seq<(u32, u64, u32)>
    decreases events.len(),
{
    if events.len() == 0 {
        Seq::empty()
    } else {
        let prev = peer_onsets_of(events.drop_last(), me, cutoff);
        let e = events.last();
        if e.sample_position >= cutoff && e.instance_id != me {
            prev.push((e.instance_id, e.sample_position, e.amplitude_bits))
        } else {
            prev
        }
    }
}

/// Own onsets no older than `cutoff`.
pub open spec fn recent_own(s: Seq<(u64, u32)>, cutoff: u64) -> Seq<(u64, u32)> {
    s.filter(|p: (u64, u32)| p.0 >= cutoff)
}

/// Peer onsets no older than `cutoff`.
pub open spec fn recent_peers(s: Seq<(u32, u64, u32)>, cutoff: u64) -> Seq<(u32, u64, u32)> {
    s.filter(|p: (u32, u64, u32)| p.1 >= cutoff)
}

/// Per-instance alignment state: session membership, onset history and the
/// current alignment delay in samples.  The delay line itself is audio and
/// lives with the caller.
pub struct PhaseAligner {
    session: Option<usize>,
    instance_id: u32,
    reader_pos: u64,
    alignment_delay_samples: usize,
    my_onsets: Vec<(u64, u32)>,
    peer_onsets: Vec<(u32, u64, u32)>,
    sample_counter: u64,
    enabled: bool,
    max_alignment_samples: usize,
}

impl PhaseAligner {
    /// Handle of the joined session, if any.
    pub closed spec fn session_handle(&self) -> Option<usize> {
        self.session
    }

    /// Absolute sample counter.
    pub closed spec fn counter(&self) -> u64 {
        self.sample_counter
    }

    /// Whether alignment is applied.
    pub closed spec fn is_enabled(&self) -> bool {
        self.enabled
    }

    /// Id this instance got from its session.
    pub closed spec fn instance(&self) -> u32 {
        self.instance_id
    }

    /// Position in the session's onset ring up to which events were read.
    pub closed spec fn reader(&self) -> u64 {
        self.reader_pos
    }

    /// Current alignment delay in samples, whether or not it is applied.
    pub closed spec fn delay(&self) -> usize {
        self.alignment_delay_samples
    }

    /// Longest alignment delay allowed, in samples.
    pub closed spec fn max_delay(&self) -> usize {
        self.max_alignment_samples
    }

    /// Own onsets: (sample position, amplitude bits).
    pub closed spec fn own(&self) -> Seq<(u64, u32)> {
        self.my_onsets@
    }

    /// Peer onsets: (instance id, sample position, amplitude bits).
    pub closed spec fn peers(&self) -> Seq<(u32, u64, u32)> {
        self.peer_onsets@
    }

    /// A detached aligner: no session, no history, 240 samples of allowed delay.
    pub fn new() -> (a: Self)
        ensures
            a.session_handle() is None,
            a.instance() == 0,
            a.reader() == 0,
            a.delay() == 0,
            a.max_delay() == 240,
            a.own() == Seq::<(u64, u32)>::empty(),
            a.peers() == Seq::<(u32, u64, u32)>::empty(),
            a.counter() == 0,
            !a.is_enabled(),
    {
        PhaseAligner {
            session: None,
            instance_id: 0,
            reader_pos: 0,
            alignment_delay_samples: 0,
            my_onsets: Vec::new(),
            peer_onsets: Vec::new(),
            sample_counter: 0,
            enabled: false,
            max_alignment_samples: 240,
        }
    }

    /// Set the longest allowed alignment delay in samples.
    pub fn set_max_alignment_samples(&mut self, samples: usize)
        ensures
            final(self).max_delay() == samples,
            final(self).delay() == old(self).delay(),
            final(self).session_handle() == old(self).session_handle(),
            final(self).instance() == old(self).instance(),
            final(self).reader() == old(self).reader(),
            final(self).own() == old(self).own(),
            final(self).peers() == old(self).peers(),
            final(self).counter() == old(self).counter(),
            final(self).is_enabled() == old(self).is_enabled(),
    {
        self.max_alignment_samples = samples;
    }

    /// Cross-correlate onset times to find a consistent delay: each own onset
    /// is paired with its nearest peer onset inside the window, and the median
    /// offset decides the delay (see `aligned_delay`).  Needs at least two own
    /// onsets and one peer onset; otherwise the delay stays.
    pub fn compute_alignment(&mut self)
        ensures
            final(self).delay() == alignment_after(
                old(self).own(),
                old(self).peers(),
                old(self).delay(),
                old(self).max_delay(),
            ),
            old(self).delay() <= old(self).max_delay() ==> final(self).delay() <= old(self).max_delay(),
            final(self).max_delay() == old(self).max_delay(),
            final(self).session_handle() == old(self).session_handle(),
            final(self).instance() == old(self).instance(),
            final(self).reader() == old(self).reader(),
            final(self).own() == old(self).own(),
            final(self).peers() == old(self).peers(),
            final(self).counter() == old(self).counter(),
            final(self).is_enabled() == old(self).is_enabled(),
    {
        if self.my_onsets.len() < 2 || self.peer_onsets.len() == 0 {
            return;
        }
        let window: i128 = self.max_alignment_samples as i128;
        let ghost w = self.max_alignment_samples as int;
        let mut delays: Vec<i64> = Vec::new();
        let mut i: usize = 0;
        while i < self.my_onsets.len()
            invariant
                i <= self.my_onsets@.len(),
                window == w,
                delays@ == onset_delays(self.my_onsets@.take(i as int), self.peer_onsets@, w),
            decreases self.my_onsets@.len() - i,
        {
            let my_pos = self.my_onsets[i].0;
            let mut best: Option<i64> = None;
            let mut j: usize = 0;
            while j < self.peer_onsets.len()
                invariant
                    j <= self.peer_onsets@.len(),
                    window == w,
                    match best {
                        Some(b) => nearest_peer_delay(my_pos as int, self.peer_onsets@.take(j as int), w)
                            == Some(b as int),
                        None => nearest_peer_delay(my_pos as int, self.peer_onsets@.take(j as int), w)
                            is None,
                    },
                decreases self.peer_onsets@.len() - j,
            {
                let peer_pos = self.peer_onsets[j].1;
                let diff: i128 = my_pos as i128 - peer_pos as i128;
                let dist: i128 = if diff < 0 { -diff } else { diff };
                proof {
                    assert(self.peer_onsets@.take(j + 1).drop_last() =~= self.peer_onsets@.take(j as int));
                    assert(self.peer_onsets@.take(j + 1).last() == self.peer_onsets@[j as int]);
                }
                if dist < window && dist < i64::MAX as i128 {
                    let better = match best {
                        None => true,
                        Some(b) => {
                            let bd: i128 = if b < 0 { -(b as i128) } else { b as i128 };
                            dist < bd
                        },
                    };
                    if better {
                        best = Some(diff as i64);
                    }
                }
                j += 1;
            }
            proof {
                assert(self.peer_onsets@.take(self.peer_onsets@.len() as int) =~= self.peer_onsets@);
                assert(self.my_onsets@.take(i + 1).drop_last() =~= self.my_onsets@.take(i as int));
                assert(self.my_onsets@.take(i + 1).last() == self.my_onsets@[i as int]);
            }
            match best {
                Some(d) => delays.push(d),
                None => {},
            }
            i += 1;
        }
        proof {
            assert(self.my_onsets@.take(self.my_onsets@.len() as int) =~= self.my_onsets@);
        }
        if delays.len() >= 2 {
            let sorted = sort_ascending(&delays);
            let median = sorted[delays.len() / 2];
            if median > 0 {
                self.alignment_delay_samples = 0;
            } else {
                let lead: u64 = (-(median as i128)) as u64;
                if lead as u128 > self.max_alignment_samples as u128 {
                    self.alignment_delay_samples = self.max_alignment_samples;
                } else {
                    self.alignment_delay_samples = lead as usize;
                }
            }
        }
    }

    /// Enable or disable alignment.
    pub fn set_enabled(&mut self, enabled: bool)
        ensures
            final(self).is_enabled() == enabled,
            final(self).delay() == old(self).delay(),
            final(self).max_delay() == old(self).max_delay(),
            final(self).session_handle() == old(self).session_handle(),
            final(self).instance() == old(self).instance(),
            final(self).reader() == old(self).reader(),
            final(self).own() == old(self).own(),
            final(self).peers() == old(self).peers(),
            final(self).counter() == old(self).counter(),
    {
        self.enabled = enabled;
    }

    /// Absolute sample counter.
    pub fn sample_counter(&self) -> (n: u64)
        ensures
            n == self.counter(),
    {
        self.sample_counter
    }

    /// Sort `events` into own and peer onsets, dropping every onset older
    /// than `cutoff` (the new ones and those already held).
    pub fn absorb_onsets(&mut self, events: &Vec<OnsetEvent>, cutoff: u64)
        ensures
            final(self).own() == recent_own(
                old(self).own() + own_onsets(events@, old(self).instance(), cutoff),
                cutoff,
            ),
            final(self).peers() == recent_peers(
                old(self).peers() + peer_onsets_of(events@, old(self).instance(), cutoff),
                cutoff,
            ),
            final(self).delay() == old(self).delay(),
            final(self).max_delay() == old(self).max_delay(),
            final(self).session_handle() == old(self).session_handle(),
            final(self).instance() == old(self).instance(),
            final(self).reader() == old(self).reader(),
            final(self).counter() == old(self).counter(),
            final(self).is_enabled() == old(self).is_enabled(),
    {
        let me = self.instance_id;
        let mut own: Vec<(u64, u32)> = Vec::new();
        let mut peers: Vec<(u32, u64, u32)> = Vec::new();
        std::mem::swap(&mut own, &mut self.my_onsets);
        std::mem::swap(&mut peers, &mut self.peer_onsets);
        let ghost own0 = own@;
        let ghost peers0 = peers@;
        assert(events@.take(0) =~= Seq::<OnsetEvent>::empty());
        assert(own@ =~= own0 + own_onsets(events@.take(0), me, cutoff));
        assert(peers@ =~= peers0 + peer_onsets_of(events@.take(0), me, cutoff));
        let mut i: usize = 0;
        while i < events.len()
            invariant
                i <= events@.len(),
                own@ == own0 + own_onsets(events@.take(i as int), me, cutoff),
                peers@ == peers0 + peer_onsets_of(events@.take(i as int), me, cutoff),
            decreases events@.len() - i,
        {
            let e = events[i];
            proof {
                assert(events@.take(i + 1).drop_last() =~= events@.take(i as int));
                assert(events@.take(i + 1).last() == e);
            }
            if e.sample_position >= cutoff {
                if e.instance_id == me {
                    own.push((e.sample_position, e.amplitude_bits));
                } else {
                    peers.push((e.instance_id, e.sample_position, e.amplitude_bits));
                }
            }
            i += 1;
            assert(own@ =~= own0 + own_onsets(events@.take(i as int), me, cutoff));
            assert(peers@ =~= peers0 + peer_onsets_of(events@.take(i as int), me, cutoff));
        }
        proof {
            assert(events@.take(events@.len() as int) =~= events@);
        }
        let ghost own_all = own@;
        let ghost peers_all = peers@;
        let mut kept_own: Vec<(u64, u32)> = Vec::new();
        proof {
            assert(own_all.take(0) =~= Seq::<(u64, u32)>::empty());
            reveal_with_fuel(Seq::filter, 1);
        }
        let mut k: usize = 0;
        while k < own.len()
            invariant
                k <= own@.len(),
                own@ == own_all,
                kept_own@ == recent_own(own_all.take(k as int), cutoff),
            decreases own@.len() - k,
        {
            proof {
                assert(own_all.take(k + 1).drop_last() =~= own_all.take(k as int));
                reveal_with_fuel(Seq::filter, 1);
            }
            if own[k].0 >= cutoff {
                kept_own.push(own[k]);
            }
            k += 1;
        }
        let mut kept_peers: Vec<(u32, u64, u32)> = Vec::new();
        proof {
            assert(peers_all.take(0) =~= Seq::<(u32, u64, u32)>::empty());
            reveal_with_fuel(Seq::filter, 1);
        }
        let mut k: usize = 0;
        while k < peers.len()
            invariant
                k <= peers@.len(),
                peers@ == peers_all,
                kept_peers@ == recent_peers(peers_all.take(k as int), cutoff),
            decreases peers@.len() - k,
        {
            proof {
                assert(peers_all.take(k + 1).drop_last() =~= peers_all.take(k as int));
                reveal_with_fuel(Seq::filter, 1);
            }
            if peers[k].1 >= cutoff {
                kept_peers.push(peers[k]);
            }
            k += 1;
        }
        proof {
            assert(own_all.take(own_all.len() as int) =~= own_all);
            assert(peers_all.take(peers_all.len() as int) =~= peers_all);
        }
        self.my_onsets = kept_own;
        self.peer_onsets = kept_peers;
    }

    /// Same session membership and settings.
    pub open spec fn same_setup(&self, other: &Self) -> bool {
        &&& self.session_handle() == other.session_handle()
        &&& self.instance() == other.instance()
        &&& self.max_delay() == other.max_delay()
        &&& self.is_enabled() == other.is_enabled()
    }

    /// Same onset history, reader position and delay.
    pub open spec fn same_history(&self, other: &Self) -> bool {
        &&& self.reader() == other.reader()
        &&& self.own() == other.own()
        &&& self.peers() == other.peers()
        &&& self.delay() == other.delay()
    }

    /// The handle of the joined session, when `registry` holds it.
    pub open spec fn session_index(&self, registry: &SessionRegistry) -> Option<int> {
        match self.session_handle() {
            Some(h) => if h < registry.entries().len() {
                Some(h as int)
            } else {
                None
            },
            None => None,
        }
    }

    /// `self` is `before` after one poll of `registry` that forgets onsets
    /// older than `history` samples: new events are read, sorted into own and
    /// peer onsets, old ones are dropped and the delay is recomputed.  With no
    /// joined session in the registry nothing changes.
    pub open spec fn is_poll_of(&self, before: &Self, registry: &SessionRegistry, history: u64) -> bool {
        &&& self.same_setup(before)
        &&& self.counter() == before.counter()
        &&& match before.session_index(registry) {
            None => self.same_history(before),
            Some(i) => {
                let session = registry.entries()[i].1;
                let events = events_for(session, before.reader());
                let cutoff = if before.counter() >= history {
                    (before.counter() - history) as u64
                } else {
                    0u64
                };
                let own = recent_own(
                    before.own() + own_onsets(events, before.instance(), cutoff),
                    cutoff,
                );
                let peers = recent_peers(
                    before.peers() + peer_onsets_of(events, before.instance(), cutoff),
                    cutoff,
                );
                &&& self.reader() == reader_after(session, before.reader())
                &&& self.own() == own
                &&& self.peers() == peers
                &&& self.delay() == alignment_after(own, peers, before.delay(), before.max_delay())
            },
        }
    }

    fn find_session(&self, registry: &SessionRegistry) -> (r: Option<usize>)
        ensures
            match r {
                Some(i) => self.session_index(registry) == Some(i as int),
                None => self.session_index(registry) is None,
            },
    {
        match self.session {
            Some(h) => if h < registry.len() {
                Some(h)
            } else {
                None
            },
            None => None,
        }
    }

    /// Poll the session for new onset events and update the alignment;
    /// onsets more than `history` samples old are forgotten.
    pub fn poll_onsets(&mut self, registry: &SessionRegistry, history: u64)
        requires
            registry.wf(),
        ensures
            final(self).is_poll_of(old(self), registry, history),
    {
        let idx = match self.find_session(registry) {
            None => return,
            Some(i) => i,
        };
        let events = registry.read_in(idx, &mut self.reader_pos);
        let cutoff = self.sample_counter.saturating_sub(history);
        self.absorb_onsets(&events, cutoff);
        self.compute_alignment();
    }

    /// Advance one sample.  Returns whether the sample goes through the
    /// alignment delay (alignment enabled and a session joined); then every
    /// 64th sample the session is polled first.
    pub fn tick(&mut self, registry: &SessionRegistry, history: u64) -> (delayed: bool)
        requires
            registry.wf(),
            old(self).counter() < u64::MAX,
        ensures
            delayed == (old(self).is_enabled() && old(self).session_handle() is Some),
            final(self).counter() == old(self).counter() + 1,
            final(self).same_setup(old(self)),
            delayed && old(self).counter() % 64 == 0 ==> exists|polled: Self|
                polled.is_poll_of(old(self), registry, history) && final(self).same_history(&polled),
            !(delayed && old(self).counter() % 64 == 0) ==> final(self).same_history(old(self)),
    {
        if !self.enabled || self.session.is_none() {
            self.sample_counter = self.sample_counter + 1;
            return false;
        }
        if self.sample_counter % 64 == 0 {
            self.poll_onsets(registry, history);
            let ghost polled = *self;
            self.sample_counter = self.sample_counter + 1;
            assert(self.same_history(&polled));
        } else {
            self.sample_counter = self.sample_counter + 1;
        }
        true
    }

    /// Join the session listed under `session_id`, creating it when needed,
    /// hold its handle and register this instance in it.
    pub fn join_session(&mut self, registry: &mut SessionRegistry, session_id: &str)
        requires
            old(registry).wf(),
        ensures
            final(registry).wf(),
            final(self).max_delay() == old(self).max_delay(),
            final(self).is_enabled() == old(self).is_enabled(),
            final(self).counter() == old(self).counter(),
            final(self).same_history(old(self)),
            match find_named(old(registry).entries(), session_id@) {
                Some(i) => {
                    &&& final(self).session_handle() == Some(i as usize)
                    &&& final(registry).same_except(old(registry), i)
                    &&& register_step(
                        old(registry).entries()[i].1,
                        final(registry).entries()[i].1,
                        final(self).instance(),
                    )
                },
                None => {
                    let h = old(registry).entries().len() as int;
                    &&& final(self).session_handle() == Some(h as usize)
                    &&& final(registry).entries().len() == h + 1
                    &&& final(registry).entries().take(h) == old(registry).entries()
                    &&& final(registry).entries()[h].0 == Some(session_id@)
                    &&& exists|fresh: GateSession|
                        fresh.is_fresh() && register_step(
                            fresh,
                            final(registry).entries()[h].1,
                            final(self).instance(),
                        )
                },
            },
    {
        let ghost before = registry.entries();
        let idx = registry.get_session(session_id);
        let ghost mid = registry.entries();
        proof {
            if exists|j: int| 0 <= j < before.len() && (#[trigger] before[j]).0 == Some(session_id@) {
                lemma_find_named(before, session_id@, idx as int);
            } else {
                lemma_find_named_none(before, session_id@);
            }
        }
        self.instance_id = registry.register_in(idx);
        proof {
            if !(exists|j: int| 0 <= j < before.len() && (#[trigger] before[j]).0 == Some(session_id@)) {
                assert(registry.entries().take(idx as int) =~= before) by {
                    assert forall|j: int| 0 <= j < idx implies registry.entries().take(idx as int)[j] == before[j] by {
                        assert(registry.entries()[j] == mid[j]);
                        assert(mid[j] == mid.take(idx as int)[j]);
                    }
                }
                assert(mid[idx as int].1.is_fresh());
            }
        }
        self.session = Some(idx);
    }

    /// Leave the session: unregister this instance from it (when it is still
    /// in the registry) and forget it.
    pub fn leave_session(&mut self, registry: &mut SessionRegistry)
        requires
            old(registry).wf(),
        ensures
            final(registry).wf(),
            final(self).session_handle() is None,
            final(self).instance() == old(self).instance(),
            final(self).max_delay() == old(self).max_delay(),
            final(self).is_enabled() == old(self).is_enabled(),
            final(self).counter() == old(self).counter(),
            final(self).same_history(old(self)),
            match old(self).session_index(old(registry)) {
                None => final(registry).entries() == old(registry).entries(),
                Some(i) => {
                    &&& final(registry).same_except(old(registry), i)
                    &&& unregister_step(
                        old(registry).entries()[i].1,
                        final(registry).entries()[i].1,
                        old(self).instance(),
                    )
                },
            },
    {
        match self.find_session(registry) {
            Some(idx) => {
                registry.unregister_in(idx, self.instance_id);
            },
            None => {},
        }
        self.session = None;
    }

    /// Publish an onset from this instance at the current sample position.
    pub fn publish_onset(&self, registry: &mut SessionRegistry, amplitude_bits: u32, drum_class: DrumClass)
        requires
            old(registry).wf(),
        ensures
            final(registry).wf(),
            match self.session_index(old(registry)) {
                None => final(registry).entries() == old(registry).entries(),
                Some(i) => {
                    let event = OnsetEvent {
                        instance_id: self.instance(),
                        sample_position: self.counter(),
                        amplitude_bits,
                        drum_class_raw: drum_class_raw_spec(drum_class),
                    };
                    &&& final(registry).same_except(old(registry), i)
                    &&& publish_step(old(registry).entries()[i].1, final(registry).entries()[i].1, event)
                },
            },
    {
        match self.find_session(registry) {
            Some(idx) => {
                let event = OnsetEvent {
                    instance_id: self.instance_id,
                    sample_position: self.sample_counter,
                    amplitude_bits,
                    drum_class_raw: drum_class_to_raw(drum_class),
                };
                registry.publish_in(idx, event);
            },
            None => {},
        }
    }

    /// Forget the onset history and the delay; restart the sample counter.
    pub fn reset(&mut self)
        ensures
            final(self).same_setup(old(self)),
            final(self).delay() == 0,
            final(self).own() == Seq::<(u64, u32)>::empty(),
            final(self).peers() == Seq::<(u32, u64, u32)>::empty(),
            final(self).counter() == 0,
            final(self).reader() == 0,
    {
        self.alignment_delay_samples = 0;
        self.my_onsets = Vec::new();
        self.peer_onsets = Vec::new();
        self.sample_counter = 0;
        self.reader_pos = 0;
    }

    /// Current alignment delay in samples (none while alignment is off).
    pub fn alignment_samples(&self) -> (n: usize)
        ensures
            n == if self.is_enabled() {
                self.delay()
            } else {
                0
            },
    {
        if self.enabled {
            self.alignment_delay_samples
        } else {
            0
        }
    }
}

} // verus!
