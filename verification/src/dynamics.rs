//! The discrete side of noise gating: the open/close decision with
//! hysteresis and zero-crossing deferral, the attack/hold/release phases of
//! the gain envelope, and the lookahead delay line.  Levels and gains are
//! compared by the caller; these machines take the outcomes as booleans.

use vstd::prelude::*;

verus! {

/// Longest a wanted state change waits for a zero crossing, in samples
/// (about a millisecond at 48 kHz).
pub const MAX_DEFER_SAMPLES: u32 = 48;

/// What one sample tells the open/close detector: where the smoothed level stands
/// against the two thresholds, the sign of the sample, and whether the
/// sample is practically silent.
#[derive(Debug, Clone, Copy, PartialEq, Eq, Structural)]
pub struct LevelReading {
    /// The level is at or above the open threshold.
    pub above_open: bool,
    /// The level is at or above the close threshold.
    pub above_close: bool,
    /// The sample is non-negative.
    pub positive: bool,
    /// The sample's magnitude is below the silence floor.
    pub near_silent: bool,
}

/// Open/close decision of one channel: hysteresis between the two
/// thresholds, and changes preferably at zero crossings.
pub struct HysteresisGate {
    open: bool,
    prev_sign: bool,
    defer_count: u32,
}

/// The detector state as plain values: open, previous sample sign, and the
/// number of samples a wanted change has waited.
pub struct GateView {
    pub open: bool,
    pub prev_sign: bool,
    pub defer_count: int,
}

/// The state wanted for a reading: an open detector stays open while
/// the level holds the close threshold, a closed one opens at the open
/// threshold.
pub open spec fn wants_open(open: bool, r: LevelReading) -> bool {
    if open {
        r.above_close
    } else {
        r.above_open
    }
}

/// One sample of the detector: a wanted change happens at a zero crossing, on a
/// silent sample, or once it has waited `MAX_DEFER_SAMPLES` samples.
pub open spec fn gate_step(g: GateView, r: LevelReading) -> GateView {
    let want = wants_open(g.open, r);
    let at_zero_crossing = r.positive != g.prev_sign;
    if want != g.open {
        let waited = g.defer_count + 1;
        if at_zero_crossing || r.near_silent || waited >= MAX_DEFER_SAMPLES {
            GateView { open: want, prev_sign: r.positive, defer_count: 0 }
        } else {
            GateView { open: g.open, prev_sign: r.positive, defer_count: waited }
        }
    } else {
        GateView { open: g.open, prev_sign: r.positive, defer_count: 0 }
    }
}

/// The detector after a run of readings.
pub open spec fn gate_run(g: GateView, rs: Seq<LevelReading>) -> GateView
    decreases rs.len(),
{
    if rs.len() == 0 {
        g
    } else {
        gate_step(gate_run(g, rs.drop_last()), rs.last())
    }
}

/// A reading whose level clears both thresholds.
pub open spec fn loud(r: LevelReading) -> bool {
    r.above_open && r.above_close
}

/// A reading whose level is under both thresholds.
pub open spec fn quiet(r: LevelReading) -> bool {
    !r.above_open && !r.above_close
}

impl HysteresisGate {
    /// The detector as plain values.
    pub closed spec fn view(&self) -> GateView {
        GateView { open: self.open, prev_sign: self.prev_sign, defer_count: self.defer_count as int }
    }

    /// A waiting change has waited fewer than `MAX_DEFER_SAMPLES` samples.
    pub closed spec fn wf(&self) -> bool {
        self.defer_count < MAX_DEFER_SAMPLES
    }

    /// A closed detector that has seen no sample.
    pub fn new() -> (g: Self)
        ensures
            g.wf(),
            g.view() == (GateView { open: false, prev_sign: false, defer_count: 0 }),
    {
        HysteresisGate { open: false, prev_sign: false, defer_count: 0 }
    }

    /// Whether the detector is open.
    pub fn is_open(&self) -> (b: bool)
        ensures
            b == self.view().open,
    {
        self.open
    }

    /// Feed one reading; returns whether the detector is open after it.  An
    /// open detector stays open while the level holds the close threshold, and a
    /// closed one stays closed below the open threshold.
    pub fn tick(&mut self, r: LevelReading) -> (open: bool)
        requires
            old(self).wf(),
        ensures
            final(self).wf(),
            final(self).view() == gate_step(old(self).view(), r),
            open == final(self).view().open,
            old(self).view().open && r.above_close ==> open,
            !old(self).view().open && !r.above_open ==> !open,
            open != old(self).view().open ==> open == wants_open(old(self).view().open, r),
    {
        let want = if self.open {
            r.above_close
        } else {
            r.above_open
        };
        let at_zero_crossing = r.positive != self.prev_sign;
        self.prev_sign = r.positive;
        if want != self.open {
            let waited = self.defer_count + 1;
            if at_zero_crossing || r.near_silent || waited >= MAX_DEFER_SAMPLES {
                self.open = want;
                self.defer_count = 0;
            } else {
                self.defer_count = waited;
            }
        } else {
            self.defer_count = 0;
        }
        self.open
    }

    /// Close the detector and forget the sample history.
    pub fn reset(&mut self)
        ensures
            final(self).wf(),
            final(self).view() == (GateView { open: false, prev_sign: false, defer_count: 0 }),
    {
        self.open = false;
        self.prev_sign = false;
        self.defer_count = 0;
    }
}

proof fn lemma_loud_run(g: GateView, rs: Seq<LevelReading>)
    requires
        0 <= g.defer_count < MAX_DEFER_SAMPLES,
        forall|i: int| 0 <= i < rs.len() ==> loud(#[trigger] rs[i]),
    ensures
        gate_run(g, rs).open || (!g.open && gate_run(g, rs).defer_count == g.defer_count + rs.len()),
        0 <= gate_run(g, rs).defer_count < MAX_DEFER_SAMPLES,
    decreases rs.len(),
{
    if rs.len() > 0 {
        let prefix = rs.drop_last();
        assert forall|i: int| 0 <= i < prefix.len() implies loud(#[trigger] prefix[i]) by {
            assert(prefix[i] == rs[i]);
        }
        assert(loud(rs[rs.len() - 1]));
        lemma_loud_run(g, prefix);
    }
}

proof fn lemma_quiet_run(g: GateView, rs: Seq<LevelReading>)
    requires
        0 <= g.defer_count < MAX_DEFER_SAMPLES,
        forall|i: int| 0 <= i < rs.len() ==> quiet(#[trigger] rs[i]),
    ensures
        !gate_run(g, rs).open || (g.open && gate_run(g, rs).defer_count == g.defer_count + rs.len()),
        0 <= gate_run(g, rs).defer_count < MAX_DEFER_SAMPLES,
    decreases rs.len(),
{
    if rs.len() > 0 {
        let prefix = rs.drop_last();
        assert forall|i: int| 0 <= i < prefix.len() implies quiet(#[trigger] prefix[i]) by {
            assert(prefix[i] == rs[i]);
        }
        assert(quiet(rs[rs.len() - 1]));
        lemma_quiet_run(g, prefix);
    }
}

/// A level above both thresholds opens the detector within `MAX_DEFER_SAMPLES`
/// samples, whatever the samples' signs, and keeps it open; a level under
/// both thresholds closes it within as many samples and keeps it closed.
pub proof fn lemma_gate_follows_level(g: GateView, rs: Seq<LevelReading>)
    requires
        0 <= g.defer_count < MAX_DEFER_SAMPLES,
        rs.len() >= MAX_DEFER_SAMPLES,
    ensures
        (forall|i: int| 0 <= i < rs.len() ==> loud(#[trigger] rs[i])) ==> gate_run(g, rs).open,
        (forall|i: int| 0 <= i < rs.len() ==> quiet(#[trigger] rs[i])) ==> !gate_run(g, rs).open,
{
    if forall|i: int| 0 <= i < rs.len() ==> loud(#[trigger] rs[i]) {
        lemma_loud_run(g, rs);
    }
    if forall|i: int| 0 <= i < rs.len() ==> quiet(#[trigger] rs[i]) {
        lemma_quiet_run(g, rs);
    }
}

/// The close threshold is not above the open threshold: a level at the
/// open threshold also holds the close threshold.
pub open spec fn thresholds_ordered(r: LevelReading) -> bool {
    r.above_open ==> r.above_close
}

proof fn lemma_change_run(g: GateView, rs: Seq<LevelReading>)
    requires
        0 <= g.defer_count < MAX_DEFER_SAMPLES,
        forall|i: int| 0 <= i < rs.len() ==> thresholds_ordered(#[trigger] rs[i]),
        forall|i: int| 0 <= i < rs.len() ==> wants_open(g.open, #[trigger] rs[i]) != g.open,
    ensures
        gate_run(g, rs).open != g.open || gate_run(g, rs).defer_count == g.defer_count + rs.len(),
        0 <= gate_run(g, rs).defer_count < MAX_DEFER_SAMPLES,
    decreases rs.len(),
{
    if rs.len() > 0 {
        let prefix = rs.drop_last();
        assert forall|i: int| 0 <= i < prefix.len() implies thresholds_ordered(#[trigger] prefix[i]) by {
            assert(prefix[i] == rs[i]);
        }
        assert forall|i: int| 0 <= i < prefix.len() implies wants_open(g.open, #[trigger] prefix[i]) != g.open by {
            assert(prefix[i] == rs[i]);
        }
        assert(thresholds_ordered(rs[rs.len() - 1]));
        assert(wants_open(g.open, rs[rs.len() - 1]) != g.open);
        lemma_change_run(g, prefix);
    }
}

/// A change that every reading of a run asks for happens within
/// `MAX_DEFER_SAMPLES` samples, less what it has already waited, and then
/// stays: once switched, the same readings hold the new state (the close
/// threshold being at or below the open one).
pub proof fn lemma_wanted_change_happens(g: GateView, rs: Seq<LevelReading>)
    requires
        0 <= g.defer_count < MAX_DEFER_SAMPLES,
        rs.len() >= MAX_DEFER_SAMPLES - g.defer_count,
        forall|i: int| 0 <= i < rs.len() ==> thresholds_ordered(#[trigger] rs[i]),
        forall|i: int| 0 <= i < rs.len() ==> wants_open(g.open, #[trigger] rs[i]) != g.open,
    ensures
        gate_run(g, rs).open != g.open,
{
    lemma_change_run(g, rs);
}

/// Phase of the gain envelope.
#[derive(Debug, Clone, Copy, PartialEq, Eq, Structural)]
pub enum EnvelopePhase {
    /// Gain at the floor.
    Closed,
    /// Gain ramping up.
    Attack,
    /// Gain fully open, hold timer running.
    Hold,
    /// Gain ramping down.
    Release,
}

/// The envelope's phase and hold timer, and the hold time it was set to.
pub struct EnvelopeState {
    pub phase: EnvelopePhase,
    pub hold_counter: u64,
    pub hold_samples: u64,
}

/// What the caller's gain ramp reports for one sample: the attack ramp
/// reached full gain, or the release ramp reached the floor.
#[derive(Debug, Clone, Copy, PartialEq, Eq, Structural)]
pub struct RampReading {
    pub attack_full: bool,
    pub release_empty: bool,
}

/// One sample of the envelope: an open signal starts the attack; the attack
/// holds once full, and with no hold time releases as soon as the signal
/// closes; the hold counts down while the signal is closed and restarts while
/// it is open; the release ends at the floor and turns back into an attack
/// when the signal reopens.
pub open spec fn envelope_step(
    phase: EnvelopePhase,
    counter: u64,
    hold: u64,
    gate_open: bool,
    ramp: RampReading,
) -> (EnvelopePhase, u64) {
    match phase {
        EnvelopePhase::Closed => if gate_open {
            (EnvelopePhase::Attack, counter)
        } else {
            (EnvelopePhase::Closed, counter)
        },
        EnvelopePhase::Attack => {
            let (p, c) = if ramp.attack_full {
                (EnvelopePhase::Hold, hold)
            } else {
                (EnvelopePhase::Attack, counter)
            };
            if !gate_open && hold == 0 {
                (EnvelopePhase::Release, c)
            } else {
                (p, c)
            }
        },
        EnvelopePhase::Hold => if !gate_open {
            if counter > 0 {
                (EnvelopePhase::Hold, (counter - 1) as u64)
            } else {
                (EnvelopePhase::Release, counter)
            }
        } else {
            (EnvelopePhase::Hold, hold)
        },
        EnvelopePhase::Release => {
            let p = if ramp.release_empty {
                EnvelopePhase::Closed
            } else {
                EnvelopePhase::Release
            };
            if gate_open {
                (EnvelopePhase::Attack, counter)
            } else {
                (p, counter)
            }
        },
    }
}

/// How the envelope answers the detector, for every phase and input:
/// - a closed envelope stays closed, timer untouched, while the detector
///   is closed, and starts the attack as soon as it opens;
/// - an opening detector turns a release back into an attack;
/// - the attack is entered only when the detector is open, the release
///   only when it is closed, and the closed phase only from a release that
///   reached the floor with the detector closed;
/// - the hold restarts its timer while the detector is open and counts down
///   while it is closed, releasing once the timer is out;
/// - a full attack holds with the timer set to the hold time, unless the
///   detector is closed with no hold time, which releases at once.
pub proof fn lemma_envelope_transitions(
    phase: EnvelopePhase,
    counter: u64,
    hold: u64,
    gate_open: bool,
    ramp: RampReading,
)
    ensures
        ({
            let (p, c) = envelope_step(phase, counter, hold, gate_open, ramp);
            &&& phase == EnvelopePhase::Closed && !gate_open ==> p == EnvelopePhase::Closed && c == counter
            &&& gate_open && (phase == EnvelopePhase::Closed || phase == EnvelopePhase::Release) ==> p
                == EnvelopePhase::Attack
            &&& p == EnvelopePhase::Attack && phase != EnvelopePhase::Attack ==> gate_open
            &&& p == EnvelopePhase::Release && phase != EnvelopePhase::Release ==> !gate_open
            &&& p == EnvelopePhase::Closed && phase != EnvelopePhase::Closed ==> phase == EnvelopePhase::Release
                && ramp.release_empty && !gate_open
            &&& phase == EnvelopePhase::Hold && gate_open ==> p == EnvelopePhase::Hold && c == hold
            &&& phase == EnvelopePhase::Hold && !gate_open && counter > 0 ==> p == EnvelopePhase::Hold && c
                == counter - 1
            &&& phase == EnvelopePhase::Hold && !gate_open && counter == 0 ==> p == EnvelopePhase::Release
            &&& phase == EnvelopePhase::Attack && (gate_open || hold > 0) ==> (if ramp.attack_full {
                p == EnvelopePhase::Hold && c == hold
            } else {
                p == EnvelopePhase::Attack && c == counter
            })
            &&& phase == EnvelopePhase::Attack && !gate_open && hold == 0 ==> p == EnvelopePhase::Release
            &&& phase == EnvelopePhase::Release && !gate_open ==> p == (if ramp.release_empty {
                EnvelopePhase::Closed
            } else {
                EnvelopePhase::Release
            })
        }),
{
}

impl EnvelopeState {
    /// A closed envelope with the given hold time.
    pub fn new(hold_samples: u64) -> (s: Self)
        ensures
            s.phase == EnvelopePhase::Closed,
            s.hold_counter == 0,
            s.hold_samples == hold_samples,
    {
        EnvelopeState { phase: EnvelopePhase::Closed, hold_counter: 0, hold_samples }
    }

    /// Advance one sample; returns the new phase.
    pub fn tick(&mut self, gate_open: bool, ramp: RampReading) -> (p: EnvelopePhase)
        ensures
            (final(self).phase, final(self).hold_counter) == envelope_step(
                old(self).phase,
                old(self).hold_counter,
                old(self).hold_samples,
                gate_open,
                ramp,
            ),
            final(self).hold_samples == old(self).hold_samples,
            p == final(self).phase,
    {
        match self.phase {
            EnvelopePhase::Closed => {
                if gate_open {
                    self.phase = EnvelopePhase::Attack;
                }
            },
            EnvelopePhase::Attack => {
                if ramp.attack_full {
                    self.phase = EnvelopePhase::Hold;
                    self.hold_counter = self.hold_samples;
                }
                if !gate_open && self.hold_samples == 0 {
                    self.phase = EnvelopePhase::Release;
                }
            },
            EnvelopePhase::Hold => {
                if !gate_open {
                    if self.hold_counter > 0 {
                        self.hold_counter = self.hold_counter - 1;
                    } else {
                        self.phase = EnvelopePhase::Release;
                    }
                } else {
                    self.hold_counter = self.hold_samples;
                }
            },
            EnvelopePhase::Release => {
                if ramp.release_empty {
                    self.phase = EnvelopePhase::Closed;
                }
                if gate_open {
                    self.phase = EnvelopePhase::Attack;
                }
            },
        }
        self.phase
    }

    /// Back to the closed phase with the hold timer cleared.
    pub fn reset(&mut self)
        ensures
            final(self).phase == EnvelopePhase::Closed,
            final(self).hold_counter == 0,
            final(self).hold_samples == old(self).hold_samples,
    {
        self.phase = EnvelopePhase::Closed;
        self.hold_counter = 0;
    }
}

/// The envelope after `n` samples with the signal closed, from the hold phase
/// with `counter` samples left.
pub open spec fn closed_hold_run(counter: u64, hold: u64, ramps: Seq<RampReading>, n: int) -> (
    EnvelopePhase,
    u64,
)
    decreases n,
{
    if n <= 0 {
        (EnvelopePhase::Hold, counter)
    } else {
        let (p, c) = closed_hold_run(counter, hold, ramps, n - 1);
        envelope_step(p, c, hold, false, ramps[n - 1])
    }
}

/// Once the signal closes during the hold phase, the envelope stays in hold
/// for exactly as many samples as the hold timer has left, counting down,
/// and starts releasing on the sample after.
pub proof fn lemma_hold_delays_release(counter: u64, hold: u64, ramps: Seq<RampReading>, n: int)
    requires
        0 <= n <= counter,
        ramps.len() > counter,
    ensures
        closed_hold_run(counter, hold, ramps, n) == (EnvelopePhase::Hold, (counter - n) as u64),
        closed_hold_run(counter, hold, ramps, counter + 1) == (EnvelopePhase::Release, 0u64),
    decreases n,
{
    if n > 0 {
        lemma_hold_delays_release(counter, hold, ramps, n - 1);
    }
    lemma_hold_countdown(counter, hold, ramps, counter as int);
}

proof fn lemma_hold_countdown(counter: u64, hold: u64, ramps: Seq<RampReading>, n: int)
    requires
        0 <= n <= counter,
    ensures
        closed_hold_run(counter, hold, ramps, n) == (EnvelopePhase::Hold, (counter - n) as u64),
    decreases n,
{
    if n > 0 {
        lemma_hold_countdown(counter, hold, ramps, n - 1);
    }
}

/// A fixed delay: each sample comes out `len` samples after it went in.
pub struct DelayLine<T> {
    buf: Vec<T>,
    pos: usize,
}

/// The samples in a delay line, oldest first, after pushing `x`.
pub open spec fn delay_push<T>(contents: Seq<T>, x: T) -> Seq<T> {
    if contents.len() == 0 {
        contents
    } else {
        contents.drop_first().push(x)
    }
}

/// What comes out of a delay line holding `contents` when `x` goes in.
pub open spec fn delay_out<T>(contents: Seq<T>, x: T) -> T {
    if contents.len() == 0 {
        x
    } else {
        contents[0]
    }
}

/// The outputs of a delay line holding `contents` for the inputs `xs`.
pub open spec fn delay_outputs<T>(contents: Seq<T>, xs: Seq<T>) -> Seq<T>
    decreases xs.len(),
{
    if xs.len() == 0 {
        Seq::empty()
    } else {
        let prev = delay_outputs(contents, xs.drop_last());
        prev.push(delay_out(delay_contents(contents, xs.drop_last()), xs.last()))
    }
}

/// The contents of a delay line holding `contents` after the inputs `xs`.
pub open spec fn delay_contents<T>(contents: Seq<T>, xs: Seq<T>) -> Seq<T>
    decreases xs.len(),
{
    if xs.len() == 0 {
        contents
    } else {
        delay_push(delay_contents(contents, xs.drop_last()), xs.last())
    }
}

impl<T: Copy> DelayLine<T> {
    /// The samples waiting in the line, oldest first.
    pub closed spec fn contents(&self) -> Seq<T> {
        Seq::new(self.buf@.len(), |i: int| self.buf@[(self.pos + i) % (self.buf@.len() as int)])
    }

    /// The write position lies inside the buffer (or is 0 for no delay).
    pub closed spec fn wf(&self) -> bool {
        if self.buf@.len() == 0 {
            self.pos == 0
        } else {
            self.pos < self.buf@.len()
        }
    }

    /// A line of `len` samples, all `fill`.  With `len` 0 samples pass
    /// straight through.
    pub fn new(len: usize, fill: T) -> (d: Self)
        ensures
            d.wf(),
            d.contents() == Seq::new(len as nat, |i: int| fill),
    {
        let mut buf: Vec<T> = Vec::new();
        let mut i: usize = 0;
        while i < len
            invariant
                i <= len,
                buf@ == Seq::new(i as nat, |k: int| fill),
            decreases len - i,
        {
            buf.push(fill);
            i += 1;
        }
        let d = DelayLine { buf, pos: 0 };
        assert(d.contents() =~= Seq::new(len as nat, |i: int| fill));
        d
    }

    /// Number of samples of delay.
    pub fn len(&self) -> (n: usize)
        ensures
            n == self.contents().len(),
    {
        self.buf.len()
    }

    /// Push `x` and take out the sample pushed `len` samples ago.
    pub fn process(&mut self, x: T) -> (y: T)
        requires
            old(self).wf(),
        ensures
            final(self).wf(),
            y == delay_out(old(self).contents(), x),
            final(self).contents() == delay_push(old(self).contents(), x),
    {
        let n = self.buf.len();
        if n == 0 {
            assert(self.contents() =~= Seq::<T>::empty());
            return x;
        }
        let ghost before = self.contents();
        let p = self.pos;
        let y = self.buf[p];
        self.buf.set(p, x);
        self.pos = if p + 1 == n {
            0
        } else {
            p + 1
        };
        proof {
            let nn = n as int;
            let q = self.pos as int;
            let after = self.contents();
            lemma_mod_wrap(p as int, nn);
            assert(before[0] == y);
            assert(q == if p + 1 < nn { p + 1 } else { 0 });
            assert forall|i: int| 0 <= i < nn implies after[i] == delay_push(before, x)[i] by {
                lemma_mod_wrap(q + i, nn);
                if i < nn - 1 {
                    lemma_mod_wrap(p + (i + 1), nn);
                    assert(delay_push(before, x)[i] == before[i + 1]);
                } else {
                    assert(delay_push(before, x)[i] == x);
                }
            }
            assert(after =~= delay_push(before, x));
        }
        y
    }

    /// The sample pushed `d` pushes before the newest one (`d` 0 gives the
    /// newest sample).
    pub fn read_back(&self, d: usize) -> (y: T)
        requires
            self.wf(),
            d < self.contents().len(),
        ensures
            y == self.contents()[self.contents().len() - 1 - d],
    {
        let n = self.buf.len();
        let back = n - 1 - d;
        let k = if back < n - self.pos {
            self.pos + back
        } else {
            back - (n - self.pos)
        };
        proof {
            lemma_mod_wrap(self.pos + back, n as int);
        }
        self.buf[k]
    }

    /// Refill the line with `fill` and restart at the first slot.
    pub fn clear(&mut self, fill: T)
        ensures
            final(self).wf(),
            final(self).contents() == Seq::new(old(self).contents().len(), |i: int| fill),
    {
        let n = self.buf.len();
        let mut i: usize = 0;
        while i < n
            invariant
                i <= n,
                self.buf@.len() == n,
                forall|k: int| 0 <= k < i ==> self.buf@[k] == fill,
            decreases n - i,
        {
            self.buf.set(i, fill);
            i += 1;
        }
        self.pos = 0;
        proof {
            let c = self.contents();
            assert forall|k: int| 0 <= k < n implies c[k] == fill by {
                vstd::arithmetic::div_mod::lemma_small_mod(k as nat, n as nat);
            }
        }
        assert(self.contents() =~= Seq::new(n as nat, |i: int| fill));
    }
}

proof fn lemma_mod_wrap(a: int, n: int)
    requires
        0 <= a < 2 * n,
    ensures
        a % n == if a < n {
            a
        } else {
            a - n
        },
{
    if a < n {
        vstd::arithmetic::div_mod::lemma_small_mod(a as nat, n as nat);
    } else {
        vstd::arithmetic::div_mod::lemma_fundamental_div_mod_converse(a, n, 1, a - n);
    }
}

/// A delay line of length `L` holding `contents` hands out, for the inputs
/// `xs`, first what it holds and then the inputs themselves, each `L`
/// samples late; afterwards it holds the last `L` samples of the two.
pub proof fn lemma_delay_line_fifo<T>(contents: Seq<T>, xs: Seq<T>)
    requires
        contents.len() > 0,
    ensures
        delay_outputs(contents, xs) == (contents + xs).take(xs.len() as int),
        delay_contents(contents, xs) == (contents + xs).skip(xs.len() as int),
    decreases xs.len(),
{
    if xs.len() > 0 {
        let pre = xs.drop_last();
        lemma_delay_line_fifo(contents, pre);
        let all = contents + xs;
        let c = (contents + pre).skip(pre.len() as int);
        assert(c.len() == contents.len());
        assert(c[0] == all[pre.len() as int]);
        assert(delay_push(c, xs.last()) =~= all.skip(xs.len() as int));
        assert((contents + pre).take(pre.len() as int).push(all[pre.len() as int]) =~= all.take(
            xs.len() as int,
        ));
    }
}

/// With no delay, every sample passes straight through.
pub proof fn lemma_delay_line_passthrough<T>(contents: Seq<T>, xs: Seq<T>)
    requires
        contents.len() == 0,
    ensures
        delay_outputs(contents, xs) == xs,
        delay_contents(contents, xs) == contents,
    decreases xs.len(),
{
    if xs.len() > 0 {
        lemma_delay_line_passthrough(contents, xs.drop_last());
        assert(xs.drop_last().push(xs.last()) =~= xs);
    }
}

} // verus!
