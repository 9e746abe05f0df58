use fts_suite::drum::{timbre_pass, DrumClass};
use fts_suite::dynamics::{
    DelayLine, EnvelopePhase, EnvelopeState, HysteresisGate, LevelReading, RampReading, MAX_DEFER_SAMPLES,
};

fn reading(above_open: bool, above_close: bool, positive: bool) -> LevelReading {
    LevelReading { above_open, above_close, positive, near_silent: false }
}

const NO_RAMP: RampReading = RampReading { attack_full: false, release_empty: false };

#[test]
fn gate_opens_at_zero_crossing() {
    let mut g = HysteresisGate::new();
    // Loud, but the sign has not changed (previous sign starts negative).
    assert!(!g.tick(reading(true, true, false)));
    // The sign flips: the change happens.
    assert!(g.tick(reading(true, true, true)));
    assert!(g.is_open());
}

#[test]
fn hysteresis_keeps_gate_open_between_thresholds() {
    let mut g = HysteresisGate::new();
    g.tick(reading(true, true, true));
    assert!(g.is_open());
    // Below the open threshold but above the close threshold: stays open.
    for i in 0..200 {
        assert!(g.tick(reading(false, true, i % 2 == 0)));
    }
    // Below both: closes at the next zero crossing (the last sample was negative).
    assert!(g.tick(reading(false, false, false)));
    assert!(!g.tick(reading(false, false, true)));
}

#[test]
fn deferred_change_happens_after_max_wait() {
    let mut g = HysteresisGate::new();
    // Always positive: after the first sample there are no more zero crossings.
    assert!(g.tick(reading(true, true, true)));
    let mut closed_at = None;
    for i in 1..=100u32 {
        if !g.tick(reading(false, false, true)) {
            closed_at = Some(i);
            break;
        }
    }
    assert_eq!(closed_at, Some(MAX_DEFER_SAMPLES));
}

#[test]
fn silent_sample_allows_change() {
    let mut g = HysteresisGate::new();
    let r = LevelReading { above_open: true, above_close: true, positive: false, near_silent: true };
    assert!(g.tick(r));
    g.reset();
    assert!(!g.is_open());
}

#[test]
fn envelope_hold_delays_release() {
    let mut e = EnvelopeState::new(3);
    assert_eq!(e.tick(true, NO_RAMP), EnvelopePhase::Attack);
    assert_eq!(e.tick(true, NO_RAMP), EnvelopePhase::Attack);
    let full = RampReading { attack_full: true, release_empty: false };
    assert_eq!(e.tick(true, full), EnvelopePhase::Hold);
    assert_eq!(e.hold_counter, 3);
    // Signal closes: three samples of hold, then release.
    for left in [2u64, 1, 0] {
        assert_eq!(e.tick(false, NO_RAMP), EnvelopePhase::Hold);
        assert_eq!(e.hold_counter, left);
    }
    assert_eq!(e.tick(false, NO_RAMP), EnvelopePhase::Release);
    let empty = RampReading { attack_full: false, release_empty: true };
    assert_eq!(e.tick(false, empty), EnvelopePhase::Closed);
}

#[test]
fn envelope_reopens_during_release_and_hold_restarts() {
    let mut e = EnvelopeState::new(2);
    e.tick(true, NO_RAMP);
    e.tick(true, RampReading { attack_full: true, release_empty: false });
    e.tick(false, NO_RAMP);
    assert_eq!(e.hold_counter, 1);
    // The signal comes back: the hold timer restarts.
    assert_eq!(e.tick(true, NO_RAMP), EnvelopePhase::Hold);
    assert_eq!(e.hold_counter, 2);
    e.tick(false, NO_RAMP);
    e.tick(false, NO_RAMP);
    e.tick(false, NO_RAMP);
    assert_eq!(e.phase, EnvelopePhase::Release);
    // Reopening during the release turns it back into an attack.
    assert_eq!(e.tick(true, RampReading { attack_full: false, release_empty: true }), EnvelopePhase::Attack);
    e.reset();
    assert_eq!(e.phase, EnvelopePhase::Closed);
}

#[test]
fn envelope_without_hold_releases_from_attack() {
    let mut e = EnvelopeState::new(0);
    e.tick(true, NO_RAMP);
    assert_eq!(e.tick(false, NO_RAMP), EnvelopePhase::Release);
}

#[test]
fn delay_line_delays_by_its_length() {
    let mut d = DelayLine::new(3, 0i32);
    assert_eq!(d.len(), 3);
    let outs: Vec<i32> = (1..=8).map(|x| d.process(x)).collect();
    assert_eq!(outs, vec![0, 0, 0, 1, 2, 3, 4, 5]);
    d.clear(-1);
    assert_eq!(d.process(9), -1);
}

#[test]
fn empty_delay_line_passes_through() {
    let mut d = DelayLine::new(0, (0.0f64, 0.0f64));
    assert_eq!(d.process((1.5, -2.5)), (1.5, -2.5));
}

#[test]
fn timbre_gate_decision() {
    assert!(timbre_pass(DrumClass::Unknown, DrumClass::Kick));
    assert!(timbre_pass(DrumClass::Snare, DrumClass::Snare));
    assert!(timbre_pass(DrumClass::Snare, DrumClass::Unknown));
    assert!(!timbre_pass(DrumClass::Snare, DrumClass::Kick));
}

#[test]
fn delay_line_reads_back_recent_samples() {
    let mut d = DelayLine::new(4, 0i64);
    for x in 1..=6i64 {
        d.process(x);
    }
    assert_eq!(d.read_back(0), 6);
    assert_eq!(d.read_back(1), 5);
    assert_eq!(d.read_back(3), 3);
}
