use fts_suite::align::PhaseAligner;
use fts_suite::drum::DrumClass;
use fts_suite::sync::{OnsetEvent, SessionRegistry};

fn onset(id: u32, pos: u64) -> OnsetEvent {
    OnsetEvent { instance_id: id, sample_position: pos, amplitude_bits: 0, drum_class_raw: 255 }
}

fn aligned(own: &[u64], peers: &[u64], max: usize) -> PhaseAligner {
    let mut a = PhaseAligner::new();
    a.set_max_alignment_samples(max);
    let mut events = Vec::new();
    for &p in own {
        events.push(onset(0, p));
    }
    for &p in peers {
        events.push(onset(1, p));
    }
    a.absorb_onsets(&events, 0);
    a.compute_alignment();
    a.set_enabled(true);
    a
}

#[test]
fn new_aligner_is_idle() {
    let a = PhaseAligner::new();
    assert_eq!(a.alignment_samples(), 0);
    assert_eq!(a.sample_counter(), 0);
}

#[test]
fn early_instance_is_delayed_by_median_lead() {
    let a = aligned(&[1000, 2000, 3000], &[1010, 2012, 3010], 240);
    assert_eq!(a.alignment_samples(), 10);
}

#[test]
fn late_instance_is_not_delayed() {
    let a = aligned(&[1010, 2010, 3010], &[1000, 2000, 3000], 240);
    assert_eq!(a.alignment_samples(), 0);
}

#[test]
fn offsets_must_lie_inside_the_window() {
    // The window is the largest allowed delay: a 10-sample lead counts
    // with 11 samples allowed, and not with 10.
    let a = aligned(&[1000, 2000, 3000], &[1010, 2010, 3010], 11);
    assert_eq!(a.alignment_samples(), 10);
    let b = aligned(&[1000, 2000, 3000], &[1010, 2010, 3010], 10);
    assert_eq!(b.alignment_samples(), 0);
}

#[test]
fn too_few_onsets_keep_delay() {
    let a = aligned(&[1000], &[1010], 240);
    assert_eq!(a.alignment_samples(), 0);
    // Peers outside the window give no offsets.
    let b = aligned(&[1000, 2000], &[5000], 240);
    assert_eq!(b.alignment_samples(), 0);
}

#[test]
fn disabled_aligner_reports_no_delay() {
    let mut a = aligned(&[1000, 2000, 3000], &[1010, 2010, 3010], 240);
    a.set_enabled(false);
    assert_eq!(a.alignment_samples(), 0);
    a.set_enabled(true);
    assert_eq!(a.alignment_samples(), 10);
    a.reset();
    assert_eq!(a.alignment_samples(), 0);
}

#[test]
fn aligners_share_onsets_through_session() {
    let mut reg = SessionRegistry::new();
    let mut a = PhaseAligner::new();
    let mut b = PhaseAligner::new();
    a.join_session(&mut reg, "kit");
    b.join_session(&mut reg, "kit");
    assert_eq!(reg.len(), 1);
    let idx = reg.find("kit").unwrap();
    assert_eq!(reg.active_count_in(idx), 2);
    b.publish_onset(&mut reg, 0, DrumClass::Snare);
    a.set_enabled(true);
    // The first sample polls the session and goes through the delay line.
    assert!(a.tick(&reg, 48000));
    assert_eq!(a.sample_counter(), 1);
    // Not in a session: no delay.
    let mut c = PhaseAligner::new();
    c.set_enabled(true);
    assert!(!c.tick(&reg, 48000));
    a.leave_session(&mut reg);
    assert_eq!(reg.active_count_in(idx), 1);
    assert!(!a.tick(&reg, 48000));
}
