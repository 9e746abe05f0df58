use fts_suite::drum::DrumClass;
use fts_suite::sync::{
    cleanup_session, GateSession, InstanceSlot, OnsetEvent, OnsetRing, SessionRegistry, MAX_INSTANCES,
    RING_CAPACITY,
};

fn event(id: u32, pos: u64) -> OnsetEvent {
    OnsetEvent { instance_id: id, sample_position: pos, amplitude_bits: 0, drum_class_raw: 0 }
}

#[test]
fn ring_reads_back_what_was_written() {
    let mut ring = OnsetRing::new();
    let mut reader = 0u64;
    assert!(ring.read_new(&mut reader).is_empty());
    for p in 0..3u64 {
        ring.write(event(1, 100 + p));
    }
    let got = ring.read_new(&mut reader);
    assert_eq!(reader, 3);
    let positions: Vec<u64> = got.iter().map(|e| e.sample_position).collect();
    assert_eq!(positions, vec![100, 101, 102]);
    // A caught-up reader reads nothing more.
    assert!(ring.read_new(&mut reader).is_empty());
    assert_eq!(reader, 3);
}

#[test]
fn lapped_reader_gets_last_half_ring() {
    let mut ring = OnsetRing::new();
    for p in 0..300u64 {
        ring.write(event(2, p));
    }
    let mut reader = 0u64;
    let got = ring.read_new(&mut reader);
    assert_eq!(reader, 300);
    assert_eq!(got.len(), RING_CAPACITY / 2);
    assert_eq!(got[0].sample_position, 300 - (RING_CAPACITY as u64) / 2);
    assert_eq!(got[got.len() - 1].sample_position, 299);
}

#[test]
fn reader_within_a_ring_gets_everything_new() {
    let mut ring = OnsetRing::new();
    for p in 0..256u64 {
        ring.write(event(2, p));
    }
    let mut reader = 0u64;
    let got = ring.read_new(&mut reader);
    assert_eq!(got.len(), 256);
    assert_eq!(got[255].sample_position, 255);
}

#[test]
fn onset_event_drum_class() {
    let e = OnsetEvent { instance_id: 0, sample_position: 0, amplitude_bits: 0, drum_class_raw: 2 };
    assert_eq!(e.drum_class(), DrumClass::HiHat);
    assert_eq!(OnsetEvent::default().drum_class(), DrumClass::Unknown);
    assert_eq!(OnsetEvent::default().drum_class_raw, 255);
}

#[test]
fn instance_slot_starts_free() {
    let s = InstanceSlot::new();
    assert!(!s.active);
    assert_eq!(s.id, 0);
}

#[test]
fn register_then_unregister_restores_count() {
    let mut s = GateSession::new();
    assert_eq!(s.active_count(), 0);
    let a = s.register();
    let b = s.register();
    assert_eq!((a, b), (0, 1));
    assert_eq!(s.active_count(), 2);
    s.unregister(a);
    assert_eq!(s.active_count(), 1);
    // Unregistering an unknown id changes nothing.
    s.unregister(77);
    assert_eq!(s.active_count(), 1);
    s.unregister(b);
    assert_eq!(s.active_count(), 0);
}

#[test]
fn full_session_hands_out_ids_without_slots() {
    let mut s = GateSession::new();
    for i in 0..MAX_INSTANCES as u32 {
        assert_eq!(s.register(), i);
    }
    assert_eq!(s.active_count(), MAX_INSTANCES);
    assert_eq!(s.register(), MAX_INSTANCES as u32);
    assert_eq!(s.active_count(), MAX_INSTANCES);
}

#[test]
fn session_publish_and_read() {
    let mut s = GateSession::new();
    s.publish_onset(event(3, 42));
    let mut reader = 0u64;
    let got = s.read_onsets(&mut reader);
    assert_eq!(got, vec![event(3, 42)]);
}

#[test]
fn registry_finds_and_creates_sessions() {
    let mut reg = SessionRegistry::new();
    assert_eq!(reg.len(), 0);
    assert_eq!(reg.find("kit"), None);
    let a = reg.get_session("kit");
    let b = reg.get_session("room");
    assert_eq!((a, b), (0, 1));
    assert_eq!(reg.get_session("kit"), 0);
    assert_eq!(reg.find("room"), Some(1));
    assert_eq!(reg.len(), 2);
}

#[test]
fn cleanup_unlists_only_empty_named_session() {
    let mut reg = SessionRegistry::new();
    let kit = reg.get_session("kit");
    let room = reg.get_session("room");
    let id = reg.register_in(kit);
    assert_eq!(reg.active_count_in(kit), 1);
    cleanup_session(&mut reg, "kit");
    assert_eq!(reg.find("kit"), Some(kit));
    reg.unregister_in(kit, id);
    cleanup_session(&mut reg, "kit");
    assert_eq!(reg.find("kit"), None);
    assert_eq!(reg.find("room"), Some(room));
    cleanup_session(&mut reg, "absent");
    assert_eq!(reg.find("room"), Some(room));
}

#[test]
fn unlisted_session_stays_with_its_holders() {
    let mut reg = SessionRegistry::new();
    let old = reg.get_session("kit");
    reg.publish_in(old, event(1, 10));
    cleanup_session(&mut reg, "kit");
    // The holder of the old session keeps writing and reading it.
    reg.publish_in(old, event(1, 11));
    let mut reader = 0u64;
    assert_eq!(reg.read_in(old, &mut reader), vec![event(1, 10), event(1, 11)]);
    // The name now gives a fresh session.
    let fresh = reg.get_session("kit");
    assert_ne!(fresh, old);
    let mut r2 = 0u64;
    assert!(reg.read_in(fresh, &mut r2).is_empty());
    assert_eq!(reg.register_in(fresh), 0);
    assert_eq!(reg.active_count_in(old), 0);
}

#[test]
fn registry_publish_and_read_in() {
    let mut reg = SessionRegistry::new();
    let idx = reg.get_session("kit");
    reg.publish_in(idx, event(5, 9));
    let mut reader = 0u64;
    assert_eq!(reg.read_in(idx, &mut reader), vec![event(5, 9)]);
    assert_eq!(reader, 1);
}
