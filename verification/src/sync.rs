//! Onset sharing between linked gate instances: a ring of onset events,
//! the instance slots of a session, and the registry of named sessions.
//!
//! The amplitude of an onset is carried as the bit pattern of its `f32`
//! value; nothing here computes with it.

use vstd::prelude::*;
use crate::drum::{DrumClass, drum_class_from_raw, drum_class_from_raw_spec};

verus! {

/// Maximum number of instances per session.
pub const MAX_INSTANCES: usize = 16;

/// Onset event ring buffer capacity (power of 2).
pub const RING_CAPACITY: usize = 256;

/// An onset event published by one gate instance.
#[derive(Clone, Copy, Debug, PartialEq, Eq, Structural)]
pub struct OnsetEvent {
    /// Instance that detected this onset.
    pub instance_id: u32,
    /// Absolute sample position (from DAW transport or internal counter).
    pub sample_position: u64,
    /// Peak amplitude at onset, as the bits of an `f32`.
    pub amplitude_bits: u32,
    /// Classified drum type (see `drum_class_to_raw`).
    pub drum_class_raw: u8,
}

/// The placeholder event that fills a fresh ring.
pub open spec fn empty_onset() -> OnsetEvent {
    OnsetEvent { instance_id: 0, sample_position: 0, amplitude_bits: 0, drum_class_raw: 255 }
}

impl OnsetEvent {
    /// The drum class this event carries.
    pub fn drum_class(&self) -> (c: DrumClass)
        ensures
            c == drum_class_from_raw_spec(self.drum_class_raw),
    {
        drum_class_from_raw(self.drum_class_raw)
    }
}

impl Default for OnsetEvent {
    fn default() -> (e: Self)
        ensures
            e == empty_onset(),
    {
        OnsetEvent { instance_id: 0, sample_position: 0, amplitude_bits: 0, drum_class_raw: 255 }
    }
}

/// Where a reader at `reader` starts when the writer is at `current`: a
/// reader lapped by more than a whole ring skips ahead to the last half ring.
pub open spec fn read_start(reader: u64, current: u64) -> int {
    if current - reader > RING_CAPACITY {
        current - RING_CAPACITY / 2
    } else {
        reader as int
    }
}

/// The events held in ring slots for the positions `start..end`.
pub open spec fn ring_window(slots: Seq<OnsetEvent>, start: int, end: int) -> Seq<OnsetEvent> {
    Seq::new((end - start) as nat, |i: int| slots[(start + i) % (RING_CAPACITY as int)])
}

/// Ring buffer of onset events: one writer position, any number of readers
/// that each keep their own position.
pub struct OnsetRing {
    events: Vec<OnsetEvent>,
    write_pos: u64,
}

impl OnsetRing {
    /// The ring's slots, indexed by position modulo the capacity.
    pub closed spec fn slots(&self) -> Seq<OnsetEvent> {
        self.events@
    }

    /// Number of events written so far (wrapping at `u64::MAX`).
    pub closed spec fn write_position(&self) -> u64 {
        self.write_pos
    }

    /// The ring holds exactly one slot per position modulo the capacity.
    pub closed spec fn wf(&self) -> bool {
        self.events@.len() == RING_CAPACITY
    }

    /// A ring of placeholder events with nothing written.
    pub fn new() -> (r: Self)
        ensures
            r.wf(),
            r.write_position() == 0,
            r.slots() == Seq::new(RING_CAPACITY as nat, |i: int| empty_onset()),
    {
        let mut events: Vec<OnsetEvent> = Vec::new();
        let mut i: usize = 0;
        while i < RING_CAPACITY
            invariant
                i <= RING_CAPACITY,
                events@ == Seq::new(i as nat, |k: int| empty_onset()),
            decreases RING_CAPACITY - i,
        {
            events.push(OnsetEvent::default());
            i += 1;
            assert(events@ =~= Seq::new(i as nat, |k: int| empty_onset()));
        }
        OnsetRing { events, write_pos: 0 }
    }

    /// Append an event at the write position and advance it.
    pub fn write(&mut self, event: OnsetEvent)
        requires
            old(self).wf(),
        ensures
            final(self).wf(),
            final(self).write_position() == old(self).write_position().wrapping_add(1),
            final(self).slots() == old(self).slots().update(
                (old(self).write_position() % (RING_CAPACITY as u64)) as int,
                event,
            ),
    {
        let pos = self.write_pos;
        self.write_pos = pos.wrapping_add(1);
        let idx = (pos % (RING_CAPACITY as u64)) as usize;
        self.events.set(idx, event);
    }

    /// Read the events written since `reader_pos` and move `reader_pos` to the
    /// write position.  A reader lapped by more than a whole ring only gets
    /// the last half ring.
    pub fn read_new(&self, reader_pos: &mut u64) -> (out: Vec<OnsetEvent>)
        requires
            self.wf(),
        ensures
            *old(reader_pos) >= self.write_position() ==> out@ == Seq::<OnsetEvent>::empty()
                && *final(reader_pos) == *old(reader_pos),
            *old(reader_pos) < self.write_position() ==> out@ == ring_window(
                self.slots(),
                read_start(*old(reader_pos), self.write_position()),
                self.write_position() as int,
            ) && *final(reader_pos) == self.write_position(),
    {
        let current = self.write_pos;
        let mut out: Vec<OnsetEvent> = Vec::new();
        if *reader_pos >= current {
            return out;
        }
        if current - *reader_pos > RING_CAPACITY as u64 {
            *reader_pos = current - (RING_CAPACITY as u64 / 2);
        }
        let ghost start = *reader_pos as int;
        assert(start == read_start(*old(reader_pos), current));
        while *reader_pos < current
            invariant
                self.events@.len() == RING_CAPACITY,
                start <= *reader_pos <= current,
                out@ == ring_window(self.events@, start, *reader_pos as int),
            decreases current - *reader_pos,
        {
            let idx = (*reader_pos % (RING_CAPACITY as u64)) as usize;
            let event = self.events[idx];
            out.push(event);
            *reader_pos = *reader_pos + 1;
            assert(out@ =~= ring_window(self.events@, start, *reader_pos as int));
        }
        out
    }
}

/// Per-instance metadata in the shared session.
#[derive(Clone, Copy, Debug, PartialEq, Eq, Structural)]
pub struct InstanceSlot {
    /// Whether an instance holds this slot.
    pub active: bool,
    /// The id of the instance holding this slot.
    pub id: u32,
}

impl InstanceSlot {
    /// A free slot.
    pub fn new() -> (s: Self)
        ensures
            !s.active,
            s.id == 0,
    {
        InstanceSlot { active: false, id: 0 }
    }
}

/// Number of active slots among the first `n`.
pub open spec fn count_active(s: Seq<InstanceSlot>, n: int) -> nat
    decreases n,
{
    if n <= 0 {
        0
    } else {
        count_active(s, n - 1) + if s[n - 1].active {
            1nat
        } else {
            0nat
        }
    }
}

/// `i` is the first free slot of `s`.
pub open spec fn is_first_inactive(s: Seq<InstanceSlot>, i: int) -> bool {
    &&& 0 <= i < s.len()
    &&& !s[i].active
    &&& forall|j: int| 0 <= j < i ==> #[trigger] s[j].active
}

/// `i` is the first active slot of `s` held by `id`.
pub open spec fn is_first_holder(s: Seq<InstanceSlot>, id: u32, i: int) -> bool {
    &&& 0 <= i < s.len()
    &&& s[i].active && s[i].id == id
    &&& forall|j: int| 0 <= j < i ==> !(#[trigger] s[j].active && s[j].id == id)
}

/// Shared state for a group of linked gate instances.
pub struct GateSession {
    ring: OnsetRing,
    slots: Vec<InstanceSlot>,
    instance_counter: u32,
}

impl GateSession {
    /// The instance slots.
    pub closed spec fn instances(&self) -> Seq<InstanceSlot> {
        self.slots@
    }

    /// The onset ring shared by the session's instances.
    pub closed spec fn onset_ring(&self) -> OnsetRing {
        self.ring
    }

    /// The id the next registration hands out.
    pub closed spec fn next_id(&self) -> u32 {
        self.instance_counter
    }

    /// A session has one slot per possible instance and a well-formed ring.
    pub open spec fn wf(&self) -> bool {
        &&& self.instances().len() == MAX_INSTANCES
        &&& self.onset_ring().wf()
    }

    /// Number of active instances, as a mathematical value.
    pub open spec fn active_count_spec(&self) -> nat {
        count_active(self.instances(), self.instances().len() as int)
    }

    /// A session is fresh: no instance, nothing written, ids from 0.
    pub open spec fn is_fresh(&self) -> bool {
        &&& self.wf()
        &&& self.next_id() == 0
        &&& self.onset_ring().write_position() == 0
        &&& self.onset_ring().slots() == Seq::new(RING_CAPACITY as nat, |i: int| empty_onset())
        &&& self.instances().len() == MAX_INSTANCES
        &&& forall|k: int| 0 <= k < MAX_INSTANCES ==> !(#[trigger] self.instances()[k]).active
    }

    /// A session with no instances and an empty ring.
    pub fn new() -> (s: Self)
        ensures
            s.is_fresh(),
    {
        let ring = OnsetRing::new();
        let mut slots: Vec<InstanceSlot> = Vec::new();
        let mut i: usize = 0;
        while i < MAX_INSTANCES
            invariant
                i <= MAX_INSTANCES,
                slots@.len() == i,
                forall|k: int| 0 <= k < i ==> !(#[trigger] slots@[k]).active,
            decreases MAX_INSTANCES - i,
        {
            slots.push(InstanceSlot::new());
            i += 1;
        }
        GateSession { ring, slots, instance_counter: 0 }
    }

    /// Register a new instance: hand out the next id and record it in the
    /// first free slot.  With every slot taken the id is still handed out,
    /// but not recorded.
    pub fn register(&mut self) -> (id: u32)
        requires
            old(self).wf(),
        ensures
            final(self).wf(),
            id == old(self).next_id(),
            final(self).next_id() == old(self).next_id().wrapping_add(1),
            final(self).onset_ring() == old(self).onset_ring(),
            (forall|k: int| 0 <= k < MAX_INSTANCES ==> (#[trigger] old(self).instances()[k]).active)
                ==> final(self).instances() == old(self).instances(),
            !(forall|k: int| 0 <= k < MAX_INSTANCES ==> (#[trigger] old(self).instances()[k]).active)
                ==> exists|f: int|
                is_first_inactive(old(self).instances(), f) && final(self).instances() == old(
                    self,
                ).instances().update(f, InstanceSlot { active: true, id }),
    {
        let id = self.instance_counter;
        self.instance_counter = id.wrapping_add(1);
        let mut i: usize = 0;
        while i < self.slots.len()
            invariant
                self.slots@ == old(self).slots@,
                self.ring == old(self).ring,
                self.ring.wf(),
                id == old(self).instance_counter,
                self.instance_counter == old(self).instance_counter.wrapping_add(1),
                self.slots@.len() == MAX_INSTANCES,
                i <= MAX_INSTANCES,
                forall|j: int| 0 <= j < i ==> #[trigger] self.slots@[j].active,
            decreases MAX_INSTANCES - i,
        {
            if !self.slots[i].active {
                let ghost f = i as int;
                self.slots.set(i, InstanceSlot { active: true, id });
                assert(is_first_inactive(old(self).slots@, f));
                return id;
            }
            i += 1;
        }
        id
    }

    /// Unregister an instance: free the first active slot held by `id`.
    pub fn unregister(&mut self, id: u32)
        requires
            old(self).wf(),
        ensures
            final(self).wf(),
            final(self).next_id() == old(self).next_id(),
            final(self).onset_ring() == old(self).onset_ring(),
            (forall|k: int|
                0 <= k < MAX_INSTANCES ==> !((#[trigger] old(self).instances()[k]).active
                    && old(self).instances()[k].id == id)) ==> final(self).instances() == old(
                self,
            ).instances(),
            forall|f: int|
                is_first_holder(old(self).instances(), id, f) ==> final(self).instances() == old(
                    self,
                ).instances().update(f, InstanceSlot { active: false, id }),
    {
        let mut i: usize = 0;
        while i < self.slots.len()
            invariant
                self.slots@ == old(self).slots@,
                self.ring == old(self).ring,
                self.ring.wf(),
                self.instance_counter == old(self).instance_counter,
                self.slots@.len() == MAX_INSTANCES,
                i <= MAX_INSTANCES,
                forall|j: int| 0 <= j < i ==> !(#[trigger] self.slots@[j].active && self.slots@[j].id == id),
            decreases MAX_INSTANCES - i,
        {
            if self.slots[i].active && self.slots[i].id == id {
                self.slots.set(i, InstanceSlot { active: false, id });
                assert forall|f: int| is_first_holder(old(self).slots@, id, f) implies f == i by {
                    if f < i {
                        assert(!(old(self).slots@[f].active && old(self).slots@[f].id == id));
                    }
                    if f > i {
                        assert(!(old(self).slots@[i as int].active && old(self).slots@[i as int].id == id));
                    }
                }
                return;
            }
            i += 1;
        }
    }

    /// Publish an onset event to every instance of the session.
    pub fn publish_onset(&mut self, event: OnsetEvent)
        requires
            old(self).wf(),
        ensures
            final(self).wf(),
            final(self).instances() == old(self).instances(),
            final(self).next_id() == old(self).next_id(),
            final(self).onset_ring().write_position() == old(
                self,
            ).onset_ring().write_position().wrapping_add(1),
            final(self).onset_ring().slots() == old(self).onset_ring().slots().update(
                (old(self).onset_ring().write_position() % (RING_CAPACITY as u64)) as int,
                event,
            ),
    {
        self.ring.write(event);
    }

    /// Read new onset events since the reader's last position.
    pub fn read_onsets(&self, reader_pos: &mut u64) -> (out: Vec<OnsetEvent>)
        requires
            self.wf(),
        ensures
            *old(reader_pos) >= self.onset_ring().write_position() ==> out@ == Seq::<
                OnsetEvent,
            >::empty() && *final(reader_pos) == *old(reader_pos),
            *old(reader_pos) < self.onset_ring().write_position() ==> out@ == ring_window(
                self.onset_ring().slots(),
                read_start(*old(reader_pos), self.onset_ring().write_position()),
                self.onset_ring().write_position() as int,
            ) && *final(reader_pos) == self.onset_ring().write_position(),
    {
        self.ring.read_new(reader_pos)
    }

    /// Count active instances.
    pub fn active_count(&self) -> (n: usize)
        requires
            self.wf(),
        ensures
            n == self.active_count_spec(),
    {
        let mut n: usize = 0;
        let mut i: usize = 0;
        while i < self.slots.len()
            invariant
                self.slots@.len() == MAX_INSTANCES,
                i <= MAX_INSTANCES,
                n == count_active(self.slots@, i as int),
                n <= i,
            decreases MAX_INSTANCES - i,
        {
            if self.slots[i].active {
                n += 1;
            }
            i += 1;
        }
        n
    }
}

proof fn lemma_count_active_update(s: Seq<InstanceSlot>, i: int, x: InstanceSlot, n: int)
    requires
        0 <= i < s.len(),
        0 <= n <= s.len(),
    ensures
        count_active(s.update(i, x), n) + (if i < n && s[i].active { 1int } else { 0int })
            == count_active(s, n) + (if i < n && x.active { 1int } else { 0int }),
    decreases n,
{
    if n > 0 {
        lemma_count_active_update(s, i, x, n - 1);
    }
}

/// The number of active instances never exceeds the number of slots.
pub proof fn lemma_count_active_bounded(s: Seq<InstanceSlot>, n: int)
    requires
        0 <= n,
    ensures
        count_active(s, n) <= n,
    decreases n,
{
    if n > 0 {
        lemma_count_active_bounded(s, n - 1);
    }
}

/// Registering in a session with a free slot, then unregistering the id it
/// handed out, frees exactly one slot again: the active count is restored,
/// having been one higher in between.
pub proof fn lemma_register_unregister(s: Seq<InstanceSlot>, f: int, id: u32)
    requires
        is_first_inactive(s, f),
    ensures
        count_active(s.update(f, InstanceSlot { active: true, id }), s.len() as int) == count_active(
            s,
            s.len() as int,
        ) + 1,
        exists|g: int| is_first_holder(s.update(f, InstanceSlot { active: true, id }), id, g),
        forall|g: int|
            is_first_holder(s.update(f, InstanceSlot { active: true, id }), id, g) ==> count_active(
                s.update(f, InstanceSlot { active: true, id }).update(
                    g,
                    InstanceSlot { active: false, id },
                ),
                s.len() as int,
            ) == count_active(s, s.len() as int),
{
    let x = InstanceSlot { active: true, id };
    let s1 = s.update(f, x);
    let n = s.len() as int;
    lemma_count_active_update(s, f, x, n);
    // the first holder of `id` in s1 is at or before f
    let g0 = if exists|j: int| 0 <= j < f && s1[j].active && s1[j].id == id {
        choose|j: int|
            0 <= j < f && s1[j].active && s1[j].id == id && forall|k: int|
                0 <= k < j ==> !(#[trigger] s1[k].active && s1[k].id == id)
    } else {
        f
    };
    if exists|j: int| 0 <= j < f && s1[j].active && s1[j].id == id {
        lemma_first_witness(s1, id, f);
    }
    assert(is_first_holder(s1, id, g0));
    assert forall|g: int| is_first_holder(s1, id, g) implies count_active(
        s1.update(g, InstanceSlot { active: false, id }),
        n,
    ) == count_active(s, n) by {
        lemma_count_active_update(s1, g, InstanceSlot { active: false, id }, n);
    }
}

proof fn lemma_first_witness(s: Seq<InstanceSlot>, id: u32, f: int)
    requires
        0 <= f <= s.len(),
        exists|j: int| 0 <= j < f && s[j].active && s[j].id == id,
    ensures
        exists|j: int|
            0 <= j < f && s[j].active && s[j].id == id && forall|k: int|
                0 <= k < j ==> !(#[trigger] s[k].active && s[k].id == id),
    decreases f,
{
    if exists|j: int| 0 <= j < f - 1 && s[j].active && s[j].id == id {
        lemma_first_witness(s, id, f - 1);
    } else {
        let j = f - 1;
        assert(s[j].active && s[j].id == id);
        assert(forall|k: int| 0 <= k < j ==> !(#[trigger] s[k].active && s[k].id == id));
    }
}

/// `after` is `before` with instance `id` registered (as
/// `GateSession::register` does): the next id is handed out and the first
/// free slot, if any, records it; the ring stays.
pub open spec fn register_step(before: GateSession, after: GateSession, id: u32) -> bool {
    &&& after.wf()
    &&& id == before.next_id()
    &&& after.next_id() == before.next_id().wrapping_add(1)
    &&& after.onset_ring() == before.onset_ring()
    &&& (forall|k: int| 0 <= k < MAX_INSTANCES ==> (#[trigger] before.instances()[k]).active)
        ==> after.instances() == before.instances()
    &&& !(forall|k: int| 0 <= k < MAX_INSTANCES ==> (#[trigger] before.instances()[k]).active)
        ==> exists|f: int|
        is_first_inactive(before.instances(), f) && after.instances() == before.instances().update(
            f,
            InstanceSlot { active: true, id },
        )
}

/// `after` is `before` with instance `id` unregistered (as
/// `GateSession::unregister` does): the first active slot holding `id`, if
/// any, is freed; ids and ring stay.
pub open spec fn unregister_step(before: GateSession, after: GateSession, id: u32) -> bool {
    &&& after.wf()
    &&& after.next_id() == before.next_id()
    &&& after.onset_ring() == before.onset_ring()
    &&& (forall|k: int|
        0 <= k < MAX_INSTANCES ==> !((#[trigger] before.instances()[k]).active
            && before.instances()[k].id == id)) ==> after.instances() == before.instances()
    &&& forall|f: int|
        is_first_holder(before.instances(), id, f) ==> after.instances() == before.instances().update(
            f,
            InstanceSlot { active: false, id },
        )
}

/// `after` is `before` with `event` published (as
/// `GateSession::publish_onset` does): it is written at the write position,
/// which advances; instances and ids stay.
pub open spec fn publish_step(before: GateSession, after: GateSession, event: OnsetEvent) -> bool {
    &&& after.wf()
    &&& after.instances() == before.instances()
    &&& after.next_id() == before.next_id()
    &&& after.onset_ring().write_position() == before.onset_ring().write_position().wrapping_add(1)
    &&& after.onset_ring().slots() == before.onset_ring().slots().update(
        (before.onset_ring().write_position() % (RING_CAPACITY as u64)) as int,
        event,
    )
}

/// A registry entry: the name under which the session is listed, or `None`
/// once it was taken off the list, and the session.
pub type EntryView = (Option<Seq<char>>, GateSession);

/// No name lists two sessions.
pub open spec fn names_unique(entries: Seq<EntryView>) -> bool {
    forall|i: int, j: int|
        0 <= i < j < entries.len() && (#[trigger] entries[i]).0 is Some ==> entries[i].0 != (
        #[trigger] entries[j]).0
}

proof fn lemma_names_kept(a: Seq<EntryView>, b: Seq<EntryView>)
    requires
        names_unique(a),
        a.len() == b.len(),
        forall|i: int| 0 <= i < a.len() ==> (#[trigger] b[i]).0 == a[i].0,
    ensures
        names_unique(b),
{
    assert forall|i: int, j: int|
        0 <= i < j < b.len() && (#[trigger] b[i]).0 is Some implies b[i].0 != (#[trigger] b[j]).0 by {
        assert(a[i].0 != a[j].0);
    }
}

proof fn lemma_names_push(a: Seq<EntryView>, e: EntryView)
    requires
        names_unique(a),
        forall|i: int| 0 <= i < a.len() ==> (#[trigger] a[i]).0 != e.0,
    ensures
        names_unique(a.push(e)),
{
    let b = a.push(e);
    assert forall|i: int, j: int|
        0 <= i < j < b.len() && (#[trigger] b[i]).0 is Some implies b[i].0 != (#[trigger] b[j]).0 by {
        assert(b[i] == a[i]);
        if j < a.len() {
            assert(b[j] == a[j]);
        }
    }
}

/// `i` is the first session listed under the name `id`.
pub open spec fn is_first_named(entries: Seq<EntryView>, id: Seq<char>, i: int) -> bool {
    &&& 0 <= i < entries.len()
    &&& entries[i].0 == Some(id)
    &&& forall|j: int| 0 <= j < i ==> (#[trigger] entries[j]).0 != Some(id)
}

/// What `cleanup_session(.., id)` makes of an entry: a session listed under
/// `id` with no instance left is taken off the list; everything else stays.
pub open spec fn cleaned(id: Seq<char>) -> spec_fn(EntryView) -> EntryView {
    |e: EntryView|
        if e.0 == Some(id) && e.1.active_count_spec() == 0 {
            (None, e.1)
        } else {
            e
        }
}

/// `idx` and `after` are what looking up `id` in `before` gives: the first
/// session listed under `id`, the registry unchanged; or, where none is
/// listed, a fresh session appended under that name.
pub open spec fn session_lookup(before: Seq<EntryView>, id: Seq<char>, idx: int, after: Seq<EntryView>) -> bool {
    &&& 0 <= idx < after.len()
    &&& (exists|j: int| 0 <= j < before.len() && (#[trigger] before[j]).0 == Some(id)) ==> after
        == before && is_first_named(before, id, idx)
    &&& (forall|j: int| 0 <= j < before.len() ==> (#[trigger] before[j]).0 != Some(id)) ==> {
        &&& idx == before.len()
        &&& after.len() == before.len() + 1
        &&& after.take(idx) == before
        &&& after[idx].0 == Some(id)
        &&& after[idx].1.is_fresh()
    }
}

/// Process-wide registry of sessions.  A session is found by the name it
/// is listed under and held by its handle, its index here.  Entries are
/// never removed, so a handle stays valid: a session taken off the list
/// remains in place for the instances that still hold it.
pub struct SessionRegistry {
    sessions: Vec<(Option<String>, GateSession)>,
}

impl SessionRegistry {
    /// The sessions by handle, oldest first, each with the name it is
    /// listed under (`None` once taken off the list).
    pub closed spec fn entries(&self) -> Seq<EntryView> {
        self.sessions@.map_values(
            |e: (Option<String>, GateSession)|
                (
                    match e.0 {
                        Some(n) => Some(n@),
                        None => None,
                    },
                    e.1,
                ),
        )
    }

    /// Every session is well formed, and no name lists two sessions.
    pub open spec fn wf(&self) -> bool {
        &&& forall|i: int| 0 <= i < self.entries().len() ==> (#[trigger] self.entries()[i]).1.wf()
        &&& names_unique(self.entries())
    }

    /// An empty registry.
    pub fn new() -> (r: Self)
        ensures
            r.entries() == Seq::<EntryView>::empty(),
    {
        let r = SessionRegistry { sessions: Vec::new() };
        assert(r.entries() =~= Seq::<EntryView>::empty());
        r
    }

    /// Number of sessions, listed or not.
    pub fn len(&self) -> (n: usize)
        ensures
            n == self.entries().len(),
    {
        self.sessions.len()
    }

    /// Handle of the first session listed under `session_id`, if any.
    pub fn find(&self, session_id: &str) -> (r: Option<usize>)
        ensures
            r matches Some(i) ==> is_first_named(self.entries(), session_id@, i as int),
            r is None ==> forall|j: int|
                0 <= j < self.entries().len() ==> (#[trigger] self.entries()[j]).0 != Some(session_id@),
    {
        let key = String::from_str(session_id);
        let mut i: usize = 0;
        while i < self.sessions.len()
            invariant
                i <= self.sessions@.len(),
                key@ == session_id@,
                forall|j: int| 0 <= j < i ==> (#[trigger] self.entries()[j]).0 != Some(session_id@),
            decreases self.sessions@.len() - i,
        {
            let hit = match &self.sessions[i].0 {
                Some(name) => *name == key,
                None => false,
            };
            if hit {
                return Some(i);
            }
            i += 1;
        }
        None
    }

    /// Handle of the session listed under `session_id`, creating a fresh
    /// session under that name when none is listed.
    pub fn get_session(&mut self, session_id: &str) -> (idx: usize)
        requires
            old(self).wf(),
        ensures
            final(self).wf(),
            session_lookup(old(self).entries(), session_id@, idx as int, final(self).entries()),
    {
        match self.find(session_id) {
            Some(i) => i,
            None => {
                let idx = self.sessions.len();
                let ghost before = self.entries();
                self.sessions.push((Some(String::from_str(session_id)), GateSession::new()));
                assert(self.entries().take(idx as int) =~= before);
                assert forall|j: int| 0 <= j < self.entries().len() implies (#[trigger] self.entries()[j]).1.wf() by {
                    if j < idx {
                        assert(self.entries()[j] == before[j]);
                    }
                }
                proof {
                    assert(self.entries() =~= before.push(self.entries()[idx as int]));
                    lemma_names_push(before, self.entries()[idx as int]);
                }
                idx
            },
        }
    }

    /// Register a new instance in the session with handle `idx` (see
    /// `GateSession::register`); the other sessions and the names stay.
    pub fn register_in(&mut self, idx: usize) -> (id: u32)
        requires
            old(self).wf(),
            idx < old(self).entries().len(),
        ensures
            final(self).wf(),
            final(self).same_except(old(self), idx as int),
            register_step(old(self).entries()[idx as int].1, final(self).entries()[idx as int].1, id),
    {
        assert(self.entries()[idx as int].1.wf());
        let (name, mut session) = self.sessions.remove(idx);
        let id = session.register();
        self.sessions.insert(idx, (name, session));
        proof {
            assert forall|j: int| 0 <= j < self.entries().len() implies (#[trigger] self.entries()[j]).1.wf() by {
                if j != idx {
                    assert(self.entries()[j] == old(self).entries()[j]);
                }
            }
            assert forall|j: int| 0 <= j < old(self).entries().len() implies (#[trigger] self.entries()[j]).0
                == old(self).entries()[j].0 by {
                if j != idx {
                    assert(self.entries()[j] == old(self).entries()[j]);
                }
            }
            lemma_names_kept(old(self).entries(), self.entries());
        }
        id
    }
}

impl SessionRegistry {
    /// The entries other than `idx` are unchanged, as is the name at `idx`.
    pub open spec fn same_except(&self, other: &Self, idx: int) -> bool {
        &&& self.entries().len() == other.entries().len()
        &&& forall|j: int|
            0 <= j < other.entries().len() && j != idx ==> #[trigger] self.entries()[j]
                == other.entries()[j]
        &&& self.entries()[idx].0 == other.entries()[idx].0
    }

    /// Unregister instance `id` from the session with handle `idx` (see
    /// `GateSession::unregister`).
    pub fn unregister_in(&mut self, idx: usize, id: u32)
        requires
            old(self).wf(),
            idx < old(self).entries().len(),
        ensures
            final(self).wf(),
            final(self).same_except(old(self), idx as int),
            unregister_step(old(self).entries()[idx as int].1, final(self).entries()[idx as int].1, id),
    {
        assert(self.entries()[idx as int].1.wf());
        let (name, mut session) = self.sessions.remove(idx);
        session.unregister(id);
        self.sessions.insert(idx, (name, session));
        proof {
            assert forall|j: int| 0 <= j < self.entries().len() implies (#[trigger] self.entries()[j]).1.wf() by {
                if j != idx {
                    assert(self.entries()[j] == old(self).entries()[j]);
                }
            }
            assert forall|j: int| 0 <= j < old(self).entries().len() implies (#[trigger] self.entries()[j]).0
                == old(self).entries()[j].0 by {
                if j != idx {
                    assert(self.entries()[j] == old(self).entries()[j]);
                }
            }
            lemma_names_kept(old(self).entries(), self.entries());
        }
    }

    /// Publish an onset event in the session with handle `idx` (see
    /// `GateSession::publish_onset`).
    pub fn publish_in(&mut self, idx: usize, event: OnsetEvent)
        requires
            old(self).wf(),
            idx < old(self).entries().len(),
        ensures
            final(self).wf(),
            final(self).same_except(old(self), idx as int),
            publish_step(old(self).entries()[idx as int].1, final(self).entries()[idx as int].1, event),
    {
        assert(self.entries()[idx as int].1.wf());
        let (name, mut session) = self.sessions.remove(idx);
        session.publish_onset(event);
        self.sessions.insert(idx, (name, session));
        proof {
            assert forall|j: int| 0 <= j < self.entries().len() implies (#[trigger] self.entries()[j]).1.wf() by {
                if j != idx {
                    assert(self.entries()[j] == old(self).entries()[j]);
                }
            }
            assert forall|j: int| 0 <= j < old(self).entries().len() implies (#[trigger] self.entries()[j]).0
                == old(self).entries()[j].0 by {
                if j != idx {
                    assert(self.entries()[j] == old(self).entries()[j]);
                }
            }
            lemma_names_kept(old(self).entries(), self.entries());
        }
    }

    /// Read new onsets of the session with handle `idx` (see
    /// `GateSession::read_onsets`).
    pub fn read_in(&self, idx: usize, reader_pos: &mut u64) -> (out: Vec<OnsetEvent>)
        requires
            self.wf(),
            idx < self.entries().len(),
        ensures
            ({
                let ring = self.entries()[idx as int].1.onset_ring();
                &&& *old(reader_pos) >= ring.write_position() ==> out@ == Seq::<OnsetEvent>::empty()
                    && *final(reader_pos) == *old(reader_pos)
                &&& *old(reader_pos) < ring.write_position() ==> out@ == ring_window(
                    ring.slots(),
                    read_start(*old(reader_pos), ring.write_position()),
                    ring.write_position() as int,
                ) && *final(reader_pos) == ring.write_position()
            }),
    {
        assert(self.entries()[idx as int].1.wf());
        self.sessions[idx].1.read_onsets(reader_pos)
    }

    /// Number of active instances in the session with handle `idx`.
    pub fn active_count_in(&self, idx: usize) -> (n: usize)
        requires
            self.wf(),
            idx < self.entries().len(),
        ensures
            n == self.entries()[idx as int].1.active_count_spec(),
    {
        assert(self.entries()[idx as int].1.wf());
        self.sessions[idx].1.active_count()
    }

    /// Take the session with handle `idx` off the list of names.
    fn unlist(&mut self, idx: usize)
        requires
            old(self).wf(),
            idx < old(self).entries().len(),
        ensures
            final(self).wf(),
            final(self).entries() == old(self).entries().update(
                idx as int,
                (None, old(self).entries()[idx as int].1),
            ),
    {
        let (_name, session) = self.sessions.remove(idx);
        self.sessions.insert(idx, (None, session));
        assert(self.entries() =~= old(self).entries().update(
            idx as int,
            (None, old(self).entries()[idx as int].1),
        ));
    }
}

/// Take the session listed under `session_id` off the list if no instances
/// remain in it.  It stays reachable by handle for those who hold it; a
/// later `get_session` under that name creates a fresh session.
pub fn cleanup_session(registry: &mut SessionRegistry, session_id: &str)
    requires
        old(registry).wf(),
    ensures
        final(registry).wf(),
        final(registry).entries() == old(registry).entries().map_values(cleaned(session_id@)),
        final(registry).entries().len() == old(registry).entries().len(),
        forall|i: int|
            0 <= i < old(registry).entries().len() ==> #[trigger] final(registry).entries()[i].1
                == old(registry).entries()[i].1,
        forall|i: int|
            0 <= i < old(registry).entries().len() && old(registry).entries()[i].0 == Some(session_id@)
                && old(registry).entries()[i].1.active_count_spec() > 0
                ==> #[trigger] final(registry).entries()[i].0 == Some(session_id@),
        (forall|i: int|
            0 <= i < old(registry).entries().len() && #[trigger] old(registry).entries()[i].0 == Some(session_id@)
                ==> old(registry).entries()[i].1.active_count_spec() == 0)
            ==> forall|i: int|
            0 <= i < final(registry).entries().len() ==> #[trigger] final(registry).entries()[i].0 != Some(session_id@),
{
    let key = String::from_str(session_id);
    let ghost orig = registry.entries();
    let ghost f = cleaned(session_id@);
    let n = registry.sessions.len();
    let mut i: usize = 0;
    while i < n
        invariant
            key@ == session_id@,
            f == cleaned(session_id@),
            n == orig.len(),
            i <= n,
            registry.wf(),
            registry.entries().len() == n,
            forall|j: int| 0 <= j < i ==> #[trigger] registry.entries()[j] == f(orig[j]),
            forall|j: int| i <= j < n ==> #[trigger] registry.entries()[j] == orig[j],
        decreases n - i,
    {
        let named = match &registry.sessions[i].0 {
            Some(name) => *name == key,
            None => false,
        };
        assert(registry.entries()[i as int] == orig[i as int]);
        if named && registry.active_count_in(i) == 0 {
            registry.unlist(i);
        }
        i += 1;
    }
    assert(registry.entries() =~= orig.map_values(f));
    assert forall|j: int| 0 <= j < n implies #[trigger] registry.entries()[j] == f(orig[j]) by {}
}

/// The ring slots after writing `es` in order, starting at position `pos`.
pub open spec fn slots_after_writes(slots: Seq<OnsetEvent>, pos: int, es: Seq<OnsetEvent>) -> Seq<
    OnsetEvent,
>
    decreases es.len(),
{
    if es.len() == 0 {
        slots
    } else {
        slots_after_writes(slots, pos, es.drop_last()).update(
            (pos + es.len() - 1) % (RING_CAPACITY as int),
            es.last(),
        )
    }
}

proof fn lemma_mod_distinct(a: int, b: int)
    requires
        0 <= a < b,
        b - a < RING_CAPACITY,
    ensures
        a % (RING_CAPACITY as int) != b % (RING_CAPACITY as int),
{
}

proof fn lemma_slots_after_writes(slots: Seq<OnsetEvent>, pos: int, es: Seq<OnsetEvent>, i: int)
    requires
        slots.len() == RING_CAPACITY,
        pos >= 0,
        0 <= i < es.len(),
        es.len() <= i + RING_CAPACITY,
    ensures
        slots_after_writes(slots, pos, es).len() == RING_CAPACITY,
        slots_after_writes(slots, pos, es)[(pos + i) % (RING_CAPACITY as int)] == es[i],
    decreases es.len(),
{
    let n = es.len() as int;
    lemma_slots_after_writes_len(slots, pos, es.drop_last());
    if i < n - 1 {
        lemma_slots_after_writes(slots, pos, es.drop_last(), i);
        lemma_mod_distinct(pos + i, pos + n - 1);
    }
}

proof fn lemma_slots_after_writes_len(slots: Seq<OnsetEvent>, pos: int, es: Seq<OnsetEvent>)
    requires
        slots.len() == RING_CAPACITY,
        pos >= 0,
    ensures
        slots_after_writes(slots, pos, es).len() == RING_CAPACITY,
    decreases es.len(),
{
    if es.len() > 0 {
        lemma_slots_after_writes_len(slots, pos, es.drop_last());
    }
}

/// A reader positioned at the write position, after at most one ring's worth
/// of further writes `es`, reads back exactly `es`, in the order written.
pub proof fn lemma_read_returns_writes(slots: Seq<OnsetEvent>, pos: u64, es: Seq<OnsetEvent>)
    requires
        slots.len() == RING_CAPACITY,
        0 < es.len() <= RING_CAPACITY,
        pos + es.len() <= u64::MAX,
    ensures
        ring_window(
            slots_after_writes(slots, pos as int, es),
            read_start(pos, (pos + es.len()) as u64),
            pos + es.len(),
        ) == es,
{
    let w = ring_window(
        slots_after_writes(slots, pos as int, es),
        read_start(pos, (pos + es.len()) as u64),
        pos + es.len(),
    );
    assert forall|i: int| 0 <= i < es.len() implies w[i] == es[i] by {
        lemma_slots_after_writes(slots, pos as int, es, i);
    }
    assert(w =~= es);
}

/// A reader that fell more than a whole ring behind the writes `es` reads
/// exactly the last half ring of them, in the order written.
pub proof fn lemma_lapped_reader_reads_last_half(slots: Seq<OnsetEvent>, pos: u64, es: Seq<OnsetEvent>)
    requires
        slots.len() == RING_CAPACITY,
        es.len() > RING_CAPACITY,
        pos + es.len() <= u64::MAX,
    ensures
        ring_window(
            slots_after_writes(slots, pos as int, es),
            read_start(pos, (pos + es.len()) as u64),
            pos + es.len(),
        ) == es.skip(es.len() - RING_CAPACITY / 2),
{
    let n = es.len() as int;
    let half = (RING_CAPACITY / 2) as int;
    let w = ring_window(
        slots_after_writes(slots, pos as int, es),
        read_start(pos, (pos + es.len()) as u64),
        pos + es.len(),
    );
    assert(read_start(pos, (pos + es.len()) as u64) == pos + n - half);
    assert forall|k: int| 0 <= k < half implies w[k] == es.skip(n - half)[k] by {
        lemma_slots_after_writes(slots, pos as int, es, n - half + k);
        assert(pos + n - half + k == pos + (n - half + k));
    }
    assert(w =~= es.skip(n - half));
}

proof fn lemma_count_active_all(s: Seq<InstanceSlot>, n: int)
    requires
        0 <= n <= s.len(),
        forall|k: int| 0 <= k < n ==> (#[trigger] s[k]).active,
    ensures
        count_active(s, n) == n,
    decreases n,
{
    if n > 0 {
        lemma_count_active_all(s, n - 1);
    }
}

proof fn lemma_count_active_below(s: Seq<InstanceSlot>, n: int, f: int)
    requires
        0 <= f < n <= s.len(),
        !s[f].active,
    ensures
        count_active(s, n) < n,
    decreases n,
{
    lemma_count_active_bounded(s, n - 1);
    if f < n - 1 {
        lemma_count_active_below(s, n - 1, f);
    }
}

/// Registering takes a slot while one is free: the active count grows by
/// one, up to the number of slots, where it stays.
pub proof fn lemma_register_count(before: GateSession, after: GateSession, id: u32)
    requires
        before.wf(),
        register_step(before, after, id),
    ensures
        after.active_count_spec() == if before.active_count_spec() < MAX_INSTANCES {
            before.active_count_spec() + 1
        } else {
            MAX_INSTANCES as nat
        },
{
    let s = before.instances();
    let n = MAX_INSTANCES as int;
    if forall|k: int| 0 <= k < MAX_INSTANCES ==> (#[trigger] s[k]).active {
        lemma_count_active_all(s, n);
    } else {
        let f = choose|f: int|
            is_first_inactive(s, f) && after.instances() == s.update(f, InstanceSlot { active: true, id });
        lemma_count_active_below(s, n, f);
        lemma_count_active_update(s, f, InstanceSlot { active: true, id }, n);
    }
}

/// Unregistering an id held by an active slot frees exactly one slot, the
/// first that holds it: the active count falls by one; an id that no active slot holds changes
/// nothing.
pub proof fn lemma_unregister_count(before: GateSession, after: GateSession, id: u32)
    requires
        before.wf(),
        unregister_step(before, after, id),
    ensures
        (exists|k: int| 0 <= k < MAX_INSTANCES && #[trigger] before.instances()[k].active
            && before.instances()[k].id == id) ==> after.active_count_spec()
            == before.active_count_spec() - 1 && exists|f: int|
            is_first_holder(before.instances(), id, f) && after.instances()
                == before.instances().update(f, InstanceSlot { active: false, id }),
        !(exists|k: int| 0 <= k < MAX_INSTANCES && #[trigger] before.instances()[k].active
            && before.instances()[k].id == id) ==> after.instances() == before.instances(),
{
    let s = before.instances();
    let n = MAX_INSTANCES as int;
    if exists|k: int| 0 <= k < MAX_INSTANCES && #[trigger] s[k].active && s[k].id == id {
        lemma_first_witness(s, id, n);
        let f = choose|j: int|
            0 <= j < n && s[j].active && s[j].id == id && forall|k: int|
                0 <= k < j ==> !(#[trigger] s[k].active && s[k].id == id);
        assert(is_first_holder(s, id, f));
        lemma_count_active_update(s, f, InstanceSlot { active: false, id }, n);
    }
}

/// Successive registrations on a fresh session hand out the ids 0, 1, 2,
/// ... in call order.
pub proof fn lemma_ids_in_call_order(states: Seq<GateSession>, ids: Seq<u32>)
    requires
        states.len() == ids.len() + 1,
        states[0].next_id() == 0,
        ids.len() < u32::MAX,
        forall|i: int| 0 <= i < ids.len() ==> register_step(states[i], states[i + 1], #[trigger] ids[i]),
    ensures
        forall|i: int| 0 <= i < ids.len() ==> #[trigger] ids[i] == i,
{
    assert forall|i: int| 0 <= i <= ids.len() implies #[trigger] states[i].next_id() == i by {
        lemma_next_ids(states, ids, i);
    }
    assert forall|i: int| 0 <= i < ids.len() implies #[trigger] ids[i] == i by {
        assert(register_step(states[i], states[i + 1], ids[i]));
        assert(states[i].next_id() == i);
    }
}

proof fn lemma_next_ids(states: Seq<GateSession>, ids: Seq<u32>, i: int)
    requires
        states.len() == ids.len() + 1,
        states[0].next_id() == 0,
        ids.len() < u32::MAX,
        forall|k: int| 0 <= k < ids.len() ==> register_step(states[k], states[k + 1], #[trigger] ids[k]),
        0 <= i <= ids.len(),
    ensures
        states[i].next_id() == i,
    decreases i,
{
    if i > 0 {
        lemma_next_ids(states, ids, i - 1);
        assert(register_step(states[i - 1], states[i], ids[i - 1]));
    }
}

proof fn lemma_publishes_write(states: Seq<GateSession>, es: Seq<OnsetEvent>, k: int)
    requires
        states.len() == es.len() + 1,
        states[0].wf(),
        states[0].onset_ring().write_position() + es.len() <= u64::MAX,
        forall|i: int| 0 <= i < es.len() ==> publish_step(states[i], states[i + 1], #[trigger] es[i]),
        0 <= k <= es.len(),
    ensures
        states[k].onset_ring().write_position() == states[0].onset_ring().write_position() + k,
        states[k].onset_ring().slots() == slots_after_writes(
            states[0].onset_ring().slots(),
            states[0].onset_ring().write_position() as int,
            es.take(k),
        ),
        states[k].instances() == states[0].instances(),
        states[k].next_id() == states[0].next_id(),
    decreases k,
{
    if k > 0 {
        lemma_publishes_write(states, es, k - 1);
        assert(publish_step(states[k - 1], states[k], es[k - 1]));
        assert(es.take(k).drop_last() =~= es.take(k - 1));
        assert(es.take(k).last() == es[k - 1]);
    } else {
        assert(es.take(0) =~= Seq::<OnsetEvent>::empty());
    }
}

/// A reader at the write position of a session, after the events `es` are
/// published one after the other, reads exactly `es` in publish order when
/// there are at most a ring's worth, and the newest half ring when there
/// are more; either way it then stands at the new write position, and a
/// second read right after gets nothing.
pub proof fn lemma_reads_return_publishes(states: Seq<GateSession>, es: Seq<OnsetEvent>)
    requires
        states.len() == es.len() + 1,
        es.len() > 0,
        states[0].wf(),
        states[0].onset_ring().write_position() + es.len() <= u64::MAX,
        forall|i: int| 0 <= i < es.len() ==> publish_step(states[i], states[i + 1], #[trigger] es[i]),
    ensures
        ({
            let w = states[0].onset_ring().write_position();
            let last = states[es.len() as int].onset_ring();
            &&& last.write_position() == w + es.len()
            &&& w < last.write_position()
            &&& es.len() <= RING_CAPACITY ==> ring_window(
                last.slots(),
                read_start(w, last.write_position()),
                last.write_position() as int,
            ) == es
            &&& es.len() > RING_CAPACITY ==> ring_window(
                last.slots(),
                read_start(w, last.write_position()),
                last.write_position() as int,
            ) == es.skip(es.len() - RING_CAPACITY / 2)
        }),
{
    let n = es.len() as int;
    lemma_publishes_write(states, es, n);
    assert(es.take(n) =~= es);
    let w = states[0].onset_ring().write_position();
    assert(states[0].onset_ring().wf());
    if es.len() <= RING_CAPACITY {
        lemma_read_returns_writes(states[0].onset_ring().slots(), w, es);
    } else {
        lemma_lapped_reader_reads_last_half(states[0].onset_ring().slots(), w, es);
    }
}

/// Once `cleanup_session(id)` has run while the session listed under `id`
/// had no instance left, looking `id` up again makes a fresh session under
/// a new handle, and every earlier handle still designates the session it
/// designated before.
pub proof fn lemma_lookup_after_cleanup(before: Seq<EntryView>, id: Seq<char>, idx: int, after: Seq<EntryView>)
    requires
        names_unique(before),
        forall|i: int| #[trigger] is_first_named(before, id, i) ==> before[i].1.active_count_spec() == 0,
        session_lookup(before.map_values(cleaned(id)), id, idx, after),
    ensures
        idx == before.len(),
        after[idx].0 == Some(id),
        after[idx].1.is_fresh(),
        forall|i: int| 0 <= i < before.len() ==> #[trigger] after[i].1 == before[i].1,
{
    let mid = before.map_values(cleaned(id));
    assert forall|j: int| 0 <= j < mid.len() implies (#[trigger] mid[j]).0 != Some(id) by {
        assert(mid[j] == cleaned(id)(before[j]));
        if before[j].0 == Some(id) {
            assert forall|k: int| 0 <= k < j implies (#[trigger] before[k]).0 != Some(id) by {
                if before[k].0 is Some {
                    assert(before[k].0 != before[j].0);
                }
            }
            assert(is_first_named(before, id, j));
        }
    }
    assert forall|i: int| 0 <= i < before.len() implies #[trigger] after[i].1 == before[i].1 by {
        assert(after.take(idx)[i] == mid[i]);
        assert(mid[i] == cleaned(id)(before[i]));
    }
}

/// A session that an instance joined while a slot was free stays listed
/// through `cleanup_session` (as long as no one has left it since).
pub proof fn lemma_cleanup_keeps_joined_session(
    entries: Seq<EntryView>,
    id: Seq<char>,
    i: int,
    joined_from: GateSession,
    instance: u32,
)
    requires
        0 <= i < entries.len(),
        entries[i].0 == Some(id),
        joined_from.wf(),
        joined_from.active_count_spec() < MAX_INSTANCES,
        register_step(joined_from, entries[i].1, instance),
    ensures
        entries.map_values(cleaned(id))[i] == entries[i],
{
    lemma_register_count(joined_from, entries[i].1, instance);
}

} // verus!
