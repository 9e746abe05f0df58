//! Note bookkeeping for the MIDI guitar converter: note names, the active
//! note bitfield shown by the editor, the detector's note range and the
//! note-on/note-off state machine of each analysis window.

use vstd::prelude::*;

verus! {

/// Sharp-based name of a pitch class (0 = C, ... 11 = B).
pub open spec fn sharp_name_spec(pc: int) -> Seq<char> {
    if pc == 0 {
        seq!['C']
    } else if pc == 1 {
        seq!['C', '#']
    } else if pc == 2 {
        seq!['D']
    } else if pc == 3 {
        seq!['D', '#']
    } else if pc == 4 {
        seq!['E']
    } else if pc == 5 {
        seq!['F']
    } else if pc == 6 {
        seq!['F', '#']
    } else if pc == 7 {
        seq!['G']
    } else if pc == 8 {
        seq!['G', '#']
    } else if pc == 9 {
        seq!['A']
    } else if pc == 10 {
        seq!['A', '#']
    } else {
        seq!['B']
    }
}

/// The decimal digit character for `d` (0..9).
pub open spec fn digit_char(d: int) -> char {
    if d == 0 {
        '0'
    } else if d == 1 {
        '1'
    } else if d == 2 {
        '2'
    } else if d == 3 {
        '3'
    } else if d == 4 {
        '4'
    } else if d == 5 {
        '5'
    } else if d == 6 {
        '6'
    } else if d == 7 {
        '7'
    } else if d == 8 {
        '8'
    } else {
        '9'
    }
}

/// Decimal representation of a natural number.
pub open spec fn decimal(n: nat) -> Seq<char>
    decreases n,
{
    if n < 10 {
        seq![digit_char(n as int)]
    } else {
        decimal(n / 10).push(digit_char((n % 10) as int))
    }
}

/// Decimal representation of the octave number `note / 12 - 1`.
pub open spec fn octave_text(note: nat) -> Seq<char> {
    if note < 12 {
        seq!['-', '1']
    } else {
        decimal((note / 12 - 1) as nat)
    }
}

/// Name of a MIDI note with its octave, e.g. 69 -> "A4".
pub open spec fn note_name_spec(note: nat) -> Seq<char> {
    sharp_name_spec((note % 12) as int) + octave_text(note)
}

fn sharp_name(pc: u8) -> (s: &'static str)
    requires
        pc < 12,
    ensures
        s@ == sharp_name_spec(pc as int),
{
    match pc {
        0 => {
            proof { reveal_strlit("C"); }
            "C"
        },
        1 => {
            proof { reveal_strlit("C#"); }
            "C#"
        },
        2 => {
            proof { reveal_strlit("D"); }
            "D"
        },
        3 => {
            proof { reveal_strlit("D#"); }
            "D#"
        },
        4 => {
            proof { reveal_strlit("E"); }
            "E"
        },
        5 => {
            proof { reveal_strlit("F"); }
            "F"
        },
        6 => {
            proof { reveal_strlit("F#"); }
            "F#"
        },
        7 => {
            proof { reveal_strlit("G"); }
            "G"
        },
        8 => {
            proof { reveal_strlit("G#"); }
            "G#"
        },
        9 => {
            proof { reveal_strlit("A"); }
            "A"
        },
        10 => {
            proof { reveal_strlit("A#"); }
            "A#"
        },
        _ => {
            proof { reveal_strlit("B"); }
            "B"
        },
    }
}

fn digit_str(d: u8) -> (s: &'static str)
    requires
        d < 10,
    ensures
        s@ == seq![digit_char(d as int)],
{
    match d {
        0 => {
            proof { reveal_strlit("0"); }
            "0"
        },
        1 => {
            proof { reveal_strlit("1"); }
            "1"
        },
        2 => {
            proof { reveal_strlit("2"); }
            "2"
        },
        3 => {
            proof { reveal_strlit("3"); }
            "3"
        },
        4 => {
            proof { reveal_strlit("4"); }
            "4"
        },
        5 => {
            proof { reveal_strlit("5"); }
            "5"
        },
        6 => {
            proof { reveal_strlit("6"); }
            "6"
        },
        7 => {
            proof { reveal_strlit("7"); }
            "7"
        },
        8 => {
            proof { reveal_strlit("8"); }
            "8"
        },
        _ => {
            proof { reveal_strlit("9"); }
            "9"
        },
    }
}

/// Append the decimal representation of `n` (below 100) to `out`.
fn append_decimal(out: &mut String, n: u8)
    requires
        n < 100,
    ensures
        final(out)@ == old(out)@ + decimal(n as nat),
{
    if n >= 10 {
        out.append(digit_str(n / 10));
        out.append(digit_str(n % 10));
        let ghost q: nat = (n / 10) as nat;
        assert(decimal(q) == seq![digit_char(q as int)]);
        assert(decimal(n as nat) == decimal(q).push(digit_char((n % 10) as int)));
        assert(decimal(n as nat) =~= seq![digit_char((n / 10) as int)].push(digit_char((n % 10) as int)));
    } else {
        out.append(digit_str(n));
    }
}

/// Append the name of MIDI note `note` to `out`.
fn append_note_name(out: &mut String, note: u8)
    ensures
        final(out)@ == old(out)@ + note_name_spec(note as nat),
{
    out.append(sharp_name(note % 12));
    if note < 12 {
        proof { reveal_strlit("-1"); }
        out.append("-1");
    } else {
        append_decimal(out, note / 12 - 1);
    }
    assert(final(out)@ =~= old(out)@ + note_name_spec(note as nat));
}

/// Convert MIDI note number to name (e.g. 69 -> "A4").
pub fn midi_note_name(note: u8) -> (name: String)
    ensures
        name@ == note_name_spec(note as nat),
{
    let mut s = String::new();
    append_note_name(&mut s, note);
    assert(s@ =~= note_name_spec(note as nat));
    s
}

/// Whether note `n` (0..127) is set in the two-word note bitfield.
pub open spec fn note_bit_set(lo: u64, hi: u64, n: int) -> bool {
    if n < 64 {
        lo & (1u64 << (n as u64)) != 0
    } else {
        hi & (1u64 << ((n - 64) as u64)) != 0
    }
}

/// The notes below `k` that are set in the bitfield, ascending.
pub open spec fn active_list(lo: u64, hi: u64, k: int) -> Seq<nat>
    decreases k,
{
    if k <= 0 {
        Seq::empty()
    } else {
        let prev = active_list(lo, hi, k - 1);
        if note_bit_set(lo, hi, k - 1) {
            prev.push((k - 1) as nat)
        } else {
            prev
        }
    }
}

/// The names of `notes`, separated by single spaces.
pub open spec fn joined_names(notes: Seq<nat>) -> Seq<char>
    decreases notes.len(),
{
    if notes.len() == 0 {
        Seq::empty()
    } else if notes.len() == 1 {
        note_name_spec(notes[0])
    } else {
        joined_names(notes.drop_last()) + seq![' '] + note_name_spec(notes.last())
    }
}

/// The editor's text for a note bitfield: the active notes' names, or a
/// dash when none is active.
pub open spec fn active_notes_text(lo: u64, hi: u64) -> Seq<char> {
    let notes = active_list(lo, hi, 128);
    if notes.len() == 0 {
        seq!['\u{2014}']
    } else {
        joined_names(notes)
    }
}

/// Format active MIDI notes as a string like "E2 A2 D3".
pub fn format_active_notes(lo: u64, hi: u64) -> (text: String)
    ensures
        text@ == active_notes_text(lo, hi),
{
    let mut s = String::new();
    let mut first = true;
    let mut bit: u8 = 0;
    while bit < 128
        invariant
            bit <= 128,
            s@ == joined_names(active_list(lo, hi, bit as int)),
            first <==> active_list(lo, hi, bit as int).len() == 0,
        decreases 128 - bit,
    {
        let set = if bit < 64 {
            lo & (1u64 << bit) != 0
        } else {
            hi & (1u64 << (bit - 64)) != 0
        };
        assert(set == note_bit_set(lo, hi, bit as int));
        if set {
            let ghost prev = active_list(lo, hi, bit as int);
            let ghost next = active_list(lo, hi, bit + 1);
            assert(next == prev.push(bit as nat));
            assert(next.drop_last() =~= prev);
            if !first {
                proof { reveal_strlit(" "); }
                s.append(" ");
            }
            append_note_name(&mut s, bit);
            proof {
                if prev.len() > 0 {
                    assert(joined_names(next) == joined_names(prev) + seq![' '] + note_name_spec(bit as nat));
                } else {
                    assert(joined_names(prev) =~= Seq::<char>::empty());
                }
            }
            assert(s@ =~= joined_names(next));
            first = false;
        }
        bit += 1;
    }
    if first {
        proof { reveal_strlit("\u{2014}"); }
        return String::from_str("\u{2014}");
    }
    s
}

/// Number of `true` entries among the first `n`.
pub open spec fn count_true(s: Seq<bool>, n: int) -> nat
    decreases n,
{
    if n <= 0 {
        0
    } else {
        count_true(s, n - 1) + if s[n - 1] {
            1nat
        } else {
            0nat
        }
    }
}

proof fn lemma_or_bit(x: u64, a: u64, m: u64)
    requires
        a < 64,
        m < 64,
    ensures
        ((x | (1u64 << a)) & (1u64 << m) != 0) == ((x & (1u64 << m) != 0) || m == a),
{
    assert(((x | (1u64 << a)) & (1u64 << m) != 0) == ((x & (1u64 << m) != 0) || m == a))
        by (bit_vector)
        requires
            a < 64,
            m < 64,
    ;
}

proof fn lemma_zero_bits(m: u64)
    requires
        m < 64,
    ensures
        0u64 & (1u64 << m) == 0,
{
    assert(0u64 & (1u64 << m) == 0) by (bit_vector);
}

/// Build the editor's note bitfield from the detector's per-bin note state:
/// bit `n` of the 128 is set when some active bin plays note `n`.  Also
/// returns the number of active bins.
pub fn active_note_bits(active: &Vec<bool>, note_map: &Vec<u8>) -> (r: (u64, u64, u32))
    requires
        active@.len() <= note_map@.len(),
        active@.len() <= u32::MAX,
        forall|i: int| 0 <= i < active@.len() && active@[i] ==> note_map@[i] < 128,
    ensures
        forall|n: int|
            0 <= n < 128 ==> (note_bit_set(r.0, r.1, n) <==> exists|i: int|
                0 <= i < active@.len() && active@[i] && note_map@[i] == n),
        r.2 == count_true(active@, active@.len() as int),
{
    let mut lo: u64 = 0;
    let mut hi: u64 = 0;
    let mut count: u32 = 0;
    let mut i: usize = 0;
    proof {
        assert forall|n: int| 0 <= n < 128 implies !note_bit_set(lo, hi, n) by {
            if n < 64 {
                lemma_zero_bits(n as u64);
            } else {
                lemma_zero_bits((n - 64) as u64);
            }
        }
    }
    while i < active.len()
        invariant
            i <= active@.len(),
            active@.len() <= note_map@.len(),
            active@.len() <= u32::MAX,
            forall|k: int| 0 <= k < active@.len() && active@[k] ==> note_map@[k] < 128,
            forall|n: int|
                0 <= n < 128 ==> (note_bit_set(lo, hi, n) <==> exists|k: int|
                    0 <= k < i && active@[k] && note_map@[k] == n),
            count == count_true(active@, i as int),
            count <= i,
        decreases active@.len() - i,
    {
        if active[i] {
            let note = note_map[i];
            let ghost lo0 = lo;
            let ghost hi0 = hi;
            if note < 64 {
                lo = lo | (1u64 << note);
            } else {
                hi = hi | (1u64 << (note - 64));
            }
            count += 1;
            proof {
                assert forall|n: int| 0 <= n < 128 implies (note_bit_set(lo, hi, n) <==> exists|k: int|
                    0 <= k < i + 1 && active@[k] && note_map@[k] == n) by {
                    if n < 64 && note < 64 {
                        lemma_or_bit(lo0, note as u64, n as u64);
                    } else if n >= 64 && note >= 64 {
                        lemma_or_bit(hi0, (note - 64) as u64, (n - 64) as u64);
                    }
                    if note_bit_set(lo0, hi0, n) {
                        let k = choose|k: int| 0 <= k < i && active@[k] && note_map@[k] == n;
                        assert(0 <= k < i + 1 && active@[k] && note_map@[k] == n);
                    }
                    if n == note {
                        assert(active@[i as int] && note_map@[i as int] == n);
                    }
                }
            }
        }
        i += 1;
    }
    (lo, hi, count)
}

/// Every note set in the bitfield, and only those, appear in
/// `active_list`, in strictly ascending order.
pub proof fn lemma_active_list_exact(lo: u64, hi: u64, k: int)
    requires
        0 <= k <= 128,
    ensures
        forall|n: nat| #[trigger] active_list(lo, hi, k).contains(n) <==> (n < k && note_bit_set(lo, hi, n as int)),
        forall|a: int, b: int|
            0 <= a < b < active_list(lo, hi, k).len() ==> active_list(lo, hi, k)[a] < active_list(lo, hi, k)[b],
        forall|a: int| 0 <= a < active_list(lo, hi, k).len() ==> active_list(lo, hi, k)[a] < k,
    decreases k,
{
    if k > 0 {
        lemma_active_list_exact(lo, hi, k - 1);
        let prev = active_list(lo, hi, k - 1);
        if note_bit_set(lo, hi, k - 1) {
            let next = prev.push((k - 1) as nat);
            assert forall|n: nat| #[trigger] next.contains(n) <==> (n < k && note_bit_set(lo, hi, n as int)) by {
                if n == k - 1 {
                    assert(next[prev.len() as int] == n);
                }
                if next.contains(n) && n != k - 1 {
                    let j = choose|j: int| 0 <= j < next.len() && next[j] == n;
                    assert(prev.contains(n)) by {
                        assert(prev[j] == n);
                    }
                }
                if prev.contains(n) {
                    let j = choose|j: int| 0 <= j < prev.len() && prev[j] == n;
                    assert(next[j] == n);
                }
            }
        }
    }
}

/// Clamp a requested note range to MIDI: low at most 127, high between low
/// and 127.
pub fn note_range_for(low: u8, high: u8) -> (r: (u8, u8))
    ensures
        r.0 == if low > 127 { 127 } else { low },
        r.1 == if high < r.0 { r.0 } else if high > 127 { 127 } else { high },
        r.0 <= r.1 <= 127,
{
    let low = if low > 127 { 127 } else { low };
    let high = if high < low { low } else if high > 127 { 127 } else { high };
    (low, high)
}

/// The MIDI notes of the detector's bins: one per semitone from `low` to `high`.
pub fn note_map_for_range(low: u8, high: u8) -> (map: Vec<u8>)
    requires
        low <= high,
    ensures
        map@.len() == high - low + 1,
        forall|i: int| 0 <= i < map@.len() ==> map@[i] == low + i,
{
    let mut map: Vec<u8> = Vec::new();
    let mut note: u8 = low;
    loop
        invariant
            low <= note <= high,
            map@.len() == note - low,
            forall|i: int| 0 <= i < map@.len() ==> map@[i] == low + i,
        decreases high - note,
    {
        map.push(note);
        if note == high {
            return map;
        }
        note += 1;
    }
}

/// A note-on or note-off decided by the detector for one analysis window.
#[derive(Debug, Clone, Copy, PartialEq, Eq, Structural)]
pub struct NoteChange {
    /// MIDI note number.
    pub note: u8,
    /// `true` for note-on, `false` for note-off.
    pub is_on: bool,
}

/// The note changes for bins `0..n`, in bin order: a silent bin whose
/// energy triggers starts its note, a sounding bin whose energy fell to the
/// release level stops it.
pub open spec fn note_changes(
    active: Seq<bool>,
    note_map: Seq<u8>,
    trigger: Seq<bool>,
    release: Seq<bool>,
    n: int,
) -> Seq<NoteChange>
    decreases n,
{
    if n <= 0 {
        Seq::empty()
    } else {
        let prev = note_changes(active, note_map, trigger, release, n - 1);
        let i = n - 1;
        if !active[i] && trigger[i] {
            prev.push(NoteChange { note: note_map[i], is_on: true })
        } else if active[i] && release[i] {
            prev.push(NoteChange { note: note_map[i], is_on: false })
        } else {
            prev
        }
    }
}

/// The per-bin note state after one analysis window.
pub open spec fn next_active(active: Seq<bool>, trigger: Seq<bool>, release: Seq<bool>) -> Seq<bool> {
    Seq::new(
        active.len(),
        |i: int|
            if !active[i] {
                trigger[i]
            } else {
                !release[i]
            },
    )
}

/// Apply one analysis window to the per-bin note state.  `trigger[i]` says
/// bin `i` is loud enough (and a peak) to start a note, `release[i]` that
/// it fell to the note-off level.  Returns the note changes in bin order.
pub fn update_note_states(
    active: &mut Vec<bool>,
    note_map: &Vec<u8>,
    trigger: &Vec<bool>,
    release: &Vec<bool>,
) -> (changes: Vec<NoteChange>)
    requires
        note_map@.len() == old(active)@.len(),
        trigger@.len() == old(active)@.len(),
        release@.len() == old(active)@.len(),
    ensures
        final(active)@ == next_active(old(active)@, trigger@, release@),
        changes@ == note_changes(
            old(active)@,
            note_map@,
            trigger@,
            release@,
            old(active)@.len() as int,
        ),
{
    let ghost before = active@;
    let mut changes: Vec<NoteChange> = Vec::new();
    let mut i: usize = 0;
    while i < active.len()
        invariant
            i <= active@.len(),
            active@.len() == before.len(),
            note_map@.len() == before.len(),
            trigger@.len() == before.len(),
            release@.len() == before.len(),
            forall|k: int| 0 <= k < i ==> active@[k] == next_active(before, trigger@, release@)[k],
            forall|k: int| i <= k < before.len() ==> active@[k] == before[k],
            changes@ == note_changes(before, note_map@, trigger@, release@, i as int),
        decreases before.len() - i,
    {
        let was_on = active[i];
        if !was_on {
            if trigger[i] {
                active.set(i, true);
                changes.push(NoteChange { note: note_map[i], is_on: true });
            }
        } else if release[i] {
            active.set(i, false);
            changes.push(NoteChange { note: note_map[i], is_on: false });
        }
        i += 1;
    }
    assert(active@ =~= next_active(before, trigger@, release@));
    changes
}

/// Bin `i` changes state in the window.
pub open spec fn flips(active: Seq<bool>, trigger: Seq<bool>, release: Seq<bool>, i: int) -> bool {
    next_active(active, trigger, release)[i] != active[i]
}

/// The bins below `n` that change state, in bin order.
pub open spec fn flipped_bins(active: Seq<bool>, trigger: Seq<bool>, release: Seq<bool>, n: int) -> Seq<int> {
    Seq::new(n as nat, |i: int| i).filter(|i: int| flips(active, trigger, release, i))
}

/// One window's note changes are exactly the bins whose state flips, in
/// bin order: a silent bin turns on exactly when it triggers, a sounding
/// bin turns off exactly when it releases, and each flip is reported once,
/// as a note-on for a bin that turned on and a note-off for one that
/// turned off, with the bin's note.
pub proof fn lemma_note_changes_are_flips(
    active: Seq<bool>,
    note_map: Seq<u8>,
    trigger: Seq<bool>,
    release: Seq<bool>,
    n: int,
)
    requires
        0 <= n <= active.len(),
        trigger.len() == active.len(),
        release.len() == active.len(),
    ensures
        forall|i: int|
            0 <= i < active.len() ==> (#[trigger] next_active(active, trigger, release)[i] == if active[i] {
                !release[i]
            } else {
                trigger[i]
            }),
        note_changes(active, note_map, trigger, release, n) == flipped_bins(active, trigger, release, n).map_values(
            |i: int| NoteChange { note: note_map[i], is_on: !active[i] },
        ),
    decreases n,
{
    let f = |i: int| NoteChange { note: note_map[i], is_on: !active[i] };
    let p = |i: int| flips(active, trigger, release, i);
    if n == 0 {
        reveal(Seq::filter);
        assert(Seq::new(0nat, |i: int| i) =~= Seq::<int>::empty());
        assert(flipped_bins(active, trigger, release, 0).map_values(f) =~= Seq::<NoteChange>::empty());
    } else {
        lemma_note_changes_are_flips(active, note_map, trigger, release, n - 1);
        let r0 = Seq::new((n - 1) as nat, |i: int| i);
        let r1 = Seq::new(n as nat, |i: int| i);
        assert(r1 =~= r0.push(n - 1));
        r0.lemma_filter_push(n - 1, p);
        let fb0 = flipped_bins(active, trigger, release, n - 1);
        if p(n - 1) {
            assert(fb0.push(n - 1).map_values(f) =~= fb0.map_values(f).push(f(n - 1)));
        }
    }
}

/// Semitone distances of harmonics 2 to 6 (and the third octave) from
/// their fundamental: 12, 19, 24, 28, 31, 36.
pub open spec fn harmonic_offsets() -> Seq<int> {
    seq![12int, 19, 24, 28, 31, 36]
}

/// The detector bins (bin 0 playing `low`) of the harmonics of `note` among
/// the first `k` harmonic offsets that fall inside `low..=high`, in offset
/// order.
pub open spec fn harmonic_bins_spec(note: u8, low: u8, high: u8, k: int) -> Seq<usize>
    decreases k,
{
    if k <= 0 {
        Seq::empty()
    } else {
        let prev = harmonic_bins_spec(note, low, high, k - 1);
        let h = note + harmonic_offsets()[k - 1];
        if low <= h <= high {
            prev.push((h - low) as usize)
        } else {
            prev
        }
    }
}

/// The bins that harmonic suppression damps for a fundamental `note`.
pub fn harmonic_bins(note: u8, low: u8, high: u8) -> (bins: Vec<usize>)
    ensures
        bins@ == harmonic_bins_spec(note, low, high, 6),
{
    let offsets: [u16; 6] = [12, 19, 24, 28, 31, 36];
    let mut bins: Vec<usize> = Vec::new();
    let mut k: usize = 0;
    while k < 6
        invariant
            k <= 6,
            forall|j: int| 0 <= j < 6 ==> offsets@[j] as int == harmonic_offsets()[j],
            bins@ == harmonic_bins_spec(note, low, high, k as int),
        decreases 6 - k,
    {
        let h: u16 = note as u16 + offsets[k];
        if low as u16 <= h && h <= high as u16 {
            bins.push((h - low as u16) as usize);
        }
        k += 1;
    }
    bins
}

/// Sample counter of the detector's analysis windows.
pub struct WindowClock {
    counter: usize,
    size: usize,
}

/// The counter after `k` samples from `counter` with windows of `size`.
pub open spec fn clock_after(counter: int, size: int, k: nat) -> int
    decreases k,
{
    if k == 0 {
        counter
    } else {
        let c = clock_after(counter, size, (k - 1) as nat);
        if c + 1 >= size {
            0
        } else {
            c + 1
        }
    }
}

impl WindowClock {
    /// Samples counted in the current window.
    pub closed spec fn count(&self) -> int {
        self.counter as int
    }

    /// Window length in samples.
    pub closed spec fn window(&self) -> int {
        self.size as int
    }

    /// Windows are at least one sample long and the counter can advance.
    pub closed spec fn wf(&self) -> bool {
        self.size >= 1 && self.counter < usize::MAX
    }

    /// A clock for windows of `size` samples (at least one).
    pub fn new(size: usize) -> (c: Self)
        ensures
            c.wf(),
            c.count() == 0,
            c.window() == if size == 0 { 1 } else { size as int },
    {
        WindowClock { counter: 0, size: if size == 0 { 1 } else { size } }
    }

    /// Change the window length (at least one sample); the current count stays.
    pub fn set_size(&mut self, size: usize)
        requires
            old(self).wf(),
        ensures
            final(self).wf(),
            final(self).count() == old(self).count(),
            final(self).window() == if size == 0 { 1 } else { size as int },
    {
        self.size = if size == 0 { 1 } else { size };
    }

    /// Count one sample; returns whether it completes a window, and then
    /// starts the next one.
    pub fn tick(&mut self) -> (done: bool)
        requires
            old(self).wf(),
        ensures
            final(self).wf(),
            final(self).window() == old(self).window(),
            done == (old(self).count() + 1 >= old(self).window()),
            final(self).count() == clock_after(old(self).count(), old(self).window(), 1),
    {
        proof {
            reveal_with_fuel(clock_after, 2);
        }
        self.counter = self.counter + 1;
        if self.counter >= self.size {
            self.counter = 0;
            true
        } else {
            false
        }
    }

    /// Start a fresh window.
    pub fn reset(&mut self)
        requires
            old(self).wf(),
        ensures
            final(self).wf(),
            final(self).count() == 0,
            final(self).window() == old(self).window(),
    {
        self.counter = 0;
    }
}

proof fn lemma_mod_succ(a: int, size: int)
    requires
        a >= 0,
        size >= 1,
    ensures
        a % size + 1 >= size ==> (a + 1) % size == 0,
        a % size + 1 < size ==> (a + 1) % size == a % size + 1,
{
    let q: int = a / size;
    let r: int = a % size;
    vstd::arithmetic::div_mod::lemma_fundamental_div_mod(a, size);
    if r + 1 < size {
        vstd::arithmetic::div_mod::lemma_fundamental_div_mod_converse(a + 1, size, q, r + 1);
    } else {
        assert(a + 1 == (q + 1) * size + 0) by (nonlinear_arith)
            requires
                a == size * q + r,
                r + 1 == size,
        ;
        vstd::arithmetic::div_mod::lemma_fundamental_div_mod_converse(a + 1, size, q + 1, 0);
    }
}

/// From the start of a window, the clock has counted `k % size` samples
/// after `k` samples: a window completes on every `size`-th sample and on
/// no other.
pub proof fn lemma_window_clock_period(size: int, k: nat)
    requires
        size >= 1,
    ensures
        clock_after(0, size, k) == (k as int) % size,
        (clock_after(0, size, k) + 1 >= size) <==> ((k as int + 1) % size == 0),
    decreases k,
{
    if k > 0 {
        lemma_window_clock_period(size, (k - 1) as nat);
        lemma_mod_succ(k - 1, size);
    }
    lemma_mod_succ(k as int, size);
}

} // verus!
