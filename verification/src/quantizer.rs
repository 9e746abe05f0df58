//! Scale selection for the pitch corrector: which pitch classes are snap
//! targets, and which enabled pitch class lies nearest to a detected note.

use vstd::prelude::*;

verus! {

/// Musical scale type.
#[derive(Debug, Clone, Copy, PartialEq, Eq, Structural)]
pub enum Scale {
    /// All 12 semitones enabled.
    Chromatic,
    /// Major scale (W-W-H-W-W-W-H).
    Major,
    /// Natural minor scale (W-H-W-W-H-W-W).
    Minor,
    /// Major pentatonic (5 notes).
    MajorPentatonic,
    /// Minor pentatonic (5 notes).
    MinorPentatonic,
    /// Blues scale (minor pentatonic + b5).
    Blues,
    /// Custom per-note selection.
    Custom,
}

/// Per-note state: whether this pitch class is a snap target.
#[derive(Debug, Clone, Copy, PartialEq, Eq, Structural)]
pub enum NoteState {
    /// Note is disabled — skipped during quantization.
    Disabled,
    /// Note is enabled — included as a snap target.
    Enabled,
}

/// Key root (0 = C, 1 = C#, ... 11 = B).
pub type Key = u8;

/// Semitone offsets from the root that a (non-custom) scale contains.
pub open spec fn scale_intervals_spec(scale: Scale) -> Seq<u8> {
    match scale {
        Scale::Chromatic => seq![0u8, 1, 2, 3, 4, 5, 6, 7, 8, 9, 10, 11],
        Scale::Major => seq![0u8, 2, 4, 5, 7, 9, 11],
        Scale::Minor => seq![0u8, 2, 3, 5, 7, 8, 10],
        Scale::MajorPentatonic => seq![0u8, 2, 4, 7, 9],
        Scale::MinorPentatonic => seq![0u8, 3, 5, 7, 10],
        Scale::Blues => seq![0u8, 3, 5, 6, 7, 10],
        Scale::Custom => Seq::empty(),
    }
}

/// The largest interval of a scale: `key + interval` must fit in a byte.
pub open spec fn scale_max_interval(scale: Scale) -> int {
    match scale {
        Scale::Chromatic => 11,
        Scale::Major => 11,
        Scale::Minor => 10,
        Scale::MajorPentatonic => 9,
        Scale::MinorPentatonic => 10,
        Scale::Blues => 10,
        Scale::Custom => 0,
    }
}

/// Whether pitch class `pc` is a degree of `scale` rooted at `key`.
pub open spec fn in_scale(key: Key, scale: Scale, pc: int) -> bool {
    exists|j: int|
        0 <= j < scale_intervals_spec(scale).len() && (key + #[trigger] scale_intervals_spec(
            scale,
        )[j]) % 12 == pc
}

/// The note table that a (non-custom) scale rooted at `key` selects.
pub open spec fn scale_notes_spec(key: Key, scale: Scale) -> Seq<NoteState> {
    Seq::new(
        12,
        |pc: int|
            if in_scale(key, scale, pc) {
                NoteState::Enabled
            } else {
                NoteState::Disabled
            },
    )
}

/// Whether `d` semitones above the root is a degree of `scale`:
/// Chromatic every semitone;
/// Major W-W-H-W-W-W-H: 0 2 4 5 7 9 11;
/// Minor natural minor, W-H-W-W-H-W-W: 0 2 3 5 7 8 10;
/// MajorPentatonic 0 2 4 7 9;
/// MinorPentatonic 0 3 5 7 10;
/// Blues minor pentatonic with the flat fifth: 0 3 5 6 7 10;
/// a custom scale has no fixed degrees.
pub open spec fn is_scale_degree(scale: Scale, d: int) -> bool {
    match scale {
        Scale::Chromatic => 0 <= d < 12,
        Scale::Major => d == 0 || d == 2 || d == 4 || d == 5 || d == 7 || d == 9 || d == 11,
        Scale::Minor => d == 0 || d == 2 || d == 3 || d == 5 || d == 7 || d == 8 || d == 10,
        Scale::MajorPentatonic => d == 0 || d == 2 || d == 4 || d == 7 || d == 9,
        Scale::MinorPentatonic => d == 0 || d == 3 || d == 5 || d == 7 || d == 10,
        Scale::Blues => d == 0 || d == 3 || d == 5 || d == 6 || d == 7 || d == 10,
        Scale::Custom => false,
    }
}

proof fn lemma_pc_offset(key: int, i: int, pc: int)
    requires
        0 <= key,
        0 <= i < 12,
        0 <= pc < 12,
    ensures
        ((key + i) % 12 == pc) <==> ((pc - key) % 12 == i),
{
    let q1 = (key + i) / 12;
    let q2 = (pc - key) / 12;
    vstd::arithmetic::div_mod::lemma_fundamental_div_mod(key + i, 12);
    vstd::arithmetic::div_mod::lemma_fundamental_div_mod(pc - key, 12);
    if (key + i) % 12 == pc {
        vstd::arithmetic::div_mod::lemma_fundamental_div_mod_converse(pc - key, 12, -q1, i);
    }
    if (pc - key) % 12 == i {
        vstd::arithmetic::div_mod::lemma_fundamental_div_mod_converse(key + i, 12, -q2, pc);
    }
}

/// The pitch classes that `apply_scale` enables are exactly the scale's
/// degrees counted from the key: pitch class `pc` is enabled when it lies
/// a degree of the scale above the key, modulo the octave.
pub proof fn lemma_scale_notes_are_degrees(key: Key, scale: Scale, pc: int)
    requires
        scale != Scale::Custom,
        0 <= pc < 12,
    ensures
        (scale_notes_spec(key, scale)[pc] == NoteState::Enabled) <==> is_scale_degree(scale, (pc - key) % 12),
{
    let iv = scale_intervals_spec(scale);
    let d = (pc - key) % 12;
    match scale {
        Scale::Chromatic => {
            assert(iv.len() == 12);
            assert(iv[0] == 0);
            assert(iv[1] == 1);
            assert(iv[2] == 2);
            assert(iv[3] == 3);
            assert(iv[4] == 4);
            assert(iv[5] == 5);
            assert(iv[6] == 6);
            assert(iv[7] == 7);
            assert(iv[8] == 8);
            assert(iv[9] == 9);
            assert(iv[10] == 10);
            assert(iv[11] == 11);
        },
        Scale::Major => {
            assert(iv.len() == 7);
            assert(iv[0] == 0);
            assert(iv[1] == 2);
            assert(iv[2] == 4);
            assert(iv[3] == 5);
            assert(iv[4] == 7);
            assert(iv[5] == 9);
            assert(iv[6] == 11);
        },
        Scale::Minor => {
            assert(iv.len() == 7);
            assert(iv[0] == 0);
            assert(iv[1] == 2);
            assert(iv[2] == 3);
            assert(iv[3] == 5);
            assert(iv[4] == 7);
            assert(iv[5] == 8);
            assert(iv[6] == 10);
        },
        Scale::MajorPentatonic => {
            assert(iv.len() == 5);
            assert(iv[0] == 0);
            assert(iv[1] == 2);
            assert(iv[2] == 4);
            assert(iv[3] == 7);
            assert(iv[4] == 9);
        },
        Scale::MinorPentatonic => {
            assert(iv.len() == 5);
            assert(iv[0] == 0);
            assert(iv[1] == 3);
            assert(iv[2] == 5);
            assert(iv[3] == 7);
            assert(iv[4] == 10);
        },
        Scale::Blues => {
            assert(iv.len() == 6);
            assert(iv[0] == 0);
            assert(iv[1] == 3);
            assert(iv[2] == 5);
            assert(iv[3] == 6);
            assert(iv[4] == 7);
            assert(iv[5] == 10);
        },
        Scale::Custom => {},
    }
    assert forall|j: int| 0 <= j < iv.len() implies (((key + #[trigger] iv[j]) % 12 == pc) <==> d == iv[j]) by {
        lemma_pc_offset(key as int, iv[j] as int, pc);
    }
    if is_scale_degree(scale, d) {
        assert(0 <= d < 12);
        assert(exists|j: int| 0 <= j < iv.len() && #[trigger] iv[j] == d);
        let j = choose|j: int| 0 <= j < iv.len() && #[trigger] iv[j] == d;
        assert((key + iv[j]) % 12 == pc);
        assert(in_scale(key, scale, pc));
    }
    if in_scale(key, scale, pc) {
        let j = choose|j: int| 0 <= j < iv.len() && (key + #[trigger] iv[j]) % 12 == pc;
        assert(d == iv[j]);
    }
}


/// Absolute value of an integer.
pub open spec fn abs_int(x: int) -> int {
    if x < 0 {
        -x
    } else {
        x
    }
}

/// Whether pitch class `pc` (taken modulo 12) is enabled in a note table.
pub open spec fn pc_enabled(notes: Seq<NoteState>, pc: int) -> bool {
    notes[pc % 12] == NoteState::Enabled
}

/// Number of enabled entries among the first `n` of a note table.
pub open spec fn count_enabled(notes: Seq<NoteState>, n: nat) -> nat
    decreases n,
{
    if n == 0 {
        0
    } else {
        count_enabled(notes, (n - 1) as nat) + if notes[n - 1] == NoteState::Enabled {
            1nat
        } else {
            0nat
        }
    }
}

/// What `nearest_enabled_offset` answers: the signed semitone offset from
/// `pc` to the nearest enabled pitch class, preferring the upward one on a tie
/// exactly when `prefer_up`; `None` only when no pitch class is enabled.
pub open spec fn is_nearest_offset(
    notes: Seq<NoteState>,
    pc: int,
    prefer_up: bool,
    r: Option<i8>,
) -> bool {
    match r {
        None => forall|k: int| 0 <= k < 12 ==> notes[k] == NoteState::Disabled,
        Some(o) => {
            &&& -6 <= o <= 6
            &&& pc_enabled(notes, pc + o)
            &&& forall|o2: int|
                #![trigger pc_enabled(notes, pc + o2)]
                -6 <= o2 <= 6 && abs_int(o2) < abs_int(o as int)
                    ==> !pc_enabled(notes, pc + o2)
            &&& (o != 0 && pc_enabled(notes, pc - o)) ==> (o > 0 <==> prefer_up)
        },
    }
}

/// Shifting a value congruent to `pc` by `d` semitones either way lands on
/// the pitch class that the wrapped byte arithmetic computes.
proof fn lemma_mod12_shift(p: int, pc: int, d: int)
    requires
        0 <= pc < 12,
        p % 12 == pc,
        0 <= d <= 12,
    ensures
        (p + d) % 12 == (pc + d) % 12,
        (p - d) % 12 == (pc + 12 - d) % 12,
{
    let q = p / 12;
    assert(p == 12 * q + pc);
    vstd::arithmetic::div_mod::lemma_mod_multiples_vanish(q, pc + d, 12);
    vstd::arithmetic::div_mod::lemma_mod_multiples_vanish(q - 1, pc + 12 - d, 12);
    assert(12 * (q - 1) + (pc + 12 - d) == p - d) by (nonlinear_arith)
        requires
            p == 12 * q + pc,
    ;
}

/// Scale quantizer state: key, scale and per-note enable table.
pub struct ScaleQuantizer {
    /// Root key (0 = C, 1 = C#, ... 11 = B).
    pub key: Key,
    /// Scale type.
    pub scale: Scale,
    /// Per-note enable/disable (indexed by pitch class 0–11, C=0).
    pub notes: [NoteState; 12],
}

fn scale_intervals(scale: Scale) -> (iv: Vec<u8>)
    ensures
        iv@ == scale_intervals_spec(scale),
{
    match scale {
        Scale::Chromatic => vec![0u8, 1, 2, 3, 4, 5, 6, 7, 8, 9, 10, 11],
        Scale::Major => vec![0u8, 2, 4, 5, 7, 9, 11],
        Scale::Minor => vec![0u8, 2, 3, 5, 7, 8, 10],
        Scale::MajorPentatonic => vec![0u8, 2, 4, 7, 9],
        Scale::MinorPentatonic => vec![0u8, 3, 5, 7, 10],
        Scale::Blues => vec![0u8, 3, 5, 6, 7, 10],
        Scale::Custom => Vec::new(),
    }
}

impl ScaleQuantizer {
    /// C chromatic with every note enabled.
    pub fn new() -> (q: Self)
        ensures
            q.key == 0,
            q.scale == Scale::Chromatic,
            forall|k: int| 0 <= k < 12 ==> q.notes@[k] == NoteState::Enabled,
    {
        ScaleQuantizer { key: 0, scale: Scale::Chromatic, notes: [NoteState::Enabled; 12] }
    }

    /// Whether every degree of the scale, `key + interval`, fits in a byte,
    /// as `apply_scale` needs.
    pub fn scale_fits(&self) -> (b: bool)
        ensures
            b == (self.key + scale_max_interval(self.scale) <= 255),
    {
        let widest: u8 = match self.scale {
            Scale::Chromatic | Scale::Major => 11,
            Scale::Minor | Scale::MinorPentatonic | Scale::Blues => 10,
            Scale::MajorPentatonic => 9,
            Scale::Custom => 0,
        };
        self.key <= 255 - widest
    }

    /// Build the notes array from the current key + scale; a custom scale
    /// leaves the notes as the user set them.
    pub fn apply_scale(&mut self)
        requires
            old(self).key + scale_max_interval(old(self).scale) <= 255,
        ensures
            final(self).key == old(self).key,
            final(self).scale == old(self).scale,
            old(self).scale == Scale::Custom ==> final(self).notes == old(self).notes,
            old(self).scale != Scale::Custom ==> final(self).notes@ == scale_notes_spec(
                old(self).key,
                old(self).scale,
            ),
    {
        if self.scale == Scale::Custom {
            return;
        }
        let intervals = scale_intervals(self.scale);
        let mut notes = [NoteState::Disabled;12];
        let key = self.key;
        let ghost scale = self.scale;
        assert(forall|j: int|
            0 <= j < intervals@.len() ==> intervals@[j] <= scale_max_interval(scale));
        let mut j: usize = 0;
        while j < intervals.len()
            invariant
                j <= intervals@.len(),
                intervals@ == scale_intervals_spec(scale),
                key + scale_max_interval(scale) <= 255,
                forall|i: int| 0 <= i < intervals@.len() ==> intervals@[i] <= scale_max_interval(scale),
                forall|pc: int|
                    0 <= pc < 12 ==> (#[trigger] notes@[pc] == NoteState::Enabled <==> exists|i: int|
                        0 <= i < j && (key + #[trigger] intervals@[i]) % 12 == pc),
            decreases intervals@.len() - j,
        {
            let pc = (key + intervals[j]) % 12;
            notes[pc as usize] = NoteState::Enabled;
            assert forall|q: int| 0 <= q < 12 implies (#[trigger] notes@[q] == NoteState::Enabled
                <==> exists|i: int| 0 <= i < j + 1 && (key + #[trigger] intervals@[i]) % 12 == q) by {
                if q == pc {
                    assert((key + intervals@[j as int]) % 12 == q);
                }
            }
            j += 1;
        }
        self.notes = notes;
        assert(self.notes@ =~= scale_notes_spec(key, scale));
    }

    /// Check if a pitch class (taken modulo 12) is enabled.
    pub fn is_enabled(&self, pitch_class: u8) -> (b: bool)
        ensures
            b == pc_enabled(self.notes@, pitch_class as int),
    {
        self.notes[(pitch_class % 12) as usize] == NoteState::Enabled
    }

    /// Signed semitone offset from `pitch_class` to the nearest enabled
    /// pitch class, searching outward up to a tritone.  When the upward and
    /// downward candidates are equally far, the upward one wins exactly when
    /// `prefer_up` (the detected note lies at or above its rounded value).
    /// `None` when no pitch class is enabled.
    pub fn nearest_enabled_offset(&self, pitch_class: u8, prefer_up: bool) -> (r: Option<i8>)
        ensures
            is_nearest_offset(self.notes@, pitch_class as int, prefer_up, r),
    {
        let pc = pitch_class % 12;
        let ghost p = pitch_class as int;
        assert(p % 12 == pc as int);
        if self.is_enabled(pc) {
            assert(pc_enabled(self.notes@, p + 0));
            return Some(0);
        }
        let mut offset: u8 = 1;
        while offset <= 6
            invariant
                1 <= offset <= 7,
                pc < 12,
                p % 12 == pc,
                p == pitch_class as int,
                forall|o2: int|
                    #![trigger pc_enabled(self.notes@, p + o2)]
                    -offset < o2 < offset ==> !pc_enabled(self.notes@, p + o2),
            decreases 7 - offset,
        {
            let up = (pc + offset) % 12;
            let down = (pc + 12 - offset) % 12;
            let up_enabled = self.is_enabled(up);
            let down_enabled = self.is_enabled(down);
            proof {
                lemma_mod12_shift(p, pc as int, offset as int);
            }
            assert(up_enabled == pc_enabled(self.notes@, p + offset));
            assert(down_enabled == pc_enabled(self.notes@, p - offset));
            let ghost o: int = offset as int;
            assert((offset as i8) as int == o);
            assert((-(offset as i8)) as int == -o);
            if up_enabled && down_enabled {
                if prefer_up {
                    return Some(offset as i8);
                } else {
                    assert(pc_enabled(self.notes@, p + (-(offset as int))));
                    return Some(-(offset as i8));
                }
            } else if up_enabled {
                return Some(offset as i8);
            } else if down_enabled {
                assert(pc_enabled(self.notes@, p + (-(offset as int))));
                return Some(-(offset as i8));
            }
            assert(!pc_enabled(self.notes@, p + (-(offset as int))));
            offset += 1;
        }
        assert forall|k: int| 0 <= k < 12 implies self.notes@[k] == NoteState::Disabled by {
            let o2: int = if k >= pc { if k - pc <= 6 { k - pc } else { k - pc - 12 } } else {
                if pc - k <= 6 { k - pc } else { k - pc + 12 } };
            assert(!pc_enabled(self.notes@, p + o2));
            assert((p + o2) % 12 == k);
        }
        None
    }
}

/// Number of values below `n` that occur in `vals`.
spec fn count_member(vals: Seq<int>, n: int) -> nat
    decreases n,
{
    if n <= 0 {
        0
    } else {
        count_member(vals, n - 1) + if vals.contains(n - 1) {
            1nat
        } else {
            0nat
        }
    }
}

proof fn lemma_count_member_push(vals: Seq<int>, v: int, n: int)
    requires
        !vals.contains(v),
        0 <= v,
        n >= 0,
    ensures
        count_member(vals.push(v), n) == count_member(vals, n) + if v < n { 1nat } else { 0nat },
    decreases n,
{
    if n > 0 {
        lemma_count_member_push(vals, v, n - 1);
        assert(vals.push(v).contains(n - 1) <==> (vals.contains(n - 1) || n - 1 == v)) by {
            if vals.contains(n - 1) {
                let j = choose|j: int| 0 <= j < vals.len() && vals[j] == n - 1;
                assert(vals.push(v)[j] == n - 1);
            }
            if n - 1 == v {
                assert(vals.push(v)[vals.len() as int] == v);
            }
            if vals.push(v).contains(n - 1) {
                let j = choose|j: int| 0 <= j < vals.len() + 1 && vals.push(v)[j] == n - 1;
                if j < vals.len() {
                    assert(vals[j] == n - 1);
                }
            }
        }
    }
}

proof fn lemma_count_member_distinct(vals: Seq<int>, n: int)
    requires
        n >= 0,
        forall|a: int, b: int| 0 <= a < b < vals.len() ==> vals[a] != vals[b],
        forall|a: int| 0 <= a < vals.len() ==> 0 <= #[trigger] vals[a] < n,
    ensures
        count_member(vals, n) == vals.len(),
    decreases vals.len(),
{
    if vals.len() == 0 {
        lemma_count_member_empty(vals, n);
    } else {
        let rest = vals.drop_last();
        let v = vals.last();
        lemma_count_member_distinct(rest, n);
        assert(!rest.contains(v)) by {
            if rest.contains(v) {
                let j = choose|j: int| 0 <= j < rest.len() && rest[j] == v;
                assert(vals[j] == vals[vals.len() - 1]);
            }
        }
        lemma_count_member_push(rest, v, n);
        assert(rest.push(v) =~= vals);
    }
}

proof fn lemma_count_member_empty(vals: Seq<int>, n: int)
    requires
        vals.len() == 0,
    ensures
        count_member(vals, n) == 0,
    decreases n,
{
    if n > 0 {
        lemma_count_member_empty(vals, n - 1);
    }
}

proof fn lemma_count_enabled_member(key: Key, scale: Scale, vals: Seq<int>, n: int)
    requires
        0 <= n <= 12,
        forall|pc: int| 0 <= pc < 12 ==> (in_scale(key, scale, pc) <==> vals.contains(pc)),
    ensures
        count_enabled(scale_notes_spec(key, scale), n as nat) == count_member(vals, n),
    decreases n,
{
    if n > 0 {
        lemma_count_enabled_member(key, scale, vals, n - 1);
    }
}

/// Every non-custom scale has as many enabled notes as it has intervals, in
/// every key: 12 chromatic, 7 major and minor, 5 pentatonic, 6 blues.
pub proof fn lemma_scale_note_count(key: Key, scale: Scale)
    requires
        scale != Scale::Custom,
    ensures
        count_enabled(scale_notes_spec(key, scale), 12) == scale_intervals_spec(scale).len(),
{
    let iv = scale_intervals_spec(scale);
    let vals = Seq::new(iv.len(), |j: int| (key + iv[j]) % 12);
    assert forall|a: int, b: int| 0 <= a < b < vals.len() implies vals[a] != vals[b] by {
        assert(iv[a] < iv[b] && iv[b] < 12);
        let k = key as int;
        let q = k / 12;
        let r = k % 12;
        assert(k == 12 * q + r);
        lemma_mod12_shift(k, r, iv[a] as int);
        lemma_mod12_shift(k, r, iv[b] as int);
    }
    assert forall|pc: int| 0 <= pc < 12 implies (in_scale(key, scale, pc) <==> vals.contains(pc)) by {
        if in_scale(key, scale, pc) {
            let j = choose|j: int| 0 <= j < iv.len() && (key + #[trigger] iv[j]) % 12 == pc;
            assert(vals[j] == pc);
        }
        if vals.contains(pc) {
            let j = choose|j: int| 0 <= j < vals.len() && vals[j] == pc;
            assert((key + iv[j]) % 12 == pc);
        }
    }
    lemma_count_member_distinct(vals, 12);
    lemma_count_enabled_member(key, scale, vals, 12);
}

/// Pitch class name for display (0 = C, 1 = C#, ... 11 = B), taken modulo 12.
pub open spec fn pitch_class_name_spec(pc: u8) -> Seq<char> {
    match pc % 12 {
        0 => seq!['C'],
        1 => seq!['C', '#'],
        2 => seq!['D'],
        3 => seq!['E', 'b'],
        4 => seq!['E'],
        5 => seq!['F'],
        6 => seq!['F', '#'],
        7 => seq!['G'],
        8 => seq!['A', 'b'],
        9 => seq!['A'],
        10 => seq!['B', 'b'],
        _ => seq!['B'],
    }
}

/// Pitch class name for display (0 = C, 1 = C#, ... 11 = B).
pub fn pitch_class_name(pc: u8) -> (name: &'static str)
    ensures
        name@ == pitch_class_name_spec(pc),
{
    match pc % 12 {
        0 => {
            proof { reveal_strlit("C"); }
            "C"
        },
        1 => {
            proof { reveal_strlit("C#"); }
            "C#"
        },
        2 => {
            proof { reveal_strlit("D"); }
            "D"
        },
        3 => {
            proof { reveal_strlit("Eb"); }
            "Eb"
        },
        4 => {
            proof { reveal_strlit("E"); }
            "E"
        },
        5 => {
            proof { reveal_strlit("F"); }
            "F"
        },
        6 => {
            proof { reveal_strlit("F#"); }
            "F#"
        },
        7 => {
            proof { reveal_strlit("G"); }
            "G"
        },
        8 => {
            proof { reveal_strlit("Ab"); }
            "Ab"
        },
        9 => {
            proof { reveal_strlit("A"); }
            "A"
        },
        10 => {
            proof { reveal_strlit("Bb"); }
            "Bb"
        },
        _ => {
            proof { reveal_strlit("B"); }
            "B"
        },
    }
}

/// The scale selected by the scale parameter's index (0 chromatic, 1 major,
/// 2 minor, 3 major pentatonic, 4 minor pentatonic, 5 blues, 6 custom);
/// any other index selects chromatic.
pub open spec fn scale_from_param_spec(v: i32) -> Scale {
    match v {
        1 => Scale::Major,
        2 => Scale::Minor,
        3 => Scale::MajorPentatonic,
        4 => Scale::MinorPentatonic,
        5 => Scale::Blues,
        6 => Scale::Custom,
        _ => Scale::Chromatic,
    }
}

/// Map the scale parameter's index to a scale.
pub fn scale_from_param(v: i32) -> (s: Scale)
    ensures
        s == scale_from_param_spec(v),
{
    match v {
        1 => Scale::Major,
        2 => Scale::Minor,
        3 => Scale::MajorPentatonic,
        4 => Scale::MinorPentatonic,
        5 => Scale::Blues,
        6 => Scale::Custom,
        _ => Scale::Chromatic,
    }
}

} // verus!
