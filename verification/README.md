# fts_suite

The decision logic of three audio plugins — a drum-aware noise gate, a
pitch corrector and a guitar-to-MIDI converter — written in Verus and proved
against its contracts.

## Layout

- `src/` — the verified library.
  - `drum.rs` — drum classes, their byte encoding, labels and the timbre pass rule.
  - `dynamics.rs` — the open/close detector with hysteresis and zero-crossing
    deferral, the attack/hold/release phases, and the lookahead delay line.
  - `sync.rs` — the onset ring shared by linked instances, instance slots,
    sessions and the session registry (sessions are held by handle and stay
    in place for their holders after being taken off the list of names).
  - `align.rs` — per-instance onset bookkeeping and the alignment delay.
  - `sort.rs` — ascending sort used for the median offset.
  - `quantizer.rs` — scales, enabled pitch classes and the nearest enabled
    pitch class.
  - `modes.rs` — detector and shifter selection and the latency they report.
  - `bitstream.rs` — the packed one-bit signal history, mismatch counts and
    the best-lag search of the bitstream autocorrelation detector.
  - `notes.rs` — note names, the editor's active-note bitfield, the note
    range, the analysis window clock, harmonic bins and the per-window
    note-on/note-off state machine.
  - `midi.rs` — note extraction from standard MIDI files (parsing through
    `midly`), with exact tick and time values, stably sorted by onset.
  - `datasets.rs` — naming and pairing rules of the GuitarSet and
    Guitar-TECHS datasets.
  - `bit_reversal.rs` — the bit-reversal reordering of the radix-2 FFTs.
  - `labels.rs` — parameter values as text, both ways (scale, key,
    detector, shifter, drum target, switches): what is shown for a value
    reads back as that value.
- `tests/` — tests of the library on concrete values.
- `app/` — host-side code: file and dataset I/O, the process-wide session
  registry, serde forms of the parameter enums, and the floating-point
  signal processing that feeds the library.

The laws that relate several operations (ring read-back over many
publishes, registration and its slot count, ids in call order, lookup after
cleanup, text round trips, deferral bound, hold time, delay line, window period, note
ordering and ranges, scale sizes, bit-reversal involution) are public proof
functions next to the code they speak of.
