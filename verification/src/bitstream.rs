//! One-bit signal history for the bitstream autocorrelation pitch detector:
//! sign bits packed 64 to a word, and the number of mismatching bits between
//! the recent half of the stream and the same stretch shifted by a lag.

use vstd::prelude::*;

verus! {

/// Bit `j` (0..63) of word `w`.
pub open spec fn word_bit(w: u64, j: int) -> bool {
    (w >> (j as u64)) & 1 == 1
}

/// Number of set bits among the low `n` bits of `w`.
pub open spec fn ones(w: u64, n: int) -> nat
    decreases n,
{
    if n <= 0 {
        0
    } else {
        ones(w, n - 1) + if word_bit(w, n - 1) {
            1nat
        } else {
            0nat
        }
    }
}

/// Number of positions `k < len` where the stream `bits` differs between
/// position `a + k` and position `b + k`, positions taken modulo its length.
pub open spec fn count_diff(bits: Seq<bool>, a: int, b: int, len: int) -> nat
    decreases len,
{
    if len <= 0 {
        0
    } else {
        count_diff(bits, a, b, len - 1) + if bits[(a + len - 1) % (bits.len() as int)] != bits[(b
            + len - 1) % (bits.len() as int)] {
            1nat
        } else {
            0nat
        }
    }
}

/// Number of ones in `w` (what `u64::count_ones` gives).
fn count_ones(w: u64) -> (n: u32)
    ensures
        n == ones(w, 64),
{
    let mut n: u32 = 0;
    let mut j: u64 = 0;
    while j < 64
        invariant
            j <= 64,
            n == ones(w, j as int),
            n <= j,
        decreases 64 - j,
    {
        if (w >> j) & 1 == 1 {
            n += 1;
        }
        j += 1;
    }
    n
}

proof fn lemma_bit_set(w: u64, b: u64, j: u64)
    requires
        b < 64,
        j < 64,
    ensures
        word_bit(w | (1u64 << b), j as int) == (j == b || word_bit(w, j as int)),
        word_bit(w & !(1u64 << b), j as int) == (j != b && word_bit(w, j as int)),
{
    assert(((w | (1u64 << b)) >> j) & 1 == 1 <==> (j == b || (w >> j) & 1 == 1)) by (bit_vector)
        requires
            b < 64,
            j < 64,
    ;
    assert(((w & !(1u64 << b)) >> j) & 1 == 1 <==> (j != b && (w >> j) & 1 == 1)) by (bit_vector)
        requires
            b < 64,
            j < 64,
    ;
}

proof fn lemma_zero_word(j: u64)
    requires
        j < 64,
    ensures
        !word_bit(0, j as int),
{
    assert((0u64 >> j) & 1 != 1) by (bit_vector);
}

proof fn lemma_xor_bit(a: u64, b: u64, j: u64)
    requires
        j < 64,
    ensures
        word_bit(a ^ b, j as int) == (word_bit(a, j as int) != word_bit(b, j as int)),
{
    assert(((a ^ b) >> j) & 1 == 1 <==> (((a >> j) & 1 == 1) != ((b >> j) & 1 == 1))) by (bit_vector)
        requires
            j < 64,
    ;
}

proof fn lemma_funnel_bit(w1: u64, w2: u64, s: u64, j: u64)
    requires
        0 < s < 64,
        j < 64,
    ensures
        word_bit((w1 >> s) | (w2 << ((64 - s) as u64)), j as int) == if s + j < 64 {
            word_bit(w1, (s + j) as int)
        } else {
            word_bit(w2, (s + j - 64) as int)
        },
{
    let t = (64 - s) as u64;
    if s + j < 64 {
        let k = (s + j) as u64;
        assert((((w1 >> s) | (w2 << t)) >> j) & 1 == (w1 >> k) & 1) by (bit_vector)
            requires
                0 < s < 64,
                j < 64,
                t == 64 - s,
                k == s + j,
                k < 64,
        ;
    } else {
        let k = (s + j - 64) as u64;
        assert((((w1 >> s) | (w2 << t)) >> j) & 1 == (w2 >> k) & 1) by (bit_vector)
            requires
                0 < s < 64,
                j < 64,
                t == 64 - s,
                k == s + j - 64,
                s + j >= 64,
        ;
    }
}

proof fn lemma_mod_words(x: int, n: int, j: int)
    requires
        x >= 0,
        n > 0,
        0 <= j < 64,
    ensures
        (x * 64 + j) % (n * 64) == (x % n) * 64 + j,
        ((x % n) * 64 + j) / 64 == x % n,
        ((x % n) * 64 + j) % 64 == j,
{
    let q = x / n;
    let r = x % n;
    vstd::arithmetic::div_mod::lemma_fundamental_div_mod(x, n);
    assert(0 <= r < n);
    assert(x * 64 + j == q * (n * 64) + (r * 64 + j)) by (nonlinear_arith)
        requires
            x == n * q + r,
    ;
    assert(0 <= r * 64 + j < n * 64) by (nonlinear_arith)
        requires
            0 <= r < n,
            0 <= j < 64,
    ;
    vstd::arithmetic::div_mod::lemma_fundamental_div_mod_converse(x * 64 + j, n * 64, q, r * 64 + j);
    vstd::arithmetic::div_mod::lemma_fundamental_div_mod_converse(r * 64 + j, 64, r, j);
}

proof fn lemma_count_diff_split(bits: Seq<bool>, a: int, b: int, l: int, m: int)
    requires
        l >= 0,
        m >= 0,
    ensures
        count_diff(bits, a, b, l + m) == count_diff(bits, a, b, l) + count_diff(bits, a + l, b + l, m),
    decreases m,
{
    if m > 0 {
        lemma_count_diff_split(bits, a, b, l, m - 1);
        assert(a + l + (m - 1) == a + (l + m - 1));
        assert(b + l + (m - 1) == b + (l + m - 1));
    }
}

proof fn lemma_ones_count_diff(bits: Seq<bool>, x: u64, a: int, b: int, n: int)
    requires
        0 <= n <= 64,
        forall|j: int|
            0 <= j < 64 ==> #[trigger] word_bit(x, j) == (bits[(a + j) % (bits.len() as int)]
                != bits[(b + j) % (bits.len() as int)]),
    ensures
        ones(x, n) == count_diff(bits, a, b, n),
    decreases n,
{
    if n > 0 {
        lemma_ones_count_diff(bits, x, a, b, n - 1);
        assert(word_bit(x, n - 1) == (bits[(a + n - 1) % (bits.len() as int)] != bits[(b + n - 1)
            % (bits.len() as int)]));
    }
}

proof fn lemma_ones_bounded(x: u64, n: int)
    requires
        n >= 0,
    ensures
        ones(x, n) <= n,
    decreases n,
{
    if n > 0 {
        lemma_ones_bounded(x, n - 1);
    }
}

/// Bit `k` of the stream at the start of the recent half, as a position.
pub open spec fn half_start(pos: int, n_words: int, half_words: int) -> int {
    ((pos / 64 + n_words - half_words) % n_words) * 64
}

/// Sign bits of the recent signal, packed 64 to a word, written circularly.
pub struct Bitstream {
    words: Vec<u64>,
    bit_pos: usize,
}

impl Bitstream {
    /// The stream as a sequence of bits, bit `j` being bit `j % 64` of word `j / 64`.
    pub closed spec fn bits(&self) -> Seq<bool> {
        Seq::new((self.words@.len() * 64) as nat, |j: int| word_bit(self.words@[j / 64], j % 64))
    }

    /// The position the next bit is written to.
    pub closed spec fn position(&self) -> usize {
        self.bit_pos
    }

    /// Number of packed words.
    pub closed spec fn word_count(&self) -> nat {
        self.words@.len()
    }

    /// At least one word, the write position inside the stream, and the bit
    /// count representable.
    pub closed spec fn wf(&self) -> bool {
        &&& self.words@.len() > 0
        &&& self.words@.len() * 64 <= usize::MAX
        &&& self.bit_pos < self.words@.len() * 64
    }

    /// A stream of `n_words * 64` cleared bits, written from position 0.
    pub fn new(n_words: usize) -> (s: Self)
        requires
            n_words > 0,
            n_words * 64 <= usize::MAX,
        ensures
            s.wf(),
            s.word_count() == n_words,
            s.position() == 0,
            s.bits() == Seq::new((n_words * 64) as nat, |j: int| false),
    {
        let mut words: Vec<u64> = Vec::new();
        let mut i: usize = 0;
        while i < n_words
            invariant
                i <= n_words,
                words@.len() == i,
                forall|k: int| 0 <= k < i ==> words@[k] == 0,
            decreases n_words - i,
        {
            words.push(0);
            i += 1;
        }
        let s = Bitstream { words, bit_pos: 0 };
        assert forall|j: int| 0 <= j < n_words * 64 implies !#[trigger] s.bits()[j] by {
            lemma_zero_word((j % 64) as u64);
        }
        assert(s.bits() =~= Seq::new((n_words * 64) as nat, |j: int| false));
        s
    }

    /// Number of bits in the stream.
    pub fn len_bits(&self) -> (n: usize)
        requires
            self.wf(),
        ensures
            n == self.bits().len(),
    {
        self.words.len() * 64
    }

    /// Number of packed words.
    pub fn n_words(&self) -> (n: usize)
        ensures
            n == self.word_count(),
    {
        self.words.len()
    }

    /// Clear every bit and restart writing at position 0.
    pub fn clear(&mut self)
        requires
            old(self).wf(),
        ensures
            final(self).wf(),
            final(self).word_count() == old(self).word_count(),
            final(self).position() == 0,
            final(self).bits() == Seq::new(old(self).bits().len(), |j: int| false),
    {
        let n = self.words.len();
        let mut i: usize = 0;
        while i < n
            invariant
                i <= n,
                self.words@.len() == n,
                n == old(self).words@.len(),
                forall|k: int| 0 <= k < i ==> self.words@[k] == 0,
            decreases n - i,
        {
            self.words.set(i, 0);
            i += 1;
        }
        self.bit_pos = 0;
        assert forall|j: int| 0 <= j < n * 64 implies !#[trigger] self.bits()[j] by {
            lemma_zero_word((j % 64) as u64);
        }
        assert(self.bits() =~= Seq::new(old(self).bits().len(), |j: int| false));
    }

    /// Number of mismatching bits between the most recent `half_words`
    /// words of the stream and the same stretch `lag` bits later (positions
    /// wrap around the stream).
    pub fn mismatch_count(&self, lag: usize, half_words: usize) -> (m: u32)
        requires
            self.wf(),
            half_words <= self.word_count(),
            half_words * 64 <= u32::MAX,
            lag < self.bits().len(),
        ensures
            m == count_diff(
                self.bits(),
                half_start(self.position() as int, self.word_count() as int, half_words as int),
                half_start(self.position() as int, self.word_count() as int, half_words as int) + lag,
                half_words * 64,
            ),
            m <= half_words * 64,
    {
        let n = self.words.len();
        let word_offset = lag / 64;
        let bit_shift = lag % 64;
        let start = (self.bit_pos / 64 + n - half_words) % n;
        let ghost bits = self.bits();
        let ghost nn = n as int;
        let ghost big_n = bits.len() as int;
        let ghost s0 = (start * 64) as int;
        assert(s0 == half_start(self.bit_pos as int, nn, half_words as int));
        assert(big_n == nn * 64);
        let mut mismatch: u32 = 0;
        let mut i: usize = 0;
        while i < half_words
            invariant
                n == self.words@.len(),
                nn == n,
                bits == self.bits(),
                big_n == nn * 64,
                n * 64 <= usize::MAX,
                half_words <= n,
                half_words * 64 <= u32::MAX,
                start < n,
                s0 == start * 64,
                word_offset == lag / 64,
                bit_shift == lag % 64,
                lag < big_n,
                i <= half_words,
                mismatch == count_diff(bits, s0, s0 + lag, i * 64),
                mismatch <= i * 64,
            decreases half_words - i,
        {
            let idx_a = (start + i) % n;
            let idx_b1 = (start + i + word_offset) % n;
            let idx_b2 = (start + i + word_offset + 1) % n;
            let a = self.words[idx_a];
            let shifted = if bit_shift == 0 {
                self.words[idx_b1]
            } else {
                (self.words[idx_b1] >> bit_shift) | (self.words[idx_b2] << ((64 - bit_shift) as u64))
            };
            let x = a ^ shifted;
            let c = count_ones(x);
            proof {
                let base = s0 + i * 64;
                assert forall|j: int| 0 <= j < 64 implies #[trigger] word_bit(x, j) == (bits[(base + j) % big_n]
                    != bits[(base + lag + j) % big_n]) by {
                    lemma_xor_bit(a, shifted, j as u64);
                    // own bit
                    lemma_mod_words((start + i) as int, nn, j);
                    assert(base + j == (start + i) * 64 + j);
                    assert(bits[(base + j) % big_n] == word_bit(a, j));
                    // shifted bit
                    if bit_shift == 0 {
                        lemma_mod_words((start + i + word_offset) as int, nn, j);
                        assert(base + lag + j == (start + i + word_offset) * 64 + j);
                    } else {
                        lemma_funnel_bit(self.words@[idx_b1 as int], self.words@[idx_b2 as int], bit_shift as u64, j as u64);
                        if bit_shift + j < 64 {
                            lemma_mod_words((start + i + word_offset) as int, nn, bit_shift + j);
                            assert(base + lag + j == (start + i + word_offset) * 64 + (bit_shift + j));
                        } else {
                            lemma_mod_words((start + i + word_offset + 1) as int, nn, bit_shift + j - 64);
                            assert(base + lag + j == (start + i + word_offset + 1) * 64 + (bit_shift + j - 64));
                        }
                    }
                }
                lemma_ones_count_diff(bits, x, base, base + lag, 64);
                lemma_ones_bounded(x, 64);
                lemma_count_diff_split(bits, s0, s0 + lag, i * 64, 64);
                assert(s0 + lag + i * 64 == base + lag);
            }
            mismatch = mismatch + c;
            i += 1;
        }
        mismatch
    }

    /// Write one sign bit at the write position and advance it circularly.
    pub fn push(&mut self, sign: bool)
        requires
            old(self).wf(),
        ensures
            final(self).wf(),
            final(self).word_count() == old(self).word_count(),
            final(self).bits() == old(self).bits().update(old(self).position() as int, sign),
            final(self).position() == (old(self).position() + 1) % (old(self).bits().len() as int),
    {
        let word_idx = self.bit_pos / 64;
        let bit_idx = self.bit_pos % 64;
        let w = self.words[word_idx];
        let nw = if sign {
            w | (1u64 << bit_idx)
        } else {
            w & !(1u64 << bit_idx)
        };
        self.words.set(word_idx, nw);
        let total = self.words.len() * 64;
        self.bit_pos = (self.bit_pos + 1) % total;
        proof {
            let p = old(self).bit_pos as int;
            assert forall|j: int| 0 <= j < total implies #[trigger] self.bits()[j] == old(self).bits().update(p, sign)[j] by {
                lemma_bit_set(w, bit_idx as u64, (j % 64) as u64);
                if j / 64 == word_idx as int {
                    assert(j == p <==> j % 64 == bit_idx as int);
                }
            }
            assert(self.bits() =~= old(self).bits().update(p, sign));
        }
    }
}

/// Mismatching bits of the stream against itself `lag` bits later, over
/// the recent `half_words` words.
pub open spec fn lag_mismatch(s: Bitstream, lag: int, half_words: int) -> nat {
    count_diff(
        s.bits(),
        half_start(s.position() as int, s.word_count() as int, half_words),
        half_start(s.position() as int, s.word_count() as int, half_words) + lag,
        half_words * 64,
    )
}

/// `lag` is a best lag in `lo..=hi`: it correlates positively (fewer than
/// half the bits mismatch), no lag in range has fewer mismatches, and every
/// earlier lag in range has more.
pub open spec fn is_best_lag(s: Bitstream, lo: int, hi: int, half_words: int, lag: int) -> bool {
    &&& lo <= lag <= hi
    &&& 2 * lag_mismatch(s, lag, half_words) < half_words * 64
    &&& forall|l: int| lo <= l <= hi ==> lag_mismatch(s, lag, half_words) <= #[trigger] lag_mismatch(s, l, half_words)
    &&& forall|l: int| lo <= l < lag ==> lag_mismatch(s, lag, half_words) < #[trigger] lag_mismatch(s, l, half_words)
}

/// Mismatches at lag 0 are none: the stream agrees with itself.
pub proof fn lemma_zero_lag_no_mismatch(bits: Seq<bool>, a: int, len: int)
    ensures
        count_diff(bits, a, a + 0, len) == 0,
    decreases len,
{
    if len > 0 {
        lemma_zero_lag_no_mismatch(bits, a, len - 1);
    }
}

impl Bitstream {
    /// The lag in `min_lag..=max_lag` with the fewest mismatching bits (the
    /// strongest correlation), the earliest on ties, with its mismatch
    /// count; `None` when at every lag half the bits or more mismatch.
    pub fn best_lag(&self, min_lag: usize, max_lag: usize, half_words: usize) -> (r: Option<(usize, u32)>)
        requires
            self.wf(),
            half_words <= self.word_count(),
            half_words * 64 <= u32::MAX,
            max_lag < self.bits().len(),
        ensures
            match r {
                Some((lag, m)) => is_best_lag(*self, min_lag as int, max_lag as int, half_words as int, lag as int)
                    && m == lag_mismatch(*self, lag as int, half_words as int),
                None => forall|l: int|
                    min_lag <= l <= max_lag ==> 2 * #[trigger] lag_mismatch(*self, l, half_words as int)
                        >= half_words * 64,
            },
    {
        let total: u64 = (half_words as u64) * 64;
        let mut best: Option<(usize, u32)> = None;
        if min_lag > max_lag {
            return None;
        }
        let mut lag: usize = min_lag;
        loop
            invariant
                self.wf(),
                half_words <= self.word_count(),
                half_words * 64 <= u32::MAX,
                max_lag < self.bits().len(),
                total == half_words * 64,
                min_lag <= lag <= max_lag,
                match best {
                    Some((b, m)) => is_best_lag(*self, min_lag as int, lag - 1, half_words as int, b as int)
                        && m == lag_mismatch(*self, b as int, half_words as int),
                    None => forall|l: int|
                        min_lag <= l < lag ==> 2 * #[trigger] lag_mismatch(*self, l, half_words as int)
                            >= half_words * 64,
                },
            decreases max_lag - lag,
        {
            let m = self.mismatch_count(lag, half_words);
            let better = match best {
                None => 2 * (m as u64) < total,
                Some((_, bm)) => m < bm,
            };
            if better {
                best = Some((lag, m));
            }
            if lag == max_lag {
                return best;
            }
            lag = lag + 1;
        }
    }
}

} // verus!
