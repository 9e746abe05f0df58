//! The bit-reversal reordering that starts every radix-2 FFT of the pitch
//! detectors and shifters: element `k` moves to the index whose binary
//! digits are those of `k` reversed.

use vstd::prelude::*;

verus! {

/// `2^b`.
pub open spec fn two_pow(b: nat) -> nat
    decreases b,
{
    if b == 0 {
        1
    } else {
        2 * two_pow((b - 1) as nat)
    }
}

/// The low `b` binary digits of `i` in reverse order: the lowest digit of
/// `i` becomes the highest of the result.
pub open spec fn bit_rev(i: nat, b: nat) -> nat
    decreases b,
{
    if b == 0 {
        0
    } else {
        bit_rev(i / 2, (b - 1) as nat) + (i % 2) * two_pow((b - 1) as nat)
    }
}

proof fn lemma_two_pow_mono(a: nat, b: nat)
    requires
        a <= b,
    ensures
        1 <= two_pow(a) <= two_pow(b),
    decreases b,
{
    if b > 0 {
        if a < b {
            lemma_two_pow_mono(a, (b - 1) as nat);
        } else {
            lemma_two_pow_mono((a - 1) as nat, (b - 1) as nat);
        }
    }
}

proof fn lemma_bit_rev_bound(i: nat, b: nat)
    ensures
        bit_rev(i, b) < two_pow(b),
    decreases b,
{
    if b > 0 {
        lemma_bit_rev_bound(i / 2, (b - 1) as nat);
        if i % 2 == 0 {
            assert((i % 2) * two_pow((b - 1) as nat) == 0);
        } else {
            assert((i % 2) * two_pow((b - 1) as nat) == two_pow((b - 1) as nat));
        }
    }
}

proof fn lemma_bit_rev_step(i: nat, t: nat)
    ensures
        bit_rev(i, t + 1) == 2 * bit_rev(i, t) + (i / two_pow(t)) % 2,
    decreases t,
{
    if t > 0 {
        let m = two_pow((t - 1) as nat);
        lemma_two_pow_mono(0, (t - 1) as nat);
        lemma_bit_rev_step(i / 2, (t - 1) as nat);
        vstd::arithmetic::div_mod::lemma_div_denominator(i as int, 2, m as int);
        assert(((t + 1) - 1) as nat == t);
        assert(bit_rev(i, t + 1) == bit_rev(i / 2, t) + (i % 2) * two_pow(t));
        assert(two_pow(t) == 2 * m);
        assert((i % 2) * (2 * m) == 2 * ((i % 2) * m)) by (nonlinear_arith);
        assert(bit_rev(i, t) == bit_rev(i / 2, (t - 1) as nat) + (i % 2) * m);
        assert(bit_rev(i / 2, t) == 2 * bit_rev(i / 2, (t - 1) as nat) + ((i / 2) / m) % 2);
        assert((i / 2) / m == i / two_pow(t));
        assert(bit_rev(i, t + 1) == 2 * bit_rev(i, t) + (i / two_pow(t)) % 2);
    } else {
        assert(two_pow(0) == 1);
        assert(bit_rev(i, 1) == bit_rev(i / 2, 0) + (i % 2) * two_pow(0));
        assert(bit_rev(i, 0) == 0);
        assert((i % 2) * 1 == i % 2);
        assert(i / 1 == i);
    }
}

proof fn lemma_bit_rev_mod(i: nat, t: nat)
    ensures
        bit_rev(i, t) == bit_rev(i % two_pow(t), t),
    decreases t,
{
    if t > 0 {
        let m = two_pow((t - 1) as nat);
        lemma_two_pow_mono(0, (t - 1) as nat);
        let x = i % (2 * m);
        assert(two_pow(t) == 2 * m);
        vstd::arithmetic::div_mod::lemma_mod_mod(i as int, 2, m as int);
        vstd::arithmetic::div_mod::lemma_mod_breakdown(i as int, 2, m as int);
        assert(0 <= (i / 2) % m < m) by {
            vstd::arithmetic::div_mod::lemma_mod_pos_bound((i / 2) as int, m as int);
        }
        vstd::arithmetic::div_mod::lemma_fundamental_div_mod_converse(
            x as int,
            2,
            ((i / 2) % m) as int,
            (i % 2) as int,
        );
        lemma_bit_rev_mod(i / 2, (t - 1) as nat);
        lemma_bit_rev_mod(x / 2, (t - 1) as nat);
        assert(x / 2 == (i / 2) % m);
        assert(((i / 2) % m) % m == (i / 2) % m) by {
            vstd::arithmetic::div_mod::lemma_small_mod(((i / 2) % m) as nat, m);
        }
    }
}

/// Reversing the digits twice gives the index back.
pub proof fn lemma_bit_rev_involution(i: nat, b: nat)
    requires
        i < two_pow(b),
    ensures
        bit_rev(i, b) < two_pow(b),
        bit_rev(bit_rev(i, b), b) == i,
    decreases b,
{
    lemma_bit_rev_bound(i, b);
    if b > 0 {
        let m = two_pow((b - 1) as nat);
        lemma_two_pow_mono(0, (b - 1) as nat);
        let r = bit_rev(i / 2, (b - 1) as nat);
        lemma_bit_rev_bound(i / 2, (b - 1) as nat);
        let j = bit_rev(i, b);
        assert(j == r + (i % 2) * m);
        assert(j == (i % 2) * m + r) by (nonlinear_arith)
            requires
                j == r + (i % 2) * m,
        ;
        vstd::arithmetic::div_mod::lemma_fundamental_div_mod_converse(j as int, m as int, (i % 2) as int, r as int);
        assert(i / 2 < m) by {
            vstd::arithmetic::div_mod::lemma_fundamental_div_mod(i as int, 2);
        }
        lemma_bit_rev_involution(i / 2, (b - 1) as nat);
        lemma_bit_rev_mod(j, (b - 1) as nat);
        lemma_bit_rev_step(j, (b - 1) as nat);
        assert(((b - 1) as nat + 1) as nat == b);
        assert(bit_rev(j, b) == 2 * bit_rev(j, (b - 1) as nat) + (j / m) % 2);
        assert(bit_rev(j, (b - 1) as nat) == i / 2);
        vstd::arithmetic::div_mod::lemma_fundamental_div_mod(i as int, 2);
    }
}

/// The index of `i` with its low `bits` binary digits reversed.
pub fn bit_reverse(i: usize, bits: u32) -> (r: usize)
    requires
        two_pow(bits as nat) <= usize::MAX + 1,
    ensures
        r == bit_rev(i as nat, bits as nat),
{
    let mut r: usize = 0;
    let mut x: usize = i;
    let mut t: u32 = 0;
    proof {
        lemma_two_pow_mono(0, bits as nat);
    }
    while t < bits
        invariant
            t <= bits,
            two_pow(bits as nat) <= usize::MAX + 1,
            r == bit_rev(i as nat, t as nat),
            x == i as nat / two_pow(t as nat),
        decreases bits - t,
    {
        proof {
            lemma_bit_rev_step(i as nat, t as nat);
            lemma_bit_rev_bound(i as nat, (t + 1) as nat);
            lemma_two_pow_mono((t + 1) as nat, bits as nat);
            lemma_two_pow_mono(0, t as nat);
            vstd::arithmetic::div_mod::lemma_div_denominator(i as int, two_pow(t as nat) as int, 2);
            assert(two_pow((t + 1) as nat) == two_pow(t as nat) * 2);
        }
        r = r * 2 + x % 2;
        x = x / 2;
        t = t + 1;
    }
    r
}

/// Reorder `data` (of length `2^bits`) so that element `k` ends up at the
/// digit-reversed index of `k`.
pub fn bit_reverse_permute<T: Copy>(data: &mut Vec<T>, bits: u32)
    requires
        old(data)@.len() == two_pow(bits as nat),
    ensures
        final(data)@.len() == old(data)@.len(),
        forall|k: int|
            0 <= k < old(data)@.len() ==> final(data)@[k] == old(data)@[bit_rev(k as nat, bits as nat) as int],
{
    let n = data.len();
    let ghost orig = data@;
    let ghost b = bits as nat;
    let mut i: usize = 0;
    while i < n
        invariant
            n == data@.len(),
            n == orig.len(),
            n == two_pow(b),
            b == bits as nat,
            i <= n,
            forall|k: int|
                0 <= k < n ==> #[trigger] data@[k] == if k < i || bit_rev(k as nat, b) < i {
                    orig[bit_rev(k as nat, b) as int]
                } else {
                    orig[k]
                },
        decreases n - i,
    {
        let j = bit_reverse(i, bits);
        proof {
            lemma_bit_rev_involution(i as nat, b);
        }
        let ghost before = data@;
        if i < j {
            let a = data[i];
            let c = data[j];
            data.set(i, c);
            data.set(j, a);
        }
        proof {
            assert forall|k: int| 0 <= k < n implies #[trigger] data@[k] == if k < i + 1 || bit_rev(
                k as nat,
                b,
            ) < i + 1 {
                orig[bit_rev(k as nat, b) as int]
            } else {
                orig[k]
            } by {
                lemma_bit_rev_involution(k as nat, b);
                if k != i && k != j {
                    assert(data@[k] == before[k]);
                    if bit_rev(k as nat, b) == i {
                        assert(bit_rev(i as nat, b) == k);
                    }
                }
            }
        }
        i = i + 1;
    }
    proof {
        assert forall|k: int| 0 <= k < n implies data@[k] == orig[bit_rev(k as nat, b) as int] by {
            assert(data@[k] == orig[bit_rev(k as nat, b) as int]);
        }
    }
}

} // verus!
