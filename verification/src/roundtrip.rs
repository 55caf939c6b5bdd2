//! The round-trip law relating the two registers.
//!
//! Draining an N-bit value out of a shift-out register produces its bits
//! most-significant first; feeding that same bit stream into a cleared
//! shift-in register, oldest bit first, reconstructs the original value
//! exactly.

use crate::bits::{lemma_fits_u64, zero_word, BitWord};
use crate::harness::{state_at, ClockedRegister};
use crate::shift_out::ShiftOut;
use crate::shift_reg::ShiftRegister;
use vstd::arithmetic::div_mod::{
    lemma_basic_div, lemma_breakdown, lemma_div_basics, lemma_div_denominator,
    lemma_div_nonincreasing, lemma_fundamental_div_mod, lemma_mod_bound, lemma_mul_mod_noop_left,
    lemma_small_mod, lemma_truncate_middle,
};
use vstd::arithmetic::mul::{
    lemma_mul_inequality, lemma_mul_is_associative, lemma_mul_is_commutative,
    lemma_mul_strict_inequality,
};
use vstd::arithmetic::power2::{lemma2_to64, lemma_pow2_adds, lemma_pow2_pos, pow2};
use vstd::prelude::*;

verus! {

/// `count` input vectors that only assert `enable` on a shift-out
/// register of the given width.
pub open spec fn drain_inputs(width: usize, count: nat) -> Seq<(bool, bool, BitWord)> {
    Seq::new(count, |k: int| (true, false, zero_word(width)))
}

/// The serial bit stream observed while `v` is shifted out, most
/// significant bit first: entry `k` is the output sampled at cycle `k` of
/// a run that drains a shift-out register holding `v`, with no reset hold.
pub open spec fn serial_bits(v: BitWord) -> Seq<bool> {
    Seq::new(
        v.width as nat,
        |k: int|
            state_at(
                (ShiftOut { register: v }),
                0,
                drain_inputs(v.width, v.width as nat),
                k,
            ).output_spec(),
    )
}

/// Input vectors that feed the bits of `s` into a shift-in register with
/// `enable` held high, oldest bit first.
pub open spec fn refill_inputs(s: Seq<bool>) -> Seq<(bool, bool)> {
    Seq::new(s.len(), |k: int| (true, s[k]))
}

/// After `k` enabled cycles the draining shift-out register holds the
/// original value shifted left by `k`, masked to the width.
proof fn lemma_drain_state(v: BitWord, k: int)
    requires
        v.wf(),
        0 <= k <= v.width,
    ensures
        state_at((ShiftOut { register: v }), 0, drain_inputs(v.width, v.width as nat), k)
            .register.width == v.width,
        state_at((ShiftOut { register: v }), 0, drain_inputs(v.width, v.width as nat), k)
            .register.bits as nat == ((v.bits as nat) * pow2(k as nat)) % pow2(v.width as nat),
    decreases k,
{
    let w: nat = v.width as nat;
    let x: nat = v.bits as nat;
    lemma_pow2_pos(w);
    if k == 0 {
        lemma2_to64();
        lemma_small_mod(x, pow2(w));
    } else {
        lemma_drain_state(v, k - 1);
        let prev = state_at(
            (ShiftOut { register: v }),
            0,
            drain_inputs(v.width, v.width as nat),
            k - 1,
        );
        let a: nat = (x * pow2((k - 1) as nat)) % pow2(w);
        lemma_mod_bound((x * pow2((k - 1) as nat)) as int, pow2(w) as int);
        lemma_fits_u64(a, w);
        // the step shifts: next value is (2 * a) % 2^w
        lemma_mod_bound(2 * (prev.register.bits as int), pow2(w) as int);
        lemma_fits_u64((2 * (prev.register.bits as nat)) % pow2(w), w);
        // (2 * ((x * 2^(k-1)) % 2^w)) % 2^w == (x * 2^k) % 2^w
        lemma_mul_mod_noop_left((x * pow2((k - 1) as nat)) as int, 2, pow2(w) as int);
        lemma_pow2_adds((k - 1) as nat, 1);
        lemma2_to64();
        lemma_mul_is_associative(x as int, pow2((k - 1) as nat) as int, 2);
        assert((x * pow2((k - 1) as nat)) * 2 == x * pow2(k as nat));
        assert((2 * a) % pow2(w) == (x * pow2(k as nat)) % pow2(w));
    }
}

/// The most-significant bit of the value shifted left by `k` (masked to
/// width `w`) is bit `w - 1 - k` of the original value.
proof fn lemma_shifted_msb(x: nat, w: nat, k: nat)
    requires
        1 <= w,
        x < pow2(w),
        k < w,
    ensures
        ((x * pow2(k)) % pow2(w) >= pow2((w - 1) as nat)) <==> ((x / pow2((w - k - 1) as nat)) % 2
            == 1),
{
    let d: nat = pow2((w - k - 1) as nat);
    let m: nat = pow2((w - k) as nat);
    lemma_pow2_pos((w - k - 1) as nat);
    lemma_pow2_pos((w - k) as nat);
    lemma_pow2_pos(k);
    lemma_pow2_pos(w);
    lemma2_to64();
    // m == d * 2
    lemma_pow2_adds((w - k - 1) as nat, 1);
    // (x * 2^k) % 2^w == 2^k * (x % m)
    lemma_pow2_adds(k, (w - k) as nat);
    lemma_truncate_middle(x as int, pow2(k) as int, m as int);
    lemma_mul_is_commutative(pow2(k) as int, x as int);
    assert((x * pow2(k)) % pow2(w) == pow2(k) * (x % m));
    // x % m == d * ((x / d) % 2) + x % d
    lemma_breakdown(x as int, d as int, 2);
    lemma_mod_bound((x as int) / (d as int), 2);
    lemma_mod_bound(x as int, d as int);
    // 2^(w-1) == 2^k * d
    lemma_pow2_adds(k, (w - k - 1) as nat);
    let b: int = ((x as int) / (d as int)) % 2;
    if b == 1 {
        assert(x % m >= d);
        lemma_mul_inequality(d as int, (x % m) as int, pow2(k) as int);
        lemma_mul_is_commutative(d as int, pow2(k) as int);
        lemma_mul_is_commutative((x % m) as int, pow2(k) as int);
        assert(pow2(k) * (x % m) >= pow2((w - 1) as nat));
    } else {
        assert(x % m == x % d);
        assert(x % m < d);
        lemma_mul_strict_inequality((x % m) as int, d as int, pow2(k) as int);
        lemma_mul_is_commutative(d as int, pow2(k) as int);
        lemma_mul_is_commutative((x % m) as int, pow2(k) as int);
        assert(pow2(k) * (x % m) < pow2((w - 1) as nat));
    }
}

/// Doubling the top `k` bits of `x` and adding the next bit below them
/// yields the top `k + 1` bits of `x`.
proof fn lemma_take_next_bit(x: nat, w: nat, k: nat)
    requires
        x < pow2(w),
        k < w,
    ensures
        2 * (x / pow2((w - k) as nat)) + (x / pow2((w - k - 1) as nat)) % 2 == x / pow2(
            (w - k - 1) as nat,
        ),
{
    let d: nat = pow2((w - k - 1) as nat);
    lemma_pow2_pos((w - k - 1) as nat);
    lemma_pow2_pos((w - k) as nat);
    lemma2_to64();
    // 2^(w-k) == d * 2
    lemma_pow2_adds((w - k - 1) as nat, 1);
    // x / 2^(w-k) == (x / d) / 2
    lemma_div_denominator(x as int, d as int, 2);
    // x / d == 2 * ((x / d) / 2) + (x / d) % 2
    lemma_fundamental_div_mod((x as int) / (d as int), 2);
}

/// After `k` cycles of the refill run the shift-in register holds the top
/// `k` bits of the original value.
proof fn lemma_refill_state(v: BitWord, k: int)
    requires
        v.wf(),
        0 <= k <= v.width,
    ensures
        state_at(
            (ShiftRegister { register: zero_word(v.width) }),
            0,
            refill_inputs(serial_bits(v)),
            k,
        ).register.width == v.width,
        state_at(
            (ShiftRegister { register: zero_word(v.width) }),
            0,
            refill_inputs(serial_bits(v)),
            k,
        ).register.bits as nat == (v.bits as nat) / pow2((v.width - k) as nat),
    decreases k,
{
    let w: nat = v.width as nat;
    let x: nat = v.bits as nat;
    let sink = (ShiftRegister { register: zero_word(v.width) });
    let inputs = refill_inputs(serial_bits(v));
    lemma_pow2_pos(w);
    if k == 0 {
        lemma_pow2_pos((w - k) as nat);
        lemma_basic_div(x as int, pow2(w) as int);
    } else {
        lemma_refill_state(v, k - 1);
        let prev = state_at(sink, 0, inputs, k - 1);
        let q: nat = x / pow2((w - k + 1) as nat);
        // the serial bit consumed in this cycle is bit w - k of x
        lemma_drain_state(v, k - 1);
        lemma_shifted_msb(x, w, (k - 1) as nat);
        let serial = serial_bits(v)[k - 1];
        let b: nat = if serial {
            1nat
        } else {
            0nat
        };
        lemma_mod_bound((x as int) / (pow2((w - k) as nat) as int), 2);
        lemma_pow2_pos((w - k) as nat);
        assert(b == (x / pow2((w - k) as nat)) % 2);
        // doubling the reconstructed prefix and adding the bit extends it
        lemma_take_next_bit(x, w, (k - 1) as nat);
        assert(2 * q + b == x / pow2((w - k) as nat));
        // the sum is small enough that the width mask does nothing
        lemma_div_nonincreasing(x as int, pow2((w - k) as nat) as int);
        lemma_small_mod(x / pow2((w - k) as nat), pow2(w));
        lemma_fits_u64(x / pow2((w - k) as nat), w);
    }
}

/// Round trip: draining an N-bit value out of a shift-out register (most
/// significant bit first) and feeding the observed bit stream into a
/// cleared shift-in register of the same width reconstructs the value.
pub proof fn lemma_round_trip(v: BitWord)
    requires
        v.wf(),
    ensures
        state_at(
            (ShiftRegister { register: zero_word(v.width) }),
            0,
            refill_inputs(serial_bits(v)),
            v.width as int,
        ).register == v,
{
    lemma_refill_state(v, v.width as int);
    lemma2_to64();
    lemma_div_basics(v.bits as int);
    assert((v.bits as nat) / pow2(0) == v.bits as nat);
}

} // verus!
