//! Fixed-width unsigned values.
//!
//! A [`BitWord`] is an unsigned integer truncated to a bit width chosen at
//! construction time.  Every operation that could produce bits beyond the
//! width discards them, so the invariant `bits < 2^width` holds at all
//! times.  The arithmetic the registers need — shift left, shift right,
//! bitwise or, and reading the most-significant bit — is provided here with
//! contracts phrased over `pow2`.

use vstd::arithmetic::div_mod::{
    lemma_add_mod_noop, lemma_basic_div, lemma_div_non_zero, lemma_div_nonincreasing,
    lemma_mod_bound, lemma_mod_multiples_basic, lemma_small_mod, lemma_truncate_middle,
};
use vstd::arithmetic::mul::{
    lemma_mul_inequality, lemma_mul_is_associative, lemma_mul_is_commutative,
    lemma_mul_is_distributive_sub_other_way,
};
use vstd::arithmetic::power2::{
    lemma2_to64, lemma2_to64_rest, lemma_pow2_adds, lemma_pow2_pos, lemma_pow2_strictly_increases,
    pow2,
};
use vstd::bits::{
    lemma_u64_low_bits_mask_is_mod, lemma_u64_pow2_no_overflow, lemma_u64_shl_is_mul,
    lemma_u64_shr_is_div, low_bits_mask,
};
use vstd::prelude::*;

verus! {

/// Widths the backing `u64` store can represent: at least one bit, at most
/// sixty-four.
pub open spec fn valid_width(width: usize) -> bool {
    1 <= width <= 64
}

/// The error a register constructor reports for a zero width.
#[derive(Clone, Copy, Debug, PartialEq, Eq, Structural)]
pub enum RegisterError {
    InvalidWidth,
}

/// An unsigned value truncated to a fixed bit width.
#[derive(Clone, Copy, Debug, PartialEq, Eq, Structural)]
pub struct BitWord {
    /// Number of significant bits; fixed at construction.
    pub width: usize,
    /// The stored value; always below `2^width`.
    pub bits: u64,
}

/// The all-zero word of a given width.
pub open spec fn zero_word(width: usize) -> BitWord {
    BitWord { width, bits: 0 }
}

impl BitWord {
    /// The invariant every well-formed word satisfies: a representable
    /// width, and no bits beyond it.
    pub open spec fn wf(self) -> bool {
        valid_width(self.width) && (self.bits as nat) < pow2(self.width as nat)
    }

    /// Whether the most-significant bit (bit `width - 1`) is set.
    pub open spec fn msb_spec(self) -> bool {
        self.bits as nat >= pow2((self.width - 1) as nat)
    }
}

/// A value below `pow2(w)` for `w <= 64` fits in a `u64` and survives the
/// cast unchanged.
pub proof fn lemma_fits_u64(v: nat, w: nat)
    requires
        w <= 64,
        v < pow2(w),
    ensures
        v <= u64::MAX,
        (v as u64) as nat == v,
{
    if w < 64 {
        lemma_pow2_strictly_increases(w, 64);
    }
    lemma2_to64_rest();
}

/// Bit mask with the low `width` bits set.
pub fn width_mask(width: usize) -> (m: u64)
    requires
        valid_width(width),
    ensures
        m as nat == low_bits_mask(width as nat),
{
    if width == 64 {
        proof {
            lemma2_to64_rest();
        }
        u64::MAX
    } else {
        proof {
            lemma_u64_pow2_no_overflow(width as nat);
            lemma_u64_shl_is_mul(1u64, width as u64);
        }
        (1u64 << (width as u64)) - 1
    }
}

/// The low `width` bits of `value`.
pub(crate) fn mask_value(width: usize, value: u64) -> (r: u64)
    requires
        valid_width(width),
    ensures
        r as nat == value as nat % pow2(width as nat),
{
    let m: u64 = width_mask(width);
    proof {
        if width < 64 {
            lemma_u64_pow2_no_overflow(width as nat);
            lemma_u64_low_bits_mask_is_mod(value, width as nat);
        } else {
            lemma2_to64_rest();
            assert(value & 0xffff_ffff_ffff_ffffu64 == value) by (bit_vector);
            lemma_small_mod(value as nat, pow2(64));
        }
    }
    value & m
}

impl BitWord {
    /// Construct a word of the given width, masking `value` to its low
    /// `width` bits.  A zero width is rejected.
    pub fn new(width: usize, value: u64) -> (r: Result<BitWord, RegisterError>)
        requires
            width <= 64,
        ensures
            r is Ok <==> 1 <= width,
            width == 0 ==> (r matches Err(e) && e == RegisterError::InvalidWidth),
            1 <= width ==> (r matches Ok(w) && w.width == width && w.bits as nat == value as nat
                % pow2(width as nat) && w.wf()),
    {
        if width == 0 {
            Err(RegisterError::InvalidWidth)
        } else {
            proof {
                lemma_pow2_pos(width as nat);
            }
            Ok(BitWord { width, bits: mask_value(width, value) })
        }
    }

    /// The all-zero word of the given width.
    pub fn zeroed(width: usize) -> (r: BitWord)
        requires
            valid_width(width),
        ensures
            r == zero_word(width),
            r.wf(),
    {
        proof {
            lemma_pow2_pos(width as nat);
        }
        BitWord { width, bits: 0 }
    }

    /// A word holding a single bit in the least-significant position.
    pub fn from_bit(width: usize, bit: bool) -> (r: BitWord)
        requires
            valid_width(width),
        ensures
            r.width == width,
            r.bits == (if bit { 1u64 } else { 0u64 }),
            r.wf(),
    {
        proof {
            lemma2_to64();
            lemma_pow2_strictly_increases(0, width as nat);
        }
        BitWord { width, bits: if bit { 1 } else { 0 } }
    }

    /// This word truncated to the low `width` bits.
    pub fn masked_to(self, width: usize) -> (r: BitWord)
        requires
            valid_width(width),
        ensures
            r.width == width,
            r.bits as nat == self.bits as nat % pow2(width as nat),
            r.wf(),
    {
        proof {
            lemma_pow2_pos(width as nat);
            lemma_mod_bound(self.bits as int, pow2(width as nat) as int);
        }
        BitWord { width, bits: mask_value(width, self.bits) }
    }

    /// Shift left by `k` bits, discarding bits beyond the width; the
    /// vacated low positions are filled with zeros.
    pub fn shift_left(self, k: usize) -> (r: BitWord)
        requires
            self.wf(),
        ensures
            r.width == self.width,
            r.bits as nat == (self.bits as nat * pow2(k as nat)) % pow2(self.width as nat),
            r.wf(),
    {
        let w: usize = self.width;
        if k == 0 {
            proof {
                lemma2_to64();
                lemma_small_mod(self.bits as nat, pow2(w as nat));
                assert(self.bits as nat == (self.bits as nat * pow2(0)) % pow2(w as nat));
            }
            self
        } else if k >= w {
            proof {
                lemma_pow2_pos(w as nat);
                lemma_pow2_adds((k - w) as nat, w as nat);
                lemma_mul_is_associative(
                    self.bits as int,
                    pow2((k - w) as nat) as int,
                    pow2(w as nat) as int,
                );
                lemma_mod_multiples_basic(
                    self.bits as int * pow2((k - w) as nat) as int,
                    pow2(w as nat) as int,
                );
                assert(self.bits as nat * pow2(k as nat) == (self.bits as nat * pow2(
                    (k - w) as nat,
                )) * pow2(w as nat));
            }
            BitWord { width: w, bits: 0 }
        } else {
            let kept: u64 = mask_value(w - k, self.bits);
            proof {
                lemma_pow2_pos(w as nat);
                lemma_pow2_pos(k as nat);
                lemma_pow2_pos((w - k) as nat);
                lemma_pow2_adds((w - k) as nat, k as nat);
                lemma_mod_bound(self.bits as int, pow2((w - k) as nat) as int);
                // kept * 2^k stays below 2^w, so the exec shift cannot overflow
                lemma_mul_inequality(
                    kept as int,
                    pow2((w - k) as nat) - 1,
                    pow2(k as nat) as int,
                );
                lemma_mul_is_distributive_sub_other_way(
                    pow2(k as nat) as int,
                    pow2((w - k) as nat) as int,
                    1,
                );
                if w < 64 {
                    lemma_pow2_strictly_increases(w as nat, 64);
                }
                lemma2_to64_rest();
                lemma_u64_shl_is_mul(kept, k as u64);
                // masking first then shifting is the same as shifting then masking
                lemma_truncate_middle(
                    self.bits as int,
                    pow2(k as nat) as int,
                    pow2((w - k) as nat) as int,
                );
                lemma_mul_is_commutative(pow2((w - k) as nat) as int, pow2(k as nat) as int);
                lemma_mul_is_commutative(pow2(k as nat) as int, self.bits as int);
                lemma_mul_is_commutative(
                    pow2(k as nat) as int,
                    (self.bits as nat % pow2((w - k) as nat)) as int,
                );
                lemma_mod_bound(
                    self.bits as int * pow2(k as nat) as int,
                    pow2(w as nat) as int,
                );
                assert(kept * pow2(k as nat) <= pow2(w as nat) - pow2(k as nat));
                assert(kept as nat * pow2(k as nat) == (self.bits as nat * pow2(k as nat)) % pow2(
                    w as nat,
                ));
            }
            BitWord { width: w, bits: kept << (k as u64) }
        }
    }

    /// Shift right by `k` bits, discarding the low bits.
    pub fn shift_right(self, k: usize) -> (r: BitWord)
        requires
            self.wf(),
        ensures
            r.width == self.width,
            r.bits as nat == self.bits as nat / pow2(k as nat),
            r.wf(),
    {
        if k >= 64 {
            proof {
                lemma_pow2_pos(64);
                if k > 64 {
                    lemma_pow2_strictly_increases(64, k as nat);
                }
                lemma2_to64_rest();
                lemma_basic_div(self.bits as int, pow2(k as nat) as int);
            }
            BitWord { width: self.width, bits: 0 }
        } else {
            proof {
                lemma_pow2_pos(k as nat);
                lemma_u64_shr_is_div(self.bits, k as u64);
                lemma_div_nonincreasing(self.bits as int, pow2(k as nat) as int);
            }
            BitWord { width: self.width, bits: self.bits >> (k as u64) }
        }
    }

    /// Bitwise or with another word of the same width.
    pub fn or(self, other: BitWord) -> (r: BitWord)
        requires
            self.wf(),
            other.wf(),
            other.width == self.width,
        ensures
            r.width == self.width,
            r.bits == self.bits | other.bits,
            r.wf(),
    {
        proof {
            if self.width == 64 {
                lemma2_to64_rest();
            } else {
                let wv: u64 = self.width as u64;
                let a: u64 = self.bits;
                let c: u64 = other.bits;
                lemma_u64_pow2_no_overflow(self.width as nat);
                lemma_u64_shl_is_mul(1u64, wv);
                assert(a | c < (1u64 << wv)) by (bit_vector)
                    requires
                        a < (1u64 << wv),
                        c < (1u64 << wv),
                        wv < 64u64,
                ;
            }
        }
        BitWord { width: self.width, bits: self.bits | other.bits }
    }

    /// The most-significant bit of the word.
    pub fn msb(self) -> (b: bool)
        requires
            self.wf(),
        ensures
            b == self.msb_spec(),
    {
        let shifted = self.shift_right(self.width - 1);
        proof {
            lemma_pow2_pos((self.width - 1) as nat);
            if self.bits as nat >= pow2((self.width - 1) as nat) {
                lemma_div_non_zero(self.bits as int, pow2((self.width - 1) as nat) as int);
            } else {
                lemma_basic_div(self.bits as int, pow2((self.width - 1) as nat) as int);
            }
        }
        shifted.bits != 0
    }
}

/// Shifting a word left by one and or-ing a single bit into the vacated
/// least-significant position adds that bit: the shifted value is even and
/// one below the width's limit, so no carry can occur.
pub proof fn lemma_shl1_or_bit(s: u64, x: u64, b: u64, w: nat)
    requires
        1 <= w <= 64,
        (x as nat) < pow2(w),
        s as nat == (2 * (x as nat)) % pow2(w),
        b <= 1,
    ensures
        (s as nat) + (b as nat) < pow2(w),
        ((s | b) as nat) == (2 * (x as nat) + b as nat) % pow2(w),
{
    lemma2_to64();
    lemma_pow2_pos(w);
    lemma_pow2_pos((w - 1) as nat);
    lemma_pow2_adds(1, (w - 1) as nat);
    lemma_truncate_middle(x as int, 2, pow2((w - 1) as nat) as int);
    lemma_mod_bound(x as int, pow2((w - 1) as nat) as int);
    assert(s as nat == 2 * ((x as nat) % pow2((w - 1) as nat)));
    lemma_mod_multiples_basic(((x as nat) % pow2((w - 1) as nat)) as int, 2);
    assert(s % 2 == 0);
    assert((s | b) == s + b) by (bit_vector)
        requires
            s % 2 == 0,
            b <= 1,
    ;
    lemma_add_mod_noop(2 * (x as int), b as int, pow2(w) as int);
    lemma_small_mod(b as nat, pow2(w));
    lemma_small_mod((s + b) as nat, pow2(w));
}

} // verus!
