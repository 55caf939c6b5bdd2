//! Serial-to-parallel shift-in register.
//!
//! Each cycle the register outputs its full current value, sampled before
//! the cycle's update.  The next state is zero when reset is asserted;
//! otherwise, when enabled, the value shifts left by one position with the
//! serial input filling the least-significant bit; otherwise it holds.

use crate::bits::{
    lemma_fits_u64, lemma_shl1_or_bit, zero_word, BitWord, RegisterError,
};
use crate::harness::ClockedRegister;
use vstd::arithmetic::div_mod::lemma_mod_bound;
use vstd::arithmetic::power2::{lemma2_to64, lemma_pow2_pos, pow2};
use vstd::prelude::*;

verus! {

/// The transition function of the shift-in register, as a value: the state
/// installed for the cycle after `state`, given the cycle's reset line and
/// `(enable, serial_in)` inputs.
pub open spec fn shift_in_next(state: BitWord, reset: bool, enable: bool, serial_in: bool) -> BitWord {
    if reset {
        zero_word(state.width)
    } else if enable {
        BitWord {
            width: state.width,
            bits: (((2 * (state.bits as nat) + (if serial_in {
                1nat
            } else {
                0nat
            })) % pow2(state.width as nat)) as u64),
        }
    } else {
        state
    }
}

/// A serial-to-parallel converter: bits arrive one per cycle and assemble
/// into a parallel word, oldest bit in the most-significant position.
#[derive(Clone, Copy, Debug, PartialEq, Eq, Structural)]
pub struct ShiftRegister {
    /// The stored bits.
    pub register: BitWord,
}

impl ShiftRegister {
    /// Construct a shift-in register of the given width with all bits
    /// cleared.  A zero width is rejected.
    pub fn new(width: usize) -> (r: Result<ShiftRegister, RegisterError>)
        requires
            width <= 64,
        ensures
            r is Ok <==> 1 <= width,
            width == 0 ==> (r matches Err(e) && e == RegisterError::InvalidWidth),
            1 <= width ==> (r matches Ok(reg) && reg.register == zero_word(width) && reg.wf()),
    {
        if width == 0 {
            Err(RegisterError::InvalidWidth)
        } else {
            Ok(ShiftRegister { register: BitWord::zeroed(width) })
        }
    }
}

/// One clock cycle of the shift-in register: returns the sampled output
/// (the state entering the cycle, unchanged) and the next state.
pub fn shift_register_kernel(reset: bool, input: (bool, bool), state: BitWord) -> (r: (
    BitWord,
    BitWord,
))
    requires
        state.wf(),
    ensures
        r.0 == state,
        r.1 == shift_in_next(state, reset, input.0, input.1),
        r.1.wf(),
{
    let (enable, serial_in) = input;
    let parallel_out = state;
    let next = if reset {
        BitWord::zeroed(state.width)
    } else if enable {
        let shifted = state.shift_left(1);
        let bit = BitWord::from_bit(state.width, serial_in);
        let merged = shifted.or(bit);
        proof {
            lemma2_to64();
            assert(shifted.bits as nat == (2 * (state.bits as nat)) % pow2(state.width as nat));
            lemma_shl1_or_bit(shifted.bits, state.bits, bit.bits, state.width as nat);
            let v: nat = (2 * (state.bits as nat) + (if serial_in {
                1nat
            } else {
                0nat
            })) % pow2(state.width as nat);
            lemma_mod_bound(
                2 * (state.bits as int) + (if serial_in {
                    1int
                } else {
                    0int
                }),
                pow2(state.width as nat) as int,
            );
            lemma_fits_u64(v, state.width as nat);
        }
        merged
    } else {
        state
    };
    (parallel_out, next)
}

/// Reset dominance: whatever `enable` and `serial_in` carry, a cycle with
/// reset asserted leaves the register cleared.
pub proof fn lemma_shift_in_reset_dominates(state: BitWord, enable: bool, serial_in: bool)
    ensures
        shift_in_next(state, true, enable, serial_in) == zero_word(state.width),
{
}

/// Width masking: the transition never produces a value at or above
/// `2^width`, and never changes the width.
pub proof fn lemma_shift_in_next_wf(state: BitWord, reset: bool, enable: bool, serial_in: bool)
    requires
        state.wf(),
    ensures
        shift_in_next(state, reset, enable, serial_in).wf(),
        shift_in_next(state, reset, enable, serial_in).width == state.width,
{
    lemma_pow2_pos(state.width as nat);
    if !reset && enable {
        let v: nat = (2 * (state.bits as nat) + (if serial_in {
            1nat
        } else {
            0nat
        })) % pow2(state.width as nat);
        lemma_mod_bound(
            2 * (state.bits as int) + (if serial_in {
                1int
            } else {
                0int
            }),
            pow2(state.width as nat) as int,
        );
        lemma_fits_u64(v, state.width as nat);
    }
}

impl ClockedRegister for ShiftRegister {
    type Input = (bool, bool);

    type Output = BitWord;

    /// A register is well-formed when its stored word is.
    open spec fn wf(self) -> bool {
        self.register.wf()
    }

    open spec fn reset_state(self) -> ShiftRegister {
        ShiftRegister { register: zero_word(self.register.width) }
    }

    open spec fn next_spec(self, reset: bool, input: (bool, bool)) -> ShiftRegister {
        ShiftRegister { register: shift_in_next(self.register, reset, input.0, input.1) }
    }

    /// The sampled output is the full current value.
    open spec fn output_spec(self) -> BitWord {
        self.register
    }

    proof fn reset_dominant(self, input: (bool, bool)) {
        lemma_shift_in_reset_dominates(self.register, input.0, input.1);
    }

    proof fn reset_state_wf(self) {
        lemma_pow2_pos(self.register.width as nat);
    }

    proof fn next_wf(self, reset: bool, input: (bool, bool)) {
        lemma_shift_in_next_wf(self.register, reset, input.0, input.1);
    }

    fn neutral_input(&self) -> (bool, bool) {
        (false, false)
    }

    fn transition(&self, reset: bool, input: &(bool, bool)) -> (r: (BitWord, ShiftRegister)) {
        let (out, next) = shift_register_kernel(reset, *input, self.register);
        (out, ShiftRegister { register: next })
    }
}

} // verus!
