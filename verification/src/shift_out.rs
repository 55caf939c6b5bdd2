//! Parallel-to-serial shift-out register.
//!
//! Each cycle the register outputs the most-significant bit of its current
//! value, sampled before the cycle's update.  The next state is decided in
//! strict priority order: reset forces zero; otherwise `load` captures the
//! parallel input (masked to the register's width) even when `enable` is
//! asserted in the same cycle; otherwise `enable` shifts the value left by
//! one with a zero filling the vacated least-significant bit; otherwise
//! the value holds.

use crate::bits::{lemma_fits_u64, zero_word, BitWord, RegisterError};
use crate::harness::ClockedRegister;
use vstd::arithmetic::div_mod::{lemma_mod_bound, lemma_small_mod};
use vstd::arithmetic::power2::{lemma2_to64, lemma_pow2_pos, pow2};
use vstd::prelude::*;

verus! {

/// The transition function of the shift-out register, as a value: the
/// state installed for the cycle after `state`, given the cycle's reset
/// line and `(enable, load, data_in)` inputs.  The priority order is
/// reset, then load, then enable, then hold.
pub open spec fn shift_out_next(
    state: BitWord,
    reset: bool,
    load: bool,
    enable: bool,
    data_in: BitWord,
) -> BitWord {
    if reset {
        zero_word(state.width)
    } else if load {
        BitWord {
            width: state.width,
            bits: (((data_in.bits as nat) % pow2(state.width as nat)) as u64),
        }
    } else if enable {
        BitWord {
            width: state.width,
            bits: (((2 * (state.bits as nat)) % pow2(state.width as nat)) as u64),
        }
    } else {
        state
    }
}

/// A parallel-to-serial converter: a word is captured on `load` and then
/// leaves one bit per enabled cycle, most-significant bit first.
#[derive(Clone, Copy, Debug, PartialEq, Eq, Structural)]
pub struct ShiftOut {
    /// The stored bits.
    pub register: BitWord,
}

impl ShiftOut {
    /// Construct a shift-out register of the given width with all bits
    /// cleared.  A zero width is rejected.
    pub fn new(width: usize) -> (r: Result<ShiftOut, RegisterError>)
        requires
            width <= 64,
        ensures
            r is Ok <==> 1 <= width,
            width == 0 ==> (r matches Err(e) && e == RegisterError::InvalidWidth),
            1 <= width ==> (r matches Ok(reg) && reg.register == zero_word(width) && reg.wf()),
    {
        if width == 0 {
            Err(RegisterError::InvalidWidth)
        } else {
            Ok(ShiftOut { register: BitWord::zeroed(width) })
        }
    }
}

/// One clock cycle of the shift-out register: returns the sampled serial
/// output (the most-significant bit of the state entering the cycle) and
/// the next state.
pub fn shift_out_kernel(reset: bool, input: (bool, bool, BitWord), state: BitWord) -> (r: (
    bool,
    BitWord,
))
    requires
        state.wf(),
    ensures
        r.0 == state.msb_spec(),
        r.1 == shift_out_next(state, reset, input.1, input.0, input.2),
        r.1.wf(),
{
    let (enable, load, data_in) = input;
    let serial_out = state.msb();
    let next = if reset {
        BitWord::zeroed(state.width)
    } else if load {
        let loaded = data_in.masked_to(state.width);
        proof {
            lemma_fits_u64((data_in.bits as nat) % pow2(state.width as nat), state.width as nat);
        }
        loaded
    } else if enable {
        let shifted = state.shift_left(1);
        proof {
            lemma2_to64();
            lemma_mod_bound(2 * (state.bits as int), pow2(state.width as nat) as int);
            lemma_fits_u64((2 * (state.bits as nat)) % pow2(state.width as nat), state.width as nat);
        }
        shifted
    } else {
        state
    };
    (serial_out, next)
}

/// Reset dominance: whatever `load`, `enable` and `data_in` carry, a cycle
/// with reset asserted leaves the register cleared.
pub proof fn lemma_shift_out_reset_dominates(
    state: BitWord,
    load: bool,
    enable: bool,
    data_in: BitWord,
)
    ensures
        shift_out_next(state, true, load, enable, data_in) == zero_word(state.width),
{
}

/// Load strictly dominates enable: in any cycle where `load` is asserted
/// without reset, the next state is the loaded word verbatim, never the
/// shifted value, no matter what `enable` carries.
pub proof fn lemma_load_priority(state: BitWord, enable: bool, data_in: BitWord)
    requires
        state.wf(),
        data_in.wf(),
        data_in.width == state.width,
    ensures
        shift_out_next(state, false, true, enable, data_in) == data_in,
{
    lemma_small_mod(data_in.bits as nat, pow2(state.width as nat));
    lemma_fits_u64(data_in.bits as nat, state.width as nat);
}

/// Width masking: the transition never produces a value at or above
/// `2^width`, and never changes the width.
pub proof fn lemma_shift_out_next_wf(
    state: BitWord,
    reset: bool,
    load: bool,
    enable: bool,
    data_in: BitWord,
)
    requires
        state.wf(),
    ensures
        shift_out_next(state, reset, load, enable, data_in).wf(),
        shift_out_next(state, reset, load, enable, data_in).width == state.width,
{
    lemma_pow2_pos(state.width as nat);
    if !reset && load {
        lemma_mod_bound(data_in.bits as int, pow2(state.width as nat) as int);
        lemma_fits_u64((data_in.bits as nat) % pow2(state.width as nat), state.width as nat);
    } else if !reset && enable {
        lemma_mod_bound(2 * (state.bits as int), pow2(state.width as nat) as int);
        lemma_fits_u64((2 * (state.bits as nat)) % pow2(state.width as nat), state.width as nat);
    }
}

impl ClockedRegister for ShiftOut {
    type Input = (bool, bool, BitWord);

    type Output = bool;

    /// A register is well-formed when its stored word is.
    open spec fn wf(self) -> bool {
        self.register.wf()
    }

    open spec fn reset_state(self) -> ShiftOut {
        ShiftOut { register: zero_word(self.register.width) }
    }

    open spec fn next_spec(self, reset: bool, input: (bool, bool, BitWord)) -> ShiftOut {
        ShiftOut { register: shift_out_next(self.register, reset, input.1, input.0, input.2) }
    }

    /// The sampled output is the most-significant bit of the current value.
    open spec fn output_spec(self) -> bool {
        self.register.msb_spec()
    }

    proof fn reset_dominant(self, input: (bool, bool, BitWord)) {
        lemma_shift_out_reset_dominates(self.register, input.1, input.0, input.2);
    }

    proof fn reset_state_wf(self) {
        lemma_pow2_pos(self.register.width as nat);
    }

    proof fn next_wf(self, reset: bool, input: (bool, bool, BitWord)) {
        lemma_shift_out_next_wf(self.register, reset, input.1, input.0, input.2);
    }

    fn neutral_input(&self) -> (bool, bool, BitWord) {
        (false, false, BitWord::zeroed(self.register.width))
    }

    fn transition(&self, reset: bool, input: &(bool, bool, BitWord)) -> (r: (bool, ShiftOut)) {
        let (out, next) = shift_out_kernel(reset, *input, self.register);
        (out, ShiftOut { register: next })
    }
}

} // verus!
