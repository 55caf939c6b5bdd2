//! Clocked simulation harness.
//!
//! [`ClockedRegister`] is the transition contract a synchronous register
//! exposes: a Moore machine whose sampled output is a function of the
//! state entering a cycle alone, and whose next state is a pure function
//! of that state, the reset line, and the cycle's input vector.  [`run`]
//! drives such a register through an initial reset hold followed by a
//! caller-supplied input sequence and samples exactly one output per
//! cycle, in increasing cycle order.

use vstd::prelude::*;

verus! {

/// The transition contract consumed by the harness.
///
/// Implementations must prove three laws: reset dominates every other
/// control input, the forced reset state is well-formed, and transitions
/// preserve well-formedness whatever the input carries.
pub trait ClockedRegister: Sized {
    /// The control-signal tuple applied each cycle.
    type Input;

    /// The value sampled each cycle.
    type Output;

    /// Well-formed states.
    spec fn wf(self) -> bool;

    /// The state a cycle with reset asserted forces.
    spec fn reset_state(self) -> Self;

    /// The state installed for the next cycle.
    spec fn next_spec(self, reset: bool, input: Self::Input) -> Self;

    /// The output sampled from the current state, before the cycle's
    /// update is applied.
    spec fn output_spec(self) -> Self::Output;

    /// Reset dominance: with reset asserted, the input vector has no
    /// influence on the next state.
    proof fn reset_dominant(self, input: Self::Input)
        requires
            self.wf(),
        ensures
            self.next_spec(true, input) == self.reset_state(),
    ;

    /// The forced reset state is itself well-formed.
    proof fn reset_state_wf(self)
        requires
            self.wf(),
        ensures
            self.reset_state().wf(),
    ;

    /// Transitions preserve well-formedness, whatever the input carries.
    proof fn next_wf(self, reset: bool, input: Self::Input)
        requires
            self.wf(),
        ensures
            self.next_spec(reset, input).wf(),
    ;

    /// An input vector to apply while reset is held; reset dominance makes
    /// its content irrelevant.
    fn neutral_input(&self) -> Self::Input
        requires
            self.wf(),
    ;

    /// One clock cycle: the sampled output and the next state.
    fn transition(&self, reset: bool, input: &Self::Input) -> (r: (Self::Output, Self))
        requires
            self.wf(),
        ensures
            r.0 == self.output_spec(),
            r.1 == self.next_spec(reset, *input),
    ;
}

/// The state entering cycle `i` of a run that starts from `init`, holds
/// reset for the first `reset_hold` cycles, and then applies the entries
/// of `inputs` in order, one per cycle.
pub open spec fn state_at<R: ClockedRegister>(
    init: R,
    reset_hold: int,
    inputs: Seq<R::Input>,
    i: int,
) -> R
    decreases i,
{
    if i <= 0 {
        init
    } else {
        let prev = state_at(init, reset_hold, inputs, i - 1);
        if i - 1 < reset_hold {
            prev.reset_state()
        } else {
            prev.next_spec(false, inputs[i - 1 - reset_hold])
        }
    }
}

/// Every state a run reaches is well-formed; for the registers of this
/// crate that is the width-masking invariant, `bits < 2^width`, at every
/// cycle of every run.
pub proof fn lemma_state_at_wf<R: ClockedRegister>(
    init: R,
    reset_hold: int,
    inputs: Seq<R::Input>,
    i: int,
)
    requires
        init.wf(),
        0 <= i,
    ensures
        state_at(init, reset_hold, inputs, i).wf(),
    decreases i,
{
    if i > 0 {
        lemma_state_at_wf(init, reset_hold, inputs, i - 1);
        let prev = state_at(init, reset_hold, inputs, i - 1);
        if i - 1 < reset_hold {
            prev.reset_state_wf();
        } else {
            prev.next_wf(false, inputs[i - 1 - reset_hold]);
        }
    }
}

/// Reset dominance at the harness level: the state leaving any cycle
/// inside the reset hold window is the forced reset state, regardless of
/// every other control input.
pub proof fn lemma_reset_hold_state<R: ClockedRegister>(
    init: R,
    reset_hold: int,
    inputs: Seq<R::Input>,
    i: int,
)
    requires
        0 <= i < reset_hold,
    ensures
        state_at(init, reset_hold, inputs, i + 1) == state_at(
            init,
            reset_hold,
            inputs,
            i,
        ).reset_state(),
{
}

/// Drive `register` for `reset_hold` forced-reset cycles followed by one
/// cycle per entry of `inputs`, sampling one output per cycle.
///
/// The sample recorded for cycle `i` is the output of the state *entering*
/// cycle `i` — one-cycle latency: a cycle's input is never visible in the
/// same cycle's sample, only through the transition it causes.
pub fn run<R: ClockedRegister>(register: R, reset_hold: usize, inputs: Vec<R::Input>) -> (out: Vec<
    (usize, R::Output),
>)
    requires
        register.wf(),
        reset_hold + inputs@.len() <= usize::MAX,
    ensures
        out@.len() == reset_hold + inputs@.len(),
        forall|i: int| 0 <= i < out@.len() ==> (#[trigger] out@[i]).0 == i,
        forall|i: int|
            0 <= i < out@.len() ==> (#[trigger] out@[i]).1 == state_at(
                register,
                reset_hold as int,
                inputs@,
                i,
            ).output_spec(),
{
    let ghost init = register;
    let total: usize = reset_hold + inputs.len();
    let mut out: Vec<(usize, R::Output)> = Vec::new();
    let mut current = register;
    let mut cycle: usize = 0;
    while cycle < total
        invariant
            current.wf(),
            current == state_at(init, reset_hold as int, inputs@, cycle as int),
            out@.len() == cycle as int,
            cycle <= total,
            total == reset_hold + inputs@.len(),
            forall|i: int| 0 <= i < out@.len() ==> (#[trigger] out@[i]).0 == i,
            forall|i: int|
                0 <= i < out@.len() ==> (#[trigger] out@[i]).1 == state_at(
                    init,
                    reset_hold as int,
                    inputs@,
                    i,
                ).output_spec(),
        decreases total - cycle,
    {
        let step = if cycle < reset_hold {
            let neutral = current.neutral_input();
            let step = current.transition(true, &neutral);
            proof {
                current.reset_dominant(neutral);
                current.reset_state_wf();
            }
            step
        } else {
            let step = current.transition(false, &inputs[cycle - reset_hold]);
            proof {
                current.next_wf(false, inputs@[(cycle - reset_hold) as int]);
            }
            step
        };
        let (sample, next) = step;
        out.push((cycle, sample));
        current = next;
        cycle = cycle + 1;
    }
    out
}

} // verus!
