use shiftreg::bits::BitWord;
use shiftreg::shift_out::{shift_out_kernel, ShiftOut};
use shiftreg::shift_reg::{shift_register_kernel, ShiftRegister};

/// Drives the shift-in kernel cycle by cycle: `reset_hold` forced-reset
/// cycles, then one cycle per input, sampling the parallel value entering
/// each cycle and finally the value settled after the last cycle.
fn sample_shift_in(width: usize, reset_hold: usize, inputs: &[(bool, bool)]) -> Vec<u64> {
    let reg = ShiftRegister::new(width).unwrap();
    let mut state = reg.register;
    let mut outs: Vec<u64> = Vec::new();
    for _ in 0..reset_hold {
        let (out, next) = shift_register_kernel(true, (false, false), state);
        outs.push(out.bits);
        state = next;
    }
    for &input in inputs {
        let (out, next) = shift_register_kernel(false, input, state);
        outs.push(out.bits);
        state = next;
    }
    outs.push(state.bits);
    outs
}

/// The same cycle-by-cycle driver for the shift-out kernel, sampling the
/// serial output entering each cycle and finally the settled one.
fn sample_shift_out(width: usize, reset_hold: usize, inputs: &[(bool, bool, u64)]) -> Vec<bool> {
    let reg = ShiftOut::new(width).unwrap();
    let mut state = reg.register;
    let mut outs: Vec<bool> = Vec::new();
    for _ in 0..reset_hold {
        let idle = BitWord::new(width, 0).unwrap();
        let (out, next) = shift_out_kernel(true, (false, false, idle), state);
        outs.push(out);
        state = next;
    }
    for &(enable, load, data) in inputs {
        let data = BitWord::new(width, data).unwrap();
        let (out, next) = shift_out_kernel(false, (enable, load, data), state);
        outs.push(out);
        state = next;
    }
    outs.push(state.msb());
    outs
}

#[test]
fn test_shift_register_basic() {
    // Shift in the pattern 1,0,1,0,1,1,0,0 (should build up to 0xAC)
    let test_data = vec![
        (true, true),  // Shift in 1 -> register = 0x01, output = 0x01
        (true, false), // Shift in 0 -> register = 0x02, output = 0x02
        (true, true),  // Shift in 1 -> register = 0x05, output = 0x05
        (true, false), // Shift in 0 -> register = 0x0A, output = 0x0A
        (true, true),  // Shift in 1 -> register = 0x15, output = 0x15
        (true, true),  // Shift in 1 -> register = 0x2B, output = 0x2B
        (true, false), // Shift in 0 -> register = 0x56, output = 0x56
        (true, false), // Shift in 0 -> register = 0xAC, output = 0xAC
        (false, true), // Disabled - should hold at 0xAC
    ];

    let outputs = sample_shift_in(8, 2, &test_data);

    // Check the progressive build-up of the pattern
    assert_eq!(outputs[3], 0x01); // After shifting in first 1
    assert_eq!(outputs[4], 0x02); // After shifting in 0
    assert_eq!(outputs[5], 0x05); // After shifting in 1
    assert_eq!(outputs[6], 0x0A); // After shifting in 0
    assert_eq!(outputs[7], 0x15); // After shifting in 1
    assert_eq!(outputs[8], 0x2B); // After shifting in 1
    assert_eq!(outputs[9], 0x56); // After shifting in 0
    assert_eq!(outputs[10], 0xAC); // After shifting in 0 - complete pattern!

    // When disabled, should hold the same value
    assert_eq!(outputs[11], 0xAC); // Should hold value when disabled
}

#[test]
fn test_shift_register_pattern() {
    // Shift in pattern 1,0,1,1 -> builds up: 0x1, 0x2, 0x5, 0xB
    let test_data = vec![
        (true, true),  // register = 0x1, output = 0x1
        (true, false), // register = 0x2, output = 0x2
        (true, true),  // register = 0x5, output = 0x5
        (true, true),  // register = 0xB, output = 0xB
        (true, false), // register = 0x6, output = 0x6 (0xB << 1, LSB = 0, wraps at 4-bit)
    ];

    let outputs = sample_shift_in(4, 1, &test_data);

    // Check the progressive pattern build-up
    assert_eq!(outputs[2], 0x1); // After shifting in 1
    assert_eq!(outputs[3], 0x2); // After shifting in 0
    assert_eq!(outputs[4], 0x5); // After shifting in 1
    assert_eq!(outputs[5], 0xB); // After shifting in 1 -> 1011
    assert_eq!(outputs[6], 0x6); // After shifting in 0 -> 0110 (MSB shifted out)
}

#[test]
fn test_shift_register_reset() {
    // Load some data, then reset
    let test_data = vec![
        (true, true), // Load some 1s
        (true, true),
        (true, true),
        (true, true),  // Register should be all 1s now (0xF)
        (true, false), // Should shift in 0
    ];

    let outputs = sample_shift_in(4, 3, &test_data); // Reset for 3 cycles

    // After reset, register should start at 0
    assert_eq!(outputs[3], 0); // First output after reset should be 0

    // Then build up as we shift in 1s
    assert_eq!(outputs[4], 0x1); // After first 1
    assert_eq!(outputs[5], 0x3); // After second 1
    assert_eq!(outputs[6], 0x7); // After third 1
    assert_eq!(outputs[7], 0xF); // After fourth 1 -> all 1s
    assert_eq!(outputs[8], 0xE); // After shifting in 0 -> 1110
}

#[test]
fn shift_reg_test_shift_out_load_and_shift() {
    // Test sequence: load 0xAB, then shift out bit by bit
    let test_data = vec![
        (false, true, 0xAB),  // Load 0xAB (0b10101011)
        (true, false, 0x00),  // Shift: output MSB=1, reg becomes 0x56 (0b01010110)
        (true, false, 0x00),  // Shift: output MSB=0, reg becomes 0xAC (0b10101100)
        (true, false, 0x00),  // Shift: output MSB=1, reg becomes 0x58 (0b01011000)
        (true, false, 0x00),  // Shift: output MSB=0, reg becomes 0xB0 (0b10110000)
        (true, false, 0x00),  // Shift: output MSB=1, reg becomes 0x60 (0b01100000)
        (true, false, 0x00),  // Shift: output MSB=0, reg becomes 0xC0 (0b11000000)
        (true, false, 0x00),  // Shift: output MSB=1, reg becomes 0x80 (0b10000000)
        (true, false, 0x00),  // Shift: output MSB=1, reg becomes 0x00 (0b00000000)
        (false, false, 0x00), // Disabled - should hold at 0x00
    ];

    let outputs = sample_shift_out(8, 2, &test_data);

    // Check the bit sequence output (MSB first from 0xAB = 0b10101011)
    assert_eq!(outputs[3], true); // 1st bit: 1 (MSB of 0xAB)
    assert_eq!(outputs[4], false); // 2nd bit: 0
    assert_eq!(outputs[5], true); // 3rd bit: 1
    assert_eq!(outputs[6], false); // 4th bit: 0
    assert_eq!(outputs[7], true); // 5th bit: 1
    assert_eq!(outputs[8], false); // 6th bit: 0
    assert_eq!(outputs[9], true); // 7th bit: 1
    assert_eq!(outputs[10], true); // 8th bit: 1 (LSB of 0xAB)

    // When disabled, should hold the same output
    assert_eq!(outputs[11], false); // Register is now 0x00, so MSB is 0
}

#[test]
fn shift_reg_test_shift_out_reload() {
    // Test loading new data mid-sequence
    let test_data = vec![
        (false, true, 0xF), // Load 0xF (0b1111)
        (true, false, 0x0), // Shift: output 1, reg becomes 0xE (0b1110)
        (true, false, 0x0), // Shift: output 1, reg becomes 0xC (0b1100)
        (false, true, 0x5), // Load 0x5 (0b0101) - interrupts shifting
        (true, false, 0x0), // Shift: output 0, reg becomes 0xA (0b1010)
        (true, false, 0x0), // Shift: output 1, reg becomes 0x4 (0b0100)
    ];

    let outputs = sample_shift_out(4, 1, &test_data);

    // Check the sequence
    assert_eq!(outputs[2], true); // MSB of 0xF = 1
    assert_eq!(outputs[3], true); // MSB of 0xE = 1
    assert_eq!(outputs[4], true); // MSB of 0xC = 1
    assert_eq!(outputs[5], false); // MSB of 0x5 = 0 (newly loaded)
    assert_eq!(outputs[6], true); // MSB of 0xA = 1
    assert_eq!(outputs[7], false); // MSB of 0x4 = 0
}

#[test]
fn shift_reg_test_shift_out_priority() {
    // Test that load has priority over enable
    let test_data = vec![
        (false, true, 0xA), // Load 0xA (0b1010)
        (true, true, 0x5),  // Both enable and load high - load should win
    ];

    let outputs = sample_shift_out(4, 1, &test_data);

    assert_eq!(outputs[2], true); // MSB of 0xA = 1
    assert_eq!(outputs[3], false); // MSB of 0x5 = 0 (load took priority over shift)
}
