use shiftreg::bits::BitWord;
use shiftreg::harness::run;
use shiftreg::shift_out::ShiftOut;

fn word(width: usize, value: u64) -> BitWord {
    BitWord::new(width, value).unwrap()
}

/// One sample per cycle: `reset_hold` forced-reset cycles, then one cycle
/// per input vector, each sampled before the cycle's update.
fn run_shift_out(width: usize, reset_hold: usize, inputs: &[(bool, bool, u64)]) -> Vec<bool> {
    let reg = ShiftOut::new(width).unwrap();
    let vectors: Vec<(bool, bool, BitWord)> = inputs
        .iter()
        .map(|&(enable, load, data)| (enable, load, word(width, data)))
        .collect();
    run(reg, reset_hold, vectors).into_iter().map(|(_, out)| out).collect()
}

#[test]
fn shift_out_test_shift_out_load_and_shift() {
    // Test sequence: load 0xAB, then shift out bit by bit
    let test_data = vec![
        (false, true, 0xAB),  // Load 0xAB (0b10101011)
        (true, false, 0x00),  // Shift: output MSB=1, reg becomes 0x56 (0b01010110)
        (true, false, 0x00),  // Shift: output MSB=0, reg becomes 0xAC (0b10101100)
        (true, false, 0x00),  // Shift: output MSB=1, reg becomes 0x58 (0b01011000)
        (true, false, 0x00),  // Shift: output MSB=0, reg becomes 0xB0 (0b10110000)
        (true, false, 0x00),  // Shift: output MSB=1, reg becomes 0x60 (0b01100000)
        (true, false, 0x00),  // Shift: output MSB=0, reg becomes 0xC0 (0b11000000)
        (true, false, 0x00),  // Shift: output MSB=1, reg becomes 0x80 (0b10000000)
        (true, false, 0x00),  // Shift: output MSB=1, reg becomes 0x00 (0b00000000)
        (false, false, 0x00), // Disabled - should hold at 0x00
    ];

    let outputs = run_shift_out(8, 1, &test_data);

    let expected = vec![
        false, // Reset cycle - output false
        false, // Load cycle samples the cleared register - output false
        true,  // After load 0xAB, output=MSB(0xAB)=true (bit 7 = 1)
        false, // After 1st shift, output=MSB(0x56)=false (bit 7 = 0)
        true,  // After 2nd shift, output=MSB(0xAC)=true (bit 7 = 1)
        false, // After 3rd shift, output=MSB(0x58)=false (bit 7 = 0)
        true,  // After 4th shift, output=MSB(0xB0)=true (bit 7 = 1)
        false, // After 5th shift, output=MSB(0x60)=false (bit 7 = 0)
        true,  // After 6th shift, output=MSB(0xC0)=true (bit 7 = 1)
        true,  // After 7th shift, output=MSB(0x80)=true (bit 7 = 1)
        false, // After 8th shift, output=MSB(0x00)=false (bit 7 = 0)
    ];

    assert_eq!(outputs, expected);
}

#[test]
fn shift_out_test_shift_out_reload() {
    // Test loading new data mid-sequence
    let test_data = vec![
        (false, true, 0xF), // Load 0xF (0b1111)
        (true, false, 0x0), // Shift: output 1, reg becomes 0xE (0b1110)
        (true, false, 0x0), // Shift: output 1, reg becomes 0xC (0b1100)
        (false, true, 0x5), // Load 0x5 (0b0101) - interrupts shifting
        (true, false, 0x0), // Shift: output 0, reg becomes 0xA (0b1010)
        (true, false, 0x0), // Shift: output 1, reg becomes 0x4 (0b0100)
    ];

    let outputs = run_shift_out(4, 1, &test_data);

    let expected = vec![
        false, // Reset cycle - output false
        false, // Load cycle samples the cleared register - output false
        true,  // After load 0xF, MSB = 1 (bit 3 of 0b1111)
        true,  // After 1st shift (0xE), MSB = 1 (bit 3 of 0b1110)
        true,  // After 2nd shift (0xC), MSB = 1 (bit 3 of 0b1100)
        false, // After reload with 0x5, MSB = 0 (bit 3 of 0b0101)
        true,  // After shift (0xA), MSB = 1 (bit 3 of 0b1010)
    ];

    assert_eq!(outputs, expected);
}

#[test]
fn shift_out_test_shift_out_priority() {
    // Test that load has priority over enable
    let test_data = vec![
        (false, true, 0xA), // Load 0xA (0b1010)
        (true, true, 0x5),  // Both enable and load high - load should win
    ];

    let outputs = run_shift_out(4, 1, &test_data);

    let expected = vec![
        false, // Reset cycle - output false
        false, // Load cycle samples the cleared register - output false
        true,  // After load 0xA, MSB = 1 (bit 3 of 0b1010)
    ];

    assert_eq!(outputs, expected);
}
