use sdr_pdu::hackrf::scrambler::Scrambler;

struct Descrambler {
    state: u32,
    poly: u32,
}

impl Descrambler {
    fn new(poly: u32, seed: u32) -> Self {
        Self { state: seed, poly }
    }

    fn descramble_bit(&mut self, bit: u8) -> u8 {
        let xor_sum = (self.state & self.poly).count_ones() % 2;
        let out_bit = (bit as u32 ^ xor_sum) as u8 & 1;
        self.state = (self.state << 1) | (bit as u32);
        out_bit
    }
}

#[test]
fn test_scrambler_g3ruh() {
    // G3RUH: bits 12 and 17 (1-indexed) -> bits 11 and 16 (0-indexed)
    let poly = (1 << 11) | (1 << 16);
    let mut scr = Scrambler::new(poly, 0);

    assert_eq!(scr.scramble_bit(0), 0);
    assert_eq!(scr.scramble_bit(1), 1);
    for _ in 0..10 {
        scr.scramble_bit(0);
    }
    scr.scramble_bit(0);
    assert_eq!(scr.scramble_bit(0), 1);
}

#[test]
fn scrambler_descrambler_roundtrip() {
    let data: Vec<u8> = (0..64u32).map(|i| (i * 37 + 11) as u8).collect();
    for &(poly, seed) in &[(0x10800u32, 0x1FFFFu32), (0x1FFFF, 0), (0x3, 0xABCDE), (0, 5)] {
        let mut scr = Scrambler::new(poly, seed);
        let mut descr = Descrambler::new(poly, seed);
        for &byte in &data {
            for i in 0..8 {
                let bit = (byte >> (7 - i)) & 1;
                let scrambled = scr.scramble_bit(bit);
                assert_eq!(descr.descramble_bit(scrambled), bit);
            }
        }
    }
}

#[test]
fn scrambler_reset_restarts_sequence() {
    let mut scr = Scrambler::new(0x10800, 0x1FFFF);
    let first: Vec<u8> = (0..32).map(|i| scr.scramble_bit((i % 3 == 0) as u8)).collect();
    scr.reset(0x1FFFF);
    let again: Vec<u8> = (0..32).map(|i| scr.scramble_bit((i % 3 == 0) as u8)).collect();
    assert_eq!(first, again);
}

#[test]
fn scrambler_output_is_parity_xor() {
    // state 0b101 with taps 0b111 has two tapped ones: parity 0
    let mut scr = Scrambler::new(0b111, 0b101);
    assert_eq!(scr.scramble_bit(1), 1);
    // state is now 0b1011: tapped bits 0b011, parity 0
    assert_eq!(scr.scramble_bit(0), 0);
    // state is now 0b10110: tapped bits 0b110, parity 0; input 3 counts as 1
    assert_eq!(scr.scramble_bit(3), 1);
}
