use std::f64::consts::PI;

use sdr_pdu::hackrf::modulator::FskModulator as FskModulator8;
use sdr_pdu::hackrf::nco::TableNco as TableNco8;
use sdr_pdu::hackrf::scrambler::Scrambler;
use sdr_pdu::hex::HexError;
use sdr_pdu::pluto::modulator::FskModulator as FskModulator16;

fn lut_i8(lut_size_bits: u32) -> Vec<u16> {
    let size = 1usize << lut_size_bits;
    (0..size)
        .map(|i| {
            let angle = 2.0 * PI * (i as f64) / (size as f64);
            let s = (angle.sin() * 127.0) as i8;
            let c = (angle.cos() * 127.0) as i8;
            (c as u8 as u16) | ((s as u8 as u16) << 8)
        })
        .collect()
}

fn lut_i16(lut_size_bits: u32) -> Vec<u32> {
    let size = 1usize << lut_size_bits;
    (0..size)
        .map(|i| {
            let angle = 2.0 * PI * (i as f64) / (size as f64);
            let s = (angle.sin() * 32767.0) as i16;
            let c = (angle.cos() * 32767.0) as i16;
            (c as u16 as u32) | ((s as u16 as u32) << 16)
        })
        .collect()
}

/// End sample of each bit, as the transmitters time them.
fn bit_ends(n_bits: usize, sample_rate: u32, baud_rate: u32) -> Vec<usize> {
    let sps = sample_rate as f64 / baud_rate as f64;
    let mut bit_counter = 1.0;
    let mut ends = Vec::with_capacity(n_bits);
    for _ in 0..n_bits {
        ends.push((bit_counter * sps).floor() as usize);
        bit_counter += 1.0;
    }
    ends
}

#[test]
fn modulator_test_modulator_length() {
    let mut modulat = FskModulator8::new(1000000, 2400, lut_i8(10));
    let data = vec![0xAA]; // 10101010
    let samples = modulat.modulate(&data, &bit_ends(8, 1000000, 9600));
    assert!(samples.len() / 2 >= 833);
    assert!(samples.len() / 2 <= 835);

    let mut modulat = FskModulator16::new(1000000, 2400, lut_i16(10));
    let samples = modulat.modulate(&data, &bit_ends(8, 1000000, 9600));
    assert!(samples.len() / 2 >= 833);
    assert!(samples.len() / 2 <= 835);
}

#[test]
fn modulator_follows_bits_with_continuous_phase() {
    // 2 samples per bit; 0x80 is one bit 1 then seven bits 0.
    let ends: Vec<usize> = (1..=8).map(|k| 2 * k).collect();
    let mut m = FskModulator8::new(1000000, 2400, lut_i8(10));
    let out = m.modulate(&[0x80], &ends);

    let pos = ((2400u64 << 32) / 1000000) as u32;
    assert_eq!(pos, 10307921);
    let neg = pos.wrapping_neg();
    let mut nco = TableNco8::new(10, lut_i8(10));
    let mut expected = Vec::new();
    for k in 0..16 {
        let (i, q) = nco.next(if k < 2 { pos } else { neg });
        expected.push(i);
        expected.push(q);
    }
    assert_eq!(out, expected);

    // Every frame starts from the phase the cached preamble ends at, here
    // (no preamble) the initial phase.
    let out2 = m.modulate(&[0xFF], &ends);
    nco.set_phase(0);
    let mut expected2 = Vec::new();
    for _ in 0..16 {
        let (i, q) = nco.next(pos);
        expected2.push(i);
        expected2.push(q);
    }
    assert_eq!(out2, expected2);
}

#[test]
fn modulator_uneven_schedule() {
    // Bits end at samples 3, 3, 2 (never taken back), 7, ...
    let ends = vec![3usize, 3, 2, 7, 7, 8, 8, 10];
    let mut m = FskModulator16::new(48000, 1200, lut_i16(10));
    let out = m.modulate(&[0x5A], &ends);
    assert_eq!(out.len(), 2 * 10);
}

#[test]
fn modulator_scrambles_bits() {
    let ends: Vec<usize> = (1..=16).collect();
    let mut plain = FskModulator8::new(1000000, 2400, lut_i8(10));
    let mut scrambled = FskModulator8::new(1000000, 2400, lut_i8(10));
    scrambled.set_scrambler(0x10800, 0x1FFFF);
    let data = [0x00u8, 0x00];
    let s1 = scrambled.modulate(&data, &ends);
    // The scrambler restarts from its seed for each frame.
    let s2 = scrambled.modulate(&data, &ends);
    let mut reference = FskModulator8::new(1000000, 2400, lut_i8(10));
    reference.set_scrambler(0x10800, 0x1FFFF);
    let r1 = reference.modulate(&data, &ends);
    assert_eq!(s1, r1);
    assert_eq!(s1.len(), s2.len());

    // Modulating the scrambled bits without scrambler gives the same samples.
    let mut scr = Scrambler::new(0x10800, 0x1FFFF);
    let mut line = vec![0u8; 2];
    for k in 0..16 {
        let b = scr.scramble_bit(0);
        line[k / 8] |= b << (7 - (k % 8));
    }
    let p1 = plain.modulate(&line, &ends);
    assert_eq!(p1, s1);
}

#[test]
fn modulator_preamble_and_syncword() {
    let ends: Vec<usize> = (1..=64).map(|k| 3 * k).collect();
    let mut m = FskModulator8::new(1000000, 2400, lut_i8(10));
    assert!(m.get_preamble_syncword_iq().is_empty());
    m.set_preamble_and_syncword("0x55", 2, "0x7E", &ends).unwrap();
    let mut reference = FskModulator8::new(1000000, 2400, lut_i8(10));
    let expected = reference.modulate(&[0x55, 0x55, 0x7E], &ends);
    assert_eq!(m.get_preamble_syncword_iq(), &expected[..]);

    assert_eq!(m.set_preamble_and_syncword("0x555", 2, "0x7E", &ends), Err(HexError::InvalidHexByte(b"555".to_vec())));
    assert_eq!(m.set_preamble_and_syncword("0x55", 2, "0xZZ", &ends), Err(HexError::ParseError(b"ZZ".to_vec())));
    assert_eq!(m.get_preamble_syncword_iq(), &expected[..]);

    let mut p = FskModulator16::new(1000000, 2400, lut_i16(10));
    p.set_preamble_and_syncword("55", 1, "1ACFFC1D", &ends).unwrap();
    assert_eq!(p.get_preamble_syncword_iq().len(), 2 * 3 * 40);
}

#[test]
fn modulator_frames_continue_the_preamble_phase() {
    // Three samples per bit, so that the bit schedule of a frame is that of
    // the preamble shifted.
    let ends: Vec<usize> = (1..=64).map(|k| 3 * k).collect();
    let frames: [&[u8]; 2] = [&[0xC3, 0x01], &[0x7F]];

    let mut m = FskModulator8::new(1000000, 2400, lut_i8(10));
    m.set_preamble_and_syncword("0x55", 2, "0x7E", &ends).unwrap();
    let pre = m.get_preamble_syncword_iq().to_vec();
    let mut p = FskModulator16::new(1000000, 2400, lut_i16(10));
    p.set_preamble_and_syncword("0x55", 2, "0x7E", &ends).unwrap();
    let pre16 = p.get_preamble_syncword_iq().to_vec();

    for frame in frames {
        // Preamble, syncword and frame make one continuous-phase signal.
        let mut all = vec![0x55u8, 0x55, 0x7E];
        all.extend_from_slice(frame);
        let mut whole = pre.clone();
        whole.extend(m.modulate(frame, &ends));
        let mut reference = FskModulator8::new(1000000, 2400, lut_i8(10));
        assert_eq!(whole, reference.modulate(&all, &ends));

        let mut whole16 = pre16.clone();
        whole16.extend(p.modulate(frame, &ends));
        let mut reference16 = FskModulator16::new(1000000, 2400, lut_i16(10));
        assert_eq!(whole16, reference16.modulate(&all, &ends));
    }
}
