use std::f64::consts::PI;

use sdr_pdu::hackrf::nco::TableNco as TableNco8;
use sdr_pdu::pluto::nco::TableNco as TableNco16;

fn lut_i8(lut_size_bits: u32) -> Vec<u16> {
    let size = 1usize << lut_size_bits;
    (0..size)
        .map(|i| {
            let angle = 2.0 * PI * (i as f64) / (size as f64);
            let s = (angle.sin() * 127.0) as i8;
            let c = (angle.cos() * 127.0) as i8;
            (c as u8 as u16) | ((s as u8 as u16) << 8)
        })
        .collect()
}

fn lut_i16(lut_size_bits: u32) -> Vec<u32> {
    let size = 1usize << lut_size_bits;
    (0..size)
        .map(|i| {
            let angle = 2.0 * PI * (i as f64) / (size as f64);
            let s = (angle.sin() * 32767.0) as i16;
            let c = (angle.cos() * 32767.0) as i16;
            (c as u16 as u32) | ((s as u16 as u32) << 16)
        })
        .collect()
}

#[test]
fn nco_test_nco_dc() {
    let mut nco = TableNco8::new(10, lut_i8(10));
    let (i, q) = nco.next(0);
    assert_eq!(i, 127);
    assert_eq!(q, 0);

    let (i, q) = nco.next(0);
    assert_eq!(i, 127);
    assert_eq!(q, 0);

    let mut nco = TableNco16::new(10, lut_i16(10));
    let (i, q) = nco.next(0);
    assert_eq!(i, 32767);
    assert_eq!(q, 0);

    let (i, q) = nco.next(0);
    assert_eq!(i, 32767);
    assert_eq!(q, 0);
}

#[test]
fn nco_test_nco_quarter_cycle() {
    let mut nco = TableNco8::new(10, lut_i8(10));
    // Phase increment for 1/4 cycle: 2^32 / 4 = 2^30
    let inc = 1u32 << 30;

    let (i, q) = nco.next(inc);
    assert_eq!(i, 127);
    assert_eq!(q, 0);

    let (i, q) = nco.next(inc);
    // At 90 degrees
    assert!(i.abs() < 2);
    assert!(q > 125);

    let (i, q) = nco.next(inc);
    // At 180 degrees
    assert!(i < -125);
    assert!(q.abs() < 2);

    let (i, q) = nco.next(inc);
    // At 270 degrees
    assert!(i.abs() < 2);
    assert!(q < -125);

    let mut nco = TableNco16::new(10, lut_i16(10));
    let (i, q) = nco.next(inc);
    assert_eq!(i, 32767);
    assert_eq!(q, 0);

    let (i, q) = nco.next(inc);
    assert!(i.abs() < 100);
    assert!(q > 32600);

    let (i, q) = nco.next(inc);
    assert!(i < -32600);
    assert!(q.abs() < 100);

    let (i, q) = nco.next(inc);
    assert!(i.abs() < 100);
    assert!(q < -32600);
}

#[test]
fn nco_fill_buffer_matches_next() {
    for &lut_bits in &[4u32, 7, 10, 15] {
        for &phase_inc in &[0u32, 1, 12345, 1 << 30, 0xDEADBEEF, u32::MAX] {
            for &num_samples in &[1usize, 2, 3, 5, 17, 64] {
                let mut nco1 = TableNco8::new(lut_bits, lut_i8(lut_bits));
                let mut nco2 = TableNco8::new(lut_bits, lut_i8(lut_bits));
                let mut samples_next = Vec::new();
                for _ in 0..num_samples {
                    let (i, q) = nco1.next(phase_inc);
                    samples_next.push(i);
                    samples_next.push(q);
                }
                let mut samples_fill = vec![0i8; num_samples * 2];
                nco2.fill_buffer(phase_inc, &mut samples_fill);
                assert_eq!(samples_next, samples_fill);
                assert_eq!(nco1.next(0), nco2.next(0));

                let mut nco3 = TableNco16::new(lut_bits, lut_i16(lut_bits));
                let mut nco4 = TableNco16::new(lut_bits, lut_i16(lut_bits));
                let mut next16 = Vec::new();
                for _ in 0..num_samples {
                    let (i, q) = nco3.next(phase_inc);
                    next16.push(i);
                    next16.push(q);
                }
                let mut fill16 = vec![0i16; num_samples * 2];
                nco4.fill_buffer(phase_inc, &mut fill16);
                assert_eq!(next16, fill16);
                assert_eq!(nco3.next(0), nco4.next(0));
            }
        }
    }
}

#[test]
fn nco_fill_buffer_leaves_odd_tail() {
    let mut nco = TableNco8::new(10, lut_i8(10));
    let mut buf = vec![9i8; 5];
    nco.fill_buffer(0, &mut buf);
    assert_eq!(buf, vec![127, 0, 127, 0, 9]);

    let mut nco = TableNco16::new(10, lut_i16(10));
    let mut buf = vec![7i16; 1];
    nco.fill_buffer(1 << 30, &mut buf);
    assert_eq!(buf, vec![7]);
    assert_eq!(nco.next(0), (32767, 0));
}

#[test]
fn nco_set_phase() {
    let mut nco = TableNco8::new(10, lut_i8(10));
    nco.set_phase(1 << 31);
    let (i, q) = nco.next(0);
    assert!(i < -125);
    assert!(q.abs() < 2);
}
