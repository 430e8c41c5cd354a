use sdr_pdu::radio::{split_iq, tx_lo_frequency, LoTuning};

#[test]
fn lo_frequency_with_offset() {
    assert_eq!(tx_lo_frequency(144_000_000, -1234), 143_998_766);
    assert_eq!(tx_lo_frequency(144_000_000, 0), 144_000_000);
    assert_eq!(tx_lo_frequency(0, -1), u64::MAX);
}

#[test]
fn lo_tuning_skips_same_frequency() {
    let mut t = LoTuning::new(100);
    assert_eq!(t.retune_target(0), None);
    assert_eq!(t.retune_target(145_000_000), Some(145_000_100));
    t.tuned(145_000_000);
    assert_eq!(t.retune_target(145_000_000), None);
    assert_eq!(t.retune_target(145_000_001), Some(145_000_101));
    assert!(!t.needs_retune(145_000_000));
    assert!(t.needs_retune(145_000_001));
}

#[test]
fn split_iq_channels() {
    let (i, q) = split_iq(&[1, -1, 2, -2, 3]);
    assert_eq!(i, vec![1, 2]);
    assert_eq!(q, vec![-1, -2]);
    let (i, q) = split_iq(&[]);
    assert!(i.is_empty() && q.is_empty());
}
