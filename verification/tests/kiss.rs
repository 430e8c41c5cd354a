use bytes::BytesMut;
use sdr_pdu::kiss::{kiss_data_payload, KissDecoder, KissEncoder, FEND, FESC, TFEND, TFESC};

#[test]
fn kiss_test_kiss_decode_simple() {
    let mut decoder = KissDecoder;
    let mut buf = BytesMut::from(&[FEND, 0x00, 0x01, 0x02, 0x03, FEND][..]);
    let res = decoder.decode(&mut buf).unwrap();
    assert_eq!(res, Some(vec![0x00, 0x01, 0x02, 0x03]));
}

#[test]
fn kiss_test_kiss_decode_escaped() {
    let mut decoder = KissDecoder;
    let mut buf = BytesMut::from(&[FEND, 0x00, 0xF0, FESC, TFEND, FESC, TFESC, 0x05, FEND][..]);
    let res = decoder.decode(&mut buf).unwrap();
    assert_eq!(res, Some(vec![0x00, 0xF0, FEND, FESC, 0x05]));
}

#[test]
fn kiss_test_kiss_decode_partial() {
    let mut decoder = KissDecoder;
    let mut buf = BytesMut::from(&[FEND, 0x01, 0x02][..]);
    let res = decoder.decode(&mut buf).unwrap();
    assert_eq!(res, None);

    buf.extend_from_slice(&[0x03, FEND]);
    let res = decoder.decode(&mut buf).unwrap();
    assert_eq!(res, Some(vec![0x01, 0x02, 0x03]));
}

#[test]
fn kiss_test_kiss_multiple_frames() {
    let mut decoder = KissDecoder;
    let mut buf = BytesMut::from(&[FEND, 0x01, FEND, FEND, 0x02, FEND][..]);

    let res1 = decoder.decode(&mut buf).unwrap();
    assert_eq!(res1, Some(vec![0x01]));

    let res2 = decoder.decode(&mut buf).unwrap();
    assert_eq!(res2, Some(vec![0x02]));
}

#[test]
fn test_kiss_encode_simple() {
    let mut encoder = KissEncoder;
    let mut buf = BytesMut::new();
    encoder
        .encode(vec![0x00, 0x01, 0x02, 0x03], &mut buf)
        .unwrap();
    assert_eq!(buf, &[FEND, 0x00, 0x01, 0x02, 0x03, FEND][..]);
}

#[test]
fn test_kiss_encode_escaped() {
    let mut encoder = KissEncoder;
    let mut buf = BytesMut::new();
    encoder
        .encode(vec![0x00, FEND, FESC, 0x05], &mut buf)
        .unwrap();
    assert_eq!(buf, &[FEND, 0x00, FESC, TFEND, FESC, TFESC, 0x05, FEND][..]);
}

#[test]
fn test_kiss_roundtrip() {
    let mut encoder = KissEncoder;
    let mut decoder = KissDecoder;
    let mut buf = BytesMut::new();
    let original = vec![0x00, 0xF0, FEND, FESC, 0x05];

    encoder.encode(original.clone(), &mut buf).unwrap();
    let decoded = decoder.decode(&mut buf).unwrap().unwrap();

    assert_eq!(decoded, original);
}

#[test]
fn kiss_roundtrip_keeps_following_bytes() {
    let mut encoder = KissEncoder;
    let mut decoder = KissDecoder;
    for len in 1..40usize {
        let payload: Vec<u8> = (0..len).map(|i| [FEND, FESC, TFEND, TFESC, 0x00, 0x7E][i % 6] ^ (i as u8 & 1)).collect();
        let mut buf = BytesMut::new();
        encoder.encode(payload.clone(), &mut buf).unwrap();
        buf.extend_from_slice(&[0x11, FEND, 0x22]);
        let decoded = decoder.decode(&mut buf).unwrap();
        assert_eq!(decoded, Some(payload));
        assert_eq!(buf, &[0x11, FEND, 0x22][..]);
    }
}

#[test]
fn kiss_decode_discards_leading_garbage() {
    let mut decoder = KissDecoder;
    let mut buf = BytesMut::from(&[0x10, 0x20, FEND, 0x41, FEND, 0x99][..]);
    assert_eq!(decoder.decode(&mut buf).unwrap(), Some(vec![0x41]));
    assert_eq!(buf, &[0x99][..]);
}

#[test]
fn kiss_decode_trailing_escape_dropped() {
    let mut decoder = KissDecoder;
    let mut buf = BytesMut::from(&[FEND, 0x41, FESC, FEND][..]);
    assert_eq!(decoder.decode(&mut buf).unwrap(), Some(vec![0x41]));
    assert!(buf.is_empty());
}

#[test]
fn kiss_decode_unknown_escape_kept() {
    let mut decoder = KissDecoder;
    let mut buf = BytesMut::from(&[FEND, FESC, 0x33, FEND][..]);
    assert_eq!(decoder.decode(&mut buf).unwrap(), Some(vec![0x33]));
}

#[test]
fn kiss_decode_only_empty_frames() {
    let mut decoder = KissDecoder;
    let mut buf = BytesMut::from(&[FEND, FEND, FESC, FEND, 0x05][..]);
    assert_eq!(decoder.decode(&mut buf).unwrap(), None);
    assert_eq!(buf, &[FEND, 0x05][..]);
}

#[test]
fn kiss_decode_clears_long_unframed_input() {
    let mut decoder = KissDecoder;
    let mut buf = BytesMut::from(&vec![0x55u8; 8193][..]);
    assert_eq!(decoder.decode(&mut buf).unwrap(), None);
    assert!(buf.is_empty());

    let mut buf = BytesMut::from(&vec![0x55u8; 8192][..]);
    assert_eq!(decoder.decode(&mut buf).unwrap(), None);
    assert_eq!(buf.len(), 8192);
}

#[test]
fn kiss_decode_waits_for_second_fend() {
    let mut decoder = KissDecoder;
    let mut buf = BytesMut::from(&[0x01, 0x02, FEND, 0x03][..]);
    assert_eq!(decoder.decode(&mut buf).unwrap(), None);
    assert_eq!(buf, &[FEND, 0x03][..]);
}

#[test]
fn kiss_encode_appends() {
    let mut encoder = KissEncoder;
    let mut buf = BytesMut::from(&[0x99][..]);
    encoder.encode(vec![], &mut buf).unwrap();
    assert_eq!(buf, &[0x99, FEND, FEND][..]);
}

#[test]
fn kiss_data_payload_strips_command() {
    assert_eq!(kiss_data_payload(vec![0x00, 0x48, 0x69]), Some(vec![0x48, 0x69]));
    assert_eq!(kiss_data_payload(vec![0x10, 0x48]), Some(vec![0x48]));
    assert_eq!(kiss_data_payload(vec![0x01, 0x48]), None);
    assert_eq!(kiss_data_payload(vec![0x0F]), None);
    assert_eq!(kiss_data_payload(vec![]), None);
    assert_eq!(kiss_data_payload(vec![0x00]), Some(vec![]));
}

#[test]
fn kiss_stream_decodes_in_order_then_empty() {
    let mut encoder = KissEncoder;
    let mut decoder = KissDecoder;
    let payloads: Vec<Vec<u8>> = vec![
        vec![0x00, 0x01],
        vec![FEND],
        vec![FESC, FESC, TFEND],
        vec![0x42; 300],
        vec![TFESC, FEND, 0x00],
    ];
    let mut buf = BytesMut::new();
    for p in &payloads {
        encoder.encode(p.clone(), &mut buf).unwrap();
    }
    for p in &payloads {
        assert_eq!(decoder.decode(&mut buf).unwrap(), Some(p.clone()));
    }
    assert!(buf.is_empty());
    assert_eq!(decoder.decode(&mut buf).unwrap(), None);
    assert!(buf.is_empty());
}

#[test]
fn kiss_try_encode_appends_when_it_fits() {
    let mut encoder = KissEncoder;
    let mut buf = BytesMut::from(&[0x01u8][..]);
    let r = encoder.try_encode(vec![FEND, 0x02], &mut buf);
    assert!(matches!(r, Some(Ok(()))));
    assert_eq!(buf, &[0x01, FEND, FESC, TFEND, 0x02, FEND][..]);
}
